//! Joining stored fund rows with their brokerage-rate rows.
use vstd::prelude::*;
use crate::cell::Decimal;
use crate::index::{CalendarDate, CombinedSchemeData};
use crate::text::{canonical, canonicalize};

verus! {

/// One stored fund row.
pub struct FundRow {
    pub fund_id: i32,
    pub fund_category: String,
    pub launch_date: Option<String>,
    pub fund_size_apr25: Option<Decimal>,
    pub fund_size_may25: Option<Decimal>,
    pub latest_nav: Option<Decimal>,
    pub month_1: Option<Decimal>,
    pub months_3: Option<Decimal>,
    pub months_6: Option<Decimal>,
    pub ytd: Option<Decimal>,
    pub year_1: Option<Decimal>,
    pub years_2: Option<Decimal>,
    pub years_3: Option<Decimal>,
    pub years_5: Option<Decimal>,
    pub scheme_name: String,
}

/// One brokerage-rate row; `is_approved` unset counts as approved.
pub struct RateRow {
    pub rate_id: i32,
    pub arn: String,
    pub company: String,
    pub scheme_name: String,
    pub scheme_category: String,
    pub brokerage_type: String,
    pub start_date: CalendarDate,
    pub end_date: Option<CalendarDate>,
    pub is_approved: Option<bool>,
    pub base_year_1: Option<Decimal>,
    pub base_year_2: Option<Decimal>,
    pub base_year_3: Option<Decimal>,
}

/// `a` is no later than `b`.
pub open spec fn date_le(a: CalendarDate, b: CalendarDate) -> bool {
    a.year < b.year || (a.year == b.year && (a.month < b.month || (a.month == b.month && a.day
        <= b.day)))
}

/// A rate row that is approved and whose validity has not ended by `today`.
pub open spec fn rate_in_force(r: RateRow, today: CalendarDate) -> bool {
    &&& r.is_approved != Some(false)
    &&& match r.end_date {
        Some(end) => date_le(today, end),
        None => true,
    }
}

/// The rate row for the key `k`: the first in force whose name has key `k`.
pub open spec fn rate_for(rates: Seq<RateRow>, k: Seq<char>, today: CalendarDate) -> Option<int>
    decreases rates.len(),
{
    if rates.len() == 0 {
        None
    } else {
        match rate_for(rates.drop_last(), k, today) {
            Some(i) => Some(i),
            None => if rate_in_force(rates.last(), today) && canonical(rates.last().scheme_name@)
                == k {
                Some(rates.len() - 1)
            } else {
                None
            },
        }
    }
}

/// `c` is fund row `f` joined with rate row `r`, or with no rate row.
pub open spec fn joined(c: CombinedSchemeData, f: FundRow, r: Option<RateRow>) -> bool {
    &&& c.fund_id == Some(f.fund_id)
    &&& c.fund_category == Some(f.fund_category)
    &&& c.launch_date == f.launch_date
    &&& c.fund_size_apr25 == f.fund_size_apr25
    &&& c.fund_size_may25 == f.fund_size_may25
    &&& c.latest_nav == f.latest_nav
    &&& c.month_1 == f.month_1
    &&& c.months_3 == f.months_3
    &&& c.months_6 == f.months_6
    &&& c.ytd == f.ytd
    &&& c.year_1 == f.year_1
    &&& c.years_2 == f.years_2
    &&& c.years_3 == f.years_3
    &&& c.years_5 == f.years_5
    &&& c.scheme_name == f.scheme_name
    &&& c.normalized_name@ == canonical(f.scheme_name@)
    &&& match r {
        Some(r) => {
            &&& c.rate_id == Some(r.rate_id)
            &&& c.arn == Some(r.arn)
            &&& c.company == Some(r.company)
            &&& c.scheme_category == Some(r.scheme_category)
            &&& c.brokerage_type == Some(r.brokerage_type)
            &&& c.start_date == Some(r.start_date)
            &&& c.end_date == r.end_date
            &&& c.base_year_1 == r.base_year_1
            &&& c.base_year_2 == r.base_year_2
            &&& c.base_year_3 == r.base_year_3
        },
        None => {
            &&& c.rate_id is None
            &&& c.arn is None
            &&& c.company is None
            &&& c.scheme_category is None
            &&& c.brokerage_type is None
            &&& c.start_date is None
            &&& c.end_date is None
            &&& c.base_year_1 is None
            &&& c.base_year_2 is None
            &&& c.base_year_3 is None
        },
    }
}

fn copy_text(s: &String) -> (r: String)
    ensures
        r == *s,
{
    s.clone()
}

fn copy_opt_text(t: &Option<String>) -> (r: Option<String>)
    ensures
        r == *t,
{
    match t {
        Some(s) => Some(s.clone()),
        None => None,
    }
}

fn date_not_after(a: CalendarDate, b: CalendarDate) -> (r: bool)
    ensures
        r == date_le(a, b),
{
    a.year < b.year || (a.year == b.year && (a.month < b.month || (a.month == b.month && a.day
        <= b.day)))
}

fn in_force(r: &RateRow, today: CalendarDate) -> (b: bool)
    ensures
        b == rate_in_force(*r, today),
{
    let approved = match r.is_approved {
        Some(a) => a,
        None => true,
    };
    let current = match r.end_date {
        Some(end) => date_not_after(today, end),
        None => true,
    };
    approved && current
}

fn combine(f: &FundRow, r: Option<&RateRow>) -> (c: CombinedSchemeData)
    ensures
        joined(c, *f, match r {
            Some(x) => Some(*x),
            None => None,
        }),
{
    let normalized_name = canonicalize(f.scheme_name.as_str());
    let mut c = CombinedSchemeData {
        fund_id: Some(f.fund_id),
        fund_category: Some(copy_text(&f.fund_category)),
        launch_date: copy_opt_text(&f.launch_date),
        fund_size_apr25: f.fund_size_apr25,
        fund_size_may25: f.fund_size_may25,
        latest_nav: f.latest_nav,
        month_1: f.month_1,
        months_3: f.months_3,
        months_6: f.months_6,
        ytd: f.ytd,
        year_1: f.year_1,
        years_2: f.years_2,
        years_3: f.years_3,
        years_5: f.years_5,
        rate_id: None,
        arn: None,
        company: None,
        scheme_category: None,
        brokerage_type: None,
        start_date: None,
        end_date: None,
        base_year_1: None,
        base_year_2: None,
        base_year_3: None,
        scheme_name: copy_text(&f.scheme_name),
        normalized_name,
    };
    match r {
        Some(x) => {
            c.rate_id = Some(x.rate_id);
            c.arn = Some(copy_text(&x.arn));
            c.company = Some(copy_text(&x.company));
            c.scheme_category = Some(copy_text(&x.scheme_category));
            c.brokerage_type = Some(copy_text(&x.brokerage_type));
            c.start_date = Some(x.start_date);
            c.end_date = x.end_date;
            c.base_year_1 = x.base_year_1;
            c.base_year_2 = x.base_year_2;
            c.base_year_3 = x.base_year_3;
        },
        None => {},
    }
    c
}

/// Left-joins the fund rows with the rate rows on canonical-name equality:
/// one combined record per fund row, in order, carrying the first rate row
/// of its key that is approved and not past its end date on `today`, or
/// no rate at all.
pub fn join_rates(funds: &Vec<FundRow>, rates: &Vec<RateRow>, today: CalendarDate) -> (out: Vec<
    CombinedSchemeData,
>)
    ensures
        out@.len() == funds@.len(),
        forall|i: int|
            0 <= i < funds@.len() ==> joined(
                #[trigger] out@[i],
                funds@[i],
                match rate_for(rates@, canonical(funds@[i].scheme_name@), today) {
                    Some(j) => Some(rates@[j]),
                    None => None,
                },
            ),
{
    let mut keys: Vec<String> = Vec::new();
    let mut live: Vec<bool> = Vec::new();
    let mut j: usize = 0;
    while j < rates.len()
        invariant
            j <= rates@.len(),
            keys@.len() == j,
            live@.len() == j,
            forall|m: int| 0 <= m < j ==> #[trigger] keys@[m]@ == canonical(rates@[m].scheme_name@),
            forall|m: int| 0 <= m < j ==> #[trigger] live@[m] == rate_in_force(rates@[m], today),
        decreases rates.len() - j,
    {
        keys.push(canonicalize(rates[j].scheme_name.as_str()));
        live.push(in_force(&rates[j], today));
        j += 1;
    }
    let mut out: Vec<CombinedSchemeData> = Vec::new();
    let mut i: usize = 0;
    while i < funds.len()
        invariant
            i <= funds@.len(),
            out@.len() == i,
            keys@.len() == rates@.len(),
            live@.len() == rates@.len(),
            forall|m: int|
                0 <= m < rates@.len() ==> #[trigger] keys@[m]@ == canonical(rates@[m].scheme_name@),
            forall|m: int|
                0 <= m < rates@.len() ==> #[trigger] live@[m] == rate_in_force(rates@[m], today),
            forall|k: int|
                0 <= k < i ==> joined(
                    #[trigger] out@[k],
                    funds@[k],
                    match rate_for(rates@, canonical(funds@[k].scheme_name@), today) {
                        Some(j) => Some(rates@[j]),
                        None => None,
                    },
                ),
        decreases funds.len() - i,
    {
        let key = canonicalize(funds[i].scheme_name.as_str());
        let ghost k = key@;
        let mut j: usize = 0;
        assert(rates@.take(0) =~= Seq::<RateRow>::empty());
        while j < rates.len()
            invariant_except_break
                rate_for(rates@.take(j as int), k, today) is None,
            invariant
                j <= rates@.len(),
                keys@.len() == rates@.len(),
                live@.len() == rates@.len(),
                k == key@,
                forall|m: int|
                    0 <= m < rates@.len() ==> #[trigger] keys@[m]@ == canonical(
                        rates@[m].scheme_name@,
                    ),
                forall|m: int|
                    0 <= m < rates@.len() ==> #[trigger] live@[m] == rate_in_force(rates@[m], today),
            ensures
                j < rates@.len() ==> rate_for(rates@, k, today) == Some(j as int),
                j == rates@.len() ==> rate_for(rates@.take(j as int), k, today) is None,
            decreases rates.len() - j,
        {
            assert(rates@.take(j + 1).drop_last() =~= rates@.take(j as int));
            if live[j] && keys[j] == key {
                proof {
                    lemma_rate_for_prefix(rates@, j as int + 1, k, today);
                }
                break;
            }
            j += 1;
        }
        if j == rates.len() {
            assert(rates@.take(j as int) =~= rates@);
        }
        let c = if j < rates.len() {
            combine(&funds[i], Some(&rates[j]))
        } else {
            combine(&funds[i], None)
        };
        out.push(c);
        i += 1;
    }
    out
}

/// A match within a prefix is the match of the whole sequence.
proof fn lemma_rate_for_prefix(rates: Seq<RateRow>, n: int, k: Seq<char>, today: CalendarDate)
    requires
        0 <= n <= rates.len(),
        rate_for(rates.take(n), k, today) is Some,
    ensures
        rate_for(rates, k, today) == rate_for(rates.take(n), k, today),
    decreases rates.len() - n,
{
    if n < rates.len() {
        assert(rates.take(n + 1).drop_last() =~= rates.take(n));
        lemma_rate_for_prefix(rates, n + 1, k, today);
    } else {
        assert(rates.take(n) =~= rates);
    }
}

} // verus!
