//! Fund records, the row-validity filter and row extraction.
use vstd::prelude::*;
use crate::cell::{Cell, Decimal, cell_text, coerce_cell, coerced, text_of};
use crate::layout::{
    DAYS_14, DAYS_21, DAYS_7, FIELD_COUNT, Layout, cell_at, fixed_column, get_cell, is_fixed_layout,
    same_layout,
};
use crate::text::{
    canonical, canonicalize, chars_of, contains, contains_str, is_space, lower_chars, lower_seq,
    occurs_at, same_chars, space_char, starts_with_str,
};

verus! {

/// One fund's performance snapshot, as read from one row of one sheet.
/// `metrics` holds one value per field of the layout it was read with;
/// `extra` one per extra column.
pub struct FundRecord {
    pub category: String,
    pub scheme_name: String,
    pub canonical_name: String,
    pub launch_date: String,
    pub metrics: Vec<Option<Decimal>>,
    pub extra: Vec<Option<Decimal>>,
}

impl FundRecord {
    /// The canonical name is the key of the scheme name.
    pub open spec fn well_formed(&self) -> bool {
        self.canonical_name@ == canonical(self.scheme_name@)
    }
}

/// What a record holds: category, scheme name, launch date, numeric fields
/// and extra values.
pub type RecordView = (Seq<char>, Seq<char>, Seq<char>, Seq<Option<Decimal>>, Seq<Option<Decimal>>);

pub open spec fn record_view(r: FundRecord) -> RecordView {
    (r.category@, r.scheme_name@, r.launch_date@, r.metrics@, r.extra@)
}

/// Why a row is not a record.
#[derive(Clone, Copy, Debug, PartialEq, Eq)]
pub enum RejectReason {
    EmptyName,
    RepeatedHeader,
    ExitLoadNote,
    CategoryBanner,
    Footnote,
    DashesOnly,
    MissingLaunchDate,
}

/// What became of one data row.
pub enum RowOutcome {
    Accepted(FundRecord),
    Rejected(RejectReason),
}

pub open spec fn dash_or_space(c: char) -> bool {
    c == '-' || space_char(c)
}

pub open spec fn all_dash_or_space(s: Seq<char>) -> bool {
    forall|i: int| 0 <= i < s.len() ==> dash_or_space(#[trigger] s[i])
}

pub open spec fn all_space(s: Seq<char>) -> bool {
    forall|i: int| 0 <= i < s.len() ==> space_char(#[trigger] s[i])
}

/// A name that opens like a footnote.
pub open spec fn footnote(lower_name: Seq<char>) -> bool {
    occurs_at(lower_name, "*"@, 0) || occurs_at(lower_name, "#"@, 0) || occurs_at(
        lower_name,
        "^"@,
        0,
    ) || occurs_at(lower_name, "note:"@, 0) || occurs_at(lower_name, "source:"@, 0)
}

/// The verdict on a row with scheme-name text `n` and launch-date text `d`
/// in a sheet of category `cat`: the first reason that applies, or `None`
/// for a row that is a record.
pub open spec fn row_verdict(cat: Seq<char>, n: Seq<char>, d: Seq<char>) -> Option<RejectReason> {
    let ln = lower_seq(n);
    if n.len() == 0 {
        Some(RejectReason::EmptyName)
    } else if contains(ln, "scheme name"@) || contains(ln, "fund name"@) {
        Some(RejectReason::RepeatedHeader)
    } else if contains(ln, "to view exit loads"@) {
        Some(RejectReason::ExitLoadNote)
    } else if n == cat {
        Some(RejectReason::CategoryBanner)
    } else if footnote(ln) {
        Some(RejectReason::Footnote)
    } else if all_dash_or_space(n) {
        Some(RejectReason::DashesOnly)
    } else if all_space(d) {
        Some(RejectReason::MissingLaunchDate)
    } else {
        None
    }
}

fn only_dashes_or_spaces(s: &Vec<char>) -> (r: bool)
    ensures
        r == all_dash_or_space(s@),
{
    let mut i: usize = 0;
    while i < s.len()
        invariant
            i <= s.len(),
            forall|k: int| 0 <= k < i ==> dash_or_space(#[trigger] s@[k]),
        decreases s.len() - i,
    {
        if !(s[i] == '-' || is_space(s[i])) {
            assert(!dash_or_space(s@[i as int]));
            return false;
        }
        i += 1;
    }
    true
}

fn only_spaces(s: &Vec<char>) -> (r: bool)
    ensures
        r == all_space(s@),
{
    let mut i: usize = 0;
    while i < s.len()
        invariant
            i <= s.len(),
            forall|k: int| 0 <= k < i ==> space_char(#[trigger] s@[k]),
        decreases s.len() - i,
    {
        if !is_space(s[i]) {
            return false;
        }
        i += 1;
    }
    true
}

/// Applies the row-validity filter to a row's scheme-name and launch-date
/// texts: `None` where the row is a record, else the first reason it is not.
pub fn check_row(category: &str, name: &str, launch_date: &str) -> (r: Option<RejectReason>)
    ensures
        r == row_verdict(category@, name@, launch_date@),
{
    let n = chars_of(name);
    let ln = lower_chars(&n);
    if n.len() == 0 {
        Some(RejectReason::EmptyName)
    } else if contains_str(&ln, "scheme name") || contains_str(&ln, "fund name") {
        Some(RejectReason::RepeatedHeader)
    } else if contains_str(&ln, "to view exit loads") {
        Some(RejectReason::ExitLoadNote)
    } else if same_chars(&n, &chars_of(category)) {
        Some(RejectReason::CategoryBanner)
    } else if starts_with_str(&ln, "*") || starts_with_str(&ln, "#") || starts_with_str(&ln, "^")
        || starts_with_str(&ln, "note:") || starts_with_str(&ln, "source:") {
        Some(RejectReason::Footnote)
    } else if only_dashes_or_spaces(&n) {
        Some(RejectReason::DashesOnly)
    } else if only_spaces(&chars_of(launch_date)) {
        Some(RejectReason::MissingLaunchDate)
    } else {
        None
    }
}

/// The text of the cell at row `r`, column `c`; empty where there is none.
pub open spec fn text_at(rows: Seq<Vec<Cell>>, r: int, c: int) -> Seq<char> {
    match cell_at(rows, r, c) {
        Some(x) => text_of(x),
        None => Seq::empty(),
    }
}

/// The value of a numeric field read from column `col` of row `r`.
pub open spec fn value_at(rows: Seq<Vec<Cell>>, r: int, col: Option<usize>) -> Option<Decimal> {
    match col {
        Some(c) => match cell_at(rows, r, c as int) {
            Some(x) => coerced(x),
            None => None,
        },
        None => None,
    }
}

/// `rec` is the record read from row `r` under layout `l` in a sheet of
/// category `cat`.
pub open spec fn is_row_record(
    rec: FundRecord,
    cat: Seq<char>,
    rows: Seq<Vec<Cell>>,
    r: int,
    l: Layout,
) -> bool {
    &&& rec.category@ == cat
    &&& rec.scheme_name@ == text_at(rows, r, l.name_col as int)
    &&& rec.well_formed()
    &&& rec.launch_date@ == text_at(rows, r, l.date_col as int)
    &&& rec.metrics@.len() == l.fields@.len()
    &&& forall|f: int|
        0 <= f < l.fields@.len() ==> #[trigger] rec.metrics@[f] == value_at(rows, r, l.fields@[f])
    &&& rec.extra@.len() == l.extra_cols@.len()
    &&& forall|i: int|
        0 <= i < l.extra_cols@.len() ==> #[trigger] rec.extra@[i] == value_at(
            rows,
            r,
            Some(l.extra_cols@[i]),
        )
}

/// `o` is what the row filter and extraction make of row `r`.
pub open spec fn is_row_outcome(
    o: RowOutcome,
    cat: Seq<char>,
    rows: Seq<Vec<Cell>>,
    r: int,
    l: Layout,
) -> bool {
    match row_verdict(cat, text_at(rows, r, l.name_col as int), text_at(rows, r, l.date_col as int)) {
        Some(reason) => o == RowOutcome::Rejected(reason),
        None => o matches RowOutcome::Accepted(rec) && is_row_record(rec, cat, rows, r, l),
    }
}

/// A record read under a fixed layout takes each numeric field from that
/// layout's column; under the reduced layout the 7-, 14- and 21-day fields
/// are absent.
pub proof fn lemma_fixed_layout_record(
    rec: FundRecord,
    cat: Seq<char>,
    rows: Seq<Vec<Cell>>,
    r: int,
    l: Layout,
    full: bool,
)
    requires
        is_fixed_layout(l, full),
        is_row_record(rec, cat, rows, r, l),
    ensures
        rec.metrics@.len() == FIELD_COUNT,
        forall|f: int|
            0 <= f < FIELD_COUNT ==> #[trigger] rec.metrics@[f] == value_at(
                rows,
                r,
                fixed_column(full, f),
            ),
        !full ==> rec.metrics@[DAYS_7 as int] is None && rec.metrics@[DAYS_14 as int] is None
            && rec.metrics@[DAYS_21 as int] is None,
{
    assert(rec.metrics@[DAYS_7 as int] == value_at(rows, r, l.fields@[DAYS_7 as int]));
    assert(rec.metrics@[DAYS_14 as int] == value_at(rows, r, l.fields@[DAYS_14 as int]));
    assert(rec.metrics@[DAYS_21 as int] == value_at(rows, r, l.fields@[DAYS_21 as int]));
    assert(l.fields@[DAYS_7 as int] == fixed_column(full, DAYS_7 as int));
    assert(l.fields@[DAYS_14 as int] == fixed_column(full, DAYS_14 as int));
    assert(l.fields@[DAYS_21 as int] == fixed_column(full, DAYS_21 as int));
}

fn text_of_cell_at(rows: &Vec<Vec<Cell>>, r: usize, c: usize) -> (t: String)
    ensures
        t@ == text_at(rows@, r as int, c as int),
{
    match get_cell(rows, r, c) {
        Some(x) => cell_text(x),
        None => String::new(),
    }
}

fn value_of_cell_at(rows: &Vec<Vec<Cell>>, r: usize, col: Option<usize>) -> (v: Option<Decimal>)
    ensures
        v == value_at(rows@, r as int, col),
{
    match col {
        Some(c) => match get_cell(rows, r, c) {
            Some(x) => coerce_cell(x),
            None => None,
        },
        None => None,
    }
}

/// Reads row `row_idx` of a sheet under a layout: the row filter decides
/// whether it is a record; a record's numeric fields are coerced from the
/// cells the layout names.
pub fn parse_fund_row(category: &str, rows: &Vec<Vec<Cell>>, row_idx: usize, layout: &Layout) -> (o:
    RowOutcome)
    ensures
        is_row_outcome(o, category@, rows@, row_idx as int, *layout),
{
    let scheme_name = text_of_cell_at(rows, row_idx, layout.name_col);
    let launch_date = text_of_cell_at(rows, row_idx, layout.date_col);
    match check_row(category, scheme_name.as_str(), launch_date.as_str()) {
        Some(reason) => {
            return RowOutcome::Rejected(reason);
        },
        None => {},
    }
    let mut metrics: Vec<Option<Decimal>> = Vec::new();
    let mut f: usize = 0;
    while f < layout.fields.len()
        invariant
            f <= layout.fields@.len(),
            metrics@.len() == f,
            forall|g: int|
                0 <= g < f ==> #[trigger] metrics@[g] == value_at(
                    rows@,
                    row_idx as int,
                    layout.fields@[g],
                ),
        decreases layout.fields.len() - f,
    {
        metrics.push(value_of_cell_at(rows, row_idx, layout.fields[f]));
        f += 1;
    }
    let mut extra: Vec<Option<Decimal>> = Vec::new();
    let mut i: usize = 0;
    while i < layout.extra_cols.len()
        invariant
            i <= layout.extra_cols@.len(),
            extra@.len() == i,
            forall|g: int|
                0 <= g < i ==> #[trigger] extra@[g] == value_at(
                    rows@,
                    row_idx as int,
                    Some(layout.extra_cols@[g]),
                ),
        decreases layout.extra_cols.len() - i,
    {
        extra.push(value_of_cell_at(rows, row_idx, Some(layout.extra_cols[i])));
        i += 1;
    }
    let canonical_name = canonicalize(scheme_name.as_str());
    let category = String::from_str(category);
    RowOutcome::Accepted(
        FundRecord { category, scheme_name, canonical_name, launch_date, metrics, extra },
    )
}

/// The outcomes of the rows after header row `h`, one per row, in order.
pub fn extract_fund_data(category: &str, rows: &Vec<Vec<Cell>>, h: usize, layout: &Layout) -> (out:
    Vec<RowOutcome>)
    ensures
        out@.len() == if rows@.len() > h + 1 {
            rows@.len() - h - 1
        } else {
            0
        },
        forall|i: int|
            0 <= i < out@.len() ==> is_row_outcome(
                #[trigger] out@[i],
                category@,
                rows@,
                h + 1 + i,
                *layout,
            ),
{
    let mut out: Vec<RowOutcome> = Vec::new();
    if h >= rows.len() {
        return out;
    }
    let mut r: usize = h + 1;
    while r < rows.len()
        invariant
            h < rows.len(),
            h + 1 <= r <= rows.len(),
            out@.len() == r - h - 1,
            forall|i: int|
                0 <= i < out@.len() ==> is_row_outcome(
                    #[trigger] out@[i],
                    category@,
                    rows@,
                    h + 1 + i,
                    *layout,
                ),
        decreases rows.len() - r,
    {
        let o = parse_fund_row(category, rows, r, layout);
        out.push(o);
        r += 1;
    }
    out
}

/// The records among a sequence of row outcomes, in order.
pub open spec fn accepted_records(outs: Seq<RowOutcome>) -> Seq<FundRecord>
    decreases outs.len(),
{
    if outs.len() == 0 {
        Seq::empty()
    } else {
        let prev = accepted_records(outs.drop_last());
        match outs.last() {
            RowOutcome::Accepted(rec) => prev.push(rec),
            RowOutcome::Rejected(_) => prev,
        }
    }
}

/// Moves the records out of a sequence of row outcomes onto `pool`.
pub fn collect_accepted(outs: Vec<RowOutcome>, pool: &mut Vec<FundRecord>) -> (rejected: usize)
    ensures
        final(pool)@ == old(pool)@ + accepted_records(outs@),
        rejected == outs@.len() - accepted_records(outs@).len(),
{
    let ghost start = pool@;
    let mut rejected: usize = 0;
    let ghost all = outs@;
    let n = outs.len();
    for o in it: outs.into_iter()
        invariant
            it.seq() == all,
            all.len() == n,
            pool@ == start + accepted_records(all.take(it.index() as int)),
            rejected == it.index() - accepted_records(all.take(it.index() as int)).len(),
            accepted_records(all.take(it.index() as int)).len() <= it.index(),
    {
        proof {
            assert(all.take(it.index() + 1).drop_last() =~= all.take(it.index() as int));
        }
        match o {
            RowOutcome::Accepted(rec) => {
                pool.push(rec);
            },
            RowOutcome::Rejected(_) => {
                rejected += 1;
            },
        }
    }
    proof {
        assert(all.take(all.len() as int) =~= all);
    }
    rejected
}

/// What an outcome holds: the record's content, or nothing for a rejected row.
pub open spec fn outcome_view(o: RowOutcome) -> Option<RecordView> {
    match o {
        RowOutcome::Accepted(rec) => Some(record_view(rec)),
        RowOutcome::Rejected(_) => None,
    }
}

/// A row read under two layouts with the same mapping has the same outcome.
pub proof fn lemma_outcome_unique(
    o1: RowOutcome,
    o2: RowOutcome,
    cat: Seq<char>,
    rows: Seq<Vec<Cell>>,
    r: int,
    l1: Layout,
    l2: Layout,
)
    requires
        is_row_outcome(o1, cat, rows, r, l1),
        is_row_outcome(o2, cat, rows, r, l2),
        same_layout(l1, l2),
    ensures
        outcome_view(o1) == outcome_view(o2),
{
    match (o1, o2) {
        (RowOutcome::Accepted(a), RowOutcome::Accepted(b)) => {
            assert forall|f: int| 0 <= f < a.metrics@.len() implies a.metrics@[f]
                == b.metrics@[f] by {
                assert(a.metrics@[f] == value_at(rows, r, l1.fields@[f]));
                assert(b.metrics@[f] == value_at(rows, r, l2.fields@[f]));
            }
            assert forall|i: int| 0 <= i < a.extra@.len() implies a.extra@[i] == b.extra@[i] by {
                assert(a.extra@[i] == value_at(rows, r, Some(l1.extra_cols@[i])));
                assert(b.extra@[i] == value_at(rows, r, Some(l2.extra_cols@[i])));
            }
            assert(a.metrics@ =~= b.metrics@);
            assert(a.extra@ =~= b.extra@);
        },
        _ => {},
    }
}

pub open spec fn views_of(recs: Seq<FundRecord>) -> Seq<RecordView> {
    recs.map_values(|r: FundRecord| record_view(r))
}

/// Outcomes with the same contents give records with the same contents.
pub proof fn lemma_accepted_views(outs1: Seq<RowOutcome>, outs2: Seq<RowOutcome>)
    requires
        outs1.len() == outs2.len(),
        forall|i: int| 0 <= i < outs1.len() ==> outcome_view(#[trigger] outs1[i]) == outcome_view(outs2[i]),
    ensures
        views_of(accepted_records(outs1)) == views_of(accepted_records(outs2)),
    decreases outs1.len(),
{
    if outs1.len() > 0 {
        let p1 = outs1.drop_last();
        let p2 = outs2.drop_last();
        assert forall|i: int| 0 <= i < p1.len() implies outcome_view(#[trigger] p1[i])
            == outcome_view(p2[i]) by {
            assert(p1[i] == outs1[i]);
            assert(p2[i] == outs2[i]);
        }
        lemma_accepted_views(p1, p2);
        let a1 = accepted_records(p1);
        let a2 = accepted_records(p2);
        assert(outcome_view(outs1[outs1.len() - 1]) == outcome_view(outs2[outs2.len() - 1]));
        match (outs1.last(), outs2.last()) {
            (RowOutcome::Accepted(x), RowOutcome::Accepted(y)) => {
                assert(views_of(a1.push(x)) =~= views_of(a1).push(record_view(x)));
                assert(views_of(a2.push(y)) =~= views_of(a2).push(record_view(y)));
            },
            _ => {},
        }
    }
}

} // verus!
