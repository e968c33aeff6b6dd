//! Sheets, header rows and the mapping from columns to record fields.
use vstd::prelude::*;
use crate::cell::{Cell, cell_text, text_of};
use crate::text::{
    canonical, canonicalize, chars_of, collapse, collapse_state, contains, contains_str, keep_seq,
    lower_chars, lower_seq,
    same_chars,
};

verus! {

// ---------------------------------------------------------------------
// Fields
/// The numeric fields of a record, by index.
pub const FUND_SIZE_APR: usize = 0;

pub const FUND_SIZE_MAY: usize = 1;

pub const LATEST_NAV: usize = 2;

pub const DAYS_7: usize = 3;

pub const DAYS_14: usize = 4;

pub const DAYS_21: usize = 5;

pub const MONTH_1: usize = 6;

pub const MONTHS_3: usize = 7;

pub const MONTHS_6: usize = 8;

pub const YTD: usize = 9;

pub const YEAR_1: usize = 10;

pub const YEARS_2: usize = 11;

pub const YEARS_3: usize = 12;

pub const YEARS_4: usize = 13;

pub const YEARS_5: usize = 14;

pub const YEARS_7: usize = 15;

pub const YEARS_10: usize = 16;

pub const SINCE_INCEPTION: usize = 17;

pub const FIELD_COUNT: usize = 18;

/// Header classification targets beyond the numeric fields.
pub const SCHEME_NAME: usize = 18;

pub const LAUNCH_DATE: usize = 19;

pub const TARGET_COUNT: usize = 20;

/// How many leading rows are searched for the header row.
pub const HEADER_SCAN_ROWS: usize = 15;

/// How many leading columns of a row are searched for header text.
pub const HEADER_SCAN_COLS: usize = 5;

/// The column whose header tells the full fixed layout from the reduced one.
pub const SHORT_HORIZON_COL: usize = 5;

// ---------------------------------------------------------------------
// Sheets
/// One worksheet: its name and its rows of cells.
pub struct Sheet {
    pub name: String,
    pub rows: Vec<Vec<Cell>>,
}

pub open spec fn cell_at(rows: Seq<Vec<Cell>>, r: int, c: int) -> Option<Cell> {
    if 0 <= r < rows.len() && 0 <= c < rows[r]@.len() {
        Some(rows[r]@[c])
    } else {
        None
    }
}

pub fn get_cell(rows: &Vec<Vec<Cell>>, r: usize, c: usize) -> (res: Option<&Cell>)
    ensures
        res matches Some(x) ==> cell_at(rows@, r as int, c as int) == Some(*x),
        res is None ==> cell_at(rows@, r as int, c as int) is None,
{
    if r < rows.len() && c < rows[r].len() {
        Some(&rows[r][c])
    } else {
        None
    }
}

/// A cell's text, lowercased.
pub open spec fn lower_text(c: Cell) -> Seq<char> {
    lower_seq(text_of(c))
}

/// A cell's text as a comparison key.
pub open spec fn header_key(c: Cell) -> Seq<char> {
    canonical(text_of(c))
}

pub fn lower_text_of(c: &Cell) -> (r: Vec<char>)
    ensures
        r@ == lower_text(*c),
{
    let t = cell_text(c);
    let chars = chars_of(t.as_str());
    lower_chars(&chars)
}

pub fn header_key_of(c: &Cell) -> (r: Vec<char>)
    ensures
        r@ == header_key(*c),
{
    let t = cell_text(c);
    let key = canonicalize(t.as_str());
    chars_of(key.as_str())
}

pub open spec fn scan_rows(rows: Seq<Vec<Cell>>) -> int {
    if rows.len() < HEADER_SCAN_ROWS {
        rows.len() as int
    } else {
        HEADER_SCAN_ROWS as int
    }
}

/// Where a header row could not be settled.
#[derive(Clone, Copy, Debug, PartialEq, Eq)]
pub enum LayoutError {
    HeaderNotFound,
    MissingNameColumn,
    MissingDateColumn,
}

// ---------------------------------------------------------------------
// Fixed-position layouts
/// Row `r` opens with a cell whose lowercase text holds "scheme name".
pub open spec fn fixed_header_at(rows: Seq<Vec<Cell>>, r: int) -> bool {
    match cell_at(rows, r, 0) {
        Some(c) => contains(lower_text(c), "scheme name"@),
        None => false,
    }
}

/// The first of the leading rows that `fixed_header_at` accepts.
pub fn find_header_row(sheet: &Sheet) -> (r: Result<usize, LayoutError>)
    ensures
        r matches Ok(h) ==> h < scan_rows(sheet.rows@) && fixed_header_at(sheet.rows@, h as int)
            && forall|k: int| 0 <= k < h ==> !fixed_header_at(sheet.rows@, k),
        r matches Err(e) ==> e == LayoutError::HeaderNotFound && forall|k: int|
            0 <= k < scan_rows(sheet.rows@) ==> !fixed_header_at(sheet.rows@, k),
{
    let limit = if sheet.rows.len() < HEADER_SCAN_ROWS {
        sheet.rows.len()
    } else {
        HEADER_SCAN_ROWS
    };
    let mut r: usize = 0;
    while r < limit
        invariant
            limit == scan_rows(sheet.rows@),
            r <= limit,
            forall|k: int| 0 <= k < r ==> !fixed_header_at(sheet.rows@, k),
        decreases limit - r,
    {
        match get_cell(&sheet.rows, r, 0) {
            Some(c) => {
                let t = lower_text_of(c);
                if contains_str(&t, "scheme name") {
                    return Ok(r);
                }
            },
            None => {},
        }
        r += 1;
    }
    Err(LayoutError::HeaderNotFound)
}

/// The header row names the 7-day horizon at the short-horizon column.
pub open spec fn full_layout_probe(rows: Seq<Vec<Cell>>, h: int) -> bool {
    match cell_at(rows, h, SHORT_HORIZON_COL as int) {
        Some(c) => header_key(c) == "7 days"@,
        None => false,
    }
}

/// The column of field `f` in the full (19-column) or the reduced
/// (16-column) fixed layout; scheme name and launch date stand in columns
/// 0 and 1.
pub open spec fn fixed_column(full: bool, f: int) -> Option<usize> {
    if full {
        if f < 15 {
            Some((f + 2) as usize)
        } else if f == YEARS_7 {
            None
        } else {
            Some((f + 1) as usize)
        }
    } else {
        if f < 3 {
            Some((f + 2) as usize)
        } else if f < 6 {
            None
        } else if f < 15 {
            Some((f - 1) as usize)
        } else if f == YEARS_7 {
            None
        } else {
            Some((f - 2) as usize)
        }
    }
}

/// A header cell reading "7 Days" names the 7-day horizon.
pub proof fn lemma_seven_days_header()
    ensures
        canonical("7 Days"@) == "7 days"@,
{
    reveal_strlit("7 Days");
    reveal_strlit("7 days");
    let s = "7 Days"@;
    let l = seq!['7', ' ', 'd', 'a', 'y', 's'];
    assert(s =~= seq!['7', ' ', 'D', 'a', 'y', 's']);
    assert(lower_seq(s.take(0)) =~= Seq::<char>::empty());
    assert(s.take(1).drop_last() =~= s.take(0));
    assert(s.take(2).drop_last() =~= s.take(1));
    assert(s.take(3).drop_last() =~= s.take(2));
    assert(s.take(4).drop_last() =~= s.take(3));
    assert(s.take(5).drop_last() =~= s.take(4));
    assert(s.take(6).drop_last() =~= s.take(5));
    assert(s.take(6) =~= s);
    assert(lower_seq(s.take(1)) =~= l.take(1));
    assert(lower_seq(s.take(2)) =~= l.take(2));
    assert(lower_seq(s.take(3)) =~= l.take(3));
    assert(lower_seq(s.take(4)) =~= l.take(4));
    assert(lower_seq(s.take(5)) =~= l.take(5));
    assert(lower_seq(s) =~= l);
    assert(l.take(1).drop_last() =~= l.take(0));
    assert(l.take(2).drop_last() =~= l.take(1));
    assert(l.take(3).drop_last() =~= l.take(2));
    assert(l.take(4).drop_last() =~= l.take(3));
    assert(l.take(5).drop_last() =~= l.take(4));
    assert(l.take(6).drop_last() =~= l.take(5));
    assert(l.take(6) =~= l);
    assert(keep_seq(l.take(0)) =~= Seq::<char>::empty());
    assert(keep_seq(l.take(1)) =~= l.take(1));
    assert(keep_seq(l.take(2)) =~= l.take(2));
    assert(keep_seq(l.take(3)) =~= l.take(3));
    assert(keep_seq(l.take(4)) =~= l.take(4));
    assert(keep_seq(l.take(5)) =~= l.take(5));
    assert(keep_seq(l) =~= l);
    assert(collapse_state(l.take(0)) == (Seq::<char>::empty(), false));
    assert(collapse_state(l.take(1)) == (l.take(1), false));
    assert(collapse_state(l.take(2)) == (l.take(1), true));
    assert(collapse_state(l.take(3)).0 =~= l.take(3));
    assert(collapse_state(l.take(4)).0 =~= l.take(4));
    assert(collapse_state(l.take(5)).0 =~= l.take(5));
    assert(collapse(l) =~= l);
    assert(l =~= "7 days"@);
}

/// A header row whose short-horizon cell reads "7 Days" selects the full
/// fixed layout; one whose cell there has another key, or no cell, selects
/// the reduced layout.
pub proof fn lemma_probe_seven_days(rows: Seq<Vec<Cell>>, h: int)
    ensures
        (cell_at(rows, h, SHORT_HORIZON_COL as int) matches Some(c) && text_of(c) == "7 Days"@)
            ==> full_layout_probe(rows, h),
        !full_layout_probe(rows, h) <==> (cell_at(rows, h, SHORT_HORIZON_COL as int) matches Some(c)
            ==> header_key(c) != "7 days"@),
{
    lemma_seven_days_header();
}

/// A mapping of columns to the scheme name, the launch date and the numeric
/// fields (by field index), and the further columns kept as extra values.
pub struct Layout {
    pub name_col: usize,
    pub date_col: usize,
    pub fields: Vec<Option<usize>>,
    pub extra_cols: Vec<usize>,
}

pub open spec fn is_fixed_layout(l: Layout, full: bool) -> bool {
    &&& l.name_col == 0
    &&& l.date_col == 1
    &&& l.fields@.len() == FIELD_COUNT
    &&& forall|f: int| 0 <= f < FIELD_COUNT ==> l.fields@[f] == fixed_column(full, f)
    &&& l.extra_cols@.len() == 0
}

/// Some numeric field is read from column `c`.
pub open spec fn maps_column(fields: Seq<Option<usize>>, c: int) -> bool {
    exists|f: int| 0 <= f < FIELD_COUNT && #[trigger] fields[f] == Some(c as usize)
}

/// The full fixed layout maps 19 columns and the reduced one 16: scheme
/// name and launch date in columns 0 and 1, and each further column below
/// that bound to exactly one numeric field; only the full layout has the
/// 7-, 14- and 21-day fields.
pub proof fn lemma_fixed_layout_shape(l: Layout, full: bool)
    requires
        is_fixed_layout(l, full),
    ensures
        ({
            let n: int = if full {
                19
            } else {
                16
            };
            &&& forall|f: int|
                0 <= f < FIELD_COUNT && #[trigger] l.fields@[f] is Some ==> 2 <= l.fields@[f]->0 < n
            &&& forall|f: int, g: int|
                0 <= f < FIELD_COUNT && 0 <= g < FIELD_COUNT && f != g && #[trigger] l.fields@[f] is Some
                    ==> l.fields@[f] != #[trigger] l.fields@[g]
            &&& forall|c: int| 2 <= c < n ==> #[trigger] maps_column(l.fields@, c)
            &&& (l.fields@[DAYS_7 as int] is Some) == full
            &&& (l.fields@[DAYS_14 as int] is Some) == full
            &&& (l.fields@[DAYS_21 as int] is Some) == full
        }),
{
    let n: int = if full {
        19
    } else {
        16
    };
    assert forall|f: int| 0 <= f < FIELD_COUNT && #[trigger] l.fields@[f] is Some implies 2
        <= l.fields@[f]->0 < n by {
        assert(l.fields@[f] == fixed_column(full, f));
    }
    assert forall|f: int, g: int|
        0 <= f < FIELD_COUNT && 0 <= g < FIELD_COUNT && f != g && #[trigger] l.fields@[f] is Some
            implies l.fields@[f] != #[trigger] l.fields@[g] by {
        assert(l.fields@[f] == fixed_column(full, f));
        assert(l.fields@[g] == fixed_column(full, g));
    }
    assert(l.fields@[DAYS_7 as int] == fixed_column(full, DAYS_7 as int));
    assert(l.fields@[DAYS_14 as int] == fixed_column(full, DAYS_14 as int));
    assert(l.fields@[DAYS_21 as int] == fixed_column(full, DAYS_21 as int));
    assert forall|c: int| 2 <= c < n implies #[trigger] maps_column(l.fields@, c) by {
        if full {
            if c < 17 {
                assert(fixed_column(full, c - 2) == Some(c as usize));
                assert(l.fields@[c - 2] == Some(c as usize));
            } else {
                assert(fixed_column(full, c - 1) == Some(c as usize));
                assert(l.fields@[c - 1] == Some(c as usize));
            }
        } else {
            if c < 5 {
                assert(fixed_column(full, c - 2) == Some(c as usize));
                assert(l.fields@[c - 2] == Some(c as usize));
            } else if c < 14 {
                assert(fixed_column(full, c + 1) == Some(c as usize));
                assert(l.fields@[c + 1] == Some(c as usize));
            } else {
                assert(fixed_column(full, c + 2) == Some(c as usize));
                assert(l.fields@[c + 2] == Some(c as usize));
            }
        }
    }
}

pub fn fixed_layout(full: bool) -> (l: Layout)
    ensures
        is_fixed_layout(l, full),
{
    let mut fields: Vec<Option<usize>> = Vec::new();
    let mut f: usize = 0;
    while f < FIELD_COUNT
        invariant
            f <= FIELD_COUNT,
            fields@.len() == f,
            forall|g: int| 0 <= g < f ==> fields@[g] == fixed_column(full, g),
        decreases FIELD_COUNT - f,
    {
        let col = if full {
            if f < 15 {
                Some(f + 2)
            } else if f == YEARS_7 {
                None
            } else {
                Some(f + 1)
            }
        } else {
            if f < 3 {
                Some(f + 2)
            } else if f < 6 {
                None
            } else if f < 15 {
                Some(f - 1)
            } else if f == YEARS_7 {
                None
            } else {
                Some(f - 2)
            }
        };
        fields.push(col);
        f += 1;
    }
    Layout { name_col: 0, date_col: 1, fields, extra_cols: Vec::new() }
}

/// Whether the full fixed layout applies to a sheet whose header is row `h`.
pub fn has_short_horizons(sheet: &Sheet, h: usize) -> (r: bool)
    ensures
        r == full_layout_probe(sheet.rows@, h as int),
{
    match get_cell(&sheet.rows, h, SHORT_HORIZON_COL) {
        Some(c) => {
            let key = header_key_of(c);
            let probe = chars_of("7 days");
            same_chars(&key, &probe)
        },
        None => false,
    }
}

/// The fixed-position layout of a sheet: its header row, and the full
/// layout where the header names the 7-day horizon, else the reduced one.
pub fn infer_fixed_layout(sheet: &Sheet) -> (r: Result<(usize, Layout), LayoutError>)
    ensures
        r matches Ok((h, l)) ==> h < scan_rows(sheet.rows@) && fixed_header_at(
            sheet.rows@,
            h as int,
        ) && (forall|k: int| 0 <= k < h ==> !fixed_header_at(sheet.rows@, k)) && is_fixed_layout(
            l,
            full_layout_probe(sheet.rows@, h as int),
        ),
        r matches Err(e) ==> e == LayoutError::HeaderNotFound && forall|k: int|
            0 <= k < scan_rows(sheet.rows@) ==> !fixed_header_at(sheet.rows@, k),
{
    let h = find_header_row(sheet)?;
    let full = has_short_horizons(sheet, h);
    Ok((h, fixed_layout(full)))
}

// ---------------------------------------------------------------------
// Header-text layouts
/// A cell of a header row names the scheme name, the launch date or a NAV.
pub open spec fn header_marker(c: Cell) -> bool {
    let k = header_key(c);
    contains(k, "scheme name"@) || contains(k, "fund name"@) || contains(k, "launch date"@)
        || contains(k, "nav"@)
}

pub open spec fn text_header_at(rows: Seq<Vec<Cell>>, r: int) -> bool {
    exists|c: int|
        #![trigger cell_at(rows, r, c)]
        0 <= c < HEADER_SCAN_COLS && match cell_at(rows, r, c) {
            Some(x) => header_marker(x),
            None => false,
        }
}

fn is_header_marker(c: &Cell) -> (r: bool)
    ensures
        r == header_marker(*c),
{
    let k = header_key_of(c);
    contains_str(&k, "scheme name") || contains_str(&k, "fund name") || contains_str(
        &k,
        "launch date",
    ) || contains_str(&k, "nav")
}

/// The first of the leading rows whose leading cells name a header.
pub fn find_header_row_by_text(sheet: &Sheet) -> (r: Result<usize, LayoutError>)
    ensures
        r matches Ok(h) ==> h < scan_rows(sheet.rows@) && text_header_at(sheet.rows@, h as int)
            && forall|k: int| 0 <= k < h ==> !text_header_at(sheet.rows@, k),
        r matches Err(e) ==> e == LayoutError::HeaderNotFound && forall|k: int|
            0 <= k < scan_rows(sheet.rows@) ==> !text_header_at(sheet.rows@, k),
{
    let limit = if sheet.rows.len() < HEADER_SCAN_ROWS {
        sheet.rows.len()
    } else {
        HEADER_SCAN_ROWS
    };
    let mut r: usize = 0;
    while r < limit
        invariant
            limit == scan_rows(sheet.rows@),
            r <= limit,
            forall|k: int| 0 <= k < r ==> !text_header_at(sheet.rows@, k),
        decreases limit - r,
    {
        let mut c: usize = 0;
        while c < HEADER_SCAN_COLS
            invariant
                r < limit,
                limit == scan_rows(sheet.rows@),
                forall|k: int| 0 <= k < r ==> !text_header_at(sheet.rows@, k),
                c <= HEADER_SCAN_COLS,
                forall|j: int|
                    #![trigger cell_at(sheet.rows@, r as int, j)]
                    0 <= j < c ==> !match cell_at(sheet.rows@, r as int, j) {
                        Some(x) => header_marker(x),
                        None => false,
                    },
            decreases HEADER_SCAN_COLS - c,
        {
            match get_cell(&sheet.rows, r, c) {
                Some(x) => {
                    if is_header_marker(x) {
                        assert(text_header_at(sheet.rows@, r as int)) by {
                            assert(cell_at(sheet.rows@, r as int, c as int) == Some(*x));
                            assert(0 <= c < HEADER_SCAN_COLS);
                        }
                        return Ok(r);
                    }
                },
                None => {},
            }
            c += 1;
        }
        r += 1;
    }
    Err(LayoutError::HeaderNotFound)
}

pub const RULE_COUNT: usize = 28;

/// The header classification table, tried in order: a header key that
/// holds both texts of a rule goes to the rule's target.
pub open spec fn header_rule(k: int) -> (Seq<char>, Seq<char>, usize) {
    if k == 0 {
        ("scheme name"@, ""@, SCHEME_NAME)
    } else if k == 1 {
        ("fund name"@, ""@, SCHEME_NAME)
    } else if k == 2 {
        ("launch"@, ""@, LAUNCH_DATE)
    } else if k == 3 {
        ("fund size"@, "apr"@, FUND_SIZE_APR)
    } else if k == 4 {
        ("fund size"@, "may"@, FUND_SIZE_MAY)
    } else if k == 5 {
        ("latest nav"@, ""@, LATEST_NAV)
    } else if k == 6 {
        ("21 day"@, ""@, DAYS_21)
    } else if k == 7 {
        ("14 day"@, ""@, DAYS_14)
    } else if k == 8 {
        ("7 day"@, ""@, DAYS_7)
    } else if k == 9 {
        ("1 month"@, ""@, MONTH_1)
    } else if k == 10 {
        ("3 month"@, ""@, MONTHS_3)
    } else if k == 11 {
        ("6 month"@, ""@, MONTHS_6)
    } else if k == 12 {
        ("ytd"@, ""@, YTD)
    } else if k == 13 {
        ("inception"@, ""@, SINCE_INCEPTION)
    } else if k == 14 {
        ("10 y"@, ""@, YEARS_10)
    } else if k == 15 {
        ("10y"@, ""@, YEARS_10)
    } else if k == 16 {
        ("1 y"@, ""@, YEAR_1)
    } else if k == 17 {
        ("1y"@, ""@, YEAR_1)
    } else if k == 18 {
        ("2 y"@, ""@, YEARS_2)
    } else if k == 19 {
        ("2y"@, ""@, YEARS_2)
    } else if k == 20 {
        ("3 y"@, ""@, YEARS_3)
    } else if k == 21 {
        ("3y"@, ""@, YEARS_3)
    } else if k == 22 {
        ("4 y"@, ""@, YEARS_4)
    } else if k == 23 {
        ("4y"@, ""@, YEARS_4)
    } else if k == 24 {
        ("5 y"@, ""@, YEARS_5)
    } else if k == 25 {
        ("5y"@, ""@, YEARS_5)
    } else if k == 26 {
        ("7 y"@, ""@, YEARS_7)
    } else {
        ("7y"@, ""@, YEARS_7)
    }
}

fn header_rule_text(k: usize) -> (r: (&'static str, &'static str, usize))
    requires
        k < RULE_COUNT,
    ensures
        r.0@ == header_rule(k as int).0,
        r.1@ == header_rule(k as int).1,
        r.2 == header_rule(k as int).2,
{
    if k == 0 {
        ("scheme name", "", SCHEME_NAME)
    } else if k == 1 {
        ("fund name", "", SCHEME_NAME)
    } else if k == 2 {
        ("launch", "", LAUNCH_DATE)
    } else if k == 3 {
        ("fund size", "apr", FUND_SIZE_APR)
    } else if k == 4 {
        ("fund size", "may", FUND_SIZE_MAY)
    } else if k == 5 {
        ("latest nav", "", LATEST_NAV)
    } else if k == 6 {
        ("21 day", "", DAYS_21)
    } else if k == 7 {
        ("14 day", "", DAYS_14)
    } else if k == 8 {
        ("7 day", "", DAYS_7)
    } else if k == 9 {
        ("1 month", "", MONTH_1)
    } else if k == 10 {
        ("3 month", "", MONTHS_3)
    } else if k == 11 {
        ("6 month", "", MONTHS_6)
    } else if k == 12 {
        ("ytd", "", YTD)
    } else if k == 13 {
        ("inception", "", SINCE_INCEPTION)
    } else if k == 14 {
        ("10 y", "", YEARS_10)
    } else if k == 15 {
        ("10y", "", YEARS_10)
    } else if k == 16 {
        ("1 y", "", YEAR_1)
    } else if k == 17 {
        ("1y", "", YEAR_1)
    } else if k == 18 {
        ("2 y", "", YEARS_2)
    } else if k == 19 {
        ("2y", "", YEARS_2)
    } else if k == 20 {
        ("3 y", "", YEARS_3)
    } else if k == 21 {
        ("3y", "", YEARS_3)
    } else if k == 22 {
        ("4 y", "", YEARS_4)
    } else if k == 23 {
        ("4y", "", YEARS_4)
    } else if k == 24 {
        ("5 y", "", YEARS_5)
    } else if k == 25 {
        ("5y", "", YEARS_5)
    } else if k == 26 {
        ("7 y", "", YEARS_7)
    } else {
        ("7y", "", YEARS_7)
    }
}

pub open spec fn rule_holds(key: Seq<char>, k: int) -> bool {
    contains(key, header_rule(k).0) && contains(key, header_rule(k).1)
}

/// The target of the first rule from the `k`-th on that holds of `key`.
pub open spec fn classify_from(key: Seq<char>, k: int) -> Option<usize>
    decreases RULE_COUNT - k,
{
    if 0 <= k < RULE_COUNT {
        if rule_holds(key, k) {
            Some(header_rule(k).2)
        } else {
            classify_from(key, k + 1)
        }
    } else {
        None
    }
}

pub open spec fn classify(key: Seq<char>) -> Option<usize> {
    classify_from(key, 0)
}

/// The target of a header key under the classification table.
pub fn classify_header(key: &Vec<char>) -> (r: Option<usize>)
    ensures
        r == classify(key@),
        r matches Some(t) ==> t < TARGET_COUNT,
{
    let mut k: usize = 0;
    while k < RULE_COUNT
        invariant
            k <= RULE_COUNT,
            classify(key@) == classify_from(key@, k as int),
        decreases RULE_COUNT - k,
    {
        let rule = header_rule_text(k);
        if contains_str(key, rule.0) && contains_str(key, rule.1) {
            return Some(rule.2);
        }
        k += 1;
    }
    None
}

pub open spec fn header_keys(row: Seq<Cell>) -> Seq<Seq<char>> {
    row.map_values(|c: Cell| header_key(c))
}

/// The columns taken by each target after classifying `keys` left to
/// right; a target keeps the first column classified to it.
pub open spec fn assign_columns(keys: Seq<Seq<char>>) -> Seq<Option<usize>>
    decreases keys.len(),
{
    if keys.len() == 0 {
        Seq::new(TARGET_COUNT as nat, |i: int| None)
    } else {
        let prev = assign_columns(keys.drop_last());
        match classify(keys.last()) {
            Some(t) => if prev[t as int] is None {
                prev.update(t as int, Some((keys.len() - 1) as usize))
            } else {
                prev
            },
            None => prev,
        }
    }
}

/// The first column from `c` on that no rule classifies and whose key holds
/// "nav".
pub open spec fn nav_fallback_from(keys: Seq<Seq<char>>, c: int) -> Option<usize>
    decreases keys.len() - c,
{
    if 0 <= c < keys.len() {
        if classify(keys[c]) is None && contains(keys[c], "nav"@) {
            Some(c as usize)
        } else {
            nav_fallback_from(keys, c + 1)
        }
    } else {
        None
    }
}

/// The columns of all targets; a bare "nav" column stands for the latest
/// NAV only where no "latest nav" column was found.
pub open spec fn header_targets(keys: Seq<Seq<char>>) -> Seq<Option<usize>> {
    let a = assign_columns(keys);
    if a[LATEST_NAV as int] is None {
        a.update(LATEST_NAV as int, nav_fallback_from(keys, 0))
    } else {
        a
    }
}

/// One past the greatest column in `t`, 0 where there is none.
pub open spec fn columns_end(t: Seq<Option<usize>>) -> int
    decreases t.len(),
{
    if t.len() == 0 {
        0
    } else {
        let prev = columns_end(t.drop_last());
        match t.last() {
            Some(c) => if c + 1 > prev {
                c + 1
            } else {
                prev
            },
            None => prev,
        }
    }
}

/// `l` is the layout of header row `row`.
pub open spec fn is_header_layout(l: Layout, row: Seq<Cell>) -> bool {
    let t = header_targets(header_keys(row));
    let end = columns_end(t);
    &&& t[SCHEME_NAME as int] == Some(l.name_col)
    &&& t[LAUNCH_DATE as int] == Some(l.date_col)
    &&& l.fields@ == t.take(FIELD_COUNT as int)
    &&& l.extra_cols@.len() == if row.len() > end {
        row.len() - end
    } else {
        0
    }
    &&& forall|i: int| 0 <= i < l.extra_cols@.len() ==> l.extra_cols@[i] == end + i
}

pub open spec fn col_below(t: Option<usize>, n: int) -> bool {
    match t {
        Some(c) => c < n,
        None => true,
    }
}

fn header_targets_of(row: &Vec<Cell>) -> (t: Vec<Option<usize>>)
    ensures
        t@ == header_targets(header_keys(row@)),
        t@.len() == TARGET_COUNT,
        forall|j: int| 0 <= j < t@.len() ==> col_below(#[trigger] t@[j], row.len() as int),
{
    let ghost keys = header_keys(row@);
    let mut t: Vec<Option<usize>> = Vec::new();
    let mut i: usize = 0;
    while i < TARGET_COUNT
        invariant
            i <= TARGET_COUNT,
            t@ == Seq::new(i as nat, |j: int| None::<usize>),
        decreases TARGET_COUNT - i,
    {
        t.push(None);
        i += 1;
        assert(t@ =~= Seq::new(i as nat, |j: int| None::<usize>));
    }
    assert(keys.take(0) =~= Seq::<Seq<char>>::empty());
    let mut c: usize = 0;
    while c < row.len()
        invariant
            c <= row.len(),
            keys == header_keys(row@),
            t@ == assign_columns(keys.take(c as int)),
            t@.len() == TARGET_COUNT,
            forall|j: int| 0 <= j < t@.len() ==> col_below(#[trigger] t@[j], c as int),
        decreases row.len() - c,
    {
        let key = header_key_of(&row[c]);
        assert(keys.take(c + 1).drop_last() =~= keys.take(c as int));
        assert(keys.take(c + 1).last() == key@);
        match classify_header(&key) {
            Some(target) => {
                if t[target].is_none() {
                    t.set(target, Some(c));
                }
            },
            None => {},
        }
        c += 1;
    }
    assert(keys.take(row.len() as int) =~= keys);
    if t[LATEST_NAV].is_none() {
        let mut c: usize = 0;
        let mut found: Option<usize> = None;
        while c < row.len()
            invariant_except_break
                found is None,
            invariant
                c <= row.len(),
                keys == header_keys(row@),
                nav_fallback_from(keys, 0) == nav_fallback_from(keys, c as int),
            ensures
                nav_fallback_from(keys, 0) == found,
                found matches Some(f) ==> f < row.len(),
            decreases row.len() - c,
        {
            let key = header_key_of(&row[c]);
            assert(keys[c as int] == key@);
            if classify_header(&key).is_none() && contains_str(&key, "nav") {
                found = Some(c);
                break;
            }
            c += 1;
        }
        t.set(LATEST_NAV, found);
    }
    t
}

fn columns_end_of(t: &Vec<Option<usize>>) -> (end: usize)
    requires
        forall|j: int| 0 <= j < t@.len() ==> col_below(#[trigger] t@[j], usize::MAX as int),
    ensures
        end == columns_end(t@),
{
    let mut end: usize = 0;
    let mut i: usize = 0;
    assert(t@.take(0) =~= Seq::<Option<usize>>::empty());
    while i < t.len()
        invariant
            i <= t.len(),
            end == columns_end(t@.take(i as int)),
            forall|j: int| 0 <= j < t@.len() ==> col_below(#[trigger] t@[j], usize::MAX as int),
        decreases t.len() - i,
    {
        assert(t@.take(i + 1).drop_last() =~= t@.take(i as int));
        match t[i] {
            Some(c) => {
                if c >= end {
                    assert(col_below(t@[i as int], usize::MAX as int));
                    end = c + 1;
                }
            },
            None => {},
        }
        i += 1;
    }
    assert(t@.take(t.len() as int) =~= t@);
    end
}

/// The header-text layout of a header row: each cell's key is classified
/// by the rule table, a target keeps the first column classified to it, a
/// bare "nav" column stands for the latest NAV where no "latest nav" was
/// found, and the columns after the last mapped one are extra values.
pub fn layout_from_header(row: &Vec<Cell>) -> (r: Result<Layout, LayoutError>)
    ensures
        ({
            let t = header_targets(header_keys(row@));
            match r {
                Ok(l) => is_header_layout(l, row@),
                Err(e) => (e == LayoutError::MissingNameColumn && t[SCHEME_NAME as int] is None)
                    || (e == LayoutError::MissingDateColumn && t[SCHEME_NAME as int] is Some
                    && t[LAUNCH_DATE as int] is None),
            }
        }),
{
    let t = header_targets_of(row);
    let name_col = match t[SCHEME_NAME] {
        Some(c) => c,
        None => {
            return Err(LayoutError::MissingNameColumn);
        },
    };
    let date_col = match t[LAUNCH_DATE] {
        Some(c) => c,
        None => {
            return Err(LayoutError::MissingDateColumn);
        },
    };
    let end = columns_end_of(&t);
    let mut fields: Vec<Option<usize>> = Vec::new();
    let mut f: usize = 0;
    while f < FIELD_COUNT
        invariant
            f <= FIELD_COUNT,
            t@.len() == TARGET_COUNT,
            fields@ == t@.take(f as int),
        decreases FIELD_COUNT - f,
    {
        fields.push(t[f]);
        f += 1;
        assert(fields@ =~= t@.take(f as int));
    }
    let mut extra_cols: Vec<usize> = Vec::new();
    let mut c: usize = end;
    while c < row.len()
        invariant
            end <= c,
            c <= row.len() || c == end,
            extra_cols@.len() == c - end,
            forall|i: int| 0 <= i < extra_cols@.len() ==> extra_cols@[i] == end + i,
        decreases row.len() - c,
    {
        extra_cols.push(c);
        c += 1;
    }
    Ok(Layout { name_col, date_col, fields, extra_cols })
}

// ---------------------------------------------------------------------
// Choosing a strategy
/// How a sheet's header row and column mapping are found.
#[derive(Clone, Copy, Debug, PartialEq, Eq)]
pub enum Strategy {
    FixedPosition,
    HeaderText,
}

pub open spec fn header_at(strategy: Strategy, rows: Seq<Vec<Cell>>, r: int) -> bool {
    match strategy {
        Strategy::FixedPosition => fixed_header_at(rows, r),
        Strategy::HeaderText => text_header_at(rows, r),
    }
}

/// `h` is the first of the leading rows that is a header row.
pub open spec fn first_header(strategy: Strategy, rows: Seq<Vec<Cell>>, h: int) -> bool {
    &&& 0 <= h < scan_rows(rows)
    &&& header_at(strategy, rows, h)
    &&& forall|k: int| 0 <= k < h ==> !header_at(strategy, rows, k)
}

pub open spec fn no_header(strategy: Strategy, rows: Seq<Vec<Cell>>) -> bool {
    forall|k: int| 0 <= k < scan_rows(rows) ==> !header_at(strategy, rows, k)
}

/// What a header row lacks for a header-text layout, if anything.
pub open spec fn header_layout_error(row: Seq<Cell>) -> Option<LayoutError> {
    let t = header_targets(header_keys(row));
    if t[SCHEME_NAME as int] is None {
        Some(LayoutError::MissingNameColumn)
    } else if t[LAUNCH_DATE as int] is None {
        Some(LayoutError::MissingDateColumn)
    } else {
        None
    }
}

pub open spec fn layout_fits(strategy: Strategy, rows: Seq<Vec<Cell>>, h: int, l: Layout) -> bool {
    match strategy {
        Strategy::FixedPosition => is_fixed_layout(l, full_layout_probe(rows, h)),
        Strategy::HeaderText => is_header_layout(l, rows[h]@),
    }
}

/// `r` is the outcome of layout inference on `rows` under `strategy`.
pub open spec fn inferred(
    strategy: Strategy,
    rows: Seq<Vec<Cell>>,
    r: Result<(usize, Layout), LayoutError>,
) -> bool {
    match r {
        Ok((h, l)) => first_header(strategy, rows, h as int) && layout_fits(strategy, rows, h as int, l),
        Err(e) => (e == LayoutError::HeaderNotFound && no_header(strategy, rows)) || (strategy
            == Strategy::HeaderText && exists|h: int|
            first_header(strategy, rows, h) && header_layout_error(rows[h]@) == Some(e)),
    }
}

/// The header row and layout of a sheet under a strategy.
pub fn infer_layout(sheet: &Sheet, strategy: Strategy) -> (r: Result<(usize, Layout), LayoutError>)
    ensures
        inferred(strategy, sheet.rows@, r),
{
    match strategy {
        Strategy::FixedPosition => infer_fixed_layout(sheet),
        Strategy::HeaderText => {
            let h = find_header_row_by_text(sheet)?;
            let l = layout_from_header(&sheet.rows[h]);
            match l {
                Ok(l) => Ok((h, l)),
                Err(e) => {
                    assert(first_header(strategy, sheet.rows@, h as int));
                    Err(e)
                },
            }
        },
    }
}

/// `a` and `b` read the same columns into the same fields.
pub open spec fn same_layout(a: Layout, b: Layout) -> bool {
    &&& a.name_col == b.name_col
    &&& a.date_col == b.date_col
    &&& a.fields@ == b.fields@
    &&& a.extra_cols@ == b.extra_cols@
}

proof fn lemma_first_header_unique(strategy: Strategy, rows: Seq<Vec<Cell>>, h1: int, h2: int)
    requires
        first_header(strategy, rows, h1),
        first_header(strategy, rows, h2),
    ensures
        h1 == h2,
{
    if h1 < h2 {
        assert(!header_at(strategy, rows, h1));
    } else if h2 < h1 {
        assert(!header_at(strategy, rows, h2));
    }
}

/// Layout inference has one outcome on given rows: the same header row
/// and the same mapping, or the same error.
pub proof fn lemma_inferred_unique(
    strategy: Strategy,
    rows: Seq<Vec<Cell>>,
    x1: Result<(usize, Layout), LayoutError>,
    x2: Result<(usize, Layout), LayoutError>,
)
    requires
        inferred(strategy, rows, x1),
        inferred(strategy, rows, x2),
    ensures
        match (x1, x2) {
            (Ok((h1, l1)), Ok((h2, l2))) => h1 == h2 && same_layout(l1, l2),
            (Err(e1), Err(e2)) => e1 == e2,
            _ => false,
        },
{
    match (x1, x2) {
        (Ok((h1, l1)), Ok((h2, l2))) => {
            lemma_first_header_unique(strategy, rows, h1 as int, h2 as int);
            match strategy {
                Strategy::FixedPosition => {
                    let full = full_layout_probe(rows, h1 as int);
                    assert(is_fixed_layout(l2, full));
                    assert forall|f: int| 0 <= f < l1.fields@.len() implies l1.fields@[f]
                        == l2.fields@[f] by {
                        assert(l1.fields@[f] == fixed_column(full, f));
                        assert(l2.fields@[f] == fixed_column(full, f));
                    }
                    assert(l1.fields@ =~= l2.fields@);
                    assert(l1.extra_cols@ =~= l2.extra_cols@);
                },
                Strategy::HeaderText => {
                    assert(l1.extra_cols@ =~= l2.extra_cols@);
                },
            }
        },
        (Ok((h, l)), Err(e)) => {
            lemma_ok_excludes_err(strategy, rows, h as int, l, e);
        },
        (Err(e), Ok((h, l))) => {
            lemma_ok_excludes_err(strategy, rows, h as int, l, e);
        },
        (Err(e1), Err(e2)) => {
            if e1 == LayoutError::HeaderNotFound && no_header(strategy, rows) {
                if e2 != LayoutError::HeaderNotFound || !no_header(strategy, rows) {
                    let h = choose|h: int|
                        first_header(strategy, rows, h) && header_layout_error(rows[h]@) == Some(e2);
                    assert(!header_at(strategy, rows, h));
                }
            } else if e2 == LayoutError::HeaderNotFound && no_header(strategy, rows) {
                let h = choose|h: int|
                    first_header(strategy, rows, h) && header_layout_error(rows[h]@) == Some(e1);
                assert(!header_at(strategy, rows, h));
            } else {
                let h1 = choose|h: int|
                    first_header(strategy, rows, h) && header_layout_error(rows[h]@) == Some(e1);
                let h2 = choose|h: int|
                    first_header(strategy, rows, h) && header_layout_error(rows[h]@) == Some(e2);
                lemma_first_header_unique(strategy, rows, h1, h2);
            }
        },
    }
}

proof fn lemma_ok_excludes_err(
    strategy: Strategy,
    rows: Seq<Vec<Cell>>,
    h: int,
    l: Layout,
    e: LayoutError,
)
    requires
        inferred(strategy, rows, Ok((h as usize, l))),
        0 <= h <= usize::MAX,
    ensures
        !inferred(strategy, rows, Err(e)),
{
    if inferred(strategy, rows, Err(e)) {
        if e == LayoutError::HeaderNotFound && no_header(strategy, rows) {
            assert(!header_at(strategy, rows, h));
        } else {
            let h2 = choose|h2: int|
                first_header(strategy, rows, h2) && header_layout_error(rows[h2]@) == Some(e);
            lemma_first_header_unique(strategy, rows, h, h2);
        }
    }
}

} // verus!
