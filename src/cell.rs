//! Spreadsheet cells and their coercion to decimal numbers.
use vstd::prelude::*;
use crate::name::{remove_all, remove_all_chars};
use crate::text::{chars_of, is_space, space_char, string_of};

verus! {

/// One cell of a sheet, by kind. A native number carries its decimal
/// rendering; an error cell carries its error code.
#[derive(Clone, Debug, PartialEq, Eq)]
pub enum Cell {
    Number(String),
    Text(String),
    Bool(bool),
    Error(String),
    Empty,
}

/// The number `(-1)^negative * mantissa / 10^scale`.
#[derive(Clone, Copy, Debug, PartialEq, Eq)]
pub struct Decimal {
    pub negative: bool,
    pub mantissa: u128,
    pub scale: usize,
}

/// The text a cell shows.
pub open spec fn text_of(c: Cell) -> Seq<char> {
    match c {
        Cell::Number(t) => t@,
        Cell::Text(t) => t@,
        Cell::Bool(b) => if b {
            seq!['t', 'r', 'u', 'e']
        } else {
            seq!['f', 'a', 'l', 's', 'e']
        },
        Cell::Error(t) => t@,
        Cell::Empty => Seq::empty(),
    }
}

pub fn cell_text(c: &Cell) -> (r: String)
    ensures
        r@ == text_of(*c),
{
    match c {
        Cell::Number(t) => t.clone(),
        Cell::Text(t) => t.clone(),
        Cell::Bool(b) => {
            let mut r = String::new();
            if *b {
                r.push('t');
                r.push('r');
                r.push('u');
                r.push('e');
                assert(r@ =~= seq!['t', 'r', 'u', 'e']);
            } else {
                r.push('f');
                r.push('a');
                r.push('l');
                r.push('s');
                r.push('e');
                assert(r@ =~= seq!['f', 'a', 'l', 's', 'e']);
            }
            r
        },
        Cell::Error(t) => t.clone(),
        Cell::Empty => String::new(),
    }
}

// ---------------------------------------------------------------------
// Decimal numerals: an optional sign, digits, at most one decimal point,
// and at least one digit.
pub open spec fn is_digit(c: char) -> bool {
    '0' <= c && c <= '9'
}

pub open spec fn digit_value(c: char) -> nat {
    ((c as u32) - ('0' as u32)) as nat
}

/// Reading the unsigned part of a numeral left to right: whether it is well
/// formed so far, whether the point was seen, the count of digits, the value
/// of the digits, and the count of digits after the point.
pub open spec fn scan_numeral(b: Seq<char>) -> (bool, bool, nat, nat, nat)
    decreases b.len(),
{
    if b.len() == 0 {
        (true, false, 0, 0, 0)
    } else {
        let st = scan_numeral(b.drop_last());
        let c = b.last();
        if is_digit(c) {
            (st.0, st.1, st.2 + 1, st.3 * 10 + digit_value(c), if st.1 {
                st.4 + 1
            } else {
                st.4
            })
        } else if c == '.' && !st.1 {
            (st.0, true, st.2, st.3, st.4)
        } else {
            (false, st.1, st.2, st.3, st.4)
        }
    }
}

pub open spec fn sign_len(t: Seq<char>) -> int {
    if t.len() > 0 && (t[0] == '+' || t[0] == '-') {
        1
    } else {
        0
    }
}

/// The sign, digit value and scale of a decimal numeral; `None` where `t`
/// is no numeral.
pub open spec fn numeral(t: Seq<char>) -> Option<(bool, nat, nat)> {
    let st = scan_numeral(t.skip(sign_len(t)));
    if st.0 && st.2 > 0 {
        Some((sign_len(t) == 1 && t[0] == '-', st.3, st.4))
    } else {
        None
    }
}

/// The decimal that `t` denotes, where its digits fit in 128 bits.
pub open spec fn decimal_of(t: Seq<char>) -> Option<Decimal> {
    match numeral(t) {
        Some(n) => if n.1 <= u128::MAX {
            Some(Decimal { negative: n.0, mantissa: n.1 as u128, scale: n.2 as usize })
        } else {
            None
        },
        None => None,
    }
}

/// Parses a decimal numeral such as `-12.50`; `None` for anything else,
/// and for digits that do not fit in 128 bits.
pub fn parse_decimal(s: &str) -> (r: Option<Decimal>)
    ensures
        r == decimal_of(s@),
{
    let t = chars_of(s);
    let n = t.len();
    let mut start: usize = 0;
    let mut negative = false;
    if n > 0 && (t[0] == '+' || t[0] == '-') {
        start = 1;
        negative = t[0] == '-';
    }
    let ghost body = t@.skip(start as int);
    let mut valid = true;
    let mut seen_point = false;
    let mut digits: usize = 0;
    let mut value: u128 = 0;
    let mut overflow = false;
    let mut scale: usize = 0;
    let mut i: usize = start;
    while i < n
        invariant
            start <= i <= n,
            n == t.len(),
            body == t@.skip(start as int),
            ({
                let st = scan_numeral(body.take(i - start));
                &&& st.0 == valid
                &&& st.1 == seen_point
                &&& st.2 == digits as nat
                &&& st.4 == scale as nat
                &&& !overflow ==> st.3 == value as nat
                &&& overflow ==> st.3 > u128::MAX
            }),
            digits <= i,
            scale <= i,
        decreases n - i,
    {
        let c = t[i];
        assert(body.take(i + 1 - start).drop_last() =~= body.take(i - start));
        assert(body.take(i + 1 - start).last() == c);
        if '0' <= c && c <= '9' {
            let d = (c as u32 - '0' as u32) as u128;
            if !overflow {
                if value > (u128::MAX - d) / 10 {
                    overflow = true;
                } else {
                    value = value * 10 + d;
                }
            }
            digits += 1;
            if seen_point {
                scale += 1;
            }
        } else if c == '.' && !seen_point {
            seen_point = true;
        } else {
            valid = false;
        }
        i += 1;
    }
    assert(body.take(n - start) =~= body);
    if valid && digits > 0 && !overflow {
        Some(Decimal { negative, mantissa: value, scale })
    } else {
        None
    }
}

// ---------------------------------------------------------------------
// Coercion
/// The chars that a numeric text may carry beside its numeral.
pub open spec fn mark_char(c: char) -> bool {
    c == '%' || c == ',' || c == '\u{20b9}'
}

pub open spec fn drop_marks(s: Seq<char>) -> Seq<char>
    decreases s.len(),
{
    if s.len() == 0 {
        Seq::empty()
    } else if mark_char(s.last()) {
        drop_marks(s.drop_last())
    } else {
        drop_marks(s.drop_last()).push(s.last())
    }
}

pub open spec fn trim_space_lead(s: Seq<char>) -> Seq<char>
    decreases s.len(),
{
    if s.len() > 0 && space_char(s[0]) {
        trim_space_lead(s.drop_first())
    } else {
        s
    }
}

pub open spec fn trim_space_trail(s: Seq<char>) -> Seq<char>
    decreases s.len(),
{
    if s.len() > 0 && space_char(s.last()) {
        trim_space_trail(s.drop_last())
    } else {
        s
    }
}

/// `s` without whitespace at either end.
pub open spec fn trim_spaces(s: Seq<char>) -> Seq<char> {
    trim_space_trail(trim_space_lead(s))
}

/// The numeral left of a text cell once percent signs, thousands
/// separators, the rupee sign and the abbreviation "Rs" are removed and
/// surrounding whitespace is trimmed.
pub open spec fn numeric_text(s: Seq<char>) -> Seq<char> {
    trim_spaces(remove_all(drop_marks(s), seq!['R', 's']))
}

/// What a cell contributes to a numeric field: a native number its value,
/// a text its cleaned numeral, anything else nothing.
pub open spec fn coerced(c: Cell) -> Option<Decimal> {
    match c {
        Cell::Number(t) => decimal_of(t@),
        Cell::Text(t) => decimal_of(numeric_text(t@)),
        _ => None,
    }
}

pub fn trim_space_chars(s: &Vec<char>) -> (r: Vec<char>)
    ensures
        r@ == trim_spaces(s@),
{
    let n = s.len();
    let mut a: usize = 0;
    assert(s@.subrange(0, n as int) =~= s@);
    while a < n && is_space(s[a])
        invariant
            a <= n,
            n == s.len(),
            trim_space_lead(s@) == trim_space_lead(s@.subrange(a as int, n as int)),
        decreases n - a,
    {
        assert(s@.subrange(a as int, n as int).drop_first() =~= s@.subrange(a + 1, n as int));
        a += 1;
    }
    let ghost lead = s@.subrange(a as int, n as int);
    let mut b: usize = n;
    while b > a && is_space(s[b - 1])
        invariant
            a <= b <= n,
            n == s.len(),
            lead == s@.subrange(a as int, n as int),
            trim_space_trail(lead) == trim_space_trail(s@.subrange(a as int, b as int)),
        decreases b - a,
    {
        assert(s@.subrange(a as int, b as int).drop_last() =~= s@.subrange(a as int, b - 1));
        b -= 1;
    }
    let mut r: Vec<char> = Vec::new();
    let mut i: usize = a;
    while i < b
        invariant
            a <= i <= b,
            b <= s.len(),
            r@ == s@.subrange(a as int, i as int),
        decreases b - i,
    {
        r.push(s[i]);
        i += 1;
        assert(r@ =~= s@.subrange(a as int, i as int));
    }
    r
}

fn drop_mark_chars(s: &Vec<char>) -> (r: Vec<char>)
    ensures
        r@ == drop_marks(s@),
{
    let mut r: Vec<char> = Vec::new();
    let mut i: usize = 0;
    while i < s.len()
        invariant
            i <= s.len(),
            r@ == drop_marks(s@.take(i as int)),
        decreases s.len() - i,
    {
        let c = s[i];
        if !(c == '%' || c == ',' || c == '\u{20b9}') {
            r.push(c);
        }
        assert(s@.take(i + 1).drop_last() =~= s@.take(i as int));
        i += 1;
    }
    assert(s@.take(s.len() as int) =~= s@);
    r
}

/// The numeral of a text cell, cleaned as `numeric_text` says.
pub fn clean_numeric_text(s: &str) -> (r: String)
    ensures
        r@ == numeric_text(s@),
{
    let t = chars_of(s);
    let unmarked = drop_mark_chars(&t);
    let mut rs: Vec<char> = Vec::new();
    rs.push('R');
    rs.push('s');
    assert(rs@ =~= seq!['R', 's']);
    let plain = remove_all_chars(&unmarked, &rs);
    let trimmed = trim_space_chars(&plain);
    string_of(&trimmed)
}

/// The number a cell holds, or `None`: booleans, errors and empty cells
/// are never numbers, and a text is a number only when its cleaned
/// numeral parses.
pub fn coerce_cell(c: &Cell) -> (r: Option<Decimal>)
    ensures
        r == coerced(*c),
{
    match c {
        Cell::Number(t) => parse_decimal(t.as_str()),
        Cell::Text(t) => {
            let cleaned = clean_numeric_text(t.as_str());
            parse_decimal(cleaned.as_str())
        },
        _ => None,
    }
}

} // verus!
