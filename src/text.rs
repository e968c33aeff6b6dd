//! Character classes, lowercasing, substring search and whitespace
//! collapsing, all specified over the `Seq<char>` view of a string.
use vstd::prelude::*;

verus! {

broadcast use vstd::string::group_string_axioms;

pub open spec fn is_ascii_char(c: char) -> bool {
    (c as u32) < 128
}

/// Whether a non-ASCII char is alphabetic or numeric in Unicode's sense.
pub uninterp spec fn unicode_alnum(c: char) -> bool;

/// Whether a non-ASCII char has Unicode's White_Space property.
pub uninterp spec fn unicode_space(c: char) -> bool;

/// The lowercase mapping of a non-ASCII char.
pub uninterp spec fn unicode_lower(c: char) -> Seq<char>;

pub open spec fn alnum_char(c: char) -> bool {
    if is_ascii_char(c) {
        ('a' <= c && c <= 'z') || ('A' <= c && c <= 'Z') || ('0' <= c && c <= '9')
    } else {
        unicode_alnum(c)
    }
}

pub open spec fn space_char(c: char) -> bool {
    if is_ascii_char(c) {
        c == ' ' || ('\t' <= c && c <= '\r')
    } else {
        unicode_space(c)
    }
}

pub open spec fn lower_char(c: char) -> Seq<char> {
    if is_ascii_char(c) {
        if 'A' <= c && c <= 'Z' {
            seq![((c as u32) + 32) as char]
        } else {
            seq![c]
        }
    } else {
        unicode_lower(c)
    }
}

/// Every char of `s` is its own lowercase mapping.
pub open spec fn lower_stable(s: Seq<char>) -> bool {
    forall|i: int| 0 <= i < s.len() ==> lower_char(#[trigger] s[i]) == seq![s[i]]
}

/// Relies on `char::is_alphanumeric`: ASCII letters and digits, and beyond
/// ASCII the chars that Unicode calls alphabetic or numeric; no such char is
/// whitespace.
#[verifier::external_body]
pub(crate) fn is_alnum(c: char) -> (r: bool)
    ensures
        is_ascii_char(c) ==> r == (('a' <= c && c <= 'z') || ('A' <= c && c <= 'Z') || ('0' <= c
            && c <= '9')),
        !is_ascii_char(c) ==> r == unicode_alnum(c),
        r ==> !space_char(c),
{
    c.is_alphanumeric()
}

/// Relies on `char::is_whitespace`: the White_Space property, which in ASCII
/// holds of the space and of the controls from tab to carriage return.
#[verifier::external_body]
pub(crate) fn is_space(c: char) -> (r: bool)
    ensures
        is_ascii_char(c) ==> r == (c == ' ' || ('\t' <= c && c <= '\r')),
        !is_ascii_char(c) ==> r == unicode_space(c),
{
    c.is_whitespace()
}

/// Relies on `char::to_lowercase`: in ASCII only `A`..`Z` change, by 32;
/// every char of a lowercase mapping is its own lowercase mapping (Unicode's
/// lowercase mappings are idempotent).
#[verifier::external_body]
pub(crate) fn lower(c: char) -> (r: Vec<char>)
    ensures
        is_ascii_char(c) ==> r@ == (if 'A' <= c && c <= 'Z' {
            seq![((c as u32) + 32) as char]
        } else {
            seq![c]
        }),
        !is_ascii_char(c) ==> r@ == unicode_lower(c),
        lower_stable(r@),
{
    c.to_lowercase().collect()
}

/// Relies on `String::push`: appends one char to the end of the string.
pub assume_specification[ String::push ](s: &mut String, ch: char)
    ensures
        final(s)@ == old(s)@.push(ch),
;

/// The chars of `s`, in order.
pub fn chars_of(s: &str) -> (r: Vec<char>)
    ensures
        r@ == s@,
{
    let mut r: Vec<char> = Vec::new();
    for c in it: s.chars()
        invariant
            r@ == it.seq().take(it.index() as int),
    {
        r.push(c);
    }
    r
}

/// The string made of the chars of `v`.
pub fn string_of(v: &Vec<char>) -> (r: String)
    ensures
        r@ == v@,
{
    let mut r = String::new();
    let mut i: usize = 0;
    while i < v.len()
        invariant
            i <= v.len(),
            r@ == v@.take(i as int),
        decreases v.len() - i,
    {
        r.push(v[i]);
        i += 1;
        assert(r@ =~= v@.take(i as int));
    }
    assert(v@.take(v.len() as int) =~= v@);
    r
}

// ---------------------------------------------------------------------
// Lowercasing
pub open spec fn lower_seq(s: Seq<char>) -> Seq<char>
    decreases s.len(),
{
    if s.len() == 0 {
        Seq::empty()
    } else {
        lower_seq(s.drop_last()) + lower_char(s.last())
    }
}

pub fn lower_chars(s: &Vec<char>) -> (r: Vec<char>)
    ensures
        r@ == lower_seq(s@),
        lower_stable(r@),
{
    let mut r: Vec<char> = Vec::new();
    let mut i: usize = 0;
    while i < s.len()
        invariant
            i <= s.len(),
            r@ == lower_seq(s@.take(i as int)),
            lower_stable(r@),
        decreases s.len() - i,
    {
        let mut l = lower(s[i]);
        let ghost prev = r@;
        let ghost piece = l@;
        r.append(&mut l);
        assert(s@.take(i + 1).drop_last() =~= s@.take(i as int));
        i += 1;
        assert(lower_stable(r@)) by {
            assert forall|j: int| 0 <= j < r@.len() implies lower_char(#[trigger] r@[j]) == seq![
                r@[j],
            ] by {
                if j < prev.len() {
                    assert(r@[j] == prev[j]);
                } else {
                    assert(r@[j] == piece[j - prev.len()]);
                }
            }
        }
    }
    assert(s@.take(s.len() as int) =~= s@);
    r
}

/// A string whose chars are their own lowercase mappings is its own
/// lowercase form.
pub proof fn lemma_lower_stable_fixed(s: Seq<char>)
    requires
        lower_stable(s),
    ensures
        lower_seq(s) == s,
    decreases s.len(),
{
    if s.len() > 0 {
        let p = s.drop_last();
        assert(lower_stable(p)) by {
            assert forall|i: int| 0 <= i < p.len() implies lower_char(#[trigger] p[i]) == seq![
                p[i],
            ] by {
                assert(p[i] == s[i]);
            }
        }
        lemma_lower_stable_fixed(p);
        assert(lower_char(s[s.len() - 1]) == seq![s.last()]);
        assert(p + seq![s.last()] =~= s);
    }
}

// ---------------------------------------------------------------------
// Keeping the chars that a comparison key is made of
pub open spec fn key_char(c: char) -> bool {
    alnum_char(c) || space_char(c)
}

pub open spec fn keep_seq(s: Seq<char>) -> Seq<char>
    decreases s.len(),
{
    if s.len() == 0 {
        Seq::empty()
    } else if key_char(s.last()) {
        keep_seq(s.drop_last()).push(s.last())
    } else {
        keep_seq(s.drop_last())
    }
}

pub fn keep_chars(s: &Vec<char>) -> (r: Vec<char>)
    ensures
        r@ == keep_seq(s@),
{
    let mut r: Vec<char> = Vec::new();
    let mut i: usize = 0;
    while i < s.len()
        invariant
            i <= s.len(),
            r@ == keep_seq(s@.take(i as int)),
        decreases s.len() - i,
    {
        let c = s[i];
        if is_alnum(c) || is_space(c) {
            r.push(c);
        }
        assert(s@.take(i + 1).drop_last() =~= s@.take(i as int));
        i += 1;
    }
    assert(s@.take(s.len() as int) =~= s@);
    r
}

pub proof fn lemma_keep_props(s: Seq<char>)
    ensures
        forall|i: int| 0 <= i < keep_seq(s).len() ==> key_char(#[trigger] keep_seq(s)[i]),
        lower_stable(s) ==> lower_stable(keep_seq(s)),
    decreases s.len(),
{
    if s.len() > 0 {
        let p = s.drop_last();
        lemma_keep_props(p);
        if lower_stable(s) {
            assert(lower_stable(p)) by {
                assert forall|i: int| 0 <= i < p.len() implies lower_char(#[trigger] p[i])
                    == seq![p[i]] by {
                    assert(p[i] == s[i]);
                }
            }
            assert(lower_char(s[s.len() - 1]) == seq![s.last()]);
        }
    }
}

// ---------------------------------------------------------------------
// Collapsing whitespace: words separated by single spaces, no space at
// either end (splitting on whitespace and joining with one space).
/// The output so far, and whether a space is owed before the next word.
pub open spec fn collapse_state(s: Seq<char>) -> (Seq<char>, bool)
    decreases s.len(),
{
    if s.len() == 0 {
        (Seq::empty(), false)
    } else {
        let prev = collapse_state(s.drop_last());
        let c = s.last();
        if space_char(c) {
            (prev.0, prev.0.len() > 0)
        } else if prev.1 {
            (prev.0.push(' ').push(c), false)
        } else {
            (prev.0.push(c), false)
        }
    }
}

pub open spec fn collapse(s: Seq<char>) -> Seq<char> {
    collapse_state(s).0
}

/// No whitespace at either end; each whitespace char is a single space
/// between two other chars.
pub open spec fn collapsed(t: Seq<char>) -> bool {
    &&& (t.len() > 0 ==> !space_char(t[0]) && !space_char(t.last()))
    &&& forall|i: int|
        0 <= i < t.len() && space_char(#[trigger] t[i]) ==> t[i] == ' ' && i + 1 < t.len()
            && !space_char(t[i + 1])
}

pub fn collapse_chars(s: &Vec<char>) -> (r: Vec<char>)
    ensures
        r@ == collapse(s@),
{
    let mut r: Vec<char> = Vec::new();
    let mut gap = false;
    let mut i: usize = 0;
    while i < s.len()
        invariant
            i <= s.len(),
            (r@, gap) == collapse_state(s@.take(i as int)),
        decreases s.len() - i,
    {
        let c = s[i];
        assert(s@.take(i + 1).drop_last() =~= s@.take(i as int));
        if is_space(c) {
            gap = r.len() > 0;
        } else {
            if gap {
                r.push(' ');
            }
            r.push(c);
            gap = false;
        }
        i += 1;
    }
    assert(s@.take(s.len() as int) =~= s@);
    r
}

pub proof fn lemma_collapse_props(s: Seq<char>)
    ensures
        collapsed(collapse(s)),
        collapse_state(s).1 ==> collapse(s).len() > 0,
        (forall|i: int| 0 <= i < s.len() ==> key_char(#[trigger] s[i])) ==> (forall|i: int|
            0 <= i < collapse(s).len() ==> key_char(#[trigger] collapse(s)[i])),
        lower_stable(s) ==> lower_stable(collapse(s)),
    decreases s.len(),
{
    if s.len() > 0 {
        let p = s.drop_last();
        lemma_collapse_props(p);
        let out = collapse_state(p).0;
        let c = s.last();
        if lower_stable(s) {
            assert(lower_stable(p)) by {
                assert forall|i: int| 0 <= i < p.len() implies lower_char(#[trigger] p[i])
                    == seq![p[i]] by {
                    assert(p[i] == s[i]);
                }
            }
            assert(lower_char(s[s.len() - 1]) == seq![c]);
        }
        if forall|i: int| 0 <= i < s.len() ==> key_char(#[trigger] s[i]) {
            assert forall|i: int| 0 <= i < p.len() implies key_char(#[trigger] p[i]) by {
                assert(p[i] == s[i]);
            }
            assert(key_char(s[s.len() - 1]));
        }
        if !space_char(c) {
            let t = collapse(s);
            if collapse_state(p).1 {
                assert(t =~= out.push(' ').push(c));
                assert(t[out.len() as int] == ' ');
                assert(t[out.len() + 1int] == c);
                assert forall|i: int| 0 <= i < t.len() && space_char(#[trigger] t[i]) implies t[i]
                    == ' ' && i + 1 < t.len() && !space_char(t[i + 1]) by {
                    if i < out.len() {
                        assert(t[i] == out[i]);
                        if i + 1 < out.len() {
                            assert(t[i + 1] == out[i + 1]);
                        }
                    }
                }
            } else {
                assert(t =~= out.push(c));
                assert forall|i: int| 0 <= i < t.len() && space_char(#[trigger] t[i]) implies t[i]
                    == ' ' && i + 1 < t.len() && !space_char(t[i + 1]) by {
                    if i < out.len() {
                        assert(t[i] == out[i]);
                        if i + 1 < out.len() {
                            assert(t[i + 1] == out[i + 1]);
                        }
                    }
                }
            }
        }
    }
}

/// A collapsed string is left as it is by collapsing.
pub proof fn lemma_collapse_fixed(t: Seq<char>)
    requires
        collapsed(t),
    ensures
        collapse(t) == t,
{
    lemma_collapse_prefix(t, t.len() as int);
    assert(t.take(t.len() as int) =~= t);
}

proof fn lemma_collapse_prefix(t: Seq<char>, k: int)
    requires
        collapsed(t),
        0 <= k <= t.len(),
    ensures
        collapse_state(t.take(k)) == (if k > 0 && space_char(t[k - 1]) {
            (t.take(k - 1), true)
        } else {
            (t.take(k), false)
        }),
    decreases k,
{
    if k > 0 {
        lemma_collapse_prefix(t, k - 1);
        assert(t.take(k).drop_last() =~= t.take(k - 1));
        assert(t.take(k).last() == t[k - 1]);
        if space_char(t[k - 1]) {
            assert(k - 1 > 0);
            assert(!space_char(t[k - 2]));
        } else if k - 1 > 0 && space_char(t[k - 2]) {
            assert(t[k - 2] == ' ');
            assert(t.take(k - 2).push(' ').push(t[k - 1]) =~= t.take(k));
        } else {
            assert(t.take(k - 1).push(t[k - 1]) =~= t.take(k));
        }
    }
}

// ---------------------------------------------------------------------
// Canonical comparison keys
/// The comparison key of a name: lowercase, only alphanumeric and
/// whitespace chars kept, whitespace collapsed to single spaces.
pub open spec fn canonical(s: Seq<char>) -> Seq<char> {
    collapse(keep_seq(lower_seq(s)))
}

/// The comparison key of `s`; a key is its own key.
pub fn canonicalize(s: &str) -> (r: String)
    ensures
        r@ == canonical(s@),
        canonical(r@) == r@,
{
    let chars = chars_of(s);
    let lowered = lower_chars(&chars);
    let kept = keep_chars(&lowered);
    let key = collapse_chars(&kept);
    proof {
        lemma_key_is_fixed(lowered@);
    }
    string_of(&key)
}

/// The key built from a string whose chars are their own lowercase mappings
/// is its own key.
proof fn lemma_key_is_fixed(l: Seq<char>)
    requires
        lower_stable(l),
    ensures
        canonical(collapse(keep_seq(l))) == collapse(keep_seq(l)),
{
    let k = keep_seq(l);
    let t = collapse(k);
    lemma_keep_props(l);
    lemma_collapse_props(k);
    lemma_lower_stable_fixed(t);
    assert(keep_seq(t) == t) by {
        lemma_keep_all(t);
    }
    lemma_collapse_fixed(t);
}

proof fn lemma_keep_all(s: Seq<char>)
    requires
        forall|i: int| 0 <= i < s.len() ==> key_char(#[trigger] s[i]),
    ensures
        keep_seq(s) == s,
    decreases s.len(),
{
    if s.len() > 0 {
        let p = s.drop_last();
        assert forall|i: int| 0 <= i < p.len() implies key_char(#[trigger] p[i]) by {
            assert(p[i] == s[i]);
        }
        lemma_keep_all(p);
        assert(key_char(s[s.len() - 1]));
        assert(p.push(s.last()) =~= s);
    }
}

// ---------------------------------------------------------------------
// Substrings
pub open spec fn occurs_at(s: Seq<char>, p: Seq<char>, i: int) -> bool {
    0 <= i && i + p.len() <= s.len() && s.subrange(i, i + p.len()) == p
}

pub open spec fn contains(s: Seq<char>, p: Seq<char>) -> bool {
    exists|i: int| occurs_at(s, p, i)
}

pub open spec fn ends_with(s: Seq<char>, p: Seq<char>) -> bool {
    p.len() <= s.len() && s.subrange(s.len() - p.len(), s.len() as int) == p
}

pub fn occurs_at_exec(s: &Vec<char>, p: &Vec<char>, i: usize) -> (r: bool)
    ensures
        r == occurs_at(s@, p@, i as int),
{
    if i > s.len() || p.len() > s.len() - i {
        return false;
    }
    let mut j: usize = 0;
    while j < p.len()
        invariant
            i + p.len() <= s.len(),
            j <= p.len(),
            forall|k: int| 0 <= k < j ==> s@[i + k] == p@[k],
        decreases p.len() - j,
    {
        if s[i + j] != p[j] {
            assert(s@.subrange(i as int, i + p.len())[j as int] != p@[j as int]);
            return false;
        }
        j += 1;
    }
    assert(s@.subrange(i as int, i + p.len()) =~= p@);
    true
}

pub fn contains_chars(s: &Vec<char>, p: &Vec<char>) -> (r: bool)
    ensures
        r == contains(s@, p@),
{
    if p.len() > s.len() {
        return false;
    }
    let last = s.len() - p.len();
    let mut i: usize = 0;
    loop
        invariant
            p.len() <= s.len(),
            last == s.len() - p.len(),
            i <= last,
            forall|k: int| 0 <= k < i ==> !occurs_at(s@, p@, k),
        decreases last - i,
    {
        if occurs_at_exec(s, p, i) {
            return true;
        }
        if i == last {
            return false;
        }
        i += 1;
    }
}

/// Whether `s` contains the text of `p`.
pub fn contains_str(s: &Vec<char>, p: &str) -> (r: bool)
    ensures
        r == contains(s@, p@),
{
    let pc = chars_of(p);
    contains_chars(s, &pc)
}

pub fn ends_with_chars(s: &Vec<char>, p: &Vec<char>) -> (r: bool)
    ensures
        r == ends_with(s@, p@),
{
    if p.len() > s.len() {
        return false;
    }
    let r = occurs_at_exec(s, p, s.len() - p.len());
    r
}

/// Whether two char sequences are equal.
pub fn same_chars(a: &Vec<char>, b: &Vec<char>) -> (r: bool)
    ensures
        r == (a@ == b@),
{
    if a.len() != b.len() {
        return false;
    }
    let r = occurs_at_exec(a, b, 0);
    assert(a@.subrange(0, a@.len() as int) =~= a@);
    r
}

pub fn starts_with_str(s: &Vec<char>, p: &str) -> (r: bool)
    ensures
        r == occurs_at(s@, p@, 0),
{
    let pc = chars_of(p);
    occurs_at_exec(s, &pc, 0)
}

} // verus!
