//! Display cleaning of scheme names: plan-type boilerplate such as
//! "- Reg - Growth" is removed before a name is stored.
use vstd::prelude::*;
use crate::text::{
    alnum_char, chars_of, collapse, collapse_chars, collapse_state, collapsed, contains, ends_with,
    ends_with_chars, is_alnum, lemma_collapse_fixed, lemma_collapse_props, occurs_at, occurs_at_exec,
    space_char, string_of,
};

verus! {

// ---------------------------------------------------------------------
// Edge trimming
pub open spec fn trim_lead(s: Seq<char>) -> Seq<char>
    decreases s.len(),
{
    if s.len() > 0 && !alnum_char(s[0]) {
        trim_lead(s.drop_first())
    } else {
        s
    }
}

pub open spec fn trim_trail(s: Seq<char>) -> Seq<char>
    decreases s.len(),
{
    if s.len() > 0 && !alnum_char(s.last()) {
        trim_trail(s.drop_last())
    } else {
        s
    }
}

/// `s` without the non-alphanumeric chars at either end.
pub open spec fn edge_trim(s: Seq<char>) -> Seq<char> {
    trim_trail(trim_lead(s))
}

/// Both ends of `t` are alphanumeric chars that are not whitespace.
pub open spec fn solid_ends(t: Seq<char>) -> bool {
    t.len() > 0 ==> alnum_char(t[0]) && !space_char(t[0]) && alnum_char(t.last()) && !space_char(
        t.last(),
    )
}

pub fn edge_trim_chars(s: &Vec<char>) -> (r: Vec<char>)
    ensures
        r@ == edge_trim(s@),
        solid_ends(r@),
{
    let n = s.len();
    let mut a: usize = 0;
    assert(s@.subrange(0, n as int) =~= s@);
    loop
        invariant
            a <= n,
            n == s.len(),
            trim_lead(s@) == trim_lead(s@.subrange(a as int, n as int)),
        ensures
            a <= n,
            trim_lead(s@) == s@.subrange(a as int, n as int),
            a < n ==> alnum_char(s@[a as int]) && !space_char(s@[a as int]),
        decreases n - a,
    {
        if a == n {
            break;
        }
        if is_alnum(s[a]) {
            break;
        }
        assert(s@.subrange(a as int, n as int).drop_first() =~= s@.subrange(a + 1, n as int));
        a += 1;
    }
    let ghost lead = s@.subrange(a as int, n as int);
    let mut b: usize = n;
    loop
        invariant
            a <= b <= n,
            n == s.len(),
            lead == s@.subrange(a as int, n as int),
            trim_trail(lead) == trim_trail(s@.subrange(a as int, b as int)),
        ensures
            a <= b <= n,
            trim_trail(lead) == s@.subrange(a as int, b as int),
            a < b ==> alnum_char(s@[b - 1]) && !space_char(s@[b - 1]),
        decreases b - a,
    {
        if b == a {
            break;
        }
        if is_alnum(s[b - 1]) {
            break;
        }
        assert(s@.subrange(a as int, b as int).drop_last() =~= s@.subrange(a as int, b - 1));
        b -= 1;
    }
    let mut r: Vec<char> = Vec::new();
    let mut i: usize = a;
    while i < b
        invariant
            a <= i <= b,
            b <= s.len(),
            r@ == s@.subrange(a as int, i as int),
        decreases b - i,
    {
        r.push(s[i]);
        i += 1;
        assert(r@ =~= s@.subrange(a as int, i as int));
    }
    r
}

// ---------------------------------------------------------------------
// Removing every occurrence of a pattern, left to right
pub open spec fn remove_all(s: Seq<char>, p: Seq<char>) -> Seq<char>
    decreases s.len(),
{
    if p.len() == 0 || s.len() < p.len() {
        s
    } else if s.take(p.len() as int) == p {
        remove_all(s.skip(p.len() as int), p)
    } else {
        seq![s[0]] + remove_all(s.skip(1), p)
    }
}

pub fn remove_all_chars(s: &Vec<char>, p: &Vec<char>) -> (r: Vec<char>)
    ensures
        r@ == remove_all(s@, p@),
{
    if p.len() == 0 {
        return s.clone();
    }
    let mut r: Vec<char> = Vec::new();
    let mut i: usize = 0;
    assert(s@.skip(0) =~= s@);
    assert(r@ + s@ =~= s@);
    while i < s.len()
        invariant
            i <= s.len(),
            p.len() > 0,
            r@ + remove_all(s@.skip(i as int), p@) == remove_all(s@, p@),
        decreases s.len() - i,
    {
        let ghost rest = s@.skip(i as int);
        if p.len() <= s.len() - i && occurs_at_exec(s, p, i) {
            assert(rest.take(p.len() as int) =~= s@.subrange(i as int, i + p.len()));
            assert(rest.skip(p.len() as int) =~= s@.skip(i + p.len()));
            i += p.len();
        } else {
            if p.len() <= s.len() - i {
                assert(rest.take(p.len() as int) =~= s@.subrange(i as int, i + p.len()));
                assert(rest.skip(1) =~= s@.skip(i + 1));
                assert(r@.push(s@[i as int]) + remove_all(s@.skip(i + 1), p@) =~= r@ + (seq![
                    rest[0],
                ] + remove_all(rest.skip(1), p@)));
                r.push(s[i]);
                i += 1;
            } else {
                while i < s.len()
                    invariant
                        i <= s.len(),
                        p.len() > 0,
                        s.len() - i < p.len(),
                        r@ + s@.skip(i as int) == remove_all(s@, p@),
                    decreases s.len() - i,
                {
                    assert(r@.push(s@[i as int]) + s@.skip(i + 1) =~= r@ + s@.skip(i as int));
                    r.push(s[i]);
                    i += 1;
                }
                assert(s@.skip(i as int) =~= Seq::<char>::empty());
                assert(r@ =~= r@ + s@.skip(i as int));
                return r;
            }
        }
    }
    assert(s@.skip(i as int) =~= Seq::<char>::empty());
    assert(r@ + Seq::<char>::empty() =~= r@);
    r
}

// ---------------------------------------------------------------------
// Stripping a suffix
pub open spec fn strip_suffix(s: Seq<char>, p: Seq<char>) -> Seq<char> {
    if ends_with(s, p) {
        s.take(s.len() - p.len())
    } else {
        s
    }
}

pub fn strip_suffix_chars(s: &Vec<char>, p: &Vec<char>) -> (r: Vec<char>)
    ensures
        r@ == strip_suffix(s@, p@),
{
    if ends_with_chars(s, p) {
        let keep = s.len() - p.len();
        let mut r: Vec<char> = Vec::new();
        let mut i: usize = 0;
        while i < keep
            invariant
                i <= keep,
                keep <= s.len(),
                r@ == s@.take(i as int),
            decreases keep - i,
        {
            r.push(s[i]);
            i += 1;
            assert(r@ =~= s@.take(i as int));
        }
        r
    } else {
        s.clone()
    }
}

// ---------------------------------------------------------------------
// The noise patterns
pub const NOISE_INFIX_COUNT: usize = 9;

pub const NOISE_SUFFIX_COUNT: usize = 22;

/// Plan-type boilerplate removed wherever it stands in a name, in this order.
pub open spec fn noise_infix(k: int) -> Seq<char> {
    if k == 0 {
        "- Reg - Growth"@
    } else if k == 1 {
        " - Reg - Growth"@
    } else if k == 2 {
        "- Reg - Gth"@
    } else if k == 3 {
        " - Reg - Gth"@
    } else if k == 4 {
        " - Reg - G P"@
    } else if k == 5 {
        "- Reg - G P"@
    } else if k == 6 {
        " - Reg "@
    } else if k == 7 {
        "- Reg "@
    } else {
        "-Reg-Growth"@
    }
}

/// Plan-type qualifiers removed from the end of a name, longest first.
pub open spec fn noise_suffix(k: int) -> Seq<char> {
    if k == 0 {
        " - Reg - Growth (Re-launched"@
    } else if k == 1 {
        "- Reg - Growth"@
    } else if k == 2 {
        " - Reg - G P"@
    } else if k == 3 {
        "- Reg - Gth"@
    } else if k == 4 {
        "- Reg - G P"@
    } else if k == 5 {
        " - Regular "@
    } else if k == 6 {
        "-Reg-Growth"@
    } else if k == 7 {
        " - Regular"@
    } else if k == 8 {
        "- Regular "@
    } else if k == 9 {
        "- Regular"@
    } else if k == 10 {
        "- Growth"@
    } else if k == 11 {
        " Regular"@
    } else if k == 12 {
        "-Growth"@
    } else if k == 13 {
        "Regular"@
    } else if k == 14 {
        " - Reg "@
    } else if k == 15 {
        "Growth"@
    } else if k == 16 {
        " - Reg"@
    } else if k == 17 {
        " -Reg "@
    } else if k == 18 {
        "-Reg "@
    } else if k == 19 {
        "- Reg"@
    } else if k == 20 {
        " -Reg"@
    } else {
        "-Reg"@
    }
}

fn noise_infix_text(k: usize) -> (r: &'static str)
    requires
        k < NOISE_INFIX_COUNT,
    ensures
        r@ == noise_infix(k as int),
{
    if k == 0 {
        "- Reg - Growth"
    } else if k == 1 {
        " - Reg - Growth"
    } else if k == 2 {
        "- Reg - Gth"
    } else if k == 3 {
        " - Reg - Gth"
    } else if k == 4 {
        " - Reg - G P"
    } else if k == 5 {
        "- Reg - G P"
    } else if k == 6 {
        " - Reg "
    } else if k == 7 {
        "- Reg "
    } else {
        "-Reg-Growth"
    }
}

fn noise_suffix_text(k: usize) -> (r: &'static str)
    requires
        k < NOISE_SUFFIX_COUNT,
    ensures
        r@ == noise_suffix(k as int),
{
    if k == 0 {
        " - Reg - Growth (Re-launched"
    } else if k == 1 {
        "- Reg - Growth"
    } else if k == 2 {
        " - Reg - G P"
    } else if k == 3 {
        "- Reg - Gth"
    } else if k == 4 {
        "- Reg - G P"
    } else if k == 5 {
        " - Regular "
    } else if k == 6 {
        "-Reg-Growth"
    } else if k == 7 {
        " - Regular"
    } else if k == 8 {
        "- Regular "
    } else if k == 9 {
        "- Regular"
    } else if k == 10 {
        "- Growth"
    } else if k == 11 {
        " Regular"
    } else if k == 12 {
        "-Growth"
    } else if k == 13 {
        "Regular"
    } else if k == 14 {
        " - Reg "
    } else if k == 15 {
        "Growth"
    } else if k == 16 {
        " - Reg"
    } else if k == 17 {
        " -Reg "
    } else if k == 18 {
        "-Reg "
    } else if k == 19 {
        "- Reg"
    } else if k == 20 {
        " -Reg"
    } else {
        "-Reg"
    }
}

/// The infixes from the `k`-th on, removed in turn.
pub open spec fn remove_infixes_from(s: Seq<char>, k: int) -> Seq<char>
    decreases NOISE_INFIX_COUNT - k,
{
    if 0 <= k < NOISE_INFIX_COUNT {
        remove_infixes_from(remove_all(s, noise_infix(k)), k + 1)
    } else {
        s
    }
}

/// The suffixes from the `k`-th on, each stripped once in turn.
pub open spec fn strip_suffixes_from(s: Seq<char>, k: int) -> Seq<char>
    decreases NOISE_SUFFIX_COUNT - k,
{
    if 0 <= k < NOISE_SUFFIX_COUNT {
        strip_suffixes_from(strip_suffix(s, noise_suffix(k)), k + 1)
    } else {
        s
    }
}

/// Edge trimming followed by whitespace collapsing.
pub open spec fn tidy(s: Seq<char>) -> Seq<char> {
    collapse(edge_trim(s))
}

/// One cleaning pass: the infixes removed, the suffixes stripped, then
/// trimmed and collapsed again.
pub open spec fn clean_pass(t: Seq<char>) -> Seq<char> {
    tidy(strip_suffixes_from(remove_infixes_from(t, 0), 0))
}

/// Cleaning passes repeated for as long as they shorten the name.
pub open spec fn settle(t: Seq<char>) -> Seq<char>
    decreases t.len(),
{
    if clean_pass(t).len() < t.len() {
        settle(clean_pass(t))
    } else {
        t
    }
}

/// The display name stored for a raw scheme name.
pub open spec fn clean_name(s: Seq<char>) -> Seq<char> {
    settle(tidy(s))
}

/// `t` holds none of the infixes and ends with none of the suffixes.
pub open spec fn free_of_noise(t: Seq<char>) -> bool {
    &&& forall|k: int| 0 <= k < NOISE_INFIX_COUNT ==> !contains(t, #[trigger] noise_infix(k))
    &&& forall|k: int| 0 <= k < NOISE_SUFFIX_COUNT ==> !ends_with(t, #[trigger] noise_suffix(k))
}

fn tidy_chars(s: &Vec<char>) -> (r: Vec<char>)
    ensures
        r@ == tidy(s@),
        solid_ends(r@),
        collapsed(r@),
{
    let e = edge_trim_chars(s);
    let r = collapse_chars(&e);
    proof {
        lemma_collapse_props(e@);
        lemma_collapse_ends(e@);
    }
    r
}

/// Collapsing keeps a non-whitespace char at either end where it stands.
proof fn lemma_collapse_ends(e: Seq<char>)
    requires
        solid_ends(e),
    ensures
        solid_ends(collapse(e)),
{
    if e.len() > 0 {
        lemma_collapse_first(e);
        assert(collapse(e).last() == e.last());
    }
}

proof fn lemma_collapse_first(e: Seq<char>)
    requires
        e.len() > 0,
        !space_char(e[0]),
    ensures
        collapse(e).len() > 0,
        collapse(e)[0] == e[0],
    decreases e.len(),
{
    let p = e.drop_last();
    let c = e.last();
    if p.len() > 0 {
        assert(p[0] == e[0]);
        lemma_collapse_first(p);
        let q = collapse_state(p).0;
        if space_char(c) {
        } else if collapse_state(p).1 {
            assert(q.push(' ').push(c)[0] == q[0]);
        } else {
            assert(q.push(c)[0] == q[0]);
        }
    } else {
        assert(collapse_state(p).0.len() == 0);
        assert(c == e[0]);
    }
}

fn clean_pass_chars(t: &Vec<char>) -> (r: Vec<char>)
    ensures
        r@ == clean_pass(t@),
        solid_ends(r@),
        collapsed(r@),
{
    let mut cur = t.clone();
    assert(cur@ =~= t@);
    let mut k: usize = 0;
    while k < NOISE_INFIX_COUNT
        invariant
            k <= NOISE_INFIX_COUNT,
            remove_infixes_from(t@, 0) == remove_infixes_from(cur@, k as int),
        decreases NOISE_INFIX_COUNT - k,
    {
        let p = chars_of(noise_infix_text(k));
        cur = remove_all_chars(&cur, &p);
        k += 1;
    }
    let ghost second = cur@;
    let mut k: usize = 0;
    while k < NOISE_SUFFIX_COUNT
        invariant
            k <= NOISE_SUFFIX_COUNT,
            strip_suffixes_from(second, 0) == strip_suffixes_from(cur@, k as int),
        decreases NOISE_SUFFIX_COUNT - k,
    {
        let p = chars_of(noise_suffix_text(k));
        cur = strip_suffix_chars(&cur, &p);
        k += 1;
    }
    tidy_chars(&cur)
}

/// The display name of a raw scheme name: ends trimmed of
/// non-alphanumeric chars and whitespace collapsed, then cleaning passes
/// (plan-type boilerplate removed, trimmed and collapsed again) repeated
/// until one changes nothing. A cleaned name is its own cleaned name, and
/// holds no boilerplate.
pub fn clean_scheme_name(name: String) -> (r: String)
    ensures
        r@ == clean_name(name@),
        clean_name(r@) == r@,
        free_of_noise(r@),
{
    let chars = chars_of(name.as_str());
    let mut cur = tidy_chars(&chars);
    loop
        invariant
            clean_name(name@) == settle(cur@),
            solid_ends(cur@),
            collapsed(cur@),
        ensures
            clean_name(name@) == cur@,
            solid_ends(cur@),
            collapsed(cur@),
            clean_pass(cur@).len() >= cur@.len(),
        decreases cur.len(),
    {
        let next = clean_pass_chars(&cur);
        if next.len() < cur.len() {
            cur = next;
        } else {
            break;
        }
    }
    proof {
        lemma_tidy_fixed(cur@);
        lemma_pass_fixed(cur@);
    }
    string_of(&cur)
}

/// A trimmed, collapsed name is left as it is by trimming and collapsing.
proof fn lemma_tidy_fixed(t: Seq<char>)
    requires
        solid_ends(t),
        collapsed(t),
    ensures
        tidy(t) == t,
{
    assert(edge_trim(t) == t) by {
        assert(trim_lead(t) == t);
        assert(trim_trail(t) == t);
    }
    lemma_collapse_fixed(t);
}

/// On a trimmed, collapsed name a pass never lengthens it, and a pass that
/// does not shorten it changes nothing: the name then holds no boilerplate.
proof fn lemma_pass_fixed(t: Seq<char>)
    requires
        solid_ends(t),
        collapsed(t),
    ensures
        clean_pass(t).len() <= t.len(),
        clean_pass(t).len() == t.len() ==> clean_pass(t) == t && free_of_noise(t),
{
    let x = remove_infixes_from(t, 0);
    let y = strip_suffixes_from(x, 0);
    lemma_infixes_len(t, 0);
    lemma_suffixes_len(x, 0);
    lemma_tidy_len(y);
    lemma_tidy_fixed(t);
    if clean_pass(t).len() == t.len() {
        assert(y == t);
        assert(x == t);
    }
}

proof fn lemma_remove_len(s: Seq<char>, p: Seq<char>)
    ensures
        remove_all(s, p).len() <= s.len(),
        remove_all(s, p).len() == s.len() ==> remove_all(s, p) == s && (p.len() > 0 ==> !contains(
            s,
            p,
        )),
    decreases s.len(),
{
    if p.len() == 0 {
    } else if s.len() < p.len() {
    } else if s.take(p.len() as int) == p {
        lemma_remove_len(s.skip(p.len() as int), p);
    } else {
        let t = s.skip(1);
        lemma_remove_len(t, p);
        if remove_all(s, p).len() == s.len() {
            assert(seq![s[0]] + t =~= s);
            assert(!contains(s, p)) by {
                if contains(s, p) {
                    let k = choose|k: int| occurs_at(s, p, k);
                    if k == 0 {
                        assert(s.subrange(0, p.len() as int) =~= s.take(p.len() as int));
                    } else {
                        assert(s.subrange(k, k + p.len()) =~= t.subrange(k - 1, k - 1 + p.len()));
                        assert(occurs_at(t, p, k - 1));
                    }
                }
            }
        }
    }
}

proof fn lemma_infixes_len(s: Seq<char>, k: int)
    requires
        0 <= k <= NOISE_INFIX_COUNT,
    ensures
        remove_infixes_from(s, k).len() <= s.len(),
        remove_infixes_from(s, k).len() == s.len() ==> remove_infixes_from(s, k) == s && forall|
            j: int,
        | k <= j < NOISE_INFIX_COUNT ==> !contains(s, #[trigger] noise_infix(j)),
    decreases NOISE_INFIX_COUNT - k,
{
    if k < NOISE_INFIX_COUNT {
        let r = remove_all(s, noise_infix(k));
        assert(noise_infix(k).len() > 0) by {
            reveal_strlit("- Reg - Growth");
            reveal_strlit(" - Reg - Growth");
            reveal_strlit("- Reg - Gth");
            reveal_strlit(" - Reg - Gth");
            reveal_strlit(" - Reg - G P");
            reveal_strlit("- Reg - G P");
            reveal_strlit(" - Reg ");
            reveal_strlit("- Reg ");
            reveal_strlit("-Reg-Growth");
        }
        lemma_remove_len(s, noise_infix(k));
        lemma_infixes_len(r, k + 1);
    }
}

proof fn lemma_suffixes_len(s: Seq<char>, k: int)
    requires
        0 <= k <= NOISE_SUFFIX_COUNT,
    ensures
        strip_suffixes_from(s, k).len() <= s.len(),
        strip_suffixes_from(s, k).len() == s.len() ==> strip_suffixes_from(s, k) == s && forall|
            j: int,
        | k <= j < NOISE_SUFFIX_COUNT ==> !ends_with(s, #[trigger] noise_suffix(j)),
    decreases NOISE_SUFFIX_COUNT - k,
{
    if k < NOISE_SUFFIX_COUNT {
        let r = strip_suffix(s, noise_suffix(k));
        assert(noise_suffix(k).len() > 0) by {
            reveal_strlit(" - Reg - Growth (Re-launched");
            reveal_strlit("- Reg - Growth");
            reveal_strlit(" - Reg - G P");
            reveal_strlit("- Reg - Gth");
            reveal_strlit("- Reg - G P");
            reveal_strlit(" - Regular ");
            reveal_strlit("-Reg-Growth");
            reveal_strlit(" - Regular");
            reveal_strlit("- Regular ");
            reveal_strlit("- Regular");
            reveal_strlit("- Growth");
            reveal_strlit(" Regular");
            reveal_strlit("-Growth");
            reveal_strlit("Regular");
            reveal_strlit(" - Reg ");
            reveal_strlit("Growth");
            reveal_strlit(" - Reg");
            reveal_strlit(" -Reg ");
            reveal_strlit("-Reg ");
            reveal_strlit("- Reg");
            reveal_strlit(" -Reg");
            reveal_strlit("-Reg");
        }
        lemma_suffixes_len(r, k + 1);
    }
}

proof fn lemma_trim_lead_len(s: Seq<char>)
    ensures
        trim_lead(s).len() <= s.len(),
    decreases s.len(),
{
    if s.len() > 0 && !alnum_char(s[0]) {
        lemma_trim_lead_len(s.drop_first());
    }
}

proof fn lemma_trim_trail_len(s: Seq<char>)
    ensures
        trim_trail(s).len() <= s.len(),
    decreases s.len(),
{
    if s.len() > 0 && !alnum_char(s.last()) {
        lemma_trim_trail_len(s.drop_last());
    }
}

proof fn lemma_collapse_len(s: Seq<char>)
    ensures
        collapse_state(s).0.len() + (if collapse_state(s).1 {
            1int
        } else {
            0int
        }) <= s.len(),
    decreases s.len(),
{
    if s.len() > 0 {
        lemma_collapse_len(s.drop_last());
    }
}

proof fn lemma_tidy_len(s: Seq<char>)
    ensures
        tidy(s).len() <= s.len(),
{
    lemma_trim_lead_len(s);
    lemma_trim_trail_len(trim_lead(s));
    lemma_collapse_len(edge_trim(s));
}

} // verus!
