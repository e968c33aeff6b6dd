//! Cross-sheet deduplication of pooled records.
use vstd::prelude::*;
use crate::records::{FundRecord, record_view, views_of};
use crate::text::{canonical, canonicalize};

verus! {

/// Which records survive when names repeat across the pooled records.
#[derive(Clone, Copy, Debug, PartialEq, Eq)]
pub enum DedupPolicy {
    /// Every record whose raw scheme name occurs more than once is dropped.
    ExactName,
    /// The first record of each canonical name is kept, later ones dropped.
    FirstCanonical,
}

/// How many records of `recs` carry the raw scheme name `n`.
pub open spec fn name_count(recs: Seq<FundRecord>, n: Seq<char>) -> nat
    decreases recs.len(),
{
    if recs.len() == 0 {
        0
    } else {
        name_count(recs.drop_last(), n) + if recs.last().scheme_name@ == n {
            1nat
        } else {
            0nat
        }
    }
}

/// The records of `recs` whose raw name occurs exactly once in `all`.
pub open spec fn unique_named(recs: Seq<FundRecord>, all: Seq<FundRecord>) -> Seq<FundRecord>
    decreases recs.len(),
{
    if recs.len() == 0 {
        Seq::empty()
    } else {
        let prev = unique_named(recs.drop_last(), all);
        if name_count(all, recs.last().scheme_name@) == 1 {
            prev.push(recs.last())
        } else {
            prev
        }
    }
}

/// The comparison key of a record, computed from its scheme name.
pub open spec fn record_key(r: FundRecord) -> Seq<char> {
    canonical(r.scheme_name@)
}

/// Some record of `recs` has the key `k`.
pub open spec fn key_seen(recs: Seq<FundRecord>, k: Seq<char>) -> bool {
    exists|j: int| 0 <= j < recs.len() && #[trigger] record_key(recs[j]) == k
}

/// The first record of each key, in order.
pub open spec fn first_by_key(recs: Seq<FundRecord>) -> Seq<FundRecord>
    decreases recs.len(),
{
    if recs.len() == 0 {
        Seq::empty()
    } else {
        let prev = first_by_key(recs.drop_last());
        if key_seen(recs.drop_last(), record_key(recs.last())) {
            prev
        } else {
            prev.push(recs.last())
        }
    }
}

pub open spec fn deduplicated(policy: DedupPolicy, recs: Seq<FundRecord>) -> Seq<FundRecord> {
    match policy {
        DedupPolicy::ExactName => unique_named(recs, recs),
        DedupPolicy::FirstCanonical => first_by_key(recs),
    }
}

/// The records that first-seen retention keeps are records of `recs`, and
/// no two of them share a key, so no two share a scheme name.
pub proof fn lemma_first_by_key_distinct(recs: Seq<FundRecord>)
    ensures
        forall|i: int|
            0 <= i < first_by_key(recs).len() ==> exists|j: int|
                0 <= j < recs.len() && recs[j] == #[trigger] first_by_key(recs)[i],
        forall|a: int, b: int|
            0 <= a < b < first_by_key(recs).len() ==> record_key(#[trigger] first_by_key(recs)[a])
                != record_key(#[trigger] first_by_key(recs)[b]) && first_by_key(recs)[a].scheme_name@
                != first_by_key(recs)[b].scheme_name@,
    decreases recs.len(),
{
    if recs.len() > 0 {
        let p = recs.drop_last();
        lemma_first_by_key_distinct(p);
        let prev = first_by_key(p);
        let x = recs.last();
        let cur = first_by_key(recs);
        assert forall|i: int| 0 <= i < cur.len() implies exists|j: int|
            0 <= j < recs.len() && recs[j] == #[trigger] cur[i] by {
            if i < prev.len() {
                let j = choose|j: int| 0 <= j < p.len() && p[j] == prev[i];
                assert(recs[j] == cur[i]);
            } else {
                assert(recs[recs.len() - 1] == cur[i]);
            }
        }
        if !key_seen(p, record_key(x)) {
            assert forall|a: int, b: int| 0 <= a < b < cur.len() implies record_key(
                #[trigger] cur[a],
            ) != record_key(#[trigger] cur[b]) && cur[a].scheme_name@ != cur[b].scheme_name@ by {
                assert(cur[a] == prev[a]);
                if b == prev.len() {
                    let j = choose|j: int| 0 <= j < p.len() && p[j] == prev[a];
                    if record_key(prev[a]) == record_key(x) {
                        assert(record_key(p[j]) == record_key(x));
                        assert(key_seen(p, record_key(x)));
                    }
                } else {
                    assert(cur[b] == prev[b]);
                }
            }
        }
    }
}

/// Drops every record whose raw scheme name occurs more than once, and
/// counts the records dropped.
pub fn remove_exact_duplicates(all: Vec<FundRecord>) -> (r: (Vec<FundRecord>, usize))
    ensures
        r.0@ == unique_named(all@, all@),
        r.1 == all@.len() - r.0@.len(),
{
    let n = all.len();
    let ghost whole = all@;
    let mut counts: Vec<usize> = Vec::new();
    let mut i: usize = 0;
    while i < n
        invariant
            n == all.len(),
            whole == all@,
            i <= n,
            counts@.len() == i,
            forall|k: int|
                0 <= k < i ==> #[trigger] counts@[k] == name_count(whole, whole[k].scheme_name@),
        decreases n - i,
    {
        let mut c: usize = 0;
        let mut j: usize = 0;
        assert(whole.take(0) =~= Seq::<FundRecord>::empty());
        while j < n
            invariant
                n == all.len(),
                whole == all@,
                i < n,
                j <= n,
                c == name_count(whole.take(j as int), whole[i as int].scheme_name@),
                c <= j,
            decreases n - j,
        {
            assert(whole.take(j + 1).drop_last() =~= whole.take(j as int));
            if all[j].scheme_name == all[i].scheme_name {
                c += 1;
            }
            j += 1;
        }
        assert(whole.take(n as int) =~= whole);
        counts.push(c);
        i += 1;
    }
    let mut kept: Vec<FundRecord> = Vec::new();
    let mut removed: usize = 0;
    let mut k: usize = 0;
    for rec in it: all.into_iter()
        invariant
            it.seq() == whole,
            whole.len() == n,
            k == it.index(),
            counts@.len() == n,
            forall|k: int|
                0 <= k < n ==> #[trigger] counts@[k] == name_count(whole, whole[k].scheme_name@),
            kept@ == unique_named(whole.take(it.index() as int), whole),
            removed == it.index() - kept@.len(),
            kept@.len() <= it.index(),
    {
        proof {
            assert(whole.take(k + 1).drop_last() =~= whole.take(k as int));
            assert(whole.take(k + 1).last() == rec);
        }
        if counts[k] == 1 {
            kept.push(rec);
        } else {
            removed += 1;
        }
        k += 1;
    }
    proof {
        assert(whole.take(n as int) =~= whole);
    }
    (kept, removed)
}

/// Keeps the first record of each canonical name, and counts the records
/// dropped.
/// The key of each record is computed from its scheme name; the records
/// kept have pairwise different keys, hence different scheme names.
pub fn remove_all_duplicates(all: Vec<FundRecord>) -> (r: (Vec<FundRecord>, usize))
    ensures
        r.0@ == first_by_key(all@),
        r.1 == all@.len() - r.0@.len(),
        forall|a: int, b: int|
            0 <= a < b < r.0@.len() ==> (#[trigger] r.0@[a]).scheme_name@ != (#[trigger] r.0@[
                b]).scheme_name@,
{
    let ghost whole = all@;
    let n = all.len();
    let mut keys: Vec<String> = Vec::new();
    let mut kept: Vec<FundRecord> = Vec::new();
    let mut removed: usize = 0;
    for rec in it: all.into_iter()
        invariant
            it.seq() == whole,
            whole.len() == n,
            keys@.len() == it.index(),
            forall|k: int|
                0 <= k < it.index() ==> #[trigger] keys@[k]@ == record_key(whole[k]),
            kept@ == first_by_key(whole.take(it.index() as int)),
            removed == it.index() - kept@.len(),
            kept@.len() <= it.index(),
    {
        let ghost k = it.index();
        let ghost prefix = whole.take(k as int);
        proof {
            assert(whole.take(k + 1).drop_last() =~= prefix);
            assert(whole.take(k + 1).last() == rec);
        }
        let key = canonicalize(rec.scheme_name.as_str());
        let mut seen = false;
        let mut j: usize = 0;
        while j < keys.len()
            invariant
                keys@.len() == k,
                k < n,
                whole.len() == n,
                prefix == whole.take(k as int),
                forall|m: int| 0 <= m < k ==> #[trigger] keys@[m]@ == record_key(whole[m]),
                key@ == record_key(rec),
                j <= keys.len(),
                seen == exists|m: int| 0 <= m < j && #[trigger] record_key(prefix[m]) == key@,
            decreases keys.len() - j,
        {
            assert(prefix[j as int] == whole[j as int]);
            if keys[j] == key {
                seen = true;
            }
            j += 1;
        }
        assert(seen == key_seen(prefix, key@));
        keys.push(key);
        if seen {
            removed += 1;
        } else {
            kept.push(rec);
        }
    }
    proof {
        assert(whole.take(n as int) =~= whole);
        lemma_first_by_key_distinct(whole);
    }
    (kept, removed)
}

/// Deduplicates the pooled records under a policy; the count is of the
/// records removed.
pub fn deduplicate(all: Vec<FundRecord>, policy: DedupPolicy) -> (r: (Vec<FundRecord>, usize))
    ensures
        r.0@ == deduplicated(policy, all@),
        r.1 == all@.len() - r.0@.len(),
        policy == DedupPolicy::FirstCanonical ==> forall|a: int, b: int|
            0 <= a < b < r.0@.len() ==> (#[trigger] r.0@[a]).scheme_name@ != (#[trigger] r.0@[
                b]).scheme_name@,
{
    match policy {
        DedupPolicy::ExactName => remove_exact_duplicates(all),
        DedupPolicy::FirstCanonical => remove_all_duplicates(all),
    }
}

proof fn lemma_views_split(a: Seq<FundRecord>, b: Seq<FundRecord>)
    requires
        views_of(a) == views_of(b),
    ensures
        a.len() == b.len(),
        forall|i: int| 0 <= i < a.len() ==> record_view(#[trigger] a[i]) == record_view(b[i]),
        a.len() > 0 ==> views_of(a.drop_last()) == views_of(b.drop_last()),
{
    assert(views_of(a).len() == a.len());
    assert forall|i: int| 0 <= i < a.len() implies record_view(#[trigger] a[i]) == record_view(
        b[i],
    ) by {
        assert(views_of(a)[i] == record_view(a[i]));
        assert(views_of(b)[i] == record_view(b[i]));
    }
    if a.len() > 0 {
        assert(views_of(a.drop_last()) =~= views_of(b.drop_last()));
    }
}

proof fn lemma_name_count_views(a1: Seq<FundRecord>, a2: Seq<FundRecord>, n: Seq<char>)
    requires
        views_of(a1) == views_of(a2),
    ensures
        name_count(a1, n) == name_count(a2, n),
    decreases a1.len(),
{
    lemma_views_split(a1, a2);
    if a1.len() > 0 {
        lemma_name_count_views(a1.drop_last(), a2.drop_last(), n);
        assert(record_view(a1[a1.len() - 1]) == record_view(a2[a2.len() - 1]));
    }
}

proof fn lemma_unique_named_views(
    r1: Seq<FundRecord>,
    r2: Seq<FundRecord>,
    a1: Seq<FundRecord>,
    a2: Seq<FundRecord>,
)
    requires
        views_of(r1) == views_of(r2),
        views_of(a1) == views_of(a2),
    ensures
        views_of(unique_named(r1, a1)) == views_of(unique_named(r2, a2)),
    decreases r1.len(),
{
    lemma_views_split(r1, r2);
    if r1.len() > 0 {
        lemma_unique_named_views(r1.drop_last(), r2.drop_last(), a1, a2);
        let x = r1.last();
        let y = r2.last();
        assert(record_view(r1[r1.len() - 1]) == record_view(r2[r2.len() - 1]));
        lemma_name_count_views(a1, a2, x.scheme_name@);
        let p1 = unique_named(r1.drop_last(), a1);
        let p2 = unique_named(r2.drop_last(), a2);
        assert(views_of(p1.push(x)) =~= views_of(p1).push(record_view(x)));
        assert(views_of(p2.push(y)) =~= views_of(p2).push(record_view(y)));
    }
}

proof fn lemma_key_seen_views(p1: Seq<FundRecord>, p2: Seq<FundRecord>, k: Seq<char>)
    requires
        views_of(p1) == views_of(p2),
    ensures
        key_seen(p1, k) == key_seen(p2, k),
{
    lemma_views_split(p1, p2);
    if key_seen(p1, k) {
        let j = choose|j: int| 0 <= j < p1.len() && #[trigger] record_key(p1[j]) == k;
        assert(record_view(p1[j]) == record_view(p2[j]));
        assert(record_key(p2[j]) == k);
    }
    if key_seen(p2, k) {
        let j = choose|j: int| 0 <= j < p2.len() && #[trigger] record_key(p2[j]) == k;
        assert(record_view(p1[j]) == record_view(p2[j]));
        assert(record_key(p1[j]) == k);
    }
}

proof fn lemma_first_by_key_views(r1: Seq<FundRecord>, r2: Seq<FundRecord>)
    requires
        views_of(r1) == views_of(r2),
    ensures
        views_of(first_by_key(r1)) == views_of(first_by_key(r2)),
    decreases r1.len(),
{
    lemma_views_split(r1, r2);
    if r1.len() > 0 {
        lemma_first_by_key_views(r1.drop_last(), r2.drop_last());
        let x = r1.last();
        let y = r2.last();
        assert(record_view(r1[r1.len() - 1]) == record_view(r2[r2.len() - 1]));
        lemma_key_seen_views(r1.drop_last(), r2.drop_last(), record_key(x));
        let p1 = first_by_key(r1.drop_last());
        let p2 = first_by_key(r2.drop_last());
        assert(views_of(p1.push(x)) =~= views_of(p1).push(record_view(x)));
        assert(views_of(p2.push(y)) =~= views_of(p2).push(record_view(y)));
    }
}

/// Deduplication reads only what records hold: pools with the same contents
/// keep records with the same contents.
pub proof fn lemma_dedup_views(policy: DedupPolicy, p1: Seq<FundRecord>, p2: Seq<FundRecord>)
    requires
        views_of(p1) == views_of(p2),
    ensures
        views_of(deduplicated(policy, p1)) == views_of(deduplicated(policy, p2)),
{
    match policy {
        DedupPolicy::ExactName => lemma_unique_named_views(p1, p2, p1, p2),
        DedupPolicy::FirstCanonical => lemma_first_by_key_views(p1, p2),
    }
}

} // verus!
