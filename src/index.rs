//! The in-memory search index over stored funds joined with their rates.
use vstd::prelude::*;
use crate::cell::Decimal;
use crate::text::{canonical, canonicalize, chars_of, contains, contains_chars, occurs_at};

verus! {

/// A calendar date.
#[derive(Clone, Copy, Debug, PartialEq, Eq)]
pub struct CalendarDate {
    pub year: i32,
    pub month: u32,
    pub day: u32,
}

/// One stored fund row joined with its matching rate row, if any.
pub struct CombinedSchemeData {
    pub fund_id: Option<i32>,
    pub fund_category: Option<String>,
    pub launch_date: Option<String>,
    pub fund_size_apr25: Option<Decimal>,
    pub fund_size_may25: Option<Decimal>,
    pub latest_nav: Option<Decimal>,
    pub month_1: Option<Decimal>,
    pub months_3: Option<Decimal>,
    pub months_6: Option<Decimal>,
    pub ytd: Option<Decimal>,
    pub year_1: Option<Decimal>,
    pub years_2: Option<Decimal>,
    pub years_3: Option<Decimal>,
    pub years_5: Option<Decimal>,
    pub rate_id: Option<i32>,
    pub arn: Option<String>,
    pub company: Option<String>,
    pub scheme_category: Option<String>,
    pub brokerage_type: Option<String>,
    pub start_date: Option<CalendarDate>,
    pub end_date: Option<CalendarDate>,
    pub base_year_1: Option<Decimal>,
    pub base_year_2: Option<Decimal>,
    pub base_year_3: Option<Decimal>,
    pub scheme_name: String,
    pub normalized_name: String,
}

fn copy_text(t: &Option<String>) -> (r: Option<String>)
    ensures
        r == *t,
{
    match t {
        Some(s) => Some(s.clone()),
        None => None,
    }
}

impl CombinedSchemeData {
    /// A field-by-field copy.
    pub fn copy(&self) -> (r: CombinedSchemeData)
        ensures
            r == *self,
    {
        CombinedSchemeData {
            fund_id: self.fund_id,
            fund_category: copy_text(&self.fund_category),
            launch_date: copy_text(&self.launch_date),
            fund_size_apr25: self.fund_size_apr25,
            fund_size_may25: self.fund_size_may25,
            latest_nav: self.latest_nav,
            month_1: self.month_1,
            months_3: self.months_3,
            months_6: self.months_6,
            ytd: self.ytd,
            year_1: self.year_1,
            years_2: self.years_2,
            years_3: self.years_3,
            years_5: self.years_5,
            rate_id: self.rate_id,
            arn: copy_text(&self.arn),
            company: copy_text(&self.company),
            scheme_category: copy_text(&self.scheme_category),
            brokerage_type: copy_text(&self.brokerage_type),
            start_date: self.start_date,
            end_date: self.end_date,
            base_year_1: self.base_year_1,
            base_year_2: self.base_year_2,
            base_year_3: self.base_year_3,
            scheme_name: self.scheme_name.clone(),
            normalized_name: self.normalized_name.clone(),
        }
    }
}

/// `stored` is `given` with its normalized name recomputed from its scheme
/// name.
pub open spec fn keyed(stored: CombinedSchemeData, given: CombinedSchemeData) -> bool {
    &&& stored.normalized_name@ == canonical(given.scheme_name@)
    &&& stored == CombinedSchemeData { normalized_name: stored.normalized_name, ..given }
}

/// The positions of the records with key `k`, ascending.
pub open spec fn positions_of(data: Seq<CombinedSchemeData>, k: Seq<char>) -> Seq<usize>
    decreases data.len(),
{
    if data.len() == 0 {
        Seq::empty()
    } else {
        let prev = positions_of(data.drop_last(), k);
        if data.last().normalized_name@ == k {
            prev.push((data.len() - 1) as usize)
        } else {
            prev
        }
    }
}

/// The distinct keys of the records, in order of first appearance.
pub open spec fn keys_in_order(data: Seq<CombinedSchemeData>) -> Seq<Seq<char>>
    decreases data.len(),
{
    if data.len() == 0 {
        Seq::empty()
    } else {
        let prev = keys_in_order(data.drop_last());
        if prev.contains(data.last().normalized_name@) {
            prev
        } else {
            prev.push(data.last().normalized_name@)
        }
    }
}

/// The positions of the records sharing one key.
pub struct NameEntry {
    pub key: String,
    pub positions: Vec<usize>,
}

/// The combined records, and an index from each key to the positions of
/// its records; the keys stand in order of first appearance.
pub struct VirtualTable {
    pub data: Vec<CombinedSchemeData>,
    pub name_index: Vec<NameEntry>,
}

/// Positions of the exact-match pass: those of the query key, at most
/// `limit`.
pub open spec fn exact_positions(data: Seq<CombinedSchemeData>, q: Seq<char>, limit: nat) -> Seq<
    usize,
> {
    let p = positions_of(data, q);
    if p.len() <= limit {
        p
    } else {
        p.take(limit as int)
    }
}

/// Positions of the substring pass over `keys`: for each key other than the
/// query that holds it, the first record of that key (later records of the
/// key share the canonical name already added).
pub open spec fn partial_positions(
    data: Seq<CombinedSchemeData>,
    keys: Seq<Seq<char>>,
    q: Seq<char>,
) -> Seq<usize>
    decreases keys.len(),
{
    if keys.len() == 0 {
        Seq::empty()
    } else {
        let prev = partial_positions(data, keys.drop_last(), q);
        let k = keys.last();
        if k != q && contains(k, q) {
            prev.push(positions_of(data, k)[0])
        } else {
            prev
        }
    }
}

/// The positions that a search for key `q` returns: exact matches first,
/// then substring matches in key order, at most `limit` in all.
pub open spec fn search_positions(data: Seq<CombinedSchemeData>, q: Seq<char>, limit: nat) -> Seq<
    usize,
> {
    let e = exact_positions(data, q, limit);
    let p = partial_positions(data, keys_in_order(data), q);
    let room = limit - e.len();
    if p.len() <= room {
        e + p
    } else {
        e + p.take(room)
    }
}

proof fn lemma_keys_contain(data: Seq<CombinedSchemeData>, k: Seq<char>)
    requires
        data.len() <= usize::MAX,
    ensures
        keys_in_order(data).contains(k) <==> positions_of(data, k).len() > 0,
        positions_of(data, k).len() <= data.len(),
        forall|m: int|
            0 <= m < positions_of(data, k).len() ==> #[trigger] positions_of(data, k)[m]
                < data.len() && data[positions_of(data, k)[m] as int].normalized_name@ == k,
    decreases data.len(),
{
    if data.len() > 0 {
        let p = data.drop_last();
        lemma_keys_contain(p, k);
        let pk = positions_of(p, k);
        let pd = positions_of(data, k);
        assert forall|m: int| 0 <= m < pd.len() implies #[trigger] pd[m] < data.len()
            && data[pd[m] as int].normalized_name@ == k by {
            if m < pk.len() {
                assert(pd[m] == pk[m]);
                assert(pk[m] < p.len());
                assert(data[pk[m] as int] == p[pk[m] as int]);
            }
        }
        if data.last().normalized_name@ == k {
            assert(keys_in_order(data).contains(k)) by {
                let prev = keys_in_order(p);
                if !prev.contains(k) {
                    assert(prev.push(k)[prev.len() as int] == k);
                }
            }
        } else {
            let prev = keys_in_order(p);
            if !prev.contains(data.last().normalized_name@) {
                let nk = prev.push(data.last().normalized_name@);
                if nk.contains(k) {
                    let j = choose|j: int| 0 <= j < nk.len() && nk[j] == k;
                    assert(j < prev.len());
                    assert(prev.contains(k));
                }
                if prev.contains(k) {
                    let j = choose|j: int| 0 <= j < prev.len() && prev[j] == k;
                    assert(nk[j] == k);
                }
            }
        }
    }
}

proof fn lemma_keys_distinct(data: Seq<CombinedSchemeData>)
    ensures
        forall|a: int, b: int|
            0 <= a < b < keys_in_order(data).len() ==> #[trigger] keys_in_order(data)[a]
                != #[trigger] keys_in_order(data)[b],
    decreases data.len(),
{
    if data.len() > 0 {
        let p = data.drop_last();
        lemma_keys_distinct(p);
        let prev = keys_in_order(p);
        let c = data.last().normalized_name@;
        if !prev.contains(c) {
            let nk = prev.push(c);
            assert forall|a: int, b: int| 0 <= a < b < nk.len() implies #[trigger] nk[a]
                != #[trigger] nk[b] by {
                assert(nk[a] == prev[a]);
                if b == prev.len() {
                    if prev[a] == c {
                        assert(prev.contains(c));
                    }
                } else {
                    assert(nk[b] == prev[b]);
                }
            }
        }
    }
}

impl VirtualTable {
    /// Every record's normalized name is the key of its scheme name, and the
    /// index holds exactly the keys in order of first appearance, each with
    /// the positions of its records.
    pub open spec fn well_formed(&self) -> bool {
        &&& forall|i: int|
            0 <= i < self.data@.len() ==> (#[trigger] self.data@[i]).normalized_name@ == canonical(
                self.data@[i].scheme_name@,
            )
        &&& self.name_index@.len() == keys_in_order(self.data@).len()
        &&& forall|j: int|
            0 <= j < self.name_index@.len() ==> (#[trigger] self.name_index@[j]).key@
                == keys_in_order(self.data@)[j] && self.name_index@[j].positions@ == positions_of(
                self.data@,
                keys_in_order(self.data@)[j],
            )
    }

    /// An empty table.
    pub fn new() -> (t: VirtualTable)
        ensures
            t.well_formed(),
            t.data@.len() == 0,
    {
        VirtualTable { data: Vec::new(), name_index: Vec::new() }
    }

    /// Appends a record, its normalized name recomputed from its scheme
    /// name, and indexes it under that key.
    pub fn add_record(&mut self, record: CombinedSchemeData)
        requires
            old(self).well_formed(),
            old(self).data@.len() < usize::MAX,
        ensures
            final(self).well_formed(),
            final(self).data@.len() == old(self).data@.len() + 1,
            forall|i: int|
                0 <= i < old(self).data@.len() ==> final(self).data@[i] == old(self).data@[i],
            keyed(final(self).data@.last(), record),
    {
        let ghost before = self.data@;
        let index = self.data.len();
        let normalized = canonicalize(record.scheme_name.as_str());
        let mut record = record;
        let ghost given = record;
        record.normalized_name = normalized;
        let ghost k = record.normalized_name@;
        let key = record.normalized_name.clone();
        let mut j: usize = 0;
        let mut found = false;
        while j < self.name_index.len()
            invariant_except_break
                !found,
            invariant
                j <= self.name_index@.len(),
                self.well_formed(),
                self.data@ == before,
                k == record.normalized_name@,
                forall|m: int| 0 <= m < j ==> keys_in_order(before)[m] != k,
            ensures
                j <= self.name_index@.len(),
                found ==> j < self.name_index@.len() && keys_in_order(before)[j as int] == k,
                !found ==> j == self.name_index@.len() && forall|m: int|
                    0 <= m < self.name_index@.len() ==> keys_in_order(before)[m] != k,
            decreases self.name_index.len() - j,
        {
            if self.name_index[j].key == record.normalized_name {
                found = true;
                break;
            }
            j += 1;
        }
        self.data.push(record);
        let ghost after = self.data@;
        assert(after.drop_last() =~= before);
        proof {
            lemma_keys_contain(before, k);
        }
        if found {
            assert(keys_in_order(before).contains(k));
            assert(keys_in_order(after) == keys_in_order(before));
            self.name_index[j].positions.push(index);
        } else {
            assert(!keys_in_order(before).contains(k));
            assert(keys_in_order(after) == keys_in_order(before).push(k));
            let mut positions: Vec<usize> = Vec::new();
            positions.push(index);
            self.name_index.push(NameEntry { key, positions });
        }
        proof {
            lemma_keys_distinct(before);
            lemma_keys_distinct(after);
            assert forall|jj: int| 0 <= jj < self.name_index@.len() implies (
            #[trigger] self.name_index@[jj]).key@ == keys_in_order(after)[jj]
                && self.name_index@[jj].positions@ == positions_of(after, keys_in_order(after)[jj]) by {
                if jj < keys_in_order(before).len() {
                    assert(keys_in_order(after)[jj] == keys_in_order(before)[jj]);
                }
            }
        }
    }
}

/// `p` truncated to at most `n` items.
pub open spec fn at_most(p: Seq<usize>, n: nat) -> Seq<usize> {
    if p.len() <= n {
        p
    } else {
        p.take(n as int)
    }
}

proof fn lemma_partial_prefix(data: Seq<CombinedSchemeData>, keys: Seq<Seq<char>>, j: int, q: Seq<char>)
    requires
        0 <= j <= keys.len(),
    ensures
        partial_positions(data, keys.take(j), q).len() <= partial_positions(data, keys, q).len(),
        partial_positions(data, keys, q).take(partial_positions(data, keys.take(j), q).len() as int)
            == partial_positions(data, keys.take(j), q),
    decreases keys.len(),
{
    if j == keys.len() {
        assert(keys.take(j) =~= keys);
        assert(partial_positions(data, keys, q).take(partial_positions(data, keys, q).len() as int)
            =~= partial_positions(data, keys, q));
    } else {
        let d = keys.drop_last();
        assert(d.take(j) =~= keys.take(j));
        lemma_partial_prefix(data, d, j, q);
        let pj = partial_positions(data, keys.take(j), q);
        let pd = partial_positions(data, d, q);
        let pk = partial_positions(data, keys, q);
        if keys.last() != q && contains(keys.last(), q) {
            assert(pk.take(pj.len() as int) =~= pd.take(pj.len() as int));
        }
    }
}

proof fn lemma_partial_bound(data: Seq<CombinedSchemeData>, keys: Seq<Seq<char>>, q: Seq<char>)
    requires
        data.len() <= usize::MAX,
        forall|j: int| 0 <= j < keys.len() ==> keys_in_order(data).contains(#[trigger] keys[j]),
    ensures
        forall|i: int|
            0 <= i < partial_positions(data, keys, q).len() ==> #[trigger] partial_positions(
                data,
                keys,
                q,
            )[i] < data.len() && data[partial_positions(data, keys, q)[i] as int].normalized_name@
                != q && contains(data[partial_positions(data, keys, q)[i] as int].normalized_name@, q),
    decreases keys.len(),
{
    if keys.len() > 0 {
        let d = keys.drop_last();
        assert forall|j: int| 0 <= j < d.len() implies keys_in_order(data).contains(
            #[trigger] d[j],
        ) by {
            assert(d[j] == keys[j]);
        }
        lemma_partial_bound(data, d, q);
        lemma_keys_contain(data, keys.last());
        assert(keys_in_order(data).contains(keys[keys.len() - 1]));
        let pd = partial_positions(data, d, q);
        let pk = partial_positions(data, keys, q);
        assert forall|i: int| 0 <= i < pk.len() implies #[trigger] pk[i] < data.len()
            && data[pk[i] as int].normalized_name@ != q && contains(
            data[pk[i] as int].normalized_name@,
            q,
        ) by {
            if i < pd.len() {
                assert(pk[i] == pd[i]);
            } else {
                assert(positions_of(data, keys.last())[0] < data.len());
            }
        }
    }
}

/// Every record a search returns has a key that holds the query key, and
/// the records whose key is the query key itself come before all others.
pub proof fn lemma_search_matches(data: Seq<CombinedSchemeData>, q: Seq<char>, limit: nat)
    requires
        data.len() <= usize::MAX,
    ensures
        ({
            let sp = search_positions(data, q, limit);
            let e = exact_positions(data, q, limit);
            &&& sp.len() <= limit
            &&& forall|i: int|
                0 <= i < sp.len() ==> #[trigger] sp[i] < data.len() && contains(
                    data[sp[i] as int].normalized_name@,
                    q,
                ) && (data[sp[i] as int].normalized_name@ == q <==> i < e.len())
        }),
{
    let sp = search_positions(data, q, limit);
    let e = exact_positions(data, q, limit);
    let keys = keys_in_order(data);
    let p = partial_positions(data, keys, q);
    lemma_keys_contain(data, q);
    assert forall|j: int| 0 <= j < keys.len() implies keys_in_order(data).contains(
        #[trigger] keys[j],
    ) by {}
    lemma_partial_bound(data, keys, q);
    assert(occurs_at(q, q, 0)) by {
        assert(q.subrange(0, q.len() as int) =~= q);
    }
    let room = limit - e.len();
    assert forall|i: int| 0 <= i < sp.len() implies #[trigger] sp[i] < data.len() && contains(
        data[sp[i] as int].normalized_name@,
        q,
    ) && (data[sp[i] as int].normalized_name@ == q <==> i < e.len()) by {
        if i < e.len() {
            assert(sp[i] == e[i]);
            assert(e[i] == positions_of(data, q)[i]);
        } else {
            assert(sp[i] == p[i - e.len()]);
        }
    }
}

impl VirtualTable {
    /// The positions of the records a search for `query` returns.
    fn search_positions_of(&self, query: &str, limit: usize) -> (out: Vec<usize>)
        requires
            self.well_formed(),
        ensures
            out@ == search_positions(self.data@, canonical(query@), limit as nat),
            forall|i: int| 0 <= i < out@.len() ==> #[trigger] out@[i] < self.data@.len(),
    {
        let ghost data = self.data@;
        let ghost keys = keys_in_order(data);
        let count = self.data.len();
        assert(data.len() == count);
        let q = canonicalize(query);
        let ghost qv = q@;
        let qc = chars_of(q.as_str());
        proof {
            lemma_keys_contain(data, qv);
            lemma_keys_distinct(data);
        }
        let mut out: Vec<usize> = Vec::new();
        let mut j: usize = 0;
        while j < self.name_index.len()
            invariant
                self.well_formed(),
                self.data@ == data,
                keys == keys_in_order(data),
                qv == q@,
                j <= self.name_index@.len(),
                forall|m: int| 0 <= m < j ==> keys[m] != qv,
            ensures
                j < self.name_index@.len() ==> keys[j as int] == qv,
                j == self.name_index@.len() ==> !keys.contains(qv),
            decreases self.name_index.len() - j,
        {
            if self.name_index[j].key == q {
                break;
            }
            j += 1;
        }
        if j < self.name_index.len() {
            let positions = &self.name_index[j].positions;
            let mut m: usize = 0;
            while m < positions.len() && out.len() < limit
                invariant
                    positions@ == positions_of(data, qv),
                    m <= positions@.len(),
                    m <= limit,
                    out@ == positions@.take(m as int),
                    forall|i: int| 0 <= i < positions@.len() ==> #[trigger] positions@[i] < data.len(),
                decreases positions.len() - m,
            {
                out.push(positions[m]);
                m += 1;
                assert(out@ =~= positions@.take(m as int));
            }
            assert(out@ == exact_positions(data, qv, limit as nat)) by {
                if m == positions@.len() {
                    assert(positions@.take(m as int) =~= positions@);
                }
            }
        } else {
            assert(positions_of(data, qv).len() == 0);
            assert(out@ =~= exact_positions(data, qv, limit as nat));
        }
        let ghost e = out@;
        let ghost room: nat = (limit - e.len()) as nat;
        proof {
            assert forall|jj: int| 0 <= jj < keys.len() implies keys_in_order(data).contains(
                #[trigger] keys[jj],
            ) by {}
            lemma_partial_bound(data, keys, qv);
        }
        let mut j: usize = 0;
        assert(keys.take(0) =~= Seq::<Seq<char>>::empty());
        while j < self.name_index.len() && out.len() < limit
            invariant
                self.well_formed(),
                self.data@ == data,
                keys == keys_in_order(data),
                qv == q@,
                qc@ == qv,
                data.len() <= usize::MAX,
                j <= self.name_index@.len(),
                e.len() <= limit,
                room == limit - e.len(),
                out@ == e + at_most(partial_positions(data, keys.take(j as int), qv), room),
                partial_positions(data, keys.take(j as int), qv).len() <= room,
                forall|i: int| 0 <= i < e.len() ==> #[trigger] e[i] < data.len(),
                forall|i: int|
                    0 <= i < partial_positions(data, keys, qv).len() ==> #[trigger] partial_positions(
                        data,
                        keys,
                        qv,
                    )[i] < data.len(),
            decreases self.name_index.len() - j,
        {
            let entry = &self.name_index[j];
            let kc = chars_of(entry.key.as_str());
            assert(keys.take(j + 1).drop_last() =~= keys.take(j as int));
            assert(keys.take(j + 1).last() == keys[j as int]);
            proof {
                lemma_keys_contain(data, keys[j as int]);
                lemma_partial_prefix(data, keys, j + 1, qv);
            }
            if entry.key != q && contains_chars(&kc, &qc) {
                assert(keys_in_order(data).contains(keys[j as int]));
                out.push(entry.positions[0]);
                assert(out@ =~= e + at_most(partial_positions(data, keys.take(j + 1), qv), room));
            }
            j += 1;
        }
        proof {
            let full = partial_positions(data, keys, qv);
            let pj = partial_positions(data, keys.take(j as int), qv);
            lemma_partial_prefix(data, keys, j as int, qv);
            if j == self.name_index@.len() {
                assert(keys.take(j as int) =~= keys);
            } else {
                assert(pj.len() == room);
                assert(full.take(room as int) =~= pj);
            }
            assert(out@ =~= search_positions(data, qv, limit as nat));
        }
        out
    }

    /// Searches by name: the query is canonicalized; the records of exactly
    /// that key come first, then, while fewer than `limit` are found, one
    /// record for each other key that holds the query, in index order.
    pub fn search(&self, query: &str, limit: usize) -> (r: Vec<CombinedSchemeData>)
        requires
            self.well_formed(),
        ensures
            ({
                let sp = search_positions(self.data@, canonical(query@), limit as nat);
                &&& r@.len() == sp.len()
                &&& forall|i: int| 0 <= i < sp.len() ==> #[trigger] r@[i] == self.data@[sp[i] as int]
            }),
    {
        let pos = self.search_positions_of(query, limit);
        let mut r: Vec<CombinedSchemeData> = Vec::new();
        let mut i: usize = 0;
        while i < pos.len()
            invariant
                i <= pos@.len(),
                r@.len() == i,
                forall|k: int| 0 <= k < pos@.len() ==> #[trigger] pos@[k] < self.data@.len(),
                forall|k: int| 0 <= k < i ==> #[trigger] r@[k] == self.data@[pos@[k] as int],
            decreases pos.len() - i,
        {
            r.push(self.data[pos[i]].copy());
            i += 1;
        }
        r
    }
}

/// Builds a table from combined rows, in order.
pub fn build_virtual_table(rows: Vec<CombinedSchemeData>) -> (t: VirtualTable)
    ensures
        t.well_formed(),
        t.data@.len() == rows@.len(),
        forall|i: int| 0 <= i < rows@.len() ==> keyed(#[trigger] t.data@[i], rows@[i]),
{
    let ghost all = rows@;
    let n = rows.len();
    let mut t = VirtualTable::new();
    for row in it: rows.into_iter()
        invariant
            it.seq() == all,
            all.len() == n,
            t.well_formed(),
            t.data@.len() == it.index(),
            forall|i: int| 0 <= i < it.index() ==> keyed(#[trigger] t.data@[i], all[i]),
    {
        t.add_record(row);
    }
    t
}

} // verus!
