//! Reconciling deduplicated records with the stored rows: each record
//! updates the row keyed by its cleaned name, or inserts one where none
//! was updated.
use vstd::prelude::*;
use crate::name::{clean_name, clean_scheme_name};
use crate::records::{FundRecord, RecordView, record_view};

verus! {

/// One write to the store: the row keyed by `key` takes the content of
/// `record`.
pub struct Upsert {
    pub key: String,
    pub record: FundRecord,
}

/// The writes for a batch of records, one per record and in order, each
/// keyed by the record's cleaned scheme name.
pub fn plan_upserts(records: Vec<FundRecord>) -> (plan: Vec<Upsert>)
    ensures
        plan@.len() == records@.len(),
        forall|i: int|
            0 <= i < plan@.len() ==> (#[trigger] plan@[i]).record == records@[i] && plan@[i].key@
                == clean_name(records@[i].scheme_name@),
        plan_view(plan@) == writes_of(records@),
{
    let ghost all = records@;
    let mut plan: Vec<Upsert> = Vec::new();
    for record in it: records.into_iter()
        invariant
            it.seq() == all,
            plan@.len() == it.index(),
            forall|i: int|
                0 <= i < plan@.len() ==> (#[trigger] plan@[i]).record == all[i] && plan@[i].key@
                    == clean_name(all[i].scheme_name@),
    {
        let key = clean_scheme_name(record.scheme_name.clone());
        plan.push(Upsert { key, record });
    }
    assert(plan_view(plan@) =~= writes_of(all));
    plan
}

// ---------------------------------------------------------------------
// The store as a map from key to row content
/// The writes for `records`: each keyed by its cleaned scheme name.
pub open spec fn writes_of(records: Seq<FundRecord>) -> Seq<(Seq<char>, RecordView)> {
    records.map_values(|r: FundRecord| (clean_name(r.scheme_name@), record_view(r)))
}

pub open spec fn plan_view(plan: Seq<Upsert>) -> Seq<(Seq<char>, RecordView)> {
    plan.map_values(|u: Upsert| (u.key@, record_view(u.record)))
}

/// The store after the writes of `plan` in order: an update where the key
/// is stored, an insert where it is not; either way the key then maps to
/// the write's content.
pub open spec fn apply_upserts(
    store: Map<Seq<char>, RecordView>,
    plan: Seq<(Seq<char>, RecordView)>,
) -> Map<Seq<char>, RecordView>
    decreases plan.len(),
{
    if plan.len() == 0 {
        store
    } else {
        apply_upserts(store, plan.drop_last()).insert(plan.last().0, plan.last().1)
    }
}

/// The content of the last write to `k` in `plan`, if any.
pub open spec fn last_write(plan: Seq<(Seq<char>, RecordView)>, k: Seq<char>) -> Option<RecordView>
    decreases plan.len(),
{
    if plan.len() == 0 {
        None
    } else if plan.last().0 == k {
        Some(plan.last().1)
    } else {
        last_write(plan.drop_last(), k)
    }
}

proof fn lemma_apply_at(store: Map<Seq<char>, RecordView>, plan: Seq<(Seq<char>, RecordView)>, k: Seq<char>)
    ensures
        apply_upserts(store, plan).dom().contains(k) == (store.dom().contains(k) || last_write(
            plan,
            k,
        ) is Some),
        apply_upserts(store, plan).dom().contains(k) ==> apply_upserts(store, plan)[k] == match last_write(plan, k) {
            Some(v) => v,
            None => store[k],
        },
    decreases plan.len(),
{
    if plan.len() > 0 {
        lemma_apply_at(store, plan.drop_last(), k);
    }
}

/// Reconciling the same batch a second time leaves the store as the first
/// pass left it: the same keys, so the same row count, and the same content.
pub proof fn lemma_reconcile_idempotent(store: Map<Seq<char>, RecordView>, records: Seq<FundRecord>)
    ensures
        apply_upserts(apply_upserts(store, writes_of(records)), writes_of(records)) == apply_upserts(
            store,
            writes_of(records),
        ),
{
    let plan = writes_of(records);
    let once = apply_upserts(store, plan);
    let twice = apply_upserts(once, plan);
    assert forall|k: Seq<char>| #[trigger] twice.dom().contains(k) == once.dom().contains(k) by {
        lemma_apply_at(once, plan, k);
        lemma_apply_at(store, plan, k);
    }
    assert forall|k: Seq<char>| twice.dom().contains(k) implies #[trigger] twice[k] == once[k] by {
        lemma_apply_at(once, plan, k);
        lemma_apply_at(store, plan, k);
    }
    assert(twice =~= once);
}

// ---------------------------------------------------------------------
// The reconciliation loop, one store reply at a time
/// The next store operation.
#[derive(Clone, Copy, Debug, PartialEq, Eq)]
pub enum Step {
    /// Update the row keyed by the write at this position.
    Update(usize),
    /// Insert a row for the write at this position.
    Insert(usize),
    Done,
}

/// Progress through a plan of `total` writes: `next` is the write in hand,
/// `inserting` whether its update touched no row, `processed` how many
/// writes updated or inserted a row.
pub struct Reconciler {
    pub total: usize,
    pub next: usize,
    pub inserting: bool,
    pub processed: usize,
}

impl Reconciler {
    pub open spec fn well_formed(&self) -> bool {
        &&& self.next <= self.total
        &&& self.processed <= self.next
        &&& self.next == self.total ==> !self.inserting
    }

    pub open spec fn step_spec(&self) -> Step {
        if self.next >= self.total {
            Step::Done
        } else if self.inserting {
            Step::Insert(self.next)
        } else {
            Step::Update(self.next)
        }
    }

    pub fn new(total: usize) -> (r: Reconciler)
        ensures
            r.well_formed(),
            r.total == total,
            r.next == 0,
            !r.inserting,
            r.processed == 0,
    {
        Reconciler { total, next: 0, inserting: false, processed: 0 }
    }

    /// The operation to perform now.
    pub fn step(&self) -> (s: Step)
        ensures
            s == self.step_spec(),
    {
        if self.next >= self.total {
            Step::Done
        } else if self.inserting {
            Step::Insert(self.next)
        } else {
            Step::Update(self.next)
        }
    }

    /// The update of the write in hand touched `affected` rows: a touched
    /// row counts as processed and the next write comes; otherwise the
    /// write is inserted.
    pub fn on_update(&mut self, affected: u64)
        requires
            old(self).well_formed(),
            old(self).step_spec() is Update,
        ensures
            final(self).well_formed(),
            final(self).total == old(self).total,
            affected > 0 ==> final(self).next == old(self).next + 1 && !final(self).inserting
                && final(self).processed == old(self).processed + 1,
            affected == 0 ==> final(self).next == old(self).next && final(self).inserting
                && final(self).processed == old(self).processed,
    {
        if affected > 0 {
            self.next = self.next + 1;
            self.processed = self.processed + 1;
        } else {
            self.inserting = true;
        }
    }

    /// The insert of the write in hand added `inserted` rows, or failed
    /// (`None`): an added row counts as processed; a failure is skipped.
    /// Either way the next write comes.
    pub fn on_insert(&mut self, inserted: Option<u64>)
        requires
            old(self).well_formed(),
            old(self).step_spec() is Insert,
        ensures
            final(self).well_formed(),
            final(self).total == old(self).total,
            final(self).next == old(self).next + 1,
            !final(self).inserting,
            final(self).processed == old(self).processed + if inserted matches Some(n) && n > 0 {
                1int
            } else {
                0int
            },
    {
        self.next = self.next + 1;
        self.inserting = false;
        match inserted {
            Some(n) => {
                if n > 0 {
                    self.processed = self.processed + 1;
                }
            },
            None => {},
        }
    }
}

} // verus!
