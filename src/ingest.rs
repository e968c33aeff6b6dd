//! The ingestion pipeline: sheet selection, per-sheet extraction, pooling
//! and deduplication.
use vstd::prelude::*;
use crate::dedup::{DedupPolicy, deduplicate, deduplicated, lemma_dedup_views};
use crate::layout::{
    Layout, LayoutError, Sheet, Strategy, infer_layout, inferred, lemma_inferred_unique,
};
use crate::records::{
    FundRecord, RowOutcome, accepted_records, collect_accepted, extract_fund_data, is_row_outcome,
    lemma_accepted_views, lemma_outcome_unique, outcome_view, record_view, views_of,
};
use crate::reconcile::{apply_upserts, lemma_reconcile_idempotent, writes_of};
use crate::text::{chars_of, contains, contains_chars, lower_chars, lower_seq};

verus! {

/// The sheet name holds one of the skip patterns, ignoring case.
pub open spec fn skipped(name: Seq<char>, skip: Seq<Seq<char>>) -> bool {
    exists|i: int| 0 <= i < skip.len() && contains(lower_seq(name), lower_seq(#[trigger] skip[i]))
}

pub open spec fn views(v: Seq<String>) -> Seq<Seq<char>> {
    v.map_values(|s: String| s@)
}

/// Whether a sheet is front matter to be skipped: its name holds one of the
/// skip patterns, ignoring case.
pub fn should_skip_sheet(name: &str, skip: &Vec<String>) -> (r: bool)
    ensures
        r == skipped(name@, views(skip@)),
{
    let lname = lower_chars(&chars_of(name));
    let mut i: usize = 0;
    while i < skip.len()
        invariant
            i <= skip.len(),
            lname@ == lower_seq(name@),
            forall|k: int|
                0 <= k < i ==> !contains(lower_seq(name@), lower_seq(#[trigger] views(skip@)[k])),
        decreases skip.len() - i,
    {
        let pat = lower_chars(&chars_of(skip[i].as_str()));
        if contains_chars(&lname, &pat) {
            assert(views(skip@)[i as int] == skip@[i as int]@);
            return true;
        }
        i += 1;
    }
    false
}

/// The sheets skipped unless configured otherwise.
pub fn default_skip_list() -> (r: Vec<String>)
    ensures
        views(r@) == seq!["Main Page"@, "Summary"@, "Glossary"@, "Load"@, "Disclaimer"@],
{
    let mut r: Vec<String> = Vec::new();
    r.push(String::from_str("Main Page"));
    r.push(String::from_str("Summary"));
    r.push(String::from_str("Glossary"));
    r.push(String::from_str("Load"));
    r.push(String::from_str("Disclaimer"));
    assert(views(r@) =~= seq!["Main Page"@, "Summary"@, "Glossary"@, "Load"@, "Disclaimer"@]);
    r
}

/// What became of one sheet.
pub enum SheetOutcome {
    Skipped,
    NoLayout(LayoutError),
    Extracted { header_row: usize, layout: Layout, accepted: usize, rejected: usize },
}

/// The diagnostics of one sheet.
pub struct SheetReport {
    pub name: String,
    pub outcome: SheetOutcome,
}

/// `report` and the row outcomes `outs` are what ingestion makes of `sheet`.
pub open spec fn sheet_processed(
    sheet: Sheet,
    skip: Seq<Seq<char>>,
    strategy: Strategy,
    report: SheetReport,
    outs: Seq<RowOutcome>,
) -> bool {
    &&& report.name@ == sheet.name@
    &&& if skipped(sheet.name@, skip) {
        report.outcome is Skipped && outs.len() == 0
    } else {
        match report.outcome {
            SheetOutcome::Skipped => false,
            SheetOutcome::NoLayout(e) => inferred(strategy, sheet.rows@, Err(e)) && outs.len() == 0,
            SheetOutcome::Extracted { header_row, layout, accepted, rejected } => {
                &&& inferred(strategy, sheet.rows@, Ok((header_row, layout)))
                &&& outs.len() == sheet.rows@.len() - header_row - 1
                &&& forall|i: int|
                    0 <= i < outs.len() ==> is_row_outcome(
                        #[trigger] outs[i],
                        sheet.name@,
                        sheet.rows@,
                        header_row + 1 + i,
                        layout,
                    )
                &&& accepted == accepted_records(outs).len()
                &&& rejected == outs.len() - accepted
            },
        }
    }
}

/// The records of all sheets, sheet after sheet.
pub open spec fn pooled(outs: Seq<Seq<RowOutcome>>) -> Seq<FundRecord>
    decreases outs.len(),
{
    if outs.len() == 0 {
        Seq::empty()
    } else {
        pooled(outs.drop_last()) + accepted_records(outs.last())
    }
}

/// The result of ingesting a workbook: the surviving records, the count of
/// records removed as duplicates, and a report per sheet.
pub struct Ingest {
    pub records: Vec<FundRecord>,
    pub duplicates: usize,
    pub sheets: Vec<SheetReport>,
}

/// `r` is what ingesting `sheets` makes: one report per sheet, and the
/// pooled records of all sheets, deduplicated under `policy`.
pub open spec fn ingested(
    sheets: Seq<Sheet>,
    skip: Seq<Seq<char>>,
    strategy: Strategy,
    policy: DedupPolicy,
    r: Ingest,
) -> bool {
    &&& r.sheets@.len() == sheets.len()
    &&& exists|outs: Seq<Seq<RowOutcome>>|
        {
            &&& outs.len() == sheets.len()
            &&& forall|i: int|
                0 <= i < sheets.len() ==> sheet_processed(
                    #[trigger] sheets[i],
                    skip,
                    strategy,
                    r.sheets@[i],
                    outs[i],
                )
            &&& r.records@ == deduplicated(policy, pooled(outs))
            &&& r.duplicates == pooled(outs).len() - r.records@.len()
        }
}

/// Reads one sheet: skipped, without a layout, or its row outcomes.
pub fn process_sheet(sheet: &Sheet, skip: &Vec<String>, strategy: Strategy) -> (r: (
    SheetReport,
    Vec<RowOutcome>,
))
    ensures
        sheet_processed(*sheet, views(skip@), strategy, r.0, r.1@),
{
    let name = sheet.name.clone();
    if should_skip_sheet(sheet.name.as_str(), skip) {
        return (SheetReport { name, outcome: SheetOutcome::Skipped }, Vec::new());
    }
    match infer_layout(sheet, strategy) {
        Err(e) => (SheetReport { name, outcome: SheetOutcome::NoLayout(e) }, Vec::new()),
        Ok((h, layout)) => {
            let outs = extract_fund_data(sheet.name.as_str(), &sheet.rows, h, &layout);
            let accepted = count_accepted(&outs);
            let rejected = outs.len() - accepted;
            (
                SheetReport {
                    name,
                    outcome: SheetOutcome::Extracted { header_row: h, layout, accepted, rejected },
                },
                outs,
            )
        },
    }
}

fn count_accepted(outs: &Vec<RowOutcome>) -> (n: usize)
    ensures
        n == accepted_records(outs@).len(),
        n <= outs@.len(),
{
    let mut n: usize = 0;
    let mut i: usize = 0;
    while i < outs.len()
        invariant
            i <= outs.len(),
            n == accepted_records(outs@.take(i as int)).len(),
            n <= i,
        decreases outs.len() - i,
    {
        assert(outs@.take(i + 1).drop_last() =~= outs@.take(i as int));
        match &outs[i] {
            RowOutcome::Accepted(_) => {
                n += 1;
            },
            RowOutcome::Rejected(_) => {},
        }
        i += 1;
    }
    assert(outs@.take(outs.len() as int) =~= outs@);
    n
}

/// Ingests the sheets of a workbook: skips front matter, extracts the rows
/// of every other sheet under its inferred layout, pools the records in
/// sheet order and deduplicates them under `policy`.
pub fn ingest_sheets(
    sheets: &Vec<Sheet>,
    skip: &Vec<String>,
    strategy: Strategy,
    policy: DedupPolicy,
) -> (r: Ingest)
    ensures
        ingested(sheets@, views(skip@), strategy, policy, r),
{
    let mut pool: Vec<FundRecord> = Vec::new();
    let mut reports: Vec<SheetReport> = Vec::new();
    let ghost mut outs: Seq<Seq<RowOutcome>> = Seq::empty();
    let mut i: usize = 0;
    while i < sheets.len()
        invariant
            i <= sheets.len(),
            outs.len() == i,
            reports@.len() == i,
            forall|k: int|
                0 <= k < i ==> sheet_processed(
                    #[trigger] sheets@[k],
                    views(skip@),
                    strategy,
                    reports@[k],
                    outs[k],
                ),
            pool@ == pooled(outs),
        decreases sheets.len() - i,
    {
        let (report, sheet_outs) = process_sheet(&sheets[i], skip, strategy);
        let ghost these = sheet_outs@;
        collect_accepted(sheet_outs, &mut pool);
        reports.push(report);
        proof {
            let prev = outs;
            outs = outs.push(these);
            assert(outs.drop_last() =~= prev);
        }
        i += 1;
    }
    let (records, duplicates) = deduplicate(pool, policy);
    Ingest { records, duplicates, sheets: reports }
}

/// The outcomes of a sheet are fixed by the sheet: two readings agree row
/// for row on what each row holds.
proof fn lemma_sheet_unique(
    sheet: Sheet,
    skip: Seq<Seq<char>>,
    strategy: Strategy,
    rep1: SheetReport,
    outs1: Seq<RowOutcome>,
    rep2: SheetReport,
    outs2: Seq<RowOutcome>,
)
    requires
        sheet_processed(sheet, skip, strategy, rep1, outs1),
        sheet_processed(sheet, skip, strategy, rep2, outs2),
    ensures
        outs1.len() == outs2.len(),
        forall|i: int|
            0 <= i < outs1.len() ==> outcome_view(#[trigger] outs1[i]) == outcome_view(outs2[i]),
{
    if !skipped(sheet.name@, skip) {
        match (rep1.outcome, rep2.outcome) {
            (
                SheetOutcome::Extracted { header_row: h1, layout: l1, .. },
                SheetOutcome::Extracted { header_row: h2, layout: l2, .. },
            ) => {
                lemma_inferred_unique(strategy, sheet.rows@, Ok((h1, l1)), Ok((h2, l2)));
                assert forall|i: int| 0 <= i < outs1.len() implies outcome_view(
                    #[trigger] outs1[i],
                ) == outcome_view(outs2[i]) by {
                    lemma_outcome_unique(
                        outs1[i],
                        outs2[i],
                        sheet.name@,
                        sheet.rows@,
                        h1 + 1 + i,
                        l1,
                        l2,
                    );
                }
            },
            (SheetOutcome::Extracted { header_row: h, layout: l, .. }, SheetOutcome::NoLayout(e)) => {
                lemma_inferred_unique(strategy, sheet.rows@, Ok((h, l)), Err(e));
            },
            (SheetOutcome::NoLayout(e), SheetOutcome::Extracted { header_row: h, layout: l, .. }) => {
                lemma_inferred_unique(strategy, sheet.rows@, Err(e), Ok((h, l)));
            },
            _ => {},
        }
    }
}

proof fn lemma_pooled_views(o1: Seq<Seq<RowOutcome>>, o2: Seq<Seq<RowOutcome>>)
    requires
        o1.len() == o2.len(),
        forall|i: int|
            0 <= i < o1.len() ==> (#[trigger] o1[i]).len() == o2[i].len() && forall|j: int|
                0 <= j < o1[i].len() ==> outcome_view(#[trigger] o1[i][j]) == outcome_view(o2[i][j]),
    ensures
        views_of(pooled(o1)) == views_of(pooled(o2)),
    decreases o1.len(),
{
    if o1.len() > 0 {
        let p1 = o1.drop_last();
        let p2 = o2.drop_last();
        assert forall|i: int| 0 <= i < p1.len() implies (#[trigger] p1[i]).len() == p2[i].len()
            && forall|j: int|
            0 <= j < p1[i].len() ==> outcome_view(#[trigger] p1[i][j]) == outcome_view(p2[i][j]) by {
            assert(p1[i] == o1[i]);
            assert(p2[i] == o2[i]);
        }
        lemma_pooled_views(p1, p2);
        let last1 = o1[o1.len() - 1];
        let last2 = o2[o2.len() - 1];
        assert forall|j: int| 0 <= j < last1.len() implies outcome_view(#[trigger] last1[j])
            == outcome_view(last2[j]) by {}
        lemma_accepted_views(last1, last2);
        let a = pooled(p1);
        let b = pooled(p2);
        assert(views_of(a + accepted_records(last1)) =~= views_of(a) + views_of(
            accepted_records(last1),
        ));
        assert(views_of(b + accepted_records(last2)) =~= views_of(b) + views_of(
            accepted_records(last2),
        ));
    }
}

/// Ingesting the same workbook twice gives records with the same contents,
/// so reconciling the second result after the first leaves the store as the
/// first left it: the same rows, with the same contents.
pub proof fn lemma_reingest_idempotent(
    sheets: Seq<Sheet>,
    skip: Seq<Seq<char>>,
    strategy: Strategy,
    policy: DedupPolicy,
    first: Ingest,
    second: Ingest,
    store: Map<Seq<char>, crate::records::RecordView>,
)
    requires
        ingested(sheets, skip, strategy, policy, first),
        ingested(sheets, skip, strategy, policy, second),
    ensures
        writes_of(second.records@) == writes_of(first.records@),
        apply_upserts(apply_upserts(store, writes_of(first.records@)), writes_of(second.records@))
            == apply_upserts(store, writes_of(first.records@)),
{
    let o1 = choose|outs: Seq<Seq<RowOutcome>>|
        {
            &&& outs.len() == sheets.len()
            &&& forall|i: int|
                0 <= i < sheets.len() ==> sheet_processed(
                    #[trigger] sheets[i],
                    skip,
                    strategy,
                    first.sheets@[i],
                    outs[i],
                )
            &&& first.records@ == deduplicated(policy, pooled(outs))
            &&& first.duplicates == pooled(outs).len() - first.records@.len()
        };
    let o2 = choose|outs: Seq<Seq<RowOutcome>>|
        {
            &&& outs.len() == sheets.len()
            &&& forall|i: int|
                0 <= i < sheets.len() ==> sheet_processed(
                    #[trigger] sheets[i],
                    skip,
                    strategy,
                    second.sheets@[i],
                    outs[i],
                )
            &&& second.records@ == deduplicated(policy, pooled(outs))
            &&& second.duplicates == pooled(outs).len() - second.records@.len()
        };
    assert forall|i: int| 0 <= i < o1.len() implies (#[trigger] o1[i]).len() == o2[i].len()
        && forall|j: int|
        0 <= j < o1[i].len() ==> outcome_view(#[trigger] o1[i][j]) == outcome_view(o2[i][j]) by {
        lemma_sheet_unique(sheets[i], skip, strategy, first.sheets@[i], o1[i], second.sheets@[i], o2[i]);
    }
    lemma_pooled_views(o1, o2);
    lemma_dedup_views(policy, pooled(o1), pooled(o2));
    let r1 = first.records@;
    let r2 = second.records@;
    assert(views_of(r1).len() == r1.len());
    assert forall|i: int| 0 <= i < r1.len() implies #[trigger] writes_of(r2)[i] == writes_of(r1)[i] by {
        assert(views_of(r1)[i] == record_view(r1[i]));
        assert(views_of(r2)[i] == record_view(r2[i]));
    }
    assert(writes_of(r2) =~= writes_of(r1));
    lemma_reconcile_idempotent(store, r1);
}

} // verus!
