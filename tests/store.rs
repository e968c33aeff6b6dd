use std::collections::BTreeMap;

use fund_index::reconcile::{plan_upserts, Reconciler, Step, Upsert};
use fund_index::records::FundRecord;
use fund_index::text::canonicalize;

fn record(category: &str, name: &str, date: &str) -> FundRecord {
    FundRecord {
        category: category.to_string(),
        scheme_name: name.to_string(),
        canonical_name: canonicalize(name),
        launch_date: date.to_string(),
        metrics: vec![],
        extra: vec![],
    }
}

/// A table keyed uniquely by name, holding (category, launch date).
type Table = BTreeMap<String, (String, String)>;

fn run(table: &mut Table, plan: &[Upsert], fail_inserts: bool) -> usize {
    let mut r = Reconciler::new(plan.len());
    loop {
        match r.step() {
            Step::Update(i) => {
                let u = &plan[i];
                let affected = match table.get_mut(&u.key) {
                    Some(row) => {
                        *row = (u.record.category.clone(), u.record.launch_date.clone());
                        1
                    }
                    None => 0,
                };
                r.on_update(affected);
            }
            Step::Insert(i) => {
                let u = &plan[i];
                if fail_inserts || table.contains_key(&u.key) {
                    r.on_insert(None);
                } else {
                    table.insert(u.key.clone(), (u.record.category.clone(), u.record.launch_date.clone()));
                    r.on_insert(Some(1));
                }
            }
            Step::Done => return r.processed,
        }
    }
}

fn batch() -> Vec<FundRecord> {
    vec![
        record("Large Cap", "Alpha Fund - Reg - Growth", "2001"),
        record("Mid Cap", "Beta Fund-Reg", "2002"),
        record("Small Cap", "Alpha Fund", "2003"),
    ]
}

#[test]
fn plan_keys_writes_by_cleaned_name() {
    let plan = plan_upserts(batch());
    let keys: Vec<&str> = plan.iter().map(|u| u.key.as_str()).collect();
    assert_eq!(keys, vec!["Alpha Fund", "Beta Fund", "Alpha Fund"]);
    assert_eq!(plan[1].record.scheme_name, "Beta Fund-Reg");
}

#[test]
fn reconciling_counts_updates_and_inserts_alike() {
    let mut table = Table::new();
    let processed = run(&mut table, &plan_upserts(batch()), false);
    assert_eq!(processed, 3);
    assert_eq!(table.len(), 2);
    assert_eq!(table["Alpha Fund"], ("Small Cap".to_string(), "2003".to_string()));
}

#[test]
fn reconciling_twice_leaves_the_same_rows() {
    let mut once = Table::new();
    run(&mut once, &plan_upserts(batch()), false);
    let mut twice = once.clone();
    let processed = run(&mut twice, &plan_upserts(batch()), false);
    assert_eq!(processed, 3);
    assert_eq!(twice, once);
    assert_eq!(twice.len(), 2);
}

#[test]
fn failed_inserts_are_skipped() {
    let mut table = Table::new();
    let processed = run(&mut table, &plan_upserts(batch()), true);
    assert_eq!(processed, 0);
    assert!(table.is_empty());
}

#[test]
fn reconciler_steps() {
    let mut r = Reconciler::new(2);
    assert_eq!(r.step(), Step::Update(0));
    r.on_update(0);
    assert_eq!(r.step(), Step::Insert(0));
    r.on_insert(Some(0));
    assert_eq!(r.processed, 0);
    assert_eq!(r.step(), Step::Update(1));
    r.on_update(3);
    assert_eq!(r.processed, 1);
    assert_eq!(r.step(), Step::Done);
    assert_eq!(Reconciler::new(0).step(), Step::Done);
}
