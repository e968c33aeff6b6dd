use fund_index::cell::Cell;
use fund_index::dedup::{deduplicate, remove_all_duplicates, remove_exact_duplicates, DedupPolicy};
use fund_index::ingest::{default_skip_list, ingest_sheets, should_skip_sheet, SheetOutcome};
use fund_index::layout::{LayoutError, Sheet, Strategy};
use fund_index::records::FundRecord;
use fund_index::text::canonicalize;

fn record(category: &str, name: &str) -> FundRecord {
    FundRecord {
        category: category.to_string(),
        scheme_name: name.to_string(),
        canonical_name: canonicalize(name),
        launch_date: "2010-01-01".to_string(),
        metrics: vec![],
        extra: vec![],
    }
}

fn names(recs: &[FundRecord]) -> Vec<&str> {
    recs.iter().map(|r| r.scheme_name.as_str()).collect()
}

#[test]
fn exact_name_policy_drops_every_repeated_name() {
    let pool = vec![record("A", "Alpha Fund"), record("B", "Alpha Fund"), record("C", "Beta Fund")];
    let (kept, removed) = remove_exact_duplicates(pool);
    assert_eq!(names(&kept), vec!["Beta Fund"]);
    assert_eq!(kept.iter().filter(|r| r.scheme_name == "Alpha Fund").count(), 0);
    assert_eq!(kept.iter().filter(|r| r.scheme_name == "Beta Fund").count(), 1);
    assert_eq!(removed, 2);
}

#[test]
fn exact_name_policy_compares_raw_names() {
    let pool = vec![record("A", "Alpha Fund"), record("B", "alpha fund"), record("C", "Alpha Fund")];
    let (kept, removed) = deduplicate(pool, DedupPolicy::ExactName);
    assert_eq!(names(&kept), vec!["alpha fund"]);
    assert_eq!(removed, 2);
}

#[test]
fn first_canonical_policy_keeps_first_of_each_key() {
    let pool = vec![
        record("A", "Alpha Fund"),
        record("B", "alpha  fund!"),
        record("C", "Beta Fund"),
        record("D", "ALPHA FUND"),
    ];
    let (kept, removed) = remove_all_duplicates(pool);
    assert_eq!(names(&kept), vec!["Alpha Fund", "Beta Fund"]);
    assert_eq!(kept[0].category, "A");
    assert_eq!(removed, 2);
}

#[test]
fn deduplicating_nothing() {
    let (kept, removed) = deduplicate(vec![], DedupPolicy::FirstCanonical);
    assert!(kept.is_empty());
    assert_eq!(removed, 0);
}

#[test]
fn sheet_skip_list_matches_substrings_ignoring_case() {
    let skip = default_skip_list();
    assert_eq!(skip, vec!["Main Page", "Summary", "Glossary", "Load", "Disclaimer"]);
    assert!(should_skip_sheet("Main Page", &skip));
    assert!(should_skip_sheet("GLOSSARY of terms", &skip));
    assert!(should_skip_sheet("Exit load", &skip));
    assert!(!should_skip_sheet("Large Cap", &skip));
    assert!(!should_skip_sheet("Anything", &vec![]));
}

fn text_row(cells: &[&str]) -> Vec<Cell> {
    cells.iter().map(|s| Cell::Text(s.to_string())).collect()
}

fn workbook() -> Vec<Sheet> {
    vec![
        Sheet { name: "Main Page".to_string(), rows: vec![text_row(&["Scheme Name", "Launch Date"])] },
        Sheet {
            name: "Large Cap".to_string(),
            rows: vec![
                text_row(&["Scheme Name", "Launch Date", "Fund Size Apr"]),
                text_row(&["Alpha Fund", "2001-01-01", "10"]),
                text_row(&["Beta Fund", "2002-02-02", "20"]),
                text_row(&["Large Cap", "", ""]),
            ],
        },
        Sheet { name: "Notes".to_string(), rows: vec![text_row(&["nothing here"])] },
        Sheet {
            name: "Mid Cap".to_string(),
            rows: vec![
                text_row(&["Scheme Name", "Launch Date", "Fund Size Apr"]),
                text_row(&["alpha fund", "2001-01-01", "11"]),
                text_row(&["Gamma Fund", "2003-03-03", "30"]),
            ],
        },
    ]
}

#[test]
fn ingest_pools_sheets_and_deduplicates() {
    let sheets = workbook();
    let skip = default_skip_list();
    let result = ingest_sheets(&sheets, &skip, Strategy::FixedPosition, DedupPolicy::FirstCanonical);
    assert_eq!(names(&result.records), vec!["Alpha Fund", "Beta Fund", "Gamma Fund"]);
    assert_eq!(result.duplicates, 1);
    assert_eq!(result.sheets.len(), 4);
    assert!(matches!(result.sheets[0].outcome, SheetOutcome::Skipped));
    match &result.sheets[1].outcome {
        SheetOutcome::Extracted { header_row, accepted, rejected, .. } => {
            assert_eq!((*header_row, *accepted, *rejected), (0, 2, 1));
        }
        _ => panic!("sheet not extracted"),
    }
    assert!(matches!(result.sheets[2].outcome, SheetOutcome::NoLayout(LayoutError::HeaderNotFound)));
    assert_eq!(result.sheets[3].name, "Mid Cap");

    let exact = ingest_sheets(&sheets, &skip, Strategy::HeaderText, DedupPolicy::ExactName);
    assert_eq!(names(&exact.records), vec!["Alpha Fund", "Beta Fund", "alpha fund", "Gamma Fund"]);
    assert_eq!(exact.duplicates, 0);
}

#[test]
fn ingesting_twice_gives_the_same_records() {
    let sheets = workbook();
    let skip = default_skip_list();
    let a = ingest_sheets(&sheets, &skip, Strategy::FixedPosition, DedupPolicy::FirstCanonical);
    let b = ingest_sheets(&sheets, &skip, Strategy::FixedPosition, DedupPolicy::FirstCanonical);
    assert_eq!(names(&a.records), names(&b.records));
    assert_eq!(a.duplicates, b.duplicates);
}

#[test]
fn first_canonical_policy_keys_on_the_scheme_name() {
    let mut a = record("A", "A");
    a.canonical_name = "x".to_string();
    let mut b = record("B", "A");
    b.canonical_name = "y".to_string();
    let (kept, removed) = deduplicate(vec![a, b], DedupPolicy::FirstCanonical);
    assert_eq!(names(&kept), vec!["A"]);
    assert_eq!(kept[0].category, "A");
    assert_eq!(removed, 1);
}
