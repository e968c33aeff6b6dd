use fund_index::cell::Decimal;
use fund_index::index::{build_virtual_table, CombinedSchemeData, VirtualTable};

fn combined(id: i32, name: &str) -> CombinedSchemeData {
    CombinedSchemeData {
        fund_id: Some(id),
        fund_category: Some("Equity".to_string()),
        launch_date: None,
        fund_size_apr25: None,
        fund_size_may25: None,
        latest_nav: Some(Decimal { negative: false, mantissa: 1234, scale: 2 }),
        month_1: None,
        months_3: None,
        months_6: None,
        ytd: None,
        year_1: None,
        years_2: None,
        years_3: None,
        years_5: None,
        rate_id: None,
        arn: None,
        company: None,
        scheme_category: None,
        brokerage_type: None,
        start_date: None,
        end_date: None,
        base_year_1: None,
        base_year_2: None,
        base_year_3: None,
        scheme_name: name.to_string(),
        normalized_name: String::new(),
    }
}

fn ids(rs: &[CombinedSchemeData]) -> Vec<i32> {
    rs.iter().map(|r| r.fund_id.unwrap()).collect()
}

fn table() -> VirtualTable {
    build_virtual_table(vec![
        combined(1, "HDFC Equity Growth Fund"),
        combined(2, "SBI Bluechip"),
        combined(3, "HDFC Equity Savings"),
        combined(4, "hdfc equity growth fund"),
        combined(5, "HDFC Equity"),
    ])
}

#[test]
fn add_record_recomputes_the_key() {
    let mut t = VirtualTable::new();
    t.add_record(combined(1, "HDFC  Equity-Growth Fund!"));
    assert_eq!(t.data[0].normalized_name, "hdfc equitygrowth fund");
    assert_eq!(t.name_index.len(), 1);
    assert_eq!(t.name_index[0].positions, vec![0]);
}

#[test]
fn index_groups_positions_by_key() {
    let t = table();
    assert_eq!(t.data.len(), 5);
    let keys: Vec<&str> = t.name_index.iter().map(|e| e.key.as_str()).collect();
    assert_eq!(keys, vec!["hdfc equity growth fund", "sbi bluechip", "hdfc equity savings", "hdfc equity"]);
    assert_eq!(t.name_index[0].positions, vec![0, 3]);
}

#[test]
fn substring_match_when_no_exact_key() {
    let t = build_virtual_table(vec![combined(1, "HDFC Equity Growth Fund"), combined(2, "SBI Bluechip")]);
    let r = t.search("HDFC Equity", 20);
    assert_eq!(ids(&r), vec![1]);
    assert_eq!(r[0].scheme_name, "HDFC Equity Growth Fund");
}

#[test]
fn exact_match_comes_first() {
    let t = table();
    let r = t.search("hdfc equity growth fund", 20);
    assert_eq!(ids(&r), vec![1, 4]);
    let r = t.search("HDFC Equity", 20);
    assert_eq!(ids(&r), vec![5, 1, 3]);
}

#[test]
fn substring_matches_are_one_per_key() {
    let t = table();
    let r = t.search("equity", 20);
    assert_eq!(ids(&r), vec![1, 3, 5]);
}

#[test]
fn limit_caps_both_passes() {
    let t = table();
    assert_eq!(ids(&t.search("hdfc equity growth fund", 1)), vec![1]);
    assert_eq!(ids(&t.search("HDFC Equity", 2)), vec![5, 1]);
    assert!(t.search("HDFC", 0).is_empty());
    assert!(t.search("nothing like it", 20).is_empty());
}

#[test]
fn search_returns_whole_records() {
    let t = table();
    let r = t.search("SBI", 5);
    assert_eq!(r.len(), 1);
    assert_eq!(r[0].fund_category.as_deref(), Some("Equity"));
    assert_eq!(r[0].latest_nav, Some(Decimal { negative: false, mantissa: 1234, scale: 2 }));
    assert_eq!(r[0].normalized_name, "sbi bluechip");
}

#[test]
fn copy_is_field_for_field() {
    let a = combined(9, "X Fund");
    let b = a.copy();
    assert_eq!(b.fund_id, Some(9));
    assert_eq!(b.scheme_name, "X Fund");
    assert_eq!(b.fund_category, a.fund_category);
}
