use fund_index::cell::Decimal;
use fund_index::index::{build_virtual_table, CalendarDate};
use fund_index::join::{join_rates, FundRow, RateRow};

fn fund(id: i32, name: &str) -> FundRow {
    FundRow {
        fund_id: id,
        fund_category: "Equity".to_string(),
        launch_date: Some("2001-01-01".to_string()),
        fund_size_apr25: None,
        fund_size_may25: None,
        latest_nav: Some(Decimal { negative: false, mantissa: 10, scale: 0 }),
        month_1: None,
        months_3: None,
        months_6: None,
        ytd: None,
        year_1: None,
        years_2: None,
        years_3: None,
        years_5: None,
        scheme_name: name.to_string(),
    }
}

fn date(year: i32, month: u32, day: u32) -> CalendarDate {
    CalendarDate { year, month, day }
}

fn rate(id: i32, name: &str, end: Option<CalendarDate>, approved: Option<bool>) -> RateRow {
    RateRow {
        rate_id: id,
        arn: format!("ARN-{}", id),
        company: "Broker".to_string(),
        scheme_name: name.to_string(),
        scheme_category: "Equity".to_string(),
        brokerage_type: "Trail".to_string(),
        start_date: date(2024, 1, 1),
        end_date: end,
        is_approved: approved,
        base_year_1: Some(Decimal { negative: false, mantissa: 75, scale: 2 }),
        base_year_2: None,
        base_year_3: None,
    }
}

#[test]
fn joins_on_canonical_name_with_first_rate_in_force() {
    let today = date(2025, 6, 15);
    let funds = vec![fund(1, "Alpha Fund"), fund(2, "Beta Fund"), fund(3, "Gamma Fund")];
    let rates = vec![
        rate(10, "ALPHA  fund!", Some(date(2025, 6, 14)), Some(true)),
        rate(11, "alpha fund", Some(date(2025, 6, 15)), None),
        rate(12, "Alpha Fund", None, Some(true)),
        rate(20, "Beta Fund", None, Some(false)),
    ];
    let out = join_rates(&funds, &rates, today);
    assert_eq!(out.len(), 3);
    assert_eq!(out[0].fund_id, Some(1));
    assert_eq!(out[0].rate_id, Some(11));
    assert_eq!(out[0].arn.as_deref(), Some("ARN-11"));
    assert_eq!(out[0].end_date, Some(date(2025, 6, 15)));
    assert_eq!(out[0].base_year_1, Some(Decimal { negative: false, mantissa: 75, scale: 2 }));
    assert_eq!(out[0].normalized_name, "alpha fund");
    assert_eq!(out[1].rate_id, None);
    assert_eq!(out[1].company, None);
    assert_eq!(out[2].rate_id, None);
    assert_eq!(out[2].scheme_name, "Gamma Fund");
    assert_eq!(out[2].latest_nav, Some(Decimal { negative: false, mantissa: 10, scale: 0 }));
}

#[test]
fn joined_rows_feed_the_index() {
    let funds = vec![fund(1, "HDFC Equity Growth Fund"), fund(2, "SBI Bluechip")];
    let rates = vec![rate(5, "SBI Bluechip", None, None)];
    let table = build_virtual_table(join_rates(&funds, &rates, date(2025, 1, 1)));
    let r = table.search("sbi bluechip", 20);
    assert_eq!(r.len(), 1);
    assert_eq!(r[0].rate_id, Some(5));
    assert_eq!(r[0].fund_id, Some(2));
}
