use fund_index::cell::{Cell, Decimal};
use fund_index::layout::{
    classify_header, infer_layout, layout_from_header, Layout, LayoutError, Sheet, Strategy,
    DAYS_14, DAYS_21, DAYS_7, FIELD_COUNT, FUND_SIZE_APR, FUND_SIZE_MAY, LATEST_NAV, MONTH_1,
    SINCE_INCEPTION, YEARS_10, YEARS_5, YEARS_7, YEAR_1, YTD,
};
use fund_index::records::{check_row, extract_fund_data, parse_fund_row, RejectReason, RowOutcome};
use fund_index::text::chars_of;

fn text(s: &str) -> Cell {
    Cell::Text(s.to_string())
}

fn row(cells: &[&str]) -> Vec<Cell> {
    cells.iter().map(|s| if s.is_empty() { Cell::Empty } else { text(s) }).collect()
}

fn mapped_columns(l: &Layout) -> usize {
    2 + l.fields.iter().filter(|f| f.is_some()).count() + l.extra_cols.len()
}

fn fixed_sheet(short_horizons: bool) -> Sheet {
    let mut header = vec!["Scheme Name", "Launch Date", "Fund Size Apr", "Fund Size May", "NAV"];
    if short_horizons {
        header.extend(["7 Days", "14 Days", "21 Days"]);
    }
    header.extend(["1 Month", "3 Months", "6 Months", "YTD", "1 Year", "2 Years", "3 Years", "4 Years", "5 Years", "10 Years", "Since Inception"]);
    Sheet {
        name: "Large Cap".to_string(),
        rows: vec![row(&["Large Cap Funds"]), row(&[]), row(&header)],
    }
}

#[test]
fn full_layout_when_seven_days_header_present() {
    let sheet = fixed_sheet(true);
    let (h, l) = infer_layout(&sheet, Strategy::FixedPosition).unwrap();
    assert_eq!(h, 2);
    assert_eq!((l.name_col, l.date_col), (0, 1));
    assert_eq!(l.fields.len(), FIELD_COUNT);
    assert_eq!(l.fields[DAYS_7], Some(5));
    assert_eq!(l.fields[DAYS_14], Some(6));
    assert_eq!(l.fields[DAYS_21], Some(7));
    assert_eq!(l.fields[MONTH_1], Some(8));
    assert_eq!(l.fields[SINCE_INCEPTION], Some(18));
    assert_eq!(l.fields[YEARS_7], None);
    assert_eq!(mapped_columns(&l), 19);
}

#[test]
fn reduced_layout_without_seven_days_header() {
    let sheet = fixed_sheet(false);
    let (h, l) = infer_layout(&sheet, Strategy::FixedPosition).unwrap();
    assert_eq!(h, 2);
    assert_eq!(l.fields[DAYS_7], None);
    assert_eq!(l.fields[DAYS_14], None);
    assert_eq!(l.fields[DAYS_21], None);
    assert_eq!(l.fields[FUND_SIZE_APR], Some(2));
    assert_eq!(l.fields[MONTH_1], Some(5));
    assert_eq!(l.fields[YEAR_1], Some(9));
    assert_eq!(l.fields[YEARS_5], Some(13));
    assert_eq!(l.fields[YEARS_10], Some(14));
    assert_eq!(l.fields[SINCE_INCEPTION], Some(15));
    assert_eq!(mapped_columns(&l), 16);
}

#[test]
fn header_not_found_beyond_the_scan_window() {
    let mut rows: Vec<Vec<Cell>> = (0..15).map(|_| row(&["note"])).collect();
    rows.push(row(&["Scheme Name", "Launch Date"]));
    let sheet = Sheet { name: "Late".to_string(), rows };
    assert_eq!(infer_layout(&sheet, Strategy::FixedPosition).err(), Some(LayoutError::HeaderNotFound));
    assert_eq!(infer_layout(&sheet, Strategy::HeaderText).err(), Some(LayoutError::HeaderNotFound));
    let empty = Sheet { name: "Empty".to_string(), rows: vec![] };
    assert_eq!(infer_layout(&empty, Strategy::FixedPosition).err(), Some(LayoutError::HeaderNotFound));
}

#[test]
fn header_text_layout_maps_by_name() {
    let header = row(&[
        "Fund Name", "Launch Date", "Fund Size (Apr-25)", "Fund Size (May-25)", "NAV",
        "1 Month", "YTD", "1 Year", "5 Years", "7Y", "Exit Load", "Extra A", "Extra B",
    ]);
    let l = layout_from_header(&header).unwrap();
    assert_eq!((l.name_col, l.date_col), (0, 1));
    assert_eq!(l.fields[FUND_SIZE_APR], Some(2));
    assert_eq!(l.fields[FUND_SIZE_MAY], Some(3));
    assert_eq!(l.fields[LATEST_NAV], Some(4));
    assert_eq!(l.fields[MONTH_1], Some(5));
    assert_eq!(l.fields[YTD], Some(6));
    assert_eq!(l.fields[YEAR_1], Some(7));
    assert_eq!(l.fields[YEARS_5], Some(8));
    assert_eq!(l.fields[YEARS_7], Some(9));
    assert_eq!(l.extra_cols, vec![10, 11, 12]);
}

#[test]
fn latest_nav_wins_over_bare_nav() {
    let header = row(&["Scheme Name", "NAV Date", "Launch Date", "Latest NAV", "1 Year", "1 Year"]);
    let l = layout_from_header(&header).unwrap();
    assert_eq!(l.fields[LATEST_NAV], Some(3));
    assert_eq!(l.fields[YEAR_1], Some(4));
    assert_eq!(l.date_col, 2);
    assert_eq!(l.extra_cols, vec![5]);
}

#[test]
fn header_text_layout_needs_name_and_date() {
    assert_eq!(
        layout_from_header(&row(&["NAV", "Launch Date"])).err(),
        Some(LayoutError::MissingNameColumn)
    );
    assert_eq!(
        layout_from_header(&row(&["Scheme Name", "NAV"])).err(),
        Some(LayoutError::MissingDateColumn)
    );
}

#[test]
fn header_classification_table() {
    assert_eq!(classify_header(&chars_of("scheme name")), Some(18));
    assert_eq!(classify_header(&chars_of("launch date")), Some(19));
    assert_eq!(classify_header(&chars_of("7 days")), Some(DAYS_7));
    assert_eq!(classify_header(&chars_of("10 years")), Some(YEARS_10));
    assert_eq!(classify_header(&chars_of("1y")), Some(YEAR_1));
    assert_eq!(classify_header(&chars_of("since inception")), Some(SINCE_INCEPTION));
    assert_eq!(classify_header(&chars_of("fund size may25")), Some(FUND_SIZE_MAY));
    assert_eq!(classify_header(&chars_of("nav")), None);
    assert_eq!(classify_header(&chars_of("riskometer")), None);
}

#[test]
fn row_filter_rejects_noise_rows() {
    assert_eq!(check_row("Equity", "Scheme Name", "01-01-2020"), Some(RejectReason::RepeatedHeader));
    assert_eq!(check_row("Equity", "", "01-01-2020"), Some(RejectReason::EmptyName));
    assert_eq!(check_row("Equity", "Alpha Fund", ""), Some(RejectReason::MissingLaunchDate));
    assert_eq!(check_row("Equity", "Alpha Fund", "   "), Some(RejectReason::MissingLaunchDate));
    assert_eq!(check_row("Equity", "Fund Name (Direct)", "x"), Some(RejectReason::RepeatedHeader));
    assert_eq!(
        check_row("Equity", "To view exit loads click here", "x"),
        Some(RejectReason::ExitLoadNote)
    );
    assert_eq!(check_row("Equity", "Equity", "x"), Some(RejectReason::CategoryBanner));
    assert_eq!(check_row("Equity", "*Returns above 1 year", "x"), Some(RejectReason::Footnote));
    assert_eq!(check_row("Equity", "Note: past returns", "x"), Some(RejectReason::Footnote));
    assert_eq!(check_row("Equity", " -- - ", "x"), Some(RejectReason::DashesOnly));
    assert_eq!(check_row("Equity", "Alpha Fund", "01-01-2020"), None);
}

#[test]
fn rows_become_records_under_a_layout() {
    let sheet = Sheet {
        name: "Mid Cap".to_string(),
        rows: vec![
            row(&["Scheme Name", "Launch Date", "Fund Size Apr", "Fund Size May", "NAV", "1 Month"]),
            vec![text("Alpha Fund - Reg"), text("2001-01-01"), Cell::Number("150.5".to_string()), text("N/A"), Cell::Bool(true), text("2.5%")],
            row(&["Scheme Name"]),
            row(&["Beta Fund", ""]),
            vec![text("Gamma Fund"), Cell::Number("36892".to_string())],
        ],
    };
    let (h, l) = infer_layout(&sheet, Strategy::FixedPosition).unwrap();
    let outs = extract_fund_data(&sheet.name, &sheet.rows, h, &l);
    assert_eq!(outs.len(), 4);
    match &outs[0] {
        RowOutcome::Accepted(rec) => {
            assert_eq!(rec.category, "Mid Cap");
            assert_eq!(rec.scheme_name, "Alpha Fund - Reg");
            assert_eq!(rec.canonical_name, "alpha fund reg");
            assert_eq!(rec.launch_date, "2001-01-01");
            assert_eq!(rec.metrics[FUND_SIZE_APR], Some(Decimal { negative: false, mantissa: 1505, scale: 1 }));
            assert_eq!(rec.metrics[FUND_SIZE_MAY], None);
            assert_eq!(rec.metrics[LATEST_NAV], None);
            assert_eq!(rec.metrics[MONTH_1], Some(Decimal { negative: false, mantissa: 25, scale: 1 }));
            assert_eq!(rec.metrics[YEAR_1], None);
        }
        RowOutcome::Rejected(r) => panic!("rejected: {:?}", r),
    }
    assert!(matches!(outs[1], RowOutcome::Rejected(RejectReason::RepeatedHeader)));
    assert!(matches!(outs[2], RowOutcome::Rejected(RejectReason::MissingLaunchDate)));
    match parse_fund_row("Mid Cap", &sheet.rows, 4, &l) {
        RowOutcome::Accepted(rec) => assert_eq!(rec.launch_date, "36892"),
        RowOutcome::Rejected(r) => panic!("rejected: {:?}", r),
    }
}
