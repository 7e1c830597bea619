//! The record store's accessor and selection behaviour across
//! filtering and unfiltering.

use log_viewer::data::Data;
use log_viewer::filter::FilterConfig;
use log_viewer::options::DataDisplayOptions;
use log_viewer::record::LogRow;
use log_viewer::value::JsonValue;

fn create_log_row_no_extra() -> LogRow {
    let mut result = LogRow::new();
    result.or_insert("time".to_string(), JsonValue::Str("time value".to_string()));
    result.or_insert(
        "otel.name".to_string(),
        JsonValue::Str("HTTP GET /status".to_string()),
    );
    result
}

fn create_log_row_with_extra() -> LogRow {
    let mut result = create_log_row_no_extra();
    result.or_insert("http.status_code".to_string(), JsonValue::Int(200));
    result
}

#[test]
fn nth_no_reverse() {
    let row0 = create_log_row_no_extra();
    let row1 = create_log_row_with_extra();
    let data = Data::from_rows(vec![row0.clone(), row1.clone()]);
    let mut iter = data.rows_iter();
    assert_eq!(iter.nth(0), Some(&row0));
    assert_eq!(iter.nth(0), None);
    assert_eq!(iter.nth(1), Some(&row1));
    assert_eq!(iter.nth(1), None);
    assert_eq!(iter.next(), None);
}

#[test]
fn next_works() {
    let row0 = create_log_row_no_extra();
    let row1 = create_log_row_with_extra();
    let data = Data::from_rows(vec![row0.clone(), row1.clone()]);
    let mut iter = data.rows_iter();
    assert_eq!(iter.next(), Some(&row0));
    assert_eq!(iter.next(), Some(&row1));
    assert_eq!(iter.next(), None);
}

fn five_rows() -> Vec<LogRow> {
    let test_field = String::from("test field");
    (5..10)
        .map(|i| {
            let mut row = create_log_row_no_extra();
            row.or_insert(test_field.clone(), JsonValue::Int(i));
            row
        })
        .collect()
}

#[test]
fn selected_maintenance_with_filtering() {
    let mut data = Data::from_rows(five_rows());
    let display_options = DataDisplayOptions::default();
    let common_fields = display_options.common_fields();

    // Set "7" as selected
    data.selected_row = Some(2);

    // Save selected row from before
    let expected = data.selected_row_data_as_slice(common_fields).unwrap();

    data.filter = Some(FilterConfig {
        search_key: "7".to_string(),
        ..Default::default()
    });
    data.apply_filter(DataDisplayOptions::default().common_fields());

    // Test that 7 is still selected
    let actual = data.selected_row_data_as_slice(common_fields).unwrap();

    assert_eq!(actual, expected);

    // Then reverse
    data.unfilter();

    // Test that 7 is still selected
    let actual = data.selected_row_data_as_slice(common_fields).unwrap();

    assert_eq!(actual, expected);
}

#[test]
fn selected_unselected_when_not_present() {
    let mut data = Data::from_rows(five_rows());
    let display_options = DataDisplayOptions::default();
    let common_fields = display_options.common_fields();

    // Set "7" as selected
    data.selected_row = Some(2);

    // Filter for 6, so 7 is not included
    data.filter = Some(FilterConfig {
        search_key: "6".to_string(),
        ..Default::default()
    });
    data.apply_filter(DataDisplayOptions::default().common_fields());

    let actual = data.selected_row_data_as_slice(common_fields);

    assert!(actual.is_none());
}
