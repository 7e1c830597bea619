//! The filtered-view engine: cache invalidation, filter idempotence,
//! selection stability, navigation boundaries, ingestion enrichment
//! and the serialization round trip.

use log_viewer::data::Data;
use log_viewer::filter::{Comparator, FieldSpecifier, FilterConfig, FilterOn};
use log_viewer::options::{CommonFields, DataDisplayOptions, RowParseErrorHandling};
use log_viewer::record::LogRow;
use log_viewer::value::{FieldContent, JsonValue};

fn record_kv(pairs: &[(&str, JsonValue)]) -> LogRow {
    let mut row = LogRow::new();
    for (k, v) in pairs {
        row.or_insert(k.to_string(), v.clone());
    }
    row
}

fn contains_any(key: &str) -> FilterConfig {
    FilterConfig {
        search_key: key.to_string(),
        filter_on: FilterOn::Any,
        is_case_sensitive: false,
        comparator: Comparator::Contains,
    }
}

#[test]
fn serialize_round_trip_preserves_fields() {
    let row = record_kv(&[
        ("msg", JsonValue::Str("hello \"world\"\n".to_string())),
        ("level", JsonValue::Int(-42)),
        ("payload", JsonValue::Other("{\"x\":[1,2.5,null]}".to_string())),
        ("", JsonValue::Str("empty name".to_string())),
    ]);
    let text = row.serialize();
    let restored = LogRow::deserialize(text.as_str()).expect("canonical text restores");
    assert_eq!(restored, row);
    let empty = LogRow::new();
    let restored_empty = LogRow::deserialize(empty.serialize().as_str()).unwrap();
    assert_eq!(restored_empty, empty);
}

#[test]
fn deserialize_rejects_non_canonical_text() {
    assert_eq!(LogRow::deserialize("junk"), None);
    assert_eq!(LogRow::deserialize("1:a"), None);
    assert_eq!(LogRow::deserialize("1:as3:abc trailing"), None);
}

#[test]
fn cache_invalidation_on_changed_common_fields() {
    let mut row = record_kv(&[
        ("a", JsonValue::Int(1)),
        ("b", JsonValue::Int(2)),
    ]);
    let none_common = CommonFields::new();
    let a_common = CommonFields::from_names(vec!["a".to_string()]);
    let first = row.as_slice(&none_common);
    assert_eq!(
        first,
        vec![
            ("a".to_string(), "1".to_string()),
            ("b".to_string(), "2".to_string()),
            (" [ --- ]".to_string(), "[ --- ]".to_string()),
        ]
    );
    let second = row.as_slice(&a_common);
    assert_eq!(
        second,
        vec![
            ("b".to_string(), "2".to_string()),
            (" [ --- ]".to_string(), "[ --- ]".to_string()),
            ("a".to_string(), "1".to_string()),
        ]
    );
    assert_ne!(first, second);
    // Going back to the first set must also rebuild, never return the
    // stale pairs of the second set.
    assert_eq!(row.as_slice(&none_common), first);
}

#[test]
fn filter_idempotent_across_unfilter() {
    let rows = vec![
        record_kv(&[("k", JsonValue::Str("x".to_string()))]),
        record_kv(&[("k", JsonValue::Str("y".to_string()))]),
        record_kv(&[("k", JsonValue::Str("x".to_string()))]),
    ];
    let mut data = Data::from_rows(rows);
    let cf = CommonFields::new();
    data.filter = Some(contains_any("x"));
    data.apply_filter(&cf);
    assert!(data.is_filtered());
    assert_eq!(data.len(), 2);
    assert_eq!(data.get_real_index(0), 0);
    assert_eq!(data.get_real_index(1), 2);
    data.unfilter();
    assert!(!data.is_filtered());
    assert_eq!(data.len(), 3);
    data.apply_filter(&cf);
    assert_eq!(data.len(), 2);
    assert_eq!(data.get_real_index(0), 0);
    assert_eq!(data.get_real_index(1), 2);
}

fn numbered_rows(n: i64) -> Vec<LogRow> {
    (0..n)
        .map(|i| record_kv(&[("num", JsonValue::Int(i))]))
        .collect()
}

#[test]
fn selection_stable_across_filtering() {
    let cf = CommonFields::new();
    // Select real index 2 in a 5-row unfiltered view.
    let mut data = Data::from_rows(numbered_rows(5));
    data.selected_row = Some(2);
    let before = data.selected_row_data_as_slice(&cf).unwrap();
    // A filter whose result excludes index 2: nothing to display.
    data.filter = Some(contains_any("4"));
    data.apply_filter(&cf);
    assert!(data.selected_row_data_as_slice(&cf).is_none());
    // Start over and apply a filter whose result includes index 2: the
    // selection resolves to the same record as before filtering.
    let mut data = Data::from_rows(numbered_rows(5));
    data.selected_row = Some(2);
    data.filter = Some(contains_any("2"));
    data.apply_filter(&cf);
    let after = data.selected_row_data_as_slice(&cf).unwrap();
    assert_eq!(after, before);
}

#[test]
fn navigation_boundaries() {
    let mut data = Data::from_rows(numbered_rows(3));
    assert_eq!(data.selected_row, None);
    data.move_selected_to_next();
    assert_eq!(data.selected_row, Some(0));
    data.selected_row = Some(2);
    data.move_selected_to_next();
    assert_eq!(data.selected_row, Some(2));
    data.selected_row = None;
    data.move_selected_to_prev();
    assert_eq!(data.selected_row, Some(2));
    data.move_selected_to_prev();
    assert_eq!(data.selected_row, Some(1));
    data.move_selected_to_first();
    assert_eq!(data.selected_row, Some(0));
    data.move_selected_to_prev();
    assert_eq!(data.selected_row, Some(0));
    data.move_selected_to_last();
    assert_eq!(data.selected_row, Some(2));
}

#[test]
fn navigation_on_empty_store_is_a_no_op() {
    let mut data = Data::new();
    data.move_selected_to_next();
    assert_eq!(data.selected_row, None);
    data.move_selected_to_prev();
    assert_eq!(data.selected_row, None);
    data.move_selected_to_first();
    assert_eq!(data.selected_row, None);
    data.move_selected_to_last();
    assert_eq!(data.selected_row, None);
}

fn bare_options(
    row_idx_field_name: Option<&str>,
    policy: RowParseErrorHandling,
) -> DataDisplayOptions {
    DataDisplayOptions::new(
        Vec::new(),
        Vec::new(),
        None,
        row_idx_field_name.map(|s| s.to_string()),
        policy,
        None,
        None,
    )
}

fn field_text(row: &LogRow, name: &str) -> Option<String> {
    match row.field_value(name) {
        FieldContent::Present(_) => Some(row.field_value(name).display()),
        FieldContent::Missing => None,
    }
}

#[test]
fn ingestion_injects_row_indices() {
    let options = bare_options(Some("row#"), RowParseErrorHandling::AbortOnAnyErrors);
    let text = "{\"a\":\"p\"}\n{\"a\":\"q\"}\n{\"a\":\"r\"}";
    let data = Data::from_text(&options, text).unwrap();
    assert_eq!(data.total_len_unfiltered(), 3);
    let mut iter = data.rows_iter();
    for expected in ["0", "1", "2"] {
        let row = iter.next().unwrap();
        assert_eq!(field_text(row, "row#").unwrap(), expected);
    }
}

#[test]
fn malformed_line_becomes_synthetic_record() {
    let options = bare_options(
        None,
        RowParseErrorHandling::ConvertFailedLines {
            raw_line_field_name: "msg".to_string(),
            parse_error_field_name: Some("err".to_string()),
        },
    );
    let text = "{\"ok\":1}\nnot json\n{\"ok\":2}";
    let data = Data::from_text(&options, text).unwrap();
    assert_eq!(data.total_len_unfiltered(), 3);
    let mut iter = data.rows_iter();
    let first = iter.next().unwrap();
    assert_eq!(field_text(first, "ok").unwrap(), "1");
    let synthetic = iter.next().unwrap();
    assert_eq!(field_text(synthetic, "msg").unwrap(), "not json");
    assert!(field_text(synthetic, "err").is_some());
    let third = iter.next().unwrap();
    assert_eq!(field_text(third, "ok").unwrap(), "2");
}

#[test]
fn malformed_line_aborts_under_abort_policy() {
    let options = bare_options(None, RowParseErrorHandling::AbortOnAnyErrors);
    let text = "{\"ok\":1}\nnot json\n{\"ok\":2}";
    let err = Data::from_text(&options, text).unwrap_err();
    assert_eq!(err.line_number, 2);
    assert!(err.display_text().starts_with("failed to parse line 2: "));
}

#[test]
fn blank_lines_are_not_candidate_records() {
    let options = bare_options(Some("row#"), RowParseErrorHandling::AbortOnAnyErrors);
    let text = "{\"a\":1}\n\r\n\n{\"a\":2}\n";
    let data = Data::from_text(&options, text).unwrap();
    assert_eq!(data.total_len_unfiltered(), 2);
    let mut iter = data.rows_iter();
    assert_eq!(field_text(iter.next().unwrap(), "row#").unwrap(), "0");
    // Row numbers follow input line order, blank lines included.
    assert_eq!(field_text(iter.next().unwrap(), "row#").unwrap(), "3");
}

#[test]
fn level_conversion_skips_non_numeric_levels() {
    let options = DataDisplayOptions::default();
    let text = "{\"level\":30,\"msg\":\"fine\"}\n{\"level\":\"thirty\",\"msg\":\"odd\"}\n{\"level\":99,\"msg\":\"unmapped\"}";
    let data = Data::from_text(&options, text).unwrap();
    let mut iter = data.rows_iter();
    assert_eq!(field_text(iter.next().unwrap(), "level_str").unwrap(), "Info");
    assert!(field_text(iter.next().unwrap(), "level_str").is_none());
    assert!(field_text(iter.next().unwrap(), "level_str").is_none());
}

#[test]
fn named_field_scope_matches_only_that_field() {
    let rows = vec![
        record_kv(&[("code", JsonValue::Int(200)), ("note", JsonValue::Str("x".into()))]),
        record_kv(&[("note", JsonValue::Str("200".to_string()))]),
    ];
    let mut data = Data::from_rows(rows);
    let cf = CommonFields::new();
    data.filter = Some(FilterConfig {
        search_key: "200".to_string(),
        filter_on: FilterOn::Field(FieldSpecifier { name: "code".to_string() }),
        is_case_sensitive: false,
        comparator: Comparator::Equal,
    });
    data.apply_filter(&cf);
    assert_eq!(data.len(), 1);
    assert_eq!(data.get_real_index(0), 0);
}

#[test]
fn take_config_carries_filter_and_selection_across_reload() {
    let cf = CommonFields::new();
    let mut old_data = Data::from_rows(vec![
        record_kv(&[("k", JsonValue::Str("x".to_string()))]),
        record_kv(&[("k", JsonValue::Str("y".to_string()))]),
    ]);
    old_data.filter = Some(contains_any("x"));
    old_data.apply_filter(&cf);
    old_data.selected_row = Some(0);
    let mut new_data = Data::from_rows(vec![
        record_kv(&[("k", JsonValue::Str("y".to_string()))]),
        record_kv(&[("k", JsonValue::Str("x".to_string()))]),
        record_kv(&[("k", JsonValue::Str("x".to_string()))]),
    ]);
    new_data.take_config(&mut old_data, &cf);
    assert!(old_data.filter.is_none());
    assert!(new_data.is_filtered());
    assert_eq!(new_data.len(), 2);
    assert_eq!(new_data.get_real_index(0), 1);
    assert_eq!(new_data.get_real_index(1), 2);
    assert_eq!(new_data.selected_row, Some(0));
}

#[test]
fn applied_filter_display_summarizes_the_filter() {
    let mut data = Data::from_rows(numbered_rows(1));
    assert_eq!(data.applied_filter_display(), "No Filter Applied");
    data.filter = Some(FilterConfig {
        search_key: "2".to_string(),
        filter_on: FilterOn::Any,
        is_case_sensitive: true,
        comparator: Comparator::NotEqual,
    });
    data.apply_filter(&CommonFields::new());
    assert_eq!(
        data.applied_filter_display(),
        "Search Key: 2 | Filter On: Any | Case Sensitive: Yes | Comparator: Not equal"
    );
}

#[test]
fn case_folding_applies_to_keys_names_and_values() {
    let slice = vec![
        ("Name".to_string(), "VALUE".to_string()),
        ("other".to_string(), "text".to_string()),
    ];
    let insensitive = FilterConfig {
        search_key: "value".to_string(),
        filter_on: FilterOn::Any,
        is_case_sensitive: false,
        comparator: Comparator::Contains,
    };
    assert_eq!(
        log_viewer::filter::matching_fields(&slice, &insensitive),
        Some(vec![0])
    );
    let sensitive = FilterConfig {
        is_case_sensitive: true,
        ..insensitive.clone()
    };
    assert_eq!(log_viewer::filter::matching_fields(&slice, &sensitive), None);
    let scoped = FilterConfig {
        search_key: "value".to_string(),
        filter_on: FilterOn::Field(FieldSpecifier { name: "NAME".to_string() }),
        is_case_sensitive: false,
        comparator: Comparator::Contains,
    };
    assert_eq!(log_viewer::filter::matching_fields(&slice, &scoped), Some(vec![0]));
}

#[test]
fn load_text_replaces_data_and_keeps_config() {
    let options = DataDisplayOptions::new(
        Vec::new(),
        Vec::new(),
        None,
        None,
        RowParseErrorHandling::AbortOnAnyErrors,
        None,
        None,
    );
    let mut current: Option<Data> = None;
    Data::load_text(&mut current, &options, "{\"k\":\"x\"}\n{\"k\":\"y\"}").unwrap();
    {
        let data = current.as_mut().unwrap();
        data.filter = Some(contains_any("x"));
        data.apply_filter(options.common_fields());
        assert_eq!(data.len(), 1);
    }
    // A reload carries the applied filter over to the new records.
    Data::load_text(
        &mut current,
        &options,
        "{\"k\":\"y\"}\n{\"k\":\"x\"}\n{\"k\":\"x\"}",
    )
    .unwrap();
    {
        let data = current.as_ref().unwrap();
        assert!(data.is_filtered());
        assert_eq!(data.len(), 2);
        assert_eq!(data.total_len_unfiltered(), 3);
    }
    // A failed reload leaves the held store untouched.
    let err = Data::load_text(&mut current, &options, "broken").unwrap_err();
    assert_eq!(err.line_number, 1);
    let data = current.as_ref().unwrap();
    assert_eq!(data.total_len_unfiltered(), 3);
    assert!(data.is_filtered());
}
