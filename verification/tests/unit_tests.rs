//! The smaller pieces: field display, comparators, size units, hashes
//! and text helpers.

use log_viewer::filter::{Comparator, FilterOn};
use log_viewer::options::{calculate_hash, CommonFields, LevelConversion, RowSizeConfig, SizeUnits};
use log_viewer::record::LogRow;
use log_viewer::text::{as_string_with_separators, clean_msg};
use log_viewer::value::{FieldContent, JsonValue};

#[test]
fn field_display_renders_each_shape() {
    let s = JsonValue::Str("plain text".to_string());
    let i = JsonValue::Int(-7);
    let o = JsonValue::Other("[1,true,null]".to_string());
    assert_eq!(FieldContent::Present(&s).display(), "plain text");
    assert_eq!(FieldContent::Present(&i).display(), "-7");
    assert_eq!(FieldContent::Present(&o).display(), "[1,true,null]");
    assert_eq!(FieldContent::Missing.display(), "[ --- ]");
}

#[test]
fn field_value_finds_present_fields_only() {
    let mut row = LogRow::new();
    row.or_insert("name".to_string(), JsonValue::Str("value".to_string()));
    assert!(matches!(row.field_value("name"), FieldContent::Present(_)));
    assert!(matches!(row.field_value("other"), FieldContent::Missing));
    // Inserting at an existing key keeps the first value.
    row.or_insert("name".to_string(), JsonValue::Str("second".to_string()));
    assert_eq!(row.field_value("name").display(), "value");
}

#[test]
fn comparators_compare_rendered_text() {
    assert!(Comparator::Equal.apply("200", "200"));
    assert!(!Comparator::Equal.apply("200", "2000"));
    assert!(Comparator::NotEqual.apply("200", "2000"));
    assert!(Comparator::Contains.apply("GET", "HTTP GET /status"));
    assert!(Comparator::NotContains.apply("POST", "HTTP GET /status"));
    // Ordering is lexical on the text, not numeric.
    assert!(Comparator::LessThan.apply("9", "10"));
    assert!(!Comparator::GreaterThan.apply("9", "10"));
    assert!(Comparator::LessThanEqual.apply("b", "b"));
    assert!(Comparator::GreaterThanEqual.apply("a", "b"));
    assert_eq!(Comparator::LessThan.as_str(), "Less Than");
    assert!(FilterOn::Any.is_any());
    assert!(!FilterOn::Any.is_field());
}

#[test]
fn size_units_render_fixed_point_text() {
    assert_eq!(SizeUnits::KB.convert(2048), "0002.0000 KB");
    assert_eq!(SizeUnits::KB.convert_trimmed(2048), "2.0000 KB");
    assert_eq!(SizeUnits::Bytes.convert(7), "0007.0000 Bytes");
    assert_eq!(SizeUnits::Auto.convert(512), "0512.0000 Bytes");
    assert_eq!(SizeUnits::Auto.convert(1024 * 1024), "0001.0000 MB");
    // 1500 / 1024 = 1.46484375, rounded to four places.
    assert_eq!(SizeUnits::Auto.convert(1500), "0001.4648 KB");
    assert_eq!(SizeUnits::KB.as_str(), "KB");
    assert_eq!(SizeUnits::Auto.as_str(), "Auto");
    assert_eq!(SizeUnits::Auto.to_concrete(1024 * 1024), SizeUnits::MB);
    assert_eq!(SizeUnits::GB.to_concrete(12), SizeUnits::GB);
    assert_eq!(RowSizeConfig::default().units, SizeUnits::KB);
}

#[test]
fn level_table_maps_conventional_levels() {
    let lc = LevelConversion::default();
    assert_eq!(lc.lookup(30), Some("Info".to_string()));
    assert_eq!(lc.lookup(60), Some("Fatal".to_string()));
    assert_eq!(lc.lookup(99), None);
}

#[test]
fn common_fields_sort_and_deduplicate() {
    let cf = CommonFields::from_names(vec![
        "time".to_string(),
        "level".to_string(),
        "time".to_string(),
    ]);
    assert_eq!(cf.len(), 2);
    assert!(cf.contains("time"));
    assert!(cf.contains("level"));
    assert!(!cf.contains("msg"));
}

#[test]
fn common_fields_hash_is_deterministic_per_contents() {
    let a = CommonFields::from_names(vec!["level".to_string(), "time".to_string()]);
    let b = CommonFields::from_names(vec!["time".to_string(), "level".to_string()]);
    assert_eq!(calculate_hash(&a), calculate_hash(&b));
}

#[test]
fn separators_group_digits_in_threes() {
    assert_eq!(as_string_with_separators(0), "0");
    assert_eq!(as_string_with_separators(999), "999");
    assert_eq!(as_string_with_separators(1000), "1,000");
    assert_eq!(as_string_with_separators(1234567), "1,234,567");
}

#[test]
fn clean_msg_rewrites_escapes() {
    assert_eq!(clean_msg("a\\nb"), "a\nb");
    assert_eq!(clean_msg("say \\\"hi\\\""), "say \"hi\"");
    assert_eq!(clean_msg("untouched"), "untouched");
}
