//! In-memory table behavior and the metrics helpers.

use mimdb::table::{ColumnData, ColumnType, Table};

#[test]
fn test_add_column_fixes_row_count() {
    let mut table = Table::new();
    assert_eq!(table.row_count, 0);

    table
        .add_column("a".to_string(), ColumnData::Int64(vec![1, 2, 3]))
        .unwrap();
    assert_eq!(table.row_count, 3);

    // a second column of the same length keeps the count
    table
        .add_column(
            "b".to_string(),
            ColumnData::Varchar(vec!["x".to_string(), "y".to_string(), "z".to_string()]),
        )
        .unwrap();
    assert_eq!(table.row_count, 3);

    // a mismatched length is rejected
    let err = table
        .add_column("c".to_string(), ColumnData::Int64(vec![1]))
        .unwrap_err();
    assert_eq!(err.kind, mimdb::error::ErrorKind::SchemaMismatch);

    // a duplicate name is rejected
    let err = table
        .add_column("a".to_string(), ColumnData::Int64(vec![7, 8, 9]))
        .unwrap_err();
    assert_eq!(err.kind, mimdb::error::ErrorKind::SchemaMismatch);
}

#[test]
fn test_get_column() {
    let mut table = Table::new();
    table
        .add_column("a".to_string(), ColumnData::Int64(vec![5, 6]))
        .unwrap();
    match table.get_column("a") {
        Some(ColumnData::Int64(v)) => assert_eq!(v, &vec![5, 6]),
        _ => panic!("column a should hold int64 data"),
    }
    assert!(table.get_column("missing").is_none());
    assert_eq!(table.get_column("a").unwrap().len(), 2);
    assert!(!table.get_column("a").unwrap().is_empty());
    assert_eq!(table.get_column("a").unwrap().column_type(), ColumnType::Int64);
}

#[test]
fn metrics_test_metrics_calculation() {
    let mut table = Table::new();

    table
        .add_column("scores".to_string(), ColumnData::Int64(vec![80, 90, 100]))
        .unwrap();
    table
        .add_column(
            "names".to_string(),
            ColumnData::Varchar(vec![
                "ABC".to_string(),
                "DEF".to_string(),
                "GHI".to_string(),
            ]),
        )
        .unwrap();

    let ascii_counts = table.calculate_ascii_counts();
    assert!(ascii_counts.iter().any(|e| e.0 == "names"));

    let total_ascii = table.get_total_ascii_count("names").unwrap();
    assert_eq!(total_ascii, 9); // "ABC" + "DEF" + "GHI" = 9 ASCII chars
}

#[test]
fn main_test_metrics_calculation() {
    let mut table = Table::new();
    table
        .add_column("scores".to_string(), ColumnData::Int64(vec![80, 90, 100]))
        .unwrap();
    table
        .add_column(
            "names".to_string(),
            ColumnData::Varchar(vec![
                "ABC".to_string(),
                "DEF".to_string(),
                "GHI".to_string(),
            ]),
        )
        .unwrap();

    let ascii_counts = table.calculate_ascii_counts();
    assert!(ascii_counts.iter().any(|e| e.0 == "names"));
    let entry = ascii_counts.iter().find(|e| e.0 == "names").unwrap();
    assert_eq!(
        entry.1.iter().find(|p| p.0 == 'A').map(|p| p.1),
        Some(1)
    );

    let total_ascii = table.get_total_ascii_count("names").unwrap();
    assert_eq!(total_ascii, 9);
}

#[test]
fn test_ascii_count_ignores_multibyte() {
    let mut table = Table::new();
    table
        .add_column(
            "s".to_string(),
            ColumnData::Varchar(vec!["a\u{1F680}b".to_string()]),
        )
        .unwrap();
    assert_eq!(table.get_total_ascii_count("s"), Some(2));
    assert_eq!(table.get_total_ascii_count("missing"), None);
}
