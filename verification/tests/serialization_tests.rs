//! File-format round trips: framing, batching, and the header.

use mimdb::serialization::{
    parse_header, BatchConfig, DEFAULT_BATCH_SIZE, MAX_BATCH_SIZE, MIN_BATCH_SIZE,
};
use mimdb::table::{ColumnData, Table};

fn magic_ok(bytes: &[u8]) -> bool {
    bytes.len() >= 8 && &bytes[0..8] == b"MIMDB002".as_slice()
}

#[test]
fn test_batch_configuration() {
    // validation of batch sizes
    let config = BatchConfig::new(500); // below minimum
    assert_eq!(config.batch_size, MIN_BATCH_SIZE);

    let config = BatchConfig::new(2_000_000); // above maximum
    assert_eq!(config.batch_size, MAX_BATCH_SIZE);

    let config = BatchConfig::new(50_000); // valid size
    assert_eq!(config.batch_size, 50_000);

    assert_eq!(BatchConfig::default().batch_size, DEFAULT_BATCH_SIZE);
}

#[test]
fn serialization_test_table_serialization() {
    let mut table = Table::new();

    table
        .add_column(
            "numbers".to_string(),
            ColumnData::Int64(vec![1, 2, 3, 4, 5]),
        )
        .unwrap();
    table
        .add_column(
            "words".to_string(),
            ColumnData::Varchar(vec![
                "a".to_string(),
                "b".to_string(),
                "c".to_string(),
                "d".to_string(),
                "e".to_string(),
            ]),
        )
        .unwrap();

    let bytes = table.serialize().unwrap();
    let loaded = Table::deserialize(&bytes).unwrap();

    assert_eq!(table.row_count, loaded.row_count);
    assert_eq!(table.columns.len(), loaded.columns.len());
}

#[test]
fn main_test_table_serialization() {
    let mut table = Table::new();
    table
        .add_column(
            "numbers".to_string(),
            ColumnData::Int64(vec![1, 2, 3, 4, 5]),
        )
        .unwrap();
    table
        .add_column(
            "words".to_string(),
            ColumnData::Varchar(vec![
                "a".to_string(),
                "b".to_string(),
                "c".to_string(),
                "d".to_string(),
                "e".to_string(),
            ]),
        )
        .unwrap();

    let bytes = table.serialize().unwrap();
    let loaded = Table::deserialize(&bytes).unwrap();

    assert_eq!(table.row_count, loaded.row_count);
    assert_eq!(table.columns.len(), loaded.columns.len());
}

#[test]
fn test_table_serialization_with_batches() {
    let mut table = Table::new();

    let large_numbers: Vec<i64> = (0..200_000).collect();
    let large_strings: Vec<String> = (0..200_000).map(|i| format!("string_{}", i)).collect();

    table
        .add_column(
            "large_numbers".to_string(),
            ColumnData::Int64(large_numbers.clone()),
        )
        .unwrap();
    table
        .add_column(
            "large_strings".to_string(),
            ColumnData::Varchar(large_strings.clone()),
        )
        .unwrap();

    let config = BatchConfig::new(10_000);
    let bytes = table.serialize_with_config(&config).unwrap();
    let loaded = Table::deserialize_with_config(&bytes, &config).unwrap();

    assert_eq!(table.row_count, loaded.row_count);
    assert_eq!(table.columns.len(), loaded.columns.len());

    if let Some(ColumnData::Int64(loaded_numbers)) = loaded.get_column("large_numbers") {
        assert_eq!(loaded_numbers.len(), large_numbers.len());
        assert_eq!(loaded_numbers[0], 0);
        assert_eq!(loaded_numbers[100_000], 100_000);
        assert_eq!(loaded_numbers[199_999], 199_999);
    } else {
        panic!("Failed to load large_numbers column");
    }

    if let Some(ColumnData::Varchar(loaded_strings)) = loaded.get_column("large_strings") {
        assert_eq!(loaded_strings.len(), large_strings.len());
        assert_eq!(loaded_strings[0], "string_0");
        assert_eq!(loaded_strings[100_000], "string_100000");
        assert_eq!(loaded_strings[199_999], "string_199999");
    } else {
        panic!("Failed to load large_strings column");
    }
}

#[test]
fn test_mixed_size_columns_batching() {
    let mut table = Table::new();

    let row_count = 150_000;
    let small_range_numbers: Vec<i64> = (0..row_count).map(|i| i % 100).collect();
    let large_range_numbers: Vec<i64> = (0..row_count).collect();

    table
        .add_column(
            "small_range".to_string(),
            ColumnData::Int64(small_range_numbers.clone()),
        )
        .unwrap();
    table
        .add_column(
            "large_range".to_string(),
            ColumnData::Int64(large_range_numbers.clone()),
        )
        .unwrap();

    let config = BatchConfig::new(50_000);
    let bytes = table.serialize_with_config(&config).unwrap();
    let loaded = Table::deserialize_with_config(&bytes, &config).unwrap();

    assert_eq!(table.row_count, loaded.row_count);

    if let Some(ColumnData::Int64(loaded_small_range)) = loaded.get_column("small_range") {
        assert_eq!(loaded_small_range.len(), small_range_numbers.len());
        assert_eq!(loaded_small_range[0], 0);
        assert_eq!(loaded_small_range[100], 0);
        assert_eq!(loaded_small_range[150], 50);
    } else {
        panic!("Failed to load small_range column");
    }

    if let Some(ColumnData::Int64(loaded_large_range)) = loaded.get_column("large_range") {
        assert_eq!(loaded_large_range.len(), large_range_numbers.len());
        assert_eq!(loaded_large_range[0], 0);
        assert_eq!(loaded_large_range[149_999], 149_999);
    } else {
        panic!("Failed to load large_range column");
    }
}

#[test]
fn test_batch_boundaries_functionality() {
    let mut table = Table::new();

    let row_count = 250_000;
    let numbers: Vec<i64> = (0..row_count).collect();
    let strings: Vec<String> = (0..row_count).map(|i| format!("value_{}", i)).collect();

    table
        .add_column("numbers".to_string(), ColumnData::Int64(numbers.clone()))
        .unwrap();
    table
        .add_column("strings".to_string(), ColumnData::Varchar(strings.clone()))
        .unwrap();

    let config = BatchConfig::new(30_000);
    let bytes = table.serialize_with_config(&config).unwrap();

    assert!(magic_ok(&bytes), "Should write correct format");

    // the header reports nine batches for each column, cut every 30 000 rows
    let header_len = u32::from_le_bytes([bytes[8], bytes[9], bytes[10], bytes[11]]) as usize;
    let (header, consumed) = parse_header(&bytes[12..12 + header_len]).unwrap();
    assert_eq!(consumed, header_len);
    assert_eq!(header.version, 2);
    assert_eq!(header.row_count, 250_000);
    assert_eq!(header.columns.len(), 2);
    for cm in &header.columns {
        assert_eq!(cm.batches.len(), 9);
        for (k, b) in cm.batches.iter().enumerate() {
            assert_eq!(b.start_row, k * 30_000);
            assert_eq!(b.row_count, if k == 8 { 10_000 } else { 30_000 });
        }
    }

    let loaded = Table::deserialize_with_config(&bytes, &config).unwrap();

    assert_eq!(table.row_count, loaded.row_count);
    assert_eq!(table.columns.len(), loaded.columns.len());

    if let Some(ColumnData::Int64(loaded_numbers)) = loaded.get_column("numbers") {
        assert_eq!(loaded_numbers.len(), numbers.len());
        assert_eq!(loaded_numbers[0], 0);
        assert_eq!(loaded_numbers[29_999], 29_999);
        assert_eq!(loaded_numbers[30_000], 30_000);
        assert_eq!(loaded_numbers[59_999], 59_999);
        assert_eq!(loaded_numbers[60_000], 60_000);
        assert_eq!(loaded_numbers[249_999], 249_999);
    } else {
        panic!("Failed to load numbers column");
    }

    if let Some(ColumnData::Varchar(loaded_strings)) = loaded.get_column("strings") {
        assert_eq!(loaded_strings.len(), strings.len());
        assert_eq!(loaded_strings[0], "value_0");
        assert_eq!(loaded_strings[29_999], "value_29999");
        assert_eq!(loaded_strings[30_000], "value_30000");
        assert_eq!(loaded_strings[249_999], "value_249999");
    } else {
        panic!("Failed to load strings column");
    }
}

#[test]
fn test_format_consistency() {
    let mut table = Table::new();
    table
        .add_column("test".to_string(), ColumnData::Int64(vec![1, 2, 3, 4, 5]))
        .unwrap();

    let bytes = table.serialize().unwrap();

    assert!(magic_ok(&bytes), "Should write correct format");

    let loaded = Table::deserialize(&bytes).unwrap();

    assert_eq!(loaded.row_count, 5);
    assert_eq!(loaded.columns.len(), 1);

    if let Some(ColumnData::Int64(data)) = loaded.get_column("test") {
        assert_eq!(data, &vec![1, 2, 3, 4, 5]);
    } else {
        panic!("Failed to load format data");
    }
}

#[test]
fn test_empty_table_roundtrip() {
    let table = Table::new();
    let bytes = table.serialize().unwrap();
    let loaded = Table::deserialize(&bytes).unwrap();
    assert_eq!(loaded.row_count, 0);
    assert_eq!(loaded.columns.len(), 0);
}

#[test]
fn test_empty_column_roundtrip() {
    let mut table = Table::new();
    table
        .add_column("single".to_string(), ColumnData::Int64(vec![]))
        .unwrap();
    let bytes = table.serialize().unwrap();
    let loaded = Table::deserialize(&bytes).unwrap();
    assert_eq!(loaded.row_count, 0);
    assert_eq!(loaded.columns.len(), 1);
}

#[test]
fn test_single_row_roundtrip() {
    let mut table = Table::new();
    table
        .add_column("id".to_string(), ColumnData::Int64(vec![42]))
        .unwrap();
    table
        .add_column("name".to_string(), ColumnData::Varchar(vec!["Test".to_string()]))
        .unwrap();
    let bytes = table.serialize().unwrap();
    let loaded = Table::deserialize(&bytes).unwrap();
    assert_eq!(loaded.row_count, 1);
    if let Some(ColumnData::Int64(v)) = loaded.get_column("id") {
        assert_eq!(v, &vec![42], "Failed to load single int64 value");
    } else {
        panic!("Failed to load single int64 value");
    }
}

#[test]
fn test_magic_mismatch_is_rejected() {
    let bytes = b"This is not a valid MIMDB file".to_vec();
    assert!(Table::deserialize(&bytes).is_err());
}

#[test]
fn test_truncated_file_is_rejected() {
    let mut table = Table::new();
    table
        .add_column("test".to_string(), ColumnData::Int64(vec![1, 2, 3]))
        .unwrap();
    let bytes = table.serialize().unwrap();
    assert!(Table::deserialize(&bytes[0..bytes.len() - 1]).is_err());
}

#[test]
fn test_trailing_bytes_are_rejected() {
    let mut table = Table::new();
    table
        .add_column("test".to_string(), ColumnData::Int64(vec![1, 2, 3]))
        .unwrap();
    let mut bytes = table.serialize().unwrap();
    bytes.push(0);
    assert!(Table::deserialize(&bytes).is_err());
}

#[test]
fn test_multiple_cycles() {
    let mut data: Vec<i64> = vec![10, 20, 30, 40, 50];
    for cycle in 0..5 {
        let mut table = Table::new();
        table
            .add_column("data".to_string(), ColumnData::Int64(data.clone()))
            .unwrap();
        let bytes = table.serialize().unwrap();
        let loaded = Table::deserialize(&bytes).unwrap();
        match loaded.get_column("data") {
            Some(ColumnData::Int64(v)) => {
                assert_eq!(v, &data, "Cycle {} failed", cycle);
            }
            _ => panic!("Cycle {} failed: no data column", cycle),
        }
        data = loaded
            .get_column("data")
            .and_then(|c| match c {
                ColumnData::Int64(v) => Some(v.clone()),
                _ => None,
            })
            .unwrap();
    }
}

#[test]
fn test_mixed_column_types_roundtrip() {
    let mut table = Table::new();
    table
        .add_column("int_col1".to_string(), ColumnData::Int64(vec![100, 200, 300]))
        .unwrap();
    table
        .add_column(
            "str_col1".to_string(),
            ColumnData::Varchar(vec!["a".to_string(), "b".to_string(), "c".to_string()]),
        )
        .unwrap();
    table
        .add_column("int_col2".to_string(), ColumnData::Int64(vec![1, 2, 3]))
        .unwrap();
    table
        .add_column(
            "str_col2".to_string(),
            ColumnData::Varchar(vec!["x".to_string(), "y".to_string(), "z".to_string()]),
        )
        .unwrap();

    let bytes = table.serialize().unwrap();
    let loaded = Table::deserialize(&bytes).unwrap();

    assert_eq!(loaded.row_count, 3);
    assert_eq!(loaded.columns.len(), 4);
    match loaded.get_column("int_col1") {
        Some(ColumnData::Int64(v)) => assert_eq!(v, &vec![100, 200, 300]),
        _ => panic!("int_col1 not found or wrong type"),
    }
    match loaded.get_column("str_col1") {
        Some(ColumnData::Varchar(v)) => {
            assert_eq!(v, &vec!["a".to_string(), "b".to_string(), "c".to_string()])
        }
        _ => panic!("str_col1 not found or wrong type"),
    }
}

#[test]
fn test_batch_independence() {
    // a batch over the first rows decodes on its own, without later batches
    let xs: Vec<i64> = (0..2_000).collect();
    let k = 700;
    let prefix = &xs[0..k];
    let compressed = mimdb::compression::compress_int64_column(prefix).unwrap();
    let decoded = mimdb::compression::decompress_int64_column(&compressed, k).unwrap();
    assert_eq!(decoded, prefix.to_vec());
}

#[test]
fn test_format_identity() {
    // the file is exactly MAGIC || u32_le(HEADER_LEN) || HEADER_BYTES || payload,
    // with the payload sizes adding up to the remainder
    let mut table = Table::new();
    table
        .add_column("a".to_string(), ColumnData::Int64(vec![3, 1, 4, 1, 5]))
        .unwrap();
    table
        .add_column(
            "b".to_string(),
            ColumnData::Varchar(vec!["x".to_string(); 5]),
        )
        .unwrap();
    let bytes = table.serialize().unwrap();

    assert!(magic_ok(&bytes));
    let header_len = u32::from_le_bytes([bytes[8], bytes[9], bytes[10], bytes[11]]) as usize;
    let (header, consumed) = parse_header(&bytes[12..12 + header_len]).unwrap();
    assert_eq!(consumed, header_len);
    let payload: usize = header
        .columns
        .iter()
        .map(|c| c.total_compressed_size)
        .sum();
    assert_eq!(bytes.len(), 12 + header_len + payload);
    for c in &header.columns {
        let batch_sum: usize = c.batches.iter().map(|b| b.compressed_size).sum();
        assert_eq!(batch_sum, c.total_compressed_size);
        assert_eq!(c.total_row_count, 5);
    }
}

#[test]
fn test_basic_serialization() {
    let mut table = Table::new();
    table
        .add_column("ids".to_string(), ColumnData::Int64(vec![1, 2, 3, 4, 5]))
        .unwrap();
    table
        .add_column(
            "names".to_string(),
            ColumnData::Varchar(vec![
                "Alice".to_string(),
                "Bob".to_string(),
                "Charlie".to_string(),
                "Diana".to_string(),
                "Eve".to_string(),
            ]),
        )
        .unwrap();

    let bytes = table.serialize().unwrap();
    let loaded = Table::deserialize(&bytes).unwrap();

    assert_eq!(loaded.row_count, 5);
    assert_eq!(loaded.columns.len(), 2);
    match loaded.get_column("ids") {
        Some(ColumnData::Int64(v)) => assert_eq!(v, &vec![1, 2, 3, 4, 5], "Int64 column mismatch"),
        _ => panic!("Int64 column mismatch"),
    }
    match loaded.get_column("names") {
        Some(ColumnData::Varchar(v)) => {
            assert_eq!(v[0], "Alice", "Varchar column mismatch");
            assert_eq!(v[4], "Eve", "Varchar column mismatch");
        }
        _ => panic!("Varchar column mismatch"),
    }
}

#[test]
fn test_large_dataset_serialization() {
    let ids: Vec<i64> = (0..10_000).collect();
    let names: Vec<String> = (0..10_000).map(|i| format!("User_{:05}", i)).collect();

    let mut table = Table::new();
    table
        .add_column("ids".to_string(), ColumnData::Int64(ids.clone()))
        .unwrap();
    table
        .add_column("names".to_string(), ColumnData::Varchar(names.clone()))
        .unwrap();

    let bytes = table.serialize().unwrap();
    let loaded = Table::deserialize(&bytes).unwrap();

    match loaded.get_column("ids") {
        Some(ColumnData::Int64(v)) => {
            assert_eq!(v.len(), 10_000, "Failed to load large int64 dataset");
            assert_eq!(v, &ids);
        }
        _ => panic!("Failed to load large int64 dataset"),
    }
    match loaded.get_column("names") {
        Some(ColumnData::Varchar(v)) => {
            assert_eq!(v.len(), 10_000, "Failed to load large varchar dataset");
            assert_eq!(v[0], "User_00000");
            assert_eq!(v, &names);
        }
        _ => panic!("Failed to load large varchar dataset"),
    }
}

#[test]
fn test_special_characters_serialization() {
    let special = vec![
        "Hello, World! \u{1F30D}".to_string(),
        "Line1\nLine2\nLine3".to_string(),
        "Tabs\t\tHere".to_string(),
        "Quote\"Inside\"String".to_string(),
        "Null\0Character".to_string(),
    ];

    let mut table = Table::new();
    table
        .add_column("special".to_string(), ColumnData::Varchar(special.clone()))
        .unwrap();

    let bytes = table.serialize().unwrap();
    let loaded = Table::deserialize(&bytes).unwrap();

    match loaded.get_column("special") {
        Some(ColumnData::Varchar(v)) => {
            assert_eq!(v, &special, "Failed to load special character strings")
        }
        _ => panic!("Failed to load special character strings"),
    }
}

#[test]
fn test_extreme_values_serialization() {
    let extremes = vec![
        i64::MIN,
        i64::MIN + 1,
        -1_000_000_000,
        -1,
        0,
        1,
        1_000_000_000,
        i64::MAX - 1,
        i64::MAX,
    ];

    let mut table = Table::new();
    table
        .add_column("extremes".to_string(), ColumnData::Int64(extremes.clone()))
        .unwrap();

    let bytes = table.serialize().unwrap();
    let loaded = Table::deserialize(&bytes).unwrap();

    match loaded.get_column("extremes") {
        Some(ColumnData::Int64(v)) => {
            assert_eq!(v, &extremes, "Failed to load extreme integer values")
        }
        _ => panic!("Failed to load extreme integer values"),
    }
}

#[test]
fn test_stress_patterns() {
    // all-zero, all-equal, and alternating patterns survive the round trip
    let zeros: Vec<i64> = vec![0; 1000];
    let same_ints: Vec<i64> = vec![12345; 1000];
    let empty_strings: Vec<String> = vec![String::new(); 1000];
    let same_strings: Vec<String> = vec!["identical".to_string(); 1000];
    let alternating_ints: Vec<i64> = (0..1000).map(|i| if i % 2 == 0 { 500 } else { -500 }).collect();

    let mut table = Table::new();
    table
        .add_column("zeros".to_string(), ColumnData::Int64(zeros.clone()))
        .unwrap();
    table
        .add_column("same_ints".to_string(), ColumnData::Int64(same_ints.clone()))
        .unwrap();
    table
        .add_column(
            "empty_strings".to_string(),
            ColumnData::Varchar(empty_strings.clone()),
        )
        .unwrap();
    table
        .add_column(
            "same_strings".to_string(),
            ColumnData::Varchar(same_strings.clone()),
        )
        .unwrap();
    table
        .add_column(
            "alternating_ints".to_string(),
            ColumnData::Int64(alternating_ints.clone()),
        )
        .unwrap();

    let bytes = table.serialize().unwrap();
    let loaded = Table::deserialize(&bytes).unwrap();

    match loaded.get_column("zeros") {
        Some(ColumnData::Int64(v)) => assert_eq!(v, &zeros),
        _ => panic!("zeros column lost"),
    }
    match loaded.get_column("same_strings") {
        Some(ColumnData::Varchar(v)) => assert_eq!(v, &same_strings),
        _ => panic!("same_strings column lost"),
    }
    match loaded.get_column("alternating_ints") {
        Some(ColumnData::Int64(v)) => {
            for (i, x) in v.iter().enumerate() {
                assert_eq!(*x, alternating_ints[i], "Alternating pattern broken at index {}", i);
            }
        }
        _ => panic!("alternating_ints column lost"),
    }
}

#[test]
fn test_serialize_roundtrip_helper() {
    let mut table = Table::new();
    table
        .add_column("k".to_string(), ColumnData::Int64(vec![9, 8, 7]))
        .unwrap();
    table
        .add_column(
            "v".to_string(),
            ColumnData::Varchar(vec!["p".to_string(), "q".to_string(), "r".to_string()]),
        )
        .unwrap();
    let back = table
        .serialize_roundtrip(&BatchConfig::default())
        .expect("round trip should succeed");
    assert_eq!(back.row_count, 3);
    assert_eq!(back.columns.len(), 2);
    match back.get_column("v") {
        Some(ColumnData::Varchar(v)) => {
            assert_eq!(v, &vec!["p".to_string(), "q".to_string(), "r".to_string()])
        }
        _ => panic!("column v lost in the round trip"),
    }
}
