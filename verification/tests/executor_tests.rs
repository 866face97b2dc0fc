//! Executor logic: validation, planning, ingest, merging, the query state
//! machine, and result retrieval.

use mimdb::error::ErrorKind;
use mimdb::executor::{
    build_columns_from_records, merge_select_results, plan_copy, plan_select, validate_query,
    QueryExecutor, QueryState,
};
use mimdb::metastore::{ColumnMetadata, Metastore, MetastoreData};
use mimdb::models::{
    CopyQuery, QueryDefinition, QueryResultItem, QueryStatus, ResultColumn, SelectQuery,
};
use mimdb::table::{ColumnData, ColumnType, Table};

fn open_empty() -> Metastore {
    let (m, _) = Metastore::new("data".to_string(), MetastoreData::empty()).unwrap();
    m
}

fn int_col(name: &str) -> ColumnMetadata {
    ColumnMetadata {
        name: name.to_string(),
        column_type: ColumnType::Int64,
    }
}

fn varchar_col(name: &str) -> ColumnMetadata {
    ColumnMetadata {
        name: name.to_string(),
        column_type: ColumnType::Varchar,
    }
}

fn records(rows: &[&[&str]]) -> Vec<Vec<String>> {
    rows.iter()
        .map(|r| r.iter().map(|f| f.to_string()).collect())
        .collect()
}

fn select_def(table: &str) -> QueryDefinition {
    QueryDefinition::Select(SelectQuery {
        table_name: table.to_string(),
    })
}

fn copy_def(path: &str, table: &str) -> QueryDefinition {
    QueryDefinition::Copy(CopyQuery {
        source_filepath: path.to_string(),
        destination_table_name: table.to_string(),
        destination_columns: None,
        does_csv_contain_header: false,
    })
}

#[test]
fn executor_test_select_nonexistent_table() {
    let metastore = open_empty();
    let result = validate_query(&metastore, &select_def("nonexistent"), true);
    assert!(result.is_err());
}

#[test]
fn test_copy_to_nonexistent_table() {
    let metastore = open_empty();
    let result = validate_query(&metastore, &copy_def("/some/file.csv", "nonexistent"), true);
    assert!(result.is_err());
}

#[test]
fn test_copy_missing_file() {
    let mut metastore = open_empty();
    metastore
        .create_table("test".to_string(), vec![int_col("id")])
        .unwrap();
    let result = validate_query(
        &metastore,
        &copy_def("/nonexistent/path/file.csv", "test"),
        false,
    );
    assert!(result.is_err());
}

#[test]
fn test_get_nonexistent_query() {
    let executor = QueryExecutor::new();
    assert!(executor.get_query("nonexistent-query-id").is_none());
}

#[test]
fn test_get_result_nonexistent_query() {
    let executor = QueryExecutor::new();
    let result = executor.get_result("nonexistent-query-id", None);
    assert!(result.is_err());
}

#[test]
fn test_copy_with_empty_int64_cell() {
    // CSV "1,100\n2,\n3,300" against (id INT64, value INT64)
    let cols = vec![int_col("id"), int_col("value")];
    let recs = records(&[&["1", "100"], &["2", ""], &["3", "300"]]);
    let err = build_columns_from_records(&recs, &cols, false).unwrap_err();
    assert_eq!(err.kind, ErrorKind::SchemaMismatch);
    assert!(err.message.contains("Row 2"));
    assert!(err.message.contains("empty value"));
    assert!(err.message.contains("INT64"));
}

#[test]
fn test_copy_with_invalid_int64_value() {
    let cols = vec![int_col("id")];
    let recs = records(&[&["1"], &["abc"], &["3"]]);
    let err = build_columns_from_records(&recs, &cols, false).unwrap_err();
    assert_eq!(err.kind, ErrorKind::SchemaMismatch);
    assert!(err.message.contains("failed to parse"));
    assert!(err.message.contains("abc"));
}

#[test]
fn test_copy_with_missing_columns() {
    let cols = vec![int_col("id"), varchar_col("name"), int_col("value")];
    let recs = records(&[&["1", "Alice", "100"], &["2", "Bob"], &["3", "Charlie", "300"]]);
    let err = build_columns_from_records(&recs, &cols, false).unwrap_err();
    assert_eq!(err.kind, ErrorKind::SchemaMismatch);
    assert!(err.message.contains("Row 2"));
}

#[test]
fn test_copy_with_extra_columns_ok() {
    let cols = vec![int_col("id"), varchar_col("name")];
    let recs = records(&[&["1", "Alice", "extra1", "extra2"], &["2", "Bob", "extra3", "extra4"]]);
    let built = build_columns_from_records(&recs, &cols, false).unwrap();
    assert_eq!(built.len(), 2);
    match &built[0] {
        ColumnData::Int64(v) => assert_eq!(v, &vec![1, 2]),
        _ => panic!("expected an int64 column"),
    }
}

#[test]
fn test_int64_fields_are_trimmed() {
    let cols = vec![int_col("id")];
    let recs = records(&[&[" 7 "], &["\t-12\n"]]);
    let built = build_columns_from_records(&recs, &cols, false).unwrap();
    match &built[0] {
        ColumnData::Int64(v) => assert_eq!(v, &vec![7, -12]),
        _ => panic!("expected an int64 column"),
    }
}

fn build_table(cols: &[ColumnMetadata], recs: &[&[&str]]) -> Table {
    let built = build_columns_from_records(&records(recs), &cols.to_vec(), false).unwrap();
    let mut table = Table::new();
    for (cm, data) in cols.iter().zip(built.into_iter()) {
        table.add_column(cm.name.clone(), data).unwrap();
    }
    table
}

#[test]
fn test_copy_and_select() {
    // COPY "1,Alice\n2,Bob\n3,Charlie" into users(id, name), then SELECT
    let mut metastore = open_empty();
    let cols = vec![int_col("id"), varchar_col("name")];
    let table_meta = metastore.create_table("users".to_string(), cols).unwrap();

    let copy = match copy_def("test.csv", "users") {
        QueryDefinition::Copy(c) => c,
        _ => unreachable!(),
    };
    let plan = plan_copy(table_meta, &copy).unwrap();
    let table = build_table(
        &plan.target_columns,
        &[&["1", "Alice"], &["2", "Bob"], &["3", "Charlie"]],
    );
    let bytes = table.serialize().unwrap();

    let stored = metastore.generate_data_file_path(&plan.table_meta.table_id);
    metastore
        .add_data_file(&plan.table_meta.table_id, stored)
        .unwrap();

    // SELECT: decode every file of the snapshot and merge in schema order
    let meta = metastore.get_table_by_name("users").unwrap();
    let flags = vec![true; meta.data_files.len()];
    let schema = meta.columns.clone();
    let select_plan = plan_select(meta, &flags);
    assert_eq!(select_plan.data_files.len(), 1);

    let decoded = vec![Table::deserialize(&bytes).unwrap()];
    let item = merge_select_results(&schema, &decoded).unwrap();

    assert_eq!(item.row_count, 3);
    assert_eq!(item.columns.len(), 2);
    match &item.columns[0] {
        ResultColumn::Int64(v) => assert_eq!(v, &vec![1, 2, 3]),
        _ => panic!("expected an int64 column first"),
    }
    match &item.columns[1] {
        ResultColumn::Varchar(v) => assert_eq!(
            v,
            &vec!["Alice".to_string(), "Bob".to_string(), "Charlie".to_string()]
        ),
        _ => panic!("expected a varchar column second"),
    }
}

#[test]
fn executor_test_multiple_copy_operations() {
    // two COPYs into the same table append; SELECT sees all five rows
    let mut metastore = open_empty();
    let cols = vec![int_col("value")];
    let meta = metastore.create_table("numbers".to_string(), cols).unwrap();

    let t1 = build_table(&meta.columns, &[&["1"], &["2"]]);
    let t2 = build_table(&meta.columns, &[&["3"], &["4"], &["5"]]);
    let b1 = t1.serialize().unwrap();
    let b2 = t2.serialize().unwrap();

    let p1 = metastore.generate_data_file_path(&meta.table_id);
    let p2 = metastore.generate_data_file_path(&meta.table_id);
    metastore.add_data_file(&meta.table_id, p1).unwrap();
    metastore.add_data_file(&meta.table_id, p2).unwrap();

    let meta = metastore.get_table_by_name("numbers").unwrap();
    assert_eq!(meta.data_files.len(), 2);

    let decoded = vec![
        Table::deserialize(&b1).unwrap(),
        Table::deserialize(&b2).unwrap(),
    ];
    let item = merge_select_results(&meta.columns, &decoded).unwrap();
    assert_eq!(item.row_count, 5);
    match &item.columns[0] {
        ResultColumn::Int64(v) => assert_eq!(v, &vec![1, 2, 3, 4, 5]),
        _ => panic!("expected an int64 column"),
    }
}

#[test]
fn test_plan_copy_with_specific_columns() {
    let mut metastore = open_empty();
    let cols = vec![int_col("id"), varchar_col("name"), int_col("age")];
    let meta = metastore.create_table("persons".to_string(), cols).unwrap();

    let copy = CopyQuery {
        source_filepath: "persons.csv".to_string(),
        destination_table_name: "persons".to_string(),
        destination_columns: Some(vec!["id".to_string(), "name".to_string()]),
        does_csv_contain_header: false,
    };
    let plan = plan_copy(meta, &copy).unwrap();
    assert_eq!(plan.target_columns.len(), 2);
    assert_eq!(plan.target_columns[0].name, "id");
    assert_eq!(plan.target_columns[1].name, "name");
}

#[test]
fn test_plan_copy_unknown_column() {
    let mut metastore = open_empty();
    let cols = vec![int_col("id")];
    let meta = metastore.create_table("persons".to_string(), cols).unwrap();

    let copy = CopyQuery {
        source_filepath: "persons.csv".to_string(),
        destination_table_name: "persons".to_string(),
        destination_columns: Some(vec!["missing".to_string()]),
        does_csv_contain_header: false,
    };
    assert!(plan_copy(meta, &copy).is_err());
}

#[test]
fn test_plan_select_skips_missing_files() {
    let mut metastore = open_empty();
    let cols = vec![int_col("id")];
    let meta = metastore.create_table("t".to_string(), cols).unwrap();
    metastore.add_data_file(&meta.table_id, "a.mimdb".to_string()).unwrap();
    metastore.add_data_file(&meta.table_id, "b.mimdb".to_string()).unwrap();
    metastore.add_data_file(&meta.table_id, "c.mimdb".to_string()).unwrap();

    let meta = metastore.get_table_by_name("t").unwrap();
    let plan = plan_select(meta, &vec![true, false, true]);
    assert_eq!(plan.data_files, vec!["a.mimdb".to_string(), "c.mimdb".to_string()]);
}

fn completed_query_with_result(result: Vec<QueryResultItem>) -> (QueryExecutor, String) {
    let mut executor = QueryExecutor::new();
    let state = QueryState::new(select_def("data"));
    let id = state.query_id.clone();
    executor.insert_query(state).unwrap();
    assert!(executor.mark_planning(&id));
    assert!(executor.mark_running(&id));
    assert!(executor.complete(&id, Some(result)));
    (executor, id)
}

#[test]
fn test_get_result_with_row_limit() {
    // a stored result of ten rows
    let item = QueryResultItem {
        row_count: 10,
        columns: vec![ResultColumn::Int64((1..=10).collect())],
    };
    let (executor, id) = completed_query_with_result(vec![item]);

    let result = executor.get_result(&id, Some(3)).unwrap().unwrap();
    assert_eq!(result[0].row_count, 3);
    match &result[0].columns[0] {
        ResultColumn::Int64(v) => assert_eq!(v, &vec![1, 2, 3]),
        _ => panic!("expected an int64 column"),
    }

    let full_result = executor.get_result(&id, None).unwrap().unwrap();
    assert_eq!(full_result[0].row_count, 10);

    let result_high_limit = executor.get_result(&id, Some(100)).unwrap().unwrap();
    assert_eq!(result_high_limit[0].row_count, 10);

    let result_exact_limit = executor.get_result(&id, Some(10)).unwrap().unwrap();
    assert_eq!(result_exact_limit[0].row_count, 10);
}

#[test]
fn test_get_result_requires_completion() {
    let mut executor = QueryExecutor::new();
    let state = QueryState::new(select_def("t"));
    let id = state.query_id.clone();
    executor.insert_query(state).unwrap();
    let err = executor.get_result(&id, None).unwrap_err();
    assert_eq!(err.kind, ErrorKind::Precondition);
}

#[test]
fn test_flush_result() {
    let item = QueryResultItem {
        row_count: 2,
        columns: vec![ResultColumn::Int64(vec![1, 2])],
    };
    let (mut executor, id) = completed_query_with_result(vec![item]);

    assert!(executor.get_result(&id, None).unwrap().is_some());
    executor.clear_result(&id).unwrap();
    // the record remains completed, but the result is gone
    assert_eq!(executor.get_status(&id), Some(QueryStatus::Completed));
    assert!(executor.get_result(&id, None).unwrap().is_none());
}

#[test]
fn test_query_status_tracking() {
    let mut executor = QueryExecutor::new();
    let state = QueryState::new(select_def("test"));
    let id = state.query_id.clone();
    executor.insert_query(state).unwrap();

    assert_eq!(executor.get_status(&id), Some(QueryStatus::Created));
    assert!(executor.mark_planning(&id));
    assert_eq!(executor.get_status(&id), Some(QueryStatus::Planning));
    assert!(executor.mark_running(&id));
    assert_eq!(executor.get_status(&id), Some(QueryStatus::Running));
    assert!(executor.complete(&id, None));
    assert_eq!(executor.get_status(&id), Some(QueryStatus::Completed));

    let query = executor.get_query(&id).unwrap();
    assert_eq!(query.status, QueryStatus::Completed);

    // terminal states never transition
    assert!(!executor.mark_planning(&id));
    assert!(!executor.mark_running(&id));
    assert!(!executor.fail(&id, vec!["late".to_string()]));
}

#[test]
fn test_failed_query_keeps_errors() {
    let mut executor = QueryExecutor::new();
    let state = QueryState::new(select_def("test"));
    let id = state.query_id.clone();
    executor.insert_query(state).unwrap();
    assert!(executor.mark_planning(&id));
    assert!(executor.fail(&id, vec!["Planning failed: table vanished".to_string()]));

    assert_eq!(executor.get_status(&id), Some(QueryStatus::Failed));
    let errors = executor.get_error(&id).unwrap().unwrap();
    assert_eq!(errors.len(), 1);
    assert!(errors[0].contains("Planning failed"));
}

#[test]
fn test_list_queries() {
    let mut executor = QueryExecutor::new();
    let s1 = QueryState::new(select_def("test"));
    let s2 = QueryState::new(select_def("test"));
    let id1 = s1.query_id.clone();
    let id2 = s2.query_id.clone();
    executor.insert_query(s1).unwrap();
    executor.insert_query(s2).unwrap();

    for id in [&id1, &id2] {
        assert!(executor.mark_planning(id));
        assert!(executor.mark_running(id));
        assert!(executor.complete(id, None));
    }

    let queries = executor.list_queries();
    assert_eq!(queries.len(), 2);
    for (_id, status) in queries {
        assert_eq!(status, QueryStatus::Completed);
    }
}

#[test]
fn test_select_empty_table() {
    let mut metastore = open_empty();
    let cols = vec![int_col("id"), varchar_col("name")];
    let meta = metastore.create_table("users".to_string(), cols).unwrap();

    let flags: Vec<bool> = vec![];
    let schema = meta.columns.clone();
    let plan = plan_select(meta, &flags);
    assert_eq!(plan.data_files.len(), 0);

    let item = merge_select_results(&schema, &vec![]).unwrap();
    assert_eq!(item.row_count, 0);
    assert_eq!(item.columns.len(), 2);
}
