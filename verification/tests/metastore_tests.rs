//! Catalog behavior: creation, lookups, uniqueness, and the deferred
//! deletion protocol.

use mimdb::metastore::{ColumnMetadata, Metastore, MetastoreData};
use mimdb::table::ColumnType;

fn open_empty() -> Metastore {
    let (m, removals) = Metastore::new("data".to_string(), MetastoreData::empty()).unwrap();
    assert!(removals.is_empty());
    m
}

fn int_col(name: &str) -> ColumnMetadata {
    ColumnMetadata {
        name: name.to_string(),
        column_type: ColumnType::Int64,
    }
}

fn varchar_col(name: &str) -> ColumnMetadata {
    ColumnMetadata {
        name: name.to_string(),
        column_type: ColumnType::Varchar,
    }
}

#[test]
fn test_metastore_creation() {
    let metastore = open_empty();
    assert!(metastore.list_tables().is_empty());
}

#[test]
fn test_create_and_list_table() {
    let mut metastore = open_empty();

    let columns = vec![int_col("id"), varchar_col("name")];
    let table = metastore.create_table("users".to_string(), columns).unwrap();

    assert_eq!(table.name, "users");
    assert_eq!(metastore.list_tables().len(), 1);
}

#[test]
fn test_duplicate_table_name() {
    let mut metastore = open_empty();
    let columns = vec![int_col("id")];

    metastore
        .create_table("users".to_string(), columns.clone())
        .unwrap();

    let result = metastore.create_table("users".to_string(), columns);
    assert!(result.is_err());
}

#[test]
fn test_duplicate_column_name() {
    let mut metastore = open_empty();
    let columns = vec![int_col("id"), varchar_col("id")];

    let result = metastore.create_table("users".to_string(), columns);
    assert!(result.is_err());
}

#[test]
fn metastore_test_delete_table() {
    let mut metastore = open_empty();
    let columns = vec![int_col("id")];

    let table = metastore.create_table("users".to_string(), columns).unwrap();
    assert_eq!(metastore.list_tables().len(), 1);

    metastore.delete_table(&table.table_id).unwrap();
    assert!(metastore.list_tables().is_empty());
}

#[test]
fn test_persistence() {
    // reopening a metastore over the same catalog data shows the same tables
    let mut metastore = open_empty();
    let columns = vec![int_col("id")];
    metastore.create_table("users".to_string(), columns).unwrap();

    let data = metastore.into_data();
    let (metastore, _) = Metastore::new("data".to_string(), data).unwrap();
    assert_eq!(metastore.list_tables().len(), 1);

    let tables = metastore.list_tables();
    assert_eq!(tables[0].1, "users");
}

#[test]
fn test_get_table_by_name() {
    let mut metastore = open_empty();
    let columns = vec![int_col("id"), varchar_col("name")];

    let created = metastore
        .create_table("products".to_string(), columns)
        .unwrap();

    let found = metastore.get_table_by_name("products").unwrap();
    assert_eq!(found.table_id, created.table_id);
    assert_eq!(found.name, "products");
    assert_eq!(found.columns.len(), 2);

    assert!(metastore.get_table_by_name("nonexistent").is_none());
}

#[test]
fn test_table_exists() {
    let mut metastore = open_empty();

    assert!(!metastore.table_exists("users"));

    let columns = vec![int_col("id")];
    metastore.create_table("users".to_string(), columns).unwrap();

    assert!(metastore.table_exists("users"));
    assert!(!metastore.table_exists("products"));
}

#[test]
fn test_add_data_file() {
    let mut metastore = open_empty();
    let columns = vec![int_col("id")];

    let table = metastore.create_table("users".to_string(), columns).unwrap();
    assert!(table.data_files.is_empty());

    let file_path = "data/tables/x/test_data.mimdb".to_string();
    metastore
        .add_data_file(&table.table_id, file_path.clone())
        .unwrap();

    let updated_table = metastore.get_table(&table.table_id).unwrap();
    assert_eq!(updated_table.data_files.len(), 1);
    assert_eq!(updated_table.data_files[0], file_path);
}

#[test]
fn test_generate_data_file_path() {
    let mut metastore = open_empty();
    let columns = vec![int_col("id")];

    let table = metastore.create_table("users".to_string(), columns).unwrap();

    let path1 = metastore.generate_data_file_path(&table.table_id);
    let path2 = metastore.generate_data_file_path(&table.table_id);

    // each call generates a unique path
    assert_ne!(path1, path2);

    // the path lies under the table directory and has the right extension
    assert!(path1.contains(&table.table_id));
    assert!(path1.ends_with(".mimdb"));
}

#[test]
fn test_multiple_tables() {
    let mut metastore = open_empty();

    let columns1 = vec![int_col("id")];
    let columns2 = vec![int_col("product_id"), varchar_col("name")];

    metastore.create_table("users".to_string(), columns1).unwrap();
    metastore
        .create_table("products".to_string(), columns2)
        .unwrap();

    assert_eq!(metastore.list_tables().len(), 2);
    assert!(metastore.table_exists("users"));
    assert!(metastore.table_exists("products"));
}

#[test]
fn test_delete_nonexistent_table() {
    let mut metastore = open_empty();
    let result = metastore.delete_table("nonexistent-id");
    assert!(result.is_err());
}

#[test]
fn test_add_data_file_to_nonexistent_table() {
    let mut metastore = open_empty();
    let result = metastore.add_data_file("nonexistent-id", "file.mimdb".to_string());
    assert!(result.is_err());
}

#[test]
fn test_persistence_with_data_files() {
    let mut metastore = open_empty();
    let columns = vec![int_col("id")];

    let table = metastore.create_table("users".to_string(), columns).unwrap();
    metastore
        .add_data_file(&table.table_id, "file1.mimdb".to_string())
        .unwrap();
    metastore
        .add_data_file(&table.table_id, "file2.mimdb".to_string())
        .unwrap();
    let table_id = table.table_id;

    let data = metastore.into_data();
    let (metastore, _) = Metastore::new("data".to_string(), data).unwrap();
    let table = metastore.get_table(&table_id).unwrap();

    assert_eq!(table.data_files.len(), 2);
}

#[test]
fn test_table_access_tracking() {
    let mut metastore = open_empty();
    let columns = vec![int_col("id")];

    let table = metastore.create_table("users".to_string(), columns).unwrap();

    assert_eq!(metastore.active_access_count(&table.table_id), 0);

    metastore
        .acquire_table_access(&table.table_id, "query1")
        .unwrap();
    assert_eq!(metastore.active_access_count(&table.table_id), 1);

    metastore
        .acquire_table_access(&table.table_id, "query2")
        .unwrap();
    assert_eq!(metastore.active_access_count(&table.table_id), 2);

    metastore.release_table_access(&table.table_id, "query1");
    assert_eq!(metastore.active_access_count(&table.table_id), 1);

    metastore.release_table_access(&table.table_id, "query2");
    assert_eq!(metastore.active_access_count(&table.table_id), 0);
}

#[test]
fn test_delete_table_with_active_queries_defers_file_deletion() {
    let mut metastore = open_empty();
    let columns = vec![int_col("id")];

    let table = metastore.create_table("users".to_string(), columns).unwrap();
    let table_id = table.table_id.clone();

    let data_file = metastore.generate_data_file_path(&table_id);
    metastore
        .add_data_file(&table_id, data_file.clone())
        .unwrap();

    // an active query holds the table
    metastore.acquire_table_access(&table_id, "query1").unwrap();

    // dropping the table returns no files yet
    let (_, removal) = metastore.delete_table(&table_id).unwrap();
    assert!(
        removal.is_none(),
        "File should still exist while query is active"
    );

    assert!(metastore.list_tables().is_empty());
    assert!(metastore.get_table(&table_id).is_none());
    assert!(metastore.is_pending_deletion(&table_id));

    // releasing the last access hands back the files for removal
    let removal = metastore.release_table_access(&table_id, "query1");
    let removal = removal.expect("File should be deleted after query completes");
    assert_eq!(removal.data_files, vec![data_file]);
    assert!(!metastore.is_pending_deletion(&table_id));
}

#[test]
fn test_delete_table_without_active_queries_deletes_files_immediately() {
    let mut metastore = open_empty();
    let columns = vec![int_col("id")];

    let table = metastore.create_table("users".to_string(), columns).unwrap();
    let table_id = table.table_id.clone();

    let data_file = metastore.generate_data_file_path(&table_id);
    metastore
        .add_data_file(&table_id, data_file.clone())
        .unwrap();

    let (_, removal) = metastore.delete_table(&table_id).unwrap();
    let removal = removal.expect("File should be deleted immediately when no active queries");
    assert_eq!(removal.data_files, vec![data_file]);
    assert!(!metastore.is_pending_deletion(&table_id));
}

#[test]
fn test_pending_deletions_cleaned_on_restart() {
    let mut metastore = open_empty();
    let columns = vec![int_col("id")];

    let table = metastore.create_table("users".to_string(), columns).unwrap();
    let table_id = table.table_id.clone();

    let data_file = metastore.generate_data_file_path(&table_id);
    metastore
        .add_data_file(&table_id, data_file.clone())
        .unwrap();

    // a query is reading when the table is dropped; the process then stops
    // without releasing
    metastore.acquire_table_access(&table_id, "query1").unwrap();
    let (_, removal) = metastore.delete_table(&table_id).unwrap();
    assert!(removal.is_none());
    assert!(metastore.is_pending_deletion(&table_id));

    // reopening the metastore reclaims every pending deletion
    let data = metastore.into_data();
    let (metastore, removals) = Metastore::new("data".to_string(), data).unwrap();
    assert_eq!(removals.len(), 1, "File should be deleted on restart when no active queries");
    assert_eq!(removals[0].data_files, vec![data_file]);
    assert!(!metastore.is_pending_deletion(&table_id));
}

#[test]
fn test_acquire_access_to_deleted_table_fails() {
    let mut metastore = open_empty();
    let columns = vec![int_col("id")];

    let table = metastore.create_table("users".to_string(), columns).unwrap();
    let table_id = table.table_id.clone();

    metastore.delete_table(&table_id).unwrap();

    let result = metastore.acquire_table_access(&table_id, "query1");
    assert!(result.is_err());
}

#[test]
fn test_cleanup_on_demand_spares_active_tables() {
    let mut metastore = open_empty();

    let t1 = metastore
        .create_table("held".to_string(), vec![int_col("id")])
        .unwrap();
    let t2 = metastore
        .create_table("idle".to_string(), vec![int_col("id")])
        .unwrap();
    let f1 = metastore.generate_data_file_path(&t1.table_id);
    let f2 = metastore.generate_data_file_path(&t2.table_id);
    metastore.add_data_file(&t1.table_id, f1).unwrap();
    metastore.add_data_file(&t2.table_id, f2.clone()).unwrap();

    // readers hold both tables through their drops
    metastore.acquire_table_access(&t1.table_id, "query1").unwrap();
    let (_, r1) = metastore.delete_table(&t1.table_id).unwrap();
    assert!(r1.is_none());
    metastore.acquire_table_access(&t2.table_id, "query2").unwrap();
    let (_, r2) = metastore.delete_table(&t2.table_id).unwrap();
    assert!(r2.is_none());

    // on-demand cleanup spares every table that is still being read
    let removals = metastore.cleanup_pending_deletions();
    assert!(removals.is_empty());
    assert!(metastore.is_pending_deletion(&t1.table_id));
    assert!(metastore.is_pending_deletion(&t2.table_id));

    // the last release reclaims exactly that table's files
    let removal = metastore
        .release_table_access(&t2.table_id, "query2")
        .expect("the last reader reclaims the pending files");
    assert_eq!(removal.data_files, vec![f2]);
    assert!(metastore.is_pending_deletion(&t1.table_id));
    assert!(!metastore.is_pending_deletion(&t2.table_id));
}
