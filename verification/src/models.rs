//! Data models shared with the service layer: queries, their results, and
//! error payloads.

use vstd::prelude::*;

verus! {

/// Logical column type as it appears at the interface.
#[derive(Clone, Copy, Debug, PartialEq, Eq, Structural)]
pub enum LogicalColumnType {
    Int64,
    Varchar,
}

impl LogicalColumnType {
    /// The storage-level column type for this logical type.
    pub fn to_column_type(self) -> (r: crate::table::ColumnType)
        ensures
            (self == LogicalColumnType::Int64) == (r == crate::table::ColumnType::Int64),
    {
        match self {
            LogicalColumnType::Int64 => crate::table::ColumnType::Int64,
            LogicalColumnType::Varchar => crate::table::ColumnType::Varchar,
        }
    }

    /// The logical type of a storage-level column type.
    pub fn of_column_type(ct: crate::table::ColumnType) -> (r: LogicalColumnType)
        ensures
            (ct == crate::table::ColumnType::Int64) == (r == LogicalColumnType::Int64),
    {
        match ct {
            crate::table::ColumnType::Int64 => LogicalColumnType::Int64,
            crate::table::ColumnType::Varchar => LogicalColumnType::Varchar,
        }
    }
}

/// Description of a single column in a table.
#[derive(Clone, Debug)]
pub struct Column {
    pub name: String,
    pub column_type: LogicalColumnType,
}

/// Description of a table: its name and columns.
#[derive(Clone, Debug)]
pub struct TableSchema {
    pub name: String,
    pub columns: Vec<Column>,
}

/// Shallow representation of a table.
#[derive(Clone, Debug)]
pub struct ShallowTable {
    pub table_id: String,
    pub name: String,
}

/// Possible query statuses.
#[derive(Clone, Copy, Debug, PartialEq, Eq, Structural)]
pub enum QueryStatus {
    Created,
    Planning,
    Running,
    Completed,
    Failed,
}

/// Shallow representation of a query.
#[derive(Clone, Debug)]
pub struct ShallowQuery {
    pub query_id: String,
    pub status: QueryStatus,
}

/// COPY query definition: ingest a CSV file into a table.
#[derive(Debug)]
pub struct CopyQuery {
    pub source_filepath: String,
    pub destination_table_name: String,
    pub destination_columns: Option<Vec<String>>,
    pub does_csv_contain_header: bool,
}

/// SELECT query definition: read a whole table.
#[derive(Debug)]
pub struct SelectQuery {
    pub table_name: String,
}

/// A query definition: either COPY or SELECT.
#[derive(Debug)]
pub enum QueryDefinition {
    Copy(CopyQuery),
    Select(SelectQuery),
}

/// Full query description.
#[derive(Debug)]
pub struct Query {
    pub query_id: String,
    pub status: QueryStatus,
    pub is_result_available: bool,
    pub query_definition: QueryDefinition,
}

/// Request to execute a query.
#[derive(Debug)]
pub struct ExecuteQueryRequest {
    pub query_definition: QueryDefinition,
}

/// Request parameters when fetching a query result.
#[derive(Clone, Debug)]
pub struct GetQueryResultRequest {
    pub row_limit: Option<i32>,
    pub flush_result: Option<bool>,
}

/// Column data in a query result.
#[derive(Clone, Debug)]
pub enum ResultColumn {
    Int64(Vec<i64>),
    Varchar(Vec<String>),
}

/// A single query result item.
#[derive(Clone, Debug)]
pub struct QueryResultItem {
    pub row_count: i32,
    pub columns: Vec<ResultColumn>,
}

/// A query result: a list of result items.
pub type QueryResult = Vec<QueryResultItem>;

/// A single problem in an error response.
#[derive(Clone, Debug)]
pub struct Problem {
    pub error: String,
    pub context: Option<String>,
}

/// An error response carrying one or more problems.
#[derive(Clone, Debug)]
pub struct MultipleProblemsError {
    pub problems: Vec<Problem>,
}

impl MultipleProblemsError {
    /// A response with a single, context-free problem.
    pub fn single(error: &str) -> (r: MultipleProblemsError)
        ensures
            r.problems@.len() == 1,
            r.problems@[0].error@ == error@,
            r.problems@[0].context is None,
    {
        let mut problems: Vec<Problem> = Vec::new();
        problems.push(Problem { error: error.to_owned(), context: None });
        MultipleProblemsError { problems }
    }

    /// A response with a single problem and its context.
    pub fn with_context(error: &str, context: &str) -> (r: MultipleProblemsError)
        ensures
            r.problems@.len() == 1,
            r.problems@[0].error@ == error@,
            (r.problems@[0].context matches Some(c) && c@ == context@),
    {
        let mut problems: Vec<Problem> = Vec::new();
        problems.push(Problem { error: error.to_owned(), context: Some(context.to_owned()) });
        MultipleProblemsError { problems }
    }
}

/// A generic error response.
#[derive(Clone, Debug)]
pub struct ErrorResponse {
    pub message: String,
}

impl ErrorResponse {
    pub fn new(message: &str) -> (r: ErrorResponse)
        ensures
            r.message@ == message@,
    {
        ErrorResponse { message: message.to_owned() }
    }
}

/// System information for the service endpoint.
#[derive(Clone, Debug)]
pub struct SystemInformation {
    pub interface_version: String,
    pub version: String,
    pub author: String,
    pub uptime: i64,
}

} // verus!
