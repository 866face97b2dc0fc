//! The pure decision logic of the query executor: validation, planning, CSV
//! ingest, result merging, the per-query state machine, and result
//! retrieval.  Scheduling, file reads and the CSV lexer live with the
//! caller, which hands plain values in and takes plain values back.

use crate::error::{DbError, ErrorKind};
use crate::metastore::{ColumnMetadata, Metastore, TableMetadata};
use crate::models::{
    CopyQuery, Query, QueryDefinition, QueryResult, QueryResultItem, QueryStatus, ResultColumn,
    SelectQuery,
};
use crate::table::{col_type, spec_find_col, ColumnData, ColumnType, Table};
use crate::text::{parse_i64_field, spec_parse_i64_field, u64_to_string};
use vstd::prelude::*;

verus! {

/// Plan for a COPY query.
#[derive(Debug)]
pub struct CopyPlan {
    pub table_meta: TableMetadata,
    pub target_columns: Vec<ColumnMetadata>,
    pub source_filepath: String,
    pub has_header: bool,
}

/// Plan for a SELECT query.
#[derive(Debug)]
pub struct SelectPlan {
    pub table_meta: TableMetadata,
    pub data_files: Vec<String>,
}

/// A resolved query execution plan.
#[derive(Debug)]
pub enum QueryPlan {
    Copy(CopyPlan),
    Select(SelectPlan),
}

/// Internal query state.
#[derive(Debug)]
pub struct QueryState {
    pub query_id: String,
    pub status: QueryStatus,
    pub definition: QueryDefinition,
    pub result: Option<QueryResult>,
    pub error: Option<Vec<String>>,
}

impl QueryState {
    /// A freshly submitted query: a new identifier, status Created, no
    /// result and no error yet.
    pub fn new(definition: QueryDefinition) -> (r: QueryState)
        ensures
            r.status == QueryStatus::Created,
            r.definition == definition,
            r.result is None,
            r.error is None,
            r.query_id@.len() == 36,
    {
        QueryState {
            query_id: crate::metastore::new_uuid_string(),
            status: QueryStatus::Created,
            definition,
            result: None,
            error: None,
        }
    }
}

/// Rank of a status along the lifecycle.
pub open spec fn spec_status_rank(s: QueryStatus) -> int {
    match s {
        QueryStatus::Created => 0,
        QueryStatus::Planning => 1,
        QueryStatus::Running => 2,
        QueryStatus::Completed => 3,
        QueryStatus::Failed => 3,
    }
}

pub open spec fn spec_is_terminal(s: QueryStatus) -> bool {
    s == QueryStatus::Completed || s == QueryStatus::Failed
}

/// The allowed status transitions of a query record.
pub open spec fn spec_status_step(a: QueryStatus, b: QueryStatus) -> bool {
    ||| (a == QueryStatus::Created && b == QueryStatus::Planning)
    ||| (a == QueryStatus::Planning && b == QueryStatus::Running)
    ||| (a == QueryStatus::Planning && b == QueryStatus::Failed)
    ||| (a == QueryStatus::Running && b == QueryStatus::Completed)
    ||| (a == QueryStatus::Running && b == QueryStatus::Failed)
}

/// Monotonic state machine: every allowed transition moves strictly forward
/// along Created, Planning, Running, {Completed, Failed}; no state repeats,
/// and a terminal state never transitions again.
pub proof fn lemma_status_monotonic(a: QueryStatus, b: QueryStatus)
    requires
        spec_status_step(a, b),
    ensures
        spec_status_rank(a) < spec_status_rank(b),
        !spec_is_terminal(a),
        a != b,
{
}

pub open spec fn spec_find_query(qs: Seq<QueryState>, id: Seq<char>) -> Option<QueryState>
    decreases qs.len(),
{
    if qs.len() == 0 {
        None
    } else if qs[0].query_id@ == id {
        Some(qs[0])
    } else {
        spec_find_query(qs.drop_first(), id)
    }
}

/// The executor's bookkeeping: one record per submitted query.
#[derive(Debug)]
pub struct QueryExecutor {
    pub queries: Vec<QueryState>,
}

impl QueryExecutor {
    pub open spec fn well_formed(self) -> bool {
        forall|i: int, j: int|
            0 <= i < j < self.queries@.len() ==> (#[trigger] self.queries@[i].query_id@) != (
            #[trigger] self.queries@[j].query_id@)
    }

    pub fn new() -> (r: QueryExecutor)
        ensures
            r.well_formed(),
            r.queries@.len() == 0,
    {
        QueryExecutor { queries: Vec::new() }
    }

    fn find_query_index(&self, query_id: &str) -> (r: Option<usize>)
        ensures
            match r {
                Some(i) => i < self.queries@.len() && self.queries@[i as int].query_id@
                    == query_id@ && spec_find_query(self.queries@, query_id@) == Some(
                    self.queries@[i as int],
                ),
                None => spec_find_query(self.queries@, query_id@) is None,
            },
    {
        let key: String = query_id.to_owned();
        let mut i: usize = 0;
        proof {
            assert(self.queries@.skip(0) =~= self.queries@);
        }
        while i < self.queries.len()
            invariant
                i <= self.queries@.len(),
                key@ == query_id@,
                spec_find_query(self.queries@, query_id@) == spec_find_query(
                    self.queries@.skip(i as int),
                    query_id@,
                ),
            decreases self.queries@.len() - i,
        {
            proof {
                assert(self.queries@.skip(i as int)[0] == self.queries@[i as int]);
                assert(self.queries@.skip(i as int).drop_first() =~= self.queries@.skip(i + 1));
            }
            if self.queries[i].query_id.eq(&key) {
                return Some(i);
            }
            i = i + 1;
        }
        proof {
            assert(self.queries@.skip(self.queries@.len() as int) =~= Seq::<QueryState>::empty());
        }
        None
    }

    /// Record a freshly created query.  The caller supplies a record whose
    /// identifier is not yet present.
    pub fn insert_query(&mut self, state: QueryState) -> (r: Result<(), DbError>)
        requires
            old(self).well_formed(),
        ensures
            final(self).well_formed(),
            r is Ok <==> spec_find_query(old(self).queries@, state.query_id@) is None,
            r is Ok ==> final(self).queries@ == old(self).queries@.push(state),
            r is Err ==> final(self).queries@ == old(self).queries@ && (r matches Err(e)
                && e.kind == ErrorKind::Conflict),
    {
        if self.find_query_index(state.query_id.as_str()).is_some() {
            return Err(DbError::of(ErrorKind::Conflict, "query identifier already exists"));
        }
        let ghost pre = self.queries@;
        proof {
            lemma_find_query_none_all(pre, state.query_id@);
        }
        self.queries.push(state);
        proof {
            assert forall|i: int, j: int| 0 <= i < j < self.queries@.len() implies (
            #[trigger] self.queries@[i].query_id@) != (#[trigger] self.queries@[j].query_id@) by {
                assert(self.queries@[i] == pre[i]);
                if j < pre.len() {
                    assert(self.queries@[j] == pre[j]);
                }
            }
        }
        Ok(())
    }

    /// All queries as (id, status) pairs.
    pub fn list_queries(&self) -> (r: Vec<(String, QueryStatus)>)
        ensures
            r@.len() == self.queries@.len(),
            forall|k: int| 0 <= k < r@.len() ==> (#[trigger] r@[k]).0@
                == self.queries@[k].query_id@ && r@[k].1 == self.queries@[k].status,
    {
        let mut out: Vec<(String, QueryStatus)> = Vec::new();
        let mut i: usize = 0;
        while i < self.queries.len()
            invariant
                i <= self.queries@.len(),
                out@.len() == i,
                forall|k: int| 0 <= k < i ==> (#[trigger] out@[k]).0@
                    == self.queries@[k].query_id@ && out@[k].1 == self.queries@[k].status,
            decreases self.queries@.len() - i,
        {
            let q: &QueryState = &self.queries[i];
            out.push((q.query_id.clone(), q.status));
            i = i + 1;
        }
        out
    }

    /// The status of a query, if it exists.
    pub fn get_status(&self, query_id: &str) -> (r: Option<QueryStatus>)
        ensures
            match r {
                Some(s) => (spec_find_query(self.queries@, query_id@) matches Some(q) && q.status
                    == s),
                None => spec_find_query(self.queries@, query_id@) is None,
            },
    {
        match self.find_query_index(query_id) {
            Some(i) => Some(self.queries[i].status),
            None => None,
        }
    }

    /// A full query description, if the query exists.
    pub fn get_query(&self, query_id: &str) -> (r: Option<Query>)
        ensures
            match r {
                Some(q) => (spec_find_query(self.queries@, query_id@) matches Some(st) && {
                    &&& q.query_id@ == st.query_id@
                    &&& q.status == st.status
                    &&& q.is_result_available == (st.result is Some)
                    &&& spec_def_matches(q.query_definition, st.definition)
                }),
                None => spec_find_query(self.queries@, query_id@) is None,
            },
    {
        match self.find_query_index(query_id) {
            Some(i) => {
                let st: &QueryState = &self.queries[i];
                Some(
                    Query {
                        query_id: st.query_id.clone(),
                        status: st.status,
                        is_result_available: st.result.is_some(),
                        query_definition: clone_definition(&st.definition),
                    },
                )
            },
            None => None,
        }
    }

    fn advance(&mut self, query_id: &str, to: QueryStatus) -> (r: bool)
        requires
            old(self).well_formed(),
        ensures
            final(self).well_formed(),
            r <==> (spec_find_query(old(self).queries@, query_id@) matches Some(q)
                && spec_status_step(q.status, to)),
            r ==> (spec_find_query(old(self).queries@, query_id@) matches Some(q)
                && spec_find_query(final(self).queries@, query_id@) == Some(
                QueryState { status: to, ..q },
            )),
            forall|other: Seq<char>| other != query_id@ ==> spec_find_query(
                final(self).queries@,
                other,
            ) == spec_find_query(old(self).queries@, other),
            !r ==> final(self).queries@ == old(self).queries@,
    {
        match self.find_query_index(query_id) {
            Some(i) => {
                let current: QueryStatus = self.queries[i].status;
                let allowed: bool = match (current, to) {
                    (QueryStatus::Created, QueryStatus::Planning) => true,
                    (QueryStatus::Planning, QueryStatus::Running) => true,
                    (QueryStatus::Planning, QueryStatus::Failed) => true,
                    (QueryStatus::Running, QueryStatus::Completed) => true,
                    (QueryStatus::Running, QueryStatus::Failed) => true,
                    _ => false,
                };
                proof {
                    assert(allowed == spec_status_step(current, to));
                }
                if !allowed {
                    return false;
                }
                let ghost pre = self.queries@;
                self.queries[i].status = to;
                proof {
                    assert(self.queries@[i as int] == QueryState { status: to, ..pre[i as int] });
                    lemma_find_query_update(pre, self.queries@, i as int);
                    assert forall|p: int, q: int| 0 <= p < q < self.queries@.len() implies (
                    #[trigger] self.queries@[p].query_id@) != (
                    #[trigger] self.queries@[q].query_id@) by {
                        assert(self.queries@[p].query_id@ == pre[p].query_id@);
                        assert(self.queries@[q].query_id@ == pre[q].query_id@);
                    }
                }
                true
            },
            None => false,
        }
    }

    /// Move a created query into planning.  Succeeds exactly when the record
    /// exists in state Created, and then writes status Planning, changing
    /// nothing else.
    pub fn mark_planning(&mut self, query_id: &str) -> (r: bool)
        requires
            old(self).well_formed(),
        ensures
            final(self).well_formed(),
            r <==> (spec_find_query(old(self).queries@, query_id@) matches Some(q) && q.status
                == QueryStatus::Created),
            r ==> (spec_find_query(old(self).queries@, query_id@) matches Some(q)
                && spec_find_query(final(self).queries@, query_id@) == Some(
                QueryState { status: QueryStatus::Planning, ..q },
            )),
            forall|other: Seq<char>| other != query_id@ ==> spec_find_query(
                final(self).queries@,
                other,
            ) == spec_find_query(old(self).queries@, other),
            !r ==> final(self).queries@ == old(self).queries@,
    {
        self.advance(query_id, QueryStatus::Planning)
    }

    /// Move a planning query into execution.  Succeeds exactly when the
    /// record exists in state Planning, and then writes status Running,
    /// changing nothing else.
    pub fn mark_running(&mut self, query_id: &str) -> (r: bool)
        requires
            old(self).well_formed(),
        ensures
            final(self).well_formed(),
            r <==> (spec_find_query(old(self).queries@, query_id@) matches Some(q) && q.status
                == QueryStatus::Planning),
            r ==> (spec_find_query(old(self).queries@, query_id@) matches Some(q)
                && spec_find_query(final(self).queries@, query_id@) == Some(
                QueryState { status: QueryStatus::Running, ..q },
            )),
            forall|other: Seq<char>| other != query_id@ ==> spec_find_query(
                final(self).queries@,
                other,
            ) == spec_find_query(old(self).queries@, other),
            !r ==> final(self).queries@ == old(self).queries@,
    {
        self.advance(query_id, QueryStatus::Running)
    }

    /// Complete a running query, storing its result.  Succeeds exactly when
    /// the record exists in state Running, and then writes status Completed
    /// and the result, changing nothing else.
    pub fn complete(&mut self, query_id: &str, result: Option<QueryResult>) -> (r: bool)
        requires
            old(self).well_formed(),
        ensures
            final(self).well_formed(),
            r <==> (spec_find_query(old(self).queries@, query_id@) matches Some(q) && q.status
                == QueryStatus::Running),
            r ==> (spec_find_query(old(self).queries@, query_id@) matches Some(q)
                && spec_find_query(final(self).queries@, query_id@) == Some(
                QueryState { status: QueryStatus::Completed, result, ..q },
            )),
            forall|other: Seq<char>| other != query_id@ ==> spec_find_query(
                final(self).queries@,
                other,
            ) == spec_find_query(old(self).queries@, other),
            !r ==> final(self).queries@ == old(self).queries@,
    {
        match self.find_query_index(query_id) {
            Some(i) => {
                let current: QueryStatus = self.queries[i].status;
                let allowed: bool = match current {
                    QueryStatus::Running => true,
                    _ => false,
                };
                if !allowed {
                    return false;
                }
                let ghost pre = self.queries@;
                self.queries[i].status = QueryStatus::Completed;
                self.queries[i].result = result;
                proof {
                    assert(self.queries@[i as int] == QueryState {
                        status: QueryStatus::Completed,
                        result,
                        ..pre[i as int]
                    });
                    lemma_find_query_update(pre, self.queries@, i as int);
                    assert forall|p: int, q: int| 0 <= p < q < self.queries@.len() implies (
                    #[trigger] self.queries@[p].query_id@) != (
                    #[trigger] self.queries@[q].query_id@) by {
                        assert(self.queries@[p].query_id@ == pre[p].query_id@);
                        assert(self.queries@[q].query_id@ == pre[q].query_id@);
                    }
                }
                true
            },
            None => false,
        }
    }

    /// Fail a planning or running query, storing its problems.  Succeeds
    /// exactly when the record exists in state Planning or Running, and then
    /// writes status Failed and the problem list, changing nothing else.
    pub fn fail(&mut self, query_id: &str, errors: Vec<String>) -> (r: bool)
        requires
            old(self).well_formed(),
        ensures
            final(self).well_formed(),
            r <==> (spec_find_query(old(self).queries@, query_id@) matches Some(q) && (q.status
                == QueryStatus::Planning || q.status == QueryStatus::Running)),
            r ==> (spec_find_query(old(self).queries@, query_id@) matches Some(q)
                && spec_find_query(final(self).queries@, query_id@) == Some(
                QueryState { status: QueryStatus::Failed, error: Some(errors), ..q },
            )),
            forall|other: Seq<char>| other != query_id@ ==> spec_find_query(
                final(self).queries@,
                other,
            ) == spec_find_query(old(self).queries@, other),
            !r ==> final(self).queries@ == old(self).queries@,
    {
        match self.find_query_index(query_id) {
            Some(i) => {
                let current: QueryStatus = self.queries[i].status;
                let allowed: bool = match current {
                    QueryStatus::Planning => true,
                    QueryStatus::Running => true,
                    _ => false,
                };
                if !allowed {
                    return false;
                }
                let ghost pre = self.queries@;
                self.queries[i].status = QueryStatus::Failed;
                self.queries[i].error = Some(errors);
                proof {
                    assert(self.queries@[i as int] == QueryState {
                        status: QueryStatus::Failed,
                        error: Some(errors),
                        ..pre[i as int]
                    });
                    lemma_find_query_update(pre, self.queries@, i as int);
                    assert forall|p: int, q: int| 0 <= p < q < self.queries@.len() implies (
                    #[trigger] self.queries@[p].query_id@) != (
                    #[trigger] self.queries@[q].query_id@) by {
                        assert(self.queries@[p].query_id@ == pre[p].query_id@);
                        assert(self.queries@[q].query_id@ == pre[q].query_id@);
                    }
                }
                true
            },
            None => false,
        }
    }

    /// The stored problems of a failed query.
    pub fn get_error(&self, query_id: &str) -> (r: Result<Option<Vec<String>>, DbError>)
        ensures
            match spec_find_query(self.queries@, query_id@) {
                None => (r matches Err(e) && e.kind == ErrorKind::NotFound),
                Some(q) => {
                    if q.status != QueryStatus::Failed {
                        r matches Err(e) && e.kind == ErrorKind::Precondition
                    } else {
                        r matches Ok(o) && (match (o, q.error) {
                            (Some(a), Some(b)) => a@.map_values(|s: String| s@)
                                == b@.map_values(|s: String| s@),
                            (None, None) => true,
                            _ => false,
                        })
                    }
                },
            },
    {
        match self.find_query_index(query_id) {
            None => Err(DbError::of(ErrorKind::NotFound, "query not found")),
            Some(i) => {
                let q: &QueryState = &self.queries[i];
                let failed: bool = match q.status {
                    QueryStatus::Failed => true,
                    _ => false,
                };
                if !failed {
                    return Err(
                        DbError::of(
                            ErrorKind::Precondition,
                            "query error is only available for failed queries",
                        ),
                    );
                }
                match &q.error {
                    Some(errors) => Ok(Some(crate::metastore::clone_string_list(errors))),
                    None => Ok(None),
                }
            },
        }
    }

    /// Drop the stored result of a query; the record itself remains, with
    /// its status, definition and problems untouched.
    pub fn clear_result(&mut self, query_id: &str) -> (r: Result<(), DbError>)
        requires
            old(self).well_formed(),
        ensures
            final(self).well_formed(),
            r is Ok <==> spec_find_query(old(self).queries@, query_id@) is Some,
            r matches Err(e) ==> e.kind == ErrorKind::NotFound && final(self).queries@ == old(
                self,
            ).queries@,
            r is Ok ==> (spec_find_query(old(self).queries@, query_id@) matches Some(q)
                && spec_find_query(final(self).queries@, query_id@) == Some(
                QueryState { result: None, ..q },
            )),
            forall|other: Seq<char>| other != query_id@ ==> spec_find_query(
                final(self).queries@,
                other,
            ) == spec_find_query(old(self).queries@, other),
    {
        match self.find_query_index(query_id) {
            None => Err(DbError::of(ErrorKind::NotFound, "query not found")),
            Some(i) => {
                let ghost pre = self.queries@;
                self.queries[i].result = None;
                proof {
                    assert(self.queries@[i as int] == QueryState {
                        result: None,
                        ..pre[i as int]
                    });
                    lemma_find_query_update(pre, self.queries@, i as int);
                    assert forall|p: int, q: int| 0 <= p < q < self.queries@.len() implies (
                    #[trigger] self.queries@[p].query_id@) != (
                    #[trigger] self.queries@[q].query_id@) by {
                        assert(self.queries@[p].query_id@ == pre[p].query_id@);
                        assert(self.queries@[q].query_id@ == pre[q].query_id@);
                    }
                }
                Ok(())
            },
        }
    }
}

proof fn lemma_find_query_none_all(qs: Seq<QueryState>, id: Seq<char>)
    requires
        spec_find_query(qs, id) is None,
    ensures
        forall|k: int| 0 <= k < qs.len() ==> (#[trigger] qs[k].query_id@) != id,
    decreases qs.len(),
{
    if qs.len() > 0 {
        lemma_find_query_none_all(qs.drop_first(), id);
        assert forall|k: int| 0 <= k < qs.len() implies (#[trigger] qs[k].query_id@) != id by {
            if k > 0 {
                assert(qs.drop_first()[k - 1] == qs[k]);
            }
        }
    }
}

/// Replacing record `i` without changing its id changes exactly that id's
/// record.
proof fn lemma_find_query_update(pre: Seq<QueryState>, post: Seq<QueryState>, i: int)
    requires
        0 <= i < pre.len(),
        post.len() == pre.len(),
        forall|k: int| 0 <= k < pre.len() && k != i ==> post[k] == pre[k],
        post[i].query_id@ == pre[i].query_id@,
        forall|p: int, q: int|
            0 <= p < q < pre.len() ==> (#[trigger] pre[p].query_id@) != (
            #[trigger] pre[q].query_id@),
    ensures
        spec_find_query(post, pre[i].query_id@) == Some(post[i]),
        forall|other: Seq<char>| other != pre[i].query_id@ ==> spec_find_query(post, other)
            == spec_find_query(pre, other),
    decreases pre.len(),
{
    if i == 0 {
        assert forall|other: Seq<char>| other != pre[0].query_id@ implies spec_find_query(
            post,
            other,
        ) == spec_find_query(pre, other) by {
            assert(post.drop_first() =~= pre.drop_first());
        }
    } else {
        assert(pre.drop_first()[i - 1] == pre[i]);
        assert forall|k: int| 0 <= k < pre.drop_first().len() && k != i - 1
            implies #[trigger] post.drop_first()[k] == pre.drop_first()[k] by {
            assert(post.drop_first()[k] == post[k + 1]);
        }
        assert forall|p: int, q: int| 0 <= p < q < pre.drop_first().len() implies (
        #[trigger] pre.drop_first()[p].query_id@) != (
        #[trigger] pre.drop_first()[q].query_id@) by {
            assert(pre.drop_first()[p] == pre[p + 1]);
            assert(pre.drop_first()[q] == pre[q + 1]);
        }
        assert(post.drop_first()[i - 1] == post[i]);
        lemma_find_query_update(pre.drop_first(), post.drop_first(), i - 1);
        assert(pre[0].query_id@ != pre[i].query_id@);
        assert(post[0] == pre[0]);
        assert forall|other: Seq<char>| other != pre[i].query_id@ implies spec_find_query(
            post,
            other,
        ) == spec_find_query(pre, other) by {
            if other != pre[0].query_id@ {
                assert(spec_find_query(post.drop_first(), other) == spec_find_query(
                    pre.drop_first(),
                    other,
                ));
            }
        }
    }
}

proof fn lemma_find_query_unique(qs: Seq<QueryState>, id: Seq<char>, i: int)
    requires
        0 <= i < qs.len(),
        qs[i].query_id@ == id,
        forall|p: int, q: int|
            0 <= p < q < qs.len() ==> (#[trigger] qs[p].query_id@) != (
            #[trigger] qs[q].query_id@),
    ensures
        spec_find_query(qs, id) == Some(qs[i]),
    decreases qs.len(),
{
    if i > 0 {
        assert(qs.drop_first()[i - 1] == qs[i]);
        assert forall|p: int, q: int| 0 <= p < q < qs.drop_first().len() implies (
        #[trigger] qs.drop_first()[p].query_id@) != (#[trigger] qs.drop_first()[q].query_id@) by {
            assert(qs.drop_first()[p] == qs[p + 1]);
            assert(qs.drop_first()[q] == qs[q + 1]);
        }
        lemma_find_query_unique(qs.drop_first(), id, i - 1);
    }
}

/// Field-wise equality of two query definitions.
pub open spec fn spec_def_matches(a: QueryDefinition, b: QueryDefinition) -> bool {
    match (a, b) {
        (QueryDefinition::Copy(x), QueryDefinition::Copy(y)) => {
            &&& x.source_filepath@ == y.source_filepath@
            &&& x.destination_table_name@ == y.destination_table_name@
            &&& x.does_csv_contain_header == y.does_csv_contain_header
            &&& (match (x.destination_columns, y.destination_columns) {
                (Some(xs), Some(ys)) => xs@.map_values(|s: String| s@) == ys@.map_values(
                    |s: String| s@,
                ),
                (None, None) => true,
                _ => false,
            })
        },
        (QueryDefinition::Select(x), QueryDefinition::Select(y)) => x.table_name@
            == y.table_name@,
        _ => false,
    }
}

/// Copy a query definition, field by field.
pub fn clone_definition(d: &QueryDefinition) -> (r: QueryDefinition)
    ensures
        spec_def_matches(r, *d),
{
    match d {
        QueryDefinition::Copy(c) => {
            let destination_columns: Option<Vec<String>> = match &c.destination_columns {
                Some(v) => Some(crate::metastore::clone_string_list(v)),
                None => None,
            };
            QueryDefinition::Copy(
                CopyQuery {
                    source_filepath: c.source_filepath.clone(),
                    destination_table_name: c.destination_table_name.clone(),
                    destination_columns,
                    does_csv_contain_header: c.does_csv_contain_header,
                },
            )
        },
        QueryDefinition::Select(s) => {
            QueryDefinition::Select(SelectQuery { table_name: s.table_name.clone() })
        },
    }
}

/// Validate a query definition before submission: the referenced table must
/// be visible, and a COPY source file must exist (the caller reports whether
/// it does).
pub fn validate_query(metastore: &Metastore, definition: &QueryDefinition, source_exists: bool)
    -> (r: Result<(), DbError>)
    ensures
        r is Ok <==> (match definition {
            QueryDefinition::Copy(c) => crate::metastore::spec_has_table_name(
                metastore.data.tables@,
                c.destination_table_name@,
            ) && source_exists,
            QueryDefinition::Select(s) => crate::metastore::spec_has_table_name(
                metastore.data.tables@,
                s.table_name@,
            ),
        }),
        r matches Err(e) ==> e.kind == ErrorKind::NotFound,
{
    match definition {
        QueryDefinition::Copy(c) => {
            if !metastore.table_exists(c.destination_table_name.as_str()) {
                return Err(DbError::of(ErrorKind::NotFound, "destination table does not exist"));
            }
            if !source_exists {
                return Err(DbError::of(ErrorKind::NotFound, "source file does not exist"));
            }
            Ok(())
        },
        QueryDefinition::Select(s) => {
            if !metastore.table_exists(s.table_name.as_str()) {
                return Err(DbError::of(ErrorKind::NotFound, "table does not exist"));
            }
            Ok(())
        },
    }
}

pub open spec fn spec_find_schema_col(cols: Seq<ColumnMetadata>, name: Seq<char>) -> Option<
    ColumnMetadata,
>
    decreases cols.len(),
{
    if cols.len() == 0 {
        None
    } else if cols[0].name@ == name {
        Some(cols[0])
    } else {
        spec_find_schema_col(cols.drop_first(), name)
    }
}

fn find_schema_col(cols: &Vec<ColumnMetadata>, name: &String) -> (r: Option<ColumnMetadata>)
    ensures
        match r {
            Some(c) => (spec_find_schema_col(cols@, name@) matches Some(f) && c.name@ == f.name@
                && c.column_type == f.column_type),
            None => spec_find_schema_col(cols@, name@) is None,
        },
{
    let mut i: usize = 0;
    proof {
        assert(cols@.skip(0) =~= cols@);
    }
    while i < cols.len()
        invariant
            i <= cols@.len(),
            spec_find_schema_col(cols@, name@) == spec_find_schema_col(
                cols@.skip(i as int),
                name@,
            ),
        decreases cols@.len() - i,
    {
        proof {
            assert(cols@.skip(i as int)[0] == cols@[i as int]);
            assert(cols@.skip(i as int).drop_first() =~= cols@.skip(i + 1));
        }
        if cols[i].name.eq(name) {
            let c: &ColumnMetadata = &cols[i];
            return Some(ColumnMetadata { name: c.name.clone(), column_type: c.column_type });
        }
        i = i + 1;
    }
    proof {
        assert(cols@.skip(cols@.len() as int) =~= Seq::<ColumnMetadata>::empty());
    }
    None
}

/// Plan a COPY query: resolve the projected column list against the schema,
/// in target order.  With no explicit column list, all schema columns are
/// used in order.
pub fn plan_copy(table_meta: TableMetadata, query: &CopyQuery) -> (r: Result<CopyPlan, DbError>)
    ensures
        r matches Err(e) ==> e.kind == ErrorKind::NotFound && (
        query.destination_columns matches Some(ds) && exists|k: int|
            0 <= k < ds@.len() && spec_find_schema_col(
                table_meta.columns@,
                (#[trigger] ds@[k])@,
            ) is None),
        r matches Ok(p) ==> {
            &&& p.source_filepath@ == query.source_filepath@
            &&& p.has_header == query.does_csv_contain_header
            &&& (match query.destination_columns {
                Some(ds) => p.target_columns@.len() == ds@.len() && forall|k: int|
                    0 <= k < ds@.len() ==> (spec_find_schema_col(table_meta.columns@, ds@[k]@)
                        matches Some(f) && (#[trigger] p.target_columns@[k]).name@ == f.name@
                        && p.target_columns@[k].column_type == f.column_type),
                None => p.target_columns@.len() == table_meta.columns@.len() && forall|k: int|
                    0 <= k < table_meta.columns@.len() ==> (
                    #[trigger] p.target_columns@[k]).name@ == table_meta.columns@[k].name@
                        && p.target_columns@[k].column_type
                        == table_meta.columns@[k].column_type,
            })
        },
{
    let mut target_columns: Vec<ColumnMetadata> = Vec::new();
    match &query.destination_columns {
        Some(ds) => {
            let mut i: usize = 0;
            while i < ds.len()
                invariant
                    i <= ds@.len(),
                    query.destination_columns == Some(*ds),
                    target_columns@.len() == i,
                    forall|k: int| 0 <= k < i ==> (spec_find_schema_col(
                        table_meta.columns@,
                        ds@[k]@,
                    ) matches Some(f) && (#[trigger] target_columns@[k]).name@ == f.name@
                        && target_columns@[k].column_type == f.column_type),
                decreases ds@.len() - i,
            {
                match find_schema_col(&table_meta.columns, &ds[i]) {
                    Some(c) => {
                        target_columns.push(c);
                    },
                    None => {
                        proof {
                            let dsv = query.destination_columns.unwrap();
                            assert(spec_find_schema_col(table_meta.columns@, (dsv@[
                                i as int
                            ])@) is None);
                        }
                        return Err(DbError::of(ErrorKind::NotFound, "column not found in table"));
                    },
                }
                i = i + 1;
            }
        },
        None => {
            let mut i: usize = 0;
            while i < table_meta.columns.len()
                invariant
                    i <= table_meta.columns@.len(),
                    target_columns@.len() == i,
                    forall|k: int| 0 <= k < i ==> (#[trigger] target_columns@[k]).name@
                        == table_meta.columns@[k].name@ && target_columns@[k].column_type
                        == table_meta.columns@[k].column_type,
                decreases table_meta.columns@.len() - i,
            {
                let c: &ColumnMetadata = &table_meta.columns[i];
                target_columns.push(
                    ColumnMetadata { name: c.name.clone(), column_type: c.column_type },
                );
                i = i + 1;
            }
        },
    }
    let source_filepath: String = query.source_filepath.clone();
    let has_header: bool = query.does_csv_contain_header;
    Ok(CopyPlan { table_meta, target_columns, source_filepath, has_header })
}

/// The data files kept by planning: those whose existence flag is set, in
/// list order.
pub open spec fn spec_kept_files(files: Seq<String>, flags: Seq<bool>) -> Seq<Seq<char>>
    decreases files.len(),
{
    if files.len() == 0 || flags.len() == 0 {
        Seq::empty()
    } else if flags[0] {
        seq![files[0]@] + spec_kept_files(files.drop_first(), flags.drop_first())
    } else {
        spec_kept_files(files.drop_first(), flags.drop_first())
    }
}

/// Plan a SELECT query: snapshot the table's data files, keeping only those
/// that exist on disk at planning time (per the caller's flags) and skipping
/// missing ones silently.
pub fn plan_select(table_meta: TableMetadata, exists_flags: &Vec<bool>) -> (r: SelectPlan)
    requires
        exists_flags@.len() == table_meta.data_files@.len(),
    ensures
        r.table_meta == table_meta,
        r.data_files@.map_values(|s: String| s@) == spec_kept_files(
            table_meta.data_files@,
            exists_flags@,
        ),
{
    let mut kept: Vec<String> = Vec::new();
    let mut i: usize = 0;
    proof {
        assert(table_meta.data_files@.skip(0) =~= table_meta.data_files@);
        assert(exists_flags@.skip(0) =~= exists_flags@);
        assert(kept@.map_values(|s: String| s@) + spec_kept_files(
            table_meta.data_files@,
            exists_flags@,
        ) =~= spec_kept_files(table_meta.data_files@, exists_flags@));
    }
    while i < table_meta.data_files.len()
        invariant
            i <= table_meta.data_files@.len(),
            exists_flags@.len() == table_meta.data_files@.len(),
            kept@.map_values(|s: String| s@) + spec_kept_files(
                table_meta.data_files@.skip(i as int),
                exists_flags@.skip(i as int),
            ) == spec_kept_files(table_meta.data_files@, exists_flags@),
        decreases table_meta.data_files@.len() - i,
    {
        let ghost fs = table_meta.data_files@.skip(i as int);
        let ghost gs = exists_flags@.skip(i as int);
        proof {
            assert(fs[0] == table_meta.data_files@[i as int]);
            assert(gs[0] == exists_flags@[i as int]);
            assert(fs.drop_first() =~= table_meta.data_files@.skip(i + 1));
            assert(gs.drop_first() =~= exists_flags@.skip(i + 1));
        }
        if exists_flags[i] {
            let ghost pre = kept@;
            kept.push(table_meta.data_files[i].clone());
            proof {
                assert(kept@.map_values(|s: String| s@) =~= pre.map_values(|s: String| s@)
                    + seq![table_meta.data_files@[i as int]@]);
                assert(pre.map_values(|s: String| s@) + (seq![table_meta.data_files@[i as int]@]
                    + spec_kept_files(
                    table_meta.data_files@.skip(i + 1),
                    exists_flags@.skip(i + 1),
                )) =~= kept@.map_values(|s: String| s@) + spec_kept_files(
                    table_meta.data_files@.skip(i + 1),
                    exists_flags@.skip(i + 1),
                ));
            }
        }
        i = i + 1;
    }
    proof {
        assert(table_meta.data_files@.skip(table_meta.data_files@.len() as int) =~= Seq::<
            String,
        >::empty());
        assert(kept@.map_values(|s: String| s@) + Seq::<Seq<char>>::empty() =~= kept@.map_values(
            |s: String| s@,
        ));
    }
    SelectPlan { table_meta, data_files: kept }
}

} // verus!

verus! {

// ------------------------------------------------------------------
// CSV ingest
// ------------------------------------------------------------------

/// A record supplies enough fields (extra fields are ignored) and every
/// INT64 field parses as a signed decimal integer after trimming.
pub open spec fn spec_record_ok(rec: Seq<String>, cols: Seq<ColumnMetadata>) -> bool {
    &&& rec.len() >= cols.len()
    &&& forall|ci: int|
        0 <= ci < cols.len() && cols[ci].column_type == ColumnType::Int64
            ==> spec_parse_i64_field((#[trigger] rec[ci])@) is Some
}

pub open spec fn spec_records_ok(recs: Seq<Vec<String>>, cols: Seq<ColumnMetadata>) -> bool {
    forall|ri: int| 0 <= ri < recs.len() ==> spec_record_ok((#[trigger] recs[ri])@, cols)
}

/// The values of one built column agree with the records, cell by cell.
pub open spec fn spec_col_values_ok(c: ColumnData, recs: Seq<Vec<String>>, ci: int) -> bool {
    match c {
        ColumnData::Int64(v) => v@.len() == recs.len() && forall|ri: int|
            0 <= ri < recs.len() ==> #[trigger] v@[ri] == spec_parse_i64_field(
                recs[ri]@[ci]@,
            ).unwrap(),
        ColumnData::Varchar(v) => v@.len() == recs.len() && forall|ri: int|
            0 <= ri < recs.len() ==> (#[trigger] v@[ri])@ == recs[ri]@[ci]@,
    }
}

pub open spec fn spec_all_ws(s: Seq<char>) -> bool {
    forall|i: int| 0 <= i < s.len() ==> crate::text::spec_is_ascii_ws(#[trigger] s[i])
}

/// The reported row number: records count from one, plus one more when a
/// header row was skipped, saturating at the integer limit.
pub open spec fn spec_row_number(ri: int, has_header: bool) -> u64 {
    let off: int = if has_header {
        2
    } else {
        1
    };
    if ri + off > u64::MAX {
        u64::MAX
    } else {
        (ri + off) as u64
    }
}

/// Index of the first record the ingest rejects.
pub open spec fn spec_first_bad_row(recs: Seq<Vec<String>>, cols: Seq<ColumnMetadata>) -> int
    decreases recs.len(),
{
    if recs.len() == 0 {
        0
    } else if !spec_record_ok(recs[0]@, cols) {
        0
    } else {
        1 + spec_first_bad_row(recs.drop_first(), cols)
    }
}

/// Index of the first offending INT64 cell within a record.
pub open spec fn spec_first_bad_col(rec: Seq<String>, cols: Seq<ColumnMetadata>) -> int
    decreases cols.len(),
{
    if cols.len() == 0 || rec.len() == 0 {
        0
    } else if cols[0].column_type == ColumnType::Int64 && spec_parse_i64_field(
        rec[0]@,
    ) is None {
        0
    } else {
        1 + spec_first_bad_col(rec.drop_first(), cols.drop_first())
    }
}

pub open spec fn spec_short_row_msg(row: u64, expected: int, found: int) -> Seq<char> {
    "Row "@ + crate::text::spec_dec_str(row as int) + ": expected "@
        + crate::text::spec_dec_str(expected) + " columns, but found "@
        + crate::text::spec_dec_str(found) + " columns"@
}

pub open spec fn spec_empty_cell_msg(row: u64, col: Seq<char>) -> Seq<char> {
    "Row "@ + crate::text::spec_dec_str(row as int) + ", column '"@ + col
        + "': empty value cannot be parsed as INT64"@
}

pub open spec fn spec_parse_fail_msg(row: u64, col: Seq<char>, value: Seq<char>) -> Seq<char> {
    "Row "@ + crate::text::spec_dec_str(row as int) + ", column '"@ + col
        + "': failed to parse '"@ + value + "' as INT64"@
}

/// The message the ingest reports: the first short record is named with its
/// field counts; otherwise the first unparsable INT64 cell of the first
/// offending record is named, distinguishing an all-whitespace cell.
pub open spec fn spec_ingest_error_message(
    recs: Seq<Vec<String>>,
    cols: Seq<ColumnMetadata>,
    has_header: bool,
) -> Seq<char> {
    let ri = spec_first_bad_row(recs, cols);
    let rec = recs[ri]@;
    let row = spec_row_number(ri, has_header);
    if rec.len() < cols.len() {
        spec_short_row_msg(row, cols.len() as int, rec.len() as int)
    } else {
        let ci = spec_first_bad_col(rec, cols);
        let field = rec[ci]@;
        if spec_all_ws(field) {
            spec_empty_cell_msg(row, cols[ci].name@)
        } else {
            spec_parse_fail_msg(row, cols[ci].name@, field)
        }
    }
}

proof fn lemma_first_bad_row_at(recs: Seq<Vec<String>>, cols: Seq<ColumnMetadata>, ri: int)
    requires
        0 <= ri < recs.len(),
        forall|k: int| 0 <= k < ri ==> spec_record_ok((#[trigger] recs[k])@, cols),
        !spec_record_ok(recs[ri]@, cols),
    ensures
        spec_first_bad_row(recs, cols) == ri,
    decreases ri,
{
    if ri > 0 {
        assert(spec_record_ok(recs[0]@, cols));
        assert forall|k: int| 0 <= k < ri - 1 implies spec_record_ok(
            (#[trigger] recs.drop_first()[k])@,
            cols,
        ) by {
            assert(recs.drop_first()[k] == recs[k + 1]);
        }
        assert(recs.drop_first()[ri - 1] == recs[ri]);
        lemma_first_bad_row_at(recs.drop_first(), cols, ri - 1);
    }
}

proof fn lemma_first_bad_col_at(rec: Seq<String>, cols: Seq<ColumnMetadata>, ci: int)
    requires
        0 <= ci < cols.len(),
        cols.len() <= rec.len(),
        forall|k: int|
            0 <= k < ci && cols[k].column_type == ColumnType::Int64 ==> spec_parse_i64_field(
                (#[trigger] rec[k])@,
            ) is Some,
        cols[ci].column_type == ColumnType::Int64,
        spec_parse_i64_field(rec[ci]@) is None,
    ensures
        spec_first_bad_col(rec, cols) == ci,
    decreases ci,
{
    if ci > 0 {
        assert forall|k: int|
            0 <= k < ci - 1 && cols.drop_first()[k].column_type == ColumnType::Int64
            implies spec_parse_i64_field((#[trigger] rec.drop_first()[k])@) is Some by {
            assert(rec.drop_first()[k] == rec[k + 1]);
            assert(cols.drop_first()[k] == cols[k + 1]);
        }
        assert(rec.drop_first()[ci - 1] == rec[ci]);
        assert(cols.drop_first()[ci - 1] == cols[ci]);
        lemma_first_bad_col_at(rec.drop_first(), cols.drop_first(), ci - 1);
    }
}

fn all_ascii_ws(s: &str) -> (r: bool)
    ensures
        r == (forall|i: int| 0 <= i < s@.len() ==> crate::text::spec_is_ascii_ws(
            #[trigger] s@[i],
        )),
{
    let n: usize = s.unicode_len();
    let mut i: usize = 0;
    while i < n
        invariant
            i <= n,
            n == s@.len(),
            forall|k: int| 0 <= k < i ==> crate::text::spec_is_ascii_ws(#[trigger] s@[k]),
        decreases n - i,
    {
        let c: char = s.get_char(i);
        if !(c == ' ' || c == '\t' || c == '\n' || c == '\r' || c == (0x0b as u8 as char) || c
            == (0x0c as u8 as char)) {
            return false;
        }
        i = i + 1;
    }
    true
}

fn empty_cell_message(row_num: u64, column: &String) -> (r: String)
    ensures
        r@ == spec_empty_cell_msg(row_num, column@),
{
    let mut m: String = String::from_str("Row ");
    m.append(u64_to_string(row_num).as_str());
    m.append(", column '");
    m.append(column.as_str());
    m.append("': empty value cannot be parsed as INT64");
    m
}

fn parse_failure_message(row_num: u64, column: &String, value: &String) -> (r: String)
    ensures
        r@ == spec_parse_fail_msg(row_num, column@, value@),
{
    let mut m: String = String::from_str("Row ");
    m.append(u64_to_string(row_num).as_str());
    m.append(", column '");
    m.append(column.as_str());
    m.append("': failed to parse '");
    m.append(value.as_str());
    m.append("' as INT64");
    m
}

fn short_row_message(row_num: u64, expected: u64, found: u64) -> (r: String)
    ensures
        r@ == spec_short_row_msg(row_num, expected as int, found as int),
{
    let mut m: String = String::from_str("Row ");
    m.append(u64_to_string(row_num).as_str());
    m.append(": expected ");
    m.append(u64_to_string(expected).as_str());
    m.append(" columns, but found ");
    m.append(u64_to_string(found).as_str());
    m.append(" columns");
    m
}

fn row_number(ri: usize, has_header: bool) -> (r: u64)
    ensures
        r == spec_row_number(ri as int, has_header),
{
    let offset: u64 = if has_header {
        2
    } else {
        1
    };
    if ri as u64 > u64::MAX - offset {
        u64::MAX
    } else {
        ri as u64 + offset
    }
}

/// Build typed column vectors from parsed CSV records, in target-column
/// order.  Succeeds exactly when every record has enough fields and every
/// INT64 cell parses; on the first offending cell the whole ingest fails
/// with a schema mismatch naming the row.
pub fn build_columns_from_records(
    records: &Vec<Vec<String>>,
    target_columns: &Vec<ColumnMetadata>,
    has_header: bool,
) -> (r: Result<Vec<ColumnData>, DbError>)
    ensures
        r is Ok <==> spec_records_ok(records@, target_columns@),
        r matches Ok(v) ==> v@.len() == target_columns@.len() && forall|ci: int|
            0 <= ci < target_columns@.len() ==> col_type(#[trigger] v@[ci])
                == target_columns@[ci].column_type && spec_col_values_ok(v@[ci], records@, ci),
        r matches Err(e) ==> e.kind == ErrorKind::SchemaMismatch && e.message@
            == spec_ingest_error_message(records@, target_columns@, has_header),
{
    let expected: usize = target_columns.len();
    // validation pass, row-major, so the earliest offending cell is named
    let mut ri: usize = 0;
    while ri < records.len()
        invariant
            ri <= records@.len(),
            expected == target_columns@.len(),
            forall|k: int| 0 <= k < ri ==> spec_record_ok(
                (#[trigger] records@[k])@,
                target_columns@,
            ),
        decreases records@.len() - ri,
    {
        let rec: &Vec<String> = &records[ri];
        if rec.len() < expected {
            proof {
                lemma_first_bad_row_at(records@, target_columns@, ri as int);
            }
            return Err(
                DbError::new(
                    ErrorKind::SchemaMismatch,
                    short_row_message(row_number(ri, has_header), expected as u64, rec.len() as u64),
                ),
            );
        }
        let mut ci: usize = 0;
        while ci < expected
            invariant
                ci <= expected,
                expected == target_columns@.len(),
                expected <= rec@.len(),
                rec == records@[ri as int],
                ri < records@.len(),
                forall|k: int| 0 <= k < ri ==> spec_record_ok(
                    (#[trigger] records@[k])@,
                    target_columns@,
                ),
                forall|k: int|
                    0 <= k < ci && target_columns@[k].column_type == ColumnType::Int64
                        ==> spec_parse_i64_field((#[trigger] rec@[k])@) is Some,
            decreases expected - ci,
        {
            let is_int: bool = match target_columns[ci].column_type {
                ColumnType::Int64 => true,
                ColumnType::Varchar => false,
            };
            if is_int {
                let field: &String = &rec[ci];
                match parse_i64_field(field.as_str()) {
                    Some(_v) => {},
                    None => {
                        proof {
                            assert(!spec_record_ok(records@[ri as int]@, target_columns@));
                            lemma_first_bad_row_at(records@, target_columns@, ri as int);
                            lemma_first_bad_col_at(rec@, target_columns@, ci as int);
                        }
                        let row_num: u64 = row_number(ri, has_header);
                        let message: String = if all_ascii_ws(field.as_str()) {
                            empty_cell_message(row_num, &target_columns[ci].name)
                        } else {
                            parse_failure_message(row_num, &target_columns[ci].name, field)
                        };
                        return Err(DbError::new(ErrorKind::SchemaMismatch, message));
                    },
                }
            }
            ci = ci + 1;
        }
        ri = ri + 1;
    }
    // construction pass, column-major
    let mut out: Vec<ColumnData> = Vec::new();
    let mut ci: usize = 0;
    while ci < expected
        invariant
            ci <= expected,
            expected == target_columns@.len(),
            spec_records_ok(records@, target_columns@),
            out@.len() == ci,
            forall|k: int| 0 <= k < ci ==> col_type(#[trigger] out@[k])
                == target_columns@[k].column_type && spec_col_values_ok(out@[k], records@, k),
        decreases expected - ci,
    {
        let is_int: bool = match target_columns[ci].column_type {
            ColumnType::Int64 => true,
            ColumnType::Varchar => false,
        };
        if is_int {
            let mut vals: Vec<i64> = Vec::new();
            let mut ri2: usize = 0;
            while ri2 < records.len()
                invariant
                    ri2 <= records@.len(),
                    ci < expected == target_columns@.len(),
                    target_columns@[ci as int].column_type == ColumnType::Int64,
                    spec_records_ok(records@, target_columns@),
                    vals@.len() == ri2,
                    forall|k: int| 0 <= k < ri2 ==> #[trigger] vals@[k] == spec_parse_i64_field(
                        records@[k]@[ci as int]@,
                    ).unwrap(),
                decreases records@.len() - ri2,
            {
                let rec: &Vec<String> = &records[ri2];
                proof {
                    assert(spec_record_ok(records@[ri2 as int]@, target_columns@));
                }
                match parse_i64_field(rec[ci].as_str()) {
                    Some(v) => {
                        vals.push(v);
                    },
                    None => {
                        proof {
                            assert(false);
                        }
                        return Err(DbError::of(ErrorKind::SchemaMismatch, "unparsable field"));
                    },
                }
                ri2 = ri2 + 1;
            }
            out.push(ColumnData::Int64(vals));
        } else {
            let mut vals: Vec<String> = Vec::new();
            let mut ri2: usize = 0;
            while ri2 < records.len()
                invariant
                    ri2 <= records@.len(),
                    ci < expected == target_columns@.len(),
                    spec_records_ok(records@, target_columns@),
                    vals@.len() == ri2,
                    forall|k: int| 0 <= k < ri2 ==> (#[trigger] vals@[k])@ == records@[k]@[
                        ci as int
                    ]@,
                decreases records@.len() - ri2,
            {
                let rec: &Vec<String> = &records[ri2];
                proof {
                    assert(spec_record_ok(records@[ri2 as int]@, target_columns@));
                }
                vals.push(rec[ci].clone());
                ri2 = ri2 + 1;
            }
            out.push(ColumnData::Varchar(vals));
        }
        ci = ci + 1;
    }
    Ok(out)
}

// ------------------------------------------------------------------
// SELECT merging
// ------------------------------------------------------------------

/// The int64 values of a named column across a list of tables, concatenated
/// in file order; a file without a matching int64 column contributes
/// nothing.
pub open spec fn spec_merged_ints(tables: Seq<Table>, name: Seq<char>) -> Seq<i64>
    decreases tables.len(),
{
    if tables.len() == 0 {
        Seq::empty()
    } else {
        (match spec_find_col(tables[0].columns@, name) {
            Some(ColumnData::Int64(v)) => v@,
            _ => Seq::empty(),
        }) + spec_merged_ints(tables.drop_first(), name)
    }
}

/// The varchar values of a named column across a list of tables.
pub open spec fn spec_merged_strs(tables: Seq<Table>, name: Seq<char>) -> Seq<Seq<char>>
    decreases tables.len(),
{
    if tables.len() == 0 {
        Seq::empty()
    } else {
        (match spec_find_col(tables[0].columns@, name) {
            Some(ColumnData::Varchar(v)) => crate::compression::strs_view(v@),
            _ => Seq::empty(),
        }) + spec_merged_strs(tables.drop_first(), name)
    }
}

pub open spec fn spec_rows_total(tables: Seq<Table>) -> int
    decreases tables.len(),
{
    if tables.len() == 0 {
        0
    } else {
        tables[0].row_count + spec_rows_total(tables.drop_first())
    }
}

proof fn lemma_rows_total_nonneg(tables: Seq<Table>)
    ensures
        spec_rows_total(tables) >= 0,
    decreases tables.len(),
{
    if tables.len() > 0 {
        lemma_rows_total_nonneg(tables.drop_first());
    }
}

/// Merge the decoded data files of a SELECT: one result column per schema
/// column, in schema order, each the concatenation of that column's values
/// across the files in list order; the row count is the sum of the files'
/// row counts.
pub fn merge_select_results(schema: &Vec<ColumnMetadata>, tables: &Vec<Table>) -> (r: Result<
    QueryResultItem,
    DbError,
>)
    ensures
        r matches Ok(item) ==> {
            &&& spec_rows_total(tables@) <= i32::MAX
            &&& item.row_count == spec_rows_total(tables@)
            &&& item.columns@.len() == schema@.len()
            &&& forall|ci: int| 0 <= ci < schema@.len() ==> (match schema@[ci].column_type {
                ColumnType::Int64 => (#[trigger] item.columns@[ci]) matches ResultColumn::Int64(
                    v,
                ) && v@ == spec_merged_ints(tables@, schema@[ci].name@),
                ColumnType::Varchar => (#[trigger] item.columns@[ci])
                    matches ResultColumn::Varchar(v) && crate::compression::strs_view(v@)
                    == spec_merged_strs(tables@, schema@[ci].name@),
            })
        },
        r matches Err(e) ==> e.kind == ErrorKind::Io && spec_rows_total(tables@) > i32::MAX,
{
    let mut total: u64 = 0;
    let mut ti: usize = 0;
    proof {
        assert(tables@.skip(0) =~= tables@);
    }
    while ti < tables.len()
        invariant
            ti <= tables@.len(),
            total + spec_rows_total(tables@.skip(ti as int)) == spec_rows_total(tables@),
        decreases tables@.len() - ti,
    {
        let ghost rest = tables@.skip(ti as int);
        proof {
            assert(rest[0] == tables@[ti as int]);
            assert(rest.drop_first() =~= tables@.skip(ti + 1));
            lemma_rows_total_nonneg(rest.drop_first());
        }
        match total.checked_add(tables[ti].row_count as u64) {
            Some(next) => {
                total = next;
            },
            None => {
                return Err(DbError::of(ErrorKind::Io, "result row count overflows"));
            },
        }
        ti = ti + 1;
    }
    proof {
        assert(tables@.skip(tables@.len() as int) =~= Seq::<Table>::empty());
    }
    if total > i32::MAX as u64 {
        return Err(DbError::of(ErrorKind::Io, "result row count exceeds the result type"));
    }
    let mut columns: Vec<ResultColumn> = Vec::new();
    let mut ci: usize = 0;
    while ci < schema.len()
        invariant
            ci <= schema@.len(),
            columns@.len() == ci,
            forall|k: int| 0 <= k < ci ==> (match schema@[k].column_type {
                ColumnType::Int64 => (#[trigger] columns@[k]) matches ResultColumn::Int64(v)
                    && v@ == spec_merged_ints(tables@, schema@[k].name@),
                ColumnType::Varchar => (#[trigger] columns@[k]) matches ResultColumn::Varchar(v)
                    && crate::compression::strs_view(v@) == spec_merged_strs(
                    tables@,
                    schema@[k].name@,
                ),
            }),
        decreases schema@.len() - ci,
    {
        let cname: &String = &schema[ci].name;
        let is_int: bool = match schema[ci].column_type {
            ColumnType::Int64 => true,
            ColumnType::Varchar => false,
        };
        if is_int {
            let mut acc: Vec<i64> = Vec::new();
            let mut ti2: usize = 0;
            proof {
                assert(tables@.skip(0) =~= tables@);
                assert(acc@ + spec_merged_ints(tables@, cname@) =~= spec_merged_ints(
                    tables@,
                    cname@,
                ));
            }
            while ti2 < tables.len()
                invariant
                    ti2 <= tables@.len(),
                    ci < schema@.len(),
                    cname == schema@[ci as int].name,
                    acc@ + spec_merged_ints(tables@.skip(ti2 as int), cname@)
                        == spec_merged_ints(tables@, cname@),
                decreases tables@.len() - ti2,
            {
                let ghost rest = tables@.skip(ti2 as int);
                proof {
                    assert(rest[0] == tables@[ti2 as int]);
                    assert(rest.drop_first() =~= tables@.skip(ti2 + 1));
                }
                match tables[ti2].get_column(cname.as_str()) {
                    Some(col) => {
                        match col {
                            ColumnData::Int64(v) => {
                                let ghost pre = acc@;
                                acc.extend_from_slice(v.as_slice());
                                proof {
                                    assert(acc@ =~= pre + v@);
                                    assert(pre + (v@ + spec_merged_ints(
                                        tables@.skip(ti2 + 1),
                                        cname@,
                                    )) =~= acc@ + spec_merged_ints(
                                        tables@.skip(ti2 + 1),
                                        cname@,
                                    ));
                                }
                            },
                            ColumnData::Varchar(_) => {
                                proof {
                                    assert(acc@ + (Seq::<i64>::empty() + spec_merged_ints(
                                        tables@.skip(ti2 + 1),
                                        cname@,
                                    )) =~= acc@ + spec_merged_ints(
                                        tables@.skip(ti2 + 1),
                                        cname@,
                                    ));
                                }
                            },
                        }
                    },
                    None => {
                        proof {
                            assert(acc@ + (Seq::<i64>::empty() + spec_merged_ints(
                                tables@.skip(ti2 + 1),
                                cname@,
                            )) =~= acc@ + spec_merged_ints(tables@.skip(ti2 + 1), cname@));
                        }
                    },
                }
                ti2 = ti2 + 1;
            }
            proof {
                assert(tables@.skip(tables@.len() as int) =~= Seq::<Table>::empty());
                assert(acc@ + Seq::<i64>::empty() =~= acc@);
            }
            columns.push(ResultColumn::Int64(acc));
        } else {
            let mut acc: Vec<String> = Vec::new();
            let mut ti2: usize = 0;
            proof {
                assert(tables@.skip(0) =~= tables@);
                assert(crate::compression::strs_view(acc@) + spec_merged_strs(tables@, cname@)
                    =~= spec_merged_strs(tables@, cname@));
            }
            while ti2 < tables.len()
                invariant
                    ti2 <= tables@.len(),
                    ci < schema@.len(),
                    cname == schema@[ci as int].name,
                    crate::compression::strs_view(acc@) + spec_merged_strs(
                        tables@.skip(ti2 as int),
                        cname@,
                    ) == spec_merged_strs(tables@, cname@),
                decreases tables@.len() - ti2,
            {
                let ghost rest = tables@.skip(ti2 as int);
                proof {
                    assert(rest[0] == tables@[ti2 as int]);
                    assert(rest.drop_first() =~= tables@.skip(ti2 + 1));
                }
                match tables[ti2].get_column(cname.as_str()) {
                    Some(col) => {
                        match col {
                            ColumnData::Varchar(v) => {
                                let ghost pre = acc@;
                                let mut copy: Vec<String> = crate::metastore::clone_string_list(
                                    v,
                                );
                                acc.append(&mut copy);
                                proof {
                                    assert(crate::compression::strs_view(acc@)
                                        =~= crate::compression::strs_view(pre)
                                        + crate::compression::strs_view(v@));
                                    assert(crate::compression::strs_view(pre) + (
                                    crate::compression::strs_view(v@) + spec_merged_strs(
                                        tables@.skip(ti2 + 1),
                                        cname@,
                                    )) =~= crate::compression::strs_view(acc@)
                                        + spec_merged_strs(tables@.skip(ti2 + 1), cname@));
                                }
                            },
                            ColumnData::Int64(_) => {
                                proof {
                                    assert(crate::compression::strs_view(acc@) + (Seq::<
                                        Seq<char>,
                                    >::empty() + spec_merged_strs(
                                        tables@.skip(ti2 + 1),
                                        cname@,
                                    )) =~= crate::compression::strs_view(acc@)
                                        + spec_merged_strs(tables@.skip(ti2 + 1), cname@));
                                }
                            },
                        }
                    },
                    None => {
                        proof {
                            assert(crate::compression::strs_view(acc@) + (Seq::<
                                Seq<char>,
                            >::empty() + spec_merged_strs(tables@.skip(ti2 + 1), cname@))
                                =~= crate::compression::strs_view(acc@) + spec_merged_strs(
                                tables@.skip(ti2 + 1),
                                cname@,
                            ));
                        }
                    },
                }
                ti2 = ti2 + 1;
            }
            proof {
                assert(tables@.skip(tables@.len() as int) =~= Seq::<Table>::empty());
                assert(crate::compression::strs_view(acc@) + Seq::<Seq<char>>::empty()
                    =~= crate::compression::strs_view(acc@));
            }
            columns.push(ResultColumn::Varchar(acc));
        }
        ci = ci + 1;
    }
    Ok(QueryResultItem { row_count: total as i32, columns })
}

} // verus!

verus! {

/// A result column equals a source column truncated to its first `n`
/// values (or all of them, if it has fewer).
pub open spec fn spec_col_limited(o: ResultColumn, s: ResultColumn, n: int) -> bool {
    match (o, s) {
        (ResultColumn::Int64(a), ResultColumn::Int64(b)) => a@ == b@.take(
            if n < b@.len() {
                n
            } else {
                b@.len() as int
            },
        ),
        (ResultColumn::Varchar(a), ResultColumn::Varchar(b)) => crate::compression::strs_view(a@)
            == crate::compression::strs_view(b@).take(
            if n < b@.len() {
                n
            } else {
                b@.len() as int
            },
        ),
        _ => false,
    }
}

/// A result column copied whole.
pub open spec fn spec_col_copy(o: ResultColumn, s: ResultColumn) -> bool {
    match (o, s) {
        (ResultColumn::Int64(a), ResultColumn::Int64(b)) => a@ == b@,
        (ResultColumn::Varchar(a), ResultColumn::Varchar(b)) => crate::compression::strs_view(a@)
            == crate::compression::strs_view(b@),
        _ => false,
    }
}

/// A result item under a row limit: when the limit is below the stored row
/// count, the row count becomes the limit and every column is truncated to
/// its first `limit` values; otherwise the item is returned whole.
pub open spec fn spec_item_limited(o: QueryResultItem, s: QueryResultItem, limit: int) -> bool {
    if limit < s.row_count {
        &&& o.row_count == limit
        &&& o.columns@.len() == s.columns@.len()
        &&& forall|k: int| 0 <= k < s.columns@.len() ==> spec_col_limited(
            #[trigger] o.columns@[k],
            s.columns@[k],
            limit,
        )
    } else {
        &&& o.row_count == s.row_count
        &&& o.columns@.len() == s.columns@.len()
        &&& forall|k: int| 0 <= k < s.columns@.len() ==> spec_col_copy(
            #[trigger] o.columns@[k],
            s.columns@[k],
        )
    }
}

fn take_prefix_column(col: &ResultColumn, n: usize) -> (r: ResultColumn)
    ensures
        spec_col_limited(r, *col, n as int),
{
    match col {
        ResultColumn::Int64(v) => {
            let end: usize = if n < v.len() {
                n
            } else {
                v.len()
            };
            let mut out: Vec<i64> = Vec::new();
            let mut i: usize = 0;
            while i < end
                invariant
                    i <= end <= v@.len(),
                    out@ =~= v@.take(i as int),
                decreases end - i,
            {
                out.push(v[i]);
                proof {
                    assert(out@ =~= v@.take(i + 1));
                }
                i = i + 1;
            }
            proof {
                assert(out@ =~= v@.take(end as int));
            }
            ResultColumn::Int64(out)
        },
        ResultColumn::Varchar(v) => {
            let end: usize = if n < v.len() {
                n
            } else {
                v.len()
            };
            let mut out: Vec<String> = Vec::new();
            let mut i: usize = 0;
            while i < end
                invariant
                    i <= end <= v@.len(),
                    out@.len() == i,
                    forall|k: int| 0 <= k < i ==> (#[trigger] out@[k])@ == v@[k]@,
                decreases end - i,
            {
                out.push(v[i].clone());
                i = i + 1;
            }
            proof {
                assert(crate::compression::strs_view(out@) =~= crate::compression::strs_view(
                    v@,
                ).take(end as int));
            }
            ResultColumn::Varchar(out)
        },
    }
}

fn limit_item(item: &QueryResultItem, row_limit: Option<i32>) -> (r: QueryResultItem)
    requires
        (row_limit matches Some(k) ==> k >= 0),
    ensures
        match row_limit {
            Some(k) => spec_item_limited(r, *item, k as int),
            None => spec_item_limited(r, *item, i32::MAX + 1),
        },
{
    let (limited, cap): (bool, usize) = match row_limit {
        Some(k) => {
            if k < item.row_count {
                (true, k as usize)
            } else {
                (false, 0)
            }
        },
        None => (false, 0),
    };
    let mut columns: Vec<ResultColumn> = Vec::new();
    let mut i: usize = 0;
    while i < item.columns.len()
        invariant
            i <= item.columns@.len(),
            columns@.len() == i,
            limited ==> forall|k: int| 0 <= k < i ==> spec_col_limited(
                #[trigger] columns@[k],
                item.columns@[k],
                cap as int,
            ),
            !limited ==> forall|k: int| 0 <= k < i ==> spec_col_copy(
                #[trigger] columns@[k],
                item.columns@[k],
            ),
        decreases item.columns@.len() - i,
    {
        if limited {
            columns.push(take_prefix_column(&item.columns[i], cap));
        } else {
            let col: &ResultColumn = &item.columns[i];
            let full: usize = match col {
                ResultColumn::Int64(v) => v.len(),
                ResultColumn::Varchar(v) => v.len(),
            };
            let copied: ResultColumn = take_prefix_column(col, full);
            proof {
                assert(spec_col_copy(copied, *col)) by {
                    match (copied, *col) {
                        (ResultColumn::Int64(a), ResultColumn::Int64(b)) => {
                            assert(b@.take(b@.len() as int) =~= b@);
                        },
                        (ResultColumn::Varchar(a), ResultColumn::Varchar(b)) => {
                            assert(crate::compression::strs_view(b@).take(b@.len() as int)
                                =~= crate::compression::strs_view(b@));
                        },
                        _ => {},
                    }
                }
            }
            columns.push(copied);
        }
        i = i + 1;
    }
    let row_count: i32 = if limited {
        match row_limit {
            Some(k) => k,
            None => item.row_count,
        }
    } else {
        item.row_count
    };
    QueryResultItem { row_count, columns }
}

impl QueryExecutor {
    /// The stored result of a completed query.  A row limit below the stored
    /// row count truncates every column to its first `limit` values and
    /// reports `limit` as the row count; a larger limit returns the result
    /// whole.
    pub fn get_result(&self, query_id: &str, row_limit: Option<i32>) -> (r: Result<
        Option<QueryResult>,
        DbError,
    >)
        ensures
            match spec_find_query(self.queries@, query_id@) {
                None => (r matches Err(e) && e.kind == ErrorKind::NotFound),
                Some(q) => {
                    if q.status != QueryStatus::Completed {
                        r matches Err(e) && e.kind == ErrorKind::Precondition
                    } else if (row_limit matches Some(k) && k < 0) {
                        r matches Err(e) && e.kind == ErrorKind::BadRequest
                    } else {
                        match q.result {
                            None => r matches Ok(o) && o is None,
                            Some(res) => r matches Ok(o) && (o matches Some(out) && out@.len()
                                == res@.len() && forall|j: int|
                                0 <= j < res@.len() ==> spec_item_limited(
                                    #[trigger] out@[j],
                                    res@[j],
                                    match row_limit {
                                        Some(k) => k as int,
                                        None => i32::MAX + 1,
                                    },
                                )),
                        }
                    }
                },
            },
    {
        let idx: usize = match self.find_query_index(query_id) {
            Some(i) => i,
            None => {
                return Err(DbError::of(ErrorKind::NotFound, "query not found"));
            },
        };
        let q: &QueryState = &self.queries[idx];
        let completed: bool = match q.status {
            QueryStatus::Completed => true,
            _ => false,
        };
        if !completed {
            return Err(DbError::of(ErrorKind::Precondition, "query has not completed yet"));
        }
        match row_limit {
            Some(k) => {
                if k < 0 {
                    return Err(DbError::of(ErrorKind::BadRequest, "invalid row limit"));
                }
            },
            None => {},
        }
        match &q.result {
            None => Ok(None),
            Some(res) => {
                let mut out: Vec<QueryResultItem> = Vec::new();
                let mut i: usize = 0;
                while i < res.len()
                    invariant
                        i <= res@.len(),
                        out@.len() == i,
                        (row_limit matches Some(k) ==> k >= 0),
                        forall|j: int| 0 <= j < i ==> spec_item_limited(
                            #[trigger] out@[j],
                            res@[j],
                            match row_limit {
                                Some(k) => k as int,
                                None => i32::MAX + 1,
                            },
                        ),
                    decreases res@.len() - i,
                {
                    out.push(limit_item(&res[i], row_limit));
                    i = i + 1;
                }
                Ok(Some(out))
            },
        }
    }
}

} // verus!
