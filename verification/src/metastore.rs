//! The metastore: a catalog mapping logical tables to sets of immutable data
//! files, with a reference-counted deferred-deletion protocol.
//!
//! The state lives in memory; reading and writing `metastore.json` and
//! unlinking files are the caller's work.  Every operation that may reclaim
//! disk space returns the file paths to remove, so that a file referenced by
//! a running query stays on disk until that query releases its access.

use crate::error::{DbError, ErrorKind};
use crate::table::ColumnType;
use vstd::prelude::*;

verus! {

/// Relies on uuid::Uuid::new_v4 and its Display form: a random v4 UUID
/// renders as 36 hyphenated ASCII characters.
#[verifier::external_body]
pub(crate) fn new_uuid_string() -> (r: String)
    ensures
        r@.len() == 36,
{
    uuid::Uuid::new_v4().to_string()
}

/// Relies on chrono::Utc::now: the current time, about which nothing can be
/// promised.
#[verifier::external_body]
fn utc_now_timestamp() -> (r: i64) {
    chrono::Utc::now().timestamp()
}

/// Metadata for a single column in a table.
#[derive(Clone, Debug)]
pub struct ColumnMetadata {
    pub name: String,
    pub column_type: ColumnType,
}

/// Metadata for a table in the catalog.
#[derive(Debug)]
pub struct TableMetadata {
    pub table_id: String,
    pub name: String,
    pub columns: Vec<ColumnMetadata>,
    /// Data files of this table, in append order.
    pub data_files: Vec<String>,
    /// Creation time as seconds since the Unix epoch.
    pub created_at: i64,
}

/// The mathematical content of a [`TableMetadata`].
pub struct TableMetadataV {
    pub table_id: Seq<char>,
    pub name: Seq<char>,
    pub columns: Seq<(Seq<char>, ColumnType)>,
    pub data_files: Seq<Seq<char>>,
    pub created_at: i64,
}

impl View for TableMetadata {
    type V = TableMetadataV;

    open spec fn view(&self) -> TableMetadataV {
        TableMetadataV {
            table_id: self.table_id@,
            name: self.name@,
            columns: self.columns@.map_values(|c: ColumnMetadata| (c.name@, c.column_type)),
            data_files: self.data_files@.map_values(|s: String| s@),
            created_at: self.created_at,
        }
    }
}

impl TableMetadata {
    /// Fresh table metadata with no data files.
    pub fn new(table_id: String, name: String, columns: Vec<ColumnMetadata>, created_at: i64)
        -> (r: TableMetadata)
        ensures
            r.table_id@ == table_id@,
            r.name@ == name@,
            r.columns@ == columns@,
            r.data_files@.len() == 0,
            r.created_at == created_at,
    {
        TableMetadata { table_id, name, columns, data_files: Vec::new(), created_at }
    }

    /// Append a data file path.
    pub fn add_data_file(&mut self, path: String)
        ensures
            final(self).data_files@ == old(self).data_files@.push(path),
            final(self).table_id == old(self).table_id,
            final(self).name == old(self).name,
            final(self).columns == old(self).columns,
            final(self).created_at == old(self).created_at,
    {
        self.data_files.push(path);
    }
}

/// Copy a list of strings, preserving each string's characters.
pub fn clone_string_list(v: &Vec<String>) -> (r: Vec<String>)
    ensures
        r@.map_values(|s: String| s@) == v@.map_values(|s: String| s@),
        r@.len() == v@.len(),
{
    let mut out: Vec<String> = Vec::new();
    let mut i: usize = 0;
    while i < v.len()
        invariant
            i <= v@.len(),
            out@.len() == i,
            forall|k: int| 0 <= k < i ==> (#[trigger] out@[k])@ == v@[k]@,
        decreases v@.len() - i,
    {
        out.push(v[i].clone());
        i = i + 1;
    }
    proof {
        assert(out@.map_values(|s: String| s@) =~= v@.map_values(|s: String| s@));
    }
    out
}

fn clone_columns(v: &Vec<ColumnMetadata>) -> (r: Vec<ColumnMetadata>)
    ensures
        r@.map_values(|c: ColumnMetadata| (c.name@, c.column_type)) == v@.map_values(
            |c: ColumnMetadata| (c.name@, c.column_type),
        ),
        r@.len() == v@.len(),
{
    let mut out: Vec<ColumnMetadata> = Vec::new();
    let mut i: usize = 0;
    while i < v.len()
        invariant
            i <= v@.len(),
            out@.len() == i,
            forall|k: int| 0 <= k < i ==> (#[trigger] out@[k]).name@ == v@[k].name@
                && out@[k].column_type == v@[k].column_type,
        decreases v@.len() - i,
    {
        let c: &ColumnMetadata = &v[i];
        out.push(ColumnMetadata { name: c.name.clone(), column_type: c.column_type });
        i = i + 1;
    }
    proof {
        assert(out@.map_values(|c: ColumnMetadata| (c.name@, c.column_type)) =~= v@.map_values(
            |c: ColumnMetadata| (c.name@, c.column_type),
        ));
    }
    out
}

fn clone_table_meta(t: &TableMetadata) -> (r: TableMetadata)
    ensures
        r@ == t@,
{
    let r = TableMetadata {
        table_id: t.table_id.clone(),
        name: t.name.clone(),
        columns: clone_columns(&t.columns),
        data_files: clone_string_list(&t.data_files),
        created_at: t.created_at,
    };
    proof {
        assert(r@.columns =~= t@.columns);
        assert(r@.data_files =~= t@.data_files);
    }
    r
}

/// A tombstone for a table that was logically dropped while queries might
/// still be reading its files.
#[derive(Debug)]
pub struct PendingDeletion {
    pub table_id: String,
    pub data_files: Vec<String>,
    pub table_dir: String,
}

/// Files and the directory that the caller must now unlink from disk.
#[derive(Debug)]
pub struct FileRemoval {
    pub data_files: Vec<String>,
    pub table_dir: String,
}

/// The persistent part of the metastore: visible tables and tombstones.
#[derive(Debug)]
pub struct MetastoreData {
    pub tables: Vec<TableMetadata>,
    pub pending_deletions: Vec<PendingDeletion>,
}

/// Find a table by id.
pub open spec fn spec_find_table(tables: Seq<TableMetadata>, id: Seq<char>) -> Option<
    TableMetadata,
>
    decreases tables.len(),
{
    if tables.len() == 0 {
        None
    } else if tables[0].table_id@ == id {
        Some(tables[0])
    } else {
        spec_find_table(tables.drop_first(), id)
    }
}

pub open spec fn spec_has_table(tables: Seq<TableMetadata>, id: Seq<char>) -> bool {
    spec_find_table(tables, id) is Some
}

/// Find a table by name.
pub open spec fn spec_find_table_by_name(tables: Seq<TableMetadata>, name: Seq<char>) -> Option<
    TableMetadata,
>
    decreases tables.len(),
{
    if tables.len() == 0 {
        None
    } else if tables[0].name@ == name {
        Some(tables[0])
    } else {
        spec_find_table_by_name(tables.drop_first(), name)
    }
}

pub open spec fn spec_has_table_name(tables: Seq<TableMetadata>, name: Seq<char>) -> bool {
    spec_find_table_by_name(tables, name) is Some
}

pub open spec fn spec_find_pending(pends: Seq<PendingDeletion>, id: Seq<char>) -> Option<
    PendingDeletion,
>
    decreases pends.len(),
{
    if pends.len() == 0 {
        None
    } else if pends[0].table_id@ == id {
        Some(pends[0])
    } else {
        spec_find_pending(pends.drop_first(), id)
    }
}

pub open spec fn spec_has_pending(pends: Seq<PendingDeletion>, id: Seq<char>) -> bool {
    spec_find_pending(pends, id) is Some
}

/// The tombstones a cleanup keeps: those whose table still has a reader, in
/// their original order.
pub open spec fn spec_kept_pendings(
    pends: Seq<PendingDeletion>,
    entries: Seq<AccessEntry>,
) -> Seq<PendingDeletion>
    decreases pends.len(),
{
    if pends.len() == 0 {
        Seq::empty()
    } else if spec_access_count(entries, pends[0].table_id@) > 0 {
        seq![pends[0]] + spec_kept_pendings(pends.drop_first(), entries)
    } else {
        spec_kept_pendings(pends.drop_first(), entries)
    }
}

/// The tombstones a cleanup reclaims: those with no reader, in their
/// original order.
pub open spec fn spec_reclaimed_pendings(
    pends: Seq<PendingDeletion>,
    entries: Seq<AccessEntry>,
) -> Seq<PendingDeletion>
    decreases pends.len(),
{
    if pends.len() == 0 {
        Seq::empty()
    } else if spec_access_count(entries, pends[0].table_id@) == 0 {
        seq![pends[0]] + spec_reclaimed_pendings(pends.drop_first(), entries)
    } else {
        spec_reclaimed_pendings(pends.drop_first(), entries)
    }
}

impl MetastoreData {
    /// Table ids and names are unique; tombstones carry unique ids that are
    /// no longer visible.
    pub open spec fn well_formed(self) -> bool {
        &&& forall|i: int, j: int|
            0 <= i < j < self.tables@.len() ==> (#[trigger] self.tables@[i].table_id@) != (
            #[trigger] self.tables@[j].table_id@)
        &&& forall|i: int, j: int|
            0 <= i < j < self.tables@.len() ==> (#[trigger] self.tables@[i].name@) != (
            #[trigger] self.tables@[j].name@)
        &&& forall|i: int, j: int|
            0 <= i < j < self.pending_deletions@.len() ==> (
            #[trigger] self.pending_deletions@[i].table_id@) != (
            #[trigger] self.pending_deletions@[j].table_id@)
        &&& forall|i: int, j: int|
            0 <= i < self.tables@.len() && 0 <= j < self.pending_deletions@.len() ==> (
            #[trigger] self.tables@[i].table_id@) != (
            #[trigger] self.pending_deletions@[j].table_id@)
    }

    pub fn empty() -> (r: MetastoreData)
        ensures
            r.well_formed(),
            r.tables@.len() == 0,
            r.pending_deletions@.len() == 0,
    {
        MetastoreData { tables: Vec::new(), pending_deletions: Vec::new() }
    }
}

/// Membership of a query id in a list.
pub open spec fn spec_qids_contain(qs: Seq<String>, q: Seq<char>) -> bool {
    exists|i: int| 0 <= i < qs.len() && (#[trigger] qs[i])@ == q
}

/// One table's set of active readers.
#[derive(Debug)]
pub struct AccessEntry {
    pub table_id: String,
    pub query_ids: Vec<String>,
}

pub open spec fn spec_find_entry(entries: Seq<AccessEntry>, id: Seq<char>) -> Option<AccessEntry>
    decreases entries.len(),
{
    if entries.len() == 0 {
        None
    } else if entries[0].table_id@ == id {
        Some(entries[0])
    } else {
        spec_find_entry(entries.drop_first(), id)
    }
}

/// The number of queries currently reading a table.
pub open spec fn spec_access_count(entries: Seq<AccessEntry>, id: Seq<char>) -> nat {
    match spec_find_entry(entries, id) {
        Some(e) => e.query_ids@.len(),
        None => 0,
    }
}

/// Tracks which queries are currently accessing which tables.
#[derive(Debug)]
pub struct TableAccessTracker {
    pub entries: Vec<AccessEntry>,
}

impl TableAccessTracker {
    /// Entries are keyed by unique table ids, each holding a non-empty set of
    /// distinct query ids.
    pub open spec fn well_formed(self) -> bool {
        &&& forall|i: int, j: int|
            0 <= i < j < self.entries@.len() ==> (#[trigger] self.entries@[i].table_id@) != (
            #[trigger] self.entries@[j].table_id@)
        &&& forall|i: int| 0 <= i < self.entries@.len() ==> (
        #[trigger] self.entries@[i]).query_ids@.len() > 0
        &&& forall|i: int, p: int, q: int|
            0 <= i < self.entries@.len() && 0 <= p < q < self.entries@[i].query_ids@.len() ==> (
            #[trigger] self.entries@[i].query_ids@[p]@) != (
            #[trigger] self.entries@[i].query_ids@[q]@)
    }

    pub fn new() -> (r: TableAccessTracker)
        ensures
            r.well_formed(),
            r.entries@.len() == 0,
    {
        TableAccessTracker { entries: Vec::new() }
    }

    fn find_entry_index(&self, table_id: &str) -> (r: Option<usize>)
        ensures
            match r {
                Some(i) => i < self.entries@.len() && self.entries@[i as int].table_id@
                    == table_id@ && spec_find_entry(self.entries@, table_id@) == Some(
                    self.entries@[i as int],
                ),
                None => spec_find_entry(self.entries@, table_id@) is None,
            },
    {
        let key: String = table_id.to_owned();
        let mut i: usize = 0;
        proof {
            assert(self.entries@.skip(0) =~= self.entries@);
        }
        while i < self.entries.len()
            invariant
                i <= self.entries@.len(),
                key@ == table_id@,
                spec_find_entry(self.entries@, table_id@) == spec_find_entry(
                    self.entries@.skip(i as int),
                    table_id@,
                ),
            decreases self.entries@.len() - i,
        {
            proof {
                assert(self.entries@.skip(i as int)[0] == self.entries@[i as int]);
                assert(self.entries@.skip(i as int).drop_first() =~= self.entries@.skip(i + 1));
            }
            if self.entries[i].table_id.eq(&key) {
                return Some(i);
            }
            i = i + 1;
        }
        proof {
            assert(self.entries@.skip(self.entries@.len() as int) =~= Seq::<AccessEntry>::empty());
        }
        None
    }

    /// Register that a query is accessing a table.  The table's set becomes
    /// the old set plus the query: the pair is recorded at most once, every
    /// other member stays, and other tables are untouched.
    pub fn acquire(&mut self, table_id: &str, query_id: &str)
        requires
            old(self).well_formed(),
        ensures
            final(self).well_formed(),
            spec_access_count(final(self).entries@, table_id@) == if spec_entry_has_query(
                old(self).entries@,
                table_id@,
                query_id@,
            ) {
                spec_access_count(old(self).entries@, table_id@)
            } else {
                spec_access_count(old(self).entries@, table_id@) + 1
            },
            forall|other: Seq<char>| other != table_id@ ==> spec_access_count(
                final(self).entries@,
                other,
            ) == spec_access_count(old(self).entries@, other),
            spec_entry_has_query(final(self).entries@, table_id@, query_id@),
            forall|q: Seq<char>| #[trigger] spec_entry_has_query(
                final(self).entries@,
                table_id@,
                q,
            ) <==> (spec_entry_has_query(old(self).entries@, table_id@, q) || q == query_id@),
            forall|other: Seq<char>, q: Seq<char>| other != table_id@ ==> #[trigger] spec_entry_has_query(
                final(self).entries@,
                other,
                q,
            ) == spec_entry_has_query(old(self).entries@, other, q),
    {
        match self.find_entry_index(table_id) {
            Some(i) => {
                let ghost pre = self.entries@;
                let entry: &AccessEntry = &self.entries[i];
                if contains_string(&entry.query_ids, query_id) {
                    proof {
                        lemma_find_entry_unique(pre, table_id@, i as int);
                        assert forall|q: Seq<char>| #[trigger] spec_entry_has_query(
                            self.entries@,
                            table_id@,
                            q,
                        ) <==> (spec_entry_has_query(pre, table_id@, q) || q == query_id@) by {}
                    }
                    return ;
                }
                let qid: String = query_id.to_owned();
                let ghost old_entry: AccessEntry = self.entries@[i as int];
                self.entries[i].query_ids.push(qid);
                proof {
                    lemma_find_entry_unique(pre, table_id@, i as int);
                    lemma_find_entry_update(pre, self.entries@, i as int);
                    assert(spec_entry_has_query(self.entries@, table_id@, query_id@)) by {
                        let e = self.entries@[i as int];
                        assert(e.query_ids@[e.query_ids@.len() - 1]@ == query_id@);
                    }
                    assert forall|q: Seq<char>| #[trigger] spec_entry_has_query(
                        self.entries@,
                        table_id@,
                        q,
                    ) <==> (spec_entry_has_query(pre, table_id@, q) || q == query_id@) by {
                        let e = self.entries@[i as int];
                        assert(e.query_ids@ == old_entry.query_ids@.push(e.query_ids@[
                            e.query_ids@.len() - 1
                        ]));
                        lemma_qids_contain_push(
                            old_entry.query_ids@,
                            e.query_ids@[e.query_ids@.len() - 1],
                            q,
                        );
                    }
                    assert forall|other: Seq<char>, q: Seq<char>| other != table_id@
                        implies #[trigger] spec_entry_has_query(self.entries@, other, q)
                        == spec_entry_has_query(pre, other, q) by {}
                    assert forall|a: int, b2: int| 0 <= a < b2 < self.entries@.len() implies (
                    #[trigger] self.entries@[a].table_id@) != (
                    #[trigger] self.entries@[b2].table_id@) by {
                        assert(self.entries@[a].table_id@ == pre[a].table_id@);
                        assert(self.entries@[b2].table_id@ == pre[b2].table_id@);
                    }
                    assert forall|a: int, pp: int, qq: int|
                        0 <= a < self.entries@.len() && 0 <= pp < qq
                            < self.entries@[a].query_ids@.len() implies (
                    #[trigger] self.entries@[a].query_ids@[pp]@) != (
                    #[trigger] self.entries@[a].query_ids@[qq]@) by {
                        if a == i {
                            let e = self.entries@[a];
                            assert(e.query_ids@ == old_entry.query_ids@.push(
                                e.query_ids@[e.query_ids@.len() - 1],
                            ));
                            if qq == e.query_ids@.len() - 1 {
                                assert(e.query_ids@[pp] == old_entry.query_ids@[pp]);
                                assert(!spec_qids_contain(old_entry.query_ids@, query_id@));
                            } else {
                                assert(e.query_ids@[pp] == old_entry.query_ids@[pp]);
                                assert(e.query_ids@[qq] == old_entry.query_ids@[qq]);
                            }
                        } else {
                            assert(self.entries@[a] == pre[a]);
                        }
                    }
                }
            },
            None => {
                let ghost pre = self.entries@;
                let mut qids: Vec<String> = Vec::new();
                qids.push(query_id.to_owned());
                self.entries.push(AccessEntry { table_id: table_id.to_owned(), query_ids: qids });
                proof {
                    lemma_find_entry_push(pre, self.entries@[pre.len() as int], table_id@);
                    lemma_find_entry_none_all(pre, table_id@);
                    let e = self.entries@[pre.len() as int];
                    assert(e.query_ids@[0]@ == query_id@);
                    assert(e.query_ids@.len() == 1);
                    assert forall|a: int, b2: int| 0 <= a < b2 < self.entries@.len() implies (
                    #[trigger] self.entries@[a].table_id@) != (
                    #[trigger] self.entries@[b2].table_id@) by {
                        assert(self.entries@[a] == pre[a]);
                        if b2 < pre.len() {
                            assert(self.entries@[b2] == pre[b2]);
                        }
                    }
                    assert forall|a: int, pp: int, qq: int|
                        0 <= a < self.entries@.len() && 0 <= pp < qq
                            < self.entries@[a].query_ids@.len() implies (
                    #[trigger] self.entries@[a].query_ids@[pp]@) != (
                    #[trigger] self.entries@[a].query_ids@[qq]@) by {
                        if a < pre.len() {
                            assert(self.entries@[a] == pre[a]);
                        }
                    }
                    assert forall|other: Seq<char>| other != table_id@ implies spec_access_count(
                        self.entries@,
                        other,
                    ) == spec_access_count(pre, other) by {
                        lemma_find_entry_push_other(pre, self.entries@[pre.len() as int], other);
                    }
                    assert forall|q: Seq<char>| #[trigger] spec_entry_has_query(
                        self.entries@,
                        table_id@,
                        q,
                    ) <==> (spec_entry_has_query(pre, table_id@, q) || q == query_id@) by {
                        assert(spec_find_entry(pre, table_id@) is None);
                        if spec_entry_has_query(self.entries@, table_id@, q) {
                            assert(e.query_ids@.len() == 1);
                            let ii = choose|ii: int|
                                0 <= ii < e.query_ids@.len() && (#[trigger] e.query_ids@[ii])@
                                    == q;
                            assert(e.query_ids@[0]@ == q);
                        }
                    }
                    assert forall|other: Seq<char>, q: Seq<char>| other != table_id@
                        implies #[trigger] spec_entry_has_query(self.entries@, other, q)
                        == spec_entry_has_query(pre, other, q) by {
                        lemma_find_entry_push_other(pre, self.entries@[pre.len() as int], other);
                    }
                }
            },
        }
    }

    /// Release a query's access to a table; a last release removes the
    /// table's entry.
    pub fn release(&mut self, table_id: &str, query_id: &str)
        requires
            old(self).well_formed(),
        ensures
            final(self).well_formed(),
            spec_access_count(final(self).entries@, table_id@) == if spec_entry_has_query(
                old(self).entries@,
                table_id@,
                query_id@,
            ) {
                (spec_access_count(old(self).entries@, table_id@) - 1) as nat
            } else {
                spec_access_count(old(self).entries@, table_id@)
            },
            forall|other: Seq<char>| other != table_id@ ==> spec_access_count(
                final(self).entries@,
                other,
            ) == spec_access_count(old(self).entries@, other),
            forall|q: Seq<char>| #[trigger] spec_entry_has_query(
                final(self).entries@,
                table_id@,
                q,
            ) <==> (spec_entry_has_query(old(self).entries@, table_id@, q) && q != query_id@),
            forall|other: Seq<char>, q: Seq<char>| other != table_id@ ==> #[trigger] spec_entry_has_query(
                final(self).entries@,
                other,
                q,
            ) == spec_entry_has_query(old(self).entries@, other, q),
    {
        match self.find_entry_index(table_id) {
            Some(i) => {
                let ghost pre = self.entries@;
                match find_string_index(&self.entries[i].query_ids, query_id) {
                    Some(qi) => {
                        proof {
                            lemma_find_entry_unique(pre, table_id@, i as int);
                        }
                        if self.entries[i].query_ids.len() == 1 {
                            self.entries.remove(i);
                            proof {
                                lemma_find_entry_remove(pre, i as int, table_id@);
                                assert forall|other: Seq<char>| other != table_id@
                                    implies spec_access_count(self.entries@, other)
                                    == spec_access_count(pre, other) by {
                                    lemma_find_entry_remove_other(pre, i as int, other);
                                }
                                let olde = pre[i as int];
                                assert(olde.query_ids@[qi as int]@ == query_id@);
                                assert forall|q: Seq<char>| #[trigger] spec_entry_has_query(
                                    self.entries@,
                                    table_id@,
                                    q,
                                ) <==> (spec_entry_has_query(pre, table_id@, q) && q
                                    != query_id@) by {
                                    if spec_entry_has_query(pre, table_id@, q) {
                                        let m = choose|m: int|
                                            0 <= m < olde.query_ids@.len() && (
                                            #[trigger] olde.query_ids@[m])@ == q;
                                        assert(m == 0);
                                        assert(q == query_id@);
                                    }
                                }
                                assert forall|other: Seq<char>, q: Seq<char>|
                                    other != table_id@ implies #[trigger] spec_entry_has_query(
                                    self.entries@,
                                    other,
                                    q,
                                ) == spec_entry_has_query(pre, other, q) by {
                                    lemma_find_entry_remove_other(pre, i as int, other);
                                }
                            }
                        } else {
                            let removed: String = self.entries[i].query_ids.swap_remove(qi);
                            proof {
                                let e = self.entries@[i as int];
                                let olde = pre[i as int];
                                assert(e.query_ids@.len() == olde.query_ids@.len() - 1);
                                assert forall|p: int, q: int|
                                    0 <= p < q < e.query_ids@.len() implies e.query_ids@[p]@
                                    != e.query_ids@[q]@ by {
                                    assert(e.query_ids@[p] == olde.query_ids@[
                                        if p == qi {
                                            olde.query_ids@.len() - 1
                                        } else {
                                            p
                                        }
                                    ]);
                                    assert(e.query_ids@[q] == olde.query_ids@[
                                        if q == qi {
                                            olde.query_ids@.len() - 1
                                        } else {
                                            q
                                        }
                                    ]);
                                }
                                lemma_find_entry_update(pre, self.entries@, i as int);
                                assert(olde.query_ids@[qi as int]@ == query_id@);
                                assert forall|q: Seq<char>| #[trigger] spec_entry_has_query(
                                    self.entries@,
                                    table_id@,
                                    q,
                                ) <==> (spec_entry_has_query(pre, table_id@, q) && q
                                    != query_id@) by {
                                    let last = olde.query_ids@.len() - 1;
                                    if spec_qids_contain(e.query_ids@, q) {
                                        let m = choose|m: int|
                                            0 <= m < e.query_ids@.len() && (
                                            #[trigger] e.query_ids@[m])@ == q;
                                        let m2: int = if m == qi {
                                            last
                                        } else {
                                            m
                                        };
                                        assert(e.query_ids@[m] == olde.query_ids@[m2]);
                                        assert(m2 != qi);
                                        assert(olde.query_ids@[m2]@ != olde.query_ids@[
                                            qi as int
                                        ]@);
                                    }
                                    if spec_qids_contain(olde.query_ids@, q) && q != query_id@ {
                                        let m = choose|m: int|
                                            0 <= m < olde.query_ids@.len() && (
                                            #[trigger] olde.query_ids@[m])@ == q;
                                        assert(m != qi);
                                        if m < e.query_ids@.len() && m != qi {
                                            assert(e.query_ids@[m] == olde.query_ids@[m]);
                                        } else {
                                            assert(m == last);
                                            assert(e.query_ids@[qi as int] == olde.query_ids@[
                                                last
                                            ]);
                                        }
                                    }
                                }
                                assert forall|other: Seq<char>, q: Seq<char>|
                                    other != table_id@ implies #[trigger] spec_entry_has_query(
                                    self.entries@,
                                    other,
                                    q,
                                ) == spec_entry_has_query(pre, other, q) by {}
                            }
                        }
                    },
                    None => {
                        proof {
                            lemma_find_entry_unique(pre, table_id@, i as int);
                            assert(!spec_qids_contain(pre[i as int].query_ids@, query_id@));
                        }
                    },
                }
            },
            None => {},
        }
    }

    /// Whether any query is reading the table.
    pub fn has_active_accesses(&self, table_id: &str) -> (r: bool)
        ensures
            r == (spec_access_count(self.entries@, table_id@) > 0),
    {
        match self.find_entry_index(table_id) {
            Some(i) => self.entries[i].query_ids.len() > 0,
            None => false,
        }
    }

    /// The number of active accesses for a table.
    pub fn access_count(&self, table_id: &str) -> (r: usize)
        ensures
            r == spec_access_count(self.entries@, table_id@),
    {
        match self.find_entry_index(table_id) {
            Some(i) => self.entries[i].query_ids.len(),
            None => 0,
        }
    }
}

/// Whether the tracker records the query as reading the table.
pub open spec fn spec_entry_has_query(
    entries: Seq<AccessEntry>,
    table_id: Seq<char>,
    query_id: Seq<char>,
) -> bool {
    match spec_find_entry(entries, table_id) {
        Some(e) => spec_qids_contain(e.query_ids@, query_id),
        None => false,
    }
}

proof fn lemma_qids_contain_push(qs: Seq<String>, x: String, q: Seq<char>)
    ensures
        spec_qids_contain(qs.push(x), q) <==> (spec_qids_contain(qs, q) || x@ == q),
{
    if spec_qids_contain(qs.push(x), q) {
        let i = choose|i: int| 0 <= i < qs.push(x).len() && (#[trigger] qs.push(x)[i])@ == q;
        if i < qs.len() {
            assert(qs[i]@ == q);
        }
    }
    if spec_qids_contain(qs, q) {
        let i = choose|i: int| 0 <= i < qs.len() && (#[trigger] qs[i])@ == q;
        assert(qs.push(x)[i]@ == q);
    }
    if x@ == q {
        assert(qs.push(x)[qs.len() as int]@ == q);
    }
}

fn contains_string(v: &Vec<String>, s: &str) -> (r: bool)
    ensures
        r == spec_qids_contain(v@, s@),
{
    match find_string_index(v, s) {
        Some(i) => true,
        None => false,
    }
}

fn find_string_index(v: &Vec<String>, s: &str) -> (r: Option<usize>)
    ensures
        match r {
            Some(i) => i < v@.len() && v@[i as int]@ == s@,
            None => !spec_qids_contain(v@, s@),
        },
{
    let key: String = s.to_owned();
    let mut i: usize = 0;
    while i < v.len()
        invariant
            i <= v@.len(),
            key@ == s@,
            forall|k: int| 0 <= k < i ==> (#[trigger] v@[k])@ != s@,
        decreases v@.len() - i,
    {
        if v[i].eq(&key) {
            return Some(i);
        }
        i = i + 1;
    }
    None
}

/// If entry `i` holds the id, the search finds exactly that entry.
proof fn lemma_find_entry_unique(entries: Seq<AccessEntry>, id: Seq<char>, i: int)
    requires
        0 <= i < entries.len(),
        entries[i].table_id@ == id,
        forall|p: int, q: int|
            0 <= p < q < entries.len() ==> (#[trigger] entries[p].table_id@) != (
            #[trigger] entries[q].table_id@),
    ensures
        spec_find_entry(entries, id) == Some(entries[i]),
    decreases entries.len(),
{
    if i > 0 {
        assert(entries[0].table_id@ != id);
        assert(entries.drop_first()[i - 1] == entries[i]);
        lemma_find_entry_unique(entries.drop_first(), id, i - 1);
    }
}

/// Replacing entry `i` without changing its id only affects that id's entry.
proof fn lemma_find_entry_update(pre: Seq<AccessEntry>, post: Seq<AccessEntry>, i: int)
    requires
        0 <= i < pre.len(),
        post.len() == pre.len(),
        forall|k: int| 0 <= k < pre.len() && k != i ==> post[k] == pre[k],
        post[i].table_id@ == pre[i].table_id@,
        forall|p: int, q: int|
            0 <= p < q < pre.len() ==> (#[trigger] pre[p].table_id@) != (
            #[trigger] pre[q].table_id@),
    ensures
        spec_find_entry(post, pre[i].table_id@) == Some(post[i]),
        forall|other: Seq<char>| other != pre[i].table_id@ ==> spec_find_entry(post, other)
            == spec_find_entry(pre, other),
    decreases pre.len(),
{
    if i == 0 {
        assert forall|other: Seq<char>| other != pre[0].table_id@ implies spec_find_entry(
            post,
            other,
        ) == spec_find_entry(pre, other) by {
            assert(post.drop_first() =~= pre.drop_first());
        }
    } else {
        assert(pre.drop_first()[i - 1] == pre[i]);
        assert forall|k: int| 0 <= k < pre.drop_first().len() && k != i - 1 implies #[trigger] post.drop_first()[k]
            == pre.drop_first()[k] by {
            assert(post.drop_first()[k] == post[k + 1]);
        }
        assert forall|p: int, q: int|
            0 <= p < q < pre.drop_first().len() implies (#[trigger] pre.drop_first()[p].table_id@)
            != (#[trigger] pre.drop_first()[q].table_id@) by {
            assert(pre.drop_first()[p] == pre[p + 1]);
            assert(pre.drop_first()[q] == pre[q + 1]);
        }
        assert(post.drop_first()[i - 1] == post[i]);
        lemma_find_entry_update(pre.drop_first(), post.drop_first(), i - 1);
        assert(pre[0].table_id@ != pre[i].table_id@);
        assert(post[0] == pre[0]);
        assert forall|other: Seq<char>| other != pre[i].table_id@ implies spec_find_entry(
            post,
            other,
        ) == spec_find_entry(pre, other) by {
            if other != pre[0].table_id@ {
                assert(spec_find_entry(post.drop_first(), other) == spec_find_entry(
                    pre.drop_first(),
                    other,
                ));
            }
        }
    }
}

/// Pushing a fresh entry makes it findable; other ids are unaffected.
proof fn lemma_find_entry_push(pre: Seq<AccessEntry>, e: AccessEntry, id: Seq<char>)
    requires
        spec_find_entry(pre, id) is None,
        e.table_id@ == id,
    ensures
        spec_find_entry(pre.push(e), id) == Some(e),
    decreases pre.len(),
{
    assert(pre.push(e)[0] == if pre.len() == 0 {
        e
    } else {
        pre[0]
    });
    if pre.len() == 0 {
    } else {
        assert(pre.push(e).drop_first() =~= pre.drop_first().push(e));
        lemma_find_entry_push(pre.drop_first(), e, id);
    }
}

proof fn lemma_find_entry_push_other(pre: Seq<AccessEntry>, e: AccessEntry, other: Seq<char>)
    requires
        e.table_id@ != other,
    ensures
        spec_find_entry(pre.push(e), other) == spec_find_entry(pre, other),
    decreases pre.len(),
{
    assert(pre.push(e)[0] == if pre.len() == 0 {
        e
    } else {
        pre[0]
    });
    if pre.len() == 0 {
        assert(pre.push(e).drop_first() =~= Seq::<AccessEntry>::empty());
    } else {
        assert(pre.push(e).drop_first() =~= pre.drop_first().push(e));
        lemma_find_entry_push_other(pre.drop_first(), e, other);
    }
}

/// Removing entry `i` removes exactly its id.
proof fn lemma_find_entry_remove(pre: Seq<AccessEntry>, i: int, id: Seq<char>)
    requires
        0 <= i < pre.len(),
        pre[i].table_id@ == id,
        forall|p: int, q: int|
            0 <= p < q < pre.len() ==> (#[trigger] pre[p].table_id@) != (
            #[trigger] pre[q].table_id@),
    ensures
        spec_find_entry(pre.remove(i), id) is None,
    decreases pre.len(),
{
    let post = pre.remove(i);
    if i == 0 {
        assert(post =~= pre.drop_first());
        lemma_find_entry_none(pre.drop_first(), id);
    } else {
        assert(post[0] == pre[0]);
        assert(pre[0].table_id@ != id);
        assert(post.drop_first() =~= pre.drop_first().remove(i - 1));
        assert(pre.drop_first()[i - 1] == pre[i]);
        lemma_find_entry_remove(pre.drop_first(), i - 1, id);
    }
}

/// An unfound id is held by no entry.
proof fn lemma_find_entry_none_all(entries: Seq<AccessEntry>, id: Seq<char>)
    requires
        spec_find_entry(entries, id) is None,
    ensures
        forall|k: int| 0 <= k < entries.len() ==> (#[trigger] entries[k].table_id@) != id,
    decreases entries.len(),
{
    if entries.len() > 0 {
        lemma_find_entry_none_all(entries.drop_first(), id);
        assert forall|k: int| 0 <= k < entries.len() implies (#[trigger] entries[k].table_id@)
            != id by {
            if k > 0 {
                assert(entries.drop_first()[k - 1] == entries[k]);
            }
        }
    }
}

/// An id held by no entry is not found.
proof fn lemma_find_entry_none(entries: Seq<AccessEntry>, id: Seq<char>)
    requires
        forall|k: int| 0 <= k < entries.len() ==> (#[trigger] entries[k].table_id@) != id,
    ensures
        spec_find_entry(entries, id) is None,
    decreases entries.len(),
{
    if entries.len() > 0 {
        lemma_find_entry_none(entries.drop_first(), id);
    }
}

proof fn lemma_find_entry_remove_other(pre: Seq<AccessEntry>, i: int, other: Seq<char>)
    requires
        0 <= i < pre.len(),
        pre[i].table_id@ != other,
    ensures
        spec_find_entry(pre.remove(i), other) == spec_find_entry(pre, other),
    decreases pre.len(),
{
    let post = pre.remove(i);
    if i == 0 {
        assert(post =~= pre.drop_first());
    } else {
        assert(post[0] == pre[0]);
        if pre[0].table_id@ != other {
            assert(post.drop_first() =~= pre.drop_first().remove(i - 1));
            assert(pre.drop_first()[i - 1] == pre[i]);
            lemma_find_entry_remove_other(pre.drop_first(), i - 1, other);
        }
    }
}

} // verus!

verus! {

/// An unfound table id is held by no table.
proof fn lemma_find_table_none_all(tables: Seq<TableMetadata>, id: Seq<char>)
    requires
        spec_find_table(tables, id) is None,
    ensures
        forall|k: int| 0 <= k < tables.len() ==> (#[trigger] tables[k].table_id@) != id,
    decreases tables.len(),
{
    if tables.len() > 0 {
        lemma_find_table_none_all(tables.drop_first(), id);
        assert forall|k: int| 0 <= k < tables.len() implies (#[trigger] tables[k].table_id@)
            != id by {
            if k == 0 {
                assert(spec_find_table(tables, id) is None);
                if tables[0].table_id@ == id {
                    assert(spec_find_table(tables, id) == Some(tables[0]));
                }
            } else {
                assert(tables.drop_first()[k - 1] == tables[k]);
                assert(tables.drop_first()[k - 1].table_id@ != id);
            }
        }
    }
}

/// A table id held by no table is not found.
proof fn lemma_find_table_none(tables: Seq<TableMetadata>, id: Seq<char>)
    requires
        forall|k: int| 0 <= k < tables.len() ==> (#[trigger] tables[k].table_id@) != id,
    ensures
        spec_find_table(tables, id) is None,
    decreases tables.len(),
{
    if tables.len() > 0 {
        assert forall|k: int| 0 <= k < tables.drop_first().len() implies (
        #[trigger] tables.drop_first()[k].table_id@) != id by {
            assert(tables.drop_first()[k] == tables[k + 1]);
        }
        lemma_find_table_none(tables.drop_first(), id);
        assert(tables[0].table_id@ != id);
    }
}

/// An unfound table name is held by no table.
proof fn lemma_find_name_none_all(tables: Seq<TableMetadata>, name: Seq<char>)
    requires
        spec_find_table_by_name(tables, name) is None,
    ensures
        forall|k: int| 0 <= k < tables.len() ==> (#[trigger] tables[k].name@) != name,
    decreases tables.len(),
{
    if tables.len() > 0 {
        lemma_find_name_none_all(tables.drop_first(), name);
        assert forall|k: int| 0 <= k < tables.len() implies (#[trigger] tables[k].name@)
            != name by {
            if k == 0 {
                if tables[0].name@ == name {
                    assert(spec_find_table_by_name(tables, name) == Some(tables[0]));
                }
            } else {
                assert(tables.drop_first()[k - 1] == tables[k]);
                assert(tables.drop_first()[k - 1].name@ != name);
            }
        }
    }
}

/// An unfound pending id is held by no tombstone.
proof fn lemma_find_pending_none_all(pends: Seq<PendingDeletion>, id: Seq<char>)
    requires
        spec_find_pending(pends, id) is None,
    ensures
        forall|k: int| 0 <= k < pends.len() ==> (#[trigger] pends[k].table_id@) != id,
    decreases pends.len(),
{
    if pends.len() > 0 {
        lemma_find_pending_none_all(pends.drop_first(), id);
        assert forall|k: int| 0 <= k < pends.len() implies (#[trigger] pends[k].table_id@)
            != id by {
            if k == 0 {
                if pends[0].table_id@ == id {
                    assert(spec_find_pending(pends, id) == Some(pends[0]));
                }
            } else {
                assert(pends.drop_first()[k - 1] == pends[k]);
                assert(pends.drop_first()[k - 1].table_id@ != id);
            }
        }
    }
}

/// A pending id held by no tombstone is not found.
proof fn lemma_find_pending_none(pends: Seq<PendingDeletion>, id: Seq<char>)
    requires
        forall|k: int| 0 <= k < pends.len() ==> (#[trigger] pends[k].table_id@) != id,
    ensures
        spec_find_pending(pends, id) is None,
    decreases pends.len(),
{
    if pends.len() > 0 {
        assert forall|k: int| 0 <= k < pends.drop_first().len() implies (
        #[trigger] pends.drop_first()[k].table_id@) != id by {
            assert(pends.drop_first()[k] == pends[k + 1]);
        }
        lemma_find_pending_none(pends.drop_first(), id);
        assert(pends[0].table_id@ != id);
    }
}

/// If table `i` holds the id, the search finds exactly that table.
proof fn lemma_find_table_unique(tables: Seq<TableMetadata>, id: Seq<char>, i: int)
    requires
        0 <= i < tables.len(),
        tables[i].table_id@ == id,
        forall|p: int, q: int|
            0 <= p < q < tables.len() ==> (#[trigger] tables[p].table_id@) != (
            #[trigger] tables[q].table_id@),
    ensures
        spec_find_table(tables, id) == Some(tables[i]),
    decreases tables.len(),
{
    if i > 0 {
        assert(tables.drop_first()[i - 1] == tables[i]);
        assert forall|p: int, q: int| 0 <= p < q < tables.drop_first().len() implies (
        #[trigger] tables.drop_first()[p].table_id@) != (
        #[trigger] tables.drop_first()[q].table_id@) by {
            assert(tables.drop_first()[p] == tables[p + 1]);
            assert(tables.drop_first()[q] == tables[q + 1]);
        }
        lemma_find_table_unique(tables.drop_first(), id, i - 1);
    }
}

/// If pending `i` holds the id, the search finds exactly that tombstone.
proof fn lemma_find_pending_unique(pends: Seq<PendingDeletion>, id: Seq<char>, i: int)
    requires
        0 <= i < pends.len(),
        pends[i].table_id@ == id,
        forall|p: int, q: int|
            0 <= p < q < pends.len() ==> (#[trigger] pends[p].table_id@) != (
            #[trigger] pends[q].table_id@),
    ensures
        spec_find_pending(pends, id) == Some(pends[i]),
    decreases pends.len(),
{
    if i > 0 {
        assert(pends.drop_first()[i - 1] == pends[i]);
        assert forall|p: int, q: int| 0 <= p < q < pends.drop_first().len() implies (
        #[trigger] pends.drop_first()[p].table_id@) != (
        #[trigger] pends.drop_first()[q].table_id@) by {
            assert(pends.drop_first()[p] == pends[p + 1]);
            assert(pends.drop_first()[q] == pends[q + 1]);
        }
        lemma_find_pending_unique(pends.drop_first(), id, i - 1);
    }
}

/// The metastore: the persistent catalog, the in-memory access tracker, and
/// the directory layout it describes.
#[derive(Debug)]
pub struct Metastore {
    pub data: MetastoreData,
    pub access_tracker: TableAccessTracker,
    pub storage_path: String,
    pub data_directory: String,
}

impl Metastore {
    pub open spec fn well_formed(self) -> bool {
        &&& self.data.well_formed()
        &&& self.access_tracker.well_formed()
    }

    /// Open a metastore over loaded (or fresh) catalog data.  No queries
    /// exist at startup, so every pending deletion is reclaimed: the returned
    /// removals hold exactly the files and directories of the tombstones that
    /// were pending, and none remain.
    pub fn new(storage_path: String, data: MetastoreData) -> (r: Result<
        (Metastore, Vec<FileRemoval>),
        DbError,
    >)
        ensures
            r matches Ok(p) ==> {
                &&& p.0.well_formed()
                &&& p.0.data.tables@ == data.tables@
                &&& p.0.data.pending_deletions@.len() == 0
                &&& p.0.access_tracker.entries@.len() == 0
                &&& p.0.storage_path@ == storage_path@
                &&& p.0.data_directory@ == storage_path@ + "/tables"@
                &&& p.1@.len() == data.pending_deletions@.len()
                &&& forall|k: int| 0 <= k < p.1@.len() ==> (#[trigger] p.1@[k]).data_files@
                    .map_values(|s: String| s@) == data.pending_deletions@[k].data_files@
                    .map_values(|s: String| s@) && p.1@[k].table_dir@
                    == data.pending_deletions@[k].table_dir@
            },
            r is Ok <==> data.well_formed(),
            r matches Err(e) ==> e.kind == ErrorKind::Corrupt,
    {
        if !validate_metastore_data(&data) {
            return Err(DbError::of(ErrorKind::Corrupt, "metastore catalog is inconsistent"));
        }
        let dd: String = storage_path.clone();
        let data_directory: String = dd.concat("/tables");
        let MetastoreData { tables, pending_deletions } = data;
        let mut removals: Vec<FileRemoval> = Vec::new();
        let mut pends: Vec<PendingDeletion> = pending_deletions;
        let ghost all_pends = pends@;
        let mut i: usize = 0;
        proof {
            assert(pends@.skip(0) =~= pends@);
        }
        while removals.len() < pends.len()
            invariant
                removals@.len() <= pends@.len(),
                pends@ == all_pends,
                forall|k: int| 0 <= k < removals@.len() ==> (#[trigger] removals@[k]).data_files@
                    .map_values(|s: String| s@) == all_pends[k].data_files@.map_values(
                    |s: String| s@,
                ) && removals@[k].table_dir@ == all_pends[k].table_dir@,
            decreases pends@.len() - removals@.len(),
        {
            let idx: usize = removals.len();
            let pd: &PendingDeletion = &pends[idx];
            removals.push(
                FileRemoval {
                    data_files: clone_string_list(&pd.data_files),
                    table_dir: pd.table_dir.clone(),
                },
            );
        }
        let m = Metastore {
            data: MetastoreData { tables, pending_deletions: Vec::new() },
            access_tracker: TableAccessTracker::new(),
            storage_path,
            data_directory,
        };
        Ok((m, removals))
    }

    fn find_table_index(&self, table_id: &str) -> (r: Option<usize>)
        ensures
            match r {
                Some(i) => i < self.data.tables@.len() && self.data.tables@[i as int].table_id@
                    == table_id@ && spec_find_table(self.data.tables@, table_id@) == Some(
                    self.data.tables@[i as int],
                ),
                None => spec_find_table(self.data.tables@, table_id@) is None,
            },
    {
        let key: String = table_id.to_owned();
        let mut i: usize = 0;
        proof {
            assert(self.data.tables@.skip(0) =~= self.data.tables@);
        }
        while i < self.data.tables.len()
            invariant
                i <= self.data.tables@.len(),
                key@ == table_id@,
                spec_find_table(self.data.tables@, table_id@) == spec_find_table(
                    self.data.tables@.skip(i as int),
                    table_id@,
                ),
            decreases self.data.tables@.len() - i,
        {
            proof {
                assert(self.data.tables@.skip(i as int)[0] == self.data.tables@[i as int]);
                assert(self.data.tables@.skip(i as int).drop_first() =~= self.data.tables@.skip(
                    i + 1,
                ));
            }
            if self.data.tables[i].table_id.eq(&key) {
                return Some(i);
            }
            i = i + 1;
        }
        proof {
            assert(self.data.tables@.skip(self.data.tables@.len() as int) =~= Seq::<
                TableMetadata,
            >::empty());
        }
        None
    }

    fn find_table_index_by_name(&self, name: &str) -> (r: Option<usize>)
        ensures
            match r {
                Some(i) => i < self.data.tables@.len() && self.data.tables@[i as int].name@
                    == name@ && spec_find_table_by_name(self.data.tables@, name@) == Some(
                    self.data.tables@[i as int],
                ),
                None => spec_find_table_by_name(self.data.tables@, name@) is None,
            },
    {
        let key: String = name.to_owned();
        let mut i: usize = 0;
        proof {
            assert(self.data.tables@.skip(0) =~= self.data.tables@);
        }
        while i < self.data.tables.len()
            invariant
                i <= self.data.tables@.len(),
                key@ == name@,
                spec_find_table_by_name(self.data.tables@, name@) == spec_find_table_by_name(
                    self.data.tables@.skip(i as int),
                    name@,
                ),
            decreases self.data.tables@.len() - i,
        {
            proof {
                assert(self.data.tables@.skip(i as int)[0] == self.data.tables@[i as int]);
                assert(self.data.tables@.skip(i as int).drop_first() =~= self.data.tables@.skip(
                    i + 1,
                ));
            }
            if self.data.tables[i].name.eq(&key) {
                return Some(i);
            }
            i = i + 1;
        }
        proof {
            assert(self.data.tables@.skip(self.data.tables@.len() as int) =~= Seq::<
                TableMetadata,
            >::empty());
        }
        None
    }

    /// All visible tables as (id, name) pairs, in catalog order.
    pub fn list_tables(&self) -> (r: Vec<(String, String)>)
        ensures
            r@.len() == self.data.tables@.len(),
            forall|k: int| 0 <= k < r@.len() ==> (#[trigger] r@[k]).0@
                == self.data.tables@[k].table_id@ && r@[k].1@ == self.data.tables@[k].name@,
    {
        let mut out: Vec<(String, String)> = Vec::new();
        let mut i: usize = 0;
        while i < self.data.tables.len()
            invariant
                i <= self.data.tables@.len(),
                out@.len() == i,
                forall|k: int| 0 <= k < i ==> (#[trigger] out@[k]).0@
                    == self.data.tables@[k].table_id@ && out@[k].1@
                    == self.data.tables@[k].name@,
            decreases self.data.tables@.len() - i,
        {
            let t: &TableMetadata = &self.data.tables[i];
            out.push((t.table_id.clone(), t.name.clone()));
            i = i + 1;
        }
        out
    }

    /// Snapshot a table by id.
    pub fn get_table(&self, table_id: &str) -> (r: Option<TableMetadata>)
        ensures
            match r {
                Some(t) => (spec_find_table(self.data.tables@, table_id@) matches Some(f) && t@
                    == f@),
                None => spec_find_table(self.data.tables@, table_id@) is None,
            },
    {
        match self.find_table_index(table_id) {
            Some(i) => Some(clone_table_meta(&self.data.tables[i])),
            None => None,
        }
    }

    /// Snapshot a table by name.
    pub fn get_table_by_name(&self, name: &str) -> (r: Option<TableMetadata>)
        ensures
            match r {
                Some(t) => (spec_find_table_by_name(self.data.tables@, name@) matches Some(f)
                    && t@ == f@),
                None => spec_find_table_by_name(self.data.tables@, name@) is None,
            },
    {
        match self.find_table_index_by_name(name) {
            Some(i) => Some(clone_table_meta(&self.data.tables[i])),
            None => None,
        }
    }

    /// Whether a table with the given name is visible.
    pub fn table_exists(&self, name: &str) -> (r: bool)
        ensures
            r == spec_has_table_name(self.data.tables@, name@),
    {
        self.find_table_index_by_name(name).is_some()
    }

    /// Whether a table's files are awaiting reclaim.
    pub fn is_pending_deletion(&self, table_id: &str) -> (r: bool)
        ensures
            r == spec_has_pending(self.data.pending_deletions@, table_id@),
    {
        let key: String = table_id.to_owned();
        let mut i: usize = 0;
        proof {
            assert(self.data.pending_deletions@.skip(0) =~= self.data.pending_deletions@);
        }
        while i < self.data.pending_deletions.len()
            invariant
                i <= self.data.pending_deletions@.len(),
                key@ == table_id@,
                spec_find_pending(self.data.pending_deletions@, table_id@) == spec_find_pending(
                    self.data.pending_deletions@.skip(i as int),
                    table_id@,
                ),
            decreases self.data.pending_deletions@.len() - i,
        {
            proof {
                assert(self.data.pending_deletions@.skip(i as int)[0]
                    == self.data.pending_deletions@[i as int]);
                assert(self.data.pending_deletions@.skip(i as int).drop_first()
                    =~= self.data.pending_deletions@.skip(i + 1));
            }
            if self.data.pending_deletions[i].table_id.eq(&key) {
                return true;
            }
            i = i + 1;
        }
        proof {
            assert(self.data.pending_deletions@.skip(self.data.pending_deletions@.len() as int)
                =~= Seq::<PendingDeletion>::empty());
        }
        false
    }

    /// Surrender the catalog data, for persistence by the caller.
    pub fn into_data(self) -> (r: MetastoreData)
        ensures
            r == self.data,
    {
        self.data
    }

    /// The number of active accesses for a table.
    pub fn active_access_count(&self, table_id: &str) -> (r: usize)
        ensures
            r == spec_access_count(self.access_tracker.entries@, table_id@),
    {
        self.access_tracker.access_count(table_id)
    }
}

fn validate_metastore_data(data: &MetastoreData) -> (r: bool)
    ensures
        r == data.well_formed(),
{
    let mut i: usize = 0;
    while i < data.tables.len()
        invariant
            i <= data.tables@.len(),
            forall|p: int, q: int|
                0 <= p < q < i ==> (#[trigger] data.tables@[p].table_id@) != (
                #[trigger] data.tables@[q].table_id@),
            forall|p: int, q: int|
                0 <= p < q < i ==> (#[trigger] data.tables@[p].name@) != (
                #[trigger] data.tables@[q].name@),
        decreases data.tables@.len() - i,
    {
        let mut j: usize = 0;
        while j < i
            invariant
                j <= i < data.tables@.len(),
                forall|p: int| 0 <= p < j ==> (#[trigger] data.tables@[p].table_id@)
                    != data.tables@[i as int].table_id@,
                forall|p: int| 0 <= p < j ==> (#[trigger] data.tables@[p].name@)
                    != data.tables@[i as int].name@,
            decreases i - j,
        {
            if data.tables[j].table_id.eq(&data.tables[i].table_id) || data.tables[j].name.eq(
                &data.tables[i].name,
            ) {
                return false;
            }
            j = j + 1;
        }
        proof {
            assert forall|p: int, q: int| 0 <= p < q < i + 1 implies (
            #[trigger] data.tables@[p].table_id@) != (#[trigger] data.tables@[q].table_id@) by {
                if q == i {
                    assert(data.tables@[p].table_id@ != data.tables@[i as int].table_id@);
                }
            }
            assert forall|p: int, q: int| 0 <= p < q < i + 1 implies (
            #[trigger] data.tables@[p].name@) != (#[trigger] data.tables@[q].name@) by {
                if q == i {
                    assert(data.tables@[p].name@ != data.tables@[i as int].name@);
                }
            }
        }
        i = i + 1;
    }
    let mut a: usize = 0;
    while a < data.pending_deletions.len()
        invariant
            a <= data.pending_deletions@.len(),
            forall|p: int, q: int|
                0 <= p < q < a ==> (#[trigger] data.pending_deletions@[p].table_id@) != (
                #[trigger] data.pending_deletions@[q].table_id@),
            forall|p: int, q: int|
                0 <= p < data.tables@.len() && 0 <= q < a ==> (
                #[trigger] data.tables@[p].table_id@) != (
                #[trigger] data.pending_deletions@[q].table_id@),
        decreases data.pending_deletions@.len() - a,
    {
        let mut b: usize = 0;
        while b < a
            invariant
                b <= a < data.pending_deletions@.len(),
                forall|p: int| 0 <= p < b ==> (#[trigger] data.pending_deletions@[p].table_id@)
                    != data.pending_deletions@[a as int].table_id@,
            decreases a - b,
        {
            if data.pending_deletions[b].table_id.eq(&data.pending_deletions[a].table_id) {
                return false;
            }
            b = b + 1;
        }
        let mut c: usize = 0;
        while c < data.tables.len()
            invariant
                c <= data.tables@.len(),
                a < data.pending_deletions@.len(),
                forall|p: int| 0 <= p < c ==> (#[trigger] data.tables@[p].table_id@)
                    != data.pending_deletions@[a as int].table_id@,
            decreases data.tables@.len() - c,
        {
            if data.tables[c].table_id.eq(&data.pending_deletions[a].table_id) {
                return false;
            }
            c = c + 1;
        }
        proof {
            assert forall|p: int, q: int| 0 <= p < q < a + 1 implies (
            #[trigger] data.pending_deletions@[p].table_id@) != (
            #[trigger] data.pending_deletions@[q].table_id@) by {
                if q == a {
                    assert(data.pending_deletions@[p].table_id@
                        != data.pending_deletions@[a as int].table_id@);
                }
            }
        }
        a = a + 1;
    }
    true
}

} // verus!

verus! {

impl Metastore {
    /// Create a table under an explicit identifier.  Succeeds exactly when
    /// the name, the identifier, and the column names are all fresh.
    pub fn create_table_with_id(
        &mut self,
        name: String,
        columns: Vec<ColumnMetadata>,
        table_id: String,
        created_at: i64,
    ) -> (r: Result<TableMetadata, DbError>)
        requires
            old(self).well_formed(),
        ensures
            final(self).well_formed(),
            final(self).access_tracker == old(self).access_tracker,
            final(self).data.pending_deletions@ == old(self).data.pending_deletions@,
            final(self).storage_path == old(self).storage_path,
            final(self).data_directory == old(self).data_directory,
            r is Ok <==> (!spec_has_table_name(old(self).data.tables@, name@) && !spec_has_table(
                old(self).data.tables@,
                table_id@,
            ) && !spec_has_pending(old(self).data.pending_deletions@, table_id@)
                && !spec_dup_column_names(columns@)),
            r matches Ok(t) ==> {
                &&& t@.table_id == table_id@
                &&& t@.name == name@
                &&& t@.columns == columns@.map_values(|c: ColumnMetadata| (c.name@, c.column_type))
                &&& t@.data_files.len() == 0
                &&& t@.created_at == created_at
                &&& final(self).data.tables@.len() == old(self).data.tables@.len() + 1
                &&& forall|k: int| 0 <= k < old(self).data.tables@.len() ==> final(self).data.tables@[k] == old(self).data.tables@[k]
                &&& final(self).data.tables@.last()@ == t@
            },
            r is Err ==> final(self).data.tables@ == old(self).data.tables@ && (r matches Err(e)
                && (e.kind == ErrorKind::Conflict || e.kind == ErrorKind::SchemaMismatch)),
            r matches Err(e) && e.kind == ErrorKind::SchemaMismatch ==> spec_dup_column_names(
                columns@,
            ),
            !spec_has_table_name(old(self).data.tables@, name@) && spec_dup_column_names(columns@)
                ==> (r matches Err(e) && e.kind == ErrorKind::SchemaMismatch),
            spec_has_table_name(old(self).data.tables@, name@) ==> (r matches Err(e) && e.kind
                == ErrorKind::Conflict),
    {
        if self.find_table_index_by_name(name.as_str()).is_some() {
            return Err(DbError::of(ErrorKind::Conflict, "table name already exists"));
        }
        if has_duplicate_column_names(&columns) {
            return Err(DbError::of(ErrorKind::SchemaMismatch, "duplicate column name"));
        }
        if self.find_table_index(table_id.as_str()).is_some() {
            return Err(DbError::of(ErrorKind::Conflict, "table identifier already exists"));
        }
        if self.is_pending_deletion(table_id.as_str()) {
            return Err(DbError::of(ErrorKind::Conflict, "table identifier is pending deletion"));
        }
        let table = TableMetadata::new(table_id, name, columns, created_at);
        let result = clone_table_meta(&table);
        let ghost pre = self.data.tables@;
        proof {
            lemma_find_table_none_all(pre, table.table_id@);
            lemma_find_name_none_all(pre, table.name@);
            lemma_find_pending_none_all(self.data.pending_deletions@, table.table_id@);
        }
        self.data.tables.push(table);
        proof {
            assert forall|p: int, q: int| 0 <= p < q < self.data.tables@.len() implies (
            #[trigger] self.data.tables@[p].table_id@) != (
            #[trigger] self.data.tables@[q].table_id@) by {
                assert(self.data.tables@[p] == pre[p]);
                if q < pre.len() {
                    assert(self.data.tables@[q] == pre[q]);
                }
            }
            assert forall|p: int, q: int| 0 <= p < q < self.data.tables@.len() implies (
            #[trigger] self.data.tables@[p].name@) != (#[trigger] self.data.tables@[q].name@) by {
                assert(self.data.tables@[p] == pre[p]);
                if q < pre.len() {
                    assert(self.data.tables@[q] == pre[q]);
                }
            }
            assert forall|p: int, q: int|
                0 <= p < self.data.tables@.len() && 0 <= q
                    < self.data.pending_deletions@.len() implies (
            #[trigger] self.data.tables@[p].table_id@) != (
            #[trigger] self.data.pending_deletions@[q].table_id@) by {
                if p < pre.len() {
                    assert(self.data.tables@[p] == pre[p]);
                }
            }
        }
        Ok(result)
    }

    /// Create a table: assign a fresh identifier and the current time, then
    /// record it.  The identifier comes from a random UUID; in the
    /// vanishingly unlikely event that it collides with an existing one the
    /// call reports an internal error instead of succeeding.
    pub fn create_table(&mut self, name: String, columns: Vec<ColumnMetadata>) -> (r: Result<
        TableMetadata,
        DbError,
    >)
        requires
            old(self).well_formed(),
        ensures
            final(self).well_formed(),
            final(self).access_tracker == old(self).access_tracker,
            final(self).data.pending_deletions@ == old(self).data.pending_deletions@,
            spec_has_table_name(old(self).data.tables@, name@) ==> (r matches Err(e) && e.kind
                == ErrorKind::Conflict) && final(self).data.tables@ == old(self).data.tables@,
            !spec_has_table_name(old(self).data.tables@, name@) && spec_dup_column_names(columns@)
                ==> (r matches Err(e) && e.kind == ErrorKind::SchemaMismatch),
            r matches Ok(t) ==> {
                &&& !spec_has_table_name(old(self).data.tables@, name@)
                &&& !spec_dup_column_names(columns@)
                &&& t@.name == name@
                &&& t@.columns == columns@.map_values(|c: ColumnMetadata| (c.name@, c.column_type))
                &&& t@.data_files.len() == 0
                &&& final(self).data.tables@.len() == old(self).data.tables@.len() + 1
                &&& forall|k: int| 0 <= k < old(self).data.tables@.len() ==> final(self).data.tables@[k] == old(self).data.tables@[k]
                &&& final(self).data.tables@.last()@ == t@
            },
            r is Err ==> final(self).data.tables@ == old(self).data.tables@,
    {
        let table_id: String = new_uuid_string();
        let created_at: i64 = utc_now_timestamp();
        match self.create_table_with_id(name, columns, table_id, created_at) {
            Ok(t) => Ok(t),
            Err(e) => Err(e),
        }
    }

    /// Append a data file to a table's list and report whether the table was
    /// found.  The caller must have fully written the file to disk first;
    /// this call makes it visible to subsequent queries.
    pub fn add_data_file(&mut self, table_id: &str, file_path: String) -> (r: Result<(), DbError>)
        requires
            old(self).well_formed(),
        ensures
            final(self).well_formed(),
            final(self).access_tracker == old(self).access_tracker,
            final(self).data.pending_deletions@ == old(self).data.pending_deletions@,
            r is Ok <==> spec_has_table(old(self).data.tables@, table_id@),
            r matches Err(e) ==> e.kind == ErrorKind::NotFound && final(self).data.tables@ == old(self).data.tables@,
            r is Ok ==> {
                &&& final(self).data.tables@.len() == old(self).data.tables@.len()
                &&& exists|i: int|
                    0 <= i < old(self).data.tables@.len() && old(self).data.tables@[i].table_id@
                        == table_id@ && final(self).data.tables@[i].data_files@ == old(self).data.tables@[i].data_files@.push(file_path) && (#[trigger] final(self).data.tables@[i]).table_id@ == table_id@ && final(self).data.tables@[i].name@ == old(self).data.tables@[i].name@ && (forall|k: int|
                        0 <= k < old(self).data.tables@.len() && k != i ==> final(self).data.tables@[k] == old(self).data.tables@[k])
            },
    {
        match self.find_table_index(table_id) {
            Some(i) => {
                let ghost pre = self.data.tables@;
                self.data.tables[i].data_files.push(file_path);
                proof {
                    assert forall|p: int, q: int| 0 <= p < q < self.data.tables@.len() implies (
                    #[trigger] self.data.tables@[p].table_id@) != (
                    #[trigger] self.data.tables@[q].table_id@) by {
                        assert(self.data.tables@[p].table_id@ == pre[p].table_id@);
                        assert(self.data.tables@[q].table_id@ == pre[q].table_id@);
                    }
                    assert forall|p: int, q: int| 0 <= p < q < self.data.tables@.len() implies (
                    #[trigger] self.data.tables@[p].name@) != (
                    #[trigger] self.data.tables@[q].name@) by {
                        assert(self.data.tables@[p].name@ == pre[p].name@);
                        assert(self.data.tables@[q].name@ == pre[q].name@);
                    }
                    assert forall|p: int, q: int|
                        0 <= p < self.data.tables@.len() && 0 <= q
                            < self.data.pending_deletions@.len() implies (
                    #[trigger] self.data.tables@[p].table_id@) != (
                    #[trigger] self.data.pending_deletions@[q].table_id@) by {
                        assert(self.data.tables@[p].table_id@ == pre[p].table_id@);
                    }
                    assert(final(self).data.tables@[i as int].data_files@ == pre[
                        i as int
                    ].data_files@.push(file_path));
                }
                Ok(())
            },
            None => Err(DbError::of(ErrorKind::NotFound, "table not found")),
        }
    }

    /// A fresh path for a new data file of the table:
    /// `<data_directory>/<table_id>/<uuid>.mimdb`.
    pub fn generate_data_file_path(&self, table_id: &str) -> (r: String)
        ensures
            exists|u: Seq<char>|
                r@ == self.data_directory@ + "/"@ + table_id@ + "/"@ + u + ".mimdb"@ && u.len()
                    == 36,
    {
        let file_id: String = new_uuid_string();
        let base: String = self.data_directory.clone();
        let with_table: String = base.concat("/").concat(table_id).concat("/");
        let with_file: String = with_table.concat(file_id.as_str()).concat(".mimdb");
        proof {
            assert(with_file@ == self.data_directory@ + "/"@ + table_id@ + "/"@ + file_id@
                + ".mimdb"@);
        }
        with_file
    }

    /// Acquire access to a table for a query; this must happen before the
    /// query starts reading.  Fails exactly when the table is no longer
    /// visible, so no new reader can attach to a dropped table.
    pub fn acquire_table_access(&mut self, table_id: &str, query_id: &str) -> (r: Result<
        (),
        DbError,
    >)
        requires
            old(self).well_formed(),
        ensures
            final(self).well_formed(),
            final(self).data.tables@ == old(self).data.tables@,
            final(self).data.pending_deletions@ == old(self).data.pending_deletions@,
            r is Ok <==> spec_has_table(old(self).data.tables@, table_id@),
            r matches Err(e) ==> e.kind == ErrorKind::NotFound && final(self).access_tracker
                == old(self).access_tracker,
            r is Ok ==> spec_entry_has_query(
                final(self).access_tracker.entries@,
                table_id@,
                query_id@,
            ) && spec_access_count(final(self).access_tracker.entries@, table_id@) > 0,
            r is Ok ==> spec_access_count(final(self).access_tracker.entries@, table_id@)
                == if spec_entry_has_query(
                old(self).access_tracker.entries@,
                table_id@,
                query_id@,
            ) {
                spec_access_count(old(self).access_tracker.entries@, table_id@)
            } else {
                spec_access_count(old(self).access_tracker.entries@, table_id@) + 1
            },
            r is Ok ==> forall|q: Seq<char>| #[trigger] spec_entry_has_query(
                final(self).access_tracker.entries@,
                table_id@,
                q,
            ) <==> (spec_entry_has_query(old(self).access_tracker.entries@, table_id@, q) || q
                == query_id@),
            forall|other: Seq<char>| other != table_id@ ==> spec_access_count(
                final(self).access_tracker.entries@,
                other,
            ) == spec_access_count(old(self).access_tracker.entries@, other),
            forall|other: Seq<char>, q: Seq<char>| other != table_id@
                ==> #[trigger] spec_entry_has_query(
                final(self).access_tracker.entries@,
                other,
                q,
            ) == spec_entry_has_query(old(self).access_tracker.entries@, other, q),
    {
        match self.find_table_index(table_id) {
            Some(i) => {
                self.access_tracker.acquire(table_id, query_id);
                Ok(())
            },
            None => Err(DbError::of(ErrorKind::NotFound, "table does not exist")),
        }
    }

    /// Release a query's access to a table.  When the last reader leaves a
    /// table that is pending deletion, its tombstone is removed and its
    /// files are returned for physical removal.
    pub fn release_table_access(&mut self, table_id: &str, query_id: &str) -> (r: Option<
        FileRemoval,
    >)
        requires
            old(self).well_formed(),
        ensures
            final(self).well_formed(),
            final(self).data.tables@ == old(self).data.tables@,
            spec_access_count(final(self).access_tracker.entries@, table_id@)
                == if spec_entry_has_query(
                old(self).access_tracker.entries@,
                table_id@,
                query_id@,
            ) {
                (spec_access_count(old(self).access_tracker.entries@, table_id@) - 1) as nat
            } else {
                spec_access_count(old(self).access_tracker.entries@, table_id@)
            },
            forall|q: Seq<char>| #[trigger] spec_entry_has_query(
                final(self).access_tracker.entries@,
                table_id@,
                q,
            ) <==> (spec_entry_has_query(old(self).access_tracker.entries@, table_id@, q) && q
                != query_id@),
            forall|other: Seq<char>| other != table_id@ ==> spec_access_count(
                final(self).access_tracker.entries@,
                other,
            ) == spec_access_count(old(self).access_tracker.entries@, other),
            forall|other: Seq<char>, q: Seq<char>| other != table_id@
                ==> #[trigger] spec_entry_has_query(
                final(self).access_tracker.entries@,
                other,
                q,
            ) == spec_entry_has_query(old(self).access_tracker.entries@, other, q),
            r is Some <==> (spec_access_count(final(self).access_tracker.entries@, table_id@) == 0
                && spec_has_pending(old(self).data.pending_deletions@, table_id@)),
            r is Some ==> !spec_has_pending(final(self).data.pending_deletions@, table_id@) && (
            r matches Some(fr) && (spec_find_pending(old(self).data.pending_deletions@, table_id@)
                matches Some(pd) && fr.data_files@.map_values(|s: String| s@)
                == pd.data_files@.map_values(|s: String| s@) && fr.table_dir@
                == pd.table_dir@)),
            r is None ==> final(self).data.pending_deletions@ == old(self).data.pending_deletions@,
    {
        self.access_tracker.release(table_id, query_id);
        if self.access_tracker.has_active_accesses(table_id) {
            return None;
        }
        let ghost pre_pends = self.data.pending_deletions@;
        let mut i: usize = 0;
        let key: String = table_id.to_owned();
        while i < self.data.pending_deletions.len()
            invariant
                i <= self.data.pending_deletions@.len(),
                key@ == table_id@,
                self.data.pending_deletions@ == pre_pends,
                pre_pends == old(self).data.pending_deletions@,
                self.data.tables@ == old(self).data.tables@,
                old(self).well_formed(),
                self.access_tracker.well_formed(),
                spec_access_count(self.access_tracker.entries@, table_id@) == 0,
                spec_access_count(self.access_tracker.entries@, table_id@)
                    == if spec_entry_has_query(
                    old(self).access_tracker.entries@,
                    table_id@,
                    query_id@,
                ) {
                    (spec_access_count(old(self).access_tracker.entries@, table_id@) - 1) as nat
                } else {
                    spec_access_count(old(self).access_tracker.entries@, table_id@)
                },
                forall|q: Seq<char>| #[trigger] spec_entry_has_query(
                    self.access_tracker.entries@,
                    table_id@,
                    q,
                ) <==> (spec_entry_has_query(old(self).access_tracker.entries@, table_id@, q)
                    && q != query_id@),
                forall|other: Seq<char>| other != table_id@ ==> spec_access_count(
                    self.access_tracker.entries@,
                    other,
                ) == spec_access_count(old(self).access_tracker.entries@, other),
                forall|other: Seq<char>, q: Seq<char>| other != table_id@
                    ==> #[trigger] spec_entry_has_query(
                    self.access_tracker.entries@,
                    other,
                    q,
                ) == spec_entry_has_query(old(self).access_tracker.entries@, other, q),
                forall|k: int| 0 <= k < i ==> (
                #[trigger] self.data.pending_deletions@[k].table_id@) != table_id@,
            decreases self.data.pending_deletions@.len() - i,
        {
            if self.data.pending_deletions[i].table_id.eq(&key) {
                let pd: PendingDeletion = self.data.pending_deletions.remove(i);
                proof {
                    lemma_find_pending_unique(pre_pends, table_id@, i as int);
                    assert forall|p: int, q: int|
                        0 <= p < q < self.data.pending_deletions@.len() implies (
                    #[trigger] self.data.pending_deletions@[p].table_id@) != (
                    #[trigger] self.data.pending_deletions@[q].table_id@) by {
                        assert(self.data.pending_deletions@[p] == pre_pends[
                            if p < i {
                                p
                            } else {
                                p + 1
                            }
                        ]);
                        assert(self.data.pending_deletions@[q] == pre_pends[
                            if q < i {
                                q
                            } else {
                                q + 1
                            }
                        ]);
                    }
                    assert forall|p: int, q: int|
                        0 <= p < self.data.tables@.len() && 0 <= q
                            < self.data.pending_deletions@.len() implies (
                    #[trigger] self.data.tables@[p].table_id@) != (
                    #[trigger] self.data.pending_deletions@[q].table_id@) by {
                        assert(self.data.pending_deletions@[q] == pre_pends[
                            if q < i {
                                q
                            } else {
                                q + 1
                            }
                        ]);
                    }
                    assert forall|k: int| 0 <= k < self.data.pending_deletions@.len() implies (
                    #[trigger] self.data.pending_deletions@[k].table_id@) != table_id@ by {
                        assert(self.data.pending_deletions@[k] == pre_pends[
                            if k < i {
                                k
                            } else {
                                k + 1
                            }
                        ]);
                    }
                    lemma_find_pending_none(self.data.pending_deletions@, table_id@);
                }
                return Some(FileRemoval { data_files: pd.data_files, table_dir: pd.table_dir });
            }
            i = i + 1;
        }
        proof {
            lemma_find_pending_none(self.data.pending_deletions@, table_id@);
        }
        None
    }
}

/// Whether two columns share a name.
pub open spec fn spec_dup_column_names(cols: Seq<ColumnMetadata>) -> bool {
    exists|i: int, j: int|
        0 <= i < j < cols.len() && (#[trigger] cols[i].name@) == (#[trigger] cols[j].name@)
}

fn has_duplicate_column_names(cols: &Vec<ColumnMetadata>) -> (r: bool)
    ensures
        r == spec_dup_column_names(cols@),
{
    let mut i: usize = 0;
    while i < cols.len()
        invariant
            i <= cols@.len(),
            forall|p: int, q: int|
                0 <= p < q < cols@.len() && q < i ==> (#[trigger] cols@[p].name@) != (
                #[trigger] cols@[q].name@),
        decreases cols@.len() - i,
    {
        let mut j: usize = 0;
        while j < i
            invariant
                j <= i < cols@.len(),
                forall|p: int| 0 <= p < j ==> (#[trigger] cols@[p].name@)
                    != cols@[i as int].name@,
            decreases i - j,
        {
            if cols[j].name.eq(&cols[i].name) {
                return true;
            }
            j = j + 1;
        }
        proof {
            assert forall|p: int, q: int| 0 <= p < q < cols@.len() && q < i + 1 implies (
            #[trigger] cols@[p].name@) != (#[trigger] cols@[q].name@) by {
                if q == i {
                    assert(cols@[p].name@ != cols@[i as int].name@);
                }
            }
        }
        i = i + 1;
    }
    false
}

} // verus!

verus! {

impl Metastore {
    /// Drop a table.  The table becomes invisible at once; its files are
    /// returned for removal only when no query is reading them, and are
    /// otherwise parked as a pending deletion until the last reader leaves.
    pub fn delete_table(&mut self, table_id: &str) -> (r: Result<
        (TableMetadata, Option<FileRemoval>),
        DbError,
    >)
        requires
            old(self).well_formed(),
        ensures
            final(self).well_formed(),
            final(self).access_tracker == old(self).access_tracker,
            r is Ok <==> spec_has_table(old(self).data.tables@, table_id@),
            r matches Err(e) ==> e.kind == ErrorKind::NotFound && final(self).data.tables@ == old(self).data.tables@ && final(self).data.pending_deletions@ == old(self).data.pending_deletions@,
            r matches Ok(p) ==> {
                &&& !spec_has_table(final(self).data.tables@, table_id@)
                &&& (spec_find_table(old(self).data.tables@, table_id@) matches Some(t) && p.0@
                    == t@)
                &&& final(self).data.tables@.len() == old(self).data.tables@.len() - 1
                &&& (spec_access_count(old(self).access_tracker.entries@, table_id@) > 0 ==> (
                p.1 is None && spec_has_pending(final(self).data.pending_deletions@, table_id@)
                    && (spec_find_pending(final(self).data.pending_deletions@, table_id@)
                    matches Some(pd) && pd.data_files@.map_values(|s: String| s@)
                    == p.0@.data_files && pd.table_id@ == table_id@)))
                &&& (spec_access_count(old(self).access_tracker.entries@, table_id@) == 0 ==> (
                p.1 matches Some(fr) && fr.data_files@.map_values(|s: String| s@)
                    == p.0@.data_files && final(self).data.pending_deletions@ == old(self).data.pending_deletions@))
            },
    {
        let idx: usize = match self.find_table_index(table_id) {
            Some(i) => i,
            None => {
                return Err(DbError::of(ErrorKind::NotFound, "table not found"));
            },
        };
        let ghost pre_tables = self.data.tables@;
        let ghost pre_pends = self.data.pending_deletions@;
        let table: TableMetadata = self.data.tables.remove(idx);
        proof {
            lemma_find_table_unique(pre_tables, table_id@, idx as int);
            assert forall|p: int, q: int| 0 <= p < q < self.data.tables@.len() implies (
            #[trigger] self.data.tables@[p].table_id@) != (
            #[trigger] self.data.tables@[q].table_id@) by {
                assert(self.data.tables@[p] == pre_tables[
                    if p < idx {
                        p
                    } else {
                        p + 1
                    }
                ]);
                assert(self.data.tables@[q] == pre_tables[
                    if q < idx {
                        q
                    } else {
                        q + 1
                    }
                ]);
            }
            assert forall|p: int, q: int| 0 <= p < q < self.data.tables@.len() implies (
            #[trigger] self.data.tables@[p].name@) != (#[trigger] self.data.tables@[q].name@) by {
                assert(self.data.tables@[p] == pre_tables[
                    if p < idx {
                        p
                    } else {
                        p + 1
                    }
                ]);
                assert(self.data.tables@[q] == pre_tables[
                    if q < idx {
                        q
                    } else {
                        q + 1
                    }
                ]);
            }
            assert forall|p: int, q: int|
                0 <= p < self.data.tables@.len() && 0 <= q
                    < self.data.pending_deletions@.len() implies (
            #[trigger] self.data.tables@[p].table_id@) != (
            #[trigger] self.data.pending_deletions@[q].table_id@) by {
                assert(self.data.tables@[p] == pre_tables[
                    if p < idx {
                        p
                    } else {
                        p + 1
                    }
                ]);
            }
            assert forall|k: int| 0 <= k < self.data.tables@.len() implies (
            #[trigger] self.data.tables@[k].table_id@) != table_id@ by {
                assert(self.data.tables@[k] == pre_tables[
                    if k < idx {
                        k
                    } else {
                        k + 1
                    }
                ]);
            }
            lemma_find_table_none(self.data.tables@, table_id@);
        }
        let active: bool = self.access_tracker.has_active_accesses(table_id);
        let table_dir: String = self.data_directory.clone().concat("/").concat(table_id);
        if active {
            let ghost pre_pends2 = self.data.pending_deletions@;
            let pd = PendingDeletion {
                table_id: table_id.to_owned(),
                data_files: clone_string_list(&table.data_files),
                table_dir,
            };
            proof {
                assert forall|q: int| 0 <= q < pre_pends2.len() implies (
                #[trigger] pre_pends2[q].table_id@) != table_id@ by {
                    assert(pre_tables[idx as int].table_id@ == table_id@);
                    assert(old(self).data.tables@[idx as int].table_id@ != old(self).data.pending_deletions@[q].table_id@);
                }
                lemma_find_pending_none(pre_pends2, table_id@);
            }
            self.data.pending_deletions.push(pd);
            proof {
                assert forall|p: int, q: int|
                    0 <= p < q < self.data.pending_deletions@.len() implies (
                #[trigger] self.data.pending_deletions@[p].table_id@) != (
                #[trigger] self.data.pending_deletions@[q].table_id@) by {
                    assert(self.data.pending_deletions@[p] == pre_pends2[p]);
                    if q < pre_pends2.len() {
                        assert(self.data.pending_deletions@[q] == pre_pends2[q]);
                    }
                }
                assert forall|p: int, q: int|
                    0 <= p < self.data.tables@.len() && 0 <= q
                        < self.data.pending_deletions@.len() implies (
                #[trigger] self.data.tables@[p].table_id@) != (
                #[trigger] self.data.pending_deletions@[q].table_id@) by {
                    if q < pre_pends2.len() {
                        assert(self.data.pending_deletions@[q] == pre_pends2[q]);
                    }
                }
                lemma_find_pending_unique(
                    self.data.pending_deletions@,
                    table_id@,
                    self.data.pending_deletions@.len() - 1,
                );
                assert(self.data.pending_deletions@.last().data_files@.map_values(
                    |s: String| s@,
                ) =~= table@.data_files);
            }
            Ok((table, None))
        } else {
            let removal = FileRemoval {
                data_files: clone_string_list(&table.data_files),
                table_dir,
            };
            proof {
                assert(removal.data_files@.map_values(|s: String| s@) =~= table@.data_files);
            }
            Ok((table, Some(removal)))
        }
    }

    /// Reclaim every pending deletion that no query is reading any more:
    /// tombstones with an active reader are kept, in order; the rest are
    /// removed and their files and directories returned for removal, in
    /// order.  Called at startup, when nothing is being read, it drains the
    /// whole list; an immediately repeated call changes nothing more.
    pub fn cleanup_pending_deletions(&mut self) -> (r: Vec<FileRemoval>)
        requires
            old(self).well_formed(),
        ensures
            final(self).well_formed(),
            final(self).data.tables@ == old(self).data.tables@,
            final(self).access_tracker == old(self).access_tracker,
            final(self).data.pending_deletions@ == spec_kept_pendings(
                old(self).data.pending_deletions@,
                old(self).access_tracker.entries@,
            ),
            r@.len() == spec_reclaimed_pendings(
                old(self).data.pending_deletions@,
                old(self).access_tracker.entries@,
            ).len(),
            forall|k: int| 0 <= k < r@.len() ==> (#[trigger] r@[k]).data_files
                == spec_reclaimed_pendings(
                old(self).data.pending_deletions@,
                old(self).access_tracker.entries@,
            )[k].data_files && r@[k].table_dir == spec_reclaimed_pendings(
                old(self).data.pending_deletions@,
                old(self).access_tracker.entries@,
            )[k].table_dir,
            old(self).access_tracker.entries@.len() == 0 ==> final(self).data.pending_deletions@.len() == 0,
    {
        let mut kept: Vec<PendingDeletion> = Vec::new();
        let mut removals: Vec<FileRemoval> = Vec::new();
        let ghost old_pends = self.data.pending_deletions@;
        let ghost entries = self.access_tracker.entries@;
        let ghost mut reclaimed: Seq<PendingDeletion> = Seq::empty();
        let ghost mut processed: int = 0;
        proof {
            assert(old_pends.skip(0) =~= old_pends);
            assert(kept@ + spec_kept_pendings(old_pends, entries) =~= spec_kept_pendings(
                old_pends,
                entries,
            ));
            assert(reclaimed + spec_reclaimed_pendings(old_pends, entries)
                =~= spec_reclaimed_pendings(old_pends, entries));
        }
        while self.data.pending_deletions.len() > 0
            invariant
                old(self).well_formed(),
                self.data.tables@ == old(self).data.tables@,
                self.access_tracker == old(self).access_tracker,
                entries == old(self).access_tracker.entries@,
                old_pends == old(self).data.pending_deletions@,
                0 <= processed <= old_pends.len(),
                self.data.pending_deletions@ == old_pends.skip(processed),
                kept@ + spec_kept_pendings(self.data.pending_deletions@, entries)
                    == spec_kept_pendings(old_pends, entries),
                reclaimed + spec_reclaimed_pendings(self.data.pending_deletions@, entries)
                    == spec_reclaimed_pendings(old_pends, entries),
                removals@.len() == reclaimed.len(),
                forall|k: int| 0 <= k < removals@.len() ==> (#[trigger] removals@[k]).data_files
                    == reclaimed[k].data_files && removals@[k].table_dir
                    == reclaimed[k].table_dir,
                forall|k: int| 0 <= k < kept@.len() ==> exists|j: int|
                    0 <= j < processed && (#[trigger] kept@[k]) == old_pends[j],
                forall|p: int, q: int|
                    0 <= p < q < kept@.len() ==> (#[trigger] kept@[p].table_id@) != (
                    #[trigger] kept@[q].table_id@),
                forall|p: int, q: int|
                    0 <= p < self.data.tables@.len() && 0 <= q < kept@.len() ==> (
                    #[trigger] self.data.tables@[p].table_id@) != (
                    #[trigger] kept@[q].table_id@),
                entries.len() == 0 ==> kept@.len() == 0,
            decreases self.data.pending_deletions@.len(),
        {
            let ghost rem_pre = self.data.pending_deletions@;
            let pd: PendingDeletion = self.data.pending_deletions.remove(0);
            let ghost pd_v: PendingDeletion = pd;
            proof {
                assert(rem_pre[0] == pd_v);
                assert(self.data.pending_deletions@ =~= rem_pre.drop_first());
                assert(rem_pre.drop_first() =~= old_pends.skip(processed + 1));
                assert(old_pends[processed] == pd_v);
            }
            let held: bool = self.access_tracker.has_active_accesses(pd.table_id.as_str());
            if held {
                proof {
                    assert(spec_kept_pendings(rem_pre, entries) == seq![pd_v]
                        + spec_kept_pendings(rem_pre.drop_first(), entries));
                    assert(spec_reclaimed_pendings(rem_pre, entries) == spec_reclaimed_pendings(
                        rem_pre.drop_first(),
                        entries,
                    ));
                }
                let ghost pre_kept = kept@;
                kept.push(pd);
                proof {
                    assert(pre_kept + (seq![pd_v] + spec_kept_pendings(
                        rem_pre.drop_first(),
                        entries,
                    )) =~= kept@ + spec_kept_pendings(rem_pre.drop_first(), entries));
                    assert forall|k: int| 0 <= k < kept@.len() implies exists|j: int|
                        0 <= j < processed + 1 && (#[trigger] kept@[k]) == old_pends[j] by {
                        if k < pre_kept.len() {
                            assert(kept@[k] == pre_kept[k]);
                            let jj = choose|j: int|
                                0 <= j < processed && (#[trigger] pre_kept[k]) == old_pends[j];
                            assert(0 <= jj < processed + 1 && kept@[k] == old_pends[jj]);
                        } else {
                            assert(kept@[k] == old_pends[processed]);
                        }
                    }
                    assert forall|p: int, q: int| 0 <= p < q < kept@.len() implies (
                    #[trigger] kept@[p].table_id@) != (#[trigger] kept@[q].table_id@) by {
                        assert(kept@[p] == pre_kept[p]);
                        if q < pre_kept.len() {
                            assert(kept@[q] == pre_kept[q]);
                        } else {
                            let jp = choose|j: int|
                                0 <= j < processed && (#[trigger] pre_kept[p]) == old_pends[j];
                            assert(old_pends[jp].table_id@ != old_pends[processed].table_id@);
                        }
                    }
                    assert forall|p: int, q: int|
                        0 <= p < self.data.tables@.len() && 0 <= q < kept@.len() implies (
                    #[trigger] self.data.tables@[p].table_id@) != (
                    #[trigger] kept@[q].table_id@) by {
                        if q < pre_kept.len() {
                            assert(kept@[q] == pre_kept[q]);
                        } else {
                            assert(kept@[q] == old_pends[processed]);
                            assert(old(self).data.tables@[p].table_id@ != old(self).data.pending_deletions@[processed].table_id@);
                        }
                    }
                    if entries.len() == 0 {
                        assert(spec_find_entry(entries, pd_v.table_id@) is None);
                        assert(false);
                    }
                    processed = processed + 1;
                }
            } else {
                proof {
                    assert(spec_reclaimed_pendings(rem_pre, entries) == seq![pd_v]
                        + spec_reclaimed_pendings(rem_pre.drop_first(), entries));
                    assert(spec_kept_pendings(rem_pre, entries) == spec_kept_pendings(
                        rem_pre.drop_first(),
                        entries,
                    ));
                }
                let ghost pre_reclaimed = reclaimed;
                removals.push(FileRemoval { data_files: pd.data_files, table_dir: pd.table_dir });
                proof {
                    reclaimed = pre_reclaimed.push(pd_v);
                    assert(pre_reclaimed + (seq![pd_v] + spec_reclaimed_pendings(
                        rem_pre.drop_first(),
                        entries,
                    )) =~= reclaimed + spec_reclaimed_pendings(rem_pre.drop_first(), entries));
                    assert(removals@[removals@.len() - 1].data_files == pd_v.data_files);
                    assert(removals@[removals@.len() - 1].table_dir == pd_v.table_dir);
                    processed = processed + 1;
                }
            }
        }
        proof {
            assert(self.data.pending_deletions@ =~= Seq::<PendingDeletion>::empty());
            assert(spec_kept_pendings(Seq::<PendingDeletion>::empty(), entries)
                == Seq::<PendingDeletion>::empty());
            assert(spec_reclaimed_pendings(Seq::<PendingDeletion>::empty(), entries)
                == Seq::<PendingDeletion>::empty());
            assert(kept@ + Seq::<PendingDeletion>::empty() =~= kept@);
            assert(reclaimed + Seq::<PendingDeletion>::empty() =~= reclaimed);
        }
        self.data.pending_deletions = kept;
        removals
    }
}

} // verus!
