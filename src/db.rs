//! The catalog and the query executor.
use vstd::prelude::*;

use crate::asl::{
    all_evaluate, first_failure, eval, find_column, lemma_find_column_from, same_text, values_view,
    CreateTableQuery, DropTableQuery, InsertQuery, Query, Record, SelectQuery, Table,
};
use crate::errors::{validation_error, QueryError, SystemError};
use crate::fs::{
    apply_write, insert_outcome, insert_succeeds, last_page_of, lemma_insert_then_scan, projection,
    select_outcome, strings_view, table_rows, DBFileSystem, PageWrite,
};
use crate::pages::{
    column_types, encode_item, field_bytes, fields_bytes, matches_schema, strings_fit, PAGE_DATA_SIZE,
    PAGE_SIZE,
};
use crate::value::{concat_strings, float_unit_ok, type_of, FloatOp, Value, ValueView};

verus! {

/// The catalog: the tables of the database, with unique names.
#[derive(Debug)]
pub struct DatabaseDefinition {
    tables: Vec<Table>,
}

/// The first index at or after `i` of a table named `name`.
pub open spec fn table_index_from(tables: Seq<Table>, name: Seq<char>, i: int) -> Option<int>
    decreases tables.len() - i,
{
    if i < 0 || i >= tables.len() {
        None
    } else if tables[i].name@ == name {
        Some(i)
    } else {
        table_index_from(tables, name, i + 1)
    }
}

/// The index of the table named `name`.
pub open spec fn table_index(tables: Seq<Table>, name: Seq<char>) -> Option<int> {
    table_index_from(tables, name, 0)
}

proof fn lemma_table_index_from(tables: Seq<Table>, name: Seq<char>, i: int)
    requires
        0 <= i,
    ensures
        table_index_from(tables, name, i) matches Some(k) ==> i <= k < tables.len() && tables[k].name@
            == name,
        table_index_from(tables, name, i) is None ==> forall|j: int|
            i <= j < tables.len() ==> tables[j].name@ != name,
    decreases tables.len() - i,
{
    if i < tables.len() && tables[i].name@ != name {
        lemma_table_index_from(tables, name, i + 1);
    }
}

/// No two tables share a name.
pub open spec fn unique_names(tables: Seq<Table>) -> bool {
    forall|i: int, j: int|
        0 <= i < tables.len() && 0 <= j < tables.len() && i != j ==> (#[trigger] tables[i]).name@
            != (#[trigger] tables[j]).name@
}

impl DatabaseDefinition {
    pub closed spec fn tables(self) -> Seq<Table> {
        self.tables@
    }

    pub open spec fn wf(self) -> bool {
        unique_names(self.tables())
    }

    /// The table named `name`, if any.
    pub open spec fn lookup(self, name: Seq<char>) -> Option<Table> {
        match table_index(self.tables(), name) {
            Some(k) => Some(self.tables()[k]),
            None => None,
        }
    }

    /// An empty catalog.
    pub fn new() -> (r: DatabaseDefinition)
        ensures
            r.wf(),
            r.tables() == Seq::<Table>::empty(),
    {
        DatabaseDefinition { tables: Vec::new() }
    }

    /// A catalog of `tables`, or `None` when two of them share a name.
    #[verifier::rlimit(40)]
    pub fn from_tables(tables: Vec<Table>) -> (r: Option<DatabaseDefinition>)
        ensures
            r is Some <==> unique_names(tables@),
            r matches Some(d) ==> d.tables() == tables@,
    {
        let n = tables.len();
        let mut i: usize = 0;
        while i < n
            invariant
                n == tables@.len(),
                i <= n,
                forall|a: int, b: int|
                    0 <= a < i && 0 <= b < n && a != b ==> (#[trigger] tables@[a]).name@ != (
                    #[trigger] tables@[b]).name@,
            decreases n - i,
        {
            let mut j: usize = 0;
            while j < n
                invariant
                    n == tables@.len(),
                    i < n,
                    j <= n,
                    forall|a: int, b: int|
                        0 <= a < i && 0 <= b < n && a != b ==> (#[trigger] tables@[a]).name@ != (
                        #[trigger] tables@[b]).name@,
                    forall|b: int| 0 <= b < j && b != i ==> tables@[i as int].name@ != (
                    #[trigger] tables@[b]).name@,
                decreases n - j,
            {
                if j != i && same_text(tables[i].name.as_str(), tables[j].name.as_str()) {
                    return None;
                }
                j += 1;
            }
            i += 1;
        }
        Some(DatabaseDefinition { tables })
    }

    /// The tables of the catalog, in the order they were created.
    pub fn get_tables(&self) -> (r: &Vec<Table>)
        ensures
            r@ == self.tables(),
    {
        &self.tables
    }

    /// The index of the table named `name`.
    pub fn find(&self, name: &str) -> (r: Option<usize>)
        ensures
            r matches Some(k) ==> table_index(self.tables(), name@) == Some(k as int),
            r is None ==> table_index(self.tables(), name@) is None,
    {
        let mut i: usize = 0;
        while i < self.tables.len()
            invariant
                i <= self.tables@.len(),
                table_index(self.tables@, name@) == table_index_from(self.tables@, name@, i as int),
            decreases self.tables@.len() - i,
        {
            if same_text(self.tables[i].name.as_str(), name) {
                return Some(i);
            }
            i += 1;
        }
        None
    }
}

/// The database: its catalog and where its files live.
#[derive(Debug)]
pub struct Database {
    db_definition: DatabaseDefinition,
    db_filesystem: DBFileSystem,
}

/// What a query leaves for the file system to do once the catalog has decided.
#[derive(Debug)]
pub enum QueryOutput {
    /// The rows that a select found.
    Rows(Vec<Record>),
    /// A page to write into the table's data file at its offset.
    Write(PageWrite),
    /// A table joined the catalog: create its empty data file at this path and
    /// store the catalog.
    Created(String),
    /// A table left the catalog: delete its data file at this path and store the
    /// catalog.
    Dropped(String),
}

/// An inserted value fits its column: the column exists and the value has its type.
pub open spec fn insert_column_ok(table: Table, name: Seq<char>, v: ValueView) -> bool {
    match find_column(table.columns@, name) {
        Some(k) => type_of(v) == Some(table.columns@[k].column_type),
        None => false,
    }
}

/// An insert names as many columns as it gives values, and each value fits its column.
pub open spec fn insert_valid(table: Table, columns: Seq<Seq<char>>, vals: Seq<ValueView>) -> bool {
    &&& columns.len() == vals.len()
    &&& forall|j: int| 0 <= j < columns.len() ==> #[trigger] insert_column_ok(table, columns[j], vals[j])
}

/// The first index at or after `i` of `name` among `names`.
pub open spec fn name_position(names: Seq<Seq<char>>, name: Seq<char>, i: int) -> Option<int>
    decreases names.len() - i,
{
    if i < 0 || i >= names.len() {
        None
    } else if names[i] == name {
        Some(i)
    } else {
        name_position(names, name, i + 1)
    }
}

proof fn lemma_name_position(names: Seq<Seq<char>>, name: Seq<char>, i: int)
    requires
        0 <= i,
    ensures
        name_position(names, name, i) matches Some(k) ==> i <= k < names.len() && names[k] == name,
    decreases names.len() - i,
{
    if i < names.len() && names[i] != name {
        lemma_name_position(names, name, i + 1);
    }
}

/// The record that an insert stores: in schema order, each column's value from
/// its first mention in the insert, null for a column that it does not name.
pub open spec fn insert_row(table: Table, columns: Seq<Seq<char>>, vals: Seq<ValueView>) -> Seq<ValueView> {
    Seq::new(
        table.columns@.len(),
        |i: int|
            match name_position(columns, table.columns@[i].name@, 0) {
                Some(j) => vals[j],
                None => ValueView::Null,
            },
    )
}

/// The values that the inserted expressions evaluate to.
pub open spec fn evaluated_values<F: Fn(FloatOp) -> u32>(q: InsertQuery, unit: F) -> Seq<ValueView> {
    Seq::new(q.values@.len(), |i: int| eval(*q.values@[i], None, unit)->Ok_0)
}

/// What a select returns against `catalog` and the table file `file`.
pub open spec fn select_query_outcome<F: Fn(FloatOp) -> u32>(
    catalog: DatabaseDefinition,
    q: SelectQuery,
    file: Seq<u8>,
    unit: F,
    r: Result<Vec<Record>, QueryError>,
) -> bool {
    match catalog.lookup(q.table@) {
        None => r matches Err(e) && e is NotFound && e.text() == q.table@,
        Some(t) => select_outcome(file, t, strings_view(q.columns@), q.condition, unit, r),
    }
}

/// What an insert writes against `catalog` and the table file `file`.
pub open spec fn insert_query_outcome<F: Fn(FloatOp) -> u32>(
    catalog: DatabaseDefinition,
    q: InsertQuery,
    file: Seq<u8>,
    unit: F,
    r: Result<PageWrite, QueryError>,
) -> bool {
    match catalog.lookup(q.table@) {
        None => r matches Err(e) && e is NotFound && e.text() == q.table@,
        Some(t) => if !all_evaluate(q.values@, unit) {
            r matches Err(e) && e is ValidationError && first_failure(q.values@, unit, e.text())
        } else if !insert_valid(t, strings_view(q.columns@), evaluated_values(q, unit)) {
            r matches Err(e) && e is ValidationError
        } else {
            let item = encode_item(insert_row(t, strings_view(q.columns@), evaluated_values(q, unit)));
            let lp = last_page_of(file);
            &&& r is Ok <==> insert_succeeds(file.len() as u64, lp, item)
            &&& r matches Ok(w) ==> insert_outcome(file.len() as u64, lp, item, w)
            &&& r matches Err(e) ==> e is ValidationError
        },
    }
}

/// What a create table leaves: a conflict and the same catalog when the name is
/// taken, else the table last in the catalog and the path of its data file.
pub open spec fn create_outcome(before: Database, after: Database, q: CreateTableQuery, r: Result<String, QueryError>) -> bool {
    &&& after.wf()
    &&& after.files() == before.files()
    &&& before.catalog().lookup(q.table@) is Some ==> (r matches Err(e) && e is Conflict && e.text()
        == q.table@) && after.catalog() == before.catalog()
    &&& before.catalog().lookup(q.table@) is None ==> (r matches Ok(p) && p@ == before.files().base_path()
        + "/"@ + q.table@ + "_data.csbase"@) && after.catalog().tables() == before.catalog().tables().push(
        Table { name: q.table, columns: q.columns },
    )
}

/// What a drop table leaves: not found and the same catalog for an unknown
/// name, else the catalog without the table and the path of its data file.
pub open spec fn drop_outcome(before: Database, after: Database, q: DropTableQuery, r: Result<String, QueryError>) -> bool {
    &&& after.wf()
    &&& after.files() == before.files()
    &&& table_index(before.catalog().tables(), q.table@) is None ==> (r matches Err(e) && e is NotFound
        && e.text() == q.table@) && after.catalog() == before.catalog()
    &&& table_index(before.catalog().tables(), q.table@) matches Some(k) ==> (r matches Ok(p) && p@
        == before.files().base_path() + "/"@ + q.table@ + "_data.csbase"@) && after.catalog().tables()
        == before.catalog().tables().remove(k)
}

/// The data file path of a create table's output.
pub open spec fn created_of(r: Result<QueryOutput, QueryError>) -> Result<String, QueryError> {
    match r {
        Ok(QueryOutput::Created(p)) => Ok(p),
        Ok(_) => arbitrary(),
        Err(e) => Err(e),
    }
}

/// The data file path of a drop table's output.
pub open spec fn dropped_of(r: Result<QueryOutput, QueryError>) -> Result<String, QueryError> {
    match r {
        Ok(QueryOutput::Dropped(p)) => Ok(p),
        Ok(_) => arbitrary(),
        Err(e) => Err(e),
    }
}

/// The rows of a select's output.
pub open spec fn rows_of(r: Result<QueryOutput, QueryError>) -> Result<Vec<Record>, QueryError> {
    match r {
        Ok(QueryOutput::Rows(rows)) => Ok(rows),
        Ok(_) => arbitrary(),
        Err(e) => Err(e),
    }
}

/// The page write of an insert's output.
pub open spec fn write_of(r: Result<QueryOutput, QueryError>) -> Result<PageWrite, QueryError> {
    match r {
        Ok(QueryOutput::Write(w)) => Ok(w),
        Ok(_) => arbitrary(),
        Err(e) => Err(e),
    }
}

impl Database {
    pub closed spec fn catalog(self) -> DatabaseDefinition {
        self.db_definition
    }

    pub closed spec fn files(self) -> DBFileSystem {
        self.db_filesystem
    }

    pub open spec fn wf(self) -> bool {
        self.catalog().wf()
    }

    /// A database with an empty catalog whose files live under `base_path`.
    pub fn new(base_path: String) -> (r: Database)
        ensures
            r.wf(),
            r.catalog().tables() == Seq::<Table>::empty(),
            r.files().base_path() == base_path@,
    {
        Database {
            db_definition: DatabaseDefinition::new(),
            db_filesystem: DBFileSystem::new(base_path),
        }
    }

    /// Start-up: fails with the error of preparing the base directory, and
    /// otherwise adopts the stored catalog when one could be loaded.
    pub fn bootstrap(&mut self, base_path_ready: Result<(), SystemError>, loaded: Option<DatabaseDefinition>) -> (r: Result<(), SystemError>)
        requires
            old(self).wf(),
            loaded matches Some(d) ==> d.wf(),
        ensures
            final(self).wf(),
            final(self).files() == old(self).files(),
            base_path_ready is Err ==> r == base_path_ready && final(self).catalog() == old(self).catalog(),
            base_path_ready is Ok ==> r is Ok && final(self).catalog() == match loaded {
                Some(d) => d,
                None => old(self).catalog(),
            },
    {
        match base_path_ready {
            Err(e) => Err(e),
            Ok(()) => {
                match loaded {
                    Some(definition) => {
                        self.db_definition = definition;
                    },
                    None => {},
                }
                Ok(())
            },
        }
    }

    /// The catalog.
    pub fn definition(&self) -> (r: &DatabaseDefinition)
        ensures
            *r == self.catalog(),
    {
        &self.db_definition
    }

    /// The table named `table_name`.
    pub fn get_table(&self, table_name: &str) -> (r: Result<&Table, QueryError>)
        requires
            self.wf(),
        ensures
            match self.catalog().lookup(table_name@) {
                Some(t) => r matches Ok(x) && *x == t,
                None => r matches Err(e) && e is NotFound && e.text() == table_name@,
            },
    {
        match self.db_definition.find(table_name) {
            Some(k) => {
                proof {
                    lemma_table_index_from(self.catalog().tables(), table_name@, 0);
                }
                Ok(&self.db_definition.tables[k])
            },
            None => Err(QueryError::NotFound(table_name.to_owned())),
        }
    }

    /// The path of the data file of the table named `table_name`.
    pub fn table_data_path(&self, table_name: &str) -> (r: Result<String, QueryError>)
        requires
            self.wf(),
        ensures
            match self.catalog().lookup(table_name@) {
                Some(t) => r matches Ok(p) && p@ == self.files().base_path() + "/"@ + table_name@
                    + "_data.csbase"@,
                None => r matches Err(e) && e is NotFound && e.text() == table_name@,
            },
    {
        let _ = self.get_table(table_name)?;
        Ok(self.db_filesystem.get_table_data_path(table_name))
    }

    /// Checks a select before it runs: the table and each projected column exist.
    pub fn validate_select(&self, query: &SelectQuery) -> (r: Result<(), QueryError>)
        requires
            self.wf(),
        ensures
            match self.catalog().lookup(query.table@) {
                None => r matches Err(e) && e is NotFound && e.text() == query.table@,
                Some(t) => match projection(t.columns@, strings_view(query.columns@)) {
                    Ok(_) => r is Ok,
                    Err(m) => r matches Err(e) && e is NotFound && e.text() == m,
                },
            },
    {
        let table = self.get_table(query.table.as_str())?;
        let _ = crate::fs::projection_indices(table, &query.columns)?;
        Ok(())
    }

    /// Runs a select against the table file `file`.
    pub fn run_select<F: Fn(FloatOp) -> u32>(&self, query: SelectQuery, file: &[u8], unit: &F) -> (r: Result<Vec<Record>, QueryError>)
        requires
            self.wf(),
            float_unit_ok(*unit),
        ensures
            select_query_outcome(self.catalog(), query, file@, *unit, r),
    {
        let table = self.get_table(query.table.as_str())?;
        self.db_filesystem.select_records(table, file, &query.columns, &query.condition, unit)
    }
}

/// The position of the first of `names` equal to `name`.
pub fn position_in(names: &Vec<String>, name: &String) -> (r: Option<usize>)
    ensures
        r matches Some(j) ==> name_position(strings_view(names@), name@, 0) == Some(j as int),
        r is None ==> name_position(strings_view(names@), name@, 0) is None,
{
    let ghost sv = strings_view(names@);
    let mut j: usize = 0;
    while j < names.len()
        invariant
            sv == strings_view(names@),
            j <= names@.len(),
            name_position(sv, name@, 0) == name_position(sv, name@, j as int),
        decreases names@.len() - j,
    {
        if same_text(names[j].as_str(), name.as_str()) {
            return Some(j);
        }
        j += 1;
    }
    None
}

/// The record that an insert of `values` into `columns` stores in `table`.
#[verifier::rlimit(40)]
pub fn record_for_insert(table: &Table, columns: &Vec<String>, values: &Vec<Value>) -> (r: Record)
    requires
        columns@.len() == values@.len(),
    ensures
        r.view_values() == insert_row(*table, strings_view(columns@), values_view(values@)),
{
    let ghost names = strings_view(columns@);
    let ghost target = insert_row(*table, names, values_view(values@));
    let mut out: Vec<Value> = Vec::new();
    let mut i: usize = 0;
    while i < table.columns.len()
        invariant
            columns@.len() == values@.len(),
            names == strings_view(columns@),
            target == insert_row(*table, names, values_view(values@)),
            i <= table.columns@.len(),
            values_view(out@) == target.subrange(0, i as int),
        decreases table.columns@.len() - i,
    {
        let name = &table.columns[i].name;
        let found = position_in(columns, name);
        proof {
            lemma_name_position(names, name@, 0);
        }
        let ghost before = values_view(out@);
        let value = match found {
            Some(j) => values[j].clone(),
            None => Value::Null,
        };
        out.push(value);
        assert(values_view(out@) =~= before.push(target[i as int]));
        i += 1;
        assert(values_view(out@) =~= target.subrange(0, i as int));
    }
    assert(target.subrange(0, i as int) =~= target);
    Record { values: out }
}

impl Database {
    /// Checks the values of an insert against `table`: as many values as columns,
    /// each column in the table, each value of its column's type.
    #[verifier::rlimit(40)]
    pub fn validate_insert(&self, table: &Table, query: &InsertQuery, evaluated_expressions: &Vec<Value>) -> (r: Result<(), QueryError>)
        ensures
            r is Ok <==> insert_valid(*table, strings_view(query.columns@), values_view(evaluated_expressions@)),
            r matches Err(e) ==> e is ValidationError,
    {
        let ghost names = strings_view(query.columns@);
        let ghost vals = values_view(evaluated_expressions@);
        if query.columns.len() != evaluated_expressions.len() {
            return Err(validation_error("The number of columns and values doesn't match"));
        }
        let mut idx: usize = 0;
        while idx < query.columns.len()
            invariant
                names == strings_view(query.columns@),
                vals == values_view(evaluated_expressions@),
                query.columns@.len() == evaluated_expressions@.len(),
                idx <= query.columns@.len(),
                forall|j: int| 0 <= j < idx ==> #[trigger] insert_column_ok(*table, names[j], vals[j]),
            decreases query.columns@.len() - idx,
        {
            let column_name = &query.columns[idx];
            let value = &evaluated_expressions[idx];
            proof {
                lemma_find_column_from(table.columns@, column_name@, 0);
            }
            let table_column = match table.get_column(column_name.as_str()) {
                Some(col) => col,
                None => {
                    assert(!insert_column_ok(*table, names[idx as int], vals[idx as int]));
                    let msg = concat_strings("The column ".to_owned(), column_name.as_str());
                    let msg = concat_strings(msg, " doesn't exist in ");
                    let msg = concat_strings(msg, table.name.as_str());
                    return Err(QueryError::ValidationError(msg));
                },
            };
            if !value.has_type(&table_column.column_type) {
                assert(!insert_column_ok(*table, names[idx as int], vals[idx as int]));
                let msg = concat_strings("Incorrect value type for column ".to_owned(), column_name.as_str());
                return Err(QueryError::ValidationError(msg));
            }
            assert(insert_column_ok(*table, names[idx as int], vals[idx as int]));
            idx += 1;
        }
        Ok(())
    }

    /// Runs an insert against the table file `file`: evaluates the values,
    /// validates them and decides which page to write.
    #[verifier::rlimit(40)]
    pub fn run_insert<F: Fn(FloatOp) -> u32>(&self, query: InsertQuery, file: &[u8], unit: &F) -> (r: Result<PageWrite, QueryError>)
        requires
            self.wf(),
            float_unit_ok(*unit),
        ensures
            insert_query_outcome(self.catalog(), query, file@, *unit, r),
    {
        let table = self.get_table(query.table.as_str())?;
        let evaluated_expressions = query.evaluate_expressions(unit)?;
        assert(values_view(evaluated_expressions@) =~= evaluated_values(query, *unit));
        self.validate_insert(table, &query, &evaluated_expressions)?;
        let record = record_for_insert(table, &query.columns, &evaluated_expressions);
        let file_len = file.len() as u64;
        let n = file.len() / PAGE_SIZE;
        let last_page = if n > 0 {
            assert(n * PAGE_SIZE <= file@.len()) by (nonlinear_arith)
                requires
                    n == file@.len() as int / 8192,
            ;
            Some(vstd::slice::slice_subrange(file, (n - 1) * PAGE_SIZE, n * PAGE_SIZE))
        } else {
            None
        };
        assert(file_len / PAGE_SIZE as u64 == n);
        self.db_filesystem.insert_record(file_len, last_page, &record)
    }

    /// Runs a create table: a conflict, with the catalog unchanged, when the
    /// name is taken; else the table joins the catalog and the path of its data
    /// file comes back.
    #[verifier::rlimit(40)]
    pub fn run_create_table(&mut self, query: CreateTableQuery) -> (r: Result<String, QueryError>)
        requires
            old(self).wf(),
        ensures
            create_outcome(*old(self), *final(self), query, r),
    {
        if self.db_definition.find(query.table.as_str()).is_some() {
            return Err(QueryError::Conflict(query.table));
        }
        let path = self.db_filesystem.get_table_data_path(query.table.as_str());
        let table = Table { name: query.table, columns: query.columns };
        let ghost old_tables = self.db_definition.tables@;
        proof {
            lemma_table_index_from(old_tables, table.name@, 0);
        }
        self.db_definition.tables.push(table);
        assert(unique_names(self.db_definition.tables@)) by {
            let t = self.db_definition.tables@;
            assert forall|i: int, j: int|
                0 <= i < t.len() && 0 <= j < t.len() && i != j implies (#[trigger] t[i]).name@ != (
            #[trigger] t[j]).name@ by {
                if i < old_tables.len() && j < old_tables.len() {
                    assert(t[i] == old_tables[i] && t[j] == old_tables[j]);
                }
            }
        }
        Ok(path)
    }

    /// Runs a drop table: not found, with the catalog unchanged, for an unknown
    /// name; else the table leaves the catalog and the path of its data file
    /// comes back.
    #[verifier::rlimit(40)]
    pub fn run_drop_table(&mut self, query: DropTableQuery) -> (r: Result<String, QueryError>)
        requires
            old(self).wf(),
        ensures
            drop_outcome(*old(self), *final(self), query, r),
    {
        match self.db_definition.find(query.table.as_str()) {
            None => Err(QueryError::NotFound(query.table)),
            Some(k) => {
                let path = self.db_filesystem.get_table_data_path(query.table.as_str());
                proof {
                    lemma_table_index_from(self.db_definition.tables@, query.table@, 0);
                }
                let ghost old_tables = self.db_definition.tables@;
                let _ = self.db_definition.tables.remove(k);
                assert(unique_names(self.db_definition.tables@)) by {
                    let t = self.db_definition.tables@;
                    assert forall|i: int, j: int|
                        0 <= i < t.len() && 0 <= j < t.len() && i != j implies (#[trigger] t[i]).name@
                        != (#[trigger] t[j]).name@ by {
                        let oi = if i < k { i } else { i + 1 };
                        let oj = if j < k { j } else { j + 1 };
                        assert(t[i] == old_tables[oi] && t[j] == old_tables[oj]);
                    }
                }
                Ok(path)
            },
        }
    }

    /// Runs a parsed query. `file` holds the named table's data file for a select
    /// or an insert.
    #[verifier::rlimit(40)]
    pub fn run_query<F: Fn(FloatOp) -> u32>(&mut self, query: Query, file: &[u8], unit: &F) -> (r: Result<QueryOutput, QueryError>)
        requires
            old(self).wf(),
            float_unit_ok(*unit),
        ensures
            final(self).wf(),
            final(self).files() == old(self).files(),
            match query {
                Query::Select(q) => final(self).catalog() == old(self).catalog() && (r matches Ok(o) ==> o is Rows)
                    && select_query_outcome(old(self).catalog(), q, file@, *unit, rows_of(r)),
                Query::Insert(q) => final(self).catalog() == old(self).catalog() && (r matches Ok(o) ==> o is Write)
                    && insert_query_outcome(old(self).catalog(), q, file@, *unit, write_of(r)),
                Query::CreateTable(q) => (r matches Ok(o) ==> o is Created) && create_outcome(
                    *old(self),
                    *final(self),
                    q,
                    created_of(r),
                ),
                Query::DropTable(q) => (r matches Ok(o) ==> o is Dropped) && drop_outcome(
                    *old(self),
                    *final(self),
                    q,
                    dropped_of(r),
                ),
            },
    {
        match query {
            Query::Select(q) => match self.run_select(q, file, unit) {
                Ok(rows) => Ok(QueryOutput::Rows(rows)),
                Err(e) => Err(e),
            },
            Query::Insert(q) => match self.run_insert(q, file, unit) {
                Ok(w) => Ok(QueryOutput::Write(w)),
                Err(e) => Err(e),
            },
            Query::CreateTable(q) => match self.run_create_table(q) {
                Ok(path) => Ok(QueryOutput::Created(path)),
                Err(e) => Err(e),
            },
            Query::DropTable(q) => match self.run_drop_table(q) {
                Ok(path) => Ok(QueryOutput::Dropped(path)),
                Err(e) => Err(e),
            },
        }
    }
}

/// No two columns of the table share a name.
pub open spec fn unique_columns(t: Table) -> bool {
    forall|i: int, j: int|
        0 <= i < t.columns@.len() && 0 <= j < t.columns@.len() && i != j ==> (#[trigger] t.columns@[i]).name@
            != (#[trigger] t.columns@[j]).name@
}

proof fn lemma_field_within_fields(vals: Seq<ValueView>, i: int)
    requires
        0 <= i < vals.len(),
    ensures
        field_bytes(vals[i]).len() <= fields_bytes(vals).len(),
    decreases vals.len(),
{
    if i < vals.len() - 1 {
        lemma_field_within_fields(vals.drop_last(), i);
        assert(vals.drop_last()[i] == vals[i]);
    }
}

/// The record that a valid insert stores fits the table's schema.
proof fn lemma_insert_row_fits(t: Table, columns: Seq<Seq<char>>, vals: Seq<ValueView>)
    requires
        unique_columns(t),
        insert_valid(t, columns, vals),
    ensures
        matches_schema(insert_row(t, columns, vals), column_types(t)),
{
    let row = insert_row(t, columns, vals);
    let types = column_types(t);
    assert forall|i: int| 0 <= i < row.len() implies (#[trigger] row[i] is Null || type_of(row[i]) == Some(types[i])) by {
        let name = t.columns@[i].name@;
        lemma_name_position(columns, name, 0);
        match name_position(columns, name, 0) {
            Some(j) => {
                assert(insert_column_ok(t, columns[j], vals[j]));
                lemma_find_column_from(t.columns@, name, 0);
                let k = find_column(t.columns@, name)->Some_0;
                if k != i {
                    assert(t.columns@[k].name@ != t.columns@[i].name@);
                }
            },
            None => {},
        }
    }
}

/// Insertion order, through the executor: when an insert into a sound table
/// file of a table with distinct column names succeeds, the written file holds
/// the records from before and then the inserted one.
pub proof fn lemma_insert_query_then_scan<F: Fn(FloatOp) -> u32>(
    catalog: DatabaseDefinition,
    q: InsertQuery,
    file: Seq<u8>,
    unit: F,
    w: PageWrite,
)
    requires
        catalog.lookup(q.table@) matches Some(t) && unique_columns(t) && table_rows(file, column_types(t)) is Some,
        file.len() <= u64::MAX,
        insert_query_outcome(catalog, q, file, unit, Ok(w)),
    ensures
        ({
            let t = catalog.lookup(q.table@)->Some_0;
            let row = insert_row(t, strings_view(q.columns@), evaluated_values(q, unit));
            table_rows(apply_write(file, w), column_types(t)) == Some(table_rows(file, column_types(t))->Some_0.push(row))
        }),
{
    let t = catalog.lookup(q.table@)->Some_0;
    let vals = evaluated_values(q, unit);
    let cols = strings_view(q.columns@);
    let row = insert_row(t, cols, vals);
    let types = column_types(t);
    lemma_insert_row_fits(t, cols, vals);
    let item = encode_item(row);
    assert(item.len() <= PAGE_DATA_SIZE);
    assert(strings_fit(row)) by {
        assert forall|i: int| 0 <= i < row.len() implies (#[trigger] row[i] matches ValueView::Str(s)
            ==> vstd::utf8::encode_utf8(s).len() <= u64::MAX) by {
            lemma_field_within_fields(row, i);
        }
    }
    assert(row.len() <= u64::MAX) by {
        assert(crate::pages::null_map_len(row.len()) <= PAGE_DATA_SIZE);
    }
    lemma_insert_then_scan(file, types, row, w);
}

} // verus!
