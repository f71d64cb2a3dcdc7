//! The table file engine: where files live, how inserts, scans and updates
//! read and write the pages of a table file.
use vstd::prelude::*;

use crate::asl::{
    eval, find_column, lemma_find_column_from, pairs_view, rows_view, values_view, Column,
    ColumnValue, Expression, Record, Table,
};
use crate::errors::{validation_error, QueryError};
use crate::pages::{
    added, column_types, decode_fields, empty_page, decode_item, encode_item, item_header_ok, lemma_decode_fields_len,
    lemma_item_round_trip, lemma_page_round_trip, matches_schema, null_map_len, page_of_bytes,
    page_ok, page_rows, strings_fit, unpack_bits, Item, Page, PageView, PAGE_DATA_SIZE, PAGE_SIZE,
    SLOT_SIZE,
};
use crate::value::{concat_strings, float_unit_ok, type_of, FloatOp, Type, Value, ValueView};

verus! {

/// Where the table files live, and how they are named.
#[derive(Debug)]
pub struct DBFileSystem {
    base_path: String,
}

/// A page to write into a table file at a byte offset.
#[derive(Debug)]
pub struct PageWrite {
    pub offset: u64,
    pub bytes: Vec<u8>,
}

/// Page `q` is page `p` with one more item, `bytes`, after the others.
pub open spec fn appended(p: PageView, q: PageView, bytes: Seq<u8>) -> bool {
    &&& q.id == p.id
    &&& q.slot_count() == p.slot_count() + 1
    &&& forall|k: int| 0 <= k < p.slot_count() ==> #[trigger] q.item_bytes(k) == p.item_bytes(k)
    &&& q.item_bytes(p.slot_count()) == bytes
}

/// An empty page with one item added holds just that item.
proof fn lemma_added_to_empty(id: u32, q: PageView, bytes: Seq<u8>)
    requires
        added(empty_page(id), q, bytes, Ok(())),
    ensures
        single_item_page(q, id, bytes),
{
    assert(empty_page(id).slot_count() == 0);
}

/// A page that holds `bytes` as its only item.
pub open spec fn single_item_page(q: PageView, id: u32, bytes: Seq<u8>) -> bool {
    &&& q.id == id
    &&& q.slot_count() == 1
    &&& q.item_bytes(0) == bytes
}

/// The item fits in an empty page.
pub open spec fn fits_empty_page(bytes: Seq<u8>) -> bool {
    bytes.len() + SLOT_SIZE <= PAGE_DATA_SIZE
}

/// The item fits in the free space of `p`.
pub open spec fn fits_page(p: PageView, bytes: Seq<u8>) -> bool {
    bytes.len() + SLOT_SIZE <= p.free_space_end - p.free_space_start
}

/// Where and what an insert writes, given the file length and its last page.
pub open spec fn insert_outcome(file_len: u64, last_page: Option<Seq<u8>>, item: Seq<u8>, w: PageWrite) -> bool {
    let n = file_len / PAGE_SIZE as u64;
    let q = page_of_bytes(w.bytes@);
    &&& w.bytes@.len() == PAGE_SIZE
    &&& q.wf()
    &&& if n == 0 {
        w.offset == 0 && added(empty_page(1), q, item, Ok(()))
    } else {
        let p = page_of_bytes(last_page->Some_0);
        if fits_page(p, item) {
            w.offset == (n - 1) * PAGE_SIZE && added(p, q, item, Ok(()))
        } else {
            w.offset == n * PAGE_SIZE && added(empty_page((p.id + 1) as u32), q, item, Ok(()))
        }
    }
}

/// The inputs on which an insert succeeds: the item fits in an empty page, and a
/// non-empty file comes with a sound last page, which either has room or is not
/// the last page id.
pub open spec fn insert_succeeds(file_len: u64, last_page: Option<Seq<u8>>, item: Seq<u8>) -> bool {
    let n = file_len / PAGE_SIZE as u64;
    &&& fits_empty_page(item)
    &&& n > 0 ==> {
        &&& last_page matches Some(b)
        &&& b.len() == PAGE_SIZE
        &&& page_of_bytes(b).wf()
        &&& (fits_page(page_of_bytes(b), item) || page_of_bytes(b).id < u32::MAX)
    }
}

impl DBFileSystem {
    /// A file system rooted at `base_path`, which is taken as it is (no `~`
    /// expansion).
    pub fn new(base_path: String) -> (r: DBFileSystem)
        ensures
            r.base_path() == base_path@,
    {
        DBFileSystem { base_path }
    }

    pub closed spec fn base_path(self) -> Seq<char> {
        self.base_path@
    }

    /// The path of `path` under the base directory.
    pub fn get_path(&self, path: &str) -> (r: String)
        ensures
            r@ == self.base_path() + "/"@ + path@,
    {
        let with_slash = concat_strings(self.base_path.clone(), "/");
        concat_strings(with_slash, path)
    }

    /// The path of the data file of the table named `table_name`.
    pub fn get_table_data_path(&self, table_name: &str) -> (r: String)
        ensures
            r@ == self.base_path() + "/"@ + table_name@ + "_data.csbase"@,
    {
        let file_name = concat_strings(table_name.to_owned(), "_data.csbase");
        let r = self.get_path(file_name.as_str());
        assert(r@ =~= self.base_path() + "/"@ + table_name@ + "_data.csbase"@);
        r
    }

    /// The path of the catalog file.
    pub fn get_definitions_path(&self) -> (r: String)
        ensures
            r@ == self.base_path() + "/"@ + "tables.def"@,
    {
        self.get_path("tables.def")
    }

    /// The offset of the last page of a table file of `file_len` bytes, which an
    /// insert needs to read; `None` for a file with no page.
    pub fn last_page_offset(file_len: u64) -> (r: Option<u64>)
        ensures
            r == if file_len / PAGE_SIZE as u64 > 0 {
                Some(((file_len / PAGE_SIZE as u64 - 1) * PAGE_SIZE) as u64)
            } else {
                None::<u64>
            },
    {
        let n = file_len / PAGE_SIZE as u64;
        if n > 0 {
            Some((n - 1) * PAGE_SIZE as u64)
        } else {
            None
        }
    }

    /// Decides how to insert `record` into a table file of `file_len` bytes whose
    /// last page holds `last_page`: into that page when it has room, else into a
    /// new page with the next id after it, and into page 1 of an empty file.
    #[verifier::rlimit(40)]
    pub fn insert_record(&self, file_len: u64, last_page: Option<&[u8]>, record: &Record) -> (r: Result<PageWrite, QueryError>)
        ensures
            ({
                let item = encode_item(record.view_values());
                let lp = match last_page {
                    Some(b) => Some(b@),
                    None => None::<Seq<u8>>,
                };
                &&& r is Ok <==> insert_succeeds(file_len, lp, item)
                &&& r matches Ok(w) ==> insert_outcome(file_len, lp, item, w)
                &&& r matches Err(e) ==> e is ValidationError
            }),
    {
        let ghost vals = record.view_values();
        let ghost lp = match last_page {
            Some(b) => Some(b@),
            None => None::<Seq<u8>>,
        };
        let item = Item::from_record(record);
        let item_data = item.to_page_data();
        assert(item_data@ =~= encode_item(vals));
        if item_data.len() > PAGE_DATA_SIZE - SLOT_SIZE {
            return Err(validation_error("Record too large for a page"));
        }
        let current_pages = file_len / PAGE_SIZE as u64;
        if current_pages == 0 {
            let mut page = Page::new(1);
            let added = page.add_item(&item);
            assert(added is Ok);
            let bytes = page.to_bytes();
            proof {
                lemma_page_round_trip(page@);
            }
            return Ok(PageWrite { offset: 0, bytes });
        }
        let page_bytes = match last_page {
            Some(b) => b,
            None => {
                return Err(validation_error("Missing last page of table file"));
            },
        };
        if page_bytes.len() != PAGE_SIZE {
            return Err(validation_error("Last page of table file is incomplete"));
        }
        let mut last = Page::from_bytes(page_bytes);
        if last.get_item_offset_and_sizes().is_err() {
            return Err(validation_error("Corrupt last page of table file"));
        }
        let ghost p = last@;
        match last.add_item(&item) {
            Ok(_) => {
                let bytes = last.to_bytes();
                proof {
                    lemma_page_round_trip(last@);
                }
                Ok(PageWrite { offset: (current_pages - 1) * PAGE_SIZE as u64, bytes })
            },
            Err(_) => {
                let last_id = last.get_id();
                if last_id == u32::MAX {
                    return Err(validation_error("No page id left for a new page"));
                }
                let mut new_page = Page::new(last_id + 1);
                let added = new_page.add_item(&item);
                assert(added is Ok);
                let bytes = new_page.to_bytes();
                proof {
                    lemma_page_round_trip(new_page@);
                }
                Ok(PageWrite { offset: current_pages * PAGE_SIZE as u64, bytes })
            },
        }
    }
}

/// Page `i` of a table file.
pub open spec fn file_page(file: Seq<u8>, i: int) -> PageView {
    page_of_bytes(file.subrange(i * PAGE_SIZE, (i + 1) * PAGE_SIZE))
}

/// The records of the first `n` pages of a table file, in file order; `None`
/// when one of those pages is unsound or holds an item that does not decode.
pub open spec fn file_rows(file: Seq<u8>, types: Seq<Type>, n: int) -> Option<Seq<Seq<ValueView>>>
    decreases n,
{
    if n <= 0 {
        Some(Seq::empty())
    } else {
        match file_rows(file, types, n - 1) {
            None => None,
            Some(acc) => if page_ok(file_page(file, n - 1), types) {
                Some(acc + page_rows(file_page(file, n - 1), types))
            } else {
                None
            },
        }
    }
}

/// The records of a table file; `None` when its length is not a whole number
/// of pages or a page fails to decode.
pub open spec fn table_rows(file: Seq<u8>, types: Seq<Type>) -> Option<Seq<Seq<ValueView>>> {
    if file.len() as int % PAGE_SIZE as int != 0 {
        None
    } else {
        file_rows(file, types, file.len() as int / PAGE_SIZE as int)
    }
}

proof fn lemma_file_rows_none(file: Seq<u8>, types: Seq<Type>, k: int, n: int)
    requires
        k <= n,
        file_rows(file, types, k) is None,
    ensures
        file_rows(file, types, n) is None,
    decreases n - k,
{
    if k < n {
        lemma_file_rows_none(file, types, k, n - 1);
    }
}

proof fn lemma_file_rows_pages_ok(file: Seq<u8>, types: Seq<Type>, n: int, i: int)
    requires
        0 <= i < n,
        file_rows(file, types, n) is Some,
    ensures
        page_ok(file_page(file, i), types),
    decreases n,
{
    if i < n - 1 {
        lemma_file_rows_pages_ok(file, types, n - 1, i);
    }
}

/// Every page that a scan of a table file reaches is sound, so its directory
/// ends before its item bytes begin, and its bytes read back as the same page.
pub proof fn lemma_scanned_pages(file: Seq<u8>, types: Seq<Type>, i: int)
    requires
        table_rows(file, types) is Some,
        0 <= i < file.len() as int / PAGE_SIZE as int,
    ensures
        file_page(file, i).wf(),
        file_page(file, i).free_space_start <= file_page(file, i).free_space_end,
        page_of_bytes(file_page(file, i).to_bytes()) == file_page(file, i),
{
    lemma_file_rows_pages_ok(file, types, file.len() as int / PAGE_SIZE as int, i);
    lemma_page_round_trip(file_page(file, i));
}

/// Reads the records of one page, in slot order.
#[verifier::rlimit(40)]
pub fn read_page_records(page: &Page, table: &Table) -> (r: Result<Vec<Record>, QueryError>)
    ensures
        page_ok(page@, column_types(*table)) ==> (r matches Ok(rs) && rows_view(rs@) == page_rows(
            page@,
            column_types(*table),
        )),
        !page_ok(page@, column_types(*table)) ==> (r matches Err(e) && e is ValidationError),
{
    let ghost types = column_types(*table);
    let ghost p = page@;
    let items = match page.get_items() {
        Ok(items) => items,
        Err(e) => {
            assert(!page_ok(p, types)) by {
                if page_ok(p, types) {
                    assert forall|k: int| 0 <= k < p.slot_count() implies crate::pages::item_header_ok(
                        #[trigger] p.item_bytes(k),
                    ) by {
                        assert(decode_item(p.item_bytes(k), types) is Some);
                    }
                }
            }
            return Err(e);
        },
    };
    let mut records: Vec<Record> = Vec::new();
    let mut k: usize = 0;
    assert(rows_view(records@) =~= page_rows(p, types).subrange(0, 0));
    while k < items.len()
        invariant
            types == column_types(*table),
            page@ == p,
            p.wf(),
            items@.len() == p.slot_count(),
            forall|j: int|
                0 <= j < p.slot_count() ==> crate::pages::item_header_ok(#[trigger] p.item_bytes(j)),
            forall|j: int| 0 <= j < items@.len() ==> (#[trigger] items@[j]).parsed_from(p.item_bytes(j)),
            k <= items@.len(),
            forall|j: int| 0 <= j < k ==> #[trigger] decode_item(p.item_bytes(j), types) is Some,
            rows_view(records@) == page_rows(p, types).subrange(0, k as int),
        decreases items@.len() - k,
    {
        assert(crate::pages::item_header_ok(p.item_bytes(k as int)));
        assert(items@[k as int].parsed_from(p.item_bytes(k as int)));
        assert(decode_item(p.item_bytes(k as int), types) == crate::pages::decode_fields(
            items@[k as int].nulls(),
            items@[k as int].data(),
            types,
            0,
            0,
        ));
        let record = match items[k].to_record(table) {
            Ok(record) => record,
            Err(e) => {
                assert(decode_item(p.item_bytes(k as int), types) is None);
                return Err(e);
            },
        };
        let ghost rv = record.view_values();
        let ghost before = rows_view(records@);
        assert(decode_item(p.item_bytes(k as int), types) == Some(rv));
        assert(page_rows(p, types)[k as int] == rv);
        records.push(record);
        assert(rows_view(records@) =~= before.push(rv));
        k += 1;
        assert(rows_view(records@) =~= page_rows(p, types).subrange(0, k as int));
    }
    assert(page_rows(p, types).subrange(0, k as int) =~= page_rows(p, types));
    Ok(records)
}

/// Reads every record of a table file, page by page and slot by slot.
#[verifier::rlimit(40)]
pub fn scan_records(file: &[u8], table: &Table) -> (r: Result<Vec<Record>, QueryError>)
    ensures
        match table_rows(file@, column_types(*table)) {
            Some(rows) => r matches Ok(rs) && rows_view(rs@) == rows,
            None => r matches Err(e) && e is ValidationError,
        },
{
    let ghost types = column_types(*table);
    if file.len() % PAGE_SIZE != 0 {
        return Err(validation_error("Table file is not a whole number of pages"));
    }
    let flen = file.len();
    let n = flen / PAGE_SIZE;
    let mut records: Vec<Record> = Vec::new();
    let mut i: usize = 0;
    assert(rows_view(records@) =~= Seq::<Seq<ValueView>>::empty());
    while i < n
        invariant
            flen == file@.len(),
            n == file@.len() as int / PAGE_SIZE as int,
            file@.len() as int % PAGE_SIZE as int == 0,
            types == column_types(*table),
            i <= n,
            file_rows(file@, types, i as int) == Some(rows_view(records@)),
        decreases n - i,
    {
        assert((i + 1) * PAGE_SIZE <= file@.len()) by (nonlinear_arith)
            requires
                i < n,
                n == file@.len() as int / 8192,
                file@.len() as int % 8192 == 0,
        ;
        let start = i * PAGE_SIZE;
        let page_bytes = vstd::slice::slice_subrange(file, start, start + PAGE_SIZE);
        let page = Page::from_bytes(page_bytes);
        let ghost p = file_page(file@, i as int);
        assert(page@ == p);
        let ghost acc = rows_view(records@);
        let mut page_records = match read_page_records(&page, table) {
            Ok(rs) => rs,
            Err(e) => {
                proof {
                    lemma_file_rows_none(file@, types, i + 1, n as int);
                }
                return Err(e);
            },
        };
        records.append(&mut page_records);
        assert(rows_view(records@) =~= acc + page_rows(p, types));
        i += 1;
    }
    Ok(records)
}

/// The names of the columns, in order.
pub open spec fn column_names(cols: Seq<Column>) -> Seq<Seq<char>> {
    cols.map_values(|c: Column| c.name@)
}

/// The binding of a row: each column name to the row's value in that column.
pub open spec fn row_binding(names: Seq<Seq<char>>, row: Seq<ValueView>) -> Seq<(Seq<char>, ValueView)> {
    Seq::new(
        if names.len() <= row.len() { names.len() } else { row.len() },
        |i: int| (names[i], row[i]),
    )
}

/// Whether a row is kept: always without a condition, else exactly when the
/// condition evaluates to `true` under the row's binding.
pub open spec fn row_selected<F: Fn(FloatOp) -> u32>(
    condition: Option<Box<Expression>>,
    names: Seq<Seq<char>>,
    row: Seq<ValueView>,
    unit: F,
) -> Result<bool, Seq<char>> {
    match condition {
        None => Ok(true),
        Some(e) => match eval(*e, Some(row_binding(names, row)), unit) {
            Ok(v) => Ok(v == ValueView::Bool(true)),
            Err(m) => Err(m),
        },
    }
}

/// The rows that a condition keeps, in order; the first error wins.
pub open spec fn filter_rows<F: Fn(FloatOp) -> u32>(
    rows: Seq<Seq<ValueView>>,
    names: Seq<Seq<char>>,
    condition: Option<Box<Expression>>,
    unit: F,
) -> Result<Seq<Seq<ValueView>>, Seq<char>>
    decreases rows.len(),
{
    if rows.len() == 0 {
        Ok(Seq::empty())
    } else {
        match filter_rows(rows.drop_last(), names, condition, unit) {
            Err(m) => Err(m),
            Ok(acc) => match row_selected(condition, names, rows.last(), unit) {
                Err(m) => Err(m),
                Ok(true) => Ok(acc.push(rows.last())),
                Ok(false) => Ok(acc),
            },
        }
    }
}

proof fn lemma_filter_error_stays<F: Fn(FloatOp) -> u32>(
    rows: Seq<Seq<ValueView>>,
    names: Seq<Seq<char>>,
    condition: Option<Box<Expression>>,
    unit: F,
    k: int,
    m: Seq<char>,
)
    requires
        0 <= k <= rows.len(),
        filter_rows(rows.subrange(0, k), names, condition, unit) == Err::<Seq<Seq<ValueView>>, Seq<char>>(m),
    ensures
        filter_rows(rows, names, condition, unit) == Err::<Seq<Seq<ValueView>>, Seq<char>>(m),
    decreases rows.len() - k,
{
    if k == rows.len() {
        assert(rows.subrange(0, k) =~= rows);
    } else {
        assert(rows.subrange(0, k + 1).drop_last() =~= rows.subrange(0, k));
        lemma_filter_error_stays(rows, names, condition, unit, k + 1, m);
    }
}

/// Builds the binding of a record: each column name to its value.
pub fn record_binding(table: &Table, record: &Record) -> (r: Vec<(String, Value)>)
    ensures
        pairs_view(r@) == row_binding(column_names(table.columns@), record.view_values()),
{
    let n = if table.columns.len() <= record.values.len() {
        table.columns.len()
    } else {
        record.values.len()
    };
    let ghost target = row_binding(column_names(table.columns@), record.view_values());
    let mut binding: Vec<(String, Value)> = Vec::new();
    let mut i: usize = 0;
    while i < n
        invariant
            n <= table.columns@.len(),
            n <= record.values@.len(),
            n == target.len(),
            target == row_binding(column_names(table.columns@), record.view_values()),
            i <= n,
            pairs_view(binding@) == target.subrange(0, i as int),
        decreases n - i,
    {
        let ghost before = pairs_view(binding@);
        binding.push((table.columns[i].name.clone(), record.values[i].clone()));
        assert(pairs_view(binding@) =~= before.push(target[i as int]));
        i += 1;
        assert(pairs_view(binding@) =~= target.subrange(0, i as int));
    }
    assert(target.subrange(0, i as int) =~= target);
    binding
}

/// Keeps the records on which `condition` evaluates to `true`, in order.
#[verifier::rlimit(40)]
pub fn filter_records<F: Fn(FloatOp) -> u32>(
    records: &Vec<Record>,
    table: &Table,
    condition: &Option<Box<Expression>>,
    unit: &F,
) -> (r: Result<Vec<Record>, QueryError>)
    requires
        float_unit_ok(*unit),
    ensures
        match filter_rows(rows_view(records@), column_names(table.columns@), *condition, *unit) {
            Ok(kept) => r matches Ok(rs) && rows_view(rs@) == kept,
            Err(m) => r matches Err(e) && e is ValidationError && e.text() == m,
        },
{
    let ghost rows = rows_view(records@);
    let ghost names = column_names(table.columns@);
    let mut kept: Vec<Record> = Vec::new();
    let mut i: usize = 0;
    assert(rows.subrange(0, 0) =~= Seq::<Seq<ValueView>>::empty());
    assert(rows_view(kept@) =~= Seq::<Seq<ValueView>>::empty());
    while i < records.len()
        invariant
            float_unit_ok(*unit),
            rows == rows_view(records@),
            names == column_names(table.columns@),
            i <= records@.len(),
            filter_rows(rows.subrange(0, i as int), names, *condition, *unit) == Ok::<Seq<Seq<ValueView>>, Seq<char>>(rows_view(kept@)),
        decreases records@.len() - i,
    {
        let record = &records[i];
        assert(rows.subrange(0, i + 1).drop_last() =~= rows.subrange(0, i as int));
        assert(rows.subrange(0, i + 1).last() == record.view_values());
        let include_record = match condition {
            Some(cond) => {
                let binding = record_binding(table, record);
                match cond.evaluate(Some(&binding), unit) {
                    Ok(v) => match v {
                        Value::Bool(b) => b,
                        _ => false,
                    },
                    Err(e) => {
                        proof {
                            lemma_filter_error_stays(rows, names, *condition, *unit, i + 1, e.text());
                        }
                        return Err(e);
                    },
                }
            },
            None => true,
        };
        if include_record {
            let copy = record.clone();
            let ghost before = rows_view(kept@);
            kept.push(copy);
            assert(rows_view(kept@) =~= before.push(rows[i as int]));
        }
        i += 1;
    }
    assert(rows.subrange(0, i as int) =~= rows);
    Ok(kept)
}

/// The column positions that a projection asks for, in order: `*` stands for
/// every column in schema order; an unknown name is an error naming it.
pub open spec fn projection(cols: Seq<Column>, wanted: Seq<Seq<char>>) -> Result<Seq<int>, Seq<char>>
    decreases wanted.len(),
{
    if wanted.len() == 0 {
        Ok(Seq::empty())
    } else {
        match projection(cols, wanted.drop_last()) {
            Err(m) => Err(m),
            Ok(acc) => if wanted.last() == "*"@ {
                Ok(acc + Seq::new(cols.len(), |i: int| i))
            } else {
                match find_column(cols, wanted.last()) {
                    Some(k) => Ok(acc.push(k)),
                    None => Err(wanted.last()),
                }
            },
        }
    }
}

/// The values of `row` at positions `idx`.
pub open spec fn project_row(row: Seq<ValueView>, idx: Seq<int>) -> Seq<ValueView> {
    Seq::new(idx.len(), |j: int| row[idx[j]])
}

pub open spec fn strings_view(s: Seq<String>) -> Seq<Seq<char>> {
    s.map_values(|x: String| x@)
}

proof fn lemma_projection_error_stays(cols: Seq<Column>, wanted: Seq<Seq<char>>, k: int, m: Seq<char>)
    requires
        0 <= k <= wanted.len(),
        projection(cols, wanted.subrange(0, k)) == Err::<Seq<int>, Seq<char>>(m),
    ensures
        projection(cols, wanted) == Err::<Seq<int>, Seq<char>>(m),
    decreases wanted.len() - k,
{
    if k == wanted.len() {
        assert(wanted.subrange(0, k) =~= wanted);
    } else {
        assert(wanted.subrange(0, k + 1).drop_last() =~= wanted.subrange(0, k));
        lemma_projection_error_stays(cols, wanted, k + 1, m);
    }
}

/// The column positions for the projection `columns` of `table`.
#[verifier::rlimit(40)]
pub fn projection_indices(table: &Table, columns: &Vec<String>) -> (r: Result<Vec<usize>, QueryError>)
    ensures
        match projection(table.columns@, strings_view(columns@)) {
            Ok(idx) => r matches Ok(v) && v@.len() == idx.len() && forall|j: int|
                0 <= j < idx.len() ==> #[trigger] v@[j] as int == idx[j],
            Err(m) => r matches Err(e) && e is NotFound && e.text() == m,
        },
        r matches Ok(v) ==> forall|j: int| 0 <= j < v@.len() ==> #[trigger] v@[j] < table.columns@.len(),
{
    let ghost cols = table.columns@;
    let ghost wanted = strings_view(columns@);
    let mut idx: Vec<usize> = Vec::new();
    let mut i: usize = 0;
    assert(wanted.subrange(0, 0) =~= Seq::<Seq<char>>::empty());
    while i < columns.len()
        invariant
            cols == table.columns@,
            wanted == strings_view(columns@),
            i <= columns@.len(),
            projection(cols, wanted.subrange(0, i as int)) matches Ok(acc) && acc.len() == idx@.len()
                && forall|j: int| 0 <= j < acc.len() ==> #[trigger] acc[j] == idx@[j] as int,
            forall|j: int| 0 <= j < idx@.len() ==> #[trigger] idx@[j] < cols.len(),
        decreases columns@.len() - i,
    {
        let name = &columns[i];
        let ghost pre = wanted.subrange(0, i + 1);
        assert(pre.drop_last() =~= wanted.subrange(0, i as int));
        assert(pre.last() == name@);
        let ghost acc = projection(cols, wanted.subrange(0, i as int))->Ok_0;
        if crate::asl::same_text(name.as_str(), "*") {
            let mut k: usize = 0;
            let ghost start = idx@.len();
            while k < table.columns.len()
                invariant
                    cols == table.columns@,
                    k <= cols.len(),
                    idx@.len() == start + k,
                    acc.len() == start,
                    forall|j: int| 0 <= j < start ==> #[trigger] acc[j] == idx@[j] as int,
                    forall|j: int| start <= j < start + k ==> #[trigger] idx@[j] as int == j - start,
                    forall|j: int| 0 <= j < idx@.len() ==> #[trigger] idx@[j] < cols.len(),
                decreases cols.len() - k,
            {
                idx.push(k);
                k += 1;
            }
            assert(projection(cols, pre) == Ok::<Seq<int>, Seq<char>>(acc + Seq::new(cols.len(), |j: int| j)));
        } else {
            match table.column_position(name.as_str()) {
                Some(k) => {
                    proof {
                        lemma_find_column_from(cols, name@, 0);
                    }
                    idx.push(k);
                },
                None => {
                    proof {
                        lemma_projection_error_stays(cols, wanted, i + 1, name@);
                    }
                    return Err(QueryError::NotFound(name.clone()));
                },
            }
        }
        i += 1;
    }
    assert(wanted.subrange(0, i as int) =~= wanted);
    Ok(idx)
}

/// The records with only the values at positions `idx`, in that order.
#[verifier::rlimit(40)]
pub fn project_records(records: &Vec<Record>, idx: &Vec<usize>) -> (r: Vec<Record>)
    requires
        forall|i: int, j: int|
            0 <= i < records@.len() && 0 <= j < idx@.len() ==> #[trigger] idx@[j] < (#[trigger] records@[i]).values@.len(),
    ensures
        rows_view(r@) == rows_view(records@).map_values(
            |row: Seq<ValueView>| project_row(row, idx@.map_values(|k: usize| k as int)),
        ),
{
    let ghost ix = idx@.map_values(|k: usize| k as int);
    let ghost target = rows_view(records@).map_values(|row: Seq<ValueView>| project_row(row, ix));
    let mut out: Vec<Record> = Vec::new();
    let mut i: usize = 0;
    while i < records.len()
        invariant
            ix == idx@.map_values(|k: usize| k as int),
            target == rows_view(records@).map_values(|row: Seq<ValueView>| project_row(row, ix)),
            forall|a: int, j: int|
                0 <= a < records@.len() && 0 <= j < idx@.len() ==> #[trigger] idx@[j] < (#[trigger] records@[a]).values@.len(),
            i <= records@.len(),
            rows_view(out@) == target.subrange(0, i as int),
        decreases records@.len() - i,
    {
        let record = &records[i];
        let mut values: Vec<Value> = Vec::new();
        let mut j: usize = 0;
        while j < idx.len()
            invariant
                ix == idx@.map_values(|k: usize| k as int),
                forall|b: int| 0 <= b < idx@.len() ==> idx@[b] < record.values@.len(),
                j <= idx@.len(),
                crate::asl::values_view(values@) == project_row(record.view_values(), ix).subrange(0, j as int),
            decreases idx@.len() - j,
        {
            let ghost before = crate::asl::values_view(values@);
            values.push(record.values[idx[j]].clone());
            assert(crate::asl::values_view(values@) =~= before.push(project_row(record.view_values(), ix)[j as int]));
            j += 1;
            assert(crate::asl::values_view(values@) =~= project_row(record.view_values(), ix).subrange(0, j as int));
        }
        assert(project_row(record.view_values(), ix).subrange(0, j as int) =~= project_row(record.view_values(), ix));
        let ghost before = rows_view(out@);
        out.push(Record { values });
        assert(rows_view(out@) =~= before.push(target[i as int]));
        i += 1;
        assert(rows_view(out@) =~= target.subrange(0, i as int));
    }
    assert(target.subrange(0, i as int) =~= target);
    out
}

/// Every row has `len` values.
pub open spec fn rows_have_len(rows: Seq<Seq<ValueView>>, len: nat) -> bool {
    forall|i: int| 0 <= i < rows.len() ==> (#[trigger] rows[i]).len() == len
}

#[verifier::rlimit(40)]
proof fn lemma_file_rows_len(file: Seq<u8>, types: Seq<Type>, n: int)
    ensures
        file_rows(file, types, n) matches Some(rows) ==> rows_have_len(rows, types.len()),
    decreases n,
{
    if n > 0 {
        lemma_file_rows_len(file, types, n - 1);
        let p = file_page(file, n - 1);
        if file_rows(file, types, n - 1) is Some && page_ok(p, types) {
            let acc = file_rows(file, types, n - 1)->Some_0;
            let pr = page_rows(p, types);
            assert forall|k: int| 0 <= k < pr.len() implies (#[trigger] pr[k]).len() == types.len() by {
                let b = p.item_bytes(k);
                assert(decode_item(b, types) is Some);
                let m = crate::pages::null_map_len(crate::utils::u64_at(b, 0) as nat) as int;
                lemma_decode_fields_len(
                    crate::pages::unpack_bits(b.subrange(8, 8 + m)),
                    b.subrange(8 + m, b.len() as int),
                    types,
                    0,
                    0,
                );
            }
            assert forall|i: int| 0 <= i < (acc + pr).len() implies (#[trigger] (acc + pr)[i]).len() == types.len() by {
                if i >= acc.len() {
                    assert((acc + pr)[i] == pr[i - acc.len()]);
                }
            }
        }
    }
}

proof fn lemma_filter_rows_len<F: Fn(FloatOp) -> u32>(
    rows: Seq<Seq<ValueView>>,
    names: Seq<Seq<char>>,
    condition: Option<Box<Expression>>,
    unit: F,
    len: nat,
)
    requires
        rows_have_len(rows, len),
    ensures
        filter_rows(rows, names, condition, unit) matches Ok(kept) ==> rows_have_len(kept, len),
    decreases rows.len(),
{
    if rows.len() > 0 {
        assert(rows_have_len(rows.drop_last(), len)) by {
            assert forall|i: int| 0 <= i < rows.drop_last().len() implies (#[trigger] rows.drop_last()[i]).len() == len by {
                assert(rows.drop_last()[i] == rows[i]);
            }
        }
        lemma_filter_rows_len(rows.drop_last(), names, condition, unit, len);
    }
}

/// What a select returns: the rows of the table file that the condition keeps,
/// in file order, each projected on the asked columns.
pub open spec fn select_outcome<F: Fn(FloatOp) -> u32>(
    file: Seq<u8>,
    table: Table,
    columns: Seq<Seq<char>>,
    condition: Option<Box<Expression>>,
    unit: F,
    r: Result<Vec<Record>, QueryError>,
) -> bool {
    match projection(table.columns@, columns) {
        Err(m) => r matches Err(e) && e is NotFound && e.text() == m,
        Ok(idx) => match table_rows(file, column_types(table)) {
            None => r matches Err(e) && e is ValidationError,
            Some(rows) => match filter_rows(rows, column_names(table.columns@), condition, unit) {
                Err(m) => r matches Err(e) && e is ValidationError && e.text() == m,
                Ok(kept) => r matches Ok(rs) && rows_view(rs@) == kept.map_values(
                    |row: Seq<ValueView>| project_row(row, idx),
                ),
            },
        },
    }
}

impl DBFileSystem {
    /// Finds the records of the table file `file` that match `condition`, each
    /// with the values of `columns`.
    #[verifier::rlimit(40)]
    pub fn select_records<F: Fn(FloatOp) -> u32>(
        &self,
        table: &Table,
        file: &[u8],
        columns: &Vec<String>,
        condition: &Option<Box<Expression>>,
        unit: &F,
    ) -> (r: Result<Vec<Record>, QueryError>)
        requires
            float_unit_ok(*unit),
        ensures
            select_outcome(file@, *table, strings_view(columns@), *condition, *unit, r),
    {
        let idx = projection_indices(table, columns)?;
        let records = scan_records(file, table)?;
        let kept = filter_records(&records, table, condition, unit)?;
        proof {
            let types = column_types(*table);
            lemma_file_rows_len(file@, types, file@.len() as int / PAGE_SIZE as int);
            let rows = rows_view(records@);
            lemma_filter_rows_len(rows, column_names(table.columns@), *condition, *unit, types.len());
            let kr = rows_view(kept@);
            assert forall|i: int, j: int|
                0 <= i < kept@.len() && 0 <= j < idx@.len() implies #[trigger] idx@[j] < (
            #[trigger] kept@[i]).values@.len() by {
                assert(kr[i].len() == types.len());
                assert(kr[i] == kept@[i].view_values());
            }
            assert(idx@.map_values(|k: usize| k as int) =~= projection(table.columns@, strings_view(columns@))->Ok_0);
        }
        Ok(project_records(&kept, &idx))
    }
}

/// A condition that evaluates to `false` on every row keeps no row.
pub proof fn lemma_false_condition_keeps_nothing<F: Fn(FloatOp) -> u32>(
    rows: Seq<Seq<ValueView>>,
    names: Seq<Seq<char>>,
    condition: Box<Expression>,
    unit: F,
)
    requires
        forall|i: int|
            0 <= i < rows.len() ==> eval(*condition, Some(row_binding(names, #[trigger] rows[i])), unit)
                == Ok::<ValueView, Seq<char>>(ValueView::Bool(false)),
    ensures
        filter_rows(rows, names, Some(condition), unit) == Ok::<Seq<Seq<ValueView>>, Seq<char>>(Seq::empty()),
    decreases rows.len(),
{
    if rows.len() > 0 {
        let init = rows.drop_last();
        assert forall|i: int|
            0 <= i < init.len() implies eval(*condition, Some(row_binding(names, #[trigger] init[i])), unit)
                == Ok::<ValueView, Seq<char>>(ValueView::Bool(false)) by {
            assert(init[i] == rows[i]);
        }
        lemma_false_condition_keeps_nothing(init, names, condition, unit);
        assert(rows.last() == rows[rows.len() - 1]);
    }
}

/// The length of a table file after a page write.
pub open spec fn length_after_write(file_len: int, w: PageWrite) -> int {
    if w.offset + PAGE_SIZE > file_len {
        w.offset + PAGE_SIZE
    } else {
        file_len
    }
}

/// An insert into a table file of whole pages leaves it a positive whole
/// number of pages, grown by no page or by one.
pub proof fn lemma_insert_growth(file_len: u64, last_page: Option<Seq<u8>>, item: Seq<u8>, w: PageWrite)
    requires
        file_len % PAGE_SIZE as u64 == 0,
        insert_outcome(file_len, last_page, item, w),
    ensures
        length_after_write(file_len as int, w) > 0,
        length_after_write(file_len as int, w) % PAGE_SIZE as int == 0,
        length_after_write(file_len as int, w) == file_len || length_after_write(file_len as int, w)
            == file_len + PAGE_SIZE,
{
    let n = file_len / PAGE_SIZE as u64;
    assert(file_len == n * PAGE_SIZE) by (nonlinear_arith)
        requires
            file_len % 8192 == 0,
            n == file_len / 8192,
    ;
    if n > 0 {
        assert((n - 1) * PAGE_SIZE + PAGE_SIZE == n * PAGE_SIZE) by (nonlinear_arith);
        assert((n * PAGE_SIZE + PAGE_SIZE) % 8192 == 0) by (nonlinear_arith);
    }
}

/// The last page of a table file, if it has one.
pub open spec fn last_page_of(file: Seq<u8>) -> Option<Seq<u8>> {
    let n = file.len() as int / PAGE_SIZE as int;
    if n > 0 {
        Some(file.subrange((n - 1) * PAGE_SIZE, n * PAGE_SIZE))
    } else {
        None
    }
}

/// A table file after a page write: the page replaces the bytes at its offset,
/// or extends the file from there.
pub open spec fn apply_write(file: Seq<u8>, w: PageWrite) -> Seq<u8> {
    if w.offset + w.bytes@.len() <= file.len() {
        file.subrange(0, w.offset as int) + w.bytes@ + file.subrange(w.offset + w.bytes@.len(), file.len() as int)
    } else {
        file.subrange(0, w.offset as int) + w.bytes@
    }
}

/// The records of the first `k` pages depend only on those pages' bytes.
#[verifier::rlimit(40)]
proof fn lemma_file_rows_prefix(f1: Seq<u8>, f2: Seq<u8>, types: Seq<Type>, k: int)
    requires
        0 <= k,
        k * PAGE_SIZE <= f1.len(),
        k * PAGE_SIZE <= f2.len(),
        f1.subrange(0, k * PAGE_SIZE) == f2.subrange(0, k * PAGE_SIZE),
    ensures
        file_rows(f1, types, k) == file_rows(f2, types, k),
    decreases k,
{
    if k > 0 {
        assert(f1.subrange(0, (k - 1) * PAGE_SIZE) =~= f1.subrange(0, k * PAGE_SIZE).subrange(0, (k - 1) * PAGE_SIZE));
        assert(f2.subrange(0, (k - 1) * PAGE_SIZE) =~= f2.subrange(0, k * PAGE_SIZE).subrange(0, (k - 1) * PAGE_SIZE));
        lemma_file_rows_prefix(f1, f2, types, k - 1);
        assert(f1.subrange((k - 1) * PAGE_SIZE, k * PAGE_SIZE) =~= f1.subrange(0, k * PAGE_SIZE).subrange((k - 1) * PAGE_SIZE, k * PAGE_SIZE));
        assert(f2.subrange((k - 1) * PAGE_SIZE, k * PAGE_SIZE) =~= f2.subrange(0, k * PAGE_SIZE).subrange((k - 1) * PAGE_SIZE, k * PAGE_SIZE));
        assert(file_page(f1, k - 1) == file_page(f2, k - 1));
    }
}

/// The bytes of a record that fit in a page decode back to the record.
#[verifier::rlimit(40)]
proof fn lemma_decode_encoded_item(vals: Seq<ValueView>, types: Seq<Type>)
    requires
        matches_schema(vals, types),
        strings_fit(vals),
        vals.len() <= u64::MAX,
        encode_item(vals).len() <= PAGE_DATA_SIZE,
    ensures
        decode_item(encode_item(vals), types) == Some(vals),
{
    lemma_item_round_trip(vals, types);
    let bytes = encode_item(vals);
    let m = null_map_len(vals.len()) as int;
    assert(m * 8 <= usize::MAX);
    assert(item_header_ok(bytes));
}

/// A page that holds one record's bytes, and only those, reads back as that record.
#[verifier::rlimit(50)]
proof fn lemma_single_item_page_rows(q: PageView, id: u32, vals: Seq<ValueView>, types: Seq<Type>)
    requires
        q.wf(),
        single_item_page(q, id, encode_item(vals)),
        decode_item(encode_item(vals), types) == Some(vals),
    ensures
        page_ok(q, types),
        page_rows(q, types) == seq![vals],
{
    assert(q.slot_count() == 1);
    assert(q.item_bytes(0) == encode_item(vals));
    assert forall|k: int| 0 <= k < q.slot_count() implies #[trigger] decode_item(q.item_bytes(k), types) is Some by {
        assert(k == 0);
    }
    assert(page_rows(q, types)[0] == vals);
    assert(page_rows(q, types) =~= seq![vals]);
}

/// A page with one more record's bytes reads back as one more record.
#[verifier::rlimit(60)]
proof fn lemma_appended_page_rows(p: PageView, q: PageView, vals: Seq<ValueView>, types: Seq<Type>)
    requires
        page_ok(p, types),
        q.wf(),
        appended(p, q, encode_item(vals)),
        decode_item(encode_item(vals), types) == Some(vals),
    ensures
        page_ok(q, types),
        page_rows(q, types) == page_rows(p, types).push(vals),
{
    assert forall|k: int| 0 <= k < q.slot_count() implies #[trigger] decode_item(q.item_bytes(k), types) is Some by {
        if k < p.slot_count() {
            assert(q.item_bytes(k) == p.item_bytes(k));
            assert(decode_item(p.item_bytes(k), types) is Some);
        }
    }
    assert forall|k: int| 0 <= k < p.slot_count() implies #[trigger] page_rows(q, types)[k] == page_rows(p, types)[k] by {
        assert(q.item_bytes(k) == p.item_bytes(k));
    }
    assert(page_rows(q, types) =~= page_rows(p, types).push(vals));
}

/// Shared facts of the three cases of an insert.
pub open spec fn insert_case(file: Seq<u8>, types: Seq<Type>, vals: Seq<ValueView>, w: PageWrite) -> bool {
    &&& table_rows(file, types) is Some
    &&& matches_schema(vals, types)
    &&& strings_fit(vals)
    &&& vals.len() <= u64::MAX
    &&& file.len() <= u64::MAX
    &&& insert_outcome(file.len() as u64, last_page_of(file), encode_item(vals), w)
}

#[verifier::rlimit(60)]
proof fn lemma_insert_into_empty_file(file: Seq<u8>, types: Seq<Type>, vals: Seq<ValueView>, w: PageWrite)
    requires
        insert_case(file, types, vals, w),
        file.len() == 0,
    ensures
        table_rows(apply_write(file, w), types) == Some(table_rows(file, types)->Some_0.push(vals)),
{
    let item = encode_item(vals);
    let q = page_of_bytes(w.bytes@);
    let new_file = apply_write(file, w);
    assert(file.len() as u64 / PAGE_SIZE as u64 == 0);
    assert(w.offset == 0 && added(empty_page(1), q, item, Ok(())) && q.wf() && w.bytes@.len() == PAGE_SIZE);
    lemma_added_to_empty(1, q, item);
    assert(q.slot_ok(0));
    assert(item.len() <= PAGE_DATA_SIZE);
    lemma_decode_encoded_item(vals, types);
    lemma_single_item_page_rows(q, 1, vals, types);
    assert(table_rows(file, types) == Some(Seq::<Seq<ValueView>>::empty()));
    assert(new_file =~= w.bytes@);
    lemma_one_page_file(w.bytes@, vals, types);
}

/// A file of one page that holds one record reads back as that record.
proof fn lemma_one_page_file(bytes: Seq<u8>, vals: Seq<ValueView>, types: Seq<Type>)
    requires
        bytes.len() == PAGE_SIZE,
        page_ok(page_of_bytes(bytes), types),
        page_rows(page_of_bytes(bytes), types) == seq![vals],
    ensures
        table_rows(bytes, types) == Some(seq![vals]),
{
    assert(bytes.subrange(0, PAGE_SIZE as int) =~= bytes);
    assert(file_page(bytes, 0) == page_of_bytes(bytes));
    assert(bytes.len() as int / PAGE_SIZE as int == 1);
    assert(file_rows(bytes, types, 0) == Some(Seq::<Seq<ValueView>>::empty()));
    assert(Seq::<Seq<ValueView>>::empty() + seq![vals] =~= seq![vals]);
}

#[verifier::rlimit(60)]
proof fn lemma_insert_into_last_page(file: Seq<u8>, types: Seq<Type>, vals: Seq<ValueView>, w: PageWrite, n: int)
    requires
        insert_case(file, types, vals, w),
        n > 0,
        file.len() == n * PAGE_SIZE,
        file.len() as int / PAGE_SIZE as int == n,
        fits_page(file_page(file, n - 1), encode_item(vals)),
    ensures
        table_rows(apply_write(file, w), types) == Some(table_rows(file, types)->Some_0.push(vals)),
{
    let item = encode_item(vals);
    let q = page_of_bytes(w.bytes@);
    let new_file = apply_write(file, w);
    let p = file_page(file, n - 1);
    assert(last_page_of(file) == Some(file.subrange((n - 1) * PAGE_SIZE, n * PAGE_SIZE)));
    assert((file.len() as u64 / PAGE_SIZE as u64) as int == n);
    assert(file_rows(file, types, n) is Some);
    let acc = file_rows(file, types, n - 1)->Some_0;
    assert(page_ok(p, types));
    assert((n - 1) * PAGE_SIZE + PAGE_SIZE == n * PAGE_SIZE) by (nonlinear_arith);
    assert(q.slot_ok(p.slot_count()));
    assert(item.len() <= PAGE_DATA_SIZE);
    lemma_decode_encoded_item(vals, types);
    lemma_appended_page_rows(p, q, vals, types);
    assert(new_file =~= file.subrange(0, (n - 1) * PAGE_SIZE) + w.bytes@);
    assert(new_file.subrange(0, (n - 1) * PAGE_SIZE) =~= file.subrange(0, (n - 1) * PAGE_SIZE));
    lemma_file_rows_prefix(new_file, file, types, n - 1);
    assert(new_file.subrange((n - 1) * PAGE_SIZE, n * PAGE_SIZE) =~= w.bytes@);
    assert(file_page(new_file, n - 1) == q);
    assert(new_file.len() == file.len());
    assert(acc + page_rows(p, types).push(vals) =~= (acc + page_rows(p, types)).push(vals));
}

/// A page appended to a file of whole pages adds its records after the others.
#[verifier::rlimit(40)]
proof fn lemma_append_page(file: Seq<u8>, bytes: Seq<u8>, types: Seq<Type>, n: int)
    requires
        n >= 0,
        file.len() == n * PAGE_SIZE,
        bytes.len() == PAGE_SIZE,
        file_rows(file, types, n) is Some,
        page_ok(page_of_bytes(bytes), types),
    ensures
        table_rows(file + bytes, types) == Some(file_rows(file, types, n)->Some_0 + page_rows(page_of_bytes(bytes), types)),
{
    let new_file = file + bytes;
    assert(new_file.len() == (n + 1) * PAGE_SIZE) by (nonlinear_arith)
        requires
            new_file.len() == file.len() + 8192,
            file.len() == n * 8192,
    ;
    assert(new_file.subrange(0, n * PAGE_SIZE) =~= file.subrange(0, n * PAGE_SIZE));
    lemma_file_rows_prefix(new_file, file, types, n);
    assert(new_file.subrange(n * PAGE_SIZE, (n + 1) * PAGE_SIZE) =~= bytes);
    assert(file_page(new_file, n) == page_of_bytes(bytes));
    assert(new_file.len() as int / PAGE_SIZE as int == n + 1) by (nonlinear_arith)
        requires
            new_file.len() == (n + 1) * 8192,
    ;
    assert(new_file.len() as int % PAGE_SIZE as int == 0) by (nonlinear_arith)
        requires
            new_file.len() == (n + 1) * 8192,
    ;
}

#[verifier::rlimit(60)]
proof fn lemma_insert_into_new_page(file: Seq<u8>, types: Seq<Type>, vals: Seq<ValueView>, w: PageWrite, n: int)
    requires
        insert_case(file, types, vals, w),
        n > 0,
        file.len() == n * PAGE_SIZE,
        file.len() as int / PAGE_SIZE as int == n,
        !fits_page(file_page(file, n - 1), encode_item(vals)),
    ensures
        table_rows(apply_write(file, w), types) == Some(table_rows(file, types)->Some_0.push(vals)),
{
    let item = encode_item(vals);
    let q = page_of_bytes(w.bytes@);
    let new_file = apply_write(file, w);
    let p = file_page(file, n - 1);
    assert(last_page_of(file) == Some(file.subrange((n - 1) * PAGE_SIZE, n * PAGE_SIZE)));
    assert((file.len() as u64 / PAGE_SIZE as u64) as int == n);
    assert(w.offset == file.len());
    assert(q.slot_ok(0));
    assert(item.len() <= PAGE_DATA_SIZE);
    lemma_decode_encoded_item(vals, types);
    lemma_added_to_empty((p.id + 1) as u32, q, item);
    lemma_single_item_page_rows(q, (p.id + 1) as u32, vals, types);
    assert(new_file =~= file + w.bytes@);
    assert(table_rows(file, types) == file_rows(file, types, n));
    lemma_append_page(file, w.bytes@, types, n);
    assert(file_rows(file, types, n)->Some_0 + seq![vals] =~= file_rows(file, types, n)->Some_0.push(vals));
}

/// Insertion order: after an insert's page write, the records of a sound table
/// file are its records before, then the inserted one.
pub proof fn lemma_insert_then_scan(file: Seq<u8>, types: Seq<Type>, vals: Seq<ValueView>, w: PageWrite)
    requires
        table_rows(file, types) is Some,
        matches_schema(vals, types),
        strings_fit(vals),
        vals.len() <= u64::MAX,
        file.len() <= u64::MAX,
        insert_outcome(file.len() as u64, last_page_of(file), encode_item(vals), w),
    ensures
        table_rows(apply_write(file, w), types) == Some(table_rows(file, types)->Some_0.push(vals)),
{
    let n = file.len() as int / PAGE_SIZE as int;
    assert(file.len() == n * PAGE_SIZE) by (nonlinear_arith)
        requires
            file.len() as int % 8192 == 0,
            n == file.len() as int / 8192,
    ;
    if n == 0 {
        lemma_insert_into_empty_file(file, types, vals, w);
    } else if fits_page(file_page(file, n - 1), encode_item(vals)) {
        lemma_insert_into_last_page(file, types, vals, w, n);
    } else {
        lemma_insert_into_new_page(file, types, vals, w, n);
    }
}

/// A row with assignments of values to column positions applied in order; the
/// last assignment to a column wins.
pub open spec fn update_row(row: Seq<ValueView>, a: Seq<(int, ValueView)>) -> Seq<ValueView>
    decreases a.len(),
{
    if a.len() == 0 {
        row
    } else {
        update_row(row, a.drop_last()).update(a.last().0, a.last().1)
    }
}

/// The assignments of `vals` to the positions `pos`.
pub open spec fn assignments_view(pos: Seq<usize>, vals: Seq<Value>) -> Seq<(int, ValueView)> {
    Seq::new(pos.len(), |i: int| (pos[i] as int, vals[i]@))
}

/// The bytes of item `k` of page `p` after an update: a selected row is updated
/// and encoded again, any other item keeps its bytes.
pub open spec fn new_item_bytes<F: Fn(FloatOp) -> u32>(
    p: PageView,
    k: int,
    types: Seq<Type>,
    names: Seq<Seq<char>>,
    a: Seq<(int, ValueView)>,
    condition: Option<Box<Expression>>,
    unit: F,
) -> Seq<u8> {
    let row = page_rows(p, types)[k];
    if row_selected(condition, names, row, unit) == Ok::<bool, Seq<char>>(true) {
        encode_item(update_row(row, a))
    } else {
        p.item_bytes(k)
    }
}

/// The room that the first `j` updated items and their slots take.
pub open spec fn rebuilt_size<F: Fn(FloatOp) -> u32>(
    p: PageView,
    j: int,
    types: Seq<Type>,
    names: Seq<Seq<char>>,
    a: Seq<(int, ValueView)>,
    condition: Option<Box<Expression>>,
    unit: F,
) -> int
    decreases j,
{
    if j <= 0 {
        0
    } else {
        rebuilt_size(p, j - 1, types, names, a, condition, unit) + new_item_bytes(p, j - 1, types, names, a, condition, unit).len()
            + SLOT_SIZE
    }
}

proof fn lemma_rebuilt_size_grows<F: Fn(FloatOp) -> u32>(
    p: PageView,
    j: int,
    n: int,
    types: Seq<Type>,
    names: Seq<Seq<char>>,
    a: Seq<(int, ValueView)>,
    condition: Option<Box<Expression>>,
    unit: F,
)
    requires
        0 <= j <= n,
    ensures
        rebuilt_size(p, j, types, names, a, condition, unit) <= rebuilt_size(p, n, types, names, a, condition, unit),
    decreases n - j,
{
    if j < n {
        lemma_rebuilt_size_grows(p, j, n - 1, types, names, a, condition, unit);
    }
}

/// An update of page `p` succeeds: the page decodes, the condition evaluates on
/// every row, no updated record grows, and the updated items fit in a page.
pub open spec fn page_update_ok<F: Fn(FloatOp) -> u32>(
    p: PageView,
    types: Seq<Type>,
    names: Seq<Seq<char>>,
    a: Seq<(int, ValueView)>,
    condition: Option<Box<Expression>>,
    unit: F,
) -> bool {
    &&& page_ok(p, types)
    &&& forall|k: int| 0 <= k < p.slot_count() ==> #[trigger] row_selected(condition, names, page_rows(p, types)[k], unit) is Ok
    &&& forall|k: int| 0 <= k < p.slot_count() ==> (#[trigger] new_item_bytes(p, k, types, names, a, condition, unit)).len()
        <= p.item_bytes(k).len()
    &&& rebuilt_size(p, p.slot_count(), types, names, a, condition, unit) <= PAGE_DATA_SIZE
}

/// Page `q` is page `p` after an update: same id, same slots, updated items.
pub open spec fn page_updated<F: Fn(FloatOp) -> u32>(
    p: PageView,
    q: PageView,
    types: Seq<Type>,
    names: Seq<Seq<char>>,
    a: Seq<(int, ValueView)>,
    condition: Option<Box<Expression>>,
    unit: F,
) -> bool {
    &&& q.wf()
    &&& q.id == p.id
    &&& q.slot_count() == p.slot_count()
    &&& forall|k: int| 0 <= k < p.slot_count() ==> #[trigger] q.item_bytes(k) == new_item_bytes(p, k, types, names, a, condition, unit)
}

/// Applies assignments to a record.
fn apply_assignments(record: &Record, positions: &Vec<usize>, new_values: &Vec<Value>) -> (r: Record)
    requires
        positions@.len() == new_values@.len(),
        forall|i: int| 0 <= i < positions@.len() ==> #[trigger] positions@[i] < record.values@.len(),
    ensures
        r.view_values() == update_row(record.view_values(), assignments_view(positions@, new_values@)),
{
    let ghost a = assignments_view(positions@, new_values@);
    let mut updated = record.clone();
    let mut i: usize = 0;
    assert(a.subrange(0, 0) =~= Seq::<(int, ValueView)>::empty());
    while i < positions.len()
        invariant
            a == assignments_view(positions@, new_values@),
            positions@.len() == new_values@.len(),
            forall|j: int| 0 <= j < positions@.len() ==> #[trigger] positions@[j] < record.values@.len(),
            updated.values@.len() == record.values@.len(),
            i <= positions@.len(),
            updated.view_values() == update_row(record.view_values(), a.subrange(0, i as int)),
        decreases positions@.len() - i,
    {
        let ghost before = updated.view_values();
        updated.values.set(positions[i], new_values[i].clone());
        assert(a.subrange(0, i + 1).drop_last() =~= a.subrange(0, i as int));
        assert(updated.view_values() =~= before.update(positions@[i as int] as int, new_values@[i as int]@));
        i += 1;
    }
    assert(a.subrange(0, i as int) =~= a);
    updated
}

/// The bytes of item `k` of `page` after an update, given its record.
#[verifier::rlimit(40)]
fn updated_item_bytes<F: Fn(FloatOp) -> u32>(
    page: &Page,
    k: usize,
    record: &Record,
    table: &Table,
    positions: &Vec<usize>,
    new_values: &Vec<Value>,
    condition: &Option<Box<Expression>>,
    unit: &F,
) -> (r: Result<Vec<u8>, QueryError>)
    requires
        float_unit_ok(*unit),
        positions@.len() == new_values@.len(),
        forall|i: int| 0 <= i < positions@.len() ==> #[trigger] positions@[i] < table.columns@.len(),
        page_ok(page@, column_types(*table)),
        k < page@.slot_count(),
        record.view_values() == page_rows(page@, column_types(*table))[k as int],
    ensures
        ({
            let types = column_types(*table);
            let names = column_names(table.columns@);
            let a = assignments_view(positions@, new_values@);
            let p = page@;
            &&& r is Ok <==> (row_selected(*condition, names, page_rows(p, types)[k as int], *unit) is Ok
                && new_item_bytes(p, k as int, types, names, a, *condition, *unit).len() <= p.item_bytes(k as int).len())
            &&& r matches Ok(b) ==> b@ == new_item_bytes(p, k as int, types, names, a, *condition, *unit)
            &&& r matches Err(e) ==> e is ValidationError
        }),
{
    let ghost types = column_types(*table);
    let ghost names = column_names(table.columns@);
    let ghost a = assignments_view(positions@, new_values@);
    let ghost p = page@;
    let ghost row = page_rows(p, types)[k as int];
    let selected = match condition {
        Some(cond) => {
            let binding = record_binding(table, record);
            match cond.evaluate(Some(&binding), unit) {
                Ok(v) => match v {
                    Value::Bool(b) => b,
                    _ => false,
                },
                Err(e) => {
                    return Err(e);
                },
            }
        },
        None => true,
    };
    assert(row_selected(*condition, names, row, *unit) == Ok::<bool, Seq<char>>(selected));
    let old_bytes = page.get_item_data(k);
    if selected {
        proof {
            let b = p.item_bytes(k as int);
            let m = crate::pages::null_map_len(crate::utils::u64_at(b, 0) as nat) as int;
            assert(decode_item(b, types) is Some);
            lemma_decode_fields_len(unpack_bits(b.subrange(8, 8 + m)), b.subrange(8 + m, b.len() as int), types, 0, 0);
            assert(record.values@.len() == types.len());
        }
        let updated = apply_assignments(record, positions, new_values);
        let item = Item::from_record(&updated);
        let data = item.to_page_data();
        assert(data@ =~= encode_item(update_row(row, a)));
        if data.len() > old_bytes.len() {
            return Err(validation_error("Update would grow a record beyond its stored size"));
        }
        Ok(data)
    } else {
        Ok(old_bytes)
    }
}

/// Updates one page: each selected row gets the assignments; the page is rebuilt
/// with its items in slot order.
#[verifier::rlimit(40)]
pub fn update_page<F: Fn(FloatOp) -> u32>(
    page: &Page,
    table: &Table,
    positions: &Vec<usize>,
    new_values: &Vec<Value>,
    condition: &Option<Box<Expression>>,
    unit: &F,
) -> (r: Result<Page, QueryError>)
    requires
        float_unit_ok(*unit),
        positions@.len() == new_values@.len(),
        forall|i: int| 0 <= i < positions@.len() ==> #[trigger] positions@[i] < table.columns@.len(),
    ensures
        ({
            let types = column_types(*table);
            let names = column_names(table.columns@);
            let a = assignments_view(positions@, new_values@);
            &&& r is Ok <==> page_update_ok(page@, types, names, a, *condition, *unit)
            &&& r matches Ok(q) ==> page_updated(page@, q@, types, names, a, *condition, *unit)
            &&& r matches Err(e) ==> e is ValidationError
        }),
{
    let ghost types = column_types(*table);
    let ghost names = column_names(table.columns@);
    let ghost a = assignments_view(positions@, new_values@);
    let ghost p = page@;
    let records = match read_page_records(page, table) {
        Ok(rs) => rs,
        Err(e) => {
            return Err(e);
        },
    };
    assert(rows_view(records@).len() == records@.len());
    let mut new_page = Page::new(page.get_id());
    let mut k: usize = 0;
    while k < records.len()
        invariant
            float_unit_ok(*unit),
            types == column_types(*table),
            names == column_names(table.columns@),
            a == assignments_view(positions@, new_values@),
            positions@.len() == new_values@.len(),
            forall|i: int| 0 <= i < positions@.len() ==> #[trigger] positions@[i] < table.columns@.len(),
            page@ == p,
            page_ok(p, types),
            rows_view(records@) == page_rows(p, types),
            records@.len() == p.slot_count(),
            k <= records@.len(),
            new_page@.wf(),
            new_page@.id == p.id,
            new_page@.slot_count() == k,
            new_page@.free_space_end - new_page@.free_space_start == PAGE_DATA_SIZE - rebuilt_size(p, k as int, types, names, a, *condition, *unit),
            forall|j: int| 0 <= j < k ==> #[trigger] new_page@.item_bytes(j) == new_item_bytes(p, j, types, names, a, *condition, *unit),
            forall|j: int| 0 <= j < k ==> #[trigger] row_selected(*condition, names, page_rows(p, types)[j], *unit) is Ok,
            forall|j: int| 0 <= j < k ==> (#[trigger] new_item_bytes(p, j, types, names, a, *condition, *unit)).len() <= p.item_bytes(j).len(),
        decreases records@.len() - k,
    {
        assert(records@[k as int].view_values() == rows_view(records@)[k as int]);
        let bytes = updated_item_bytes(page, k, &records[k], table, positions, new_values, condition, unit)?;
        let ghost before = new_page@;
        match new_page.add_bytes(bytes.as_slice()) {
            Ok(()) => {},
            Err(_) => {
                proof {
                    lemma_rebuilt_size_grows(p, k + 1, p.slot_count(), types, names, a, *condition, *unit);
                }
                return Err(validation_error("Updated records do not fit in their page"));
            },
        }
        assert forall|j: int| 0 <= j < k + 1 implies #[trigger] new_page@.item_bytes(j) == new_item_bytes(p, j, types, names, a, *condition, *unit) by {
            if j < k {
                assert(new_page@.item_bytes(j) == before.item_bytes(j));
            }
        }
        k += 1;
    }
    Ok(new_page)
}

/// An assignment names a column of the table and gives a value of its type.
pub open spec fn assignment_ok(table: Table, cv: ColumnValue) -> bool {
    match find_column(table.columns@, cv.column@) {
        Some(k) => type_of(cv.value@) == Some(table.columns@[k].column_type),
        None => false,
    }
}

/// The assignments of an update, as column positions and values.
pub open spec fn assignments_of(table: Table, values: Seq<ColumnValue>) -> Seq<(int, ValueView)> {
    Seq::new(values.len(), |i: int| (find_column(table.columns@, values[i].column@)->Some_0, values[i].value@))
}

/// Resolves the assignments of an update to column positions.
#[verifier::rlimit(40)]
fn resolve_assignments(table: &Table, values: &Vec<ColumnValue>) -> (r: Result<(Vec<usize>, Vec<Value>), QueryError>)
    ensures
        r is Ok <==> forall|i: int| 0 <= i < values@.len() ==> #[trigger] assignment_ok(*table, values@[i]),
        r matches Ok(pv) ==> pv.0@.len() == pv.1@.len() && assignments_view(pv.0@, pv.1@) == assignments_of(*table, values@)
            && forall|i: int| 0 <= i < pv.0@.len() ==> #[trigger] pv.0@[i] < table.columns@.len(),
        r matches Err(e) ==> e is NotFound || e is ValidationError,
{
    let mut positions: Vec<usize> = Vec::new();
    let mut new_values: Vec<Value> = Vec::new();
    let mut i: usize = 0;
    while i < values.len()
        invariant
            i <= values@.len(),
            positions@.len() == i,
            new_values@.len() == i,
            forall|j: int| 0 <= j < i ==> #[trigger] assignment_ok(*table, values@[j]),
            forall|j: int| 0 <= j < i ==> #[trigger] positions@[j] < table.columns@.len(),
            assignments_view(positions@, new_values@) == assignments_of(*table, values@).subrange(0, i as int),
        decreases values@.len() - i,
    {
        let cv = &values[i];
        proof {
            lemma_find_column_from(table.columns@, cv.column@, 0);
        }
        let k = match table.column_position(cv.column.as_str()) {
            Some(k) => k,
            None => {
                assert(!assignment_ok(*table, values@[i as int]));
                return Err(QueryError::NotFound(cv.column.clone()));
            },
        };
        if !cv.value.has_type(&table.columns[k].column_type) {
            assert(!assignment_ok(*table, values@[i as int]));
            return Err(validation_error("Incorrect value type in update"));
        }
        positions.push(k);
        new_values.push(cv.value.clone());
        i += 1;
        assert(assignments_view(positions@, new_values@) =~= assignments_of(*table, values@).subrange(0, i as int));
    }
    assert(assignments_of(*table, values@).subrange(0, i as int) =~= assignments_of(*table, values@));
    Ok((positions, new_values))
}

impl DBFileSystem {
    /// Updates the records of the table file `file` on which `condition`
    /// evaluates to `true`: every page is rebuilt with the assignments applied
    /// to its selected records, and comes back as a write at its offset. An
    /// update may not grow a stored record.
    #[verifier::rlimit(40)]
    pub fn update_records<F: Fn(FloatOp) -> u32>(
        &self,
        table: &Table,
        file: &[u8],
        values: &Vec<ColumnValue>,
        condition: &Option<Box<Expression>>,
        unit: &F,
    ) -> (r: Result<Vec<PageWrite>, QueryError>)
        requires
            float_unit_ok(*unit),
        ensures
            ({
                let types = column_types(*table);
                let names = column_names(table.columns@);
                let a = assignments_of(*table, values@);
                let n = file@.len() as int / PAGE_SIZE as int;
                &&& r is Ok <==> (forall|i: int| 0 <= i < values@.len() ==> #[trigger] assignment_ok(*table, values@[i]))
                    && file@.len() as int % PAGE_SIZE as int == 0
                    && forall|i: int| 0 <= i < n ==> #[trigger] page_update_ok(file_page(file@, i), types, names, a, *condition, *unit)
                &&& r matches Ok(ws) ==> ws@.len() == n && forall|i: int| 0 <= i < n ==> {
                    &&& (#[trigger] ws@[i]).offset == i * PAGE_SIZE
                    &&& ws@[i].bytes@.len() == PAGE_SIZE
                    &&& page_updated(file_page(file@, i), page_of_bytes(ws@[i].bytes@), types, names, a, *condition, *unit)
                }
                &&& r matches Err(e) ==> e is NotFound || e is ValidationError
            }),
    {
        let ghost types = column_types(*table);
        let ghost names = column_names(table.columns@);
        let ghost a = assignments_of(*table, values@);
        let (positions, new_values) = resolve_assignments(table, values)?;
        if file.len() % PAGE_SIZE != 0 {
            return Err(validation_error("Table file is not a whole number of pages"));
        }
        let flen = file.len();
        let n = flen / PAGE_SIZE;
        let mut writes: Vec<PageWrite> = Vec::new();
        let mut i: usize = 0;
        while i < n
            invariant
                float_unit_ok(*unit),
                flen == file@.len(),
                n == file@.len() as int / PAGE_SIZE as int,
                file@.len() as int % PAGE_SIZE as int == 0,
                types == column_types(*table),
                names == column_names(table.columns@),
                a == assignments_of(*table, values@),
                positions@.len() == new_values@.len(),
                assignments_view(positions@, new_values@) == a,
                forall|j: int| 0 <= j < positions@.len() ==> #[trigger] positions@[j] < table.columns@.len(),
                i <= n,
                writes@.len() == i,
                forall|j: int| 0 <= j < i ==> #[trigger] page_update_ok(file_page(file@, j), types, names, a, *condition, *unit),
                forall|j: int| 0 <= j < i ==> {
                    &&& (#[trigger] writes@[j]).offset == j * PAGE_SIZE
                    &&& writes@[j].bytes@.len() == PAGE_SIZE
                    &&& page_updated(file_page(file@, j), page_of_bytes(writes@[j].bytes@), types, names, a, *condition, *unit)
                },
            decreases n - i,
        {
            assert((i + 1) * PAGE_SIZE <= file@.len()) by (nonlinear_arith)
                requires
                    i < n,
                    n == file@.len() as int / 8192,
                    file@.len() as int % 8192 == 0,
            ;
            let start = i * PAGE_SIZE;
            let page_bytes = vstd::slice::slice_subrange(file, start, start + PAGE_SIZE);
            let page = Page::from_bytes(page_bytes);
            assert(page@ == file_page(file@, i as int));
            let updated = update_page(&page, table, &positions, &new_values, condition, unit)?;
            let bytes = updated.to_bytes();
            proof {
                lemma_page_round_trip(updated@);
            }
            writes.push(PageWrite { offset: start as u64, bytes });
            i += 1;
        }
        Ok(writes)
    }
}

proof fn lemma_no_condition_keeps_all<F: Fn(FloatOp) -> u32>(
    rows: Seq<Seq<ValueView>>,
    names: Seq<Seq<char>>,
    unit: F,
)
    ensures
        filter_rows(rows, names, None, unit) == Ok::<Seq<Seq<ValueView>>, Seq<char>>(rows),
    decreases rows.len(),
{
    if rows.len() > 0 {
        lemma_no_condition_keeps_all(rows.drop_last(), names, unit);
        assert(rows.drop_last().push(rows.last()) =~= rows);
    } else {
        assert(rows =~= Seq::<Seq<ValueView>>::empty());
    }
}

/// A select of every column without a condition returns every record of a
/// sound table file, in file order.
pub proof fn lemma_select_all<F: Fn(FloatOp) -> u32>(
    file: Seq<u8>,
    table: Table,
    unit: F,
    r: Result<Vec<Record>, QueryError>,
)
    requires
        table_rows(file, column_types(table)) is Some,
        select_outcome(file, table, seq!["*"@], None, unit, r),
    ensures
        r matches Ok(rs) && rows_view(rs@) == table_rows(file, column_types(table))->Some_0,
{
    let types = column_types(table);
    let rows = table_rows(file, types)->Some_0;
    let n = table.columns@.len();
    let wanted = seq!["*"@];
    assert(wanted.drop_last() =~= Seq::<Seq<char>>::empty());
    let idx = Seq::new(n, |i: int| i);
    assert(wanted.last() == "*"@);
    assert(projection(table.columns@, wanted.drop_last()) == Ok::<Seq<int>, Seq<char>>(Seq::<int>::empty()));
    assert(projection(table.columns@, wanted) is Ok);
    assert(projection(table.columns@, wanted)->Ok_0 =~= idx);
    lemma_no_condition_keeps_all(rows, column_names(table.columns@), unit);
    lemma_file_rows_len(file, types, file.len() as int / PAGE_SIZE as int);
    assert(types.len() == n);
    let projected = rows.map_values(|row: Seq<ValueView>| project_row(row, idx));
    assert forall|k: int| 0 <= k < rows.len() implies #[trigger] projected[k] == rows[k] by {
        assert(rows[k].len() == n);
        assert(project_row(rows[k], idx) =~= rows[k]);
    }
    assert(projected =~= rows);
}

/// A select whose condition evaluates to `false` on every record of a sound
/// table file, with columns that exist, returns no record.
pub proof fn lemma_false_condition_selects_nothing<F: Fn(FloatOp) -> u32>(
    file: Seq<u8>,
    table: Table,
    columns: Seq<Seq<char>>,
    condition: Box<Expression>,
    unit: F,
    r: Result<Vec<Record>, QueryError>,
)
    requires
        table_rows(file, column_types(table)) is Some,
        projection(table.columns@, columns) is Ok,
        forall|i: int|
            0 <= i < table_rows(file, column_types(table))->Some_0.len() ==> eval(
                *condition,
                Some(row_binding(column_names(table.columns@), #[trigger] table_rows(file, column_types(table))->Some_0[i])),
                unit,
            ) == Ok::<ValueView, Seq<char>>(ValueView::Bool(false)),
        select_outcome(file, table, columns, Some(condition), unit, r),
    ensures
        r matches Ok(rs) && rs@.len() == 0,
{
    let rows = table_rows(file, column_types(table))->Some_0;
    lemma_false_condition_keeps_nothing(rows, column_names(table.columns@), condition, unit);
    let rs = r->Ok_0;
    assert(rows_view(rs@).len() == rs@.len());
}

/// A run of inserts into a table file: `files[0]` is empty, write `i` turns
/// `files[i]` into `files[i + 1]`, and it is what an insert of record `i`
/// decides on `files[i]`.
pub open spec fn insert_run(files: Seq<Seq<u8>>, writes: Seq<PageWrite>, records: Seq<Seq<ValueView>>, types: Seq<Type>) -> bool {
    &&& files.len() == writes.len() + 1
    &&& records.len() == writes.len()
    &&& files[0].len() == 0
    &&& forall|i: int| 0 <= i < writes.len() ==> {
        &&& #[trigger] files[i + 1] == apply_write(files[i], writes[i])
        &&& files[i].len() <= u64::MAX
        &&& matches_schema(records[i], types)
        &&& strings_fit(records[i])
        &&& records[i].len() <= u64::MAX
        &&& insert_outcome(files[i].len() as u64, last_page_of(files[i]), encode_item(records[i]), writes[i])
    }
}

/// Insertion order over a run of inserts: a table file written only by the
/// inserts of records `R_0 .. R_n-1` from empty holds exactly those records,
/// in that order.
pub proof fn lemma_insert_run(files: Seq<Seq<u8>>, writes: Seq<PageWrite>, records: Seq<Seq<ValueView>>, types: Seq<Type>)
    requires
        insert_run(files, writes, records, types),
    ensures
        table_rows(files.last(), types) == Some(records),
    decreases writes.len(),
{
    let n = writes.len() as int;
    if n == 0 {
        assert(file_rows(files[0], types, 0) == Some(Seq::<Seq<ValueView>>::empty()));
        assert(records =~= Seq::<Seq<ValueView>>::empty());
    } else {
        let f2 = files.drop_last();
        let w2 = writes.drop_last();
        let r2 = records.drop_last();
        assert(insert_run(f2, w2, r2, types)) by {
            assert forall|i: int| 0 <= i < w2.len() implies {
                &&& #[trigger] f2[i + 1] == apply_write(f2[i], w2[i])
                &&& f2[i].len() <= u64::MAX
                &&& matches_schema(r2[i], types)
                &&& strings_fit(r2[i])
                &&& r2[i].len() <= u64::MAX
                &&& insert_outcome(f2[i].len() as u64, last_page_of(f2[i]), encode_item(r2[i]), w2[i])
            } by {
                assert(files[i + 1] == apply_write(files[i], writes[i]));
            }
        }
        lemma_insert_run(f2, w2, r2, types);
        assert(f2.last() == files[n - 1]);
        assert(files[n] == apply_write(files[n - 1], writes[n - 1]));
        lemma_insert_then_scan(files[n - 1], types, records[n - 1], writes[n - 1]);
        assert(r2.push(records[n - 1]) =~= records);
    }
}

} // verus!
