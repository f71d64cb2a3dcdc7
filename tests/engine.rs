use std::collections::HashMap;

use csbase::asl::{
    Column, CreateTableQuery, DropTableQuery, Expression, InsertQuery, Query, Record, SelectQuery,
};
use csbase::db::{Database, QueryOutput};
use csbase::errors::QueryError;
use csbase::pages::PAGE_SIZE;
use csbase::value::{Comparator, FloatOp, Operator, Type, Value};


fn assert_same<T: std::fmt::Debug>(a: T, b: T) {
    assert_eq!(format!("{:?}", a), format!("{:?}", b));
}

fn float_unit(op: FloatOp) -> u32 {
    match op {
        FloatOp::FromInt(i) => (i as f32).to_bits(),
        FloatOp::Apply(o, a, b) => {
            let (x, y) = (f32::from_bits(a), f32::from_bits(b));
            let r = match o {
                Operator::Add => x + y,
                Operator::Subtract => x - y,
                Operator::Multiply => x * y,
                Operator::Divide => x / y,
            };
            r.to_bits()
        }
    }
}

/// A database over files kept in memory.
struct Harness {
    db: Database,
    files: HashMap<String, Vec<u8>>,
}

impl Harness {
    fn new() -> Harness {
        Harness { db: Database::new(String::from("/db")), files: HashMap::new() }
    }

    fn table_of(query: &Query) -> String {
        match query {
            Query::Select(q) => q.table.clone(),
            Query::Insert(q) => q.table.clone(),
            Query::CreateTable(q) => q.table.clone(),
            Query::DropTable(q) => q.table.clone(),
        }
    }

    fn run(&mut self, query: Query) -> Result<Option<Vec<Record>>, QueryError> {
        let name = Harness::table_of(&query);
        let file = match self.db.table_data_path(&name) {
            Ok(path) => self.files.get(&path).cloned().unwrap_or_default(),
            Err(_) => Vec::new(),
        };
        match self.db.run_query(query, &file, &float_unit)? {
            QueryOutput::Rows(rows) => Ok(Some(rows)),
            QueryOutput::Write(w) => {
                let path = self.db.table_data_path(&name).unwrap();
                let data = self.files.get_mut(&path).unwrap();
                let offset = w.offset as usize;
                if data.len() < offset + w.bytes.len() {
                    data.resize(offset + w.bytes.len(), 0);
                }
                data[offset..offset + w.bytes.len()].copy_from_slice(&w.bytes);
                Ok(None)
            }
            QueryOutput::Created(path) => {
                self.files.insert(path, Vec::new());
                Ok(None)
            }
            QueryOutput::Dropped(path) => {
                self.files.remove(&path);
                Ok(None)
            }
        }
    }

    fn file_len(&self, table: &str) -> usize {
        self.files[&self.db.table_data_path(table).unwrap()].len()
    }
}

fn column(name: &str, column_type: Type) -> Column {
    Column { name: name.to_string(), column_type }
}

fn create(table: &str, columns: Vec<Column>) -> Query {
    Query::CreateTable(CreateTableQuery { table: table.to_string(), columns })
}

fn drop_table(table: &str) -> Query {
    Query::DropTable(DropTableQuery { table: table.to_string() })
}

fn lit(v: Value) -> Box<Expression> {
    Box::new(Expression::Value(v))
}

fn ident(name: &str) -> Box<Expression> {
    Box::new(Expression::Identifier(name.to_string()))
}

fn insert(table: &str, columns: &[&str], values: Vec<Box<Expression>>) -> Query {
    Query::Insert(InsertQuery {
        table: table.to_string(),
        columns: columns.iter().map(|c| c.to_string()).collect(),
        values,
    })
}

fn select(table: &str, columns: &[&str], condition: Option<Box<Expression>>) -> Query {
    Query::Select(SelectQuery {
        table: table.to_string(),
        columns: columns.iter().map(|c| c.to_string()).collect(),
        condition,
    })
}

fn rows(r: Result<Option<Vec<Record>>, QueryError>) -> Vec<Vec<Value>> {
    r.unwrap().unwrap().into_iter().map(|r| r.values).collect()
}

fn float(x: f32) -> Value {
    Value::Float(x.to_bits())
}

#[test]
fn insert_then_select_one_row() {
    let mut h = Harness::new();
    h.run(create("t", vec![column("id", Type::Int), column("name", Type::Str)])).unwrap();
    h.run(insert("t", &["id", "name"], vec![lit(Value::Int(1)), lit(Value::Str("a".to_string()))]))
        .unwrap();
    let found = rows(h.run(select("t", &["id", "name"], None)));
    assert_same(found, vec![vec![Value::Int(1), Value::Str("a".to_string())]]);
}

#[test]
fn thousand_rows_in_insertion_order() {
    let mut h = Harness::new();
    h.run(create("t", vec![column("id", Type::Int), column("name", Type::Str)])).unwrap();
    for i in 0..1000 {
        let before = h.file_len("t");
        h.run(insert(
            "t",
            &["id", "name"],
            vec![lit(Value::Int(i)), lit(Value::Str(format!("row{}", i)))],
        ))
        .unwrap();
        let after = h.file_len("t");
        assert!(after > 0 && after % PAGE_SIZE == 0);
        assert!(after == before || after == before + PAGE_SIZE);
    }
    let found = rows(h.run(select("t", &["*"], None)));
    assert_same(found.len(), 1000);
    for (i, row) in found.iter().enumerate() {
        assert_same(row, &vec![Value::Int(i as i32), Value::Str(format!("row{}", i))]);
    }
    let len = h.file_len("t");
    assert!(len % PAGE_SIZE == 0 && len >= PAGE_SIZE);
    assert!(len > PAGE_SIZE);
}

#[test]
fn division_promotes_to_float() {
    let mut h = Harness::new();
    h.run(create("f", vec![column("x", Type::Float)])).unwrap();
    let six_halves = Box::new(Expression::Op(lit(Value::Int(6)), Operator::Divide, lit(Value::Int(2))));
    h.run(insert("f", &["x"], vec![six_halves])).unwrap();
    assert_same(rows(h.run(select("f", &["x"], None))), vec![vec![float(3.0)]]);
}

#[test]
fn float_result_into_int_column_is_rejected() {
    let mut h = Harness::new();
    h.run(create("n", vec![column("x", Type::Int)])).unwrap();
    let six_halves = Box::new(Expression::Op(lit(Value::Int(6)), Operator::Divide, lit(Value::Int(2))));
    let r = h.run(insert("n", &["x"], vec![six_halves]));
    assert!(matches!(r, Err(QueryError::ValidationError(_))));
    assert!(rows(h.run(select("n", &["*"], None))).is_empty());
}

#[test]
fn where_comparisons_filter_rows() {
    let mut h = Harness::new();
    h.run(create("n", vec![column("x", Type::Int)])).unwrap();
    h.run(insert("n", &["x"], vec![lit(Value::Int(3))])).unwrap();
    let gt = Box::new(Expression::Comp(ident("x"), Comparator::Gt, lit(Value::Int(2))));
    assert_same(rows(h.run(select("n", &["x"], Some(gt)))), vec![vec![Value::Int(3)]]);
    let lt = Box::new(Expression::Comp(ident("x"), Comparator::Lt, lit(Value::Int(2))));
    assert!(rows(h.run(select("n", &["x"], Some(lt)))).is_empty());

    h.run(create("f", vec![column("x", Type::Float)])).unwrap();
    h.run(insert("f", &["x"], vec![lit(float(3.0))])).unwrap();
    let gt = Box::new(Expression::Comp(ident("x"), Comparator::Gt, lit(Value::Int(2))));
    assert_same(rows(h.run(select("f", &["x"], Some(gt)))), vec![vec![float(3.0)]]);
    let lt = Box::new(Expression::Comp(ident("x"), Comparator::Lt, lit(Value::Int(2))));
    assert!(rows(h.run(select("f", &["x"], Some(lt)))).is_empty());
}

#[test]
fn false_condition_selects_nothing() {
    let mut h = Harness::new();
    h.run(create("n", vec![column("x", Type::Int)])).unwrap();
    for i in 0..5 {
        h.run(insert("n", &["x"], vec![lit(Value::Int(i))])).unwrap();
    }
    let never = Box::new(Expression::Value(Value::Bool(false)));
    assert!(rows(h.run(select("n", &["*"], Some(never)))).is_empty());
    let big = Box::new(Expression::Comp(ident("x"), Comparator::Gte, lit(Value::Int(100))));
    assert!(rows(h.run(select("n", &["*"], Some(big)))).is_empty());
}

#[test]
fn division_by_zero_insert_leaves_table_unchanged() {
    let mut h = Harness::new();
    h.run(create("n", vec![column("x", Type::Int)])).unwrap();
    h.run(insert("n", &["x"], vec![lit(Value::Int(7))])).unwrap();
    let before = rows(h.run(select("n", &["*"], None)));
    let one_zero = Box::new(Expression::Op(lit(Value::Int(1)), Operator::Divide, lit(Value::Int(0))));
    let r = h.run(insert("n", &["x"], vec![one_zero]));
    assert_same(r, Err(QueryError::ValidationError("Division by 0".to_string())));
    assert_same(rows(h.run(select("n", &["*"], None))), before);
}

#[test]
fn create_twice_conflicts_and_drop_frees_the_name() {
    let mut h = Harness::new();
    h.run(create("t", vec![column("id", Type::Int)])).unwrap();
    let r = h.run(create("t", vec![column("id", Type::Int)]));
    assert_same(r, Err(QueryError::Conflict("t".to_string())));
    assert_same(h.db.definition().get_tables().len(), 1);
    h.run(drop_table("t")).unwrap();
    assert!(h.run(create("t", vec![column("id", Type::Int)])).is_ok());
}

#[test]
fn drop_unknown_table_is_not_found() {
    let mut h = Harness::new();
    h.run(create("t", vec![column("id", Type::Int)])).unwrap();
    let files_before = h.files.clone();
    let r = h.run(drop_table("nope"));
    assert_same(r, Err(QueryError::NotFound("nope".to_string())));
    assert_eq!(h.files, files_before);
    assert_same(h.db.definition().get_tables().len(), 1);
}

#[test]
fn insert_with_wrong_arity_or_type_is_rejected() {
    let mut h = Harness::new();
    h.run(create("t", vec![column("id", Type::Int), column("name", Type::Str)])).unwrap();
    let arity = h.run(insert("t", &["id", "name"], vec![lit(Value::Int(1))]));
    assert!(matches!(arity, Err(QueryError::ValidationError(_))));
    let wrong_type = h.run(insert("t", &["id"], vec![lit(Value::Str("x".to_string()))]));
    assert!(matches!(wrong_type, Err(QueryError::ValidationError(_))));
    let unknown = h.run(insert("t", &["age"], vec![lit(Value::Int(3))]));
    assert!(matches!(unknown, Err(QueryError::ValidationError(_))));
    assert_same(h.file_len("t"), 0);
}

#[test]
fn unlisted_columns_are_null_and_projection_follows_request() {
    let mut h = Harness::new();
    h.run(create("t", vec![column("id", Type::Int), column("name", Type::Str)])).unwrap();
    h.run(insert("t", &["name"], vec![lit(Value::Str("b".to_string()))])).unwrap();
    assert_same(
        rows(h.run(select("t", &["name", "id"], None))),
        vec![vec![Value::Str("b".to_string()), Value::Null]]
    );
}

#[test]
fn unknown_table_or_column_is_not_found() {
    let mut h = Harness::new();
    assert_same(h.run(select("t", &["*"], None)), Err(QueryError::NotFound("t".to_string())));
    h.run(create("t", vec![column("id", Type::Int)])).unwrap();
    assert_same(h.run(select("t", &["age"], None)), Err(QueryError::NotFound("age".to_string())));
}

#[test]
fn where_on_unknown_identifier_is_an_error() {
    let mut h = Harness::new();
    h.run(create("t", vec![column("id", Type::Int)])).unwrap();
    h.run(insert("t", &["id"], vec![lit(Value::Int(1))])).unwrap();
    let cond = Box::new(Expression::Comp(ident("age"), Comparator::Eq, lit(Value::Int(1))));
    let r = h.run(select("t", &["*"], Some(cond)));
    assert_same(
        r,
        Err(QueryError::ValidationError(
            "Identifier not present in provided values: age".to_string()
        ))
    );
}
