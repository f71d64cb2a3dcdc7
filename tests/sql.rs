use std::collections::HashMap;

use csbase::asl::{Expression, Query, Record};
use csbase::db::{Database, QueryOutput};
use csbase::errors::QueryError;
use csbase::sql::{parse_query, same_word, tokenize, Symbol, Token};
use csbase::value::{Comparator, FloatOp, Operator, Type, Value};


fn assert_same<T: std::fmt::Debug>(a: T, b: T) {
    assert_eq!(format!("{:?}", a), format!("{:?}", b));
}

fn float_unit(op: FloatOp) -> u32 {
    match op {
        FloatOp::FromInt(i) => (i as f32).to_bits(),
        FloatOp::Apply(o, a, b) => {
            let (x, y) = (f32::from_bits(a), f32::from_bits(b));
            let r = match o {
                Operator::Add => x + y,
                Operator::Subtract => x - y,
                Operator::Multiply => x * y,
                Operator::Divide => x / y,
            };
            r.to_bits()
        }
    }
}

struct Session {
    db: Database,
    files: HashMap<String, Vec<u8>>,
}

impl Session {
    fn new() -> Session {
        Session { db: Database::new(String::from("/db")), files: HashMap::new() }
    }

    fn sql(&mut self, text: &str) -> Result<Vec<Vec<Value>>, QueryError> {
        let query = parse_query(text)?;
        let name = match &query {
            Query::Select(q) => q.table.clone(),
            Query::Insert(q) => q.table.clone(),
            Query::CreateTable(q) => q.table.clone(),
            Query::DropTable(q) => q.table.clone(),
        };
        let file = match self.db.table_data_path(&name) {
            Ok(path) => self.files.get(&path).cloned().unwrap_or_default(),
            Err(_) => Vec::new(),
        };
        match self.db.run_query(query, &file, &float_unit)? {
            QueryOutput::Rows(rows) => Ok(rows.into_iter().map(|r: Record| r.values).collect()),
            QueryOutput::Write(w) => {
                let path = self.db.table_data_path(&name).unwrap();
                let data = self.files.get_mut(&path).unwrap();
                let offset = w.offset as usize;
                if data.len() < offset + w.bytes.len() {
                    data.resize(offset + w.bytes.len(), 0);
                }
                data[offset..offset + w.bytes.len()].copy_from_slice(&w.bytes);
                Ok(Vec::new())
            }
            QueryOutput::Created(path) => {
                self.files.insert(path, Vec::new());
                Ok(Vec::new())
            }
            QueryOutput::Dropped(path) => {
                self.files.remove(&path);
                Ok(Vec::new())
            }
        }
    }
}

fn float(x: f32) -> Value {
    Value::Float(x.to_bits())
}

#[test]
fn sql_create_insert_select() {
    let mut s = Session::new();
    s.sql("CREATE TABLE t (id int, name str)").unwrap();
    s.sql("INSERT INTO t (id, name) VALUES (1, 'a')").unwrap();
    assert_same(
        s.sql("SELECT id, name FROM t").unwrap(),
        vec![vec![Value::Int(1), Value::Str("a".to_string())]]
    );
}

// `6/2` evaluates to a float, and a value must have its column's type, so
// this scenario stores it in a float column; an int column rejects it (see
// `float_result_into_int_column_is_rejected`), and `where_comparisons_filter_rows`
// runs the same comparisons on an int column.
#[test]
fn sql_float_column_and_where() {
    let mut s = Session::new();
    s.sql("create table n (x float);").unwrap();
    s.sql("insert into n (x) values (6/2)").unwrap();
    assert_same(s.sql("select x from n").unwrap(), vec![vec![float(3.0)]]);
    assert_same(s.sql("select x from n where x > 2").unwrap(), vec![vec![float(3.0)]]);
    assert!(s.sql("select x from n where x < 2").unwrap().is_empty());
    s.sql("insert into n (x) values (2.5)").unwrap();
    s.sql("insert into n (x) values (-0.125 * 8)").unwrap();
    assert_same(
        s.sql("select * from n where x <= 2.5 and x >= 0 or x = -1").unwrap(),
        vec![vec![float(2.5)], vec![float(-1.0)]]
    );
}

#[test]
fn sql_errors() {
    let mut s = Session::new();
    s.sql("CREATE TABLE t (id int)").unwrap();
    assert_same(s.sql("CREATE TABLE t (id int)"), Err(QueryError::Conflict("t".to_string())));
    assert_same(
        s.sql("INSERT INTO t (id) VALUES (1/0)"),
        Err(QueryError::ValidationError("Division by 0".to_string()))
    );
    assert!(s.sql("SELECT * FROM t").unwrap().is_empty());
    s.sql("DROP TABLE t").unwrap();
    assert!(s.sql("CREATE TABLE t (id int)").is_ok());
    assert!(matches!(s.sql("SELEKT * FROM t"), Err(QueryError::ParseError(_))));
    assert!(matches!(s.sql("SELECT * FROM t WHERE"), Err(QueryError::ParseError(_))));
    assert!(matches!(s.sql("SELECT * FROM t extra"), Err(QueryError::ParseError(_))));
    assert!(matches!(s.sql("INSERT INTO t (id) VALUES ('x)"), Err(QueryError::ParseError(_))));
    assert!(matches!(s.sql("CREATE TABLE u (id date)"), Err(QueryError::ParseError(_))));
}

#[test]
fn tokens_of_a_statement() {
    let tokens = tokenize("x<=12 'hé' 3.25 <> ;").unwrap();
    assert_same(tokens.len(), 6);
    assert!(matches!(&tokens[0], Token::Word(w) if w == "x"));
    assert!(matches!(tokens[1], Token::Symbol(Symbol::Lte)));
    assert!(matches!(tokens[2], Token::Int(12)));
    assert!(matches!(&tokens[3], Token::Text(t) if t == "hé"));
    assert!(matches!(tokens[4], Token::Decimal(325, 2)));
    assert!(matches!(tokens[5], Token::Symbol(Symbol::Neq)));
    assert!(tokenize("2147483648").is_err());
    assert!(matches!(tokenize("2147483647").unwrap()[0], Token::Int(2147483647)));
    assert!(tokenize("1.123456789").is_err());
    assert!(tokenize("#").is_err());
}

#[test]
fn precedence_of_operators() {
    let q = parse_query("SELECT a FROM t WHERE 1 + 2 * 3 = 7 AND true").unwrap();
    let cond = match q {
        Query::Select(q) => q.condition.unwrap(),
        _ => panic!("expected a select"),
    };
    assert_same(cond.evaluate(None, &float_unit), Ok(Value::Bool(true)));
    match *cond {
        Expression::LogicOp(left, _, _) => match *left {
            Expression::Comp(_, Comparator::Eq, _) => {}
            other => panic!("unexpected {:?}", other),
        },
        other => panic!("unexpected {:?}", other),
    }
}

#[test]
fn create_reads_types() {
    match parse_query("create table t (a STR, b Bool, c int, d float)").unwrap() {
        Query::CreateTable(q) => {
            let types: Vec<Type> = q.columns.iter().map(|c| c.column_type).collect();
            assert_same(types, vec![Type::Str, Type::Bool, Type::Int, Type::Float]);
        }
        _ => panic!("expected a create table"),
    }
    assert!(same_word("SELECT", "select"));
    assert!(!same_word("select", "selects"));
}
