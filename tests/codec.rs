use csbase::asl::{Column, ColumnValue, Expression, InsertQuery, Record, Table};
use csbase::db::DatabaseDefinition;
use csbase::errors::{QueryError, SystemError};
use csbase::fs::{scan_records, DBFileSystem};
use csbase::pages::{Item, Page, PagingError, PAGE_DATA_SIZE, PAGE_SIZE};
use csbase::utils::copy_bytes_into;
use csbase::value::{Comparator, FloatOp, LogicOperator, Operator, Type, Value};


fn assert_same<T: std::fmt::Debug>(a: T, b: T) {
    assert_eq!(format!("{:?}", a), format!("{:?}", b));
}

fn float_unit(op: FloatOp) -> u32 {
    match op {
        FloatOp::FromInt(i) => (i as f32).to_bits(),
        FloatOp::Apply(o, a, b) => {
            let (x, y) = (f32::from_bits(a), f32::from_bits(b));
            let r = match o {
                Operator::Add => x + y,
                Operator::Subtract => x - y,
                Operator::Multiply => x * y,
                Operator::Divide => x / y,
            };
            r.to_bits()
        }
    }
}

fn float(x: f32) -> Value {
    Value::Float(x.to_bits())
}

fn table(columns: Vec<(&str, Type)>) -> Table {
    Table {
        name: "t".to_string(),
        columns: columns
            .into_iter()
            .map(|(n, t)| Column { name: n.to_string(), column_type: t })
            .collect(),
    }
}

fn invalid(r: Result<Value, QueryError>) -> bool {
    matches!(r, Err(QueryError::ValidationError(_)))
}

#[test]
fn integer_arithmetic_stays_integer() {
    assert_same(Value::Int(2).add(Value::Int(3), &float_unit), Ok(Value::Int(5)));
    assert_same(Value::Int(2).sub(Value::Int(3), &float_unit), Ok(Value::Int(-1)));
    assert_same(Value::Int(4).mul(Value::Int(3), &float_unit), Ok(Value::Int(12)));
    assert_same(Value::Int(i32::MAX).add(Value::Int(1), &float_unit), Ok(Value::Int(i32::MIN)));
}

#[test]
fn mixed_arithmetic_promotes_to_float() {
    assert_same(Value::Int(1).add(float(0.5), &float_unit), Ok(float(1.5)));
    assert_same(float(2.5).mul(Value::Int(2), &float_unit), Ok(float(5.0)));
    assert_same(Value::Int(7).div(Value::Int(2), &float_unit), Ok(float(3.5)));
    assert_same(float(1.0).sub(float(0.25), &float_unit), Ok(float(0.75)));
}

#[test]
fn string_concatenation() {
    let r = Value::Str("ab".to_string()).add(Value::Str("cd".to_string()), &float_unit);
    assert_same(r, Ok(Value::Str("abcd".to_string())));
    assert!(invalid(Value::Str("a".to_string()).sub(Value::Str("b".to_string()), &float_unit)));
}

#[test]
fn zero_divisors_are_errors() {
    let div0 = || Err(QueryError::ValidationError("Division by 0".to_string()));
    assert_same(Value::Int(1).div(Value::Int(0), &float_unit), div0());
    assert_same(Value::Int(1).div(float(0.0), &float_unit), div0());
    assert_same(float(1.0).div(Value::Int(0), &float_unit), div0());
    assert_same(float(1.0).div(float(-0.0), &float_unit), div0());
}

#[test]
fn mismatched_operands_are_errors() {
    assert!(invalid(Value::Int(1).add(Value::Bool(true), &float_unit)));
    assert!(invalid(Value::Bool(true).add(Value::Bool(true), &float_unit)));
    assert!(invalid(Value::Str("a".to_string()).add(Value::Int(1), &float_unit)));
    assert!(invalid(Value::Null.mul(Value::Int(1), &float_unit)));
}

#[test]
fn integer_equals_its_float() {
    for i in [0, 1, -7, 16_777_217, i32::MAX, i32::MIN] {
        let f = float(i as f32);
        assert_same(Value::Int(i).compare(Comparator::Eq, &f, &float_unit), Ok(true));
        assert_same(f.compare(Comparator::Eq, &Value::Int(i), &float_unit), Ok(true));
    }
}

#[test]
fn comparisons() {
    let u = &float_unit;
    assert_same(Value::Int(1).compare(Comparator::Lt, &Value::Int(2), u), Ok(true));
    assert_same(float(-1.5).compare(Comparator::Lt, &float(0.0), u), Ok(true));
    assert_same(float(0.0).compare(Comparator::Eq, &float(-0.0), u), Ok(true));
    assert_same(float(-2.0).compare(Comparator::Gt, &float(-3.0), u), Ok(true));
    let nan = float(f32::NAN);
    assert_same(nan.compare(Comparator::Eq, &nan, u), Ok(false));
    assert_same(nan.compare(Comparator::Neq, &nan, u), Ok(true));
    assert_same(nan.compare(Comparator::Lt, &float(1.0), u), Ok(false));
    let a = Value::Str("abc".to_string());
    let b = Value::Str("abd".to_string());
    assert_same(a.compare(Comparator::Lt, &b, u), Ok(true));
    assert_same(Value::Str("ab".to_string()).compare(Comparator::Lt, &a, u), Ok(true));
    assert_same(a.compare(Comparator::Eq, &Value::Str("abc".to_string()), u), Ok(true));
    assert_same(Value::Bool(true).compare(Comparator::Neq, &Value::Bool(false), u), Ok(true));
    assert!(matches!(
        Value::Bool(true).compare(Comparator::Lt, &Value::Bool(false), u),
        Err(QueryError::ValidationError(_))
    ));
    assert!(matches!(
        Value::Int(1).compare(Comparator::Eq, &Value::Str("1".to_string()), u),
        Err(QueryError::ValidationError(_))
    ));
}

#[test]
fn logic_needs_booleans() {
    let t = Box::new(Expression::Value(Value::Bool(true)));
    let f = Box::new(Expression::Value(Value::Bool(false)));
    let and = Expression::LogicOp(t, LogicOperator::And, f);
    assert_same(and.evaluate(None, &float_unit), Ok(Value::Bool(false)));
    let one = Box::new(Expression::Value(Value::Int(1)));
    let t = Box::new(Expression::Value(Value::Bool(true)));
    let bad = Expression::LogicOp(one, LogicOperator::Or, t);
    assert_same(
        bad.evaluate(None, &float_unit),
        Err(QueryError::ValidationError("Value is not boolean".to_string()))
    );
}

#[test]
fn identifiers_need_a_binding() {
    let e = Expression::Identifier("x".to_string());
    assert!(matches!(e.evaluate(None, &float_unit), Err(QueryError::ValidationError(_))));
    let binding = vec![("x".to_string(), Value::Int(4)), ("x".to_string(), Value::Int(5))];
    assert_same(e.evaluate(Some(&binding), &float_unit), Ok(Value::Int(4)));
}

#[test]
fn insert_expressions_evaluate_in_order() {
    let q = InsertQuery {
        table: "t".to_string(),
        columns: vec!["a".to_string(), "b".to_string()],
        values: vec![
            Box::new(Expression::Op(
                Box::new(Expression::Value(Value::Int(2))),
                Operator::Multiply,
                Box::new(Expression::Value(Value::Int(21))),
            )),
            Box::new(Expression::Value(Value::Str("z".to_string()))),
        ],
    };
    assert_same(
        q.evaluate_expressions(&float_unit),
        Ok(vec![Value::Int(42), Value::Str("z".to_string())])
    );
}

#[test]
fn value_bytes_are_big_endian() {
    assert_same(Value::Int(258).to_be_bytes(), vec![0, 0, 1, 2]);
    assert_same(float(1.0).to_be_bytes(), vec![0x3f, 0x80, 0, 0]);
    assert_same(Value::Bool(true).to_be_bytes(), vec![1]);
    assert_same(Value::Str("hé".to_string()).to_be_bytes(), "hé".as_bytes().to_vec());
    assert_same(Value::from_be_bytes(vec![0xff, 0xff, 0xff, 0xfe], &Type::Int), Ok(Value::Int(-2)));
    assert_same(Value::from_be_bytes(vec![0], &Type::Bool), Ok(Value::Bool(false)));
    assert_same(
        Value::from_be_bytes("hé".as_bytes().to_vec(), &Type::Str),
        Ok(Value::Str("hé".to_string()))
    );
    assert!(Value::from_be_bytes(vec![0xff, 0xfe], &Type::Str).is_err());
}

#[test]
fn item_round_trip_with_nulls() {
    let schema = table(vec![
        ("a", Type::Int),
        ("b", Type::Str),
        ("c", Type::Bool),
        ("d", Type::Float),
        ("e", Type::Str),
        ("f", Type::Int),
        ("g", Type::Int),
        ("h", Type::Int),
        ("i", Type::Str),
    ]);
    let record = Record {
        values: vec![
            Value::Int(-5),
            Value::Null,
            Value::Bool(true),
            float(2.5),
            Value::Str("héllo".to_string()),
            Value::Null,
            Value::Int(9),
            Value::Null,
            Value::Str(String::new()),
        ],
    };
    let item = Item::from_record(&record);
    let data = item.to_page_data();
    assert_same(&data[0..8], &9u64.to_be_bytes());
    assert_same(&data[8..10], &[0b0100_0101, 0b0000_0000]);
    let back = Item::from_page_data(&data).unwrap();
    assert_same(back.to_record(&schema), Ok(record));
    assert_same(Item::get_null_map_length(&9), 2);
    assert_same(Item::get_null_map_length(&8), 1);
    assert_same(Item::get_null_map_length(&0), 0);
}

#[test]
fn truncated_item_is_an_error() {
    assert!(Item::from_page_data(&[0, 0, 0]).is_err());
    let schema = table(vec![("a", Type::Int)]);
    let item = Item::from_page_data(&[0, 0, 0, 0, 0, 0, 0, 1, 0, 7]).unwrap();
    assert!(item.to_record(&schema).is_err());
}

#[test]
fn page_round_trip() {
    let mut page = Page::new(7);
    let record = Record { values: vec![Value::Int(1), Value::Str("a".to_string())] };
    page.add_item(&Item::from_record(&record)).unwrap();
    let bytes = page.to_bytes();
    assert_same(bytes.len(), PAGE_SIZE);
    assert_same(&bytes[0..4], &[0, 0, 0, 7]);
    assert_same(&bytes[4..12], &16u64.to_be_bytes());
    let again = Page::from_bytes(&bytes);
    assert_same(again.to_bytes(), bytes);
    assert_same(again.get_id(), 7);
    assert_same(again.get_item_offset_and_sizes().unwrap().len(), 1);
    assert_same(again.get_free_space(), page.get_free_space());
    let items = again.get_items().unwrap();
    let schema = table(vec![("id", Type::Int), ("name", Type::Str)]);
    assert_same(items[0].to_record(&schema), Ok(record));
}

#[test]
fn page_fills_to_capacity() {
    let mut page = Page::new(1);
    let record = Record { values: vec![Value::Int(1)] };
    let item = Item::from_record(&record);
    let item_len = item.to_page_data().len();
    let fits = PAGE_DATA_SIZE / (item_len + 16);
    for _ in 0..fits {
        assert_same(page.add_item(&item), Ok(()));
    }
    assert_same(page.add_item(&item), Err(PagingError::NotEnoughSpace));
    assert_same(page.get_items().unwrap().len(), fits);
}

#[test]
fn insert_at_page_capacity_opens_next_page() {
    let fs = DBFileSystem::new("/db".to_string());
    let schema = table(vec![("id", Type::Int)]);
    let record = Record { values: vec![Value::Int(3)] };
    let item_len = Item::from_record(&record).to_page_data().len();
    let fits = PAGE_DATA_SIZE / (item_len + 16);
    let mut file: Vec<u8> = Vec::new();
    for k in 0..fits {
        let last = DBFileSystem::last_page_offset(file.len() as u64)
            .map(|o| &file[o as usize..o as usize + PAGE_SIZE]);
        let w = fs.insert_record(file.len() as u64, last, &record).unwrap();
        if k == 0 {
            file = w.bytes;
        } else {
            assert_same(w.offset, 0);
            file[0..PAGE_SIZE].copy_from_slice(&w.bytes);
        }
    }
    assert_same(file.len(), PAGE_SIZE);
    let w = fs.insert_record(file.len() as u64, Some(&file[0..PAGE_SIZE]), &record).unwrap();
    assert_same(w.offset, PAGE_SIZE as u64);
    assert_same(Page::from_bytes(&w.bytes).get_id(), 2);
    file.extend_from_slice(&w.bytes);
    assert_same(scan_records(&file, &schema).unwrap().len(), fits + 1);
}

#[test]
fn oversized_record_is_rejected() {
    let fs = DBFileSystem::new("/db".to_string());
    let record = Record { values: vec![Value::Str("x".repeat(PAGE_SIZE))] };
    assert!(matches!(fs.insert_record(0, None, &record), Err(QueryError::ValidationError(_))));
}

#[test]
fn update_rewrites_selected_records() {
    let fs = DBFileSystem::new("/db".to_string());
    let schema = table(vec![("id", Type::Int), ("name", Type::Str)]);
    let mut file: Vec<u8> = Vec::new();
    for i in 0..3 {
        let record = Record { values: vec![Value::Int(i), Value::Str("long".to_string())] };
        let last = DBFileSystem::last_page_offset(file.len() as u64)
            .map(|o| &file[o as usize..o as usize + PAGE_SIZE]);
        let w = fs.insert_record(file.len() as u64, last, &record).unwrap();
        if file.is_empty() {
            file = w.bytes;
        } else {
            file[0..PAGE_SIZE].copy_from_slice(&w.bytes);
        }
    }
    let set = vec![ColumnValue { column: "name".to_string(), value: Value::Str("x".to_string()) }];
    let cond = Some(Box::new(Expression::Comp(
        Box::new(Expression::Identifier("id".to_string())),
        Comparator::Eq,
        Box::new(Expression::Value(Value::Int(1))),
    )));
    let writes = fs.update_records(&schema, &file, &set, &cond, &float_unit).unwrap();
    assert_same(writes.len(), 1);
    file[0..PAGE_SIZE].copy_from_slice(&writes[0].bytes);
    let names: Vec<Value> =
        scan_records(&file, &schema).unwrap().into_iter().map(|mut r| r.values.remove(1)).collect();
    assert_same(
        names,
        vec![
            Value::Str("long".to_string()),
            Value::Str("x".to_string()),
            Value::Str("long".to_string())
        ]
    );
    let grow = vec![ColumnValue { column: "name".to_string(), value: Value::Str("longer".to_string()) }];
    assert!(matches!(
        fs.update_records(&schema, &file, &grow, &None, &float_unit),
        Err(QueryError::ValidationError(_))
    ));
    let unknown = vec![ColumnValue { column: "age".to_string(), value: Value::Int(1) }];
    assert!(matches!(
        fs.update_records(&schema, &file, &unknown, &None, &float_unit),
        Err(QueryError::NotFound(name)) if name == "age"
    ));
}

#[test]
fn corrupt_file_is_an_error() {
    let schema = table(vec![("id", Type::Int)]);
    assert!(scan_records(&[0u8; 100], &schema).is_err());
    let mut bad = Page::new(1).to_bytes();
    bad[4..12].copy_from_slice(&9000u64.to_be_bytes());
    assert!(scan_records(&bad, &schema).is_err());
    assert_same(scan_records(&[], &schema).unwrap().len(), 0);
}

#[test]
fn paths_follow_the_layout() {
    let fs = DBFileSystem::new("/home/u/.csbase".to_string());
    assert_eq!(fs.get_table_data_path("t"), "/home/u/.csbase/t_data.csbase");
    assert_eq!(fs.get_definitions_path(), "/home/u/.csbase/tables.def");
    assert_eq!(fs.get_path("x"), "/home/u/.csbase/x");
    assert_same(DBFileSystem::last_page_offset(0), None);
    assert_same(DBFileSystem::last_page_offset(3 * PAGE_SIZE as u64), Some(2 * PAGE_SIZE as u64));
}

#[test]
fn catalog_rejects_duplicate_names() {
    let t1 = table(vec![("id", Type::Int)]);
    let t2 = table(vec![("x", Type::Str)]);
    assert!(DatabaseDefinition::from_tables(vec![t1, t2]).is_none());
    let t3 = Table { name: "u".to_string(), columns: vec![] };
    let ok = DatabaseDefinition::from_tables(vec![table(vec![]), t3]).unwrap();
    assert_same(ok.find("u"), Some(1));
    assert_same(ok.find("v"), None);
}

#[test]
fn bootstrap_adopts_loaded_catalog() {
    let mut db = csbase::db::Database::new("/db".to_string());
    let loaded = DatabaseDefinition::from_tables(vec![table(vec![("id", Type::Int)])]).unwrap();
    assert_same(db.bootstrap(Ok(()), Some(loaded)), Ok(()));
    assert!(db.get_table("t").is_ok());
    let failed = db.bootstrap(Err(SystemError::IOError("denied".to_string())), None);
    assert_same(failed, Err(SystemError::IOError("denied".to_string())));
    assert!(db.get_table("t").is_ok());
}

#[test]
fn column_lookup_by_name() {
    let schema = table(vec![("id", Type::Int), ("name", Type::Str)]);
    assert_same(schema.get_column("name").map(|c| c.column_type), Some(Type::Str));
    assert!(schema.get_column("age").is_none());
}

#[test]
fn copy_into_a_buffer() {
    let mut buf = vec![0u8; 6];
    copy_bytes_into(&mut buf, &[1, 2, 3], 2);
    assert_same(buf, vec![0, 0, 1, 2, 3, 0]);
}

#[test]
fn value_equality_follows_the_data_model() {
    let u = &float_unit;
    assert!(Value::Int(1).equals(&float(1.0), u));
    assert!(float(1.0).equals(&Value::Int(1), u));
    assert!(Value::Int(16_777_217).equals(&float(16_777_217i32 as f32), u));
    assert!(!Value::Null.equals(&Value::Null, u));
    assert!(!Value::Null.equals(&Value::Int(0), u));
    assert!(!Value::Int(1).equals(&Value::Str("1".to_string()), u));
    assert!(!Value::Bool(true).equals(&Value::Int(1), u));
    assert!(Value::Str("a".to_string()).equals(&Value::Str("a".to_string()), u));
    assert!(!float(f32::NAN).equals(&float(f32::NAN), u));
    assert!(float(0.0).equals(&float(-0.0), u));
}

#[test]
fn invalid_operands_name_their_types() {
    assert_same(
        Value::Bool(true).add(Value::Int(1), &float_unit),
        Err(QueryError::ValidationError("Invalid types for operator: Bool and Int".to_string())),
    );
    assert_same(
        Value::Str("a".to_string()).mul(Value::Null, &float_unit),
        Err(QueryError::ValidationError("Invalid types for operator: Str and Null".to_string())),
    );
}

#[test]
fn first_failing_expression_decides_the_error() {
    let q = InsertQuery {
        table: "t".to_string(),
        columns: vec!["a".to_string(), "b".to_string()],
        values: vec![
            Box::new(Expression::Op(
                Box::new(Expression::Value(Value::Int(1))),
                Operator::Divide,
                Box::new(Expression::Value(Value::Int(0))),
            )),
            Box::new(Expression::Identifier("x".to_string())),
        ],
    };
    assert_same(
        q.evaluate_expressions(&float_unit),
        Err(QueryError::ValidationError("Division by 0".to_string())),
    );
}
