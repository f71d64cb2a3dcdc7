//! Schemas, records, expressions and their evaluation, and parsed queries.
use vstd::prelude::*;
use vstd::utf8::encode_utf8;

use crate::errors::{validation_error, QueryError};
use crate::value::{
    arith_outcome, compare_bytes, compare_outcome, concat_strings, division_by_zero_msg,
    float_unit_ok, is_number, is_zero_number, lemma_numeric_arith_total, lex_order,
    not_boolean_msg, outcome_matches, Comparator, FloatOp, LogicOperator, Operator, Type, Value,
    ValueView,
};

verus! {

broadcast use {vstd::utf8::encode_utf8_decode_utf8};

/// A column of a table: its name and type.
#[derive(Debug)]
pub struct Column {
    pub name: String,
    pub column_type: Type,
}

/// A table schema: its name and its columns in order.
#[derive(Debug)]
pub struct Table {
    pub name: String,
    pub columns: Vec<Column>,
}

/// A row: one value per column of its table.
#[derive(Debug)]
pub struct Record {
    pub values: Vec<Value>,
}

impl Clone for Column {
    fn clone(&self) -> (r: Column)
        ensures
            r == *self,
    {
        Column { name: self.name.clone(), column_type: self.column_type }
    }
}

impl Clone for Table {
    fn clone(&self) -> (r: Table)
        ensures
            r.name == self.name,
            r.columns@ == self.columns@,
    {
        let mut columns: Vec<Column> = Vec::new();
        let mut i: usize = 0;
        while i < self.columns.len()
            invariant
                i <= self.columns@.len(),
                columns@ == self.columns@.subrange(0, i as int),
            decreases self.columns@.len() - i,
        {
            columns.push(self.columns[i].clone());
            i += 1;
            assert(columns@ =~= self.columns@.subrange(0, i as int));
        }
        assert(columns@ =~= self.columns@);
        Table { name: self.name.clone(), columns }
    }
}

/// The views of a sequence of values.
pub open spec fn values_view(s: Seq<Value>) -> Seq<ValueView> {
    s.map_values(|v: Value| v@)
}

impl Record {
    pub open spec fn view_values(self) -> Seq<ValueView> {
        values_view(self.values@)
    }
}

/// The values of each record.
pub open spec fn rows_view(rs: Seq<Record>) -> Seq<Seq<ValueView>> {
    rs.map_values(|r: Record| r.view_values())
}

impl Clone for Record {
    fn clone(&self) -> (r: Record)
        ensures
            r.view_values() == self.view_values(),
            r.values@.len() == self.values@.len(),
    {
        let mut values: Vec<Value> = Vec::new();
        let mut i: usize = 0;
        while i < self.values.len()
            invariant
                i <= self.values@.len(),
                values@ == self.values@.subrange(0, i as int),
            decreases self.values@.len() - i,
        {
            values.push(self.values[i].clone());
            i += 1;
            assert(values@ =~= self.values@.subrange(0, i as int));
        }
        assert(values@ =~= self.values@);
        Record { values }
    }
}

/// The first index at or after `i` of a column named `name`.
pub open spec fn find_column_from(cols: Seq<Column>, name: Seq<char>, i: int) -> Option<int>
    decreases cols.len() - i,
{
    if i < 0 || i >= cols.len() {
        None
    } else if cols[i].name@ == name {
        Some(i)
    } else {
        find_column_from(cols, name, i + 1)
    }
}

/// The index of the first column named `name`.
pub open spec fn find_column(cols: Seq<Column>, name: Seq<char>) -> Option<int> {
    find_column_from(cols, name, 0)
}

pub proof fn lemma_find_column_from(cols: Seq<Column>, name: Seq<char>, i: int)
    requires
        0 <= i,
    ensures
        find_column_from(cols, name, i) matches Some(k) ==> i <= k < cols.len() && cols[k].name@
            == name && forall|j: int| i <= j < k ==> cols[j].name@ != name,
        find_column_from(cols, name, i) is None ==> forall|j: int|
            i <= j < cols.len() ==> cols[j].name@ != name,
    decreases cols.len() - i,
{
    if i < cols.len() && cols[i].name@ != name {
        lemma_find_column_from(cols, name, i + 1);
    }
}

proof fn lemma_lex_order_zero(s: Seq<u8>, t: Seq<u8>)
    ensures
        (lex_order(s, t) == 0) == (s == t),
    decreases s.len(),
{
    if s.len() > 0 && t.len() > 0 && s[0] == t[0] {
        lemma_lex_order_zero(s.drop_first(), t.drop_first());
        if s.drop_first() == t.drop_first() {
            assert(s =~= seq![s[0]] + s.drop_first());
            assert(t =~= seq![t[0]] + t.drop_first());
        }
    }
    if s.len() == 0 && t.len() == 0 {
        assert(s =~= t);
    }
    if s.len() != t.len() {
        assert(s != t);
    }
    if s.len() > 0 && t.len() > 0 && s[0] != t[0] {
        assert(s != t);
    }
}

/// Whether two strings hold the same characters.
pub fn same_text(a: &str, b: &str) -> (r: bool)
    ensures
        r == (a@ == b@),
{
    let o = compare_bytes(a.as_bytes(), b.as_bytes());
    proof {
        lemma_lex_order_zero(encode_utf8(a@), encode_utf8(b@));
        if encode_utf8(a@) == encode_utf8(b@) {
            assert(vstd::utf8::decode_utf8(encode_utf8(a@)) == a@);
        }
    }
    o == 0
}

impl Table {
    /// The first column named `column_name`.
    pub fn get_column(&self, column_name: &str) -> (r: Option<&Column>)
        ensures
            match find_column(self.columns@, column_name@) {
                Some(k) => r matches Some(c) && *c == self.columns@[k],
                None => r is None,
            },
    {
        proof {
            lemma_find_column_from(self.columns@, column_name@, 0);
        }
        let pos = self.column_position(column_name);
        match pos {
            Some(k) => {
                let c = &self.columns[k];
                assert(find_column(self.columns@, column_name@) == Some(k as int));
                assert(*c == self.columns@[k as int]);
                Some(c)
            },
            None => None,
        }
    }

    /// The position of the first column named `column_name`.
    pub fn column_position(&self, column_name: &str) -> (r: Option<usize>)
        ensures
            r matches Some(k) ==> find_column(self.columns@, column_name@) == Some(k as int),
            r is None ==> find_column(self.columns@, column_name@) is None,
    {
        let mut i: usize = 0;
        while i < self.columns.len()
            invariant
                i <= self.columns@.len(),
                find_column(self.columns@, column_name@) == find_column_from(
                    self.columns@,
                    column_name@,
                    i as int,
                ),
            decreases self.columns@.len() - i,
        {
            if same_text(self.columns[i].name.as_str(), column_name) {
                return Some(i);
            }
            i += 1;
        }
        None
    }
}

/// An expression over values and column identifiers.
#[derive(Debug)]
pub enum Expression {
    Value(Value),
    Identifier(String),
    Op(Box<Expression>, Operator, Box<Expression>),
    Comp(Box<Expression>, Comparator, Box<Expression>),
    LogicOp(Box<Expression>, LogicOperator, Box<Expression>),
}

/// The value bound to `name`: the first entry at or after `i` with that name.
pub open spec fn lookup_from(b: Seq<(Seq<char>, ValueView)>, name: Seq<char>, i: int) -> Option<ValueView>
    decreases b.len() - i,
{
    if i < 0 || i >= b.len() {
        None
    } else if b[i].0 == name {
        Some(b[i].1)
    } else {
        lookup_from(b, name, i + 1)
    }
}

/// The names and values of a binding.
pub open spec fn pairs_view(s: Seq<(String, Value)>) -> Seq<(Seq<char>, ValueView)> {
    s.map_values(|p: (String, Value)| (p.0@, p.1@))
}

pub open spec fn no_binding_msg() -> Seq<char> {
    "Identifier values not provided but they were used in this expression"@
}

pub open spec fn unknown_identifier_msg() -> Seq<char> {
    "Identifier not present in provided values: "@
}

pub open spec fn binding_view(b: Option<&Vec<(String, Value)>>) -> Option<Seq<(Seq<char>, ValueView)>> {
    match b {
        Some(v) => Some(pairs_view(v@)),
        None => None,
    }
}

/// What an expression evaluates to under an optional binding of identifiers:
/// operands left to right, the first error wins.
pub open spec fn eval<F: Fn(FloatOp) -> u32>(
    e: Expression,
    binding: Option<Seq<(Seq<char>, ValueView)>>,
    unit: F,
) -> Result<ValueView, Seq<char>>
    decreases e,
{
    match e {
        Expression::Value(v) => Ok(v@),
        Expression::Identifier(name) => match binding {
            None => Err(no_binding_msg()),
            Some(b) => match lookup_from(b, name@, 0) {
                Some(v) => Ok(v),
                None => Err(unknown_identifier_msg() + name@),
            },
        },
        Expression::Op(l, op, r) => match eval(*l, binding, unit) {
            Err(m) => Err(m),
            Ok(a) => match eval(*r, binding, unit) {
                Err(m) => Err(m),
                Ok(b) => arith_outcome(op, a, b, unit),
            },
        },
        Expression::Comp(l, cmp, r) => match eval(*l, binding, unit) {
            Err(m) => Err(m),
            Ok(a) => match eval(*r, binding, unit) {
                Err(m) => Err(m),
                Ok(b) => match compare_outcome(cmp, a, b, unit) {
                    Ok(x) => Ok(ValueView::Bool(x)),
                    Err(m) => Err(m),
                },
            },
        },
        Expression::LogicOp(l, lop, r) => match eval(*l, binding, unit) {
            Err(m) => Err(m),
            Ok(ValueView::Bool(x)) => match eval(*r, binding, unit) {
                Err(m) => Err(m),
                Ok(ValueView::Bool(y)) => Ok(
                    ValueView::Bool(
                        match lop {
                            LogicOperator::And => x && y,
                            LogicOperator::Or => x || y,
                        },
                    ),
                ),
                Ok(_) => Err(not_boolean_msg()),
            },
            Ok(_) => Err(not_boolean_msg()),
        },
    }
}

/// The value bound to `name` in `binding`.
pub fn lookup_identifier(binding: &Vec<(String, Value)>, name: &String) -> (r: Option<Value>)
    ensures
        match lookup_from(pairs_view(binding@), name@, 0) {
            Some(v) => r matches Some(x) && x@ == v,
            None => r is None,
        },
{
    let mut i: usize = 0;
    while i < binding.len()
        invariant
            i <= binding@.len(),
            lookup_from(pairs_view(binding@), name@, 0) == lookup_from(pairs_view(binding@), name@, i as int),
        decreases binding@.len() - i,
    {
        if binding[i].0 == *name {
            return Some(binding[i].1.clone());
        }
        i += 1;
    }
    None
}

impl Expression {
    /// Evaluates this expression; identifiers are looked up in `identifier_values`.
    #[verifier::rlimit(40)]
    pub fn evaluate<F: Fn(FloatOp) -> u32>(
        &self,
        identifier_values: Option<&Vec<(String, Value)>>,
        unit: &F,
    ) -> (r: Result<Value, QueryError>)
        requires
            float_unit_ok(*unit),
        ensures
            outcome_matches(r, eval(*self, binding_view(identifier_values), *unit), |v: Value| v@),
        decreases self,
    {
        match self {
            Expression::Value(value) => Ok(value.clone()),
            Expression::Identifier(name) => match identifier_values {
                Some(values) => match lookup_identifier(values, name) {
                    Some(value) => Ok(value),
                    None => {
                        let msg = concat_strings(
                            "Identifier not present in provided values: ".to_owned(),
                            name.as_str(),
                        );
                        Err(QueryError::ValidationError(msg))
                    },
                },
                None => Err(
                    validation_error(
                        "Identifier values not provided but they were used in this expression",
                    ),
                ),
            },
            Expression::Op(lhs, operator, rhs) => {
                let value1 = lhs.evaluate(identifier_values, unit)?;
                let value2 = rhs.evaluate(identifier_values, unit)?;
                value1.arith(*operator, value2, unit)
            },
            Expression::Comp(lhs, comparator, rhs) => {
                let value1 = lhs.evaluate(identifier_values, unit)?;
                let value2 = rhs.evaluate(identifier_values, unit)?;
                let b = value1.compare(*comparator, &value2, unit)?;
                Ok(Value::Bool(b))
            },
            Expression::LogicOp(lhs, logic_operator, rhs) => {
                let value1 = lhs.evaluate(identifier_values, unit)?.get_bool()?;
                let value2 = rhs.evaluate(identifier_values, unit)?.get_bool()?;
                Ok(
                    Value::Bool(
                        match logic_operator {
                            LogicOperator::And => value1 && value2,
                            LogicOperator::Or => value1 || value2,
                        },
                    ),
                )
            },
        }
    }
}

/// A value assigned to a column by an update.
#[derive(Debug)]
pub struct ColumnValue {
    pub column: String,
    pub value: Value,
}

#[derive(Debug)]
pub struct SelectQuery {
    pub table: String,
    pub columns: Vec<String>,
    pub condition: Option<Box<Expression>>,
}

#[derive(Debug)]
pub struct InsertQuery {
    pub table: String,
    pub columns: Vec<String>,
    pub values: Vec<Box<Expression>>,
}

/// Every expression of `exprs` evaluates, without a binding, to a value.
pub open spec fn all_evaluate<F: Fn(FloatOp) -> u32>(exprs: Seq<Box<Expression>>, unit: F) -> bool {
    forall|i: int| 0 <= i < exprs.len() ==> #[trigger] eval(*exprs[i], None, unit) is Ok
}

/// Expression `i` of `exprs` is the first that fails to evaluate, and fails with `m`.
pub open spec fn first_failure_at<F: Fn(FloatOp) -> u32>(exprs: Seq<Box<Expression>>, unit: F, m: Seq<char>, i: int) -> bool {
    &&& 0 <= i < exprs.len()
    &&& eval(*exprs[i], None, unit) == Err::<ValueView, Seq<char>>(m)
    &&& forall|j: int| 0 <= j < i ==> #[trigger] eval(*exprs[j], None, unit) is Ok
}

/// The first expression of `exprs` that fails to evaluate fails with `m`.
pub open spec fn first_failure<F: Fn(FloatOp) -> u32>(exprs: Seq<Box<Expression>>, unit: F, m: Seq<char>) -> bool {
    exists|i: int| #[trigger] first_failure_at(exprs, unit, m, i)
}

impl InsertQuery {
    /// Evaluates the inserted expressions, without a binding, in order; the
    /// first error wins.
    #[verifier::rlimit(40)]
    pub fn evaluate_expressions<F: Fn(FloatOp) -> u32>(&self, unit: &F) -> (r: Result<Vec<Value>, QueryError>)
        requires
            float_unit_ok(*unit),
        ensures
            r is Ok <==> all_evaluate(self.values@, *unit),
            r matches Ok(vs) ==> vs@.len() == self.values@.len() && forall|i: int|
                0 <= i < vs@.len() ==> eval(*self.values@[i], None, *unit) == Ok::<ValueView, Seq<char>>(#[trigger] vs@[i]@),
            r matches Err(e) ==> e is ValidationError && first_failure(self.values@, *unit, e.text()),
    {
        let mut evaluated_expressions: Vec<Value> = Vec::new();
        let mut i: usize = 0;
        while i < self.values.len()
            invariant
                i <= self.values@.len(),
                float_unit_ok(*unit),
                evaluated_expressions@.len() == i,
                forall|j: int|
                    0 <= j < i ==> eval(*self.values@[j], None, *unit) == Ok::<ValueView, Seq<char>>(
                        #[trigger] evaluated_expressions@[j]@,
                    ),
            decreases self.values@.len() - i,
        {
            let v = self.values[i].evaluate(None, unit);
            match v {
                Ok(v) => evaluated_expressions.push(v),
                Err(e) => {
                    assert(!all_evaluate(self.values@, *unit));
                    assert forall|j: int| 0 <= j < i implies #[trigger] eval(*self.values@[j], None, *unit) is Ok by {
                        assert(eval(*self.values@[j], None, *unit) == Ok::<ValueView, Seq<char>>(
                            evaluated_expressions@[j]@,
                        ));
                    }
                    assert(first_failure_at(self.values@, *unit, e.text(), i as int));
                    return Err(e);
                },
            }
            i += 1;
        }
        assert(all_evaluate(self.values@, *unit)) by {
            assert forall|j: int| 0 <= j < self.values@.len() implies #[trigger] eval(
                *self.values@[j],
                None,
                *unit,
            ) is Ok by {
                assert(eval(*self.values@[j], None, *unit) == Ok::<ValueView, Seq<char>>(
                    evaluated_expressions@[j]@,
                ));
            }
        }
        Ok(evaluated_expressions)
    }
}

#[derive(Debug)]
pub struct UpdateQuery {
    pub table: String,
    pub column_values: Vec<ColumnValue>,
}

#[derive(Debug)]
pub struct DeleteQuery {
    pub table: String,
}

#[derive(Debug)]
pub struct CreateTableQuery {
    pub table: String,
    pub columns: Vec<Column>,
}

#[derive(Debug)]
pub struct DropTableQuery {
    pub table: String,
}

/// A parsed statement.
#[derive(Debug)]
pub enum Query {
    Select(SelectQuery),
    Insert(InsertQuery),
    CreateTable(CreateTableQuery),
    DropTable(DropTableQuery),
}

/// Evaluating arithmetic on operands that evaluate to numbers never fails,
/// except a division by zero, which fails with the division error.
pub proof fn lemma_arith_expression_total<F: Fn(FloatOp) -> u32>(
    l: Expression,
    op: Operator,
    r: Expression,
    binding: Option<Seq<(Seq<char>, ValueView)>>,
    unit: F,
)
    requires
        eval(l, binding, unit) matches Ok(a) && is_number(a),
        eval(r, binding, unit) matches Ok(b) && is_number(b),
    ensures
        ({
            let e = Expression::Op(Box::new(l), op, Box::new(r));
            let b = eval(r, binding, unit)->Ok_0;
            &&& op == Operator::Divide && is_zero_number(b) ==> eval(e, binding, unit) == Err::<ValueView, Seq<char>>(
                division_by_zero_msg(),
            )
            &&& !(op == Operator::Divide && is_zero_number(b)) ==> eval(e, binding, unit) is Ok
        }),
{
    lemma_numeric_arith_total(op, eval(l, binding, unit)->Ok_0, eval(r, binding, unit)->Ok_0, unit);
}

/// An arithmetic expression over number literals.
pub open spec fn numeric_expression(e: Expression) -> bool
    decreases e,
{
    match e {
        Expression::Value(v) => is_number(v@),
        Expression::Op(l, _, r) => numeric_expression(*l) && numeric_expression(*r),
        _ => false,
    }
}

/// No division in `e` has a divisor that evaluates to zero.
pub open spec fn no_zero_divisor<F: Fn(FloatOp) -> u32>(
    e: Expression,
    binding: Option<Seq<(Seq<char>, ValueView)>>,
    unit: F,
) -> bool
    decreases e,
{
    match e {
        Expression::Op(l, op, r) => no_zero_divisor(*l, binding, unit) && no_zero_divisor(*r, binding, unit)
            && !(op == Operator::Divide && (eval(*r, binding, unit) matches Ok(b) && is_zero_number(b))),
        _ => true,
    }
}

/// Arithmetic on numbers is total over whole expressions: an arithmetic tree of
/// number literals evaluates to a number under any binding unless some divisor
/// evaluates to zero.
pub proof fn lemma_numeric_expression_total<F: Fn(FloatOp) -> u32>(
    e: Expression,
    binding: Option<Seq<(Seq<char>, ValueView)>>,
    unit: F,
)
    requires
        numeric_expression(e),
        no_zero_divisor(e, binding, unit),
    ensures
        eval(e, binding, unit) matches Ok(v) && is_number(v),
    decreases e,
{
    match e {
        Expression::Op(l, op, r) => {
            lemma_numeric_expression_total(*l, binding, unit);
            lemma_numeric_expression_total(*r, binding, unit);
            lemma_numeric_arith_total(op, eval(*l, binding, unit)->Ok_0, eval(*r, binding, unit)->Ok_0, unit);
        },
        _ => {},
    }
}

} // verus!
