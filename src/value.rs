//! Scalar values and types: byte codecs, arithmetic and comparison.
use vstd::prelude::*;
use vstd::string::StringExecFns;
use vstd::utf8::{decode_utf8, encode_utf8, valid_utf8};

use crate::errors::{validation_error, QueryError};
use crate::utils::{be_u32, push_u32, read_u32, u32_at, lemma_u32_round_trip};

verus! {

broadcast use {vstd::utf8::encode_utf8_valid_utf8, vstd::utf8::encode_utf8_decode_utf8};

/// A column type. Types are schema metadata, never stored per value on disk.
#[derive(Debug, Clone, Copy, PartialEq, Eq, Structural)]
pub enum Type {
    Str,
    Bool,
    Int,
    Float,
}

/// A scalar value. A float is held as its IEEE-754 single-precision bit pattern:
/// the library moves, stores and compares floats, and leaves float arithmetic to
/// the caller's float unit (see `FloatOp`).
#[derive(Debug)]
pub enum Value {
    Str(String),
    Bool(bool),
    Int(i32),
    Float(u32),
    Null,
}

/// What a value holds, with a string seen as its characters.
pub enum ValueView {
    Str(Seq<char>),
    Bool(bool),
    Int(i32),
    Float(u32),
    Null,
}

impl View for Value {
    type V = ValueView;

    open spec fn view(&self) -> ValueView {
        match self {
            Value::Str(s) => ValueView::Str(s@),
            Value::Bool(b) => ValueView::Bool(*b),
            Value::Int(i) => ValueView::Int(*i),
            Value::Float(f) => ValueView::Float(*f),
            Value::Null => ValueView::Null,
        }
    }
}

impl Clone for Value {
    fn clone(&self) -> (r: Value)
        ensures
            r == *self,
    {
        match self {
            Value::Str(s) => Value::Str(s.clone()),
            Value::Bool(b) => Value::Bool(*b),
            Value::Int(i) => Value::Int(*i),
            Value::Float(f) => Value::Float(*f),
            Value::Null => Value::Null,
        }
    }
}

/// Arithmetic operators.
#[derive(Debug, Clone, Copy, PartialEq, Eq, Structural)]
pub enum Operator {
    Add,
    Subtract,
    Multiply,
    Divide,
}

/// Comparison operators.
#[derive(Debug, Clone, Copy, PartialEq, Eq, Structural)]
pub enum Comparator {
    Eq,
    Neq,
    Gt,
    Gte,
    Lt,
    Lte,
}

/// Logic operators.
#[derive(Debug, Clone, Copy, PartialEq, Eq, Structural)]
pub enum LogicOperator {
    And,
    Or,
}

/// A request to the float unit: promote an integer to a float, or apply an
/// operator to two floats. Floats are given and returned as bit patterns.
#[derive(Debug, Clone, Copy, PartialEq, Eq, Structural)]
pub enum FloatOp {
    FromInt(i32),
    Apply(Operator, u32, u32),
}

pub open spec fn is_nan(b: u32) -> bool {
    (b >> 23u32) & 0xffu32 == 0xffu32 && b & 0x7f_ffffu32 != 0
}

/// Positive or negative zero.
pub open spec fn is_zero_float(b: u32) -> bool {
    b & 0x7fff_ffffu32 == 0
}

/// For floats that are not NaN, the order of keys is the order of the values
/// (both zeros have key 0).
pub open spec fn float_key(b: u32) -> int {
    if b >> 31u32 == 1 {
        -((b & 0x7fff_ffffu32) as int)
    } else {
        (b & 0x7fff_ffffu32) as int
    }
}

/// A float unit answers every request, always the same way, and never promotes
/// an integer to NaN.
pub open spec fn float_unit_ok<F: Fn(FloatOp) -> u32>(unit: F) -> bool {
    &&& forall|op: FloatOp|
        #[trigger] unit.requires((op,)) && exists|r: u32| #[trigger] unit.ensures((op,), r)
    &&& forall|op: FloatOp, r1: u32, r2: u32|
        #[trigger] unit.ensures((op,), r1) && #[trigger] unit.ensures((op,), r2) ==> r1 == r2
    &&& forall|i: i32, r: u32| #[trigger] unit.ensures((FloatOp::FromInt(i),), r) ==> !is_nan(r)
}

/// The float unit's answer to `op`.
pub open spec fn float_of<F: Fn(FloatOp) -> u32>(unit: F, op: FloatOp) -> u32 {
    choose|r: u32| unit.ensures((op,), r)
}

/// Asks the float unit.
pub fn ask_float_unit<F: Fn(FloatOp) -> u32>(unit: &F, op: FloatOp) -> (r: u32)
    requires
        float_unit_ok(*unit),
    ensures
        r == float_of(*unit, op),
{
    let r = unit(op);
    assert(unit.ensures((op,), r));
    r
}

pub open spec fn type_of(v: ValueView) -> Option<Type> {
    match v {
        ValueView::Str(_) => Some(Type::Str),
        ValueView::Bool(_) => Some(Type::Bool),
        ValueView::Int(_) => Some(Type::Int),
        ValueView::Float(_) => Some(Type::Float),
        ValueView::Null => None,
    }
}

/// The big-endian bytes of a value: raw UTF-8 for a string, one byte for a
/// boolean, four bytes for an integer or a float, none for null.
pub open spec fn value_bytes(v: ValueView) -> Seq<u8> {
    match v {
        ValueView::Str(s) => encode_utf8(s),
        ValueView::Bool(b) => seq![if b { 1u8 } else { 0u8 }],
        ValueView::Int(i) => be_u32(i as u32),
        ValueView::Float(f) => be_u32(f),
        ValueView::Null => Seq::empty(),
    }
}

/// The value of type `t` that `bytes` encode; `None` for a string that is not UTF-8.
pub open spec fn value_from_bytes(bytes: Seq<u8>, t: Type) -> Option<ValueView> {
    match t {
        Type::Str => if valid_utf8(bytes) {
            Some(ValueView::Str(decode_utf8(bytes)))
        } else {
            None
        },
        Type::Bool => Some(ValueView::Bool(bytes[0] == 1u8)),
        Type::Int => Some(ValueView::Int(u32_at(bytes, 0) as i32)),
        Type::Float => Some(ValueView::Float(u32_at(bytes, 0))),
    }
}

/// The number of bytes that a value of type `t` takes; strings vary.
pub open spec fn fixed_width(t: Type) -> nat {
    match t {
        Type::Str => 0,
        Type::Bool => 1,
        Type::Int => 4,
        Type::Float => 4,
    }
}

pub open spec fn division_by_zero_msg() -> Seq<char> {
    "Division by 0"@
}

/// The name of a value's variant.
pub open spec fn variant_name(v: ValueView) -> Seq<char> {
    match v {
        ValueView::Str(_) => "Str"@,
        ValueView::Bool(_) => "Bool"@,
        ValueView::Int(_) => "Int"@,
        ValueView::Float(_) => "Float"@,
        ValueView::Null => "Null"@,
    }
}

/// The error of an operator on operands it does not take, naming both operand types.
pub open spec fn invalid_operands_msg(a: ValueView, b: ValueView) -> Seq<char> {
    "Invalid types for operator: "@ + variant_name(a) + " and "@ + variant_name(b)
}

pub open spec fn invalid_comparison_msg() -> Seq<char> {
    "Invalid types for comparison"@
}

pub open spec fn not_boolean_msg() -> Seq<char> {
    "Value is not boolean"@
}

pub open spec fn float_apply<F: Fn(FloatOp) -> u32>(unit: F, op: Operator, x: u32, y: u32) -> ValueView {
    ValueView::Float(float_of(unit, FloatOp::Apply(op, x, y)))
}

/// Arithmetic: integers stay integers (wrapping) except under division, any
/// float operand or a division promotes to float, strings concatenate under `+`,
/// and a zero divisor or any other pair of operands is an error.
pub open spec fn arith_outcome<F: Fn(FloatOp) -> u32>(
    op: Operator,
    a: ValueView,
    b: ValueView,
    unit: F,
) -> Result<ValueView, Seq<char>> {
    match (a, b) {
        (ValueView::Int(x), ValueView::Int(y)) => match op {
            Operator::Add => Ok(ValueView::Int(x.wrapping_add(y))),
            Operator::Subtract => Ok(ValueView::Int(x.wrapping_sub(y))),
            Operator::Multiply => Ok(ValueView::Int(x.wrapping_mul(y))),
            Operator::Divide => if y == 0 {
                Err(division_by_zero_msg())
            } else {
                Ok(
                    float_apply(
                        unit,
                        op,
                        float_of(unit, FloatOp::FromInt(x)),
                        float_of(unit, FloatOp::FromInt(y)),
                    ),
                )
            },
        },
        (ValueView::Int(x), ValueView::Float(y)) => if op == Operator::Divide && is_zero_float(y) {
            Err(division_by_zero_msg())
        } else {
            Ok(float_apply(unit, op, float_of(unit, FloatOp::FromInt(x)), y))
        },
        (ValueView::Float(x), ValueView::Int(y)) => if op == Operator::Divide && y == 0 {
            Err(division_by_zero_msg())
        } else {
            Ok(float_apply(unit, op, x, float_of(unit, FloatOp::FromInt(y))))
        },
        (ValueView::Float(x), ValueView::Float(y)) => if op == Operator::Divide && is_zero_float(
            y,
        ) {
            Err(division_by_zero_msg())
        } else {
            Ok(float_apply(unit, op, x, y))
        },
        (ValueView::Str(s), ValueView::Str(t)) => if op == Operator::Add {
            Ok(ValueView::Str(s + t))
        } else {
            Err(invalid_operands_msg(a, b))
        },
        _ => Err(invalid_operands_msg(a, b)),
    }
}

pub open spec fn int_compare(cmp: Comparator, x: int, y: int) -> bool {
    match cmp {
        Comparator::Eq => x == y,
        Comparator::Neq => x != y,
        Comparator::Gt => x > y,
        Comparator::Gte => x >= y,
        Comparator::Lt => x < y,
        Comparator::Lte => x <= y,
    }
}

/// IEEE comparison: NaN is unordered and unequal to everything.
pub open spec fn float_compare(cmp: Comparator, x: u32, y: u32) -> bool {
    if is_nan(x) || is_nan(y) {
        cmp == Comparator::Neq
    } else {
        int_compare(cmp, float_key(x), float_key(y))
    }
}

/// Lexicographic order of byte strings: -1, 0 or 1.
pub open spec fn lex_order(s: Seq<u8>, t: Seq<u8>) -> int
    decreases s.len(),
{
    if s.len() == 0 {
        if t.len() == 0 {
            0
        } else {
            -1
        }
    } else if t.len() == 0 {
        1
    } else if s[0] < t[0] {
        -1
    } else if s[0] > t[0] {
        1
    } else {
        lex_order(s.drop_first(), t.drop_first())
    }
}

/// Comparison: numerics by value (an integer promoted to float against a float),
/// strings by the lexicographic order of their UTF-8 bytes, booleans for `=` and
/// `<>` only; any other pair of operands is an error.
pub open spec fn compare_outcome<F: Fn(FloatOp) -> u32>(
    cmp: Comparator,
    a: ValueView,
    b: ValueView,
    unit: F,
) -> Result<bool, Seq<char>> {
    match (a, b) {
        (ValueView::Int(x), ValueView::Int(y)) => Ok(int_compare(cmp, x as int, y as int)),
        (ValueView::Int(x), ValueView::Float(y)) => Ok(
            float_compare(cmp, float_of(unit, FloatOp::FromInt(x)), y),
        ),
        (ValueView::Float(x), ValueView::Int(y)) => Ok(
            float_compare(cmp, x, float_of(unit, FloatOp::FromInt(y))),
        ),
        (ValueView::Float(x), ValueView::Float(y)) => Ok(float_compare(cmp, x, y)),
        (ValueView::Str(s), ValueView::Str(t)) => Ok(
            int_compare(cmp, lex_order(encode_utf8(s), encode_utf8(t)), 0),
        ),
        (ValueView::Bool(x), ValueView::Bool(y)) => match cmp {
            Comparator::Eq => Ok(x == y),
            Comparator::Neq => Ok(x != y),
            _ => Err(invalid_comparison_msg()),
        },
        _ => Err(invalid_comparison_msg()),
    }
}

/// Equality of values: numbers by value, an integer promoted to float against a
/// float; strings and booleans only within their own variant; null equals
/// nothing, itself included.
pub open spec fn values_equal<F: Fn(FloatOp) -> u32>(a: ValueView, b: ValueView, unit: F) -> bool {
    match (a, b) {
        (ValueView::Int(x), ValueView::Int(y)) => x == y,
        (ValueView::Int(x), ValueView::Float(y)) => float_compare(Comparator::Eq, float_of(unit, FloatOp::FromInt(x)), y),
        (ValueView::Float(x), ValueView::Int(y)) => float_compare(Comparator::Eq, x, float_of(unit, FloatOp::FromInt(y))),
        (ValueView::Float(x), ValueView::Float(y)) => float_compare(Comparator::Eq, x, y),
        (ValueView::Str(s), ValueView::Str(t)) => s == t,
        (ValueView::Bool(x), ValueView::Bool(y)) => x == y,
        _ => false,
    }
}

/// How an exec `Result` stands to a spec outcome: the same value, or a
/// validation error with the same message.
pub open spec fn outcome_matches<T, U>(r: Result<T, QueryError>, o: Result<U, Seq<char>>, f: spec_fn(T) -> U) -> bool {
    match r {
        Ok(v) => o == Ok::<U, Seq<char>>(f(v)),
        Err(e) => e is ValidationError && o == Err::<U, Seq<char>>(e.text()),
    }
}

/// Relies on String::from_utf8: it succeeds exactly on valid UTF-8, and the
/// string then holds the decoded characters.
#[verifier::external_body]
pub(crate) fn string_from_utf8(bytes: Vec<u8>) -> (r: Option<String>)
    ensures
        r is Some <==> valid_utf8(bytes@),
        r matches Some(s) ==> s@ == decode_utf8(bytes@),
{
    String::from_utf8(bytes).ok()
}

/// The characters of `s`, then those of `t`.
pub(crate) fn concat_strings(s: String, t: &str) -> (r: String)
    ensures
        r@ == s@ + t@,
{
    s.concat(t)
}

fn float_is_nan(b: u32) -> (r: bool)
    ensures
        r == is_nan(b),
{
    (b >> 23u32) & 0xffu32 == 0xffu32 && b & 0x7f_ffffu32 != 0
}

fn key_of_float(b: u32) -> (r: i64)
    ensures
        r == float_key(b),
{
    if b >> 31u32 == 1 {
        -((b & 0x7fff_ffffu32) as i64)
    } else {
        (b & 0x7fff_ffffu32) as i64
    }
}

fn compare_ints(cmp: Comparator, x: i64, y: i64) -> (r: bool)
    ensures
        r == int_compare(cmp, x as int, y as int),
{
    match cmp {
        Comparator::Eq => x == y,
        Comparator::Neq => x != y,
        Comparator::Gt => x > y,
        Comparator::Gte => x >= y,
        Comparator::Lt => x < y,
        Comparator::Lte => x <= y,
    }
}

fn compare_floats(cmp: Comparator, x: u32, y: u32) -> (r: bool)
    ensures
        r == float_compare(cmp, x, y),
{
    if float_is_nan(x) || float_is_nan(y) {
        cmp == Comparator::Neq
    } else {
        compare_ints(cmp, key_of_float(x), key_of_float(y))
    }
}

/// Lexicographic order of two byte strings.
pub fn compare_bytes(s: &[u8], t: &[u8]) -> (r: i8)
    ensures
        r as int == lex_order(s@, t@),
{
    let n = if s.len() < t.len() {
        s.len()
    } else {
        t.len()
    };
    let mut i: usize = 0;
    assert(s@.subrange(0, s@.len() as int) =~= s@);
    assert(t@.subrange(0, t@.len() as int) =~= t@);
    while i < n
        invariant
            n <= s@.len(),
            n <= t@.len(),
            n == s@.len() || n == t@.len(),
            i <= n,
            lex_order(s@, t@) == lex_order(s@.subrange(i as int, s@.len() as int), t@.subrange(i as int, t@.len() as int)),
        decreases n - i,
    {
        let ghost ss = s@.subrange(i as int, s@.len() as int);
        let ghost tt = t@.subrange(i as int, t@.len() as int);
        if s[i] < t[i] {
            return -1;
        } else if s[i] > t[i] {
            return 1;
        }
        assert(ss.drop_first() =~= s@.subrange(i + 1, s@.len() as int));
        assert(tt.drop_first() =~= t@.subrange(i + 1, t@.len() as int));
        i += 1;
    }
    if s.len() == t.len() {
        assert(s@.subrange(i as int, s@.len() as int).len() == 0);
        0
    } else if s.len() < t.len() {
        -1
    } else {
        1
    }
}

fn name_of_variant(v: &Value) -> (r: &'static str)
    ensures
        r@ == variant_name(v@),
{
    match v {
        Value::Str(_) => "Str",
        Value::Bool(_) => "Bool",
        Value::Int(_) => "Int",
        Value::Float(_) => "Float",
        Value::Null => "Null",
    }
}

/// The error of an operator on operands of types `a` and `b`.
fn invalid_operands(a: &str, b: &str) -> (r: QueryError)
    ensures
        r is ValidationError,
        r.text() == "Invalid types for operator: "@ + a@ + " and "@ + b@,
{
    let msg = concat_strings("Invalid types for operator: ".to_owned(), a);
    let msg = concat_strings(msg, " and ");
    QueryError::ValidationError(concat_strings(msg, b))
}

impl Value {
    /// Build a value of `value_type` from its big-endian bytes. A string that is
    /// not valid UTF-8 is an error.
    pub fn from_be_bytes(bytes: Vec<u8>, value_type: &Type) -> (r: Result<Value, QueryError>)
        requires
            bytes@.len() >= fixed_width(*value_type),
        ensures
            match value_from_bytes(bytes@, *value_type) {
                Some(v) => r matches Ok(x) && x@ == v,
                None => r matches Err(e) && e is ValidationError,
            },
    {
        match value_type {
            Type::Str => match string_from_utf8(bytes) {
                Some(s) => Ok(Value::Str(s)),
                None => Err(validation_error("Stored string is not valid UTF-8")),
            },
            Type::Bool => Ok(Value::Bool(bytes[0] == 1u8)),
            Type::Int => Ok(Value::Int(read_u32(bytes.as_slice(), 0) as i32)),
            Type::Float => Ok(Value::Float(read_u32(bytes.as_slice(), 0))),
        }
    }

    /// The type of this value; `None` for null.
    pub fn get_type(&self) -> (r: Option<Type>)
        ensures
            r == type_of(self@),
    {
        match self {
            Value::Str(_) => Some(Type::Str),
            Value::Bool(_) => Some(Type::Bool),
            Value::Int(_) => Some(Type::Int),
            Value::Float(_) => Some(Type::Float),
            Value::Null => None,
        }
    }

    /// Whether this value has the provided type (null has none).
    pub fn has_type(&self, value_type: &Type) -> (r: bool)
        ensures
            r == (type_of(self@) == Some(*value_type)),
    {
        match self.get_type() {
            Some(t) => t == *value_type,
            None => false,
        }
    }

    /// The big-endian bytes of this value.
    pub fn to_be_bytes(self) -> (r: Vec<u8>)
        ensures
            r@ == value_bytes(self@),
    {
        match self {
            Value::Str(s) => vstd::slice::slice_to_vec(s.as_str().as_bytes()),
            Value::Int(i) => {
                let mut v = Vec::new();
                push_u32(&mut v, i as u32);
                assert(v@ =~= be_u32(i as u32));
                v
            },
            Value::Float(f) => {
                let mut v = Vec::new();
                push_u32(&mut v, f);
                assert(v@ =~= be_u32(f));
                v
            },
            Value::Bool(b) => {
                let v = vec![if b { 1u8 } else { 0u8 }];
                assert(v@ =~= seq![if b { 1u8 } else { 0u8 }]);
                v
            },
            Value::Null => Vec::new(),
        }
    }

    /// The boolean this value holds, or an error for any other value.
    pub fn get_bool(&self) -> (r: Result<bool, QueryError>)
        ensures
            match self@ {
                ValueView::Bool(b) => r == Ok::<bool, QueryError>(b),
                _ => r matches Err(e) && e is ValidationError && e.text() == not_boolean_msg(),
            },
    {
        match self {
            Value::Bool(value) => Ok(*value),
            _ => Err(validation_error("Value is not boolean")),
        }
    }

    /// Applies an arithmetic operator.
    #[verifier::rlimit(40)]
    pub fn arith<F: Fn(FloatOp) -> u32>(self, op: Operator, other: Value, unit: &F) -> (r: Result<Value, QueryError>)
        requires
            float_unit_ok(*unit),
        ensures
            outcome_matches(r, arith_outcome(op, self@, other@, *unit), |v: Value| v@),
    {
        let div = op == Operator::Divide;
        let left_type = name_of_variant(&self);
        let right_type = name_of_variant(&other);
        match (self, other) {
            (Value::Int(x), Value::Int(y)) => match op {
                Operator::Add => Ok(Value::Int(x.wrapping_add(y))),
                Operator::Subtract => Ok(Value::Int(x.wrapping_sub(y))),
                Operator::Multiply => Ok(Value::Int(x.wrapping_mul(y))),
                Operator::Divide => if y == 0 {
                    Err(validation_error("Division by 0"))
                } else {
                    let fx = ask_float_unit(unit, FloatOp::FromInt(x));
                    let fy = ask_float_unit(unit, FloatOp::FromInt(y));
                    Ok(Value::Float(ask_float_unit(unit, FloatOp::Apply(op, fx, fy))))
                },
            },
            (Value::Int(x), Value::Float(y)) => if div && y & 0x7fff_ffffu32 == 0 {
                Err(validation_error("Division by 0"))
            } else {
                let fx = ask_float_unit(unit, FloatOp::FromInt(x));
                Ok(Value::Float(ask_float_unit(unit, FloatOp::Apply(op, fx, y))))
            },
            (Value::Float(x), Value::Int(y)) => if div && y == 0 {
                Err(validation_error("Division by 0"))
            } else {
                let fy = ask_float_unit(unit, FloatOp::FromInt(y));
                Ok(Value::Float(ask_float_unit(unit, FloatOp::Apply(op, x, fy))))
            },
            (Value::Float(x), Value::Float(y)) => if div && y & 0x7fff_ffffu32 == 0 {
                Err(validation_error("Division by 0"))
            } else {
                Ok(Value::Float(ask_float_unit(unit, FloatOp::Apply(op, x, y))))
            },
            (Value::Str(s), Value::Str(t)) => if op == Operator::Add {
                Ok(Value::Str(concat_strings(s, t.as_str())))
            } else {
                Err(invalid_operands(left_type, right_type))
            },
            _ => Err(invalid_operands(left_type, right_type)),
        }
    }

    /// `self + other`.
    pub fn add<F: Fn(FloatOp) -> u32>(self, other: Value, unit: &F) -> (r: Result<Value, QueryError>)
        requires
            float_unit_ok(*unit),
        ensures
            outcome_matches(r, arith_outcome(Operator::Add, self@, other@, *unit), |v: Value| v@),
    {
        self.arith(Operator::Add, other, unit)
    }

    /// `self - other`.
    pub fn sub<F: Fn(FloatOp) -> u32>(self, other: Value, unit: &F) -> (r: Result<Value, QueryError>)
        requires
            float_unit_ok(*unit),
        ensures
            outcome_matches(r, arith_outcome(Operator::Subtract, self@, other@, *unit), |v: Value| v@),
    {
        self.arith(Operator::Subtract, other, unit)
    }

    /// `self * other`.
    pub fn mul<F: Fn(FloatOp) -> u32>(self, other: Value, unit: &F) -> (r: Result<Value, QueryError>)
        requires
            float_unit_ok(*unit),
        ensures
            outcome_matches(r, arith_outcome(Operator::Multiply, self@, other@, *unit), |v: Value| v@),
    {
        self.arith(Operator::Multiply, other, unit)
    }

    /// `self / other`; always a float, or an error on a zero divisor.
    pub fn div<F: Fn(FloatOp) -> u32>(self, other: Value, unit: &F) -> (r: Result<Value, QueryError>)
        requires
            float_unit_ok(*unit),
        ensures
            outcome_matches(r, arith_outcome(Operator::Divide, self@, other@, *unit), |v: Value| v@),
    {
        self.arith(Operator::Divide, other, unit)
    }

    /// Whether this value equals `other`.
    pub fn equals<F: Fn(FloatOp) -> u32>(&self, other: &Value, unit: &F) -> (r: bool)
        requires
            float_unit_ok(*unit),
        ensures
            r == values_equal(self@, other@, *unit),
    {
        match (self, other) {
            (Value::Int(x), Value::Int(y)) => *x == *y,
            (Value::Int(x), Value::Float(y)) => {
                let fx = ask_float_unit(unit, FloatOp::FromInt(*x));
                compare_floats(Comparator::Eq, fx, *y)
            },
            (Value::Float(x), Value::Int(y)) => {
                let fy = ask_float_unit(unit, FloatOp::FromInt(*y));
                compare_floats(Comparator::Eq, *x, fy)
            },
            (Value::Float(x), Value::Float(y)) => compare_floats(Comparator::Eq, *x, *y),
            (Value::Str(s), Value::Str(t)) => *s == *t,
            (Value::Bool(x), Value::Bool(y)) => *x == *y,
            _ => false,
        }
    }

    /// Compares this value with `other`.
    #[verifier::rlimit(40)]
    pub fn compare<F: Fn(FloatOp) -> u32>(&self, cmp: Comparator, other: &Value, unit: &F) -> (r: Result<bool, QueryError>)
        requires
            float_unit_ok(*unit),
        ensures
            outcome_matches(r, compare_outcome(cmp, self@, other@, *unit), |b: bool| b),
    {
        match (self, other) {
            (Value::Int(x), Value::Int(y)) => Ok(compare_ints(cmp, *x as i64, *y as i64)),
            (Value::Int(x), Value::Float(y)) => {
                let fx = ask_float_unit(unit, FloatOp::FromInt(*x));
                Ok(compare_floats(cmp, fx, *y))
            },
            (Value::Float(x), Value::Int(y)) => {
                let fy = ask_float_unit(unit, FloatOp::FromInt(*y));
                Ok(compare_floats(cmp, *x, fy))
            },
            (Value::Float(x), Value::Float(y)) => Ok(compare_floats(cmp, *x, *y)),
            (Value::Str(s), Value::Str(t)) => {
                let o = compare_bytes(s.as_str().as_bytes(), t.as_str().as_bytes());
                Ok(compare_ints(cmp, o as i64, 0))
            },
            (Value::Bool(x), Value::Bool(y)) => match cmp {
                Comparator::Eq => Ok(*x == *y),
                Comparator::Neq => Ok(*x != *y),
                _ => Err(validation_error("Invalid types for comparison")),
            },
            _ => Err(validation_error("Invalid types for comparison")),
        }
    }
}

/// Decoding the bytes of a value of type `t` gives the value back.
pub proof fn lemma_value_round_trip(v: ValueView, t: Type)
    requires
        type_of(v) == Some(t),
    ensures
        value_from_bytes(value_bytes(v), t) == Some(v),
{
    match v {
        ValueView::Int(i) => {
            lemma_u32_round_trip(i as u32);
            assert((i as u32) as i32 == i) by (bit_vector);
        },
        ValueView::Float(f) => lemma_u32_round_trip(f),
        _ => {},
    }
}

/// Whether `v` is a number equal to zero.
pub open spec fn is_zero_number(v: ValueView) -> bool {
    v == ValueView::Int(0) || (v matches ValueView::Float(y) && is_zero_float(y))
}

/// Whether `v` is an integer or a float.
pub open spec fn is_number(v: ValueView) -> bool {
    v is Int || v is Float
}

/// Arithmetic on numbers is total: every operator on integer or float operands
/// gives a number, except a division by a zero divisor, which gives the
/// division error.
pub proof fn lemma_numeric_arith_total<F: Fn(FloatOp) -> u32>(op: Operator, a: ValueView, b: ValueView, unit: F)
    requires
        is_number(a),
        is_number(b),
    ensures
        op == Operator::Divide && is_zero_number(b) ==> arith_outcome(op, a, b, unit) == Err::<ValueView, Seq<char>>(
            division_by_zero_msg(),
        ),
        !(op == Operator::Divide && is_zero_number(b)) ==> (arith_outcome(op, a, b, unit) matches Ok(v)
            && is_number(v)),
{
}

/// An integer equals its own promotion to float, from either side.
pub proof fn lemma_int_equals_its_float<F: Fn(FloatOp) -> u32>(i: i32, unit: F)
    requires
        float_unit_ok(unit),
    ensures
        compare_outcome(Comparator::Eq, ValueView::Int(i), ValueView::Float(float_of(unit, FloatOp::FromInt(i))), unit)
            == Ok::<bool, Seq<char>>(true),
        compare_outcome(Comparator::Eq, ValueView::Float(float_of(unit, FloatOp::FromInt(i))), ValueView::Int(i), unit)
            == Ok::<bool, Seq<char>>(true),
{
    let op = FloatOp::FromInt(i);
    let r = float_of(unit, op);
    assert(unit.requires((op,)));
    assert(unit.ensures((op,), r));
    assert(!is_nan(r));
}

} // verus!
