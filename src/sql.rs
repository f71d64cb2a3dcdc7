//! Reads one statement of the SQL dialect into a query.
use vstd::prelude::*;
use vstd::string::StringSliceAdditionalSpecFns;

use crate::asl::{
    Column, CreateTableQuery, DropTableQuery, Expression, InsertQuery, Query, SelectQuery,
};
use crate::errors::QueryError;
use crate::value::{Comparator, LogicOperator, Operator, Type, Value, ValueView};
use vstd::utf8::{decode_utf8, encode_utf8, valid_utf8};

verus! {

/// Punctuation and operators.
#[derive(Debug, Clone, Copy, PartialEq, Eq, Structural)]
pub enum Symbol {
    LParen,
    RParen,
    Comma,
    Star,
    Plus,
    Minus,
    Slash,
    Eq,
    Neq,
    Lt,
    Lte,
    Gt,
    Gte,
}

/// A token of a statement. A decimal literal keeps its digits as an integer
/// and the number of digits after its point.
#[derive(Debug)]
pub enum Token {
    Word(String),
    Int(i32),
    Decimal(i32, u32),
    Text(String),
    Symbol(Symbol),
}

/// The value of a string of decimal digits.
pub open spec fn decimal_value(digits: Seq<u8>) -> int
    decreases digits.len(),
{
    if digits.len() == 0 {
        0
    } else {
        decimal_value(digits.drop_last()) * 10 + (digits.last() - 48u8)
    }
}

pub open spec fn is_digit(b: u8) -> bool {
    48u8 <= b <= 57u8
}

/// The largest significand of a decimal literal: every integer up to it is a float.
pub const MAX_SIGNIFICAND: i64 = 16777216;

/// The most digits after the point of a decimal literal.
pub const MAX_SCALE: u32 = 7;

fn parse_error(msg: &str) -> (r: QueryError)
    ensures
        r is ParseError,
{
    QueryError::ParseError(msg.to_owned())
}

fn text_of(bytes: &[u8], start: usize, end: usize) -> (r: Result<String, QueryError>)
    requires
        start <= end <= bytes@.len(),
    ensures
        r is Ok <==> valid_utf8(bytes@.subrange(start as int, end as int)),
        r matches Ok(s) ==> s@ == decode_utf8(bytes@.subrange(start as int, end as int)),
        r matches Err(e) ==> e is ParseError,
{
    let v = vstd::slice::slice_to_vec(vstd::slice::slice_subrange(bytes, start, end));
    match crate::value::string_from_utf8(v) {
        Some(s) => Ok(s),
        None => Err(parse_error("Text is not valid UTF-8")),
    }
}

/// What a token holds, with text seen as its characters.
pub enum TokenView {
    Word(Seq<char>),
    Int(i32),
    Decimal(i32, u32),
    Text(Seq<char>),
    Symbol(Symbol),
}

impl View for Token {
    type V = TokenView;

    open spec fn view(&self) -> TokenView {
        match self {
            Token::Word(w) => TokenView::Word(w@),
            Token::Int(i) => TokenView::Int(*i),
            Token::Decimal(m, k) => TokenView::Decimal(*m, *k),
            Token::Text(t) => TokenView::Text(t@),
            Token::Symbol(s) => TokenView::Symbol(*s),
        }
    }
}

pub open spec fn tokens_view(t: Seq<Token>) -> Seq<TokenView> {
    t.map_values(|x: Token| x@)
}

/// White space and `;` separate tokens.
pub open spec fn is_space(c: u8) -> bool {
    c == 32u8 || c == 9u8 || c == 10u8 || c == 13u8 || c == 59u8
}

pub open spec fn is_word_start(c: u8) -> bool {
    (65u8 <= c <= 90u8) || (97u8 <= c <= 122u8) || c == 95u8
}

pub open spec fn is_word_byte(c: u8) -> bool {
    is_word_start(c) || is_digit(c)
}

/// The end of the run of word bytes from `i`.
pub open spec fn word_end(b: Seq<u8>, i: int) -> int
    decreases b.len() - i,
{
    if 0 <= i < b.len() && is_word_byte(b[i]) {
        word_end(b, i + 1)
    } else {
        i
    }
}

/// The end of the run of digits from `i`.
pub open spec fn digits_end(b: Seq<u8>, i: int) -> int
    decreases b.len() - i,
{
    if 0 <= i < b.len() && is_digit(b[i]) {
        digits_end(b, i + 1)
    } else {
        i
    }
}

/// The position of the first quote at or after `i`, or the end.
pub open spec fn quote_end(b: Seq<u8>, i: int) -> int
    decreases b.len() - i,
{
    if 0 <= i < b.len() && b[i] != 39u8 {
        quote_end(b, i + 1)
    } else {
        i
    }
}

/// Ten to the power `k`, for `k` up to the largest scale.
pub open spec fn pow10(k: u32) -> int {
    if k == 0 {
        1
    } else if k == 1 {
        10
    } else if k == 2 {
        100
    } else if k == 3 {
        1_000
    } else if k == 4 {
        10_000
    } else if k == 5 {
        100_000
    } else if k == 6 {
        1_000_000
    } else {
        10_000_000
    }
}

/// The symbol at `i` and its width: `<=`, `>=`, `<>` and `!=` take two bytes.
pub open spec fn symbol_at(b: Seq<u8>, i: int) -> Option<(Symbol, int)> {
    let c = b[i];
    let next = if i + 1 < b.len() { b[i + 1] } else { 0u8 };
    if c == 60u8 && next == 61u8 {
        Some((Symbol::Lte, 2))
    } else if c == 62u8 && next == 61u8 {
        Some((Symbol::Gte, 2))
    } else if (c == 60u8 && next == 62u8) || (c == 33u8 && next == 61u8) {
        Some((Symbol::Neq, 2))
    } else if c == 40u8 {
        Some((Symbol::LParen, 1))
    } else if c == 41u8 {
        Some((Symbol::RParen, 1))
    } else if c == 44u8 {
        Some((Symbol::Comma, 1))
    } else if c == 42u8 {
        Some((Symbol::Star, 1))
    } else if c == 43u8 {
        Some((Symbol::Plus, 1))
    } else if c == 45u8 {
        Some((Symbol::Minus, 1))
    } else if c == 47u8 {
        Some((Symbol::Slash, 1))
    } else if c == 61u8 {
        Some((Symbol::Eq, 1))
    } else if c == 60u8 {
        Some((Symbol::Lt, 1))
    } else if c == 62u8 {
        Some((Symbol::Gt, 1))
    } else {
        None
    }
}

/// The lexeme at `i` (a token, or nothing for a separator) and where it ends;
/// `None` when no token starts there. A word or a text must be UTF-8; an
/// integer must fit `i32`; a decimal keeps at most seven digits after its
/// point, and its digits as an integer at most 2^24.
pub open spec fn lexeme(b: Seq<u8>, i: int) -> Option<(Option<TokenView>, int)> {
    let c = b[i];
    if is_space(c) {
        Some((None, i + 1))
    } else if is_word_start(c) {
        let e = word_end(b, i);
        if valid_utf8(b.subrange(i, e)) {
            Some((Some(TokenView::Word(decode_utf8(b.subrange(i, e)))), e))
        } else {
            None
        }
    } else if is_digit(c) {
        let e = digits_end(b, i);
        let w = decimal_value(b.subrange(i, e));
        if e < b.len() && b[e] == 46u8 {
            let stop = digits_end(b, e + 1);
            let f = decimal_value(b.subrange(e + 1, stop));
            let scale = stop - e - 1;
            if scale <= MAX_SCALE && w * pow10(scale as u32) + f <= MAX_SIGNIFICAND {
                Some((Some(TokenView::Decimal((w * pow10(scale as u32) + f) as i32, scale as u32)), stop))
            } else {
                None
            }
        } else if w <= 0x7fff_ffff {
            Some((Some(TokenView::Int(w as i32)), e))
        } else {
            None
        }
    } else if c == 39u8 {
        let j = quote_end(b, i + 1);
        if j < b.len() && valid_utf8(b.subrange(i + 1, j)) {
            Some((Some(TokenView::Text(decode_utf8(b.subrange(i + 1, j)))), j + 1))
        } else {
            None
        }
    } else {
        match symbol_at(b, i) {
            Some((s, w)) => Some((Some(TokenView::Symbol(s)), i + w)),
            None => None,
        }
    }
}

/// The tokens of the bytes from `i` on; `None` when some lexeme is not a token.
pub open spec fn tokens_from(b: Seq<u8>, i: int) -> Option<Seq<TokenView>>
    decreases b.len() - i,
{
    if i < 0 || i >= b.len() {
        Some(Seq::empty())
    } else {
        match lexeme(b, i) {
            None => None,
            Some((t, n)) => if n <= i || n > b.len() {
                None
            } else {
                match tokens_from(b, n) {
                    None => None,
                    Some(rest) => match t {
                        Some(x) => Some(seq![x] + rest),
                        None => Some(rest),
                    },
                }
            },
        }
    }
}

proof fn lemma_run_ends(b: Seq<u8>, i: int)
    requires
        0 <= i <= b.len(),
    ensures
        i <= digits_end(b, i) <= b.len(),
        i <= word_end(b, i) <= b.len(),
        i <= quote_end(b, i) <= b.len(),
    decreases b.len() - i,
{
    if i < b.len() {
        lemma_run_ends(b, i + 1);
    }
}

/// Reads the digits at `start`: their value, if it is at most `limit`, and
/// where they end.
fn read_digits(bytes: &[u8], start: usize, limit: i64) -> (r: (Option<i64>, usize))
    requires
        start <= bytes@.len(),
        0 <= limit <= 0x7fff_ffff,
    ensures
        r.1 == digits_end(bytes@, start as int),
        start <= r.1 <= bytes@.len(),
        match r.0 {
            Some(v) => v == decimal_value(bytes@.subrange(start as int, r.1 as int)) && 0 <= v <= limit,
            None => decimal_value(bytes@.subrange(start as int, r.1 as int)) > limit,
        },
{
    let mut i = start;
    let mut value: i64 = 0;
    let mut fits = true;
    assert(bytes@.subrange(start as int, start as int) =~= Seq::<u8>::empty());
    while i < bytes.len() && 48u8 <= bytes[i] && bytes[i] <= 57u8
        invariant
            start <= i <= bytes@.len(),
            0 <= limit <= 0x7fff_ffff,
            digits_end(bytes@, start as int) == digits_end(bytes@, i as int),
            fits ==> value == decimal_value(bytes@.subrange(start as int, i as int)) && 0 <= value <= limit,
            !fits ==> decimal_value(bytes@.subrange(start as int, i as int)) > limit,
            decimal_value(bytes@.subrange(start as int, i as int)) >= 0,
        decreases bytes@.len() - i,
    {
        let ghost before = decimal_value(bytes@.subrange(start as int, i as int));
        assert(bytes@.subrange(start as int, i + 1).drop_last() =~= bytes@.subrange(start as int, i as int));
        let d = (bytes[i] - 48u8) as i64;
        if fits {
            let next = value * 10 + d;
            if next > limit {
                fits = false;
            } else {
                value = next;
            }
        }
        i += 1;
        assert(decimal_value(bytes@.subrange(start as int, i as int)) == before * 10 + d);
    }
    (if fits { Some(value) } else { None }, i)
}

pub open spec fn lexeme_view(t: Option<Token>) -> Option<TokenView> {
    match t {
        Some(x) => Some(x@),
        None => None,
    }
}

/// Reads the lexeme at `i`.
fn next_lexeme(bytes: &[u8], i: usize) -> (r: Result<(Option<Token>, usize), QueryError>)
    requires
        i < bytes@.len(),
    ensures
        match lexeme(bytes@, i as int) {
            Some((t, n)) => r matches Ok(x) && lexeme_view(x.0) == t && x.1 == n && i < n <= bytes@.len(),
            None => r matches Err(e) && e is ParseError,
        },
{
    let c = bytes[i];
    if c == 32u8 || c == 9u8 || c == 10u8 || c == 13u8 || c == 59u8 {
        Ok((None, i + 1))
    } else if (65u8 <= c && c <= 90u8) || (97u8 <= c && c <= 122u8) || c == 95u8 {
        let mut e = i;
        while e < bytes.len() && ((65u8 <= bytes[e] && bytes[e] <= 90u8) || (97u8 <= bytes[e]
            && bytes[e] <= 122u8) || bytes[e] == 95u8 || (48u8 <= bytes[e] && bytes[e] <= 57u8))
            invariant
                i <= e <= bytes@.len(),
                word_end(bytes@, i as int) == word_end(bytes@, e as int),
                e > i || e == i,
            decreases bytes@.len() - e,
        {
            e += 1;
        }
        proof {
            lemma_run_ends(bytes@, i + 1);
        }
        assert(e > i);
        let w = text_of(bytes, i, e)?;
        Ok((Some(Token::Word(w)), e))
    } else if 48u8 <= c && c <= 57u8 {
        let (whole, end) = read_digits(bytes, i, 0x7fff_ffff);
        proof {
            lemma_run_ends(bytes@, i + 1);
        }
        assert(end > i);
        if end < bytes.len() && bytes[end] == 46u8 {
            let (frac, stop) = read_digits(bytes, end + 1, 0x7fff_ffff);
            let scale = stop - (end + 1);
            let ghost wv = decimal_value(bytes@.subrange(i as int, end as int));
            let ghost fv = decimal_value(bytes@.subrange(end + 1, stop as int));
            if scale > MAX_SCALE as usize {
                return Err(parse_error("Too many digits after the point"));
            }
            let p = power_of_ten(scale as u32);
            let w = match whole {
                Some(w) => w,
                None => {
                    assert(wv * pow10(scale as u32) + fv > MAX_SIGNIFICAND) by (nonlinear_arith)
                        requires
                            wv > 0x7fff_ffff,
                            pow10(scale as u32) >= 1,
                            fv >= 0,
                    ;
                    return Err(parse_error("Decimal literal too large"));
                },
            };
            let f = match frac {
                Some(f) => f,
                None => {
                    assert(wv * pow10(scale as u32) + fv > MAX_SIGNIFICAND) by (nonlinear_arith)
                        requires
                            fv > 0x7fff_ffff,
                            pow10(scale as u32) >= 1,
                            wv >= 0,
                    ;
                    return Err(parse_error("Decimal literal too large"));
                },
            };
            assert(0 <= w * (p as i64) <= 0x7fff_ffff * 10_000_000) by (nonlinear_arith)
                requires
                    0 <= w <= 0x7fff_ffff,
                    1 <= p <= 10_000_000,
            ;
            let significand = w * (p as i64) + f;
            if significand > MAX_SIGNIFICAND {
                return Err(parse_error("Decimal literal too large"));
            }
            Ok((Some(Token::Decimal(significand as i32, scale as u32)), stop))
        } else {
            match whole {
                Some(w) => Ok((Some(Token::Int(w as i32)), end)),
                None => Err(parse_error("Integer literal too large")),
            }
        }
    } else if c == 39u8 {
        let start = i + 1;
        let mut j = start;
        while j < bytes.len() && bytes[j] != 39u8
            invariant
                start <= j <= bytes@.len(),
                quote_end(bytes@, start as int) == quote_end(bytes@, j as int),
            decreases bytes@.len() - j,
        {
            j += 1;
        }
        if j == bytes.len() {
            return Err(parse_error("Unterminated string"));
        }
        let text = text_of(bytes, start, j)?;
        Ok((Some(Token::Text(text)), j + 1))
    } else {
        let next = if i + 1 < bytes.len() {
            bytes[i + 1]
        } else {
            0u8
        };
        let (symbol, width): (Symbol, usize) = if c == 60u8 && next == 61u8 {
            (Symbol::Lte, 2)
        } else if c == 62u8 && next == 61u8 {
            (Symbol::Gte, 2)
        } else if (c == 60u8 && next == 62u8) || (c == 33u8 && next == 61u8) {
            (Symbol::Neq, 2)
        } else if c == 40u8 {
            (Symbol::LParen, 1)
        } else if c == 41u8 {
            (Symbol::RParen, 1)
        } else if c == 44u8 {
            (Symbol::Comma, 1)
        } else if c == 42u8 {
            (Symbol::Star, 1)
        } else if c == 43u8 {
            (Symbol::Plus, 1)
        } else if c == 45u8 {
            (Symbol::Minus, 1)
        } else if c == 47u8 {
            (Symbol::Slash, 1)
        } else if c == 61u8 {
            (Symbol::Eq, 1)
        } else if c == 60u8 {
            (Symbol::Lt, 1)
        } else if c == 62u8 {
            (Symbol::Gt, 1)
        } else {
            return Err(parse_error("Unexpected character"));
        };
        Ok((Some(Token::Symbol(symbol)), i + width))
    }
}

/// Splits a statement into tokens; white space and `;` separate them.
pub fn tokenize(input: &str) -> (r: Result<Vec<Token>, QueryError>)
    ensures
        match tokens_from(input.spec_bytes(), 0) {
            Some(ts) => r matches Ok(v) && tokens_view(v@) == ts,
            None => r matches Err(e) && e is ParseError,
        },
{
    let bytes = input.as_bytes();
    let ghost b = bytes@;
    let mut tokens: Vec<Token> = Vec::new();
    let mut i: usize = 0;
    assert(tokens_view(tokens@) =~= Seq::<TokenView>::empty());
    while i < bytes.len()
        invariant
            b == bytes@,
            b == input.spec_bytes(),
            i <= b.len(),
            tokens_from(b, 0) == match tokens_from(b, i as int) {
                Some(rest) => Some(tokens_view(tokens@) + rest),
                None => None::<Seq<TokenView>>,
            },
        decreases b.len() - i,
    {
        let (token, next) = match next_lexeme(bytes, i) {
            Ok(x) => x,
            Err(e) => {
                assert(lexeme(b, i as int) is None);
                assert(e is ParseError);
                assert(tokens_from(b, i as int) is None);
                assert(tokens_from(b, 0) is None);
                return Err(e);
            },
        };
        let ghost before = tokens_view(tokens@);
        match token {
            Some(t) => {
                let ghost tv = t@;
                tokens.push(t);
                assert(tokens_view(tokens@) =~= before.push(tv));
                proof {
                    match tokens_from(b, next as int) {
                        Some(rest) => {
                            assert(before + (seq![tv] + rest) =~= before.push(tv) + rest);
                        },
                        None => {},
                    }
                }
            },
            None => {},
        }
        i = next;
    }
    assert(tokens_view(tokens@) + Seq::<TokenView>::empty() =~= tokens_view(tokens@));
    Ok(tokens)
}

/// An ASCII letter in lower case.
pub open spec fn lower(b: u8) -> u8 {
    if 65u8 <= b <= 90u8 {
        (b + 32) as u8
    } else {
        b
    }
}

/// Two byte strings are equal but for the case of ASCII letters.
pub open spec fn bytes_eq_nocase(x: Seq<u8>, y: Seq<u8>) -> bool {
    x.len() == y.len() && forall|k: int| 0 <= k < x.len() ==> lower(#[trigger] x[k]) == lower(y[k])
}

/// Two words are equal but for the case of ASCII letters.
pub open spec fn word_eq(a: Seq<char>, b: Seq<char>) -> bool {
    bytes_eq_nocase(encode_utf8(a), encode_utf8(b))
}

/// Whether two words are equal but for the case of ASCII letters.
pub fn same_word(a: &str, b: &str) -> (r: bool)
    ensures
        r == word_eq(a@, b@),
{
    let x = a.as_bytes();
    let y = b.as_bytes();
    if x.len() != y.len() {
        return false;
    }
    let mut k: usize = 0;
    while k < x.len()
        invariant
            x@ == a.spec_bytes(),
            y@ == b.spec_bytes(),
            x@.len() == y@.len(),
            k <= x@.len(),
            forall|j: int| 0 <= j < k ==> lower(#[trigger] x@[j]) == lower(y@[j]),
        decreases x@.len() - k,
    {
        let u = if 65u8 <= x[k] && x[k] <= 90u8 {
            x[k] + 32
        } else {
            x[k]
        };
        let v = if 65u8 <= y[k] && y[k] <= 90u8 {
            y[k] + 32
        } else {
            y[k]
        };
        if u != v {
            return false;
        }
        k += 1;
    }
    true
}

/// Ten to the power `k`.
fn power_of_ten(k: u32) -> (r: i32)
    requires
        k <= MAX_SCALE,
    ensures
        1 <= r <= 10_000_000,
        r == pow10(k),
{
    match k {
        0 => 1,
        1 => 10,
        2 => 100,
        3 => 1_000,
        4 => 10_000,
        5 => 100_000,
        6 => 1_000_000,
        _ => 10_000_000,
    }
}

/// What an expression holds, with text seen as its characters.
pub enum ExprView {
    Value(ValueView),
    Identifier(Seq<char>),
    Op(Box<ExprView>, Operator, Box<ExprView>),
    Comp(Box<ExprView>, Comparator, Box<ExprView>),
    LogicOp(Box<ExprView>, LogicOperator, Box<ExprView>),
}

pub open spec fn expr_view(e: Expression) -> ExprView
    decreases e,
{
    match e {
        Expression::Value(v) => ExprView::Value(v@),
        Expression::Identifier(n) => ExprView::Identifier(n@),
        Expression::Op(l, o, r) => ExprView::Op(Box::new(expr_view(*l)), o, Box::new(expr_view(*r))),
        Expression::Comp(l, c, r) => ExprView::Comp(Box::new(expr_view(*l)), c, Box::new(expr_view(*r))),
        Expression::LogicOp(l, o, r) => ExprView::LogicOp(Box::new(expr_view(*l)), o, Box::new(expr_view(*r))),
    }
}

/// What a parsed statement holds.
pub enum QueryView {
    Select(Seq<char>, Seq<Seq<char>>, Option<ExprView>),
    Insert(Seq<char>, Seq<Seq<char>>, Seq<ExprView>),
    CreateTable(Seq<char>, Seq<(Seq<char>, Type)>),
    DropTable(Seq<char>),
}

pub open spec fn names_view(s: Seq<String>) -> Seq<Seq<char>> {
    s.map_values(|x: String| x@)
}

pub open spec fn exprs_view(s: Seq<Box<Expression>>) -> Seq<ExprView> {
    s.map_values(|x: Box<Expression>| expr_view(*x))
}

pub open spec fn columns_view(s: Seq<Column>) -> Seq<(Seq<char>, Type)> {
    s.map_values(|c: Column| (c.name@, c.column_type))
}

pub open spec fn query_view(q: Query) -> QueryView {
    match q {
        Query::Select(s) => QueryView::Select(
            s.table@,
            names_view(s.columns@),
            match s.condition {
                Some(c) => Some(expr_view(*c)),
                None => None,
            },
        ),
        Query::Insert(i) => QueryView::Insert(i.table@, names_view(i.columns@), exprs_view(i.values@)),
        Query::CreateTable(c) => QueryView::CreateTable(c.table@, columns_view(c.columns@)),
        Query::DropTable(d) => QueryView::DropTable(d.table@),
    }
}

/// Token `p` is the keyword `word`, in any case.
pub open spec fn kw(tv: Seq<TokenView>, p: int, word: Seq<char>) -> bool {
    0 <= p < tv.len() && (tv[p] matches TokenView::Word(w) && word_eq(w, word))
}

/// Token `p` is the symbol `s`.
pub open spec fn sym(tv: Seq<TokenView>, p: int, s: Symbol) -> bool {
    0 <= p < tv.len() && tv[p] == TokenView::Symbol(s)
}

/// The name that token `p` holds.
pub open spec fn name_at(tv: Seq<TokenView>, p: int) -> Option<Seq<char>> {
    if 0 <= p < tv.len() && tv[p] is Word {
        Some(tv[p]->Word_0)
    } else {
        None
    }
}

/// `expression := conjunction (OR conjunction)*`
pub open spec fn p_expression(tv: Seq<TokenView>, pos: int) -> Option<(ExprView, int)>
    decreases tv.len() - pos, 5int,
{
    if pos < 0 || pos > tv.len() {
        None
    } else {
        match p_conjunction(tv, pos) {
            None => None,
            Some((l, p)) => if p <= pos || p > tv.len() {
                None
            } else {
                p_or_tail(tv, l, p)
            },
        }
    }
}

pub open spec fn p_or_tail(tv: Seq<TokenView>, left: ExprView, p: int) -> Option<(ExprView, int)>
    decreases tv.len() - p, 5int,
{
    if p < 0 || p > tv.len() {
        None
    } else if kw(tv, p, "or"@) {
        match p_conjunction(tv, p + 1) {
            None => None,
            Some((r, q)) => if q <= p || q > tv.len() {
                None
            } else {
                p_or_tail(tv, ExprView::LogicOp(Box::new(left), LogicOperator::Or, Box::new(r)), q)
            },
        }
    } else {
        Some((left, p))
    }
}

/// `conjunction := comparison (AND comparison)*`
pub open spec fn p_conjunction(tv: Seq<TokenView>, pos: int) -> Option<(ExprView, int)>
    decreases tv.len() - pos, 4int,
{
    if pos < 0 || pos > tv.len() {
        None
    } else {
        match p_comparison(tv, pos) {
            None => None,
            Some((l, p)) => if p <= pos || p > tv.len() {
                None
            } else {
                p_and_tail(tv, l, p)
            },
        }
    }
}

pub open spec fn p_and_tail(tv: Seq<TokenView>, left: ExprView, p: int) -> Option<(ExprView, int)>
    decreases tv.len() - p, 4int,
{
    if p < 0 || p > tv.len() {
        None
    } else if kw(tv, p, "and"@) {
        match p_comparison(tv, p + 1) {
            None => None,
            Some((r, q)) => if q <= p || q > tv.len() {
                None
            } else {
                p_and_tail(tv, ExprView::LogicOp(Box::new(left), LogicOperator::And, Box::new(r)), q)
            },
        }
    } else {
        Some((left, p))
    }
}

/// The comparator that token `p` holds.
pub open spec fn comparator_at(tv: Seq<TokenView>, p: int) -> Option<Comparator> {
    if 0 <= p < tv.len() {
        match tv[p] {
            TokenView::Symbol(Symbol::Eq) => Some(Comparator::Eq),
            TokenView::Symbol(Symbol::Neq) => Some(Comparator::Neq),
            TokenView::Symbol(Symbol::Lt) => Some(Comparator::Lt),
            TokenView::Symbol(Symbol::Lte) => Some(Comparator::Lte),
            TokenView::Symbol(Symbol::Gt) => Some(Comparator::Gt),
            TokenView::Symbol(Symbol::Gte) => Some(Comparator::Gte),
            _ => None,
        }
    } else {
        None
    }
}

/// `comparison := sum (cmp sum)?`
pub open spec fn p_comparison(tv: Seq<TokenView>, pos: int) -> Option<(ExprView, int)>
    decreases tv.len() - pos, 3int,
{
    if pos < 0 || pos > tv.len() {
        None
    } else {
        match p_sum(tv, pos) {
            None => None,
            Some((l, p)) => if p <= pos || p > tv.len() {
                None
            } else {
                match comparator_at(tv, p) {
                    None => Some((l, p)),
                    Some(c) => match p_sum(tv, p + 1) {
                        None => None,
                        Some((r, q)) => Some((ExprView::Comp(Box::new(l), c, Box::new(r)), q)),
                    },
                }
            },
        }
    }
}

/// The additive operator that token `p` holds.
pub open spec fn add_op_at(tv: Seq<TokenView>, p: int) -> Option<Operator> {
    if sym(tv, p, Symbol::Plus) {
        Some(Operator::Add)
    } else if sym(tv, p, Symbol::Minus) {
        Some(Operator::Subtract)
    } else {
        None
    }
}

/// The multiplicative operator that token `p` holds.
pub open spec fn mul_op_at(tv: Seq<TokenView>, p: int) -> Option<Operator> {
    if sym(tv, p, Symbol::Star) {
        Some(Operator::Multiply)
    } else if sym(tv, p, Symbol::Slash) {
        Some(Operator::Divide)
    } else {
        None
    }
}

/// `sum := product ((+|-) product)*`
pub open spec fn p_sum(tv: Seq<TokenView>, pos: int) -> Option<(ExprView, int)>
    decreases tv.len() - pos, 2int,
{
    if pos < 0 || pos > tv.len() {
        None
    } else {
        match p_product(tv, pos) {
            None => None,
            Some((l, p)) => if p <= pos || p > tv.len() {
                None
            } else {
                p_sum_tail(tv, l, p)
            },
        }
    }
}

pub open spec fn p_sum_tail(tv: Seq<TokenView>, left: ExprView, p: int) -> Option<(ExprView, int)>
    decreases tv.len() - p, 2int,
{
    if p < 0 || p > tv.len() {
        None
    } else {
        match add_op_at(tv, p) {
            None => Some((left, p)),
            Some(op) => match p_product(tv, p + 1) {
                None => None,
                Some((r, q)) => if q <= p || q > tv.len() {
                    None
                } else {
                    p_sum_tail(tv, ExprView::Op(Box::new(left), op, Box::new(r)), q)
                },
            },
        }
    }
}

/// `product := primary ((*|/) primary)*`
pub open spec fn p_product(tv: Seq<TokenView>, pos: int) -> Option<(ExprView, int)>
    decreases tv.len() - pos, 1int,
{
    if pos < 0 || pos > tv.len() {
        None
    } else {
        match p_primary(tv, pos) {
            None => None,
            Some((l, p)) => if p <= pos || p > tv.len() {
                None
            } else {
                p_product_tail(tv, l, p)
            },
        }
    }
}

pub open spec fn p_product_tail(tv: Seq<TokenView>, left: ExprView, p: int) -> Option<(ExprView, int)>
    decreases tv.len() - p, 1int,
{
    if p < 0 || p > tv.len() {
        None
    } else {
        match mul_op_at(tv, p) {
            None => Some((left, p)),
            Some(op) => match p_primary(tv, p + 1) {
                None => None,
                Some((r, q)) => if q <= p || q > tv.len() {
                    None
                } else {
                    p_product_tail(tv, ExprView::Op(Box::new(left), op, Box::new(r)), q)
                },
            },
        }
    }
}

/// `primary := literal | name | ( expression ) | - primary`. A decimal literal
/// stands for its digits divided by a power of ten; `-x` for `0 - x`.
pub open spec fn p_primary(tv: Seq<TokenView>, pos: int) -> Option<(ExprView, int)>
    decreases tv.len() - pos, 0int,
{
    if pos < 0 || pos >= tv.len() {
        None
    } else {
        match tv[pos] {
            TokenView::Int(i) => Some((ExprView::Value(ValueView::Int(i)), pos + 1)),
            TokenView::Decimal(m, k) => if k > MAX_SCALE {
                None
            } else {
                Some(
                    (
                        ExprView::Op(
                            Box::new(ExprView::Value(ValueView::Int(m))),
                            Operator::Divide,
                            Box::new(ExprView::Value(ValueView::Int(pow10(k) as i32))),
                        ),
                        pos + 1,
                    ),
                )
            },
            TokenView::Text(t) => Some((ExprView::Value(ValueView::Str(t)), pos + 1)),
            TokenView::Word(w) => Some(
                (
                    if word_eq(w, "true"@) {
                        ExprView::Value(ValueView::Bool(true))
                    } else if word_eq(w, "false"@) {
                        ExprView::Value(ValueView::Bool(false))
                    } else {
                        ExprView::Identifier(w)
                    },
                    pos + 1,
                ),
            ),
            TokenView::Symbol(Symbol::LParen) => match p_expression(tv, pos + 1) {
                None => None,
                Some((e, q)) => if sym(tv, q, Symbol::RParen) {
                    Some((e, q + 1))
                } else {
                    None
                },
            },
            TokenView::Symbol(Symbol::Minus) => match p_primary(tv, pos + 1) {
                None => None,
                Some((e, q)) => Some(
                    (ExprView::Op(Box::new(ExprView::Value(ValueView::Int(0))), Operator::Subtract, Box::new(e)), q),
                ),
            },
            _ => None,
        }
    }
}

/// The column type that token `p` names.
pub open spec fn type_at(tv: Seq<TokenView>, p: int) -> Option<Type> {
    match name_at(tv, p) {
        Some(w) => if word_eq(w, "str"@) {
            Some(Type::Str)
        } else if word_eq(w, "bool"@) {
            Some(Type::Bool)
        } else if word_eq(w, "int"@) {
            Some(Type::Int)
        } else if word_eq(w, "float"@) {
            Some(Type::Float)
        } else {
            None
        },
        None => None,
    }
}

/// `name type (, name type)* )` from `p`.
pub open spec fn p_column_list(tv: Seq<TokenView>, p: int) -> Option<(Seq<(Seq<char>, Type)>, int)>
    decreases tv.len() - p,
{
    if p < 0 || p > tv.len() {
        None
    } else {
        match (name_at(tv, p), type_at(tv, p + 1)) {
            (Some(n), Some(t)) => if sym(tv, p + 2, Symbol::Comma) {
                match p_column_list(tv, p + 3) {
                    None => None,
                    Some((rest, q)) => Some((seq![(n, t)] + rest, q)),
                }
            } else if sym(tv, p + 2, Symbol::RParen) {
                Some((seq![(n, t)], p + 3))
            } else {
                None
            },
            _ => None,
        }
    }
}

/// `name (, name)*` from `p`, where `star` lets `*` stand for a name.
pub open spec fn p_names(tv: Seq<TokenView>, p: int, star: bool) -> Option<(Seq<Seq<char>>, int)>
    decreases tv.len() - p,
{
    if p < 0 || p > tv.len() {
        None
    } else {
        let item = if star && sym(tv, p, Symbol::Star) {
            Some("*"@)
        } else {
            name_at(tv, p)
        };
        match item {
            None => None,
            Some(n) => if sym(tv, p + 1, Symbol::Comma) {
                match p_names(tv, p + 2, star) {
                    None => None,
                    Some((rest, q)) => Some((seq![n] + rest, q)),
                }
            } else {
                Some((seq![n], p + 1))
            },
        }
    }
}

/// `expression (, expression)* )` from `p`.
pub open spec fn p_expression_list(tv: Seq<TokenView>, p: int) -> Option<(Seq<ExprView>, int)>
    decreases tv.len() - p,
{
    if p < 0 || p > tv.len() {
        None
    } else {
        match p_expression(tv, p) {
            None => None,
            Some((e, q)) => if q <= p || q > tv.len() {
                None
            } else if sym(tv, q, Symbol::Comma) {
                match p_expression_list(tv, q + 1) {
                    None => None,
                    Some((rest, r)) => Some((seq![e] + rest, r)),
                }
            } else if sym(tv, q, Symbol::RParen) {
                Some((seq![e], q + 1))
            } else {
                None
            },
        }
    }
}

/// A statement and where it ends.
pub open spec fn p_statement_prefix(tv: Seq<TokenView>) -> Option<(QueryView, int)> {
    if kw(tv, 0, "create"@) {
        if kw(tv, 1, "table"@) && sym(tv, 3, Symbol::LParen) {
            match (name_at(tv, 2), p_column_list(tv, 4)) {
                (Some(n), Some((cols, p))) => Some((QueryView::CreateTable(n, cols), p)),
                _ => None,
            }
        } else {
            None
        }
    } else if kw(tv, 0, "drop"@) {
        if kw(tv, 1, "table"@) {
            match name_at(tv, 2) {
                Some(n) => Some((QueryView::DropTable(n), 3)),
                None => None,
            }
        } else {
            None
        }
    } else if kw(tv, 0, "insert"@) {
        if kw(tv, 1, "into"@) && sym(tv, 3, Symbol::LParen) {
            match (name_at(tv, 2), p_names(tv, 4, false)) {
                (Some(n), Some((cols, p))) => if sym(tv, p, Symbol::RParen) && kw(tv, p + 1, "values"@)
                    && sym(tv, p + 2, Symbol::LParen) {
                    match p_expression_list(tv, p + 3) {
                        Some((vals, q)) => Some((QueryView::Insert(n, cols, vals), q)),
                        None => None,
                    }
                } else {
                    None
                },
                _ => None,
            }
        } else {
            None
        }
    } else if kw(tv, 0, "select"@) {
        match p_names(tv, 1, true) {
            Some((cols, p)) => if kw(tv, p, "from"@) {
                match name_at(tv, p + 1) {
                    Some(n) => if kw(tv, p + 2, "where"@) {
                        match p_expression(tv, p + 3) {
                            Some((c, q)) => Some((QueryView::Select(n, cols, Some(c)), q)),
                            None => None,
                        }
                    } else {
                        Some((QueryView::Select(n, cols, None), p + 2))
                    },
                    None => None,
                }
            } else {
                None
            },
            None => None,
        }
    } else {
        None
    }
}

/// The statement that the bytes `b` hold: its tokens make exactly one
/// statement, `CREATE TABLE name (column type, ...)`, `DROP TABLE name`,
/// `INSERT INTO name (column, ...) VALUES (expression, ...)` or
/// `SELECT column, ... FROM name [WHERE expression]`.
pub open spec fn parsed(b: Seq<u8>) -> Option<QueryView> {
    match tokens_from(b, 0) {
        None => None,
        Some(tv) => match p_statement_prefix(tv) {
            Some((q, end)) => if end == tv.len() {
                Some(q)
            } else {
                None
            },
            None => None,
        },
    }
}

/// `pre` before the items of a parsed list.
pub open spec fn with_prefix<A>(pre: Seq<A>, o: Option<(Seq<A>, int)>) -> Option<(Seq<A>, int)> {
    match o {
        Some((rest, q)) => Some((pre + rest, q)),
        None => None,
    }
}

fn is_keyword(t: &Vec<Token>, pos: usize, word: &str) -> (r: bool)
    ensures
        r == kw(tokens_view(t@), pos as int, word@),
        r ==> pos < t@.len() <= usize::MAX,
{
    if pos < t.len() {
        match &t[pos] {
            Token::Word(w) => same_word(w.as_str(), word),
            _ => false,
        }
    } else {
        false
    }
}

fn is_symbol(t: &Vec<Token>, pos: usize, symbol: Symbol) -> (r: bool)
    ensures
        r == sym(tokens_view(t@), pos as int, symbol),
        r ==> pos < t@.len() <= usize::MAX,
{
    if pos < t.len() {
        match &t[pos] {
            Token::Symbol(s) => *s == symbol,
            _ => false,
        }
    } else {
        false
    }
}

fn identifier(t: &Vec<Token>, pos: usize) -> (r: Result<(String, usize), QueryError>)
    ensures
        match name_at(tokens_view(t@), pos as int) {
            Some(n) => r matches Ok(x) && x.0@ == n && x.1 == pos + 1 && x.1 <= t@.len(),
            None => r matches Err(e) && e is ParseError,
        },
{
    if pos < t.len() {
        match &t[pos] {
            Token::Word(w) => Ok((w.clone(), pos + 1)),
            _ => Err(parse_error("Unexpected token: a name was expected")),
        }
    } else {
        Err(parse_error("Unexpected end of statement"))
    }
}

fn expression(t: &Vec<Token>, pos: usize) -> (r: Result<(Box<Expression>, usize), QueryError>)
    requires
        pos <= t@.len(),
    ensures
        match p_expression(tokens_view(t@), pos as int) {
            Some((e, q)) => r matches Ok(x) && expr_view(*x.0) == e && x.1 == q,
            None => r matches Err(e) && e is ParseError,
        },
        r matches Ok(x) ==> pos < x.1 <= t@.len(),
    decreases t@.len() - pos, 5nat,
{
    let ghost tv = tokens_view(t@);
    let (mut left, mut p) = conjunction(t, pos)?;
    while is_keyword(t, p, "or")
        invariant
            tv == tokens_view(t@),
            pos < p <= t@.len(),
            p_expression(tv, pos as int) == p_or_tail(tv, expr_view(*left), p as int),
        decreases t@.len() - p,
    {
        let (right, q) = conjunction(t, p + 1)?;
        left = Box::new(Expression::LogicOp(left, LogicOperator::Or, right));
        p = q;
    }
    Ok((left, p))
}

fn conjunction(t: &Vec<Token>, pos: usize) -> (r: Result<(Box<Expression>, usize), QueryError>)
    requires
        pos <= t@.len(),
    ensures
        match p_conjunction(tokens_view(t@), pos as int) {
            Some((e, q)) => r matches Ok(x) && expr_view(*x.0) == e && x.1 == q,
            None => r matches Err(e) && e is ParseError,
        },
        r matches Ok(x) ==> pos < x.1 <= t@.len(),
    decreases t@.len() - pos, 4nat,
{
    let ghost tv = tokens_view(t@);
    let (mut left, mut p) = comparison(t, pos)?;
    while is_keyword(t, p, "and")
        invariant
            tv == tokens_view(t@),
            pos < p <= t@.len(),
            p_conjunction(tv, pos as int) == p_and_tail(tv, expr_view(*left), p as int),
        decreases t@.len() - p,
    {
        let (right, q) = comparison(t, p + 1)?;
        left = Box::new(Expression::LogicOp(left, LogicOperator::And, right));
        p = q;
    }
    Ok((left, p))
}

fn comparison(t: &Vec<Token>, pos: usize) -> (r: Result<(Box<Expression>, usize), QueryError>)
    requires
        pos <= t@.len(),
    ensures
        match p_comparison(tokens_view(t@), pos as int) {
            Some((e, q)) => r matches Ok(x) && expr_view(*x.0) == e && x.1 == q,
            None => r matches Err(e) && e is ParseError,
        },
        r matches Ok(x) ==> pos < x.1 <= t@.len(),
    decreases t@.len() - pos, 3nat,
{
    let (left, p) = sum(t, pos)?;
    if p >= t.len() {
        return Ok((left, p));
    }
    let cmp = match &t[p] {
        Token::Symbol(Symbol::Eq) => Comparator::Eq,
        Token::Symbol(Symbol::Neq) => Comparator::Neq,
        Token::Symbol(Symbol::Lt) => Comparator::Lt,
        Token::Symbol(Symbol::Lte) => Comparator::Lte,
        Token::Symbol(Symbol::Gt) => Comparator::Gt,
        Token::Symbol(Symbol::Gte) => Comparator::Gte,
        _ => {
            return Ok((left, p));
        },
    };
    let (right, q) = sum(t, p + 1)?;
    Ok((Box::new(Expression::Comp(left, cmp, right)), q))
}

fn sum(t: &Vec<Token>, pos: usize) -> (r: Result<(Box<Expression>, usize), QueryError>)
    requires
        pos <= t@.len(),
    ensures
        match p_sum(tokens_view(t@), pos as int) {
            Some((e, q)) => r matches Ok(x) && expr_view(*x.0) == e && x.1 == q,
            None => r matches Err(e) && e is ParseError,
        },
        r matches Ok(x) ==> pos < x.1 <= t@.len(),
    decreases t@.len() - pos, 2nat,
{
    let ghost tv = tokens_view(t@);
    let (mut left, mut p) = product(t, pos)?;
    loop
        invariant
            tv == tokens_view(t@),
            pos < p <= t@.len(),
            p_sum(tv, pos as int) == p_sum_tail(tv, expr_view(*left), p as int),
        ensures
            pos < p <= t@.len(),
            p_sum(tv, pos as int) == p_sum_tail(tv, expr_view(*left), p as int),
            add_op_at(tv, p as int) is None,
        decreases t@.len() - p,
    {
        let op = if is_symbol(t, p, Symbol::Plus) {
            Operator::Add
        } else if is_symbol(t, p, Symbol::Minus) {
            Operator::Subtract
        } else {
            break;
        };
        let (right, q) = product(t, p + 1)?;
        left = Box::new(Expression::Op(left, op, right));
        p = q;
    }
    Ok((left, p))
}

fn product(t: &Vec<Token>, pos: usize) -> (r: Result<(Box<Expression>, usize), QueryError>)
    requires
        pos <= t@.len(),
    ensures
        match p_product(tokens_view(t@), pos as int) {
            Some((e, q)) => r matches Ok(x) && expr_view(*x.0) == e && x.1 == q,
            None => r matches Err(e) && e is ParseError,
        },
        r matches Ok(x) ==> pos < x.1 <= t@.len(),
    decreases t@.len() - pos, 1nat,
{
    let ghost tv = tokens_view(t@);
    let (mut left, mut p) = primary(t, pos)?;
    loop
        invariant
            tv == tokens_view(t@),
            pos < p <= t@.len(),
            p_product(tv, pos as int) == p_product_tail(tv, expr_view(*left), p as int),
        ensures
            pos < p <= t@.len(),
            p_product(tv, pos as int) == p_product_tail(tv, expr_view(*left), p as int),
            mul_op_at(tv, p as int) is None,
        decreases t@.len() - p,
    {
        let op = if is_symbol(t, p, Symbol::Star) {
            Operator::Multiply
        } else if is_symbol(t, p, Symbol::Slash) {
            Operator::Divide
        } else {
            break;
        };
        let (right, q) = primary(t, p + 1)?;
        left = Box::new(Expression::Op(left, op, right));
        p = q;
    }
    Ok((left, p))
}

fn primary(t: &Vec<Token>, pos: usize) -> (r: Result<(Box<Expression>, usize), QueryError>)
    requires
        pos <= t@.len(),
    ensures
        match p_primary(tokens_view(t@), pos as int) {
            Some((e, q)) => r matches Ok(x) && expr_view(*x.0) == e && x.1 == q,
            None => r matches Err(e) && e is ParseError,
        },
        r matches Ok(x) ==> pos < x.1 <= t@.len(),
    decreases t@.len() - pos, 0nat,
{
    if pos >= t.len() {
        return Err(parse_error("Unexpected end of statement"));
    }
    match &t[pos] {
        Token::Int(i) => Ok((Box::new(Expression::Value(Value::Int(*i))), pos + 1)),
        Token::Decimal(m, k) => {
            if *k > MAX_SCALE {
                return Err(parse_error("Too many digits after the point"));
            }
            let power = power_of_ten(*k);
            assert(power == pow10(*k) as i32);
            let digits = Box::new(Expression::Value(Value::Int(*m)));
            let scale = Box::new(Expression::Value(Value::Int(power)));
            assert(expr_view(*digits) == ExprView::Value(ValueView::Int(*m)));
            assert(expr_view(*scale) == ExprView::Value(ValueView::Int(power)));
            let e = Box::new(Expression::Op(digits, Operator::Divide, scale));
            assert(tokens_view(t@)[pos as int] == TokenView::Decimal(*m, *k));
            assert(expr_view(*e) == ExprView::Op(
                Box::new(ExprView::Value(ValueView::Int(*m))),
                Operator::Divide,
                Box::new(ExprView::Value(ValueView::Int(pow10(*k) as i32))),
            ));
            Ok((e, pos + 1))
        },
        Token::Text(s) => Ok((Box::new(Expression::Value(Value::Str(s.clone()))), pos + 1)),
        Token::Word(w) => {
            let e = if same_word(w.as_str(), "true") {
                Expression::Value(Value::Bool(true))
            } else if same_word(w.as_str(), "false") {
                Expression::Value(Value::Bool(false))
            } else {
                Expression::Identifier(w.clone())
            };
            Ok((Box::new(e), pos + 1))
        },
        Token::Symbol(Symbol::LParen) => {
            assert(tokens_view(t@)[pos as int] == TokenView::Symbol(Symbol::LParen));
            let (inner, q) = expression(t, pos + 1)?;
            if !is_symbol(t, q, Symbol::RParen) {
                return Err(parse_error("Unexpected token: ) was expected"));
            }
            Ok((inner, q + 1))
        },
        Token::Symbol(Symbol::Minus) => {
            assert(tokens_view(t@)[pos as int] == TokenView::Symbol(Symbol::Minus));
            let (operand, q) = primary(t, pos + 1)?;
            let zero = Box::new(Expression::Value(Value::Int(0)));
            assert(expr_view(*zero) == ExprView::Value(ValueView::Int(0)));
            Ok((Box::new(Expression::Op(zero, Operator::Subtract, operand)), q))
        },
        _ => Err(parse_error("Unexpected token in expression")),
    }
}

fn column_type(t: &Vec<Token>, pos: usize) -> (r: Result<Type, QueryError>)
    ensures
        match type_at(tokens_view(t@), pos as int) {
            Some(ty) => r == Ok::<Type, QueryError>(ty),
            None => r matches Err(e) && e is ParseError,
        },
{
    let (name, _) = identifier(t, pos)?;
    let s = name.as_str();
    if same_word(s, "str") {
        Ok(Type::Str)
    } else if same_word(s, "bool") {
        Ok(Type::Bool)
    } else if same_word(s, "int") {
        Ok(Type::Int)
    } else if same_word(s, "float") {
        Ok(Type::Float)
    } else {
        Err(parse_error("Unknown column type"))
    }
}

fn column_list(t: &Vec<Token>, start: usize) -> (r: Result<(Vec<Column>, usize), QueryError>)
    requires
        start <= t@.len(),
    ensures
        match p_column_list(tokens_view(t@), start as int) {
            Some((cols, q)) => r matches Ok(x) && columns_view(x.0@) == cols && x.1 == q,
            None => r matches Err(e) && e is ParseError,
        },
        r matches Ok(x) ==> start < x.1 <= t@.len(),
{
    let ghost tv = tokens_view(t@);
    let n = t.len();
    let mut p = start;
    let mut columns: Vec<Column> = Vec::new();
    assert(columns_view(columns@) + Seq::<(Seq<char>, Type)>::empty() =~= Seq::<(Seq<char>, Type)>::empty());
    loop
        invariant
            tv == tokens_view(t@),
            n == t@.len(),
            start <= p <= t@.len(),
            p_column_list(tv, start as int) == with_prefix(columns_view(columns@), p_column_list(tv, p as int)),
        decreases t@.len() - p,
    {
        let (name, q) = identifier(t, p)?;
        let column_type = column_type(t, q)?;
        let ghost before = columns_view(columns@);
        let ghost item = (name@, column_type);
        columns.push(Column { name, column_type });
        assert(columns_view(columns@) =~= before.push(item));
        if is_symbol(t, q + 1, Symbol::Comma) {
            proof {
                match p_column_list(tv, p + 3) {
                    Some((rest, e)) => {
                        assert(before + (seq![item] + rest) =~= before.push(item) + rest);
                    },
                    None => {},
                }
            }
            p = q + 2;
        } else if is_symbol(t, q + 1, Symbol::RParen) {
            assert(before + seq![item] =~= before.push(item));
            return Ok((columns, q + 2));
        } else {
            return Err(parse_error("Unexpected token: , or ) was expected"));
        }
    }
}

fn names(t: &Vec<Token>, start: usize, star: bool) -> (r: Result<(Vec<String>, usize), QueryError>)
    requires
        start <= t@.len(),
    ensures
        match p_names(tokens_view(t@), start as int, star) {
            Some((ns, q)) => r matches Ok(x) && names_view(x.0@) == ns && x.1 == q,
            None => r matches Err(e) && e is ParseError,
        },
        r matches Ok(x) ==> start < x.1 <= t@.len(),
{
    let ghost tv = tokens_view(t@);
    let n = t.len();
    let mut p = start;
    let mut list: Vec<String> = Vec::new();
    assert(names_view(list@) + Seq::<Seq<char>>::empty() =~= Seq::<Seq<char>>::empty());
    loop
        invariant
            tv == tokens_view(t@),
            n == t@.len(),
            start <= p <= t@.len(),
            p_names(tv, start as int, star) == with_prefix(names_view(list@), p_names(tv, p as int, star)),
        decreases t@.len() - p,
    {
        let ghost before = names_view(list@);
        let item = if star && is_symbol(t, p, Symbol::Star) {
            "*".to_owned()
        } else {
            let (name, _) = identifier(t, p)?;
            name
        };
        let ghost iv = item@;
        list.push(item);
        assert(names_view(list@) =~= before.push(iv));
        if is_symbol(t, p + 1, Symbol::Comma) {
            proof {
                match p_names(tv, p + 2, star) {
                    Some((rest, e)) => {
                        assert(before + (seq![iv] + rest) =~= before.push(iv) + rest);
                    },
                    None => {},
                }
            }
            p = p + 2;
        } else {
            assert(before + seq![iv] =~= before.push(iv));
            return Ok((list, p + 1));
        }
    }
}

fn expression_list(t: &Vec<Token>, start: usize) -> (r: Result<(Vec<Box<Expression>>, usize), QueryError>)
    requires
        start <= t@.len(),
    ensures
        match p_expression_list(tokens_view(t@), start as int) {
            Some((es, q)) => r matches Ok(x) && exprs_view(x.0@) == es && x.1 == q,
            None => r matches Err(e) && e is ParseError,
        },
        r matches Ok(x) ==> start < x.1 <= t@.len(),
{
    let ghost tv = tokens_view(t@);
    let mut p = start;
    let mut list: Vec<Box<Expression>> = Vec::new();
    assert(exprs_view(list@) + Seq::<ExprView>::empty() =~= Seq::<ExprView>::empty());
    loop
        invariant
            tv == tokens_view(t@),
            start <= p <= t@.len(),
            p_expression_list(tv, start as int) == with_prefix(exprs_view(list@), p_expression_list(tv, p as int)),
        decreases t@.len() - p,
    {
        let (e, q) = expression(t, p)?;
        let ghost before = exprs_view(list@);
        let ghost ev = expr_view(*e);
        list.push(e);
        assert(exprs_view(list@) =~= before.push(ev));
        if is_symbol(t, q, Symbol::Comma) {
            proof {
                match p_expression_list(tv, q + 1) {
                    Some((rest, f)) => {
                        assert(before + (seq![ev] + rest) =~= before.push(ev) + rest);
                    },
                    None => {},
                }
            }
            p = q + 1;
        } else if is_symbol(t, q, Symbol::RParen) {
            assert(before + seq![ev] =~= before.push(ev));
            return Ok((list, q + 1));
        } else {
            return Err(parse_error("Unexpected token: , or ) was expected"));
        }
    }
}

#[verifier::rlimit(80)]
fn statement(t: &Vec<Token>) -> (r: Result<(Query, usize), QueryError>)
    ensures
        match p_statement_prefix(tokens_view(t@)) {
            Some((qv, end)) => r matches Ok(x) && query_view(x.0) == qv && x.1 == end,
            None => r matches Err(e) && e is ParseError,
        },
{
    if is_keyword(t, 0, "create") {
        if !(is_keyword(t, 1, "table") && is_symbol(t, 3, Symbol::LParen)) {
            return Err(parse_error("Expected CREATE TABLE name ("));
        }
        let (table, _) = identifier(t, 2)?;
        let (columns, p) = column_list(t, 4)?;
        Ok((Query::CreateTable(CreateTableQuery { table, columns }), p))
    } else if is_keyword(t, 0, "drop") {
        if !is_keyword(t, 1, "table") {
            return Err(parse_error("Expected DROP TABLE"));
        }
        let (table, p) = identifier(t, 2)?;
        Ok((Query::DropTable(DropTableQuery { table }), p))
    } else if is_keyword(t, 0, "insert") {
        if !(is_keyword(t, 1, "into") && is_symbol(t, 3, Symbol::LParen)) {
            return Err(parse_error("Expected INSERT INTO name ("));
        }
        let (table, _) = identifier(t, 2)?;
        let (columns, p) = names(t, 4, false)?;
        if !(is_symbol(t, p, Symbol::RParen) && is_keyword(t, p + 1, "values") && is_symbol(
            t,
            p + 2,
            Symbol::LParen,
        )) {
            return Err(parse_error("Expected ) VALUES ("));
        }
        let (values, q) = expression_list(t, p + 3)?;
        Ok((Query::Insert(InsertQuery { table, columns, values }), q))
    } else if is_keyword(t, 0, "select") {
        let (columns, p) = names(t, 1, true)?;
        if !is_keyword(t, p, "from") {
            return Err(parse_error("Expected FROM"));
        }
        let (table, q) = identifier(t, p + 1)?;
        if is_keyword(t, q, "where") {
            let (condition, e) = expression(t, q + 1)?;
            Ok((Query::Select(SelectQuery { table, columns, condition: Some(condition) }), e))
        } else {
            Ok((Query::Select(SelectQuery { table, columns, condition: None }), q))
        }
    } else {
        Err(parse_error("Expected CREATE, DROP, INSERT or SELECT"))
    }
}

/// Reads one statement: the query exactly when `parsed` gives one, else a
/// parse error.
pub fn parse_query(input: &str) -> (r: Result<Query, QueryError>)
    ensures
        match parsed(input.spec_bytes()) {
            Some(qv) => r matches Ok(q) && query_view(q) == qv,
            None => r matches Err(e) && e is ParseError,
        },
{
    let tokens = tokenize(input)?;
    let (query, end) = statement(&tokens)?;
    if end != tokens.len() {
        return Err(parse_error("Unexpected tokens after the statement"));
    }
    Ok(query)
}

} // verus!
