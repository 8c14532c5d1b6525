use vstd::prelude::*;
use arrow::datatypes::{ArrowPrimitiveType, Float64Type};
use arrow_cast::parse::Parser;
use crate::batch::{
    field_index, find_field, lemma_selected, model_wf, selected, selected_positions, take_model,
    Batch, BatchModel,
};
use crate::frame::{batches_model, frame_rows, lemma_rows_push, DataFrame};
use crate::select::prepend;
use crate::text::{chars_of, string_from_chars};
use crate::types::{DataType, FrameError, Value};

verus! {

/// The 64-bit float that a query literal spells, as Rust's `str::parse`
/// reads it, given as bits; `None` where it reads none.
pub uninterp spec fn float_literal(s: Seq<char>) -> Option<u64>;

/// The bits of the 64-bit float that a text spells, as the columnar
/// string-to-float parser reads it; `None` where it reads none.
pub uninterp spec fn float_parse(s: Seq<char>) -> Option<u64>;

/// Relies on `str::parse` for the native type of `Float64Type` (the 64-bit
/// float): the float a text spells, returned as its bits.
#[verifier::external_body]
fn parse_float_literal(s: &str) -> (r: Option<u64>)
    ensures
        r == float_literal(s@),
{
    s.parse::<<Float64Type as ArrowPrimitiveType>::Native>().ok().map(|x| x.to_bits())
}

/// A Unicode White_Space character, as `char::is_whitespace` reads it.
pub open spec fn is_ws(c: char) -> bool {
    ('\u{9}' <= c && c <= '\u{d}') || c == ' ' || c == '\u{85}' || c == '\u{a0}' || c == '\u{1680}'
        || ('\u{2000}' <= c && c <= '\u{200a}') || c == '\u{2028}' || c == '\u{2029}' || c == '\u{202f}'
        || c == '\u{205f}' || c == '\u{3000}'
}

/// The maximal runs of non-whitespace characters of a text, in order.
pub open spec fn tokens(s: Seq<char>) -> Seq<Seq<char>>
    decreases s.len(),
{
    if s.len() == 0 {
        Seq::empty()
    } else {
        let p = tokens(s.drop_last());
        let c = s.last();
        if is_ws(c) {
            p
        } else if s.len() >= 2 && !is_ws(s[s.len() - 2]) {
            p.update(p.len() - 1, p.last().push(c))
        } else {
            p.push(seq![c])
        }
    }
}

proof fn lemma_tokens_nonempty(s: Seq<char>)
    requires
        s.len() > 0,
        !is_ws(s.last()),
    ensures
        tokens(s).len() > 0,
    decreases s.len(),
{
    if s.len() >= 2 && !is_ws(s[s.len() - 2]) {
        assert(s.drop_last().last() == s[s.len() - 2]);
        lemma_tokens_nonempty(s.drop_last());
    }
}

fn char_is_ws(c: char) -> (r: bool)
    ensures
        r == is_ws(c),
{
    ('\u{9}' <= c && c <= '\u{d}') || c == ' ' || c == '\u{85}' || c == '\u{a0}' || c == '\u{1680}'
        || ('\u{2000}' <= c && c <= '\u{200a}') || c == '\u{2028}' || c == '\u{2029}' || c == '\u{202f}'
        || c == '\u{205f}' || c == '\u{3000}'
}

/// Splits a text into its whitespace-separated tokens.
pub fn tokenize(cs: &Vec<char>) -> (r: Vec<Vec<char>>)
    ensures
        r@.map_values(|t: Vec<char>| t@) == tokens(cs@),
{
    let mut r: Vec<Vec<char>> = Vec::new();
    let mut i: usize = 0;
    proof {
        assert(cs@.subrange(0, 0) =~= Seq::<char>::empty());
        assert(r@.map_values(|t: Vec<char>| t@) =~= Seq::<Seq<char>>::empty());
    }
    while i < cs.len()
        invariant
            i <= cs@.len(),
            r@.map_values(|t: Vec<char>| t@) == tokens(cs@.subrange(0, i as int)),
        decreases cs@.len() - i,
    {
        let ghost pre = cs@.subrange(0, i as int);
        let ghost cur = cs@.subrange(0, i + 1);
        let ghost before = r@.map_values(|t: Vec<char>| t@);
        proof {
            assert(cur.drop_last() =~= pre);
            assert(cur.last() == cs@[i as int]);
            if i > 0 {
                assert(cur[cur.len() - 2] == cs@[i - 1]);
                assert(pre.last() == cs@[i - 1]);
            }
        }
        let c = cs[i];
        if char_is_ws(c) {
        } else if i > 0 && !char_is_ws(cs[i - 1]) {
            proof {
                lemma_tokens_nonempty(pre);
            }
            let last = r.len() - 1;
            let mut t = r.remove(last);
            t.push(c);
            r.push(t);
            proof {
                assert(r@.map_values(|t: Vec<char>| t@) =~= before.update(before.len() - 1, before.last().push(c)));
            }
        } else {
            let mut t: Vec<char> = Vec::new();
            t.push(c);
            assert(t@ =~= seq![c]);
            r.push(t);
            proof {
                assert(r@.map_values(|t: Vec<char>| t@) =~= before.push(seq![c]));
            }
        }
        i = i + 1;
    }
    assert(cs@.subrange(0, i as int) =~= cs@);
    r
}

/// Relies on arrow_cast's `Parser` for `Float64Type`: the float a text spells,
/// returned as its bits.
#[verifier::external_body]
fn parse_float_bits(s: &str) -> (r: Option<u64>)
    ensures
        r == float_parse(s@),
{
    Float64Type::parse(s).map(|x| x.to_bits())
}

/// The bits of the float a text spells, as the columnar parser reads it.
pub(crate) fn parse_float_text(s: &str) -> (r: Option<u64>)
    ensures
        r == float_parse(s@),
{
    parse_float_bits(s)
}

/// A comparison operator of a query.
#[derive(Clone, Copy, Debug, PartialEq, Eq, Structural)]
pub enum CmpOp {
    Lt,
    Gt,
    Le,
    Ge,
    Eq,
    Ne,
}

/// The operator a token spells.
pub open spec fn op_of(t: Seq<char>) -> Option<CmpOp> {
    if t == seq!['<'] {
        Some(CmpOp::Lt)
    } else if t == seq!['>'] {
        Some(CmpOp::Gt)
    } else if t == seq!['<', '='] {
        Some(CmpOp::Le)
    } else if t == seq!['>', '='] {
        Some(CmpOp::Ge)
    } else if t == seq!['=', '='] {
        Some(CmpOp::Eq)
    } else if t == seq!['!', '='] {
        Some(CmpOp::Ne)
    } else {
        None
    }
}

/// How `a` compares with `b` under `op`, for totally ordered values.
pub open spec fn int_cmp(op: CmpOp, a: int, b: int) -> bool {
    match op {
        CmpOp::Lt => a < b,
        CmpOp::Gt => a > b,
        CmpOp::Le => a <= b,
        CmpOp::Ge => a >= b,
        CmpOp::Eq => a == b,
        CmpOp::Ne => a != b,
    }
}

/// Whether float bits spell a NaN: all exponent bits set and a nonzero fraction.
pub open spec fn is_nan(b: u64) -> bool {
    b % 0x8000_0000_0000_0000u64 > 0x7FF0_0000_0000_0000u64
}

/// The IEEE-754 order of non-NaN floats, read from the bits: sign and magnitude,
/// with both zeros equal.
pub open spec fn float_value_key(b: u64) -> int {
    if b < 0x8000_0000_0000_0000u64 {
        b as int
    } else {
        -((b - 0x8000_0000_0000_0000u64) as int)
    }
}

/// IEEE-754 comparison: every comparison with a NaN is false but `!=`.
pub open spec fn float_cmp(op: CmpOp, a: u64, b: u64) -> bool {
    if is_nan(a) || is_nan(b) {
        op == CmpOp::Ne
    } else {
        int_cmp(op, float_value_key(a), float_value_key(b))
    }
}

/// The value of a sequence of ASCII digits.
pub open spec fn digits_value(s: Seq<char>) -> int
    decreases s.len(),
{
    if s.len() == 0 {
        0
    } else {
        digits_value(s.drop_last()) * 10 + (s.last() as int - '0' as int)
    }
}

/// An ASCII decimal digit.
pub open spec fn is_digit(c: char) -> bool {
    '0' <= c && c <= '9'
}

/// The text after an optional leading sign.
pub open spec fn unsigned_part(s: Seq<char>) -> Seq<char> {
    if s.len() > 0 && (s[0] == '-' || s[0] == '+') {
        s.drop_first()
    } else {
        s
    }
}

/// Every character is an ASCII decimal digit.
pub open spec fn all_digits(s: Seq<char>) -> bool {
    forall|i: int| 0 <= i < s.len() ==> is_digit(#[trigger] s[i])
}

/// The 64-bit integer a text spells: an optional sign, then one or more ASCII
/// digits, the value in range.
pub open spec fn parse_int(s: Seq<char>) -> Option<int> {
    let body = unsigned_part(s);
    let v = if s.len() > 0 && s[0] == '-' { -digits_value(body) } else { digits_value(body) };
    if body.len() == 0 || !all_digits(body) {
        None
    } else if v < i64::MIN || v > i64::MAX {
        None
    } else {
        Some(v)
    }
}

proof fn lemma_digits_grow(s: Seq<char>, k: int)
    requires
        0 <= k <= s.len(),
        forall|i: int| 0 <= i < s.len() ==> is_digit(#[trigger] s[i]),
    ensures
        digits_value(s) >= digits_value(s.subrange(0, k)),
        digits_value(s.subrange(0, k)) >= 0,
    decreases s.len() - k,
{
    if k < s.len() {
        lemma_digits_grow(s, k + 1);
        assert(s.subrange(0, k + 1).drop_last() =~= s.subrange(0, k));
        assert(is_digit(s[k]));
        assert(digits_value(s.subrange(0, k + 1)) >= digits_value(s.subrange(0, k)) * 10);
    } else {
        assert(s.subrange(0, k) =~= s);
        lemma_digits_nonneg(s);
    }
}

proof fn lemma_digits_nonneg(s: Seq<char>)
    requires
        forall|i: int| 0 <= i < s.len() ==> is_digit(#[trigger] s[i]),
    ensures
        digits_value(s) >= 0,
    decreases s.len(),
{
    if s.len() > 0 {
        let p = s.drop_last();
        assert forall|i: int| 0 <= i < p.len() implies is_digit(#[trigger] p[i]) by {
            assert(p[i] == s[i]);
        }
        lemma_digits_nonneg(p);
        assert(is_digit(s[s.len() - 1]));
    }
}

/// Parses a 64-bit integer as `str::parse::<i64>` does.
pub fn parse_i64(cs: &Vec<char>) -> (r: Option<i64>)
    ensures
        match r {
            Some(v) => parse_int(cs@) == Some(v as int),
            None => parse_int(cs@) is None,
        },
{
    let ghost s = cs@;
    let n = cs.len();
    let neg = n > 0 && cs[0] == '-';
    let start: usize = if n > 0 && (cs[0] == '-' || cs[0] == '+') { 1 } else { 0 };
    let ghost body = unsigned_part(s);
    assert(body =~= s.subrange(start as int, n as int));
    if start >= n {
        return None;
    }
    let mut acc: i128 = 0;
    let mut i: usize = start;
    while i < n
        invariant
            start <= i <= n,
            n == cs@.len(),
            start < n,
            body == cs@.subrange(start as int, n as int),
            body == unsigned_part(cs@),
            neg == (cs@.len() > 0 && cs@[0] == '-'),
            forall|q: int| start <= q < i ==> is_digit(#[trigger] cs@[q]),
            acc == digits_value(cs@.subrange(start as int, i as int)),
            0 <= acc <= 0x8000_0000_0000_0000i128,
        decreases n - i,
    {
        let c = cs[i];
        if !('0' <= c && c <= '9') {
            assert(!is_digit(body[i - start]));
            assert(!all_digits(body));
            assert(parse_int(cs@) is None);
            return None;
        }
        let d = (c as u32 - '0' as u32) as i128;
        proof {
            assert(cs@.subrange(start as int, i + 1).drop_last() =~= cs@.subrange(start as int, i as int));
        }
        acc = acc * 10 + d;
        assert(acc == digits_value(cs@.subrange(start as int, i + 1)));
        if acc > 0x8000_0000_0000_0000i128 {
            proof {
                let sub = cs@.subrange(start as int, i + 1);
                if all_digits(body) {
                    assert(body.subrange(0, i + 1 - start) =~= sub);
                    lemma_digits_grow(body, i + 1 - start);
                    assert(digits_value(body) > 0x8000_0000_0000_0000i128);
                }
                assert(parse_int(cs@) is None);
            }
            return None;
        }
        i = i + 1;
    }
    proof {
        assert(cs@.subrange(start as int, i as int) =~= body);
        assert forall|q: int| 0 <= q < body.len() implies is_digit(#[trigger] body[q]) by {
            assert(body[q] == cs@[start + q]);
        }
    }
    if neg {
        Some((0 - acc) as i64)
    } else if acc > 0x7FFF_FFFF_FFFF_FFFFi128 {
        None
    } else {
        Some(acc as i64)
    }
}

fn op_from(cs: &Vec<char>) -> (r: Option<CmpOp>)
    ensures
        r == op_of(cs@),
{
    let n = cs.len();
    if n == 1 && cs[0] == '<' {
        assert(cs@ =~= seq!['<']);
        Some(CmpOp::Lt)
    } else if n == 1 && cs[0] == '>' {
        assert(cs@ =~= seq!['>']);
        Some(CmpOp::Gt)
    } else if n == 2 && cs[0] == '<' && cs[1] == '=' {
        assert(cs@ =~= seq!['<', '=']);
        Some(CmpOp::Le)
    } else if n == 2 && cs[0] == '>' && cs[1] == '=' {
        assert(cs@ =~= seq!['>', '=']);
        Some(CmpOp::Ge)
    } else if n == 2 && cs[0] == '=' && cs[1] == '=' {
        assert(cs@ =~= seq!['=', '=']);
        Some(CmpOp::Eq)
    } else if n == 2 && cs[0] == '!' && cs[1] == '=' {
        assert(cs@ =~= seq!['!', '=']);
        Some(CmpOp::Ne)
    } else {
        proof {
            if n == 1 {
                assert(cs@ != seq!['<', '=']);
                assert(cs@ != seq!['>', '=']);
                assert(cs@ != seq!['=', '=']);
                assert(cs@ != seq!['!', '=']);
                assert(cs@ != seq!['<']) by { if cs@ == seq!['<'] { assert(cs@[0] == '<'); } }
                assert(cs@ != seq!['>']) by { if cs@ == seq!['>'] { assert(cs@[0] == '>'); } }
            } else if n == 2 {
                assert(cs@ != seq!['<']);
                assert(cs@ != seq!['>']);
                assert(cs@ != seq!['<', '=']) by { if cs@ == seq!['<', '='] { assert(cs@[0] == '<' && cs@[1] == '='); } }
                assert(cs@ != seq!['>', '=']) by { if cs@ == seq!['>', '='] { assert(cs@[0] == '>' && cs@[1] == '='); } }
                assert(cs@ != seq!['=', '=']) by { if cs@ == seq!['=', '='] { assert(cs@[0] == '=' && cs@[1] == '='); } }
                assert(cs@ != seq!['!', '=']) by { if cs@ == seq!['!', '='] { assert(cs@[0] == '!' && cs@[1] == '='); } }
            } else {
                assert(cs@.len() != 1 && cs@.len() != 2);
            }
        }
        None
    }
}

/// A row predicate of a query, on one column.
pub enum Pred {
    Int(CmpOp, int),
    Float(CmpOp, u64),
    Text(bool, Seq<char>),
}

/// Whether a cell satisfies the predicate; null and cells of another type never do.
pub open spec fn cell_matches(p: Pred, v: Value) -> bool {
    match (p, v) {
        (Pred::Int(op, x), Value::Int64(a)) => int_cmp(op, a as int, x),
        (Pred::Float(op, x), Value::Float64(a)) => float_cmp(op, a, x),
        (Pred::Text(eq, x), Value::Utf8(a)) => if eq { a@ == x } else { a@ != x },
        _ => false,
    }
}

/// The predicate that the operator and literal tokens give on a column of
/// type `t`, or the error they raise.
pub open spec fn pred_for(t: DataType, op: Seq<char>, lit: Seq<char>) -> Result<Pred, FrameError> {
    match t {
        DataType::Int64 => match parse_int(lit) {
            None => Err(FrameError::InvalidLiteral),
            Some(x) => match op_of(op) {
                None => Err(FrameError::UnsupportedOperator),
                Some(o) => Ok(Pred::Int(o, x)),
            },
        },
        DataType::Float64 => match float_literal(lit) {
            None => Err(FrameError::InvalidLiteral),
            Some(x) => match op_of(op) {
                None => Err(FrameError::UnsupportedOperator),
                Some(o) => Ok(Pred::Float(o, x)),
            },
        },
        DataType::Utf8 => match op_of(op) {
            Some(CmpOp::Eq) => Ok(Pred::Text(true, lit)),
            Some(CmpOp::Ne) => Ok(Pred::Text(false, lit)),
            _ => Err(FrameError::UnsupportedOperator),
        },
        _ => Err(FrameError::UnsupportedColumnType),
    }
}

/// The rows of one batch that satisfy `name op lit`.
pub open spec fn query_batch_model(b: BatchModel, name: Seq<char>, op: Seq<char>, lit: Seq<char>) -> Result<BatchModel, FrameError> {
    match field_index(b.fields, name) {
        None => Err(FrameError::UnknownColumn),
        Some(c) => match pred_for(b.fields[c].dtype, op, lit) {
            Err(e) => Err(e),
            Ok(p) => Ok(take_model(b, selected(b.columns[c].map_values(|v: Value| cell_matches(p, v))))),
        },
    }
}

/// A query over a table: each batch filtered in order, empty results dropped,
/// the first batch that fails decides the error.
pub open spec fn query_tables(bs: Seq<BatchModel>, name: Seq<char>, op: Seq<char>, lit: Seq<char>) -> Result<Seq<BatchModel>, FrameError>
    decreases bs.len(),
{
    if bs.len() == 0 {
        Ok(Seq::empty())
    } else {
        match query_batch_model(bs[0], name, op, lit) {
            Err(e) => Err(e),
            Ok(k) => {
                let rest = query_tables(bs.drop_first(), name, op, lit);
                if k.rows > 0 {
                    prepend(seq![k], rest)
                } else {
                    rest
                }
            },
        }
    }
}

/// The query `"<column> <operator> <literal>"` over a table.
pub open spec fn query_model(bs: Seq<BatchModel>, expr: Seq<char>) -> Result<Seq<BatchModel>, FrameError> {
    let t = tokens(expr);
    if t.len() != 3 {
        Err(FrameError::MalformedExpression)
    } else {
        query_tables(bs, t[0], t[1], t[2])
    }
}

enum ExecPred {
    Int(CmpOp, i64),
    Float(CmpOp, u64),
    Text(bool, String),
}

impl ExecPred {
    spec fn model(&self) -> Pred {
        match self {
            ExecPred::Int(o, x) => Pred::Int(*o, *x as int),
            ExecPred::Float(o, x) => Pred::Float(*o, *x),
            ExecPred::Text(e, x) => Pred::Text(*e, x@),
        }
    }
}

fn compare_int(op: CmpOp, a: i128, b: i128) -> (r: bool)
    ensures
        r == int_cmp(op, a as int, b as int),
{
    match op {
        CmpOp::Lt => a < b,
        CmpOp::Gt => a > b,
        CmpOp::Le => a <= b,
        CmpOp::Ge => a >= b,
        CmpOp::Eq => a == b,
        CmpOp::Ne => a != b,
    }
}

fn float_key_of(b: u64) -> (r: i128)
    ensures
        r as int == float_value_key(b),
{
    if b < 0x8000_0000_0000_0000u64 {
        b as i128
    } else {
        0 - ((b - 0x8000_0000_0000_0000u64) as i128)
    }
}

fn matches_cell(p: &ExecPred, v: &Value) -> (r: bool)
    ensures
        r == cell_matches(p.model(), *v),
{
    match (p, v) {
        (ExecPred::Int(op, x), Value::Int64(a)) => compare_int(*op, *a as i128, *x as i128),
        (ExecPred::Float(op, x), Value::Float64(a)) => {
            if *a % 0x8000_0000_0000_0000u64 > 0x7FF0_0000_0000_0000u64 || *x % 0x8000_0000_0000_0000u64
                > 0x7FF0_0000_0000_0000u64 {
                match op {
                    CmpOp::Ne => true,
                    _ => false,
                }
            } else {
                compare_int(*op, float_key_of(*a), float_key_of(*x))
            }
        },
        (ExecPred::Text(eq, x), Value::Utf8(a)) => {
            if *eq {
                *a == *x
            } else {
                !(*a == *x)
            }
        },
        _ => false,
    }
}

fn pred_from(t: DataType, op: &Vec<char>, lit: &str) -> (r: Result<ExecPred, FrameError>)
    ensures
        match r {
            Ok(p) => pred_for(t, op@, lit@) == Ok::<Pred, FrameError>(p.model()),
            Err(e) => pred_for(t, op@, lit@) == Err::<Pred, FrameError>(e),
        },
{
    match t {
        DataType::Int64 => {
            let x = match parse_i64(&chars_of(lit)) {
                Some(x) => x,
                None => {
                    return Err(FrameError::InvalidLiteral);
                },
            };
            match op_from(op) {
                Some(o) => Ok(ExecPred::Int(o, x)),
                None => Err(FrameError::UnsupportedOperator),
            }
        },
        DataType::Float64 => {
            let x = match parse_float_literal(lit) {
                Some(x) => x,
                None => {
                    return Err(FrameError::InvalidLiteral);
                },
            };
            match op_from(op) {
                Some(o) => Ok(ExecPred::Float(o, x)),
                None => Err(FrameError::UnsupportedOperator),
            }
        },
        DataType::Utf8 => match op_from(op) {
            Some(CmpOp::Eq) => Ok(ExecPred::Text(true, lit.to_owned())),
            Some(CmpOp::Ne) => Ok(ExecPred::Text(false, lit.to_owned())),
            _ => Err(FrameError::UnsupportedOperator),
        },
        _ => Err(FrameError::UnsupportedColumnType),
    }
}

fn query_batch(b: &Batch, name: &str, op: &Vec<char>, lit: &str) -> (r: Result<Batch, FrameError>)
    requires
        b.wf(),
    ensures
        match r {
            Ok(k) => k.wf() && query_batch_model(b.model(), name@, op@, lit@) == Ok::<BatchModel, FrameError>(k.model())
                && k.num_rows <= b.num_rows,
            Err(e) => query_batch_model(b.model(), name@, op@, lit@) == Err::<BatchModel, FrameError>(e),
        },
{
    let ghost m = b.model();
    let c = match find_field(&b.fields, name) {
        Some(c) => c,
        None => {
            return Err(FrameError::UnknownColumn);
        },
    };
    let p = match pred_from(b.fields[c].dtype, op, lit) {
        Ok(p) => p,
        Err(e) => {
            return Err(e);
        },
    };
    let col = &b.columns[c];
    proof {
        assert(m.columns[c as int] == col@);
        assert(m.columns[c as int].len() == m.rows);
    }
    let mut mask: Vec<bool> = Vec::new();
    let mut i: usize = 0;
    while i < col.len()
        invariant
            i <= col@.len(),
            mask@ =~= col@.map_values(|v: Value| cell_matches(p.model(), v)).subrange(0, i as int),
        decreases col@.len() - i,
    {
        mask.push(matches_cell(&p, &col[i]));
        i = i + 1;
    }
    assert(mask@ =~= col@.map_values(|v: Value| cell_matches(p.model(), v)));
    let keep = selected_positions(&mask);
    proof {
        lemma_selected(mask@);
    }
    Ok(b.take(&keep))
}

impl DataFrame {
    /// The rows that satisfy a query `"<column> <operator> <literal>"`
    /// (operators `<`, `>`, `<=`, `>=`, `==`, `!=`; only `==` and `!=` on text
    /// columns), in their original order; batches left empty are dropped.
    pub fn query(&self, expression: &str) -> (r: Result<DataFrame, FrameError>)
        requires
            self.wf(),
        ensures
            match r {
                Ok(d) => d.wf() && query_model(self.view(), expression@) == Ok::<Seq<BatchModel>, FrameError>(d.view()),
                Err(e) => query_model(self.view(), expression@) == Err::<Seq<BatchModel>, FrameError>(e),
            },
    {
        let parts = tokenize(&chars_of(expression));
        proof {
            assert(parts@.map_values(|t: Vec<char>| t@).len() == parts@.len());
        }
        if parts.len() != 3 {
            return Err(FrameError::MalformedExpression);
        }
        let name_s = string_from_chars(&parts[0]);
        let name = name_s.as_str();
        let op = &parts[1];
        let lit_s = string_from_chars(&parts[2]);
        let lit = lit_s.as_str();
        let ghost toks = tokens(expression@);
        proof {
            assert(toks[0] == parts@[0]@);
            assert(toks[1] == parts@[1]@);
            assert(toks[2] == parts@[2]@);
        }
        let ghost v = self.view();
        let mut out: Vec<Batch> = Vec::new();
        let mut i: usize = 0;
        proof {
            assert(v.subrange(0, v.len() as int) =~= v);
            assert(batches_model(out@) + v =~= v);
        }
        while i < self.batches.len()
            invariant
                self.wf(),
                v == self.view(),
                v.len() == self.batches@.len(),
                i <= self.batches.len(),
                toks == tokens(expression@),
                toks.len() == 3,
                toks[0] == name@,
                toks[1] == op@,
                toks[2] == lit@,
                forall|j: int| 0 <= j < out@.len() ==> (#[trigger] out@[j]).wf(),
                frame_rows(batches_model(out@)) <= frame_rows(v.subrange(0, i as int)),
                query_tables(v, name@, op@, lit@) == prepend(
                    batches_model(out@),
                    query_tables(v.subrange(i as int, v.len() as int), name@, op@, lit@),
                ),
            decreases self.batches.len() - i,
        {
            let ghost rest = v.subrange(i as int, v.len() as int);
            proof {
                assert(rest.drop_first() =~= v.subrange(i + 1, v.len() as int));
                assert(rest[0] == v[i as int]);
                assert(v[i as int] == self.batches@[i as int].model());
                assert(model_wf(v[i as int]));
                assert(v.subrange(0, i + 1) =~= v.subrange(0, i as int).push(v[i as int]));
                lemma_rows_push(v.subrange(0, i as int), v[i as int]);
            }
            let k = match query_batch(&self.batches[i], name, op, lit) {
                Ok(k) => k,
                Err(e) => {
                    return Err(e);
                },
            };
            if k.num_rows > 0 {
                let ghost before = out@;
                out.push(k);
                proof {
                    assert(batches_model(out@) =~= batches_model(before).push(k.model()));
                    lemma_rows_push(batches_model(before), k.model());
                    assert(batches_model(before) + (seq![k.model()] + query_tables(rest.drop_first(), name@, op@, lit@)->Ok_0)
                        =~= batches_model(out@) + query_tables(rest.drop_first(), name@, op@, lit@)->Ok_0);
                    assert forall|j: int| 0 <= j < out@.len() implies (#[trigger] out@[j]).wf() by {
                        if j < before.len() {
                            assert(out@[j] == before[j]);
                        }
                    }
                }
            }
            i = i + 1;
        }
        proof {
            assert(v.subrange(i as int, v.len() as int) =~= Seq::<BatchModel>::empty());
            assert(batches_model(out@) + Seq::<BatchModel>::empty() =~= batches_model(out@));
            assert(v.subrange(0, i as int) =~= v);
        }
        let d = DataFrame { batches: out };
        assert forall|j: int| 0 <= j < d.view().len() implies model_wf(#[trigger] d.view()[j]) by {
            assert(d.batches@[j].wf());
        }
        Ok(d)
    }
}

} // verus!
