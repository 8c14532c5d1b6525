use vstd::prelude::*;
use arrow::array::{Float64Array, TimestampMillisecondArray};
use arrow::array::cast::AsArray;
use arrow::buffer::{Buffer, ScalarBuffer};
use arrow::datatypes::DataType as ArrowType;
use crate::types::{DataType, FrameError, Value};

verus! {

/// The character of a decimal digit.
pub open spec fn digit_char(d: nat) -> char {
    if d == 0 { '0' } else if d == 1 { '1' } else if d == 2 { '2' } else if d == 3 { '3' }
    else if d == 4 { '4' } else if d == 5 { '5' } else if d == 6 { '6' } else if d == 7 { '7' }
    else if d == 8 { '8' } else { '9' }
}

/// The decimal digits of a natural number, most significant first.
pub open spec fn digits(n: nat) -> Seq<char>
    decreases n,
{
    if n < 10 {
        seq![digit_char(n)]
    } else {
        digits(n / 10).push(digit_char(n % 10))
    }
}

/// The decimal text of an integer, with a leading `-` when negative.
pub open spec fn int_text(i: int) -> Seq<char> {
    if i < 0 {
        seq!['-'] + digits((-i) as nat)
    } else {
        digits(i as nat)
    }
}

/// The text of a boolean.
pub open spec fn bool_text(b: bool) -> Seq<char> {
    if b {
        seq!['t', 'r', 'u', 'e']
    } else {
        seq!['f', 'a', 'l', 's', 'e']
    }
}

/// The text that the columnar cast to UTF-8 gives a 64-bit float with these bits.
pub uninterp spec fn float_text(bits: u64) -> Seq<char>;

/// The text that the columnar cast to UTF-8 gives a millisecond timestamp; `None`
/// where the timestamp has no calendar form.
pub uninterp spec fn timestamp_text(ms: i64) -> Option<Seq<char>>;

/// The error of a failed cast to text. Only a timestamp can fail it: one that
/// has no calendar form.
pub open spec fn text_cast_error() -> FrameError {
    FrameError::CastError { from: DataType::TimestampMillis, to: DataType::Utf8 }
}

/// Whether casting the cell to text fails.
pub open spec fn cast_fails(v: Value) -> bool {
    match v {
        Value::TimestampMillis(t) => timestamp_text(t) is None,
        _ => false,
    }
}

/// The text of a cell, `None` for null (and for a cell whose cast fails).
pub open spec fn text_of(v: Value) -> Option<Seq<char>> {
    match v {
        Value::Null => None,
        Value::Int64(i) => Some(int_text(i as int)),
        Value::Float64(b) => Some(float_text(b)),
        Value::Utf8(s) => Some(s@),
        Value::Boolean(b) => Some(bool_text(b)),
        Value::TimestampMillis(t) => timestamp_text(t),
    }
}

/// Every cell of the column can be cast to text.
pub open spec fn castable(col: Seq<Value>) -> bool {
    forall|i: int| 0 <= i < col.len() ==> !cast_fails(#[trigger] col[i])
}

/// Relies on `arrow_cast::cast` from Float64 to Utf8, which formats the float.
#[verifier::external_body]
fn float_to_text(bits: u64) -> (r: String)
    ensures
        r@ == float_text(bits),
{
    let a = Float64Array::new(ScalarBuffer::new(Buffer::from_vec(vec![bits]), 0, 1), None);
    let c = arrow_cast::cast(&a, &ArrowType::Utf8).expect("a cast from Float64 to Utf8 always succeeds");
    c.as_string::<i32>().value(0).to_string()
}

/// Relies on `arrow_cast::cast` from Timestamp(Millisecond) to Utf8, which formats
/// the timestamp as a calendar date and time, and fails where it has none.
#[verifier::external_body]
fn timestamp_to_text(ms: i64) -> (r: Option<String>)
    ensures
        r matches Some(s) ==> timestamp_text(ms) == Some(s@),
        r is None ==> timestamp_text(ms) is None,
{
    let a = TimestampMillisecondArray::from(vec![ms]);
    match arrow_cast::cast(&a, &ArrowType::Utf8) {
        Ok(c) => Some(c.as_string::<i32>().value(0).to_string()),
        Err(_) => None,
    }
}

/// Relies on `String: FromIterator<char>`: the string of these characters.
#[verifier::external_body]
pub(crate) fn string_from_chars(cs: &Vec<char>) -> (r: String)
    ensures
        r@ == cs@,
{
    cs.iter().collect()
}

/// Relies on `str::chars`: the characters of the string, in order.
#[verifier::external_body]
pub(crate) fn chars_of(s: &str) -> (r: Vec<char>)
    ensures
        r@ == s@,
{
    s.chars().collect()
}

/// The decimal text of an integer.
pub fn int_to_text(i: i64) -> (r: String)
    ensures
        r@ == int_text(i as int),
{
    let mut m: u64 = if i < 0 { (0i128 - i as i128) as u64 } else { i as u64 };
    let ghost n: nat = if i < 0 { (-(i as int)) as nat } else { i as nat };
    let mut acc: Vec<char> = Vec::new();
    while m >= 10
        invariant
            digits(n) == digits(m as nat) + acc@,
        decreases m,
    {
        let d = digit(m % 10);
        proof {
            assert(digits(m as nat) == digits((m / 10) as nat).push(digit_char((m % 10) as nat)));
            assert(digits((m / 10) as nat).push(d) + acc@ =~= digits((m / 10) as nat) + seq![d]
                + acc@);
        }
        acc.insert(0, d);
        assert(digits((m / 10) as nat) + acc@ =~= digits((m / 10) as nat) + seq![d] + acc@.drop_first());
        m = m / 10;
    }
    let mut out: Vec<char> = Vec::new();
    if i < 0 {
        out.push('-');
    }
    out.push(digit(m));
    let mut k: usize = 0;
    let ghost start = out@;
    while k < acc.len()
        invariant
            k <= acc@.len(),
            out@ == start + acc@.subrange(0, k as int),
        decreases acc@.len() - k,
    {
        out.push(acc[k]);
        assert(start + acc@.subrange(0, k + 1) =~= (start + acc@.subrange(0, k as int)).push(acc@[k as int]));
        k = k + 1;
    }
    proof {
        assert(acc@.subrange(0, acc@.len() as int) =~= acc@);
        assert(digits(m as nat) == seq![digit_char(m as nat)]);
        if i < 0 {
            assert(out@ =~= seq!['-'] + (seq![digit_char(m as nat)] + acc@));
        } else {
            assert(out@ =~= seq![digit_char(m as nat)] + acc@);
        }
    }
    string_from_chars(&out)
}

fn digit(d: u64) -> (c: char)
    requires
        d < 10,
    ensures
        c == digit_char(d as nat),
{
    if d == 0 { '0' } else if d == 1 { '1' } else if d == 2 { '2' } else if d == 3 { '3' }
    else if d == 4 { '4' } else if d == 5 { '5' } else if d == 6 { '6' } else if d == 7 { '7' }
    else if d == 8 { '8' } else { '9' }
}

/// The text of a cell: `Ok(None)` for null, `Err(CastError)` where the cast fails.
pub fn value_to_text(v: &Value) -> (r: Result<Option<String>, FrameError>)
    ensures
        cast_fails(*v) <==> r is Err,
        r matches Err(e) ==> e == text_cast_error(),
        r matches Ok(t) ==> (match t {
            Some(s) => text_of(*v) == Some(s@),
            None => text_of(*v) is None,
        }),
{
    match v {
        Value::Null => Ok(None),
        Value::Int64(i) => Ok(Some(int_to_text(*i))),
        Value::Float64(b) => Ok(Some(float_to_text(*b))),
        Value::Utf8(s) => Ok(Some(s.clone())),
        Value::Boolean(b) => {
            let cs: Vec<char> = if *b { vec!['t', 'r', 'u', 'e'] } else { vec!['f', 'a', 'l', 's', 'e'] };
            let s = string_from_chars(&cs);
            assert(s@ =~= bool_text(*b));
            Ok(Some(s))
        },
        Value::TimestampMillis(t) => match timestamp_to_text(*t) {
            Some(s) => Ok(Some(s)),
            None => Err(FrameError::CastError { from: DataType::TimestampMillis, to: DataType::Utf8 }),
        },
    }
}

/// The text of every cell of a column; `Err(CastError)` when some cell's cast fails.
pub fn column_to_text(col: &Vec<Value>) -> (r: Result<Vec<Option<String>>, FrameError>)
    ensures
        castable(col@) <==> r is Ok,
        r matches Err(e) ==> e == text_cast_error(),
        r matches Ok(t) ==> t@.len() == col@.len() && forall|i: int|
            0 <= i < col@.len() ==> opt_view(#[trigger] t@[i]) == text_of(col@[i]),
{
    let mut out: Vec<Option<String>> = Vec::new();
    let mut i: usize = 0;
    while i < col.len()
        invariant
            i <= col@.len(),
            out@.len() == i,
            forall|k: int| 0 <= k < i ==> !cast_fails(#[trigger] col@[k]),
            forall|k: int| 0 <= k < i ==> opt_view(#[trigger] out@[k]) == text_of(col@[k]),
        decreases col@.len() - i,
    {
        match value_to_text(&col[i]) {
            Ok(t) => {
                out.push(t);
            },
            Err(e) => {
                return Err(e);
            },
        }
        i = i + 1;
    }
    Ok(out)
}

/// The view of an optional string.
pub open spec fn opt_view(o: Option<String>) -> Option<Seq<char>> {
    match o {
        Some(s) => Some(s@),
        None => None,
    }
}

} // verus!
