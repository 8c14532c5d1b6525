use vstd::prelude::*;
use arrow::array::{Float64Array, Int64Array};
use arrow::array::cast::AsArray;
use arrow::buffer::{Buffer, ScalarBuffer};
use arrow::array::ArrowNativeTypeOp;
use arrow::datatypes::{DataType as ArrowType, Float64Type};
use crate::batch::{field_index, find_field, model_wf, Batch, BatchModel};
use crate::frame::{all_wf, frame_rows, DataFrame};
use crate::query::{float_parse, is_nan};
use crate::order::{covers, lemma_text_lt_irrefl, lemma_text_lt_total, lemma_text_lt_trans, text_less, text_lt};
use crate::text::{text_cast_error, castable, chars_of, column_to_text, opt_view, string_from_chars, text_of};
use crate::types::{DataType, Field, FrameError, Value};

verus! {

/// The bits of the float sum `a + b` of two 64-bit floats, where that sum is
/// not a NaN (the bits of a NaN sum differ from one machine to another).
pub uninterp spec fn float_add(a: u64, b: u64) -> u64;

/// The bits of +infinity and of -infinity.
pub const POS_INF: u64 = 0x7FF0_0000_0000_0000;
pub const NEG_INF: u64 = 0xFFF0_0000_0000_0000;

/// The bits of the quiet NaN that stands for any NaN sum in the model.
pub const QUIET_NAN: u64 = 0x7FF8_0000_0000_0000;

/// IEEE-754 addition gives a NaN exactly when an operand is a NaN or the
/// operands are infinities of opposite signs.
pub open spec fn add_gives_nan(a: u64, b: u64) -> bool {
    is_nan(a) || is_nan(b) || (a == POS_INF && b == NEG_INF) || (a == NEG_INF && b == POS_INF)
}

/// One step of a running sum in the model: the sum's bits, or `QUIET_NAN`
/// for any NaN sum.
pub open spec fn sum_step(a: u64, b: u64) -> u64 {
    if add_gives_nan(a, b) {
        QUIET_NAN
    } else {
        float_add(a, b)
    }
}

/// Two float bit patterns stand for the same value: equal bits, or both NaN.
pub open spec fn same_float(x: u64, y: u64) -> bool {
    x == y || (is_nan(x) && is_nan(y))
}

proof fn lemma_sum_step(actual: u64, model: u64, x: u64, r: u64)
    requires
        same_float(actual, model),
        is_nan(r) == add_gives_nan(actual, x),
        !is_nan(r) ==> r == float_add(actual, x),
    ensures
        same_float(r, sum_step(model, x)),
{
    assert(is_nan(QUIET_NAN));
}

/// The bits of the 64-bit float nearest an integer, as the columnar cast from
/// Int64 to Float64 gives it.
pub uninterp spec fn float_of_int(i: i64) -> u64;

/// The bits of 1.0.
pub const FLOAT_ONE: u64 = 0x3FF0_0000_0000_0000;

/// Relies on `ArrowNativeTypeOp::add_wrapping` for Float64 values (the
/// element operation of arrow's numeric `add`), which is IEEE-754 addition:
/// the result is a NaN exactly when IEEE says so, and otherwise its bits are
/// fixed by the operands.
#[verifier::external_body]
fn add_floats(a: u64, b: u64) -> (r: u64)
    ensures
        is_nan(r) == add_gives_nan(a, b),
        !is_nan(r) ==> r == float_add(a, b),
{
    let x = Float64Array::new(ScalarBuffer::new(Buffer::from_vec(vec![a]), 0, 1), None).value(0);
    let y = Float64Array::new(ScalarBuffer::new(Buffer::from_vec(vec![b]), 0, 1), None).value(0);
    ArrowNativeTypeOp::add_wrapping(x, y).to_bits()
}

/// Relies on `arrow_cast::cast` from Int64 to Float64: the float nearest an
/// integer, returned as bits.
#[verifier::external_body]
fn int_to_float(i: i64) -> (r: u64)
    ensures
        r == float_of_int(i),
{
    let c = arrow_cast::cast(&Int64Array::from(vec![i]), &ArrowType::Float64)
        .expect("a cast from Int64 to Float64 always succeeds");
    c.as_primitive::<Float64Type>().value(0).to_bits()
}

/// The float a cell contributes to a sum once cast to Float64; `None` for null
/// and for a text that reads as no number.
pub open spec fn agg_value(v: Value) -> Option<u64> {
    match v {
        Value::Null => None,
        Value::Int64(i) => Some(float_of_int(i)),
        Value::TimestampMillis(t) => Some(float_of_int(t)),
        Value::Boolean(b) => Some(if b { FLOAT_ONE } else { 0 }),
        Value::Float64(x) => Some(x),
        Value::Utf8(s) => float_parse(s@),
    }
}

/// The (group text, float) entries of the first `n` rows: rows with a null
/// in either column are skipped.
pub open spec fn row_entries(g: Seq<Value>, a: Seq<Value>, n: int) -> Seq<(Seq<char>, u64)>
    decreases n,
{
    if n <= 0 {
        Seq::empty()
    } else {
        let prev = row_entries(g, a, n - 1);
        match (text_of(g[n - 1]), agg_value(a[n - 1])) {
            (Some(k), Some(x)) => prev.push((k, x)),
            _ => prev,
        }
    }
}

/// The entries of all batches, or the error of the first batch that fails:
/// a missing group or aggregate column, or a group column that cannot be cast to text.
pub open spec fn group_entries(bs: Seq<BatchModel>, g: Seq<char>, a: Seq<char>) -> Result<Seq<(Seq<char>, u64)>, FrameError>
    decreases bs.len(),
{
    if bs.len() == 0 {
        Ok(Seq::empty())
    } else {
        match group_entries(bs.drop_last(), g, a) {
            Err(e) => Err(e),
            Ok(prev) => {
                let b = bs.last();
                match (field_index(b.fields, g), field_index(b.fields, a)) {
                    (None, _) => Err(FrameError::UnknownColumn),
                    (_, None) => Err(FrameError::UnknownColumn),
                    (Some(gi), Some(ai)) => if !castable(b.columns[gi]) {
                        Err(text_cast_error())
                    } else {
                        Ok(prev + row_entries(b.columns[gi], b.columns[ai], b.rows as int))
                    },
                }
            },
        }
    }
}

/// The position of `k` among distinct keys.
pub open spec fn key_pos(ks: Seq<Seq<char>>, k: Seq<char>) -> int {
    choose|j: int| 0 <= j < ks.len() && ks[j] == k
}

/// The groups in order of first appearance, with the running float sum of
/// each, every sum starting from 0.0 (NaN sums as `QUIET_NAN`).
pub open spec fn fold_groups(es: Seq<(Seq<char>, u64)>) -> (Seq<Seq<char>>, Seq<u64>)
    decreases es.len(),
{
    if es.len() == 0 {
        (Seq::empty(), Seq::empty())
    } else {
        let (ks, ss) = fold_groups(es.drop_last());
        let (k, x) = es.last();
        if ks.contains(k) {
            (ks, ss.update(key_pos(ks, k), sum_step(ss[key_pos(ks, k)], x)))
        } else {
            (ks.push(k), ss.push(sum_step(0, x)))
        }
    }
}

proof fn lemma_fold_shape(es: Seq<(Seq<char>, u64)>)
    ensures
        fold_groups(es).0.len() == fold_groups(es).1.len(),
        forall|i: int, j: int| 0 <= i < j < fold_groups(es).0.len() ==> fold_groups(es).0[i] != fold_groups(es).0[j],
    decreases es.len(),
{
    if es.len() > 0 {
        lemma_fold_shape(es.drop_last());
        let (ks, ss) = fold_groups(es.drop_last());
        let (k, x) = es.last();
        if !ks.contains(k) {
            let nk = ks.push(k);
            assert forall|i: int, j: int| 0 <= i < j < nk.len() implies nk[i] != nk[j] by {
                if j == ks.len() {
                    assert(nk[i] == ks[i]);
                }
            }
        }
    }
}

/// The output of a group-by-sum: the group column as text, the sums as floats
/// (a NaN sum may carry any NaN bits).
pub open spec fn grouped_model(es: Seq<(Seq<char>, u64)>, g: Seq<char>, a: Seq<char>, out: BatchModel) -> bool {
    let (ks, ss) = fold_groups(es);
    &&& out.rows == ks.len()
    &&& out.fields.len() == 2
    &&& out.columns.len() == 2
    &&& out.fields[0].name@ == g
    &&& out.fields[0].dtype == DataType::Utf8
    &&& !out.fields[0].nullable
    &&& out.fields[1].name@ == a + seq!['_', 's', 'u', 'm']
    &&& out.fields[1].dtype == DataType::Float64
    &&& !out.fields[1].nullable
    &&& out.columns[0].len() == ks.len()
    &&& out.columns[1].len() == ks.len()
    &&& forall|i: int| 0 <= i < ks.len() ==> (#[trigger] out.columns[0][i]) is Utf8 && text_of(out.columns[0][i]) == Some(ks[i])
    &&& forall|i: int| 0 <= i < ks.len() ==> (#[trigger] out.columns[1][i]) is Float64 && same_float(
        out.columns[1][i]->Float64_0,
        ss[i],
    )
}

fn agg_to_float(v: &Value) -> (r: Option<u64>)
    ensures
        r == agg_value(*v),
{
    match v {
        Value::Null => None,
        Value::Int64(i) => Some(int_to_float(*i)),
        Value::TimestampMillis(t) => Some(int_to_float(*t)),
        Value::Boolean(b) => Some(if *b { FLOAT_ONE } else { 0 }),
        Value::Float64(x) => Some(*x),
        Value::Utf8(s) => crate::query::parse_float_text(s.as_str()),
    }
}

spec fn keys_view(ks: Seq<String>) -> Seq<Seq<char>> {
    ks.map_values(|s: String| s@)
}

/// The running groups: keys in order of first appearance, their characters,
/// their sums, and the key positions ordered by key text.
struct Groups {
    keys: Vec<String>,
    chars: Vec<Vec<char>>,
    sums: Vec<u64>,
    index: Vec<usize>,
}

impl Groups {
    /// The groups hold the fold of `es`, and the index lists each key position
    /// once, in increasing key order.
    spec fn holds(&self, es: Seq<(Seq<char>, u64)>) -> bool {
        let kv = keys_view(self.keys@);
        &&& kv == fold_groups(es).0
        &&& self.sums@.len() == fold_groups(es).1.len()
        &&& forall|j: int| 0 <= j < self.sums@.len() ==> same_float(#[trigger] self.sums@[j], fold_groups(es).1[j])
        &&& self.chars@.len() == self.keys@.len()
        &&& forall|j: int| 0 <= j < self.keys@.len() ==> (#[trigger] self.chars@[j])@ == kv[j]
        &&& self.index@.len() == self.keys@.len()
        &&& forall|q: int| 0 <= q < self.index@.len() ==> #[trigger] self.index@[q] < self.keys@.len()
        &&& forall|a: int, b: int| 0 <= a < b < self.index@.len() ==> text_lt(kv[self.index@[a] as int], kv[self.index@[b] as int])
        &&& forall|j: int| 0 <= j < self.keys@.len() ==> #[trigger] covers(self.index@, j)
    }

    /// Adds one entry: to the sum of its key, or as a new group.
    fn add(&mut self, k: String, x: u64, Ghost(es): Ghost<Seq<(Seq<char>, u64)>>)
        requires
            old(self).holds(es),
        ensures
            final(self).holds(es.push((k@, x))),
    {
        let ghost kv = keys_view(self.keys@);
        let ghost key = k@;
        proof {
            lemma_fold_shape(es);
            assert(es.push((k@, x)).drop_last() =~= es);
            assert(es.push((k@, x)).last() == (k@, x));
        }
        let kc = chars_of(k.as_str());
        let n = self.index.len();
        let mut lo: usize = 0;
        let mut hi: usize = n;
        while lo < hi
            invariant
                self.holds(es),
                kv == keys_view(self.keys@),
                kc@ == key,
                n == self.index@.len(),
                lo <= hi <= n,
                forall|q: int| 0 <= q < lo ==> text_lt(kv[#[trigger] self.index@[q] as int], key),
                forall|q: int| hi <= q < n ==> !text_lt(kv[#[trigger] self.index@[q] as int], key),
            decreases hi - lo,
        {
            let mid = lo + (hi - lo) / 2;
            let below = text_less(&self.chars[self.index[mid]], &kc);
            if below {
                proof {
                    assert forall|q: int| 0 <= q < mid + 1 implies text_lt(kv[#[trigger] self.index@[q] as int], key) by {
                        if q < mid {
                            lemma_text_lt_trans(kv[self.index@[q] as int], kv[self.index@[mid as int] as int], key);
                        }
                    }
                }
                lo = mid + 1;
            } else {
                proof {
                    assert forall|q: int| mid <= q < n implies !text_lt(kv[#[trigger] self.index@[q] as int], key) by {
                        if q > mid && text_lt(kv[self.index@[q] as int], key) {
                            lemma_text_lt_trans(kv[self.index@[mid as int] as int], kv[self.index@[q] as int], key);
                        }
                    }
                }
                hi = mid;
            }
        }
        let found = lo < n && !text_less(&kc, &self.chars[self.index[lo]]);
        if found {
            let j = self.index[lo];
            proof {
                let t = kv[j as int];
                if t != key {
                    lemma_text_lt_total(t, key);
                }
                assert(t == key);
                assert(kv.contains(key));
                let p = key_pos(kv, key);
                if p != j {
                    assert(kv[p] == kv[j as int]);
                }
            }
            let s = add_floats(self.sums[j], x);
            let ghost ss_old = self.sums@;
            self.sums.set(j, s);
            proof {
                let fs = fold_groups(es).1;
                assert(fold_groups(es.push((k@, x))) == (kv, fs.update(j as int, sum_step(fs[j as int], x))));
                lemma_sum_step(ss_old[j as int], fs[j as int], x, s);
                assert forall|w: int| 0 <= w < self.sums@.len() implies same_float(#[trigger] self.sums@[w], fs.update(j as int, sum_step(fs[j as int], x))[w]) by {
                    if w != j {
                        assert(self.sums@[w] == ss_old[w]);
                    }
                }
                assert(keys_view(self.keys@) == kv);
            }
        } else {
            proof {
                assert(!kv.contains(key)) by {
                    if kv.contains(key) {
                        let j = choose|j: int| 0 <= j < kv.len() && kv[j] == key;
                        assert(covers(self.index@, j));
                        let q = choose|q: int| 0 <= q < self.index@.len() && self.index@[q] == j;
                        lemma_text_lt_irrefl(key);
                        assert(q >= lo);
                        if q > lo {
                            let t = kv[self.index@[lo as int] as int];
                            if t != key {
                                lemma_text_lt_total(t, key);
                            }
                            lemma_text_lt_trans(key, t, key);
                        }
                    }
                }
            }
            let g = self.keys.len();
            let ghost old_index = self.index@;
            let ghost old_chars = self.chars@;
            self.keys.push(k);
            self.chars.push(kc);
            let s0 = add_floats(0, x);
            let ghost ss_old = self.sums@;
            self.sums.push(s0);
            self.index.insert(lo, g);
            proof {
                let fs = fold_groups(es).1;
                assert(fold_groups(es.push((k@, x))) == (kv.push(key), fs.push(sum_step(0, x))));
                lemma_sum_step(0, 0, x, s0);
                assert forall|w: int| 0 <= w < self.sums@.len() implies same_float(#[trigger] self.sums@[w], fs.push(sum_step(0, x))[w]) by {
                    if w < ss_old.len() {
                        assert(self.sums@[w] == ss_old[w]);
                    }
                }
                let nkv = keys_view(self.keys@);
                assert(nkv =~= kv.push(key));
                assert forall|j: int| 0 <= j < self.keys@.len() implies (#[trigger] self.chars@[j])@ == nkv[j] by {
                    if j < g {
                        assert(self.chars@[j] == old_chars[j]);
                    }
                }
                assert forall|q: int| 0 <= q < self.index@.len() implies #[trigger] self.index@[q] == (if q < lo { old_index[q] } else if q == lo { g } else { old_index[q - 1] }) by {}
                assert forall|a: int, b: int| 0 <= a < b < self.index@.len() implies text_lt(nkv[self.index@[a] as int], nkv[self.index@[b] as int]) by {
                    let (ia, ib) = (self.index@[a] as int, self.index@[b] as int);
                    if a < lo && b == lo {
                        assert(nkv[ia] == kv[ia]);
                    } else if a == lo {
                        assert(nkv[ib] == kv[ib]);
                        let t = kv[ib];
                        assert(!text_lt(t, key));
                        if t != key {
                            lemma_text_lt_total(t, key);
                        } else {
                            assert(kv.contains(key));
                        }
                    } else {
                        assert(nkv[ia] == kv[ia]);
                        assert(nkv[ib] == kv[ib]);
                    }
                }
                assert forall|j: int| 0 <= j < self.keys@.len() implies #[trigger] covers(self.index@, j) by {
                    if j == g {
                        assert(self.index@[lo as int] == g);
                    } else {
                        assert(covers(old_index, j));
                        let q = choose|q: int| 0 <= q < old_index.len() && old_index[q] == j;
                        if q < lo {
                            assert(self.index@[q] == j);
                        } else {
                            assert(self.index@[q + 1] == j);
                        }
                    }
                }
            }
        }
    }
}

proof fn lemma_entries_err(v: Seq<BatchModel>, j: int, g: Seq<char>, a: Seq<char>, e: FrameError)
    requires
        0 <= j <= v.len(),
        group_entries(v.subrange(0, j), g, a) == Err::<Seq<(Seq<char>, u64)>, FrameError>(e),
    ensures
        group_entries(v, g, a) == Err::<Seq<(Seq<char>, u64)>, FrameError>(e),
    decreases v.len() - j,
{
    if j < v.len() {
        assert(v.subrange(0, j + 1).drop_last() =~= v.subrange(0, j));
        lemma_entries_err(v, j + 1, g, a, e);
    } else {
        assert(v.subrange(0, j) =~= v);
    }
}

impl DataFrame {
    /// Sums the aggregate column, cast to Float64, per text of the group column;
    /// rows with a null in either column are skipped. One batch of two columns:
    /// the group texts and `<agg_col>_sum`, groups in order of first appearance
    /// (no rows for a table without batches).
    pub fn groupby_sum(&self, group_col: &str, agg_col: &str) -> (r: Result<DataFrame, FrameError>)
        requires
            self.wf(),
        ensures
            match r {
                Ok(d) => {
                    &&& d.wf()
                    &&& group_entries(self.view(), group_col@, agg_col@) is Ok
                    &&& d.view().len() == 1
                    &&& grouped_model(group_entries(self.view(), group_col@, agg_col@)->Ok_0, group_col@, agg_col@, d.view()[0])
                },
                Err(e) => group_entries(self.view(), group_col@, agg_col@) == Err::<Seq<(Seq<char>, u64)>, FrameError>(e),
            },
    {
        let ghost v = self.view();
        let mut groups = Groups { keys: Vec::new(), chars: Vec::new(), sums: Vec::new(), index: Vec::new() };
        let ghost mut es: Seq<(Seq<char>, u64)> = Seq::empty();
        let mut i: usize = 0;
        proof {
            assert(v.subrange(0, 0) =~= Seq::<BatchModel>::empty());
            assert(keys_view(groups.keys@) =~= Seq::<Seq<char>>::empty());
        }
        while i < self.batches.len()
            invariant
                self.wf(),
                v == self.view(),
                v.len() == self.batches@.len(),
                i <= self.batches@.len(),
                group_entries(v.subrange(0, i as int), group_col@, agg_col@) == Ok::<Seq<(Seq<char>, u64)>, FrameError>(es),
                groups.holds(es),
            decreases self.batches@.len() - i,
        {
            let b = &self.batches[i];
            let ghost bm = b.model();
            proof {
                assert(bm == v[i as int]);
                assert(model_wf(bm));
                assert(v.subrange(0, i + 1).drop_last() =~= v.subrange(0, i as int));
                assert(v.subrange(0, i + 1).last() == bm);
            }
            let gi = match find_field(&b.fields, group_col) {
                Some(x) => x,
                None => {
                    proof {
                        lemma_entries_err(v, i + 1, group_col@, agg_col@, FrameError::UnknownColumn);
                    }
                    return Err(FrameError::UnknownColumn);
                },
            };
            let ai = match find_field(&b.fields, agg_col) {
                Some(x) => x,
                None => {
                    proof {
                        lemma_entries_err(v, i + 1, group_col@, agg_col@, FrameError::UnknownColumn);
                    }
                    return Err(FrameError::UnknownColumn);
                },
            };
            proof {
                assert(bm.columns[gi as int] == b.columns@[gi as int]@);
                assert(bm.columns[ai as int] == b.columns@[ai as int]@);
                assert(bm.columns[gi as int].len() == bm.rows);
                assert(bm.columns[ai as int].len() == bm.rows);
            }
            let gt = match column_to_text(&b.columns[gi]) {
                Ok(t) => t,
                Err(e) => {
                    proof {
                        lemma_entries_err(v, i + 1, group_col@, agg_col@, e);
                    }
                    return Err(e);
                },
            };
            let acol = &b.columns[ai];
            let ghost base = es;
            let mut r: usize = 0;
            while r < b.num_rows
                invariant
                    b.wf(),
                    bm == b.model(),
                    r <= b.num_rows,
                    gt@.len() == b.num_rows,
                    acol@.len() == b.num_rows,
                    acol@ == bm.columns[ai as int],
                    forall|q: int| 0 <= q < gt@.len() ==> opt_view(#[trigger] gt@[q]) == text_of(bm.columns[gi as int][q]),
                    es == base + row_entries(bm.columns[gi as int], bm.columns[ai as int], r as int),
                    groups.holds(es),
                decreases b.num_rows - r,
            {
                let ghost prev = es;
                let x = agg_to_float(&acol[r]);
                proof {
                    assert(opt_view(gt@[r as int]) == text_of(bm.columns[gi as int][r as int]));
                }
                match (&gt[r], x) {
                    (Some(k), Some(x)) => {
                        let key = k.clone();
                        groups.add(key, x, Ghost(es));
                        proof {
                            es = es.push((key@, x));
                            assert(es =~= base + row_entries(bm.columns[gi as int], bm.columns[ai as int], r + 1));
                        }
                    },
                    _ => {
                        proof {
                            assert(es =~= base + row_entries(bm.columns[gi as int], bm.columns[ai as int], r + 1));
                        }
                    },
                }
                r = r + 1;
            }
            i = i + 1;
        }
        proof {
            assert(v.subrange(0, i as int) =~= v);
            lemma_fold_shape(es);
        }
        let ks = groups.keys;
        let ss = groups.sums;
        let n = ks.len();
        let mut gcol: Vec<Value> = Vec::new();
        let mut scol: Vec<Value> = Vec::new();
        let mut q: usize = 0;
        while q < n
            invariant
                n == ks@.len(),
                ks@.len() == ss@.len(),
                keys_view(ks@) == fold_groups(es).0,
                ss@.len() == fold_groups(es).1.len(),
                forall|j: int| 0 <= j < ss@.len() ==> same_float(#[trigger] ss@[j], fold_groups(es).1[j]),
                q <= n,
                gcol@.len() == q,
                scol@.len() == q,
                forall|w: int| 0 <= w < q ==> (#[trigger] gcol@[w]) is Utf8 && text_of(gcol@[w]) == Some(ks@[w]@),
                forall|w: int| 0 <= w < q ==> #[trigger] scol@[w] == Value::Float64(ss@[w]),
            decreases n - q,
        {
            gcol.push(Value::Utf8(ks[q].clone()));
            scol.push(Value::Float64(ss[q]));
            q = q + 1;
        }
        let mut sum_name = chars_of(agg_col);
        sum_name.push('_');
        sum_name.push('s');
        sum_name.push('u');
        sum_name.push('m');
        let fields = vec![
            Field { name: group_col.to_owned(), dtype: DataType::Utf8, nullable: false },
            Field { name: string_from_chars(&sum_name), dtype: DataType::Float64, nullable: false },
        ];
        let columns = vec![gcol, scol];
        let out = Batch { fields, columns, num_rows: n };
        let d = DataFrame { batches: vec![out] };
        proof {
            let m = out.model();
            assert(m.fields[1].name@ =~= agg_col@ + seq!['_', 's', 'u', 'm']);
            assert(m.columns[0] == gcol@);
            assert(m.columns[1] == scol@);
            assert forall|c: int, w: int| 0 <= c < m.columns.len() && 0 <= w < m.rows implies crate::types::fits(
                #[trigger] m.columns[c][w],
                m.fields[c].dtype,
            ) by {
                if c == 0 {
                    assert(gcol@[w] is Utf8);
                } else {
                    assert(scol@[w] == Value::Float64(ss@[w]));
                }
            }
            assert(model_wf(m));
            assert(d.view() =~= seq![m]);
            assert(frame_rows(d.view()) == n) by {
                assert(d.view().drop_first() =~= Seq::<BatchModel>::empty());
                assert(frame_rows(Seq::<BatchModel>::empty()) == 0);
            }
            assert(all_wf(d.view()));
            let (fk, fs) = fold_groups(es);
            assert forall|w: int| 0 <= w < fk.len() implies (#[trigger] m.columns[0][w]) is Utf8 && text_of(m.columns[0][w]) == Some(fk[w]) by {
                assert(fk[w] == keys_view(ks@)[w]);
            }
            assert forall|w: int| 0 <= w < fk.len() implies (#[trigger] m.columns[1][w]) is Float64 && same_float(m.columns[1][w]->Float64_0, fs[w]) by {
                assert(scol@[w] == Value::Float64(ss@[w]));
            }
        }
        Ok(d)
    }
}

} // verus!
