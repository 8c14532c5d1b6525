use vstd::prelude::*;
use crate::batch::{combine, combined, field_index, is_first_named, find_field, idx_model, model_wf, take_model, uniform, Batch, BatchModel};
use crate::frame::{all_wf, frame_rows, lemma_rows_same, DataFrame};
use crate::text::chars_of;
use crate::types::{FrameError, Value};

verus! {

/// What a cell is ordered by: nothing for null, a number, or a text.
pub enum KeyModel {
    Null,
    Num(int),
    Text(Seq<char>),
}

/// The position of a float in IEEE-754 total order: negative values, whose
/// sign bit is set, come below the positive ones, in reverse order of their
/// magnitude bits (so -0.0 sorts just below +0.0, and NaNs sort at the ends).
pub open spec fn float_key(bits: u64) -> int {
    if bits < 0x8000_0000_0000_0000u64 {
        bits as int
    } else {
        -1 - (bits - 0x8000_0000_0000_0000u64)
    }
}

/// The sort key of a cell: integers and timestamps by value, false before true,
/// floats in total order, texts by code points.
pub open spec fn key_of(v: Value) -> KeyModel {
    match v {
        Value::Null => KeyModel::Null,
        Value::Int64(i) => KeyModel::Num(i as int),
        Value::TimestampMillis(t) => KeyModel::Num(t as int),
        Value::Boolean(b) => KeyModel::Num(if b { 1 } else { 0 }),
        Value::Float64(b) => KeyModel::Num(float_key(b)),
        Value::Utf8(s) => KeyModel::Text(s@),
    }
}

/// Lexicographic order on texts, by code point.
pub open spec fn text_lt(a: Seq<char>, b: Seq<char>) -> bool
    decreases a.len(),
{
    if a.len() == 0 {
        b.len() > 0
    } else if b.len() == 0 {
        false
    } else if a[0] != b[0] {
        (a[0] as u32) < (b[0] as u32)
    } else {
        text_lt(a.drop_first(), b.drop_first())
    }
}

/// Strict order on non-null keys (a number before a text, which never meet in one column).
pub open spec fn key_lt(a: KeyModel, b: KeyModel) -> bool {
    match (a, b) {
        (KeyModel::Num(x), KeyModel::Num(y)) => x < y,
        (KeyModel::Num(_), KeyModel::Text(_)) => true,
        (KeyModel::Text(x), KeyModel::Text(y)) => text_lt(x, y),
        _ => false,
    }
}

/// Row `i` comes before row `j` in the sorted output: nulls last whatever the
/// direction, then by key in the chosen direction, then by original position.
pub open spec fn row_before(keys: Seq<KeyModel>, ascending: bool, i: int, j: int) -> bool {
    let a = keys[i];
    let b = keys[j];
    if a is Null {
        b is Null && i < j
    } else if b is Null {
        true
    } else if (if ascending { key_lt(a, b) } else { key_lt(b, a) }) {
        true
    } else if (if ascending { key_lt(b, a) } else { key_lt(a, b) }) {
        false
    } else {
        i < j
    }
}

/// `p` lists every row of `col` once, in sorted order.
pub open spec fn is_sort_order(col: Seq<Value>, ascending: bool, p: Seq<int>) -> bool {
    &&& p.len() == col.len()
    &&& forall|k: int| 0 <= k < p.len() ==> 0 <= #[trigger] p[k] < col.len()
    &&& forall|a: int, b: int|
        0 <= a < b < p.len() ==> row_before(col.map_values(|v: Value| key_of(v)), ascending, p[a], p[b])
}

pub proof fn lemma_text_lt_irrefl(a: Seq<char>)
    ensures
        !text_lt(a, a),
    decreases a.len(),
{
    if a.len() > 0 {
        lemma_text_lt_irrefl(a.drop_first());
    }
}

pub proof fn lemma_text_lt_trans(a: Seq<char>, b: Seq<char>, c: Seq<char>)
    requires
        text_lt(a, b),
        text_lt(b, c),
    ensures
        text_lt(a, c),
    decreases a.len(),
{
    if a.len() > 0 && b.len() > 0 && c.len() > 0 {
        if a[0] == b[0] && b[0] == c[0] {
            lemma_text_lt_trans(a.drop_first(), b.drop_first(), c.drop_first());
        }
    }
}

pub proof fn lemma_text_lt_total(a: Seq<char>, b: Seq<char>)
    requires
        a != b,
    ensures
        text_lt(a, b) || text_lt(b, a),
    decreases a.len(),
{
    if a.len() > 0 && b.len() > 0 {
        if a[0] == b[0] {
            if a.drop_first() == b.drop_first() {
                assert(a =~= seq![a[0]] + a.drop_first());
                assert(b =~= seq![b[0]] + b.drop_first());
            }
            lemma_text_lt_total(a.drop_first(), b.drop_first());
        } else {
            vstd::utf8::char_u32_cast(a[0], a[0] as u32);
            vstd::utf8::char_u32_cast(b[0], b[0] as u32);
        }
    } else if a.len() == 0 && b.len() == 0 {
        assert(a =~= b);
    }
}

pub proof fn lemma_key_order(a: KeyModel, b: KeyModel, c: KeyModel)
    ensures
        !key_lt(a, a),
        key_lt(a, b) && key_lt(b, c) ==> key_lt(a, c),
        !(a is Null) && !(b is Null) && a != b ==> key_lt(a, b) || key_lt(b, a),
        key_lt(a, b) ==> !key_lt(b, a),
{
    if let KeyModel::Text(x) = a {
        lemma_text_lt_irrefl(x);
        if let KeyModel::Text(y) = b {
            if key_lt(a, b) && key_lt(b, a) {
                lemma_text_lt_trans(x, y, x);
            }
            if x != y {
                lemma_text_lt_total(x, y);
            }
            if let KeyModel::Text(z) = c {
                if key_lt(a, b) && key_lt(b, c) {
                    lemma_text_lt_trans(x, y, z);
                }
            }
        }
    }
}

/// `row_before` is a strict total order on the rows.
pub proof fn lemma_row_before(keys: Seq<KeyModel>, asc: bool, i: int, j: int, k: int)
    ensures
        !row_before(keys, asc, i, i),
        row_before(keys, asc, i, j) && row_before(keys, asc, j, k) ==> row_before(keys, asc, i, k),
        i != j ==> row_before(keys, asc, i, j) || row_before(keys, asc, j, i),
        row_before(keys, asc, i, j) ==> !row_before(keys, asc, j, i),
{
    let (a, b, c) = (keys[i], keys[j], keys[k]);
    lemma_key_order(a, b, c);
    lemma_key_order(c, b, a);
    lemma_key_order(b, a, c);
    lemma_key_order(a, c, b);
    lemma_key_order(b, c, a);
    lemma_key_order(c, a, b);
}

/// The sort key of a cell, ready for comparison.
pub(crate) enum SortKey {
    Null,
    Num(i128),
    Text(Vec<char>),
}

impl SortKey {
    pub(crate) open spec fn model(&self) -> KeyModel {
        match self {
            SortKey::Null => KeyModel::Null,
            SortKey::Num(n) => KeyModel::Num(*n as int),
            SortKey::Text(t) => KeyModel::Text(t@),
        }
    }
}

pub(crate) open spec fn keys_model(keys: Seq<SortKey>) -> Seq<KeyModel> {
    keys.map_values(|k: SortKey| k.model())
}

fn key_for(v: &Value) -> (k: SortKey)
    ensures
        k.model() == key_of(*v),
{
    match v {
        Value::Null => SortKey::Null,
        Value::Int64(i) => SortKey::Num(*i as i128),
        Value::TimestampMillis(t) => SortKey::Num(*t as i128),
        Value::Boolean(b) => SortKey::Num(if *b { 1 } else { 0 }),
        Value::Float64(b) => {
            if *b < 0x8000_0000_0000_0000u64 {
                SortKey::Num(*b as i128)
            } else {
                SortKey::Num(-1 - ((*b - 0x8000_0000_0000_0000u64) as i128))
            }
        },
        Value::Utf8(s) => SortKey::Text(chars_of(s.as_str())),
    }
}

pub(crate) fn text_less(a: &Vec<char>, b: &Vec<char>) -> (r: bool)
    ensures
        r == text_lt(a@, b@),
{
    let mut i: usize = 0;
    assert(a@.skip(0) =~= a@);
    assert(b@.skip(0) =~= b@);
    while i < a.len() && i < b.len()
        invariant
            i <= a@.len(),
            i <= b@.len(),
            text_lt(a@, b@) == text_lt(a@.skip(i as int), b@.skip(i as int)),
        decreases a@.len() - i,
    {
        if a[i] != b[i] {
            return (a[i] as u32) < (b[i] as u32);
        }
        assert(a@.skip(i as int).drop_first() =~= a@.skip(i + 1));
        assert(b@.skip(i as int).drop_first() =~= b@.skip(i + 1));
        i = i + 1;
    }
    i >= a.len() && i < b.len()
}

fn key_less(a: &SortKey, b: &SortKey) -> (r: bool)
    ensures
        r == key_lt(a.model(), b.model()),
{
    match (a, b) {
        (SortKey::Num(x), SortKey::Num(y)) => *x < *y,
        (SortKey::Num(_), SortKey::Text(_)) => true,
        (SortKey::Text(x), SortKey::Text(y)) => text_less(x, y),
        _ => false,
    }
}

fn before(keys: &Vec<SortKey>, ascending: bool, i: usize, j: usize) -> (r: bool)
    requires
        i < keys@.len(),
        j < keys@.len(),
    ensures
        r == row_before(keys_model(keys@), ascending, i as int, j as int),
{
    let a = &keys[i];
    let b = &keys[j];
    let a_null = match a {
        SortKey::Null => true,
        _ => false,
    };
    let b_null = match b {
        SortKey::Null => true,
        _ => false,
    };
    if a_null {
        b_null && i < j
    } else if b_null {
        true
    } else {
        let (first, second) = if ascending { (key_less(a, b), key_less(b, a)) } else { (key_less(b, a), key_less(a, b)) };
        if first {
            true
        } else if second {
            false
        } else {
            i < j
        }
    }
}

/// Position `j` occurs in `p`.
pub open spec fn covers(p: Seq<usize>, j: int) -> bool {
    exists|k: int| 0 <= k < p.len() && p[k] == j
}

/// Every row position once, ordered by `row_before` (a stable sort with nulls last).
pub(crate) fn sort_order(keys: &Vec<SortKey>, ascending: bool) -> (p: Vec<usize>)
    ensures
        p@.len() == keys@.len(),
        forall|k: int| 0 <= k < p@.len() ==> #[trigger] p@[k] < keys@.len(),
        forall|a: int, b: int|
            0 <= a < b < p@.len() ==> row_before(keys_model(keys@), ascending, p@[a] as int, p@[b] as int),
        forall|j: int| 0 <= j < keys@.len() ==> #[trigger] covers(p@, j),
{
    sort_range(keys, ascending, 0, keys.len())
}

/// The positions `lo..hi`, ordered by `row_before` (merge sort).
fn sort_range(keys: &Vec<SortKey>, ascending: bool, lo: usize, hi: usize) -> (p: Vec<usize>)
    requires
        lo <= hi <= keys@.len(),
    ensures
        p@.len() == hi - lo,
        forall|k: int| 0 <= k < p@.len() ==> lo <= #[trigger] p@[k] < hi,
        forall|a: int, b: int|
            0 <= a < b < p@.len() ==> row_before(keys_model(keys@), ascending, p@[a] as int, p@[b] as int),
        forall|j: int| lo <= j < hi ==> #[trigger] covers(p@, j),
    decreases hi - lo,
{
    if hi - lo <= 1 {
        let mut p: Vec<usize> = Vec::new();
        if hi > lo {
            p.push(lo);
            assert(p@[0] == lo);
            assert(covers(p@, lo as int));
        }
        return p;
    }
    let mid = lo + (hi - lo) / 2;
    let a = sort_range(keys, ascending, lo, mid);
    let b = sort_range(keys, ascending, mid, hi);
    merge_runs(keys, ascending, &a, &b, lo, mid, hi)
}

/// Merges two sorted runs of positions, from `lo..mid` and from `mid..hi`.
fn merge_runs(keys: &Vec<SortKey>, ascending: bool, a: &Vec<usize>, b: &Vec<usize>, lo: usize, mid: usize, hi: usize) -> (p: Vec<usize>)
    requires
        lo <= mid <= hi <= keys@.len(),
        a@.len() == mid - lo,
        b@.len() == hi - mid,
        forall|k: int| 0 <= k < a@.len() ==> lo <= #[trigger] a@[k] < mid,
        forall|k: int| 0 <= k < b@.len() ==> mid <= #[trigger] b@[k] < hi,
        forall|x: int, y: int| 0 <= x < y < a@.len() ==> row_before(keys_model(keys@), ascending, a@[x] as int, a@[y] as int),
        forall|x: int, y: int| 0 <= x < y < b@.len() ==> row_before(keys_model(keys@), ascending, b@[x] as int, b@[y] as int),
        forall|j: int| lo <= j < mid ==> #[trigger] covers(a@, j),
        forall|j: int| mid <= j < hi ==> #[trigger] covers(b@, j),
    ensures
        p@.len() == hi - lo,
        forall|k: int| 0 <= k < p@.len() ==> lo <= #[trigger] p@[k] < hi,
        forall|x: int, y: int| 0 <= x < y < p@.len() ==> row_before(keys_model(keys@), ascending, p@[x] as int, p@[y] as int),
        forall|j: int| lo <= j < hi ==> #[trigger] covers(p@, j),
{
    let ghost km = keys_model(keys@);
    let mut out: Vec<usize> = Vec::new();
    let mut i: usize = 0;
    let mut j: usize = 0;
    while i < a.len() || j < b.len()
        invariant
            km == keys_model(keys@),
            lo <= mid <= hi <= keys@.len(),
            a@.len() == mid - lo,
            b@.len() == hi - mid,
            forall|k: int| 0 <= k < a@.len() ==> lo <= #[trigger] a@[k] < mid,
            forall|k: int| 0 <= k < b@.len() ==> mid <= #[trigger] b@[k] < hi,
            forall|x: int, y: int| 0 <= x < y < a@.len() ==> row_before(km, ascending, a@[x] as int, a@[y] as int),
            forall|x: int, y: int| 0 <= x < y < b@.len() ==> row_before(km, ascending, b@[x] as int, b@[y] as int),
            i <= a@.len(),
            j <= b@.len(),
            out@.len() == i + j,
            forall|k: int| 0 <= k < out@.len() ==> lo <= #[trigger] out@[k] < hi,
            forall|x: int, y: int| 0 <= x < y < out@.len() ==> row_before(km, ascending, out@[x] as int, out@[y] as int),
            forall|x: int, q: int| #![trigger out@[x], a@[q]] 0 <= x < out@.len() && i <= q < a@.len() ==> row_before(km, ascending, out@[x] as int, a@[q] as int),
            forall|x: int, q: int| #![trigger out@[x], b@[q]] 0 <= x < out@.len() && j <= q < b@.len() ==> row_before(km, ascending, out@[x] as int, b@[q] as int),
            forall|q: int| 0 <= q < i ==> exists|k: int| 0 <= k < out@.len() && out@[k] == #[trigger] a@[q],
            forall|q: int| 0 <= q < j ==> exists|k: int| 0 <= k < out@.len() && out@[k] == #[trigger] b@[q],
        decreases a@.len() + b@.len() - i - j,
    {
        let take_a = if i < a.len() && j < b.len() {
            before(keys, ascending, a[i], b[j])
        } else {
            i < a.len()
        };
        let ghost prev = out@;
        if take_a {
            let x = a[i];
            proof {
                if j < b@.len() {
                    assert forall|q: int| j <= q < b@.len() implies row_before(km, ascending, x as int, #[trigger] b@[q] as int) by {
                        if q > j {
                            lemma_row_before(km, ascending, x as int, b@[j as int] as int, b@[q] as int);
                        }
                    }
                }
            }
            out.push(x);
            i = i + 1;
        } else {
            let x = b[j];
            proof {
                if i < a@.len() {
                    lemma_row_before(km, ascending, a@[i as int] as int, x as int, x as int);
                    assert forall|q: int| i <= q < a@.len() implies row_before(km, ascending, x as int, #[trigger] a@[q] as int) by {
                        if q > i {
                            lemma_row_before(km, ascending, x as int, a@[i as int] as int, a@[q] as int);
                        }
                    }
                }
            }
            out.push(x);
            j = j + 1;
        }
        proof {
            assert forall|x: int, y: int| 0 <= x < y < out@.len() implies row_before(km, ascending, out@[x] as int, out@[y] as int) by {
                if y == out@.len() - 1 {
                    assert(out@[x] == prev[x]);
                } else {
                    assert(out@[x] == prev[x] && out@[y] == prev[y]);
                }
            }
            assert forall|x: int, q: int| #![trigger out@[x], a@[q]] 0 <= x < out@.len() && i <= q < a@.len() implies row_before(km, ascending, out@[x] as int, a@[q] as int) by {
                if x < prev.len() {
                    assert(out@[x] == prev[x]);
                    if take_a {
                        assert(row_before(km, ascending, prev[x] as int, a@[q] as int));
                    }
                } else if take_a {
                    assert(out@[x] == a@[i - 1]);
                }
            }
            assert forall|x: int, q: int| #![trigger out@[x], b@[q]] 0 <= x < out@.len() && j <= q < b@.len() implies row_before(km, ascending, out@[x] as int, b@[q] as int) by {
                if x < prev.len() {
                    assert(out@[x] == prev[x]);
                } else if !take_a {
                    assert(out@[x] == b@[j - 1]);
                }
            }
            assert forall|q: int| 0 <= q < i implies exists|k: int| 0 <= k < out@.len() && out@[k] == #[trigger] a@[q] by {
                if take_a && q == i - 1 {
                    assert(out@[out@.len() - 1] == a@[q]);
                } else {
                    let k = choose|k: int| 0 <= k < prev.len() && prev[k] == a@[q];
                    assert(out@[k] == prev[k]);
                }
            }
            assert forall|q: int| 0 <= q < j implies exists|k: int| 0 <= k < out@.len() && out@[k] == #[trigger] b@[q] by {
                if !take_a && q == j - 1 {
                    assert(out@[out@.len() - 1] == b@[q]);
                } else {
                    let k = choose|k: int| 0 <= k < prev.len() && prev[k] == b@[q];
                    assert(out@[k] == prev[k]);
                }
            }
        }
    }
    assert forall|v: int| lo <= v < hi implies #[trigger] covers(out@, v) by {
        if v < mid {
            assert(covers(a@, v));
            let q = choose|q: int| 0 <= q < a@.len() && a@[q] == v;
            let k = choose|k: int| 0 <= k < out@.len() && out@[k] == #[trigger] a@[q];
            assert(out@[k] == v);
        } else {
            assert(covers(b@, v));
            let q = choose|q: int| 0 <= q < b@.len() && b@[q] == v;
            let k = choose|k: int| 0 <= k < out@.len() && out@[k] == #[trigger] b@[q];
            assert(out@[k] == v);
        }
    }
    out
}

/// `out` is the sorted form of the table `v`: `v` itself when it has no
/// batches, else one batch holding the rows of all batches in a sort order of
/// the named column.
pub open spec fn sorted_model(v: Seq<BatchModel>, name: Seq<char>, asc: bool, out: Seq<BatchModel>) -> bool {
    if v.len() == 0 {
        out == v
    } else {
        &&& uniform(v, v[0].fields)
        &&& field_index(v[0].fields, name) is Some
        &&& exists|p: Seq<int>|
            #![trigger is_sort_order(combined(v).columns[field_index(v[0].fields, name)->Some_0], asc, p)]
            is_sort_order(combined(v).columns[field_index(v[0].fields, name)->Some_0], asc, p)
                && out == seq![take_model(combined(v), p)]
    }
}

/// Sorting `v` by the named column fails with `e`: `SchemaMismatch` when the
/// batches disagree on their schema, else `UnknownColumn` when no column has the name.
pub open spec fn sort_error(v: Seq<BatchModel>, name: Seq<char>, e: FrameError) -> bool {
    v.len() > 0 && if !uniform(v, v[0].fields) {
        e == FrameError::SchemaMismatch
    } else {
        field_index(v[0].fields, name) is None && e == FrameError::UnknownColumn
    }
}

impl DataFrame {
    /// All rows in one batch, ordered by column `col_name`: nulls last, the rest
    /// ascending unless `ascending` is `Some(false)`, ties in original order. A
    /// table without batches comes back as it is.
    pub fn sort(&self, col_name: &str, ascending: Option<bool>) -> (r: Result<DataFrame, FrameError>)
        requires
            self.wf(),
        ensures
            match r {
                Ok(d) => d.wf() && sorted_model(self.view(), col_name@, match ascending {
                    Some(a) => a,
                    None => true,
                }, d.view()),
                Err(e) => sort_error(self.view(), col_name@, e),
            },
    {
        let asc = match ascending {
            Some(a) => a,
            None => true,
        };
        if self.batches.len() == 0 {
            return Ok(self.duplicate());
        }
        let ghost v = self.view();
        proof {
            lemma_rows_same(v);
            assert(v == self.batches@.map_values(|b: Batch| b.model()));
            assert forall|i: int| 0 <= i < self.batches@.len() implies (#[trigger] self.batches@[i]).wf() by {
                assert(v[i] == self.batches@[i].model());
            }
        }
        let all = match combine(&self.batches) {
            Ok(b) => b,
            Err(e) => {
                return Err(e);
            },
        };
        let c = match find_field(&all.fields, col_name) {
            Some(c) => c,
            None => {
                return Err(FrameError::UnknownColumn);
            },
        };
        let ghost cm = combined(v);
        let col = &all.columns[c];
        proof {
            assert(cm.columns[c as int] == col@);
            assert(cm.columns[c as int].len() == cm.rows);
        }
        let mut keys: Vec<SortKey> = Vec::new();
        let mut k: usize = 0;
        while k < col.len()
            invariant
                k <= col@.len(),
                keys@.len() == k,
                forall|q: int| 0 <= q < k ==> (#[trigger] keys@[q]).model() == key_of(col@[q]),
            decreases col@.len() - k,
        {
            keys.push(key_for(&col[k]));
            k = k + 1;
        }
        assert(keys_model(keys@) =~= col@.map_values(|x: Value| key_of(x)));
        let p = sort_order(&keys, asc);
        let out = all.take(&p);
        let d = DataFrame { batches: vec![out] };
        proof {
            let pm = idx_model(p@);
            assert(is_sort_order(col@, asc, pm));
            assert(d.view() =~= seq![take_model(cm, pm)]);
            assert(frame_rows(d.view()) == out.num_rows) by {
                assert(d.view().drop_first() =~= Seq::<BatchModel>::empty());
                assert(frame_rows(Seq::<BatchModel>::empty()) == 0);
                assert(d.view()[0] == out.model());
            }
            assert(model_wf(d.view()[0]));
            assert(all_wf(d.view()));
            assert(field_index(v[0].fields, col_name@) == Some(c as int));
            assert(combined(v).columns[c as int] == col@);
            assert(is_sort_order(combined(v).columns[field_index(v[0].fields, col_name@)->Some_0], asc, pm)
                && d.view() == seq![take_model(combined(v), pm)]);
            assert(sorted_model(v, col_name@, asc, d.view()));
        }
        Ok(d)
    }
}

/// The sorted table: in the sort column of the one output batch, nulls come
/// after every non-null cell, the keys never go against the chosen direction,
/// and rows with equal keys keep the order they had in the input. Row `k` of
/// the output is input row `p[k]`, and `p` lists every input row once.
pub proof fn law_sorted_table(v: Seq<BatchModel>, name: Seq<char>, ascending: bool, out: Seq<BatchModel>)
    requires
        v.len() > 0,
        sorted_model(v, name, ascending, out),
    ensures
        ({
            let c = field_index(v[0].fields, name)->Some_0;
            let src = combined(v).columns[c];
            let col = out[0].columns[c];
            exists|p: Seq<int>| #![trigger is_sort_order(src, ascending, p)]
                is_sort_order(src, ascending, p) && col.len() == p.len() && p.len() == src.len()
                && (forall|a: int, b: int| 0 <= a < b < p.len() ==> p[a] != p[b])
                && (forall|k: int| 0 <= k < col.len() ==> #[trigger] col[k] == src[p[k]])
                && (forall|a: int, b: int| 0 <= a < b < col.len() ==> {
                    &&& (col[a] is Null ==> col[b] is Null)
                    &&& (key_of(col[a]) == key_of(col[b]) ==> p[a] < p[b])
                    &&& (!(col[b] is Null) ==> !(if ascending { key_lt(key_of(col[b]), key_of(col[a])) } else { key_lt(key_of(col[a]), key_of(col[b])) }))
                })
        }),
{
    let c = field_index(v[0].fields, name)->Some_0;
    let src = combined(v).columns[c];
    let col = out[0].columns[c];
    let p = choose|p: Seq<int>| #![trigger is_sort_order(src, ascending, p)]
        is_sort_order(src, ascending, p) && out == seq![take_model(combined(v), p)];
    assert(0 <= c < v[0].fields.len()) by {
        assert(is_first_named(v[0].fields, name, c)) by {
            let i = choose|i: int| is_first_named(v[0].fields, name, i);
        }
    }
    assert(col == p.map_values(|i: int| src[i]));
    let km = src.map_values(|x: Value| key_of(x));
    assert forall|a: int, b: int| 0 <= a < b < col.len() implies {
        &&& (col[a] is Null ==> col[b] is Null)
        &&& (key_of(col[a]) == key_of(col[b]) ==> p[a] < p[b])
        &&& (!(col[b] is Null) ==> !(if ascending { key_lt(key_of(col[b]), key_of(col[a])) } else { key_lt(key_of(col[a]), key_of(col[b])) }))
    } by {
        assert(row_before(km, ascending, p[a], p[b]));
        assert(km[p[a]] == key_of(col[a]));
        assert(km[p[b]] == key_of(col[b]));
        lemma_key_order(km[p[a]], km[p[b]], km[p[b]]);
        lemma_key_order(km[p[b]], km[p[a]], km[p[a]]);
    }
    assert forall|a: int, b: int| 0 <= a < b < p.len() implies p[a] != p[b] by {
        assert(row_before(km, ascending, p[a], p[b]));
        lemma_row_before(km, ascending, p[a], p[a], p[a]);
    }
}

/// Sorting keeps ties in their original order and puts nulls last: in a sort
/// order, two rows with equal keys keep their relative order, and no null row
/// comes before a non-null one, whichever the direction.
pub proof fn law_sort_stable_nulls_last(col: Seq<Value>, ascending: bool, p: Seq<int>, a: int, b: int)
    requires
        is_sort_order(col, ascending, p),
        0 <= a < b < p.len(),
    ensures
        key_of(col[p[a]]) == key_of(col[p[b]]) ==> p[a] < p[b],
        col[p[a]] is Null ==> col[p[b]] is Null,
{
    let km = col.map_values(|v: Value| key_of(v));
    assert(row_before(km, ascending, p[a], p[b]));
    assert(km[p[a]] == key_of(col[p[a]]));
    assert(km[p[b]] == key_of(col[p[b]]));
    lemma_key_order(km[p[a]], km[p[b]], km[p[b]]);
}

} // verus!
