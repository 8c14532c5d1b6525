use vstd::prelude::*;
use crate::batch::{combine, combined, field_index, find_field, idx_model, lemma_selected, selected, selected_positions, take_column, uniform, Batch, BatchModel};
use crate::frame::{all_wf, frame_rows, lemma_rows_same, DataFrame};
use crate::text::{text_cast_error, castable, chars_of, column_to_text, opt_view, string_from_chars, text_of};
use crate::order::{
    covers, key_lt, keys_model, lemma_key_order, lemma_text_lt_irrefl, lemma_text_lt_total,
    lemma_text_lt_trans,
    row_before, sort_order, text_less, text_lt, KeyModel, SortKey,
};
use crate::types::{fits, Field, FrameError, Value};

verus! {

/// The suffix that marks a right-hand column in a join result.
pub open spec fn right_suffix() -> Seq<char> {
    seq!['_', 'r', 'i', 'g', 'h', 't']
}

/// The join key of each row: its text, or `None` for null.
pub open spec fn key_texts(col: Seq<Value>) -> Seq<Option<Seq<char>>> {
    col.map_values(|v: Value| text_of(v))
}

/// The right rows whose key is `key`, in order.
pub open spec fn matches_of(rk: Seq<Option<Seq<char>>>, key: Seq<char>) -> Seq<int> {
    selected(rk.map_values(|t: Option<Seq<char>>| t == Some(key)))
}

/// The right rows that match left row `i` (none for a null key).
pub open spec fn row_matches(lk: Seq<Option<Seq<char>>>, rk: Seq<Option<Seq<char>>>, i: int) -> Seq<int> {
    match lk[i] {
        Some(k) => matches_of(rk, k),
        None => Seq::empty(),
    }
}

/// The (left row, right row) pairs of the join, in left order and, for each
/// left row, right order; a left join adds `(i, None)` for an unmatched left row.
pub open spec fn join_pairs(lk: Seq<Option<Seq<char>>>, rk: Seq<Option<Seq<char>>>, left: bool) -> Seq<(int, Option<int>)>
    decreases lk.len(),
{
    if lk.len() == 0 {
        Seq::empty()
    } else {
        let i = lk.len() - 1;
        let prev = join_pairs(lk.drop_last(), rk, left);
        let ms = row_matches(lk, rk, i);
        if ms.len() > 0 {
            prev + ms.map_values(|j: int| (i, Some(j)))
        } else if left {
            prev.push((i, None))
        } else {
            prev
        }
    }
}

/// `out` is the join of batches `l` and `r` on columns `il` and `ir`: the left
/// columns, then the right columns but the key, renamed with `_right` and
/// nullable exactly in a left join, one row per pair of `join_pairs`.
pub open spec fn joined(l: BatchModel, r: BatchModel, il: int, ir: int, left: bool, out: BatchModel) -> bool {
    let pairs = join_pairs(key_texts(l.columns[il]), key_texts(r.columns[ir]), left);
    let nl = l.fields.len();
    let rf = r.fields.remove(ir);
    let rc = r.columns.remove(ir);
    &&& out.rows == pairs.len()
    &&& out.fields.len() == nl + rf.len()
    &&& out.columns.len() == out.fields.len()
    &&& forall|c: int| 0 <= c < nl ==> #[trigger] out.fields[c] == l.fields[c]
    &&& forall|c: int| 0 <= c < nl ==> #[trigger] out.columns[c] == pairs.map_values(|p: (int, Option<int>)| l.columns[c][p.0])
    &&& forall|k: int| 0 <= k < rf.len() ==> {
        &&& (#[trigger] out.fields[nl + k]).name@ == rf[k].name@ + right_suffix()
        &&& out.fields[nl + k].dtype == rf[k].dtype
        &&& out.fields[nl + k].nullable == left
    }
    &&& forall|k: int| 0 <= k < rc.len() ==> #[trigger] out.columns[nl + k] == pairs.map_values(
        |p: (int, Option<int>)| match p.1 {
            Some(j) => rc[k][j],
            None => Value::Null,
        },
    )
}

/// The join of tables `v` and `w` on column `on` succeeds as `out`.
pub open spec fn join_model(v: Seq<BatchModel>, w: Seq<BatchModel>, on: Seq<char>, left: bool, out: Seq<BatchModel>) -> bool {
    if v.len() == 0 || w.len() == 0 {
        out == v
    } else {
        let l = combined(v);
        let r = combined(w);
        &&& uniform(v, v[0].fields)
        &&& uniform(w, w[0].fields)
        &&& field_index(l.fields, on) is Some
        &&& field_index(r.fields, on) is Some
        &&& castable(l.columns[field_index(l.fields, on)->Some_0])
        &&& castable(r.columns[field_index(r.fields, on)->Some_0])
        &&& out.len() == 1
        &&& joined(l, r, field_index(l.fields, on)->Some_0, field_index(r.fields, on)->Some_0, left, out[0])
    }
}

/// The join of tables `v` and `w` on column `on` fails with `e`: the first of
/// these that holds decides, in this order: a side's batches disagree on their
/// schema, a side has no column `on`, a side's key column cannot be cast to text.
pub open spec fn join_error(v: Seq<BatchModel>, w: Seq<BatchModel>, on: Seq<char>, e: FrameError) -> bool {
    &&& v.len() > 0
    &&& w.len() > 0
    &&& if !uniform(v, v[0].fields) || !uniform(w, w[0].fields) {
        e == FrameError::SchemaMismatch
    } else {
        let l = combined(v);
        let r = combined(w);
        if field_index(l.fields, on) is None || field_index(r.fields, on) is None {
            e == FrameError::UnknownColumn
        } else {
            &&& !castable(l.columns[field_index(l.fields, on)->Some_0]) || !castable(r.columns[field_index(r.fields, on)->Some_0])
            &&& e == text_cast_error()
        }
    }
}

spec fn opt_int(o: Option<usize>) -> Option<int> {
    match o {
        Some(j) => Some(j as int),
        None => None,
    }
}

/// The cells of `col` at the positions `idx`, null where a position is `None`.
fn take_column_opt(col: &Vec<Value>, idx: &Vec<Option<usize>>) -> (r: Vec<Value>)
    requires
        forall|k: int| 0 <= k < idx@.len() ==> (#[trigger] idx@[k] matches Some(j) ==> j < col@.len()),
    ensures
        r@.len() == idx@.len(),
        forall|k: int| 0 <= k < idx@.len() ==> #[trigger] r@[k] == match idx@[k] {
            Some(j) => col@[j as int],
            None => Value::Null,
        },
{
    let mut r: Vec<Value> = Vec::new();
    let mut k: usize = 0;
    while k < idx.len()
        invariant
            k <= idx@.len(),
            forall|q: int| 0 <= q < idx@.len() ==> (#[trigger] idx@[q] matches Some(j) ==> j < col@.len()),
            r@.len() == k,
            forall|q: int| 0 <= q < k ==> #[trigger] r@[q] == match idx@[q] {
                Some(j) => col@[j as int],
                None => Value::Null,
            },
        decreases idx@.len() - k,
    {
        let v = match idx[k] {
            Some(j) => col[j].duplicate(),
            None => Value::Null,
        };
        r.push(v);
        k = k + 1;
    }
    r
}

/// The sort key of a join key: its text, or null.
pub open spec fn opt_key(t: Option<Seq<char>>) -> KeyModel {
    match t {
        Some(x) => KeyModel::Text(x),
        None => KeyModel::Null,
    }
}

/// The key at `x` is a text that comes before `k`.
pub open spec fn text_below(km: Seq<KeyModel>, x: int, k: Seq<char>) -> bool {
    match km[x] {
        KeyModel::Text(t) => text_lt(t, k),
        _ => false,
    }
}

proof fn lemma_below_mono(km: Seq<KeyModel>, x: int, y: int, k: Seq<char>)
    requires
        !(km[x] is Num),
        !(km[y] is Num),
        row_before(km, true, x, y),
    ensures
        text_below(km, y, k) ==> text_below(km, x, k),
{
    if text_below(km, y, k) {
        let u = km[y]->Text_0;
        let t = km[x]->Text_0;
        lemma_key_order(km[x], km[y], KeyModel::Text(k));
        if key_lt(km[x], km[y]) {
            lemma_text_lt_trans(t, u, k);
        } else if t != u {
            lemma_text_lt_total(t, u);
        }
    }
}

proof fn lemma_past_key(km: Seq<KeyModel>, x: int, y: int, k: Seq<char>)
    requires
        !(km[x] is Num),
        !text_below(km, x, k),
        km[x] != KeyModel::Text(k),
        row_before(km, true, x, y),
    ensures
        km[y] != KeyModel::Text(k),
{
    if km[y] == KeyModel::Text(k) && km[x] is Text {
        let t = km[x]->Text_0;
        assert(t != k);
        lemma_text_lt_total(t, k);
        assert(text_lt(k, t));
        lemma_key_order(km[x], km[y], km[y]);
    }
}

/// Two strictly increasing sequences with the same elements are equal.
proof fn lemma_sorted_unique(a: Seq<int>, b: Seq<int>)
    requires
        forall|x: int, y: int| 0 <= x < y < a.len() ==> a[x] < a[y],
        forall|x: int, y: int| 0 <= x < y < b.len() ==> b[x] < b[y],
        forall|v: int| a.contains(v) <==> b.contains(v),
    ensures
        a == b,
    decreases a.len(),
{
    if a.len() == 0 {
        if b.len() > 0 {
            assert(b.contains(b[0]));
        }
        assert(a =~= b);
    } else {
        assert(a.contains(a[0]));
        assert(b.len() > 0);
        assert(b.contains(b[0]));
        let ka = choose|i: int| 0 <= i < b.len() && b[i] == a[0];
        let kb = choose|i: int| 0 <= i < a.len() && a[i] == b[0];
        assert(a[0] == b[0]) by {
            if ka > 0 {
                assert(b[0] < b[ka]);
            }
            if kb > 0 {
                assert(a[0] < a[kb]);
            }
        }
        let (ta, tb) = (a.drop_first(), b.drop_first());
        assert forall|v: int| ta.contains(v) <==> tb.contains(v) by {
            if ta.contains(v) {
                let i = choose|i: int| 0 <= i < ta.len() && ta[i] == v;
                assert(a[i + 1] == v && a[0] < a[i + 1]);
                assert(a.contains(v));
                let j = choose|j: int| 0 <= j < b.len() && b[j] == v;
                assert(j > 0);
                assert(tb[j - 1] == v);
            }
            if tb.contains(v) {
                let i = choose|i: int| 0 <= i < tb.len() && tb[i] == v;
                assert(b[i + 1] == v && b[0] < b[i + 1]);
                assert(b.contains(v));
                let j = choose|j: int| 0 <= j < a.len() && a[j] == v;
                assert(j > 0);
                assert(ta[j - 1] == v);
            }
        }
        lemma_sorted_unique(ta, tb);
        assert(a =~= seq![a[0]] + ta);
        assert(b =~= seq![b[0]] + tb);
    }
}

fn key_is(k: &SortKey, key: &Vec<char>) -> (r: bool)
    ensures
        r == (k.model() == KeyModel::Text(key@)),
{
    match k {
        SortKey::Text(t) => {
            let r = !text_less(t, key) && !text_less(key, t);
            proof {
                if t@ != key@ {
                    lemma_text_lt_total(t@, key@);
                }
                lemma_text_lt_irrefl(key@);
            }
            r
        },
        _ => false,
    }
}

/// The right rows whose key is `key`, in order, found by binary search in the
/// right rows sorted by key.
fn lookup(rkeys: &Vec<SortKey>, rsort: &Vec<usize>, key: &Vec<char>, Ghost(rm): Ghost<Seq<Option<Seq<char>>>>) -> (ms: Vec<usize>)
    requires
        rkeys@.len() == rm.len(),
        forall|j: int| 0 <= j < rm.len() ==> (#[trigger] rkeys@[j]).model() == opt_key(rm[j]),
        rsort@.len() == rkeys@.len(),
        forall|k: int| 0 <= k < rsort@.len() ==> #[trigger] rsort@[k] < rkeys@.len(),
        forall|a: int, b: int|
            0 <= a < b < rsort@.len() ==> row_before(keys_model(rkeys@), true, rsort@[a] as int, rsort@[b] as int),
        forall|j: int| 0 <= j < rkeys@.len() ==> #[trigger] covers(rsort@, j),
    ensures
        idx_model(ms@) == matches_of(rm, key@),
        forall|k: int| 0 <= k < ms@.len() ==> #[trigger] ms@[k] < rm.len(),
{
    let ghost km = keys_model(rkeys@);
    let ghost k = key@;
    proof {
        assert forall|j: int| 0 <= j < km.len() implies !(#[trigger] km[j] is Num) by {
            assert(km[j] == rkeys@[j].model());
        }
    }
    let n = rsort.len();
    let mut lo: usize = 0;
    let mut hi: usize = n;
    while lo < hi
        invariant
            km == keys_model(rkeys@),
            k == key@,
            n == rsort@.len(),
            lo <= hi <= n,
            forall|j: int| 0 <= j < km.len() ==> !(#[trigger] km[j] is Num),
            forall|q: int| 0 <= q < rsort@.len() ==> #[trigger] rsort@[q] < rkeys@.len(),
            forall|a: int, b: int|
                0 <= a < b < rsort@.len() ==> row_before(km, true, rsort@[a] as int, rsort@[b] as int),
            forall|q: int| 0 <= q < lo ==> text_below(km, #[trigger] rsort@[q] as int, k),
            forall|q: int| hi <= q < n ==> !text_below(km, #[trigger] rsort@[q] as int, k),
        decreases hi - lo,
    {
        let mid = lo + (hi - lo) / 2;
        let below = match &rkeys[rsort[mid]] {
            SortKey::Text(t) => text_less(t, key),
            _ => false,
        };
        proof {
            assert(km[rsort@[mid as int] as int] == rkeys@[rsort@[mid as int] as int].model());
        }
        if below {
            proof {
                assert forall|q: int| 0 <= q < mid + 1 implies text_below(km, #[trigger] rsort@[q] as int, k) by {
                    if q < mid {
                        lemma_below_mono(km, rsort@[q] as int, rsort@[mid as int] as int, k);
                    }
                }
            }
            lo = mid + 1;
        } else {
            proof {
                assert forall|q: int| mid <= q < n implies !text_below(km, #[trigger] rsort@[q] as int, k) by {
                    if q > mid {
                        lemma_below_mono(km, rsort@[mid as int] as int, rsort@[q] as int, k);
                    }
                }
            }
            hi = mid;
        }
    }
    let mut ms: Vec<usize> = Vec::new();
    let mut q: usize = lo;
    let mut go = q < n && key_is(&rkeys[rsort[q]], key);
    while go
        invariant
            km == keys_model(rkeys@),
            k == key@,
            n == rsort@.len(),
            lo <= q <= n,
            forall|j: int| 0 <= j < km.len() ==> !(#[trigger] km[j] is Num),
            forall|x: int| 0 <= x < rsort@.len() ==> #[trigger] rsort@[x] < rkeys@.len(),
            forall|a: int, b: int|
                0 <= a < b < rsort@.len() ==> row_before(km, true, rsort@[a] as int, rsort@[b] as int),
            forall|x: int| 0 <= x < lo ==> text_below(km, #[trigger] rsort@[x] as int, k),
            forall|x: int| lo <= x < n ==> !text_below(km, #[trigger] rsort@[x] as int, k),
            ms@ == rsort@.subrange(lo as int, q as int),
            forall|x: int| lo <= x < q ==> km[#[trigger] rsort@[x] as int] == KeyModel::Text(k),
            go ==> q < n && km[rsort@[q as int] as int] == KeyModel::Text(k),
            !go ==> q == n || km[rsort@[q as int] as int] != KeyModel::Text(k),
        decreases n - q,
    {
        proof {
            assert(km[rsort@[q as int] as int] == rkeys@[rsort@[q as int] as int].model());
        }
        ms.push(rsort[q]);
        assert(ms@ =~= rsort@.subrange(lo as int, q + 1));
        q = q + 1;
        go = q < n && key_is(&rkeys[rsort[q]], key);
        proof {
            if q < n {
                assert(km[rsort@[q as int] as int] == rkeys@[rsort@[q as int] as int].model());
            }
        }
    }
    proof {
        let mask = rm.map_values(|t: Option<Seq<char>>| t == Some(k));
        let want = matches_of(rm, k);
        let got = idx_model(ms@);
        lemma_selected(mask);
        lemma_text_lt_irrefl(k);
        assert forall|x: int, y: int| 0 <= x < y < got.len() implies got[x] < got[y] by {
            let (px, py) = (rsort@[lo + x] as int, rsort@[lo + y] as int);
            assert(row_before(km, true, px, py));
            assert(km[px] == KeyModel::Text(k) && km[py] == KeyModel::Text(k));
        }
        assert forall|v: int| got.contains(v) <==> want.contains(v) by {
            if got.contains(v) {
                let i = choose|i: int| 0 <= i < got.len() && got[i] == v;
                assert(km[rsort@[lo + i] as int] == KeyModel::Text(k));
                assert(rsort@[lo + i] as int == v);
                assert(km[v] == rkeys@[v].model());
                assert(mask[v]);
            }
            if want.contains(v) {
                let i = choose|i: int| 0 <= i < want.len() && want[i] == v;
                assert(mask[v]);
                assert(km[v] == rkeys@[v].model());
                assert(km[v] == KeyModel::Text(k));
                assert(covers(rsort@, v));
                let x = choose|x: int| 0 <= x < rsort@.len() && rsort@[x] == v;
                if x < lo {
                    assert(text_below(km, rsort@[x] as int, k));
                }
                if x >= q {
                    assert(q < n);
                    if x > q {
                        lemma_past_key(km, rsort@[q as int] as int, rsort@[x] as int, k);
                    }
                }
                assert(got[x - lo] == v);
            }
        }
        lemma_sorted_unique(got, want);
    }
    ms
}

/// The row pairs of the join of the key texts `lk` and `rk`.
fn pair_rows(lk: &Vec<Option<String>>, rk: &Vec<Option<String>>, left: bool) -> (r: (Vec<usize>, Vec<Option<usize>>))
    ensures
        r.0@.len() == r.1@.len(),
        r.0@.len() == join_pairs(lk@.map_values(|t: Option<String>| opt_view(t)), rk@.map_values(|t: Option<String>| opt_view(t)), left).len(),
        forall|k: int| 0 <= k < r.0@.len() ==> (#[trigger] r.0@[k] as int, opt_int(r.1@[k])) == join_pairs(
            lk@.map_values(|t: Option<String>| opt_view(t)),
            rk@.map_values(|t: Option<String>| opt_view(t)),
            left,
        )[k],
        forall|k: int| 0 <= k < r.0@.len() ==> #[trigger] r.0@[k] < lk@.len(),
        forall|k: int| 0 <= k < r.1@.len() ==> (#[trigger] r.1@[k] matches Some(j) ==> j < rk@.len()),
{
    let ghost lm = lk@.map_values(|t: Option<String>| opt_view(t));
    let ghost rm = rk@.map_values(|t: Option<String>| opt_view(t));
    let mut rkeys: Vec<SortKey> = Vec::new();
    let mut j: usize = 0;
    while j < rk.len()
        invariant
            rm == rk@.map_values(|t: Option<String>| opt_view(t)),
            j <= rk@.len(),
            rkeys@.len() == j,
            forall|q: int| 0 <= q < j ==> (#[trigger] rkeys@[q]).model() == opt_key(rm[q]),
        decreases rk@.len() - j,
    {
        let k = match &rk[j] {
            Some(s) => SortKey::Text(chars_of(s.as_str())),
            None => SortKey::Null,
        };
        rkeys.push(k);
        j = j + 1;
    }
    let rsort = sort_order(&rkeys, true);
    let mut li: Vec<usize> = Vec::new();
    let mut ri: Vec<Option<usize>> = Vec::new();
    let mut i: usize = 0;
    while i < lk.len()
        invariant
            lm == lk@.map_values(|t: Option<String>| opt_view(t)),
            rm == rk@.map_values(|t: Option<String>| opt_view(t)),
            rkeys@.len() == rm.len(),
            forall|j: int| 0 <= j < rm.len() ==> (#[trigger] rkeys@[j]).model() == opt_key(rm[j]),
            rsort@.len() == rkeys@.len(),
            forall|k: int| 0 <= k < rsort@.len() ==> #[trigger] rsort@[k] < rkeys@.len(),
            forall|a: int, b: int|
                0 <= a < b < rsort@.len() ==> row_before(keys_model(rkeys@), true, rsort@[a] as int, rsort@[b] as int),
            forall|j: int| 0 <= j < rkeys@.len() ==> #[trigger] covers(rsort@, j),
            i <= lk@.len(),
            li@.len() == ri@.len(),
            li@.len() == join_pairs(lm.subrange(0, i as int), rm, left).len(),
            forall|k: int| 0 <= k < li@.len() ==> (#[trigger] li@[k] as int, opt_int(ri@[k])) == join_pairs(lm.subrange(0, i as int), rm, left)[k],
            forall|k: int| 0 <= k < li@.len() ==> #[trigger] li@[k] < i,
            forall|k: int| 0 <= k < ri@.len() ==> (#[trigger] ri@[k] matches Some(j) ==> j < rk@.len()),
        decreases lk@.len() - i,
    {
        let ghost pre = lm.subrange(0, i as int);
        let ghost cur = lm.subrange(0, i + 1);
        let ghost prev = join_pairs(pre, rm, left);
        proof {
            assert(cur.drop_last() =~= pre);
            assert(cur[i as int] == lm[i as int]);
        }
        let mut found = false;
        match &lk[i] {
            Some(key) => {
                let kc = chars_of(key.as_str());
                let ms = lookup(&rkeys, &rsort, &kc, Ghost(rm));
                proof {
                    assert(row_matches(cur, rm, i as int) == idx_model(ms@));
                }
                let ghost base = li@.len();
                let mut q: usize = 0;
                while q < ms.len()
                    invariant
                        i < lk@.len(),
                        q <= ms@.len(),
                        li@.len() == ri@.len(),
                        li@.len() == base + q,
                        base == prev.len(),
                        forall|k: int| 0 <= k < ms@.len() ==> #[trigger] ms@[k] < rk@.len(),
                        forall|k: int| 0 <= k < base ==> (#[trigger] li@[k] as int, opt_int(ri@[k])) == prev[k],
                        forall|k: int| base <= k < li@.len() ==> (#[trigger] li@[k] as int, opt_int(ri@[k])) == (i as int, Some(ms@[k - base] as int)),
                        forall|k: int| 0 <= k < li@.len() ==> #[trigger] li@[k] < i + 1,
                        forall|k: int| 0 <= k < ri@.len() ==> (#[trigger] ri@[k] matches Some(j) ==> j < rk@.len()),
                    decreases ms@.len() - q,
                {
                    li.push(i);
                    ri.push(Some(ms[q]));
                    q = q + 1;
                }
                found = ms.len() > 0;
                proof {
                    let want = join_pairs(cur, rm, left);
                    if ms@.len() > 0 {
                        assert(want == prev + idx_model(ms@).map_values(|j: int| (i as int, Some(j))));
                        assert forall|k: int| 0 <= k < li@.len() implies (#[trigger] li@[k] as int, opt_int(ri@[k])) == want[k] by {
                            if k >= base {
                                assert(want[k] == (i as int, Some(ms@[k - base] as int)));
                            }
                        }
                    }
                }
            },
            None => {
                proof {
                    assert(row_matches(cur, rm, i as int) =~= Seq::<int>::empty());
                }
            },
        }
        if !found && left {
            li.push(i);
            ri.push(None);
        }
        proof {
            let want = join_pairs(cur, rm, left);
            if !found {
                assert(row_matches(cur, rm, i as int).len() == 0);
                if left {
                    assert(want == prev.push((i as int, None::<int>)));
                } else {
                    assert(want == prev);
                }
            }
            assert(li@.len() == want.len());
        }
        i = i + 1;
    }
    assert(lm.subrange(0, i as int) =~= lm);
    (li, ri)
}

/// The name with the right-hand suffix.
fn right_name(name: &String) -> (r: String)
    ensures
        r@ == name@ + right_suffix(),
{
    let mut cs = chars_of(name.as_str());
    cs.push('_');
    cs.push('r');
    cs.push('i');
    cs.push('g');
    cs.push('h');
    cs.push('t');
    let r = string_from_chars(&cs);
    assert(r@ =~= name@ + right_suffix());
    r
}

/// Builds the join batch of `l` and `r` on columns `il` and `ir`, given their key texts.
fn join_batches(
    l: &Batch,
    r: &Batch,
    il: usize,
    ir: usize,
    lk: &Vec<Option<String>>,
    rk: &Vec<Option<String>>,
    left: bool,
) -> (out: Batch)
    requires
        l.wf(),
        r.wf(),
        il < l.fields@.len(),
        ir < r.fields@.len(),
        lk@.map_values(|t: Option<String>| opt_view(t)) == key_texts(l.model().columns[il as int]),
        rk@.map_values(|t: Option<String>| opt_view(t)) == key_texts(r.model().columns[ir as int]),
    ensures
        out.wf(),
        joined(l.model(), r.model(), il as int, ir as int, left, out.model()),
{
    let ghost lm = l.model();
    let ghost rmod = r.model();
    proof {
        assert(lm.columns[il as int].len() == lm.rows);
        assert(rmod.columns[ir as int].len() == rmod.rows);
    }
    let (li, ri) = pair_rows(lk, rk, left);
    let ghost pairs = join_pairs(key_texts(lm.columns[il as int]), key_texts(rmod.columns[ir as int]), left);
    proof {
        assert(rk@.len() == rmod.rows) by {
            assert(rk@.map_values(|t: Option<String>| opt_view(t)).len() == rk@.len());
        }
        assert forall|k: int| 0 <= k < ri@.len() implies opt_int(#[trigger] ri@[k]) == pairs[k].1 by {
            assert((li@[k] as int, opt_int(ri@[k])) == pairs[k]);
        }
    }
    let mut fields: Vec<Field> = Vec::new();
    let mut columns: Vec<Vec<Value>> = Vec::new();
    let mut c: usize = 0;
    while c < l.fields.len()
        invariant
            l.wf(),
            lm == l.model(),
            c <= l.fields@.len(),
            fields@.len() == c,
            columns@.len() == c,
            li@.len() == pairs.len(),
            forall|k: int| 0 <= k < li@.len() ==> (#[trigger] li@[k] as int) == pairs[k].0,
            forall|k: int| 0 <= k < li@.len() ==> #[trigger] li@[k] < lm.rows,
            ri@.len() == pairs.len(),
            forall|k: int| 0 <= k < ri@.len() ==> opt_int(#[trigger] ri@[k]) == pairs[k].1,
            forall|k: int| 0 <= k < ri@.len() ==> (#[trigger] ri@[k] matches Some(j) ==> j < rmod.rows),
            forall|q: int| 0 <= q < c ==> #[trigger] fields@[q] == lm.fields[q],
            forall|q: int| 0 <= q < c ==> (#[trigger] columns@[q])@ == pairs.map_values(|p: (int, Option<int>)| lm.columns[q][p.0]),
        decreases l.fields@.len() - c,
    {
        proof {
            assert(lm.columns[c as int] == l.columns@[c as int]@);
            assert(lm.columns[c as int].len() == lm.rows);
        }
        let col = take_column(&l.columns[c], &li);
        assert(col@ =~= pairs.map_values(|p: (int, Option<int>)| lm.columns[c as int][p.0]));
        columns.push(col);
        fields.push(l.fields[c].duplicate());
        c = c + 1;
    }
    let nl = l.fields.len();
    let mut c: usize = 0;
    while c < r.fields.len()
        invariant
            r.wf(),
            rmod == r.model(),
            ir < r.fields@.len(),
            c <= r.fields@.len(),
            nl == lm.fields.len(),
            fields@.len() == columns@.len(),
            fields@.len() == nl + (if c <= ir { c as int } else { c - 1 }),
            ri@.len() == pairs.len(),
            forall|k: int| 0 <= k < ri@.len() ==> opt_int(#[trigger] ri@[k]) == pairs[k].1,
            forall|k: int| 0 <= k < ri@.len() ==> (#[trigger] ri@[k] matches Some(j) ==> j < rmod.rows),
            forall|q: int| 0 <= q < nl ==> #[trigger] fields@[q] == lm.fields[q],
            forall|q: int| 0 <= q < nl ==> (#[trigger] columns@[q])@ == pairs.map_values(|p: (int, Option<int>)| lm.columns[q][p.0]),
            forall|k: int| 0 <= k < fields@.len() - nl ==> {
                &&& (#[trigger] fields@[nl + k]).name@ == rmod.fields.remove(ir as int)[k].name@ + right_suffix()
                &&& fields@[nl + k].dtype == rmod.fields.remove(ir as int)[k].dtype
                &&& fields@[nl + k].nullable == left
            },
            forall|k: int| 0 <= k < fields@.len() - nl ==> (#[trigger] columns@[nl + k])@ == pairs.map_values(
                |p: (int, Option<int>)| match p.1 {
                    Some(j) => rmod.columns.remove(ir as int)[k][j],
                    None => Value::Null,
                },
            ),
        decreases r.fields@.len() - c,
    {
        if c != ir {
            let ghost k: int = if c < ir { c as int } else { c - 1 };
            proof {
                assert(rmod.columns[c as int] == r.columns@[c as int]@);
                assert(rmod.columns[c as int].len() == rmod.rows);
                assert(rmod.columns.remove(ir as int)[k] == rmod.columns[c as int]);
                assert(rmod.fields.remove(ir as int)[k] == rmod.fields[c as int]);
            }
            let col = take_column_opt(&r.columns[c], &ri);
            assert(col@ =~= pairs.map_values(
                |p: (int, Option<int>)| match p.1 {
                    Some(j) => rmod.columns.remove(ir as int)[k][j],
                    None => Value::Null,
                },
            ));
            let f = Field { name: right_name(&r.fields[c].name), dtype: r.fields[c].dtype, nullable: left };
            columns.push(col);
            fields.push(f);
        }
        c = c + 1;
    }
    let out = Batch { fields, columns, num_rows: li.len() };
    proof {
        let m = out.model();
        let rc = rmod.columns.remove(ir as int);
        assert forall|q: int| 0 <= q < m.columns.len() implies #[trigger] m.columns[q].len() == m.rows by {
            assert(m.columns[q] == out.columns@[q]@);
            if q >= nl {
                let k = q - nl;
                assert(m.columns[nl + k] == out.columns@[nl + k]@);
            }
        }
        assert forall|q: int, w: int| 0 <= q < m.columns.len() && 0 <= w < m.rows implies fits(
            #[trigger] m.columns[q][w],
            m.fields[q].dtype,
        ) by {
            assert(m.columns[q] == out.columns@[q]@);
            if q < nl {
                assert(pairs[w].0 == li@[w] as int);
                assert(li@[w] < lm.rows);
                assert(lm.columns[q].len() == lm.rows);
                assert(m.columns[q][w] == lm.columns[q][pairs[w].0]);
            } else {
                let k = q - nl;
                let cidx = if k < ir { k } else { k + 1 };
                assert(rc[k] == rmod.columns[cidx]);
                assert(rmod.fields.remove(ir as int)[k] == rmod.fields[cidx]);
                assert(rmod.columns[cidx].len() == rmod.rows);
                assert(opt_int(ri@[w]) == pairs[w].1);
                assert(m.columns[nl + k] == out.columns@[nl + k]@);
                match pairs[w].1 {
                    Some(j) => {
                        assert(ri@[w] == Some(j as usize));
                        assert(m.columns[q][w] == rc[k][j]);
                    },
                    None => {
                        assert(m.columns[q][w] == Value::Null);
                    },
                }
            }
        }
        assert forall|k: int| 0 <= k < rc.len() implies #[trigger] m.columns[nl + k] == pairs.map_values(
            |p: (int, Option<int>)| match p.1 {
                Some(j) => rc[k][j],
                None => Value::Null,
            },
        ) by {
            assert(m.columns[nl + k] == out.columns@[nl + k]@);
        }
        assert forall|q: int| 0 <= q < nl implies #[trigger] m.columns[q] == pairs.map_values(|p: (int, Option<int>)| lm.columns[q][p.0]) by {
            assert(m.columns[q] == out.columns@[q]@);
        }
    }
    out
}

/// Whether the join mode names a left join.
pub open spec fn is_left_mode(how: Option<&str>) -> bool {
    how matches Some(h) && h@ == seq!['l', 'e', 'f', 't']
}

fn left_mode(how: Option<&str>) -> (r: bool)
    ensures
        r == is_left_mode(how),
{
    match how {
        Some(h) => {
            let hs: String = h.to_owned();
            let lf = string_from_chars(&vec!['l', 'e', 'f', 't']);
            assert(lf@ =~= seq!['l', 'e', 'f', 't']);
            hs == lf
        },
        None => false,
    }
}

impl DataFrame {
    /// Equality join with `other` on the column `on`, keys compared as text: an
    /// inner join, or a left join when `how` is `Some("left")`. The right rows
    /// are indexed by key once and each left row probes the index; a left row
    /// yields one row per matching right row, in right order. A table without
    /// batches on either side gives back `self` unchanged.
    pub fn join(&self, other: &DataFrame, on: &str, how: Option<&str>) -> (r: Result<DataFrame, FrameError>)
        requires
            self.wf(),
            other.wf(),
        ensures
            match r {
                Ok(d) => d.wf() && join_model(self.view(), other.view(), on@, is_left_mode(how), d.view()),
                Err(e) => join_error(self.view(), other.view(), on@, e),
            },
    {
        if self.batches.len() == 0 || other.batches.len() == 0 {
            return Ok(self.duplicate());
        }
        let left = left_mode(how);
        let ghost v = self.view();
        let ghost w = other.view();
        proof {
            lemma_rows_same(v);
            lemma_rows_same(w);
            assert(v == self.batches@.map_values(|b: Batch| b.model()));
            assert(w == other.batches@.map_values(|b: Batch| b.model()));
            assert forall|i: int| 0 <= i < self.batches@.len() implies (#[trigger] self.batches@[i]).wf() by {
                assert(v[i] == self.batches@[i].model());
            }
            assert forall|i: int| 0 <= i < other.batches@.len() implies (#[trigger] other.batches@[i]).wf() by {
                assert(w[i] == other.batches@[i].model());
            }
        }
        let lb = match combine(&self.batches) {
            Ok(b) => b,
            Err(e) => {
                return Err(e);
            },
        };
        let rb = match combine(&other.batches) {
            Ok(b) => b,
            Err(e) => {
                return Err(e);
            },
        };
        let il = match find_field(&lb.fields, on) {
            Some(i) => i,
            None => {
                return Err(FrameError::UnknownColumn);
            },
        };
        let ir = match find_field(&rb.fields, on) {
            Some(i) => i,
            None => {
                return Err(FrameError::UnknownColumn);
            },
        };
        proof {
            assert(lb.model().columns[il as int] == lb.columns@[il as int]@);
            assert(rb.model().columns[ir as int] == rb.columns@[ir as int]@);
        }
        let lk = match column_to_text(&lb.columns[il]) {
            Ok(t) => t,
            Err(e) => {
                return Err(e);
            },
        };
        let rk = match column_to_text(&rb.columns[ir]) {
            Ok(t) => t,
            Err(e) => {
                return Err(e);
            },
        };
        proof {
            assert(lk@.map_values(|t: Option<String>| opt_view(t)) =~= key_texts(lb.model().columns[il as int]));
            assert(rk@.map_values(|t: Option<String>| opt_view(t)) =~= key_texts(rb.model().columns[ir as int]));
        }
        let out = join_batches(&lb, &rb, il, ir, &lk, &rk, left);
        let d = DataFrame { batches: vec![out] };
        proof {
            assert(d.view() =~= seq![out.model()]);
            assert(frame_rows(d.view()) == out.num_rows) by {
                assert(d.view().drop_first() =~= Seq::<BatchModel>::empty());
                assert(frame_rows(Seq::<BatchModel>::empty()) == 0);
            }
            assert(all_wf(d.view()));
        }
        Ok(d)
    }
}

/// The number of right rows that match each left row, summed over the left rows.
pub open spec fn match_total(lk: Seq<Option<Seq<char>>>, rk: Seq<Option<Seq<char>>>) -> nat
    decreases lk.len(),
{
    if lk.len() == 0 {
        0
    } else {
        match_total(lk.drop_last(), rk) + row_matches(lk, rk, lk.len() - 1).len()
    }
}

/// The number of left rows that match no right row (null keys included).
pub open spec fn unmatched_total(lk: Seq<Option<Seq<char>>>, rk: Seq<Option<Seq<char>>>) -> nat
    decreases lk.len(),
{
    if lk.len() == 0 {
        0
    } else {
        unmatched_total(lk.drop_last(), rk) + if row_matches(lk, rk, lk.len() - 1).len() == 0 { 1nat } else { 0nat }
    }
}

proof fn lemma_row_matches_prefix(lk: Seq<Option<Seq<char>>>, rk: Seq<Option<Seq<char>>>, i: int)
    requires
        0 <= i < lk.len() - 1,
    ensures
        row_matches(lk.drop_last(), rk, i) == row_matches(lk, rk, i),
{
}

/// The join cardinality: an inner join has one row per matching (left row,
/// right row) pair, that is, for each key, the number of left rows with it
/// times the number of right rows with it; a left join has in addition one
/// row per left row that matches nothing, whose right-hand part is null.
pub proof fn law_join_cardinality(lk: Seq<Option<Seq<char>>>, rk: Seq<Option<Seq<char>>>)
    ensures
        join_pairs(lk, rk, false).len() == match_total(lk, rk),
        join_pairs(lk, rk, true).len() == match_total(lk, rk) + unmatched_total(lk, rk),
        forall|k: int| 0 <= k < join_pairs(lk, rk, true).len() ==> (#[trigger] join_pairs(lk, rk, true)[k]).1 is None
            ==> row_matches(lk, rk, join_pairs(lk, rk, true)[k].0).len() == 0,
    decreases lk.len(),
{
    if lk.len() > 0 {
        let p = lk.drop_last();
        law_join_cardinality(p, rk);
        let i = lk.len() - 1;
        let prev = join_pairs(p, rk, true);
        let cur = join_pairs(lk, rk, true);
        assert forall|k: int| 0 <= k < cur.len() && (#[trigger] cur[k]).1 is None implies row_matches(lk, rk, cur[k].0).len() == 0 by {
            if k < prev.len() {
                assert(cur[k] == prev[k]);
                lemma_pairs_rows(p, rk, true, k);
                lemma_row_matches_prefix(lk, rk, prev[k].0);
            } else {
                let ms = row_matches(lk, rk, i);
                if ms.len() > 0 {
                    assert(cur[k] == ms.map_values(|j: int| (i, Some(j)))[k - prev.len()]);
                }
            }
        }
    }
}

/// The number of rows whose key is `k`.
pub open spec fn count_key(ks: Seq<Option<Seq<char>>>, k: Seq<char>) -> nat
    decreases ks.len(),
{
    if ks.len() == 0 {
        0
    } else {
        count_key(ks.drop_last(), k) + if ks.last() == Some(k) { 1nat } else { 0nat }
    }
}

/// `Σ count_left(k) * count_right(k)` over the keys `keys`.
pub open spec fn keyed_sum(keys: Seq<Seq<char>>, lk: Seq<Option<Seq<char>>>, rk: Seq<Option<Seq<char>>>) -> nat
    decreases keys.len(),
{
    if keys.len() == 0 {
        0
    } else {
        keyed_sum(keys.drop_last(), lk, rk) + count_key(lk, keys.last()) * matches_of(rk, keys.last()).len()
    }
}

proof fn lemma_keyed_sum_step(keys: Seq<Seq<char>>, lk: Seq<Option<Seq<char>>>, rk: Seq<Option<Seq<char>>>)
    requires
        lk.len() > 0,
        forall|a: int, b: int| 0 <= a < b < keys.len() ==> keys[a] != keys[b],
    ensures
        keyed_sum(keys, lk, rk) == keyed_sum(keys, lk.drop_last(), rk) + match lk.last() {
            Some(k) => if keys.contains(k) { matches_of(rk, k).len() } else { 0nat },
            None => 0nat,
        },
    decreases keys.len(),
{
    if keys.len() > 0 {
        let p = keys.drop_last();
        assert forall|a: int, b: int| 0 <= a < b < p.len() implies p[a] != p[b] by {
            assert(p[a] == keys[a] && p[b] == keys[b]);
        }
        lemma_keyed_sum_step(p, lk, rk);
        let q = keys.last();
        let c0 = count_key(lk.drop_last(), q);
        let r = matches_of(rk, q).len();
        let hit = lk.last() == Some(q);
        assert(count_key(lk, q) == c0 + if hit { 1nat } else { 0nat });
        assert((c0 + 1) * r == c0 * r + r) by (nonlinear_arith);
        match lk.last() {
            Some(k) => {
                if keys.contains(k) {
                    let j = choose|j: int| 0 <= j < keys.len() && keys[j] == k;
                    if j == keys.len() - 1 {
                        assert(hit);
                        assert(!p.contains(k)) by {
                            if p.contains(k) {
                                let i = choose|i: int| 0 <= i < p.len() && p[i] == k;
                                assert(keys[i] == keys[j]);
                            }
                        }
                    } else {
                        assert(p[j] == k);
                        assert(p.contains(k));
                        assert(!hit);
                    }
                } else {
                    assert(!hit) by {
                        if hit {
                            assert(keys[keys.len() - 1] == k);
                        }
                    }
                    assert(!p.contains(k)) by {
                        if p.contains(k) {
                            let i = choose|i: int| 0 <= i < p.len() && p[i] == k;
                            assert(keys[i] == k);
                        }
                    }
                }
            },
            None => {},
        }
    }
}

/// Regrouped by key, the rows of an inner join number the sum, over a list of
/// distinct keys that holds every non-null left key, of the count of left rows
/// with that key times the count of right rows with it.
pub proof fn law_inner_join_by_key(lk: Seq<Option<Seq<char>>>, rk: Seq<Option<Seq<char>>>, keys: Seq<Seq<char>>)
    requires
        forall|a: int, b: int| 0 <= a < b < keys.len() ==> keys[a] != keys[b],
        forall|i: int| 0 <= i < lk.len() ==> (#[trigger] lk[i] matches Some(k) ==> keys.contains(k)),
    ensures
        join_pairs(lk, rk, false).len() == keyed_sum(keys, lk, rk),
    decreases lk.len(),
{
    law_join_cardinality(lk, rk);
    if lk.len() == 0 {
        lemma_keyed_sum_empty(keys, lk, rk);
    } else {
        let p = lk.drop_last();
        assert forall|i: int| 0 <= i < p.len() implies (#[trigger] p[i] matches Some(k) ==> keys.contains(k)) by {
            assert(p[i] == lk[i]);
        }
        law_inner_join_by_key(p, rk, keys);
        law_join_cardinality(p, rk);
        lemma_keyed_sum_step(keys, lk, rk);
        assert(lk[lk.len() - 1] == lk.last());
    }
}

/// The join cardinality on tables: when the join of `v` and `w` on `on`
/// succeeds as `out`, its one batch has, for an inner join, the sum over the
/// (distinct, covering) left keys `keys` of the count of left rows with the
/// key times the count of right rows with it; a left join has in addition one
/// row for each left row that matches nothing.
pub proof fn law_join_table_rows(
    v: Seq<BatchModel>,
    w: Seq<BatchModel>,
    on: Seq<char>,
    left: bool,
    out: Seq<BatchModel>,
    keys: Seq<Seq<char>>,
)
    requires
        v.len() > 0,
        w.len() > 0,
        join_model(v, w, on, left, out),
        forall|a: int, b: int| 0 <= a < b < keys.len() ==> keys[a] != keys[b],
        forall|i: int| 0 <= i < key_texts(combined(v).columns[field_index(combined(v).fields, on)->Some_0]).len()
            ==> (#[trigger] key_texts(combined(v).columns[field_index(combined(v).fields, on)->Some_0])[i] matches Some(k)
            ==> keys.contains(k)),
    ensures
        ({
            let lk = key_texts(combined(v).columns[field_index(combined(v).fields, on)->Some_0]);
            let rk = key_texts(combined(w).columns[field_index(combined(w).fields, on)->Some_0]);
            out[0].rows == keyed_sum(keys, lk, rk) + if left { unmatched_total(lk, rk) } else { 0 }
        }),
{
    let lk = key_texts(combined(v).columns[field_index(combined(v).fields, on)->Some_0]);
    let rk = key_texts(combined(w).columns[field_index(combined(w).fields, on)->Some_0]);
    law_join_cardinality(lk, rk);
    law_inner_join_by_key(lk, rk, keys);
}

proof fn lemma_keyed_sum_empty(keys: Seq<Seq<char>>, lk: Seq<Option<Seq<char>>>, rk: Seq<Option<Seq<char>>>)
    requires
        lk.len() == 0,
    ensures
        keyed_sum(keys, lk, rk) == 0,
    decreases keys.len(),
{
    if keys.len() > 0 {
        lemma_keyed_sum_empty(keys.drop_last(), lk, rk);
        assert(count_key(lk, keys.last()) == 0);
        assert(0 * matches_of(rk, keys.last()).len() == 0);
    }
}

proof fn lemma_pairs_rows(lk: Seq<Option<Seq<char>>>, rk: Seq<Option<Seq<char>>>, left: bool, k: int)
    requires
        0 <= k < join_pairs(lk, rk, left).len(),
    ensures
        0 <= join_pairs(lk, rk, left)[k].0 < lk.len(),
    decreases lk.len(),
{
    let p = lk.drop_last();
    let prev = join_pairs(p, rk, left);
    if k < prev.len() {
        let cur = join_pairs(lk, rk, left);
        let ms = row_matches(lk, rk, lk.len() - 1);
        if ms.len() > 0 {
            assert(cur[k] == (prev + ms.map_values(|j: int| (lk.len() - 1, Some(j))))[k]);
        } else if left {
            assert(cur[k] == prev.push((lk.len() - 1, None::<int>))[k]);
        }
        lemma_pairs_rows(p, rk, left, k);
    } else {
        let ms = row_matches(lk, rk, lk.len() - 1);
        if ms.len() > 0 {
            assert(join_pairs(lk, rk, left)[k] == ms.map_values(|j: int| (lk.len() - 1, Some(j)))[k - prev.len()]);
        }
    }
}

} // verus!
