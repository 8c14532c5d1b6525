use vstd::prelude::*;
use crate::batch::{model_wf, slice_model, Batch, BatchModel};

verus! {

/// A table: an ordered sequence of batches.
#[derive(Clone, Debug)]
pub struct DataFrame {
    pub batches: Vec<Batch>,
}

/// The number of rows over all batches.
pub open spec fn frame_rows(bs: Seq<BatchModel>) -> nat
    decreases bs.len(),
{
    if bs.len() == 0 {
        0
    } else {
        bs[0].rows + frame_rows(bs.drop_first())
    }
}

/// The first `n` rows: whole leading batches, then a slice of the batch where
/// the count is reached.
pub open spec fn head_model(bs: Seq<BatchModel>, n: nat) -> Seq<BatchModel>
    decreases bs.len(),
{
    if bs.len() == 0 || n == 0 {
        Seq::empty()
    } else {
        let k = if n <= bs[0].rows { n } else { bs[0].rows };
        seq![slice_model(bs[0], k)] + head_model(bs.drop_first(), (n - k) as nat)
    }
}

/// The batch models of a sequence of batches.
pub open spec fn batches_model(bs: Seq<Batch>) -> Seq<BatchModel> {
    bs.map_values(|b: Batch| b.model())
}

/// Every batch model is well formed.
pub open spec fn all_wf(bs: Seq<BatchModel>) -> bool {
    forall|i: int| 0 <= i < bs.len() ==> model_wf(#[trigger] bs[i])
}

pub proof fn lemma_rows_push(bs: Seq<BatchModel>, b: BatchModel)
    ensures
        frame_rows(bs.push(b)) == frame_rows(bs) + b.rows,
    decreases bs.len(),
{
    if bs.len() > 0 {
        assert(bs.push(b).drop_first() =~= bs.drop_first().push(b));
        assert(bs.push(b)[0] == bs[0]);
        lemma_rows_push(bs.drop_first(), b);
    } else {
        assert(bs.push(b).drop_first() =~= Seq::<BatchModel>::empty());
        assert(bs.push(b)[0] == b);
        assert(frame_rows(Seq::<BatchModel>::empty()) == 0);
    }
}

pub proof fn lemma_rows_append(a: Seq<BatchModel>, b: Seq<BatchModel>)
    ensures
        frame_rows(a + b) == frame_rows(a) + frame_rows(b),
    decreases a.len(),
{
    if a.len() > 0 {
        assert((a + b).drop_first() =~= a.drop_first() + b);
        lemma_rows_append(a.drop_first(), b);
    } else {
        assert(a + b =~= b);
    }
}

pub proof fn lemma_head_rows(bs: Seq<BatchModel>, n: nat)
    requires
        all_wf(bs),
    ensures
        frame_rows(head_model(bs, n)) <= n,
        frame_rows(head_model(bs, n)) <= frame_rows(bs),
        all_wf(head_model(bs, n)),
    decreases bs.len(),
{
    if bs.len() > 0 && n > 0 {
        let k = if n <= bs[0].rows { n } else { bs[0].rows };
        let s = slice_model(bs[0], k);
        assert(all_wf(bs.drop_first())) by {
            assert forall|i: int| 0 <= i < bs.drop_first().len() implies model_wf(
                #[trigger] bs.drop_first()[i],
            ) by {
                assert(bs.drop_first()[i] == bs[i + 1]);
            }
        }
        lemma_head_rows(bs.drop_first(), (n - k) as nat);
        lemma_rows_append(seq![s], head_model(bs.drop_first(), (n - k) as nat));
        assert(seq![s].drop_first() =~= Seq::<BatchModel>::empty());
        assert(frame_rows(Seq::<BatchModel>::empty()) == 0);
        assert(frame_rows(seq![s]) == s.rows);
        assert(frame_rows(bs) == bs[0].rows + frame_rows(bs.drop_first()));
        assert(model_wf(bs[0]));
        assert(model_wf(s)) by {
            assert forall|c: int| 0 <= c < s.columns.len() implies #[trigger] s.columns[c].len()
                == s.rows by {
                assert(bs[0].columns[c].len() == bs[0].rows);
            }
            assert forall|c: int, r: int| 0 <= c < s.columns.len() && 0 <= r < s.rows implies crate::types::fits(
                #[trigger] s.columns[c][r],
                s.fields[c].dtype,
            ) by {
                assert(bs[0].columns[c].len() == bs[0].rows);
                assert(s.columns[c][r] == bs[0].columns[c][r]);
            }
        }
        let h = head_model(bs, n);
        assert forall|i: int| 0 <= i < h.len() implies model_wf(#[trigger] h[i]) by {
            if i > 0 {
                assert(h[i] == head_model(bs.drop_first(), (n - k) as nat)[i - 1]);
            }
        }
    }
}

impl DataFrame {
    /// The batch models, in order.
    pub open spec fn view(&self) -> Seq<BatchModel> {
        batches_model(self.batches@)
    }

    /// Every batch is well formed and the total row count fits a `usize`.
    pub open spec fn wf(&self) -> bool {
        &&& all_wf(self.view())
        &&& frame_rows(self.view()) <= usize::MAX
    }

    /// Whether the table is well formed: every batch is, and the total row
    /// count fits a `usize`.
    pub fn is_well_formed(&self) -> (r: bool)
        ensures
            r == self.wf(),
    {
        let ghost v = self.view();
        let mut total: usize = 0;
        let mut i: usize = 0;
        proof {
            assert(v.subrange(0, 0) =~= Seq::<BatchModel>::empty());
        }
        while i < self.batches.len()
            invariant
                v == self.view(),
                v.len() == self.batches@.len(),
                i <= self.batches@.len(),
                forall|j: int| 0 <= j < i ==> model_wf(#[trigger] v[j]),
                total == frame_rows(v.subrange(0, i as int)),
            decreases self.batches@.len() - i,
        {
            proof {
                assert(v[i as int] == self.batches@[i as int].model());
            }
            if !self.batches[i].is_well_formed() {
                return false;
            }
            proof {
                assert(v.subrange(0, i + 1) =~= v.subrange(0, i as int).push(v[i as int]));
                lemma_rows_push(v.subrange(0, i as int), v[i as int]);
                assert(v =~= v.subrange(0, i + 1) + v.subrange(i + 1, v.len() as int));
                lemma_rows_append(v.subrange(0, i + 1), v.subrange(i + 1, v.len() as int));
            }
            if total > usize::MAX - self.batches[i].num_rows {
                return false;
            }
            total = total + self.batches[i].num_rows;
            i = i + 1;
        }
        assert(v.subrange(0, i as int) =~= v);
        true
    }

    /// An empty table.
    pub fn new() -> (r: DataFrame)
        ensures
            r.wf(),
            r.view() == Seq::<BatchModel>::empty(),
    {
        let r = DataFrame { batches: Vec::new() };
        assert(r.view() =~= Seq::<BatchModel>::empty());
        r
    }

    /// A table made of the given batches, in that order.
    pub fn from_batches(batches: Vec<Batch>) -> (r: DataFrame)
        requires
            forall|i: int| 0 <= i < batches@.len() ==> (#[trigger] batches@[i]).wf(),
            frame_rows(batches_model(batches@)) <= usize::MAX,
        ensures
            r.wf(),
            r.view() == batches_model(batches@),
    {
        let r = DataFrame { batches };
        assert forall|i: int| 0 <= i < r.view().len() implies model_wf(#[trigger] r.view()[i]) by {
            assert(r.batches@[i].wf());
        }
        r
    }

    /// The number of rows over all batches.
    pub fn row_count(&self) -> (r: usize)
        requires
            self.wf(),
        ensures
            r == frame_rows(self.view()),
    {
        let mut total: usize = 0;
        let mut i: usize = 0;
        proof {
            assert(self.view().subrange(0, 0) =~= Seq::<BatchModel>::empty());
        }
        while i < self.batches.len()
            invariant
                self.wf(),
                i <= self.batches.len(),
                total == frame_rows(self.view().subrange(0, i as int)),
            decreases self.batches.len() - i,
        {
            proof {
                let v = self.view();
                assert(v.subrange(0, i + 1) =~= v.subrange(0, i as int).push(v[i as int]));
                lemma_rows_push(v.subrange(0, i as int), v[i as int]);
                assert(v =~= v.subrange(0, i + 1) + v.subrange(i + 1, v.len() as int));
                lemma_rows_append(v.subrange(0, i + 1), v.subrange(i + 1, v.len() as int));
            }
            total = total + self.batches[i].num_rows;
            i = i + 1;
        }
        assert(self.view().subrange(0, i as int) =~= self.view());
        total
    }

    /// The column count of the first batch, or 0 for a table without batches.
    pub fn column_count(&self) -> (r: usize)
        ensures
            r == (if self.view().len() == 0 { 0 } else { self.view()[0].fields.len() }),
    {
        if self.batches.len() == 0 {
            0
        } else {
            self.batches[0].fields.len()
        }
    }

    /// (row count, column count).
    pub fn shape(&self) -> (r: (usize, usize))
        requires
            self.wf(),
        ensures
            r.0 == frame_rows(self.view()),
            r.1 == (if self.view().len() == 0 { 0 } else { self.view()[0].fields.len() }),
    {
        (self.row_count(), self.column_count())
    }

    /// The first `n` rows (5 when `n` is `None`), across batch boundaries.
    pub fn head(&self, n: Option<usize>) -> (r: DataFrame)
        requires
            self.wf(),
        ensures
            r.wf(),
            r.view() == head_model(self.view(), (match n { Some(k) => k, None => 5usize }) as nat),
    {
        let n: usize = match n {
            Some(k) => k,
            None => 5,
        };
        let ghost v = self.view();
        let mut count: usize = 0;
        let mut out: Vec<Batch> = Vec::new();
        let mut i: usize = 0;
        proof {
            assert(v.subrange(0, v.len() as int) =~= v);
        }
        while i < self.batches.len()
            invariant
                self.wf(),
                v == self.view(),
                i <= self.batches.len(),
                count <= n,
                forall|j: int| 0 <= j < out@.len() ==> (#[trigger] out@[j]).wf(),
                head_model(v, n as nat) == batches_model(out@) + head_model(
                    v.subrange(i as int, v.len() as int),
                    (n - count) as nat,
                ),
            ensures
                i == self.batches.len() || count >= n,
            decreases self.batches.len() - i,
        {
            if count >= n {
                break;
            }
            let ghost rest = v.subrange(i as int, v.len() as int);
            let rows = self.batches[i].num_rows;
            let take_n: usize = if n - count <= rows { n - count } else { rows };
            proof {
                assert(model_wf(v[i as int]));
                assert(rest.drop_first() =~= v.subrange(i + 1, v.len() as int));
                assert(rest[0] == v[i as int]);
            }
            let piece = self.batches[i].slice(take_n);
            let ghost before = out@;
            out.push(piece);
            proof {
                assert(batches_model(out@) =~= batches_model(before) + seq![piece.model()]);
                assert(forall|j: int| 0 <= j < before.len() ==> out@[j] == before[j]);
            }
            count = count + take_n;
            i = i + 1;
        }
        proof {
            let rest = v.subrange(i as int, v.len() as int);
            if count >= n {
                lemma_head_zero(rest);
            } else {
                assert(rest =~= Seq::<BatchModel>::empty());
            }
            assert(head_model(rest, (n - count) as nat) =~= Seq::<BatchModel>::empty());
            assert(batches_model(out@) + Seq::<BatchModel>::empty() =~= batches_model(out@));
            lemma_head_rows(v, n as nat);
        }
        let r = DataFrame { batches: out };
        assert forall|j: int| 0 <= j < r.view().len() implies model_wf(#[trigger] r.view()[j]) by {
            assert(r.batches@[j].wf());
        }
        r
    }

    /// A copy of the table.
    pub fn duplicate(&self) -> (r: DataFrame)
        requires
            self.wf(),
        ensures
            r.wf(),
            r.view() == self.view(),
    {
        let e = DataFrame::new();
        let r = self.concat(&e);
        assert(self.view() + e.view() =~= self.view());
        r
    }

    /// The batches of `self` followed by those of `other`.
    pub fn concat(&self, other: &DataFrame) -> (r: DataFrame)
        requires
            self.wf(),
            other.wf(),
            frame_rows(self.view()) + frame_rows(other.view()) <= usize::MAX,
        ensures
            r.wf(),
            r.view() == self.view() + other.view(),
    {
        let mut out: Vec<Batch> = Vec::new();
        let mut i: usize = 0;
        while i < self.batches.len()
            invariant
                self.wf(),
                i <= self.batches.len(),
                out@.len() == i,
                self.view().len() == self.batches@.len(),
                batches_model(out@) == self.view().subrange(0, i as int),
            decreases self.batches.len() - i,
        {
            assert(self.view()[i as int] == self.batches@[i as int].model());
            let d = self.batches[i].duplicate();
            let ghost before = out@;
            out.push(d);
            assert forall|k: int| 0 <= k < out@.len() implies #[trigger] batches_model(out@)[k]
                == self.view().subrange(0, i + 1)[k] by {
                if k < before.len() {
                    assert(out@[k] == before[k]);
                    assert(batches_model(before)[k] == self.view().subrange(0, i as int)[k]);
                } else {
                    assert(out@[k] == d);
                    assert(batches_model(out@)[k] == d.model());
                }
            }
            assert(batches_model(out@) =~= self.view().subrange(0, i + 1));
            i = i + 1;
        }
        let mut j: usize = 0;
        while j < other.batches.len()
            invariant
                self.wf(),
                other.wf(),
                j <= other.batches.len(),
                out@.len() == self.batches@.len() + j,
                self.view().len() == self.batches@.len(),
                other.view().len() == other.batches@.len(),
                batches_model(out@) == self.view() + other.view().subrange(0, j as int),
            decreases other.batches.len() - j,
        {
            assert(other.view()[j as int] == other.batches@[j as int].model());
            let d = other.batches[j].duplicate();
            let ghost before = out@;
            out.push(d);
            assert forall|k: int| 0 <= k < out@.len() implies #[trigger] batches_model(out@)[k]
                == (self.view() + other.view().subrange(0, j + 1))[k] by {
                if k < before.len() {
                    assert(out@[k] == before[k]);
                    assert(batches_model(before)[k] == (self.view() + other.view().subrange(0, j as int))[k]);
                } else {
                    assert(out@[k] == d);
                    assert(batches_model(out@)[k] == d.model());
                }
            }
            assert(batches_model(out@) =~= self.view() + other.view().subrange(0, j + 1));
            j = j + 1;
        }
        assert(other.view().subrange(0, j as int) =~= other.view());
        assert(self.view().subrange(0, i as int) =~= self.view());
        proof {
            lemma_rows_append(self.view(), other.view());
        }
        let r = DataFrame { batches: out };
        assert forall|k: int| 0 <= k < r.view().len() implies model_wf(#[trigger] r.view()[k]) by {
            if k < self.view().len() {
                assert(r.view()[k] == self.view()[k]);
            } else {
                assert(r.view()[k] == other.view()[k - self.view().len()]);
            }
        }
        r
    }
}

pub proof fn lemma_rows_same(bs: Seq<BatchModel>)
    ensures
        crate::batch::rows_of(bs) == frame_rows(bs),
    decreases bs.len(),
{
    if bs.len() > 0 {
        lemma_rows_same(bs.drop_last());
        lemma_rows_push(bs.drop_last(), bs.last());
        assert(bs.drop_last().push(bs.last()) =~= bs);
    }
}

/// Taking the first `m` rows of the first `n` rows gives the first `min(n, m)` rows.
pub proof fn law_head_of_head(t: DataFrame, n: nat, m: nat)
    requires
        t.wf(),
    ensures
        head_model(head_model(t.view(), n), m) == head_model(t.view(), if n <= m { n } else { m }),
{
    lemma_head_head(t.view(), n, m);
}

proof fn lemma_head_head(bs: Seq<BatchModel>, n: nat, m: nat)
    requires
        all_wf(bs),
    ensures
        head_model(head_model(bs, n), m) == head_model(bs, if n <= m { n } else { m }),
    decreases bs.len(),
{
    let mn = if n <= m { n } else { m };
    if bs.len() == 0 || n == 0 || m == 0 {
        if bs.len() > 0 && n > 0 {
            assert(head_model(head_model(bs, n), m) =~= Seq::<BatchModel>::empty());
        }
    } else {
        let b = bs[0];
        assert(model_wf(b));
        let k = if n <= b.rows { n } else { b.rows };
        let h = head_model(bs, n);
        let rest = head_model(bs.drop_first(), (n - k) as nat);
        assert(h == seq![slice_model(b, k)] + rest);
        let s = slice_model(b, k);
        assert(h[0] == s);
        assert(h.drop_first() =~= rest);
        let j = if m <= s.rows { m } else { s.rows };
        let kk = if mn <= b.rows { mn } else { b.rows };
        assert(j == kk);
        let ss = slice_model(s, j);
        let direct = slice_model(b, kk);
        assert(ss.columns =~= direct.columns) by {
            assert forall|c: int| 0 <= c < ss.columns.len() implies #[trigger] ss.columns[c]
                =~= direct.columns[c] by {
                assert(b.columns[c].len() == b.rows);
            }
        }
        assert(ss == direct);
        assert(all_wf(bs.drop_first())) by {
            assert forall|i: int| 0 <= i < bs.drop_first().len() implies model_wf(
                #[trigger] bs.drop_first()[i],
            ) by {
                assert(bs.drop_first()[i] == bs[i + 1]);
            }
        }
        lemma_head_head(bs.drop_first(), (n - k) as nat, (m - j) as nat);
        if k < n {
            // the whole first batch was taken, so j == k == b.rows and mn > b.rows or equal
            assert((mn - kk) as nat == (if (n - k) as nat <= (m - j) as nat { (n - k) as nat } else { (m - j) as nat }));
        } else {
            // n <= b.rows: the first step already took all n rows
            assert(rest == head_model(bs.drop_first(), 0));
            lemma_head_zero(bs.drop_first());
            lemma_head_zero(rest);
            lemma_head_zero(bs.drop_first());
            assert(head_model(rest, (m - j) as nat) =~= Seq::<BatchModel>::empty());
            assert((mn - kk) == 0);
        }
        assert(head_model(h, m) =~= seq![ss] + head_model(rest, (m - j) as nat));
    }
}

proof fn lemma_head_zero(bs: Seq<BatchModel>)
    ensures
        head_model(bs, 0) == Seq::<BatchModel>::empty(),
{
}

} // verus!
