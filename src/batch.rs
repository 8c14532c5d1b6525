use vstd::prelude::*;
use crate::types::{fits, value_fits, Field, FrameError, Value};

verus! {

/// A batch: same-length columns under one schema.
#[derive(Clone, Debug)]
pub struct Batch {
    pub fields: Vec<Field>,
    pub columns: Vec<Vec<Value>>,
    pub num_rows: usize,
}

/// The mathematical value of a batch.
pub struct BatchModel {
    pub fields: Seq<Field>,
    pub columns: Seq<Seq<Value>>,
    pub rows: nat,
}

/// A batch model is well formed when it has one column per schema entry, every
/// column has `rows` cells, and every cell fits its column's type.
pub open spec fn model_wf(m: BatchModel) -> bool {
    &&& m.columns.len() == m.fields.len()
    &&& forall|c: int| 0 <= c < m.columns.len() ==> #[trigger] m.columns[c].len() == m.rows
    &&& forall|c: int, r: int|
        0 <= c < m.columns.len() && 0 <= r < m.rows ==> fits(
            #[trigger] m.columns[c][r],
            m.fields[c].dtype,
        )
}

/// The first `k` rows of a batch.
pub open spec fn slice_model(m: BatchModel, k: nat) -> BatchModel {
    BatchModel {
        fields: m.fields,
        columns: m.columns.map_values(|col: Seq<Value>| col.subrange(0, k as int)),
        rows: k,
    }
}

/// The rows of a batch picked by `idx`, in that order.
pub open spec fn take_model(m: BatchModel, idx: Seq<int>) -> BatchModel {
    BatchModel {
        fields: m.fields,
        columns: m.columns.map_values(|col: Seq<Value>| idx.map_values(|i: int| col[i])),
        rows: idx.len(),
    }
}

/// The positions `i` with `keep[i]`, in increasing order.
pub open spec fn selected(keep: Seq<bool>) -> Seq<int>
    decreases keep.len(),
{
    if keep.len() == 0 {
        Seq::empty()
    } else if keep.last() {
        selected(keep.drop_last()).push(keep.len() - 1)
    } else {
        selected(keep.drop_last())
    }
}

pub proof fn lemma_selected(keep: Seq<bool>)
    ensures
        selected(keep).len() <= keep.len(),
        forall|k: int| 0 <= k < selected(keep).len() ==> 0 <= #[trigger] selected(keep)[k] < keep.len()
            && keep[selected(keep)[k]],
        forall|a: int, b: int| 0 <= a < b < selected(keep).len() ==> selected(keep)[a] < selected(keep)[b],
        forall|i: int| 0 <= i < keep.len() && #[trigger] keep[i] ==> exists|k: int| 0 <= k < selected(keep).len() && selected(keep)[k] == i,
    decreases keep.len(),
{
    if keep.len() > 0 {
        let p = keep.drop_last();
        lemma_selected(p);
        assert forall|k: int| 0 <= k < p.len() implies #[trigger] p[k] == keep[k] by {}
        if keep.last() {
            let s = selected(p).push(keep.len() - 1);
            assert forall|i: int| 0 <= i < keep.len() && #[trigger] keep[i] implies exists|k: int| 0 <= k < s.len() && s[k] == i by {
                if i == keep.len() - 1 {
                    assert(s[s.len() - 1] == i);
                } else {
                    assert(p[i]);
                    let k = choose|k: int| 0 <= k < selected(p).len() && selected(p)[k] == i;
                    assert(s[k] == i);
                }
            }
        } else {
            assert forall|i: int| 0 <= i < keep.len() && #[trigger] keep[i] implies exists|k: int| 0 <= k < selected(keep).len() && selected(keep)[k] == i by {
                assert(i < p.len());
                assert(p[i]);
                let k = choose|k: int| 0 <= k < selected(p).len() && selected(p)[k] == i;
                assert(selected(keep)[k] == i);
            }
        }
    }
}

/// When every row is kept, the selection is every position in order.
pub proof fn lemma_selected_all(keep: Seq<bool>)
    requires
        forall|i: int| 0 <= i < keep.len() ==> #[trigger] keep[i],
    ensures
        selected(keep) == Seq::new(keep.len(), |i: int| i),
    decreases keep.len(),
{
    if keep.len() > 0 {
        let p = keep.drop_last();
        assert forall|i: int| 0 <= i < p.len() implies #[trigger] p[i] by {
            assert(p[i] == keep[i]);
        }
        lemma_selected_all(p);
        assert(selected(keep) =~= Seq::new(keep.len(), |i: int| i));
    } else {
        assert(selected(keep) =~= Seq::new(keep.len(), |i: int| i));
    }
}

/// The index of the first schema entry named `name`.
pub open spec fn is_first_named(fields: Seq<Field>, name: Seq<char>, i: int) -> bool {
    &&& 0 <= i < fields.len()
    &&& fields[i].name@ == name
    &&& forall|j: int| 0 <= j < i ==> #[trigger] fields[j].name@ != name
}

/// The position of the column named `name`, if any (the first such).
pub open spec fn field_index(fields: Seq<Field>, name: Seq<char>) -> Option<int> {
    if exists|i: int| is_first_named(fields, name, i) {
        Some(choose|i: int| is_first_named(fields, name, i))
    } else {
        None
    }
}

pub proof fn lemma_first_named_unique(fields: Seq<Field>, name: Seq<char>, i: int, j: int)
    requires
        is_first_named(fields, name, i),
        is_first_named(fields, name, j),
    ensures
        i == j,
{
    if i < j {
        assert(fields[i].name@ != name);
    } else if j < i {
        assert(fields[j].name@ != name);
    }
}

/// Looks a column up by name: the first schema entry that carries it.
pub fn find_field(fields: &Vec<Field>, name: &str) -> (r: Option<usize>)
    ensures
        match r {
            Some(i) => field_index(fields@, name@) == Some(i as int),
            None => field_index(fields@, name@) is None,
        },
{
    let target: String = name.to_owned();
    let mut i: usize = 0;
    while i < fields.len()
        invariant
            i <= fields.len(),
            target@ == name@,
            forall|j: int| 0 <= j < i ==> #[trigger] fields@[j].name@ != name@,
        decreases fields.len() - i,
    {
        if fields[i].name == target {
            proof {
                assert(is_first_named(fields@, name@, i as int));
                let k = choose|k: int| is_first_named(fields@, name@, k);
                lemma_first_named_unique(fields@, name@, i as int, k);
            }
            return Some(i);
        }
        i = i + 1;
    }
    Option::None
}


/// The cells of each column, as sequences.
pub open spec fn cols_model(columns: Seq<Vec<Value>>) -> Seq<Seq<Value>> {
    columns.map_values(|c: Vec<Value>| c@)
}

/// Position lists as sequences of integers.
pub open spec fn idx_model(idx: Seq<usize>) -> Seq<int> {
    idx.map_values(|i: usize| i as int)
}

/// Two schemas agree entry by entry in name, type and nullability.
pub open spec fn same_fields(a: Seq<Field>, b: Seq<Field>) -> bool {
    &&& a.len() == b.len()
    &&& forall|i: int|
        0 <= i < a.len() ==> {
            &&& (#[trigger] a[i]).name@ == b[i].name@
            &&& a[i].dtype == b[i].dtype
            &&& a[i].nullable == b[i].nullable
        }
}

pub proof fn lemma_take_wf(m: BatchModel, idx: Seq<int>)
    requires
        model_wf(m),
        forall|k: int| 0 <= k < idx.len() ==> 0 <= #[trigger] idx[k] < m.rows,
    ensures
        model_wf(take_model(m, idx)),
{
    let t = take_model(m, idx);
    assert forall|c: int, r: int| 0 <= c < t.columns.len() && 0 <= r < t.rows implies fits(
        #[trigger] t.columns[c][r],
        t.fields[c].dtype,
    ) by {
        assert(t.columns[c][r] == m.columns[c][idx[r]]);
    }
}

pub proof fn lemma_take_all(m: BatchModel)
    requires
        model_wf(m),
    ensures
        take_model(m, Seq::new(m.rows, |i: int| i)) == m,
{
    let t = take_model(m, Seq::new(m.rows, |i: int| i));
    assert forall|c: int| 0 <= c < m.columns.len() implies #[trigger] t.columns[c] == m.columns[c] by {
        assert(m.columns[c].len() == m.rows);
        assert(t.columns[c] =~= m.columns[c]);
    }
    assert(t.columns =~= m.columns);
}

impl Batch {
    /// The mathematical value of the batch.
    pub open spec fn model(&self) -> BatchModel {
        BatchModel { fields: self.fields@, columns: cols_model(self.columns@), rows: self.num_rows as nat }
    }

    /// The batch is well formed (see `model_wf`).
    pub open spec fn wf(&self) -> bool {
        model_wf(self.model())
    }

    /// Builds a batch; fails with `SchemaMismatch` unless there is one column per
    /// schema entry, all columns have the same length and every cell fits its type.
    pub fn try_new(fields: Vec<Field>, columns: Vec<Vec<Value>>) -> (r: Result<Batch, FrameError>)
        ensures
            ({
                let rows = if columns@.len() == 0 { 0nat } else { columns@[0]@.len() };
                let m = BatchModel { fields: fields@, columns: cols_model(columns@), rows };
                match r {
                    Ok(b) => b.wf() && b.model() == m,
                    Err(e) => e == FrameError::SchemaMismatch && !model_wf(m),
                }
            }),
    {
        let ghost rows = if columns@.len() == 0 { 0nat } else { columns@[0]@.len() };
        let ghost m = BatchModel { fields: fields@, columns: cols_model(columns@), rows };
        if columns.len() != fields.len() {
            assert(m.columns.len() == columns@.len());
            return Err(FrameError::SchemaMismatch);
        }
        let n: usize = if columns.len() == 0 { 0 } else { columns[0].len() };
        let mut c: usize = 0;
        while c < columns.len()
            invariant
                c <= columns.len(),
                columns.len() == fields.len(),
                n == rows,
                rows == (if columns@.len() == 0 { 0nat } else { columns@[0]@.len() }),
                m == (BatchModel { fields: fields@, columns: cols_model(columns@), rows }),
                forall|k: int| 0 <= k < c ==> #[trigger] m.columns[k].len() == rows,
                forall|k: int, r: int|
                    0 <= k < c && 0 <= r < rows ==> fits(#[trigger] m.columns[k][r], fields@[k].dtype),
            decreases columns.len() - c,
        {
            if columns[c].len() != n {
                assert(m.columns.len() == columns@.len());
                assert(m.columns[c as int] == columns@[c as int]@);
                assert(m.columns[c as int].len() != m.rows);
                return Err(FrameError::SchemaMismatch);
            }
            let mut r: usize = 0;
            while r < n
                invariant
                    c < columns.len(),
                    columns.len() == fields.len(),
                    columns@[c as int]@.len() == n,
                    n == rows,
                    rows == (if columns@.len() == 0 { 0nat } else { columns@[0]@.len() }),
                    r <= n,
                    m == (BatchModel { fields: fields@, columns: cols_model(columns@), rows }),
                    forall|q: int| 0 <= q < r ==> fits(#[trigger] m.columns[c as int][q], fields@[c as int].dtype),
                decreases n - r,
            {
                if !value_fits(&columns[c][r], fields[c].dtype) {
                    assert(!fits(m.columns[c as int][r as int], m.fields[c as int].dtype));
                    return Err(FrameError::SchemaMismatch);
                }
                r = r + 1;
            }
            c = c + 1;
        }
        Ok(Batch { fields, columns, num_rows: n })
    }

    /// Whether the batch is well formed: one column per schema entry, each with
    /// `num_rows` cells that fit the entry's type.
    pub fn is_well_formed(&self) -> (r: bool)
        ensures
            r == self.wf(),
    {
        let ghost m = self.model();
        if self.columns.len() != self.fields.len() {
            assert(m.columns.len() == self.columns@.len());
            return false;
        }
        let mut c: usize = 0;
        while c < self.columns.len()
            invariant
                m == self.model(),
                self.columns@.len() == self.fields@.len(),
                c <= self.columns@.len(),
                forall|k: int| 0 <= k < c ==> #[trigger] m.columns[k].len() == m.rows,
                forall|k: int, r: int| 0 <= k < c && 0 <= r < m.rows ==> fits(#[trigger] m.columns[k][r], m.fields[k].dtype),
            decreases self.columns@.len() - c,
        {
            let col = &self.columns[c];
            assert(m.columns[c as int] == col@);
            if col.len() != self.num_rows {
                return false;
            }
            let mut r: usize = 0;
            while r < col.len()
                invariant
                    m == self.model(),
                    c < self.columns@.len(),
                    self.columns@.len() == self.fields@.len(),
                    m.columns[c as int] == col@,
                    col@.len() == m.rows,
                    r <= col@.len(),
                    forall|q: int| 0 <= q < r ==> fits(#[trigger] m.columns[c as int][q], m.fields[c as int].dtype),
                decreases col@.len() - r,
            {
                if !value_fits(&col[r], self.fields[c].dtype) {
                    return false;
                }
                r = r + 1;
            }
            c = c + 1;
        }
        true
    }

    /// The cells of the column named `name` (the first one, should names repeat);
    /// `UnknownColumn` when no column has that name.
    pub fn column_by_name(&self, name: &str) -> (r: Result<&Vec<Value>, FrameError>)
        requires
            self.wf(),
        ensures
            match r {
                Ok(c) => field_index(self.fields@, name@) matches Some(i) && c@ == self.model().columns[i],
                Err(e) => e == FrameError::UnknownColumn && field_index(self.fields@, name@) is None,
            },
    {
        match find_field(&self.fields, name) {
            Some(i) => {
                assert(self.model().columns[i as int] == self.columns@[i as int]@);
                Ok(&self.columns[i])
            },
            None => Err(FrameError::UnknownColumn),
        }
    }

    /// A copy of the batch.
    pub fn duplicate(&self) -> (r: Batch)
        requires
            self.wf(),
        ensures
            r.wf(),
            r.model() == self.model(),
    {
        let r = self.slice(self.num_rows);
        proof {
            let m = self.model();
            let s = slice_model(m, self.num_rows as nat);
            assert forall|c: int| 0 <= c < m.columns.len() implies #[trigger] s.columns[c] == m.columns[c] by {
                assert(s.columns[c] =~= m.columns[c]);
            }
            assert(s.columns =~= m.columns);
        }
        r
    }

    /// The number of rows.
    pub fn num_rows(&self) -> (r: usize)
        ensures
            r == self.num_rows,
    {
        self.num_rows
    }

    /// The number of columns.
    pub fn num_columns(&self) -> (r: usize)
        ensures
            r == self.fields@.len(),
    {
        self.fields.len()
    }

    /// The rows at the positions `idx`, in that order.
    pub fn take(&self, idx: &Vec<usize>) -> (r: Batch)
        requires
            self.wf(),
            forall|k: int| 0 <= k < idx@.len() ==> #[trigger] idx@[k] < self.num_rows,
        ensures
            r.wf(),
            r.model() == take_model(self.model(), idx_model(idx@)),
    {
        let ghost m = self.model();
        let ghost im = idx_model(idx@);
        let mut fields: Vec<Field> = Vec::new();
        let mut columns: Vec<Vec<Value>> = Vec::new();
        let mut c: usize = 0;
        while c < self.columns.len()
            invariant
                self.wf(),
                m == self.model(),
                im == idx_model(idx@),
                forall|k: int| 0 <= k < idx@.len() ==> #[trigger] idx@[k] < self.num_rows,
                c <= self.columns.len(),
                fields@.len() == c,
                columns@.len() == c,
                forall|k: int| 0 <= k < c ==> #[trigger] fields@[k] == m.fields[k],
                forall|k: int| 0 <= k < c ==> #[trigger] columns@[k]@ == im.map_values(|i: int| m.columns[k][i]),
            decreases self.columns.len() - c,
        {
            proof {
                assert(self.columns@[c as int]@ == m.columns[c as int]);
                assert(m.columns[c as int].len() == m.rows);
            }
            let col = take_column(&self.columns[c], idx);
            assert(col@ =~= im.map_values(|i: int| m.columns[c as int][i]));
            columns.push(col);
            fields.push(self.fields[c].duplicate());
            c = c + 1;
        }
        let r = Batch { fields, columns, num_rows: idx.len() };
        proof {
            assert(r.model().fields =~= m.fields);
            assert(r.model().columns =~= take_model(m, im).columns);
            assert forall|k: int| 0 <= k < idx@.len() implies 0 <= #[trigger] im[k] < m.rows by {
                assert(im[k] == idx@[k] as int);
            }
            lemma_take_wf(m, im);
        }
        r
    }

    /// The first `k` rows.
    pub fn slice(&self, k: usize) -> (r: Batch)
        requires
            self.wf(),
            k <= self.num_rows,
        ensures
            r.wf(),
            r.model() == slice_model(self.model(), k as nat),
    {
        let mut idx: Vec<usize> = Vec::new();
        let mut i: usize = 0;
        while i < k
            invariant
                i <= k,
                idx@.len() == i,
                forall|j: int| 0 <= j < i ==> #[trigger] idx@[j] == j,
            decreases k - i,
        {
            idx.push(i);
            i = i + 1;
        }
        let r = self.take(&idx);
        proof {
            let m = self.model();
            let im = idx_model(idx@);
            let s = slice_model(m, k as nat);
            let t = take_model(m, im);
            assert forall|c: int| 0 <= c < m.columns.len() implies #[trigger] t.columns[c] == s.columns[c] by {
                assert(t.columns[c] =~= s.columns[c]);
            }
            assert(t.columns =~= s.columns);
        }
        r
    }
}

/// The cells of `col` at the positions `idx`, in that order.
pub fn take_column(col: &Vec<Value>, idx: &Vec<usize>) -> (r: Vec<Value>)
    requires
        forall|k: int| 0 <= k < idx@.len() ==> #[trigger] idx@[k] < col@.len(),
    ensures
        r@ == idx_model(idx@).map_values(|i: int| col@[i]),
{
    let mut r: Vec<Value> = Vec::new();
    let mut k: usize = 0;
    while k < idx.len()
        invariant
            k <= idx@.len(),
            forall|q: int| 0 <= q < idx@.len() ==> #[trigger] idx@[q] < col@.len(),
            r@.len() == k,
            forall|q: int| 0 <= q < k ==> #[trigger] r@[q] == col@[idx@[q] as int],
        decreases idx@.len() - k,
    {
        r.push(col[idx[k]].duplicate());
        k = k + 1;
    }
    assert(r@ =~= idx_model(idx@).map_values(|i: int| col@[i]));
    r
}

/// The positions whose mask entry is set, in increasing order.
pub fn selected_positions(keep: &Vec<bool>) -> (r: Vec<usize>)
    ensures
        idx_model(r@) == selected(keep@),
        forall|k: int| 0 <= k < r@.len() ==> #[trigger] r@[k] < keep@.len(),
{
    let mut r: Vec<usize> = Vec::new();
    let mut i: usize = 0;
    while i < keep.len()
        invariant
            i <= keep@.len(),
            idx_model(r@) == selected(keep@.subrange(0, i as int)),
            forall|k: int| 0 <= k < r@.len() ==> #[trigger] r@[k] < i,
        decreases keep@.len() - i,
    {
        proof {
            assert(keep@.subrange(0, i + 1).drop_last() =~= keep@.subrange(0, i as int));
        }
        if keep[i] {
            r.push(i);
            assert(idx_model(r@) =~= selected(keep@.subrange(0, i + 1)));
        } else {
            assert(idx_model(r@) =~= selected(keep@.subrange(0, i + 1)));
        }
        i = i + 1;
    }
    assert(keep@.subrange(0, keep@.len() as int) =~= keep@);
    r
}

/// Column `c` of every batch, one after the other.
pub open spec fn concat_column(bs: Seq<BatchModel>, c: int) -> Seq<Value>
    decreases bs.len(),
{
    if bs.len() == 0 {
        Seq::empty()
    } else {
        concat_column(bs.drop_last(), c) + bs.last().columns[c]
    }
}

/// The number of rows over a sequence of batches, counted from the back.
pub open spec fn rows_of(bs: Seq<BatchModel>) -> nat
    decreases bs.len(),
{
    if bs.len() == 0 {
        0
    } else {
        rows_of(bs.drop_last()) + bs.last().rows
    }
}

/// Every batch has the schema `fields`.
pub open spec fn uniform(bs: Seq<BatchModel>, fields: Seq<Field>) -> bool {
    forall|i: int| 0 <= i < bs.len() ==> same_fields(#[trigger] bs[i].fields, fields)
}

/// The single batch that holds the rows of all batches, in order.
pub open spec fn combined(bs: Seq<BatchModel>) -> BatchModel {
    BatchModel {
        fields: bs[0].fields,
        columns: Seq::new(bs[0].fields.len(), |c: int| concat_column(bs, c)),
        rows: rows_of(bs),
    }
}

pub proof fn lemma_concat_column(bs: Seq<BatchModel>, fields: Seq<Field>, c: int)
    requires
        forall|i: int| 0 <= i < bs.len() ==> model_wf(#[trigger] bs[i]),
        uniform(bs, fields),
        0 <= c < fields.len(),
    ensures
        concat_column(bs, c).len() == rows_of(bs),
        forall|r: int| 0 <= r < concat_column(bs, c).len() ==> fits(#[trigger] concat_column(bs, c)[r], fields[c].dtype),
    decreases bs.len(),
{
    if bs.len() > 0 {
        let p = bs.drop_last();
        assert forall|i: int| 0 <= i < p.len() implies model_wf(#[trigger] p[i]) && same_fields(p[i].fields, fields) by {
            assert(p[i] == bs[i]);
            assert(same_fields(bs[i].fields, fields));
        }
        lemma_concat_column(p, fields, c);
        let l = bs.last();
        assert(model_wf(bs[bs.len() - 1]));
        assert(same_fields(bs[bs.len() - 1].fields, fields));
        assert(l.columns[c].len() == l.rows);
        let whole = concat_column(bs, c);
        assert forall|r: int| 0 <= r < whole.len() implies fits(#[trigger] whole[r], fields[c].dtype) by {
            if r < concat_column(p, c).len() {
                assert(whole[r] == concat_column(p, c)[r]);
            } else {
                assert(whole[r] == l.columns[c][r - concat_column(p, c).len()]);
                assert(l.fields[c].dtype == fields[c].dtype);
            }
        }
    }
}

/// Whether two schemas agree entry by entry.
pub fn same_schema(a: &Vec<Field>, b: &Vec<Field>) -> (r: bool)
    ensures
        r == same_fields(a@, b@),
{
    if a.len() != b.len() {
        return false;
    }
    let mut i: usize = 0;
    while i < a.len()
        invariant
            a@.len() == b@.len(),
            i <= a@.len(),
            forall|k: int| 0 <= k < i ==> {
                &&& (#[trigger] a@[k]).name@ == b@[k].name@
                &&& a@[k].dtype == b@[k].dtype
                &&& a@[k].nullable == b@[k].nullable
            },
        decreases a@.len() - i,
    {
        if !a[i].same_as(&b[i]) {
            return false;
        }
        i = i + 1;
    }
    true
}

/// Concatenates batches into one; `SchemaMismatch` unless all share the first one's schema.
pub fn combine(bs: &Vec<Batch>) -> (r: Result<Batch, FrameError>)
    requires
        bs@.len() > 0,
        forall|i: int| 0 <= i < bs@.len() ==> (#[trigger] bs@[i]).wf(),
        rows_of(bs@.map_values(|b: Batch| b.model())) <= usize::MAX,
    ensures
        ({
            let v = bs@.map_values(|b: Batch| b.model());
            match r {
                Ok(b) => uniform(v, v[0].fields) && b.wf() && b.model() == combined(v),
                Err(e) => e == FrameError::SchemaMismatch && !uniform(v, v[0].fields),
            }
        }),
{
    let ghost v = bs@.map_values(|b: Batch| b.model());
    let mut i: usize = 0;
    while i < bs.len()
        invariant
            v == bs@.map_values(|b: Batch| b.model()),
            bs@.len() > 0,
            i <= bs@.len(),
            forall|k: int| 0 <= k < i ==> same_fields(#[trigger] v[k].fields, v[0].fields),
        decreases bs@.len() - i,
    {
        if !same_schema(&bs[i].fields, &bs[0].fields) {
            assert(v[i as int].fields == bs@[i as int].fields@);
            return Err(FrameError::SchemaMismatch);
        }
        assert(v[i as int].fields == bs@[i as int].fields@);
        i = i + 1;
    }
    assert(uniform(v, v[0].fields));
    let ncols = bs[0].fields.len();
    let mut columns: Vec<Vec<Value>> = Vec::new();
    let mut c: usize = 0;
    while c < ncols
        invariant
            v == bs@.map_values(|b: Batch| b.model()),
            bs@.len() > 0,
            forall|k: int| 0 <= k < bs@.len() ==> (#[trigger] bs@[k]).wf(),
            uniform(v, v[0].fields),
            ncols == v[0].fields.len(),
            rows_of(v) <= usize::MAX,
            c <= ncols,
            columns@.len() == c,
            forall|k: int| 0 <= k < c ==> (#[trigger] columns@[k])@ == concat_column(v, k),
        decreases ncols - c,
    {
        let mut col: Vec<Value> = Vec::new();
        let mut k: usize = 0;
        while k < bs.len()
            invariant
                v == bs@.map_values(|b: Batch| b.model()),
                forall|q: int| 0 <= q < bs@.len() ==> (#[trigger] bs@[q]).wf(),
                uniform(v, v[0].fields),
                c < v[0].fields.len(),
                k <= bs@.len(),
                rows_of(v) <= usize::MAX,
                col@ == concat_column(v.subrange(0, k as int), c as int),
            decreases bs@.len() - k,
        {
            proof {
                assert(v.subrange(0, k + 1).drop_last() =~= v.subrange(0, k as int));
                assert(v[k as int] == bs@[k as int].model());
                assert(same_fields(v[k as int].fields, v[0].fields));
                assert(bs@[k as int].columns@.len() == bs@[k as int].fields@.len());
                assert(v[k as int].columns[c as int] == bs@[k as int].columns@[c as int]@);
                lemma_concat_column(v.subrange(0, k + 1), v[0].fields, c as int);
                lemma_rows_prefix(v, k + 1);
            }
            let src = &bs[k].columns[c];
            let mut j: usize = 0;
            let ghost start = col@;
            while j < src.len()
                invariant
                    j <= src@.len(),
                    col@ == start + src@.subrange(0, j as int),
                    start.len() + src@.len() <= usize::MAX,
                decreases src@.len() - j,
            {
                col.push(src[j].duplicate());
                assert(col@ =~= start + src@.subrange(0, j + 1));
                j = j + 1;
            }
            assert(src@.subrange(0, j as int) =~= src@);
            k = k + 1;
        }
        assert(v.subrange(0, bs@.len() as int) =~= v);
        columns.push(col);
        c = c + 1;
    }
    let r = Batch { fields: dup_fields(&bs[0].fields), columns, num_rows: 0 };
    proof {
        assert forall|q: int| 0 <= q < bs@.len() implies model_wf(#[trigger] v[q]) by {
            assert(v[q] == bs@[q].model());
        }
    }
    let total = total_rows(bs);
    let r = Batch { num_rows: total, ..r };
    proof {
        let m = r.model();
        let want = combined(v);
        assert(m.columns =~= want.columns);
        assert forall|q: int| 0 <= q < m.columns.len() implies #[trigger] m.columns[q].len() == m.rows by {
            lemma_concat_column(v, v[0].fields, q);
        }
        assert forall|q: int, w: int| 0 <= q < m.columns.len() && 0 <= w < m.rows implies fits(
            #[trigger] m.columns[q][w],
            m.fields[q].dtype,
        ) by {
            lemma_concat_column(v, v[0].fields, q);
        }
    }
    Ok(r)
}

pub proof fn lemma_rows_prefix(v: Seq<BatchModel>, k: int)
    requires
        0 <= k <= v.len(),
    ensures
        rows_of(v.subrange(0, k)) <= rows_of(v),
    decreases v.len() - k,
{
    if k < v.len() {
        lemma_rows_prefix(v, k + 1);
        assert(v.subrange(0, k + 1).drop_last() =~= v.subrange(0, k));
    } else {
        assert(v.subrange(0, k) =~= v);
    }
}

fn total_rows(bs: &Vec<Batch>) -> (r: usize)
    requires
        rows_of(bs@.map_values(|b: Batch| b.model())) <= usize::MAX,
    ensures
        r == rows_of(bs@.map_values(|b: Batch| b.model())),
{
    let ghost v = bs@.map_values(|b: Batch| b.model());
    let mut t: usize = 0;
    let mut k: usize = 0;
    while k < bs.len()
        invariant
            v == bs@.map_values(|b: Batch| b.model()),
            rows_of(v) <= usize::MAX,
            k <= bs@.len(),
            t == rows_of(v.subrange(0, k as int)),
        decreases bs@.len() - k,
    {
        proof {
            assert(v.subrange(0, k + 1).drop_last() =~= v.subrange(0, k as int));
            lemma_rows_prefix(v, k + 1);
        }
        t = t + bs[k].num_rows;
        k = k + 1;
    }
    assert(v.subrange(0, k as int) =~= v);
    t
}

fn dup_fields(fs: &Vec<Field>) -> (r: Vec<Field>)
    ensures
        r@ == fs@,
{
    let mut r: Vec<Field> = Vec::new();
    let mut i: usize = 0;
    while i < fs.len()
        invariant
            i <= fs@.len(),
            r@ == fs@.subrange(0, i as int),
        decreases fs@.len() - i,
    {
        r.push(fs[i].duplicate());
        assert(r@ =~= fs@.subrange(0, i + 1));
        i = i + 1;
    }
    assert(fs@.subrange(0, i as int) =~= fs@);
    r
}

} // verus!
