use vstd::prelude::*;
use crate::batch::{field_index, find_field, lemma_selected, lemma_selected_all, lemma_take_all, lemma_take_wf, model_wf, selected, selected_positions, take_model, Batch, BatchModel};
use crate::frame::{all_wf, batches_model, frame_rows, lemma_rows_push, DataFrame};
use crate::text::{text_cast_error, cast_fails, castable, column_to_text, opt_view, text_of};
use crate::types::{FrameError, Value};

verus! {

/// Rows whose cell reads as `value` once cast to text (null rows never match).
pub open spec fn eq_mask(col: Seq<Value>, value: Seq<char>) -> Seq<bool> {
    col.map_values(|v: Value| text_of(v) == Some(value))
}

/// Puts `prefix` in front of a successful result.
pub open spec fn prepend(
    prefix: Seq<BatchModel>,
    r: Result<Seq<BatchModel>, FrameError>,
) -> Result<Seq<BatchModel>, FrameError> {
    match r {
        Ok(rest) => Ok(prefix + rest),
        Err(e) => Err(e),
    }
}

/// The rows of one batch whose column `name` reads as `value`.
pub open spec fn filter_batch_model(b: BatchModel, name: Seq<char>, value: Seq<char>) -> Result<
    BatchModel,
    FrameError,
> {
    match field_index(b.fields, name) {
        None => Err(FrameError::UnknownColumn),
        Some(c) => if !castable(b.columns[c]) {
            Err(text_cast_error())
        } else {
            Ok(take_model(b, selected(eq_mask(b.columns[c], value))))
        },
    }
}

/// Equality filtering over a table: each batch filtered in order, empty results
/// dropped, the first batch that fails decides the error.
pub open spec fn filter_eq_model(bs: Seq<BatchModel>, name: Seq<char>, value: Seq<char>) -> Result<
    Seq<BatchModel>,
    FrameError,
>
    decreases bs.len(),
{
    if bs.len() == 0 {
        Ok(Seq::empty())
    } else {
        match filter_batch_model(bs[0], name, value) {
            Err(e) => Err(e),
            Ok(k) => {
                let rest = filter_eq_model(bs.drop_first(), name, value);
                if k.rows > 0 {
                    prepend(seq![k], rest)
                } else {
                    rest
                }
            },
        }
    }
}

fn filter_batch_eq(b: &Batch, name: &str, value: &String) -> (r: Result<Batch, FrameError>)
    requires
        b.wf(),
    ensures
        match r {
            Ok(k) => k.wf() && filter_batch_model(b.model(), name@, value@) == Ok::<BatchModel, FrameError>(k.model()) && k.num_rows <= b.num_rows,
            Err(e) => filter_batch_model(b.model(), name@, value@) == Err::<BatchModel, FrameError>(e),
        },
{
    let ghost m = b.model();
    let c = match find_field(&b.fields, name) {
        Some(c) => c,
        None => {
            return Err(FrameError::UnknownColumn);
        },
    };
    assert(m.columns[c as int] == b.columns@[c as int]@);
    let texts = match column_to_text(&b.columns[c]) {
        Ok(t) => t,
        Err(e) => {
            return Err(e);
        },
    };
    let mut mask: Vec<bool> = Vec::new();
    let mut i: usize = 0;
    while i < texts.len()
        invariant
            i <= texts@.len(),
            texts@.len() == b.columns@[c as int]@.len(),
            forall|q: int| 0 <= q < texts@.len() ==> opt_view(#[trigger] texts@[q]) == text_of(b.columns@[c as int]@[q]),
            mask@ =~= eq_mask(b.columns@[c as int]@, value@).subrange(0, i as int),
        decreases texts@.len() - i,
    {
        let hit = match &texts[i] {
            Some(s) => *s == *value,
            None => false,
        };
        proof {
            assert(opt_view(texts@[i as int]) == text_of(b.columns@[c as int]@[i as int]));
        }
        mask.push(hit);
        i = i + 1;
    }
    let keep = selected_positions(&mask);
    proof {
        assert(mask@ =~= eq_mask(m.columns[c as int], value@));
        assert(m.columns[c as int].len() == m.rows);
        lemma_selected(mask@);
    }
    let k = b.take(&keep);
    Ok(k)
}

impl DataFrame {
    /// The rows whose column `col_name` reads as `value` once cast to text, in
    /// their original order; batches left empty are dropped.
    pub fn filter_eq(&self, col_name: &str, value: &str) -> (r: Result<DataFrame, FrameError>)
        requires
            self.wf(),
        ensures
            match r {
                Ok(d) => d.wf() && filter_eq_model(self.view(), col_name@, value@) == Ok::<Seq<BatchModel>, FrameError>(d.view()),
                Err(e) => filter_eq_model(self.view(), col_name@, value@) == Err::<Seq<BatchModel>, FrameError>(e),
            },
    {
        let value_s: String = value.to_owned();
        let ghost v = self.view();
        let mut out: Vec<Batch> = Vec::new();
        let mut i: usize = 0;
        proof {
            assert(v.subrange(0, v.len() as int) =~= v);
            assert(batches_model(out@) + v =~= v);
        }
        while i < self.batches.len()
            invariant
                self.wf(),
                v == self.view(),
                v.len() == self.batches@.len(),
                value_s@ == value@,
                i <= self.batches.len(),
                forall|j: int| 0 <= j < out@.len() ==> (#[trigger] out@[j]).wf(),
                frame_rows(batches_model(out@)) <= frame_rows(v.subrange(0, i as int)),
                filter_eq_model(v, col_name@, value@) == prepend(
                    batches_model(out@),
                    filter_eq_model(v.subrange(i as int, v.len() as int), col_name@, value@),
                ),
            decreases self.batches.len() - i,
        {
            let ghost rest = v.subrange(i as int, v.len() as int);
            proof {
                assert(rest.drop_first() =~= v.subrange(i + 1, v.len() as int));
                assert(rest[0] == v[i as int]);
                assert(v[i as int] == self.batches@[i as int].model());
                assert(model_wf(v[i as int]));
                assert(v.subrange(0, i + 1) =~= v.subrange(0, i as int).push(v[i as int]));
                lemma_rows_push(v.subrange(0, i as int), v[i as int]);
            }
            let k = match filter_batch_eq(&self.batches[i], col_name, &value_s) {
                Ok(k) => k,
                Err(e) => {
                    return Err(e);
                },
            };
            if k.num_rows > 0 {
                let ghost before = out@;
                out.push(k);
                proof {
                    assert(batches_model(out@) =~= batches_model(before).push(k.model()));
                    lemma_rows_push(batches_model(before), k.model());
                    assert(batches_model(before) + (seq![k.model()] + filter_eq_model(rest.drop_first(), col_name@, value@)->Ok_0)
                        =~= batches_model(out@) + filter_eq_model(rest.drop_first(), col_name@, value@)->Ok_0);
                    assert forall|j: int| 0 <= j < out@.len() implies (#[trigger] out@[j]).wf() by {
                        if j < before.len() {
                            assert(out@[j] == before[j]);
                        }
                    }
                }
            }
            i = i + 1;
        }
        proof {
            assert(v.subrange(i as int, v.len() as int) =~= Seq::<BatchModel>::empty());
            assert(batches_model(out@) + Seq::<BatchModel>::empty() =~= batches_model(out@));
            assert(v.subrange(0, i as int) =~= v);
        }
        let d = DataFrame { batches: out };
        assert forall|j: int| 0 <= j < d.view().len() implies model_wf(#[trigger] d.view()[j]) by {
            assert(d.batches@[j].wf());
        }
        Ok(d)
    }
}

/// Filtering the result of an equality filter again, on the same column and
/// value, gives that result back.
pub proof fn law_filter_eq_idempotent(t: DataFrame, name: Seq<char>, value: Seq<char>)
    requires
        t.wf(),
        filter_eq_model(t.view(), name, value) is Ok,
    ensures
        filter_eq_model(filter_eq_model(t.view(), name, value)->Ok_0, name, value) == filter_eq_model(
            t.view(),
            name,
            value,
        ),
{
    lemma_filter_eq_fixed(t.view(), name, value);
}

proof fn lemma_filter_eq_fixed(bs: Seq<BatchModel>, name: Seq<char>, value: Seq<char>)
    requires
        all_wf(bs),
        filter_eq_model(bs, name, value) is Ok,
    ensures
        filter_eq_model(filter_eq_model(bs, name, value)->Ok_0, name, value) == filter_eq_model(
            bs,
            name,
            value,
        ),
    decreases bs.len(),
{
    if bs.len() > 0 {
        let b = bs[0];
        assert(model_wf(b));
        assert(all_wf(bs.drop_first())) by {
            assert forall|i: int| 0 <= i < bs.drop_first().len() implies model_wf(
                #[trigger] bs.drop_first()[i],
            ) by {
                assert(bs.drop_first()[i] == bs[i + 1]);
            }
        }
        let c = field_index(b.fields, name)->Some_0;
        let col = b.columns[c];
        let mask = eq_mask(col, value);
        let sel = selected(mask);
        let k = take_model(b, sel);
        lemma_selected(mask);
        assert(col.len() == b.rows);
        lemma_take_wf(b, sel);
        let rest = filter_eq_model(bs.drop_first(), name, value);
        lemma_filter_eq_fixed(bs.drop_first(), name, value);
        if k.rows > 0 {
            let kc = k.columns[c];
            assert forall|q: int| 0 <= q < kc.len() implies text_of(#[trigger] kc[q]) == Some(value) by {
                assert(kc[q] == col[sel[q]]);
                assert(mask[sel[q]]);
            }
            assert(castable(kc)) by {
                assert forall|q: int| 0 <= q < kc.len() implies !cast_fails(#[trigger] kc[q]) by {
                    assert(text_of(kc[q]) == Some(value));
                }
            }
            let km = eq_mask(kc, value);
            assert forall|q: int| 0 <= q < km.len() implies #[trigger] km[q] by {
                assert(text_of(kc[q]) == Some(value));
            }
            lemma_selected_all(km);
            assert(km.len() == k.rows);
            lemma_take_all(k);
            assert(filter_batch_model(k, name, value) == Ok::<BatchModel, FrameError>(k));
            let out = seq![k] + rest->Ok_0;
            assert(out[0] == k);
            assert(out.drop_first() =~= rest->Ok_0);
        }
    }
}

} // verus!
