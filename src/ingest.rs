use vstd::prelude::*;

verus! {

/// The double quote, which opens and closes quoted fields.
pub const QUOTE: u8 = 34;

/// The newline, which ends a record outside quoted fields.
pub const NEWLINE: u8 = 10;

/// Inputs below this many bytes are parsed as one segment.
pub const PARALLEL_THRESHOLD: usize = 1048576;

/// Whether position `p` lies inside a quoted field: an odd number of quotes
/// stand in `bytes[0..p)`.
pub open spec fn quoted_at(bytes: Seq<u8>, p: int) -> bool
    decreases p,
{
    if p <= 0 {
        false
    } else {
        quoted_at(bytes, p - 1) != (bytes[p - 1] == QUOTE)
    }
}

/// A record starts at `p`: the byte before it is a newline outside quotes.
pub open spec fn record_start(bytes: Seq<u8>, p: int) -> bool {
    &&& 0 < p <= bytes.len()
    &&& bytes[p - 1] == NEWLINE
    &&& !quoted_at(bytes, p - 1)
}

/// The first record start after a newline at or after `from`; the input's
/// length where there is none.
pub open spec fn next_boundary(bytes: Seq<u8>, from: int) -> int
    decreases bytes.len() - from,
{
    if from >= bytes.len() {
        bytes.len() as int
    } else if bytes[from] == NEWLINE && !quoted_at(bytes, from) {
        from + 1
    } else {
        next_boundary(bytes, from + 1)
    }
}

/// The interior segment boundaries for the split targets `i * chunk`, `i` from
/// `i` up to `workers - 1`, each scan starting at the later of its target and
/// the last boundary accepted.
pub open spec fn splits_from(bytes: Seq<u8>, chunk: int, i: int, workers: int, last: int) -> Seq<int>
    decreases workers - i,
{
    if i >= workers {
        Seq::empty()
    } else {
        let from = if i * chunk >= last { i * chunk } else { last };
        let p = next_boundary(bytes, from);
        if p < bytes.len() {
            seq![p] + splits_from(bytes, chunk, i + 1, workers, p)
        } else {
            splits_from(bytes, chunk, i + 1, workers, last)
        }
    }
}

/// The segment offsets for `workers` workers: 0, the interior boundaries, and
/// the input's length (once).
pub open spec fn split_model(bytes: Seq<u8>, workers: int) -> Seq<int> {
    let inner = splits_from(bytes, bytes.len() as int / workers, 1, workers, 0);
    if bytes.len() > 0 {
        seq![0int] + inner + seq![bytes.len() as int]
    } else {
        seq![0int]
    }
}

/// The segment offsets that ingestion uses: the whole input as one segment when
/// there is at most one worker or the input is small, the split otherwise.
pub open spec fn plan_model(bytes: Seq<u8>, workers: int) -> Seq<int> {
    if workers <= 1 || bytes.len() < PARALLEL_THRESHOLD {
        seq![0int, bytes.len() as int]
    } else {
        split_model(bytes, workers)
    }
}

proof fn lemma_next_boundary(bytes: Seq<u8>, from: int)
    requires
        0 <= from <= bytes.len(),
    ensures
        from < next_boundary(bytes, from) <= bytes.len() || (from == bytes.len() && next_boundary(bytes, from) == from),
        next_boundary(bytes, from) < bytes.len() ==> record_start(bytes, next_boundary(bytes, from)),
    decreases bytes.len() - from,
{
    if from < bytes.len() && !(bytes[from] == NEWLINE && !quoted_at(bytes, from)) {
        lemma_next_boundary(bytes, from + 1);
    }
}

proof fn lemma_splits_empty(bytes: Seq<u8>, chunk: int, i: int, workers: int)
    requires
        bytes.len() == 0,
    ensures
        splits_from(bytes, chunk, i, workers, 0) == Seq::<int>::empty(),
    decreases workers - i,
{
    if i < workers {
        lemma_splits_empty(bytes, chunk, i + 1, workers);
    }
}

/// Scans for the next record start: first carries the quote state from
/// `start` (where it is `in_quotes`) up to `target`, then looks from `target`
/// for a newline outside quotes. Returns the position just after it (or the
/// input's length) and the quote state there.
pub fn scan_boundary(bytes: &[u8], start: usize, in_quotes: bool, target: usize) -> (r: (usize, bool))
    requires
        start <= target <= bytes@.len(),
        in_quotes == quoted_at(bytes@, start as int),
    ensures
        r.0 == next_boundary(bytes@, target as int),
        r.1 == quoted_at(bytes@, r.0 as int),
{
    let mut q = in_quotes;
    let mut j = start;
    while j < target
        invariant
            start <= j <= target,
            target <= bytes@.len(),
            q == quoted_at(bytes@, j as int),
        decreases target - j,
    {
        if bytes[j] == QUOTE {
            q = !q;
        }
        j = j + 1;
    }
    let mut pos = target;
    while pos < bytes.len()
        invariant
            target <= pos <= bytes@.len(),
            q == quoted_at(bytes@, pos as int),
            next_boundary(bytes@, target as int) == next_boundary(bytes@, pos as int),
        decreases bytes@.len() - pos,
    {
        if bytes[pos] == QUOTE {
            q = !q;
        } else if bytes[pos] == NEWLINE && !q {
            return (pos + 1, q);
        }
        pos = pos + 1;
    }
    (pos, q)
}

/// Splits the input into about `workers` segments at record starts, carrying
/// the quote state from each accepted boundary to the next.
pub fn split_offsets(bytes: &[u8], workers: usize) -> (r: Vec<usize>)
    requires
        workers >= 1,
    ensures
        r@.map_values(|o: usize| o as int) == split_model(bytes@, workers as int),
{
    let len = bytes.len();
    let chunk = len / workers;
    let mut offsets: Vec<usize> = vec![0];
    let mut last: usize = 0;
    let mut q = false;
    let mut i: usize = 1;
    let ghost whole = seq![0int] + splits_from(bytes@, chunk as int, 1, workers as int, 0);
    while i < workers
        invariant
            1 <= i <= workers,
            len == bytes@.len(),
            chunk == len / workers,
            last <= len,
            q == quoted_at(bytes@, last as int),
            offsets@.len() >= 1,
            offsets@[offsets@.len() - 1] == last,
            last < len || last == 0,
            whole == seq![0int] + splits_from(bytes@, chunk as int, 1, workers as int, 0),
            whole == offsets@.map_values(|o: usize| o as int) + splits_from(
                bytes@,
                chunk as int,
                i as int,
                workers as int,
                last as int,
            ),
        decreases workers - i,
    {
        proof {
            assert(i * chunk <= (workers - 1) * chunk) by (nonlinear_arith)
                requires i <= workers - 1;
            assert((workers - 1) * chunk <= workers * chunk) by (nonlinear_arith);
            assert(workers * (len / workers) <= len) by (nonlinear_arith)
                requires workers >= 1;
        }
        let target = i * chunk;
        let from = if target >= last { target } else { last };
        let (p, pq) = scan_boundary(bytes, last, q, from);
        let ghost before = offsets@;
        if p < len {
            offsets.push(p);
            proof {
                assert(offsets@.map_values(|o: usize| o as int) =~= before.map_values(|o: usize| o as int)
                    + seq![p as int]);
                assert(offsets@.map_values(|o: usize| o as int) + splits_from(
                    bytes@,
                    chunk as int,
                    i + 1,
                    workers as int,
                    p as int,
                ) =~= before.map_values(|o: usize| o as int) + (seq![p as int] + splits_from(
                    bytes@,
                    chunk as int,
                    i + 1,
                    workers as int,
                    p as int,
                )));
            }
            last = p;
            q = pq;
        }
        i = i + 1;
    }
    let ghost before = offsets@;
    proof {
        assert(splits_from(bytes@, chunk as int, i as int, workers as int, last as int) =~= Seq::<int>::empty());
        assert(chunk as int == bytes@.len() as int / workers as int);
        assert(whole == before.map_values(|o: usize| o as int));
    }
    if len > 0 {
        offsets.push(len);
        assert(offsets@.map_values(|o: usize| o as int) =~= before.map_values(|o: usize| o as int)
            + seq![len as int]);
    }
    proof {
        assert(before.map_values(|o: usize| o as int) + Seq::<int>::empty() =~= before.map_values(|o: usize| o as int));
        let inner = splits_from(bytes@, bytes@.len() as int / workers as int, 1, workers as int, 0);
        assert(whole =~= seq![0int] + inner);
        if len == 0 {
            assert(inner =~= Seq::<int>::empty()) by {
                lemma_splits_empty(bytes@, chunk as int, 1, workers as int);
            }
        }
    }
    offsets
}

/// The segment offsets for ingestion with `workers` workers.
pub fn plan_segments(bytes: &[u8], workers: usize) -> (r: Vec<usize>)
    ensures
        r@.map_values(|o: usize| o as int) == plan_model(bytes@, workers as int),
{
    if workers <= 1 || bytes.len() < PARALLEL_THRESHOLD {
        let r = vec![0, bytes.len()];
        assert(r@.map_values(|o: usize| o as int) =~= seq![0int, bytes@.len() as int]);
        r
    } else {
        split_offsets(bytes, workers)
    }
}

proof fn lemma_splits_valid(bytes: Seq<u8>, chunk: int, i: int, workers: int, last: int)
    requires
        0 <= last < bytes.len(),
        chunk >= 0,
        i >= 0,
    ensures
        forall|k: int| 0 <= k < splits_from(bytes, chunk, i, workers, last).len() ==> {
            let p = #[trigger] splits_from(bytes, chunk, i, workers, last)[k];
            last < p < bytes.len() && record_start(bytes, p)
        },
        forall|a: int, b: int|
            0 <= a < b < splits_from(bytes, chunk, i, workers, last).len() ==> splits_from(
                bytes,
                chunk,
                i,
                workers,
                last,
            )[a] < splits_from(bytes, chunk, i, workers, last)[b],
    decreases workers - i,
{
    if i < workers {
        let from = if i * chunk >= last { i * chunk } else { last };
        let p = next_boundary(bytes, from);
        assert(i * chunk >= 0) by (nonlinear_arith)
            requires i >= 0, chunk >= 0;
        if from <= bytes.len() {
            lemma_next_boundary(bytes, from);
        } else {
            assert(p == bytes.len());
        }
        if p < bytes.len() {
            lemma_splits_valid(bytes, chunk, i + 1, workers, p);
            let rest = splits_from(bytes, chunk, i + 1, workers, p);
            let all = seq![p] + rest;
            assert(splits_from(bytes, chunk, i, workers, last) == all);
            assert forall|k: int| 0 <= k < all.len() implies {
                let x = #[trigger] all[k];
                last < x < bytes.len() && record_start(bytes, x)
            } by {
                if k > 0 {
                    assert(all[k] == rest[k - 1]);
                }
            }
            assert forall|a: int, b: int| 0 <= a < b < all.len() implies all[a] < all[b] by {
                assert(all[b] == rest[b - 1]);
                if a > 0 {
                    assert(all[a] == rest[a - 1]);
                }
            }
        } else {
            assert(splits_from(bytes, chunk, i, workers, last) == splits_from(bytes, chunk, i + 1, workers, last));
            lemma_splits_valid(bytes, chunk, i + 1, workers, last);
        }
    }
}

/// The segments of an ingestion plan tile the input: the offsets start at 0,
/// end at the input's length and strictly increase, and each one after the
/// first but the last is a record start, just after a newline outside quotes,
/// where the quote state is closed. So no segment starts or ends inside a
/// quoted field, and the segments, taken in order, hold every byte of the input
/// exactly once.
pub proof fn law_segments_respect_records(bytes: Seq<u8>, workers: int)
    requires
        bytes.len() > 0,
    ensures
        plan_model(bytes, workers)[0] == 0,
        plan_model(bytes, workers).last() == bytes.len(),
        forall|a: int, b: int|
            0 <= a < b < plan_model(bytes, workers).len() ==> plan_model(bytes, workers)[a]
                < plan_model(bytes, workers)[b],
        forall|k: int|
            0 < k < plan_model(bytes, workers).len() - 1 ==> record_start(
                bytes,
                #[trigger] plan_model(bytes, workers)[k],
            ),
        forall|k: int|
            0 <= k < plan_model(bytes, workers).len() - 1 ==> !quoted_at(
                bytes,
                #[trigger] plan_model(bytes, workers)[k],
            ),
{
    let o = plan_model(bytes, workers);
    if !(workers <= 1 || bytes.len() < PARALLEL_THRESHOLD) {
        let chunk = bytes.len() as int / workers;
        assert(chunk >= 0) by (nonlinear_arith)
            requires workers > 1, bytes.len() >= 0, chunk == bytes.len() as int / workers;
        lemma_splits_valid(bytes, chunk, 1, workers, 0);
        let inner = splits_from(bytes, chunk, 1, workers, 0);
        assert(o == seq![0int] + inner + seq![bytes.len() as int]);
        assert forall|k: int| 0 < k < o.len() - 1 implies record_start(bytes, #[trigger] o[k]) by {
            assert(o[k] == inner[k - 1]);
        }
        assert forall|a: int, b: int| 0 <= a < b < o.len() implies o[a] < o[b] by {
            if b < o.len() - 1 {
                assert(o[b] == inner[b - 1]);
            }
            if 0 < a {
                assert(o[a] == inner[a - 1]);
            }
        }
        assert forall|k: int| 0 <= k < o.len() - 1 implies !quoted_at(bytes, #[trigger] o[k]) by {
            if 0 < k {
                assert(o[k] == inner[k - 1]);
                assert(record_start(bytes, o[k]));
                assert(quoted_at(bytes, o[k]) == (quoted_at(bytes, o[k] - 1) != (bytes[o[k] - 1] == QUOTE)));
            }
        }
    }
}

} // verus!
