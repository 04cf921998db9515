//! The run extractor: one step of the scan, and the whole scan.
use vstd::prelude::*;
use vstd::slice::slice_subrange;
use crate::model::{
    decoded_from, decodes_to, is_long_streak, is_run_of, lemma_classified, lemma_window_bound,
    lemma_window_order, lemma_window_shift, marks, none_before, ordered_spans, pure_decoder,
    pure_predicate, run_spans, window, window_count,
};
use crate::laws::lemma_resume;
use crate::run::FloatRun;

verus! {

/// Window indices `[i, j)` of the first long streak, or `None` where there is none.
fn find_streak<V, E: Fn(&[u8]) -> V, F: Fn(V) -> bool>(
    input: &[u8],
    extractor: &E,
    min_length: usize,
    condition: &F,
) -> (r: Option<(usize, usize)>)
    requires
        vstd::layout::size_of::<V>() > 0,
        pure_decoder(*extractor, vstd::layout::size_of::<V>()),
        pure_predicate(*condition),
    ensures
        ({
            let q = marks(*extractor, *condition, input@, vstd::layout::size_of::<V>());
            match r {
                Some((i, j)) => is_long_streak(q, i as int, j as int, min_length as nat)
                    && none_before(q, i as int, min_length as nat),
                None => none_before(q, q.len() as int, min_length as nat),
            }
        }),
{
    let w = core::mem::size_of::<V>();
    let ghost q = marks(*extractor, *condition, input@, w as nat);
    let ghost n = q.len() as int;
    let mut start: Option<usize> = None;
    let mut idx: usize = 0;
    let mut pos: usize = 0;
    proof {
        lemma_window_bound(input@.len() as int, w as int, 0);
    }
    while w <= input.len() - pos
        invariant
            w as nat == vstd::layout::size_of::<V>(),
            w > 0,
            pure_decoder(*extractor, w as nat),
            pure_predicate(*condition),
            q == marks(*extractor, *condition, input@, w as nat),
            n == q.len(),
            n == (input@.len() as int) / (w as int),
            pos == idx * w,
            pos <= input@.len(),
            0 <= idx <= n,
            pos + w <= input@.len() <==> idx < n,
            match start {
                Some(st) => st < idx && (st == 0 || !q[st - 1])
                    && (forall|k: int| st <= k < idx ==> q[k])
                    && none_before(q, st as int, min_length as nat),
                None => (idx == 0 || !q[idx - 1]) && none_before(q, idx as int, min_length as nat),
            },
        decreases n - idx,
    {
        let window_bytes = slice_subrange(input, pos, pos + w);
        let value = extractor(window_bytes);
        let ok = condition(value);
        proof {
            lemma_classified(*extractor, *condition, window_bytes, value, ok);
            assert(window_bytes@ == window(input@, w as nat, idx as int));
            assert(q[idx as int] == ok);
        }
        if ok {
            if start.is_none() {
                start = Some(idx);
            }
        } else {
            if let Some(st) = start {
                if idx - st >= min_length {
                    return Some((st, idx));
                }
                start = None;
                assert forall|i: int, j: int| i < idx + 1 implies !#[trigger] is_long_streak(q, i, j, min_length as nat) by {
                    if is_long_streak(q, i, j, min_length as nat) && i >= st {
                        if i > st {
                            assert(q[i - 1]);
                        } else if j > idx {
                            assert(q[idx as int]);
                        } else if j < idx {
                            assert(q[j]);
                        }
                    }
                }
            } else {
                assert forall|i: int, j: int| i < idx + 1 implies !#[trigger] is_long_streak(q, i, j, min_length as nat) by {
                    if is_long_streak(q, i, j, min_length as nat) && i == idx {
                        assert(q[idx as int]);
                    }
                }
            }
        }
        proof {
            lemma_window_bound(input@.len() as int, w as int, idx + 1);
            lemma_window_bound(input@.len() as int, w as int, idx as int);
        }
        pos = pos + w;
        idx = idx + 1;
    }
    match start {
        Some(st) => {
            if idx - st >= min_length {
                Some((st, idx))
            } else {
                assert forall|i: int, j: int| i < n implies !#[trigger] is_long_streak(q, i, j, min_length as nat) by {
                    if is_long_streak(q, i, j, min_length as nat) && i >= st {
                        if i > st {
                            assert(q[i - 1]);
                        } else if j < idx {
                            assert(q[j]);
                        }
                    }
                }
                None
            }
        },
        None => None,
    }
}

/// Decodes windows `i..j` of `input`, in order.
fn decode_windows<V, E: Fn(&[u8]) -> V>(input: &[u8], extractor: &E, i: usize, j: usize) -> (r: Vec<V>)
    requires
        vstd::layout::size_of::<V>() > 0,
        pure_decoder(*extractor, vstd::layout::size_of::<V>()),
        i <= j,
        j * vstd::layout::size_of::<V>() <= input@.len(),
    ensures
        r@.len() == j - i,
        decoded_from(*extractor, input@, vstd::layout::size_of::<V>(), i as int, r@),
{
    let w = core::mem::size_of::<V>();
    let len = input.len();
    let mut values: Vec<V> = Vec::new();
    let mut idx: usize = i;
    proof {
        lemma_window_bound(input@.len() as int, w as int, j as int);
        lemma_window_bound(input@.len() as int, w as int, i as int);
        lemma_window_order(i as int, j as int, w as int);
    }
    let mut pos: usize = i * w;
    while idx < j
        invariant
            w as nat == vstd::layout::size_of::<V>(),
            w > 0,
            pure_decoder(*extractor, w as nat),
            i <= idx <= j,
            j * w <= input@.len(),
            len == input@.len(),
            pos == idx * w,
            values@.len() == idx - i,
            decoded_from(*extractor, input@, w as nat, i as int, values@),
        decreases j - idx,
    {
        proof {
            lemma_window_bound(input@.len() as int, w as int, idx as int);
            lemma_window_order(idx as int, j as int, w as int);
            lemma_window_bound(input@.len() as int, w as int, idx + 1);
        }
        let window_bytes = slice_subrange(input, pos, pos + w);
        let value = extractor(window_bytes);
        proof {
            assert(window_bytes@ == window(input@, w as nat, idx as int));
            assert(decodes_to(*extractor, window(input@, w as nat, idx as int), value));
        }
        let ghost old_values = values@;
        values.push(value);
        proof {
            assert forall|k: int| 0 <= k < values@.len() implies decodes_to(
                *extractor,
                window(input@, w as nat, i + k),
                #[trigger] values@[k],
            ) by {
                if k < values@.len() - 1 {
                    assert(values@[k] == old_values[k]);
                }
            }
        }
        pos = pos + w;
        idx = idx + 1;
    }
    values
}

/// One step of the scan, with the decoder and the predicate borrowed.
pub(crate) fn run_step<'a, V, E: Fn(&[u8]) -> V, F: Fn(V) -> bool>(
    input: &'a [u8],
    extractor: &E,
    min_length: usize,
    condition: &F,
) -> (r: (Option<FloatRun<V>>, &'a [u8]))
    requires
        vstd::layout::size_of::<V>() > 0,
        pure_decoder(*extractor, vstd::layout::size_of::<V>()),
        pure_predicate(*condition),
    ensures
        ({
            let w = vstd::layout::size_of::<V>();
            let q = marks(*extractor, *condition, input@, w);
            match r.0 {
                Some(run) => {
                    &&& is_run_of(run, *extractor, *condition, input@, w, min_length as nat)
                    &&& none_before(q, run.address as int / w as int, min_length as nat)
                    &&& r.1@ == input@.subrange(
                        run.address + run.values@.len() * w,
                        input@.len() as int,
                    )
                },
                None => {
                    &&& none_before(q, q.len() as int, min_length as nat)
                    &&& r.1@ == input@
                },
            }
        }),
{
    let w = core::mem::size_of::<V>();
    let len = input.len();
    match find_streak(input, extractor, min_length, condition) {
        Some((i, j)) => {
            proof {
                lemma_window_bound(input@.len() as int, w as int, j as int - 1);
                lemma_window_order(i as int, j as int, w as int);
                assert(i * w / (w as int) == i) by (nonlinear_arith)
                    requires w > 0, i >= 0;
            }
            let values = decode_windows(input, extractor, i, j);
            proof {
                assert((i * w) as int + values@.len() * w == j * w) by (nonlinear_arith)
                    requires values@.len() == j - i, i <= j;
            }
            let run = FloatRun { address: i * w, values };
            (Some(run), slice_subrange(input, j * w, len))
        },
        None => (None, input),
    }
}

/// Finds the first maximal run of at least `min_length` accepted values in
/// `input`, reading one value from each `size_of::<V>()`-byte window.
///
/// On success the run's `address` is its byte offset in `input`, and the
/// remainder starts right after its last byte: the window that ended it is
/// read again by the next call. Where no such run exists the result is
/// `None` together with the whole of `input`. A streak shorter than
/// `min_length` is passed over and its windows count as skipped.
///
/// The decoder must give one value for each content of a window, and the
/// predicate one answer for each value: either may be called more than once
/// on the same bytes.
pub fn value_run_proc<'a, V, E: Fn(&[u8]) -> V, F: Fn(V) -> bool>(
    input: &'a [u8],
    extractor: E,
    min_length: usize,
    condition: F,
) -> (r: (Option<FloatRun<V>>, &'a [u8]))
    requires
        vstd::layout::size_of::<V>() > 0,
        pure_decoder(extractor, vstd::layout::size_of::<V>()),
        pure_predicate(condition),
    ensures
        ({
            let w = vstd::layout::size_of::<V>();
            let q = marks(extractor, condition, input@, w);
            match r.0 {
                Some(run) => {
                    &&& is_run_of(run, extractor, condition, input@, w, min_length as nat)
                    &&& none_before(q, run.address as int / w as int, min_length as nat)
                    &&& r.1@ == input@.subrange(
                        run.address + run.values@.len() * w,
                        input@.len() as int,
                    )
                },
                None => {
                    &&& none_before(q, q.len() as int, min_length as nat)
                    &&& r.1@ == input@
                },
            }
        }),
{
    run_step(input, &extractor, min_length, &condition)
}

/// What a scan has established once it has passed its first `cw` windows:
/// `runs` are, in order, all the long streaks that start before window `cw`,
/// and the last of them ends on window `cw`.
#[verifier::opaque]
pub open spec fn scanned_upto<V, E: Fn(&[u8]) -> V, F: Fn(V) -> bool>(
    extractor: E,
    condition: F,
    b: Seq<u8>,
    w: nat,
    min_length: nat,
    runs: Seq<FloatRun<V>>,
    cw: int,
) -> bool {
    let q = marks(extractor, condition, b, w);
    &&& 0 <= cw <= q.len()
    &&& cw == 0 || cw == q.len() || !q[cw]
    &&& forall|k: int|
        0 <= k < runs.len() ==> is_run_of(#[trigger] runs[k], extractor, condition, b, w, min_length)
    &&& ordered_spans(b, run_spans(runs, w), 0)
    &&& runs.len() == 0 ==> cw == 0
    &&& runs.len() > 0 ==> run_spans(runs, w).last().1 == cw * w
    &&& forall|i: int, j: int|
        i < cw && #[trigger] is_long_streak(q, i, j, min_length) ==> exists|k: int|
            0 <= k < runs.len() && (#[trigger] runs[k]).address == i * w
}

/// A run found in the suffix from window `cw` lies inside the buffer.
pub(crate) proof fn lemma_suffix_run_bound<V, E: Fn(&[u8]) -> V, F: Fn(V) -> bool>(
    extractor: E,
    condition: F,
    b: Seq<u8>,
    w: nat,
    min_length: nat,
    cw: int,
    run: FloatRun<V>,
)
    requires
        w > 0,
        0 <= cw <= window_count(b, w),
        is_run_of(run, extractor, condition, b.subrange(cw * w, b.len() as int), w, min_length),
    ensures
        cw * w + run.address + run.values@.len() * w <= b.len(),
{
    let rest = b.subrange(cw * w, b.len() as int);
    let i2 = run.address as int / w as int;
    let j2 = i2 + run.values@.len();
    lemma_window_shift(b, w, cw);
    lemma_window_order(j2, window_count(rest, w) as int, w as int);
    assert(window_count(rest, w) * w <= rest.len()) by (nonlinear_arith)
        requires window_count(rest, w) == rest.len() as int / w as int, w > 0;
    assert(j2 * w == i2 * w + run.values@.len() * w) by (nonlinear_arith)
        requires j2 == i2 + run.values@.len();
}

/// Appending, with its address moved to the whole buffer, the first run found
/// in the suffix from window `cw` extends what the scan has established to the
/// end of that run.
pub(crate) proof fn lemma_scan_extends<V, E: Fn(&[u8]) -> V, F: Fn(V) -> bool>(
    extractor: E,
    condition: F,
    b: Seq<u8>,
    w: nat,
    min_length: nat,
    runs: Seq<FloatRun<V>>,
    cw: int,
    run: FloatRun<V>,
    moved: FloatRun<V>,
)
    requires
        w > 0,
        scanned_upto(extractor, condition, b, w, min_length, runs, cw),
        is_run_of(run, extractor, condition, b.subrange(cw * w, b.len() as int), w, min_length),
        none_before(
            marks(extractor, condition, b.subrange(cw * w, b.len() as int), w),
            run.address as int / w as int,
            min_length,
        ),
        moved.address == cw * w + run.address,
        moved.values == run.values,
    ensures
        ({
            let j = cw + run.address as int / w as int + run.values@.len();
            &&& cw < j
            &&& j * w == moved.address + moved.values@.len() * w
            &&& scanned_upto(extractor, condition, b, w, min_length, runs.push(moved), j)
        }),
{
    reveal(scanned_upto);
    let q = marks(extractor, condition, b, w);
    let n = window_count(b, w) as int;
    let rest = b.subrange(cw * w, b.len() as int);
    let q2 = marks(extractor, condition, rest, w);
    let i2 = run.address as int / w as int;
    let j2 = i2 + run.values@.len();
    let i = cw + i2;
    let j = cw + j2;
    lemma_resume(extractor, condition, b, w, min_length, cw);
    lemma_window_shift(b, w, cw);
    lemma_suffix_run_bound(extractor, condition, b, w, min_length, cw, run);
    assert(is_long_streak(q, i, j, min_length) <==> is_long_streak(q2, i - cw, j - cw, min_length));
    assert(is_long_streak(q, i, j, min_length));
    assert((cw + i2) * w == cw * w + i2 * w) by (nonlinear_arith);
    assert((cw + j2) * w == cw * w + j2 * w) by (nonlinear_arith);
    assert(j2 * w == i2 * w + run.values@.len() * w) by (nonlinear_arith)
        requires j2 == i2 + run.values@.len();
    assert(moved.address == i * w);
    assert(i * w / (w as int) == i) by (nonlinear_arith)
        requires w > 0, i >= 0;
    assert forall|k: int| 0 <= k < moved.values@.len() implies decodes_to(
        extractor,
        window(b, w, i + k),
        #[trigger] moved.values@[k],
    ) by {
        assert(window(rest, w, i2 + k) == window(b, w, cw + (i2 + k)));
    }
    assert(is_run_of(moved, extractor, condition, b, w, min_length));
    let runs2 = runs.push(moved);
    assert(runs2[runs2.len() - 1] == moved);
    assert forall|k: int| 0 <= k < runs.len() implies runs2[k] == runs[k] by {}
    let spans = run_spans(runs, w);
    let spans2 = run_spans(runs2, w);
    assert(spans2[runs.len() as int] == (moved.address as int, moved.address + moved.values@.len() * w));
    assert forall|k: int| 0 <= k < runs.len() implies spans2[k] == spans[k] by {}
    lemma_window_order(cw, i, w as int);
    assert(ordered_spans(b, spans2, 0));
    assert forall|a: int, c: int|
        a < j && #[trigger] is_long_streak(q, a, c, min_length) implies exists|k: int|
            0 <= k < runs2.len() && (#[trigger] runs2[k]).address == a * w by {
        if a < cw {
            let k = choose|k: int| 0 <= k < runs.len() && (#[trigger] runs[k]).address == a * w;
            assert(runs2[k] == runs[k]);
        } else if a < i {
            assert(is_long_streak(q, a, c, min_length) <==> is_long_streak(q2, a - cw, c - cw, min_length));
        } else if a == i {
            assert(runs2[runs2.len() - 1].address == a * w);
        } else {
            assert(q[a - 1]);
        }
    }
}

/// Where the suffix from window `cw` holds no long streak, the scan has found them all.
pub(crate) proof fn lemma_scan_complete<V, E: Fn(&[u8]) -> V, F: Fn(V) -> bool>(
    extractor: E,
    condition: F,
    b: Seq<u8>,
    w: nat,
    min_length: nat,
    runs: Seq<FloatRun<V>>,
    cw: int,
)
    requires
        w > 0,
        scanned_upto(extractor, condition, b, w, min_length, runs, cw),
        ({
            let q2 = marks(extractor, condition, b.subrange(cw * w, b.len() as int), w);
            none_before(q2, q2.len() as int, min_length)
        }),
    ensures
        forall|k: int|
            0 <= k < runs.len() ==> is_run_of(#[trigger] runs[k], extractor, condition, b, w, min_length),
        ordered_spans(b, run_spans(runs, w), 0),
        forall|i: int, j: int|
            #[trigger] is_long_streak(marks(extractor, condition, b, w), i, j, min_length) ==> exists|k: int|
                0 <= k < runs.len() && (#[trigger] runs[k]).address == i * w,
        cw * w == (if runs.len() == 0 { 0 } else { run_spans(runs, w).last().1 }),
{
    reveal(scanned_upto);
    let q = marks(extractor, condition, b, w);
    let q2 = marks(extractor, condition, b.subrange(cw * w, b.len() as int), w);
    lemma_resume(extractor, condition, b, w, min_length, cw);
    assert forall|i: int, j: int|
        #[trigger] is_long_streak(q, i, j, min_length) implies exists|k: int|
            0 <= k < runs.len() && (#[trigger] runs[k]).address == i * w by {
        if i >= cw {
            assert(is_long_streak(q, i, j, min_length) <==> is_long_streak(q2, i - cw, j - cw, min_length));
        }
    }
}

/// Scans the whole of `input`: calls [`value_run_proc`] on the input and then
/// on each remainder until it finds no run, and returns every run found, in
/// order, with addresses from the start of `input`, together with how many
/// bytes at the end of `input` were never part of a run or before one.
pub fn collect_runs<V, E: Fn(&[u8]) -> V, F: Fn(V) -> bool>(
    input: &[u8],
    extractor: E,
    min_length: usize,
    condition: F,
) -> (r: (Vec<FloatRun<V>>, usize))
    requires
        vstd::layout::size_of::<V>() > 0,
        pure_decoder(extractor, vstd::layout::size_of::<V>()),
        pure_predicate(condition),
    ensures
        ({
            let w = vstd::layout::size_of::<V>();
            let q = marks(extractor, condition, input@, w);
            let runs = r.0@;
            let spans = run_spans(runs, w);
            &&& forall|k: int|
                0 <= k < runs.len() ==> is_run_of(
                    #[trigger] runs[k],
                    extractor,
                    condition,
                    input@,
                    w,
                    min_length as nat,
                )
            &&& ordered_spans(input@, spans, 0)
            &&& forall|i: int, j: int|
                #[trigger] is_long_streak(q, i, j, min_length as nat) ==> exists|k: int|
                    0 <= k < runs.len() && (#[trigger] runs[k]).address == i * w
            &&& r.1 == input@.len() - (if runs.len() == 0 {
                0
            } else {
                spans.last().1
            })
        }),
{
    let w = core::mem::size_of::<V>();
    let ghost wn = w as nat;
    let ghost m = min_length as nat;
    let len = input.len();
    let mut runs: Vec<FloatRun<V>> = Vec::new();
    let mut remain: &[u8] = input;
    let mut consumed: usize = 0;
    let ghost mut cw: int = 0;
    proof {
        reveal(scanned_upto);
        assert(ordered_spans(input@, run_spans(runs@, wn), 0));
    }
    loop
        invariant
            w as nat == vstd::layout::size_of::<V>(),
            wn == w as nat,
            m == min_length as nat,
            w > 0,
            pure_decoder(extractor, wn),
            pure_predicate(condition),
            len == input@.len(),
            consumed == cw * w,
            consumed <= input@.len(),
            remain@ == input@.subrange(consumed as int, input@.len() as int),
            scanned_upto(extractor, condition, input@, wn, m, runs@, cw),
        decreases input@.len() - consumed,
    {
        let step = run_step(remain, &extractor, min_length, &condition);
        let (found, rest) = step;
        assert(remain@ == input@.subrange(cw * wn, input@.len() as int));
        match found {
            Some(run) => {
                proof {
                    reveal(scanned_upto);
                    lemma_suffix_run_bound(extractor, condition, input@, wn, m, cw, run);
                }
                let address = run.index_from_base(consumed);
                let end = address + run.values.len() * w;
                let moved = FloatRun { address, values: run.values };
                proof {
                    lemma_scan_extends(extractor, condition, input@, wn, m, runs@, cw, run, moved);
                    lemma_window_order(cw, cw + run.address as int / w as int + run.values@.len(), w as int);
                    cw = cw + run.address as int / w as int + run.values@.len();
                }
                runs.push(moved);
                remain = rest;
                consumed = end;
            },
            None => {
                proof {
                    lemma_scan_complete(extractor, condition, input@, wn, m, runs@, cw);
                    assert(remain@.len() == input@.len() - cw * wn);
                }
                return (runs, remain.len());
            },
        }
    }
}

} // verus!
