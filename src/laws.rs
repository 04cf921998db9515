//! Properties that relate several steps of a scan.
use vstd::prelude::*;
use crate::model::{
    is_long_streak, is_streak, lemma_window_shift, marks, ordered_spans, run_spans, window_count,
};
use crate::run::FloatRun;

verus! {

/// Scanning resumes on a remainder without loss or duplication. Where the
/// suffix starts on window `cut` and either that window or the one before it
/// is rejected (as after a run, or at either end), the long streaks of the
/// suffix are exactly those of the whole buffer that start at or after
/// `cut`, moved `cut` windows to the left.
pub proof fn lemma_resume<V, E: Fn(&[u8]) -> V, F: Fn(V) -> bool>(
    extractor: E,
    condition: F,
    b: Seq<u8>,
    w: nat,
    min_length: nat,
    cut: int,
)
    requires
        w > 0,
        0 <= cut <= window_count(b, w),
        cut == 0 || cut == window_count(b, w) || !marks(extractor, condition, b, w)[cut - 1]
            || !marks(extractor, condition, b, w)[cut],
    ensures
        marks(extractor, condition, b.subrange(cut * w, b.len() as int), w)
            == marks(extractor, condition, b, w).subrange(cut, window_count(b, w) as int),
        forall|i: int, j: int|
            cut <= i ==> (is_long_streak(marks(extractor, condition, b, w), i, j, min_length)
                <==> #[trigger] is_long_streak(
                marks(extractor, condition, b.subrange(cut * w, b.len() as int), w),
                i - cut,
                j - cut,
                min_length,
            )),
{
    let q = marks(extractor, condition, b, w);
    let rest = b.subrange(cut * w, b.len() as int);
    let q2 = marks(extractor, condition, rest, w);
    lemma_window_shift(b, w, cut);
    assert(q2 =~= q.subrange(cut, window_count(b, w) as int));
    assert forall|i: int, j: int| cut <= i implies (is_long_streak(q, i, j, min_length)
        <==> #[trigger] is_long_streak(q2, i - cut, j - cut, min_length)) by {
        if is_streak(q, i, j) {
            assert(forall|k: int| i - cut <= k < j - cut ==> q2[k] == q[k + cut]);
            assert(is_streak(q2, i - cut, j - cut));
        }
        if is_streak(q2, i - cut, j - cut) {
            assert(forall|k: int| i <= k < j ==> q[k] == q2[k - cut]);
            if i == cut && cut > 0 && cut < window_count(b, w) {
                assert(q[cut] == q2[0]);
            }
            assert(is_streak(q, i, j));
        }
    }
}

/// The bytes of `b` from `from` on, put back together from the spans: for
/// each span, the bytes skipped before it and then its own bytes, and at the
/// end whatever follows the last span.
pub open spec fn reassemble(b: Seq<u8>, spans: Seq<(int, int)>, from: int) -> Seq<u8>
    decreases spans.len(),
{
    if spans.len() == 0 {
        b.subrange(from, b.len() as int)
    } else {
        b.subrange(from, spans[0].0) + b.subrange(spans[0].0, spans[0].1) + reassemble(
            b,
            spans.drop_first(),
            spans[0].1,
        )
    }
}

/// Spans in order and without overlap, with the gaps between them, give back
/// the bytes exactly.
pub proof fn lemma_reassemble(b: Seq<u8>, spans: Seq<(int, int)>, from: int)
    requires
        0 <= from <= b.len(),
        ordered_spans(b, spans, from),
    ensures
        reassemble(b, spans, from) == b.subrange(from, b.len() as int),
    decreases spans.len(),
{
    if spans.len() > 0 {
        let rest = spans.drop_first();
        assert forall|k: int| 0 < k < rest.len() implies rest[k - 1].1 <= (#[trigger] rest[k]).0 by {
            assert(rest[k] == spans[k + 1]);
            assert(rest[k - 1] == spans[k]);
        }
        if rest.len() > 0 {
            assert(rest[0] == spans[1]);
        }
        assert forall|k: int| 0 <= k < rest.len() implies (#[trigger] rest[k]).0 <= rest[k].1 <= b.len() by {
            assert(rest[k] == spans[k + 1]);
        }
        assert(spans[0].0 <= spans[0].1 <= b.len());
        lemma_reassemble(b, rest, spans[0].1);
        assert(b.subrange(from, spans[0].0) + b.subrange(spans[0].0, spans[0].1) + b.subrange(
            spans[0].1,
            b.len() as int,
        ) =~= b.subrange(from, b.len() as int));
    }
}

/// The runs of a whole scan, with the bytes skipped between them and those
/// left after the last, give back the scanned buffer exactly.
pub proof fn lemma_runs_partition<V>(b: Seq<u8>, runs: Seq<FloatRun<V>>, w: nat)
    requires
        ordered_spans(b, run_spans(runs, w), 0),
    ensures
        reassemble(b, run_spans(runs, w), 0) == b,
{
    lemma_reassemble(b, run_spans(runs, w), 0);
    assert(b.subrange(0, b.len() as int) =~= b);
}

} // verus!
