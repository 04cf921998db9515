//! The mathematical model of a scan: a buffer is cut into stride-wide windows,
//! each window is marked accepted or not, and runs are maximal streaks of
//! accepted windows.
use vstd::prelude::*;
use crate::run::FloatRun;

verus! {

/// The `i`-th window of `b`, `w` bytes wide, aligned on the start of `b`.
pub open spec fn window(b: Seq<u8>, w: nat, i: int) -> Seq<u8> {
    b.subrange(i * w, i * w + w)
}

/// How many whole windows of `w` bytes `b` holds; a shorter tail is never read.
pub open spec fn window_count(b: Seq<u8>, w: nat) -> nat {
    if w == 0 { 0 } else { b.len() / w }
}

/// The decoder accepts every `w`-byte window and gives one value per content.
pub open spec fn pure_decoder<V, E: Fn(&[u8]) -> V>(extractor: E, w: nat) -> bool {
    &&& forall|s: &[u8]| s@.len() == w ==> #[trigger] extractor.requires((s,))
    &&& forall|s1: &[u8], s2: &[u8], v1: V, v2: V|
        #![trigger extractor.ensures((s1,), v1), extractor.ensures((s2,), v2)]
        s1@ == s2@ && extractor.ensures((s1,), v1) && extractor.ensures((s2,), v2) ==> v1 == v2
}

/// The predicate takes every value and gives one answer per value.
pub open spec fn pure_predicate<V, F: Fn(V) -> bool>(condition: F) -> bool {
    &&& forall|v: V| #[trigger] condition.requires((v,))
    &&& forall|v: V|
        #![trigger condition.ensures((v,), true), condition.ensures((v,), false)]
        !(condition.ensures((v,), true) && condition.ensures((v,), false))
}

/// The bytes `w` decode to `v`.
pub open spec fn decodes_to<V, E: Fn(&[u8]) -> V>(extractor: E, w: Seq<u8>, v: V) -> bool {
    exists|s: &[u8]| s@ == w && #[trigger] extractor.ensures((s,), v)
}

/// The bytes `w` decode to a value that the predicate accepts.
pub open spec fn accepted<V, E: Fn(&[u8]) -> V, F: Fn(V) -> bool>(
    extractor: E,
    condition: F,
    w: Seq<u8>,
) -> bool {
    exists|s: &[u8], v: V|
        #![trigger extractor.ensures((s,), v), condition.ensures((v,), true)]
        s@ == w && extractor.ensures((s,), v) && condition.ensures((v,), true)
}

/// For each whole window of `b`, whether it is accepted.
pub open spec fn marks<V, E: Fn(&[u8]) -> V, F: Fn(V) -> bool>(
    extractor: E,
    condition: F,
    b: Seq<u8>,
    w: nat,
) -> Seq<bool> {
    Seq::new(window_count(b, w), |i: int| accepted(extractor, condition, window(b, w, i)))
}

/// Windows `i..j` of `q` are all accepted, and the streak cannot be extended:
/// the window before it and the window after it, where they exist, are not.
pub open spec fn is_streak(q: Seq<bool>, i: int, j: int) -> bool {
    &&& 0 <= i < j <= q.len()
    &&& forall|k: int| i <= k < j ==> q[k]
    &&& i == 0 || !q[i - 1]
    &&& j == q.len() || !q[j]
}

/// A maximal streak of at least `min_length` windows.
pub open spec fn is_long_streak(q: Seq<bool>, i: int, j: int, min_length: nat) -> bool {
    is_streak(q, i, j) && j - i >= min_length
}

/// No long streak of `q` starts before window `lim`.
pub open spec fn none_before(q: Seq<bool>, lim: int, min_length: nat) -> bool {
    forall|i: int, j: int| i < lim ==> !#[trigger] is_long_streak(q, i, j, min_length)
}

/// `values[k]` is the decoding of window `i + k` of `b`, for each `k`.
pub open spec fn decoded_from<V, E: Fn(&[u8]) -> V>(
    extractor: E,
    b: Seq<u8>,
    w: nat,
    i: int,
    values: Seq<V>,
) -> bool {
    forall|k: int| 0 <= k < values.len() ==> decodes_to(extractor, window(b, w, i + k), #[trigger] values[k])
}

/// `run` is the long streak that starts at its address: its values are the
/// decodings of the streak's windows.
pub open spec fn is_run_of<V, E: Fn(&[u8]) -> V, F: Fn(V) -> bool>(
    run: FloatRun<V>,
    extractor: E,
    condition: F,
    b: Seq<u8>,
    w: nat,
    min_length: nat,
) -> bool {
    let i = run.address as int / w as int;
    &&& run.address as int == i * w
    &&& is_long_streak(marks(extractor, condition, b, w), i, i + run.values@.len(), min_length)
    &&& decoded_from(extractor, b, w, i, run.values@)
}

/// The byte span `[start, end)` that each run covers.
pub open spec fn run_spans<V>(runs: Seq<FloatRun<V>>, w: nat) -> Seq<(int, int)> {
    runs.map_values(|r: FloatRun<V>| (r.address as int, r.address + r.values@.len() * w))
}

/// The spans lie in `b` at or after `from`, in order, each ending before the next starts.
pub open spec fn ordered_spans(b: Seq<u8>, spans: Seq<(int, int)>, from: int) -> bool {
    &&& forall|k: int| 0 <= k < spans.len() ==> (#[trigger] spans[k]).0 <= spans[k].1 <= b.len()
    &&& forall|k: int| 0 < k < spans.len() ==> spans[k - 1].1 <= (#[trigger] spans[k]).0
    &&& spans.len() > 0 ==> from <= spans[0].0
}

/// A call of the decoder and then of the predicate tells whether the window is accepted.
pub proof fn lemma_classified<V, E: Fn(&[u8]) -> V, F: Fn(V) -> bool>(
    extractor: E,
    condition: F,
    s: &[u8],
    v: V,
    r: bool,
)
    requires
        pure_decoder(extractor, s@.len()),
        pure_predicate(condition),
        extractor.ensures((s,), v),
        condition.ensures((v,), r),
    ensures
        accepted(extractor, condition, s@) == r,
{
    if r {
        assert(accepted(extractor, condition, s@));
    } else {
        if accepted(extractor, condition, s@) {
            let (s2, v2) = choose|s2: &[u8], v2: V|
                s2@ == s@ && extractor.ensures((s2,), v2) && condition.ensures((v2,), true);
            assert(v2 == v);
        }
    }
}

/// Arithmetic on window positions: window `i` ends inside `b` exactly when `i`
/// is below the window count.
pub proof fn lemma_window_bound(len: int, w: int, i: int)
    requires
        w > 0,
        i >= 0,
        len >= 0,
    ensures
        i * w + w <= len <==> i < len / w,
        (i + 1) * w == i * w + w,
        i * w >= 0,
{
    assert((i + 1) * w == i * w + w) by (nonlinear_arith);
    assert(i * w >= 0) by (nonlinear_arith)
        requires i >= 0, w > 0;
    assert(i * w + w <= len <==> i < len / w) by (nonlinear_arith)
        requires w > 0, i >= 0, len >= 0;
}

/// Window positions grow with the window index.
pub proof fn lemma_window_order(a: int, b: int, w: int)
    requires
        w > 0,
        0 <= a <= b,
    ensures
        a * w <= b * w,
        a < b ==> a * w + w <= b * w,
{
    assert(a * w <= b * w) by (nonlinear_arith)
        requires w > 0, a <= b;
    if a < b {
        assert(a * w + w <= b * w) by (nonlinear_arith)
            requires w > 0, a + 1 <= b;
    }
}

/// The windows of a suffix that starts on window `cut` are the windows of the
/// whole buffer from `cut` on.
pub proof fn lemma_window_shift(b: Seq<u8>, w: nat, cut: int)
    requires
        w > 0,
        0 <= cut <= window_count(b, w),
    ensures
        cut * w <= b.len(),
        window_count(b.subrange(cut * w, b.len() as int), w) == window_count(b, w) - cut,
        forall|k: int|
            0 <= k < window_count(b, w) - cut ==> #[trigger] window(b.subrange(cut * w, b.len() as int), w, k)
                == window(b, w, cut + k),
{
    let n = window_count(b, w) as int;
    lemma_window_order(cut, n, w as int);
    assert(n * w <= b.len()) by (nonlinear_arith)
        requires n == b.len() as int / w as int, w > 0;
    let rest = b.subrange(cut * w, b.len() as int);
    assert(rest.len() as int / w as int == n - cut) by (nonlinear_arith)
        requires
            n == b.len() as int / w as int,
            rest.len() == b.len() - cut * w,
            w > 0,
            0 <= cut <= n;
    assert forall|k: int| 0 <= k < n - cut implies #[trigger] window(rest, w, k) == window(b, w, cut + k) by {
        lemma_window_bound(rest.len() as int, w as int, k);
        assert((cut + k) * w == cut * w + k * w) by (nonlinear_arith);
        assert(window(rest, w, k) =~= window(b, w, cut + k));
    }
}

} // verus!
