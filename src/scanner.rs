//! A scan taken one run at a time.
use vstd::prelude::*;
use vstd::slice::slice_subrange;
use crate::model::{
    is_long_streak, is_run_of, lemma_window_order, marks, none_before, ordered_spans, pure_decoder,
    pure_predicate, run_spans,
};
use crate::run::FloatRun;
use crate::laws::lemma_resume;
use crate::scan::{
    lemma_scan_complete, lemma_scan_extends, lemma_suffix_run_bound, run_step, scanned_upto,
};

verus! {

/// Hands out the runs of a buffer one by one, in order, and then reports how
/// many bytes after the last run were never consumed. Once it has reported
/// that no run is left it stays exhausted.
pub struct RunScanner<'a, V, E, F> {
    input: &'a [u8],
    extractor: E,
    condition: F,
    min_length: usize,
    consumed: usize,
    finished: bool,
    found: Ghost<Seq<FloatRun<V>>>,
    cursor: Ghost<int>,
}

impl<'a, V, E: Fn(&[u8]) -> V, F: Fn(V) -> bool> RunScanner<'a, V, E, F> {
    /// The buffer being scanned.
    pub closed spec fn bytes(&self) -> Seq<u8> {
        self.input@
    }

    /// The decoder.
    pub closed spec fn decoder(&self) -> E {
        self.extractor
    }

    /// The predicate.
    pub closed spec fn predicate(&self) -> F {
        self.condition
    }

    /// The least number of values in a run.
    pub closed spec fn min_len(&self) -> nat {
        self.min_length as nat
    }

    /// The runs handed out so far, in order.
    pub closed spec fn runs_found(&self) -> Seq<FloatRun<V>> {
        self.found@
    }

    /// The window up to which the buffer has been scanned.
    pub closed spec fn scanned(&self) -> int {
        self.cursor@
    }

    /// Whether the scanner has reported that no run is left.
    pub closed spec fn is_finished(&self) -> bool {
        self.finished
    }

    /// The windows of the buffer, each marked accepted or not.
    pub open spec fn window_marks(&self) -> Seq<bool> {
        marks(self.decoder(), self.predicate(), self.bytes(), vstd::layout::size_of::<V>())
    }

    /// The runs handed out are, in order, all the long streaks that start
    /// before the scanned window; once finished, all of them.
    pub closed spec fn wf(&self) -> bool {
        let w = vstd::layout::size_of::<V>();
        &&& w > 0
        &&& pure_decoder(self.extractor, w)
        &&& pure_predicate(self.condition)
        &&& self.consumed == self.cursor@ * w
        &&& self.consumed <= self.input@.len()
        &&& scanned_upto(
            self.extractor,
            self.condition,
            self.input@,
            w,
            self.min_length as nat,
            self.found@,
            self.cursor@,
        )
        &&& self.finished ==> none_before(
            marks(
                self.extractor,
                self.condition,
                self.input@.subrange(self.consumed as int, self.input@.len() as int),
                w,
            ),
            (self.input@.len() - self.consumed) as int,
            self.min_length as nat,
        )
    }

    /// Starts a scan of `input`.
    pub fn new(input: &'a [u8], extractor: E, min_length: usize, condition: F) -> (r: Self)
        requires
            vstd::layout::size_of::<V>() > 0,
            pure_decoder(extractor, vstd::layout::size_of::<V>()),
            pure_predicate(condition),
        ensures
            r.wf(),
            r.bytes() == input@,
            r.decoder() == extractor,
            r.predicate() == condition,
            r.min_len() == min_length as nat,
            r.runs_found() == Seq::<FloatRun<V>>::empty(),
            r.scanned() == 0,
            !r.is_finished(),
    {
        let r = RunScanner {
            input,
            extractor,
            condition,
            min_length,
            consumed: 0,
            finished: false,
            found: Ghost(Seq::empty()),
            cursor: Ghost(0),
        };
        proof {
            reveal(scanned_upto);
            assert(ordered_spans(input@, run_spans(r.found@, vstd::layout::size_of::<V>()), 0));
            assert(r.cursor@ * vstd::layout::size_of::<V>() == 0) by (nonlinear_arith)
                requires r.cursor@ == 0;
        }
        r
    }
}

impl<'a, V, E: Fn(&[u8]) -> V, F: Fn(V) -> bool> RunScanner<'a, V, E, F> {
    /// What a well-formed scanner has found: each run is a long streak of the
    /// buffer, the runs are in order without overlap, and every long streak
    /// that starts before the scanned window is one of them.
    pub proof fn lemma_runs_found(&self)
        requires
            self.wf(),
        ensures
            ({
                let w = vstd::layout::size_of::<V>();
                let runs = self.runs_found();
                &&& forall|k: int|
                    0 <= k < runs.len() ==> is_run_of(
                        #[trigger] runs[k],
                        self.decoder(),
                        self.predicate(),
                        self.bytes(),
                        w,
                        self.min_len(),
                    )
                &&& ordered_spans(self.bytes(), run_spans(runs, w), 0)
                &&& forall|i: int, j: int|
                    i < self.scanned() && #[trigger] is_long_streak(self.window_marks(), i, j, self.min_len())
                        ==> exists|k: int| 0 <= k < runs.len() && (#[trigger] runs[k]).address == i * w
            }),
    {
        reveal(scanned_upto);
    }

    /// Hands out the next run, or `None` once no run is left (and from then
    /// on). The run's address counts from the start of the whole buffer.
    pub fn next_run(&mut self) -> (r: Option<FloatRun<V>>)
        requires
            old(self).wf(),
        ensures
            final(self).wf(),
            final(self).bytes() == old(self).bytes(),
            final(self).decoder() == old(self).decoder(),
            final(self).predicate() == old(self).predicate(),
            final(self).min_len() == old(self).min_len(),
            old(self).is_finished() ==> r is None && final(self).is_finished()
                && final(self).runs_found() == old(self).runs_found(),
            !old(self).is_finished() ==> match r {
                Some(run) => {
                    let w = vstd::layout::size_of::<V>();
                    &&& is_run_of(
                        run,
                        old(self).decoder(),
                        old(self).predicate(),
                        old(self).bytes(),
                        w,
                        old(self).min_len(),
                    )
                    &&& old(self).scanned() <= run.address as int / w as int
                    &&& forall|i: int, j: int|
                        old(self).scanned() <= i < run.address as int / w as int ==> !#[trigger] is_long_streak(
                            old(self).window_marks(),
                            i,
                            j,
                            old(self).min_len(),
                        )
                    &&& final(self).runs_found() == old(self).runs_found().push(run)
                    &&& final(self).scanned() == run.address as int / w as int + run.values@.len()
                    &&& !final(self).is_finished()
                },
                None => {
                    &&& final(self).is_finished()
                    &&& final(self).runs_found() == old(self).runs_found()
                    &&& forall|i: int, j: int|
                        #[trigger] is_long_streak(old(self).window_marks(), i, j, old(self).min_len())
                            ==> exists|k: int|
                            0 <= k < final(self).runs_found().len()
                                && (#[trigger] final(self).runs_found()[k]).address == i
                                * vstd::layout::size_of::<V>()
                },
            },
    {
        if self.finished {
            return None;
        }
        let w = core::mem::size_of::<V>();
        let ghost wn = w as nat;
        let ghost m = self.min_length as nat;
        let ghost cw = self.cursor@;
        let ghost e = self.extractor;
        let ghost c = self.condition;
        let ghost b = self.input@;
        let remain = slice_subrange(self.input, self.consumed, self.input.len());
        let (found, _rest) = run_step(remain, &self.extractor, self.min_length, &self.condition);
        assert(remain@ == b.subrange(cw * wn, b.len() as int));
        proof {
            reveal(scanned_upto);
            lemma_resume(e, c, b, wn, m, cw);
        }
        match found {
            Some(run) => {
                proof {
                    lemma_suffix_run_bound(e, c, b, wn, m, cw, run);
                }
                let address = run.index_from_base(self.consumed);
                let end = address + run.values.len() * w;
                let moved = FloatRun { address, values: run.values };
                proof {
                    lemma_scan_extends(e, c, b, wn, m, self.found@, cw, run, moved);
                    let j = cw + run.address as int / w as int + run.values@.len();
                    lemma_window_order(cw, j, w as int);
                    let i2 = run.address as int / w as int;
                    assert(run.address as int == i2 * w);
                    assert((cw * w + i2 * w) / (w as int) == cw + i2) by (nonlinear_arith)
                        requires w > 0, cw >= 0, i2 >= 0;
                    assert(moved.address as int / w as int == cw + run.address as int / w as int);
                    let q = marks(e, c, b, wn);
                    let q2 = marks(e, c, remain@, wn);
                    assert forall|i: int, j: int|
                        cw <= i < moved.address as int / w as int implies !#[trigger] is_long_streak(q, i, j, m) by {
                        assert(is_long_streak(q, i, j, m) <==> is_long_streak(q2, i - cw, j - cw, m));
                    }
                }
                self.found = Ghost(self.found@.push(moved));
                self.cursor = Ghost(cw + run.address as int / w as int + run.values@.len());
                self.consumed = end;
                Some(moved)
            },
            None => {
                proof {
                    lemma_scan_complete(e, c, b, wn, m, self.found@, cw);
                }
                self.finished = true;
                None
            },
        }
    }

    /// How many bytes at the end of the buffer follow the last run handed out
    /// (all of them where there was none).
    pub fn unconsumed(&self) -> (r: usize)
        requires
            self.wf(),
        ensures
            r == self.bytes().len() - (if self.runs_found().len() == 0 {
                0
            } else {
                run_spans(self.runs_found(), vstd::layout::size_of::<V>()).last().1
            }),
    {
        proof {
            reveal(scanned_upto);
            if self.found@.len() == 0 {
                assert(self.cursor@ * vstd::layout::size_of::<V>() == 0) by (nonlinear_arith)
                    requires self.cursor@ == 0;
            }
        }
        self.input.len() - self.consumed
    }
}

} // verus!
