//! The bookkeeping of a calibration sweep.
//!
//! A sweep visits the grid points one after the other. At each it takes a
//! batch of draws, then looks at one estimate after the other, each with
//! its own loss weight, until one is accepted. The weights, and the bracket
//! that closes in on them, are the caller's; this module decides what an
//! estimate leads to, keeps the accepted estimates, and lays the batches
//! out in the matrix that the host receives.

use crate::canon::{as_ints, labels_used};
use crate::clust::LabelType;
use crate::draws::{cluster_count, indices_as_ints, Draws};
use crate::grid::{grid_length_for, resolve_grid_length};
use crate::host::{cell, lemma_cell_in_range, lemma_cell_injective};
use vstd::prelude::*;

verus! {

/// What an estimate leads to.
#[derive(Clone, Copy, Debug, PartialEq, Eq)]
pub enum Verdict {
    /// The estimate stands for its grid point.
    Accepted,
    /// Too few clusters: the weight becomes the upper end of the bracket
    /// and the next weight lies halfway down to the lower end.
    TightenedDownward,
    /// Too many clusters: the weight becomes the lower end of the bracket
    /// and the next weight lies halfway up to the upper end.
    TightenedUpward,
}

/// What an estimate of `k` clusters leads to when the window of cluster
/// counts is `lower..=upper`: a bracket that has closed accepts whatever
/// came; else a count below the window tightens downward, one above it
/// upward, and one inside it is accepted.
pub open spec fn verdict_for(lower: nat, upper: nat, converged: bool, k: nat) -> Verdict {
    if converged {
        Verdict::Accepted
    } else if k < lower {
        Verdict::TightenedDownward
    } else if k > upper {
        Verdict::TightenedUpward
    } else {
        Verdict::Accepted
    }
}

/// An estimate that is accepted while the bracket is still open has a
/// cluster count inside the window; with a window of a single count it has
/// exactly that many clusters.
pub proof fn lemma_accepted_in_window(lower: nat, upper: nat, k: nat)
    requires
        verdict_for(lower, upper, false, k) == Verdict::Accepted,
    ensures
        lower <= k <= upper,
        lower == upper ==> k == lower,
{
}

/// The window of cluster counts that a calibration aims for.
#[derive(Clone, Copy, Debug)]
pub struct ClusterWindow {
    min: usize,
    max: usize,
}

impl ClusterWindow {
    /// The smallest count of the window.
    pub closed spec fn lower(&self) -> nat {
        self.min as nat
    }

    /// The largest count of the window.
    pub closed spec fn upper(&self) -> nat {
        self.max as nat
    }

    /// The ends are in order.
    pub open spec fn wf(&self) -> bool {
        self.lower() <= self.upper()
    }

    /// The window between the two counts, whichever of them is the
    /// larger.
    pub fn new(a: usize, b: usize) -> (w: ClusterWindow)
        ensures
            w.wf(),
            w.lower() == if a <= b {
                a
            } else {
                b
            },
            w.upper() == if a <= b {
                b
            } else {
                a
            },
    {
        if a <= b {
            ClusterWindow { min: a, max: b }
        } else {
            ClusterWindow { min: b, max: a }
        }
    }

    /// The smallest count of the window.
    pub fn min_clusters(&self) -> (k: usize)
        ensures
            k == self.lower(),
    {
        self.min
    }

    /// The largest count of the window.
    pub fn max_clusters(&self) -> (k: usize)
        ensures
            k == self.upper(),
    {
        self.max
    }

    /// Whether the window is a single count.
    pub fn is_single(&self) -> (b: bool)
        ensures
            b == (self.lower() == self.upper()),
    {
        self.min == self.max
    }

    /// What an estimate of `n_clusters` clusters leads to.
    pub fn evaluate(&self, converged: bool, n_clusters: usize) -> (v: Verdict)
        ensures
            v == verdict_for(self.lower(), self.upper(), converged, n_clusters as nat),
    {
        if converged {
            Verdict::Accepted
        } else if n_clusters < self.min {
            Verdict::TightenedDownward
        } else if n_clusters > self.max {
            Verdict::TightenedUpward
        } else {
            Verdict::Accepted
        }
    }
}

/// What a sweep waits for.
#[derive(Clone, Copy, Debug, PartialEq, Eq)]
pub enum Phase {
    /// A batch of draws for the grid point at hand.
    Sampling,
    /// An estimate from the batch of the grid point at hand.
    Evaluating,
    /// Nothing: every grid point has its accepted estimate.
    Done,
}

/// Why a sweep did not take a step.
#[derive(Clone, Copy, Debug, PartialEq, Eq)]
pub enum CalibrationError {
    /// The matrix of all samples would not fit in memory.
    TooLarge,
    /// The sweep waits for something else.
    OutOfTurn,
    /// The draws or the estimate are over another number of items.
    ItemCountMismatch,
    /// The batch has fewer draws than the sweep stores per grid point.
    TooFewDraws,
    /// The estimate holds a label that is too large to be stored.
    LabelTooLarge,
}

/// A sweep as plain values.
pub struct CalibrationView {
    /// The smallest cluster count aimed for.
    pub lower: nat,
    /// The largest cluster count aimed for.
    pub upper: nat,
    /// The number of draws stored per grid point.
    pub n_samples: nat,
    /// The number of items.
    pub n_items: nat,
    /// The number of grid points.
    pub grid_length: nat,
    /// What the sweep waits for.
    pub phase: Phase,
    /// The matrix of stored draws, column after column: one row per grid
    /// point and draw, one column per item, labels counted from one.
    pub samples: Seq<i32>,
    /// The accepted estimates, one per grid point visited.
    pub candidates: Draws,
}

/// The matrix `after` is the matrix `before` with the first `n_samples`
/// draws of `batch` written into the rows of grid point `g`, every label
/// raised by one.
pub open spec fn holds_batch(
    after: Seq<i32>,
    before: Seq<i32>,
    batch: Draws,
    n_samples: nat,
    grid_length: nat,
    n_items: nat,
    g: nat,
) -> bool {
    let rows = n_samples * grid_length;
    &&& after.len() == before.len()
    &&& forall|row: int, col: int|
        0 <= row < rows && 0 <= col < n_items ==> #[trigger] after[cell(rows, row, col)] == if g
            * n_samples <= row < g * n_samples + n_samples {
            batch.draw(row - g * n_samples)[col] + 1
        } else {
            before[cell(rows, row, col)] as int
        }
}

/// The rows of grid point `g` lie inside the matrix.
pub proof fn lemma_block_in_range(n_samples: nat, grid_length: nat, g: nat, draw: nat)
    requires
        g < grid_length,
        draw < n_samples,
    ensures
        0 <= g * n_samples,
        g * n_samples + draw < n_samples * grid_length,
{
    assert(0 <= g * n_samples && g * n_samples + draw < n_samples * grid_length)
        by (nonlinear_arith)
        requires
            g + 1 <= grid_length,
            draw < n_samples,
    ;
}

/// A calibration sweep in progress.
pub struct Calibration {
    window: ClusterWindow,
    n_samples: usize,
    n_items: usize,
    grid_length: usize,
    phase: Phase,
    samples: Vec<i32>,
    candidates: Draws,
}

impl View for Calibration {
    type V = CalibrationView;

    closed spec fn view(&self) -> CalibrationView {
        CalibrationView {
            lower: self.window.lower(),
            upper: self.window.upper(),
            n_samples: self.n_samples as nat,
            n_items: self.n_items as nat,
            grid_length: self.grid_length as nat,
            phase: self.phase,
            samples: self.samples@,
            candidates: self.candidates,
        }
    }
}

impl Calibration {
    /// The sweep has visited no more grid points than there are, it is
    /// done exactly when it has visited them all, and the matrix has a row
    /// for each grid point and draw and a column for each item.
    pub open spec fn wf(&self) -> bool {
        &&& self@.lower <= self@.upper
        &&& self@.grid_length >= 1
        &&& self@.candidates.wf()
        &&& self@.candidates.items() == self@.n_items
        &&& self@.candidates.counts().len() <= self@.grid_length
        &&& (self@.phase is Done <==> self@.candidates.counts().len() == self@.grid_length)
        &&& self@.samples.len() == self@.n_samples * self@.grid_length * self@.n_items
    }

    /// A sweep before its first grid point. The grid has one point when
    /// the window is a single count, and at least two otherwise.
    pub fn new(window: ClusterWindow, n_samples: usize, n_items: usize, grid_length: usize) -> (r:
        Result<Calibration, CalibrationError>)
        requires
            window.wf(),
        ensures
            r is Ok <==> n_samples * grid_length_for(
                grid_length as nat,
                window.lower() == window.upper(),
            ) * n_items <= usize::MAX,
            r matches Err(e) ==> e == CalibrationError::TooLarge,
            r matches Ok(c) ==> {
                &&& c.wf()
                &&& c@.lower == window.lower()
                &&& c@.upper == window.upper()
                &&& c@.n_samples == n_samples
                &&& c@.n_items == n_items
                &&& c@.grid_length == grid_length_for(
                    grid_length as nat,
                    window.lower() == window.upper(),
                )
                &&& c@.phase is Sampling
                &&& c@.candidates.counts().len() == 0
                &&& c@.samples == Seq::new(c@.samples.len(), |i: int| 0i32)
            },
    {
        let points = resolve_grid_length(grid_length, window.is_single());
        let rows = match n_samples.checked_mul(points) {
            Some(rows) => rows,
            None => {
                proof {
                    lemma_product_grows(n_samples as nat * points as nat, n_items as nat);
                }
                if n_items == 0 {
                    usize::MAX
                } else {
                    return Err(CalibrationError::TooLarge);
                }
            },
        };
        let size = match rows.checked_mul(n_items) {
            Some(size) => size,
            None => {
                return Err(CalibrationError::TooLarge);
            },
        };
        proof {
            if n_items == 0 {
                assert(n_samples * points * n_items == 0) by (nonlinear_arith)
                    requires
                        n_items == 0,
                ;
            }
        }
        let mut samples: Vec<i32> = Vec::new();
        let mut i: usize = 0;
        while i < size
            invariant
                i <= size,
                samples@ == Seq::new(i as nat, |k: int| 0i32),
            decreases size - i,
        {
            samples.push(0);
            i += 1;
        }
        Ok(
            Calibration {
                window,
                n_samples,
                n_items,
                grid_length: points,
                phase: Phase::Sampling,
                samples,
                candidates: Draws::new(n_items),
            },
        )
    }

    /// What the sweep waits for.
    pub fn phase(&self) -> (phase: Phase)
        ensures
            phase == self@.phase,
    {
        self.phase
    }

    /// The number of grid points.
    pub fn grid_length(&self) -> (n: usize)
        ensures
            n == self@.grid_length,
    {
        self.grid_length
    }

    /// The number of grid points that have their accepted estimate; while
    /// the sweep is not done, the index of the grid point at hand.
    pub fn grid_index(&self) -> (g: usize)
        ensures
            g == self@.candidates.counts().len(),
    {
        self.candidates.n_draws()
    }

    /// Whether every grid point has its accepted estimate.
    pub fn is_done(&self) -> (b: bool)
        ensures
            b == (self@.phase is Done),
    {
        match self.phase {
            Phase::Done => true,
            _ => false,
        }
    }

    /// Takes the batch of draws of the grid point at hand, and stores its
    /// first `n_samples` draws in the rows of that grid point. The sweep
    /// then waits for estimates. A batch that comes out of turn, is over
    /// other items or is too short changes nothing.
    pub fn record_batch(&mut self, batch: &Draws) -> (r: Result<(), CalibrationError>)
        requires
            old(self).wf(),
            batch.wf(),
        ensures
            final(self).wf(),
            r == if !(old(self)@.phase is Sampling) {
                Err::<(), CalibrationError>(CalibrationError::OutOfTurn)
            } else if batch.items() != old(self)@.n_items {
                Err(CalibrationError::ItemCountMismatch)
            } else if batch.counts().len() < old(self)@.n_samples {
                Err(CalibrationError::TooFewDraws)
            } else {
                Ok(())
            },
            r is Err ==> final(self)@ == old(self)@,
            r is Ok ==> final(self)@ == (CalibrationView {
                phase: Phase::Evaluating,
                samples: final(self)@.samples,
                ..old(self)@
            }),
            r is Ok ==> holds_batch(
                final(self)@.samples,
                old(self)@.samples,
                *batch,
                old(self)@.n_samples,
                old(self)@.grid_length,
                old(self)@.n_items,
                old(self)@.candidates.counts().len(),
            ),
    {
        match self.phase {
            Phase::Sampling => {},
            _ => {
                return Err(CalibrationError::OutOfTurn);
            },
        }
        if batch.n_items() != self.n_items {
            return Err(CalibrationError::ItemCountMismatch);
        }
        if batch.n_draws() < self.n_samples {
            return Err(CalibrationError::TooFewDraws);
        }
        let g = self.candidates.n_draws();
        store_batch(&mut self.samples, batch, self.n_samples, self.grid_length, self.n_items, g);
        self.phase = Phase::Evaluating;
        Ok(())
    }

    /// Takes an estimate for the grid point at hand, with the word on
    /// whether the bracket of weights has closed, and says what it leads
    /// to. An accepted estimate is kept as the candidate of its grid
    /// point, and the sweep moves on to the next grid point or is done.
    /// Any other verdict, and any error, changes nothing.
    pub fn evaluate(&mut self, converged: bool, estimate: &[usize]) -> (r: Result<
        Verdict,
        CalibrationError,
    >)
        requires
            old(self).wf(),
        ensures
            final(self).wf(),
            r == if !(old(self)@.phase is Evaluating) {
                Err::<Verdict, CalibrationError>(CalibrationError::OutOfTurn)
            } else if estimate@.len() != old(self)@.n_items {
                Err(CalibrationError::ItemCountMismatch)
            } else if exists|i: int| 0 <= i < estimate@.len() && estimate@[i] >= LabelType::MAX {
                Err(CalibrationError::LabelTooLarge)
            } else {
                Ok(
                    verdict_for(
                        old(self)@.lower,
                        old(self)@.upper,
                        converged,
                        labels_used(indices_as_ints(estimate@), estimate@.len()) as nat,
                    ),
                )
            },
            !(r matches Ok(Verdict::Accepted)) ==> final(self)@ == old(self)@,
            r matches Ok(Verdict::Accepted) ==> {
                let g = old(self)@.candidates.counts().len();
                let kept = final(self)@.candidates;
                &&& final(self)@ == (CalibrationView {
                    phase: if g + 1 == old(self)@.grid_length {
                        Phase::Done
                    } else {
                        Phase::Sampling
                    },
                    candidates: kept,
                    ..old(self)@
                })
                &&& kept.counts() == old(self)@.candidates.counts().push(
                    labels_used(indices_as_ints(estimate@), estimate@.len()) as LabelType,
                )
                &&& as_ints(kept.draw(g as int)) == indices_as_ints(estimate@)
                &&& forall|d: int|
                    0 <= d < g ==> #[trigger] kept.draw(d) == old(self)@.candidates.draw(d)
            },
    {
        match self.phase {
            Phase::Evaluating => {},
            _ => {
                return Err(CalibrationError::OutOfTurn);
            },
        }
        if estimate.len() != self.n_items {
            return Err(CalibrationError::ItemCountMismatch);
        }
        let k = match cluster_count(estimate) {
            Some(k) => k,
            None => {
                return Err(CalibrationError::LabelTooLarge);
            },
        };
        proof {
            crate::canon::lemma_labels_used_monotone(
                indices_as_ints(estimate@),
                0,
                estimate@.len(),
            );
        }
        let verdict = self.window.evaluate(converged, k as usize);
        match verdict {
            Verdict::Accepted => {
                let kept = self.candidates.push(estimate);
                assert(kept is Ok);
                if self.candidates.n_draws() == self.grid_length {
                    self.phase = Phase::Done;
                } else {
                    self.phase = Phase::Sampling;
                }
            },
            _ => {},
        }
        Ok(verdict)
    }

    /// The accepted estimates, one per grid point in the order of the
    /// sweep, and the matrix of stored draws. They are handed over once
    /// the sweep is done.
    pub fn finish(self) -> (r: Result<(Draws, Vec<i32>), CalibrationError>)
        requires
            self.wf(),
        ensures
            r is Ok <==> self@.phase is Done,
            r matches Err(e) ==> e == CalibrationError::OutOfTurn,
            r matches Ok(out) ==> {
                &&& out.0 == self@.candidates
                &&& out.0.wf()
                &&& out.0.counts().len() == self@.grid_length
                &&& out.1@ == self@.samples
            },
    {
        match self.phase {
            Phase::Done => Ok((self.candidates, self.samples)),
            _ => Err(CalibrationError::OutOfTurn),
        }
    }
}

/// Writes the first `n_samples` draws of `batch` into the rows of grid
/// point `g`.
fn store_batch(
    samples: &mut Vec<i32>,
    batch: &Draws,
    n_samples: usize,
    grid_length: usize,
    n_items: usize,
    g: usize,
)
    requires
        batch.wf(),
        batch.items() == n_items,
        batch.counts().len() >= n_samples,
        g < grid_length,
        old(samples)@.len() == n_samples * grid_length * n_items,
    ensures
        holds_batch(
            final(samples)@,
            old(samples)@,
            *batch,
            n_samples as nat,
            grid_length as nat,
            n_items as nat,
            g as nat,
        ),
{
    if n_samples == 0 || n_items == 0 {
        return ;
    }
    let ghost rows = n_samples as nat * grid_length as nat;
    let ghost before = samples@;
    let len = samples.len();
    proof {
        lemma_product_grows(rows, n_items as nat);
        lemma_block_in_range(n_samples as nat, grid_length as nat, g as nat, 0);
    }
    let n_rows = n_samples * grid_length;
    let base = g * n_samples;
    let mut col: usize = 0;
    while col < n_items
        invariant
            batch.wf(),
            batch.items() == n_items,
            batch.counts().len() >= n_samples,
            n_samples >= 1,
            g < grid_length,
            n_rows == rows,
            rows == n_samples * grid_length,
            base == g * n_samples,
            col <= n_items,
            len == n_rows * n_items,
            samples@.len() == len,
            forall|row: int, c: int|
                0 <= row < rows && 0 <= c < n_items ==> #[trigger] samples@[cell(rows, row, c)]
                    == if base <= row < base + n_samples && c < col {
                    batch.draw(row - base)[c] + 1
                } else {
                    before[cell(rows, row, c)] as int
                },
        decreases n_items - col,
    {
        let mut draw: usize = 0;
        while draw < n_samples
            invariant
                batch.wf(),
                batch.items() == n_items,
                batch.counts().len() >= n_samples,
                g < grid_length,
                n_rows == rows,
                rows == n_samples * grid_length,
                base == g * n_samples,
                col < n_items,
                draw <= n_samples,
                len == n_rows * n_items,
                samples@.len() == len,
                forall|row: int, c: int|
                    0 <= row < rows && 0 <= c < n_items ==> #[trigger] samples@[cell(rows, row, c)]
                        == if base <= row < base + n_samples && (c < col || (c == col && row
                        - base < draw)) {
                        batch.draw(row - base)[c] + 1
                    } else {
                        before[cell(rows, row, c)] as int
                    },
            decreases n_samples - draw,
        {
            proof {
                lemma_block_in_range(n_samples as nat, grid_length as nat, g as nat, draw as nat);
                lemma_cell_in_range(rows, n_items as nat, base + draw, col as int);
            }
            let label: LabelType = batch.label(draw, col);
            let ghost earlier = samples@;
            samples[col * n_rows + (base + draw)] = label as i32 + 1;
            proof {
                assert forall|row: int, c: int| 0 <= row < rows && 0 <= c < n_items implies (
                #[trigger] samples@[cell(rows, row, c)]) == if base <= row < base + n_samples && (c
                    < col || (c == col && row - base < draw + 1)) {
                    batch.draw(row - base)[c] + 1
                } else {
                    before[cell(rows, row, c)] as int
                } by {
                    lemma_cell_in_range(rows, n_items as nat, row, c);
                    if cell(rows, row, c) == cell(rows, base + draw, col as int) {
                        lemma_cell_injective(rows, row, c, base + draw, col as int);
                    } else {
                        assert(samples@[cell(rows, row, c)] == earlier[cell(rows, row, c)]);
                    }
                }
            }
            draw += 1;
        }
        col += 1;
    }
}

/// A product of naturals is no smaller than its first factor unless the
/// second is zero.
proof fn lemma_product_grows(a: nat, b: nat)
    ensures
        b >= 1 ==> a * b >= a,
{
    assert(b >= 1 ==> a * b >= a) by (nonlinear_arith);
}

} // verus!
