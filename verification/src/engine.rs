//! The layout of a batch of draws that several worker lanes fill in
//! parallel.
//!
//! Every lane makes the same number of draws, the smallest that lets the
//! lanes cover the request together. When the request does not divide
//! evenly the batch therefore holds a few draws more than were asked for,
//! fewer than one per lane, and the plan reports the true count. Each lane
//! writes to a region of its own, so the lanes never touch the same entry.

use crate::canon::{as_ints, is_canonical_form_of};
use crate::clust::{Clustering, LabelType};
use crate::rng::{detected_cores, next_seed};
use vstd::prelude::*;

verus! {

/// Why a batch was not planned or a draw not recorded.
#[derive(Clone, Copy, Debug, PartialEq, Eq)]
pub enum BatchError {
    /// No draw was asked for.
    NoDraws,
    /// No lane was given to make the draws.
    NoLanes,
    /// The buffers of the batch would not fit in memory.
    TooLarge,
    /// A draw has more clusters than a label can number.
    TooManyClusters,
}

/// A plan as plain numbers.
pub struct BatchPlanView {
    /// The number of lanes.
    pub n_lanes: nat,
    /// The number of draws that each lane makes.
    pub draws_per_lane: nat,
    /// The number of items in each draw.
    pub n_items: nat,
}

/// The number of draws each of `n_lanes` lanes makes so that together they
/// make at least `n_draws`: the quotient, rounded up.
pub open spec fn draws_per_lane(n_draws: nat, n_lanes: nat) -> nat {
    (1 + (n_draws - 1) / (n_lanes as int)) as nat
}

/// The plan for `n_draws` draws of `n_items` items on `n_lanes` lanes, or
/// the reason why there is none.
pub open spec fn planned(n_draws: nat, n_items: nat, n_lanes: nat) -> Result<
    BatchPlanView,
    BatchError,
> {
    let per_lane = draws_per_lane(n_draws, n_lanes);
    if n_draws == 0 {
        Err(BatchError::NoDraws)
    } else if n_lanes == 0 {
        Err(BatchError::NoLanes)
    } else if n_lanes * per_lane > usize::MAX || n_lanes * per_lane * n_items > usize::MAX {
        Err(BatchError::TooLarge)
    } else {
        Ok(BatchPlanView { n_lanes, draws_per_lane: per_lane, n_items })
    }
}

/// What came of planning, with the plan as plain numbers.
pub open spec fn outcome(r: Result<BatchPlan, BatchError>) -> Result<BatchPlanView, BatchError> {
    match r {
        Ok(plan) => Ok(plan@),
        Err(e) => Err(e),
    }
}

/// The lanes together make at least the draws asked for, and fewer than
/// one extra draw per lane; they make exactly the draws asked for when, and
/// only when, the lanes divide the request evenly.
pub proof fn lemma_total_draws(n_draws: nat, n_lanes: nat)
    requires
        n_draws >= 1,
        n_lanes >= 1,
    ensures
        draws_per_lane(n_draws, n_lanes) >= 1,
        n_draws <= n_lanes * draws_per_lane(n_draws, n_lanes) < n_draws + n_lanes,
        n_lanes * draws_per_lane(n_draws, n_lanes) == n_draws <==> n_draws % n_lanes == 0,
{
    let m = (n_draws - 1) as int;
    let l = n_lanes as int;
    let q = m / l;
    let r = m % l;
    assert(m == l * q + r && 0 <= r < l) by (nonlinear_arith)
        requires
            l > 0,
            q == m / l,
            r == m % l,
    ;
    assert(0 <= q) by (nonlinear_arith)
        requires
            l > 0,
            m >= 0,
            q == m / l,
    ;
    assert(l * (1 + q) == l + l * q) by (nonlinear_arith);
    assert(draws_per_lane(n_draws, n_lanes) == 1 + q);
    let n = n_draws as int;
    assert(n == l * q + r + 1);
    if r == l - 1 {
        assert(n == l * (1 + q));
        assert(n % l == 0) by (nonlinear_arith)
            requires
                l > 0,
                n == l * (1 + q),
        ;
    } else {
        assert(n % l == r + 1) by (nonlinear_arith)
            requires
                l > 0,
                n == l * q + (r + 1),
                0 <= r + 1 < l,
        ;
    }
}

/// Any two lane counts that both divide the request evenly give batches
/// of the same size: the request itself.
pub proof fn lemma_draw_count_independent_of_lanes(n_draws: nat, lanes_a: nat, lanes_b: nat)
    requires
        n_draws >= 1,
        lanes_a >= 1,
        lanes_b >= 1,
        n_draws % lanes_a == 0,
        n_draws % lanes_b == 0,
    ensures
        lanes_a * draws_per_lane(n_draws, lanes_a) == n_draws,
        lanes_b * draws_per_lane(n_draws, lanes_b) == n_draws,
{
    lemma_total_draws(n_draws, lanes_a);
    lemma_total_draws(n_draws, lanes_b);
}

/// Where the labels of the draw in slot `slot` of a lane begin in that
/// lane's region.
pub open spec fn slot_start(n_items: nat, slot: nat) -> int {
    (slot * n_items) as int
}

/// The slots of a lane lie side by side inside its region: each ends where
/// the next begins, and the last ends with the region.
pub proof fn lemma_slots_tile(n_items: nat, per_lane: nat, slot: nat)
    requires
        slot < per_lane,
    ensures
        0 <= slot_start(n_items, slot),
        slot_start(n_items, slot) + n_items == slot_start(n_items, slot + 1),
        slot_start(n_items, slot + 1) <= per_lane * n_items,
{
    assert(0 <= slot * n_items) by (nonlinear_arith);
    assert(slot * n_items + n_items == (slot + 1) * n_items) by (nonlinear_arith);
    assert((slot + 1) * n_items <= per_lane * n_items) by (nonlinear_arith)
        requires
            slot + 1 <= per_lane,
    ;
}

/// How a batch of draws is split over lanes.
pub struct BatchPlan {
    n_lanes: usize,
    draws_per_lane: usize,
    n_items: usize,
}

impl View for BatchPlan {
    type V = BatchPlanView;

    closed spec fn view(&self) -> BatchPlanView {
        BatchPlanView {
            n_lanes: self.n_lanes as nat,
            draws_per_lane: self.draws_per_lane as nat,
            n_items: self.n_items as nat,
        }
    }
}

impl BatchPlan {
    /// There is a lane, each lane makes a draw, and the buffers fit.
    pub open spec fn wf(&self) -> bool {
        &&& self@.n_lanes >= 1
        &&& self@.draws_per_lane >= 1
        &&& self@.n_lanes * self@.draws_per_lane <= usize::MAX
        &&& self@.n_lanes * self@.draws_per_lane * self@.n_items <= usize::MAX
    }

    /// The plan for `n_draws` draws of `n_items` items on `n_lanes` lanes.
    pub fn with_lanes(n_draws: usize, n_items: usize, n_lanes: usize) -> (r: Result<
        BatchPlan,
        BatchError,
    >)
        ensures
            r matches Ok(plan) ==> plan.wf(),
            outcome(r) == planned(n_draws as nat, n_items as nat, n_lanes as nat),
    {
        if n_draws == 0 {
            return Err(BatchError::NoDraws);
        }
        if n_lanes == 0 {
            return Err(BatchError::NoLanes);
        }
        let per_lane = 1 + (n_draws - 1) / n_lanes;
        proof {
            lemma_total_draws(n_draws as nat, n_lanes as nat);
        }
        match n_lanes.checked_mul(per_lane) {
            None => Err(BatchError::TooLarge),
            Some(total) => match total.checked_mul(n_items) {
                None => Err(BatchError::TooLarge),
                Some(_) => Ok(BatchPlan { n_lanes, draws_per_lane: per_lane, n_items }),
            },
        }
    }

    /// The plan for `n_draws` draws of `n_items` items on `n_lanes` lanes,
    /// where zero lanes stands for one lane per core of the host.
    pub fn new(n_draws: usize, n_items: usize, n_lanes: usize) -> (r: Result<
        BatchPlan,
        BatchError,
    >)
        ensures
            r matches Ok(plan) ==> plan.wf(),
            n_lanes > 0 ==> outcome(r) == planned(
                n_draws as nat,
                n_items as nat,
                n_lanes as nat,
            ),
            n_lanes == 0 ==> exists|cores: nat|
                cores >= 1 && outcome(r) == #[trigger] planned(
                    n_draws as nat,
                    n_items as nat,
                    cores,
                ),
    {
        let lanes = if n_lanes == 0 {
            let cores = detected_cores();
            if cores == 0 {
                1
            } else {
                cores
            }
        } else {
            n_lanes
        };
        BatchPlan::with_lanes(n_draws, n_items, lanes)
    }

    /// The number of lanes.
    pub fn n_lanes(&self) -> (n: usize)
        ensures
            n == self@.n_lanes,
    {
        self.n_lanes
    }

    /// The number of draws that each lane makes.
    pub fn draws_per_lane(&self) -> (n: usize)
        ensures
            n == self@.draws_per_lane,
    {
        self.draws_per_lane
    }

    /// The number of items in each draw.
    pub fn n_items(&self) -> (n: usize)
        ensures
            n == self@.n_items,
    {
        self.n_items
    }

    /// The number of draws in the batch, all lanes together.
    pub fn total_draws(&self) -> (n: usize)
        requires
            self.wf(),
        ensures
            n == self@.n_lanes * self@.draws_per_lane,
    {
        self.n_lanes * self.draws_per_lane
    }

    /// The number of labels that one lane writes.
    pub fn chunk_size(&self) -> (n: usize)
        requires
            self.wf(),
        ensures
            n == self@.draws_per_lane * self@.n_items,
    {
        proof {
            lemma_chunk_fits(self@.n_lanes, self@.draws_per_lane, self@.n_items);
        }
        self.draws_per_lane * self.n_items
    }

    /// The two buffers of the batch, zeroed: one label per item and draw,
    /// and one cluster count per draw.
    pub fn buffers(&self) -> (b: (Vec<LabelType>, Vec<LabelType>))
        requires
            self.wf(),
        ensures
            b.0@ == Seq::new(
                (self@.n_lanes * self@.draws_per_lane * self@.n_items) as nat,
                |i: int| 0 as LabelType,
            ),
            b.1@ == Seq::new((self@.n_lanes * self@.draws_per_lane) as nat, |i: int| 0 as LabelType),
    {
        let total = self.n_lanes * self.draws_per_lane;
        (zeroed(total * self.n_items), zeroed(total))
    }

    /// One seed per lane, each taken from `rng` in the order of the lanes.
    /// Drawing them before any lane starts ties the batch to the state of
    /// `rng` and to the number of lanes, not to how the lanes are
    /// scheduled.
    pub fn lane_seeds(&self, rng: &mut rand_pcg::Mcg128Xsl64) -> (seeds: Vec<u128>)
        ensures
            seeds@.len() == self@.n_lanes,
    {
        let mut seeds: Vec<u128> = Vec::new();
        let mut lane: usize = 0;
        while lane < self.n_lanes
            invariant
                lane <= self.n_lanes,
                seeds@.len() == lane,
            decreases self.n_lanes - lane,
        {
            seeds.push(next_seed(rng));
            lane += 1;
        }
        seeds
    }

    /// Writes a finished draw into slot `slot` of a lane's two regions:
    /// its labels in canonical form, and its number of clusters. Nothing
    /// outside the slot changes. A draw with more clusters than a label
    /// can number is refused, and then nothing changes at all.
    pub fn record_draw(
        &self,
        clustering: &Clustering,
        slot: usize,
        labels: &mut [LabelType],
        counts: &mut [LabelType],
    ) -> (r: Result<LabelType, BatchError>)
        requires
            self.wf(),
            clustering.wf(),
            clustering.complete(),
            clustering@.len() == self@.n_items,
            slot < self@.draws_per_lane,
            old(labels)@.len() == self@.draws_per_lane * self@.n_items,
            old(counts)@.len() == self@.draws_per_lane,
        ensures
            final(labels)@.len() == old(labels)@.len(),
            final(counts)@.len() == old(counts)@.len(),
            match r {
                Ok(k) => {
                    let start = slot_start(self@.n_items, slot as nat);
                    &&& clustering.members().len() <= LabelType::MAX
                    &&& k == clustering.members().len()
                    &&& final(counts)@ == old(counts)@.update(slot as int, k)
                    &&& is_canonical_form_of(
                        as_ints(final(labels)@.subrange(start, start + self@.n_items)),
                        clustering.assignment(),
                    )
                    &&& forall|i: int|
                        0 <= i < old(labels)@.len() && !(start <= i < start + self@.n_items)
                            ==> final(labels)@[i] == old(labels)@[i]
                },
                Err(e) => {
                    &&& clustering.members().len() > LabelType::MAX
                    &&& e == BatchError::TooManyClusters
                    &&& final(labels)@ == old(labels)@
                    &&& final(counts)@ == old(counts)@
                },
            },
    {
        if clustering.n_clusters() > LabelType::MAX as usize {
            return Err(BatchError::TooManyClusters);
        }
        let n = self.n_items;
        proof {
            lemma_slots_tile(self@.n_items, self@.draws_per_lane, slot as nat);
            lemma_chunk_fits(self@.n_lanes, self@.draws_per_lane, self@.n_items);
            assert(slot * n + n <= usize::MAX);
        }
        let start = slot * n;
        let mut canonical = zeroed(n);
        let k = clustering.relabel_into_slice(canonical.as_mut_slice());
        let mut i: usize = 0;
        while i < n
            invariant
                i <= n,
                n == self@.n_items,
                canonical@.len() == n,
                start == slot_start(self@.n_items, slot as nat),
                start + n <= labels@.len(),
                start + n <= usize::MAX,
                labels@.len() == old(labels)@.len(),
                forall|j: int| 0 <= j < i ==> labels@[start + j] == canonical@[j],
                forall|j: int|
                    0 <= j < labels@.len() && !(start <= j < start + i) ==> labels@[j] == old(
                        labels,
                    )@[j],
            decreases n - i,
        {
            labels[start + i] = canonical[i];
            i += 1;
        }
        counts[slot] = k;
        proof {
            assert(labels@.subrange(start as int, start + n) =~= canonical@);
        }
        Ok(k)
    }
}

/// The labels of one lane fit wherever the labels of all lanes fit.
proof fn lemma_chunk_fits(n_lanes: nat, per_lane: nat, n_items: nat)
    requires
        n_lanes >= 1,
    ensures
        per_lane * n_items <= n_lanes * per_lane * n_items,
{
    assert(per_lane * n_items <= n_lanes * per_lane * n_items) by (nonlinear_arith)
        requires
            n_lanes >= 1,
    ;
}

/// A buffer of `count` zero labels.
fn zeroed(count: usize) -> (buffer: Vec<LabelType>)
    ensures
        buffer@ == Seq::new(count as nat, |i: int| 0 as LabelType),
{
    let mut buffer: Vec<LabelType> = Vec::new();
    let mut i: usize = 0;
    while i < count
        invariant
            i <= count,
            buffer@ == Seq::new(i as nat, |k: int| 0 as LabelType),
        decreases count - i,
    {
        buffer.push(0);
        i += 1;
    }
    buffer
}

} // verus!
