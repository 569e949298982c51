//! A collection of draws over the same items: what a batch of the sampler
//! yields and what a search for a representative partition takes.

use crate::canon::{as_ints, labels_used};
use crate::clust::LabelType;
use vstd::prelude::*;

verus! {

/// Item by item, the labels of a vector of indices as mathematical
/// integers.
pub open spec fn indices_as_ints(labels: Seq<usize>) -> Seq<int> {
    Seq::new(labels.len(), |i: int| labels[i] as int)
}

/// The labels of draw `d` in a buffer that holds draw after draw, each of
/// `n_items` labels.
pub open spec fn draw_of(labels: Seq<LabelType>, n_items: nat, d: int) -> Seq<LabelType> {
    labels.subrange(d * n_items, d * n_items + n_items)
}

/// The number of clusters of a draw: one more than its largest label, and
/// zero for a draw of no items.
pub open spec fn count_of(draw: Seq<LabelType>) -> int {
    labels_used(as_ints(draw), draw.len())
}

/// Every count is the number of clusters of its draw.
pub open spec fn counts_match(labels: Seq<LabelType>, counts: Seq<LabelType>, n_items: nat) -> bool {
    forall|d: int|
        0 <= d < counts.len() ==> (#[trigger] counts[d]) == count_of(draw_of(labels, n_items, d))
}

/// Draw `d` lies inside a buffer of `n_draws` draws.
pub proof fn lemma_draw_in_buffer(n_items: nat, n_draws: nat, d: int)
    requires
        0 <= d < n_draws,
    ensures
        0 <= d * n_items,
        d * n_items + n_items <= n_draws * n_items,
{
    assert(0 <= d * n_items) by (nonlinear_arith)
        requires
            0 <= d,
    ;
    assert(d * n_items + n_items <= n_draws * n_items) by (nonlinear_arith)
        requires
            d + 1 <= n_draws,
    ;
}

/// The number of clusters among the `n` labels that begin at `start`.
fn used_in(labels: &[LabelType], start: usize, n: usize) -> (k: usize)
    requires
        start + n <= labels@.len(),
    ensures
        k == count_of(labels@.subrange(start as int, start + n)),
        k <= LabelType::MAX + 1,
{
    let ghost draw = as_ints(labels@.subrange(start as int, start + n));
    let len = labels.len();
    let mut used: usize = 0;
    let mut j: usize = 0;
    while j < n
        invariant
            j <= n,
            len == labels@.len(),
            start + n <= labels@.len(),
            draw == as_ints(labels@.subrange(start as int, start + n)),
            used == labels_used(draw, j as nat),
            used <= LabelType::MAX + 1,
        decreases n - j,
    {
        let next = labels[start + j] as usize + 1;
        assert(draw[j as int] == labels@[start + j]);
        if next > used {
            used = next;
        }
        j += 1;
    }
    used
}

/// Why a draw was not added to a collection.
#[derive(Clone, Copy, Debug, PartialEq, Eq)]
pub enum DrawsError {
    /// The draw has another number of items than the collection's draws.
    LengthMismatch,
    /// The draw holds a label that is too large to be stored.
    LabelTooLarge,
}

/// A number of draws over the same `n_items` items, each with the number
/// of its clusters.
pub struct Draws {
    n_items: usize,
    labels: Vec<LabelType>,
    n_clusters: Vec<LabelType>,
}

impl Draws {
    /// The number of items of each draw.
    pub closed spec fn items(&self) -> nat {
        self.n_items as nat
    }

    /// The labels, draw after draw.
    pub closed spec fn labels(&self) -> Seq<LabelType> {
        self.labels@
    }

    /// The number of clusters of each draw.
    pub closed spec fn counts(&self) -> Seq<LabelType> {
        self.n_clusters@
    }

    /// The labels of draw `d`.
    pub open spec fn draw(&self, d: int) -> Seq<LabelType> {
        draw_of(self.labels(), self.items(), d)
    }

    /// Every draw has `n_items` labels, and its count is one more than its
    /// largest label.
    pub open spec fn wf(&self) -> bool {
        &&& self.labels().len() == self.counts().len() * self.items()
        &&& counts_match(self.labels(), self.counts(), self.items())
    }

    /// A collection without draws.
    pub fn new(n_items: usize) -> (draws: Draws)
        ensures
            draws.wf(),
            draws.items() == n_items,
            draws.labels() == Seq::<LabelType>::empty(),
            draws.counts() == Seq::<LabelType>::empty(),
    {
        let draws = Draws { n_items, labels: Vec::new(), n_clusters: Vec::new() };
        assert(draws.counts().len() * draws.items() == 0) by (nonlinear_arith)
            requires
                draws.counts().len() == 0,
        ;
        draws
    }

    /// The collection that the two buffers spell out, if they fit
    /// together: one count per draw, `n_items` labels per draw, and each
    /// count one more than the largest label of its draw.
    pub fn from_buffers(n_items: usize, labels: Vec<LabelType>, n_clusters: Vec<LabelType>) -> (r:
        Option<Draws>)
        ensures
            r is Some <==> labels@.len() == n_clusters@.len() * n_items && counts_match(
                labels@,
                n_clusters@,
                n_items as nat,
            ),
            r matches Some(draws) ==> draws.wf() && draws.items() == n_items && draws.labels()
                == labels@ && draws.counts() == n_clusters@,
    {
        let n_draws = n_clusters.len();
        let len = labels.len();
        match n_draws.checked_mul(n_items) {
            None => {
                return None;
            },
            Some(size) => {
                if size != len {
                    return None;
                }
            },
        }
        let mut d: usize = 0;
        while d < n_draws
            invariant
                d <= n_draws,
                n_draws == n_clusters@.len(),
                labels@.len() == n_draws * n_items,
                n_draws * n_items <= usize::MAX,
                forall|e: int|
                    0 <= e < d ==> (#[trigger] n_clusters@[e]) == count_of(
                        draw_of(labels@, n_items as nat, e),
                    ),
            decreases n_draws - d,
        {
            proof {
                lemma_draw_in_buffer(n_items as nat, n_draws as nat, d as int);
            }
            let k = used_in(labels.as_slice(), d * n_items, n_items);
            if k != n_clusters[d] as usize {
                return None;
            }
            d += 1;
        }
        Some(Draws { n_items, labels, n_clusters })
    }

    /// The number of draws.
    pub fn n_draws(&self) -> (n: usize)
        ensures
            n == self.counts().len(),
    {
        self.n_clusters.len()
    }

    /// The number of items of each draw.
    pub fn n_items(&self) -> (n: usize)
        ensures
            n == self.items(),
    {
        self.n_items
    }

    /// The labels of draw `d`.
    pub fn labels_of(&self, d: usize) -> (labels: &[LabelType])
        requires
            self.wf(),
            d < self.counts().len(),
        ensures
            labels@ == self.draw(d as int),
    {
        proof {
            lemma_draw_in_buffer(self.items(), self.counts().len(), d as int);
        }
        let len = self.labels.len();
        vstd::slice::slice_subrange(
            self.labels.as_slice(),
            d * self.n_items,
            d * self.n_items + self.n_items,
        )
    }

    /// The label of item `item` in draw `d`.
    pub fn label(&self, d: usize, item: usize) -> (label: LabelType)
        requires
            self.wf(),
            d < self.counts().len(),
            item < self.items(),
        ensures
            label == self.draw(d as int)[item as int],
    {
        proof {
            lemma_draw_in_buffer(self.items(), self.counts().len(), d as int);
        }
        let len = self.labels.len();
        self.labels[d * self.n_items + item]
    }

    /// The number of clusters of draw `d`.
    pub fn n_clusters(&self, d: usize) -> (k: LabelType)
        requires
            self.wf(),
            d < self.counts().len(),
        ensures
            k == self.counts()[d as int],
            k == count_of(self.draw(d as int)),
    {
        self.n_clusters[d]
    }

    /// Adds a draw at the end. The draw must have the collection's number
    /// of items, and no label so large that the count of its clusters
    /// would not fit in a label; otherwise the collection stays as it is.
    /// Returns the number of clusters of the draw.
    pub fn push(&mut self, draw: &[usize]) -> (r: Result<LabelType, DrawsError>)
        requires
            old(self).wf(),
        ensures
            final(self).wf(),
            final(self).items() == old(self).items(),
            r == if draw@.len() != old(self).items() {
                Err::<LabelType, DrawsError>(DrawsError::LengthMismatch)
            } else if exists|i: int| 0 <= i < draw@.len() && draw@[i] >= LabelType::MAX {
                Err(DrawsError::LabelTooLarge)
            } else {
                Ok(labels_used(indices_as_ints(draw@), draw@.len()) as LabelType)
            },
            r is Ok ==> final(self).counts() == old(self).counts().push(r.unwrap()),
            r is Ok ==> final(self).labels().len() == old(self).labels().len() + draw@.len(),
            r is Ok ==> as_ints(final(self).draw(old(self).counts().len() as int))
                == indices_as_ints(draw@),
            r is Ok ==> forall|d: int|
                0 <= d < old(self).counts().len() ==> #[trigger] final(self).draw(d) == old(self).draw(d),
            r is Err ==> final(self).labels() == old(self).labels() && final(self).counts() == old(self).counts(),
    {
        let n = draw.len();
        if n != self.n_items {
            return Err(DrawsError::LengthMismatch);
        }
        let ghost source = indices_as_ints(draw@);
        let used = match cluster_count(draw) {
            None => {
                return Err(DrawsError::LabelTooLarge);
            },
            Some(k) => k,
        };
        let ghost old_labels = self.labels@;
        let ghost n_before = self.n_clusters@.len();
        proof {
            assert(old_labels.len() == n_before * n);
            assert((n_before + 1) * n == n_before * n + n) by (nonlinear_arith);
        }
        let mut j: usize = 0;
        while j < n
            invariant
                j <= n,
                n == draw@.len(),
                n == self.n_items,
                self.n_clusters@ == old(self).n_clusters@,
                self.n_items == old(self).n_items,
                forall|a: int| 0 <= a < n ==> draw@[a] < LabelType::MAX,
                self.labels@.len() == old_labels.len() + j,
                forall|a: int| 0 <= a < old_labels.len() ==> self.labels@[a] == old_labels[a],
                forall|a: int| 0 <= a < j ==> self.labels@[old_labels.len() + a] == draw@[a],
            decreases n - j,
        {
            self.labels.push(draw[j] as LabelType);
            j += 1;
        }
        let k = used;
        self.n_clusters.push(k);
        proof {
            let added = self.draw(n_before as int);
            assert(n_before * n + n == (n_before + 1) * n) by (nonlinear_arith);
            assert(as_ints(added) =~= source);
            assert forall|d: int| 0 <= d < n_before implies #[trigger] self.draw(d) == old(self).draw(d) by {
                lemma_draw_in_buffer(n as nat, n_before, d);
                assert(self.draw(d) =~= old(self).draw(d));
            }
            assert forall|d: int| 0 <= d < self.counts().len() implies (#[trigger] self.counts()[d])
                == count_of(draw_of(self.labels(), self.items(), d)) by {
                if d < n_before {
                    assert(self.draw(d) == old(self).draw(d));
                    assert(old(self).counts()[d] == count_of(old(self).draw(d)));
                }
            }
        }
        Ok(k)
    }

    /// The two buffers: the labels, draw after draw, and the number of
    /// clusters of each draw.
    pub fn into_buffers(self) -> (b: (Vec<LabelType>, Vec<LabelType>))
        ensures
            b.0@ == self.labels(),
            b.1@ == self.counts(),
    {
        (self.labels, self.n_clusters)
    }
}

/// The number of clusters of a draw: one more than its largest label, and
/// zero for a draw of no items. There is no count when a label is so large
/// that the count would not fit in a label.
pub fn cluster_count(draw: &[usize]) -> (r: Option<LabelType>)
    ensures
        r is None <==> exists|i: int| 0 <= i < draw@.len() && draw@[i] >= LabelType::MAX,
        r matches Some(k) ==> k == labels_used(indices_as_ints(draw@), draw@.len()),
{
    let n = draw.len();
    let ghost source = indices_as_ints(draw@);
    let mut used: LabelType = 0;
    let mut i: usize = 0;
    while i < n
        invariant
            i <= n,
            n == draw@.len(),
            source == indices_as_ints(draw@),
            forall|j: int| 0 <= j < i ==> draw@[j] < LabelType::MAX,
            used == labels_used(source, i as nat),
        decreases n - i,
    {
        let label = draw[i];
        if label >= LabelType::MAX as usize {
            assert(draw@[i as int] >= LabelType::MAX);
            return None;
        }
        assert(source[i as int] == label);
        let next = label as LabelType + 1;
        if next > used {
            used = next;
        }
        i += 1;
    }
    Some(used)
}

/// The largest of the labels, if there is a label.
pub fn max_label(labels: &[usize]) -> (r: Option<usize>)
    ensures
        r is None <==> labels@.len() == 0,
        r matches Some(m) ==> labels@.contains(m) && forall|i: int|
            0 <= i < labels@.len() ==> labels@[i] <= m,
        r matches Some(m) ==> m + 1 == labels_used(indices_as_ints(labels@), labels@.len()),
{
    let n = labels.len();
    if n == 0 {
        return None;
    }
    let ghost source = indices_as_ints(labels@);
    let mut largest = labels[0];
    assert(source[0] == labels@[0]);
    assert(labels_used(source, 0) == 0);
    let mut i: usize = 1;
    while i < n
        invariant
            1 <= i <= n,
            n == labels@.len(),
            source == indices_as_ints(labels@),
            labels@.contains(largest),
            forall|j: int| 0 <= j < i ==> labels@[j] <= largest,
            largest + 1 == labels_used(source, i as nat),
        decreases n - i,
    {
        assert(source[i as int] == labels@[i as int]);
        if labels[i] > largest {
            largest = labels[i];
        }
        i += 1;
    }
    Some(largest)
}

} // verus!
