//! One draw from the Ewens-Pitman attraction distribution, step by step.
//!
//! A draw visits the items in the order of a permutation and gives each to
//! a cluster in use or to a fresh one. Which of these it is to be is a
//! weighted random choice that the caller makes from the similarities; the
//! draw keeps the books: whose turn it is, who has been seated, which
//! labels may be taken.

use crate::clust::{
    count_allocated, lemma_count_allocated_full, lemma_count_allocated_none,
    lemma_count_allocated_update, members_after, Clustering,
};
use crate::matrix::SquareMatrixBorrower;
use crate::perm::{is_permutation, Permutation};
use vstd::prelude::*;

verus! {

/// What a sampler is set up with, as plain values.
pub struct EpaParametersView<T> {
    /// The number of items.
    pub n_items: nat,
    /// The entries of the similarity matrix, column after column.
    pub similarity: Seq<T>,
    /// The order in which the items are visited.
    pub permutation: Seq<usize>,
    /// The weight of opening a cluster.
    pub mass: T,
    /// How much each cluster in use adds to that weight.
    pub discount: T,
}

/// The similarity matrix, the visiting order and the two scalars that
/// govern a draw.
pub struct EpaParameters<'a, T> {
    similarity: SquareMatrixBorrower<'a, T>,
    permutation: Permutation,
    mass: T,
    discount: T,
}

impl<'a, T: Copy> View for EpaParameters<'a, T> {
    type V = EpaParametersView<T>;

    closed spec fn view(&self) -> EpaParametersView<T> {
        EpaParametersView {
            n_items: self.similarity.order(),
            similarity: self.similarity.entries(),
            permutation: self.permutation@,
            mass: self.mass,
            discount: self.discount,
        }
    }
}

impl<'a, T: Copy> EpaParameters<'a, T> {
    /// The matrix has a row and a column for each item of the order, and
    /// the order is a permutation.
    pub open spec fn wf(&self) -> bool {
        &&& is_permutation(self@.permutation)
        &&& self@.permutation.len() == self@.n_items
        &&& self@.similarity.len() == self@.n_items * self@.n_items
    }

    /// Puts the four together, if the matrix and the permutation are over
    /// the same number of items.
    pub fn new(
        similarity: SquareMatrixBorrower<'a, T>,
        permutation: Permutation,
        mass: T,
        discount: T,
    ) -> (r: Option<Self>)
        requires
            similarity.wf(),
            permutation.wf(),
        ensures
            r is Some <==> similarity.order() == permutation@.len(),
            r matches Some(p) ==> p.wf() && p@ == (EpaParametersView {
                n_items: similarity.order(),
                similarity: similarity.entries(),
                permutation: permutation@,
                mass,
                discount,
            }),
    {
        if similarity.n_items() != permutation.n_items() {
            None
        } else {
            Some(EpaParameters { similarity, permutation, mass, discount })
        }
    }

    /// Draws a new visiting order from `rng`. The items stay the same.
    pub fn shuffle_permutation(&mut self, rng: &mut rand_pcg::Mcg128Xsl64)
        requires
            old(self).wf(),
        ensures
            final(self).wf(),
            final(self)@.permutation.to_multiset() == old(self)@.permutation.to_multiset(),
            final(self)@.n_items == old(self)@.n_items,
            final(self)@.similarity == old(self)@.similarity,
            final(self)@.mass == old(self)@.mass,
            final(self)@.discount == old(self)@.discount,
    {
        self.permutation.shuffle(rng);
    }

    /// The similarity matrix.
    pub fn similarity(&self) -> (m: SquareMatrixBorrower<'a, T>)
        requires
            self.wf(),
        ensures
            m.wf(),
            m.entries() == self@.similarity,
            m.order() == self@.n_items,
    {
        self.similarity
    }

    /// The visiting order.
    pub fn permutation(&self) -> (p: &Permutation)
        requires
            self.wf(),
        ensures
            p.wf(),
            p@ == self@.permutation,
    {
        &self.permutation
    }

    /// The weight of opening a cluster.
    pub fn mass(&self) -> (mass: T)
        ensures
            mass == self@.mass,
    {
        self.mass
    }

    /// How much each cluster in use adds to the weight of opening one.
    pub fn discount(&self) -> (discount: T)
        ensures
            discount == self@.discount,
    {
        self.discount
    }

    /// The number of items.
    pub fn n_items(&self) -> (n: usize)
        ensures
            n == self@.n_items,
    {
        self.similarity.n_items()
    }
}

/// Why a draw did not take a step.
#[derive(Clone, Copy, Debug, PartialEq, Eq)]
pub enum DrawError {
    /// Every item has been seated already.
    Finished,
    /// The label is neither a cluster in use nor the next free one.
    LabelNotAvailable,
}

/// A draw in progress: the visiting order, the clustering built so far,
/// and how many items have been visited.
pub struct EpaDraw<'a> {
    permutation: &'a Permutation,
    clustering: Clustering,
    position: usize,
}

impl<'a> EpaDraw<'a> {
    /// The order in which the items are visited.
    pub closed spec fn order(&self) -> Seq<usize> {
        self.permutation@
    }

    /// The clustering built so far.
    pub closed spec fn partition(&self) -> Clustering {
        self.clustering
    }

    /// How many items have been visited.
    pub closed spec fn visited_count(&self) -> nat {
        self.position as nat
    }

    /// The items with a label are exactly those visited so far.
    pub open spec fn wf(&self) -> bool {
        &&& is_permutation(self.order())
        &&& self.partition().wf()
        &&& self.partition()@.len() == self.order().len()
        &&& self.visited_count() <= self.order().len()
        &&& count_allocated(self.partition()@) == self.visited_count()
        &&& forall|j: int|
            0 <= j < self.order().len() ==> (self.partition()@[(#[trigger] self.order()[j]) as int]
                is Some <==> j < self.visited_count())
    }

    /// Every item has been visited.
    pub open spec fn finished(&self) -> bool {
        self.visited_count() == self.order().len()
    }

    /// A draw over the items of `permutation`, before the first visit.
    pub fn start(permutation: &'a Permutation) -> (draw: Self)
        requires
            permutation.wf(),
        ensures
            draw.wf(),
            draw.order() == permutation@,
            draw.visited_count() == 0,
            draw.partition().members() == Seq::<Seq<usize>>::empty(),
    {
        let clustering = Clustering::unallocated(permutation.n_items());
        proof {
            lemma_count_allocated_none(clustering@);
        }
        EpaDraw { permutation, clustering, position: 0 }
    }

    /// Whether every item has been visited; the clustering is then
    /// complete.
    pub fn is_complete(&self) -> (b: bool)
        requires
            self.wf(),
        ensures
            b == self.finished(),
            b ==> self.partition().complete(),
    {
        proof {
            lemma_count_allocated_full(self.partition()@);
        }
        self.position == self.permutation.n_items()
    }

    /// The number of items visited so far.
    pub fn position(&self) -> (i: usize)
        ensures
            i == self.visited_count(),
    {
        self.position
    }

    /// The item whose turn it is.
    pub fn item(&self) -> (item: usize)
        requires
            self.wf(),
            !self.finished(),
        ensures
            item == self.order()[self.visited_count() as int],
            item < self.order().len(),
            self.partition()@[item as int] is None,
    {
        self.permutation.get(self.position)
    }

    /// The items visited so far, in the order of their visits.
    pub fn visited(&self) -> (items: &[usize])
        requires
            self.wf(),
        ensures
            items@ == self.order().subrange(0, self.visited_count() as int),
    {
        self.permutation.slice_until(self.position)
    }

    /// The clustering built so far.
    pub fn clustering(&self) -> (c: &Clustering)
        ensures
            *c == self.partition(),
    {
        &self.clustering
    }

    /// Seats the item whose turn it is in cluster `label`, which must be a
    /// cluster in use or the next free label, and moves on to the next
    /// item. A finished draw, or a label that is not available, changes
    /// nothing.
    pub fn assign(&mut self, label: usize) -> (r: Result<(), DrawError>)
        requires
            old(self).wf(),
        ensures
            final(self).wf(),
            final(self).order() == old(self).order(),
            r == if old(self).finished() {
                Err::<(), DrawError>(DrawError::Finished)
            } else if label > old(self).partition().members().len() {
                Err(DrawError::LabelNotAvailable)
            } else {
                Ok(())
            },
            r is Ok ==> {
                let item = old(self).order()[old(self).visited_count() as int];
                &&& final(self).visited_count() == old(self).visited_count() + 1
                &&& final(self).partition()@ == old(self).partition()@.update(
                    item as int,
                    Some(label),
                )
                &&& final(self).partition().members() == members_after(
                    old(self).partition().members(),
                    item,
                    label,
                )
            },
            r is Err ==> final(self).visited_count() == old(self).visited_count() && final(self).partition() == old(self).partition(),
    {
        if self.position == self.permutation.n_items() {
            return Err(DrawError::Finished);
        }
        if label > self.clustering.n_clusters() {
            return Err(DrawError::LabelNotAvailable);
        }
        let item = self.permutation.get(self.position);
        proof {
            lemma_count_allocated_update(self.partition()@, item as int, label);
        }
        let seated = self.clustering.allocate(item, label);
        assert(seated is Ok);
        self.position = self.position + 1;
        proof {
            let order = self.order();
            assert forall|j: int| 0 <= j < order.len() implies (self.partition()@[(
            #[trigger] order[j]) as int] is Some <==> j < self.visited_count()) by {
                if j != old(self).visited_count() {
                    assert(order[j] != order[old(self).visited_count() as int]);
                }
            }
        }
        Ok(())
    }

    /// The clustering of a finished draw.
    pub fn finish(self) -> (c: Clustering)
        requires
            self.wf(),
            self.finished(),
        ensures
            c == self.partition(),
            c.wf(),
            c.complete(),
    {
        proof {
            lemma_count_allocated_full(self.partition()@);
        }
        self.clustering
    }
}

} // verus!
