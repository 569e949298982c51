//! The partition under construction: items are given to clusters one at a
//! time, and the clusters in use are always numbered `0..k` without gaps.

use crate::canon::{
    as_ints, grows_at, is_canonical_form_of, labels_used, lemma_labels_used_prefix, paired_alike,
    same_partition,
};
use vstd::prelude::*;

verus! {

/// The integer type of a label in a finished draw.
pub type LabelType = u16;

/// How many entries of `labels` hold a label.
pub open spec fn count_allocated(labels: Seq<Option<usize>>) -> nat
    decreases labels.len(),
{
    if labels.len() == 0 {
        0
    } else {
        count_allocated(labels.drop_last()) + if labels.last() is Some {
            1nat
        } else {
            0nat
        }
    }
}

/// No more entries hold a label than there are entries.
pub proof fn lemma_count_allocated_bound(labels: Seq<Option<usize>>)
    ensures
        count_allocated(labels) <= labels.len(),
    decreases labels.len(),
{
    if labels.len() > 0 {
        lemma_count_allocated_bound(labels.drop_last());
    }
}

/// Labelling an entry that had no label raises the count by one.
pub proof fn lemma_count_allocated_update(labels: Seq<Option<usize>>, i: int, label: usize)
    requires
        0 <= i < labels.len(),
        labels[i] is None,
    ensures
        count_allocated(labels.update(i, Some(label))) == count_allocated(labels) + 1,
    decreases labels.len(),
{
    let after = labels.update(i, Some(label));
    if i == labels.len() - 1 {
        assert(after.drop_last() =~= labels.drop_last());
    } else {
        lemma_count_allocated_update(labels.drop_last(), i, label);
        assert(after.drop_last() =~= labels.drop_last().update(i, Some(label)));
    }
}

/// The count reaches the length exactly when every entry holds a label.
pub proof fn lemma_count_allocated_full(labels: Seq<Option<usize>>)
    ensures
        count_allocated(labels) == labels.len() <==> forall|i: int|
            0 <= i < labels.len() ==> (#[trigger] labels[i]) is Some,
    decreases labels.len(),
{
    if labels.len() > 0 {
        let front = labels.drop_last();
        lemma_count_allocated_full(front);
        lemma_count_allocated_bound(front);
        if count_allocated(labels) == labels.len() {
            assert forall|i: int| 0 <= i < labels.len() implies (#[trigger] labels[i]) is Some by {
                if i < front.len() {
                    assert(front[i] is Some);
                }
            }
        }
        if forall|i: int| 0 <= i < labels.len() ==> (#[trigger] labels[i]) is Some {
            assert forall|i: int| 0 <= i < front.len() implies (#[trigger] front[i]) is Some by {
                assert(labels[i] is Some);
            }
            assert(labels.last() is Some);
        }
    }
}

/// The count is zero exactly when no entry holds a label.
pub proof fn lemma_count_allocated_none(labels: Seq<Option<usize>>)
    ensures
        count_allocated(labels) == 0 <==> forall|i: int|
            0 <= i < labels.len() ==> (#[trigger] labels[i]) is None,
    decreases labels.len(),
{
    if labels.len() > 0 {
        let front = labels.drop_last();
        lemma_count_allocated_none(front);
        if count_allocated(labels) == 0 {
            assert forall|i: int| 0 <= i < labels.len() implies (#[trigger] labels[i]) is None by {
                if i < front.len() {
                    assert(front[i] is None);
                }
            }
        }
        if forall|i: int| 0 <= i < labels.len() ==> (#[trigger] labels[i]) is None {
            assert forall|i: int| 0 <= i < front.len() implies (#[trigger] front[i]) is None by {
                assert(labels[i] is None);
            }
            assert(labels.last() is None);
        }
    }
}

/// The label of each item and the items of each cluster tell the same
/// story: every labelled item is listed once under its label and nowhere
/// else, no cluster is empty, and there are no more clusters than labelled
/// items.
pub open spec fn consistent(labels: Seq<Option<usize>>, members: Seq<Seq<usize>>) -> bool {
    &&& forall|l: int, k: int|
        0 <= l < members.len() && 0 <= k < members[l].len() ==> {
            &&& (#[trigger] members[l][k]) < labels.len()
            &&& labels[members[l][k] as int] == Some(l as usize)
        }
    &&& forall|l: int|
        0 <= l < members.len() ==> (#[trigger] members[l]).len() > 0 && members[l].no_duplicates()
    &&& forall|i: int|
        0 <= i < labels.len() && (#[trigger] labels[i]) is Some ==> {
            &&& labels[i].unwrap() < members.len()
            &&& members[labels[i].unwrap() as int].contains(i as usize)
        }
    &&& members.len() <= count_allocated(labels)
}

/// The clustering after `item` has been given to `label`: an existing
/// cluster gains the item at its end, the label one past the last opens a
/// new cluster.
pub open spec fn members_after(members: Seq<Seq<usize>>, item: usize, label: usize) -> Seq<
    Seq<usize>,
> {
    if label < members.len() {
        members.update(label as int, members[label as int].push(item))
    } else {
        members.push(seq![item])
    }
}

/// Why an item was not given to a cluster.
#[derive(Clone, Copy, Debug, PartialEq, Eq)]
pub enum AllocationError {
    /// The item is not one of the `n` items.
    ItemOutOfRange,
    /// The item has a label already.
    ItemAlreadyAllocated,
    /// The label is neither a cluster in use nor the next free one.
    LabelNotAvailable,
}

/// A partial assignment of `n` items to clusters `0..k`.
pub struct Clustering {
    labels: Vec<Option<usize>>,
    members: Vec<Vec<usize>>,
    n_allocated: usize,
}

impl View for Clustering {
    type V = Seq<Option<usize>>;

    /// The label of each item, `None` where the item has none yet.
    closed spec fn view(&self) -> Seq<Option<usize>> {
        self.labels@
    }
}

impl Clustering {
    /// The items of each cluster, in the order in which they were given
    /// to it.
    pub closed spec fn members(&self) -> Seq<Seq<usize>> {
        Seq::new(self.members@.len(), |l: int| self.members@[l]@)
    }

    /// The running count of labelled items that the value keeps.
    pub closed spec fn counter(&self) -> nat {
        self.n_allocated as nat
    }

    /// Labels and members agree, and the running count is right.
    pub open spec fn wf(&self) -> bool {
        &&& consistent(self@, self.members())
        &&& self.counter() == count_allocated(self@)
    }

    /// Every item has a label.
    pub open spec fn complete(&self) -> bool {
        forall|i: int| 0 <= i < self@.len() ==> (#[trigger] self@[i]) is Some
    }

    /// The label of each item of a complete clustering.
    pub open spec fn assignment(&self) -> Seq<int> {
        Seq::new(self@.len(), |i: int| self@[i].unwrap() as int)
    }

    /// `n_items` items, none of them in a cluster.
    pub fn unallocated(n_items: usize) -> (c: Clustering)
        ensures
            c.wf(),
            c@ == Seq::new(n_items as nat, |i: int| None::<usize>),
            c.members() == Seq::<Seq<usize>>::empty(),
    {
        let mut labels: Vec<Option<usize>> = Vec::new();
        let mut i: usize = 0;
        while i < n_items
            invariant
                i <= n_items,
                labels@ == Seq::new(i as nat, |k: int| None::<usize>),
            decreases n_items - i,
        {
            labels.push(None);
            i += 1;
        }
        let c = Clustering { labels, members: Vec::new(), n_allocated: 0 };
        proof {
            lemma_count_allocated_none(c@);
            assert(c.members() =~= Seq::<Seq<usize>>::empty());
        }
        c
    }

    /// The number of items, labelled or not.
    pub fn n_items(&self) -> (n: usize)
        ensures
            n == self@.len(),
    {
        self.labels.len()
    }

    /// The number of clusters in use.
    pub fn n_clusters(&self) -> (k: usize)
        ensures
            k == self.members().len(),
    {
        self.members.len()
    }

    /// The number of items that have a label.
    pub fn n_allocated(&self) -> (m: usize)
        requires
            self.wf(),
        ensures
            m == count_allocated(self@),
            m <= self@.len(),
    {
        proof {
            lemma_count_allocated_bound(self@);
        }
        self.n_allocated
    }

    /// Whether every item has a label.
    pub fn is_complete(&self) -> (b: bool)
        requires
            self.wf(),
        ensures
            b == self.complete(),
    {
        proof {
            lemma_count_allocated_full(self@);
        }
        self.n_allocated == self.labels.len()
    }

    /// The label of `item`: `None` while it has none, and for an index that
    /// is no item.
    pub fn label_of(&self, item: usize) -> (label: Option<usize>)
        ensures
            label == if item < self@.len() {
                self@[item as int]
            } else {
                None
            },
    {
        if item < self.labels.len() {
            self.labels[item]
        } else {
            None
        }
    }

    /// The number of items in cluster `label`; zero for a label not in use.
    pub fn size_of(&self, label: usize) -> (size: usize)
        ensures
            size == if label < self.members().len() {
                self.members()[label as int].len()
            } else {
                0
            },
    {
        if label < self.members.len() {
            self.members[label].len()
        } else {
            0
        }
    }

    /// The items of cluster `label`, in the order in which they joined.
    pub fn items_of(&self, label: usize) -> (items: &[usize])
        requires
            label < self.members().len(),
        ensures
            items@ == self.members()[label as int],
    {
        self.members[label].as_slice()
    }

    /// The labels that the next item may take: every cluster in use, and
    /// one fresh label after them.
    pub fn available_labels_for_allocation(&self) -> (candidates: Vec<usize>)
        ensures
            candidates@ == Seq::new(self.members().len() + 1, |l: int| l as usize),
    {
        let k = self.members.len();
        let mut candidates: Vec<usize> = Vec::new();
        let mut label: usize = 0;
        while label < k
            invariant
                label <= k,
                candidates@ == Seq::new(label as nat, |l: int| l as usize),
            decreases k - label,
        {
            candidates.push(label);
            label += 1;
        }
        candidates.push(k);
        assert(candidates@ =~= Seq::new(self.members().len() + 1, |l: int| l as usize));
        candidates
    }

    /// Gives `item` to cluster `label`. The item must be one that has no
    /// label yet, and the label a cluster in use or the next free label;
    /// otherwise nothing changes and the error says what was wrong, the
    /// item being looked at first.
    pub fn allocate(&mut self, item: usize, label: usize) -> (r: Result<(), AllocationError>)
        requires
            old(self).wf(),
        ensures
            final(self).wf(),
            r == if item >= old(self)@.len() {
                Err::<(), AllocationError>(AllocationError::ItemOutOfRange)
            } else if old(self)@[item as int] is Some {
                Err(AllocationError::ItemAlreadyAllocated)
            } else if label > old(self).members().len() {
                Err(AllocationError::LabelNotAvailable)
            } else {
                Ok(())
            },
            r is Ok ==> final(self)@ == old(self)@.update(item as int, Some(label)),
            r is Ok ==> final(self).members() == members_after(old(self).members(), item, label),
            r is Err ==> final(self)@ == old(self)@ && final(self).members() == old(self).members(),
    {
        if item >= self.labels.len() {
            return Err(AllocationError::ItemOutOfRange);
        }
        if self.labels[item].is_some() {
            return Err(AllocationError::ItemAlreadyAllocated);
        }
        if label > self.members.len() {
            return Err(AllocationError::LabelNotAvailable);
        }
        proof {
            lemma_count_allocated_update(self@, item as int, label);
            lemma_count_allocated_bound(self@.update(item as int, Some(label)));
            assert(self.n_allocated < self.labels@.len());
            lemma_allocate_consistent(self@, self.members(), item, label);
        }
        if label < self.members.len() {
            self.members[label].push(item);
        } else {
            let mut opened: Vec<usize> = Vec::new();
            opened.push(item);
            self.members.push(opened);
        }
        self.labels[item] = Some(label);
        self.n_allocated = self.n_allocated + 1;
        proof {
            assert(self.members() =~= members_after(old(self).members(), item, label));
        }
        Ok(())
    }

    /// Writes the canonical form of a complete clustering into `slice`, one
    /// label per item, and returns the number of clusters. The clusters are
    /// renumbered by their lowest item: the cluster of item 0 becomes 0, the
    /// next cluster met becomes 1, and so on.
    pub fn relabel_into_slice(&self, slice: &mut [LabelType]) -> (k: LabelType)
        requires
            self.wf(),
            self.complete(),
            old(slice)@.len() == self@.len(),
            self.members().len() <= LabelType::MAX,
        ensures
            final(slice)@.len() == self@.len(),
            is_canonical_form_of(as_ints(final(slice)@), self.assignment()),
            k == self.members().len(),
            k == labels_used(as_ints(final(slice)@), self@.len()),
    {
        let n = self.labels.len();
        let n_clusters = self.members.len();
        let mut codes: Vec<Option<usize>> = Vec::new();
        let mut l: usize = 0;
        while l < n_clusters
            invariant
                l <= n_clusters,
                codes@ == Seq::new(l as nat, |k: int| None::<usize>),
            decreases n_clusters - l,
        {
            codes.push(None);
            l += 1;
        }
        proof {
            lemma_count_allocated_none(codes@);
        }
        let mut next: usize = 0;
        let mut i: usize = 0;
        while i < n
            invariant
                self.wf(),
                self.complete(),
                n == self@.len(),
                n == slice@.len(),
                n_clusters <= LabelType::MAX,
                n_clusters == self.members().len(),
                codes@.len() == n_clusters,
                i <= n,
                next <= i,
                next <= n_clusters,
                count_allocated(codes@) == next,
                forall|a: int|
                    0 <= a < n_clusters && (#[trigger] codes@[a]) is Some ==> codes@[a].unwrap()
                        < next,
                forall|a: int, b: int|
                    0 <= a < n_clusters && 0 <= b < n_clusters && a != b && (
                    #[trigger] codes@[a]) is Some && (#[trigger] codes@[b]) is Some ==> codes@[a]
                        != codes@[b],
                forall|j: int|
                    0 <= j < i ==> codes@[self@[j].unwrap() as int] == Some(
                        (#[trigger] slice@[j]) as usize,
                    ),
                forall|j: int| 0 <= j < i ==> #[trigger] grows_at(as_ints(slice@), j),
                labels_used(as_ints(slice@), i as nat) == next,
            decreases n - i,
        {
            assert(self@[i as int] is Some);
            let label = self.labels[i].unwrap();
            let ghost codes_before = codes@;
            let ghost slice_before = slice@;
            let ghost next_before = next;
            let code = match codes[label] {
                Some(c) => c,
                None => {
                    let c = next;
                    proof {
                        lemma_count_allocated_update(codes@, label as int, c);
                        lemma_count_allocated_bound(codes@.update(label as int, Some(c)));
                    }
                    codes[label] = Some(c);
                    next = next + 1;
                    c
                },
            };
            slice[i] = code as LabelType;
            proof {
                let before = as_ints(slice_before);
                let after = as_ints(slice@);
                assert forall|j: nat| j <= i implies #[trigger] labels_used(after, j)
                    == labels_used(before, j) by {
                    lemma_labels_used_prefix(after, before, j);
                }
                assert(after[i as int] == code);
                assert(labels_used(after, i as nat) == labels_used(before, i as nat));
                assert(code < next_before ==> next == next_before);
                assert(code >= next_before ==> code == next_before && next == next_before + 1);
                assert(labels_used(after, (i + 1) as nat) == next);
                assert forall|j: int| 0 <= j < i + 1 implies codes@[self@[j].unwrap() as int]
                    == Some((#[trigger] slice@[j]) as usize) by {
                    if j < i {
                        assert(slice@[j] == slice_before[j]);
                        assert(codes_before[self@[j].unwrap() as int] is Some);
                    }
                }
                assert forall|j: int| 0 <= j < i + 1 implies #[trigger] grows_at(after, j) by {
                    if j < i {
                        assert(grows_at(before, j));
                        assert(after[j] == before[j]);
                    }
                }
            }
            i += 1;
        }
        proof {
            let canonical = as_ints(slice@);
            let source = self.assignment();
            assert forall|a: int| 0 <= a < n_clusters implies (#[trigger] codes@[a]) is Some by {
                let first = self.members()[a][0];
                assert(self@[first as int] == Some(a as usize));
                assert(codes@[self@[first as int].unwrap() as int] == Some(
                    slice@[first as int] as usize,
                ));
            }
            lemma_count_allocated_full(codes@);
            assert forall|a: int, b: int| 0 <= a < n && 0 <= b < n implies #[trigger] paired_alike(
                canonical,
                source,
                a,
                b,
            ) by {
                let la = self@[a].unwrap() as int;
                let lb = self@[b].unwrap() as int;
                assert(codes@[la] == Some(slice@[a] as usize));
                assert(codes@[lb] == Some(slice@[b] as usize));
            }
            assert(same_partition(canonical, source));
        }
        next as LabelType
    }
}

/// A complete clustering is a partition with dense labels: every item has
/// exactly one label, the labels are the numbers below the cluster count,
/// and each of them is the label of some item. There are no more clusters
/// than items, and at least one as soon as there is an item.
pub proof fn lemma_complete_is_dense_partition(c: Clustering)
    requires
        c.wf(),
        c.complete(),
    ensures
        c.assignment().len() == c@.len(),
        forall|item: int|
            0 <= item < c@.len() ==> c@[item] is Some && 0 <= (#[trigger] c.assignment()[item])
                < c.members().len(),
        forall|label: int|
            0 <= label < c.members().len() ==> #[trigger] c.assignment().contains(label),
        c.members().len() <= c@.len(),
        c@.len() >= 1 ==> c.members().len() >= 1,
{
    lemma_count_allocated_bound(c@);
    assert forall|item: int| 0 <= item < c@.len() implies c@[item] is Some && 0 <= (
    #[trigger] c.assignment()[item]) < c.members().len() by {
        assert(c@[item] is Some);
    }
    assert forall|label: int| 0 <= label < c.members().len() implies #[trigger] c.assignment().contains(
        label,
    ) by {
        let first = c.members()[label][0];
        assert(c@[first as int] == Some(label as usize));
        assert(c.assignment()[first as int] == label);
    }
    if c@.len() >= 1 {
        assert(c@[0] is Some);
    }
}

/// Giving an unlabelled item to an available label keeps labels and
/// members in agreement.
pub proof fn lemma_allocate_consistent(
    labels: Seq<Option<usize>>,
    members: Seq<Seq<usize>>,
    item: usize,
    label: usize,
)
    requires
        consistent(labels, members),
        item < labels.len(),
        labels[item as int] is None,
        label <= members.len(),
    ensures
        consistent(labels.update(item as int, Some(label)), members_after(members, item, label)),
{
    let labels2 = labels.update(item as int, Some(label));
    let members2 = members_after(members, item, label);
    lemma_count_allocated_update(labels, item as int, label);
    assert forall|l: int, k: int| 0 <= l < members2.len() && 0 <= k < members2[l].len() implies {
        &&& (#[trigger] members2[l][k]) < labels2.len()
        &&& labels2[members2[l][k] as int] == Some(l as usize)
    } by {
        if l < members.len() && k < members[l].len() {
            assert(members2[l][k] == members[l][k]);
            assert(labels[members[l][k] as int] == Some(l as usize));
        }
    }
    assert forall|l: int| 0 <= l < members2.len() implies (#[trigger] members2[l]).len() > 0
        && members2[l].no_duplicates() by {
        if l < members.len() {
            assert(members[l].len() > 0 && members[l].no_duplicates());
            if l == label {
                assert forall|a: int, b: int|
                    0 <= a < members2[l].len() && 0 <= b < members2[l].len() && a
                        != b implies members2[l][a] != members2[l][b] by {
                    if a < members[l].len() {
                        assert(labels[members[l][a] as int] is Some);
                    }
                    if b < members[l].len() {
                        assert(labels[members[l][b] as int] is Some);
                    }
                }
            }
        }
    }
    assert forall|i: int| 0 <= i < labels2.len() && (#[trigger] labels2[i]) is Some implies {
        &&& labels2[i].unwrap() < members2.len()
        &&& members2[labels2[i].unwrap() as int].contains(i as usize)
    } by {
        if i == item {
            let m = members2[label as int];
            assert(m[m.len() - 1] == item);
        } else {
            assert(labels[i] is Some);
            let l = labels[i].unwrap() as int;
            assert(members[l].contains(i as usize));
            let k = choose|k: int| 0 <= k < members[l].len() && members[l][k] == i as usize;
            assert(members2[l][k] == i as usize);
        }
    }
}

} // verus!
