//! Orderings of the items `0..n`.

use crate::rng::shuffle_vec;
use vstd::prelude::*;

verus! {

/// Whether `s` lists every index below its length exactly once.
pub open spec fn is_permutation(s: Seq<usize>) -> bool {
    &&& forall|i: int| 0 <= i < s.len() ==> (#[trigger] s[i]) < s.len()
    &&& s.no_duplicates()
}

/// The identity ordering of `n` items.
pub open spec fn natural_order(n: nat) -> Seq<usize> {
    Seq::new(n, |i: int| i as usize)
}

/// Rearranging a permutation gives a permutation: the property depends on
/// the entries alone, not on their order.
pub proof fn lemma_rearranged_permutation(before: Seq<usize>, after: Seq<usize>)
    requires
        is_permutation(before),
        after.to_multiset() == before.to_multiset(),
    ensures
        is_permutation(after),
        after.len() == before.len(),
{
    broadcast use vstd::seq_lib::to_multiset_len, vstd::seq_lib::to_multiset_contains;

    assert(after.len() == after.to_multiset().len());
    assert(before.len() == before.to_multiset().len());
    assert forall|i: int| 0 <= i < after.len() implies (#[trigger] after[i]) < after.len() by {
        let x = after[i];
        assert(after.contains(x));
        assert(after.to_multiset().count(x) > 0);
        assert(before.to_multiset().count(x) > 0);
        assert(before.contains(x));
        let k = choose|k: int| 0 <= k < before.len() && before[k] == x;
        assert(before[k] < before.len());
    }
    before.lemma_multiset_has_no_duplicates();
    after.lemma_multiset_has_no_duplicates_conv();
}

/// An ordering of the items `0..n`: position `i` holds the item visited
/// `i`-th.
pub struct Permutation {
    order: Vec<usize>,
}

impl View for Permutation {
    type V = Seq<usize>;

    closed spec fn view(&self) -> Seq<usize> {
        self.order@
    }
}

impl Permutation {
    /// The ordering is a bijection on `0..n`.
    pub open spec fn wf(&self) -> bool {
        is_permutation(self@)
    }

    /// The identity ordering `0, 1, .., n_items - 1`.
    pub fn natural(n_items: usize) -> (p: Permutation)
        ensures
            p.wf(),
            p@ == natural_order(n_items as nat),
    {
        let mut order: Vec<usize> = Vec::new();
        let mut i: usize = 0;
        while i < n_items
            invariant
                i <= n_items,
                order@ == natural_order(i as nat),
            decreases n_items - i,
        {
            order.push(i);
            i += 1;
        }
        Permutation { order }
    }

    /// The ordering that `x` spells out, if it is one: `x` is accepted
    /// exactly when it names every index below its length once.
    pub fn from_vector(x: Vec<usize>) -> (r: Option<Permutation>)
        ensures
            r is Some <==> is_permutation(x@),
            r matches Some(p) ==> p.wf() && p@ == x@,
    {
        let n = x.len();
        let mut seen: Vec<bool> = Vec::new();
        let mut k: usize = 0;
        while k < n
            invariant
                k <= n,
                seen@.len() == k,
                forall|v: int| 0 <= v < k ==> !(#[trigger] seen@[v]),
            decreases n - k,
        {
            seen.push(false);
            k += 1;
        }
        let mut i: usize = 0;
        while i < n
            invariant
                i <= n,
                n == x@.len(),
                seen@.len() == n,
                forall|a: int| 0 <= a < i ==> (#[trigger] x@[a]) < n,
                forall|a: int, b: int| 0 <= a < i && 0 <= b < i && a != b ==> x@[a] != x@[b],
                forall|v: int|
                    0 <= v < n ==> ((#[trigger] seen@[v]) <==> exists|a: int|
                        0 <= a < i && x@[a] == v),
            decreases n - i,
        {
            let item = x[i];
            if item >= n {
                return None;
            }
            if seen[item] {
                proof {
                    let a = choose|a: int| 0 <= a < i && x@[a] == item;
                    assert(x@[a] == x@[i as int] && a != i);
                }
                return None;
            }
            let ghost before = seen@;
            seen[item] = true;
            proof {
                assert forall|v: int| 0 <= v < n implies ((#[trigger] seen@[v]) <==> exists|a: int|
                    0 <= a < i + 1 && x@[a] == v) by {
                    if v == item {
                        assert(x@[i as int] == v);
                    } else {
                        assert(seen@[v] == before[v]);
                        if before[v] {
                            let a = choose|a: int| 0 <= a < i && x@[a] == v;
                            assert(0 <= a < i + 1 && x@[a] == v);
                        }
                    }
                }
                assert forall|a: int, b: int|
                    0 <= a < i + 1 && 0 <= b < i + 1 && a != b implies x@[a] != x@[b] by {
                    if a == i && x@[b] == item {
                        assert(before[item as int]);
                    }
                    if b == i && x@[a] == item {
                        assert(before[item as int]);
                    }
                }
            }
            i += 1;
        }
        Some(Permutation { order: x })
    }

    /// The number of items ordered.
    pub fn n_items(&self) -> (n: usize)
        ensures
            n == self@.len(),
    {
        self.order.len()
    }

    /// The item at position `i`.
    pub fn get(&self, i: usize) -> (item: usize)
        requires
            self.wf(),
            i < self@.len(),
        ensures
            item == self@[i as int],
            item < self@.len(),
    {
        self.order[i]
    }

    /// The items at the positions before `end`, in order.
    pub fn slice_until(&self, end: usize) -> (items: &[usize])
        requires
            end <= self@.len(),
        ensures
            items@ == self@.subrange(0, end as int),
    {
        vstd::slice::slice_subrange(self.order.as_slice(), 0, end)
    }

    /// Puts the items into an order drawn from `rng`. What is ordered stays
    /// the same; which order comes out is up to the generator.
    pub fn shuffle(&mut self, rng: &mut rand_pcg::Mcg128Xsl64)
        requires
            old(self).wf(),
        ensures
            final(self).wf(),
            final(self)@.len() == old(self)@.len(),
            final(self)@.to_multiset() == old(self)@.to_multiset(),
    {
        shuffle_vec(&mut self.order, rng);
        proof {
            lemma_rearranged_permutation(old(self)@, self@);
        }
    }
}

} // verus!
