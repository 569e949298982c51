//! The canonical form of a label vector.
//!
//! Two label vectors describe the same partition when they put the same
//! items together. Among all vectors that describe one partition, exactly
//! one numbers the clusters `0, 1, 2, ..` in the order in which they first
//! appear: that is the canonical form. This module states the notion and
//! proves that it is well defined.

use vstd::prelude::*;

verus! {

/// Item by item, the labels of a vector as mathematical integers.
pub open spec fn as_ints(labels: Seq<u16>) -> Seq<int> {
    Seq::new(labels.len(), |i: int| labels[i] as int)
}

/// Items `i` and `j` are together in `a` exactly when they are together
/// in `b`.
pub open spec fn paired_alike(a: Seq<int>, b: Seq<int>, i: int, j: int) -> bool {
    (a[i] == a[j]) <==> (b[i] == b[j])
}

/// The two vectors put the same pairs of items together.
pub open spec fn same_partition(a: Seq<int>, b: Seq<int>) -> bool {
    &&& a.len() == b.len()
    &&& forall|i: int, j: int|
        0 <= i < a.len() && 0 <= j < a.len() ==> #[trigger] paired_alike(a, b, i, j)
}

/// One more than the largest label among the first `i` entries of `s`, or
/// zero when there is none. For a vector in canonical form this is the
/// number of clusters that the first `i` items open.
pub open spec fn labels_used(s: Seq<int>, i: nat) -> int
    decreases i,
{
    if i == 0 {
        0
    } else {
        let before = labels_used(s, (i - 1) as nat);
        if s[i - 1] + 1 > before {
            s[i - 1] + 1
        } else {
            before
        }
    }
}

/// Entry `i` either repeats a label in use before it or takes the next
/// free one.
pub open spec fn grows_at(s: Seq<int>, i: int) -> bool {
    0 <= s[i] <= labels_used(s, i as nat)
}

/// Each entry either repeats a label in use or takes the next free one:
/// clusters are numbered from zero in the order of their first item.
pub open spec fn is_restricted_growth(s: Seq<int>) -> bool {
    forall|i: int| 0 <= i < s.len() ==> #[trigger] grows_at(s, i)
}

/// `c` is the canonical form of `s`.
pub open spec fn is_canonical_form_of(c: Seq<int>, s: Seq<int>) -> bool {
    same_partition(c, s) && is_restricted_growth(c)
}

/// The count of labels in use never shrinks and never goes below zero.
pub proof fn lemma_labels_used_monotone(s: Seq<int>, i: nat, j: nat)
    requires
        i <= j,
    ensures
        0 <= labels_used(s, i) <= labels_used(s, j),
    decreases j,
{
    if j == 0 {
    } else if i == j {
        lemma_labels_used_monotone(s, (i - 1) as nat, (j - 1) as nat);
    } else {
        lemma_labels_used_monotone(s, i, (j - 1) as nat);
    }
}

/// Every entry lies below the count of labels in use after it.
pub proof fn lemma_labels_used_bounds(s: Seq<int>, i: nat, j: int)
    requires
        0 <= j < i,
    ensures
        s[j] < labels_used(s, i),
    decreases i,
{
    if j == i - 1 {
    } else {
        lemma_labels_used_bounds(s, (i - 1) as nat, j);
    }
}

/// The count of labels in use before position `i` is decided by the
/// entries before `i`.
pub proof fn lemma_labels_used_prefix(a: Seq<int>, b: Seq<int>, i: nat)
    requires
        forall|j: int| 0 <= j < i ==> a[j] == b[j],
    ensures
        labels_used(a, i) == labels_used(b, i),
    decreases i,
{
    if i > 0 {
        lemma_labels_used_prefix(a, b, (i - 1) as nat);
    }
}

/// In canonical form the first `i` items open at most `i` clusters.
pub proof fn lemma_labels_used_at_most_items(s: Seq<int>, i: nat)
    requires
        is_restricted_growth(s),
        i <= s.len(),
    ensures
        labels_used(s, i) <= i,
    decreases i,
{
    if i > 0 {
        lemma_labels_used_at_most_items(s, (i - 1) as nat);
        assert(grows_at(s, i - 1));
    }
}

/// In canonical form the labels in use are dense: every label below the
/// count belongs to an earlier item.
pub proof fn lemma_labels_used_dense(s: Seq<int>, i: nat, label: int) -> (j: int)
    requires
        is_restricted_growth(s),
        i <= s.len(),
        0 <= label < labels_used(s, i),
    ensures
        0 <= j < i,
        s[j] == label,
    decreases i,
{
    let before = labels_used(s, (i - 1) as nat);
    if label < before {
        lemma_labels_used_dense(s, (i - 1) as nat, label)
    } else {
        assert(grows_at(s, i - 1));
        i - 1
    }
}

/// Two vectors in canonical form that describe the same partition agree on
/// their first `i` entries.
pub proof fn lemma_canonical_forms_agree_until(a: Seq<int>, b: Seq<int>, i: nat)
    requires
        is_restricted_growth(a),
        is_restricted_growth(b),
        same_partition(a, b),
        i <= a.len(),
    ensures
        forall|j: int| 0 <= j < i ==> a[j] == b[j],
        labels_used(a, i) == labels_used(b, i),
    decreases i,
{
    if i > 0 {
        let p = (i - 1) as nat;
        lemma_canonical_forms_agree_until(a, b, p);
        let w = labels_used(a, p);
        assert(grows_at(a, p as int));
        assert(grows_at(b, p as int));
        if a[p as int] < w {
            let j = lemma_labels_used_dense(a, p, a[p as int]);
            assert(paired_alike(a, b, j, p as int));
        } else if b[p as int] < w {
            let j = lemma_labels_used_dense(b, p, b[p as int]);
            assert(paired_alike(a, b, j, p as int));
            lemma_labels_used_bounds(a, p, j);
        }
        assert(a[p as int] == b[p as int]);
        lemma_labels_used_prefix(a, b, i);
    }
}

/// The canonical form is unique: a partition has one label vector that
/// numbers its clusters by first appearance, whatever labels the vectors
/// it is computed from use.
pub proof fn lemma_canonical_form_unique(c1: Seq<int>, s1: Seq<int>, c2: Seq<int>, s2: Seq<int>)
    requires
        is_canonical_form_of(c1, s1),
        is_canonical_form_of(c2, s2),
        same_partition(s1, s2),
    ensures
        c1 == c2,
{
    assert(same_partition(c1, c2)) by {
        assert forall|i: int, j: int|
            0 <= i < c1.len() && 0 <= j < c1.len() implies #[trigger] paired_alike(
            c1,
            c2,
            i,
            j,
        ) by {
            assert(paired_alike(c1, s1, i, j));
            assert(paired_alike(s1, s2, i, j));
            assert(paired_alike(c2, s2, i, j));
        }
    }
    lemma_canonical_forms_agree_until(c1, c2, c1.len());
    assert(c1 =~= c2);
}

/// A vector in canonical form is its own canonical form.
pub proof fn lemma_canonical_form_idempotent(c: Seq<int>)
    requires
        is_restricted_growth(c),
    ensures
        is_canonical_form_of(c, c),
{
    assert forall|i: int, j: int| 0 <= i < c.len() && 0 <= j < c.len() implies #[trigger] paired_alike(
        c,
        c,
        i,
        j,
    ) by {}
}

/// In canonical form the labels are exactly `0..k`, where `k` counts the
/// clusters: none is outside the range and none in it is unused.
pub proof fn lemma_canonical_labels_dense(c: Seq<int>)
    requires
        is_restricted_growth(c),
    ensures
        0 <= labels_used(c, c.len()) <= c.len(),
        forall|i: int| 0 <= i < c.len() ==> 0 <= #[trigger] c[i] < labels_used(c, c.len()),
        forall|label: int| 0 <= label < labels_used(c, c.len()) ==> #[trigger] c.contains(label),
{
    let n = c.len();
    lemma_labels_used_monotone(c, 0, n);
    lemma_labels_used_at_most_items(c, n);
    assert forall|i: int| 0 <= i < n implies 0 <= #[trigger] c[i] < labels_used(c, n) by {
        assert(grows_at(c, i));
        lemma_labels_used_bounds(c, n, i);
    }
    assert forall|label: int| 0 <= label < labels_used(c, n) implies #[trigger] c.contains(
        label,
    ) by {
        let j = lemma_labels_used_dense(c, n, label);
        assert(0 <= j < n && c[j] == label);
    }
}

} // verus!
