//! Square matrices of pairwise similarities, stored column by column.
//!
//! The entries are of any copyable scalar type: the crate moves them and
//! picks them out, and leaves all arithmetic on them to its caller.

use vstd::prelude::*;

verus! {

/// Where entry `(i, j)` of an `n` by `n` matrix lies in its buffer.
pub open spec fn offset_of(n: nat, i: int, j: int) -> int {
    n * j + i
}

/// Every pair of indices below `n` has its own place in a buffer of
/// `n * n` entries.
pub proof fn lemma_offset_in_range(n: nat, i: int, j: int)
    requires
        0 <= i < n,
        0 <= j < n,
    ensures
        0 <= offset_of(n, i, j) < n * n,
{
    assert(n * j + i < n * n) by (nonlinear_arith)
        requires
            0 <= i < n,
            0 <= j < n,
    ;
    assert(0 <= n * j) by (nonlinear_arith)
        requires
            0 <= j,
            0 <= n,
    ;
}

/// Two pairs of indices share their place only if they are the same pair.
pub proof fn lemma_offset_injective(n: nat, i1: int, j1: int, i2: int, j2: int)
    requires
        0 <= i1 < n,
        0 <= j1 < n,
        0 <= i2 < n,
        0 <= j2 < n,
        offset_of(n, i1, j1) == offset_of(n, i2, j2),
    ensures
        i1 == i2,
        j1 == j2,
{
    assert(j1 == j2) by (nonlinear_arith)
        requires
            0 <= i1 < n,
            0 <= i2 < n,
            n * j1 + i1 == n * j2 + i2,
    ;
}

/// A buffer of `count` copies of `value`.
fn filled<T: Copy>(count: usize, value: T) -> (data: Vec<T>)
    ensures
        data@ == Seq::new(count as nat, |k: int| value),
{
    let mut data: Vec<T> = Vec::new();
    let mut k: usize = 0;
    while k < count
        invariant
            k <= count,
            data@ == Seq::new(k as nat, |a: int| value),
        decreases count - k,
    {
        data.push(value);
        k += 1;
    }
    data
}

/// A square matrix that owns its entries.
pub struct SquareMatrix<T> {
    data: Vec<T>,
    n_items: usize,
}

impl<T: Copy> SquareMatrix<T> {
    /// The entries, column after column.
    pub closed spec fn entries(&self) -> Seq<T> {
        self.data@
    }

    /// The number of rows, which is the number of columns.
    pub closed spec fn order(&self) -> nat {
        self.n_items as nat
    }

    /// The buffer holds one entry for each pair of indices.
    pub open spec fn wf(&self) -> bool {
        self.entries().len() == self.order() * self.order()
    }

    /// Entry `(i, j)`.
    pub open spec fn entry(&self, i: int, j: int) -> T {
        self.entries()[offset_of(self.order(), i, j)]
    }

    /// The matrix whose every entry is `zero`.
    pub fn zeros(n_items: usize, zero: T) -> (m: Self)
        requires
            n_items * n_items <= usize::MAX,
        ensures
            m.wf(),
            m.order() == n_items,
            m.entries() == Seq::new((n_items * n_items) as nat, |k: int| zero),
    {
        SquareMatrix { data: filled(n_items * n_items, zero), n_items }
    }

    /// The matrix whose every entry is `one`.
    pub fn ones(n_items: usize, one: T) -> (m: Self)
        requires
            n_items * n_items <= usize::MAX,
        ensures
            m.wf(),
            m.order() == n_items,
            m.entries() == Seq::new((n_items * n_items) as nat, |k: int| one),
    {
        SquareMatrix { data: filled(n_items * n_items, one), n_items }
    }

    /// The matrix with `one` on the diagonal and `zero` elsewhere.
    pub fn identity(n_items: usize, zero: T, one: T) -> (m: Self)
        requires
            n_items * n_items <= usize::MAX,
        ensures
            m.wf(),
            m.order() == n_items,
            forall|i: int, j: int|
                0 <= i < n_items && 0 <= j < n_items ==> #[trigger] m.entry(i, j) == if i == j {
                    one
                } else {
                    zero
                },
    {
        let mut data = filled(n_items * n_items, zero);
        proof {
            assert forall|i: int, j: int| 0 <= i < n_items && 0 <= j < n_items implies (
            #[trigger] data@[offset_of(n_items as nat, i, j)]) == zero by {
                lemma_offset_in_range(n_items as nat, i, j);
            }
        }
        let mut d: usize = 0;
        while d < n_items
            invariant
                d <= n_items,
                n_items * n_items <= usize::MAX,
                data@.len() == n_items * n_items,
                forall|i: int, j: int|
                    0 <= i < n_items && 0 <= j < n_items ==> #[trigger] data@[offset_of(
                        n_items as nat,
                        i,
                        j,
                    )] == if i == j && i < d {
                        one
                    } else {
                        zero
                    },
            decreases n_items - d,
        {
            proof {
                lemma_offset_in_range(n_items as nat, d as int, d as int);
            }
            let ghost before = data@;
            data[n_items * d + d] = one;
            proof {
                assert forall|i: int, j: int| 0 <= i < n_items && 0 <= j < n_items implies (
                #[trigger] data@[offset_of(n_items as nat, i, j)]) == if i == j && i < d + 1 {
                    one
                } else {
                    zero
                } by {
                    lemma_offset_in_range(n_items as nat, i, j);
                    if offset_of(n_items as nat, i, j) == offset_of(
                        n_items as nat,
                        d as int,
                        d as int,
                    ) {
                        lemma_offset_injective(n_items as nat, i, j, d as int, d as int);
                    } else {
                        assert(data@[offset_of(n_items as nat, i, j)] == before[offset_of(
                            n_items as nat,
                            i,
                            j,
                        )]);
                    }
                }
            }
            d += 1;
        }
        SquareMatrix { data, n_items }
    }

    /// The entries, column after column.
    pub fn data(&self) -> (data: &[T])
        ensures
            data@ == self.entries(),
    {
        self.data.as_slice()
    }

    /// A read-only view of the matrix.
    pub fn view(&self) -> (v: SquareMatrixBorrower<'_, T>)
        requires
            self.wf(),
        ensures
            v.wf(),
            v.entries() == self.entries(),
            v.order() == self.order(),
    {
        SquareMatrixBorrower { data: self.data.as_slice(), n_items: self.n_items }
    }

    /// The number of rows, which is the number of columns.
    pub fn n_items(&self) -> (n: usize)
        ensures
            n == self.order(),
    {
        self.n_items
    }
}

/// A square matrix over entries that someone else owns.
#[derive(Clone, Copy)]
pub struct SquareMatrixBorrower<'a, T> {
    data: &'a [T],
    n_items: usize,
}

impl<'a, T: Copy> SquareMatrixBorrower<'a, T> {
    /// The entries, column after column.
    pub closed spec fn entries(&self) -> Seq<T> {
        self.data@
    }

    /// The number of rows, which is the number of columns.
    pub closed spec fn order(&self) -> nat {
        self.n_items as nat
    }

    /// The buffer holds one entry for each pair of indices.
    pub open spec fn wf(&self) -> bool {
        self.entries().len() == self.order() * self.order()
    }

    /// Entry `(i, j)`.
    pub open spec fn entry(&self, i: int, j: int) -> T {
        self.entries()[offset_of(self.order(), i, j)]
    }

    /// The `n_items` by `n_items` matrix laid out in `data`, if `data` has
    /// exactly that many entries.
    pub fn from_slice(data: &'a [T], n_items: usize) -> (r: Option<Self>)
        ensures
            r is Some <==> data@.len() == n_items * n_items,
            r matches Some(m) ==> m.wf() && m.entries() == data@ && m.order() == n_items,
    {
        let len = data.len();
        match n_items.checked_mul(n_items) {
            Some(size) => {
                if len == size {
                    Some(SquareMatrixBorrower { data, n_items })
                } else {
                    None
                }
            },
            None => None,
        }
    }

    /// The number of rows, which is the number of columns.
    pub fn n_items(&self) -> (n: usize)
        ensures
            n == self.order(),
    {
        self.n_items
    }

    /// The entries, column after column.
    pub fn data(&self) -> (data: &'a [T])
        ensures
            data@ == self.entries(),
    {
        self.data
    }

    /// Entry `(i, j)`.
    pub fn get(&self, i: usize, j: usize) -> (value: T)
        requires
            self.wf(),
            i < self.order(),
            j < self.order(),
        ensures
            value == self.entry(i as int, j as int),
    {
        let len = self.data.len();
        proof {
            lemma_offset_in_range(self.order(), i as int, j as int);
            assert(0 <= self.n_items * j + i < len);
        }
        self.data[self.n_items * j + i]
    }

    /// The entries of row `row` in the columns that `columns` names, in
    /// that order: what a sum over a subset of a row adds up. There is no
    /// such list when the row or one of the columns is outside the matrix.
    pub fn row_subset(&self, row: usize, columns: &[usize]) -> (r: Option<Vec<T>>)
        requires
            self.wf(),
        ensures
            r is Some <==> row < self.order() && forall|k: int|
                0 <= k < columns@.len() ==> (#[trigger] columns@[k]) < self.order(),
            r matches Some(entries) ==> entries@ == Seq::new(
                columns@.len(),
                |k: int| self.entry(row as int, columns@[k] as int),
            ),
    {
        if row >= self.n_items {
            return None;
        }
        let mut entries: Vec<T> = Vec::new();
        let mut k: usize = 0;
        while k < columns.len()
            invariant
                self.wf(),
                row < self.order(),
                k <= columns@.len(),
                forall|a: int| 0 <= a < k ==> (#[trigger] columns@[a]) < self.order(),
                entries@ == Seq::new(
                    k as nat,
                    |a: int| self.entry(row as int, columns@[a] as int),
                ),
            decreases columns@.len() - k,
        {
            let column = columns[k];
            if column >= self.n_items {
                return None;
            }
            entries.push(self.get(row, column));
            proof {
                assert(entries@ =~= Seq::new(
                    (k + 1) as nat,
                    |a: int| self.entry(row as int, columns@[a] as int),
                ));
            }
            k += 1;
        }
        Some(entries)
    }
}

} // verus!
