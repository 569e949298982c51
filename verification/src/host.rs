//! What the embedding host sees: its opaque records, and labels in its
//! conventions (counted from one, matrices stored column by column).

use crate::clust::LabelType;
use crate::draws::Draws;
use vstd::prelude::*;

verus! {

/// The host's record behind every value it hands over. It has no size and
/// no readable content; it only gives handles of the host a type.
#[allow(non_camel_case_types)]
pub struct SEXPREC {
    _dummy: [u8; 0],
}

/// The host's record of a loaded library, as opaque as [`SEXPREC`].
pub struct DllInfo {
    _dummy: [u8; 0],
}

/// Where entry `(row, col)` of a matrix of `rows` rows lies in a buffer
/// that holds the matrix column after column.
pub open spec fn cell(rows: nat, row: int, col: int) -> int {
    col * rows + row
}

/// Every entry of a `rows` by `cols` matrix has a place in a buffer of
/// `rows * cols` entries.
pub proof fn lemma_cell_in_range(rows: nat, cols: nat, row: int, col: int)
    requires
        0 <= row < rows,
        0 <= col < cols,
    ensures
        0 <= cell(rows, row, col) < rows * cols,
        rows * cols == cols * rows,
        0 <= col * rows,
{
    assert(0 <= col * rows && col * rows + row < rows * cols && rows * cols == cols * rows)
        by (nonlinear_arith)
        requires
            0 <= row < rows,
            0 <= col < cols,
    ;
}

/// Two entries share their place only if they are the same entry.
pub proof fn lemma_cell_injective(rows: nat, row1: int, col1: int, row2: int, col2: int)
    requires
        0 <= row1 < rows,
        0 <= row2 < rows,
        cell(rows, row1, col1) == cell(rows, row2, col2),
    ensures
        row1 == row2,
        col1 == col2,
{
    assert(col1 == col2) by (nonlinear_arith)
        requires
            0 <= row1 < rows,
            0 <= row2 < rows,
            col1 * rows + row1 == col2 * rows + row2,
    ;
}

/// The draws as a matrix for the host: one row per draw, one column per
/// item, stored column after column, with every label raised by one.
pub fn label_matrix(draws: &Draws) -> (m: Vec<i32>)
    requires
        draws.wf(),
    ensures
        m@.len() == draws.counts().len() * draws.items(),
        forall|d: int, item: int|
            0 <= d < draws.counts().len() && 0 <= item < draws.items() ==> #[trigger] m@[cell(
                draws.counts().len(),
                d,
                item,
            )] == draws.draw(d)[item] + 1,
{
    let n_draws = draws.n_draws();
    let n_items = draws.n_items();
    let mut m: Vec<i32> = Vec::new();
    let mut item: usize = 0;
    while item < n_items
        invariant
            draws.wf(),
            n_draws == draws.counts().len(),
            n_items == draws.items(),
            item <= n_items,
            m@.len() == item * n_draws,
            forall|d: int, i: int|
                0 <= d < n_draws && 0 <= i < item ==> #[trigger] m@[cell(n_draws as nat, d, i)]
                    == draws.draw(d)[i] + 1,
        decreases n_items - item,
    {
        let mut d: usize = 0;
        while d < n_draws
            invariant
                draws.wf(),
                n_draws == draws.counts().len(),
                n_items == draws.items(),
                item < n_items,
                d <= n_draws,
                m@.len() == item * n_draws + d,
                forall|e: int, i: int|
                    0 <= e < n_draws && 0 <= i < item ==> #[trigger] m@[cell(n_draws as nat, e, i)]
                        == draws.draw(e)[i] + 1,
                forall|e: int|
                    0 <= e < d ==> #[trigger] m@[cell(n_draws as nat, e, item as int)]
                        == draws.draw(e)[item as int] + 1,
            decreases n_draws - d,
        {
            let ghost before = m@;
            let label: LabelType = draws.label(d, item);
            m.push(label as i32 + 1);
            proof {
                assert forall|e: int, i: int| 0 <= e < n_draws && 0 <= i < item implies (
                #[trigger] m@[cell(n_draws as nat, e, i)]) == draws.draw(e)[i] + 1 by {
                    lemma_cell_in_range(n_draws as nat, item as nat, e, i);
                    assert(m@[cell(n_draws as nat, e, i)] == before[cell(n_draws as nat, e, i)]);
                }
            }
            d += 1;
        }
        proof {
            assert(item * n_draws + n_draws == (item + 1) * n_draws) by (nonlinear_arith);
        }
        item += 1;
    }
    proof {
        assert(n_items * n_draws == n_draws * n_items) by (nonlinear_arith);
    }
    m
}

/// The labels as the host counts them: each raised by one. There is no
/// such vector when a label is too large for the host's integers.
pub fn one_based(labels: &[usize]) -> (r: Option<Vec<i32>>)
    ensures
        r is Some <==> forall|i: int| 0 <= i < labels@.len() ==> (#[trigger] labels@[i]) < i32::MAX,
        r matches Some(v) ==> v@.len() == labels@.len() && forall|i: int|
            0 <= i < labels@.len() ==> (#[trigger] v@[i]) == labels@[i] + 1,
{
    let n = labels.len();
    let mut v: Vec<i32> = Vec::new();
    let mut i: usize = 0;
    while i < n
        invariant
            i <= n,
            n == labels@.len(),
            v@.len() == i,
            forall|j: int| 0 <= j < i ==> (#[trigger] labels@[j]) < i32::MAX,
            forall|j: int| 0 <= j < i ==> (#[trigger] v@[j]) == labels@[j] + 1,
        decreases n - i,
    {
        let label = labels[i];
        if label >= i32::MAX as usize {
            return None;
        }
        v.push(label as i32 + 1);
        i += 1;
    }
    Some(v)
}

} // verus!
