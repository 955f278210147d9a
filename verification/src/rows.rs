//! Row-major matrices: every stored vector flattened into one allocation, so a
//! full scan stays cache-friendly.

use vstd::prelude::*;

verus! {

/// Row `i` of a matrix with rows of length `dim`.
pub open spec fn row<T>(data: Seq<T>, dim: nat, i: int) -> Seq<T> {
    data.subrange(i * dim, (i + 1) * dim)
}

/// The first `n` rows of a matrix with rows of length `dim`.
pub open spec fn rows<T>(data: Seq<T>, dim: nat, n: nat) -> Seq<Seq<T>> {
    Seq::new(n, |i: int| row(data, dim, i))
}

/// A matrix of `n` rows of length `dim` holds each of them.
pub proof fn lemma_row_bounds(n: nat, dim: nat, i: int)
    requires
        0 <= i < n,
    ensures
        0 <= i * dim <= (i + 1) * dim <= n * dim,
        (i + 1) * dim - i * dim == dim,
{
    assert(0 <= i * dim) by (nonlinear_arith)
        requires
            0 <= i,
            0 <= dim,
    ;
    assert((i + 1) * dim == i * dim + dim) by (nonlinear_arith);
    assert((i + 1) * dim <= n * dim) by (nonlinear_arith)
        requires
            i + 1 <= n,
            0 <= dim,
    ;
}

/// Appending one row of values appends one row to the matrix.
pub proof fn lemma_push_row<T>(data: Seq<T>, dim: nat, n: nat, v: Seq<T>)
    requires
        data.len() == n * dim,
        v.len() == dim,
    ensures
        (data + v).len() == (n + 1) * dim,
        rows(data + v, dim, n + 1) == rows(data, dim, n).push(v),
{
    assert((n + 1) * dim == n * dim + dim) by (nonlinear_arith);
    assert forall|i: int| 0 <= i < n + 1 implies #[trigger] rows(data + v, dim, n + 1)[i] == rows(
        data,
        dim,
        n,
    ).push(v)[i] by {
        lemma_row_bounds(n + 1, dim, i);
        if i < n {
            lemma_row_bounds(n, dim, i);
            assert(row(data + v, dim, i) =~= row(data, dim, i));
        } else {
            assert(row(data + v, dim, i) =~= v);
        }
    }
    assert(rows(data + v, dim, n + 1) =~= rows(data, dim, n).push(v));
}

/// Row `i` of a matrix with rows of length `dim`.
pub fn row_of<T>(data: &Vec<T>, dim: usize, i: usize) -> (r: &[T])
    requires
        (i + 1) * dim <= data@.len(),
    ensures
        r@ == row(data@, dim as nat, i as int),
        r@.len() == dim,
{
    let all = data.as_slice();
    let ghost n = all.len();
    proof {
        lemma_row_bounds((i + 1) as nat, dim as nat, i as int);
    }
    let start: usize = i * dim;
    vstd::slice::slice_subrange(all, start, start + dim)
}

/// Row `i` of a matrix holds the components that stand from `i * dim` on.
pub proof fn law_rows_lie_one_after_the_other<T>(data: Seq<T>, dim: nat, n: nat, i: int, d: int)
    requires
        data.len() == n * dim,
        0 <= i < n,
        0 <= d < dim,
    ensures
        rows(data, dim, n).len() == n,
        rows(data, dim, n)[i] == row(data, dim, i),
        row(data, dim, i).len() == dim,
        row(data, dim, i)[d] == data[i * dim + d],
{
    lemma_row_bounds(n, dim, i);
}

} // verus!
