//! Flat storage of matrices: entry `(i, j)` of a matrix with `n` columns is stored at `i * n + j`.

use vstd::arithmetic::div_mod::{
    lemma_div_pos_is_pos, lemma_fundamental_div_mod, lemma_mod_bound, lemma_multiply_divide_lt,
};
use vstd::prelude::*;

verus! {

/// Entry `(i, j)` of the matrix with `n` columns that is stored in `s`.
pub open spec fn at<T>(s: Seq<T>, n: int, i: int, j: int) -> T {
    s[i * n + j]
}

/// Row `i` of the matrix with `n` columns that is stored in `s`.
pub open spec fn row<T>(s: Seq<T>, n: int, i: int) -> Seq<T> {
    s.subrange(i * n, i * n + n)
}

/// An entry inside an `m` by `n` matrix is stored inside its `m * n` places.
pub proof fn lemma_flat_bound(m: int, n: int, i: int, j: int)
    requires
        0 <= i < m,
        0 <= j < n,
    ensures
        0 <= i * n,
        i * n + j < i * n + n <= m * n,
{
    assert(0 <= i * n) by (nonlinear_arith)
        requires
            0 <= i,
            0 <= n,
    ;
    assert(i * n + n <= m * n) by (nonlinear_arith)
        requires
            i + 1 <= m,
            0 <= n,
    ;
}

/// The rows of an `m` by `n` matrix lie inside its `m * n` places.
pub proof fn lemma_row_bound(m: int, n: int, i: int)
    requires
        0 <= i < m,
        0 <= n,
    ensures
        0 <= i * n,
        i * n <= i * n + n <= m * n,
{
    assert(0 <= i * n) by (nonlinear_arith)
        requires
            0 <= i,
            0 <= n,
    ;
    assert(i * n + n <= m * n) by (nonlinear_arith)
        requires
            i + 1 <= m,
            0 <= n,
    ;
}

/// Place `x` of an `m` by `n` matrix is in row `x / n` and column `x % n`.
pub proof fn lemma_place(m: int, n: int, x: int)
    requires
        0 <= x < m * n,
        0 <= n,
        0 <= m,
    ensures
        0 < n,
        0 <= x / n < m,
        0 <= x % n < n,
        x == (x / n) * n + x % n,
{
    assert(n > 0) by (nonlinear_arith)
        requires
            0 <= x < m * n,
            0 <= n,
    ;
    lemma_fundamental_div_mod(x, n);
    lemma_mod_bound(x, n);
    lemma_div_pos_is_pos(x, n);
    assert(m * n == n * m && n * (x / n) == (x / n) * n) by (nonlinear_arith);
    lemma_multiply_divide_lt(x, n, m);
}

/// Different entries are stored at different places.
pub proof fn lemma_flat_unique(n: int, i1: int, j1: int, i2: int, j2: int)
    requires
        0 <= j1 < n,
        0 <= j2 < n,
        i1 * n + j1 == i2 * n + j2,
    ensures
        i1 == i2,
        j1 == j2,
{
    if i1 < i2 {
        assert(i1 * n + n <= i2 * n) by (nonlinear_arith)
            requires
                i1 + 1 <= i2,
                0 <= n,
        ;
    }
    if i2 < i1 {
        assert(i2 * n + n <= i1 * n) by (nonlinear_arith)
            requires
                i2 + 1 <= i1,
                0 <= n,
        ;
    }
}

/// Storing to one entry leaves all the others as they are.
pub proof fn lemma_set_at<T>(s: Seq<T>, m: int, n: int, i: int, j: int, v: T)
    requires
        0 <= i < m,
        0 <= j < n,
        m * n <= s.len(),
    ensures
        0 <= i * n + j < s.len(),
        at(s.update(i * n + j, v), n, i, j) == v,
        forall|i2: int, j2: int|
            0 <= i2 < m && 0 <= j2 < n && (i2 != i || j2 != j) ==> #[trigger] at(
                s.update(i * n + j, v),
                n,
                i2,
                j2,
            ) == at(s, n, i2, j2),
{
    lemma_flat_bound(m, n, i, j);
    assert forall|i2: int, j2: int|
        0 <= i2 < m && 0 <= j2 < n && (i2 != i || j2 != j) implies #[trigger] at(
        s.update(i * n + j, v),
        n,
        i2,
        j2,
    ) == at(s, n, i2, j2) by {
        lemma_flat_bound(m, n, i2, j2);
        if i2 * n + j2 == i * n + j {
            lemma_flat_unique(n, i, j, i2, j2);
        }
    }
}

/// Two matrices with the same entries in a row have the same row.
pub proof fn lemma_same_row<T>(s1: Seq<T>, s2: Seq<T>, m: int, n: int, i: int)
    requires
        0 <= i < m,
        0 <= n,
        m * n <= s1.len(),
        m * n <= s2.len(),
        forall|j: int| 0 <= j < n ==> #[trigger] at(s1, n, i, j) == at(s2, n, i, j),
    ensures
        row(s1, n, i) == row(s2, n, i),
{
    lemma_row_bound(m, n, i);
    assert forall|j: int| 0 <= j < n implies row(s1, n, i)[j] == row(s2, n, i)[j] by {
        assert(at(s1, n, i, j) == at(s2, n, i, j));
    }
    assert(row(s1, n, i) =~= row(s2, n, i));
}

/// Stores `values` as row `i` of the `m` by `n` matrix that `data` holds.
pub fn set_row<T: Copy>(data: &mut Vec<T>, m: usize, n: usize, i: usize, values: &Vec<T>)
    requires
        i < m,
        m * n <= old(data)@.len(),
        values@.len() == n,
    ensures
        final(data)@.len() == old(data)@.len(),
        forall|k: int|
            m * n <= k < old(data)@.len() ==> #[trigger] final(data)@[k] == old(data)@[k],
        row(final(data)@, n as int, i as int) == values@,
        forall|k: int|
            0 <= k < m && k != i ==> #[trigger] row(final(data)@, n as int, k) == row(
                old(data)@,
                n as int,
                k,
            ),
{
    let size = data.len();
    let ghost d0 = data@;
    proof {
        lemma_row_bound(m as int, n as int, i as int);
    }
    for j in 0..n
        invariant
            i < m,
            size == d0.len(),
            m * n <= size,
            0 <= i * n,
            i * n + n <= m * n,
            forall|k: int| m * n <= k < size ==> #[trigger] data@[k] == d0[k],
            data@.len() == size,
            values@.len() == n,
            forall|c: int| 0 <= c < j ==> #[trigger] at(data@, n as int, i as int, c) == values@[c],
            forall|k: int, c: int|
                0 <= k < m && 0 <= c < n && k != i ==> #[trigger] at(data@, n as int, k, c) == at(
                    d0,
                    n as int,
                    k,
                    c,
                ),
    {
        proof {
            lemma_set_at(data@, m as int, n as int, i as int, j as int, values@[j as int]);
        }
        data.set(i * n + j, values[j]);
    }
    proof {
        assert forall|c: int|
            0 <= c < n implies row(data@, n as int, i as int)[c] == values@[c] by {
            assert(at(data@, n as int, i as int, c) == values@[c]);
        }
        assert(row(data@, n as int, i as int) =~= values@);
        assert forall|k: int|
            0 <= k < m && k != i implies #[trigger] row(data@, n as int, k) == row(
            d0,
            n as int,
            k,
        ) by {
            lemma_same_row(data@, d0, m as int, n as int, k);
        }
    }
}

} // verus!
