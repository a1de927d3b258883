//! Indexing of a condensed symmetric matrix: the strictly upper triangle of an
//! `n x n` matrix stored row by row in one flat sequence.

use vstd::prelude::*;

verus! {

/// Number of unordered pairs of distinct indices below `n`, which is the
/// length of the condensed matrix.
pub open spec fn pair_count(n: int) -> int {
    n * (n - 1) / 2
}

/// Linear offset of the pair `(i, j)`, `i < j`, in the condensed matrix.
pub open spec fn pair_offset(n: int, i: int, j: int) -> int {
    i * (2 * n - i - 1) / 2 + (j - i - 1)
}

/// The pair whose offset is `k`.
pub open spec fn pair_at(n: int, k: int) -> (int, int) {
    choose|p: (int, int)| 0 <= p.0 < p.1 < n && pair_offset(n, p.0, p.1) == k
}

/// Offset at which row `i` starts: row `r` holds the `n - 1 - r` pairs
/// `(r, r + 1) .. (r, n - 1)`.
pub open spec fn row_start(n: int, i: int) -> int
    decreases i,
{
    if i <= 0 {
        0
    } else {
        row_start(n, i - 1) + (n - i)
    }
}

/// Twice the start of row `i` is `i(2n - i - 1)`.
pub proof fn lemma_row_start_closed(n: int, i: int)
    requires
        0 <= i,
    ensures
        2 * row_start(n, i) == i * (2 * n - i - 1),
    decreases i,
{
    if i > 0 {
        lemma_row_start_closed(n, i - 1);
        assert(i * (2 * n - i - 1) == (i - 1) * (2 * n - (i - 1) - 1) + 2 * (n - i))
            by (nonlinear_arith);
        assert(row_start(n, i) == row_start(n, i - 1) + (n - i));
    } else {
        assert(i * (2 * n - i - 1) == 0) by (nonlinear_arith)
            requires
                i == 0,
        ;
    }
}

/// The closed-form offset is the start of row `i` plus the position in it.
pub proof fn lemma_pair_offset_row(n: int, i: int, j: int)
    requires
        0 <= i,
    ensures
        pair_offset(n, i, j) == row_start(n, i) + (j - i - 1),
{
    lemma_row_start_closed(n, i);
}

/// Rows start in increasing order.
pub proof fn lemma_row_start_mono(n: int, i: int, l: int)
    requires
        0 <= i <= l <= n,
    ensures
        row_start(n, i) <= row_start(n, l),
    decreases l - i,
{
    if i < l {
        lemma_row_start_mono(n, i, l - 1);
    }
}

/// The condensed matrix ends where row `n` would start.
pub proof fn lemma_pair_count_rows(n: int)
    requires
        0 <= n,
    ensures
        pair_count(n) == row_start(n, n),
{
    lemma_row_start_closed(n, n);
    assert(n * (2 * n - n - 1) == n * (n - 1)) by (nonlinear_arith);
}

/// Every pair `i < j < n` lies inside the condensed matrix.
pub proof fn lemma_pair_offset_bounds(n: int, i: int, j: int)
    requires
        0 <= i < j < n,
    ensures
        row_start(n, i) <= pair_offset(n, i, j) < row_start(n, i + 1),
        0 <= pair_offset(n, i, j) < pair_count(n),
{
    lemma_pair_offset_row(n, i, j);
    lemma_row_start_mono(n, 0, i);
    lemma_row_start_mono(n, i + 1, n);
    lemma_pair_count_rows(n);
}

proof fn lemma_pair_offset_injective(n: int, i1: int, j1: int, i2: int, j2: int)
    requires
        0 <= i1 < j1 < n,
        0 <= i2 < j2 < n,
        pair_offset(n, i1, j1) == pair_offset(n, i2, j2),
    ensures
        i1 == i2 && j1 == j2,
{
    lemma_pair_offset_bounds(n, i1, j1);
    lemma_pair_offset_bounds(n, i2, j2);
    if i1 < i2 {
        lemma_row_start_mono(n, i1 + 1, i2);
    } else if i2 < i1 {
        lemma_row_start_mono(n, i2 + 1, i1);
    } else {
        lemma_pair_offset_row(n, i1, j1);
        lemma_pair_offset_row(n, i2, j2);
    }
}

proof fn lemma_pair_offset_onto(n: int, i: int, k: int)
    requires
        0 <= i < n,
        row_start(n, i) <= k < pair_count(n),
    ensures
        exists|a: int, b: int| 0 <= a < b < n && pair_offset(n, a, b) == k,
    decreases n - i,
{
    lemma_pair_count_rows(n);
    if k < row_start(n, i + 1) {
        let j = k - row_start(n, i) + i + 1;
        lemma_pair_offset_row(n, i, j);
        assert(0 <= i < j < n && pair_offset(n, i, j) == k);
    } else {
        if i + 1 == n {
            assert(row_start(n, n) == row_start(n, n - 1));
        }
        lemma_pair_offset_onto(n, i + 1, k);
    }
}

/// The offset formula is a bijection from the pairs `0 <= i < j < n` onto
/// `[0, n(n-1)/2)`: each pair lands inside the range, no two pairs share an
/// offset, every offset belongs to a pair, and decoding an offset gives back
/// the pair it came from.
pub proof fn lemma_condensed_index_bijection(n: int)
    requires
        n >= 2,
    ensures
        forall|i: int, j: int|
            0 <= i < j < n ==> 0 <= #[trigger] pair_offset(n, i, j) < pair_count(n),
        forall|i1: int, j1: int, i2: int, j2: int|
            0 <= i1 < j1 < n && 0 <= i2 < j2 < n && #[trigger] pair_offset(n, i1, j1)
                == #[trigger] pair_offset(n, i2, j2) ==> i1 == i2 && j1 == j2,
        forall|k: int|
            0 <= k < pair_count(n) ==> {
                let p = #[trigger] pair_at(n, k);
                0 <= p.0 < p.1 < n && pair_offset(n, p.0, p.1) == k
            },
        forall|i: int, j: int| 0 <= i < j < n ==> #[trigger] pair_at(n, pair_offset(n, i, j)) == (i, j),
{
    assert forall|i: int, j: int| 0 <= i < j < n implies 0 <= #[trigger] pair_offset(n, i, j)
        < pair_count(n) by {
        lemma_pair_offset_bounds(n, i, j);
    }
    assert forall|i1: int, j1: int, i2: int, j2: int|
        0 <= i1 < j1 < n && 0 <= i2 < j2 < n && #[trigger] pair_offset(n, i1, j1)
            == #[trigger] pair_offset(n, i2, j2) implies i1 == i2 && j1 == j2 by {
        lemma_pair_offset_injective(n, i1, j1, i2, j2);
    }
    assert forall|k: int| 0 <= k < pair_count(n) implies {
        let p = #[trigger] pair_at(n, k);
        0 <= p.0 < p.1 < n && pair_offset(n, p.0, p.1) == k
    } by {
        lemma_pair_offset_onto(n, 0, k);
        let (a, b) = choose|a: int, b: int| 0 <= a < b < n && pair_offset(n, a, b) == k;
        assert(0 <= (a, b).0 < (a, b).1 < n && pair_offset(n, (a, b).0, (a, b).1) == k);
    }
    assert forall|i: int, j: int| 0 <= i < j < n implies #[trigger] pair_at(
        n,
        pair_offset(n, i, j),
    ) == (i, j) by {
        let k = pair_offset(n, i, j);
        assert(0 <= i < j < n && pair_offset(n, (i, j).0, (i, j).1) == k);
        let p = pair_at(n, k);
        lemma_pair_offset_injective(n, i, j, p.0, p.1);
    }
}

} // verus!
