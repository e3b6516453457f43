//! Facts about finite sets of indices used by the algorithms.
use vstd::prelude::*;

verus! {

/// The indices below `n`.
pub open spec fn below(n: nat) -> Set<usize> {
    Set::new(|p: usize| p < n)
}

/// The indices below `n` form a finite set of at most `n` elements.
pub proof fn lemma_below_finite(n: nat)
    ensures
        below(n).finite(),
        below(n).len() <= n,
    decreases n,
{
    if n == 0 {
        assert(below(n) =~= Set::<usize>::empty());
    } else {
        lemma_below_finite((n - 1) as nat);
        if n - 1 <= usize::MAX {
            assert(below(n) =~= below((n - 1) as nat).insert((n - 1) as usize));
        } else {
            assert(below(n) =~= below((n - 1) as nat));
        }
    }
}

/// A set of indices all below `n` is finite and has at most `n` elements.
pub proof fn lemma_bounded_set(s: Set<usize>, n: nat)
    requires
        forall|p: usize| #[trigger] s.contains(p) ==> p < n,
    ensures
        s.finite(),
        s.len() <= n,
{
    lemma_below_finite(n);
    assert(s.subset_of(below(n)));
    vstd::set_lib::lemma_len_subset(s, below(n));
}

} // verus!

verus! {

/// Numbering pairs `(i, j)` with `j < m` by `i * m + j` is one to one.
pub proof fn lemma_pair_index_injective(i1: int, j1: int, i2: int, j2: int, m: int)
    requires
        0 <= i1,
        0 <= i2,
        0 <= j1 < m,
        0 <= j2 < m,
        i1 * m + j1 == i2 * m + j2,
    ensures
        i1 == i2,
        j1 == j2,
{
    if i1 < i2 {
        assert(i1 * m + m <= i2 * m) by (nonlinear_arith)
            requires
                i1 < i2,
                0 <= m,
        ;
    } else if i2 < i1 {
        assert(i2 * m + m <= i1 * m) by (nonlinear_arith)
            requires
                i2 < i1,
                0 <= m,
        ;
    }
}

/// The number `i * m + j` of a pair with `i < n` and `j < m` lies below `n * m`.
pub proof fn lemma_pair_index_bound(i: int, j: int, n: int, m: int)
    requires
        0 <= i < n,
        0 <= j < m,
    ensures
        0 <= i * m + j < n * m,
        0 <= i * m,
{
    assert(i * m + m <= n * m) by (nonlinear_arith)
        requires
            i < n,
            0 <= m,
    ;
    assert(0 <= i * m) by (nonlinear_arith)
        requires
            0 <= i,
            0 <= m,
    ;
}

/// Every number below `n * m` is the number `i * m + j` of some pair.
pub proof fn lemma_pair_index_split(x: int, n: int, m: int)
    requires
        0 <= x < n * m,
        0 < m,
    ensures
        0 <= x / m < n,
        0 <= x % m < m,
        x == (x / m) * m + x % m,
{
    vstd::arithmetic::div_mod::lemma_fundamental_div_mod(x, m);
    assert(x == m * (x / m) + x % m);
    assert((x / m) * m == m * (x / m)) by (nonlinear_arith);
    if x / m >= n {
        assert((x / m) * m >= n * m) by (nonlinear_arith)
            requires
                x / m >= n,
                0 < m,
        ;
    }
    if x / m < 0 {
        assert((x / m) * m <= -m) by (nonlinear_arith)
            requires
                x / m < 0,
                0 < m,
        ;
    }
}

} // verus!

verus! {

/// A set of pairs of indices with first parts below `n` and second parts
/// below `m` is finite and has at most `n * m` elements.
pub proof fn lemma_bounded_pair_set(s: Set<(usize, usize)>, n: nat, m: nat)
    requires
        forall|x: (usize, usize)| #[trigger] s.contains(x) ==> x.0 < n && x.1 < m,
    ensures
        s.finite(),
        s.len() <= n * m,
    decreases n,
{
    if n == 0 {
        assert(s =~= Set::<(usize, usize)>::empty());
    } else {
        let k: nat = (n - 1) as nat;
        let lo = s.filter(|x: (usize, usize)| x.0 < k);
        let hi = s.filter(|x: (usize, usize)| x.0 == k);
        lemma_bounded_pair_set(lo, k, m);
        lemma_below_finite(m);
        let f = |j: usize| (k as usize, j);
        let row = below(m).map(f);
        vstd::set_lib::lemma_map_size_bound(below(m), row, f);
        assert forall|x: (usize, usize)| hi.contains(x) implies row.contains(x) by {
            assert(below(m).contains(x.1));
            assert(f(x.1) == x);
        }
        assert(hi.subset_of(row));
        vstd::set_lib::lemma_len_subset(hi, row);
        assert(s =~= lo.union(hi));
        vstd::set_lib::lemma_len_union(lo, hi);
        assert(k * m + m == n * m) by (nonlinear_arith)
            requires
                k + 1 == n,
        ;
    }
}

} // verus!
