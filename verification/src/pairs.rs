//! Unordered pairs of indices below a bound, listed in lexicographic order.
//!
//! A merge of the coalescent picks one of the `k * (k - 1) / 2` pairs of blocks by
//! its position in that list. This module says which pair stands at which
//! position, and proves that positions and pairs correspond one to one.

use itertools::Itertools;
use vstd::prelude::*;

verus! {

/// Number of pairs `(i, j)` with `i < j < k`.
pub open spec fn pair_count(k: nat) -> nat {
    (k * (k - 1) / 2) as nat
}

/// The pair at position `d` of the lexicographic list of the pairs `(i, j)` with
/// `i < j < k`: the `k - 1` pairs that start with `0` come first, then the pairs
/// of `1, .., k - 1` in the same order.
pub open spec fn nth_pair(k: nat, d: nat) -> (nat, nat)
    decreases k,
{
    if k < 2 || d < k - 1 {
        (0, d + 1)
    } else {
        let rest = nth_pair((k - 1) as nat, (d - (k - 1)) as nat);
        (rest.0 + 1, rest.1 + 1)
    }
}

/// Position of the pair `(i, j)` in the lexicographic list of the pairs below `k`:
/// the number of pairs that come before it.
pub open spec fn pair_rank(k: nat, i: nat, j: nat) -> nat
    decreases i,
{
    if i == 0 {
        (j - 1) as nat
    } else {
        (k - 1) as nat + pair_rank((k - 1) as nat, (i - 1) as nat, (j - 1) as nat)
    }
}

/// `(a, b)` comes strictly before `(c, d)` in lexicographic order.
pub open spec fn lex_before(p: (nat, nat), q: (nat, nat)) -> bool {
    p.0 < q.0 || (p.0 == q.0 && p.1 < q.1)
}

/// Adding one index adds as many pairs as there were indices.
pub proof fn lemma_pair_count_step(k: nat)
    requires
        k >= 1,
    ensures
        pair_count(k) == pair_count((k - 1) as nat) + (k - 1),
{
    let m = (k - 1) as int;
    assert((m + 1) * m == m * (m - 1) + 2 * m) by (nonlinear_arith);
    assert(m * (m - 1) >= 0) by (nonlinear_arith)
        requires
            m >= 0,
    ;
}

/// The number of pairs grows with the number of indices.
pub proof fn lemma_pair_count_monotonic(a: nat, b: nat)
    requires
        a <= b,
    ensures
        pair_count(a) <= pair_count(b),
    decreases b,
{
    if a < b {
        lemma_pair_count_step(b);
        lemma_pair_count_monotonic(a, (b - 1) as nat);
    }
}

/// Every position below the pair count holds a pair of two distinct indices
/// below `k`, the smaller one first.
pub proof fn lemma_nth_pair_valid(k: nat, d: nat)
    requires
        d < pair_count(k),
    ensures
        nth_pair(k, d).0 < nth_pair(k, d).1 < k,
    decreases k,
{
    if k < 2 {
        assert(k * (k - 1) == 0) by (nonlinear_arith)
            requires
                k == 0 || k == 1,
        ;
    } else if d >= k - 1 {
        lemma_pair_count_step(k);
        lemma_nth_pair_valid((k - 1) as nat, (d - (k - 1)) as nat);
    }
}

/// The position of a pair is below the pair count, and the pair stands there.
pub proof fn lemma_pair_rank_inverts(k: nat, i: nat, j: nat)
    requires
        i < j < k,
    ensures
        pair_rank(k, i, j) < pair_count(k),
        nth_pair(k, pair_rank(k, i, j)) == (i, j),
    decreases i,
{
    lemma_pair_count_step(k);
    if i > 0 {
        lemma_pair_rank_inverts((k - 1) as nat, (i - 1) as nat, (j - 1) as nat);
    }
}

/// The pair at a position has that position.
pub proof fn lemma_nth_pair_rank(k: nat, d: nat)
    requires
        d < pair_count(k),
    ensures
        pair_rank(k, nth_pair(k, d).0, nth_pair(k, d).1) == d,
    decreases k,
{
    if k < 2 {
        assert(k * (k - 1) == 0) by (nonlinear_arith)
            requires
                k == 0 || k == 1,
        ;
    } else if d >= k - 1 {
        lemma_pair_count_step(k);
        lemma_nth_pair_rank((k - 1) as nat, (d - (k - 1)) as nat);
    }
}

/// Later positions hold lexicographically later pairs.
pub proof fn lemma_nth_pair_increasing(k: nat, d: nat, e: nat)
    requires
        d < e < pair_count(k),
    ensures
        lex_before(nth_pair(k, d), nth_pair(k, e)),
    decreases k,
{
    if k < 2 {
        assert(k * (k - 1) == 0) by (nonlinear_arith)
            requires
                k == 0 || k == 1,
        ;
    } else if d >= k - 1 {
        lemma_pair_count_step(k);
        lemma_nth_pair_increasing((k - 1) as nat, (d - (k - 1)) as nat, (e - (k - 1)) as nat);
    }
}

/// Positions and pairs correspond one to one: two positions with the same pair
/// are equal, and every pair of distinct indices below `k` stands at a position
/// below the pair count. A position drawn uniformly therefore picks every pair
/// with the same probability.
pub proof fn lemma_positions_match_pairs(k: nat)
    ensures
        forall|d: nat, e: nat|
            d < pair_count(k) && e < pair_count(k) && #[trigger] nth_pair(k, d) == #[trigger] nth_pair(
                k,
                e,
            ) ==> d == e,
        forall|i: nat, j: nat|
            i < j < k ==> #[trigger] pair_rank(k, i, j) < pair_count(k) && nth_pair(
                k,
                pair_rank(k, i, j),
            ) == (i, j),
{
    assert forall|d: nat, e: nat|
        d < pair_count(k) && e < pair_count(k) && #[trigger] nth_pair(k, d) == #[trigger] nth_pair(
            k,
            e,
        ) implies d == e by {
        lemma_nth_pair_rank(k, d);
        lemma_nth_pair_rank(k, e);
    }
    assert forall|i: nat, j: nat| i < j < k implies #[trigger] pair_rank(k, i, j) < pair_count(k)
        && nth_pair(k, pair_rank(k, i, j)) == (i, j) by {
        lemma_pair_rank_inverts(k, i, j);
    }
}

/// The number of pairs below `k`, or `None` where it does not fit the machine word.
pub fn checked_pair_count(k: usize) -> (count: Option<usize>)
    ensures
        count == if pair_count(k as nat) <= usize::MAX {
            Some(pair_count(k as nat) as usize)
        } else {
            None::<usize>
        },
{
    if k == 0 {
        return Some(0);
    }
    let a: u128 = k as u128;
    let b: u128 = (k - 1) as u128;
    assert(a * b <= 0xffff_ffff_ffff_ffff * 0xffff_ffff_ffff_ffff) by (nonlinear_arith)
        requires
            0 <= a <= 0xffff_ffff_ffff_ffff,
            0 <= b <= 0xffff_ffff_ffff_ffff,
    ;
    let wide: u128 = a * b / 2;
    if wide <= usize::MAX as u128 {
        Some(wide as usize)
    } else {
        None
    }
}

/// The pair at position `index` of the list that itertools' `tuple_combinations`
/// makes of the range `0..k`, taken with the iterator's `nth`.
///
/// Trusted: the adaptor yields the pairs of the range's items in lexicographic
/// order, each pair once, so the item at `index` is `nth_pair(k, index)`. Below
/// the pair count `nth` finds an item, which is what `requires` asks for.
#[verifier::external_body]
pub(crate) fn pair_at(k: usize, index: usize) -> (pair: (usize, usize))
    requires
        index < pair_count(k as nat),
    ensures
        (pair.0 as nat, pair.1 as nat) == nth_pair(k as nat, index as nat),
{
    (0..k).tuple_combinations().nth(index).unwrap()
}

} // verus!
