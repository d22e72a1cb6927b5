//! Sums of an integer weight over finite sets of transaction identifiers.
//!
//! The ledger's balance invariants speak of sums of deposit amounts over
//! sets of transaction ids (all accepted deposits of a client, the deposits
//! under a pending dispute, and so on). This module defines that sum and
//! proves the small algebra the invariant proofs need: how a sum changes
//! under insertion and removal, that a sum of non-negative weights is
//! non-negative and bounds each member, and that every set of `u32` ids is
//! small enough to bound the sum numerically.

use vstd::prelude::*;

verus! {

use vstd::set::fold::{lemma_fold_empty, lemma_fold_insert, is_fun_commutative};
use vstd::set_lib::lemma_len_subset;

/// The sum of `w(t)` over all elements `t` of the set `s`.
pub open spec fn sum_over(s: Set<u32>, w: spec_fn(u32) -> int) -> int {
    s.fold(0, |acc: int, t: u32| acc + w(t))
}

/// Adding weights is commutative, so the fold underlying `sum_over` is
/// independent of the order in which elements are taken.
proof fn lemma_sum_fun_commutative(w: spec_fn(u32) -> int)
    ensures
        is_fun_commutative(|acc: int, t: u32| acc + w(t)),
{
}

/// The sum over the empty set is zero.
pub proof fn lemma_sum_empty(w: spec_fn(u32) -> int)
    ensures
        sum_over(Set::empty(), w) == 0,
{
    lemma_fold_empty(0int, |acc: int, t: u32| acc + w(t));
}

/// Inserting a fresh element adds its weight to the sum.
pub proof fn lemma_sum_insert(s: Set<u32>, w: spec_fn(u32) -> int, t: u32)
    requires
        s.finite(),
        !s.contains(t),
    ensures
        sum_over(s.insert(t), w) == sum_over(s, w) + w(t),
{
    lemma_sum_fun_commutative(w);
    lemma_fold_insert(s, 0int, |acc: int, t: u32| acc + w(t), t);
}

/// Removing a member subtracts its weight from the sum.
pub proof fn lemma_sum_remove(s: Set<u32>, w: spec_fn(u32) -> int, t: u32)
    requires
        s.finite(),
        s.contains(t),
    ensures
        sum_over(s.remove(t), w) == sum_over(s, w) - w(t),
{
    let s0 = s.remove(t);
    lemma_sum_insert(s0, w, t);
    assert(s0.insert(t) =~= s);
}

/// Two weight functions that agree on every member of a set give it the
/// same sum.
pub proof fn lemma_sum_congruence(s: Set<u32>, w1: spec_fn(u32) -> int, w2: spec_fn(u32) -> int)
    requires
        s.finite(),
        forall|t: u32| s.contains(t) ==> #[trigger] w1(t) == w2(t),
    ensures
        sum_over(s, w1) == sum_over(s, w2),
    decreases s.len(),
{
    if s.len() == 0 {
        assert(s =~= Set::empty());
        lemma_sum_empty(w1);
        lemma_sum_empty(w2);
    } else {
        let t = s.choose();
        assert(s.contains(t));
        lemma_sum_congruence(s.remove(t), w1, w2);
        lemma_sum_remove(s, w1, t);
        lemma_sum_remove(s, w2, t);
    }
}

/// A sum of weights that are non-negative on the set is non-negative.
pub proof fn lemma_sum_nonneg(s: Set<u32>, w: spec_fn(u32) -> int)
    requires
        s.finite(),
        forall|t: u32| s.contains(t) ==> #[trigger] w(t) >= 0,
    ensures
        sum_over(s, w) >= 0,
    decreases s.len(),
{
    if s.len() == 0 {
        assert(s =~= Set::empty());
        lemma_sum_empty(w);
    } else {
        let t = s.choose();
        assert(s.contains(t));
        lemma_sum_nonneg(s.remove(t), w);
        lemma_sum_remove(s, w, t);
    }
}

/// A sum of weights bounded by `b` is bounded by `b` per element.
pub proof fn lemma_sum_le(s: Set<u32>, w: spec_fn(u32) -> int, b: int)
    requires
        s.finite(),
        b >= 0,
        forall|t: u32| s.contains(t) ==> 0 <= #[trigger] w(t) <= b,
    ensures
        sum_over(s, w) <= s.len() * b,
    decreases s.len(),
{
    if s.len() == 0 {
        assert(s =~= Set::empty());
        lemma_sum_empty(w);
    } else {
        let t = s.choose();
        assert(s.contains(t));
        lemma_sum_le(s.remove(t), w, b);
        lemma_sum_remove(s, w, t);
        assert(s.remove(t).len() * b == s.len() * b - b) by (nonlinear_arith)
            requires s.remove(t).len() == s.len() - 1;
    }
}

/// There are no more than 2^32 distinct `u32` transaction ids, so every
/// finite set of them has at most that many elements.
pub proof fn lemma_u32_set_card(s: Set<u32>)
    requires
        s.finite(),
    ensures
        s.len() <= 0x1_0000_0000,
{
    let full = Set::<u32>::full();
    <u32 as vstd::set_lib::FiniteFull>::full_properties();
    assert(full =~= Set::<u32>::range_inclusive(0u32, u32::MAX));
    <u32 as vstd::set_lib::FiniteRange>::range_properties(0u32, u32::MAX);
    let rs = <u32 as vstd::set_lib::FiniteRange>::range_set(0u32, u32::MAX);
    assert(rs.len() == 0xffff_ffff);
    assert(!rs.contains(u32::MAX));
    assert(full.len() <= 0x1_0000_0000);
    assert(s.subset_of(full));
    lemma_len_subset(s, full);
}

/// A sum over a finite set of `u32` ids with weights in `[0, b]` is bounded
/// by `2^32 * b`.
pub proof fn lemma_sum_bound(s: Set<u32>, w: spec_fn(u32) -> int, b: int)
    requires
        s.finite(),
        b >= 0,
        forall|t: u32| s.contains(t) ==> 0 <= #[trigger] w(t) <= b,
    ensures
        0 <= sum_over(s, w) <= 0x1_0000_0000 * b,
{
    lemma_sum_nonneg(s, w);
    lemma_sum_le(s, w, b);
    lemma_u32_set_card(s);
    assert(s.len() * b <= 0x1_0000_0000 * b) by (nonlinear_arith)
        requires s.len() <= 0x1_0000_0000, b >= 0;
}

} // verus!
