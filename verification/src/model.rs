//! The mathematical model of a key-value map with arithmetic: operations on
//! `Map<Seq<char>, int>`, and the algebraic laws they obey.

use vstd::prelude::*;

verus! {

/// The value of `m` at `k`, with absent keys reading as zero. Binary map
/// operations treat a key missing from one operand as carrying this value.
pub open spec fn val_or_zero(m: Map<Seq<char>, int>, k: Seq<char>) -> int {
    if m.dom().contains(k) {
        m[k]
    } else {
        0
    }
}

/// Elementwise sum of two maps with union-of-keys semantics: the result holds
/// every key of either operand, and a key missing from one operand counts as
/// zero there.
pub open spec fn map_plus(a: Map<Seq<char>, int>, b: Map<Seq<char>, int>) -> Map<Seq<char>, int> {
    Map::new(
        |k: Seq<char>| a.dom().contains(k) || b.dom().contains(k),
        |k: Seq<char>| val_or_zero(a, k) + val_or_zero(b, k),
    )
}

/// Elementwise difference of two maps with union-of-keys semantics: a key
/// present only in `b` appears negated in the result.
pub open spec fn map_minus(a: Map<Seq<char>, int>, b: Map<Seq<char>, int>) -> Map<Seq<char>, int> {
    Map::new(
        |k: Seq<char>| a.dom().contains(k) || b.dom().contains(k),
        |k: Seq<char>| val_or_zero(a, k) - val_or_zero(b, k),
    )
}

/// Every value raised by the scalar `s`; the key set is unchanged.
pub open spec fn map_plus_scalar(m: Map<Seq<char>, int>, s: int) -> Map<Seq<char>, int> {
    Map::new(|k: Seq<char>| m.dom().contains(k), |k: Seq<char>| m[k] + s)
}

/// Every value lowered by the scalar `s`; the key set is unchanged.
pub open spec fn map_minus_scalar(m: Map<Seq<char>, int>, s: int) -> Map<Seq<char>, int> {
    Map::new(|k: Seq<char>| m.dom().contains(k), |k: Seq<char>| m[k] - s)
}

/// Every value scaled by the scalar `s`; the key set is unchanged.
pub open spec fn map_times_scalar(m: Map<Seq<char>, int>, s: int) -> Map<Seq<char>, int> {
    Map::new(|k: Seq<char>| m.dom().contains(k), |k: Seq<char>| m[k] * s)
}

/// The map without its zero-valued entries: exactly the keys whose value is
/// non-zero remain, each with its value unchanged.
pub open spec fn pruned(m: Map<Seq<char>, int>) -> Map<Seq<char>, int> {
    Map::new(|k: Seq<char>| m.dom().contains(k) && m[k] != 0, |k: Seq<char>| m[k])
}

/// Pruning is idempotent: a map already free of zero-valued entries is left
/// as it is.
pub proof fn lemma_pruned_idempotent(m: Map<Seq<char>, int>)
    ensures
        pruned(pruned(m)) == pruned(m),
{
    assert(pruned(pruned(m)) =~= pruned(m));
}

/// Adding a scalar and then subtracting it restores the original map.
pub proof fn lemma_scalar_round_trip(m: Map<Seq<char>, int>, s: int)
    ensures
        map_minus_scalar(map_plus_scalar(m, s), s) == m,
{
    assert(map_minus_scalar(map_plus_scalar(m, s), s) =~= m);
}

/// Map addition is commutative.
pub proof fn lemma_plus_commutative(a: Map<Seq<char>, int>, b: Map<Seq<char>, int>)
    ensures
        map_plus(a, b) == map_plus(b, a),
{
    assert(map_plus(a, b) =~= map_plus(b, a));
}

/// Adding a map and then subtracting it restores the original, provided every
/// key of the added map was already present: a key introduced by `b` alone
/// would otherwise survive the subtraction with value zero.
pub proof fn lemma_plus_minus_cancel(a: Map<Seq<char>, int>, b: Map<Seq<char>, int>)
    requires
        b.dom().subset_of(a.dom()),
    ensures
        map_minus(map_plus(a, b), b) == a,
{
    assert(map_minus(map_plus(a, b), b) =~= a);
}

/// Multiplying every value by one leaves the map unchanged.
pub proof fn lemma_times_one_identity(m: Map<Seq<char>, int>)
    ensures
        map_times_scalar(m, 1) == m,
{
    assert(map_times_scalar(m, 1) =~= m);
}

} // verus!
