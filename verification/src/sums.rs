//! Sums of a function over all account identifiers, and over a list of them.

use vstd::prelude::*;

verus! {

/// The number of account identifiers: they are the integers below it.
pub open spec fn id_count() -> nat {
    0x1_0000_0000_0000_0000
}

/// The sum of `f` over the identifiers below `bound`.
pub open spec fn sum_to(f: spec_fn(u64) -> nat, bound: nat) -> nat
    decreases bound,
{
    if bound == 0 {
        0
    } else {
        sum_to(f, (bound - 1) as nat) + f((bound - 1) as u64)
    }
}

/// The sum of `f` over all identifiers.
pub open spec fn sum_all(f: spec_fn(u64) -> nat) -> nat {
    sum_to(f, id_count())
}

/// The sum of `f` over the first `n` identifiers of `keys`.
pub open spec fn key_sum(keys: Seq<u64>, f: spec_fn(u64) -> nat, n: int) -> nat
    decreases n,
{
    if n <= 0 {
        0
    } else {
        key_sum(keys, f, n - 1) + f(keys[n - 1])
    }
}

/// `f` with the value at `key` replaced by zero.
pub open spec fn without(f: spec_fn(u64) -> nat, key: u64) -> spec_fn(u64) -> nat {
    |k: u64|
        if k == key {
            0
        } else {
            f(k)
        }
}

/// Functions that agree below `bound` have the same sum below it.
pub proof fn lemma_sum_to_agree(f: spec_fn(u64) -> nat, g: spec_fn(u64) -> nat, bound: nat)
    requires
        bound <= id_count(),
        forall|k: u64| k < bound ==> #[trigger] f(k) == g(k),
    ensures
        sum_to(f, bound) == sum_to(g, bound),
    decreases bound,
{
    if bound > 0 {
        lemma_sum_to_agree(f, g, (bound - 1) as nat);
    }
}

/// A function that is zero below `bound` sums to zero there.
pub proof fn lemma_sum_to_zero(f: spec_fn(u64) -> nat, bound: nat)
    requires
        bound <= id_count(),
        forall|k: u64| k < bound ==> #[trigger] f(k) == 0,
    ensures
        sum_to(f, bound) == 0,
    decreases bound,
{
    if bound > 0 {
        lemma_sum_to_zero(f, (bound - 1) as nat);
    }
}

/// Taking one identifier out of a sum lowers it by the value there.
pub proof fn lemma_sum_to_without(f: spec_fn(u64) -> nat, key: u64, bound: nat)
    requires
        bound <= id_count(),
    ensures
        sum_to(f, bound) == sum_to(without(f, key), bound) + if key < bound {
            f(key)
        } else {
            0
        },
    decreases bound,
{
    if bound > 0 {
        lemma_sum_to_without(f, key, (bound - 1) as nat);
    }
}

/// The value at each identifier is at most the sum over all.
pub proof fn lemma_sum_all_at_least(f: spec_fn(u64) -> nat, key: u64)
    ensures
        f(key) <= sum_all(f),
{
    lemma_sum_to_without(f, key, id_count());
}

/// Functions that agree on the first `n` identifiers of `keys` have the same
/// sum over them.
pub proof fn lemma_key_sum_agree(
    keys: Seq<u64>,
    f: spec_fn(u64) -> nat,
    g: spec_fn(u64) -> nat,
    n: int,
)
    requires
        n <= keys.len(),
        forall|j: int| 0 <= j < n ==> f(#[trigger] keys[j]) == g(keys[j]),
    ensures
        key_sum(keys, f, n) == key_sum(keys, g, n),
    decreases n,
{
    if n > 0 {
        lemma_key_sum_agree(keys, f, g, n - 1);
    }
}

/// Where the first `n` identifiers of `keys` differ from each other and `f` is
/// zero at every other identifier, the sum of `f` over all identifiers is its
/// sum over those `n`.
pub proof fn lemma_sum_enumerated(keys: Seq<u64>, f: spec_fn(u64) -> nat, n: int)
    requires
        0 <= n <= keys.len(),
        forall|i: int, j: int| 0 <= i < j < n ==> keys[i] != keys[j],
        forall|k: u64| #[trigger] f(k) != 0 ==> exists|j: int| 0 <= j < n && keys[j] == k,
    ensures
        sum_all(f) == key_sum(keys, f, n),
    decreases n,
{
    if n == 0 {
        lemma_sum_to_zero(f, id_count());
    } else {
        let key = keys[n - 1];
        let g = without(f, key);
        assert forall|k: u64| #[trigger] g(k) != 0 implies exists|j: int| 0 <= j < n - 1 && keys[j] == k by {
            let j = choose|j: int| 0 <= j < n && keys[j] == k;
            assert(0 <= j < n - 1 && keys[j] == k);
        }
        lemma_sum_enumerated(keys, g, n - 1);
        lemma_key_sum_agree(keys, f, g, n - 1);
        lemma_sum_to_without(f, key, id_count());
    }
}

} // verus!
