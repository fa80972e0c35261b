//! Sorting by rank.

use vstd::prelude::*;
use vstd::seq_lib::to_multiset_update;

verus! {

/// A value with an integer rank. Values are put in the order of their ranks.
pub trait Ranked: Copy {
    /// The rank of the value.
    spec fn rank(self) -> int;

    /// Whether `self` ranks strictly below `other`.
    fn ranks_below(&self, other: &Self) -> (below: bool)
        ensures
            below == (self.rank() < other.rank()),
    ;
}

impl Ranked for u64 {
    open spec fn rank(self) -> int {
        self as int
    }

    fn ranks_below(&self, other: &Self) -> (below: bool) {
        *self < *other
    }
}

/// Whether the ranks in `s` never fall.
pub open spec fn ascending<T: Ranked>(s: Seq<T>) -> bool {
    forall|i: int, j: int| 0 <= i < j < s.len() ==> s[i].rank() <= s[j].rank()
}

/// Sorts `v` by rank. The sorted vector holds the elements that `v` held, each
/// as often as before.
pub fn sort<T: Ranked>(v: &mut Vec<T>)
    ensures
        final(v)@.to_multiset() == old(v)@.to_multiset(),
        final(v)@.len() == old(v)@.len(),
        ascending(final(v)@),
{
    let n = v.len();
    let mut i: usize = 0;
    while i < n
        invariant
            v@.len() == n,
            i <= n,
            v@.to_multiset() == old(v)@.to_multiset(),
            forall|a: int, b: int| 0 <= a < b < i ==> v@[a].rank() <= v@[b].rank(),
        decreases n - i,
    {
        let mut j: usize = i;
        while j > 0 && v[j].ranks_below(&v[j - 1])
            invariant
                v@.len() == n,
                j <= i < n,
                v@.to_multiset() == old(v)@.to_multiset(),
                forall|a: int, b: int|
                    0 <= a < b <= i && a != j && b != j ==> v@[a].rank() <= v@[b].rank(),
                forall|b: int| j < b <= i ==> v@[j as int].rank() < v@[b].rank(),
            decreases j,
        {
            let ghost before = v@;
            let upper = v[j];
            let lower = v[j - 1];
            v.set(j, lower);
            proof {
                to_multiset_update(before, j as int, lower);
            }
            let ghost between = v@;
            v.set(j - 1, upper);
            proof {
                broadcast use vstd::multiset::group_multiset_axioms;

                to_multiset_update(between, j - 1, upper);
                before.to_multiset_ensures();
                assert(before.contains(upper));
                assert(before.contains(lower));
                assert(v@.to_multiset() =~= before.to_multiset());
            }
            j = j - 1;
        }
        i = i + 1;
    }
}

} // verus!
