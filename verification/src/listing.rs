//! The entries of a map as a list.

use crate::money::AccountId;
use std::collections::HashMap;
use vstd::prelude::*;
use vstd::std_specs::iter::IteratorSpec;

verus! {

/// Whether `entries` holds each entry of `m` once, and nothing else.
pub open spec fn lists<V>(entries: Seq<(AccountId, V)>, m: Map<AccountId, V>) -> bool {
    &&& forall|i: int, j: int| 0 <= i < j < entries.len() ==> entries[i].0 != entries[j].0
    &&& forall|j: int|
        0 <= j < entries.len() ==> m.contains_key((#[trigger] entries[j]).0) && m[entries[j].0]
            == entries[j].1
    &&& forall|id: AccountId| #[trigger]
        m.contains_key(id) ==> exists|j: int| 0 <= j < entries.len() && entries[j].0 == id
}

/// Lists the entries of `m`, in no particular order.
pub fn list_entries<V: Copy>(m: &HashMap<AccountId, V>) -> (entries: Vec<(AccountId, V)>)
    ensures
        lists(entries@, m@),
        entries@.len() == m@.dom().len(),
{
    let mut entries: Vec<(AccountId, V)> = Vec::new();
    let ghost all = m.iter().remaining();
    for entry in it: m.iter()
        invariant
            it.seq() == all,
            all == m.iter().remaining(),
            all.no_duplicates(),
            entries@.len() == it.index(),
            forall|i: int|
                0 <= i < entries@.len() ==> #[trigger] entries@[i] == (*all[i].0, *all[i].1),
    {
        let (id, value) = entry;
        entries.push((*id, *value));
    }
    proof {
        assert(entries@.len() == all.len());
        assert forall|i: int, j: int| 0 <= i < j < entries@.len() implies entries@[i].0
            != entries@[j].0 by {
            assert(m@.contains_key(*all[i].0) && m@[*all[i].0] == *all[i].1);
            assert(m@.contains_key(*all[j].0) && m@[*all[j].0] == *all[j].1);
            assert(all[i] != all[j]);
        }
        assert forall|j: int| 0 <= j < entries@.len() implies m@.contains_key(
            (#[trigger] entries@[j]).0,
        ) && m@[entries@[j].0] == entries@[j].1 by {
            assert(m@.contains_key(*all[j].0) && m@[*all[j].0] == *all[j].1);
        }
        assert forall|id: AccountId| #[trigger] m@.contains_key(id) implies exists|j: int|
            0 <= j < entries@.len() && entries@[j].0 == id by {
            assert(all.contains((&id, &m@[id])));
            let j = choose|j: int| 0 <= j < all.len() && all[j] == (&id, &m@[id]);
            assert(entries@[j].0 == id);
        }
    }
    entries
}

} // verus!
