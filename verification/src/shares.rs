//! Lists of what accounts hold: their shares of work or of a reward.

use crate::money::AccountId;
use crate::sort::{ascending, Ranked};
use crate::sums::{key_sum, lemma_sum_enumerated, sum_all};
use vstd::prelude::*;

verus! {

/// An amount, of work or of money, that belongs to an account.
#[derive(Clone, Copy, PartialEq, Eq, Debug, Structural)]
pub struct Share {
    pub amount: u64,
    pub account: AccountId,
}

/// Shares rank by amount, and by account where the amounts are equal.
impl Ranked for Share {
    open spec fn rank(self) -> int {
        self.amount * 0x1_0000_0000_0000_0000 + self.account
    }

    fn ranks_below(&self, other: &Self) -> (below: bool) {
        self.amount < other.amount || (self.amount == other.amount && self.account < other.account)
    }
}

/// Whether the pair of `amount` and `account` comes before that of
/// `other_amount` and `other_account`.
pub open spec fn pair_before(amount: nat, account: u64, other_amount: nat, other_account: u64) -> bool {
    amount < other_amount || (amount == other_amount && account < other_account)
}

/// The accounts of the shares, in their order.
pub open spec fn accounts(s: Seq<Share>) -> Seq<u64> {
    Seq::new(s.len(), |j: int| s[j].account)
}

/// The sum of the first `n` amounts.
pub open spec fn amount_sum(s: Seq<Share>, n: int) -> nat
    decreases n,
{
    if n <= 0 {
        0
    } else {
        amount_sum(s, n - 1) + s[n - 1].amount as nat
    }
}

/// How many of the first `n` amounts are not zero.
pub open spec fn positive_count(s: Seq<Share>, n: int) -> nat
    decreases n,
{
    if n <= 0 {
        0
    } else {
        positive_count(s, n - 1) + if s[n - 1].amount >= 1 {
            1nat
        } else {
            0nat
        }
    }
}

/// Whether `s` lists each account of `dom` once, with the amount that `f`
/// gives it, and no other account.
pub open spec fn enumerates(s: Seq<Share>, f: spec_fn(u64) -> nat, dom: Set<u64>) -> bool {
    &&& forall|i: int, j: int| 0 <= i < j < s.len() ==> s[i].account != s[j].account
    &&& forall|j: int|
        0 <= j < s.len() ==> dom.contains(#[trigger] s[j].account) && s[j].amount == f(
            s[j].account,
        )
    &&& forall|id: u64| #[trigger]
        dom.contains(id) ==> exists|j: int| 0 <= j < s.len() && s[j].account == id
}

/// Each of the first `n` amounts is at most their sum.
pub proof fn lemma_amount_within_sum(s: Seq<Share>, n: int, j: int)
    requires
        0 <= j < n <= s.len(),
    ensures
        s[j].amount <= amount_sum(s, n),
    decreases n,
{
    if j < n - 1 {
        lemma_amount_within_sum(s, n - 1, j);
    }
}

/// Lists that agree on their first `n` shares have the same sum there.
pub proof fn lemma_amount_sum_agree(s: Seq<Share>, t: Seq<Share>, n: int)
    requires
        n <= s.len(),
        n <= t.len(),
        forall|j: int| 0 <= j < n ==> s[j].amount == t[j].amount,
    ensures
        amount_sum(s, n) == amount_sum(t, n),
    decreases n,
{
    if n > 0 {
        lemma_amount_sum_agree(s, t, n - 1);
    }
}

/// Lists that agree on their first `n` shares but at `k` differ in their sum
/// there as they differ at `k`.
pub proof fn lemma_amount_sum_but_one(s: Seq<Share>, t: Seq<Share>, n: int, k: int)
    requires
        0 <= k < n,
        n <= s.len(),
        n <= t.len(),
        forall|j: int| 0 <= j < n && j != k ==> s[j].amount == t[j].amount,
    ensures
        amount_sum(s, n) - s[k].amount == amount_sum(t, n) - t[k].amount,
    decreases n,
{
    if k < n - 1 {
        lemma_amount_sum_but_one(s, t, n - 1, k);
    } else {
        lemma_amount_sum_agree(s, t, n - 1);
    }
}

/// Amounts that are all zero sum to zero.
pub proof fn lemma_amount_sum_zero(s: Seq<Share>, n: int)
    requires
        n <= s.len(),
        forall|j: int| 0 <= j < n ==> (#[trigger] s[j]).amount == 0,
    ensures
        amount_sum(s, n) == 0,
    decreases n,
{
    if n > 0 {
        lemma_amount_sum_zero(s, n - 1);
    }
}

/// The sum of amounts that a function gives to the listed accounts is the sum
/// of the function over the accounts.
pub proof fn lemma_amount_sum_by_account(s: Seq<Share>, f: spec_fn(u64) -> nat, n: int)
    requires
        0 <= n <= s.len(),
        forall|j: int| 0 <= j < n ==> (#[trigger] s[j]).amount == f(s[j].account),
    ensures
        amount_sum(s, n) == key_sum(accounts(s), f, n),
    decreases n,
{
    if n > 0 {
        lemma_amount_sum_by_account(s, f, n - 1);
    }
}

/// The amounts of a list that enumerates `f` on `dom` sum to the sum of `f`
/// over all accounts, where `f` is zero outside `dom`.
pub proof fn lemma_enumerated_sum(s: Seq<Share>, f: spec_fn(u64) -> nat, dom: Set<u64>)
    requires
        enumerates(s, f, dom),
        forall|k: u64| #[trigger] f(k) != 0 ==> dom.contains(k),
    ensures
        sum_all(f) == amount_sum(s, s.len() as int),
{
    let keys = accounts(s);
    let n = s.len() as int;
    assert forall|k: u64| #[trigger] f(k) != 0 implies exists|j: int|
        0 <= j < n && keys[j] == k by {
        assert(dom.contains(k));
        let j = choose|j: int| 0 <= j < s.len() && s[j].account == k;
        assert(keys[j] == k);
    }
    lemma_sum_enumerated(keys, f, n);
    lemma_amount_sum_by_account(s, f, n);
}

/// A list with the same shares as one that enumerates `f` on `dom` does so
/// too.
pub proof fn lemma_enumerates_rearranged(
    s: Seq<Share>,
    t: Seq<Share>,
    f: spec_fn(u64) -> nat,
    dom: Set<u64>,
)
    requires
        enumerates(s, f, dom),
        s.to_multiset() == t.to_multiset(),
    ensures
        enumerates(t, f, dom),
        t.len() == s.len(),
{
    broadcast use vstd::seq_lib::group_to_multiset_ensures;

    vstd::seq_lib::to_multiset_len(s);
    vstd::seq_lib::to_multiset_len(t);
    assert(s.no_duplicates());
    s.lemma_multiset_has_no_duplicates();
    t.lemma_multiset_has_no_duplicates_conv();
    assert forall|j: int| 0 <= j < t.len() implies dom.contains(#[trigger] t[j].account)
        && t[j].amount == f(t[j].account) by {
        assert(t.contains(t[j]));
        assert(t.to_multiset().count(t[j]) > 0);
        assert(s.contains(t[j]));
        let i = choose|i: int| 0 <= i < s.len() && s[i] == t[j];
        assert(dom.contains(s[i].account));
    }
    assert forall|i: int, j: int| 0 <= i < j < t.len() implies t[i].account != t[j].account by {
        assert(dom.contains(t[i].account) && t[i].amount == f(t[i].account));
        assert(dom.contains(t[j].account) && t[j].amount == f(t[j].account));
        if t[i].account == t[j].account {
            assert(t[i] == t[j]);
        }
    }
    assert forall|id: u64| #[trigger] dom.contains(id) implies exists|j: int|
        0 <= j < t.len() && t[j].account == id by {
        let i = choose|i: int| 0 <= i < s.len() && s[i].account == id;
        assert(s.contains(s[i]));
        assert(s.to_multiset().count(s[i]) > 0);
        assert(t.contains(s[i]));
        let j = choose|j: int| 0 <= j < t.len() && t[j] == s[i];
        assert(t[j].account == id);
    }
}

/// In a sorted list of shares of different accounts, an earlier share comes
/// before a later one, by amount and then by account.
pub proof fn lemma_ascending_pairs(s: Seq<Share>, i: int, j: int)
    requires
        ascending(s),
        0 <= i < j < s.len(),
        s[i].account != s[j].account,
    ensures
        pair_before(s[i].amount as nat, s[i].account, s[j].amount as nat, s[j].account),
{
    assert(s[i].rank() <= s[j].rank());
}

} // verus!
