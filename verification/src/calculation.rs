//! The cost of work, and the split of a reward between accounts in proportion
//! to their accumulated work.

use crate::listing::list_entries;
use crate::money::{AccountId, Money, Work};
use crate::shares::{
    accounts, amount_sum, enumerates, lemma_amount_sum_agree, lemma_amount_sum_but_one,
    lemma_amount_sum_zero, lemma_amount_within_sum, lemma_ascending_pairs, lemma_enumerated_sum,
    lemma_enumerates_rearranged, pair_before, positive_count, Share,
};
use crate::sort::{ascending, sort, Ranked};
use crate::sums::{
    id_count, key_sum, lemma_sum_all_at_least, lemma_sum_enumerated, lemma_sum_to_agree, sum_all,
};
use std::collections::HashMap;
use vstd::prelude::*;

verus! {

/// `x / y` rounded to the nearest integer, a half rounded up; zero where `y` is
/// zero.
pub open spec fn rounded_ratio(x: nat, y: nat) -> nat {
    if y == 0 {
        0
    } else {
        x / y + if 2 * (x % y) >= y {
            1nat
        } else {
            0nat
        }
    }
}

/// The work of each account: what `works` holds for it, zero for any other.
pub open spec fn work_of(works: Map<AccountId, Work>) -> spec_fn(u64) -> nat {
    |id: u64|
        if works.contains_key(id) {
            works[id] as nat
        } else {
            0
        }
}

/// The work of all accounts together.
pub open spec fn total_work(works: Map<AccountId, Work>) -> nat {
    sum_all(work_of(works))
}

/// The share of `total` that the work of `id` earns before the shares are made
/// to add up: `total * work / total_work`, rounded.
pub open spec fn raw_share(total: nat, works: Map<AccountId, Work>, id: u64) -> nat {
    if works.contains_key(id) {
        rounded_ratio(total * works[id] as nat, total_work(works))
    } else {
        0
    }
}

/// The raw share of each account.
pub open spec fn raw_of(total: nat, works: Map<AccountId, Work>) -> spec_fn(u64) -> nat {
    |id: u64| raw_share(total, works, id)
}

/// The sum of the raw shares.
pub open spec fn raw_sum(total: nat, works: Map<AccountId, Work>) -> nat {
    sum_all(raw_of(total, works))
}

/// Whether account `a` comes before account `b` when the accounts are put in
/// the order of their raw shares, those with equal shares in the order of
/// their identifiers.
pub open spec fn precedes(total: nat, works: Map<AccountId, Work>, a: u64, b: u64) -> bool {
    pair_before(raw_share(total, works, a), a, raw_share(total, works, b), b)
}

/// Whether `id` is the first account in that order.
pub open spec fn is_lowest(total: nat, works: Map<AccountId, Work>, id: u64) -> bool {
    &&& works.contains_key(id)
    &&& forall|other: u64| #[trigger]
        works.contains_key(other) ==> !precedes(total, works, other, id)
}

/// One for each account with a raw share of at least one that precedes `id`,
/// zero for any other.
pub open spec fn preceding_positive(total: nat, works: Map<AccountId, Work>, id: u64) -> spec_fn(
    u64,
) -> nat {
    |k: u64|
        if works.contains_key(k) && raw_share(total, works, k) >= 1 && precedes(
            total,
            works,
            k,
            id,
        ) {
            1nat
        } else {
            0nat
        }
}

/// The number of accounts with a raw share of at least one that precede `id`.
pub open spec fn rank_of(total: nat, works: Map<AccountId, Work>, id: u64) -> nat {
    sum_all(preceding_positive(total, works, id))
}

/// The share of `total` that `id` receives.
///
/// Where the raw shares add up to less than `total`, the first account in the
/// order of raw shares receives what is missing on top of its raw share. Where
/// they add up to more, the excess is taken, one nano from each, from the
/// first accounts in that order whose raw share is not zero. Every other
/// account receives its raw share.
pub open spec fn share_of(total: nat, works: Map<AccountId, Work>, id: u64) -> nat {
    let raw = raw_share(total, works, id);
    let sum = raw_sum(total, works);
    if sum < total {
        if is_lowest(total, works, id) {
            (raw + (total - sum)) as nat
        } else {
            raw
        }
    } else if raw >= 1 && rank_of(total, works, id) < sum - total {
        (raw - 1) as nat
    } else {
        raw
    }
}

/// The split of `total` between the accounts of `works`.
pub open spec fn distribution(total: Money, works: Map<AccountId, Work>) -> Map<AccountId, Money> {
    Map::new(
        |id: u64| works.contains_key(id),
        |id: u64| Money { nano: share_of(total.nano as nat, works, id) as u64 },
    )
}

/// The amount of each account: what `dist` holds for it, zero for any other.
pub open spec fn amount_of(dist: Map<AccountId, Money>) -> spec_fn(u64) -> nat {
    |id: u64|
        if dist.contains_key(id) {
            dist[id].nano as nat
        } else {
            0
        }
}

/// The sum of the amounts that `dist` holds.
pub open spec fn distributed_sum(dist: Map<AccountId, Money>) -> nat {
    sum_all(amount_of(dist))
}

/// A rounded part of `total` is at most `total`.
pub proof fn lemma_rounded_ratio_bound(total: nat, work: nat, all: nat)
    requires
        work <= all,
    ensures
        rounded_ratio(total * work, all) <= total,
{
    if all > 0 {
        let x = total * work;
        let q = x / all;
        let r = x % all;
        vstd::arithmetic::div_mod::lemma_fundamental_div_mod(x as int, all as int);
        vstd::arithmetic::div_mod::lemma_mod_bound(x as int, all as int);
        assert(x <= total * all) by (nonlinear_arith)
            requires
                x == total * work,
                work <= all,
        ;
        assert(q <= total && (r > 0 ==> q < total)) by (nonlinear_arith)
            requires
                x == all * q + r,
                0 <= r < all,
                x <= total * all,
        ;
    }
}

/// A rounded share times the whole work exceeds the exact product by at most
/// half the whole work, and by nothing where the share is zero.
pub proof fn lemma_share_deviation(total: nat, work: nat, all: nat)
    requires
        all > 0,
    ensures
        2 * (rounded_ratio(total * work, all) * all) <= 2 * (total * work) + if rounded_ratio(
            total * work,
            all,
        ) >= 1 {
            all
        } else {
            0
        },
{
    let x = total * work;
    let q = x / all;
    let r = x % all;
    vstd::arithmetic::div_mod::lemma_fundamental_div_mod(x as int, all as int);
    vstd::arithmetic::div_mod::lemma_mod_bound(x as int, all as int);
    if 2 * r >= all {
        assert((q + 1) * all == q * all + all) by (nonlinear_arith);
        assert(all * q == q * all) by (nonlinear_arith);
    } else {
        assert(all * q == q * all) by (nonlinear_arith);
    }
}

/// Rounded shares exceed the exact split by at most half a nano for each share
/// that is not zero: twice their sum, times the whole work, is at most twice
/// `total` times the listed work, plus the whole work once for each such share.
pub proof fn lemma_excess_bound(
    total: nat,
    all: nat,
    s: Seq<Share>,
    w: spec_fn(u64) -> nat,
    n: int,
)
    requires
        all > 0,
        0 <= n <= s.len(),
        forall|j: int|
            0 <= j < n ==> (#[trigger] s[j]).amount == rounded_ratio(total * w(s[j].account), all),
    ensures
        2 * (amount_sum(s, n) * all) <= 2 * (total * key_sum(accounts(s), w, n)) + positive_count(
            s,
            n,
        ) * all,
    decreases n,
{
    if n > 0 {
        lemma_excess_bound(total, all, s, w, n - 1);
        let a = s[n - 1].amount as nat;
        let work = w(s[n - 1].account);
        lemma_share_deviation(total, work, all);
        let sum = amount_sum(s, n - 1);
        let works = key_sum(accounts(s), w, n - 1);
        let count = positive_count(s, n - 1);
        assert(accounts(s)[n - 1] == s[n - 1].account);
        assert(a == rounded_ratio(total * work, all));
        assert(amount_sum(s, n) == sum + a);
        assert(key_sum(accounts(s), w, n) == works + work);
        assert((sum + a) * all == sum * all + a * all) by (nonlinear_arith);
        assert(total * (works + work) == total * works + total * work) by (nonlinear_arith);
        assert((count + 1) * all == count * all + all) by (nonlinear_arith);
    } else {
        assert(amount_sum(s, n) * all == 0) by (nonlinear_arith)
            requires
                amount_sum(s, n) == 0,
        ;
    }
}

/// Proportionality: where the reward to split is as large as the work of all
/// accounts together, each account receives one nano for each unit of its
/// work.
pub proof fn lemma_one_nano_per_unit(total: Money, works: Map<AccountId, Work>, id: AccountId)
    requires
        total.nano == total_work(works),
        works.contains_key(id),
    ensures
        distribution(total, works)[id].nano == works[id],
{
    let all = total_work(works);
    let raw = raw_of(all, works);
    let work = work_of(works);
    assert forall|k: u64| k < id_count() implies #[trigger] raw(k) == work(k) by {
        if works.contains_key(k) {
            let w = works[k] as nat;
            lemma_sum_all_at_least(work, k);
            assert(work(k) == w);
            if all > 0 {
                vstd::arithmetic::div_mod::lemma_div_multiples_vanish(w as int, all as int);
                vstd::arithmetic::div_mod::lemma_mod_multiples_basic(w as int, all as int);
                assert(all * w == w * all) by (nonlinear_arith);
            }
        }
    }
    lemma_sum_to_agree(raw, work, id_count());
    assert(raw_sum(all, works) == all);
    assert(raw(id) == work(id));
}

/// `total * work / all_work`, rounded.
fn rounded_part(total: u64, work: u64, all_work: u128) -> (part: u64)
    requires
        work <= all_work,
    ensures
        part == rounded_ratio(total as nat * work as nat, all_work as nat),
        part <= total,
{
    if all_work == 0 {
        return 0;
    }
    proof {
        lemma_rounded_ratio_bound(total as nat, work as nat, all_work as nat);
        assert(total as nat * work as nat <= 0xffff_ffff_ffff_ffff * 0xffff_ffff_ffff_ffff)
            by (nonlinear_arith)
            requires
                total <= 0xffff_ffff_ffff_ffff,
                work <= 0xffff_ffff_ffff_ffff,
        ;
    }
    let product: u128 = (total as u128) * (work as u128);
    let quotient: u128 = product / all_work;
    let rest: u128 = product % all_work;
    if rest >= all_work - rest {
        (quotient + 1) as u64
    } else {
        quotient as u64
    }
}

/// Lists the accounts of `works`, each with its work.
fn list_work(works: &HashMap<AccountId, Work>) -> (shares: Vec<Share>)
    ensures
        enumerates(shares@, work_of(works@), works@.dom()),
        shares@.len() == works@.dom().len(),
{
    let entries = list_entries(works);
    let mut shares: Vec<Share> = Vec::new();
    let mut i: usize = 0;
    while i < entries.len()
        invariant
            i <= entries@.len(),
            shares@.len() == i,
            forall|j: int|
                0 <= j < i ==> #[trigger] shares@[j] == (Share {
                    amount: entries@[j].1,
                    account: entries@[j].0,
                }),
        decreases entries@.len() - i,
    {
        let (account, work) = entries[i];
        shares.push(Share { amount: work, account });
        i = i + 1;
    }
    proof {
        assert forall|id: u64| #[trigger] works@.dom().contains(id) implies exists|j: int|
            0 <= j < shares@.len() && shares@[j].account == id by {
            assert(works@.contains_key(id));
            let j = choose|j: int| 0 <= j < entries@.len() && entries@[j].0 == id;
            assert(shares@[j].account == id);
        }
    }
    shares
}

/// The sum of the amounts.
fn sum_amounts(entries: &Vec<Share>) -> (sum: u128)
    ensures
        sum == amount_sum(entries@, entries@.len() as int),
{
    let mut sum: u128 = 0;
    let mut i: usize = 0;
    while i < entries.len()
        invariant
            i <= entries@.len(),
            sum == amount_sum(entries@, i as int),
            sum <= i * 0xffff_ffff_ffff_ffff,
        decreases entries@.len() - i,
    {
        sum = sum + entries[i].amount as u128;
        i = i + 1;
    }
    sum
}

/// The raw share of `total` for each of `entries`, which hold the work of
/// each account, `all_work` being the work of all.
fn raw_shares(total: u64, entries: &Vec<Share>, all_work: u128) -> (shares: Vec<Share>)
    requires
        all_work == amount_sum(entries@, entries@.len() as int),
    ensures
        shares@.len() == entries@.len(),
        forall|i: int|
            0 <= i < shares@.len() ==> (#[trigger] shares@[i]).account == entries@[i].account
                && shares@[i].amount == rounded_ratio(
                total as nat * entries@[i].amount as nat,
                all_work as nat,
            ),
{
    let mut shares: Vec<Share> = Vec::new();
    let mut i: usize = 0;
    while i < entries.len()
        invariant
            i <= entries@.len(),
            all_work == amount_sum(entries@, entries@.len() as int),
            shares@.len() == i,
            forall|j: int|
                0 <= j < i ==> (#[trigger] shares@[j]).account == entries@[j].account
                    && shares@[j].amount == rounded_ratio(
                    total as nat * entries@[j].amount as nat,
                    all_work as nat,
                ),
        decreases entries@.len() - i,
    {
        let entry = entries[i];
        proof {
            lemma_amount_within_sum(entries@, entries@.len() as int, i as int);
        }
        let amount = rounded_part(total, entry.amount, all_work);
        shares.push(Share { amount, account: entry.account });
        i = i + 1;
    }
    shares
}

/// What is left of share `i` of `s` once the shares, which add up to `sum`,
/// are made to add up to `total`: what is missing goes to the first share, and
/// an excess is taken, one from each, from the first shares that are not zero.
pub open spec fn settled_amount(s: Seq<Share>, total: nat, sum: nat, i: int) -> nat {
    let amount = s[i].amount as nat;
    if sum < total {
        if i == 0 {
            (amount + (total - sum)) as nat
        } else {
            amount
        }
    } else if amount >= 1 && positive_count(s, i) < sum - total {
        (amount - 1) as nat
    } else {
        amount
    }
}

/// Makes the shares, which add up to `sum`, add up to `total`.
fn settle(total: u64, shares: &mut Vec<Share>, sum: u128)
    requires
        sum == amount_sum(old(shares)@, old(shares)@.len() as int),
        sum > total ==> sum - total <= positive_count(old(shares)@, old(shares)@.len() as int),
    ensures
        final(shares)@.len() == old(shares)@.len(),
        forall|i: int|
            0 <= i < final(shares)@.len() ==> (#[trigger] final(shares)@[i]).account == old(
                shares,
            )@[i].account && final(shares)@[i].amount == settled_amount(
                old(shares)@,
                total as nat,
                sum as nat,
                i,
            ),
        old(shares)@.len() > 0 ==> amount_sum(final(shares)@, final(shares)@.len() as int)
            == total,
{
    let n = shares.len();
    if n == 0 {
        return ;
    }
    if sum < total as u128 {
        let first = shares[0];
        proof {
            lemma_amount_within_sum(shares@, n as int, 0);
        }
        let missing: u64 = total - sum as u64;
        shares.set(0, Share { amount: first.amount + missing, account: first.account });
        proof {
            lemma_amount_sum_but_one(old(shares)@, shares@, n as int, 0);
        }
    } else if sum > total as u128 {
        let excess: u128 = sum - total as u128;
        let mut left: u128 = excess;
        let mut i: usize = 0;
        while i < n
            invariant
                n == old(shares)@.len(),
                shares@.len() == n,
                i <= n,
                excess == sum - total,
                left <= excess,
                positive_count(old(shares)@, i as int) >= excess ==> left == 0,
                positive_count(old(shares)@, i as int) < excess ==> left == excess
                    - positive_count(old(shares)@, i as int),
                amount_sum(shares@, i as int) + (excess - left) == amount_sum(
                    old(shares)@,
                    i as int,
                ),
                forall|j: int| i <= j < n ==> shares@[j] == old(shares)@[j],
                forall|j: int|
                    0 <= j < i ==> (#[trigger] shares@[j]).account == old(shares)@[j].account
                        && shares@[j].amount == settled_amount(
                        old(shares)@,
                        total as nat,
                        sum as nat,
                        j,
                    ),
            decreases n - i,
        {
            let share = shares[i];
            let ghost before = shares@;
            if left > 0 && share.amount >= 1 {
                shares.set(i, Share { amount: share.amount - 1, account: share.account });
                left = left - 1;
            }
            proof {
                lemma_amount_sum_agree(before, shares@, i as int);
            }
            i = i + 1;
        }
        proof {
            assert(left == 0);
        }
    }
}

/// Over the first `m` shares of a sorted list of the raw shares, the accounts
/// with a raw share of at least one that precede the account of share `i` are
/// those among the first `i` shares.
proof fn lemma_preceding_count(
    total: nat,
    works: Map<AccountId, Work>,
    s: Seq<Share>,
    i: int,
    m: int,
)
    requires
        enumerates(s, raw_of(total, works), works.dom()),
        ascending(s),
        0 <= i < s.len(),
        0 <= m <= s.len(),
    ensures
        key_sum(accounts(s), preceding_positive(total, works, s[i].account), m) == positive_count(
            s,
            if m < i {
                m
            } else {
                i
            },
        ),
    decreases m,
{
    if m > 0 {
        lemma_preceding_count(total, works, s, i, m - 1);
        let j = m - 1;
        assert(accounts(s)[j] == s[j].account);
        assert(works.dom().contains(s[j].account));
        assert(works.dom().contains(s[i].account));
        assert(s[j].amount == raw_share(total, works, s[j].account));
        assert(s[i].amount == raw_share(total, works, s[i].account));
        if j < i {
            lemma_ascending_pairs(s, j, i);
        } else if j > i {
            lemma_ascending_pairs(s, i, j);
        }
    }
}

/// In a sorted list of the raw shares, the number of accounts with a raw share
/// of at least one that precede an account is the number of such shares
/// before its own.
pub proof fn lemma_rank_is_position(total: nat, works: Map<AccountId, Work>, s: Seq<Share>, i: int)
    requires
        enumerates(s, raw_of(total, works), works.dom()),
        ascending(s),
        0 <= i < s.len(),
    ensures
        rank_of(total, works, s[i].account) == positive_count(s, i),
{
    let f = preceding_positive(total, works, s[i].account);
    let keys = accounts(s);
    let n = s.len() as int;
    assert forall|k: u64| #[trigger] f(k) != 0 implies exists|j: int|
        0 <= j < n && keys[j] == k by {
        assert(works.dom().contains(k));
        let j = choose|j: int| 0 <= j < s.len() && s[j].account == k;
        assert(keys[j] == k);
    }
    lemma_sum_enumerated(keys, f, n);
    lemma_preceding_count(total, works, s, i, n);
}

/// In a sorted list of the raw shares, the first share is that of the first
/// account in the order of raw shares, and no other is.
pub proof fn lemma_lowest_is_first(total: nat, works: Map<AccountId, Work>, s: Seq<Share>, i: int)
    requires
        enumerates(s, raw_of(total, works), works.dom()),
        ascending(s),
        0 <= i < s.len(),
    ensures
        is_lowest(total, works, s[i].account) <==> i == 0,
{
    assert(works.dom().contains(s[0].account));
    assert(s[0].amount == raw_share(total, works, s[0].account));
    assert(works.dom().contains(s[i].account));
    assert(s[i].amount == raw_share(total, works, s[i].account));
    if i == 0 {
        assert forall|other: u64| #[trigger] works.contains_key(other) implies !precedes(
            total,
            works,
            other,
            s[0].account,
        ) by {
            assert(works.dom().contains(other));
            let j = choose|j: int| 0 <= j < s.len() && s[j].account == other;
            assert(s[j].amount == raw_share(total, works, s[j].account));
            if j > 0 {
                lemma_ascending_pairs(s, 0, j);
            }
        }
    } else {
        lemma_ascending_pairs(s, 0, i);
        assert(works.contains_key(s[0].account));
        assert(precedes(total, works, s[0].account, s[i].account));
    }
}

/// In a list of the raw shares, an excess of their sum over `total` is at most
/// the number of shares that are not zero, so that it can be taken by one
/// nano from each of as many of them.
pub proof fn lemma_settled_in_one_pass(total: nat, works: Map<AccountId, Work>, s: Seq<Share>)
    requires
        enumerates(s, raw_of(total, works), works.dom()),
        raw_sum(total, works) > total,
    ensures
        raw_sum(total, works) - total <= positive_count(s, s.len() as int),
{
    let n = s.len() as int;
    let all = total_work(works);
    let w = work_of(works);
    lemma_enumerated_sum(s, raw_of(total, works), works.dom());
    if all == 0 {
        assert forall|j: int| 0 <= j < n implies (#[trigger] s[j]).amount == 0 by {
            assert(works.dom().contains(s[j].account));
        }
        lemma_amount_sum_zero(s, n);
    } else {
        assert forall|j: int| 0 <= j < n implies (#[trigger] s[j]).amount == rounded_ratio(
            total * w(s[j].account),
            all,
        ) by {
            assert(works.dom().contains(s[j].account));
        }
        lemma_excess_bound(total, all, s, w, n);
        let keys = accounts(s);
        assert forall|k: u64| #[trigger] w(k) != 0 implies exists|j: int|
            0 <= j < n && keys[j] == k by {
            assert(works.dom().contains(k));
            let j = choose|j: int| 0 <= j < s.len() && s[j].account == k;
            assert(keys[j] == k);
        }
        lemma_sum_enumerated(keys, w, n);
        let sum = amount_sum(s, n);
        let count = positive_count(s, n);
        assert(sum - total <= count) by (nonlinear_arith)
            requires
                2 * (sum * all) <= 2 * (total * all) + count * all,
                all > 0,
        ;
    }
}

/// The raw shares computed for a list of the accounts and their work are a
/// list of the accounts and their raw shares.
proof fn lemma_raw_listed(
    total: nat,
    works: Map<AccountId, Work>,
    entries: Seq<Share>,
    shares: Seq<Share>,
)
    requires
        enumerates(entries, work_of(works), works.dom()),
        shares.len() == entries.len(),
        forall|i: int|
            0 <= i < shares.len() ==> (#[trigger] shares[i]).account == entries[i].account
                && shares[i].amount == rounded_ratio(
                total * entries[i].amount as nat,
                amount_sum(entries, entries.len() as int),
            ),
    ensures
        amount_sum(entries, entries.len() as int) == total_work(works),
        enumerates(shares, raw_of(total, works), works.dom()),
        amount_sum(shares, shares.len() as int) == raw_sum(total, works),
{
    let raw = raw_of(total, works);
    lemma_enumerated_sum(entries, work_of(works), works.dom());
    assert forall|j: int| 0 <= j < shares.len() implies works.dom().contains(
        #[trigger] shares[j].account,
    ) && shares[j].amount == raw(shares[j].account) by {
        assert(works.dom().contains(entries[j].account));
        assert(entries[j].amount == work_of(works)(entries[j].account));
        assert(shares[j].account == entries[j].account);
    }
    assert forall|i: int, j: int| 0 <= i < j < shares.len() implies shares[i].account
        != shares[j].account by {
        assert(shares[i].account == entries[i].account);
        assert(shares[j].account == entries[j].account);
    }
    assert forall|id: u64| #[trigger] works.dom().contains(id) implies exists|j: int|
        0 <= j < shares.len() && shares[j].account == id by {
        let j = choose|j: int| 0 <= j < entries.len() && entries[j].account == id;
        assert(shares[j].account == id);
    }
    lemma_enumerated_sum(shares, raw, works.dom());
}

/// The map made of the settled shares, which were the sorted raw shares, is
/// the split of `total`, and its amounts add up to what the settled shares add
/// up to.
proof fn lemma_settled_is_distribution(
    total: Money,
    works: Map<AccountId, Work>,
    sorted: Seq<Share>,
    settled: Seq<Share>,
    dist: Map<AccountId, Money>,
)
    requires
        enumerates(sorted, raw_of(total.nano as nat, works), works.dom()),
        ascending(sorted),
        settled.len() == sorted.len(),
        forall|i: int|
            0 <= i < settled.len() ==> (#[trigger] settled[i]).account == sorted[i].account
                && settled[i].amount == settled_amount(
                sorted,
                total.nano as nat,
                raw_sum(total.nano as nat, works),
                i,
            ),
        forall|id: u64|
            dist.contains_key(id) <==> exists|j: int|
                0 <= j < settled.len() && settled[j].account == id,
        forall|j: int|
            0 <= j < settled.len() ==> dist.contains_key(#[trigger] settled[j].account)
                && dist[settled[j].account].nano == settled[j].amount,
    ensures
        dist == distribution(total, works),
        dist.dom() == works.dom(),
        distributed_sum(dist) == amount_sum(settled, settled.len() as int),
{
    let t = total.nano as nat;
    let raw = raw_of(t, works);
    assert forall|id: u64| dist.contains_key(id) <==> works.contains_key(id) by {
        if works.contains_key(id) {
            assert(works.dom().contains(id));
            let j = choose|j: int| 0 <= j < sorted.len() && sorted[j].account == id;
            assert(settled[j].account == id);
        }
        if dist.contains_key(id) {
            let j = choose|j: int| 0 <= j < settled.len() && settled[j].account == id;
            assert(works.dom().contains(sorted[j].account));
        }
    }
    assert(dist.dom() =~= works.dom());
    assert forall|id: u64| works.contains_key(id) implies dist[id].nano == share_of(
        t,
        works,
        id,
    ) by {
        assert(works.dom().contains(id));
        let j = choose|j: int| 0 <= j < sorted.len() && sorted[j].account == id;
        assert(settled[j].account == id);
        assert(dist[settled[j].account].nano == settled[j].amount);
        assert(sorted[j].amount == raw(sorted[j].account));
        lemma_lowest_is_first(t, works, sorted, j);
        lemma_rank_is_position(t, works, sorted, j);
    }
    assert(dist =~= distribution(total, works));
    let held = amount_of(dist);
    assert(enumerates(settled, held, works.dom())) by {
        assert forall|j: int| 0 <= j < settled.len() implies works.dom().contains(
            #[trigger] settled[j].account,
        ) && settled[j].amount == held(settled[j].account) by {
            assert(works.dom().contains(sorted[j].account));
        }
        assert forall|i: int, j: int| 0 <= i < j < settled.len() implies settled[i].account
            != settled[j].account by {
            assert(settled[i].account == sorted[i].account);
            assert(settled[j].account == sorted[j].account);
        }
        assert forall|id: u64| #[trigger] works.dom().contains(id) implies exists|j: int|
            0 <= j < settled.len() && settled[j].account == id by {
            let j = choose|j: int| 0 <= j < sorted.len() && sorted[j].account == id;
            assert(settled[j].account == id);
        }
    }
    lemma_enumerated_sum(settled, held, works.dom());
}

/// The shares once they, which add up to `sum`, are made to add up to `total`.
pub open spec fn settled(s: Seq<Share>, total: nat, sum: nat) -> Seq<Share> {
    Seq::new(
        s.len(),
        |i: int| Share { amount: settled_amount(s, total, sum, i) as u64, account: s[i].account },
    )
}

/// The smaller of two numbers.
pub open spec fn smaller(a: nat, b: nat) -> nat {
    if a <= b {
        a
    } else {
        b
    }
}

/// What the first `m` settled shares add up to: what is missing is on top of
/// the first share, and of an excess one nano is gone for each share that is
/// not zero, until the excess is gone.
proof fn lemma_settled_sum(s: Seq<Share>, total: nat, sum: nat, m: int)
    requires
        total <= u64::MAX,
        0 <= m <= s.len(),
        sum == amount_sum(s, s.len() as int),
    ensures
        sum < total && m >= 1 ==> amount_sum(settled(s, total, sum), m) == amount_sum(s, m) + (total
            - sum),
        sum == total ==> amount_sum(settled(s, total, sum), m) == amount_sum(s, m),
        sum > total ==> amount_sum(settled(s, total, sum), m) + smaller(
            (sum - total) as nat,
            positive_count(s, m),
        ) == amount_sum(s, m),
    decreases m,
{
    if m > 0 {
        lemma_settled_sum(s, total, sum, m - 1);
        lemma_amount_within_sum(s, s.len() as int, m - 1);
        let after = settled(s, total, sum);
        assert(after[m - 1].amount == settled_amount(s, total, sum, m - 1) as u64);
        if sum < total && m == 1 {
            assert(amount_sum(after, 0) == 0);
            assert(amount_sum(s, 0) == 0);
        }
    }
}

/// The order of shares by their rank.
pub open spec fn rank_at_most() -> spec_fn(Share, Share) -> bool {
    |a: Share, b: Share| a.rank() <= b.rank()
}

/// The members of a finite set, listed in any order, are listed once each.
proof fn lemma_listed_once(ids: Set<u64>)
    requires
        ids.finite(),
    ensures
        ids.to_seq().no_duplicates(),
        ids.to_seq().to_set() == ids,
    decreases ids.len(),
{
    broadcast use vstd::set::group_set_axioms;

    ids.lemma_to_seq_to_set_id();
    if ids.len() > 0 {
        let first = ids.choose();
        let rest = ids.remove(first);
        lemma_listed_once(rest);
        rest.lemma_to_seq_to_set_id();
        let tail = rest.to_seq();
        assert(ids.to_seq() == seq![first] + tail);
        assert forall|i: int, j: int| 0 <= i < j < ids.to_seq().len() implies ids.to_seq()[i]
            != ids.to_seq()[j] by {
            if i == 0 {
                assert(tail[j - 1] == ids.to_seq()[j]);
                assert(tail.to_set().contains(tail[j - 1]));
            } else {
                assert(tail[i - 1] == ids.to_seq()[i]);
                assert(tail[j - 1] == ids.to_seq()[j]);
            }
        }
    }
}

/// The exact sum: the shares of a split between one account or more add up to
/// the total that was split.
pub proof fn lemma_distribution_adds_up(total: Money, works: Map<AccountId, Work>)
    requires
        works.dom().finite(),
        works.dom().len() > 0,
    ensures
        distributed_sum(distribution(total, works)) == total.nano,
{
    let t = total.nano as nat;
    let raw = raw_of(t, works);
    let dom = works.dom();
    let ids = dom.to_seq();
    lemma_listed_once(dom);
    let n = ids.len() as int;
    assert(n > 0) by {
        if n == 0 {
            assert(ids.to_set() =~= Set::<u64>::empty());
        }
    }
    assert forall|k: u64| works.contains_key(k) implies raw(k) <= t by {
        lemma_sum_all_at_least(work_of(works), k);
        lemma_rounded_ratio_bound(t, works[k] as nat, total_work(works));
    }
    let unsorted = Seq::new(ids.len(), |i: int| Share { amount: raw(ids[i]) as u64, account: ids[i] });
    assert(enumerates(unsorted, raw, dom)) by {
        assert forall|j: int| 0 <= j < unsorted.len() implies dom.contains(
            #[trigger] unsorted[j].account,
        ) && unsorted[j].amount == raw(unsorted[j].account) by {
            assert(ids.to_set().contains(ids[j]));
            assert(works.contains_key(ids[j]));
        }
        assert forall|id: u64| #[trigger] dom.contains(id) implies exists|j: int|
            0 <= j < unsorted.len() && unsorted[j].account == id by {
            assert(ids.to_set().contains(id));
            let j = choose|j: int| 0 <= j < ids.len() && ids[j] == id;
            assert(unsorted[j].account == id);
        }
    }
    let leq = rank_at_most();
    assert(vstd::relations::total_ordering(leq)) by {
        assert forall|a: Share, b: Share| #[trigger] leq(a, b) && leq(b, a) implies a == b by {
            assert(a.amount == b.amount && a.account == b.account);
        }
    }
    let sorted = unsorted.sort_by(leq);
    unsorted.lemma_sort_by_ensures(leq);
    lemma_enumerates_rearranged(unsorted, sorted, raw, dom);
    assert(ascending(sorted)) by {
        assert forall|i: int, j: int| 0 <= i < j < sorted.len() implies sorted[i].rank()
            <= sorted[j].rank() by {
            assert(leq(sorted[i], sorted[j]));
        }
    }
    lemma_enumerated_sum(sorted, raw, dom);
    let sum = raw_sum(t, works);
    if sum > t {
        lemma_settled_in_one_pass(t, works, sorted);
    }
    let after = settled(sorted, t, sum);
    lemma_settled_sum(sorted, t, sum, n);
    assert(amount_sum(after, n) == t);
    let dist = distribution(total, works);
    assert forall|j: int| 0 <= j < after.len() implies dist.contains_key(
        #[trigger] after[j].account,
    ) && dist[after[j].account].nano == after[j].amount by {
        assert(dom.contains(sorted[j].account));
        assert(sorted[j].amount == raw(sorted[j].account));
        lemma_lowest_is_first(t, works, sorted, j);
        lemma_rank_is_position(t, works, sorted, j);
    }
    assert forall|id: u64|
        dist.contains_key(id) <==> exists|j: int|
            0 <= j < after.len() && after[j].account == id by {
        if dist.contains_key(id) {
            assert(dom.contains(id));
            let j = choose|j: int| 0 <= j < sorted.len() && sorted[j].account == id;
            assert(after[j].account == id);
        }
        if exists|j: int| 0 <= j < after.len() && after[j].account == id {
            let j = choose|j: int| 0 <= j < after.len() && after[j].account == id;
            assert(dom.contains(sorted[j].account));
        }
    }
    lemma_settled_is_distribution(total, works, sorted, after, dist);
}

/// The map that holds, for the account of each share, its amount as money.
fn into_distribution(shares: &Vec<Share>) -> (dist: HashMap<AccountId, Money>)
    requires
        forall|i: int, j: int| 0 <= i < j < shares@.len() ==> shares@[i].account != shares@[j].account,
    ensures
        forall|id: u64|
            dist@.contains_key(id) <==> exists|j: int|
                0 <= j < shares@.len() && shares@[j].account == id,
        forall|j: int|
            0 <= j < shares@.len() ==> dist@.contains_key(#[trigger] shares@[j].account)
                && dist@[shares@[j].account].nano == shares@[j].amount,
{
    let mut dist: HashMap<AccountId, Money> = HashMap::new();
    let mut i: usize = 0;
    while i < shares.len()
        invariant
            i <= shares@.len(),
            forall|a: int, b: int|
                0 <= a < b < shares@.len() ==> shares@[a].account != shares@[b].account,
            forall|id: u64|
                dist@.contains_key(id) <==> exists|j: int|
                    0 <= j < i && shares@[j].account == id,
            forall|j: int|
                0 <= j < i ==> dist@.contains_key(#[trigger] shares@[j].account)
                    && dist@[shares@[j].account].nano == shares@[j].amount,
        decreases shares@.len() - i,
    {
        let share = shares[i];
        let ghost before = dist@;
        dist.insert(share.account, Money::from_nano(share.amount));
        proof {
            assert(dist@ == before.insert(share.account, Money { nano: share.amount }));
            assert forall|id: u64| dist@.contains_key(id) implies exists|j: int|
                0 <= j < i + 1 && shares@[j].account == id by {
                if id == share.account {
                    assert(shares@[i as int].account == id);
                } else {
                    assert(before.contains_key(id));
                    let j = choose|j: int| 0 <= j < i && shares@[j].account == id;
                    assert(0 <= j < i + 1 && shares@[j].account == id);
                }
            }
        }
        i = i + 1;
    }
    dist
}

/// A way to price work and to split a reward between those who worked.
pub trait RewardAlgo {
    /// The base cost of work.
    spec fn base_cost(&self) -> Money;

    /// How `total` is split between the accounts of `works`.
    spec fn split(&self, total: Money, works: Map<AccountId, Work>) -> Map<AccountId, Money>;

    /// Sets the base cost of work.
    fn set(&mut self, base_cost: Money)
        ensures
            final(self).base_cost() == base_cost,
    ;

    /// The cost of work for `reward_units` units: one nano for each, on top of
    /// the base cost.
    fn work_cost(&self, reward_units: u64) -> (cost: Money)
        requires
            reward_units + self.base_cost().nano <= u64::MAX,
        ensures
            cost.nano == reward_units + self.base_cost().nano,
    ;

    /// Splits `total_reward` between the accounts of `accounts_work`, in
    /// proportion to their work. Every account is in the result, also with a
    /// share of zero, and the shares add up to `total_reward`.
    fn distribute(&self, total_reward: Money, accounts_work: HashMap<AccountId, Work>) -> (dist:
        HashMap<AccountId, Money>)
        ensures
            dist@ == self.split(total_reward, accounts_work@),
            dist@.dom() == accounts_work@.dom(),
            accounts_work@.dom().len() > 0 ==> distributed_sum(dist@) == total_reward.nano,
    ;
}

/// The cost of storage, and the rewards for it.
#[derive(Clone, Copy)]
pub struct StorageRewards {
    base_cost: Money,
}

impl StorageRewards {
    /// Rewards with the given base cost for a unit of work.
    pub fn new(base_cost: Money) -> (rewards: Self)
        ensures
            rewards.base_cost() == base_cost,
    {
        Self { base_cost }
    }
}

impl RewardAlgo for StorageRewards {
    closed spec fn base_cost(&self) -> Money {
        self.base_cost
    }

    open spec fn split(&self, total: Money, works: Map<AccountId, Work>) -> Map<AccountId, Money> {
        distribution(total, works)
    }

    fn set(&mut self, base_cost: Money) {
        self.base_cost = base_cost;
    }

    /// The units are the bytes to store.
    fn work_cost(&self, num_bytes: u64) -> (cost: Money) {
        Money::from_nano(num_bytes + self.base_cost.as_nano())
    }

    /// The remainder of the rounding goes to the account with the smallest
    /// share, which among equal shares is the one with the smallest
    /// identifier; an excess is taken from the smallest shares that are not
    /// zero, in the same order.
    fn distribute(&self, total_reward: Money, accounts_work: HashMap<AccountId, Work>) -> (dist:
        HashMap<AccountId, Money>) {
        let total = total_reward.as_nano();
        let ghost works = accounts_work@;
        let ghost raw = raw_of(total as nat, works);
        let entries = list_work(&accounts_work);
        let all_work = sum_amounts(&entries);
        let mut shares = raw_shares(total, &entries, all_work);
        let shares_sum = sum_amounts(&shares);
        let ghost unsorted = shares@;
        proof {
            lemma_raw_listed(total as nat, works, entries@, unsorted);
        }
        sort(&mut shares);
        let ghost sorted = shares@;
        proof {
            lemma_enumerates_rearranged(unsorted, sorted, raw, works.dom());
            lemma_enumerated_sum(sorted, raw, works.dom());
            if shares_sum > total {
                lemma_settled_in_one_pass(total as nat, works, sorted);
            }
        }
        settle(total, &mut shares, shares_sum);
        let dist = into_distribution(&shares);
        proof {
            lemma_settled_is_distribution(total_reward, works, sorted, shares@, dist@);
        }
        dist
    }
}

} // verus!
