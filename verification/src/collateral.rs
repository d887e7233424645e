//! Collateral: what is locked of an account's balance for its pending
//! commitments.

use std::collections::HashMap;
use vstd::prelude::*;
use crate::hashing::AccountId;
use crate::table::{distinct_keys, has_key, index_of, put, without};
use crate::types::{Balance, LockPeriod};

verus! {

/// The key of a commitment: the account that made it, and the hash.
pub type CommitKey = (AccountId, Seq<u8>);

/// The pending commitments, as the model has them.
pub type Commits = Seq<(CommitKey, LockPeriod)>;

/// How many commitments the account has pending.
pub open spec fn active_commits(commits: Commits, who: AccountId) -> nat
    decreases commits.len(),
{
    if commits.len() == 0 {
        0
    } else if commits.last().0.0 == who {
        active_commits(commits.drop_last(), who) + 1
    } else {
        active_commits(commits.drop_last(), who)
    }
}

/// The product of two balances, or the largest balance where the product is
/// larger still.
pub open spec fn saturating_product(a: int, b: int) -> Balance {
    if a * b <= u64::MAX {
        (a * b) as u64
    } else {
        u64::MAX
    }
}

/// What is locked for `count` pending commitments at `fund` each.
pub open spec fn lock_amount(count: nat, fund: Balance) -> Balance {
    saturating_product(fund as int, count as int)
}

/// The locks that the currency holds for the commitments: for every account
/// with a positive amount to lock, that amount; for every other account, none.
pub open spec fn locks_for(commits: Commits, fund: Balance) -> Map<AccountId, Balance> {
    Map::new(
        |who: AccountId| lock_amount(active_commits(commits, who), fund) > 0,
        |who: AccountId| lock_amount(active_commits(commits, who), fund),
    )
}

/// What the locks hold of the account's balance: nothing where it has no lock.
pub open spec fn locked(locks: Map<AccountId, Balance>, who: AccountId) -> Balance {
    if locks.contains_key(who) {
        locks[who]
    } else {
        0
    }
}

/// A call to the host's currency, under the registry's tag.
#[derive(Clone, Copy, PartialEq, Eq, Debug, Structural)]
pub enum CurrencyCall {
    /// Lock `amount` of the balance of `who`, in place of what was locked.
    SetLock { who: AccountId, amount: Balance },
    /// Lift the lock on the balance of `who`.
    RemoveLock { who: AccountId },
}

/// The call that brings the lock of `who` up to date: a lock of the fund for
/// each pending commitment, up to the largest balance, where `who` has any;
/// else no lock.
pub open spec fn lock_call(commits: Commits, fund: Balance, who: AccountId) -> CurrencyCall {
    if active_commits(commits, who) > 0 {
        CurrencyCall::SetLock { who, amount: lock_amount(active_commits(commits, who), fund) }
    } else {
        CurrencyCall::RemoveLock { who }
    }
}

/// The locks after a call. A lock of nothing is no lock.
pub open spec fn after_call(
    locks: Map<AccountId, Balance>,
    call: CurrencyCall,
) -> Map<AccountId, Balance> {
    match call {
        CurrencyCall::SetLock { who, amount } => if amount > 0 {
            locks.insert(who, amount)
        } else {
            locks.remove(who)
        },
        CurrencyCall::RemoveLock { who } => locks.remove(who),
    }
}

/// The locks after the calls, one after the other.
pub open spec fn after_calls(
    locks: Map<AccountId, Balance>,
    calls: Seq<CurrencyCall>,
) -> Map<AccountId, Balance>
    decreases calls.len(),
{
    if calls.len() == 0 {
        locks
    } else {
        after_call(after_calls(locks, calls.drop_last()), calls.last())
    }
}

/// The locks are those for the commitments, but perhaps for the one account.
pub open spec fn locks_agree_but(
    locks: Map<AccountId, Balance>,
    commits: Commits,
    fund: Balance,
    who: AccountId,
) -> bool {
    locks.remove(who) == locks_for(commits, fund).remove(who)
}

/// `a * b`, or the largest balance where the product does not fit.
pub fn saturating_mul(a: Balance, b: Balance) -> (product: Balance)
    ensures
        product == saturating_product(a as int, b as int),
{
    match a.checked_mul(b) {
        Some(product) => product,
        None => u64::MAX,
    }
}

/// The locks that the host's currency holds under the registry's tag: for each
/// account at most one, of a positive amount.
#[derive(Clone, PartialEq, Eq, Debug)]
pub struct Locks {
    held: HashMap<AccountId, Balance>,
}

impl View for Locks {
    type V = Map<AccountId, Balance>;

    closed spec fn view(&self) -> Map<AccountId, Balance> {
        self.held@
    }
}

impl Locks {
    /// No locks.
    pub fn new() -> (locks: Locks)
        ensures
            locks@ == Map::<AccountId, Balance>::empty(),
    {
        Locks { held: HashMap::new() }
    }

    /// Locks `amount` of the balance of `who`, in place of what was locked of
    /// it. An amount of nothing is no lock.
    pub fn set_lock(&mut self, who: AccountId, amount: Balance)
        ensures
            final(self)@ == after_call(old(self)@, CurrencyCall::SetLock { who, amount }),
    {
        if amount > 0 {
            self.held.insert(who, amount);
        } else {
            self.held.remove(&who);
        }
    }

    /// Lifts the lock on the balance of `who`, if there is one.
    pub fn remove_lock(&mut self, who: AccountId)
        ensures
            final(self)@ == after_call(old(self)@, CurrencyCall::RemoveLock { who }),
    {
        self.held.remove(&who);
    }

    /// What is locked of the balance of `who`.
    pub fn balance_locked(&self, who: AccountId) -> (amount: Balance)
        ensures
            amount == locked(self@, who),
    {
        match self.held.get(&who) {
            Some(amount) => *amount,
            None => 0,
        }
    }
}

/// The call that brings the lock of an account up to date makes the locks
/// those that the commitments call for, where only that account's lock was out
/// of date.
pub proof fn lemma_lock_call(
    locks: Map<AccountId, Balance>,
    commits: Commits,
    fund: Balance,
    who: AccountId,
)
    requires
        locks_agree_but(locks, commits, fund, who),
    ensures
        after_call(locks, lock_call(commits, fund, who)) == locks_for(commits, fund),
{
    let wanted = locks_for(commits, fund);
    let made = after_call(locks, lock_call(commits, fund, who));
    lemma_lock_amount_zero(fund);
    assert forall|other: AccountId| #[trigger]
        made.dom().contains(other) == wanted.dom().contains(other) && (made.dom().contains(other)
            ==> made[other] == wanted[other]) by {
        if other != who {
            assert(locks.remove(who).dom().contains(other) == locks.dom().contains(other));
            assert(wanted.remove(who).dom().contains(other) == wanted.dom().contains(other));
            if locks.dom().contains(other) {
                assert(locks.remove(who)[other] == locks[other]);
                assert(wanted.remove(who)[other] == wanted[other]);
            }
        }
    }
    assert(made =~= wanted);
}

/// Nothing is locked for no commitments.
pub proof fn lemma_lock_amount_zero(fund: Balance)
    ensures
        lock_amount(0, fund) == 0,
{
    assert(fund * 0 == 0);
}

/// Where no commitment is pending, the currency holds no lock.
pub proof fn lemma_locks_for_none(fund: Balance)
    ensures
        locks_for(Seq::empty(), fund) == Map::<AccountId, Balance>::empty(),
{
    lemma_lock_amount_zero(fund);
    assert(locks_for(Seq::empty(), fund) =~= Map::<AccountId, Balance>::empty());
}

/// An account has no more commitments pending than there are rows.
pub proof fn lemma_active_commits_bound(commits: Commits, who: AccountId)
    ensures
        active_commits(commits, who) <= commits.len(),
    decreases commits.len(),
{
    if commits.len() > 0 {
        lemma_active_commits_bound(commits.drop_last(), who);
    }
}

/// The commitments of an account in two runs of rows add up.
pub proof fn lemma_active_commits_concat(front: Commits, back: Commits, who: AccountId)
    ensures
        active_commits(front + back, who) == active_commits(front, who) + active_commits(
            back,
            who,
        ),
    decreases back.len(),
{
    if back.len() == 0 {
        assert(front + back =~= front);
    } else {
        assert((front + back).drop_last() =~= front + back.drop_last());
        assert((front + back).last() == back.last());
        lemma_active_commits_concat(front, back.drop_last(), who);
    }
}

/// A single row counts for its account and for no other.
pub proof fn lemma_active_commits_one(row: (CommitKey, LockPeriod), who: AccountId)
    ensures
        active_commits(seq![row], who) == (if row.0.0 == who {
            1nat
        } else {
            0nat
        }),
{
    let one = seq![row];
    assert(one.last() == row);
    assert(one.drop_last() =~= Seq::<(CommitKey, LockPeriod)>::empty());
    assert(active_commits(one.drop_last(), who) == 0);
}

/// The rows split at a place: those before it, the row there, those after it.
proof fn lemma_active_commits_split(commits: Commits, at: int, who: AccountId)
    requires
        0 <= at < commits.len(),
    ensures
        active_commits(commits, who) == active_commits(commits.take(at), who) + active_commits(
            seq![commits[at]],
            who,
        ) + active_commits(commits.skip(at + 1), who),
{
    let front = commits.take(at);
    let mid = seq![commits[at]];
    let back = commits.skip(at + 1);
    assert(commits =~= (front + mid) + back);
    lemma_active_commits_concat(front + mid, back, who);
    lemma_active_commits_concat(front, mid, who);
}

/// A commitment under a new key counts one more for its account; one under a
/// key that was there counts as before.
pub proof fn lemma_active_commits_put(
    commits: Commits,
    key: CommitKey,
    period: LockPeriod,
    who: AccountId,
)
    requires
        distinct_keys(commits),
    ensures
        active_commits(put(commits, key, period), who) == active_commits(commits, who) + (if key.0
            == who && !has_key(commits, key) {
            1nat
        } else {
            0nat
        }),
{
    let after = put(commits, key, period);
    if has_key(commits, key) {
        let at = index_of(commits, key);
        lemma_active_commits_split(commits, at, who);
        lemma_active_commits_split(after, at, who);
        assert(after.take(at) =~= commits.take(at));
        assert(after.skip(at + 1) =~= commits.skip(at + 1));
        lemma_active_commits_one(commits[at], who);
        lemma_active_commits_one(after[at], who);
    } else {
        assert(after.drop_last() =~= commits);
        assert(after.last() == (key, period));
    }
}

/// Taking a commitment out counts one less for its account.
pub proof fn lemma_active_commits_without(commits: Commits, key: CommitKey, who: AccountId)
    requires
        distinct_keys(commits),
    ensures
        active_commits(without(commits, key), who) == active_commits(commits, who) - (if key.0
            == who && has_key(commits, key) {
            1nat
        } else {
            0nat
        }),
{
    let after = without(commits, key);
    if has_key(commits, key) {
        let at = index_of(commits, key);
        lemma_active_commits_split(commits, at, who);
        assert(after =~= commits.take(at) + commits.skip(at + 1));
        lemma_active_commits_concat(commits.take(at), commits.skip(at + 1), who);
        lemma_active_commits_one(commits[at], who);
    }
}

} // verus!
