//! The registry's two maps: the pending commitments and the owners of names.
//!
//! Each keeps its rows in a vector, in the order in which their keys first
//! came, and is seen in contracts as the table of its rows.

use vstd::prelude::*;
use crate::collateral::{active_commits, lemma_active_commits_bound, CommitKey, Commits};
use crate::hashing::{same_hash, AccountId, Name};
use crate::table::{
    distinct_keys, expired, has_key, keys_of, lemma_index_of, lemma_put_distinct,
    lemma_without_distinct, lookup, put, without, Timed,
};
use crate::types::{BlockNumber, LockPeriod, Owner, OwnerView};

verus! {

impl Timed for OwnerView {
    open spec fn period(&self) -> LockPeriod {
        self.lock_period
    }
}

/// The owners of names, as the model has them.
pub type Holders = Seq<(Seq<u8>, OwnerView)>;

/// The keys of commitments as the model has them.
pub open spec fn commit_keys(keys: Seq<(AccountId, crate::hashing::Hash)>) -> Seq<CommitKey> {
    Seq::new(keys.len(), |i: int| (keys[i].0, keys[i].1@))
}

/// Commitments with their periods as the model has them.
pub open spec fn commit_rows(rows: Seq<(AccountId, crate::hashing::Hash, LockPeriod)>) -> Commits {
    Seq::new(rows.len(), |i: int| ((rows[i].0, rows[i].1@), rows[i].2))
}

/// Names with their owners as the model has them.
pub open spec fn holders(rows: Seq<(Name, Owner)>) -> Holders {
    Seq::new(rows.len(), |i: int| (rows[i].0@, rows[i].1@))
}

/// A pending commitment: who made it, its hash, and its period.
#[derive(Clone, PartialEq, Eq, Debug)]
struct CommitRow {
    who: AccountId,
    commit: crate::hashing::Hash,
    period: LockPeriod,
}

impl View for CommitRow {
    type V = (CommitKey, LockPeriod);

    closed spec fn view(&self) -> (CommitKey, LockPeriod) {
        ((self.who, self.commit@), self.period)
    }
}

/// The pending commitments, keyed by account and hash.
#[derive(Clone, PartialEq, Eq, Debug)]
pub struct LockPeriods {
    rows: Vec<CommitRow>,
}

impl View for LockPeriods {
    type V = Commits;

    closed spec fn view(&self) -> Commits {
        Seq::new(self.rows@.len(), |i: int| self.rows@[i]@)
    }
}

impl LockPeriods {
    /// A map without commitments.
    pub fn new() -> (map: LockPeriods)
        ensures
            map@ == Seq::<(CommitKey, LockPeriod)>::empty(),
    {
        let map = LockPeriods { rows: Vec::new() };
        assert(map@ =~= Seq::<(CommitKey, LockPeriod)>::empty());
        map
    }

    /// Where the commitment's row stands.
    fn position(&self, who: AccountId, commit: &crate::hashing::Hash) -> (at: Option<usize>)
        ensures
            match at {
                Some(i) => i < self@.len() && self@[i as int].0 == (who, commit@),
                None => !has_key(self@, (who, commit@)),
            },
    {
        let mut i: usize = 0;
        while i < self.rows.len()
            invariant
                i <= self.rows.len(),
                forall|j: int| 0 <= j < i ==> (#[trigger] self@[j]).0 != (who, commit@),
            decreases self.rows.len() - i,
        {
            if self.rows[i].who == who && same_hash(&self.rows[i].commit, commit) {
                return Some(i);
            }
            i += 1;
        }
        None
    }

    /// The period of the commitment, if it is pending.
    pub fn get(&self, who: AccountId, commit: &crate::hashing::Hash) -> (period: Option<
        LockPeriod,
    >)
        requires
            distinct_keys(self@),
        ensures
            period == lookup(self@, (who, commit@)),
    {
        match self.position(who, commit) {
            Some(i) => {
                proof {
                    lemma_index_of(self@, (who, commit@), i as int);
                }
                Some(self.rows[i].period)
            },
            None => None,
        }
    }

    /// Whether the commitment is pending.
    pub fn contains_key(&self, who: AccountId, commit: &crate::hashing::Hash) -> (found: bool)
        ensures
            found == has_key(self@, (who, commit@)),
    {
        self.position(who, commit).is_some()
    }

    /// Stores the commitment with its period, in place of the period it had if
    /// it was pending.
    pub fn insert(&mut self, who: AccountId, commit: crate::hashing::Hash, period: LockPeriod)
        requires
            distinct_keys(old(self)@),
        ensures
            final(self)@ == put(old(self)@, (who, commit@), period),
            distinct_keys(final(self)@),
    {
        proof {
            lemma_put_distinct(self@, (who, commit@), period);
        }
        let row = CommitRow { who, commit, period };
        match self.position(who, &commit) {
            Some(i) => {
                proof {
                    lemma_index_of(self@, (who, commit@), i as int);
                }
                self.rows[i] = row;
                assert(self@ =~= old(self)@.update(i as int, ((who, commit@), period)));
            },
            None => {
                self.rows.push(row);
                assert(self@ =~= old(self)@.push(((who, commit@), period)));
            },
        }
    }

    /// Takes the commitment out and gives its period, if it was pending.
    pub fn take(&mut self, who: AccountId, commit: &crate::hashing::Hash) -> (period: Option<
        LockPeriod,
    >)
        requires
            distinct_keys(old(self)@),
        ensures
            period == lookup(old(self)@, (who, commit@)),
            final(self)@ == without(old(self)@, (who, commit@)),
            distinct_keys(final(self)@),
    {
        proof {
            lemma_without_distinct(self@, (who, commit@));
        }
        match self.position(who, commit) {
            Some(i) => {
                proof {
                    lemma_index_of(self@, (who, commit@), i as int);
                }
                let row = self.rows.remove(i);
                assert(self@ =~= old(self)@.remove(i as int));
                Some(row.period)
            },
            None => None,
        }
    }

    /// Takes the commitment out, if it was pending.
    pub fn remove(&mut self, who: AccountId, commit: &crate::hashing::Hash)
        requires
            distinct_keys(old(self)@),
        ensures
            final(self)@ == without(old(self)@, (who, commit@)),
            distinct_keys(final(self)@),
    {
        let _ = self.take(who, commit);
    }

    /// How many commitments the account has pending.
    pub fn count_for(&self, who: AccountId) -> (count: usize)
        ensures
            count == active_commits(self@, who),
    {
        let mut count: usize = 0;
        let mut i: usize = 0;
        while i < self.rows.len()
            invariant
                i <= self.rows.len(),
                count == active_commits(self@.take(i as int), who),
                count <= i,
            decreases self.rows.len() - i,
        {
            proof {
                let next = self@.take(i + 1);
                assert(next.drop_last() =~= self@.take(i as int));
                assert(next.last() == self@[i as int]);
                lemma_active_commits_bound(next, who);
            }
            if self.rows[i].who == who {
                count += 1;
            }
            i += 1;
        }
        assert(self@.take(i as int) =~= self@);
        count
    }

    /// All the commitments with their periods, in the order of their rows.
    pub fn rows(&self) -> (rows: Vec<(AccountId, crate::hashing::Hash, LockPeriod)>)
        ensures
            commit_rows(rows@) == self@,
    {
        let mut rows: Vec<(AccountId, crate::hashing::Hash, LockPeriod)> = Vec::new();
        let mut i: usize = 0;
        while i < self.rows.len()
            invariant
                i <= self.rows.len(),
                commit_rows(rows@) =~= self@.take(i as int),
            decreases self.rows.len() - i,
        {
            let ghost before = rows@;
            rows.push((self.rows[i].who, self.rows[i].commit, self.rows[i].period));
            assert(commit_rows(rows@) =~= commit_rows(before).push(self@[i as int]));
            assert(self@.take(i + 1) =~= self@.take(i as int).push(self@[i as int]));
            i += 1;
        }
        assert(self@.take(i as int) =~= self@);
        rows
    }

    /// The keys of the commitments whose period ends at block `now` or before,
    /// in the order of their rows.
    pub fn expired(&self, now: BlockNumber) -> (keys: Vec<(AccountId, crate::hashing::Hash)>)
        ensures
            commit_keys(keys@) == keys_of(expired(self@, now)),
    {
        let mut keys: Vec<(AccountId, crate::hashing::Hash)> = Vec::new();
        let mut i: usize = 0;
        assert(self@.take(0) =~= Seq::<(CommitKey, LockPeriod)>::empty());
        while i < self.rows.len()
            invariant
                i <= self.rows.len(),
                commit_keys(keys@) =~= keys_of(expired(self@.take(i as int), now)),
            decreases self.rows.len() - i,
        {
            proof {
                let next = self@.take(i + 1);
                assert(next.drop_last() =~= self@.take(i as int));
                assert(next.last() == self@[i as int]);
            }
            let ghost before = keys@;
            if self.rows[i].period.end <= now {
                keys.push((self.rows[i].who, self.rows[i].commit));
                assert(commit_keys(keys@) =~= commit_keys(before).push(self@[i as int].0));
                assert(keys_of(expired(self@.take(i + 1), now)) =~= keys_of(
                    expired(self@.take(i as int), now),
                ).push(self@[i as int].0));
            }
            i += 1;
        }
        assert(self@.take(i as int) =~= self@);
        keys
    }
}

/// A name with its owner.
#[derive(Clone, PartialEq, Eq, Debug)]
struct OwnerRow {
    name: Name,
    owner: Owner,
}

impl View for OwnerRow {
    type V = (Seq<u8>, OwnerView);

    closed spec fn view(&self) -> (Seq<u8>, OwnerView) {
        (self.name@, self.owner@)
    }
}

/// The owners of names, keyed by name.
#[derive(Clone, PartialEq, Eq, Debug)]
pub struct Owners {
    rows: Vec<OwnerRow>,
}

impl View for Owners {
    type V = Holders;

    closed spec fn view(&self) -> Holders {
        Seq::new(self.rows@.len(), |i: int| self.rows@[i]@)
    }
}

impl Owners {
    /// A map without names.
    pub fn new() -> (map: Owners)
        ensures
            map@ == Seq::<(Seq<u8>, OwnerView)>::empty(),
    {
        let map = Owners { rows: Vec::new() };
        assert(map@ =~= Seq::<(Seq<u8>, OwnerView)>::empty());
        map
    }

    /// Where the name's row stands.
    fn position(&self, name: &Name) -> (at: Option<usize>)
        ensures
            match at {
                Some(i) => i < self@.len() && self@[i as int].0 == name@,
                None => !has_key(self@, name@),
            },
    {
        let mut i: usize = 0;
        while i < self.rows.len()
            invariant
                i <= self.rows.len(),
                forall|j: int| 0 <= j < i ==> (#[trigger] self@[j]).0 != name@,
            decreases self.rows.len() - i,
        {
            let same = self.rows[i].name == *name;
            assert(same == (self.rows[i as int].name@ =~= name@));
            if same {
                return Some(i);
            }
            i += 1;
        }
        None
    }

    /// The owner of the name, if it has one.
    pub fn get(&self, name: &Name) -> (owner: Option<Owner>)
        requires
            distinct_keys(self@),
        ensures
            match owner {
                Some(found) => lookup(self@, name@) == Some(found@),
                None => lookup(self@, name@) is None,
            },
    {
        match self.position(name) {
            Some(i) => {
                proof {
                    lemma_index_of(self@, name@, i as int);
                }
                Some(self.rows[i].owner)
            },
            None => None,
        }
    }

    /// Whether the name has an owner.
    pub fn contains_key(&self, name: &Name) -> (found: bool)
        ensures
            found == has_key(self@, name@),
    {
        self.position(name).is_some()
    }

    /// Gives the name to the owner, in place of the owner it had if it had one.
    pub fn insert(&mut self, name: Name, owner: Owner)
        requires
            distinct_keys(old(self)@),
        ensures
            final(self)@ == put(old(self)@, name@, owner@),
            distinct_keys(final(self)@),
    {
        proof {
            lemma_put_distinct(self@, name@, owner@);
        }
        match self.position(&name) {
            Some(i) => {
                proof {
                    lemma_index_of(self@, name@, i as int);
                }
                self.rows[i] = OwnerRow { name, owner };
                assert(self@ =~= old(self)@.update(i as int, (name@, owner@)));
            },
            None => {
                self.rows.push(OwnerRow { name, owner });
                assert(self@ =~= old(self)@.push((name@, owner@)));
            },
        }
    }

    /// Takes the name's row out, if it had an owner.
    pub fn remove(&mut self, name: &Name)
        requires
            distinct_keys(old(self)@),
        ensures
            final(self)@ == without(old(self)@, name@),
            distinct_keys(final(self)@),
    {
        proof {
            lemma_without_distinct(self@, name@);
        }
        match self.position(name) {
            Some(i) => {
                proof {
                    lemma_index_of(self@, name@, i as int);
                }
                let _ = self.rows.remove(i);
                assert(self@ =~= old(self)@.remove(i as int));
            },
            None => {},
        }
    }

    /// All the names with their owners, in the order of their rows.
    pub fn rows(&self) -> (rows: Vec<(Name, Owner)>)
        ensures
            holders(rows@) == self@,
    {
        let mut rows: Vec<(Name, Owner)> = Vec::new();
        let mut i: usize = 0;
        while i < self.rows.len()
            invariant
                i <= self.rows.len(),
                holders(rows@) =~= self@.take(i as int),
            decreases self.rows.len() - i,
        {
            let name = self.rows[i].name.clone();
            assert(name@ == self.rows[i as int].name@);
            let ghost before = rows@;
            rows.push((name, self.rows[i].owner));
            assert(holders(rows@) =~= holders(before).push(self@[i as int]));
            assert(self@.take(i + 1) =~= self@.take(i as int).push(self@[i as int]));
            i += 1;
        }
        assert(self@.take(i as int) =~= self@);
        rows
    }

    /// The names whose owner's period ends at block `now` or before, with
    /// their owners, in the order of their rows.
    pub fn expired(&self, now: BlockNumber) -> (rows: Vec<(Name, Owner)>)
        ensures
            holders(rows@) == expired(self@, now),
    {
        let mut found: Vec<(Name, Owner)> = Vec::new();
        let mut i: usize = 0;
        assert(self@.take(0) =~= Seq::<(Seq<u8>, OwnerView)>::empty());
        while i < self.rows.len()
            invariant
                i <= self.rows.len(),
                holders(found@) =~= expired(self@.take(i as int), now),
            decreases self.rows.len() - i,
        {
            proof {
                let next = self@.take(i + 1);
                assert(next.drop_last() =~= self@.take(i as int));
                assert(next.last() == self@[i as int]);
            }
            if self.rows[i].owner.lock_period.end <= now {
                let name = self.rows[i].name.clone();
                assert(name@ == self.rows[i as int].name@);
                found.push((name, self.rows[i].owner));
            }
            i += 1;
        }
        assert(self@.take(i as int) =~= self@);
        found
    }
}

} // verus!
