//! The registry as a state machine: what it holds, and what each call makes
//! of it.

use vstd::prelude::*;
use crate::collateral::{
    active_commits, lemma_active_commits_put, lemma_active_commits_without, lock_call,
    locks_agree_but, locks_for, CommitKey, Commits, CurrencyCall,
};
use crate::hashing::{commit_hash, AccountId};
use crate::storage::Holders;
use crate::table::{
    distinct_keys, expired, has_key, index_of, kept, keys_of, lemma_kept_distinct,
    lemma_kept_rows, lemma_put_distinct, lemma_without_distinct, lookup, put, without,
    without_all,
};
use crate::types::{
    Balance, BlockNumber, Config, Error, EventView, LockPeriod, Origin, OwnerView,
};

verus! {

/// The period that begins at block `begin` and lasts `length` blocks.
pub open spec fn period_at(begin: BlockNumber, length: BlockNumber) -> LockPeriod {
    LockPeriod { begin, end: (begin + length) as u64 }
}

/// One event for each commitment that ran out, in the order of the keys.
pub open spec fn commit_expired_events(keys: Seq<CommitKey>) -> Seq<EventView> {
    Seq::new(keys.len(), |i: int| EventView::CommitExpired(keys[i].1, keys[i].0))
}

/// One event for each name that fell free, in the order of the names.
pub open spec fn name_freed_events(names: Seq<Seq<u8>>) -> Seq<EventView> {
    Seq::new(names.len(), |i: int| EventView::NameFreed(names[i]))
}

/// The calls that bring the locks up to date while the commitments of the given
/// keys are taken out one after the other: after each, one for its account.
pub open spec fn commit_expired_calls(
    commits: Commits,
    fund: Balance,
    keys: Seq<CommitKey>,
) -> Seq<CurrencyCall> {
    Seq::new(
        keys.len(),
        |i: int| lock_call(without_all(commits, keys.take(i + 1)), fund, keys[i].0),
    )
}

/// The calls that bring the locks up to date while the names in the given rows
/// are set free: for each, one for its owner.
pub open spec fn name_freed_calls(commits: Commits, fund: Balance, rows: Holders) -> Seq<
    CurrencyCall,
> {
    Seq::new(rows.len(), |i: int| lock_call(commits, fund, rows[i].1.id))
}

/// All that a registry holds.
pub struct State {
    /// Its parameters.
    pub config: Config,
    /// The number of the current block.
    pub now: BlockNumber,
    /// The pending commitments.
    pub commits: Commits,
    /// The names that are held, with their owners.
    pub owners: Holders,
    /// What the currency has locked under the registry's tag, by account.
    pub locks: Map<AccountId, Balance>,
    /// The calls made to the currency that the host has not taken yet.
    pub currency_calls: Seq<CurrencyCall>,
    /// The events that the host has not taken yet.
    pub events: Seq<EventView>,
}

impl State {
    /// The state of a new registry with the given parameters, at block 0.
    pub open spec fn initial(config: Config) -> State {
        State {
            config,
            now: 0,
            commits: Seq::empty(),
            owners: Seq::empty(),
            locks: Map::empty(),
            currency_calls: Seq::empty(),
            events: Seq::empty(),
        }
    }

    /// The state of a registry that is set up at block `now` with the given
    /// commitments and owners: the locks are those that the commitments call
    /// for, and no call or event waits for the host.
    pub open spec fn restored(
        config: Config,
        now: BlockNumber,
        commits: Commits,
        owners: Holders,
    ) -> State {
        State {
            config,
            now,
            commits,
            owners,
            locks: locks_for(commits, config.fund_to_lock),
            currency_calls: Seq::empty(),
            events: Seq::empty(),
        }
    }

    /// The two maps are sound. No key occurs twice. A commitment began at the
    /// current block or before and lasts one register period. The ownership of
    /// a name began at the current block or before and lasts at least one
    /// register period. A period that begins now ends at a block that has a
    /// number.
    pub open spec fn maps_wf(self) -> bool {
        &&& self.now + self.config.register_period <= u64::MAX
        &&& distinct_keys(self.commits)
        &&& distinct_keys(self.owners)
        &&& forall|i: int|
            0 <= i < self.commits.len() ==> {
                let period = (#[trigger] self.commits[i]).1;
                period.begin <= self.now && period.end == period.begin
                    + self.config.register_period
            }
        &&& forall|i: int|
            0 <= i < self.owners.len() ==> {
                let period = (#[trigger] self.owners[i]).1.lock_period;
                period.begin <= self.now && period.begin + self.config.register_period
                    <= period.end
            }
    }

    /// The state is sound: its maps are, and the currency has locked for each
    /// account what its pending commitments call for.
    pub open spec fn wf(self) -> bool {
        &&& self.maps_wf()
        &&& self.locks == locks_for(self.commits, self.config.fund_to_lock)
    }

    /// The state is sound, but that the lock of `who` may be out of date.
    pub open spec fn wf_but_lock(self, who: AccountId) -> bool {
        &&& self.maps_wf()
        &&& locks_agree_but(self.locks, self.commits, self.config.fund_to_lock, who)
    }

    /// The state at block `n`.
    pub open spec fn at_block(self, n: BlockNumber) -> State {
        State { now: n, ..self }
    }

    /// The state after the lock of `who` is brought up to date by a call to
    /// the currency: the locks are those that the commitments call for.
    pub open spec fn update_lock(self, who: AccountId) -> State {
        State {
            locks: locks_for(self.commits, self.config.fund_to_lock),
            currency_calls: self.currency_calls.push(
                lock_call(self.commits, self.config.fund_to_lock, who),
            ),
            ..self
        }
    }

    /// The state after one more event.
    pub open spec fn emit(self, event: EventView) -> State {
        State { events: self.events.push(event), ..self }
    }

    /// The state after `who` commits to `hash`: the commitment is pending for a
    /// period that begins now.
    pub open spec fn commit(self, who: AccountId, hash: Seq<u8>) -> State {
        State {
            commits: put(
                self.commits,
                (who, hash),
                period_at(self.now, self.config.register_period),
            ),
            ..self
        }.update_lock(who)
    }

    /// Whether a claim to `name` loses to the name's holder: it does where the
    /// name is held by a commitment that began no later than the claim's.
    pub open spec fn discredits(self, name: Seq<u8>, claim: LockPeriod) -> bool {
        match lookup(self.owners, name) {
            Some(current) => current.lock_period.begin <= claim.begin,
            None => false,
        }
    }

    /// The state after `who` shows `name` under the pending commitment
    /// `commit`. The commitment is spent. Where the claim loses to the holder,
    /// the owners stay as they are; else `who` owns the name for the
    /// commitment's period.
    pub open spec fn reveal_commit(self, who: AccountId, name: Seq<u8>, commit: Seq<u8>) -> State {
        let claim = lookup(self.commits, (who, commit))->0;
        let spent = State {
            commits: without(self.commits, (who, commit)),
            ..self
        }.update_lock(who);
        if self.discredits(name, claim) {
            spent.emit(EventView::RevealDiscredited(name, who))
        } else {
            State {
                owners: put(
                    self.owners,
                    name,
                    OwnerView { id: who, commit, lock_period: claim },
                ),
                ..spent
            }.emit(EventView::NameOwned(name, who))
        }
    }

    /// The owner of `name` if that is `who`, else why `who` may not dispose of
    /// the name.
    pub open spec fn ensure_owner(self, who: AccountId, name: Seq<u8>) -> Result<
        OwnerView,
        Error,
    > {
        match lookup(self.owners, name) {
            Some(owner) => if owner.id != who {
                Err(Error::NameNotOwned)
            } else {
                Ok(owner)
            },
            None => Err(Error::NameNotFound),
        }
    }

    /// The state after the owner of `name` renews it: the ownership ends one
    /// register period from now, and began when it did.
    pub open spec fn renew(self, name: Seq<u8>) -> State {
        let owner = lookup(self.owners, name)->0;
        let renewed = OwnerView {
            lock_period: LockPeriod {
                begin: owner.lock_period.begin,
                end: (self.now + self.config.register_period) as u64,
            },
            ..owner
        };
        State { owners: put(self.owners, name, renewed), ..self }
    }

    /// The state after the owner of `name` gives it up: nobody owns the name,
    /// and the owner's lock is brought up to date.
    pub open spec fn unregister(self, name: Seq<u8>) -> State {
        State { owners: without(self.owners, name), ..self }.update_lock(
            lookup(self.owners, name)->0.id,
        ).emit(EventView::NameFreed(name))
    }

    /// The state after the commitments that end at block `n` or before are
    /// taken out one after the other, in the order of their rows. After each,
    /// its account's lock is brought up to date and an event is told.
    pub open spec fn sweep_commits(self, n: BlockNumber) -> State {
        let gone = keys_of(expired(self.commits, n));
        State {
            commits: kept(self.commits, n),
            locks: locks_for(kept(self.commits, n), self.config.fund_to_lock),
            currency_calls: self.currency_calls + commit_expired_calls(
                self.commits,
                self.config.fund_to_lock,
                gone,
            ),
            events: self.events + commit_expired_events(gone),
            ..self
        }
    }

    /// The state after the names whose ownership ends at block `n` or before
    /// are set free one after the other, in the order of their rows. After
    /// each, its owner's lock is brought up to date and an event is told.
    pub open spec fn sweep_names(self, n: BlockNumber) -> State {
        let gone = expired(self.owners, n);
        State {
            owners: kept(self.owners, n),
            locks: locks_for(self.commits, self.config.fund_to_lock),
            currency_calls: self.currency_calls + name_freed_calls(
                self.commits,
                self.config.fund_to_lock,
                gone,
            ),
            events: self.events + name_freed_events(keys_of(gone)),
            ..self
        }
    }

    /// The state after block `n` is closed: first the commitments are swept,
    /// then the names.
    pub open spec fn finalized(self, n: BlockNumber) -> State {
        self.sweep_commits(n).sweep_names(n)
    }
}

/// What can happen to a registry: one of its four calls, the close of a block,
/// or the start of another block.
pub enum Call {
    Commit { origin: Origin, hash: Seq<u8> },
    Reveal { origin: Origin, name: Seq<u8> },
    Renew { origin: Origin, name: Seq<u8> },
    Unregister { origin: Origin, name: Seq<u8> },
    Finalize { n: BlockNumber },
    SetBlockNumber { n: BlockNumber },
}

impl State {
    /// The state after a call. A call that is refused leaves the state as it
    /// is, and so does an attempt to number a block lower than the current
    /// one, or so high that a period from it has no end.
    pub open spec fn after(self, call: Call) -> State {
        match call {
            Call::Commit { origin, hash } => match origin {
                Origin::Signed(who) => self.commit(who, hash),
                _ => self,
            },
            Call::Reveal { origin, name } => match origin {
                Origin::Signed(who) => if has_key(self.commits, (who, commit_hash(who, name))) {
                    self.reveal_commit(who, name, commit_hash(who, name))
                } else {
                    self
                },
                _ => self,
            },
            Call::Renew { origin, name } => match origin {
                Origin::Signed(who) => if self.ensure_owner(who, name) is Ok {
                    self.renew(name)
                } else {
                    self
                },
                _ => self,
            },
            Call::Unregister { origin, name } => match origin {
                Origin::Signed(who) => if self.ensure_owner(who, name) is Ok {
                    self.unregister(name)
                } else {
                    self
                },
                _ => self,
            },
            Call::Finalize { n } => self.finalized(n),
            Call::SetBlockNumber { n } => if self.now <= n && n + self.config.register_period
                <= u64::MAX {
                self.at_block(n)
            } else {
                self
            },
        }
    }

    /// The state after the calls, one after the other.
    pub open spec fn after_all(self, calls: Seq<Call>) -> State
        decreases calls.len(),
    {
        if calls.len() == 0 {
            self
        } else {
            self.after_all(calls.drop_last()).after(calls.last())
        }
    }
}

/// Where every account but `who` has as many commitments pending as before,
/// the locks that are called for differ at most for `who`.
pub proof fn lemma_locks_for_but(before: Commits, after: Commits, fund: Balance, who: AccountId)
    requires
        forall|other: AccountId|
            other != who ==> active_commits(after, other) == active_commits(before, other),
    ensures
        locks_agree_but(locks_for(before, fund), after, fund, who),
{
    assert(locks_for(before, fund).remove(who) =~= locks_for(after, fund).remove(who));
}

/// After a commitment of `who` is stored with a sound period, only the lock of
/// `who` may be out of date.
pub proof fn lemma_stored(state: State, who: AccountId, hash: Seq<u8>, period: LockPeriod)
    requires
        state.wf(),
        period.begin <= state.now,
        period.end == period.begin + state.config.register_period,
    ensures
        (State { commits: put(state.commits, (who, hash), period), ..state }).wf_but_lock(who),
{
    let after = put(state.commits, (who, hash), period);
    lemma_put_distinct(state.commits, (who, hash), period);
    assert forall|i: int| 0 <= i < after.len() implies {
        let p = (#[trigger] after[i]).1;
        p.begin <= state.now && p.end == p.begin + state.config.register_period
    } by {
        if has_key(state.commits, (who, hash)) {
            if i != index_of(state.commits, (who, hash)) {
                assert(after[i] == state.commits[i]);
            }
        } else {
            if i < state.commits.len() {
                assert(after[i] == state.commits[i]);
            }
        }
    }
    assert forall|other: AccountId| other != who implies active_commits(after, other)
        == active_commits(state.commits, other) by {
        lemma_active_commits_put(state.commits, (who, hash), period, other);
    }
    lemma_locks_for_but(state.commits, after, state.config.fund_to_lock, who);
}

/// After a commitment of `who` is taken out, only the lock of `who` may be out
/// of date.
pub proof fn lemma_taken(state: State, who: AccountId, hash: Seq<u8>)
    requires
        state.wf(),
    ensures
        (State { commits: without(state.commits, (who, hash)), ..state }).wf_but_lock(who),
{
    let after = without(state.commits, (who, hash));
    lemma_without_distinct(state.commits, (who, hash));
    if has_key(state.commits, (who, hash)) {
        let at = index_of(state.commits, (who, hash));
        assert forall|i: int| 0 <= i < after.len() implies {
            let p = (#[trigger] after[i]).1;
            p.begin <= state.now && p.end == p.begin + state.config.register_period
        } by {
            assert(after[i] == state.commits[if i < at {
                i
            } else {
                i + 1
            }]);
        }
    }
    assert forall|other: AccountId| other != who implies active_commits(after, other)
        == active_commits(state.commits, other) by {
        lemma_active_commits_without(state.commits, (who, hash), other);
    }
    lemma_locks_for_but(state.commits, after, state.config.fund_to_lock, who);
}

/// Giving a name to an owner whose period is sound keeps the maps sound.
pub proof fn lemma_owned(state: State, name: Seq<u8>, owner: OwnerView)
    requires
        state.maps_wf(),
        owner.lock_period.begin <= state.now,
        owner.lock_period.begin + state.config.register_period <= owner.lock_period.end,
    ensures
        (State { owners: put(state.owners, name, owner), ..state }).maps_wf(),
{
    let after = put(state.owners, name, owner);
    lemma_put_distinct(state.owners, name, owner);
    assert forall|i: int| 0 <= i < after.len() implies {
        let p = (#[trigger] after[i]).1.lock_period;
        p.begin <= state.now && p.begin + state.config.register_period <= p.end
    } by {
        if has_key(state.owners, name) {
            if i != index_of(state.owners, name) {
                assert(after[i] == state.owners[i]);
            }
        } else {
            if i < state.owners.len() {
                assert(after[i] == state.owners[i]);
            }
        }
    }
}

/// Taking a name's owner out keeps the maps sound.
pub proof fn lemma_freed(state: State, name: Seq<u8>)
    requires
        state.maps_wf(),
    ensures
        (State { owners: without(state.owners, name), ..state }).maps_wf(),
{
    let after = without(state.owners, name);
    lemma_without_distinct(state.owners, name);
    if has_key(state.owners, name) {
        let at = index_of(state.owners, name);
        assert forall|i: int| 0 <= i < after.len() implies {
            let p = (#[trigger] after[i]).1.lock_period;
            p.begin <= state.now && p.begin + state.config.register_period <= p.end
        } by {
            assert(after[i] == state.owners[if i < at {
                i
            } else {
                i + 1
            }]);
        }
    }
}

/// What is stored under a key of a sound state is sound: a commitment lasts
/// one register period from a block that is not in the future.
pub proof fn lemma_commit_period(state: State, key: CommitKey)
    requires
        state.maps_wf(),
        has_key(state.commits, key),
    ensures
        lookup(state.commits, key)->0.begin <= state.now,
        lookup(state.commits, key)->0.end == lookup(state.commits, key)->0.begin
            + state.config.register_period,
{
    let at = index_of(state.commits, key);
    assert(state.commits[at].1 == lookup(state.commits, key)->0);
}

/// The ownership of a name in a sound state began at a block that is not in
/// the future.
pub proof fn lemma_owner_period(state: State, name: Seq<u8>)
    requires
        state.maps_wf(),
        has_key(state.owners, name),
    ensures
        lookup(state.owners, name)->0.lock_period.begin <= state.now,
        lookup(state.owners, name)->0.lock_period.begin + state.config.register_period <= lookup(
            state.owners,
            name,
        )->0.lock_period.end,
{
    let at = index_of(state.owners, name);
    assert(state.owners[at].1 == lookup(state.owners, name)->0);
}

/// Sweeping the commitments keeps a sound state sound.
pub proof fn lemma_swept_commits(state: State, n: BlockNumber)
    requires
        state.wf(),
    ensures
        state.sweep_commits(n).wf(),
{
    let after = kept(state.commits, n);
    lemma_kept_distinct(state.commits, n);
    lemma_kept_rows(state.commits, n);
    assert forall|i: int| 0 <= i < after.len() implies {
        let p = (#[trigger] after[i]).1;
        p.begin <= state.now && p.end == p.begin + state.config.register_period
    } by {
        assert(state.commits.contains(after[i]));
        let j = choose|j: int| 0 <= j < state.commits.len() && state.commits[j] == after[i];
        assert(state.commits[j].1 == after[i].1);
    }
}

/// Sweeping the names keeps a sound state sound.
pub proof fn lemma_swept_names(state: State, n: BlockNumber)
    requires
        state.wf(),
    ensures
        state.sweep_names(n).wf(),
{
    let after = kept(state.owners, n);
    lemma_kept_distinct(state.owners, n);
    lemma_kept_rows(state.owners, n);
    assert forall|i: int| 0 <= i < after.len() implies {
        let p = (#[trigger] after[i]).1.lock_period;
        p.begin <= state.now && p.begin + state.config.register_period <= p.end
    } by {
        assert(state.owners.contains(after[i]));
        let j = choose|j: int| 0 <= j < state.owners.len() && state.owners[j] == after[i];
        assert(state.owners[j].1 == after[i].1);
    }
}

} // verus!
