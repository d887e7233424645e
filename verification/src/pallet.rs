//! The registry: its four calls and the sweep at the end of a block.

use vstd::prelude::*;
use crate::collateral::{
    active_commits, lemma_lock_call, lemma_locks_for_none, lock_amount, locked, saturating_mul,
    CurrencyCall, Locks,
};
use crate::hashing::{commit_hash, hash_of, AccountId, Name, MAX_NAME_LEN};
use crate::model::{
    commit_expired_calls, commit_expired_events, lemma_commit_period, lemma_freed, lemma_owned,
    lemma_owner_period, lemma_stored, lemma_swept_commits, lemma_swept_names, lemma_taken,
    name_freed_calls, name_freed_events, State,
};
use crate::storage::{commit_keys, commit_rows, holders, LockPeriods, Owners};
use crate::table::{
    expired, has_key, index_of, keys_of, lemma_sweep, lemma_without_all_absent, lemma_without_all_rows,
    lemma_without_all_twice, lemma_without_one, lookup, without_all,
};
use crate::types::{
    ensure_signed, Balance, BlockNumber, Config, Error, Event, EventView, LockPeriod, Origin,
    Owner, OwnerView,
};

verus! {

/// The events as the model has them.
pub open spec fn event_views(events: Seq<Event>) -> Seq<EventView> {
    Seq::new(events.len(), |i: int| events[i]@)
}

/// A registry of names. Accounts commit to the hash of a name, show the name
/// later, and hold it for a register period at a time. For every pending
/// commitment a fund is locked of the account's balance.
#[derive(Clone, PartialEq, Eq, Debug)]
pub struct Pallet {
    config: Config,
    block_number: BlockNumber,
    lock_periods: LockPeriods,
    owners: Owners,
    locks: Locks,
    currency_calls: Vec<CurrencyCall>,
    events: Vec<Event>,
}

impl View for Pallet {
    type V = State;

    closed spec fn view(&self) -> State {
        State {
            config: self.config,
            now: self.block_number,
            commits: self.lock_periods@,
            owners: self.owners@,
            locks: self.locks@,
            currency_calls: self.currency_calls@,
            events: event_views(self.events@),
        }
    }
}

impl Pallet {
    /// The registry is sound: see [`State::wf`].
    pub open spec fn wf(&self) -> bool {
        self@.wf()
    }

    /// A registry with the given parameters, at block 0, that holds nothing.
    pub fn new(config: Config) -> (registry: Pallet)
        ensures
            registry.wf(),
            registry@ == State::initial(config),
    {
        let registry = Pallet {
            config,
            block_number: 0,
            lock_periods: LockPeriods::new(),
            owners: Owners::new(),
            locks: Locks::new(),
            currency_calls: Vec::new(),
            events: Vec::new(),
        };
        assert(registry@.events =~= Seq::<EventView>::empty());
        proof {
            lemma_locks_for_none(config.fund_to_lock);
        }
        registry
    }

    /// A registry at block `now` that holds the given commitments and owners,
    /// in their order, with the locks that the commitments call for and no
    /// events. There is none where they are not sound: see [`State::maps_wf`].
    pub fn restore(
        config: Config,
        now: BlockNumber,
        commits: Vec<(AccountId, crate::hashing::Hash, LockPeriod)>,
        owners: Vec<(Name, Owner)>,
    ) -> (restored: Option<Pallet>)
        ensures
            match restored {
                Some(registry) => registry.wf() && registry@ == State::restored(
                    config,
                    now,
                    commit_rows(commits@),
                    holders(owners@),
                ),
                None => !State::restored(config, now, commit_rows(commits@), holders(owners@)).wf(),
            },
    {
        let ghost wanted = State::restored(config, now, commit_rows(commits@), holders(owners@));
        if now.checked_add(config.register_period).is_none() {
            return None;
        }
        let mut registry = Pallet::new(config);
        registry.block_number = now;
        let mut i: usize = 0;
        assert(wanted.commits.take(0) =~= registry@.commits);
        while i < commits.len()
            invariant
                i <= commits.len(),
                wanted == State::restored(config, now, commit_rows(commits@), holders(owners@)),
                registry.wf(),
                registry@ == (State {
                    currency_calls: registry@.currency_calls,
                    ..State::restored(config, now, wanted.commits.take(i as int), Seq::empty())
                }),
            decreases commits.len() - i,
        {
            let (who, commit, period) = commits[i];
            assert(wanted.commits[i as int] == ((who, commit@), period));
            if registry.lock_periods.contains_key(who, &commit) {
                proof {
                    let j = index_of(registry@.commits, (who, commit@));
                    assert(wanted.commits[j] == wanted.commits.take(i as int)[j]);
                }
                return None;
            }
            if period.begin > now {
                return None;
            }
            if period.end != period.begin + config.register_period {
                return None;
            }
            proof {
                lemma_stored(registry@, who, commit@, period);
            }
            registry.lock_periods.insert(who, commit, period);
            registry.update_locked_fund(who);
            assert(registry@.commits =~= wanted.commits.take(i + 1));
            i += 1;
        }
        assert(wanted.commits.take(i as int) =~= wanted.commits);
        let mut k: usize = 0;
        assert(wanted.owners.take(0) =~= registry@.owners);
        while k < owners.len()
            invariant
                k <= owners.len(),
                wanted == State::restored(config, now, commit_rows(commits@), holders(owners@)),
                registry.wf(),
                registry@ == (State {
                    currency_calls: registry@.currency_calls,
                    ..State::restored(config, now, wanted.commits, wanted.owners.take(k as int))
                }),
            decreases owners.len() - k,
        {
            let name = owners[k].0.clone();
            let owner = owners[k].1;
            assert(wanted.owners[k as int] == (name@, owner@));
            if registry.owners.contains_key(&name) {
                proof {
                    let j = index_of(registry@.owners, name@);
                    assert(wanted.owners[j] == wanted.owners.take(k as int)[j]);
                }
                return None;
            }
            if owner.lock_period.begin > now {
                return None;
            }
            if owner.lock_period.end < owner.lock_period.begin + config.register_period {
                return None;
            }
            proof {
                lemma_owned(registry@, name@, owner@);
            }
            registry.owners.insert(name, owner);
            assert(registry@.owners =~= wanted.owners.take(k + 1));
            k += 1;
        }
        assert(wanted.owners.take(k as int) =~= wanted.owners);
        registry.currency_calls = Vec::new();
        Some(registry)
    }

    /// The pending commitments with their periods, in the order of their
    /// rows.
    pub fn lock_period_rows(&self) -> (rows: Vec<(AccountId, crate::hashing::Hash, LockPeriod)>)
        ensures
            commit_rows(rows@) == self@.commits,
    {
        self.lock_periods.rows()
    }

    /// The names that are held with their owners, in the order of their rows.
    pub fn owner_rows(&self) -> (rows: Vec<(Name, Owner)>)
        ensures
            holders(rows@) == self@.owners,
    {
        self.owners.rows()
    }

    /// The registry's parameters.
    pub fn config(&self) -> (config: Config)
        ensures
            config == self@.config,
    {
        self.config
    }

    /// The number of the current block.
    pub fn block_number(&self) -> (now: BlockNumber)
        ensures
            now == self@.now,
    {
        self.block_number
    }

    /// Moves on to block `n`. Blocks are numbered upwards, and a period that
    /// begins at block `n` must end at a block that has a number.
    pub fn set_block_number(&mut self, n: BlockNumber)
        requires
            old(self).wf(),
            old(self)@.now <= n,
            n + old(self)@.config.register_period <= u64::MAX,
        ensures
            final(self).wf(),
            final(self)@ == old(self)@.at_block(n),
    {
        self.block_number = n;
    }

    /// The period of the commitment of `who` to `commit`, if it is pending.
    pub fn lock_periods(&self, who: AccountId, commit: crate::hashing::Hash) -> (period: Option<
        LockPeriod,
    >)
        requires
            self.wf(),
        ensures
            period == lookup(self@.commits, (who, commit@)),
    {
        self.lock_periods.get(who, &commit)
    }

    /// The owner of `name`, if it has one.
    pub fn owners(&self, name: Name) -> (owner: Option<Owner>)
        requires
            self.wf(),
        ensures
            match owner {
                Some(found) => lookup(self@.owners, name@) == Some(found@),
                None => lookup(self@.owners, name@) is None,
            },
    {
        self.owners.get(&name)
    }

    /// What the currency has locked of the balance of `who` for this registry:
    /// the fund for each commitment that `who` has pending, up to the largest
    /// balance.
    pub fn locked_fund(&self, who: AccountId) -> (amount: Balance)
        requires
            self.wf(),
        ensures
            amount == locked(self@.locks, who),
            amount == lock_amount(
                active_commits(self@.commits, who),
                self@.config.fund_to_lock,
            ),
    {
        self.locks.balance_locked(who)
    }

    /// The calls made to the currency that the host has not taken yet, oldest
    /// first.
    pub fn currency_calls(&self) -> (calls: &Vec<CurrencyCall>)
        ensures
            calls@ == self@.currency_calls,
    {
        &self.currency_calls
    }

    /// Hands the host the calls that it has to make to its currency, oldest
    /// first, and forgets them.
    pub fn take_currency_calls(&mut self) -> (calls: Vec<CurrencyCall>)
        ensures
            calls@ == old(self)@.currency_calls,
            final(self)@ == (State { currency_calls: Seq::empty(), ..old(self)@ }),
    {
        let mut calls: Vec<CurrencyCall> = Vec::new();
        std::mem::swap(&mut self.currency_calls, &mut calls);
        calls
    }

    /// The events that the host has not taken yet, oldest first.
    pub fn events(&self) -> (events: &Vec<Event>)
        ensures
            event_views(events@) == self@.events,
    {
        &self.events
    }

    /// Hands the host the events that it has to deposit, oldest first, and
    /// forgets them.
    pub fn take_events(&mut self) -> (events: Vec<Event>)
        ensures
            event_views(events@) == old(self)@.events,
            final(self)@ == (State { events: Seq::empty(), ..old(self)@ }),
    {
        let mut events: Vec<Event> = Vec::new();
        std::mem::swap(&mut self.events, &mut events);
        assert(self@.events =~= Seq::<EventView>::empty());
        events
    }

    /// The commitment of `id` to `name`.
    pub fn hash_of(id: AccountId, name: Name) -> (h: crate::hashing::Hash)
        requires
            name@.len() <= MAX_NAME_LEN,
        ensures
            h@ == commit_hash(id, name@),
    {
        hash_of(id, &name)
    }

    /// Records the commitment of the caller to `hash`, for a period that
    /// begins now, and locks a fund for it. A commitment that was pending
    /// starts anew. Only a call that no account signed is refused.
    pub fn commit(&mut self, origin: Origin, hash: crate::hashing::Hash) -> (r: Result<(), Error>)
        requires
            old(self).wf(),
        ensures
            final(self).wf(),
            match origin {
                Origin::Signed(who) => r is Ok && final(self)@ == old(self)@.commit(who, hash@),
                _ => r == Err::<(), Error>(Error::BadOrigin) && final(self)@ == old(self)@,
            },
    {
        let who = match ensure_signed(origin) {
            Ok(who) => who,
            Err(e) => {
                return Err(e);
            },
        };
        let begin = self.block_number;
        let end = begin + self.config.register_period;
        let lock_period = LockPeriod { begin, end };
        proof {
            lemma_stored(self@, who, hash@, lock_period);
        }
        self.lock_periods.insert(who, hash, lock_period);
        self.update_locked_fund(who);
        Ok(())
    }

    /// Shows the name that the caller has committed to. The call is refused
    /// where no account signed it, and where the caller has no pending
    /// commitment to the name. Else the commitment is spent and its fund
    /// unlocked, and the caller owns the name, unless it is held by a
    /// commitment that began no later: see [`Pallet::reveal_commit`].
    pub fn reveal_name(&mut self, origin: Origin, name: Name) -> (r: Result<(), Error>)
        requires
            old(self).wf(),
            name@.len() <= MAX_NAME_LEN,
        ensures
            final(self).wf(),
            match origin {
                Origin::Signed(who) => if has_key(
                    old(self)@.commits,
                    (who, commit_hash(who, name@)),
                ) {
                    r is Ok && final(self)@ == old(self)@.reveal_commit(
                        who,
                        name@,
                        commit_hash(who, name@),
                    )
                } else {
                    r == Err::<(), Error>(Error::CommitNotFound) && final(self)@ == old(self)@
                },
                _ => r == Err::<(), Error>(Error::BadOrigin) && final(self)@ == old(self)@,
            },
    {
        let who = match ensure_signed(origin) {
            Ok(who) => who,
            Err(e) => {
                return Err(e);
            },
        };
        let commit = hash_of(who, &name);
        self.reveal_commit(who, name, commit)
    }

    /// Settles the claim of `who` to `name` under the commitment `commit`. It
    /// is refused where that commitment is not pending. Else the commitment is
    /// spent and its fund unlocked. Where the name is held by a commitment
    /// that began no later, the holder stays and the claim is told as
    /// discredited; else `who` owns the name for the commitment's period.
    pub fn reveal_commit(&mut self, who: AccountId, name: Name, commit: crate::hashing::Hash) -> (r:
        Result<(), Error>)
        requires
            old(self).wf(),
        ensures
            final(self).wf(),
            if has_key(old(self)@.commits, (who, commit@)) {
                r is Ok && final(self)@ == old(self)@.reveal_commit(who, name@, commit@)
            } else {
                r == Err::<(), Error>(Error::CommitNotFound) && final(self)@ == old(self)@
            },
    {
        proof {
            lemma_taken(self@, who, commit@);
            if has_key(self@.commits, (who, commit@)) {
                lemma_commit_period(self@, (who, commit@));
            }
        }
        let new_claim_lock_period = match self.lock_periods.take(who, &commit) {
            Some(period) => period,
            None => {
                return Err(Error::CommitNotFound);
            },
        };
        if let Some(current_owner) = self.owners.get(&name) {
            if current_owner.lock_period.begin <= new_claim_lock_period.begin {
                self.update_locked_fund(who);
                self.deposit_event(Event::RevealDiscredited(name, who));
                return Ok(());
            }
        }
        let owner = Owner { id: who, commit, lock_period: new_claim_lock_period };
        proof {
            lemma_owned(self@, name@, owner@);
        }
        self.owners.insert(name.clone(), owner);
        self.update_locked_fund(who);
        self.deposit_event(Event::NameOwned(name, who));
        Ok(())
    }

    /// Renews the caller's ownership of `name`: it ends one register period
    /// from now. When it began stays as it was. The call is refused where no
    /// account signed it, where nobody owns the name, and where another
    /// account does.
    pub fn renew(&mut self, origin: Origin, name: Name) -> (r: Result<(), Error>)
        requires
            old(self).wf(),
        ensures
            final(self).wf(),
            match origin {
                Origin::Signed(who) => match old(self)@.ensure_owner(who, name@) {
                    Ok(_) => r is Ok && final(self)@ == old(self)@.renew(name@),
                    Err(e) => r == Err::<(), Error>(e) && final(self)@ == old(self)@,
                },
                _ => r == Err::<(), Error>(Error::BadOrigin) && final(self)@ == old(self)@,
            },
    {
        let who = match ensure_signed(origin) {
            Ok(who) => who,
            Err(e) => {
                return Err(e);
            },
        };
        let mut owner = match self.ensure_owner(who, &name) {
            Ok(owner) => owner,
            Err(e) => {
                return Err(e);
            },
        };
        proof {
            lemma_owner_period(self@, name@);
        }
        owner.lock_period.end = self.block_number + self.config.register_period;
        proof {
            lemma_owned(self@, name@, owner@);
        }
        self.owners.insert(name, owner);
        Ok(())
    }

    /// Gives the caller's name up: nobody owns it any more. The call is
    /// refused where no account signed it, where nobody owns the name, and
    /// where another account does.
    pub fn unregister(&mut self, origin: Origin, name: Name) -> (r: Result<(), Error>)
        requires
            old(self).wf(),
        ensures
            final(self).wf(),
            match origin {
                Origin::Signed(who) => match old(self)@.ensure_owner(who, name@) {
                    Ok(_) => r is Ok && final(self)@ == old(self)@.unregister(name@),
                    Err(e) => r == Err::<(), Error>(e) && final(self)@ == old(self)@,
                },
                _ => r == Err::<(), Error>(Error::BadOrigin) && final(self)@ == old(self)@,
            },
    {
        let who = match ensure_signed(origin) {
            Ok(who) => who,
            Err(e) => {
                return Err(e);
            },
        };
        match self.ensure_owner(who, &name) {
            Ok(_) => {},
            Err(e) => {
                return Err(e);
            },
        };
        proof {
            lemma_freed(self@, name@);
        }
        self.owners.remove(&name);
        self.update_locked_fund(who);
        self.deposit_event(Event::NameFreed(name));
        Ok(())
    }

    /// Closes block `n`: takes out the commitments, and then sets free the
    /// names, whose period ends at block `n` or before. They go one after the
    /// other, in the order of their rows; after each, the lock of its account
    /// is brought up to date and an event is told.
    pub fn on_finalize(&mut self, n: BlockNumber)
        requires
            old(self).wf(),
        ensures
            final(self).wf(),
            final(self)@ == old(self)@.finalized(n),
    {
        self.remove_expired_commits(n);
        self.remove_expired_names(n);
    }

    /// Tells the host an event.
    fn deposit_event(&mut self, event: Event)
        ensures
            final(self)@ == old(self)@.emit(event@),
    {
        self.events.push(event);
        assert(self@.events =~= old(self)@.events.push(event@));
    }

    /// Brings the lock of `id` up to date by a call to the currency: it sets a
    /// lock of the fund for each commitment that `id` has pending, up to the
    /// largest balance, or lifts the lock where `id` has none pending.
    fn update_locked_fund(&mut self, id: AccountId)
        requires
            old(self)@.wf_but_lock(id),
        ensures
            final(self).wf(),
            final(self)@ == old(self)@.update_lock(id),
    {
        proof {
            lemma_lock_call(self@.locks, self@.commits, self@.config.fund_to_lock, id);
        }
        let num_of_commits = self.lock_periods.count_for(id);
        if num_of_commits > 0 {
            let amount_to_lock = saturating_mul(self.config.fund_to_lock, num_of_commits as u64);
            self.locks.set_lock(id, amount_to_lock);
            self.currency_calls.push(CurrencyCall::SetLock { who: id, amount: amount_to_lock });
        } else {
            self.locks.remove_lock(id);
            self.currency_calls.push(CurrencyCall::RemoveLock { who: id });
        }
    }

    /// The owner of `name` if that is `origin`, else why `origin` may not
    /// dispose of the name.
    fn ensure_owner(&self, origin: AccountId, name: &Name) -> (r: Result<Owner, Error>)
        requires
            self.wf(),
        ensures
            match r {
                Ok(owner) => self@.ensure_owner(origin, name@) == Ok::<OwnerView, Error>(owner@),
                Err(e) => self@.ensure_owner(origin, name@) == Err::<OwnerView, Error>(e),
            },
    {
        if let Some(owner) = self.owners.get(name) {
            if owner.id != origin {
                Err(Error::NameNotOwned)
            } else {
                Ok(owner)
            }
        } else {
            Err(Error::NameNotFound)
        }
    }

    /// Takes out the commitments whose period ends at block `now` or before.
    /// Their keys are gathered first; then each is taken out, its account's
    /// lock brought up to date, and an event told.
    fn remove_expired_commits(&mut self, now: BlockNumber)
        requires
            old(self).wf(),
        ensures
            final(self).wf(),
            final(self)@ == old(self)@.sweep_commits(now),
    {
        let expired_commits = self.lock_periods.expired(now);
        let ghost start = self@;
        let ghost keys = commit_keys(expired_commits@);
        let mut i: usize = 0;
        let ghost fund = start.config.fund_to_lock;
        proof {
            assert(keys.take(0) =~= Seq::empty());
            lemma_without_all_absent(start.commits, keys.take(0));
            assert(start.events + commit_expired_events(keys.take(0)) =~= start.events);
            assert(start.currency_calls + commit_expired_calls(start.commits, fund, keys).take(0)
                =~= start.currency_calls);
        }
        while i < expired_commits.len()
            invariant
                i <= expired_commits.len(),
                start.wf(),
                keys == commit_keys(expired_commits@),
                keys == keys_of(expired(start.commits, now)),
                fund == start.config.fund_to_lock,
                self.wf(),
                self@ == (State {
                    commits: without_all(start.commits, keys.take(i as int)),
                    locks: self@.locks,
                    currency_calls: start.currency_calls + commit_expired_calls(
                        start.commits,
                        fund,
                        keys,
                    ).take(i as int),
                    events: start.events + commit_expired_events(keys.take(i as int)),
                    ..start
                }),
            decreases expired_commits.len() - i,
        {
            let (id, commit) = expired_commits[i];
            let ghost key = (id, commit@);
            let ghost before = self@;
            proof {
                assert(keys[i as int] == key);
                lemma_taken(before, id, commit@);
                lemma_without_all_rows(start.commits, keys.take(i as int));
                lemma_without_one(before.commits, key);
                lemma_without_all_twice(start.commits, keys.take(i as int), seq![key]);
                assert(keys.take(i as int) + seq![key] =~= keys.take(i + 1));
            }
            self.lock_periods.remove(id, &commit);
            self.update_locked_fund(id);
            self.deposit_event(Event::CommitExpired(commit, id));
            proof {
                assert(self@.events =~= start.events + commit_expired_events(keys.take(i + 1)));
                assert(self@.currency_calls =~= start.currency_calls + commit_expired_calls(
                    start.commits,
                    fund,
                    keys,
                ).take(i + 1));
            }
            i += 1;
        }
        proof {
            assert(keys.take(i as int) =~= keys);
            assert(commit_expired_calls(start.commits, fund, keys).take(i as int)
                =~= commit_expired_calls(start.commits, fund, keys));
            lemma_sweep(start.commits, now);
            lemma_swept_commits(start, now);
        }
    }

    /// Sets free the names whose owner's period ends at block `now` or before.
    /// The names are gathered first; then each is taken out, its owner's lock
    /// brought up to date, and an event told.
    fn remove_expired_names(&mut self, now: BlockNumber)
        requires
            old(self).wf(),
        ensures
            final(self).wf(),
            final(self)@ == old(self)@.sweep_names(now),
    {
        let expired_names = self.owners.expired(now);
        let ghost start = self@;
        let ghost gone = holders(expired_names@);
        let ghost names = keys_of(gone);
        let ghost fund = start.config.fund_to_lock;
        let mut i: usize = 0;
        proof {
            assert(names.take(0) =~= Seq::empty());
            lemma_without_all_absent(start.owners, names.take(0));
            assert(start.events + name_freed_events(names.take(0)) =~= start.events);
            assert(start.currency_calls + name_freed_calls(start.commits, fund, gone).take(0)
                =~= start.currency_calls);
        }
        while i < expired_names.len()
            invariant
                i <= expired_names.len(),
                start.wf(),
                gone == holders(expired_names@),
                gone == expired(start.owners, now),
                names == keys_of(gone),
                fund == start.config.fund_to_lock,
                self.wf(),
                self@ == (State {
                    owners: without_all(start.owners, names.take(i as int)),
                    currency_calls: start.currency_calls + name_freed_calls(
                        start.commits,
                        fund,
                        gone,
                    ).take(i as int),
                    events: start.events + name_freed_events(names.take(i as int)),
                    ..start
                }),
            decreases expired_names.len() - i,
        {
            let name = expired_names[i].0.clone();
            let id = expired_names[i].1.id;
            let ghost before = self@;
            proof {
                assert(gone[i as int] == (name@, expired_names[i as int].1@));
                assert(names[i as int] == name@);
                lemma_freed(before, name@);
                lemma_without_all_rows(start.owners, names.take(i as int));
                lemma_without_one(before.owners, name@);
                lemma_without_all_twice(start.owners, names.take(i as int), seq![name@]);
                assert(names.take(i as int) + seq![name@] =~= names.take(i + 1));
            }
            self.owners.remove(&name);
            self.update_locked_fund(id);
            self.deposit_event(Event::NameFreed(name));
            proof {
                assert(self@.events =~= start.events + name_freed_events(names.take(i + 1)));
                assert(self@.currency_calls =~= start.currency_calls + name_freed_calls(
                    start.commits,
                    fund,
                    gone,
                ).take(i + 1));
            }
            i += 1;
        }
        proof {
            assert(names.take(i as int) =~= names);
            assert(name_freed_calls(start.commits, fund, gone).take(i as int)
                =~= name_freed_calls(start.commits, fund, gone));
            lemma_sweep(start.owners, now);
            lemma_swept_names(start, now);
        }
    }
}

} // verus!
