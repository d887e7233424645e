//! What holds of every registry, whatever calls it has seen.

use vstd::prelude::*;
use crate::collateral::{
    active_commits, after_call, after_calls, lemma_active_commits_without, lemma_lock_amount_zero,
    lemma_lock_call, lemma_locks_for_none, lock_amount, lock_call, locked, locks_agree_but,
    locks_for, Commits, CurrencyCall,
};
use crate::hashing::{commit_hash, preimage, AccountId};
use crate::model::{
    commit_expired_calls, lemma_commit_period, lemma_freed, lemma_locks_for_but, lemma_owned,
    lemma_owner_period, lemma_stored, lemma_swept_commits, lemma_swept_names, lemma_taken,
    name_freed_calls, period_at, Call, State,
};
use crate::storage::Holders;
use crate::table::{
    distinct_keys, expired, has_key, index_of, kept, keys_of, lemma_index_of, lemma_kept_rows,
    lemma_lookup_kept, lemma_lookup_put, lemma_lookup_without, lemma_sweep,
    lemma_without_all_absent, lemma_without_all_rows, lemma_without_all_twice, lemma_without_one,
    lookup, without, without_all,
};
use crate::types::{Balance, BlockNumber, Config, EventView, LockPeriod, Origin, OwnerView};

verus! {

/// A commitment depends only on the encoding of the account followed by the
/// encoding of the name: two pairs with the same bytes have the same
/// commitment.
pub proof fn law_hash_depends_on_encoding(
    id: AccountId,
    name: Seq<u8>,
    other_id: AccountId,
    other_name: Seq<u8>,
)
    requires
        preimage(id, name) == preimage(other_id, other_name),
    ensures
        commit_hash(id, name) == commit_hash(other_id, other_name),
{
}

/// A new registry is sound.
pub proof fn law_initial_sound(config: Config)
    ensures
        State::initial(config).wf(),
{
    lemma_locks_for_none(config.fund_to_lock);
}

/// A commitment keeps a sound registry sound.
pub proof fn law_commit_sound(state: State, who: AccountId, hash: Seq<u8>)
    requires
        state.wf(),
    ensures
        state.commit(who, hash).wf(),
{
    lemma_stored(state, who, hash, period_at(state.now, state.config.register_period));
}

/// Showing a name under a pending commitment keeps a sound registry sound.
pub proof fn law_reveal_sound(state: State, who: AccountId, name: Seq<u8>, commit: Seq<u8>)
    requires
        state.wf(),
        has_key(state.commits, (who, commit)),
    ensures
        state.reveal_commit(who, name, commit).wf(),
{
    lemma_taken(state, who, commit);
    lemma_commit_period(state, (who, commit));
    let claim = lookup(state.commits, (who, commit))->0;
    let spent = (State { commits: without(state.commits, (who, commit)), ..state }).update_lock(
        who,
    );
    if !state.discredits(name, claim) {
        lemma_owned(spent, name, OwnerView { id: who, commit, lock_period: claim });
    }
}

/// A renewal by the owner keeps a sound registry sound.
pub proof fn law_renew_sound(state: State, who: AccountId, name: Seq<u8>)
    requires
        state.wf(),
        state.ensure_owner(who, name) is Ok,
    ensures
        state.renew(name).wf(),
{
    lemma_owner_period(state, name);
    let owner = lookup(state.owners, name)->0;
    let renewed = OwnerView {
        lock_period: LockPeriod {
            begin: owner.lock_period.begin,
            end: (state.now + state.config.register_period) as u64,
        },
        ..owner
    };
    lemma_owned(state, name, renewed);
}

/// Giving a name up keeps a sound registry sound.
pub proof fn law_unregister_sound(state: State, name: Seq<u8>)
    requires
        state.wf(),
    ensures
        state.unregister(name).wf(),
{
    lemma_freed(state, name);
}

/// The close of a block keeps a sound registry sound.
pub proof fn law_finalize_sound(state: State, n: BlockNumber)
    requires
        state.wf(),
    ensures
        state.finalized(n).wf(),
{
    lemma_swept_commits(state, n);
    lemma_swept_names(state.sweep_commits(n), n);
}

/// Whatever happens to a sound registry, it stays sound.
pub proof fn law_call_sound(state: State, call: Call)
    requires
        state.wf(),
    ensures
        state.after(call).wf(),
{
    match call {
        Call::Commit { origin, hash } => {
            if let Origin::Signed(who) = origin {
                law_commit_sound(state, who, hash);
            }
        },
        Call::Reveal { origin, name } => {
            if let Origin::Signed(who) = origin {
                if has_key(state.commits, (who, commit_hash(who, name))) {
                    law_reveal_sound(state, who, name, commit_hash(who, name));
                }
            }
        },
        Call::Renew { origin, name } => {
            if let Origin::Signed(who) = origin {
                if state.ensure_owner(who, name) is Ok {
                    law_renew_sound(state, who, name);
                }
            }
        },
        Call::Unregister { origin, name } => {
            law_unregister_sound(state, name);
        },
        Call::Finalize { n } => {
            law_finalize_sound(state, n);
        },
        Call::SetBlockNumber { n } => {},
    }
}

/// A registry is sound after any calls, in any order, from the start. So at
/// every point no key occurs twice in either map, every commitment lasts one
/// register period, and no period ends before it begins.
pub proof fn law_always_sound(config: Config, calls: Seq<Call>)
    ensures
        State::initial(config).after_all(calls).wf(),
    decreases calls.len(),
{
    if calls.len() == 0 {
        law_initial_sound(config);
    } else {
        law_always_sound(config, calls.drop_last());
        law_call_sound(State::initial(config).after_all(calls.drop_last()), calls.last());
    }
}

/// In a sound registry the currency has locked, of every account's balance,
/// the fund for each commitment that the account has pending, up to the
/// largest balance; and an account without a pending commitment has no lock.
pub proof fn law_collateral_sound(state: State, who: AccountId)
    requires
        state.wf(),
    ensures
        locked(state.locks, who) == lock_amount(
            active_commits(state.commits, who),
            state.config.fund_to_lock,
        ),
        active_commits(state.commits, who) == 0 ==> !state.locks.contains_key(who),
        state.locks.contains_key(who) ==> state.locks[who] > 0,
{
    lemma_lock_amount_zero(state.config.fund_to_lock);
}

/// After any calls, in any order, from the start, the currency has locked of
/// every account's balance the fund for each commitment that the account has
/// pending, up to the largest balance; and an account without a pending
/// commitment has no lock.
pub proof fn law_collateral(config: Config, calls: Seq<Call>, who: AccountId)
    ensures
        ({
            let state = State::initial(config).after_all(calls);
            &&& locked(state.locks, who) == lock_amount(
                active_commits(state.commits, who),
                config.fund_to_lock,
            )
            &&& active_commits(state.commits, who) == 0 ==> !state.locks.contains_key(who)
        }),
{
    law_always_sound(config, calls);
    law_config_fixed(State::initial(config), calls);
    law_collateral_sound(State::initial(config).after_all(calls), who);
}

/// No call changes the registry's parameters.
pub proof fn law_config_fixed(state: State, calls: Seq<Call>)
    ensures
        state.after_all(calls).config == state.config,
    decreases calls.len(),
{
    if calls.len() > 0 {
        law_config_fixed(state, calls.drop_last());
    }
}

/// Calls made one run after another are the calls of both runs.
pub proof fn lemma_after_calls_concat(
    locks: Map<AccountId, Balance>,
    first: Seq<CurrencyCall>,
    then: Seq<CurrencyCall>,
)
    ensures
        after_calls(locks, first + then) == after_calls(after_calls(locks, first), then),
    decreases then.len(),
{
    if then.len() == 0 {
        assert(first + then =~= first);
    } else {
        assert((first + then).drop_last() =~= first + then.drop_last());
        assert((first + then).last() == then.last());
        lemma_after_calls_concat(locks, first, then.drop_last());
    }
}

/// A single call, made of the locks.
proof fn lemma_after_calls_one(locks: Map<AccountId, Balance>, call: CurrencyCall)
    ensures
        after_calls(locks, seq![call]) == after_call(locks, call),
{
    let one = seq![call];
    assert(one.drop_last() =~= Seq::<CurrencyCall>::empty());
    assert(one.last() == call);
    assert(after_calls(locks, one.drop_last()) == locks);
}

/// While commitments are taken out by their keys, the calls made so far have
/// made the locks those that the commitments left so far call for.
proof fn lemma_commit_expired_calls(commits: Commits, fund: Balance, keys: Seq<
    (AccountId, Seq<u8>),
>, done: int)
    requires
        distinct_keys(commits),
        0 <= done <= keys.len(),
    ensures
        after_calls(
            locks_for(commits, fund),
            commit_expired_calls(commits, fund, keys).take(done),
        ) == locks_for(without_all(commits, keys.take(done)), fund),
    decreases done,
{
    let calls = commit_expired_calls(commits, fund, keys);
    if done == 0 {
        assert(keys.take(0) =~= Seq::empty());
        lemma_without_all_absent(commits, keys.take(0));
        assert(calls.take(0) =~= Seq::<CurrencyCall>::empty());
    } else {
        let i = done - 1;
        lemma_commit_expired_calls(commits, fund, keys, i);
        let before = without_all(commits, keys.take(i));
        let after = without_all(commits, keys.take(done));
        let key = keys[i];
        lemma_without_all_rows(commits, keys.take(i));
        lemma_without_one(before, key);
        lemma_without_all_twice(commits, keys.take(i), seq![key]);
        assert(keys.take(i) + seq![key] =~= keys.take(done));
        assert(after == without(before, key));
        assert forall|other: AccountId| other != key.0 implies active_commits(after, other)
            == active_commits(before, other) by {
            lemma_active_commits_without(before, key, other);
        }
        lemma_locks_for_but(before, after, fund, key.0);
        lemma_lock_call(locks_for(before, fund), after, fund, key.0);
        assert(calls.take(done).drop_last() =~= calls.take(i));
        assert(calls.take(done).last() == lock_call(after, fund, key.0));
    }
}

/// While names are set free, the calls made leave the locks as they are, where
/// they were those that the commitments call for.
proof fn lemma_name_freed_calls(commits: Commits, fund: Balance, rows: Holders, done: int)
    requires
        0 <= done <= rows.len(),
    ensures
        after_calls(locks_for(commits, fund), name_freed_calls(commits, fund, rows).take(done))
            == locks_for(commits, fund),
    decreases done,
{
    let calls = name_freed_calls(commits, fund, rows);
    if done == 0 {
        assert(calls.take(0) =~= Seq::<CurrencyCall>::empty());
    } else {
        let i = done - 1;
        lemma_name_freed_calls(commits, fund, rows, i);
        lemma_lock_call(locks_for(commits, fund), commits, fund, rows[i].1.id);
        assert(calls.take(done).drop_last() =~= calls.take(i));
        assert(calls.take(done).last() == lock_call(commits, fund, rows[i].1.id));
    }
}

/// The calls that are new since a state: those of a later state that the
/// earlier one does not have yet.
pub open spec fn new_currency_calls(before: State, after: State) -> Seq<CurrencyCall> {
    after.currency_calls.skip(before.currency_calls.len() as int)
}

/// Whatever happens to a sound registry, the calls made to the currency are
/// added to those that wait for the host, and they make the locks what the
/// registry holds them to be.
pub proof fn law_calls_make_locks(state: State, call: Call)
    requires
        state.wf(),
    ensures
        state.after(call).currency_calls == state.currency_calls + new_currency_calls(
            state,
            state.after(call),
        ),
        after_calls(state.locks, new_currency_calls(state, state.after(call))) == state.after(
            call,
        ).locks,
{
    let after = state.after(call);
    let fund = state.config.fund_to_lock;
    let fresh = new_currency_calls(state, after);
    law_call_sound(state, call);
    if after == state {
        assert(fresh =~= Seq::<CurrencyCall>::empty());
        assert(state.currency_calls + fresh =~= state.currency_calls);
    } else {
        match call {
            Call::Commit { origin, hash } => {
                let who = origin->Signed_0;
                lemma_stored(state, who, hash, period_at(state.now, state.config.register_period));
                assert(fresh =~= seq![lock_call(after.commits, fund, who)]);
                lemma_after_calls_one(state.locks, lock_call(after.commits, fund, who));
                lemma_lock_call(state.locks, after.commits, fund, who);
            },
            Call::Reveal { origin, name } => {
                let who = origin->Signed_0;
                lemma_taken(state, who, commit_hash(who, name));
                assert(fresh =~= seq![lock_call(after.commits, fund, who)]);
                lemma_after_calls_one(state.locks, lock_call(after.commits, fund, who));
                lemma_lock_call(state.locks, after.commits, fund, who);
            },
            Call::Renew { origin, name } => {
                assert(fresh =~= Seq::<CurrencyCall>::empty());
            },
            Call::Unregister { origin, name } => {
                let who = lookup(state.owners, name)->0.id;
                assert(fresh =~= seq![lock_call(state.commits, fund, who)]);
                lemma_after_calls_one(state.locks, lock_call(state.commits, fund, who));
                lemma_lock_call(state.locks, state.commits, fund, who);
            },
            Call::Finalize { n } => {
                let keys = keys_of(expired(state.commits, n));
                let first = commit_expired_calls(state.commits, fund, keys);
                let rows = expired(state.owners, n);
                let then = name_freed_calls(kept(state.commits, n), fund, rows);
                assert(fresh =~= first + then);
                assert(after.currency_calls =~= state.currency_calls + fresh);
                lemma_commit_expired_calls(state.commits, fund, keys, keys.len() as int);
                assert(first.take(keys.len() as int) =~= first);
                assert(keys.take(keys.len() as int) =~= keys);
                lemma_sweep(state.commits, n);
                lemma_name_freed_calls(kept(state.commits, n), fund, rows, rows.len() as int);
                assert(then.take(rows.len() as int) =~= then);
                lemma_after_calls_concat(state.locks, first, then);
            },
            Call::SetBlockNumber { n } => {
                assert(fresh =~= Seq::<CurrencyCall>::empty());
            },
        }
        assert(state.currency_calls + fresh =~= after.currency_calls);
    }
}

/// After any calls, in any order, from the start, the locks that the registry
/// holds the currency to have are what the calls to the currency have made.
pub proof fn law_locks_follow_calls(config: Config, calls: Seq<Call>)
    ensures
        after_calls(Map::empty(), State::initial(config).after_all(calls).currency_calls)
            == State::initial(config).after_all(calls).locks,
    decreases calls.len(),
{
    if calls.len() > 0 {
        let before = State::initial(config).after_all(calls.drop_last());
        let after = before.after(calls.last());
        law_locks_follow_calls(config, calls.drop_last());
        law_always_sound(config, calls.drop_last());
        law_calls_make_locks(before, calls.last());
        lemma_after_calls_concat(
            Map::empty(),
            before.currency_calls,
            new_currency_calls(before, after),
        );
    }
}

/// The earlier commitment wins. Where `who` shows a name that has a holder,
/// `who` takes the holder's place if the commitment of `who` began before the
/// holder's, and only then: else the owners stay as they are and the claim is
/// told as discredited.
pub proof fn law_earlier_commit_wins(
    state: State,
    who: AccountId,
    name: Seq<u8>,
    commit: Seq<u8>,
)
    requires
        state.wf(),
        has_key(state.commits, (who, commit)),
        has_key(state.owners, name),
    ensures
        ({
            let claim = lookup(state.commits, (who, commit))->0;
            let holder = lookup(state.owners, name)->0;
            let after = state.reveal_commit(who, name, commit);
            if claim.begin < holder.lock_period.begin {
                &&& lookup(after.owners, name) == Some(
                    OwnerView { id: who, commit, lock_period: claim },
                )
                &&& lookup(after.owners, name) != Some(holder)
                &&& after.events == state.events.push(EventView::NameOwned(name, who))
            } else {
                &&& after.owners == state.owners
                &&& after.events == state.events.push(EventView::RevealDiscredited(name, who))
            }
        }),
{
    let claim = lookup(state.commits, (who, commit))->0;
    lemma_lookup_put(
        state.owners,
        name,
        OwnerView { id: who, commit, lock_period: claim },
        name,
    );
}

/// A name that nobody holds goes to the account that shows it, and the owners
/// of all other names stay.
pub proof fn law_free_name_is_taken(
    state: State,
    who: AccountId,
    name: Seq<u8>,
    commit: Seq<u8>,
    other: Seq<u8>,
)
    requires
        state.wf(),
        has_key(state.commits, (who, commit)),
        !has_key(state.owners, name),
    ensures
        ({
            let claim = lookup(state.commits, (who, commit))->0;
            let after = state.reveal_commit(who, name, commit);
            lookup(after.owners, other) == (if other == name {
                Some(OwnerView { id: who, commit, lock_period: claim })
            } else {
                lookup(state.owners, other)
            })
        }),
{
    let claim = lookup(state.commits, (who, commit))->0;
    lemma_lookup_put(
        state.owners,
        name,
        OwnerView { id: who, commit, lock_period: claim },
        other,
    );
}

/// Showing a name spends the commitment, whether the name is won or the claim
/// discredited: the commitment is pending no more, the account has one
/// commitment less pending, and every other commitment is as it was.
pub proof fn law_reveal_spends_commit(
    state: State,
    who: AccountId,
    name: Seq<u8>,
    commit: Seq<u8>,
    other: (AccountId, Seq<u8>),
)
    requires
        state.wf(),
        has_key(state.commits, (who, commit)),
    ensures
        ({
            let after = state.reveal_commit(who, name, commit);
            &&& !has_key(after.commits, (who, commit))
            &&& after.commits.len() == state.commits.len() - 1
            &&& active_commits(after.commits, who) == active_commits(state.commits, who) - 1
            &&& other != (who, commit) ==> lookup(after.commits, other) == lookup(
                state.commits,
                other,
            )
        }),
{
    lemma_lookup_without(state.commits, (who, commit), (who, commit));
    lemma_lookup_without(state.commits, (who, commit), other);
    lemma_active_commits_without(state.commits, (who, commit), who);
}

/// After the close of block `n` no commitment and no ownership is left that
/// ends at block `n` or before.
pub proof fn law_expiry_complete(state: State, n: BlockNumber)
    ensures
        forall|i: int|
            0 <= i < state.finalized(n).commits.len() ==> (#[trigger] state.finalized(
                n,
            ).commits[i]).1.end > n,
        forall|i: int|
            0 <= i < state.finalized(n).owners.len() ==> (#[trigger] state.finalized(
                n,
            ).owners[i]).1.lock_period.end > n,
{
    lemma_kept_rows(state.commits, n);
    lemma_kept_rows(state.owners, n);
}

/// The close of block `n` takes out nothing else: a commitment, and the owner
/// of a name, that ends after block `n` stays as it is.
pub proof fn law_expiry_exact(state: State, n: BlockNumber, key: (AccountId, Seq<u8>), name: Seq<u8>)
    requires
        state.wf(),
    ensures
        lookup(state.finalized(n).commits, key) == (match lookup(state.commits, key) {
            Some(period) => if period.end > n {
                Some(period)
            } else {
                None
            },
            None => None,
        }),
        lookup(state.finalized(n).owners, name) == (match lookup(state.owners, name) {
            Some(owner) => if owner.lock_period.end > n {
                Some(owner)
            } else {
                None
            },
            None => None,
        }),
{
    lemma_lookup_kept(state.commits, n, key);
    lemma_lookup_kept(state.owners, n, name);
}

/// A renewal changes the end of the one ownership and nothing else: every
/// commitment, and every owner's beginning, is as it was.
pub proof fn law_renew_keeps_begin(state: State, who: AccountId, name: Seq<u8>)
    requires
        state.wf(),
        state.ensure_owner(who, name) is Ok,
    ensures
        ({
            let after = state.renew(name);
            &&& after.commits == state.commits
            &&& after.locks == state.locks
            &&& after.currency_calls == state.currency_calls
            &&& after.owners.len() == state.owners.len()
            &&& forall|i: int|
                0 <= i < state.owners.len() ==> {
                    &&& (#[trigger] after.owners[i]).0 == state.owners[i].0
                    &&& after.owners[i].1.id == state.owners[i].1.id
                    &&& after.owners[i].1.commit == state.owners[i].1.commit
                    &&& after.owners[i].1.lock_period.begin
                        == state.owners[i].1.lock_period.begin
                    &&& state.owners[i].0 != name ==> after.owners[i] == state.owners[i]
                }
            &&& lookup(after.owners, name)->0.lock_period.end == state.now
                + state.config.register_period
        }),
{
    let at = index_of(state.owners, name);
    let owner = lookup(state.owners, name)->0;
    let renewed = OwnerView {
        lock_period: LockPeriod {
            begin: owner.lock_period.begin,
            end: (state.now + state.config.register_period) as u64,
        },
        ..owner
    };
    lemma_index_of(state.owners, name, at);
    lemma_lookup_put(state.owners, name, renewed, name);
}

} // verus!
