//! The values that the registry stores, takes and hands out.

use vstd::prelude::*;
use crate::hashing::{AccountId, Name};

verus! {

/// The number of a block.
pub type BlockNumber = u64;

/// An amount of the host's currency.
pub type Balance = u64;

/// The tag under which the host's currency holds this registry's locks.
pub type LockIdentifier = [u8; 8];

/// The parameters of a registry. They are set when it is made and never change.
#[derive(Clone, Copy, PartialEq, Eq, Debug)]
pub struct Config {
    /// The tag of the registry's locks in the host's currency.
    pub module_id: LockIdentifier,
    /// For how many blocks a commitment, or the ownership of a name, lasts.
    pub register_period: BlockNumber,
    /// How much is locked for every commitment that an account has pending.
    pub fund_to_lock: Balance,
    /// The length that the host lets a name have.
    pub name_max_len: u32,
}

/// The blocks during which a commitment or the ownership of a name is in force:
/// from `begin`, up to but not including `end`.
#[derive(Clone, Copy, PartialEq, Eq, Debug, Default, Structural)]
pub struct LockPeriod {
    pub begin: BlockNumber,
    pub end: BlockNumber,
}

/// Who holds a name, by which commitment, and for how long.
#[derive(Clone, Copy, PartialEq, Eq, Debug, Default)]
pub struct Owner {
    pub id: AccountId,
    pub commit: crate::hashing::Hash,
    pub lock_period: LockPeriod,
}

/// An [`Owner`] with its commitment as a sequence of bytes.
pub struct OwnerView {
    pub id: AccountId,
    pub commit: Seq<u8>,
    pub lock_period: LockPeriod,
}

impl View for Owner {
    type V = OwnerView;

    open spec fn view(&self) -> OwnerView {
        OwnerView { id: self.id, commit: self.commit@, lock_period: self.lock_period }
    }
}

/// Who sent a call.
#[derive(Clone, Copy, PartialEq, Eq, Debug)]
pub enum Origin {
    /// The host itself.
    Root,
    /// The account that signed the call.
    Signed(AccountId),
    /// Nobody.
    Unsigned,
}

impl Origin {
    /// The origin of a call that `who` signed.
    pub fn signed(who: AccountId) -> (origin: Origin)
        ensures
            origin == Origin::Signed(who),
    {
        Origin::Signed(who)
    }
}

/// Why a call was refused. A refused call changes nothing.
#[derive(Clone, Copy, PartialEq, Eq, Debug, Structural)]
pub enum Error {
    /// The call was not signed by an account.
    BadOrigin,
    /// Nobody holds the name.
    NameNotFound,
    /// Another account holds the name.
    NameNotOwned,
    /// The caller has no pending commitment to the name.
    CommitNotFound,
}

/// What the registry tells the host.
#[derive(Clone, PartialEq, Eq, Debug)]
pub enum Event {
    /// The account now holds the name.
    NameOwned(Name, AccountId),
    /// Nobody holds the name any more: it was given up, or its period ran out.
    NameFreed(Name),
    /// The account showed the name, but its holder had committed no later. The
    /// account's commitment is spent and the holder stays.
    RevealDiscredited(Name, AccountId),
    /// The account's commitment ran out before the name was shown.
    CommitExpired(crate::hashing::Hash, AccountId),
}

/// An [`Event`] with its name or commitment as a sequence of bytes.
pub enum EventView {
    NameOwned(Seq<u8>, AccountId),
    NameFreed(Seq<u8>),
    RevealDiscredited(Seq<u8>, AccountId),
    CommitExpired(Seq<u8>, AccountId),
}

impl View for Event {
    type V = EventView;

    open spec fn view(&self) -> EventView {
        match *self {
            Event::NameOwned(name, who) => EventView::NameOwned(name@, who),
            Event::NameFreed(name) => EventView::NameFreed(name@),
            Event::RevealDiscredited(name, who) => EventView::RevealDiscredited(name@, who),
            Event::CommitExpired(commit, who) => EventView::CommitExpired(commit@, who),
        }
    }
}

/// The account that signed the call, or `BadOrigin` for any other origin.
pub fn ensure_signed(origin: Origin) -> (r: Result<AccountId, Error>)
    ensures
        r == (match origin {
            Origin::Signed(who) => Ok::<AccountId, Error>(who),
            _ => Err(Error::BadOrigin),
        }),
{
    match origin {
        Origin::Signed(who) => Ok(who),
        _ => Err(Error::BadOrigin),
    }
}

} // verus!
