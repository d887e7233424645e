//! A registry of vanity names.
//!
//! An account claims a name in two steps. It first commits to the hash of its
//! own identifier followed by the name, and only later shows the name. Whoever
//! committed first wins the name, also against an account that saw the
//! commitment and showed the name sooner. For every pending commitment a fund is
//! locked of the account's balance. The ownership of a name, like a commitment,
//! lasts for a register period; at the end of every block what has run out is
//! swept away.
//!
//! The registry is a [`Pallet`]. Its host tells it the number of each block,
//! hands it the calls of the accounts, and closes each block with
//! [`Pallet::on_finalize`]. What the registry decides for the host to do, it
//! writes down: the host takes the calls to make to its currency with
//! [`Pallet::take_currency_calls`], and the events to deposit with
//! [`Pallet::take_events`]. A host that keeps the rows elsewhere between calls
//! reads them with [`Pallet::lock_period_rows`] and [`Pallet::owner_rows`], and
//! sets the registry up again with [`Pallet::restore`].
//!
//! What every call does is stated over [`model::State`], the registry as a
//! state machine; [`laws`] holds what is proved of all its runs.

pub mod collateral;
pub mod hashing;
pub mod laws;
pub mod model;
pub mod pallet;
pub mod storage;
pub mod table;
pub mod types;
pub mod weights;

pub use collateral::CurrencyCall;
pub use pallet::Pallet;
pub use types::{Config, Error, Event, LockPeriod, Origin, Owner};
pub use weights::WeightInfo;
