use std::collections::HashMap;

use vanity_registry::{Config, CurrencyCall, Error, LockPeriod, Origin, Pallet};

const REGISTER_PERIOD: u64 = 95;
const FUND_TO_LOCK: u64 = 57;

fn new_test_ext() -> Pallet {
    Pallet::new(Config {
        module_id: *b"template",
        register_period: REGISTER_PERIOD,
        fund_to_lock: FUND_TO_LOCK,
        name_max_len: 32,
    })
}

/// Why the currency refuses a transfer.
#[derive(Debug, PartialEq)]
enum BalancesError {
    InsufficientBalance,
    LiquidityRestrictions,
}

/// A currency with free balances and one lock for each account, as the host of
/// a registry has it.
#[derive(Clone, Debug, PartialEq)]
struct Balances {
    free: HashMap<u64, u64>,
    locks: HashMap<u64, u64>,
}

impl Balances {
    fn new() -> Balances {
        Balances { free: HashMap::new(), locks: HashMap::new() }
    }

    fn deposit_creating(&mut self, who: u64, amount: u64) {
        *self.free.entry(who).or_insert(0) += amount;
    }

    fn free_balance(&self, who: u64) -> u64 {
        self.free.get(&who).copied().unwrap_or(0)
    }

    fn set_lock(&mut self, who: u64, amount: u64) {
        if amount == 0 {
            return;
        }
        self.locks.insert(who, amount);
    }

    fn remove_lock(&mut self, who: u64) {
        self.locks.remove(&who);
    }

    /// Makes the calls that the registry has for the currency.
    fn settle(&mut self, registry: &mut Pallet) {
        for call in registry.take_currency_calls() {
            match call {
                CurrencyCall::SetLock { who, amount } => self.set_lock(who, amount),
                CurrencyCall::RemoveLock { who } => self.remove_lock(who),
            }
        }
    }

    fn transfer(
        &mut self,
        registry: &mut Pallet,
        from: u64,
        to: u64,
        amount: u64,
    ) -> Result<(), BalancesError> {
        self.settle(registry);
        let locked = self.locks.get(&from).copied().unwrap_or(0);
        assert_eq!(locked, registry.locked_fund(from));
        let free = self.free_balance(from);
        if free < amount {
            return Err(BalancesError::InsufficientBalance);
        }
        if free - amount < locked {
            return Err(BalancesError::LiquidityRestrictions);
        }
        self.free.insert(from, free - amount);
        self.deposit_creating(to, amount);
        Ok(())
    }
}

#[test]
fn straight_forward_commit() {
    let mut registry = new_test_ext();
    let alice_id: u64 = 1;
    let name = b"Alice".to_vec();
    let commit = Pallet::hash_of(alice_id, name);

    let block_number = 7;
    registry.set_block_number(block_number);

    assert_eq!(registry.commit(Origin::signed(alice_id), commit), Ok(()));

    let lock_period = registry.lock_periods(alice_id, commit).unwrap();
    assert_eq!(lock_period.begin, block_number);
    assert_eq!(lock_period.end, block_number + REGISTER_PERIOD);
}

#[test]
fn straight_forward_reveal() {
    let mut registry = new_test_ext();
    let id: u64 = 1;
    let name = b"Alice".to_vec();
    let commit = Pallet::hash_of(id, name.clone());
    assert_eq!(registry.commit(Origin::signed(id), commit), Ok(()));
    assert_eq!(registry.reveal_name(Origin::signed(id), name.clone()), Ok(()));

    let owner = registry.owners(name).unwrap();
    assert_eq!(owner.id, id);
    assert_eq!(owner.commit, commit);
}

#[test]
fn straight_forward_renew() {
    let mut registry = new_test_ext();
    let id: u64 = 1;
    let name = b"Alice".to_vec();
    let commit = Pallet::hash_of(id, name.clone());

    registry.set_block_number(7);
    assert_eq!(registry.commit(Origin::signed(id), commit), Ok(()));

    registry.set_block_number(8);
    assert_eq!(registry.reveal_name(Origin::signed(id), name.clone()), Ok(()));

    registry.set_block_number(9);
    assert_eq!(registry.renew(Origin::signed(id), name.clone()), Ok(()));

    let new_lock_period = registry.owners(name).unwrap().lock_period;
    assert_eq!(new_lock_period, LockPeriod { begin: 7, end: 9 + REGISTER_PERIOD });
}

#[test]
fn straight_forward_unregister() {
    let mut registry = new_test_ext();
    let id: u64 = 1;
    let name = b"Alice".to_vec();
    let commit = Pallet::hash_of(id, name.clone());

    registry.set_block_number(7);
    assert_eq!(registry.commit(Origin::signed(id), commit), Ok(()));
    assert!(registry.lock_periods(id, commit).is_some());

    registry.set_block_number(8);
    assert_eq!(registry.reveal_name(Origin::signed(id), name.clone()), Ok(()));
    assert!(registry.lock_periods(id, commit).is_none());
    assert!(registry.owners(name.clone()).is_some());

    registry.set_block_number(9);
    assert_eq!(registry.unregister(Origin::signed(id), name.clone()), Ok(()));

    assert!(registry.lock_periods(id, commit).is_none());
    assert!(registry.owners(name).is_none());
}

#[test]
fn on_finalize_expired_commits_are_removed() {
    let mut registry = new_test_ext();
    let alice_id: u64 = 1;
    let bob_id: u64 = 2;
    let dave_id: u64 = 3;
    let name = b"Alice".to_vec();
    let commit = Pallet::hash_of(alice_id, name);

    registry.set_block_number(7);
    assert_eq!(registry.commit(Origin::signed(alice_id), commit), Ok(()));

    registry.set_block_number(8);
    assert_eq!(registry.commit(Origin::signed(bob_id), commit), Ok(()));

    registry.set_block_number(9);
    assert_eq!(registry.commit(Origin::signed(dave_id), commit), Ok(()));

    assert!(registry.lock_periods(alice_id, commit).is_some());
    assert!(registry.lock_periods(bob_id, commit).is_some());
    assert!(registry.lock_periods(dave_id, commit).is_some());

    registry.on_finalize(8 + REGISTER_PERIOD);

    assert!(registry.lock_periods(alice_id, commit).is_none());
    assert!(registry.lock_periods(bob_id, commit).is_none());
    assert!(registry.lock_periods(dave_id, commit).is_some());
}

#[test]
fn fund_lock_upon_commit() {
    let mut registry = new_test_ext();
    let mut balances = Balances::new();
    let alice_id: u64 = 1;
    let bob_id: u64 = 2;
    let name = b"Alice".to_vec();
    let commit = Pallet::hash_of(alice_id, name);

    let alice_balance = FUND_TO_LOCK;
    balances.deposit_creating(alice_id, alice_balance);
    assert_eq!(balances.free_balance(alice_id), alice_balance);

    assert_eq!(registry.commit(Origin::signed(alice_id), commit), Ok(()));
    balances.settle(&mut registry);
    let before = balances.clone();
    assert_eq!(
        balances.transfer(&mut registry, alice_id, bob_id, 1),
        Err(BalancesError::LiquidityRestrictions)
    );
    assert_eq!(balances, before);
}

#[test]
fn fund_unlock_upon_unregister() {
    let mut registry = new_test_ext();
    let mut balances = Balances::new();
    let alice_id: u64 = 1;
    let bob_id: u64 = 2;
    let name = b"Alice".to_vec();
    let commit = Pallet::hash_of(alice_id, name.clone());

    registry.set_block_number(7);
    let alice_balance_no_more_than_lock_amount = FUND_TO_LOCK;
    balances.deposit_creating(alice_id, alice_balance_no_more_than_lock_amount);
    assert_eq!(registry.commit(Origin::signed(alice_id), commit), Ok(()));

    registry.set_block_number(8);
    assert_eq!(registry.reveal_name(Origin::signed(alice_id), name.clone()), Ok(()));

    registry.set_block_number(9);
    assert_eq!(registry.unregister(Origin::signed(alice_id), name.clone()), Ok(()));

    assert_eq!(balances.transfer(&mut registry, alice_id, bob_id, 1), Ok(()));
}

#[test]
fn fund_lock_increase_with_more_commits() {
    let mut registry = new_test_ext();
    let mut balances = Balances::new();
    let alice_id: u64 = 1;
    let bob_id: u64 = 2;
    let name1 = b"Alice".to_vec();
    let name2 = b"AliceX".to_vec();
    let commit1 = Pallet::hash_of(alice_id, name1);
    let commit2 = Pallet::hash_of(alice_id, name2);

    let alice_balance = 2 * FUND_TO_LOCK;
    balances.deposit_creating(alice_id, alice_balance);

    assert_eq!(registry.commit(Origin::signed(alice_id), commit1), Ok(()));

    // Alice still has got enough unlocked fund to do the following transfer
    assert_eq!(balances.transfer(&mut registry, alice_id, bob_id, 1), Ok(()));

    assert_eq!(registry.commit(Origin::signed(alice_id), commit2), Ok(()));

    // But after the second commit all her fund is now locked
    balances.settle(&mut registry);
    let before = balances.clone();
    assert_eq!(
        balances.transfer(&mut registry, alice_id, bob_id, 1),
        Err(BalancesError::LiquidityRestrictions)
    );
    assert_eq!(balances, before);
}

#[test]
fn fund_lock_decrease_with_expiry() {
    let mut registry = new_test_ext();
    let mut balances = Balances::new();
    let alice_id: u64 = 1;
    let bob_id: u64 = 2;
    let name1 = b"Alice".to_vec();
    let name2 = b"AliceX".to_vec();
    let commit1 = Pallet::hash_of(alice_id, name1);
    let commit2 = Pallet::hash_of(alice_id, name2);

    let alice_balance = 2 * FUND_TO_LOCK;
    balances.deposit_creating(alice_id, alice_balance);

    registry.set_block_number(7);
    assert_eq!(registry.commit(Origin::signed(alice_id), commit1), Ok(()));
    registry.set_block_number(8);
    assert_eq!(registry.commit(Origin::signed(alice_id), commit2), Ok(()));

    // Alice balance completely locked
    balances.settle(&mut registry);
    let before = balances.clone();
    assert_eq!(
        balances.transfer(&mut registry, alice_id, bob_id, 1),
        Err(BalancesError::LiquidityRestrictions)
    );
    assert_eq!(balances, before);

    registry.on_finalize(7 + REGISTER_PERIOD);

    // Alice balance is partly unlocked
    assert_eq!(balances.transfer(&mut registry, alice_id, bob_id, 1), Ok(()));
    balances.settle(&mut registry);
    let before = balances.clone();
    assert_eq!(
        balances.transfer(&mut registry, alice_id, bob_id, alice_balance - 1),
        Err(BalancesError::LiquidityRestrictions)
    );
    assert_eq!(balances, before);

    // Alice balance is completely unlocked
    registry.on_finalize(8 + REGISTER_PERIOD);
    assert_eq!(balances.transfer(&mut registry, alice_id, bob_id, alice_balance - 1), Ok(()));
}

#[test]
fn fund_unlock_upon_expiry() {
    let mut registry = new_test_ext();
    let mut balances = Balances::new();
    let alice_id: u64 = 1;
    let bob_id: u64 = 2;
    let name = b"Alice".to_vec();
    let commit = Pallet::hash_of(alice_id, name.clone());

    registry.set_block_number(7);
    let alice_balance_no_more_than_lock_amount = FUND_TO_LOCK;
    balances.deposit_creating(alice_id, alice_balance_no_more_than_lock_amount);
    assert_eq!(registry.commit(Origin::signed(alice_id), commit), Ok(()));

    registry.on_finalize(7 + REGISTER_PERIOD);

    assert_eq!(balances.transfer(&mut registry, alice_id, bob_id, 1), Ok(()));
}

#[test]
fn revealing_non_owning_name_fails() {
    let mut registry = new_test_ext();
    let alice_id: u64 = 1;
    let bob_id: u64 = 2;
    let alice_name = b"Alice".to_vec();
    let alice_commit = Pallet::hash_of(alice_id, alice_name.clone());

    // If Bob wants to pay the price of committing on behalf of Alice, it's ok.
    assert_eq!(registry.commit(Origin::signed(bob_id), alice_commit), Ok(()));

    // The fact that Bob is the committer, will not help him to take over Alice's name
    let before = registry.clone();
    assert_eq!(
        registry.reveal_name(Origin::signed(bob_id), alice_name),
        Err(Error::CommitNotFound)
    );
    assert_eq!(registry, before);
}

#[test]
fn front_running_is_revertible() {
    let mut registry = new_test_ext();
    let alice_id: u64 = 1;
    let bob_id: u64 = 2;
    let alice_name = b"Alice".to_vec();
    let alice_commit = Pallet::hash_of(alice_id, alice_name.clone());

    registry.set_block_number(1);
    assert_eq!(registry.commit(Origin::signed(alice_id), alice_commit), Ok(()));

    registry.set_block_number(2);
    let bob_commit_for_alice_name = Pallet::hash_of(bob_id, alice_name.clone());
    assert_eq!(registry.commit(Origin::signed(bob_id), bob_commit_for_alice_name), Ok(()));

    // Bob can temporarily claim over alice name
    assert_eq!(registry.reveal_name(Origin::signed(bob_id), alice_name.clone()), Ok(()));

    // Alice can revert Bob's claim
    assert_eq!(registry.reveal_name(Origin::signed(alice_id), alice_name.clone()), Ok(()));
    let owner = registry.owners(alice_name).unwrap();
    assert_eq!(owner.commit, alice_commit);
    assert_eq!(owner.id, alice_id);
}

#[test]
fn revealing_an_already_taken_name_fails() {
    let mut registry = new_test_ext();
    let alice_id: u64 = 1;
    let bob_id: u64 = 2;
    let alice_name = b"Alice".to_vec();
    let alice_commit = Pallet::hash_of(alice_id, alice_name.clone());

    registry.set_block_number(1);
    assert_eq!(registry.commit(Origin::signed(alice_id), alice_commit), Ok(()));

    registry.set_block_number(2);
    assert_eq!(registry.reveal_name(Origin::signed(alice_id), alice_name.clone()), Ok(()));

    registry.set_block_number(3);
    let bob_commit_for_alice_name = Pallet::hash_of(bob_id, alice_name.clone());
    assert_eq!(registry.commit(Origin::signed(bob_id), bob_commit_for_alice_name), Ok(()));

    registry.set_block_number(4);
    assert_eq!(registry.reveal_name(Origin::signed(bob_id), alice_name.clone()), Ok(()));
}

/// A name of `len` bytes, each 66.
fn create_name(len: u32) -> Vec<u8> {
    vec![66u8; len as usize]
}

fn benchmark_commit() -> Result<(), &'static str> {
    let mut registry = new_test_ext();
    let alice_id: u64 = 1;
    let name: Vec<u8> = vec![66, 67, 68, 69];
    let c = Pallet::hash_of(alice_id, name);

    let block_number: u64 = 1;
    registry.set_block_number(block_number);
    registry.commit(Origin::signed(alice_id), c).map_err(|_| "commit")?;

    let lock_period = registry.lock_periods(alice_id, c).unwrap();
    assert_eq!(lock_period.begin, block_number);
    assert_eq!(lock_period.end, block_number + REGISTER_PERIOD);
    Ok(())
}

fn benchmark_reveal(l: u32) -> Result<(), &'static str> {
    let mut registry = new_test_ext();
    let alice_id: u64 = 1;
    let bob_id: u64 = 2;
    let alice_name = create_name(l);
    let alice_commit = Pallet::hash_of(alice_id, alice_name.clone());

    registry.set_block_number(1);
    let _ = registry.commit(Origin::signed(alice_id), alice_commit);

    registry.set_block_number(2);
    let bob_commit_for_alice_name = Pallet::hash_of(bob_id, alice_name.clone());
    let _ = registry.commit(Origin::signed(bob_id), bob_commit_for_alice_name);

    // Bob can temporarily claim over alice name
    let _ = registry.reveal_name(Origin::signed(bob_id), alice_name.clone());
    registry.reveal_name(Origin::signed(alice_id), alice_name.clone()).map_err(|_| "reveal")?;

    let owner = registry.owners(alice_name).unwrap();
    assert_eq!(owner.commit, alice_commit);
    assert_eq!(owner.id, alice_id);
    Ok(())
}

fn benchmark_renew() -> Result<(), &'static str> {
    let mut registry = new_test_ext();
    let id: u64 = 1;
    let name: Vec<u8> = vec![66, 67, 68, 69];
    let c = Pallet::hash_of(id, name.clone());

    registry.set_block_number(7);
    let _ = registry.commit(Origin::signed(id), c);

    registry.set_block_number(8);
    let _ = registry.reveal_name(Origin::signed(id), name.clone());

    registry.set_block_number(9);
    registry.renew(Origin::signed(id), name.clone()).map_err(|_| "renew")?;

    let lock_period = registry.owners(name).unwrap().lock_period;
    assert_eq!(lock_period.end, 9 + REGISTER_PERIOD);
    Ok(())
}

fn benchmark_unregister() -> Result<(), &'static str> {
    let mut registry = new_test_ext();
    let id: u64 = 1;
    let name: Vec<u8> = vec![66, 67, 68, 69];
    let c = Pallet::hash_of(id, name.clone());

    registry.set_block_number(7);
    let _ = registry.commit(Origin::signed(id), c);

    registry.set_block_number(8);
    let _ = registry.reveal_name(Origin::signed(id), name.clone());

    assert!(registry.owners(name.clone()).is_some());

    registry.set_block_number(9);
    registry.unregister(Origin::signed(id), name.clone()).map_err(|_| "unregister")?;

    assert!(registry.lock_periods(id, c).is_none());
    assert!(registry.owners(name).is_none());
    Ok(())
}

#[test]
fn test_benchmarks() {
    assert_eq!(benchmark_commit(), Ok(()));
    assert_eq!(benchmark_reveal(0), Ok(()));
    assert_eq!(benchmark_reveal(32), Ok(()));
    assert_eq!(benchmark_renew(), Ok(()));
    assert_eq!(benchmark_unregister(), Ok(()));
}
