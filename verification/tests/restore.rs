use vanity_registry::{Config, Event, LockPeriod, Origin, Owner, Pallet};

fn config() -> Config {
    Config { module_id: *b"template", register_period: 95, fund_to_lock: 57, name_max_len: 32 }
}

fn owner(id: u64, begin: u64, end: u64) -> Owner {
    Owner { id, commit: [id as u8; 32], lock_period: LockPeriod { begin, end } }
}

#[test]
fn rows_come_out_in_the_order_they_went_in() {
    let mut registry = Pallet::new(config());
    registry.set_block_number(3);
    assert_eq!(registry.commit(Origin::signed(2), [2u8; 32]), Ok(()));
    assert_eq!(registry.commit(Origin::signed(1), [1u8; 32]), Ok(()));
    assert_eq!(registry.commit(Origin::signed(1), [7u8; 32]), Ok(()));
    assert_eq!(registry.reveal_commit(1, b"Alice".to_vec(), [7u8; 32]), Ok(()));
    registry.set_block_number(4);
    assert_eq!(registry.commit(Origin::signed(2), [2u8; 32]), Ok(()));

    assert_eq!(
        registry.lock_period_rows(),
        vec![
            (2, [2u8; 32], LockPeriod { begin: 4, end: 99 }),
            (1, [1u8; 32], LockPeriod { begin: 3, end: 98 }),
        ]
    );
    assert_eq!(
        registry.owner_rows(),
        vec![(
            b"Alice".to_vec(),
            Owner { id: 1, commit: [7u8; 32], lock_period: LockPeriod { begin: 3, end: 98 } }
        )]
    );
}

#[test]
fn a_restored_registry_is_the_one_that_was_stored() {
    let mut registry = Pallet::new(config());
    registry.set_block_number(3);
    assert_eq!(registry.commit(Origin::signed(2), [2u8; 32]), Ok(()));
    assert_eq!(registry.commit(Origin::signed(1), [1u8; 32]), Ok(()));
    assert_eq!(registry.commit(Origin::signed(1), [7u8; 32]), Ok(()));
    assert_eq!(registry.commit(Origin::signed(1), [8u8; 32]), Ok(()));
    assert_eq!(registry.reveal_commit(1, b"Alice".to_vec(), [7u8; 32]), Ok(()));
    registry.set_block_number(9);
    assert_eq!(registry.renew(Origin::signed(1), b"Alice".to_vec()), Ok(()));
    let _ = registry.take_events();
    let _ = registry.take_currency_calls();

    let restored =
        Pallet::restore(config(), 9, registry.lock_period_rows(), registry.owner_rows());
    assert_eq!(restored, Some(registry.clone()));
    let restored = restored.unwrap();
    assert_eq!(restored.locked_fund(1), 114);
    assert_eq!(restored.locked_fund(2), 57);
    assert_eq!(restored.locked_fund(3), 0);
    assert_eq!(restored.block_number(), 9);
    assert_eq!(restored.events(), &Vec::<Event>::new());
    assert_eq!(restored.currency_calls(), &Vec::new());
    assert_eq!(
        restored.owners(b"Alice".to_vec()).unwrap().lock_period,
        LockPeriod { begin: 3, end: 104 }
    );
}

#[test]
fn restore_of_nothing_is_a_new_registry_at_that_block() {
    let restored = Pallet::restore(config(), 12, Vec::new(), Vec::new()).unwrap();
    assert_eq!(restored.block_number(), 12);
    assert_eq!(restored.lock_period_rows(), Vec::new());
    assert_eq!(restored.owner_rows(), Vec::new());
    let mut fresh = Pallet::new(config());
    fresh.set_block_number(12);
    assert_eq!(restored, fresh);
}

#[test]
fn restore_refuses_a_key_that_occurs_twice() {
    let period = LockPeriod { begin: 1, end: 96 };
    let twice = vec![(1, [1u8; 32], period), (2, [1u8; 32], period), (1, [1u8; 32], period)];
    assert_eq!(Pallet::restore(config(), 5, twice, Vec::new()), None);
    let names = vec![(b"Alice".to_vec(), owner(1, 1, 96)), (b"Alice".to_vec(), owner(2, 2, 97))];
    assert_eq!(Pallet::restore(config(), 5, Vec::new(), names), None);
}

#[test]
fn restore_refuses_a_period_that_is_not_sound() {
    let late = vec![(1, [1u8; 32], LockPeriod { begin: 6, end: 101 })];
    assert_eq!(Pallet::restore(config(), 5, late, Vec::new()), None);
    let short = vec![(1, [1u8; 32], LockPeriod { begin: 1, end: 95 })];
    assert_eq!(Pallet::restore(config(), 5, short, Vec::new()), None);
    let long = vec![(1, [1u8; 32], LockPeriod { begin: 1, end: 97 })];
    assert_eq!(Pallet::restore(config(), 5, long, Vec::new()), None);
    let exact = vec![(1, [1u8; 32], LockPeriod { begin: 5, end: 100 })];
    assert!(Pallet::restore(config(), 5, exact, Vec::new()).is_some());

    let late_owner = vec![(b"Alice".to_vec(), owner(1, 6, 200))];
    assert_eq!(Pallet::restore(config(), 5, Vec::new(), late_owner), None);
    let short_owner = vec![(b"Alice".to_vec(), owner(1, 1, 95))];
    assert_eq!(Pallet::restore(config(), 5, Vec::new(), short_owner), None);
    let backwards = vec![(b"Alice".to_vec(), owner(1, 4, 2))];
    assert_eq!(Pallet::restore(config(), 5, Vec::new(), backwards), None);
    let renewed = vec![(b"Alice".to_vec(), owner(1, 1, 100))];
    assert!(Pallet::restore(config(), 5, Vec::new(), renewed).is_some());
}

#[test]
fn restore_refuses_a_block_from_which_no_period_can_run() {
    assert_eq!(Pallet::restore(config(), u64::MAX - 94, Vec::new(), Vec::new()), None);
    assert!(Pallet::restore(config(), u64::MAX - 95, Vec::new(), Vec::new()).is_some());
}
