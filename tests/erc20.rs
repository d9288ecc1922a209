use erc20::{AccountId, Erc20, Error, Transfer};

fn alice() -> AccountId {
    AccountId::from_bytes([0x01; 32])
}

fn bob() -> AccountId {
    AccountId::from_bytes([0x02; 32])
}

fn charlie() -> AccountId {
    AccountId::from_bytes([0x03; 32])
}

#[test]
fn new_works() {
    let contract = Erc20::new(alice(), 777);
    assert_eq!(contract.total_supply(), 777);
}

#[test]
fn balance_works() {
    let contract = Erc20::new(alice(), 100);
    assert_eq!(contract.total_supply(), 100);
    assert_eq!(contract.balance_of(alice()), 100);
    assert_eq!(contract.balance_of(bob()), 0);
}

#[test]
fn transfer_works() {
    let mut contract = Erc20::new(alice(), 100);
    assert_eq!(contract.balance_of(alice()), 100);
    assert!(contract.transfer(alice(), bob(), 10).is_ok());
    assert_eq!(contract.balance_of(bob()), 10);
    assert!(contract.transfer(alice(), bob(), 100).is_err());
}

#[test]
fn construct_credits_only_the_creator() {
    let contract = Erc20::new(alice(), 777);
    assert_eq!(contract.total_supply(), 777);
    assert_eq!(contract.balance_of(alice()), 777);
    assert_eq!(contract.balance_of(bob()), 0);
    assert_eq!(contract.balance_of(charlie()), 0);
}

#[test]
fn construct_with_zero_supply() {
    let contract = Erc20::new(alice(), 0);
    assert_eq!(contract.total_supply(), 0);
    assert_eq!(contract.balance_of(alice()), 0);
}

#[test]
fn construct_records_the_mint() {
    let contract = Erc20::new(alice(), 777);
    let expected = Transfer { from: None, to: Some(alice()), value: 777 };
    assert_eq!(contract.events().clone(), vec![expected]);
}

#[test]
fn transfer_moves_the_amount() {
    let mut contract = Erc20::new(alice(), 100);
    assert_eq!(contract.transfer(alice(), bob(), 10), Ok(()));
    assert_eq!(contract.balance_of(alice()), 90);
    assert_eq!(contract.balance_of(bob()), 10);
    assert_eq!(contract.total_supply(), 100);
}

#[test]
fn failed_transfer_changes_nothing() {
    let mut contract = Erc20::new(alice(), 100);
    assert_eq!(contract.transfer(alice(), bob(), 10), Ok(()));
    assert_eq!(contract.transfer(alice(), bob(), 100), Err(Error::InsufficientBalance));
    assert_eq!(contract.balance_of(alice()), 90);
    assert_eq!(contract.balance_of(bob()), 10);
    assert_eq!(contract.events().len(), 2);
}

#[test]
fn transfer_from_empty_account_fails() {
    let mut contract = Erc20::new(alice(), 100);
    assert_eq!(contract.transfer(bob(), alice(), 1), Err(Error::InsufficientBalance));
    assert_eq!(contract.balance_of(alice()), 100);
    assert_eq!(contract.balance_of(bob()), 0);
}

#[test]
fn self_transfer_keeps_balance() {
    let mut contract = Erc20::new(alice(), 50);
    assert_eq!(contract.transfer(alice(), alice(), 50), Ok(()));
    assert_eq!(contract.balance_of(alice()), 50);
    assert_eq!(contract.transfer(alice(), alice(), 20), Ok(()));
    assert_eq!(contract.balance_of(alice()), 50);
}

#[test]
fn self_transfer_over_balance_fails() {
    let mut contract = Erc20::new(alice(), 50);
    assert_eq!(contract.transfer(alice(), alice(), 51), Err(Error::InsufficientBalance));
    assert_eq!(contract.balance_of(alice()), 50);
}

#[test]
fn transfer_of_whole_balance_and_zero() {
    let mut contract = Erc20::new(alice(), 100);
    assert_eq!(contract.transfer(alice(), bob(), 100), Ok(()));
    assert_eq!(contract.balance_of(alice()), 0);
    assert_eq!(contract.balance_of(bob()), 100);
    assert_eq!(contract.transfer(alice(), charlie(), 0), Ok(()));
    assert_eq!(contract.balance_of(charlie()), 0);
}

#[test]
fn largest_supply_moves_without_overflow() {
    let mut contract = Erc20::new(alice(), u128::MAX);
    assert_eq!(contract.transfer(alice(), bob(), u128::MAX - 1), Ok(()));
    assert_eq!(contract.transfer(alice(), bob(), 1), Ok(()));
    assert_eq!(contract.balance_of(bob()), u128::MAX);
    assert_eq!(contract.balance_of(alice()), 0);
    assert_eq!(contract.transfer(bob(), alice(), u128::MAX), Ok(()));
    assert_eq!(contract.balance_of(alice()), u128::MAX);
}

#[test]
fn balances_sum_to_supply_after_transfers() {
    let mut contract = Erc20::new(alice(), 1000);
    assert!(contract.transfer(alice(), bob(), 300).is_ok());
    assert!(contract.transfer(bob(), charlie(), 120).is_ok());
    assert!(contract.transfer(charlie(), alice(), 20).is_ok());
    assert!(contract.transfer(charlie(), bob(), 500).is_err());
    let sum = contract.balance_of(alice()) + contract.balance_of(bob()) + contract.balance_of(charlie());
    assert_eq!(sum, contract.total_supply());
    assert_eq!(contract.balance_of(alice()), 720);
    assert_eq!(contract.balance_of(bob()), 180);
    assert_eq!(contract.balance_of(charlie()), 100);
}

#[test]
fn reads_repeat() {
    let mut contract = Erc20::new(alice(), 100);
    assert!(contract.transfer(alice(), bob(), 7).is_ok());
    assert_eq!(contract.total_supply(), contract.total_supply());
    assert_eq!(contract.balance_of(bob()), contract.balance_of(bob()));
    assert_eq!(contract.balance_of(bob()), 7);
}

#[test]
fn transfer_records_each_success() {
    let mut contract = Erc20::new(alice(), 100);
    assert!(contract.transfer(alice(), bob(), 10).is_ok());
    assert!(contract.transfer(bob(), alice(), 11).is_err());
    let events = contract.events();
    assert_eq!(events.len(), 2);
    assert_eq!(events[1], Transfer { from: Some(alice()), to: Some(bob()), value: 10 });
}

#[test]
fn account_ids_compare_by_bytes() {
    let mut raw = [0x01; 32];
    assert!(alice() == AccountId::from_bytes(raw));
    raw[31] = 0x00;
    assert!(alice() != AccountId::from_bytes(raw));
    assert!(alice().same_as(&alice()));
    assert!(!alice().same_as(&bob()));
}

#[test]
fn restore_round_trips_a_ledger() {
    let mut contract = Erc20::new(alice(), 100);
    assert!(contract.transfer(alice(), bob(), 40).is_ok());
    let restored = Erc20::restore(contract.total_supply(), contract.entries().clone()).unwrap();
    assert_eq!(restored.total_supply(), 100);
    assert_eq!(restored.balance_of(alice()), 60);
    assert_eq!(restored.balance_of(bob()), 40);
    assert_eq!(restored.balance_of(charlie()), 0);
    assert!(restored.events().is_empty());
}

#[test]
fn restore_rejects_repeated_account() {
    let entries = vec![(alice(), 50), (bob(), 0), (alice(), 50)];
    assert!(Erc20::restore(100, entries).is_none());
}

#[test]
fn restore_rejects_wrong_sum() {
    let entries = vec![(alice(), 50), (bob(), 49)];
    assert!(Erc20::restore(100, entries).is_none());
}

#[test]
fn restore_rejects_overflowing_table() {
    let entries = vec![(alice(), u128::MAX), (bob(), 1)];
    assert!(Erc20::restore(0, entries).is_none());
}

#[test]
fn restore_accepts_empty_table_for_zero_supply() {
    let restored = Erc20::restore(0, Vec::new()).unwrap();
    assert_eq!(restored.total_supply(), 0);
    assert_eq!(restored.balance_of(alice()), 0);
}
