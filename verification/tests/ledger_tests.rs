use weighted_swap::book::{AccountId, Book};
use weighted_swap::error::Error;
use weighted_swap::ledger::AssetLedger;

const ALICE: AccountId = AccountId::User(1);
const BOB: AccountId = AccountId::User(2);

#[test]
fn issue_assigns_ids_in_order() {
    let mut ledger = AssetLedger::new();
    assert_eq!(ledger.next_asset_id(), 0);
    assert_eq!(ledger.issue(ALICE, 500), Ok(0));
    assert_eq!(ledger.issue(BOB, 7), Ok(1));
    assert_eq!(ledger.next_asset_id(), 2);
    assert_eq!(ledger.total_supply_of(0), 500);
    assert_eq!(ledger.total_supply_of(1), 7);
    assert_eq!(ledger.balance_of(0, ALICE), 500);
    assert_eq!(ledger.balance_of(0, BOB), 0);
    assert_eq!(ledger.balance_of(1, BOB), 7);
}

#[test]
fn issue_of_nothing_is_refused() {
    let mut ledger = AssetLedger::new();
    assert_eq!(ledger.issue(ALICE, 0), Err(Error::InvalidAmount));
    assert_eq!(ledger.next_asset_id(), 0);
}

#[test]
fn transfer_moves_the_amount() {
    let mut ledger = AssetLedger::new();
    let id = ledger.issue(ALICE, 500).unwrap();
    assert_eq!(ledger.transfer(ALICE, id, BOB, 120), Ok(()));
    assert_eq!(ledger.balance_of(id, ALICE), 380);
    assert_eq!(ledger.balance_of(id, BOB), 120);
    assert_eq!(ledger.total_supply_of(id), 500);
}

#[test]
fn transfer_to_oneself_changes_nothing() {
    let mut ledger = AssetLedger::new();
    let id = ledger.issue(ALICE, 500).unwrap();
    assert_eq!(ledger.transfer(ALICE, id, ALICE, 500), Ok(()));
    assert_eq!(ledger.balance_of(id, ALICE), 500);
}

#[test]
fn transfer_errors() {
    let mut ledger = AssetLedger::new();
    let id = ledger.issue(ALICE, 500).unwrap();
    assert_eq!(ledger.transfer(ALICE, id, BOB, 0), Err(Error::InvalidAmount));
    assert_eq!(ledger.transfer(ALICE, id, BOB, 501), Err(Error::InsufficientBalance));
    assert_eq!(ledger.transfer(BOB, id, ALICE, 1), Err(Error::InsufficientBalance));
    assert_eq!(ledger.transfer(ALICE, id + 1, BOB, 1), Err(Error::InsufficientBalance));
    assert_eq!(ledger.balance_of(id, ALICE), 500);
    assert_eq!(ledger.balance_of(id, BOB), 0);
}

#[test]
fn destroy_takes_the_balance_out_of_supply() {
    let mut ledger = AssetLedger::new();
    let id = ledger.issue(ALICE, 500).unwrap();
    ledger.transfer(ALICE, id, BOB, 120).unwrap();
    assert_eq!(ledger.destroy(BOB, id), Ok(120));
    assert_eq!(ledger.balance_of(id, BOB), 0);
    assert_eq!(ledger.balance_of(id, ALICE), 380);
    assert_eq!(ledger.total_supply_of(id), 380);
    assert_eq!(ledger.destroy(BOB, id), Err(Error::ZeroBalance));
    assert_eq!(ledger.total_supply_of(id), 380);
}

#[test]
fn holdings_add_up_to_supply_after_a_sequence() {
    let mut ledger = AssetLedger::new();
    let id = ledger.issue(ALICE, 1_000).unwrap();
    let carol = AccountId::User(3);
    ledger.transfer(ALICE, id, BOB, 300).unwrap();
    ledger.transfer(BOB, id, carol, 100).unwrap();
    ledger.destroy(BOB, id).unwrap();
    ledger.transfer(carol, id, ALICE, 40).unwrap();
    let sum = ledger.balance_of(id, ALICE) + ledger.balance_of(id, BOB) + ledger.balance_of(id, carol);
    assert_eq!(sum, 800);
    assert_eq!(ledger.total_supply_of(id), 800);
}

#[test]
fn book_keeps_its_total() {
    let mut book = Book::new();
    book.credit(ALICE, 10);
    book.credit(BOB, 5);
    book.credit(ALICE, 1);
    book.debit(BOB, 2);
    assert_eq!(book.balance_of(ALICE), 11);
    assert_eq!(book.balance_of(BOB), 3);
    assert_eq!(book.balance_of(AccountId::Custody(1)), 0);
    assert_eq!(book.total_of(), 14);
}
