use weighted_swap::address::{canonical_order, derive_pool_id, pool_preimage, same_pool_id};
use weighted_swap::book::AccountId;
use weighted_swap::error::Error;
use weighted_swap::fixed::ONE;
use weighted_swap::pool::{quote_swap_in, quote_swap_out, take_fee};
use weighted_swap::pool::{PoolAddress, PoolFactory, INITIAL_SHARE_SUPPLY};
use weighted_swap::registry::PoolRegistry;

const ALICE: u64 = 1;
const BOB: u64 = 2;

fn funded() -> (PoolRegistry, u64, u64) {
    let mut reg = PoolRegistry::new();
    let a = reg.issue(ALICE, 1_000_000).unwrap();
    let b = reg.issue(ALICE, 1_000_000).unwrap();
    reg.transfer(ALICE, a, BOB, 10_000).unwrap();
    reg.transfer(ALICE, b, BOB, 10_000).unwrap();
    (reg, a, b)
}

fn with_pool() -> (PoolRegistry, u64, u64, [u8; 32]) {
    let (mut reg, a, b) = funded();
    let id = reg.create_pool(ALICE, vec![a, b], vec![1000, 1000], vec![1, 1]).unwrap();
    (reg, a, b, id)
}

#[test]
fn pool_id_is_the_digest_of_tag_and_sorted_tokens() {
    let mut bytes = b"swap".to_vec();
    bytes.extend_from_slice(&3u64.to_le_bytes());
    bytes.extend_from_slice(&7u64.to_le_bytes());
    bytes.extend_from_slice(&258u64.to_le_bytes());
    assert_eq!(pool_preimage(&vec![258, 3, 7]), bytes);
    assert_eq!(derive_pool_id(&vec![258, 3, 7]), sp_crypto_hashing::blake2_256(&bytes));
    assert_ne!(derive_pool_id(&vec![258, 3, 7]).to_vec(), bytes);
}

#[test]
fn pool_id_ignores_the_order_of_tokens() {
    assert_eq!(canonical_order(&vec![5, 1, 4, 1, 9]), vec![1, 1, 4, 5, 9]);
    assert_eq!(derive_pool_id(&vec![1, 2, 3]), derive_pool_id(&vec![3, 1, 2]));
    assert_ne!(derive_pool_id(&vec![1, 2, 3]), derive_pool_id(&vec![1, 2, 4]));
    assert!(same_pool_id(&derive_pool_id(&vec![1, 2]), &derive_pool_id(&vec![2, 1])));
    assert!(!same_pool_id(&derive_pool_id(&vec![1, 2]), &derive_pool_id(&vec![1, 3])));
    assert_eq!(PoolAddress::get_pool_address(vec![9, 8]), derive_pool_id(&vec![8, 9]));
}

#[test]
fn create_pool_funds_the_custody_account() {
    let (reg, a, b, id) = with_pool();
    assert_eq!(reg.pool_count(), 1);
    assert_eq!(reg.find_pool(&id), Some(0));
    assert_eq!(id, derive_pool_id(&vec![a, b]));
    let pool = reg.pool_at(0);
    assert_eq!(pool.tokens, vec![a, b]);
    assert_eq!(pool.balance, vec![1000, 1000]);
    assert_eq!(pool.denorm, vec![1, 1]);
    assert_eq!(pool.lp_supply, INITIAL_SHARE_SUPPLY);
    assert_eq!(pool.shares.balance_of(AccountId::User(ALICE)), INITIAL_SHARE_SUPPLY);
    let ledger = reg.ledger_ref();
    assert_eq!(ledger.balance_of(a, AccountId::Custody(0)), 1000);
    assert_eq!(ledger.balance_of(b, AccountId::Custody(0)), 1000);
    assert_eq!(ledger.balance_of(a, AccountId::User(ALICE)), 1_000_000 - 10_000 - 1000);
    assert_eq!(ledger.total_supply_of(a), 1_000_000);
}

#[test]
fn create_pool_with_nine_tokens_fails() {
    let mut reg = PoolRegistry::new();
    let tokens: Vec<u64> = (0..9).collect();
    let r = reg.create_pool(ALICE, tokens, vec![1; 9], vec![1; 9]);
    assert_eq!(r, Err(Error::MaxTokens));
}

#[test]
fn create_pool_with_mismatched_lengths_fails() {
    let (mut reg, a, b) = funded();
    assert_eq!(
        reg.create_pool(ALICE, vec![a, b], vec![1000], vec![1, 1]),
        Err(Error::InvalidTokenLength)
    );
    assert_eq!(
        reg.create_pool(ALICE, vec![a, b], vec![1000, 1000], vec![1, 1, 1]),
        Err(Error::InvalidTokenLength)
    );
    assert_eq!(reg.create_pool(ALICE, vec![a], vec![1000], vec![1]), Err(Error::InvalidTokenLength));
    assert_eq!(reg.pool_count(), 0);
}

#[test]
fn create_pool_validation_errors() {
    let (mut reg, a, b) = funded();
    assert_eq!(
        reg.create_pool(ALICE, vec![a, a], vec![1000, 1000], vec![1, 1]),
        Err(Error::DuplicateToken)
    );
    assert_eq!(
        reg.create_pool(ALICE, vec![a, b], vec![1000, 0], vec![1, 1]),
        Err(Error::InvalidAmount)
    );
    assert_eq!(
        reg.create_pool(ALICE, vec![a, b], vec![1000, 1000], vec![0, 1]),
        Err(Error::InvalidAmount)
    );
    assert_eq!(
        reg.create_pool(ALICE, vec![a, b], vec![1000, 1000], vec![u64::MAX, 1]),
        Err(Error::ArithmeticOverflow)
    );
    assert_eq!(
        reg.create_pool(BOB, vec![a, b], vec![1000, 10_001], vec![1, 1]),
        Err(Error::InsufficientBalance)
    );
    assert_eq!(reg.ledger_ref().balance_of(a, AccountId::User(BOB)), 10_000);
    assert!(reg.create_pool(ALICE, vec![a, b], vec![1000, 1000], vec![1, 1]).is_ok());
    assert_eq!(
        reg.create_pool(BOB, vec![b, a], vec![10, 10], vec![2, 3]),
        Err(Error::PoolExists)
    );
    assert_eq!(reg.pool_count(), 1);
}

#[test]
fn swap_exact_amount_in_scenario() {
    let (mut reg, a, b, id) = with_pool();
    let out = reg.swap_exact_amount_in(BOB, &id, a, 100, b, 0, u64::MAX);
    assert_eq!(out, Ok(90));
    assert_eq!(reg.pool_at(0).balance, vec![1100, 910]);
    let ledger = reg.ledger_ref();
    assert_eq!(ledger.balance_of(a, AccountId::User(BOB)), 9_900);
    assert_eq!(ledger.balance_of(b, AccountId::User(BOB)), 10_090);
    assert_eq!(ledger.balance_of(a, AccountId::Custody(0)), 1100);
    assert_eq!(ledger.balance_of(b, AccountId::Custody(0)), 910);
}

#[test]
fn swap_exact_amount_in_errors() {
    let (mut reg, a, b, id) = with_pool();
    let other = derive_pool_id(&vec![a, 77]);
    assert_eq!(reg.swap_exact_amount_in(BOB, &other, a, 100, b, 0, u64::MAX), Err(Error::PoolNotFound));
    assert_eq!(reg.swap_exact_amount_in(BOB, &id, 77, 100, b, 0, u64::MAX), Err(Error::PoolNotFound));
    assert_eq!(reg.swap_exact_amount_in(BOB, &id, a, 100, a, 0, u64::MAX), Err(Error::DuplicateToken));
    assert_eq!(reg.swap_exact_amount_in(BOB, &id, a, 0, b, 0, u64::MAX), Err(Error::InvalidAmount));
    assert_eq!(reg.swap_exact_amount_in(BOB, &id, a, 100, b, 91, u64::MAX), Err(Error::SlippageExceeded));
    assert_eq!(reg.swap_exact_amount_in(BOB, &id, a, 100, b, 0, 1), Err(Error::PriceLimitExceeded));
    assert_eq!(reg.swap_exact_amount_in(3, &id, a, 100, b, 0, u64::MAX), Err(Error::InsufficientBalance));
    assert_eq!(reg.pool_at(0).balance, vec![1000, 1000]);
    assert_eq!(reg.swap_exact_amount_in(BOB, &id, a, 100, b, 90, 2), Ok(90));
}

#[test]
fn swap_exact_amount_out_charges_rounded_up() {
    let (mut reg, a, b, id) = with_pool();
    assert_eq!(reg.swap_exact_amount_out(BOB, &id, a, 200, b, 90, u64::MAX), Ok(99));
    assert_eq!(reg.pool_at(0).balance, vec![1099, 910]);
    let ledger = reg.ledger_ref();
    assert_eq!(ledger.balance_of(a, AccountId::User(BOB)), 9_901);
    assert_eq!(ledger.balance_of(b, AccountId::User(BOB)), 10_090);
    assert_eq!(ledger.balance_of(a, AccountId::Custody(0)), 1099);
}

#[test]
fn swap_exact_amount_out_errors() {
    let (mut reg, a, b, id) = with_pool();
    assert_eq!(reg.swap_exact_amount_out(BOB, &id, a, u64::MAX, b, 1000, u64::MAX), Err(Error::InsufficientLiquidity));
    assert_eq!(reg.swap_exact_amount_out(BOB, &id, a, u64::MAX, b, u64::MAX, u64::MAX), Err(Error::InsufficientLiquidity));
    assert_eq!(reg.swap_exact_amount_out(BOB, &id, 77, 0, b, 1000, 0), Err(Error::InsufficientLiquidity));
    assert_eq!(reg.swap_exact_amount_out(BOB, &id, a, 200, b, 0, u64::MAX), Err(Error::InvalidAmount));
    assert_eq!(reg.swap_exact_amount_out(BOB, &id, a, 200, 77, 5, u64::MAX), Err(Error::PoolNotFound));
    assert_eq!(reg.swap_exact_amount_out(BOB, &id, a, 98, b, 90, u64::MAX), Err(Error::SlippageExceeded));
    assert_eq!(reg.swap_exact_amount_out(BOB, &id, a, 200, b, 90, 1), Err(Error::PriceLimitExceeded));
    assert_eq!(reg.swap_exact_amount_out(3, &id, a, 200, b, 90, u64::MAX), Err(Error::InsufficientBalance));
    assert_eq!(reg.pool_at(0).balance, vec![1000, 1000]);
}

#[test]
fn join_pool_takes_proportional_amounts() {
    let (mut reg, a, b, id) = with_pool();
    let tenth = INITIAL_SHARE_SUPPLY / 10;
    assert_eq!(reg.join_pool(BOB, &id, tenth, vec![100, 100]), Ok(vec![100, 100]));
    let pool = reg.pool_at(0);
    assert_eq!(pool.balance, vec![1100, 1100]);
    assert_eq!(pool.lp_supply, INITIAL_SHARE_SUPPLY + tenth);
    assert_eq!(pool.shares.balance_of(AccountId::User(BOB)), tenth);
    assert_eq!(pool.shares.total_of(), INITIAL_SHARE_SUPPLY + tenth);
    assert_eq!(reg.ledger_ref().balance_of(a, AccountId::User(BOB)), 9_900);
    assert_eq!(reg.ledger_ref().balance_of(b, AccountId::Custody(0)), 1100);
}

#[test]
fn join_pool_rounds_up() {
    let (mut reg, _a, _b, id) = with_pool();
    assert_eq!(reg.join_pool(BOB, &id, 1, vec![1, 1]), Ok(vec![1, 1]));
    assert_eq!(reg.pool_at(0).balance, vec![1001, 1001]);
}

#[test]
fn join_pool_errors() {
    let (mut reg, a, _b, id) = with_pool();
    let tenth = INITIAL_SHARE_SUPPLY / 10;
    let other = derive_pool_id(&vec![a, 77]);
    assert_eq!(reg.join_pool(BOB, &other, tenth, vec![100, 100]), Err(Error::PoolNotFound));
    assert_eq!(reg.join_pool(BOB, &id, 0, vec![100, 100]), Err(Error::InvalidAmount));
    assert_eq!(reg.join_pool(BOB, &id, tenth, vec![100]), Err(Error::InvalidTokenLength));
    assert_eq!(reg.join_pool(BOB, &id, tenth, vec![100, 99]), Err(Error::SlippageExceeded));
    assert_eq!(reg.join_pool(BOB, &id, u64::MAX, vec![u64::MAX, u64::MAX]), Err(Error::ArithmeticOverflow));
    assert_eq!(reg.join_pool(3, &id, tenth, vec![100, 100]), Err(Error::InsufficientBalance));
    assert_eq!(reg.pool_at(0).balance, vec![1000, 1000]);
    assert_eq!(reg.pool_at(0).lp_supply, INITIAL_SHARE_SUPPLY);
}

#[test]
fn exit_pool_pays_proportional_amounts() {
    let (mut reg, a, b, id) = with_pool();
    let quarter = INITIAL_SHARE_SUPPLY / 4;
    assert_eq!(reg.exit_pool(ALICE, &id, quarter, vec![250, 250]), Ok(vec![250, 250]));
    let pool = reg.pool_at(0);
    assert_eq!(pool.balance, vec![750, 750]);
    assert_eq!(pool.lp_supply, INITIAL_SHARE_SUPPLY - quarter);
    assert_eq!(pool.shares.balance_of(AccountId::User(ALICE)), INITIAL_SHARE_SUPPLY - quarter);
    assert_eq!(reg.ledger_ref().balance_of(a, AccountId::Custody(0)), 750);
    assert_eq!(reg.ledger_ref().balance_of(b, AccountId::User(ALICE)), 1_000_000 - 10_000 - 750);
}

#[test]
fn exit_pool_errors() {
    let (mut reg, a, _b, id) = with_pool();
    let quarter = INITIAL_SHARE_SUPPLY / 4;
    let other = derive_pool_id(&vec![a, 77]);
    assert_eq!(reg.exit_pool(ALICE, &other, quarter, vec![0, 0]), Err(Error::PoolNotFound));
    assert_eq!(reg.exit_pool(ALICE, &id, 0, vec![0, 0]), Err(Error::InvalidAmount));
    assert_eq!(reg.exit_pool(ALICE, &id, INITIAL_SHARE_SUPPLY, vec![0, 0]), Err(Error::InsufficientLiquidity));
    assert_eq!(reg.exit_pool(BOB, &id, u64::MAX, vec![0]), Err(Error::InsufficientLiquidity));
    assert_eq!(reg.exit_pool(ALICE, &id, quarter, vec![0]), Err(Error::InvalidTokenLength));
    assert_eq!(reg.exit_pool(BOB, &id, quarter, vec![0, 0]), Err(Error::InsufficientShares));
    assert_eq!(reg.exit_pool(ALICE, &id, quarter, vec![250, 251]), Err(Error::SlippageExceeded));
    assert_eq!(reg.pool_at(0).balance, vec![1000, 1000]);
}

#[test]
fn join_then_exit_favours_the_pool() {
    let (mut reg, _a, _b, id) = with_pool();
    reg.swap_exact_amount_in(BOB, &id, _a, 7, _b, 0, u64::MAX).unwrap();
    let before = reg.pool_at(0).balance.clone();
    let shares = INITIAL_SHARE_SUPPLY / 3;
    let paid = reg.join_pool(BOB, &id, shares, vec![u64::MAX, u64::MAX]).unwrap();
    let back = reg.exit_pool(BOB, &id, shares, vec![0, 0]).unwrap();
    for i in 0..2 {
        assert!(back[i] <= paid[i]);
        assert!(paid[i] - back[i] <= 1);
        assert_eq!(reg.pool_at(0).balance[i], before[i] + paid[i] - back[i]);
    }
    assert_eq!(reg.pool_at(0).lp_supply, INITIAL_SHARE_SUPPLY);
}

#[test]
fn registry_ledger_operations() {
    let (mut reg, a, _b, _id) = with_pool();
    assert_eq!(reg.transfer(BOB, a, ALICE, 0), Err(Error::InvalidAmount));
    assert_eq!(reg.transfer(BOB, a, ALICE, 10_001), Err(Error::InsufficientBalance));
    assert_eq!(reg.destroy(BOB, a), Ok(10_000));
    assert_eq!(reg.destroy(BOB, a), Err(Error::ZeroBalance));
    assert_eq!(reg.issue(BOB, 0), Err(Error::InvalidAmount));
    assert_eq!(reg.ledger_ref().total_supply_of(a), 990_000);
    assert_eq!(reg.ledger_ref().balance_of(a, AccountId::Custody(0)), 1000);
}

#[test]
fn fee_is_kept_back_rounded_up() {
    assert_eq!(take_fee(1000, 0), 1000);
    assert_eq!(take_fee(1000, ONE / 100), 990);
    assert_eq!(take_fee(1, ONE / 100), 0);
    assert_eq!(take_fee(1000, ONE / 2), 500);
    assert_eq!(take_fee(u64::MAX, ONE - 1), 4294967295);
}

#[test]
fn pool_with_a_fee_pays_out_less_and_charges_more() {
    let (mut reg, a, b) = funded();
    assert_eq!(
        reg.create_pool_with_fee(ALICE, vec![a, b], vec![10_000, 10_000], vec![1, 1], ONE),
        Err(Error::InvalidAmount)
    );
    let id = reg
        .create_pool_with_fee(ALICE, vec![a, b], vec![10_000, 10_000], vec![1, 1], ONE / 100)
        .unwrap();
    assert_eq!(reg.pool_at(0).fee, ONE / 100);
    assert_eq!(quote_swap_in(reg.pool_at(0), a, 1000, b, 0, u64::MAX), Ok((0, 1, 900)));
    assert_eq!(quote_swap_out(reg.pool_at(0), a, u64::MAX, b, 900, u64::MAX), Ok((0, 1, 1000)));
    assert_eq!(reg.swap_exact_amount_in(BOB, &id, a, 1000, b, 0, u64::MAX), Ok(900));
    assert_eq!(reg.pool_at(0).balance, vec![11_000, 9_100]);
    assert_eq!(reg.ledger_ref().balance_of(a, AccountId::Custody(0)), 11_000);
    assert_eq!(reg.ledger_ref().balance_of(b, AccountId::User(BOB)), 10_900);
}

#[test]
fn pool_without_a_fee_quotes_the_plain_formula() {
    let (mut reg, a, b) = funded();
    reg.create_pool(ALICE, vec![a, b], vec![10_000, 10_000], vec![1, 1]).unwrap();
    assert_eq!(reg.pool_at(0).fee, 0);
    assert_eq!(quote_swap_in(reg.pool_at(0), a, 1000, b, 0, u64::MAX), Ok((0, 1, 909)));
    assert_eq!(quote_swap_out(reg.pool_at(0), a, u64::MAX, b, 900, u64::MAX), Ok((0, 1, 990)));
    assert_eq!(quote_swap_in(reg.pool_at(0), b, 1000, a, 0, u64::MAX), Ok((1, 0, 909)));
}

#[test]
fn weighted_pool_swap() {
    let (mut reg, a, b) = funded();
    let id = reg.create_pool(ALICE, vec![a, b], vec![1000, 1000], vec![2, 1]).unwrap();
    assert_eq!(reg.swap_exact_amount_in(BOB, &id, a, 100, b, 0, u64::MAX), Ok(173));
    assert_eq!(reg.pool_at(0).balance, vec![1100, 827]);
    assert_eq!(reg.swap_exact_amount_in(BOB, &id, b, 173, a, 0, u64::MAX).map(|x| x <= 100), Ok(true));
}

#[test]
fn buying_back_costs_no_less_than_the_proceeds() {
    let (mut reg, a, b, id) = with_pool();
    assert_eq!(reg.swap_exact_amount_in(BOB, &id, a, 100, b, 0, u64::MAX), Ok(90));
    // 1100 / 1000 has no exact fixed-point form: the ratio rounds up, and so
    // does the charge, from just above 91 to 92.
    assert_eq!(reg.swap_exact_amount_out(BOB, &id, b, u64::MAX, a, 100, u64::MAX), Ok(92));
    assert_eq!(reg.pool_at(0).balance, vec![1000, 1002]);
}
