//! The pool registry: weighted liquidity pools over the asset ledger.
//!
//! The registry owns the ledger. Each pool keeps its reserves in a custody
//! account of the ledger, and what the ledger records for that account is
//! always exactly what the pool counts as its reserves.

use vstd::prelude::*;
use crate::address::{PoolId, derive_pool_id, pool_id_of};
use crate::book::{AccountId, Book};
use crate::error::Error;
use crate::ledger::AssetLedger;
use crate::swap::{
    join_amount, exit_amount, join_quote, exit_quote, calc_join_amount, calc_exit_amount,
    out_given_in, in_given_out, price_exceeds, calc_out_given_in, calc_in_given_out,
    spot_price_exceeds,
};
use crate::fixed::{ONE, div_up, fx_div_up};
use crate::product::{power, lemma_sale_never_lowers_product, lemma_purchase_never_lowers_product, lemma_power_mono, lemma_mul_mono};

verus! {

/// The most tokens a pool may bind.
pub const MAX_BOUND_TOKENS: usize = 8;

/// The shares that the creator of a pool receives.
pub const INITIAL_SHARE_SUPPLY: u64 = 1_000_000_000_000_000_000;

/// No token occurs twice.
pub open spec fn distinct_tokens(tokens: Seq<u64>) -> bool {
    forall|i: int, j: int| 0 <= i < j < tokens.len() ==> tokens[i] != tokens[j]
}

/// Every entry is above zero.
pub open spec fn all_positive(s: Seq<u64>) -> bool {
    forall|i: int| 0 <= i < s.len() ==> s[i] > 0
}

/// The sum of the entries.
pub open spec fn total_weight(s: Seq<u64>) -> nat
    decreases s.len(),
{
    if s.len() == 0 {
        0
    } else {
        total_weight(s.drop_last()) + s.last() as nat
    }
}

/// The amount listed for `asset`, where `tokens` and `amounts` run in parallel.
pub open spec fn amount_for(tokens: Seq<u64>, amounts: Seq<u64>, asset: u64) -> int
    decreases tokens.len(),
{
    if tokens.len() == 0 || amounts.len() != tokens.len() {
        0
    } else {
        amount_for(tokens.drop_last(), amounts.drop_last(), asset) + if tokens.last() == asset {
            amounts.last() as int
        } else {
            0
        }
    }
}

/// `who` holds at least the listed amount of each token.
pub open spec fn covers(ledger: AssetLedger, tokens: Seq<u64>, amounts: Seq<u64>, who: AccountId) -> bool {
    forall|i: int| 0 <= i < tokens.len() ==> ledger.balance(#[trigger] tokens[i], who) >= amounts[i]
}

/// `after` is `before` once the listed amount of each token went from `from` to `to`.
pub open spec fn moved_all(
    before: AssetLedger,
    after: AssetLedger,
    tokens: Seq<u64>,
    amounts: Seq<u64>,
    from: AccountId,
    to: AccountId,
) -> bool {
    &&& after.asset_count() == before.asset_count()
    &&& forall|a: u64| after.total_supply(a) == before.total_supply(a)
    &&& forall|a: u64, who: AccountId|
        after.balance(a, who) == before.balance(a, who) + (if who == to {
            amount_for(tokens, amounts, a)
        } else {
            0
        }) - (if who == from { amount_for(tokens, amounts, a) } else { 0 })
}

/// Among distinct tokens the amount listed for the token at `i` is the entry at `i`.
pub proof fn lemma_amount_for(tokens: Seq<u64>, amounts: Seq<u64>, i: int)
    requires
        distinct_tokens(tokens),
        amounts.len() == tokens.len(),
        0 <= i < tokens.len(),
    ensures
        amount_for(tokens, amounts, tokens[i]) == amounts[i],
    decreases tokens.len(),
{
    if i == tokens.len() - 1 {
        lemma_amount_absent(tokens.drop_last(), amounts.drop_last(), tokens[i]);
    } else {
        lemma_amount_for(tokens.drop_last(), amounts.drop_last(), i);
    }
}

/// For an asset that is not listed the amount is zero.
pub proof fn lemma_amount_absent(tokens: Seq<u64>, amounts: Seq<u64>, asset: u64)
    requires
        forall|i: int| 0 <= i < tokens.len() ==> tokens[i] != asset,
    ensures
        amount_for(tokens, amounts, asset) == 0,
    decreases tokens.len(),
{
    if tokens.len() > 0 && amounts.len() == tokens.len() {
        lemma_amount_absent(tokens.drop_last(), amounts.drop_last(), asset);
    }
}

/// Tells whether no token occurs twice.
pub fn check_distinct(tokens: &Vec<u64>) -> (r: bool)
    ensures
        r == distinct_tokens(tokens@),
{
    let mut j: usize = 0;
    while j < tokens.len()
        invariant
            j <= tokens@.len(),
            forall|a: int, b: int| 0 <= a < b < j ==> tokens@[a] != tokens@[b],
        decreases tokens@.len() - j,
    {
        let mut i: usize = 0;
        while i < j
            invariant
                i <= j < tokens@.len(),
                forall|a: int| 0 <= a < i ==> tokens@[a] != tokens@[j as int],
            decreases j - i,
        {
            if tokens[i] == tokens[j] {
                return false;
            }
            i += 1;
        }
        j += 1;
    }
    true
}

/// Tells whether every entry is above zero.
pub fn check_positive(v: &Vec<u64>) -> (r: bool)
    ensures
        r == all_positive(v@),
{
    let mut i: usize = 0;
    while i < v.len()
        invariant
            i <= v@.len(),
            forall|k: int| 0 <= k < i ==> v@[k] > 0,
        decreases v@.len() - i,
    {
        if v[i] == 0 {
            return false;
        }
        i += 1;
    }
    true
}

/// Adds up at most eight weights; `None` if the sum needs more than 64 bits.
pub fn sum_weights(v: &Vec<u64>) -> (r: Option<u64>)
    requires
        v@.len() <= MAX_BOUND_TOKENS,
    ensures
        r == if total_weight(v@) <= u64::MAX { Some(total_weight(v@) as u64) } else { None },
{
    let mut acc: u128 = 0;
    let mut i: usize = 0;
    while i < v.len()
        invariant
            i <= v@.len() <= 8,
            acc == total_weight(v@.take(i as int)),
            acc <= i * 0xffff_ffff_ffff_ffff,
        decreases v@.len() - i,
    {
        proof { assert(v@.take(i + 1).drop_last() =~= v@.take(i as int)); }
        acc = acc + v[i] as u128;
        i += 1;
    }
    proof { assert(v@.take(i as int) =~= v@); }
    if acc <= u64::MAX as u128 { Some(acc as u64) } else { None }
}

/// Finds the position of a token.
pub fn position_of(tokens: &Vec<u64>, token: u64) -> (r: Option<usize>)
    ensures
        match r {
            Some(i) => i < tokens@.len() && tokens@[i as int] == token,
            None => forall|i: int| 0 <= i < tokens@.len() ==> tokens@[i] != token,
        },
{
    let mut i: usize = 0;
    while i < tokens.len()
        invariant
            i <= tokens@.len(),
            forall|k: int| 0 <= k < i ==> tokens@[k] != token,
        decreases tokens@.len() - i,
    {
        if tokens[i] == token {
            return Some(i);
        }
        i += 1;
    }
    None
}

/// Tells whether `who` holds at least the listed amount of each token.
pub fn check_covers(ledger: &AssetLedger, tokens: &Vec<u64>, amounts: &Vec<u64>, who: AccountId) -> (r: bool)
    requires
        ledger.wf(),
        amounts@.len() == tokens@.len(),
    ensures
        r == covers(*ledger, tokens@, amounts@, who),
{
    let mut i: usize = 0;
    while i < tokens.len()
        invariant
            i <= tokens@.len(),
            amounts@.len() == tokens@.len(),
            ledger.wf(),
            forall|k: int| 0 <= k < i ==> ledger.balance(#[trigger] tokens@[k], who) >= amounts@[k],
        decreases tokens@.len() - i,
    {
        if ledger.balance_of(tokens[i], who) < amounts[i] {
            return false;
        }
        i += 1;
    }
    true
}

/// Moves the listed amount of each token from `from` to `to`.
pub fn transfer_all(
    ledger: &mut AssetLedger,
    tokens: &Vec<u64>,
    amounts: &Vec<u64>,
    from: AccountId,
    to: AccountId,
)
    requires
        old(ledger).wf(),
        amounts@.len() == tokens@.len(),
        distinct_tokens(tokens@),
        from != to,
        covers(*old(ledger), tokens@, amounts@, from),
    ensures
        final(ledger).wf(),
        moved_all(*old(ledger), *final(ledger), tokens@, amounts@, from, to),
{
    let ghost before = *ledger;
    let mut i: usize = 0;
    while i < tokens.len()
        invariant
            i <= tokens@.len(),
            amounts@.len() == tokens@.len(),
            distinct_tokens(tokens@),
            from != to,
            ledger.wf(),
            moved_all(before, *ledger, tokens@.take(i as int), amounts@.take(i as int), from, to),
            forall|k: int| i <= k < tokens@.len() ==> ledger.balance(#[trigger] tokens@[k], from) >= amounts@[k],
        decreases tokens@.len() - i,
    {
        let ghost mid = *ledger;
        let token: u64 = tokens[i];
        let amount: u64 = amounts[i];
        proof {
            assert(tokens@.take(i + 1).drop_last() =~= tokens@.take(i as int));
            assert(amounts@.take(i + 1).drop_last() =~= amounts@.take(i as int));
            assert(mid.balance(tokens@[i as int], from) >= amounts@[i as int]);
        }
        if amount > 0 {
            let r = ledger.transfer(from, token, to, amount);
            assert(r is Ok);
        }
        proof {
            assert forall|k: int| i + 1 <= k < tokens@.len() implies ledger.balance(#[trigger] tokens@[k], from) >= amounts@[k] by {
                assert(tokens@[k] != token);
                assert(mid.balance(tokens@[k], from) >= amounts@[k]);
            }
        }
        i += 1;
    }
    proof {
        assert(tokens@.take(i as int) =~= tokens@);
        assert(amounts@.take(i as int) =~= amounts@);
    }
}

/// One pool: its identifier, the bound tokens with their reserves and
/// weights, and who holds its shares.
pub struct PoolInfo {
    /// The identifier derived from the bound tokens.
    pub id: PoolId,
    /// The bound tokens, in the order in which the creator listed them.
    pub tokens: Vec<u64>,
    /// The reserve of each token.
    pub balance: Vec<u64>,
    /// The denormalised weight of each token.
    pub denorm: Vec<u64>,
    /// The part of every amount sold to the pool that is kept back before
    /// the price is worked out, as a fixed-point fraction below one.
    pub fee: u64,
    /// The shares outstanding.
    pub lp_supply: u64,
    /// Who holds the shares.
    pub shares: Book,
}

impl PoolInfo {
    /// Two to eight distinct tokens, each with a reserve and a weight above
    /// zero; a fee below one; shares outstanding, held in full by the share
    /// holders; and the identifier that belongs to the tokens.
    pub open spec fn wf(&self) -> bool {
        &&& 2 <= self.tokens@.len() <= MAX_BOUND_TOKENS
        &&& self.balance@.len() == self.tokens@.len()
        &&& self.denorm@.len() == self.tokens@.len()
        &&& distinct_tokens(self.tokens@)
        &&& all_positive(self.balance@)
        &&& all_positive(self.denorm@)
        &&& self.fee < ONE
        &&& self.lp_supply > 0
        &&& self.shares.wf()
        &&& self.shares.total() == self.lp_supply
        &&& self.id@ == pool_id_of(self.tokens@)
    }
}

/// Something that names the pool over a list of tokens.
pub trait PoolFactory {
    /// The identifier of the pool over `tokens`.
    fn get_pool_address(tokens: Vec<u64>) -> PoolId;
}

/// Names pools by the digest of their tokens in ascending order.
pub struct PoolAddress;

impl PoolFactory for PoolAddress {
    fn get_pool_address(tokens: Vec<u64>) -> (r: PoolId)
        ensures
            r@ == pool_id_of(tokens@),
    {
        derive_pool_id(&tokens)
    }
}

/// The deposit of each token for `shares` new shares.
pub open spec fn join_amounts(reserves: Seq<u64>, shares: u64, supply: u64) -> Seq<u64> {
    Seq::new(reserves.len(), |i: int| join_amount(reserves[i], shares, supply) as u64)
}

/// The withdrawal of each token for `shares` redeemed shares.
pub open spec fn exit_amounts(reserves: Seq<u64>, shares: u64, supply: u64) -> Seq<u64> {
    Seq::new(reserves.len(), |i: int| exit_amount(reserves[i], shares, supply) as u64)
}

/// The first reason, going through the tokens from position `from`, why the
/// deposits for `shares` new shares cannot be taken: a quote that fails, a
/// deposit above the caller's limit, or a reserve that would not fit.
pub open spec fn join_failure(
    reserves: Seq<u64>,
    limits: Seq<u64>,
    shares: u64,
    supply: u64,
    from: int,
) -> Option<Error>
    decreases reserves.len() - from,
{
    if from < 0 || from >= reserves.len() || limits.len() != reserves.len() {
        None
    } else {
        match join_quote(reserves[from], shares, supply) {
            Err(e) => Some(e),
            Ok(a) => if a > limits[from] {
                Some(Error::SlippageExceeded)
            } else if reserves[from] + a > u64::MAX {
                Some(Error::ArithmeticOverflow)
            } else {
                join_failure(reserves, limits, shares, supply, from + 1)
            },
        }
    }
}

/// The first reason, going through the tokens from position `from`, why the
/// withdrawals for `shares` redeemed shares cannot be paid: a quote that
/// fails, or a withdrawal below the caller's limit.
pub open spec fn exit_failure(
    reserves: Seq<u64>,
    limits: Seq<u64>,
    shares: u64,
    supply: u64,
    from: int,
) -> Option<Error>
    decreases reserves.len() - from,
{
    if from < 0 || from >= reserves.len() || limits.len() != reserves.len() {
        None
    } else {
        match exit_quote(reserves[from], shares, supply) {
            Err(e) => Some(e),
            Ok(a) => if a < limits[from] {
                Some(Error::SlippageExceeded)
            } else {
                exit_failure(reserves, limits, shares, supply, from + 1)
            },
        }
    }
}

/// Redeeming fewer shares than are outstanding pays out less than the reserve.
pub proof fn lemma_exit_leaves_reserve(reserve: u64, shares: u64, supply: u64)
    requires
        reserve > 0,
        shares < supply,
    ensures
        0 <= exit_amount(reserve, shares, supply) < reserve,
{
    let r = reserve as int;
    let x = shares as int;
    let s = supply as int;
    assert(0 <= (r * x) / s < r) by (nonlinear_arith)
        requires r > 0, 0 <= x < s;
}

/// A withdrawal that would take a whole reserve redeems every share.
pub proof fn lemma_exit_boundary(reserve: u64, shares: u64, supply: u64)
    requires
        reserve > 0,
        supply > 0,
        exit_amount(reserve, shares, supply) >= reserve,
    ensures
        shares >= supply,
{
    if shares < supply {
        lemma_exit_leaves_reserve(reserve, shares, supply);
    }
}

/// Quotes the deposits for `shares` new shares and holds each against its limit.
pub fn quote_join(reserves: &Vec<u64>, limits: &Vec<u64>, shares: u64, supply: u64) -> (r: Result<
    Vec<u64>,
    Error,
>)
    requires
        limits@.len() == reserves@.len(),
    ensures
        match r {
            Ok(amounts) => {
                &&& join_failure(reserves@, limits@, shares, supply, 0) is None
                &&& amounts@ == join_amounts(reserves@, shares, supply)
                &&& forall|i: int| 0 <= i < reserves@.len() ==> reserves@[i] + amounts@[i] <= u64::MAX
                &&& forall|i: int| 0 <= i < reserves@.len() ==> amounts@[i] <= limits@[i]
            },
            Err(e) => join_failure(reserves@, limits@, shares, supply, 0) == Some(e),
        },
{
    let mut amounts: Vec<u64> = Vec::new();
    let mut i: usize = 0;
    while i < reserves.len()
        invariant
            i <= reserves@.len(),
            limits@.len() == reserves@.len(),
            amounts@.len() == i,
            join_failure(reserves@, limits@, shares, supply, 0) == join_failure(
                reserves@,
                limits@,
                shares,
                supply,
                i as int,
            ),
            forall|k: int|
                0 <= k < i ==> {
                    &&& amounts@[k] == join_amount(reserves@[k], shares, supply)
                    &&& reserves@[k] + amounts@[k] <= u64::MAX
                    &&& amounts@[k] <= limits@[k]
                },
        decreases reserves@.len() - i,
    {
        let a: u64 = match calc_join_amount(reserves[i], shares, supply) {
            Err(e) => { return Err(e); },
            Ok(a) => a,
        };
        if a > limits[i] {
            return Err(Error::SlippageExceeded);
        }
        if a > u64::MAX - reserves[i] {
            return Err(Error::ArithmeticOverflow);
        }
        amounts.push(a);
        i += 1;
    }
    proof { assert(amounts@ =~= join_amounts(reserves@, shares, supply)); }
    Ok(amounts)
}

/// Quotes the withdrawals for `shares` redeemed shares and holds each against its limit.
pub fn quote_exit(reserves: &Vec<u64>, limits: &Vec<u64>, shares: u64, supply: u64) -> (r: Result<
    Vec<u64>,
    Error,
>)
    requires
        limits@.len() == reserves@.len(),
    ensures
        match r {
            Ok(amounts) => {
                &&& exit_failure(reserves@, limits@, shares, supply, 0) is None
                &&& amounts@ == exit_amounts(reserves@, shares, supply)
                &&& forall|i: int| 0 <= i < reserves@.len() ==> amounts@[i] >= limits@[i]
            },
            Err(e) => exit_failure(reserves@, limits@, shares, supply, 0) == Some(e),
        },
{
    let mut amounts: Vec<u64> = Vec::new();
    let mut i: usize = 0;
    while i < reserves.len()
        invariant
            i <= reserves@.len(),
            limits@.len() == reserves@.len(),
            amounts@.len() == i,
            exit_failure(reserves@, limits@, shares, supply, 0) == exit_failure(
                reserves@,
                limits@,
                shares,
                supply,
                i as int,
            ),
            forall|k: int|
                0 <= k < i ==> {
                    &&& amounts@[k] == exit_amount(reserves@[k], shares, supply)
                    &&& amounts@[k] >= limits@[k]
                },
        decreases reserves@.len() - i,
    {
        let a: u64 = match calc_exit_amount(reserves[i], shares, supply) {
            Err(e) => { return Err(e); },
            Ok(a) => a,
        };
        if a < limits[i] {
            return Err(Error::SlippageExceeded);
        }
        amounts.push(a);
        i += 1;
    }
    proof { assert(amounts@ =~= exit_amounts(reserves@, shares, supply)); }
    Ok(amounts)
}

/// Adds to each reserve its amount.
pub fn add_each(reserves: &Vec<u64>, amounts: &Vec<u64>) -> (r: Vec<u64>)
    requires
        amounts@.len() == reserves@.len(),
        forall|i: int| 0 <= i < reserves@.len() ==> reserves@[i] + amounts@[i] <= u64::MAX,
    ensures
        r@.len() == reserves@.len(),
        forall|i: int| 0 <= i < reserves@.len() ==> r@[i] == reserves@[i] + amounts@[i],
{
    let mut out: Vec<u64> = Vec::new();
    let mut i: usize = 0;
    while i < reserves.len()
        invariant
            i <= reserves@.len(),
            amounts@.len() == reserves@.len(),
            out@.len() == i,
            forall|k: int| 0 <= k < reserves@.len() ==> reserves@[k] + amounts@[k] <= u64::MAX,
            forall|k: int| 0 <= k < i ==> out@[k] == reserves@[k] + amounts@[k],
        decreases reserves@.len() - i,
    {
        out.push(reserves[i] + amounts[i]);
        i += 1;
    }
    out
}

/// Takes from each reserve its amount.
pub fn sub_each(reserves: &Vec<u64>, amounts: &Vec<u64>) -> (r: Vec<u64>)
    requires
        amounts@.len() == reserves@.len(),
        forall|i: int| 0 <= i < reserves@.len() ==> reserves@[i] >= amounts@[i],
    ensures
        r@.len() == reserves@.len(),
        forall|i: int| 0 <= i < reserves@.len() ==> r@[i] == reserves@[i] - amounts@[i],
{
    let mut out: Vec<u64> = Vec::new();
    let mut i: usize = 0;
    while i < reserves.len()
        invariant
            i <= reserves@.len(),
            amounts@.len() == reserves@.len(),
            out@.len() == i,
            forall|k: int| 0 <= k < reserves@.len() ==> reserves@[k] >= amounts@[k],
            forall|k: int| 0 <= k < i ==> out@[k] == reserves@[k] - amounts@[k],
        decreases reserves@.len() - i,
    {
        out.push(reserves[i] - amounts[i]);
        i += 1;
    }
    out
}

/// Whether a token is among the bound tokens.
pub open spec fn is_bound(tokens: Seq<u64>, token: u64) -> bool {
    exists|i: int| 0 <= i < tokens.len() && tokens[i] == token
}

/// The position of a bound token.
pub open spec fn slot(tokens: Seq<u64>, token: u64) -> int {
    choose|i: int| 0 <= i < tokens.len() && tokens[i] == token
}

/// Among distinct tokens a token is bound at one position only.
pub proof fn lemma_slot(tokens: Seq<u64>, token: u64, i: int)
    requires
        distinct_tokens(tokens),
        0 <= i < tokens.len(),
        tokens[i] == token,
    ensures
        is_bound(tokens, token),
        slot(tokens, token) == i,
{
    let k = slot(tokens, token);
    assert(tokens[k] == token);
    if k < i {
        assert(tokens[k] != tokens[i]);
    } else if i < k {
        assert(tokens[i] != tokens[k]);
    }
}

/// What `who` gains of asset `a` when `amount` of `token` goes from `from` to `to`.
pub open spec fn flow(a: u64, who: AccountId, token: u64, from: AccountId, to: AccountId, amount: u64)
    -> int {
    if a == token {
        (if who == to { amount as int } else { 0 }) - (if who == from { amount as int } else { 0 })
    } else {
        0
    }
}

/// What is left of an amount once the fee, rounded up, is kept back.
pub open spec fn net_of_fee(amount: u64, fee: u64) -> u64 {
    (amount - (amount as int * fee as int + (ONE as int - 1)) / (ONE as int)) as u64
}

/// The smallest amount that the quote charges so that, after the fee,
/// `net` is left: `ceil(net / (1 - fee))`, or `None` beyond 64 bits.
pub open spec fn gross_of_net(net: u64, fee: u64) -> Option<u64> {
    div_up(net, (ONE - fee) as u64)
}

/// Keeps the fee back from an amount.
pub fn take_fee(amount: u64, fee: u64) -> (r: u64)
    requires
        fee < ONE,
    ensures
        r == net_of_fee(amount, fee),
        r <= amount,
{
    proof {
        let a = amount as int;
        let f = fee as int;
        let one = ONE as int;
        assert(0 <= (a * f + (one - 1)) / one <= a && 0 <= a * f <= a * one) by (nonlinear_arith)
            requires 0 <= a, 0 <= f < one, one > 0;
        assert(a * one <= 0xffff_ffff_ffff_ffff * 0x1_0000_0000) by (nonlinear_arith)
            requires 0 <= a <= 0xffff_ffff_ffff_ffff, one == 0x1_0000_0000;
    }
    let kept: u128 = ((amount as u128) * (fee as u128) + (ONE as u128 - 1)) / (ONE as u128);
    amount - kept as u64
}

/// The outcome of selling exactly `amount_in` of `token_in` to a pool: the
/// amount of `token_out` paid for what the fee leaves of `amount_in`, or the
/// first reason for refusing the trade.
pub open spec fn swap_in_quote(
    pool: PoolInfo,
    token_in: u64,
    amount_in: u64,
    token_out: u64,
    min_amount_out: u64,
    max_price: u64,
) -> Result<u64, Error> {
    let i = slot(pool.tokens@, token_in);
    let j = slot(pool.tokens@, token_out);
    if !is_bound(pool.tokens@, token_in) || !is_bound(pool.tokens@, token_out) {
        Err(Error::PoolNotFound)
    } else if token_in == token_out {
        Err(Error::DuplicateToken)
    } else if amount_in == 0 {
        Err(Error::InvalidAmount)
    } else if pool.balance@[i] + amount_in > u64::MAX {
        Err(Error::ArithmeticOverflow)
    } else {
        match out_given_in(
            pool.balance@[i],
            pool.denorm@[i],
            pool.balance@[j],
            pool.denorm@[j],
            net_of_fee(amount_in, pool.fee),
        ) {
            Err(e) => Err(e),
            Ok(out) => if out < min_amount_out {
                Err(Error::SlippageExceeded)
            } else if out >= pool.balance@[j] {
                Err(Error::InsufficientLiquidity)
            } else if price_exceeds(
                (pool.balance@[i] + amount_in) as u64,
                pool.denorm@[i],
                (pool.balance@[j] - out) as u64,
                pool.denorm@[j],
                max_price,
            ) {
                Err(Error::PriceLimitExceeded)
            } else {
                Ok(out)
            },
        }
    }
}

/// The outcome of buying exactly `amount_out` of `token_out` from a pool: the
/// amount of `token_in` charged, fee included, or the first reason for
/// refusing the trade.
/// An amount that the reserve cannot pay is refused before anything is computed.
pub open spec fn swap_out_quote(
    pool: PoolInfo,
    token_in: u64,
    max_amount_in: u64,
    token_out: u64,
    amount_out: u64,
    max_price: u64,
) -> Result<u64, Error> {
    let i = slot(pool.tokens@, token_in);
    let j = slot(pool.tokens@, token_out);
    if !is_bound(pool.tokens@, token_out) {
        Err(Error::PoolNotFound)
    } else if amount_out >= pool.balance@[j] {
        Err(Error::InsufficientLiquidity)
    } else if amount_out == 0 {
        Err(Error::InvalidAmount)
    } else if !is_bound(pool.tokens@, token_in) {
        Err(Error::PoolNotFound)
    } else if token_in == token_out {
        Err(Error::DuplicateToken)
    } else {
        match in_given_out(
            pool.balance@[i],
            pool.denorm@[i],
            pool.balance@[j],
            pool.denorm@[j],
            amount_out,
        ) {
            Err(e) => Err(e),
            Ok(net) => match gross_of_net(net, pool.fee) {
                None => Err(Error::ArithmeticOverflow),
                Some(paid) => swap_out_limits(pool, i, j, paid, max_amount_in, amount_out, max_price),
            },
        }
    }
}

/// The last tests of a purchase, on the amount that it charges.
pub open spec fn swap_out_limits(
    pool: PoolInfo,
    i: int,
    j: int,
    paid: u64,
    max_amount_in: u64,
    amount_out: u64,
    max_price: u64,
) -> Result<u64, Error> {
    if paid > max_amount_in {
        Err(Error::SlippageExceeded)
    } else if paid == 0 {
        Err(Error::InvalidAmount)
    } else if pool.balance@[i] + paid > u64::MAX {
        Err(Error::ArithmeticOverflow)
    } else if price_exceeds(
        (pool.balance@[i] + paid) as u64,
        pool.denorm@[i],
        (pool.balance@[j] - amount_out) as u64,
        pool.denorm@[j],
        max_price,
    ) {
        Err(Error::PriceLimitExceeded)
    } else {
        Ok(paid)
    }
}

/// Quotes the sale of exactly `amount_in`; on success also the positions of the two tokens.
pub fn quote_swap_in(
    pool: &PoolInfo,
    token_in: u64,
    amount_in: u64,
    token_out: u64,
    min_amount_out: u64,
    max_price: u64,
) -> (r: Result<(usize, usize, u64), Error>)
    requires
        pool.wf(),
    ensures
        match r {
            Ok((i, j, out)) => {
                &&& swap_in_quote(*pool, token_in, amount_in, token_out, min_amount_out, max_price)
                    == Ok::<u64, Error>(out)
                &&& i == slot(pool.tokens@, token_in)
                &&& j == slot(pool.tokens@, token_out)
                &&& i < pool.tokens@.len() && j < pool.tokens@.len() && i != j
                &&& pool.tokens@[i as int] == token_in && pool.tokens@[j as int] == token_out
                &&& amount_in > 0
                &&& pool.balance@[i as int] + amount_in <= u64::MAX
                &&& out < pool.balance@[j as int]
            },
            Err(e) => swap_in_quote(*pool, token_in, amount_in, token_out, min_amount_out, max_price)
                == Err::<u64, Error>(e),
        },
{
    let i: usize = match position_of(&pool.tokens, token_in) {
        None => { return Err(Error::PoolNotFound); },
        Some(i) => i,
    };
    let j: usize = match position_of(&pool.tokens, token_out) {
        None => { return Err(Error::PoolNotFound); },
        Some(j) => j,
    };
    proof {
        lemma_slot(pool.tokens@, token_in, i as int);
        lemma_slot(pool.tokens@, token_out, j as int);
    }
    if token_in == token_out {
        return Err(Error::DuplicateToken);
    }
    if amount_in == 0 {
        return Err(Error::InvalidAmount);
    }
    let b_in: u64 = pool.balance[i];
    let b_out: u64 = pool.balance[j];
    if amount_in > u64::MAX - b_in {
        return Err(Error::ArithmeticOverflow);
    }
    let net: u64 = take_fee(amount_in, pool.fee);
    let out: u64 = match calc_out_given_in(b_in, pool.denorm[i], b_out, pool.denorm[j], net) {
        Err(e) => { return Err(e); },
        Ok(out) => out,
    };
    if out < min_amount_out {
        return Err(Error::SlippageExceeded);
    }
    if out >= b_out {
        return Err(Error::InsufficientLiquidity);
    }
    if spot_price_exceeds(b_in + amount_in, pool.denorm[i], b_out - out, pool.denorm[j], max_price) {
        return Err(Error::PriceLimitExceeded);
    }
    Ok((i, j, out))
}

/// Quotes the purchase of exactly `amount_out`; on success also the positions of the two tokens.
pub fn quote_swap_out(
    pool: &PoolInfo,
    token_in: u64,
    max_amount_in: u64,
    token_out: u64,
    amount_out: u64,
    max_price: u64,
) -> (r: Result<(usize, usize, u64), Error>)
    requires
        pool.wf(),
    ensures
        match r {
            Ok((i, j, paid)) => {
                &&& swap_out_quote(*pool, token_in, max_amount_in, token_out, amount_out, max_price)
                    == Ok::<u64, Error>(paid)
                &&& i == slot(pool.tokens@, token_in)
                &&& j == slot(pool.tokens@, token_out)
                &&& i < pool.tokens@.len() && j < pool.tokens@.len() && i != j
                &&& pool.tokens@[i as int] == token_in && pool.tokens@[j as int] == token_out
                &&& paid > 0
                &&& pool.balance@[i as int] + paid <= u64::MAX
                &&& 0 < amount_out < pool.balance@[j as int]
            },
            Err(e) => swap_out_quote(*pool, token_in, max_amount_in, token_out, amount_out, max_price)
                == Err::<u64, Error>(e),
        },
{
    let j: usize = match position_of(&pool.tokens, token_out) {
        None => { return Err(Error::PoolNotFound); },
        Some(j) => j,
    };
    proof { lemma_slot(pool.tokens@, token_out, j as int); }
    let b_out: u64 = pool.balance[j];
    if amount_out >= b_out {
        return Err(Error::InsufficientLiquidity);
    }
    if amount_out == 0 {
        return Err(Error::InvalidAmount);
    }
    let i: usize = match position_of(&pool.tokens, token_in) {
        None => { return Err(Error::PoolNotFound); },
        Some(i) => i,
    };
    proof { lemma_slot(pool.tokens@, token_in, i as int); }
    if token_in == token_out {
        return Err(Error::DuplicateToken);
    }
    let b_in: u64 = pool.balance[i];
    let net: u64 = match calc_in_given_out(b_in, pool.denorm[i], b_out, pool.denorm[j], amount_out) {
        Err(e) => { return Err(e); },
        Ok(net) => net,
    };
    let paid: u64 = match fx_div_up(net, ONE - pool.fee) {
        None => { return Err(Error::ArithmeticOverflow); },
        Some(paid) => paid,
    };
    if paid > max_amount_in {
        return Err(Error::SlippageExceeded);
    }
    if paid == 0 {
        return Err(Error::InvalidAmount);
    }
    if paid > u64::MAX - b_in {
        return Err(Error::ArithmeticOverflow);
    }
    if spot_price_exceeds(b_in + paid, pool.denorm[i], b_out - amount_out, pool.denorm[j], max_price) {
        return Err(Error::PriceLimitExceeded);
    }
    Ok((i, j, paid))
}

/// A sale that a pool accepts never lowers the weighted product of the two
/// reserves, whatever the pool's fee.
pub proof fn lemma_swap_in_never_lowers_product(
    pool: PoolInfo,
    token_in: u64,
    amount_in: u64,
    token_out: u64,
    min_amount_out: u64,
    max_price: u64,
    amount_out: u64,
)
    requires
        pool.wf(),
        swap_in_quote(pool, token_in, amount_in, token_out, min_amount_out, max_price) == Ok::<
            u64,
            Error,
        >(amount_out),
    ensures
        ({
            let i = slot(pool.tokens@, token_in);
            let j = slot(pool.tokens@, token_out);
            &&& amount_out < pool.balance@[j]
            &&& power((pool.balance@[i] + amount_in) as nat, pool.denorm@[i] as nat) * power(
                (pool.balance@[j] - amount_out) as nat,
                pool.denorm@[j] as nat,
            ) >= power(pool.balance@[i] as nat, pool.denorm@[i] as nat) * power(
                pool.balance@[j] as nat,
                pool.denorm@[j] as nat,
            )
        }),
{
    let i = slot(pool.tokens@, token_in);
    let j = slot(pool.tokens@, token_out);
    let net = net_of_fee(amount_in, pool.fee);
    let a = amount_in as int;
    let f = pool.fee as int;
    let one = ONE as int;
    assert(0 <= (a * f + (one - 1)) / one <= a) by (nonlinear_arith)
        requires 0 <= a, 0 <= f < one, one > 0;
    lemma_sale_never_lowers_product(
        pool.balance@[i],
        pool.denorm@[i],
        pool.balance@[j],
        pool.denorm@[j],
        net,
        amount_out,
    );
    let wi = pool.denorm@[i] as nat;
    let wo = pool.denorm@[j] as nat;
    lemma_power_mono((pool.balance@[i] + net) as nat, (pool.balance@[i] + amount_in) as nat, wi);
    let rest = power((pool.balance@[j] - amount_out) as nat, wo);
    lemma_mul_mono(
        power((pool.balance@[i] + amount_in) as nat, wi),
        power((pool.balance@[i] + net) as nat, wi),
        rest,
        rest,
    );
}

/// A purchase that a pool accepts never lowers the weighted product of the
/// two reserves, whatever the pool's fee.
pub proof fn lemma_swap_out_never_lowers_product(
    pool: PoolInfo,
    token_in: u64,
    max_amount_in: u64,
    token_out: u64,
    amount_out: u64,
    max_price: u64,
    amount_in: u64,
)
    requires
        pool.wf(),
        swap_out_quote(pool, token_in, max_amount_in, token_out, amount_out, max_price) == Ok::<
            u64,
            Error,
        >(amount_in),
    ensures
        ({
            let i = slot(pool.tokens@, token_in);
            let j = slot(pool.tokens@, token_out);
            &&& amount_out < pool.balance@[j]
            &&& power((pool.balance@[i] + amount_in) as nat, pool.denorm@[i] as nat) * power(
                (pool.balance@[j] - amount_out) as nat,
                pool.denorm@[j] as nat,
            ) >= power(pool.balance@[i] as nat, pool.denorm@[i] as nat) * power(
                pool.balance@[j] as nat,
                pool.denorm@[j] as nat,
            )
        }),
{
    let i = slot(pool.tokens@, token_in);
    let j = slot(pool.tokens@, token_out);
    let net = in_given_out(
        pool.balance@[i],
        pool.denorm@[i],
        pool.balance@[j],
        pool.denorm@[j],
        amount_out,
    ).unwrap();
    let n = net as int;
    let d = (ONE - pool.fee) as int;
    let one = ONE as int;
    let g = amount_in as int;
    assert(g >= n) by (nonlinear_arith)
        requires g == (n * one + (d - 1)) / d, 0 < d <= one, n >= 0;
    lemma_purchase_never_lowers_product(
        pool.balance@[i],
        pool.denorm@[i],
        pool.balance@[j],
        pool.denorm@[j],
        amount_out,
        net,
    );
    let wi = pool.denorm@[i] as nat;
    let wo = pool.denorm@[j] as nat;
    lemma_power_mono((pool.balance@[i] + net) as nat, (pool.balance@[i] + amount_in) as nat, wi);
    let rest = power((pool.balance@[j] - amount_out) as nat, wo);
    lemma_mul_mono(
        power((pool.balance@[i] + amount_in) as nat, wi),
        power((pool.balance@[i] + net) as nat, wi),
        rest,
        rest,
    );
}

} // verus!
