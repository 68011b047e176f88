//! The registry of pools and the operations on them.
//!
//! Every operation either succeeds with all of its effects or fails and
//! leaves the registry exactly as it was.

use vstd::prelude::*;
use crate::address::{PoolId, derive_pool_id, pool_id_of, same_pool_id};
use crate::book::{AccountId, Book};
use crate::error::Error;
use crate::fixed::ONE;
use crate::ledger::AssetLedger;
use crate::swap::exit_amount;
use crate::pool::{
    PoolInfo, MAX_BOUND_TOKENS, INITIAL_SHARE_SUPPLY, distinct_tokens, all_positive, total_weight,
    covers, moved_all, lemma_amount_for, lemma_slot, check_distinct, check_positive,
    sum_weights, check_covers, transfer_all, join_amounts, exit_amounts, join_failure,
    exit_failure, quote_join, quote_exit, add_each, sub_each, lemma_exit_leaves_reserve, slot,
    is_bound, flow, swap_in_quote, swap_out_quote, quote_swap_in, quote_swap_out,
};

verus! {

/// The ledger records for the custody account of the pool at position `p`
/// exactly the pool's reserve of each bound token.
pub open spec fn backed(ledger: AssetLedger, pool: PoolInfo, p: int) -> bool {
    forall|i: int|
        0 <= i < pool.tokens@.len() ==> ledger.balance(
            #[trigger] pool.tokens@[i],
            AccountId::Custody(p as u64),
        ) == pool.balance@[i]
}

/// The ledger together with the pools that keep their reserves in it.
pub struct PoolRegistry {
    ledger: AssetLedger,
    pools: Vec<PoolInfo>,
}

impl PoolRegistry {
    /// The ledger.
    pub closed spec fn ledger(&self) -> AssetLedger {
        self.ledger
    }

    /// The pools, in the order of their creation.
    pub closed spec fn pools(&self) -> Seq<PoolInfo> {
        self.pools@
    }

    /// The ledger conserves every asset; every pool is in order and backed by
    /// its custody account; no two pools share an identifier; and custody
    /// accounts of pools that do not exist hold nothing.
    pub open spec fn wf(&self) -> bool {
        &&& self.ledger().wf()
        &&& self.pools().len() <= u64::MAX
        &&& forall|p: int|
            0 <= p < self.pools().len() ==> (#[trigger] self.pools()[p]).wf() && backed(
                self.ledger(),
                self.pools()[p],
                p,
            )
        &&& forall|p: int, q: int|
            0 <= p < q < self.pools().len() ==> (#[trigger] self.pools()[p]).id@ != (
            #[trigger] self.pools()[q]).id@
        &&& forall|a: u64, p: u64|
            p >= self.pools().len() ==> self.ledger().balance(a, AccountId::Custody(p)) == 0
    }

    /// Whether a pool has the identifier.
    pub open spec fn has_pool(&self, id: Seq<u8>) -> bool {
        exists|p: int| 0 <= p < self.pools().len() && (#[trigger] self.pools()[p]).id@ == id
    }

    /// Why a pool over these tokens cannot be created, if it cannot.
    pub open spec fn create_check(
        &self,
        caller: u64,
        tokens: Seq<u64>,
        balances: Seq<u64>,
        weights: Seq<u64>,
        fee: u64,
    ) -> Option<Error> {
        if tokens.len() > MAX_BOUND_TOKENS {
            Some(Error::MaxTokens)
        } else if balances.len() != tokens.len() || weights.len() != tokens.len() || tokens.len()
            < 2 {
            Some(Error::InvalidTokenLength)
        } else if !distinct_tokens(tokens) {
            Some(Error::DuplicateToken)
        } else if !all_positive(balances) || !all_positive(weights) || fee >= ONE {
            Some(Error::InvalidAmount)
        } else if total_weight(weights) > u64::MAX {
            Some(Error::ArithmeticOverflow)
        } else if self.has_pool(pool_id_of(tokens)) {
            Some(Error::PoolExists)
        } else if !covers(self.ledger(), tokens, balances, AccountId::User(caller)) {
            Some(Error::InsufficientBalance)
        } else if self.pools().len() + 1 > u64::MAX {
            Some(Error::ArithmeticOverflow)
        } else {
            None
        }
    }

    /// The position of the pool with the identifier.
    pub open spec fn position(&self, id: Seq<u8>) -> int {
        choose|p: int| 0 <= p < self.pools().len() && (#[trigger] self.pools()[p]).id@ == id
    }

    /// Why `caller` cannot mint `shares` of the pool, if it cannot.
    pub open spec fn join_check(&self, caller: u64, id: Seq<u8>, shares: u64, limits: Seq<u64>)
        -> Option<Error> {
        let pool = self.pools()[self.position(id)];
        if !self.has_pool(id) {
            Some(Error::PoolNotFound)
        } else if shares == 0 {
            Some(Error::InvalidAmount)
        } else if limits.len() != pool.tokens@.len() {
            Some(Error::InvalidTokenLength)
        } else if pool.lp_supply + shares > u64::MAX {
            Some(Error::ArithmeticOverflow)
        } else if join_failure(pool.balance@, limits, shares, pool.lp_supply, 0) is Some {
            join_failure(pool.balance@, limits, shares, pool.lp_supply, 0)
        } else if !covers(
            self.ledger(),
            pool.tokens@,
            join_amounts(pool.balance@, shares, pool.lp_supply),
            AccountId::User(caller),
        ) {
            Some(Error::InsufficientBalance)
        } else {
            None
        }
    }

    /// Why `caller` cannot redeem `shares` of the pool, if it cannot. Redeeming
    /// every outstanding share would empty the reserves and is refused first.
    pub open spec fn exit_check(&self, caller: u64, id: Seq<u8>, shares: u64, limits: Seq<u64>)
        -> Option<Error> {
        let pool = self.pools()[self.position(id)];
        if !self.has_pool(id) {
            Some(Error::PoolNotFound)
        } else if shares == 0 {
            Some(Error::InvalidAmount)
        } else if shares >= pool.lp_supply {
            Some(Error::InsufficientLiquidity)
        } else if limits.len() != pool.tokens@.len() {
            Some(Error::InvalidTokenLength)
        } else if pool.shares.balance(AccountId::User(caller)) < shares {
            Some(Error::InsufficientShares)
        } else {
            exit_failure(pool.balance@, limits, shares, pool.lp_supply, 0)
        }
    }

    /// The outcome of `caller` selling exactly `amount_in` to the pool.
    pub open spec fn swap_in_check(
        &self,
        caller: u64,
        id: Seq<u8>,
        token_in: u64,
        amount_in: u64,
        token_out: u64,
        min_amount_out: u64,
        max_price: u64,
    ) -> Result<u64, Error> {
        let pool = self.pools()[self.position(id)];
        if !self.has_pool(id) {
            Err(Error::PoolNotFound)
        } else {
            match swap_in_quote(pool, token_in, amount_in, token_out, min_amount_out, max_price) {
                Err(e) => Err(e),
                Ok(out) => if self.ledger().balance(token_in, AccountId::User(caller)) < amount_in {
                    Err(Error::InsufficientBalance)
                } else {
                    Ok(out)
                },
            }
        }
    }

    /// The outcome of `caller` buying exactly `amount_out` from the pool.
    pub open spec fn swap_out_check(
        &self,
        caller: u64,
        id: Seq<u8>,
        token_in: u64,
        max_amount_in: u64,
        token_out: u64,
        amount_out: u64,
        max_price: u64,
    ) -> Result<u64, Error> {
        let pool = self.pools()[self.position(id)];
        if !self.has_pool(id) {
            Err(Error::PoolNotFound)
        } else {
            match swap_out_quote(pool, token_in, max_amount_in, token_out, amount_out, max_price) {
                Err(e) => Err(e),
                Ok(paid) => if self.ledger().balance(token_in, AccountId::User(caller)) < paid {
                    Err(Error::InsufficientBalance)
                } else {
                    Ok(paid)
                },
            }
        }
    }

    /// `self` is `before` after `caller` paid `amount_in` of `token_in` into
    /// the pool at `p` and was paid `amount_out` of `token_out` from it.
    pub open spec fn swapped(
        &self,
        before: &PoolRegistry,
        p: int,
        caller: u64,
        token_in: u64,
        amount_in: u64,
        token_out: u64,
        amount_out: u64,
    ) -> bool {
        let was = before.pools()[p];
        let now = self.pools()[p];
        let i = slot(was.tokens@, token_in);
        let j = slot(was.tokens@, token_out);
        let who = AccountId::User(caller);
        let custody = AccountId::Custody(p as u64);
        &&& self.only_pool_changed(before, p)
        &&& now.lp_supply == was.lp_supply
        &&& now.shares == was.shares
        &&& now.balance@ == was.balance@.update(i, (was.balance@[i] + amount_in) as u64).update(
            j,
            (was.balance@[j] - amount_out) as u64,
        )
        &&& self.ledger().asset_count() == before.ledger().asset_count()
        &&& forall|a: u64| self.ledger().total_supply(a) == before.ledger().total_supply(a)
        &&& forall|a: u64, who2: AccountId|
            self.ledger().balance(a, who2) == before.ledger().balance(a, who2) + flow(
                a,
                who2,
                token_in,
                who,
                custody,
                amount_in,
            ) + flow(a, who2, token_out, custody, who, amount_out)
    }

    /// What stays as it was when the pool at `p` changes its reserves and shares.
    pub open spec fn only_pool_changed(&self, before: &PoolRegistry, p: int) -> bool {
        &&& self.pools().len() == before.pools().len()
        &&& forall|q: int|
            0 <= q < self.pools().len() && q != p ==> self.pools()[q] == before.pools()[q]
        &&& self.pools()[p].id == before.pools()[p].id
        &&& self.pools()[p].tokens == before.pools()[p].tokens
        &&& self.pools()[p].denorm == before.pools()[p].denorm
        &&& self.pools()[p].fee == before.pools()[p].fee
        &&& self.pools()[p].balance@.len() == before.pools()[p].balance@.len()
    }

    /// In a registry in order, the pool with an identifier is found at one position only.
    pub proof fn lemma_position(&self, id: Seq<u8>, p: int)
        requires
            self.wf(),
            0 <= p < self.pools().len(),
            self.pools()[p].id@ == id,
        ensures
            self.has_pool(id),
            self.position(id) == p,
    {
        let q = self.position(id);
        assert(self.pools()[q].id@ == id);
        if q < p {
            assert(self.pools()[q].id@ != self.pools()[p].id@);
        } else if p < q {
            assert(self.pools()[p].id@ != self.pools()[q].id@);
        }
    }

    /// A registry with an empty ledger and no pools.
    pub fn new() -> (r: PoolRegistry)
        ensures
            r.wf(),
            r.pools().len() == 0,
            r.ledger().asset_count() == 0,
    {
        let ledger = AssetLedger::new();
        proof {
            assert forall|a: u64, p: u64| ledger.balance(a, AccountId::Custody(p)) == 0 by {
                ledger.lemma_unissued(a, AccountId::Custody(p));
            }
        }
        PoolRegistry { ledger, pools: Vec::new() }
    }

    /// The ledger, to read balances and supplies from.
    pub fn ledger_ref(&self) -> (r: &AssetLedger)
        ensures
            *r == self.ledger(),
    {
        &self.ledger
    }

    /// Number of pools.
    pub fn pool_count(&self) -> (r: usize)
        ensures
            r == self.pools().len(),
    {
        self.pools.len()
    }

    /// The pool at a position.
    pub fn pool_at(&self, p: usize) -> (r: &PoolInfo)
        requires
            p < self.pools().len(),
        ensures
            *r == self.pools()[p as int],
    {
        &self.pools[p]
    }

    /// Finds the position of the pool with the identifier.
    pub fn find_pool(&self, id: &PoolId) -> (r: Option<usize>)
        ensures
            match r {
                Some(p) => p < self.pools().len() && self.pools()[p as int].id@ == id@,
                None => !self.has_pool(id@),
            },
    {
        let mut p: usize = 0;
        while p < self.pools.len()
            invariant
                p <= self.pools@.len(),
                forall|k: int| 0 <= k < p ==> (#[trigger] self.pools@[k]).id@ != id@,
            decreases self.pools@.len() - p,
        {
            if same_pool_id(&self.pools[p].id, id) {
                return Some(p);
            }
            p += 1;
        }
        None
    }

    /// Issues a new asset to a user.
    pub fn issue(&mut self, owner: u64, total: u64) -> (r: Result<u64, Error>)
        requires
            old(self).wf(),
        ensures
            final(self).wf(),
            final(self).pools() == old(self).pools(),
            match r {
                Ok(id) => {
                    &&& total > 0
                    &&& id == old(self).ledger().asset_count()
                    &&& final(self).ledger().asset_count() == id + 1
                    &&& final(self).ledger().total_supply(id) == total
                    &&& final(self).ledger().balance(id, AccountId::User(owner)) == total
                    &&& forall|other: AccountId|
                        other != AccountId::User(owner) ==> final(self).ledger().balance(id, other)
                            == 0
                    &&& final(self).ledger().same_except(&old(self).ledger(), id)
                },
                Err(e) => {
                    &&& *final(self) == *old(self)
                    &&& e == if total == 0 { Error::InvalidAmount } else { Error::ArithmeticOverflow }
                    &&& total == 0 || old(self).ledger().asset_count() + 1 > u64::MAX
                },
            },
    {
        let r = self.ledger.issue(AccountId::User(owner), total);
        proof {
            if let Ok(id) = r {
                assert forall|p: int| 0 <= p < self.pools().len() implies (
                #[trigger] self.pools()[p]).wf() && backed(self.ledger(), self.pools()[p], p) by {
                    let pool = self.pools()[p];
                    assert(old(self).pools()[p].wf() && backed(old(self).ledger(), pool, p));
                    assert forall|i: int| 0 <= i < pool.tokens@.len() implies self.ledger().balance(
                        #[trigger] pool.tokens@[i],
                        AccountId::Custody(p as u64),
                    ) == pool.balance@[i] by {
                        if pool.tokens@[i] == id {
                            old(self).ledger().lemma_unissued(id, AccountId::Custody(p as u64));
                        }
                    }
                }
            }
        }
        r
    }

    /// Moves an amount of an asset from one user to another.
    pub fn transfer(&mut self, from: u64, id: u64, to: u64, amount: u64) -> (r: Result<(), Error>)
        requires
            old(self).wf(),
        ensures
            final(self).wf(),
            final(self).pools() == old(self).pools(),
            match r {
                Ok(_) => {
                    &&& amount > 0
                    &&& old(self).ledger().balance(id, AccountId::User(from)) >= amount
                    &&& final(self).ledger().moved(
                        &old(self).ledger(),
                        id,
                        AccountId::User(from),
                        AccountId::User(to),
                        amount,
                    )
                },
                Err(e) => {
                    &&& *final(self) == *old(self)
                    &&& amount == 0 || old(self).ledger().balance(id, AccountId::User(from)) < amount
                    &&& e == if amount == 0 { Error::InvalidAmount } else { Error::InsufficientBalance }
                },
            },
    {
        let r = self.ledger.transfer(AccountId::User(from), id, AccountId::User(to), amount);
        proof {
            if r is Ok {
                assert forall|p: int| 0 <= p < self.pools().len() implies (
                #[trigger] self.pools()[p]).wf() && backed(self.ledger(), self.pools()[p], p) by {
                    let pool = self.pools()[p];
                    assert(old(self).pools()[p].wf() && backed(old(self).ledger(), pool, p));
                }
            }
        }
        r
    }

    /// Removes all that a user holds of an asset from circulation.
    pub fn destroy(&mut self, owner: u64, id: u64) -> (r: Result<u64, Error>)
        requires
            old(self).wf(),
        ensures
            final(self).wf(),
            final(self).pools() == old(self).pools(),
            match r {
                Ok(burnt) => {
                    &&& burnt > 0
                    &&& burnt == old(self).ledger().balance(id, AccountId::User(owner))
                    &&& final(self).ledger().balance(id, AccountId::User(owner)) == 0
                    &&& final(self).ledger().total_supply(id) == old(self).ledger().total_supply(id)
                        - burnt
                    &&& forall|other: AccountId|
                        other != AccountId::User(owner) ==> final(self).ledger().balance(id, other)
                            == old(self).ledger().balance(id, other)
                    &&& final(self).ledger().same_except(&old(self).ledger(), id)
                },
                Err(e) => {
                    &&& *final(self) == *old(self)
                    &&& e == Error::ZeroBalance
                    &&& old(self).ledger().balance(id, AccountId::User(owner)) == 0
                },
            },
    {
        let r = self.ledger.destroy(AccountId::User(owner), id);
        proof {
            if r is Ok {
                assert forall|p: int| 0 <= p < self.pools().len() implies (
                #[trigger] self.pools()[p]).wf() && backed(self.ledger(), self.pools()[p], p) by {
                    let pool = self.pools()[p];
                    assert(old(self).pools()[p].wf() && backed(old(self).ledger(), pool, p));
                }
            }
        }
        r
    }

    /// Creates the pool over `tokens` without a fee, funded by `caller` with
    /// `balances`, and hands the caller the initial shares.
    pub fn create_pool(
        &mut self,
        caller: u64,
        tokens: Vec<u64>,
        balances: Vec<u64>,
        weights: Vec<u64>,
    ) -> (r: Result<PoolId, Error>)
        requires
            old(self).wf(),
        ensures
            final(self).wf(),
            match r {
                Ok(id) => final(self).created(old(self), id, caller, tokens@, balances@, weights@, 0),
                Err(e) => {
                    &&& *final(self) == *old(self)
                    &&& old(self).create_check(caller, tokens@, balances@, weights@, 0) == Some(e)
                },
            },
    {
        self.create_pool_with_fee(caller, tokens, balances, weights, 0)
    }

    /// `self` is `before` with one more pool, over `tokens`, that `caller`
    /// funded with `balances` and whose initial shares `caller` holds.
    pub open spec fn created(
        &self,
        before: &PoolRegistry,
        id: PoolId,
        caller: u64,
        tokens: Seq<u64>,
        balances: Seq<u64>,
        weights: Seq<u64>,
        fee: u64,
    ) -> bool {
        let n = before.pools().len() as int;
        let made = self.pools()[n];
        &&& before.create_check(caller, tokens, balances, weights, fee) is None
        &&& id@ == pool_id_of(tokens)
        &&& self.pools().len() == n + 1
        &&& self.pools().take(n) == before.pools()
        &&& made.id == id
        &&& made.tokens@ == tokens
        &&& made.balance@ == balances
        &&& made.denorm@ == weights
        &&& made.fee == fee
        &&& made.lp_supply == INITIAL_SHARE_SUPPLY
        &&& made.shares.balance(AccountId::User(caller)) == INITIAL_SHARE_SUPPLY
        &&& forall|other: AccountId|
            other != AccountId::User(caller) ==> made.shares.balance(other) == 0
        &&& moved_all(
            before.ledger(),
            self.ledger(),
            tokens,
            balances,
            AccountId::User(caller),
            AccountId::Custody(n as u64),
        )
    }

    /// Creates the pool over `tokens` with a fee, funded by `caller` with
    /// `balances`, and hands the caller the initial shares.
    pub fn create_pool_with_fee(
        &mut self,
        caller: u64,
        tokens: Vec<u64>,
        balances: Vec<u64>,
        weights: Vec<u64>,
        fee: u64,
    ) -> (r: Result<PoolId, Error>)
        requires
            old(self).wf(),
        ensures
            final(self).wf(),
            match r {
                Ok(id) => final(self).created(old(self), id, caller, tokens@, balances@, weights@, fee),
                Err(e) => {
                    &&& *final(self) == *old(self)
                    &&& old(self).create_check(caller, tokens@, balances@, weights@, fee) == Some(e)
                },
            },
    {
        if tokens.len() > MAX_BOUND_TOKENS {
            return Err(Error::MaxTokens);
        }
        if balances.len() != tokens.len() || weights.len() != tokens.len() || tokens.len() < 2 {
            return Err(Error::InvalidTokenLength);
        }
        if !check_distinct(&tokens) {
            return Err(Error::DuplicateToken);
        }
        if !check_positive(&balances) || !check_positive(&weights) || fee >= ONE {
            return Err(Error::InvalidAmount);
        }
        match sum_weights(&weights) {
            None => { return Err(Error::ArithmeticOverflow); },
            Some(_) => {},
        }
        let id: PoolId = derive_pool_id(&tokens);
        match self.find_pool(&id) {
            Some(_) => { return Err(Error::PoolExists); },
            None => {},
        }
        let who = AccountId::User(caller);
        if !check_covers(&self.ledger, &tokens, &balances, who) {
            return Err(Error::InsufficientBalance);
        }
        let n: usize = self.pools.len();
        if n as u64 >= u64::MAX {
            return Err(Error::ArithmeticOverflow);
        }
        let custody = AccountId::Custody(n as u64);
        transfer_all(&mut self.ledger, &tokens, &balances, who, custody);
        let mut shares = Book::new();
        shares.credit(who, INITIAL_SHARE_SUPPLY);
        let ghost toks = tokens@;
        let ghost bals = balances@;
        self.pools.push(
            PoolInfo { id, tokens, balance: balances, denorm: weights, fee, lp_supply: INITIAL_SHARE_SUPPLY, shares },
        );
        proof {
            assert(self.pools().take(n as int) =~= old(self).pools());
            assert forall|p: int| 0 <= p < self.pools().len() implies (
            #[trigger] self.pools()[p]).wf() && backed(self.ledger(), self.pools()[p], p) by {
                let pool = self.pools()[p];
                if p < n {
                    assert(pool == old(self).pools()[p]);
                    assert(old(self).pools()[p].wf() && backed(old(self).ledger(), pool, p));
                    assert(AccountId::Custody(p as u64) != custody);
                } else {
                    assert forall|i: int| 0 <= i < toks.len() implies self.ledger().balance(
                        #[trigger] toks[i],
                        custody,
                    ) == bals[i] by {
                        lemma_amount_for(toks, bals, i);
                    }
                }
            }
            assert forall|p: int, q: int| 0 <= p < q < self.pools().len() implies (
            #[trigger] self.pools()[p]).id@ != (#[trigger] self.pools()[q]).id@ by {
                if q == n {
                    assert(self.pools()[p] == old(self).pools()[p]);
                } else {
                    assert(self.pools()[p] == old(self).pools()[p]);
                    assert(self.pools()[q] == old(self).pools()[q]);
                }
            }
        }
        Ok(id)
    }
    /// Mints `shares` of a pool for `caller`, who pays in each token in
    /// proportion to the reserves, rounded up.
    pub fn join_pool(&mut self, caller: u64, id: &PoolId, shares: u64, limits: Vec<u64>) -> (r: Result<
        Vec<u64>,
        Error,
    >)
        requires
            old(self).wf(),
        ensures
            final(self).wf(),
            match r {
                Ok(amounts) => {
                    let p = old(self).position(id@);
                    let before = old(self).pools()[p];
                    let after = final(self).pools()[p];
                    let who = AccountId::User(caller);
                    &&& old(self).join_check(caller, id@, shares, limits@) is None
                    &&& amounts@ == join_amounts(before.balance@, shares, before.lp_supply)
                    &&& final(self).only_pool_changed(old(self), p)
                    &&& forall|i: int|
                        0 <= i < before.balance@.len() ==> after.balance@[i] == before.balance@[i]
                            + amounts@[i]
                    &&& after.lp_supply == before.lp_supply + shares
                    &&& after.shares.balance(who) == before.shares.balance(who) + shares
                    &&& forall|other: AccountId|
                        other != who ==> after.shares.balance(other) == before.shares.balance(other)
                    &&& moved_all(
                        old(self).ledger(),
                        final(self).ledger(),
                        before.tokens@,
                        amounts@,
                        who,
                        AccountId::Custody(p as u64),
                    )
                },
                Err(e) => {
                    &&& *final(self) == *old(self)
                    &&& old(self).join_check(caller, id@, shares, limits@) == Some(e)
                },
            },
    {
        let p: usize = match self.find_pool(id) {
            None => { return Err(Error::PoolNotFound); },
            Some(p) => p,
        };
        proof {
            self.lemma_position(id@, p as int);
            assert(self.pools()[p as int].wf());
        }
        if shares == 0 {
            return Err(Error::InvalidAmount);
        }
        if limits.len() != self.pools[p].tokens.len() {
            return Err(Error::InvalidTokenLength);
        }
        let supply: u64 = self.pools[p].lp_supply;
        if shares > u64::MAX - supply {
            return Err(Error::ArithmeticOverflow);
        }
        let amounts: Vec<u64> = match quote_join(&self.pools[p].balance, &limits, shares, supply) {
            Err(e) => { return Err(e); },
            Ok(a) => a,
        };
        let who = AccountId::User(caller);
        if !check_covers(&self.ledger, &self.pools[p].tokens, &amounts, who) {
            return Err(Error::InsufficientBalance);
        }
        let custody = AccountId::Custody(p as u64);
        transfer_all(&mut self.ledger, &self.pools[p].tokens, &amounts, who, custody);
        let grown: Vec<u64> = add_each(&self.pools[p].balance, &amounts);
        self.pools[p].balance = grown;
        self.pools[p].lp_supply = supply + shares;
        self.pools[p].shares.credit(who, shares);
        proof {
            let toks = self.pools()[p as int].tokens@;
            assert forall|q: int| 0 <= q < self.pools().len() implies (
            #[trigger] self.pools()[q]).wf() && backed(self.ledger(), self.pools()[q], q) by {
                assert(old(self).pools()[q].wf() && backed(
                    old(self).ledger(),
                    old(self).pools()[q],
                    q,
                ));
                if q != p {
                    assert(self.pools()[q] == old(self).pools()[q]);
                    assert(AccountId::Custody(q as u64) != custody);
                } else {
                    assert forall|i: int| 0 <= i < toks.len() implies self.ledger().balance(
                        #[trigger] toks[i],
                        custody,
                    ) == self.pools()[q].balance@[i] by {
                        lemma_amount_for(toks, amounts@, i);
                    }
                }
            }
            assert forall|a: int, b: int| 0 <= a < b < self.pools().len() implies (
            #[trigger] self.pools()[a]).id@ != (#[trigger] self.pools()[b]).id@ by {
                assert(self.pools()[a].id == old(self).pools()[a].id);
                assert(self.pools()[b].id == old(self).pools()[b].id);
            }
        }
        Ok(amounts)
    }

    /// Redeems `shares` of a pool for `caller`, who is paid out of each
    /// reserve in proportion, rounded down.
    pub fn exit_pool(&mut self, caller: u64, id: &PoolId, shares: u64, limits: Vec<u64>) -> (r: Result<
        Vec<u64>,
        Error,
    >)
        requires
            old(self).wf(),
        ensures
            final(self).wf(),
            match r {
                Ok(amounts) => {
                    let p = old(self).position(id@);
                    let before = old(self).pools()[p];
                    let after = final(self).pools()[p];
                    let who = AccountId::User(caller);
                    &&& old(self).exit_check(caller, id@, shares, limits@) is None
                    &&& amounts@ == exit_amounts(before.balance@, shares, before.lp_supply)
                    &&& final(self).only_pool_changed(old(self), p)
                    &&& forall|i: int|
                        0 <= i < before.balance@.len() ==> after.balance@[i] == before.balance@[i]
                            - amounts@[i]
                    &&& after.lp_supply == before.lp_supply - shares
                    &&& after.shares.balance(who) == before.shares.balance(who) - shares
                    &&& forall|other: AccountId|
                        other != who ==> after.shares.balance(other) == before.shares.balance(other)
                    &&& moved_all(
                        old(self).ledger(),
                        final(self).ledger(),
                        before.tokens@,
                        amounts@,
                        AccountId::Custody(p as u64),
                        who,
                    )
                },
                Err(e) => {
                    &&& *final(self) == *old(self)
                    &&& old(self).exit_check(caller, id@, shares, limits@) == Some(e)
                },
            },
    {
        let p: usize = match self.find_pool(id) {
            None => { return Err(Error::PoolNotFound); },
            Some(p) => p,
        };
        proof {
            self.lemma_position(id@, p as int);
            assert(self.pools()[p as int].wf() && backed(self.ledger(), self.pools()[p as int], p as int));
        }
        if shares == 0 {
            return Err(Error::InvalidAmount);
        }
        let supply: u64 = self.pools[p].lp_supply;
        if shares >= supply {
            return Err(Error::InsufficientLiquidity);
        }
        if limits.len() != self.pools[p].tokens.len() {
            return Err(Error::InvalidTokenLength);
        }
        let who = AccountId::User(caller);
        if self.pools[p].shares.balance_of(who) < shares {
            return Err(Error::InsufficientShares);
        }
        let amounts: Vec<u64> = match quote_exit(&self.pools[p].balance, &limits, shares, supply) {
            Err(e) => { return Err(e); },
            Ok(a) => a,
        };
        let custody = AccountId::Custody(p as u64);
        proof {
            let pool = self.pools()[p as int];
            assert forall|i: int| 0 <= i < pool.balance@.len() implies pool.balance@[i]
                > amounts@[i] by {
                lemma_exit_leaves_reserve(pool.balance@[i], shares, supply);
            }
        }
        transfer_all(&mut self.ledger, &self.pools[p].tokens, &amounts, custody, who);
        let shrunk: Vec<u64> = sub_each(&self.pools[p].balance, &amounts);
        self.pools[p].balance = shrunk;
        self.pools[p].lp_supply = supply - shares;
        self.pools[p].shares.debit(who, shares);
        proof {
            let toks = self.pools()[p as int].tokens@;
            assert forall|q: int| 0 <= q < self.pools().len() implies (
            #[trigger] self.pools()[q]).wf() && backed(self.ledger(), self.pools()[q], q) by {
                assert(old(self).pools()[q].wf() && backed(
                    old(self).ledger(),
                    old(self).pools()[q],
                    q,
                ));
                if q != p {
                    assert(self.pools()[q] == old(self).pools()[q]);
                    assert(AccountId::Custody(q as u64) != custody);
                } else {
                    assert forall|i: int| 0 <= i < toks.len() implies self.ledger().balance(
                        #[trigger] toks[i],
                        custody,
                    ) == self.pools()[q].balance@[i] by {
                        lemma_amount_for(toks, amounts@, i);
                    }
                }
            }
            assert forall|a: int, b: int| 0 <= a < b < self.pools().len() implies (
            #[trigger] self.pools()[a]).id@ != (#[trigger] self.pools()[b]).id@ by {
                assert(self.pools()[a].id == old(self).pools()[a].id);
                assert(self.pools()[b].id == old(self).pools()[b].id);
            }
        }
        Ok(amounts)
    }
    /// Carries out a quoted swap: moves both amounts through the ledger and
    /// adjusts the two reserves.
    fn settle_swap(&mut self, p: usize, caller: u64, i: usize, amount_in: u64, j: usize, amount_out: u64)
        requires
            old(self).wf(),
            p < old(self).pools().len(),
            i < old(self).pools()[p as int].tokens@.len(),
            j < old(self).pools()[p as int].tokens@.len(),
            i != j,
            amount_in > 0,
            old(self).pools()[p as int].balance@[i as int] + amount_in <= u64::MAX,
            amount_out < old(self).pools()[p as int].balance@[j as int],
            old(self).ledger().balance(
                old(self).pools()[p as int].tokens@[i as int],
                AccountId::User(caller),
            ) >= amount_in,
        ensures
            final(self).wf(),
            final(self).swapped(
                old(self),
                p as int,
                caller,
                old(self).pools()[p as int].tokens@[i as int],
                amount_in,
                old(self).pools()[p as int].tokens@[j as int],
                amount_out,
            ),
    {
        let who = AccountId::User(caller);
        let custody = AccountId::Custody(p as u64);
        let token_in: u64 = self.pools[p].tokens[i];
        let token_out: u64 = self.pools[p].tokens[j];
        proof {
            let pool = self.pools()[p as int];
            assert(pool.wf() && backed(self.ledger(), pool, p as int));
            lemma_slot(pool.tokens@, token_in, i as int);
            lemma_slot(pool.tokens@, token_out, j as int);
            assert(self.ledger().balance(pool.tokens@[j as int], custody) == pool.balance@[j as int]);
            assert(self.ledger().balance(pool.tokens@[i as int], custody) == pool.balance@[i as int]);
        }
        let paid_in = self.ledger.transfer(who, token_in, custody, amount_in);
        assert(paid_in is Ok);
        if amount_out > 0 {
            let paid_out = self.ledger.transfer(custody, token_out, who, amount_out);
            assert(paid_out is Ok);
        }
        let b_in: u64 = self.pools[p].balance[i];
        let b_out: u64 = self.pools[p].balance[j];
        self.pools[p].balance.set(i, b_in + amount_in);
        self.pools[p].balance.set(j, b_out - amount_out);
        proof {
            let toks = self.pools()[p as int].tokens@;
            assert forall|q: int| 0 <= q < self.pools().len() implies (
            #[trigger] self.pools()[q]).wf() && backed(self.ledger(), self.pools()[q], q) by {
                assert(old(self).pools()[q].wf() && backed(
                    old(self).ledger(),
                    old(self).pools()[q],
                    q,
                ));
                if q != p {
                    assert(self.pools()[q] == old(self).pools()[q]);
                    assert(AccountId::Custody(q as u64) != custody);
                } else {
                    assert forall|k: int| 0 <= k < toks.len() implies self.ledger().balance(
                        #[trigger] toks[k],
                        custody,
                    ) == self.pools()[q].balance@[k] by {
                        if k != i {
                            assert(toks[k] != toks[i as int]);
                        }
                        if k != j {
                            assert(toks[k] != toks[j as int]);
                        }
                    }
                }
            }
            assert forall|a: int, b: int| 0 <= a < b < self.pools().len() implies (
            #[trigger] self.pools()[a]).id@ != (#[trigger] self.pools()[b]).id@ by {
                assert(self.pools()[a].id == old(self).pools()[a].id);
                assert(self.pools()[b].id == old(self).pools()[b].id);
            }
        }
    }

    /// Sells exactly `amount_in` of `token_in` to a pool for `token_out`.
    /// Returns the amount paid out.
    pub fn swap_exact_amount_in(
        &mut self,
        caller: u64,
        id: &PoolId,
        token_in: u64,
        amount_in: u64,
        token_out: u64,
        min_amount_out: u64,
        max_price: u64,
    ) -> (r: Result<u64, Error>)
        requires
            old(self).wf(),
        ensures
            final(self).wf(),
            r == old(self).swap_in_check(
                caller,
                id@,
                token_in,
                amount_in,
                token_out,
                min_amount_out,
                max_price,
            ),
            match r {
                Ok(out) => final(self).swapped(
                    old(self),
                    old(self).position(id@),
                    caller,
                    token_in,
                    amount_in,
                    token_out,
                    out,
                ),
                Err(_) => *final(self) == *old(self),
            },
    {
        let p: usize = match self.find_pool(id) {
            None => { return Err(Error::PoolNotFound); },
            Some(p) => p,
        };
        proof {
            self.lemma_position(id@, p as int);
            assert(self.pools()[p as int].wf());
        }
        let (i, j, out) = match quote_swap_in(
            &self.pools[p],
            token_in,
            amount_in,
            token_out,
            min_amount_out,
            max_price,
        ) {
            Err(e) => { return Err(e); },
            Ok(t) => t,
        };
        if self.ledger.balance_of(token_in, AccountId::User(caller)) < amount_in {
            return Err(Error::InsufficientBalance);
        }
        self.settle_swap(p, caller, i, amount_in, j, out);
        Ok(out)
    }

    /// Buys exactly `amount_out` of `token_out` from a pool for `token_in`.
    /// Returns the amount charged.
    pub fn swap_exact_amount_out(
        &mut self,
        caller: u64,
        id: &PoolId,
        token_in: u64,
        max_amount_in: u64,
        token_out: u64,
        amount_out: u64,
        max_price: u64,
    ) -> (r: Result<u64, Error>)
        requires
            old(self).wf(),
        ensures
            final(self).wf(),
            r == old(self).swap_out_check(
                caller,
                id@,
                token_in,
                max_amount_in,
                token_out,
                amount_out,
                max_price,
            ),
            match r {
                Ok(paid) => final(self).swapped(
                    old(self),
                    old(self).position(id@),
                    caller,
                    token_in,
                    paid,
                    token_out,
                    amount_out,
                ),
                Err(_) => *final(self) == *old(self),
            },
    {
        let p: usize = match self.find_pool(id) {
            None => { return Err(Error::PoolNotFound); },
            Some(p) => p,
        };
        proof {
            self.lemma_position(id@, p as int);
            assert(self.pools()[p as int].wf());
        }
        let (i, j, paid) = match quote_swap_out(
            &self.pools[p],
            token_in,
            max_amount_in,
            token_out,
            amount_out,
            max_price,
        ) {
            Err(e) => { return Err(e); },
            Ok(t) => t,
        };
        if self.ledger.balance_of(token_in, AccountId::User(caller)) < paid {
            return Err(Error::InsufficientBalance);
        }
        self.settle_swap(p, caller, i, paid, j, amount_out);
        Ok(paid)
    }

    /// Asking a pool for as much as its reserve of a bound token, or more, is
    /// refused for want of liquidity, whatever else is wrong with the request.
    pub proof fn lemma_swap_out_boundary(
        &self,
        caller: u64,
        id: Seq<u8>,
        token_in: u64,
        max_amount_in: u64,
        token_out: u64,
        amount_out: u64,
        max_price: u64,
    )
        requires
            self.has_pool(id),
            is_bound(self.pools()[self.position(id)].tokens@, token_out),
            amount_out >= self.pools()[self.position(id)].balance@[slot(
                self.pools()[self.position(id)].tokens@,
                token_out,
            )],
        ensures
            self.swap_out_check(caller, id, token_in, max_amount_in, token_out, amount_out, max_price)
                == Err::<u64, Error>(Error::InsufficientLiquidity),
    {
    }

    /// Redeeming shares for as much as a whole reserve, or more, is refused
    /// for want of liquidity, whatever else is wrong with the request.
    pub proof fn lemma_exit_boundary(
        &self,
        caller: u64,
        id: Seq<u8>,
        shares: u64,
        limits: Seq<u64>,
        i: int,
    )
        requires
            self.wf(),
            self.has_pool(id),
            0 <= i < self.pools()[self.position(id)].balance@.len(),
            exit_amount(
                self.pools()[self.position(id)].balance@[i],
                shares,
                self.pools()[self.position(id)].lp_supply,
            ) >= self.pools()[self.position(id)].balance@[i],
        ensures
            self.exit_check(caller, id, shares, limits) == Some(Error::InsufficientLiquidity),
    {
        let pool = self.pools()[self.position(id)];
        assert(pool.wf());
        crate::pool::lemma_exit_boundary(pool.balance@[i], shares, pool.lp_supply);
    }
}

} // verus!
