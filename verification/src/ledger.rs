//! The asset ledger: fungible assets, each with a fixed total supply that its
//! holders share.
//!
//! Asset identifiers are handed out in order, starting at zero, and are never
//! reused. For every asset the holdings add up to its total supply.

use vstd::prelude::*;
use crate::book::{AccountId, Book};
use crate::error::Error;

verus! {

/// One asset: its recorded supply and who holds it.
pub struct Asset {
    supply: u64,
    book: Book,
}

/// All assets, by identifier.
pub struct AssetLedger {
    assets: Vec<Asset>,
}

impl AssetLedger {
    /// Number of assets issued so far, which is also the next identifier.
    pub closed spec fn asset_count(&self) -> nat {
        self.assets@.len()
    }

    /// The recorded total supply of an asset; zero for one never issued.
    pub closed spec fn total_supply(&self, id: u64) -> nat {
        if id < self.assets@.len() { self.assets@[id as int].supply as nat } else { 0 }
    }

    /// What `who` holds of an asset; zero for an asset never issued.
    pub closed spec fn balance(&self, id: u64, who: AccountId) -> nat {
        if id < self.assets@.len() { self.assets@[id as int].book.balance(who) } else { 0 }
    }

    /// The sum of all holdings of an asset.
    pub closed spec fn circulating(&self, id: u64) -> nat {
        if id < self.assets@.len() { self.assets@[id as int].book.total() } else { 0 }
    }

    /// Each asset's book is in order.
    pub closed spec fn books_ok(&self) -> bool {
        &&& self.assets@.len() <= u64::MAX
        &&& forall|i: int| 0 <= i < self.assets@.len() ==> (#[trigger] self.assets@[i]).book.wf()
    }

    /// Conservation: for every asset the holdings add up to the total supply.
    pub open spec fn wf(&self) -> bool {
        &&& self.books_ok()
        &&& forall|id: u64| self.circulating(id) == self.total_supply(id)
    }

    /// Everything but asset `id` is as in `before`.
    pub open spec fn same_except(&self, before: &AssetLedger, id: u64) -> bool {
        &&& self.asset_count() >= before.asset_count()
        &&& forall|a: u64| a != id ==> self.total_supply(a) == before.total_supply(a)
        &&& forall|a: u64, who: AccountId| a != id ==> self.balance(a, who) == before.balance(a, who)
    }

    /// `self` is `before` after `amount` of asset `id` went from `from` to `to`.
    pub open spec fn moved(
        &self,
        before: &AssetLedger,
        id: u64,
        from: AccountId,
        to: AccountId,
        amount: u64,
    ) -> bool {
        &&& self.same_except(before, id)
        &&& self.asset_count() == before.asset_count()
        &&& self.total_supply(id) == before.total_supply(id)
        &&& forall|who: AccountId|
            self.balance(id, who) == before.balance(id, who) - (if who == from {
                amount as int
            } else {
                0
            }) + (if who == to { amount as int } else { 0 })
    }

    /// The accounts on record for an asset, each once.
    pub closed spec fn holders(&self, id: u64) -> Seq<AccountId> {
        if id < self.assets@.len() { self.assets@[id as int].book.holders() } else { Seq::empty() }
    }

    /// What the listed accounts hold of an asset together.
    pub open spec fn held_by(&self, id: u64, accounts: Seq<AccountId>) -> nat
        decreases accounts.len(),
    {
        if accounts.len() == 0 {
            0
        } else {
            self.held_by(id, accounts.drop_last()) + self.balance(id, accounts.last())
        }
    }

    proof fn lemma_held_by(&self, id: u64, accounts: Seq<AccountId>)
        requires
            id < self.assets@.len(),
        ensures
            self.held_by(id, accounts) == self.assets@[id as int].book.sum_over(accounts),
        decreases accounts.len(),
    {
        if accounts.len() > 0 {
            self.lemma_held_by(id, accounts.drop_last());
        }
    }

    /// Conservation, account by account: the balances of the accounts on
    /// record for an asset add up to its total supply, no account is counted
    /// twice, and every other account holds nothing of it.
    pub proof fn lemma_conservation(&self, id: u64)
        requires
            self.wf(),
        ensures
            self.held_by(id, self.holders(id)) == self.total_supply(id),
            self.holders(id).no_duplicates(),
            forall|who: AccountId| !self.holders(id).contains(who) ==> self.balance(id, who) == 0,
    {
        assert(self.circulating(id) == self.total_supply(id));
        if id < self.assets@.len() {
            self.assets@[id as int].book.lemma_total_is_sum_of_balances();
            self.lemma_held_by(id, self.holders(id));
        }
    }

    /// No account holds more of an asset than its total supply.
    pub proof fn lemma_balance_bounded(&self, id: u64, who: AccountId)
        requires
            self.wf(),
        ensures
            self.balance(id, who) <= self.total_supply(id) <= u64::MAX,
    {
        assert(self.circulating(id) == self.total_supply(id));
        if id < self.assets@.len() {
            self.assets@[id as int].book.lemma_bounded(who);
        }
    }

    /// Of an asset that was never issued nobody holds anything.
    pub proof fn lemma_unissued(&self, id: u64, who: AccountId)
        requires
            id >= self.asset_count(),
        ensures
            self.balance(id, who) == 0,
            self.total_supply(id) == 0,
    {
    }

    /// A ledger without assets.
    pub fn new() -> (r: AssetLedger)
        ensures
            r.wf(),
            r.asset_count() == 0,
    {
        AssetLedger { assets: Vec::new() }
    }

    /// The identifier that the next issued asset will get.
    pub fn next_asset_id(&self) -> (r: u64)
        requires
            self.wf(),
        ensures
            r == self.asset_count(),
    {
        self.assets.len() as u64
    }

    /// Reads the total supply of an asset.
    pub fn total_supply_of(&self, id: u64) -> (r: u64)
        ensures
            r == self.total_supply(id),
    {
        if id < self.assets.len() as u64 { self.assets[id as usize].supply } else { 0 }
    }

    /// Reads what `who` holds of an asset.
    pub fn balance_of(&self, id: u64, who: AccountId) -> (r: u64)
        requires
            self.wf(),
        ensures
            r == self.balance(id, who),
    {
        if id < self.assets.len() as u64 { self.assets[id as usize].book.balance_of(who) } else { 0 }
    }

    /// Issues a new asset of `total` units, all held by `owner`.
    pub fn issue(&mut self, owner: AccountId, total: u64) -> (r: Result<u64, Error>)
        requires
            old(self).wf(),
        ensures
            final(self).wf(),
            match r {
                Ok(id) => {
                    &&& total > 0
                    &&& id == old(self).asset_count()
                    &&& final(self).asset_count() == id + 1
                    &&& final(self).total_supply(id) == total
                    &&& final(self).balance(id, owner) == total
                    &&& forall|other: AccountId| other != owner ==> final(self).balance(id, other) == 0
                    &&& final(self).same_except(old(self), id)
                },
                Err(e) => {
                    &&& *final(self) == *old(self)
                    &&& e == if total == 0 { Error::InvalidAmount } else { Error::ArithmeticOverflow }
                    &&& total == 0 || old(self).asset_count() + 1 > u64::MAX
                },
            },
    {
        if total == 0 {
            return Err(Error::InvalidAmount);
        }
        let n: usize = self.assets.len();
        if n as u64 >= u64::MAX {
            return Err(Error::ArithmeticOverflow);
        }
        let mut book = Book::new();
        book.credit(owner, total);
        self.assets.push(Asset { supply: total, book });
        proof {
            assert forall|i: int| 0 <= i < self.assets@.len() implies (#[trigger] self.assets@[i]).book.wf() by {
                if i < n {
                    assert(self.assets@[i] == old(self).assets@[i]);
                }
            }
            assert forall|id: u64| self.circulating(id) == self.total_supply(id) by {
                assert(old(self).circulating(id) == old(self).total_supply(id));
            }
        }
        Ok(n as u64)
    }

    /// Moves `amount` of asset `id` from `from` to `to`.
    pub fn transfer(&mut self, from: AccountId, id: u64, to: AccountId, amount: u64) -> (r: Result<
        (),
        Error,
    >)
        requires
            old(self).wf(),
        ensures
            final(self).wf(),
            match r {
                Ok(_) => {
                    &&& amount > 0
                    &&& old(self).balance(id, from) >= amount
                    &&& final(self).moved(old(self), id, from, to, amount)
                },
                Err(e) => {
                    &&& *final(self) == *old(self)
                    &&& amount == 0 || old(self).balance(id, from) < amount
                    &&& e == if amount == 0 { Error::InvalidAmount } else { Error::InsufficientBalance }
                },
            },
    {
        if amount == 0 {
            return Err(Error::InvalidAmount);
        }
        if self.balance_of(id, from) < amount {
            return Err(Error::InsufficientBalance);
        }
        let n: usize = self.assets.len();
        assert(id < n);
        let i: usize = id as usize;
        proof {
            assert(old(self).circulating(id) == old(self).total_supply(id));
            self.assets@[i as int].book.lemma_bounded(from);
        }
        self.assets[i].book.debit(from, amount);
        self.assets[i].book.credit(to, amount);
        proof {
            assert forall|k: int| 0 <= k < self.assets@.len() implies (#[trigger] self.assets@[k]).book.wf() by {
                if k != i {
                    assert(self.assets@[k] == old(self).assets@[k]);
                }
            }
            assert forall|a: u64| self.circulating(a) == self.total_supply(a) by {
                assert(old(self).circulating(a) == old(self).total_supply(a));
            }
        }
        Ok(())
    }

    /// Removes all that `owner` holds of asset `id` from circulation.
    pub fn destroy(&mut self, owner: AccountId, id: u64) -> (r: Result<u64, Error>)
        requires
            old(self).wf(),
        ensures
            final(self).wf(),
            match r {
                Ok(burnt) => {
                    &&& burnt > 0
                    &&& burnt == old(self).balance(id, owner)
                    &&& final(self).balance(id, owner) == 0
                    &&& final(self).total_supply(id) == old(self).total_supply(id) - burnt
                    &&& forall|other: AccountId| other != owner ==> final(self).balance(id, other) == old(self).balance(id, other)
                    &&& final(self).same_except(old(self), id)
                    &&& final(self).asset_count() == old(self).asset_count()
                },
                Err(e) => {
                    &&& *final(self) == *old(self)
                    &&& e == Error::ZeroBalance
                    &&& old(self).balance(id, owner) == 0
                },
            },
    {
        let held: u64 = self.balance_of(id, owner);
        if held == 0 {
            return Err(Error::ZeroBalance);
        }
        let n: usize = self.assets.len();
        assert(id < n);
        let i: usize = id as usize;
        proof {
            assert(old(self).circulating(id) == old(self).total_supply(id));
            self.assets@[i as int].book.lemma_bounded(owner);
        }
        self.assets[i].book.debit(owner, held);
        let supply: u64 = self.assets[i].supply;
        self.assets[i].supply = supply - held;
        proof {
            assert forall|k: int| 0 <= k < self.assets@.len() implies (#[trigger] self.assets@[k]).book.wf() by {
                if k != i {
                    assert(self.assets@[k] == old(self).assets@[k]);
                }
            }
            assert forall|a: u64| self.circulating(a) == self.total_supply(a) by {
                assert(old(self).circulating(a) == old(self).total_supply(a));
            }
        }
        Ok(held)
    }
}

} // verus!
