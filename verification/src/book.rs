//! A book of holdings: one amount per account, with its running total.
//!
//! The same structure keeps the balances of one asset and the shares of one
//! pool. Its total is the sum of what the accounts hold, by construction.

use vstd::prelude::*;

verus! {

/// Who holds a balance: an outside user, or the custody of the pool that was
/// registered at the given position. The two can never be confused.
#[derive(Clone, Copy, PartialEq, Eq, Structural, Debug)]
pub enum AccountId {
    User(u64),
    Custody(u64),
}

/// One account's holding.
#[derive(Clone, Copy, Debug)]
pub struct Holding {
    pub account: AccountId,
    pub amount: u64,
}

/// What `who` holds in a sequence of holdings.
pub open spec fn held(s: Seq<Holding>, who: AccountId) -> nat
    decreases s.len(),
{
    if s.len() == 0 {
        0
    } else {
        held(s.drop_last(), who) + if s.last().account == who { s.last().amount as nat } else { 0 }
    }
}

/// The sum of all holdings in a sequence.
pub open spec fn sum(s: Seq<Holding>) -> nat
    decreases s.len(),
{
    if s.len() == 0 {
        0
    } else {
        sum(s.drop_last()) + s.last().amount as nat
    }
}

/// No account occurs twice.
pub open spec fn distinct(s: Seq<Holding>) -> bool {
    forall|i: int, j: int| 0 <= i < j < s.len() ==> s[i].account != s[j].account
}

/// No account holds more than the total.
pub proof fn lemma_held_le_sum(s: Seq<Holding>, who: AccountId)
    ensures
        held(s, who) <= sum(s),
    decreases s.len(),
{
    if s.len() > 0 {
        lemma_held_le_sum(s.drop_last(), who);
    }
}

proof fn lemma_absent(s: Seq<Holding>, who: AccountId)
    requires
        forall|i: int| 0 <= i < s.len() ==> s[i].account != who,
    ensures
        held(s, who) == 0,
    decreases s.len(),
{
    if s.len() > 0 {
        lemma_absent(s.drop_last(), who);
    }
}

proof fn lemma_present(s: Seq<Holding>, i: int)
    requires
        distinct(s),
        0 <= i < s.len(),
    ensures
        held(s, s[i].account) == s[i].amount,
    decreases s.len(),
{
    let who = s[i].account;
    if i == s.len() - 1 {
        lemma_absent(s.drop_last(), who);
    } else {
        lemma_present(s.drop_last(), i);
    }
}

proof fn lemma_replace(s: Seq<Holding>, i: int, amount: u64, who: AccountId)
    requires
        0 <= i < s.len(),
    ensures
        ({
            let t = s.update(i, Holding { account: s[i].account, amount });
            &&& sum(t) == sum(s) - s[i].amount + amount
            &&& held(t, who) == held(s, who) + if s[i].account == who {
                amount - s[i].amount
            } else {
                0
            }
        }),
    decreases s.len(),
{
    let t = s.update(i, Holding { account: s[i].account, amount });
    if i == s.len() - 1 {
        assert(t.drop_last() =~= s.drop_last());
    } else {
        lemma_replace(s.drop_last(), i, amount, who);
        assert(t.drop_last() =~= s.drop_last().update(
            i,
            Holding { account: s[i].account, amount },
        ));
    }
}

/// Holdings keyed by account.
pub struct Book {
    entries: Vec<Holding>,
}

impl Book {
    /// The accounts are distinct and the total fits into 64 bits.
    pub closed spec fn wf(&self) -> bool {
        distinct(self.entries@) && sum(self.entries@) <= u64::MAX
    }

    /// What `who` holds.
    pub closed spec fn balance(&self, who: AccountId) -> nat {
        held(self.entries@, who)
    }

    /// The sum of all holdings.
    pub closed spec fn total(&self) -> nat {
        sum(self.entries@)
    }

    /// The accounts on record, each once.
    pub closed spec fn holders(&self) -> Seq<AccountId> {
        Seq::new(self.entries@.len(), |i: int| self.entries@[i].account)
    }

    /// What the listed accounts hold together.
    pub open spec fn sum_over(&self, accounts: Seq<AccountId>) -> nat
        decreases accounts.len(),
    {
        if accounts.len() == 0 {
            0
        } else {
            self.sum_over(accounts.drop_last()) + self.balance(accounts.last())
        }
    }

    proof fn lemma_prefix(&self, n: int)
        requires
            distinct(self.entries@),
            0 <= n <= self.entries@.len(),
        ensures
            self.sum_over(self.holders().take(n)) == sum(self.entries@.take(n)),
        decreases n,
    {
        if n > 0 {
            self.lemma_prefix(n - 1);
            lemma_present(self.entries@, n - 1);
            assert(self.holders().take(n).drop_last() =~= self.holders().take(n - 1));
            assert(self.entries@.take(n).drop_last() =~= self.entries@.take(n - 1));
        }
    }

    /// The total is the sum of what the accounts on record hold, no account
    /// is on record twice, and an account that is not on record holds nothing.
    pub proof fn lemma_total_is_sum_of_balances(&self)
        requires
            self.wf(),
        ensures
            self.sum_over(self.holders()) == self.total(),
            self.holders().no_duplicates(),
            forall|who: AccountId| !self.holders().contains(who) ==> self.balance(who) == 0,
    {
        self.lemma_prefix(self.entries@.len() as int);
        assert(self.holders().take(self.entries@.len() as int) =~= self.holders());
        assert(self.entries@.take(self.entries@.len() as int) =~= self.entries@);
        assert forall|who: AccountId| !self.holders().contains(who) implies self.balance(who)
            == 0 by {
            assert forall|i: int| 0 <= i < self.entries@.len() implies self.entries@[i].account
                != who by {
                assert(self.holders()[i] == self.entries@[i].account);
            }
            lemma_absent(self.entries@, who);
        }
    }

    /// In a well-formed book no holding exceeds the total, which fits 64 bits.
    pub proof fn lemma_bounded(&self, who: AccountId)
        requires
            self.wf(),
        ensures
            self.balance(who) <= self.total() <= u64::MAX,
    {
        lemma_held_le_sum(self.entries@, who);
    }

    /// An empty book.
    pub fn new() -> (r: Book)
        ensures
            r.wf(),
            r.total() == 0,
            forall|who: AccountId| r.balance(who) == 0,
    {
        Book { entries: Vec::new() }
    }

    fn find(&self, who: AccountId) -> (r: Option<usize>)
        ensures
            match r {
                Some(i) => i < self.entries@.len() && self.entries@[i as int].account == who,
                None => forall|i: int| 0 <= i < self.entries@.len() ==> self.entries@[i].account != who,
            },
    {
        let mut i: usize = 0;
        while i < self.entries.len()
            invariant
                i <= self.entries@.len(),
                forall|k: int| 0 <= k < i ==> self.entries@[k].account != who,
            decreases self.entries@.len() - i,
        {
            if self.entries[i].account == who {
                return Some(i);
            }
            i += 1;
        }
        None
    }

    /// Reads what `who` holds.
    pub fn balance_of(&self, who: AccountId) -> (r: u64)
        requires
            self.wf(),
        ensures
            r == self.balance(who),
    {
        match self.find(who) {
            Some(i) => {
                proof { lemma_present(self.entries@, i as int); }
                self.entries[i].amount
            },
            None => {
                proof { lemma_absent(self.entries@, who); }
                0
            },
        }
    }

    /// Reads the sum of all holdings.
    pub fn total_of(&self) -> (r: u64)
        requires
            self.wf(),
        ensures
            r == self.total(),
    {
        let mut acc: u64 = 0;
        let mut i: usize = 0;
        while i < self.entries.len()
            invariant
                i <= self.entries@.len(),
                acc == sum(self.entries@.take(i as int)),
                sum(self.entries@) <= u64::MAX,
            decreases self.entries@.len() - i,
        {
            proof {
                let next = self.entries@.take(i + 1);
                assert(next.drop_last() =~= self.entries@.take(i as int));
                lemma_prefix_sum(self.entries@, i + 1);
            }
            acc = acc + self.entries[i].amount;
            i += 1;
        }
        proof { assert(self.entries@.take(i as int) =~= self.entries@); }
        acc
    }

    /// Adds `amount` to what `who` holds.
    pub fn credit(&mut self, who: AccountId, amount: u64)
        requires
            old(self).wf(),
            old(self).total() + amount <= u64::MAX,
        ensures
            final(self).wf(),
            final(self).total() == old(self).total() + amount,
            final(self).balance(who) == old(self).balance(who) + amount,
            forall|other: AccountId| other != who ==> final(self).balance(other) == old(self).balance(other),
    {
        let ghost before = self.entries@;
        match self.find(who) {
            Some(i) => {
                let was: u64 = self.entries[i].amount;
                proof {
                    lemma_present(before, i as int);
                    lemma_held_le_sum(before, who);
                    lemma_replace(before, i as int, (was + amount) as u64, who);
                    assert forall|other: AccountId| other != who implies held(
                        before.update(i as int, Holding { account: who, amount: (was + amount) as u64 }),
                        other,
                    ) == held(before, other) by {
                        lemma_replace(before, i as int, (was + amount) as u64, other);
                    }
                }
                self.entries.set(i, Holding { account: who, amount: was + amount });
            },
            None => {
                proof { lemma_absent(before, who); }
                self.entries.push(Holding { account: who, amount });
                proof { assert(self.entries@.drop_last() =~= before); }
            },
        }
    }

    /// Takes `amount` from what `who` holds.
    pub fn debit(&mut self, who: AccountId, amount: u64)
        requires
            old(self).wf(),
            old(self).balance(who) >= amount,
        ensures
            final(self).wf(),
            final(self).total() == old(self).total() - amount,
            final(self).balance(who) == old(self).balance(who) - amount,
            forall|other: AccountId| other != who ==> final(self).balance(other) == old(self).balance(other),
    {
        let ghost before = self.entries@;
        match self.find(who) {
            Some(i) => {
                let was: u64 = self.entries[i].amount;
                proof {
                    lemma_present(before, i as int);
                    lemma_replace(before, i as int, (was - amount) as u64, who);
                    assert forall|other: AccountId| other != who implies held(
                        before.update(i as int, Holding { account: who, amount: (was - amount) as u64 }),
                        other,
                    ) == held(before, other) by {
                        lemma_replace(before, i as int, (was - amount) as u64, other);
                    }
                }
                self.entries.set(i, Holding { account: who, amount: was - amount });
            },
            None => {
                proof { lemma_absent(before, who); }
            },
        }
    }
}

proof fn lemma_prefix_sum(s: Seq<Holding>, n: int)
    requires
        0 <= n <= s.len(),
    ensures
        sum(s.take(n)) <= sum(s),
    decreases s.len() - n,
{
    if n < s.len() {
        lemma_prefix_sum(s, n + 1);
        assert(s.take(n + 1).drop_last() =~= s.take(n));
    } else {
        assert(s.take(n) =~= s);
    }
}

} // verus!
