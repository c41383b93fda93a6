//! The ledger: account balances and the single rule that changes them.

use crate::supply::{
    balance, held_by, lemma_balance_within_supply, lemma_held_by_all, lemma_held_by_prefix,
    lemma_supply_insert, supply,
};
use std::collections::HashMap;
use vstd::prelude::*;

verus! {

/// A transfer of `amount` from the account `from` to the account `to`.
#[derive(Clone, Copy, Debug)]
pub struct Transaction {
    pub from: u64,
    pub to: u64,
    pub amount: u64,
}

/// The sender can pay: its balance is at least the amount.
pub open spec fn covers(ledger: Map<u64, nat>, tx: Transaction) -> bool {
    balance(ledger, tx.from) >= tx.amount
}

/// The ledger after `tx`. A covered transfer debits the sender and credits
/// the receiver, and leaves both with an entry; one that is not covered
/// changes nothing.
pub open spec fn transfer(ledger: Map<u64, nat>, tx: Transaction) -> Map<u64, nat> {
    if covers(ledger, tx) {
        let debited = ledger.insert(tx.from, (balance(ledger, tx.from) - tx.amount) as nat);
        debited.insert(tx.to, balance(debited, tx.to) + tx.amount as nat)
    } else {
        ledger
    }
}

/// The receiver's balance after `tx` is machine-sized.
pub open spec fn credit_fits(ledger: Map<u64, nat>, tx: Transaction) -> bool {
    balance(transfer(ledger, tx), tx.to) <= u64::MAX
}

/// A transfer moves money and makes none: the supply stays what it was,
/// whether the transfer is applied or turned down.
pub proof fn lemma_transfer_conserves_supply(ledger: Map<u64, nat>, tx: Transaction)
    requires
        ledger.dom().finite(),
    ensures
        transfer(ledger, tx).dom().finite(),
        supply(transfer(ledger, tx)) == supply(ledger),
{
    if covers(ledger, tx) {
        let paid = (balance(ledger, tx.from) - tx.amount) as nat;
        let debited = ledger.insert(tx.from, paid);
        lemma_supply_insert(ledger, tx.from, paid);
        lemma_supply_insert(debited, tx.to, balance(debited, tx.to) + tx.amount as nat);
    }
}

/// On a ledger whose supply is machine-sized, every credit is machine-sized.
pub proof fn lemma_bounded_supply_credit_fits(ledger: Map<u64, nat>, tx: Transaction)
    requires
        ledger.dom().finite(),
        supply(ledger) <= u64::MAX,
    ensures
        credit_fits(ledger, tx),
{
    lemma_transfer_conserves_supply(ledger, tx);
    lemma_balance_within_supply(transfer(ledger, tx), tx.to);
}

/// `theirs` has the entry that `ours` has for `account`.
pub open spec fn agree_on(ours: Map<u64, u64>, theirs: Map<u64, u64>, account: u64) -> bool {
    theirs.contains_key(account) && theirs[account] == ours[account]
}

/// Account balances. An account without an entry holds nothing.
#[derive(Debug)]
pub struct State {
    pub balances: HashMap<u64, u64>,
}

impl View for State {
    type V = Map<u64, nat>;

    open spec fn view(&self) -> Map<u64, nat> {
        self.balances@.map_values(|b: u64| b as nat)
    }
}

impl Clone for State {
    fn clone(&self) -> (copy: State)
        ensures
            copy@ == self@,
    {
        State { balances: self.balances.clone() }
    }
}

impl State {
    /// A ledger in memory has finitely many entries.
    pub proof fn lemma_finite(&self)
        ensures
            self@.dom().finite(),
    {
        vstd::std_specs::hash::axiom_hashmap_view_finite_dom(self.balances);
        assert(self@.dom() =~= self.balances@.dom());
    }

    /// The ledger in which no account has an entry.
    pub fn new() -> (s: State)
        ensures
            s@ == Map::<u64, nat>::empty(),
    {
        let s = State { balances: HashMap::new() };
        assert(s@ =~= Map::<u64, nat>::empty());
        s
    }

    /// What `account` holds: its entry, or zero where it has none.
    pub fn balance_of(&self, account: u64) -> (held: u64)
        ensures
            held == balance(self@, account),
    {
        match self.balances.get(&account) {
            Some(held) => *held,
            None => 0,
        }
    }

    /// Applies `tx` where the sender can pay, and says whether it did. A
    /// transfer that is turned down leaves the ledger as it was; either way
    /// the supply is unchanged.
    pub fn apply_tx(&mut self, tx: &Transaction) -> (applied: bool)
        requires
            credit_fits(old(self)@, *tx),
        ensures
            applied == covers(old(self)@, *tx),
            final(self)@ == transfer(old(self)@, *tx),
            supply(final(self)@) == supply(old(self)@),
    {
        proof {
            self.lemma_finite();
            lemma_transfer_conserves_supply(self@, *tx);
        }
        let sender_balance = self.balance_of(tx.from);
        if sender_balance >= tx.amount {
            self.balances.insert(tx.from, sender_balance - tx.amount);
            let receiver_balance = self.balance_of(tx.to);
            self.balances.insert(tx.to, receiver_balance + tx.amount);
            assert(self@ =~= transfer(old(self)@, *tx));
            true
        } else {
            false
        }
    }

    /// As `apply_tx`, on any ledger and any transfer: where the credit would
    /// not be machine-sized, nothing is changed and the answer is `None`.
    pub fn try_apply_tx(&mut self, tx: &Transaction) -> (outcome: Option<bool>)
        ensures
            outcome is Some == credit_fits(old(self)@, *tx),
            outcome matches Some(applied) ==> applied == covers(old(self)@, *tx) && final(self)@
                == transfer(old(self)@, *tx),
            outcome is None ==> final(self)@ == old(self)@,
    {
        let covered = self.balance_of(tx.from) >= tx.amount;
        if covered && tx.from != tx.to && self.balance_of(tx.to).checked_add(tx.amount).is_none() {
            None
        } else {
            Some(self.apply_tx(tx))
        }
    }

    /// Two ledgers in memory show the same entries exactly when they hold
    /// the same entries.
    pub proof fn lemma_view_injective(&self, other: &State)
        ensures
            (self@ == other@) == (self.balances@ == other.balances@),
    {
        if self@ == other@ {
            assert forall|account: u64|
                self.balances@.contains_key(account) == other.balances@.contains_key(
                    account,
                ) by {
                assert(self@.contains_key(account) == other@.contains_key(account));
            }
            assert forall|account: u64| #[trigger]
                self.balances@.contains_key(account) implies self.balances@[account]
                == other.balances@[account] by {
                assert(self@[account] == other@[account]);
            }
            assert(self.balances@ =~= other.balances@);
        }
    }

    /// Whether the two ledgers have the same entries: the same accounts,
    /// each with the same balance. An entry of zero is not the same as none.
    pub fn same_balances(&self, other: &State) -> (same: bool)
        ensures
            same == (self@ == other@),
    {
        proof {
            self.lemma_view_injective(other);
            vstd::std_specs::hash::axiom_hashmap_view_finite_dom(self.balances);
            vstd::std_specs::hash::axiom_hashmap_view_finite_dom(other.balances);
        }
        if self.balances.len() != other.balances.len() {
            return false;
        }
        for account in it: self.balances.keys()
            invariant
                self.balances@.dom().len() == other.balances@.dom().len(),
                it.seq().unref().to_set() == self.balances@.dom(),
                forall|i: int|
                    0 <= i < it.index() ==> agree_on(
                        self.balances@,
                        other.balances@,
                        *#[trigger] it.seq()[i],
                    ),
                it.index() == it.seq().len() ==> forall|account: u64| #[trigger]
                    self.balances@.contains_key(account) ==> agree_on(
                        self.balances@,
                        other.balances@,
                        account,
                    ),
        {
            assert(it.seq().unref()[it.index()] == *account);
            assert(it.seq().unref().to_set().contains(*account));
            let held = self.balance_of(*account);
            match other.balances.get(account) {
                Some(other_held) => {
                    if *other_held != held {
                        return false;
                    }
                },
                None => {
                    return false;
                },
            }
            assert(it.index() + 1 == it.seq().len() ==> forall|a: u64| #[trigger]
                self.balances@.contains_key(a) ==> agree_on(
                    self.balances@,
                    other.balances@,
                    a,
                )) by {
                if it.index() + 1 == it.seq().len() {
                    assert forall|a: u64| #[trigger]
                        self.balances@.contains_key(a) implies agree_on(
                        self.balances@,
                        other.balances@,
                        a,
                    ) by {
                        assert(it.seq().unref().to_set().contains(a));
                        let i = choose|i: int|
                            0 <= i < it.seq().unref().len() && it.seq().unref()[i] == a;
                        assert(*it.seq()[i] == a);
                    }
                }
            }
        }
        proof {
            assert(self.balances@.dom().subset_of(other.balances@.dom()));
            vstd::set_lib::lemma_subset_equality(self.balances@.dom(), other.balances@.dom());
            assert(self.balances@ =~= other.balances@);
        }
        true
    }

    /// The sum of all balances, where it is machine-sized.
    pub fn total_supply(&self) -> (total: Option<u64>)
        ensures
            match total {
                Some(sum) => sum == supply(self@),
                None => supply(self@) > u64::MAX,
            },
    {
        proof {
            self.lemma_finite();
            assert(self@.dom() =~= self.balances@.dom());
        }
        if self.balances.len() == 0 {
            return Some(0);
        }
        let mut sum: u64 = 0;
        for account in it: self.balances.keys()
            invariant
                self@.dom().finite(),
                it.seq().unref().to_set() == self.balances@.dom(),
                it.seq().unref().no_duplicates(),
                sum == held_by(self@, it.seq().unref().take(it.index())),
                it.index() == it.seq().len() ==> sum == supply(self@),
        {
            assert(it.seq().unref()[it.index()] == *account);
            assert(it.seq().unref().take(it.index() + 1).drop_last() =~= it.seq().unref().take(
                it.index(),
            ));
            assert(held_by(self@, it.seq().unref()) == supply(self@)) by {
                assert(self@.dom() =~= self.balances@.dom());
                lemma_held_by_all(self@, it.seq().unref());
            }
            assert(held_by(self@, it.seq().unref().take(it.index() + 1)) <= supply(self@)) by {
                lemma_held_by_prefix(self@, it.seq().unref(), it.index() + 1);
            }
            assert(it.seq().unref().take(it.seq().len() as int) =~= it.seq().unref());
            match sum.checked_add(self.balance_of(*account)) {
                Some(more) => {
                    sum = more;
                },
                None => {
                    return None;
                },
            }
        }
        Some(sum)
    }
}

} // verus!
