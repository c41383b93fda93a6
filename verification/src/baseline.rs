//! The baseline: the ledger taken to precede the first block, found by
//! taking that block's transfers back, last first, from the ledger it claims.
//!
//! Taking a transfer back never asks whether it was ever applied. The
//! receiver's side stops at zero, so a claimed ledger that does not follow
//! from its transfers yields a baseline that holds more than the claim did,
//! and nothing reports it.

use crate::ledger::{State, Transaction};
use crate::supply::{balance, lemma_balance_within_supply, lemma_supply_insert, supply};
use vstd::prelude::*;

verus! {

/// `held` less `amount`, but never below zero.
pub open spec fn floor_sub(held: nat, amount: nat) -> nat {
    if held >= amount {
        (held - amount) as nat
    } else {
        0
    }
}

/// The ledger with `tx` taken back: the receiver, where it has an entry,
/// gives the amount up as far as its balance goes; the sender gets the whole
/// amount, and an entry where it had none.
pub open spec fn undo(ledger: Map<u64, nat>, tx: Transaction) -> Map<u64, nat> {
    let floored = if ledger.contains_key(tx.to) {
        ledger.insert(tx.to, floor_sub(ledger[tx.to], tx.amount as nat))
    } else {
        ledger
    };
    floored.insert(tx.from, balance(floored, tx.from) + tx.amount as nat)
}

/// The ledger with all of `txs` taken back, the last one first.
pub open spec fn rewind(ledger: Map<u64, nat>, txs: Seq<Transaction>) -> Map<u64, nat>
    decreases txs.len(),
{
    if txs.len() == 0 {
        ledger
    } else {
        undo(rewind(ledger, txs.drop_first()), txs.first())
    }
}

/// The sender's balance after `tx` is taken back is machine-sized.
pub open spec fn refund_fits(ledger: Map<u64, nat>, tx: Transaction) -> bool {
    balance(undo(ledger, tx), tx.from) <= u64::MAX
}

/// Every refund made while taking `txs` back is machine-sized.
pub open spec fn rewind_fits(ledger: Map<u64, nat>, txs: Seq<Transaction>) -> bool {
    forall|i: int|
        0 <= i < txs.len() ==> refund_fits(rewind(ledger, txs.skip(i + 1)), #[trigger] txs[i])
}

/// Taking one more transfer back is an undo on what the rewind gave so far.
pub proof fn lemma_rewind_step(ledger: Map<u64, nat>, txs: Seq<Transaction>, i: int)
    requires
        0 <= i < txs.len(),
    ensures
        rewind(ledger, txs.skip(i)) == undo(rewind(ledger, txs.skip(i + 1)), txs[i]),
{
    assert(txs.skip(i).drop_first() =~= txs.skip(i + 1));
}

/// Taking a transfer back loses no money: the supply stays or grows.
pub proof fn lemma_undo_keeps_or_grows_supply(ledger: Map<u64, nat>, tx: Transaction)
    requires
        ledger.dom().finite(),
    ensures
        undo(ledger, tx).dom().finite(),
        supply(undo(ledger, tx)) >= supply(ledger),
{
    let floored = if ledger.contains_key(tx.to) {
        ledger.insert(tx.to, floor_sub(ledger[tx.to], tx.amount as nat))
    } else {
        ledger
    };
    if ledger.contains_key(tx.to) {
        lemma_supply_insert(ledger, tx.to, floor_sub(ledger[tx.to], tx.amount as nat));
    }
    lemma_supply_insert(floored, tx.from, balance(floored, tx.from) + tx.amount as nat);
}

/// A rewind holds at least what any shorter rewind of the same transfers
/// held on the way.
pub proof fn lemma_rewind_supply_grows(ledger: Map<u64, nat>, txs: Seq<Transaction>, i: int)
    requires
        ledger.dom().finite(),
        0 <= i <= txs.len(),
    ensures
        rewind(ledger, txs.skip(i)).dom().finite(),
        rewind(ledger, txs).dom().finite(),
        supply(rewind(ledger, txs.skip(i))) <= supply(rewind(ledger, txs)),
    decreases i,
{
    lemma_rewind_finite(ledger, txs);
    lemma_rewind_finite(ledger, txs.skip(i));
    if i == 0 {
        assert(txs.skip(0) =~= txs);
    } else {
        lemma_rewind_supply_grows(ledger, txs, i - 1);
        lemma_rewind_step(ledger, txs, i - 1);
        lemma_undo_keeps_or_grows_supply(rewind(ledger, txs.skip(i)), txs[i - 1]);
    }
}

/// A rewind of a finite ledger is finite.
pub proof fn lemma_rewind_finite(ledger: Map<u64, nat>, txs: Seq<Transaction>)
    requires
        ledger.dom().finite(),
    ensures
        rewind(ledger, txs).dom().finite(),
    decreases txs.len(),
{
    if txs.len() > 0 {
        lemma_rewind_finite(ledger, txs.drop_first());
        lemma_undo_keeps_or_grows_supply(rewind(ledger, txs.drop_first()), txs.first());
    }
}

/// Where the rewound ledger's supply is machine-sized, every refund on the
/// way fits.
pub proof fn lemma_bounded_supply_rewind_fits(ledger: Map<u64, nat>, txs: Seq<Transaction>)
    requires
        ledger.dom().finite(),
        supply(rewind(ledger, txs)) <= u64::MAX,
    ensures
        rewind_fits(ledger, txs),
{
    assert forall|i: int| 0 <= i < txs.len() implies refund_fits(
        rewind(ledger, txs.skip(i + 1)),
        #[trigger] txs[i],
    ) by {
        lemma_rewind_step(ledger, txs, i);
        lemma_rewind_supply_grows(ledger, txs, i);
        lemma_balance_within_supply(rewind(ledger, txs.skip(i)), txs[i].from);
    }
}

impl State {
    /// Takes `tx` back: the receiver, where it has an entry, gives the amount
    /// up as far as its balance goes, and the sender gets the whole amount.
    pub fn undo_tx(&mut self, tx: &Transaction)
        requires
            refund_fits(old(self)@, *tx),
        ensures
            final(self)@ == undo(old(self)@, *tx),
    {
        if self.balances.contains_key(&tx.to) {
            let held = self.balance_of(tx.to);
            self.balances.insert(tx.to, held.saturating_sub(tx.amount));
        }
        let held = self.balance_of(tx.from);
        self.balances.insert(tx.from, held + tx.amount);
        assert(self@ =~= undo(old(self)@, *tx));
    }

    /// As `undo_tx`, on any ledger and any transfer: where the refund would
    /// not be machine-sized, nothing is changed and the answer is `false`.
    pub fn try_undo_tx(&mut self, tx: &Transaction) -> (done: bool)
        ensures
            done == refund_fits(old(self)@, *tx),
            final(self)@ == if done {
                undo(old(self)@, *tx)
            } else {
                old(self)@
            },
    {
        let held = self.balance_of(tx.from);
        let left = if tx.from == tx.to && self.balances.contains_key(&tx.to) {
            held.saturating_sub(tx.amount)
        } else {
            held
        };
        if left.checked_add(tx.amount).is_none() {
            false
        } else {
            self.undo_tx(tx);
            true
        }
    }
}

/// The ledger that `txs` must have started from if they led to
/// `post_state`: every transfer taken back, the last one first.
pub fn derive_baseline(post_state: &State, txs: &Vec<Transaction>) -> (baseline: State)
    requires
        rewind_fits(post_state@, txs@),
    ensures
        baseline@ == rewind(post_state@, txs@),
{
    let mut baseline = post_state.clone();
    let mut i: usize = txs.len();
    assert(txs@.skip(i as int) =~= Seq::<Transaction>::empty());
    while i > 0
        invariant
            i <= txs.len(),
            rewind_fits(post_state@, txs@),
            baseline@ == rewind(post_state@, txs@.skip(i as int)),
        decreases i,
    {
        i -= 1;
        proof {
            lemma_rewind_step(post_state@, txs@, i as int);
        }
        baseline.undo_tx(&txs[i]);
    }
    assert(txs@.skip(0) =~= txs@);
    baseline
}

/// A baseline ledger. Its supply is machine-sized, so no replay that starts
/// from it can overflow a balance.
pub struct Baseline {
    state: State,
}

impl View for Baseline {
    type V = Map<u64, nat>;

    closed spec fn view(&self) -> Map<u64, nat> {
        self.state@
    }
}

impl Baseline {
    #[verifier::type_invariant]
    spec fn bounded(self) -> bool {
        supply(self.state@) <= u64::MAX
    }

    /// The baseline of a block that claims `post_state` as the outcome of
    /// `txs`: every transfer taken back, the last one first.
    pub fn derive(post_state: &State, txs: &Vec<Transaction>) -> (baseline: Baseline)
        requires
            supply(rewind(post_state@, txs@)) <= u64::MAX,
        ensures
            baseline@ == rewind(post_state@, txs@),
    {
        proof {
            post_state.lemma_finite();
            lemma_bounded_supply_rewind_fits(post_state@, txs@);
        }
        Baseline { state: derive_baseline(post_state, txs) }
    }

    /// As `derive`, for any claim: `None` where the supply of the rewound
    /// ledger is not machine-sized.
    pub fn try_derive(post_state: &State, txs: &Vec<Transaction>) -> (baseline: Option<Baseline>)
        ensures
            baseline is Some == (supply(rewind(post_state@, txs@)) <= u64::MAX),
            baseline matches Some(derived) ==> derived@ == rewind(post_state@, txs@),
    {
        let mut state = post_state.clone();
        let mut i: usize = txs.len();
        assert(txs@.skip(i as int) =~= Seq::<Transaction>::empty());
        while i > 0
            invariant
                i <= txs.len(),
                state@ == rewind(post_state@, txs@.skip(i as int)),
            decreases i,
        {
            i -= 1;
            proof {
                post_state.lemma_finite();
                lemma_rewind_step(post_state@, txs@, i as int);
                lemma_rewind_supply_grows(post_state@, txs@, i as int);
                lemma_balance_within_supply(rewind(post_state@, txs@.skip(i as int)), txs[i as int].from);
            }
            if !state.try_undo_tx(&txs[i]) {
                return None;
            }
        }
        assert(txs@.skip(0) =~= txs@);
        match state.total_supply() {
            Some(_) => Some(Baseline { state }),
            None => None,
        }
    }

    /// A copy of the baseline as a ledger to work on.
    pub fn ledger(&self) -> (state: State)
        ensures
            state@ == self@,
            supply(state@) <= u64::MAX,
    {
        proof {
            use_type_invariant(self);
        }
        self.state.clone()
    }
}

} // verus!
