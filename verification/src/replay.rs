//! Replay: re-execution of recorded transfers from a known ledger.

use crate::ledger::{
    covers, credit_fits, lemma_bounded_supply_credit_fits, lemma_transfer_conserves_supply,
    transfer, State, Transaction,
};
use crate::supply::supply;
use vstd::prelude::*;

verus! {

/// The ledger after every transfer of `txs`, in order. A transfer that is
/// not covered when its turn comes is passed over.
pub open spec fn replay(ledger: Map<u64, nat>, txs: Seq<Transaction>) -> Map<u64, nat>
    decreases txs.len(),
{
    if txs.len() == 0 {
        ledger
    } else {
        transfer(replay(ledger, txs.drop_last()), txs.last())
    }
}

/// Every transfer of `txs` is covered when its turn comes.
pub open spec fn all_covered(ledger: Map<u64, nat>, txs: Seq<Transaction>) -> bool {
    forall|i: int| 0 <= i < txs.len() ==> covers(replay(ledger, txs.take(i)), #[trigger] txs[i])
}

/// Every credit made while replaying `txs` is machine-sized.
pub open spec fn replay_fits(ledger: Map<u64, nat>, txs: Seq<Transaction>) -> bool {
    forall|i: int|
        0 <= i < txs.len() ==> credit_fits(replay(ledger, txs.take(i)), #[trigger] txs[i])
}

/// Replaying one more transfer is a transfer on what the replay gave so far.
pub proof fn lemma_replay_step(ledger: Map<u64, nat>, txs: Seq<Transaction>, i: int)
    requires
        0 <= i < txs.len(),
    ensures
        replay(ledger, txs.take(i + 1)) == transfer(replay(ledger, txs.take(i)), txs[i]),
{
    assert(txs.take(i + 1).drop_last() =~= txs.take(i));
}

/// Replay of any sequence of transfers keeps the supply.
pub proof fn lemma_replay_conserves_supply(ledger: Map<u64, nat>, txs: Seq<Transaction>)
    requires
        ledger.dom().finite(),
    ensures
        replay(ledger, txs).dom().finite(),
        supply(replay(ledger, txs)) == supply(ledger),
    decreases txs.len(),
{
    if txs.len() > 0 {
        lemma_replay_conserves_supply(ledger, txs.drop_last());
        lemma_transfer_conserves_supply(replay(ledger, txs.drop_last()), txs.last());
    }
}

/// From a ledger whose supply is machine-sized, every replay fits.
pub proof fn lemma_bounded_supply_replay_fits(ledger: Map<u64, nat>, txs: Seq<Transaction>)
    requires
        ledger.dom().finite(),
        supply(ledger) <= u64::MAX,
    ensures
        replay_fits(ledger, txs),
{
    assert forall|i: int| 0 <= i < txs.len() implies credit_fits(
        replay(ledger, txs.take(i)),
        #[trigger] txs[i],
    ) by {
        lemma_replay_conserves_supply(ledger, txs.take(i));
        lemma_bounded_supply_credit_fits(replay(ledger, txs.take(i)), txs[i]);
    }
}

/// Replays `txs` on `state`, in order, passing over each transfer that is
/// not covered when its turn comes.
pub fn replay_transactions(state: &mut State, txs: &Vec<Transaction>)
    requires
        replay_fits(old(state)@, txs@),
    ensures
        final(state)@ == replay(old(state)@, txs@),
        supply(final(state)@) == supply(old(state)@),
{
    let ghost start = state@;
    let mut i: usize = 0;
    while i < txs.len()
        invariant
            i <= txs.len(),
            replay_fits(start, txs@),
            state@ == replay(start, txs@.take(i as int)),
            supply(state@) == supply(start),
        decreases txs.len() - i,
    {
        proof {
            lemma_replay_step(start, txs@, i as int);
        }
        let _ = state.apply_tx(&txs[i]);
        i += 1;
    }
    assert(txs@.take(txs.len() as int) =~= txs@);
}

} // verus!
