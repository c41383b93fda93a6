//! When the baseline is right: a block whose claim follows from its transfers
//! is reproduced by replay from the baseline that was derived from it.

use crate::baseline::{lemma_rewind_step, rewind, undo};
use crate::ledger::{covers, transfer, Transaction};
use crate::replay::{all_covered, lemma_replay_step, replay};
use crate::supply::balance;
use vstd::prelude::*;

verus! {

/// The two ledgers give every account the same balance. They may still
/// differ in which accounts have an entry of zero and which have none.
pub open spec fn same_holdings(ours: Map<u64, nat>, theirs: Map<u64, nat>) -> bool {
    forall|account: u64| balance(ours, account) == balance(theirs, account)
}

/// Replaying `txs` from `start` applies every one of them and ends in
/// `claimed`.
pub open spec fn leads_to(start: Map<u64, nat>, txs: Seq<Transaction>, claimed: Map<u64, nat>) -> bool {
    all_covered(start, txs) && replay(start, txs) == claimed
}

/// The claim follows from the transfers: there is a ledger from which
/// replay applies every transfer of `txs` and ends in `claimed`.
pub open spec fn consistent(claimed: Map<u64, nat>, txs: Seq<Transaction>) -> bool {
    exists|start: Map<u64, nat>| leads_to(start, txs, claimed)
}

/// A transfer reads balances only: on ledgers with the same holdings it is
/// covered alike and leaves the same holdings.
pub proof fn lemma_transfer_reads_holdings(
    ours: Map<u64, nat>,
    theirs: Map<u64, nat>,
    tx: Transaction,
)
    requires
        same_holdings(ours, theirs),
    ensures
        covers(ours, tx) == covers(theirs, tx),
        same_holdings(transfer(ours, tx), transfer(theirs, tx)),
{
    assert(balance(ours, tx.from) == balance(theirs, tx.from));
    assert(balance(ours, tx.to) == balance(theirs, tx.to));
    assert forall|account: u64|
        balance(transfer(ours, tx), account) == balance(transfer(theirs, tx), account) by {
        assert(balance(ours, account) == balance(theirs, account));
    }
}

/// Replay never removes an entry, and a transfer that is applied leaves
/// its sender and its receiver with one.
pub proof fn lemma_replay_keeps_entries(start: Map<u64, nat>, txs: Seq<Transaction>, i: int)
    requires
        0 <= i <= txs.len(),
    ensures
        replay(start, txs.take(i)).dom().subset_of(replay(start, txs).dom()),
        i < txs.len() && covers(replay(start, txs.take(i)), txs[i]) ==> replay(
            start,
            txs,
        ).contains_key(txs[i].from) && replay(start, txs).contains_key(txs[i].to),
    decreases txs.len() - i,
{
    if i == txs.len() {
        assert(txs.take(i) =~= txs);
    } else {
        lemma_replay_step(start, txs, i);
        lemma_replay_keeps_entries(start, txs, i + 1);
    }
}

/// Taking the transfers of a consistent history back retraces it: after
/// the transfers from `i` on are taken back, every account holds what it
/// held when replay had come to `i`, and the entries are those of the end.
pub proof fn lemma_rewind_retraces(start: Map<u64, nat>, txs: Seq<Transaction>, i: int)
    requires
        all_covered(start, txs),
        0 <= i <= txs.len(),
    ensures
        same_holdings(rewind(replay(start, txs), txs.skip(i)), replay(start, txs.take(i))),
        rewind(replay(start, txs), txs.skip(i)).dom() == replay(start, txs).dom(),
    decreases txs.len() - i,
{
    let end = replay(start, txs);
    if i == txs.len() {
        assert(txs.skip(i) =~= Seq::<Transaction>::empty());
        assert(txs.take(i) =~= txs);
    } else {
        let tx = txs[i];
        let there = replay(start, txs.take(i));
        let next = replay(start, txs.take(i + 1));
        let back_next = rewind(end, txs.skip(i + 1));
        lemma_rewind_retraces(start, txs, i + 1);
        lemma_rewind_step(end, txs, i);
        lemma_replay_step(start, txs, i);
        lemma_replay_keeps_entries(start, txs, i);
        assert(covers(there, tx));
        assert(back_next.contains_key(tx.from) && back_next.contains_key(tx.to));
        assert(balance(back_next, tx.from) == balance(next, tx.from));
        assert(balance(back_next, tx.to) == balance(next, tx.to));
        let back = undo(back_next, tx);
        assert forall|account: u64| balance(back, account) == balance(there, account) by {
            assert(balance(back_next, account) == balance(next, account));
        }
        assert(back.dom() =~= back_next.dom());
    }
}

/// Replay from the derived baseline follows the consistent history it was
/// derived from: at every step every account holds what it held there, and
/// the entries are those of the end.
pub proof fn lemma_replay_from_rewind(start: Map<u64, nat>, txs: Seq<Transaction>, i: int)
    requires
        all_covered(start, txs),
        0 <= i <= txs.len(),
    ensures
        same_holdings(
            replay(rewind(replay(start, txs), txs), txs.take(i)),
            replay(start, txs.take(i)),
        ),
        replay(rewind(replay(start, txs), txs), txs.take(i)).dom() == replay(start, txs).dom(),
    decreases i,
{
    let end = replay(start, txs);
    let derived = rewind(end, txs);
    if i == 0 {
        assert(txs.skip(0) =~= txs);
        lemma_rewind_retraces(start, txs, 0);
    } else {
        let tx = txs[i - 1];
        let ours = replay(derived, txs.take(i - 1));
        let theirs = replay(start, txs.take(i - 1));
        lemma_replay_from_rewind(start, txs, i - 1);
        lemma_replay_step(derived, txs, i - 1);
        lemma_replay_step(start, txs, i - 1);
        lemma_replay_keeps_entries(start, txs, i - 1);
        lemma_transfer_reads_holdings(ours, theirs, tx);
        assert(covers(theirs, tx));
        assert(transfer(ours, tx).dom() =~= ours.dom());
    }
}

/// Where the claimed ledger follows from the transfers, replay of those
/// transfers from the derived baseline ends in the claimed ledger, entry
/// for entry.
pub proof fn lemma_baseline_reproduces_claim(claimed: Map<u64, nat>, txs: Seq<Transaction>)
    requires
        consistent(claimed, txs),
    ensures
        replay(rewind(claimed, txs), txs) == claimed,
{
    let start = choose|start: Map<u64, nat>| leads_to(start, txs, claimed);
    lemma_replay_from_rewind(start, txs, txs.len() as int);
    assert(txs.take(txs.len() as int) =~= txs);
    let again = replay(rewind(claimed, txs), txs);
    assert forall|account: u64| #[trigger] again.contains_key(account) implies again[account]
        == claimed[account] by {
        assert(balance(again, account) == balance(claimed, account));
    }
    assert(again =~= claimed);
}

/// Every account holds in `ours` at least what it holds in `theirs`.
pub open spec fn holds_at_least(ours: Map<u64, nat>, theirs: Map<u64, nat>) -> bool {
    forall|account: u64| balance(ours, account) >= balance(theirs, account)
}

/// Replay from the derived baseline never runs short, whatever was
/// claimed: when it has come to `i`, every account holds at least what the
/// rewind left it there, and the transfer at `i` is covered.
pub proof fn lemma_replay_from_rewind_is_covered(
    claimed: Map<u64, nat>,
    txs: Seq<Transaction>,
    i: int,
)
    requires
        0 <= i <= txs.len(),
    ensures
        holds_at_least(
            replay(rewind(claimed, txs), txs.take(i)),
            rewind(claimed, txs.skip(i)),
        ),
        i < txs.len() ==> covers(replay(rewind(claimed, txs), txs.take(i)), txs[i]),
    decreases i,
{
    let derived = rewind(claimed, txs);
    if i == 0 {
        assert(txs.skip(0) =~= txs);
        assert(txs.take(0) =~= Seq::<Transaction>::empty());
    } else {
        let tx = txs[i - 1];
        let ours = replay(derived, txs.take(i - 1));
        let theirs = rewind(claimed, txs.skip(i - 1));
        let back = rewind(claimed, txs.skip(i));
        lemma_replay_from_rewind_is_covered(claimed, txs, i - 1);
        lemma_replay_step(derived, txs, i - 1);
        lemma_rewind_step(claimed, txs, i - 1);
        assert(balance(ours, tx.from) >= balance(theirs, tx.from));
        assert(balance(ours, tx.to) >= balance(theirs, tx.to));
        assert forall|account: u64|
            balance(transfer(ours, tx), account) >= balance(back, account) by {
            assert(balance(ours, account) >= balance(theirs, account));
        }
    }
    if i < txs.len() {
        lemma_rewind_step(claimed, txs, i);
        let here = replay(derived, txs.take(i));
        assert(balance(here, txs[i].from) >= balance(rewind(claimed, txs.skip(i)), txs[i].from));
    }
}

/// The claims that replay from the derived baseline reproduces are the
/// consistent ones, and no others.
pub proof fn lemma_reproduced_claim_is_consistent(claimed: Map<u64, nat>, txs: Seq<Transaction>)
    requires
        replay(rewind(claimed, txs), txs) == claimed,
    ensures
        consistent(claimed, txs),
{
    let derived = rewind(claimed, txs);
    assert forall|i: int| 0 <= i < txs.len() implies covers(
        replay(derived, txs.take(i)),
        #[trigger] txs[i],
    ) by {
        lemma_replay_from_rewind_is_covered(claimed, txs, i);
    }
    assert(leads_to(derived, txs, claimed));
}

} // verus!
