//! What holds of the verifier as a whole, whatever it has been given.

use crate::block::BlockModel;
use crate::challenge::FraudChallenge;
use crate::model::{
    lemma_matured_prefix, lemma_replay_blocks_reads_transfers, lemma_replay_blocks_step,
    VerifierModel,
};
use crate::reversal::{consistent, lemma_baseline_reproduces_claim};
use vstd::prelude::*;

verus! {

/// Replay is determined by the baseline and the transfers of the blocks
/// before the boundary. Two verifiers that agree on those reconstruct the
/// same ledger, whatever else they hold: later blocks, claims, commitments,
/// challenges, the clock.
pub proof fn lemma_replay_is_deterministic(ours: VerifierModel, theirs: VerifierModel, upto: int)
    requires
        ours.baseline == theirs.baseline,
        0 <= upto <= ours.blocks.len(),
        upto <= theirs.blocks.len(),
        forall|i: int|
            0 <= i < upto ==> (#[trigger] ours.blocks[i]).transactions
                == theirs.blocks[i].transactions,
    ensures
        ours.state_before(upto) == theirs.state_before(upto),
{
    lemma_replay_blocks_reads_transfers(
        ours.baseline_ledger(),
        ours.blocks.take(upto),
        theirs.blocks.take(upto),
    );
}

/// History does not change under a verifier that has a block: a further
/// block, a challenge, or the passing of time with the resolutions it
/// brings leave every ledger that was reconstructed as it was.
pub proof fn lemma_history_is_stable(
    verifier: VerifierModel,
    block: BlockModel,
    ticks: nat,
    upto: int,
)
    requires
        0 <= upto <= verifier.blocks.len(),
        verifier.blocks.len() > 0,
    ensures
        verifier.submit_block(block).state_before(upto) == verifier.state_before(upto),
        verifier.advance(ticks).state_before(upto) == verifier.state_before(upto),
{
    lemma_replay_is_deterministic(verifier, verifier.submit_block(block), upto);
    lemma_replay_is_deterministic(verifier, verifier.advance(ticks), upto);
}

/// Head-of-line blocking. While the challenge at position `i` of the queue
/// has not waited long enough, a resolution pass takes fewer than `i + 1`
/// challenges, and that one and all behind it stay in the queue in their
/// order, also those that have themselves waited long enough.
pub proof fn lemma_immature_challenge_blocks(verifier: VerifierModel, i: int)
    requires
        0 <= i < verifier.pending.len(),
        !verifier.pending[i].matured(verifier.time, verifier.timeout),
    ensures
        verifier.due() <= i,
        verifier.resolve().pending.skip(i - verifier.due()) == verifier.pending.skip(i),
        verifier.resolve().resolved.len() == verifier.resolved.len() + verifier.due(),
{
    lemma_matured_prefix(verifier.pending, verifier.time, verifier.timeout);
    assert(verifier.resolve().pending.skip(i - verifier.due()) =~= verifier.pending.skip(i));
}

/// Challenges are resolved in the order in which they came: what a pass
/// adds to the resolved log is the head of the queue, in order, each
/// challenge with its verdict.
pub proof fn lemma_resolved_in_arrival_order(verifier: VerifierModel, i: int)
    requires
        0 <= i < verifier.due(),
    ensures
        verifier.due() <= verifier.pending.len(),
        verifier.resolve().resolved[verifier.resolved.len() + i] == verifier.pending[i].resolved_as(
            verifier.verdict(verifier.pending[i]),
        ),
        verifier.pending[i].matured(verifier.time, verifier.timeout),
{
    lemma_matured_prefix(verifier.pending, verifier.time, verifier.timeout);
}

/// A pass is complete: when it is over, no challenge at the head of the
/// queue has waited long enough, and a second pass would change nothing.
pub proof fn lemma_pass_leaves_nothing_due(verifier: VerifierModel)
    ensures
        verifier.resolve().due() == 0,
        verifier.resolve().resolve() == verifier.resolve(),
{
    lemma_matured_prefix(verifier.pending, verifier.time, verifier.timeout);
    verifier.resolve().lemma_resolve_none();
}

/// The timeout boundary. When the clock moves on by `ticks`, the challenge
/// at the head of the queue is resolved exactly if the time it has then
/// waited is the timeout or more; one tick short of that it stays at the
/// head of the queue and nothing is resolved.
pub proof fn lemma_timeout_boundary(verifier: VerifierModel, ticks: nat)
    requires
        verifier.pending.len() > 0,
    ensures
        verifier.time + ticks - verifier.pending[0].time >= verifier.timeout ==> {
            let after = verifier.advance(ticks);
            &&& after.resolved.len() > verifier.resolved.len()
            &&& after.resolved[verifier.resolved.len() as int] == verifier.pending[0].resolved_as(
                verifier.tick(ticks).verdict(verifier.pending[0]),
            )
        },
        verifier.time + ticks - verifier.pending[0].time < verifier.timeout ==> {
            let after = verifier.advance(ticks);
            &&& after.resolved == verifier.resolved
            &&& after.pending == verifier.pending
            &&& after.blocks == verifier.blocks
        },
{
    let moved = verifier.tick(ticks);
    lemma_matured_prefix(moved.pending, moved.time, moved.timeout);
    if verifier.time + ticks - verifier.pending[0].time >= verifier.timeout {
        assert(moved.pending.first().matured(moved.time, moved.timeout));
        assert(moved.due() >= 1);
    } else {
        assert(moved.due() == 0);
        moved.lemma_resolve_none();
    }
}

/// A commitment that is lost stays lost, and only a challenge that is
/// resolved against a block takes its commitment: after the clock moves
/// on, the log has the blocks it had, and each is committed exactly if it
/// was and no challenge resolved in the pass found it wrong.
pub proof fn lemma_commitment_is_final(verifier: VerifierModel, ticks: nat, position: int)
    requires
        0 <= position < verifier.blocks.len(),
    ensures
        verifier.advance(ticks).blocks.len() == verifier.blocks.len(),
        verifier.advance(ticks).blocks[position].committed == (verifier.blocks[position].committed
            && !verifier.tick(ticks).condemns(position, verifier.tick(ticks).due() as int)),
        verifier.advance(ticks).blocks[position].transactions
            == verifier.blocks[position].transactions,
        verifier.advance(ticks).blocks[position].post_state
            == verifier.blocks[position].post_state,
{
}

/// A log that is numbered in order stays so when the next block carries
/// the next number, and under everything else that the verifier does.
pub proof fn lemma_numbering_is_kept(
    verifier: VerifierModel,
    block: BlockModel,
    challenge: FraudChallenge,
    ticks: nat,
)
    requires
        verifier.numbered_in_order(),
    ensures
        block.block_number == verifier.blocks.len() ==> verifier.submit_block(
            block,
        ).numbered_in_order(),
        verifier.submit_challenge(challenge).numbered_in_order(),
        verifier.advance(ticks).numbered_in_order(),
{
}

/// The logs only grow, and the clock only moves on: what was on the block
/// log or on the resolved log stays there in its place, apart from the
/// commitment of a block, and time never goes back.
pub proof fn lemma_logs_only_grow(
    verifier: VerifierModel,
    block: BlockModel,
    challenge: FraudChallenge,
    ticks: nat,
)
    ensures
        verifier.submit_block(block).blocks.take(verifier.blocks.len() as int) == verifier.blocks,
        verifier.submit_block(block).resolved == verifier.resolved,
        verifier.submit_block(block).time == verifier.time,
        verifier.submit_challenge(challenge).blocks == verifier.blocks,
        verifier.submit_challenge(challenge).resolved == verifier.resolved,
        verifier.submit_challenge(challenge).time == verifier.time,
        verifier.advance(ticks).blocks.len() == verifier.blocks.len(),
        verifier.advance(ticks).resolved.take(verifier.resolved.len() as int)
            == verifier.resolved,
        verifier.advance(ticks).time == verifier.time + ticks,
{
    assert(verifier.submit_block(block).blocks.take(verifier.blocks.len() as int)
        =~= verifier.blocks);
    assert(verifier.advance(ticks).resolved.take(verifier.resolved.len() as int)
        =~= verifier.resolved);
}

/// The baseline is fixed by the first block and by nothing after it.
pub proof fn lemma_baseline_fixed_once(
    verifier: VerifierModel,
    block: BlockModel,
    ticks: nat,
)
    requires
        verifier.blocks.len() > 0,
    ensures
        verifier.submit_block(block).baseline == verifier.baseline,
        verifier.advance(ticks).baseline == verifier.baseline,
{
}

/// Where the first block's claim follows from its transfers, replay
/// through that block from the baseline it fixed gives the block's claim,
/// entry for entry.
pub proof fn lemma_first_block_is_reproduced(timeout: nat, block: BlockModel)
    requires
        consistent(block.post_state, block.transactions),
    ensures
        VerifierModel::initial(timeout).submit_block(block).state_before(1) == block.post_state,
{
    let verifier = VerifierModel::initial(timeout).submit_block(block);
    lemma_baseline_reproduces_claim(block.post_state, block.transactions);
    lemma_replay_blocks_step(verifier.baseline_ledger(), verifier.blocks, 0);
    assert(verifier.blocks.take(0) =~= Seq::<BlockModel>::empty());
}

} // verus!
