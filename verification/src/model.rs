//! The verifier as a mathematical state machine: what it holds, and what
//! each of its operations makes of that.

use crate::baseline::rewind;
use crate::block::BlockModel;
use crate::challenge::FraudChallenge;
use crate::error::VerifierError;
use crate::ledger::{covers, transfer};
use crate::replay::replay;
use crate::supply::supply;
use vstd::prelude::*;

verus! {

/// The ledger after all transfers of all `blocks`, block by block in order.
pub open spec fn replay_blocks(ledger: Map<u64, nat>, blocks: Seq<BlockModel>) -> Map<u64, nat>
    decreases blocks.len(),
{
    if blocks.len() == 0 {
        ledger
    } else {
        replay(replay_blocks(ledger, blocks.drop_last()), blocks.last().transactions)
    }
}

/// How many challenges at the head of `pending` have waited out `timeout`
/// at `now`, counted up to the first one that has not.
pub open spec fn matured_prefix(pending: Seq<FraudChallenge>, now: nat, timeout: nat) -> nat
    decreases pending.len(),
{
    if pending.len() > 0 && pending.first().matured(now, timeout) {
        1 + matured_prefix(pending.drop_first(), now, timeout)
    } else {
        0
    }
}

/// All that a verifier holds.
pub struct VerifierModel {
    /// The logical clock.
    pub time: nat,
    /// The block log, in submission order.
    pub blocks: Seq<BlockModel>,
    /// The challenges that wait, in arrival order.
    pub pending: Seq<FraudChallenge>,
    /// The challenges that were resolved, in the order of their resolution.
    pub resolved: Seq<FraudChallenge>,
    /// How long a challenge waits before it is resolved.
    pub timeout: nat,
    /// The ledger taken to precede the first block, once there is a block.
    pub baseline: Option<Map<u64, nat>>,
}

impl VerifierModel {
    /// A verifier at time zero that has seen nothing.
    pub open spec fn initial(timeout: nat) -> VerifierModel {
        VerifierModel {
            time: 0,
            blocks: Seq::empty(),
            pending: Seq::empty(),
            resolved: Seq::empty(),
            timeout,
            baseline: None,
        }
    }

    /// Every block carries its position in the log as its number: blocks
    /// were numbered from zero in the order in which they came. A challenge
    /// names a block by its position, which is then its number.
    pub open spec fn numbered_in_order(self) -> bool {
        forall|i: int| 0 <= i < self.blocks.len() ==> (#[trigger] self.blocks[i]).block_number == i
    }

    /// The ledger that replay starts from: the baseline, or the empty
    /// ledger while there is none.
    pub open spec fn baseline_ledger(self) -> Map<u64, nat> {
        match self.baseline {
            Some(ledger) => ledger,
            None => Map::empty(),
        }
    }

    /// The ledger at the boundary before the block at position `upto`:
    /// the baseline with every transfer of every earlier block replayed.
    pub open spec fn state_before(self, upto: int) -> Map<u64, nat> {
        replay_blocks(self.baseline_ledger(), self.blocks.take(upto))
    }

    /// The challenge names a block of the log and a transfer of that block.
    pub open spec fn in_bounds(self, challenge: FraudChallenge) -> bool {
        &&& challenge.block_number < self.blocks.len()
        &&& challenge.tx_index < self.blocks[challenge.block_number as int].transactions.len()
    }

    /// Whether the challenged block stands: the disputed transfer, applied
    /// alone to the ledger before its block, is covered and gives exactly
    /// the ledger that the block claims.
    pub open spec fn verdict(self, challenge: FraudChallenge) -> bool {
        let block = self.blocks[challenge.block_number as int];
        let before = self.state_before(challenge.block_number as int);
        let disputed = block.transactions[challenge.tx_index as int];
        covers(before, disputed) && transfer(before, disputed) == block.post_state
    }

    /// The verifier after `block` is appended. The first block of the log
    /// fixes the baseline: its claimed ledger with its transfers taken back.
    pub open spec fn submit_block(self, block: BlockModel) -> VerifierModel {
        VerifierModel {
            blocks: self.blocks.push(block),
            baseline: if self.blocks.len() == 0 {
                Some(rewind(block.post_state, block.transactions))
            } else {
                self.baseline
            },
            ..self
        }
    }

    /// The verifier after `challenge` joins the end of the queue.
    pub open spec fn submit_challenge(self, challenge: FraudChallenge) -> VerifierModel {
        VerifierModel { pending: self.pending.push(challenge), ..self }
    }

    /// How many challenges a resolution pass takes from the head of the
    /// queue.
    pub open spec fn due(self) -> nat {
        matured_prefix(self.pending, self.time, self.timeout)
    }

    /// Every challenge that a resolution pass would take is in bounds.
    pub open spec fn resolvable(self) -> bool {
        forall|i: int| 0 <= i < self.due() ==> self.in_bounds(#[trigger] self.pending[i])
    }

    /// One of the first `count` waiting challenges is against the block at
    /// `position` and finds it wrong.
    pub open spec fn condemns(self, position: int, count: int) -> bool {
        exists|i: int|
            0 <= i < count && (#[trigger] self.pending[i]).block_number == position
                && !self.verdict(self.pending[i])
    }

    /// The verifier after the first `count` waiting challenges are resolved:
    /// each leaves the queue and joins the resolved log with its verdict,
    /// and each block that one of them finds wrong loses its commitment.
    pub open spec fn resolve_first(self, count: int) -> VerifierModel {
        VerifierModel {
            pending: self.pending.skip(count),
            resolved: self.resolved + Seq::new(
                count as nat,
                |i: int| self.pending[i].resolved_as(self.verdict(self.pending[i])),
            ),
            blocks: Seq::new(
                self.blocks.len(),
                |position: int|
                    if self.condemns(position, count) {
                        self.blocks[position].condemned()
                    } else {
                        self.blocks[position]
                    },
            ),
            ..self
        }
    }

    /// The verifier after the challenge at the head of the queue is
    /// resolved.
    pub open spec fn resolve_head(self) -> VerifierModel {
        let challenge = self.pending.first();
        let position = challenge.block_number as int;
        let valid = self.verdict(challenge);
        VerifierModel {
            pending: self.pending.drop_first(),
            resolved: self.resolved.push(challenge.resolved_as(valid)),
            blocks: if valid {
                self.blocks
            } else {
                self.blocks.update(position, self.blocks[position].condemned())
            },
            ..self
        }
    }

    /// The verifier after a resolution pass: the challenges at the head of
    /// the queue that have waited long enough are resolved, up to the first
    /// one that has not; nothing behind that one is looked at.
    pub open spec fn resolve(self) -> VerifierModel {
        self.resolve_first(self.due() as int)
    }

    /// The verifier with its clock moved on by `ticks`.
    pub open spec fn tick(self, ticks: nat) -> VerifierModel {
        VerifierModel { time: self.time + ticks, ..self }
    }

    /// The verifier after the clock moves on by `ticks` and a resolution
    /// pass is made.
    pub open spec fn advance(self, ticks: nat) -> VerifierModel {
        self.tick(ticks).resolve()
    }

    /// The baseline that `block` would fix is machine-sized, or `block`
    /// would not be the first of the log and fixes none.
    pub open spec fn accepts(self, block: BlockModel) -> bool {
        self.blocks.len() == 0 ==> supply(rewind(block.post_state, block.transactions))
            <= u64::MAX
    }

    /// Why the clock cannot be moved on by `ticks`, if it cannot: the
    /// clock's limit comes first, then the challenges that would be due.
    pub open spec fn advance_error(self, ticks: nat) -> Option<VerifierError> {
        if self.time + ticks > u64::MAX {
            Some(VerifierError::ClockOverflow)
        } else if !self.tick(ticks).resolvable() {
            Some(VerifierError::MalformedChallenge)
        } else {
            None
        }
    }
}

/// Replaying one more block is a replay of its transfers on what the
/// earlier blocks gave.
pub proof fn lemma_replay_blocks_step(ledger: Map<u64, nat>, blocks: Seq<BlockModel>, i: int)
    requires
        0 <= i < blocks.len(),
    ensures
        replay_blocks(ledger, blocks.take(i + 1)) == replay(
            replay_blocks(ledger, blocks.take(i)),
            blocks[i].transactions,
        ),
{
    assert(blocks.take(i + 1).drop_last() =~= blocks.take(i));
}

/// Replay reads the transfers of the blocks and nothing else of them:
/// neither what they claim nor whether they are committed.
pub proof fn lemma_replay_blocks_reads_transfers(
    ledger: Map<u64, nat>,
    ours: Seq<BlockModel>,
    theirs: Seq<BlockModel>,
)
    requires
        ours.len() == theirs.len(),
        forall|i: int| 0 <= i < ours.len() ==> ours[i].transactions == theirs[i].transactions,
    ensures
        replay_blocks(ledger, ours) == replay_blocks(ledger, theirs),
    decreases ours.len(),
{
    if ours.len() > 0 {
        lemma_replay_blocks_reads_transfers(ledger, ours.drop_last(), theirs.drop_last());
    }
}

/// What the count of matured challenges at the head of a queue is: all
/// before it have matured, and the one at it, if there is one, has not.
pub proof fn lemma_matured_prefix(pending: Seq<FraudChallenge>, now: nat, timeout: nat)
    ensures
        matured_prefix(pending, now, timeout) <= pending.len(),
        forall|i: int|
            0 <= i < matured_prefix(pending, now, timeout) ==> (#[trigger] pending[i]).matured(
                now,
                timeout,
            ),
        matured_prefix(pending, now, timeout) < pending.len() ==> !pending[matured_prefix(
            pending,
            now,
            timeout,
        ) as int].matured(now, timeout),
    decreases pending.len(),
{
    if pending.len() > 0 && pending.first().matured(now, timeout) {
        let rest = pending.drop_first();
        lemma_matured_prefix(rest, now, timeout);
        assert forall|i: int| 0 <= i < matured_prefix(pending, now, timeout) implies (
        #[trigger] pending[i]).matured(now, timeout) by {
            if i > 0 {
                assert(pending[i] == rest[i - 1]);
            }
        }
        let n = matured_prefix(rest, now, timeout);
        if n < rest.len() {
            assert(pending[n as int + 1] == rest[n as int]);
        }
    }
}

impl VerifierModel {
    /// A verdict rests on the baseline, the transfers and the claims. The
    /// commitments of the blocks have no part in it.
    pub proof fn lemma_verdict_ignores_commitment(
        self,
        other: VerifierModel,
        challenge: FraudChallenge,
    )
        requires
            self.baseline == other.baseline,
            self.blocks.len() == other.blocks.len(),
            forall|i: int|
                0 <= i < self.blocks.len() ==> (#[trigger] self.blocks[i]).transactions
                    == other.blocks[i].transactions && self.blocks[i].post_state
                    == other.blocks[i].post_state,
            self.in_bounds(challenge),
        ensures
            other.in_bounds(challenge),
            self.verdict(challenge) == other.verdict(challenge),
    {
        let position = challenge.block_number as int;
        assert(self.blocks[position].transactions == other.blocks[position].transactions);
        lemma_replay_blocks_reads_transfers(
            self.baseline_ledger(),
            self.blocks.take(position),
            other.blocks.take(position),
        );
    }

    /// Resolving the first `count` challenges and then the one at the head
    /// of what is left is resolving the first `count + 1`.
    pub proof fn lemma_resolve_one_more(self, count: int)
        requires
            0 <= count < self.pending.len(),
            self.in_bounds(self.pending[count]),
        ensures
            self.resolve_first(count).resolve_head() == self.resolve_first(count + 1),
    {
        let so_far = self.resolve_first(count);
        let challenge = self.pending[count];
        let position = challenge.block_number as int;
        assert(so_far.pending.first() == challenge);
        self.lemma_verdict_ignores_commitment(so_far, challenge);
        let next = so_far.resolve_head();
        let target = self.resolve_first(count + 1);
        assert(next.pending =~= target.pending);
        assert(next.resolved =~= target.resolved);
        assert forall|p: int| 0 <= p < self.blocks.len() implies next.blocks[p]
            == target.blocks[p] by {
            if self.condemns(p, count) {
                let i = choose|i: int|
                    0 <= i < count && (#[trigger] self.pending[i]).block_number == p
                        && !self.verdict(self.pending[i]);
                assert(0 <= i < count + 1 && self.pending[i].block_number == p && !self.verdict(
                    self.pending[i],
                ));
            }
            if self.condemns(p, count + 1) && !self.condemns(p, count) {
                let i = choose|i: int|
                    0 <= i < count + 1 && (#[trigger] self.pending[i]).block_number == p
                        && !self.verdict(self.pending[i]);
                assert(i == count);
            }
            if p == position && !self.verdict(challenge) {
                assert(0 <= count < count + 1 && self.pending[count].block_number == p
                    && !self.verdict(self.pending[count]));
            }
        }
        assert(next.blocks =~= target.blocks);
    }

    /// Resolving none of the challenges changes nothing.
    pub proof fn lemma_resolve_none(self)
        ensures
            self.resolve_first(0) == self,
    {
        let target = self.resolve_first(0);
        assert(target.pending =~= self.pending);
        assert(target.resolved =~= self.resolved);
        assert forall|p: int| 0 <= p < self.blocks.len() implies target.blocks[p]
            == self.blocks[p] by {
            assert(!self.condemns(p, 0));
        }
        assert(target.blocks =~= self.blocks);
    }
}

} // verus!
