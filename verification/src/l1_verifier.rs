//! The verifier: the clock, the block log, the challenge queue, and the
//! resolution of challenges by replay.

use crate::baseline::Baseline;
use crate::block::{block_models, RollupBlock};
use crate::challenge::FraudChallenge;
use crate::error::VerifierError;
use crate::ledger::{lemma_bounded_supply_credit_fits, State};
use crate::model::{lemma_matured_prefix, lemma_replay_blocks_step, VerifierModel};
use crate::replay::{lemma_bounded_supply_replay_fits, replay_transactions};
use crate::supply::{lemma_supply_empty, supply};
use std::collections::VecDeque;
use vstd::prelude::*;

verus! {

/// The settlement authority. It accepts blocks as given, takes challenges
/// against them, and when a challenge has waited long enough decides it by
/// replay.
pub struct L1Verifier {
    time: u64,
    blocks: Vec<RollupBlock>,
    challenges: VecDeque<FraudChallenge>,
    resolved_challenges: Vec<FraudChallenge>,
    challenge_timeout: u64,
    initial_state: Option<Baseline>,
}

impl View for L1Verifier {
    type V = VerifierModel;

    closed spec fn view(&self) -> VerifierModel {
        VerifierModel {
            time: self.time as nat,
            blocks: block_models(self.blocks@),
            pending: self.challenges@,
            resolved: self.resolved_challenges@,
            timeout: self.challenge_timeout as nat,
            baseline: match self.initial_state {
                Some(baseline) => Some(baseline@),
                None => None,
            },
        }
    }
}

impl L1Verifier {
    /// A verifier at time zero, with an empty log and an empty queue, that
    /// lets each challenge wait `timeout` ticks.
    pub fn new(timeout: u64) -> (verifier: L1Verifier)
        ensures
            verifier@ == VerifierModel::initial(timeout as nat),
    {
        let verifier = L1Verifier {
            time: 0,
            blocks: Vec::new(),
            challenges: VecDeque::new(),
            resolved_challenges: Vec::new(),
            challenge_timeout: timeout,
            initial_state: None,
        };
        assert(verifier@.blocks =~= Seq::empty());
        verifier
    }

    /// The clock's reading.
    pub fn time(&self) -> (now: u64)
        ensures
            now == self@.time,
    {
        self.time
    }

    /// How long a challenge waits before it is resolved.
    pub fn challenge_timeout(&self) -> (timeout: u64)
        ensures
            timeout == self@.timeout,
    {
        self.challenge_timeout
    }

    /// The block log, with each block's commitment as it stands now.
    pub fn blocks(&self) -> (log: &Vec<RollupBlock>)
        ensures
            block_models(log@) == self@.blocks,
    {
        &self.blocks
    }

    /// The challenges that were resolved, in the order of their resolution.
    pub fn resolved_challenges(&self) -> (log: &Vec<FraudChallenge>)
        ensures
            log@ == self@.resolved,
    {
        &self.resolved_challenges
    }

    /// A copy of the baseline, once the first block has fixed it.
    pub fn baseline(&self) -> (ledger: Option<State>)
        ensures
            ledger is Some == self@.baseline is Some,
            ledger matches Some(state) ==> Some(state@) == self@.baseline,
    {
        match &self.initial_state {
            Some(baseline) => Some(baseline.ledger()),
            None => None,
        }
    }

    /// How many challenges wait.
    pub fn pending_challenges(&self) -> (count: usize)
        ensures
            count == self@.pending.len(),
    {
        self.challenges.len()
    }

    /// Puts `challenge` at the end of the queue, as it is: whether it names
    /// a block and a transfer that exist is not looked at here.
    pub fn submit_challenge(&mut self, challenge: FraudChallenge)
        ensures
            final(self)@ == old(self)@.submit_challenge(challenge),
    {
        self.challenges.push_back(challenge);
    }

    /// Appends `block` to the log. The first block fixes the baseline, once
    /// and for all: its claimed ledger with its transfers taken back.
    pub fn submit_block(&mut self, block: RollupBlock)
        requires
            old(self)@.accepts(block@),
        ensures
            final(self)@ == old(self)@.submit_block(block@),
    {
        if self.blocks.len() == 0 {
            self.initial_state = Some(Baseline::derive(&block.post_state, &block.transactions));
        }
        self.blocks.push(block);
        assert(self@.blocks =~= old(self)@.blocks.push(block@));
    }

    /// As `submit_block`, for any block: where the baseline that a first
    /// block would fix is not machine-sized, the block is turned down and
    /// nothing changes.
    pub fn try_submit_block(&mut self, block: RollupBlock) -> (outcome: Result<(), VerifierError>)
        ensures
            outcome is Ok == old(self)@.accepts(block@),
            outcome is Ok ==> final(self)@ == old(self)@.submit_block(block@),
            outcome matches Err(reason) ==> reason == VerifierError::SupplyOverflow
                && final(self)@ == old(self)@,
    {
        if self.blocks.len() == 0 {
            match Baseline::try_derive(&block.post_state, &block.transactions) {
                Some(baseline) => {
                    self.initial_state = Some(baseline);
                },
                None => {
                    return Err(VerifierError::SupplyOverflow);
                },
            }
        }
        self.blocks.push(block);
        assert(self@.blocks =~= old(self)@.blocks.push(block@));
        Ok(())
    }

    /// The ledger at the boundary before the block at position
    /// `upto_block`: the baseline with every transfer of every earlier block
    /// replayed in order. A transfer that is not covered when its turn
    /// comes is passed over; whether a block is committed plays no part.
    pub fn reconstruct_state(&self, upto_block: u64) -> (state: State)
        requires
            upto_block <= self@.blocks.len(),
        ensures
            state@ == self@.state_before(upto_block as int),
            supply(state@) <= u64::MAX,
    {
        let mut state = match &self.initial_state {
            Some(baseline) => baseline.ledger(),
            None => State::new(),
        };
        proof {
            lemma_supply_empty();
        }
        let upto = upto_block as usize;
        let mut position: usize = 0;
        assert(self@.blocks.take(0) =~= Seq::empty());
        while position < upto
            invariant
                position <= upto <= self.blocks.len(),
                state@ == self@.state_before(position as int),
                supply(state@) <= u64::MAX,
            decreases upto - position,
        {
            proof {
                state.lemma_finite();
                lemma_bounded_supply_replay_fits(state@, self.blocks[position as int].transactions@);
                lemma_replay_blocks_step(
                    self@.baseline_ledger(),
                    self@.blocks,
                    position as int,
                );
            }
            replay_transactions(&mut state, &self.blocks[position].transactions);
            position += 1;
        }
        state
    }

    /// Whether `challenge` names a block of the log and a transfer of that
    /// block.
    pub fn is_well_formed(&self, challenge: &FraudChallenge) -> (well_formed: bool)
        ensures
            well_formed == self@.in_bounds(*challenge),
    {
        if challenge.block_number >= self.blocks.len() as u64 {
            return false;
        }
        let position = challenge.block_number as usize;
        assert(self@.blocks[position as int] == self.blocks[position as int]@);
        challenge.tx_index < self.blocks[position].transactions.len()
    }

    /// Decides `challenge`: whether the disputed transfer, applied alone to
    /// the ledger before its block, is covered and gives exactly the ledger
    /// that the block claims, entry for entry.
    pub fn adjudicate(&self, challenge: &FraudChallenge) -> (valid: bool)
        requires
            self@.in_bounds(*challenge),
        ensures
            valid == self@.verdict(*challenge),
    {
        assert(self@.blocks.len() == self.blocks.len());
        let position = challenge.block_number as usize;
        assert(self@.blocks[position as int] == self.blocks[position as int]@);
        let block = &self.blocks[position];
        let mut test_state = self.reconstruct_state(challenge.block_number);
        let disputed = &block.transactions[challenge.tx_index];
        proof {
            test_state.lemma_finite();
            lemma_bounded_supply_credit_fits(test_state@, *disputed);
        }
        let applied = test_state.apply_tx(disputed);
        applied && test_state.same_balances(&block.post_state)
    }

    /// The resolution pass. While the challenge at the head of the queue
    /// has waited long enough, it is taken out, decided, and put on the
    /// resolved log with its verdict; a block found wrong loses its
    /// commitment. The pass ends at the first challenge that has not waited
    /// long enough, whatever waits behind it.
    pub fn process_challenges(&mut self)
        requires
            old(self)@.resolvable(),
        ensures
            final(self)@ == old(self)@.resolve(),
    {
        let ghost start = self@;
        let ghost mut done: int = 0;
        proof {
            start.lemma_resolve_none();
            lemma_matured_prefix(start.pending, start.time, start.timeout);
        }
        loop
            invariant_except_break
                0 <= done <= start.due(),
                self@ == start.resolve_first(done),
            invariant
                start.resolvable(),
                start.due() <= start.pending.len(),
                forall|i: int|
                    0 <= i < start.due() ==> (#[trigger] start.pending[i]).matured(
                        start.time,
                        start.timeout,
                    ),
                start.due() < start.pending.len() ==> !start.pending[start.due() as int].matured(
                    start.time,
                    start.timeout,
                ),
            ensures
                self@ == start.resolve(),
            decreases self.challenges.len(),
        {
            if self.challenges.len() == 0 {
                break;
            }
            let head = self.challenges[0];
            if !head.is_matured(self.time, self.challenge_timeout) {
                break;
            }
            proof {
                assert(head == start.pending[done]);
                start.lemma_verdict_ignores_commitment(self@, head);
                start.lemma_resolve_one_more(done);
            }
            let _ = self.challenges.pop_front();
            let valid = self.adjudicate(&head);
            let mut challenge = head;
            challenge.valid = Some(valid);
            self.resolved_challenges.push(challenge);
            if !valid {
                assert(self@.blocks.len() == self.blocks.len());
                let position = head.block_number as usize;
                let ghost before = self.blocks@;
                self.blocks[position].committed = false;
                assert(self.blocks@ =~= before.update(
                    position as int,
                    RollupBlock { committed: false, ..before[position as int] },
                ));
                assert(self@.blocks =~= block_models(before).update(
                    position as int,
                    block_models(before)[position as int].condemned(),
                ));
            }
            proof {
                assert(self@.pending =~= start.resolve_first(done).resolve_head().pending);
                done = done + 1;
            }
        }
    }

    /// Moves the clock on by `ticks` and makes a resolution pass. With no
    /// ticks the clock stays and the pass is made all the same.
    pub fn advance_time(&mut self, ticks: u64)
        requires
            old(self)@.advance_error(ticks as nat) is None,
        ensures
            final(self)@ == old(self)@.advance(ticks as nat),
    {
        self.time += ticks;
        self.process_challenges();
    }

    /// As `advance_time`, for any number of ticks and any queue: where the
    /// clock would pass its limit, or a challenge that would be due is
    /// malformed, nothing changes and the reason is returned.
    pub fn try_advance_time(&mut self, ticks: u64) -> (outcome: Result<(), VerifierError>)
        ensures
            match outcome {
                Ok(()) => old(self)@.advance_error(ticks as nat) is None
                    && final(self)@ == old(self)@.advance(ticks as nat),
                Err(reason) => old(self)@.advance_error(ticks as nat) == Some(reason)
                    && final(self)@ == old(self)@,
            },
    {
        let now = match self.time.checked_add(ticks) {
            Some(now) => now,
            None => {
                return Err(VerifierError::ClockOverflow);
            },
        };
        let ghost moved = self@.tick(ticks as nat);
        proof {
            lemma_matured_prefix(moved.pending, moved.time, moved.timeout);
        }
        let mut i: usize = 0;
        while i < self.challenges.len() && self.challenges[i].is_matured(now, self.challenge_timeout)
            invariant
                self@ == old(self)@,
                moved == self@.tick(ticks as nat),
                now == moved.time,
                i <= self.challenges.len(),
                i <= moved.due() <= moved.pending.len(),
                forall|j: int| 0 <= j < i ==> moved.in_bounds(#[trigger] moved.pending[j]),
                forall|j: int|
                    0 <= j < moved.due() ==> (#[trigger] moved.pending[j]).matured(
                        moved.time,
                        moved.timeout,
                    ),
                moved.due() < moved.pending.len() ==> !moved.pending[moved.due() as int].matured(
                    moved.time,
                    moved.timeout,
                ),
            decreases self.challenges.len() - i,
        {
            let challenge = self.challenges[i];
            if !self.is_well_formed(&challenge) {
                return Err(VerifierError::MalformedChallenge);
            }
            i += 1;
        }
        self.advance_time(ticks);
        Ok(())
    }
}

} // verus!
