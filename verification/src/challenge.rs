//! Fraud challenges: the claim that one transfer of one block does not lead
//! to the ledger which that block asserts.

use vstd::prelude::*;

verus! {

/// A challenge against one transfer of one block.
#[derive(Clone, Copy, Debug)]
pub struct FraudChallenge {
    /// The position in the log of the block that is challenged.
    pub block_number: u64,
    /// The position in that block of the transfer that is disputed.
    pub tx_index: usize,
    /// Who raised the challenge.
    pub challenger: u64,
    /// What the clock read when the challenge was raised.
    pub time: u64,
    /// The outcome: unset while the challenge waits; once it is resolved,
    /// `Some(true)` where the block was found correct and `Some(false)`
    /// where fraud was found.
    pub valid: Option<bool>,
}

impl FraudChallenge {
    /// The challenge with its outcome recorded.
    pub open spec fn resolved_as(self, valid: bool) -> FraudChallenge {
        FraudChallenge { valid: Some(valid), ..self }
    }

    /// The waiting time is over: `timeout` ticks or more have passed at
    /// `now` since the challenge was raised.
    pub open spec fn matured(self, now: nat, timeout: nat) -> bool {
        now - self.time >= timeout
    }

    /// Whether the waiting time is over at `now`.
    pub fn is_matured(&self, now: u64, timeout: u64) -> (over: bool)
        ensures
            over == self.matured(now as nat, timeout as nat),
    {
        now >= self.time && now - self.time >= timeout
    }
}

} // verus!
