//! Rollup blocks: a batch of transfers with the ledger their author claims
//! they lead to.

use crate::ledger::{State, Transaction};
use vstd::prelude::*;

verus! {

/// A batch of transfers, the ledger claimed to result from them, and
/// whether that claim currently stands.
#[derive(Debug)]
pub struct RollupBlock {
    /// The number its author gave it. Blocks are expected to be numbered
    /// from zero in the order in which they are submitted; the log knows a
    /// block by its position, which is then its number.
    pub block_number: u64,
    /// The transfers of the block, in their order.
    pub transactions: Vec<Transaction>,
    /// The whole ledger that the author claims to result from applying the
    /// transfers, in order, to the ledger at the end of the block before.
    pub post_state: State,
    /// Whether the claim stands. A block comes in committed; a challenge
    /// that is resolved against it takes the commitment for good.
    pub committed: bool,
}

/// What a block says, as plain mathematical values.
pub struct BlockModel {
    pub block_number: u64,
    pub transactions: Seq<Transaction>,
    pub post_state: Map<u64, nat>,
    pub committed: bool,
}

impl View for RollupBlock {
    type V = BlockModel;

    open spec fn view(&self) -> BlockModel {
        BlockModel {
            block_number: self.block_number,
            transactions: self.transactions@,
            post_state: self.post_state@,
            committed: self.committed,
        }
    }
}

impl Clone for RollupBlock {
    fn clone(&self) -> (copy: RollupBlock)
        ensures
            copy@ == self@,
    {
        let copy = RollupBlock {
            block_number: self.block_number,
            transactions: self.transactions.clone(),
            post_state: self.post_state.clone(),
            committed: self.committed,
        };
        assert(copy.transactions@ =~= self.transactions@);
        copy
    }
}

impl BlockModel {
    /// The same block with its claim struck down.
    pub open spec fn condemned(self) -> BlockModel {
        BlockModel { committed: false, ..self }
    }
}

/// The models of a log of blocks, in order.
pub open spec fn block_models(blocks: Seq<RollupBlock>) -> Seq<BlockModel> {
    blocks.map_values(|b: RollupBlock| b@)
}

} // verus!
