//! What a merge hands back once its block was mined.

use crate::concurrent_proposer::common_highest::CommonHighest;
use crate::concurrent_proposer::cycling::Cycling;
use crate::concurrent_proposer::cycling_highest::CyclingHighest;
use crate::concurrent_proposer::fees;
use crate::fixed_bytes::TxHash;
use crate::num::U256;
use crate::simulation::TransactionAccessSimulationResult;
use crate::transaction::TransactionExecutionOutcome;
use std::collections::HashMap;
use vstd::prelude::*;

verus! {

/// What is known of a block that was mined.
#[derive(Clone, Copy, Debug)]
pub struct MinedBlockOutcome {
    pub block_number: u64,
}

/// The result of a merge whose priority fees are given to the proposers.
pub struct CommonAggregationOutput {
    /// the number of the block that was mined
    pub block_number: u64,
    /// the mined block
    pub block: MinedBlockOutcome,
    /// the simulation of all included transactions
    pub block_sim: Vec<TransactionAccessSimulationResult>,
    /// the transactions that failed and were not included into the block
    pub failed_transactions: Vec<(TxHash, TransactionExecutionOutcome)>,
    /// the priority fees of each proposer
    pub priority_fees_per_proposer: Vec<U256>,
}

/// The result of a merge by price and share.
pub struct CyclingHighestOutput {
    /// the number of the block that was mined
    pub block_number: u64,
    /// the mined block
    pub block: MinedBlockOutcome,
    /// the simulation of all included transactions
    pub block_sim: Vec<TransactionAccessSimulationResult>,
    /// the transactions that failed and were not included into the block
    pub failed_transactions: Vec<(TxHash, TransactionExecutionOutcome)>,
    /// the gas that each proposer is credited with
    pub gas_usage_per_batch: HashMap<usize, u128>,
}

/// The numbers that wide integers stand for.
pub open spec fn amounts(v: Seq<U256>) -> Seq<nat> {
    v.map_values(|x: U256| x@)
}

impl Cycling {
    /// The result of the merge, given the mined block and the simulation of its transactions.
    pub fn into_output(
        self,
        mined: MinedBlockOutcome,
        block_sim: Vec<TransactionAccessSimulationResult>,
    ) -> (r: CommonAggregationOutput)
        ensures
            r.block_number == mined.block_number,
            r.block == mined,
            r.block_sim == block_sim,
            r.failed_transactions@ == self@.failing,
            amounts(r.priority_fees_per_proposer@) == self@.fees,
    {
        let (failed_transactions, priority_fees_per_proposer) = self.into_parts();
        CommonAggregationOutput {
            block_number: mined.block_number,
            block: mined,
            block_sim,
            failed_transactions,
            priority_fees_per_proposer,
        }
    }
}

impl CommonHighest {
    /// Whether the fees of a block can be shared by the gas that the proposers are credited with.
    pub fn can_share_fees(&self, block_sim: &Vec<TransactionAccessSimulationResult>) -> (r: bool)
        ensures
            r == fees::shares_defined(
                fees::total_priority_fees(block_sim@, block_sim@.len() as int),
                self@.gas_contributed,
            ),
    {
        fees::can_share(fees::sum_priority_fees(block_sim), self.gas_contributed())
    }

    /// The result of the merge, given the mined block and the simulation of its transactions, whose
    /// priority fees are shared.
    pub fn into_output(
        self,
        mined: MinedBlockOutcome,
        block_sim: Vec<TransactionAccessSimulationResult>,
    ) -> (r: CommonAggregationOutput)
        requires
            fees::shares_defined(
                fees::total_priority_fees(block_sim@, block_sim@.len() as int),
                self@.gas_contributed,
            ),
        ensures
            r.block_number == mined.block_number,
            r.block == mined,
            r.block_sim == block_sim,
            r.failed_transactions@ == self@.failing,
            amounts(r.priority_fees_per_proposer@) == fees::shares(
                fees::total_priority_fees(block_sim@, block_sim@.len() as int),
                self@.gas_contributed,
            ),
    {
        let total_prio_fees = fees::sum_priority_fees(&block_sim);
        let (failed_transactions, gas_contributed) = self.into_parts();
        let priority_fees_per_proposer = fees::share_priority_fees(total_prio_fees, &gas_contributed);
        CommonAggregationOutput {
            block_number: mined.block_number,
            block: mined,
            block_sim,
            failed_transactions,
            priority_fees_per_proposer,
        }
    }
}

impl CyclingHighest {
    /// The result of the merge, given the mined block and the simulation of its transactions.
    pub fn into_output(
        self,
        mined: MinedBlockOutcome,
        block_sim: Vec<TransactionAccessSimulationResult>,
    ) -> (r: CyclingHighestOutput)
        ensures
            r.block_number == mined.block_number,
            r.block == mined,
            r.block_sim == block_sim,
            r.failed_transactions@ == self@.failing,
            r.gas_usage_per_batch@ == self@.gas_usage,
    {
        let (failed_transactions, gas_usage_per_batch) = self.into_parts();
        CyclingHighestOutput {
            block_number: mined.block_number,
            block: mined,
            block_sim,
            failed_transactions,
            gas_usage_per_batch,
        }
    }
}

/// The amounts of a list stand in the order of the list.
pub proof fn law_amounts_keep_their_order(v: Seq<U256>, i: int)
    ensures
        amounts(v).len() == v.len(),
        0 <= i < v.len() ==> amounts(v)[i] == v[i]@,
{
}

} // verus!
