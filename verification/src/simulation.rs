//! What a simulation of transactions finds out.

use crate::fixed_bytes::{Address, TxHash};
use crate::num::{I512, U256};
use crate::table::Table;
use crate::transaction::SimulationError;
use vstd::prelude::*;

verus! {

/// What the simulation of one transaction found out.
pub struct TransactionAccessSimulationResult {
    pub hash: TxHash,
    /// the storage slots that were touched, by account
    pub accesses: Table<20, Vec<U256>>,
    /// the storage slots whose value changed, by account
    pub writes: Table<20, Vec<U256>>,
    /// the ether that an account gained or lost by transfers
    pub transfer_diffs: Table<20, I512>,
    /// whether the transaction can go into the block and succeeds
    pub success: bool,
    /// why the transaction cannot go into the block
    pub errors: Vec<SimulationError>,
    pub gas_used: u64,
    pub blob_gas_used: u64,
    /// the part of the fees that nobody gets
    pub burned_ether: U256,
    /// the part of the fees that the proposer gets
    pub priority_fee: U256,
    pub sender: Address,
    pub coinbase: Address,
    pub effective_gas_price: u128,
    /// the most that the transaction's gas can cost
    pub max_gas_cost: u128,
    /// the nonces that accounts must have for the transaction, the sender's first
    pub nonces_required: Vec<(Address, u64)>,
    /// the nonces that accounts can have after the transaction
    pub nonces_possible: Vec<(Address, u64)>,
}

/// What a `TransactionAccessSimulationResult` says, with numbers in place of their digits.
#[verifier::ext_equal]
pub struct SimulationModel {
    pub hash: TxHash,
    pub accesses: Map<Address, Seq<nat>>,
    pub writes: Map<Address, Seq<nat>>,
    pub transfer_diffs: Map<Address, int>,
    pub success: bool,
    pub errors: Seq<SimulationError>,
    pub gas_used: u64,
    pub blob_gas_used: u64,
    pub burned_ether: nat,
    pub priority_fee: nat,
    pub sender: Address,
    pub coinbase: Address,
    pub effective_gas_price: u128,
    pub max_gas_cost: u128,
    pub nonces_required: Seq<(Address, u64)>,
    pub nonces_possible: Seq<(Address, u64)>,
}

/// The slots of accounts as numbers.
pub open spec fn slot_numbers(slots: Map<Address, Vec<U256>>) -> Map<Address, Seq<nat>> {
    slots.map_values(|list: Vec<U256>| list@.map_values(|x: U256| x@))
}

impl View for TransactionAccessSimulationResult {
    type V = SimulationModel;

    open spec fn view(&self) -> SimulationModel {
        SimulationModel {
            hash: self.hash,
            accesses: slot_numbers(self.accesses@),
            writes: slot_numbers(self.writes@),
            transfer_diffs: self.transfer_diffs@.map_values(|diff: I512| diff@),
            success: self.success,
            errors: self.errors@,
            gas_used: self.gas_used,
            blob_gas_used: self.blob_gas_used,
            burned_ether: self.burned_ether@,
            priority_fee: self.priority_fee@,
            sender: self.sender,
            coinbase: self.coinbase,
            effective_gas_price: self.effective_gas_price,
            max_gas_cost: self.max_gas_cost,
            nonces_required: self.nonces_required@,
            nonces_possible: self.nonces_possible@,
        }
    }
}

} // verus!
