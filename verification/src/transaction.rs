//! Transactions, what can be wrong with them, and what becomes of them.

use crate::fixed_bytes::{Address, TxHash};
use crate::num::U256;
use vstd::prelude::*;

verus! {

/// What the rules of this crate read of a signed transaction.
#[derive(Clone, Copy, Debug)]
pub struct TypedTransaction {
    pub hash: TxHash,
    /// the account that the signature belongs to, where the signature is valid
    pub signer: Option<Address>,
    /// the number of the transaction's type
    pub tx_type: u8,
    pub gas_limit: u64,
    /// the gas price, or the most that is paid for gas where the type has a base fee
    pub gas_price: u128,
    /// the most that is paid on top of the base fee
    pub gas_priority_fee: Option<u128>,
    /// the gas of the transaction's blobs, where its type has any
    pub blob_gas: Option<u64>,
    /// the ether that is sent along
    pub value: U256,
    /// the most that the transaction's gas can cost
    pub max_cost: u128,
}

/// A transaction together with the account that sent it.
#[derive(Clone, Copy, Debug)]
pub struct PendingTransaction {
    pub transaction: TypedTransaction,
    pub sender: Address,
}

/// Why a transaction is not valid.
#[derive(Clone, Copy, Debug, PartialEq, Eq, Structural)]
pub enum InvalidTransactionError {
    /// the nonce lies above the next nonce of the sender
    NonceTooHigh,
    /// the sender cannot pay for the transaction
    InsufficientFunds,
    /// any other reason, by the number under which the caller knows it
    Other(u64),
}

/// Why a transaction cannot go into the block.
#[derive(Clone, Copy, Debug, PartialEq, Eq, Structural)]
pub enum SimulationError {
    InvalidTransaction(InvalidTransactionError),
    BlockGasExhausted,
    BlockBlobGasExhausted,
}

/// What became of a transaction that did not go into the block.
#[derive(Clone, Copy, Debug)]
pub enum TransactionExecutionOutcome {
    /// the transaction is not valid
    Invalid(PendingTransaction, InvalidTransactionError),
    /// the block has too little gas left
    BlockGasExhausted(PendingTransaction),
    /// the block has too little blob gas left
    BlobGasExhausted(PendingTransaction),
    /// the state could not be read, by the number under which the caller knows the error
    DatabaseError(PendingTransaction, u64),
}

/// Why a transaction could not be executed.
#[derive(Clone, Copy, Debug)]
pub enum TransactError {
    /// the state could not be read, by the number under which the caller knows the error
    Database(u64),
    /// the transaction is not valid
    Transaction(InvalidTransactionError),
}

impl TransactError {
    /// What the error means for the fate of a transaction.
    pub open spec fn outcome(self, tx: PendingTransaction) -> TransactionExecutionOutcome {
        match self {
            TransactError::Database(e) => TransactionExecutionOutcome::DatabaseError(tx, e),
            TransactError::Transaction(e) => TransactionExecutionOutcome::Invalid(tx, e),
        }
    }

    /// What the error means for the fate of a transaction.
    pub fn into_outcome(self, tx: PendingTransaction) -> (r: TransactionExecutionOutcome)
        ensures
            r == self.outcome(tx),
    {
        match self {
            TransactError::Database(e) => TransactionExecutionOutcome::DatabaseError(tx, e),
            TransactError::Transaction(e) => TransactionExecutionOutcome::Invalid(tx, e),
        }
    }
}

/// Why a request cannot be met.
#[derive(Debug)]
pub enum BlockchainError {
    Message(String),
    TransactionNotFound,
    /// any other reason, by the number under which the caller knows it
    Other(u64),
}

/// The gas price that a transaction pays at a base fee.
///
/// Types without a base fee (numbers 0 and 1) pay their gas price. The others pay the base fee and
/// their priority fee, but at most their gas price.
pub open spec fn effective_price(tx: TypedTransaction, base_fee: u128) -> u128 {
    if tx.tx_type == 0 || tx.tx_type == 1 {
        tx.gas_price
    } else {
        match tx.gas_priority_fee {
            None => tx.gas_price,
            Some(fee) => if base_fee + fee < tx.gas_price {
                (base_fee + fee) as u128
            } else {
                tx.gas_price
            },
        }
    }
}

/// `effective_gas_price` of `revm::context::Transaction` for a `revm::context::TxEnv`: the gas price
/// for the types 0 and 1 and for a transaction without a priority fee, and else the smaller of the
/// gas price and the sum of base fee and priority fee, a sum that is held at the largest `u128`.
#[verifier::external_body]
fn tx_env_effective_gas_price(
    tx_type: u8,
    gas_price: u128,
    gas_priority_fee: Option<u128>,
    base_fee: u128,
) -> (r: u128)
    ensures
        tx_type == 0 || tx_type == 1 || gas_priority_fee is None ==> r == gas_price,
        tx_type != 0 && tx_type != 1 ==> (gas_priority_fee matches Some(fee) ==> r == if base_fee + fee
            < gas_price {
            (base_fee + fee) as u128
        } else {
            gas_price
        }),
{
    let env = revm::context::TxEnv { tx_type, gas_price, gas_priority_fee, ..Default::default() };
    revm::context::Transaction::effective_gas_price(&env, base_fee)
}

/// Something that is told apart by the hash of a transaction.
pub trait Hashed: Copy {
    /// The hash of the transaction.
    spec fn id(self) -> TxHash;

    /// The hash of the transaction.
    fn hash(&self) -> (r: TxHash)
        ensures
            r == self.id(),
    ;
}

impl Hashed for TypedTransaction {
    open spec fn id(self) -> TxHash {
        self.hash
    }

    fn hash(&self) -> (r: TxHash) {
        self.hash
    }
}

impl Hashed for PendingTransaction {
    open spec fn id(self) -> TxHash {
        self.transaction.hash
    }

    fn hash(&self) -> (r: TxHash) {
        self.transaction.hash
    }
}

impl TypedTransaction {
    /// The gas price that the transaction pays at a base fee.
    pub fn effective_gas_price(&self, base_fee: u128) -> (r: u128)
        ensures
            r == effective_price(*self, base_fee),
    {
        tx_env_effective_gas_price(self.tx_type, self.gas_price, self.gas_priority_fee, base_fee)
    }

    /// The gas of the transaction's blobs, zero where it has none.
    pub open spec fn blob_gas_or_zero(self) -> u64 {
        match self.blob_gas {
            Some(gas) => gas,
            None => 0,
        }
    }

    /// The gas of the transaction's blobs, zero where it has none.
    pub fn blob_gas_used(&self) -> (r: u64)
        ensures
            r == self.blob_gas_or_zero(),
    {
        match self.blob_gas {
            Some(gas) => gas,
            None => 0,
        }
    }
}

impl PendingTransaction {
    /// The transaction with the account that signed it, where the signature is valid.
    pub fn new(transaction: TypedTransaction) -> (r: Option<PendingTransaction>)
        ensures
            r is Some <==> transaction.signer is Some,
            r matches Some(p) ==> p.transaction == transaction && Some(p.sender) == transaction.signer,
    {
        match transaction.signer {
            Some(sender) => Some(PendingTransaction { transaction, sender }),
            None => None,
        }
    }
}

impl SimulationError {
    /// What the error means for the fate of a transaction.
    pub open spec fn outcome(self, tx: PendingTransaction) -> TransactionExecutionOutcome {
        match self {
            SimulationError::InvalidTransaction(e) => TransactionExecutionOutcome::Invalid(tx, e),
            SimulationError::BlockGasExhausted => TransactionExecutionOutcome::BlockGasExhausted(tx),
            SimulationError::BlockBlobGasExhausted => TransactionExecutionOutcome::BlobGasExhausted(tx),
        }
    }

    /// What the error means for the fate of a transaction.
    pub fn into_outcome(self, tx: PendingTransaction) -> (r: TransactionExecutionOutcome)
        ensures
            r == self.outcome(tx),
    {
        match self {
            SimulationError::InvalidTransaction(e) => TransactionExecutionOutcome::Invalid(tx, e),
            SimulationError::BlockGasExhausted => TransactionExecutionOutcome::BlockGasExhausted(tx),
            SimulationError::BlockBlobGasExhausted => TransactionExecutionOutcome::BlobGasExhausted(tx),
        }
    }
}

/// A transaction never pays more than its gas price. One of a type with a base fee pays the smaller of
/// its gas price and the base fee with its priority fee on top, and any other one pays its gas price.
pub proof fn law_effective_price(tx: TypedTransaction, base_fee: u128)
    ensures
        ({
            let price = effective_price(tx, base_fee);
            &&& price <= tx.gas_price
            &&& tx.tx_type <= 1 || tx.gas_priority_fee is None ==> price == tx.gas_price
            &&& tx.tx_type >= 2 ==> (tx.gas_priority_fee matches Some(fee) ==> {
                &&& price <= base_fee + fee
                &&& price == tx.gas_price || price == base_fee + fee
            })
        }),
{
}

/// What becomes of a transaction tells why: that it is not valid, with the reason, or which gas of the
/// block is exhausted, or with which number the state could not be read.
pub proof fn law_outcomes_tell_the_reason(tx: PendingTransaction, e: InvalidTransactionError, code: u64)
    ensures
        SimulationError::InvalidTransaction(e).outcome(tx) == TransactionExecutionOutcome::Invalid(tx, e),
        SimulationError::BlockGasExhausted.outcome(tx) == TransactionExecutionOutcome::BlockGasExhausted(tx),
        SimulationError::BlockBlobGasExhausted.outcome(tx) == TransactionExecutionOutcome::BlobGasExhausted(tx),
        TransactError::Transaction(e).outcome(tx) == TransactionExecutionOutcome::Invalid(tx, e),
        TransactError::Database(code).outcome(tx) == TransactionExecutionOutcome::DatabaseError(tx, code),
{
}

} // verus!
