//! Which batches are merged: a single batch that cannot be executed stops the merge.

use crate::backend::{Backend, Env};
use crate::concurrent_proposer::batches;
use crate::concurrent_proposer::common_highest::{CommonHighest, CommonHighestModel};
use crate::concurrent_proposer::cycling::{Cycling, CyclingModel};
use crate::concurrent_proposer::cycling_highest::{CyclingHighest, CyclingHighestModel};
use crate::simulation::TransactionAccessSimulationResult;
use crate::text;
use crate::transaction::{BlockchainError, PendingTransaction, TypedTransaction};
use vstd::prelude::*;
use vstd::string::*;

verus! {

/// Whether some transaction cannot go into the block.
pub open spec fn has_errors(sims: Seq<TransactionAccessSimulationResult>) -> bool {
    exists|i: int| 0 <= i < sims.len() && (#[trigger] sims[i]).errors@.len() > 0
}

/// Whether the simulation of a batch shows that the batch can be executed: it succeeded, and all
/// transactions can go into the block.
pub open spec fn passes(result: Result<Vec<TransactionAccessSimulationResult>, BlockchainError>) -> bool {
    result matches Ok(sims) && !has_errors(sims@)
}

/// Whether a batch is the first one that is not shown to be executable.
pub open spec fn first_rejected(
    results: Seq<Result<Vec<TransactionAccessSimulationResult>, BlockchainError>>,
    batch: int,
) -> bool {
    &&& 0 <= batch < results.len()
    &&& !passes(results[batch])
    &&& forall|j: int| 0 <= j < batch ==> passes(#[trigger] results[j])
}

/// Whether all batches are shown to be executable.
pub open spec fn none_rejected(
    results: Seq<Result<Vec<TransactionAccessSimulationResult>, BlockchainError>>,
) -> bool {
    forall|j: int| 0 <= j < results.len() ==> passes(#[trigger] results[j])
}

/// Whether an error is the one that a rejected batch gives: that of its simulation where the
/// simulation failed, and else the message that the batch is invalid.
pub open spec fn is_rejection(
    error: BlockchainError,
    result: Result<Vec<TransactionAccessSimulationResult>, BlockchainError>,
    batch: int,
) -> bool {
    match result {
        Ok(_) => is_invalid_batch(error, batch),
        Err(reason) => error == reason,
    }
}

/// Whether a batch is the first one that did not pass its test.
pub open spec fn first_failed(tests: Seq<Result<bool, BlockchainError>>, batch: int) -> bool {
    &&& 0 <= batch < tests.len()
    &&& tests[batch] != Ok::<bool, BlockchainError>(true)
    &&& forall|j: int| 0 <= j < batch ==> #[trigger] tests[j] == Ok::<bool, BlockchainError>(true)
}

/// Whether all batches passed their tests.
pub open spec fn none_failed(tests: Seq<Result<bool, BlockchainError>>) -> bool {
    forall|j: int| 0 <= j < tests.len() ==> #[trigger] tests[j] == Ok::<bool, BlockchainError>(true)
}

/// What is said about a batch that cannot be executed.
pub open spec fn invalid_message(batch: int) -> Seq<char> {
    "batch "@ + text::decimal(batch as nat) + " invalid"@
}

/// Whether an error says that a batch cannot be executed.
pub open spec fn is_invalid_batch(error: BlockchainError, batch: int) -> bool {
    error matches BlockchainError::Message(m) && m@ == invalid_message(batch)
}

/// The error that says that a batch cannot be executed.
pub fn invalid_batch(batch: usize) -> (r: BlockchainError)
    ensures
        is_invalid_batch(r, batch as int),
{
    let mut message = String::from_str("batch ");
    text::append_decimal(&mut message, batch);
    message.append(" invalid");
    assert(message@ =~= invalid_message(batch as int));
    BlockchainError::Message(message)
}

fn any_errors(sims: &Vec<TransactionAccessSimulationResult>) -> (r: bool)
    ensures
        r == has_errors(sims@),
{
    let mut i: usize = 0;
    while i < sims.len()
        invariant
            0 <= i <= sims@.len(),
            forall|j: int| 0 <= j < i ==> (#[trigger] sims@[j]).errors@.len() == 0,
        decreases sims@.len() - i,
    {
        if sims[i].errors.len() > 0 {
            assert(sims@[i as int].errors@.len() > 0);
            return true;
        }
        i = i + 1;
    }
    false
}

/// Whether the simulation of a batch failed or shows that the batch cannot be executed.
pub fn is_rejected(result: &Result<Vec<TransactionAccessSimulationResult>, BlockchainError>) -> (r: bool)
    ensures
        r == !passes(*result),
{
    match result {
        Ok(sims) => any_errors(sims),
        Err(_) => true,
    }
}

/// The error of the first batch that is not shown to be executable.
fn find_rejection(
    results: Vec<Result<Vec<TransactionAccessSimulationResult>, BlockchainError>>,
) -> (r: Option<BlockchainError>)
    ensures
        r is None <==> none_rejected(results@),
        r matches Some(e) ==> exists|i: int|
            #[trigger] first_rejected(results@, i) && is_rejection(e, results@[i], i),
{
    let ghost all = results@;
    let mut rest = results;
    let mut i: usize = 0;
    while i < rest.len()
        invariant
            all == results@,
            rest@ == all,
            0 <= i <= all.len(),
            forall|j: int| 0 <= j < i ==> passes(#[trigger] all[j]),
        decreases all.len() - i,
    {
        if is_rejected(&rest[i]) {
            assert(first_rejected(all, i as int));
            return match rest.swap_remove(i) {
                Err(e) => Some(e),
                Ok(_) => Some(invalid_batch(i)),
            };
        }
        i = i + 1;
    }
    None
}

/// The gas that a batch may use in its simulation: five times the proposer's part of the block.
pub fn batch_gas_limit(block_gas_limit: u64, number_batches: usize) -> (r: u64)
    requires
        0 < number_batches,
        (block_gas_limit as int / number_batches as int) * 5 <= u64::MAX,
    ensures
        r == (block_gas_limit as int / number_batches as int) * 5,
{
    block_gas_limit / (number_batches as u64) * 5
}

impl Backend {
    /// Starts a merge in which proposers take turns and fees go to the responsible proposer, unless
    /// a batch is not shown to be executable by its simulation.
    pub fn concurrent_proposers_strict_cycling(
        &self,
        batches: Vec<Vec<PendingTransaction>>,
        batch_sims: Vec<Result<Vec<TransactionAccessSimulationResult>, BlockchainError>>,
    ) -> (r: Result<Cycling, BlockchainError>)
        requires
            none_rejected(batch_sims@) ==> batch_sims@.len() == batches@.len() && batches@.len() > 0,
        ensures
            r is Ok <==> none_rejected(batch_sims@),
            r matches Ok(merge) ==> merge@ == CyclingModel::initial(true, batches::nested(batches@))
                && merge@.well_formed(),
            r matches Err(e) ==> exists|i: int|
                #[trigger] first_rejected(batch_sims@, i) && is_rejection(e, batch_sims@[i], i),
    {
        match find_rejection(batch_sims) {
            Some(e) => Err(e),
            None => Ok(Cycling::new(true, batches)),
        }
    }

    /// Starts a merge in which proposers take turns and keep the fees of their turns, unless a
    /// batch is not shown to be executable by its simulation.
    pub fn concurrent_proposers_cycling(
        &self,
        batches: Vec<Vec<PendingTransaction>>,
        batch_sims: Vec<Result<Vec<TransactionAccessSimulationResult>, BlockchainError>>,
    ) -> (r: Result<Cycling, BlockchainError>)
        requires
            none_rejected(batch_sims@) ==> batch_sims@.len() == batches@.len() && batches@.len() > 0,
        ensures
            r is Ok <==> none_rejected(batch_sims@),
            r matches Ok(merge) ==> merge@ == CyclingModel::initial(false, batches::nested(batches@))
                && merge@.well_formed(),
            r matches Err(e) ==> exists|i: int|
                #[trigger] first_rejected(batch_sims@, i) && is_rejection(e, batch_sims@[i], i),
    {
        match find_rejection(batch_sims) {
            Some(e) => Err(e),
            None => Ok(Cycling::new(false, batches)),
        }
    }

    /// Starts a merge by price with shared fees, unless a batch is not shown to be
    /// executable by its simulation.
    pub fn concurrent_proposers_common_cycling_highest(
        &self,
        batches: Vec<Vec<PendingTransaction>>,
        batch_sims: Vec<Result<Vec<TransactionAccessSimulationResult>, BlockchainError>>,
        env: &Env,
    ) -> (r: Result<CommonHighest, BlockchainError>)
        requires
            none_rejected(batch_sims@) ==> batch_sims@.len() == batches@.len(),
        ensures
            r is Ok <==> none_rejected(batch_sims@),
            r matches Ok(merge) ==> merge@ == CommonHighestModel::initial(
                env.block_env.basefee as u128,
                batches::nested(batches@),
            ) && merge@.well_formed(),
            r matches Err(e) ==> exists|i: int|
                #[trigger] first_rejected(batch_sims@, i) && is_rejection(e, batch_sims@[i], i),
    {
        match find_rejection(batch_sims) {
            Some(e) => Err(e),
            None => Ok(CommonHighest::new(env.block_env.basefee as u128, batches)),
        }
    }

    /// Whether a batch can be executed, by the simulation of the batch.
    pub fn test_batch(
        &self,
        batch_result: Result<Vec<TransactionAccessSimulationResult>, BlockchainError>,
    ) -> (r: Result<bool, BlockchainError>)
        ensures
            match batch_result {
                Ok(sims) => r == Ok::<bool, BlockchainError>(!has_errors(sims@)),
                Err(e) => r == Err::<bool, BlockchainError>(e),
            },
    {
        match batch_result {
            Ok(sims) => Ok(!any_errors(&sims)),
            Err(e) => Err(e),
        }
    }

    /// Starts a merge by price and share, unless a batch did not pass its test.
    pub fn concurrent_proposers_cycling_highest(
        &self,
        batches: Vec<Vec<TypedTransaction>>,
        batch_tests: Vec<Result<bool, BlockchainError>>,
        env: &Env,
        blob_gas_limit: u64,
    ) -> (r: Result<CyclingHighest, BlockchainError>)
        requires
            none_failed(batch_tests@) ==> batch_tests@.len() == batches@.len() && batches@.len() > 0,
            none_failed(batch_tests@) ==> forall|i: int, j: int|
                0 <= i < batches@.len() && 0 <= j < batches@[i]@.len() ==> (
                #[trigger] batches@[i]@[j]).signer is Some,
        ensures
            r is Ok <==> none_failed(batch_tests@),
            r matches Ok(merge) ==> merge@ == CyclingHighestModel::initial(
                env.block_env.gas_limit,
                blob_gas_limit,
                env.block_env.basefee as u128,
                batches::nested(batches@),
            ) && merge@.well_formed(),
            r matches Err(e) ==> exists|i: int|
                #[trigger] first_failed(batch_tests@, i) && match batch_tests@[i] {
                    Ok(_) => is_invalid_batch(e, i),
                    Err(reason) => e == reason,
                },
    {
        let ghost all = batch_tests@;
        let mut tests = batch_tests;
        let mut i: usize = 0;
        while i < tests.len()
            invariant
                all == batch_tests@,
                tests@ == all,
                0 <= i <= all.len(),
                forall|j: int| 0 <= j < i ==> #[trigger] all[j] == Ok::<bool, BlockchainError>(true),
            decreases all.len() - i,
        {
            match &tests[i] {
                Ok(true) => {},
                Ok(false) => {
                    assert(first_failed(all, i as int));
                    return Err(invalid_batch(i));
                },
                Err(_) => {
                    assert(first_failed(all, i as int));
                    let reason = tests.swap_remove(i);
                    match reason {
                        Err(e) => {
                            return Err(e);
                        },
                        Ok(_) => {
                            return Err(invalid_batch(i));
                        },
                    }
                },
            }
            i = i + 1;
        }
        Ok(
            CyclingHighest::new(
                env.block_env.gas_limit,
                blob_gas_limit,
                env.block_env.basefee as u128,
                batches,
            ),
        )
    }
}

/// A merge starts exactly where the simulation of every batch succeeded without an error of any
/// transaction. Else it is the first other batch that counts: the failure of its simulation is handed
/// on, and a transaction with errors is told by the number of the batch.
pub proof fn law_one_bad_batch_stops_the_merge(
    results: Seq<Result<Vec<TransactionAccessSimulationResult>, BlockchainError>>,
    batch: int,
    error: BlockchainError,
)
    ensures
        none_rejected(results) <==> forall|j: int|
            0 <= j < results.len() ==> (#[trigger] results[j] matches Ok(sims) && forall|k: int|
                0 <= k < sims@.len() ==> (#[trigger] sims@[k]).errors@.len() == 0),
        first_rejected(results, batch) && is_rejection(error, results[batch], batch) ==> {
            &&& 0 <= batch < results.len()
            &&& forall|j: int|
                0 <= j < batch ==> (#[trigger] results[j] matches Ok(sims) && forall|k: int|
                    0 <= k < sims@.len() ==> (#[trigger] sims@[k]).errors@.len() == 0)
            &&& results[batch] matches Err(reason) ==> error == reason
            &&& results[batch] matches Ok(sims) ==> {
                &&& exists|k: int| 0 <= k < sims@.len() && (#[trigger] sims@[k]).errors@.len() > 0
                &&& error matches BlockchainError::Message(m) && m@ == "batch "@ + text::decimal(batch as nat)
                    + " invalid"@
            }
        },
{
    assert forall|j: int| 0 <= j < results.len() implies (passes(results[j]) <==> (
    #[trigger] results[j] matches Ok(sims) && forall|k: int|
        0 <= k < sims@.len() ==> (#[trigger] sims@[k]).errors@.len() == 0)) by {
        if let Ok(sims) = results[j] {
            if !has_errors(sims@) {
                assert forall|k: int| 0 <= k < sims@.len() implies (#[trigger] sims@[k]).errors@.len() == 0 by {}
            }
        }
    }
}

/// The tests of batches decide in the same way: the first one that failed or found errors counts.
pub proof fn law_one_failed_test_stops_the_merge(tests: Seq<Result<bool, BlockchainError>>, batch: int)
    ensures
        none_failed(tests) <==> forall|j: int|
            0 <= j < tests.len() ==> (#[trigger] tests[j] matches Ok(passed) && passed),
        first_failed(tests, batch) ==> {
            &&& 0 <= batch < tests.len()
            &&& !(tests[batch] matches Ok(passed) && passed)
            &&& forall|j: int| 0 <= j < batch ==> (#[trigger] tests[j] matches Ok(passed) && passed)
        },
{
}

} // verus!
