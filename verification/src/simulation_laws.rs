//! What simulations report does not depend on anything but the transaction and its run.

use crate::execution_state;
use crate::execution_state::StateModel;
use crate::fixed_bytes::{Address, FixedBytes, TxHash};
use crate::num;
use crate::simulation::{SimulationModel, TransactionAccessSimulationResult};
use crate::trace;
use crate::trace::{RunModel, TraceNode, TransactionRun};
use crate::transaction::{BlockchainError, Hashed, PendingTransaction, SimulationError};
use vstd::prelude::*;

verus! {

/// Transactions, each with what its run left behind.
pub open spec fn with_runs(txs: Seq<PendingTransaction>, runs: Seq<TransactionRun>) -> Seq<
    (PendingTransaction, RunModel),
> {
    Seq::new(txs.len(), |i: int| (txs[i], runs[i]@))
}

/// Whether transactions with the same hash are the same and left the same behind.
pub open spec fn hashes_tell_apart(txs: Seq<PendingTransaction>, runs: Seq<TransactionRun>) -> bool {
    forall|i: int, j: int|
        0 <= i < txs.len() && 0 <= j < txs.len() && (#[trigger] txs[i]).id() == (
        #[trigger] txs[j]).id() ==> txs[i] == txs[j] && runs[i]@ == runs[j]@
}

/// What the results of a table say.
pub open spec fn said(results: Map<TxHash, TransactionAccessSimulationResult>) -> Map<
    TxHash,
    SimulationModel,
> {
    results.map_values(|result: TransactionAccessSimulationResult| result@)
}

proof fn lemma_same_slots(a: Seq<(Address, Vec<FixedBytes<32>>)>, b: Seq<(Address, Vec<FixedBytes<32>>)>)
    requires
        trace::slot_lists(a) == trace::slot_lists(b),
    ensures
        trace::slot_pairs(a) == trace::slot_pairs(b),
    decreases a.len(),
{
    assert(trace::slot_lists(a).len() == a.len() && trace::slot_lists(b).len() == b.len());
    if a.len() > 0 {
        assert forall|i: int| 0 <= i < a.len() implies #[trigger] a[i].0 == b[i].0 && a[i].1@ == b[i].1@ by {
            assert(trace::slot_lists(a)[i] == trace::slot_lists(b)[i]);
        }
        assert(trace::slot_lists(a.drop_last()) =~= trace::slot_lists(b.drop_last()));
        lemma_same_slots(a.drop_last(), b.drop_last());
    }
}

proof fn lemma_same_steps(a: TraceNode, b: TraceNode, count: int)
    requires
        a.execution_address == b.execution_address,
        a.steps@ == b.steps@,
    ensures
        trace::node_changes(a, count) == trace::node_changes(b, count),
    decreases count,
{
    if count > 0 {
        lemma_same_steps(a, b, count - 1);
    }
}

proof fn lemma_same_changes(a: Seq<TraceNode>, b: Seq<TraceNode>)
    requires
        trace::step_lists(a) == trace::step_lists(b),
    ensures
        trace::all_changes(a) == trace::all_changes(b),
    decreases a.len(),
{
    assert(trace::step_lists(a).len() == a.len() && trace::step_lists(b).len() == b.len());
    if a.len() > 0 {
        assert forall|i: int| 0 <= i < a.len() implies #[trigger] a[i].execution_address
            == b[i].execution_address && a[i].steps@ == b[i].steps@ by {
            assert(trace::step_lists(a)[i] == trace::step_lists(b)[i]);
        }
        assert(trace::step_lists(a.drop_last()) =~= trace::step_lists(b.drop_last()));
        lemma_same_changes(a.drop_last(), b.drop_last());
        lemma_same_steps(a.last(), b.last(), a.last().steps@.len() as int);
    }
}

/// Reports on runs that left the same behind say the same.
proof fn lemma_same_report(
    a: TransactionAccessSimulationResult,
    b: TransactionAccessSimulationResult,
    tx: PendingTransaction,
    run: TransactionRun,
    again: TransactionRun,
    errors: Seq<SimulationError>,
    coinbase: Address,
)
    requires
        execution_state::reports(a, tx, run, errors, coinbase),
        execution_state::reports(b, tx, again, errors, coinbase),
        run@ == again@,
    ensures
        a@ == b@,
{
    lemma_same_slots(run.touched_slots@, again.touched_slots@);
    lemma_same_changes(run.nodes@, again.nodes@);
    assert forall|account: Address|
        {
            &&& #[trigger] a@.accesses.contains_key(account) <==> b@.accesses.contains_key(account)
            &&& a@.accesses.contains_key(account) ==> a@.accesses[account] == b@.accesses[account]
        } by {
        assert(a.accesses@.contains_key(account) <==> b.accesses@.contains_key(account));
    }
    assert(a@.accesses =~= b@.accesses);
    assert forall|account: Address|
        {
            &&& #[trigger] a@.writes.contains_key(account) <==> b@.writes.contains_key(account)
            &&& a@.writes.contains_key(account) ==> a@.writes[account] == b@.writes[account]
        } by {
        assert(a.writes@.contains_key(account) <==> b.writes@.contains_key(account));
    }
    assert(a@.writes =~= b@.writes);
    assert forall|account: Address|
        {
            &&& #[trigger] a@.transfer_diffs.contains_key(account) <==> b@.transfer_diffs.contains_key(
                account,
            )
            &&& a@.transfer_diffs.contains_key(account) ==> a@.transfer_diffs[account]
                == b@.transfer_diffs[account]
        } by {
        assert(a.transfer_diffs@.contains_key(account) <==> b.transfer_diffs@.contains_key(account));
    }
    assert(a@.transfer_diffs =~= b@.transfer_diffs);
}

/// Of the transactions with the same hash there is a last one.
proof fn lemma_last_with_hash(txs: Seq<PendingTransaction>, i: int) -> (k: int)
    requires
        0 <= i < txs.len(),
    ensures
        i <= k < txs.len(),
        txs[k].id() == txs[i].id(),
        execution_state::last_with_hash(txs, k),
    decreases txs.len() - i,
{
    if execution_state::last_with_hash(txs, i) {
        i
    } else {
        let j = choose|j: int| i < j < txs.len() && (#[trigger] txs[j]).id() == txs[i].id();
        lemma_last_with_hash(txs, j)
    }
}

/// A transaction that is simulated individually gets the report that it gets from the simulation of
/// this transaction alone, whatever else is simulated beside it.
pub proof fn law_individual_simulations_stand_alone(
    state: StateModel,
    txs: Seq<PendingTransaction>,
    runs: Seq<TransactionRun>,
    results: Map<TxHash, TransactionAccessSimulationResult>,
    i: int,
    run: TransactionRun,
    alone: TransactionAccessSimulationResult,
)
    requires
        txs.len() == runs.len(),
        hashes_tell_apart(txs, runs),
        state.simulates_individually(txs, runs, results),
        0 <= i < txs.len(),
        run@ == runs[i]@,
        state.simulates_alone(txs[i], run, alone),
    ensures
        results.contains_key(txs[i].id()),
        results[txs[i].id()]@ == alone@,
{
    let k = lemma_last_with_hash(txs, i);
    assert(txs[k] == txs[i] && runs[k]@ == runs[i]@);
    let result = results[txs[k].id()];
    assert(state.simulates_alone(txs[k], runs[k], result));
    assert(runs[k]@.validation_errors == run@.validation_errors);
    lemma_same_report(
        result,
        alone,
        txs[i],
        runs[k],
        run,
        result.errors@,
        state.env.block_env.beneficiary,
    );
}

/// The place of a transaction in another order of the same transactions and runs.
proof fn lemma_other_place(
    txs: Seq<PendingTransaction>,
    runs: Seq<TransactionRun>,
    others: Seq<PendingTransaction>,
    other_runs: Seq<TransactionRun>,
    i: int,
) -> (k: int)
    requires
        with_runs(txs, runs).to_multiset() == with_runs(others, other_runs).to_multiset(),
        0 <= i < txs.len(),
    ensures
        0 <= k < others.len(),
        others[k] == txs[i],
        other_runs[k]@ == runs[i]@,
{
    let a = with_runs(txs, runs);
    let b = with_runs(others, other_runs);
    a.to_multiset_ensures();
    b.to_multiset_ensures();
    assert(a.contains(a[i]));
    assert(a.to_multiset().count(a[i]) > 0);
    assert(b.contains(a[i]));
    let k = choose|k: int| 0 <= k < b.len() && b[k] == a[i];
    assert(b[k] == (others[k], other_runs[k]@));
    k
}

/// The order in which transactions are simulated individually does not matter: the same transactions
/// with the same runs in another order get the same reports.
pub proof fn law_individual_simulations_ignore_the_order(
    state: StateModel,
    txs: Seq<PendingTransaction>,
    runs: Seq<TransactionRun>,
    results: Map<TxHash, TransactionAccessSimulationResult>,
    others: Seq<PendingTransaction>,
    other_runs: Seq<TransactionRun>,
    other_results: Map<TxHash, TransactionAccessSimulationResult>,
)
    requires
        txs.len() == runs.len(),
        others.len() == other_runs.len(),
        with_runs(txs, runs).to_multiset() == with_runs(others, other_runs).to_multiset(),
        hashes_tell_apart(txs, runs),
        state.simulates_individually(txs, runs, results),
        state.simulates_individually(others, other_runs, other_results),
    ensures
        said(results) == said(other_results),
{
    assert forall|hash: TxHash|
        {
            &&& #[trigger] results.contains_key(hash) <==> other_results.contains_key(hash)
            &&& results.contains_key(hash) ==> results[hash]@ == other_results[hash]@
        } by {
        if results.contains_key(hash) {
            let i = choose|i: int| 0 <= i < txs.len() && (#[trigger] txs[i]).id() == hash;
            let k = lemma_other_place(txs, runs, others, other_runs, i);
            assert(others[k].id() == hash);
            let last = lemma_last_with_hash(others, k);
            let here = lemma_other_place(others, other_runs, txs, runs, last);
            assert(txs[here].id() == hash);
            law_individual_simulations_stand_alone(
                state,
                txs,
                runs,
                results,
                here,
                other_runs[last],
                other_results[hash],
            );
        }
        if other_results.contains_key(hash) {
            let i = choose|i: int| 0 <= i < others.len() && (#[trigger] others[i]).id() == hash;
            let k = lemma_other_place(others, other_runs, txs, runs, i);
            assert(txs[k].id() == hash);
        }
    }
    assert(said(results) =~= said(other_results));
}

/// The blob gas of a transaction, zero where its type has none.
pub open spec fn blob_gas(tx: PendingTransaction) -> int {
    match tx.transaction.blob_gas {
        Some(gas) => gas as int,
        None => 0,
    }
}

/// Whether some gas is more than is left below a limit. The largest limit stands for any amount.
pub open spec fn exceeds(used: int, more: int, limit: u64) -> bool {
    used + more > limit && limit < u64::MAX
}

/// The reasons against a transaction are first those of its validation, in their order; then that the
/// gas of the block is exhausted, exactly where its gas limit does not fit; and then that the blob gas
/// is, exactly where its blobs do not fit.
pub proof fn law_reasons_are_complete(
    tx: PendingTransaction,
    validation_errors: Seq<SimulationError>,
    blob_gas_used: u64,
    blob_gas_limit: u64,
    gas_used: u64,
    gas_limit: u64,
)
    ensures
        ({
            let reasons = execution_state::includability(
                tx,
                validation_errors,
                blob_gas_used,
                blob_gas_limit,
                gas_used,
                gas_limit,
            );
            let gas = exceeds(gas_used as int, tx.transaction.gas_limit as int, gas_limit);
            let blobs = exceeds(blob_gas_used as int, blob_gas(tx), blob_gas_limit);
            let n = validation_errors.len() as int;
            &&& reasons.len() >= n
            &&& reasons.take(n) == validation_errors
            &&& reasons.len() == n + (if gas {
                1int
            } else {
                0
            }) + (if blobs {
                1int
            } else {
                0
            })
            &&& gas ==> reasons[n] == SimulationError::BlockGasExhausted
            &&& blobs ==> reasons.last() == SimulationError::BlockBlobGasExhausted
        }),
{
    let reasons = execution_state::includability(
        tx,
        validation_errors,
        blob_gas_used,
        blob_gas_limit,
        gas_used,
        gas_limit,
    );
    assert(reasons.take(validation_errors.len() as int) =~= validation_errors);
}

/// The state counts the gas of executions and the blob gas of the executed transactions, held at the
/// largest value, checks the next transaction against what was counted, and keeps its limits.
pub proof fn law_state_counts_executions(
    state: StateModel,
    tx: PendingTransaction,
    gas_used: u64,
    next: PendingTransaction,
    validation_errors: Seq<SimulationError>,
)
    ensures
        ({
            let after = state.executed(tx, gas_used);
            &&& after.env == state.env
            &&& after.blob_gas_limit == state.blob_gas_limit
            &&& after.gas_used == if state.gas_used + gas_used <= u64::MAX {
                state.gas_used + gas_used
            } else {
                u64::MAX as int
            }
            &&& after.blob_gas_used == if state.blob_gas_used + blob_gas(tx) <= u64::MAX {
                state.blob_gas_used + blob_gas(tx)
            } else {
                u64::MAX as int
            }
            &&& after.errors(next, validation_errors) == execution_state::includability(
                next,
                validation_errors,
                after.blob_gas_used,
                state.blob_gas_limit,
                after.gas_used,
                state.env.block_env.gas_limit,
            )
        }),
{
}

/// What the simulation of a transaction reports is read off its run: it succeeds where nothing speaks
/// against it and its execution succeeded; all that was spent on gas is the proposer's part, the part
/// that nobody gets and what was paid back; accesses, writes and transfers are those of the run.
pub proof fn law_report_is_read_off_the_run(
    result: TransactionAccessSimulationResult,
    tx: PendingTransaction,
    run: TransactionRun,
    errors: Seq<SimulationError>,
    coinbase: Address,
)
    requires
        execution_state::reports(result, tx, run, errors, coinbase),
    ensures
        result.hash == tx.transaction.hash,
        result.sender == tx.sender,
        result.coinbase == coinbase,
        result.max_gas_cost == tx.transaction.max_cost,
        result.blob_gas_used == blob_gas(tx),
        result.errors@ == errors,
        result.success <==> errors.len() == 0 && run.success,
        result.gas_used == run.gas_used,
        result.nonces_required@ == run.required_nonces@,
        result.nonces_possible@ == run.possible_nonces@,
        trace::is_access_set(result.accesses@, run.touched_slots@),
        trace::is_write_set(result.writes@, run.nodes@),
        trace::is_transfer_diffs(result.transfer_diffs@, run.transfers@),
        run.gas_fees matches Some(fees) ==> {
            &&& result.priority_fee@ == fees.proposer_reward@
            &&& result.effective_gas_price == fees.effective_gas_price
            &&& (result.burned_ether@ + fees.proposer_reward@ + fees.caller_gas_refund@)
                % num::u256_modulus() == fees.caller_gas_spending@ % num::u256_modulus()
        },
        run.gas_fees is None ==> result.priority_fee@ == 0 && result.effective_gas_price == 0
            && result.burned_ether@ == 0,
{
    if let Some(fees) = run.gas_fees {
        crate::trace_laws::law_fees_add_up_in_256_bits(fees);
    }
}

/// The gas that the first runs used.
pub open spec fn gas_of_runs(runs: Seq<Result<TransactionRun, BlockchainError>>, count: int) -> nat
    decreases count,
{
    if count <= 0 {
        0
    } else {
        gas_of_runs(runs, count - 1) + runs[count - 1]->Ok_0.gas_used as nat
    }
}

/// The blob gas of the first transactions.
pub open spec fn blob_gas_of(txs: Seq<PendingTransaction>, count: int) -> int
    decreases count,
{
    if count <= 0 {
        0
    } else {
        blob_gas_of(txs, count - 1) + blob_gas(txs[count - 1])
    }
}

proof fn lemma_counts(
    txs: Seq<PendingTransaction>,
    runs: Seq<Result<TransactionRun, BlockchainError>>,
    count: int,
)
    ensures
        execution_state::gas_before(runs, count) == if gas_of_runs(runs, count) <= u64::MAX {
            gas_of_runs(runs, count) as int
        } else {
            u64::MAX as int
        },
        execution_state::blob_gas_before(txs, count) == if blob_gas_of(txs, count) <= u64::MAX {
            blob_gas_of(txs, count)
        } else {
            u64::MAX as int
        },
        blob_gas_of(txs, count) >= 0,
    decreases count,
{
    if count > 0 {
        lemma_counts(txs, runs, count - 1);
    }
}

/// Transactions that are simulated in turn are checked against the gas that those before them in the
/// same simulation used, and against nothing that was executed before: each has one report, with the
/// reasons of its validation first.
pub proof fn law_simulations_count_from_zero(
    state: StateModel,
    txs: Seq<PendingTransaction>,
    runs: Seq<Result<TransactionRun, BlockchainError>>,
    gas_limit: u64,
    results: Seq<TransactionAccessSimulationResult>,
    i: int,
)
    requires
        state.simulates(txs, runs, gas_limit, results),
        0 <= i < txs.len(),
    ensures
        ({
            let run = runs[i]->Ok_0;
            let result = results[i];
            let n = run.validation_errors@.len() as int;
            let gas = exceeds(gas_of_runs(runs, i) as int, txs[i].transaction.gas_limit as int, gas_limit);
            let blobs = exceeds(blob_gas_of(txs, i), blob_gas(txs[i]), state.blob_gas_limit);
            &&& results.len() == txs.len()
            &&& execution_state::reports(
                result,
                txs[i],
                run,
                result.errors@,
                state.env.block_env.beneficiary,
            )
            &&& result.errors@.len() == n + (if gas {
                1int
            } else {
                0
            }) + (if blobs {
                1int
            } else {
                0
            })
            &&& result.errors@.take(n) == run.validation_errors@
            &&& gas ==> result.errors@[n] == SimulationError::BlockGasExhausted
            &&& blobs ==> result.errors@.last() == SimulationError::BlockBlobGasExhausted
        }),
{
    let run = runs[i]->Ok_0;
    assert(execution_state::reports(
        results[i],
        txs[i],
        run,
        state.simulated_errors(txs, runs, gas_limit, i),
        state.env.block_env.beneficiary,
    ));
    lemma_counts(txs, runs, i);
    law_reasons_are_complete(
        txs[i],
        run.validation_errors@,
        execution_state::blob_gas_before(txs, i),
        state.blob_gas_limit,
        execution_state::gas_before(runs, i),
        gas_limit,
    );
}

/// A transaction that is simulated alone is checked against the whole block.
pub proof fn law_single_simulations_have_the_whole_block(
    state: StateModel,
    tx: PendingTransaction,
    run: TransactionRun,
    result: TransactionAccessSimulationResult,
)
    requires
        state.simulates_alone(tx, run, result),
    ensures
        ({
            let n = run.validation_errors@.len() as int;
            let gas = exceeds(0, tx.transaction.gas_limit as int, state.env.block_env.gas_limit);
            let blobs = exceeds(0, blob_gas(tx), state.blob_gas_limit);
            &&& execution_state::reports(result, tx, run, result.errors@, state.env.block_env.beneficiary)
            &&& result.errors@.take(n) == run.validation_errors@
            &&& result.errors@.len() == n + (if gas {
                1int
            } else {
                0
            }) + (if blobs {
                1int
            } else {
                0
            })
            &&& gas ==> result.errors@[n] == SimulationError::BlockGasExhausted
            &&& blobs ==> result.errors@.last() == SimulationError::BlockBlobGasExhausted
        }),
{
    law_reasons_are_complete(
        tx,
        run.validation_errors@,
        0,
        state.blob_gas_limit,
        0,
        state.env.block_env.gas_limit,
    );
}

/// A simulation in turn fails exactly where some run failed, and it is the first one of those that counts.
pub proof fn law_first_failure_counts(runs: Seq<Result<TransactionRun, BlockchainError>>, at: int)
    ensures
        execution_state::first_failure(runs, at) <==> {
            &&& 0 <= at < runs.len()
            &&& runs[at] is Err
            &&& forall|j: int| 0 <= j < at ==> (#[trigger] runs[j]) is Ok
        },
        (exists|k: int| #[trigger] execution_state::first_failure(runs, k)) <==> exists|k: int|
            0 <= k < runs.len() && (#[trigger] runs[k]) is Err,
{
    if exists|k: int| 0 <= k < runs.len() && (#[trigger] runs[k]) is Err {
        let k = choose|k: int| 0 <= k < runs.len() && (#[trigger] runs[k]) is Err;
        lemma_first_failure(runs, k);
    }
    if exists|k: int| #[trigger] execution_state::first_failure(runs, k) {
        let k = choose|k: int| #[trigger] execution_state::first_failure(runs, k);
        assert(runs[k] is Err);
    }
}

proof fn lemma_first_failure(runs: Seq<Result<TransactionRun, BlockchainError>>, k: int)
    requires
        0 <= k < runs.len(),
        runs[k] is Err,
    ensures
        exists|at: int| #[trigger] execution_state::first_failure(runs, at),
    decreases k,
{
    if forall|j: int| 0 <= j < k ==> (#[trigger] runs[j]) is Ok {
        assert(execution_state::first_failure(runs, k));
    } else {
        let j = choose|j: int| 0 <= j < k && !((#[trigger] runs[j]) is Ok);
        lemma_first_failure(runs, j);
    }
}

/// Of several transactions with the same hash that are simulated individually, the report on the last one
/// is kept.
pub proof fn law_last_report_is_kept(
    state: StateModel,
    txs: Seq<PendingTransaction>,
    runs: Seq<TransactionRun>,
    results: Map<TxHash, TransactionAccessSimulationResult>,
    i: int,
)
    requires
        state.simulates_individually(txs, runs, results),
        0 <= i < txs.len(),
        forall|k: int| i < k < txs.len() ==> (#[trigger] txs[k]).transaction.hash != txs[i].transaction.hash,
    ensures
        results.contains_key(txs[i].transaction.hash),
        state.simulates_alone(txs[i], runs[i], results[txs[i].transaction.hash]),
{
    assert(txs[i].id() == txs[i].transaction.hash);
    assert(execution_state::last_with_hash(txs, i));
}

/// Exactly the transactions of the list have a report.
pub proof fn law_each_transaction_has_a_report(
    state: StateModel,
    txs: Seq<PendingTransaction>,
    runs: Seq<TransactionRun>,
    results: Map<TxHash, TransactionAccessSimulationResult>,
    hash: TxHash,
)
    requires
        state.simulates_individually(txs, runs, results),
    ensures
        results.contains_key(hash) <==> exists|i: int|
            0 <= i < txs.len() && (#[trigger] txs[i]).transaction.hash == hash,
{
    if results.contains_key(hash) {
        let i = choose|i: int| 0 <= i < txs.len() && (#[trigger] txs[i]).id() == hash;
        assert(txs[i].transaction.hash == hash);
    }
    if exists|i: int| 0 <= i < txs.len() && (#[trigger] txs[i]).transaction.hash == hash {
        let i = choose|i: int| 0 <= i < txs.len() && (#[trigger] txs[i]).transaction.hash == hash;
        assert(txs[i].id() == hash);
    }
}

} // verus!
