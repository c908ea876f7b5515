//! Executing and simulating transactions on top of a block that is being built.

use crate::backend::Env;
use crate::fixed_bytes::{Address, TxHash};
use crate::num;
use crate::simulation::TransactionAccessSimulationResult;
use crate::table::Table;
use crate::trace;
use crate::trace::{GasFees, TransactionRun};
use crate::transaction::{
    BlockchainError, Hashed, PendingTransaction, SimulationError, TransactError,
    TransactionExecutionOutcome,
};
use vstd::prelude::*;

verus! {

/// The reasons why a transaction cannot go into the block: those of its validation, and then those
/// of the block's limits.
pub open spec fn includability(
    tx: PendingTransaction,
    validation_errors: Seq<SimulationError>,
    blob_gas_used: u64,
    blob_gas_limit: u64,
    gas_used: u64,
    gas_limit: u64,
) -> Seq<SimulationError> {
    let with_gas = if num::u64_sat_add(gas_used, tx.transaction.gas_limit) > gas_limit {
        validation_errors.push(SimulationError::BlockGasExhausted)
    } else {
        validation_errors
    };
    if num::u64_sat_add(blob_gas_used, tx.transaction.blob_gas_or_zero()) > blob_gas_limit {
        with_gas.push(SimulationError::BlockBlobGasExhausted)
    } else {
        with_gas
    }
}

/// The gas that runs used, held at the largest value.
pub open spec fn gas_before(runs: Seq<Result<TransactionRun, BlockchainError>>, count: int) -> u64
    decreases count,
{
    if count <= 0 {
        0
    } else {
        num::u64_sat_add(gas_before(runs, count - 1), runs[count - 1]->Ok_0.gas_used)
    }
}

/// The blob gas of transactions, held at the largest value.
pub open spec fn blob_gas_before(txs: Seq<PendingTransaction>, count: int) -> u64
    decreases count,
{
    if count <= 0 {
        0
    } else {
        num::u64_sat_add(
            blob_gas_before(txs, count - 1),
            txs[count - 1].transaction.blob_gas_or_zero(),
        )
    }
}

/// Whether a result reports what a run of a transaction left behind.
pub open spec fn reports(
    result: TransactionAccessSimulationResult,
    tx: PendingTransaction,
    run: TransactionRun,
    errors: Seq<SimulationError>,
    coinbase: Address,
) -> bool {
    &&& result.hash == tx.id()
    &&& trace::is_access_set(result.accesses@, run.touched_slots@)
    &&& trace::is_write_set(result.writes@, run.nodes@)
    &&& trace::is_transfer_diffs(result.transfer_diffs@, run.transfers@)
    &&& result.success == (errors.len() == 0 && run.success)
    &&& result.errors@ == errors
    &&& result.gas_used == run.gas_used
    &&& result.blob_gas_used == tx.transaction.blob_gas_or_zero()
    &&& exists|fees: GasFees| #[trigger]
        trace::is_fees_or_zero(run.gas_fees, fees) && result.burned_ether@ == trace::burned(fees)
            && result.priority_fee@ == fees.proposer_reward@ && result.effective_gas_price
            == fees.effective_gas_price
    &&& result.sender == tx.sender
    &&& result.coinbase == coinbase
    &&& result.max_gas_cost == tx.transaction.max_cost
    &&& result.nonces_required == run.required_nonces
    &&& result.nonces_possible == run.possible_nonces
}

/// Whether the run at a place is the first one that failed.
pub open spec fn first_failure(runs: Seq<Result<TransactionRun, BlockchainError>>, at: int) -> bool {
    &&& 0 <= at < runs.len()
    &&& runs[at] is Err
    &&& forall|j: int| 0 <= j < at ==> (#[trigger] runs[j]) is Ok
}

/// Whether runs were made for all transactions in turn, up to the first one that failed.
pub open spec fn runs_match(
    txs: Seq<PendingTransaction>,
    runs: Seq<Result<TransactionRun, BlockchainError>>,
) -> bool {
    &&& runs.len() <= txs.len()
    &&& runs.len() < txs.len() ==> exists|at: int| #[trigger] first_failure(runs, at)
}

/// Executes and simulates transactions as if they were part of the block that is being built.
///
/// The state holds what is counted: the limits of the block and the gas that was used so far.
pub struct SimulationExecutionState {
    env: Env,
    blob_gas_used: u64,
    blob_gas_limit: u64,
    gas_used: u64,
}

/// What a `SimulationExecutionState` holds.
pub struct StateModel {
    pub env: Env,
    pub blob_gas_used: u64,
    pub blob_gas_limit: u64,
    pub gas_used: u64,
}

impl View for SimulationExecutionState {
    type V = StateModel;

    closed spec fn view(&self) -> StateModel {
        StateModel {
            env: self.env,
            blob_gas_used: self.blob_gas_used,
            blob_gas_limit: self.blob_gas_limit,
            gas_used: self.gas_used,
        }
    }
}

impl StateModel {
    /// The reasons why a transaction cannot go into the block now.
    pub open spec fn errors(
        self,
        tx: PendingTransaction,
        validation_errors: Seq<SimulationError>,
    ) -> Seq<SimulationError> {
        includability(
            tx,
            validation_errors,
            self.blob_gas_used,
            self.blob_gas_limit,
            self.gas_used,
            self.env.block_env.gas_limit,
        )
    }

    /// The state after a transaction was executed.
    pub open spec fn executed(self, tx: PendingTransaction, gas_used: u64) -> StateModel {
        StateModel {
            gas_used: num::u64_sat_add(self.gas_used, gas_used),
            blob_gas_used: num::u64_sat_add(self.blob_gas_used, tx.transaction.blob_gas_or_zero()),
            ..self
        }
    }

    /// The reasons why the simulated transaction at a place cannot go into the block: the
    /// simulation counts gas from zero.
    pub open spec fn simulated_errors(
        self,
        txs: Seq<PendingTransaction>,
        runs: Seq<Result<TransactionRun, BlockchainError>>,
        gas_limit: u64,
        i: int,
    ) -> Seq<SimulationError> {
        includability(
            txs[i],
            runs[i]->Ok_0.validation_errors@,
            blob_gas_before(txs, i),
            self.blob_gas_limit,
            gas_before(runs, i),
            gas_limit,
        )
    }

    /// Whether results report what the runs of transactions left behind.
    pub open spec fn simulates(
        self,
        txs: Seq<PendingTransaction>,
        runs: Seq<Result<TransactionRun, BlockchainError>>,
        gas_limit: u64,
        results: Seq<TransactionAccessSimulationResult>,
    ) -> bool {
        &&& results.len() == txs.len()
        &&& forall|i: int|
            0 <= i < results.len() ==> reports(
                #[trigger] results[i],
                txs[i],
                runs[i]->Ok_0,
                self.simulated_errors(txs, runs, gas_limit, i),
                self.env.block_env.beneficiary,
            )
    }

    /// Whether a result reports what the run of a transaction left behind, where the transaction is
    /// simulated alone.
    pub open spec fn simulates_alone(
        self,
        tx: PendingTransaction,
        run: TransactionRun,
        result: TransactionAccessSimulationResult,
    ) -> bool {
        reports(
            result,
            tx,
            run,
            includability(
                tx,
                run.validation_errors@,
                0,
                self.blob_gas_limit,
                0,
                self.env.block_env.gas_limit,
            ),
            self.env.block_env.beneficiary,
        )
    }

    /// Whether a table holds, for exactly the transactions of a list, the report on the simulation of
    /// the transaction alone: that of the last one where several have the same hash.
    pub open spec fn simulates_individually(
        self,
        txs: Seq<PendingTransaction>,
        runs: Seq<TransactionRun>,
        results: Map<TxHash, TransactionAccessSimulationResult>,
    ) -> bool {
        &&& forall|hash: TxHash| #[trigger]
            results.contains_key(hash) <==> exists|i: int|
                0 <= i < txs.len() && (#[trigger] txs[i]).id() == hash
        &&& forall|i: int|
            0 <= i < txs.len() && last_with_hash(txs, i) ==> self.simulates_alone(
                #[trigger] txs[i],
                runs[i],
                results[txs[i].id()],
            )
    }
}

fn simulation_result(
    tx: &PendingTransaction,
    run: TransactionRun,
    errors: Vec<SimulationError>,
    coinbase: Address,
) -> (r: TransactionAccessSimulationResult)
    ensures
        reports(r, *tx, run, errors@, coinbase),
{
    let accesses = trace::access_set(&run.touched_slots);
    let writes = trace::write_set(&run.nodes);
    let transfer_diffs = trace::transfer_diffs(&run.transfers);
    let gas_fees = trace::fees_or_zero(run.gas_fees);
    TransactionAccessSimulationResult {
        hash: tx.hash(),
        accesses,
        writes,
        transfer_diffs,
        success: errors.len() == 0 && run.success,
        errors,
        gas_used: run.gas_used,
        blob_gas_used: tx.transaction.blob_gas_used(),
        burned_ether: trace::burned_fees(&gas_fees),
        priority_fee: gas_fees.proposer_reward,
        sender: tx.sender,
        coinbase,
        effective_gas_price: gas_fees.effective_gas_price,
        max_gas_cost: tx.transaction.max_cost,
        nonces_required: run.required_nonces,
        nonces_possible: run.possible_nonces,
    }
}

impl SimulationExecutionState {
    /// The state at the begin of a block.
    pub fn new(env: Env, blob_gas_limit: u64) -> (r: SimulationExecutionState)
        ensures
            r@ == (StateModel { env, blob_gas_used: 0, blob_gas_limit, gas_used: 0 }),
    {
        SimulationExecutionState { env, blob_gas_used: 0, blob_gas_limit, gas_used: 0 }
    }

    /// The gas limit of the block.
    pub fn gas_limit(&self) -> (r: u64)
        ensures
            r == self@.env.block_env.gas_limit,
    {
        self.env.block_env.gas_limit
    }

    /// The blob gas limit of the block.
    pub fn blob_gas_limit(&self) -> (r: u64)
        ensures
            r == self@.blob_gas_limit,
    {
        self.blob_gas_limit
    }

    /// The environment of the block.
    pub fn env(&self) -> (r: &Env)
        ensures
            *r == self@.env,
    {
        &self.env
    }

    /// The environment in which transactions are simulated on top of the block.
    pub fn simulation_env(&self) -> (r: Env)
        ensures
            r.block_env == self@.env.block_env,
            r.cfg_env == self@.env.cfg_env.unchecked(),
    {
        self.env.for_simulation()
    }

    /// The environment in which the transaction at a place of a simulation is validated: that of the
    /// block for the first one, and for those after it the one in which the simulation runs.
    pub fn validation_env(&self, place: usize) -> (r: Env)
        ensures
            place == 0 ==> r == self@.env,
            place > 0 ==> r.block_env == self@.env.block_env && r.cfg_env
                == self@.env.cfg_env.unchecked(),
    {
        if place == 0 {
            self.env
        } else {
            self.simulation_env()
        }
    }

    /// The reasons why a transaction cannot go into the block, given those that its validation found.
    pub fn check_includability(
        &self,
        tx: &PendingTransaction,
        validation_errors: Vec<SimulationError>,
    ) -> (r: Vec<SimulationError>)
        ensures
            r@ == self@.errors(*tx, validation_errors@),
    {
        Self::check_includability_inner(
            tx,
            validation_errors,
            self.blob_gas_used,
            self.blob_gas_limit(),
            self.gas_used,
            self.gas_limit(),
        )
    }

    /// The reasons why a transaction cannot go into a block with given limits, given those that its
    /// validation found.
    pub fn check_includability_inner(
        tx: &PendingTransaction,
        validation_errors: Vec<SimulationError>,
        blob_gas_used: u64,
        blob_gas_limit: u64,
        gas_used: u64,
        gas_limit: u64,
    ) -> (r: Vec<SimulationError>)
        ensures
            r@ == includability(
                *tx,
                validation_errors@,
                blob_gas_used,
                blob_gas_limit,
                gas_used,
                gas_limit,
            ),
    {
        let mut errors = validation_errors;
        let max_block_gas = gas_used.saturating_add(tx.transaction.gas_limit);
        if max_block_gas > gas_limit {
            errors.push(SimulationError::BlockGasExhausted);
        }
        let max_blob_gas = blob_gas_used.saturating_add(tx.transaction.blob_gas_used());
        if max_blob_gas > blob_gas_limit {
            errors.push(SimulationError::BlockBlobGasExhausted);
        }
        errors
    }

    /// Counts a transaction that was executed, or tells what became of it instead.
    pub fn execute_transaction(
        &mut self,
        tx: &PendingTransaction,
        result: Result<u64, TransactError>,
    ) -> (r: Result<(), TransactionExecutionOutcome>)
        ensures
            match result {
                Ok(gas_used) => r == Ok::<(), TransactionExecutionOutcome>(()) && final(self)@ == old(
                    self,
                )@.executed(*tx, gas_used),
                Err(e) => r == Err::<(), TransactionExecutionOutcome>(e.outcome(*tx)) && final(self)@
                    == old(self)@,
            },
    {
        match result {
            Err(e) => Err(e.into_outcome(*tx)),
            Ok(gas_used) => {
                self.gas_used = self.gas_used.saturating_add(gas_used);
                self.blob_gas_used = self.blob_gas_used.saturating_add(tx.transaction.blob_gas_used());
                Ok(())
            },
        }
    }

    /// What the simulation of one transaction found out, given the run of the transaction.
    pub fn simulate_transaction(
        &self,
        tx: PendingTransaction,
        run: Result<TransactionRun, BlockchainError>,
    ) -> (r: Result<TransactionAccessSimulationResult, BlockchainError>)
        ensures
            match run {
                Ok(run) => r matches Ok(result) && self@.simulates_alone(tx, run, result),
                Err(e) => r == Err::<TransactionAccessSimulationResult, BlockchainError>(e),
            },
    {
        let mut txs: Vec<PendingTransaction> = Vec::new();
        txs.push(tx);
        let mut runs: Vec<Result<TransactionRun, BlockchainError>> = Vec::new();
        runs.push(run);
        assert(runs@[0] == run);
        assert(run is Err ==> first_failure(runs@, 0));
        match self.simulate_transactions(&txs, runs) {
            Ok(mut results) => {
                assert(results@[0] == results@.last());
                Ok(results.pop().unwrap())
            },
            Err(e) => Err(e),
        }
    }

    /// What the simulation of transactions in turn found out, given the runs of the transactions up
    /// to the first one that failed.
    pub fn simulate_transactions(
        &self,
        txs: &Vec<PendingTransaction>,
        runs: Vec<Result<TransactionRun, BlockchainError>>,
    ) -> (r: Result<Vec<TransactionAccessSimulationResult>, BlockchainError>)
        requires
            runs_match(txs@, runs@),
        ensures
            r is Err <==> exists|at: int| #[trigger] first_failure(runs@, at),
            r matches Err(e) ==> exists|at: int|
                #[trigger] first_failure(runs@, at) && runs@[at] == Err::<
                    TransactionRun,
                    BlockchainError,
                >(e),
            r matches Ok(results) ==> self@.simulates(
                txs@,
                runs@,
                self@.env.block_env.gas_limit,
                results@,
            ),
    {
        self.simulate_transactions_with_limit(txs, runs, self.gas_limit())
    }

    /// What the simulation of transactions in turn found out, where they may together use a given
    /// amount of gas, given the runs of the transactions up to the first one that failed.
    pub fn simulate_transactions_with_limit(
        &self,
        txs: &Vec<PendingTransaction>,
        runs: Vec<Result<TransactionRun, BlockchainError>>,
        gas_limit: u64,
    ) -> (r: Result<Vec<TransactionAccessSimulationResult>, BlockchainError>)
        requires
            runs_match(txs@, runs@),
        ensures
            r is Err <==> exists|at: int| #[trigger] first_failure(runs@, at),
            r matches Err(e) ==> exists|at: int|
                #[trigger] first_failure(runs@, at) && runs@[at] == Err::<
                    TransactionRun,
                    BlockchainError,
                >(e),
            r matches Ok(results) ==> self@.simulates(txs@, runs@, gas_limit, results@),
    {
        let ghost all = runs@;
        let mut rest = runs;
        let mut gas_used: u64 = 0;
        let mut blob_gas_used: u64 = 0;
        let mut out: Vec<TransactionAccessSimulationResult> = Vec::new();
        let mut i: usize = 0;
        while rest.len() > 0
            invariant
                runs_match(txs@, all),
                0 <= i <= all.len(),
                all == runs@,
                rest@ == all.skip(i as int),
                forall|j: int| 0 <= j < i ==> (#[trigger] all[j]) is Ok,
                gas_used == gas_before(all, i as int),
                blob_gas_used == blob_gas_before(txs@, i as int),
                out@.len() == i,
                forall|j: int|
                    0 <= j < i ==> reports(
                        #[trigger] out@[j],
                        txs@[j],
                        all[j]->Ok_0,
                        self@.simulated_errors(txs@, all, gas_limit, j),
                        self@.env.block_env.beneficiary,
                    ),
            decreases all.len() - i,
        {
            assert(i < txs.len());
            let next = rest.remove(0);
            assert(next == all[i as int]);
            assert(rest@ =~= all.skip(i + 1));
            match next {
                Err(e) => {
                    assert(first_failure(all, i as int));
                    return Err(e);
                },
                Ok(mut run) => {
                    let ghost before = run;
                    let tx = txs[i];
                    let mut validation_errors: Vec<SimulationError> = Vec::new();
                    std::mem::swap(&mut validation_errors, &mut run.validation_errors);
                    let errors = Self::check_includability_inner(
                        &tx,
                        validation_errors,
                        blob_gas_used,
                        self.blob_gas_limit,
                        gas_used,
                        gas_limit,
                    );
                    let run_gas: u64 = run.gas_used;
                    let result = simulation_result(&tx, run, errors, self.env.block_env.beneficiary);
                    assert(reports(
                        result,
                        tx,
                        before,
                        self@.simulated_errors(txs@, all, gas_limit, i as int),
                        self@.env.block_env.beneficiary,
                    ));
                    out.push(result);
                    gas_used = gas_used.saturating_add(run_gas);
                    blob_gas_used = blob_gas_used.saturating_add(tx.transaction.blob_gas_used());
                },
            }
            i = i + 1;
        }
        assert(forall|at: int| !#[trigger] first_failure(all, at));
        Ok(out)
    }

    /// What the simulations of single transactions found out, each on top of the same state, given
    /// the run of each of them.
    pub fn simulate_transaction_individually(
        &self,
        txs: &Vec<PendingTransaction>,
        runs: Vec<TransactionRun>,
    ) -> (r: Table<32, TransactionAccessSimulationResult>)
        requires
            txs@.len() == runs@.len(),
        ensures
            self@.simulates_individually(txs@, runs@, r@),
    {
        let ghost all = runs@;
        let mut rest = runs;
        let mut out: Table<32, TransactionAccessSimulationResult> = Table::new();
        let mut i: usize = 0;
        while i < txs.len()
            invariant
                txs@.len() == all.len(),
                0 <= i <= all.len(),
                rest@ == all.skip(i as int),
                forall|hash: TxHash| #[trigger]
                    out@.contains_key(hash) <==> exists|j: int|
                        0 <= j < i && (#[trigger] txs@[j]).id() == hash,
                forall|j: int|
                    0 <= j < i && last_with_hash(txs@.take(i as int), j) ==> self@.simulates_alone(
                        #[trigger] txs@[j],
                        all[j],
                        out@[txs@[j].id()],
                    ),
            decreases all.len() - i,
        {
            let run = rest.remove(0);
            assert(run == all[i as int]);
            assert(rest@ =~= all.skip(i + 1));
            let ghost before = out@;
            let hash = txs[i].hash();
            let result = self.simulate_transaction(txs[i], Ok(run)).unwrap();
            out.insert(hash, result);
            proof {
                assert forall|h: TxHash| #[trigger]
                    out@.contains_key(h) <==> exists|j: int|
                        0 <= j < i + 1 && (#[trigger] txs@[j]).id() == h by {
                    assert(before.contains_key(h) <==> exists|j: int|
                        0 <= j < i && (#[trigger] txs@[j]).id() == h);
                    if h == hash {
                        assert(txs@[i as int].id() == h);
                    }
                }
                assert forall|j: int|
                    0 <= j < i + 1 && last_with_hash(txs@.take(i + 1), j) implies self@.simulates_alone(
                    #[trigger] txs@[j],
                    all[j],
                    out@[txs@[j].id()],
                ) by {
                    let longer = txs@.take(i + 1);
                    if j < i {
                        assert(longer[i as int] == txs@[i as int]);
                        assert(longer[j].id() != longer[i as int].id());
                        let shorter = txs@.take(i as int);
                        assert(last_with_hash(shorter, j)) by {
                            assert forall|k: int| j < k < shorter.len() implies (
                            #[trigger] shorter[k]).id() != shorter[j].id() by {
                                assert(longer[k] == shorter[k]);
                            }
                        }
                    }
                }
            }
            i = i + 1;
        }
        assert(txs@.take(txs@.len() as int) =~= txs@);
        out
    }
}

/// Whether no later transaction has the same hash.
pub open spec fn last_with_hash(txs: Seq<PendingTransaction>, i: int) -> bool {
    forall|k: int| i < k < txs.len() ==> (#[trigger] txs[k]).id() != txs[i].id()
}

/// A transaction succeeds in a simulation only where it can go into the block.
pub proof fn law_success_means_no_errors(
    state: StateModel,
    txs: Seq<PendingTransaction>,
    runs: Seq<Result<TransactionRun, BlockchainError>>,
    gas_limit: u64,
    results: Seq<TransactionAccessSimulationResult>,
    i: int,
)
    requires
        state.simulates(txs, runs, gas_limit, results),
        0 <= i < results.len(),
        results[i].success,
    ensures
        results[i].errors@.len() == 0,
        num::u64_sat_add(gas_before(runs, i), txs[i].transaction.gas_limit) <= gas_limit,
        num::u64_sat_add(blob_gas_before(txs, i), txs[i].transaction.blob_gas_or_zero())
            <= state.blob_gas_limit,
{
}

/// A transaction that passes the check and uses no more gas than it may leaves the block within its
/// limits.
pub proof fn law_checked_transactions_keep_the_limits(
    state: StateModel,
    tx: PendingTransaction,
    validation_errors: Seq<SimulationError>,
    gas_used: u64,
)
    requires
        state.errors(tx, validation_errors).len() == 0,
        gas_used <= tx.transaction.gas_limit,
    ensures
        validation_errors.len() == 0,
        state.executed(tx, gas_used).gas_used <= state.env.block_env.gas_limit,
        state.executed(tx, gas_used).blob_gas_used <= state.blob_gas_limit,
{
}

} // verus!
