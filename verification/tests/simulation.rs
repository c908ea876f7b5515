use concurrent_proposers::backend::{BlockEnv, CfgEnv, Env};
use concurrent_proposers::execution_state::SimulationExecutionState;
use concurrent_proposers::fixed_bytes::{Address, FixedBytes, TxHash};
use concurrent_proposers::num::{I512, U256};
use concurrent_proposers::trace::{
    access_set, burned_fees, fees_or_zero, transfer_diffs, write_set, GasFees, StorageChange,
    TraceNode, TransactionRun, TransferOperation,
};
use concurrent_proposers::transaction::{
    BlockchainError, InvalidTransactionError, PendingTransaction, SimulationError, TransactError,
    TransactionExecutionOutcome, TypedTransaction,
};

fn hash(n: u8) -> TxHash {
    FixedBytes { bytes: [n; 32] }
}

fn address(n: u8) -> Address {
    FixedBytes { bytes: [n; 20] }
}

fn amount(n: u64) -> U256 {
    U256::from_limbs([n, 0, 0, 0])
}

fn slot(n: u8) -> FixedBytes<32> {
    let mut bytes = [0u8; 32];
    bytes[31] = n;
    FixedBytes { bytes }
}

fn pending(n: u8, gas_limit: u64, blob_gas: Option<u64>) -> PendingTransaction {
    PendingTransaction::new(TypedTransaction {
        hash: hash(n),
        signer: Some(address(n)),
        tx_type: 2,
        gas_limit,
        gas_price: 10,
        gas_priority_fee: Some(1),
        blob_gas,
        value: U256::zero(),
        max_cost: 77,
    })
    .unwrap()
}

fn state(gas_limit: u64, blob_gas_limit: u64) -> SimulationExecutionState {
    let env = Env {
        block_env: BlockEnv {
            number: U256::zero(),
            beneficiary: address(99),
            timestamp: U256::zero(),
            gas_limit,
            basefee: 4,
            prevrandao: None,
            blob_excess_gas_and_price: None,
        },
        cfg_env: CfgEnv::new(18),
    };
    SimulationExecutionState::new(env, blob_gas_limit)
}

fn run(gas_used: u64) -> TransactionRun {
    TransactionRun {
        validation_errors: vec![],
        success: true,
        gas_used,
        touched_slots: vec![],
        nodes: vec![],
        transfers: vec![],
        gas_fees: None,
        required_nonces: vec![],
        possible_nonces: vec![],
    }
}

#[test]
fn access_sets_list_slots_as_numbers() {
    let mut far = [0u8; 32];
    far[30] = 1;
    let touched = vec![
        (address(1), vec![slot(3), FixedBytes { bytes: far }]),
        (address(2), vec![]),
        (address(3), vec![slot(9)]),
    ];
    let accesses = access_set(&touched);
    assert_eq!(accesses.get(&address(1)), Some(&vec![amount(3), amount(256)]));
    assert_eq!(accesses.get(&address(2)), None);
    assert_eq!(accesses.get(&address(3)), Some(&vec![amount(9)]));
    assert_eq!(accesses.len(), 2);
}

#[test]
fn write_sets_list_changed_slots_once() {
    let write = |key: u64, before: Option<u64>, value: u64| {
        Some(StorageChange { key: amount(key), value: amount(value), had_value: before.map(amount) })
    };
    let nodes = vec![
        TraceNode {
            execution_address: address(1),
            steps: vec![None, write(5, Some(1), 2), write(6, Some(1), 1), write(5, Some(2), 1)],
        },
        TraceNode { execution_address: address(2), steps: vec![write(7, None, 2), None] },
        TraceNode { execution_address: address(1), steps: vec![write(4, Some(0), 2)] },
    ];
    let writes = write_set(&nodes);
    assert_eq!(writes.get(&address(1)), Some(&vec![amount(5), amount(4)]));
    assert_eq!(writes.get(&address(2)), None);
}

#[test]
fn transfers_are_added_up_by_account() {
    let transfer = |from: u8, to: u8, value: u64| TransferOperation {
        from: address(from),
        to: address(to),
        value: amount(value),
    };
    let diffs = transfer_diffs(&vec![transfer(1, 2, 10), transfer(2, 3, 4), transfer(4, 4, 7)]);
    let limbs = |n: u8| diffs.get(&address(n)).map(|d: &I512| d.limbs);
    assert_eq!(limbs(2), Some([6, 0, 0, 0, 0, 0, 0, 0]));
    assert_eq!(limbs(3), Some([4, 0, 0, 0, 0, 0, 0, 0]));
    assert_eq!(limbs(4), Some([0; 8]));
    let mut minus_ten = [u64::MAX; 8];
    minus_ten[0] = u64::MAX - 9;
    assert_eq!(limbs(1), Some(minus_ten));
    assert_eq!(limbs(5), None);
}

#[test]
fn fees_are_split() {
    let fees = GasFees {
        proposer_reward: amount(20),
        caller_gas_spending: amount(100),
        caller_gas_refund: amount(30),
        effective_gas_price: 5,
    };
    assert_eq!(burned_fees(&fees), amount(50));
    assert_eq!(fees_or_zero(Some(fees)).effective_gas_price, 5);
    let none = fees_or_zero(None);
    assert_eq!(none.effective_gas_price, 0);
    assert_eq!(burned_fees(&none), amount(0));
    let strange = GasFees { caller_gas_spending: amount(49), ..fees };
    assert_eq!(burned_fees(&strange), U256::from_limbs([u64::MAX; 4]));
}

#[test]
fn checks_add_the_limits_of_the_block() {
    let mut s = state(100, 10);
    assert!(s.check_includability(&pending(1, 100, Some(10)), vec![]).is_empty());
    let errors = s.check_includability(
        &pending(1, 101, Some(11)),
        vec![SimulationError::InvalidTransaction(InvalidTransactionError::NonceTooHigh)],
    );
    assert_eq!(
        errors,
        vec![
            SimulationError::InvalidTransaction(InvalidTransactionError::NonceTooHigh),
            SimulationError::BlockGasExhausted,
            SimulationError::BlockBlobGasExhausted,
        ]
    );
    assert!(s.execute_transaction(&pending(1, 50, Some(4)), Ok(30)).is_ok());
    assert!(s.check_includability(&pending(2, 70, Some(6)), vec![]).is_empty());
    assert_eq!(
        s.check_includability(&pending(2, 71, None), vec![]),
        vec![SimulationError::BlockGasExhausted]
    );
    assert_eq!(
        s.check_includability(&pending(2, 70, Some(7)), vec![]),
        vec![SimulationError::BlockBlobGasExhausted]
    );
    assert_eq!(s.gas_limit(), 100);
    assert_eq!(s.blob_gas_limit(), 10);
    assert_eq!(s.env().block_env.basefee, 4);
}

#[test]
fn failed_executions_count_nothing() {
    let mut s = state(100, 10);
    let t = pending(1, 100, None);
    assert!(matches!(
        s.execute_transaction(&t, Err(TransactError::Database(5))),
        Err(TransactionExecutionOutcome::DatabaseError(_, 5))
    ));
    let invalid = TransactError::Transaction(InvalidTransactionError::InsufficientFunds);
    assert!(matches!(
        s.execute_transaction(&t, Err(invalid)),
        Err(TransactionExecutionOutcome::Invalid(_, InvalidTransactionError::InsufficientFunds))
    ));
    assert!(s.check_includability(&t, vec![]).is_empty());
}

#[test]
fn simulations_count_gas_from_zero() {
    let mut s = state(100, 10);
    s.execute_transaction(&pending(9, 100, None), Ok(100)).unwrap();
    let txs = vec![pending(1, 60, Some(6)), pending(2, 60, Some(5)), pending(3, 30, None)];
    let runs = vec![Ok(run(50)), Ok(run(20)), Ok(run(1))];
    let results = s.simulate_transactions(&txs, runs).ok().unwrap();
    assert!(results[0].errors.is_empty());
    assert!(results[0].success);
    assert_eq!(results[0].hash, hash(1));
    assert_eq!(results[0].sender, address(1));
    assert_eq!(results[0].coinbase, address(99));
    assert_eq!(results[0].blob_gas_used, 6);
    assert_eq!(results[0].max_gas_cost, 77);
    assert_eq!(
        results[1].errors,
        vec![SimulationError::BlockGasExhausted, SimulationError::BlockBlobGasExhausted]
    );
    assert!(!results[1].success);
    assert_eq!(results[1].gas_used, 20);
    // the block has used 70 gas and 11 blob gas now
    assert_eq!(results[2].errors, vec![SimulationError::BlockBlobGasExhausted]);
}

#[test]
fn a_simulation_can_have_its_own_limit() {
    let txs = vec![pending(1, 60, None)];
    let s = state(10, 0);
    let results = s.simulate_transactions_with_limit(&txs, vec![Ok(run(5))], 60).ok().unwrap();
    assert!(results[0].success);
    let results = s.simulate_transactions_with_limit(&txs, vec![Ok(run(5))], 59).ok().unwrap();
    assert_eq!(results[0].errors, vec![SimulationError::BlockGasExhausted]);
}

#[test]
fn the_first_failure_ends_a_simulation() {
    let txs = vec![pending(1, 1, None), pending(2, 1, None), pending(3, 1, None)];
    let runs = vec![Ok(run(1)), Err(BlockchainError::Other(3))];
    assert!(matches!(
        state(10, 0).simulate_transactions(&txs, runs),
        Err(BlockchainError::Other(3))
    ));
}

#[test]
fn single_transactions_are_simulated_on_top_of_the_same_state() {
    let s = state(50, 0);
    let mut failing = run(3);
    failing.success = false;
    failing.validation_errors = vec![SimulationError::InvalidTransaction(InvalidTransactionError::Other(1))];
    failing.required_nonces = vec![(address(1), 4)];
    let result = s.simulate_transaction(pending(1, 50, None), Ok(failing)).ok().unwrap();
    assert!(!result.success);
    assert_eq!(result.errors.len(), 1);
    assert_eq!(result.nonces_required, vec![(address(1), 4)]);
    assert!(matches!(
        s.simulate_transaction(pending(1, 50, None), Err(BlockchainError::TransactionNotFound)),
        Err(BlockchainError::TransactionNotFound)
    ));

    let txs = vec![pending(1, 50, None), pending(2, 50, None), pending(1, 51, None)];
    let results = s.simulate_transaction_individually(&txs, vec![run(40), run(41), run(42)]);
    assert_eq!(results.len(), 2);
    assert_eq!(results.get(&hash(2)).unwrap().gas_used, 41);
    assert!(results.get(&hash(2)).unwrap().success);
    assert_eq!(results.get(&hash(1)).unwrap().gas_used, 42);
    assert_eq!(results.get(&hash(1)).unwrap().errors, vec![SimulationError::BlockGasExhausted]);
}

#[test]
fn results_report_the_fees_and_the_trace_of_a_run() {
    let mut r = run(3);
    r.gas_fees = Some(GasFees {
        proposer_reward: amount(2),
        caller_gas_spending: amount(10),
        caller_gas_refund: amount(1),
        effective_gas_price: 6,
    });
    r.touched_slots = vec![(address(5), vec![slot(1)])];
    r.transfers = vec![TransferOperation { from: address(1), to: address(2), value: amount(3) }];
    r.possible_nonces = vec![(address(7), 1)];
    let result = state(50, 0).simulate_transaction(pending(1, 50, None), Ok(r)).ok().unwrap();
    assert_eq!(result.burned_ether, amount(7));
    assert_eq!(result.priority_fee, amount(2));
    assert_eq!(result.effective_gas_price, 6);
    assert_eq!(result.accesses.get(&address(5)), Some(&vec![amount(1)]));
    assert_eq!(result.transfer_diffs.get(&address(2)).unwrap().limbs[0], 3);
    assert_eq!(result.writes.len(), 0);
    assert_eq!(result.nonces_possible, vec![(address(7), 1)]);
}

#[test]
fn transfers_neither_make_nor_lose_ether() {
    let transfer = |from: u8, to: u8, value: u64| TransferOperation {
        from: address(from),
        to: address(to),
        value: amount(value),
    };
    let diffs = transfer_diffs(&vec![transfer(1, 2, 10), transfer(2, 3, 25), transfer(3, 1, 4)]);
    let total: i128 = (0..diffs.len())
        .map(|i| diffs.value_at(i).limbs[0] as i64 as i128)
        .sum();
    assert_eq!(diffs.len(), 3);
    assert_eq!(total, 0);
}

#[test]
fn simulations_run_without_checks() {
    let s = state(100, 10);
    let env = s.simulation_env();
    assert_eq!(env.block_env.gas_limit, 100);
    assert_eq!(
        env.cfg_env,
        CfgEnv {
            spec: 18,
            disable_nonce_check: true,
            disable_balance_check: true,
            disable_base_fee: true,
            disable_block_gas_limit: true,
        }
    );
    assert_eq!(s.env().cfg_env, CfgEnv::new(18));
}

#[test]
fn only_the_first_transaction_of_a_simulation_is_validated_with_all_checks() {
    let s = state(100, 10);
    assert_eq!(s.validation_env(0).cfg_env, CfgEnv::new(18));
    assert_eq!(s.validation_env(1).cfg_env, s.simulation_env().cfg_env);
    assert_eq!(s.validation_env(7).cfg_env, s.simulation_env().cfg_env);
    assert_eq!(s.validation_env(1).block_env.gas_limit, 100);
}

#[test]
fn single_simulations_do_not_depend_on_their_order() {
    let s = state(50, 0);
    let detailed = |gas: u64| {
        let mut r = run(gas);
        r.touched_slots = vec![(address(1), vec![slot(gas as u8)])];
        r.transfers = vec![TransferOperation { from: address(1), to: address(2), value: amount(gas) }];
        r.gas_fees = Some(GasFees {
            proposer_reward: amount(gas),
            caller_gas_spending: amount(3 * gas),
            caller_gas_refund: amount(0),
            effective_gas_price: gas as u128,
        });
        r
    };
    let order = |ns: &[u8]| {
        let txs = ns.iter().map(|n| pending(*n, 49 + *n as u64, None)).collect();
        let runs = ns.iter().map(|n| detailed(10 * *n as u64)).collect();
        s.simulate_transaction_individually(&txs, runs)
    };
    let one = order(&[1, 2, 1, 3]);
    let other = order(&[3, 1, 1, 2]);
    assert_eq!(one.len(), 3);
    assert_eq!(other.len(), 3);
    for n in 1..4u8 {
        let (a, b) = (one.get(&hash(n)).unwrap(), other.get(&hash(n)).unwrap());
        let alone = s
            .simulate_transaction(pending(n, 49 + n as u64, None), Ok(detailed(10 * n as u64)))
            .ok()
            .unwrap();
        for result in [a, b, &alone] {
            assert_eq!(result.hash, hash(n));
            assert_eq!(result.gas_used, 10 * n as u64);
            assert_eq!(result.success, n == 1);
            assert_eq!(result.errors.len(), if n == 1 { 0 } else { 1 });
            assert_eq!(result.accesses.get(&address(1)), Some(&vec![amount(10 * n as u64)]));
            assert_eq!(
                result.transfer_diffs.get(&address(2)).map(|d: &I512| d.limbs[0]),
                Some(10 * n as u64)
            );
            assert_eq!(result.burned_ether, amount(20 * n as u64));
            assert_eq!(result.priority_fee, amount(10 * n as u64));
            assert_eq!(result.sender, address(n));
        }
    }
}
