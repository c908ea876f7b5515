use concurrent_proposers::backend::{Backend, BlockEnv, CfgEnv, Env};
use concurrent_proposers::concurrent_proposer::admission::{batch_gas_limit, invalid_batch, is_rejected};
use concurrent_proposers::concurrent_proposer::batches::{drop_seen_prefixes, Action, Event};
use concurrent_proposers::concurrent_proposer::common_highest::CommonHighest;
use concurrent_proposers::concurrent_proposer::cycling::Cycling;
use concurrent_proposers::concurrent_proposer::cycling_highest::{
    cleanup_batches_for_inclusion, get_heads, CyclingHighest, Report, Request,
};
use concurrent_proposers::concurrent_proposer::fees::{
    can_share, share_priority_fees, sum_priority_fees,
};
use concurrent_proposers::concurrent_proposer::outcome::MinedBlockOutcome;
use concurrent_proposers::fixed_bytes::{Address, FixedBytes, TxHash};
use concurrent_proposers::num::U256;
use concurrent_proposers::simulation::TransactionAccessSimulationResult;
use concurrent_proposers::table::Table;
use concurrent_proposers::transaction::{
    BlockchainError, InvalidTransactionError, PendingTransaction, SimulationError, TransactError,
    TransactionExecutionOutcome, TypedTransaction,
};
use std::collections::HashMap;

fn hash(n: u8) -> TxHash {
    let mut bytes = [0u8; 32];
    bytes[31] = n;
    FixedBytes { bytes }
}

fn address(n: u8) -> Address {
    FixedBytes { bytes: [n; 20] }
}

fn amount(n: u64) -> U256 {
    U256::from_limbs([n, 0, 0, 0])
}

fn tx(n: u8, gas_price: u128) -> TypedTransaction {
    TypedTransaction {
        hash: hash(n),
        signer: Some(address(n)),
        tx_type: 0,
        gas_limit: 100,
        gas_price,
        gas_priority_fee: None,
        blob_gas: None,
        value: U256::zero(),
        max_cost: 0,
    }
}

fn pending(n: u8, gas_price: u128) -> PendingTransaction {
    PendingTransaction::new(tx(n, gas_price)).unwrap()
}

fn simulation(n: u8, errors: Vec<SimulationError>, fee: u64) -> TransactionAccessSimulationResult {
    TransactionAccessSimulationResult {
        hash: hash(n),
        accesses: Table::new(),
        writes: Table::new(),
        transfer_diffs: Table::new(),
        success: errors.is_empty(),
        errors,
        gas_used: 10,
        blob_gas_used: 0,
        burned_ether: U256::zero(),
        priority_fee: amount(fee),
        sender: address(n),
        coinbase: address(0),
        effective_gas_price: 0,
        max_gas_cost: 0,
        nonces_required: vec![],
        nonces_possible: vec![],
    }
}

fn env(gas_limit: u64, basefee: u64) -> Env {
    Env {
        block_env: BlockEnv {
            number: U256::zero(),
            beneficiary: address(0),
            timestamp: U256::zero(),
            gas_limit,
            basefee,
            prevrandao: None,
            blob_excess_gas_and_price: None,
        },
        cfg_env: CfgEnv::new(18),
    }
}

fn backend() -> Backend {
    Backend {
        fetch_mix_hash: false,
        fetch_block_gas_limit: false,
        fetch_block_coinbase: false,
        fetch_parent_beacon_root: false,
        exact_block_timestamps: false,
        fetch_block_timestamps: false,
    }
}

fn checked(action: Action) -> u8 {
    match action {
        Action::Check(tx) => tx.transaction.hash.bytes[31],
        _ => panic!("no transaction is to be checked"),
    }
}

fn accept(merge: &mut Cycling, reward: u64) -> Action {
    let action = merge.step(Event::Checked(vec![]));
    assert!(matches!(action, Action::Execute(_)));
    merge.step(Event::Executed { gas_used: 10, reward: amount(reward) })
}

fn block_of(merge: &Cycling) -> Vec<u8> {
    merge.block().iter().map(|t| t.transaction.hash.bytes[31]).collect()
}

#[test]
fn cycling_takes_the_heads_in_turn() {
    let batches = vec![vec![pending(1, 1), pending(2, 1)], vec![pending(3, 9)], vec![pending(4, 5)]];
    let mut merge = Cycling::new(false, batches);
    let mut seen = vec![];
    let mut action = merge.step(Event::Start);
    while !matches!(action, Action::Finish) {
        seen.push(checked(action));
        action = accept(&mut merge, 7);
    }
    assert_eq!(seen, vec![1, 3, 4, 2]);
    assert_eq!(block_of(&merge), vec![1, 3, 4, 2]);
    let out = merge.into_output(MinedBlockOutcome { block_number: 5 }, vec![]);
    assert_eq!(out.block_number, 5);
    assert_eq!(out.block.block_number, 5);
    assert!(out.failed_transactions.is_empty());
    assert_eq!(out.priority_fees_per_proposer, vec![amount(14), amount(7), amount(7)]);
}

#[test]
fn cycling_passes_over_empty_batches_and_transactions_of_others() {
    let batches = vec![vec![pending(1, 1)], vec![], vec![pending(1, 1), pending(2, 1)]];
    let mut merge = Cycling::new(false, batches);
    assert_eq!(checked(merge.step(Event::Start)), 1);
    assert_eq!(checked(accept(&mut merge, 3)), 2);
    assert!(matches!(accept(&mut merge, 4), Action::Finish));
    let out = merge.into_output(MinedBlockOutcome { block_number: 1 }, vec![]);
    assert_eq!(out.priority_fees_per_proposer, vec![amount(3), amount(0), amount(4)]);
}

#[test]
fn cycling_leaves_out_what_does_not_pass_its_check() {
    let mut merge = Cycling::new(false, vec![vec![pending(1, 1), pending(2, 1)], vec![pending(1, 1)]]);
    assert_eq!(checked(merge.step(Event::Start)), 1);
    let errors = vec![SimulationError::BlockGasExhausted, SimulationError::BlockBlobGasExhausted];
    assert_eq!(checked(merge.step(Event::Checked(errors))), 2);
    assert!(matches!(accept(&mut merge, 1), Action::Finish));
    assert_eq!(block_of(&merge), vec![2]);
    let out = merge.into_output(MinedBlockOutcome { block_number: 1 }, vec![]);
    assert_eq!(out.failed_transactions.len(), 1);
    assert_eq!(out.failed_transactions[0].0, hash(1));
    assert!(matches!(
        out.failed_transactions[0].1,
        TransactionExecutionOutcome::BlockGasExhausted(tx) if tx.transaction.hash == hash(1)
    ));
}

#[test]
fn strict_cycling_rewards_the_responsible_proposer() {
    // 5 % 2 == 1: the second proposer is responsible and has the transaction too
    let mut merge = Cycling::new(true, vec![vec![pending(5, 1)], vec![pending(4, 1), pending(5, 1)]]);
    assert_eq!(checked(merge.step(Event::Start)), 5);
    assert_eq!(checked(accept(&mut merge, 100)), 4);
    // 4 % 2 == 0: the first proposer is responsible but does not have the transaction
    assert!(matches!(accept(&mut merge, 10), Action::Finish));
    let out = merge.into_output(MinedBlockOutcome { block_number: 1 }, vec![]);
    assert_eq!(out.priority_fees_per_proposer, vec![amount(0), amount(110)]);
}

#[test]
fn strict_cycling_reads_the_hash_as_a_big_endian_number() {
    // 256 % 3 == 1
    let mut bytes = [0u8; 32];
    bytes[30] = 1;
    let mut first = pending(1, 1);
    first.transaction.hash = FixedBytes { bytes };
    let batches = vec![vec![first], vec![pending(9, 1), first], vec![first]];
    let mut merge = Cycling::new(true, batches);
    merge.step(Event::Start);
    accept(&mut merge, 6);
    let out = merge.into_output(MinedBlockOutcome { block_number: 1 }, vec![]);
    assert_eq!(out.priority_fees_per_proposer, vec![amount(0), amount(6), amount(0)]);
}

#[test]
fn plain_cycling_rewards_the_proposer_whose_turn_it_is() {
    let mut merge = Cycling::new(false, vec![vec![pending(5, 1)], vec![pending(5, 1)]]);
    merge.step(Event::Start);
    accept(&mut merge, 100);
    let out = merge.into_output(MinedBlockOutcome { block_number: 1 }, vec![]);
    assert_eq!(out.priority_fees_per_proposer, vec![amount(100), amount(0)]);
}

#[test]
fn rewards_wrap_around() {
    let mut merge = Cycling::new(false, vec![vec![pending(1, 1), pending(2, 1)]]);
    merge.step(Event::Start);
    merge.step(Event::Checked(vec![]));
    let reward = U256::from_limbs([u64::MAX; 4]);
    merge.step(Event::Executed { gas_used: 0, reward });
    accept(&mut merge, 3);
    let out = merge.into_output(MinedBlockOutcome { block_number: 1 }, vec![]);
    assert_eq!(out.priority_fees_per_proposer, vec![amount(2)]);
}

#[test]
fn seen_prefixes_are_dropped() {
    let mut batches = vec![
        vec![pending(1, 1), pending(2, 1), pending(3, 1)],
        vec![pending(3, 1), pending(1, 1)],
        vec![pending(1, 1)],
    ];
    drop_seen_prefixes(&mut batches, &vec![hash(1), hash(2)]);
    let rest: Vec<Vec<u8>> = batches
        .iter()
        .map(|b| b.iter().map(|t| t.transaction.hash.bytes[31]).collect())
        .collect();
    assert_eq!(rest, vec![vec![3], vec![3, 1], vec![]]);
}

#[test]
fn common_highest_takes_the_best_paid_head_and_credits_all_that_offer_it() {
    let batches = vec![
        vec![pending(1, 5), pending(2, 50)],
        vec![pending(3, 7), pending(1, 5)],
        vec![pending(1, 5)],
    ];
    let mut merge = CommonHighest::new(0, batches);
    assert_eq!(checked(merge.step(Event::Start)), 3);
    merge.step(Event::Checked(vec![]));
    let next = merge.step(Event::Executed { gas_used: 10, reward: amount(0) });
    // all heads pay the same
    assert_eq!(checked(next), 1);
    merge.step(Event::Checked(vec![]));
    let next = merge.step(Event::Executed { gas_used: 30, reward: amount(0) });
    assert_eq!(checked(next), 2);
    let next = merge.step(Event::Checked(vec![SimulationError::InvalidTransaction(
        InvalidTransactionError::NonceTooHigh,
    )]));
    assert!(matches!(next, Action::Finish));
    assert_eq!(merge.gas_contributed(), &vec![30, 40, 30]);
    let sims = vec![simulation(3, vec![], 60), simulation(1, vec![], 40)];
    assert!(merge.can_share_fees(&sims));
    let out = merge.into_output(MinedBlockOutcome { block_number: 9 }, sims);
    assert_eq!(out.priority_fees_per_proposer, vec![amount(30), amount(40), amount(30)]);
    assert_eq!(out.block_sim.len(), 2);
    assert!(matches!(
        out.failed_transactions[0].1,
        TransactionExecutionOutcome::Invalid(_, InvalidTransactionError::NonceTooHigh)
    ));
}

#[test]
fn common_highest_prefers_the_last_of_equally_paid_heads() {
    let batches = vec![vec![pending(1, 5)], vec![pending(2, 5)], vec![pending(3, 4)]];
    let mut merge = CommonHighest::new(0, batches);
    assert_eq!(checked(merge.step(Event::Start)), 2);
}

#[test]
fn common_highest_credits_transactions_that_come_up_later() {
    let batches = vec![vec![pending(1, 9)], vec![pending(2, 3), pending(1, 9)]];
    let mut merge = CommonHighest::new(0, batches);
    assert_eq!(checked(merge.step(Event::Start)), 1);
    merge.step(Event::Checked(vec![]));
    merge.step(Event::Executed { gas_used: 5, reward: amount(0) });
    merge.step(Event::Checked(vec![]));
    let next = merge.step(Event::Executed { gas_used: 7, reward: amount(0) });
    assert!(matches!(next, Action::Finish));
    assert_eq!(merge.gas_contributed(), &vec![5, 12]);
}

#[test]
fn common_highest_without_batches_finishes_at_once() {
    let mut merge = CommonHighest::new(0, vec![]);
    assert!(matches!(merge.step(Event::Start), Action::Finish));
    assert!(merge.can_share_fees(&vec![]));
    let out = merge.into_output(MinedBlockOutcome { block_number: 2 }, vec![]);
    assert!(out.priority_fees_per_proposer.is_empty());
}

#[test]
fn fees_are_shared_by_gas_and_rounded_down() {
    let fees = sum_priority_fees(&vec![simulation(1, vec![], 7), simulation(2, vec![], 3)]);
    assert_eq!(fees, amount(10));
    let gas = vec![1, 1, 1];
    assert!(can_share(fees, &gas));
    assert_eq!(share_priority_fees(fees, &gas), vec![amount(3), amount(3), amount(3)]);
    let gas = vec![5, 0, 15];
    assert_eq!(share_priority_fees(fees, &gas), vec![amount(2), amount(0), amount(7)]);
}

#[test]
fn fees_are_held_at_the_largest_value() {
    let mut first = simulation(1, vec![], 0);
    first.priority_fee = U256::from_limbs([u64::MAX; 4]);
    let fees = sum_priority_fees(&vec![first, simulation(2, vec![], 3)]);
    assert_eq!(fees, U256::from_limbs([u64::MAX; 4]));
    assert!(!can_share(fees, &vec![2]));
}

#[test]
fn fees_cannot_be_shared_without_gas() {
    assert!(!can_share(amount(1), &vec![0, 0]));
    assert!(!can_share(amount(1), &vec![u64::MAX, 1]));
    assert!(can_share(amount(1), &vec![]));
}

fn validated(request: Request) -> u8 {
    match request {
        Request::Validate(tx) => tx.transaction.hash.bytes[31],
        _ => panic!("no transaction is to be validated"),
    }
}

fn run_one(merge: &mut CyclingHighest, gas: u64) -> Request {
    let request = merge.step(Report::Validated(Ok(())));
    assert!(matches!(request, Request::Execute(_)));
    merge.step(Report::Transacted(Ok(gas)))
}

#[test]
fn cycling_highest_prefers_proposers_below_their_share() {
    // the share of each proposer is 800 / 4 / 2 == 100
    let batches = vec![vec![tx(1, 9), tx(2, 8)], vec![tx(3, 1), tx(4, 1)]];
    let mut merge = CyclingHighest::new(800, 0, 0, batches);
    assert_eq!(validated(merge.step(Report::Start)), 1);
    assert_eq!(validated(run_one(&mut merge, 100)), 3);
    assert_eq!(validated(run_one(&mut merge, 99)), 4);
    assert_eq!(validated(run_one(&mut merge, 1)), 2);
    assert!(matches!(run_one(&mut merge, 10), Request::Finish));
    let block: Vec<u8> = merge.block().iter().map(|t| t.hash.bytes[31]).collect();
    assert_eq!(block, vec![1, 3, 4, 2]);
    let out = merge.into_output(MinedBlockOutcome { block_number: 3 }, vec![]);
    assert_eq!(out.gas_usage_per_batch, HashMap::from([(0, 110), (1, 100)]));
}

#[test]
fn cycling_highest_credits_all_proposers_that_list_a_transaction() {
    let batches = vec![vec![tx(1, 9)], vec![tx(2, 5), tx(1, 9)], vec![tx(1, 9), tx(3, 1)]];
    let mut merge = CyclingHighest::new(10_000, 0, 0, batches);
    assert_eq!(validated(merge.step(Report::Start)), 1);
    assert_eq!(validated(run_one(&mut merge, 10)), 2);
    assert_eq!(validated(run_one(&mut merge, 7)), 3);
    let request = merge.step(Report::Validated(Err(InvalidTransactionError::NonceTooHigh)));
    assert!(matches!(request, Request::Finish));
    let out = merge.into_output(MinedBlockOutcome { block_number: 3 }, vec![]);
    assert_eq!(out.gas_usage_per_batch, HashMap::from([(0, 10), (1, 17), (2, 10)]));
}

#[test]
fn cycling_highest_takes_the_last_of_equally_paid_heads() {
    let mut merge = CyclingHighest::new(10_000, 0, 0, vec![vec![tx(1, 5)], vec![tx(2, 5)]]);
    assert_eq!(validated(merge.step(Report::Start)), 2);
}

#[test]
fn cycling_highest_leaves_out_what_the_block_has_no_room_for() {
    let mut big = tx(1, 9);
    big.gas_limit = 1001;
    let mut blob = tx(2, 8);
    blob.blob_gas = Some(11);
    let mut merge = CyclingHighest::new(1000, 10, 0, vec![vec![big, blob, tx(3, 1)], vec![big]]);
    assert_eq!(validated(merge.step(Report::Start)), 3);
    assert!(matches!(run_one(&mut merge, 10), Request::Finish));
    let out = merge.into_output(MinedBlockOutcome { block_number: 3 }, vec![]);
    assert_eq!(out.failed_transactions.len(), 2);
    assert!(matches!(out.failed_transactions[0].1, TransactionExecutionOutcome::BlockGasExhausted(_)));
    assert!(matches!(out.failed_transactions[1].1, TransactionExecutionOutcome::BlobGasExhausted(_)));
}

#[test]
fn cycling_highest_leaves_out_what_is_invalid_or_fails() {
    let batches = vec![vec![tx(1, 9), tx(2, 8), tx(3, 7)]];
    let mut merge = CyclingHighest::new(1000, 10, 0, batches);
    assert_eq!(validated(merge.step(Report::Start)), 1);
    let request = merge.step(Report::Validated(Err(InvalidTransactionError::InsufficientFunds)));
    assert_eq!(validated(request), 2);
    merge.step(Report::Validated(Ok(())));
    let request = merge.step(Report::Transacted(Err(TransactError::Database(77))));
    assert_eq!(validated(request), 3);
    merge.step(Report::Validated(Ok(())));
    let failure = TransactError::Transaction(InvalidTransactionError::Other(4));
    assert!(matches!(merge.step(Report::Transacted(Err(failure))), Request::Finish));
    assert!(merge.block().is_empty());
    let out = merge.into_output(MinedBlockOutcome { block_number: 3 }, vec![]);
    assert!(matches!(
        out.failed_transactions[0].1,
        TransactionExecutionOutcome::Invalid(_, InvalidTransactionError::InsufficientFunds)
    ));
    assert!(matches!(out.failed_transactions[1].1, TransactionExecutionOutcome::DatabaseError(_, 77)));
    assert!(matches!(
        out.failed_transactions[2].1,
        TransactionExecutionOutcome::Invalid(_, InvalidTransactionError::Other(4))
    ));
    assert!(out.gas_usage_per_batch.is_empty());
}

#[test]
fn heads_of_all_proposers_count_when_none_is_below_the_limit() {
    let batches = vec![vec![tx(1, 1)], vec![], vec![tx(2, 1)]];
    let usage = HashMap::from([(0usize, 50u128), (2usize, 10u128)]);
    let below: Vec<usize> = get_heads(&batches, &usage, 20).iter().map(|h| h.0).collect();
    assert_eq!(below, vec![2]);
    let all: Vec<usize> = get_heads(&batches, &usage, 5).iter().map(|h| h.0).collect();
    assert_eq!(all, vec![0, 2]);
    assert!(get_heads(&vec![vec![]], &usage, 5).is_empty());
}

#[test]
fn cleanup_removes_leading_transactions_only() {
    let mut included: Table<32, u64> = Table::new();
    included.insert(hash(1), 5);
    included.insert(hash(3), 0);
    let batches = vec![vec![tx(1, 1), tx(3, 1)], vec![tx(1, 1), tx(2, 1), tx(3, 1)], vec![]];
    let mut usage = HashMap::from([(1usize, 3u128)]);
    let rest = cleanup_batches_for_inclusion(batches, &included, &mut usage);
    let rest: Vec<Vec<u8>> = rest.iter().map(|b| b.iter().map(|t| t.hash.bytes[31]).collect()).collect();
    assert_eq!(rest, vec![vec![], vec![2, 3], vec![]]);
    // both proposers lose transaction 1 with its 5 gas, and transaction 3 used none
    assert_eq!(usage, HashMap::from([(0, 5), (1, 8)]));
}

#[test]
fn the_effective_gas_price_depends_on_the_type() {
    let mut t = tx(1, 100);
    t.gas_priority_fee = Some(3);
    assert_eq!(t.effective_gas_price(10), 100);
    t.tx_type = 2;
    assert_eq!(t.effective_gas_price(10), 13);
    assert_eq!(t.effective_gas_price(98), 100);
    assert_eq!(t.effective_gas_price(u128::MAX), 100);
    t.gas_priority_fee = None;
    assert_eq!(t.effective_gas_price(10), 100);
    t.tx_type = 1;
    assert_eq!(t.effective_gas_price(10), 100);
}

#[test]
fn batches_that_cannot_be_executed_are_named() {
    let fine = || Ok(vec![simulation(1, vec![], 0)]);
    let broken = || Ok(vec![simulation(1, vec![], 0), simulation(2, vec![SimulationError::BlockGasExhausted], 0)]);
    assert!(!is_rejected(&fine()));
    assert!(is_rejected(&broken()));
    assert!(is_rejected(&Err(BlockchainError::TransactionNotFound)));
    let batches = || vec![vec![pending(1, 1)], vec![pending(2, 1)]];
    let node = backend();
    assert!(node.concurrent_proposers_cycling(batches(), vec![fine(), fine()]).is_ok());
    assert!(node.concurrent_proposers_strict_cycling(batches(), vec![fine(), fine()]).is_ok());
    match node.concurrent_proposers_strict_cycling(batches(), vec![fine(), broken()]) {
        Err(BlockchainError::Message(m)) => assert_eq!(m, "batch 1 invalid"),
        _ => panic!("the second batch cannot be executed"),
    }
    match node.concurrent_proposers_cycling(batches(), vec![broken(), broken()]) {
        Err(BlockchainError::Message(m)) => assert_eq!(m, "batch 0 invalid"),
        _ => panic!("the first batch cannot be executed"),
    }
    match node.concurrent_proposers_common_cycling_highest(batches(), vec![broken()], &env(100, 1)) {
        Err(BlockchainError::Message(m)) => assert_eq!(m, "batch 0 invalid"),
        _ => panic!("the first batch cannot be executed"),
    }
}

#[test]
fn batches_whose_simulation_failed_stop_the_merge() {
    let fine = || Ok(vec![simulation(1, vec![], 0)]);
    let broken = || Ok(vec![simulation(2, vec![SimulationError::BlockGasExhausted], 0)]);
    let failed = |n: u64| Err(BlockchainError::Other(n));
    let batches = || vec![vec![pending(1, 1)], vec![pending(2, 1)]];
    let node = backend();
    assert!(matches!(
        node.concurrent_proposers_strict_cycling(batches(), vec![fine(), failed(4)]),
        Err(BlockchainError::Other(4))
    ));
    assert!(matches!(
        node.concurrent_proposers_cycling(batches(), vec![failed(5), broken()]),
        Err(BlockchainError::Other(5))
    ));
    assert!(matches!(
        node.concurrent_proposers_common_cycling_highest(batches(), vec![failed(6)], &env(100, 1)),
        Err(BlockchainError::Other(6))
    ));
    match node.concurrent_proposers_cycling(batches(), vec![broken(), failed(7)]) {
        Err(BlockchainError::Message(m)) => assert_eq!(m, "batch 0 invalid"),
        _ => panic!("the first batch cannot be executed"),
    }
}

#[test]
fn messages_hold_all_digits() {
    match invalid_batch(10_203) {
        BlockchainError::Message(m) => assert_eq!(m, "batch 10203 invalid"),
        _ => panic!("a message was expected"),
    }
}

#[test]
fn a_merge_by_price_uses_the_base_fee_of_the_block() {
    let mut low = pending(1, 100);
    low.transaction.tx_type = 2;
    low.transaction.gas_priority_fee = Some(1);
    let batches = vec![vec![low], vec![pending(2, 50)]];
    let mut merge = backend()
        .concurrent_proposers_common_cycling_highest(batches, vec![Ok(vec![]), Ok(vec![])], &env(1000, 60))
        .ok()
        .unwrap();
    assert_eq!(checked(merge.step(Event::Start)), 1);
}

#[test]
fn batches_are_tested_before_a_merge_by_share() {
    let node = backend();
    assert!(matches!(node.test_batch(Ok(vec![simulation(1, vec![], 0)])), Ok(true)));
    let errors = vec![SimulationError::BlockBlobGasExhausted];
    assert!(matches!(node.test_batch(Ok(vec![simulation(1, errors, 0)])), Ok(false)));
    assert!(matches!(node.test_batch(Err(BlockchainError::Other(3))), Err(BlockchainError::Other(3))));

    let batches = || vec![vec![tx(1, 1)], vec![tx(2, 2)]];
    let tests = vec![Ok(true), Ok(false)];
    match node.concurrent_proposers_cycling_highest(batches(), tests, &env(1000, 0), 0) {
        Err(BlockchainError::Message(m)) => assert_eq!(m, "batch 1 invalid"),
        _ => panic!("the second batch cannot be executed"),
    }
    let tests = vec![Err(BlockchainError::Other(8)), Ok(false)];
    assert!(matches!(
        node.concurrent_proposers_cycling_highest(batches(), tests, &env(1000, 0), 0),
        Err(BlockchainError::Other(8))
    ));
    let tests = vec![Ok(true), Ok(true)];
    let mut merge = node
        .concurrent_proposers_cycling_highest(batches(), tests, &env(1000, 0), 0)
        .ok()
        .unwrap();
    assert_eq!(validated(merge.step(Report::Start)), 2);
}

#[test]
fn batches_are_simulated_with_five_shares_of_gas() {
    assert_eq!(batch_gas_limit(30_000_000, 3), 50_000_000);
    assert_eq!(batch_gas_limit(10, 3), 15);
}
