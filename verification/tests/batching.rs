use concurrent_proposers::batching::builder::{
    build_batch, build_extended_batch, BatchBuilder, Progress,
};
use concurrent_proposers::batching::dependencies::{find_transaction_depencencies, merge_tx_maps};
use concurrent_proposers::batching::pricing::dearest_transaction;
use concurrent_proposers::batching::questions::{Answer, Fault, Halt, Question};
use concurrent_proposers::fixed_bytes::{Address, FixedBytes, TxHash};
use concurrent_proposers::num::{I512, U256};
use concurrent_proposers::simulation::TransactionAccessSimulationResult;
use concurrent_proposers::table::Table;
use concurrent_proposers::transaction::{
    InvalidTransactionError, SimulationError, TypedTransaction,
};
use concurrent_proposers::transaction_register::TransactionRegister;

fn hash(n: u8) -> TxHash {
    FixedBytes { bytes: [n; 32] }
}

fn address(n: u8) -> Address {
    FixedBytes { bytes: [n; 20] }
}

fn amount(n: u64) -> U256 {
    U256::from_limbs([n, 0, 0, 0])
}

fn signed(n: i64) -> I512 {
    let high = if n < 0 { u64::MAX } else { 0 };
    I512::from_limbs([n as u64, high, high, high, high, high, high, high])
}

fn tx(n: u8, value: u64) -> TypedTransaction {
    TypedTransaction {
        hash: hash(n),
        signer: Some(address(n)),
        tx_type: 2,
        gas_limit: 21_000,
        gas_price: 10,
        gas_priority_fee: Some(1),
        blob_gas: None,
        value: amount(value),
        max_cost: 5,
    }
}

fn simulation(n: u8, price: u128, errors: Vec<SimulationError>) -> TransactionAccessSimulationResult {
    TransactionAccessSimulationResult {
        hash: hash(n),
        accesses: Table::new(),
        writes: Table::new(),
        transfer_diffs: Table::new(),
        success: errors.is_empty(),
        errors,
        gas_used: 1,
        blob_gas_used: 0,
        burned_ether: U256::zero(),
        priority_fee: U256::zero(),
        sender: address(n),
        coinbase: address(0),
        effective_gas_price: price,
        max_gas_cost: 5,
        nonces_required: vec![(address(n), 1)],
        nonces_possible: vec![],
    }
}

fn fine(n: u8, price: u128) -> TransactionAccessSimulationResult {
    simulation(n, price, vec![])
}

fn too_high(n: u8, price: u128, sender: u8, nonce: u64) -> TransactionAccessSimulationResult {
    let error = SimulationError::InvalidTransaction(InvalidTransactionError::NonceTooHigh);
    let mut sim = simulation(n, price, vec![error]);
    sim.sender = address(sender);
    sim.nonces_required = vec![(address(sender), nonce)];
    sim
}

fn unfunded(n: u8, price: u128) -> TransactionAccessSimulationResult {
    simulation(
        n,
        price,
        vec![SimulationError::InvalidTransaction(InvalidTransactionError::InsufficientFunds)],
    )
}

fn paying(n: u8, price: u128, to: u8, value: i64) -> TransactionAccessSimulationResult {
    let mut sim = fine(n, price);
    sim.transfer_diffs.insert(address(to), signed(value));
    sim
}

fn register_of(sims: Vec<TransactionAccessSimulationResult>) -> TransactionRegister {
    let mut register = TransactionRegister::new();
    for sim in sims {
        let n = sim.hash.bytes[0];
        register.register_transaction(tx(n, 10), Ok(vec![sim]), 0).unwrap();
    }
    register
}

fn asked(progress: Progress) -> Question {
    match progress {
        Progress::Ask(question) => question,
        Progress::Done(batch) => panic!("done with {} transactions", batch.len()),
        Progress::Fault(fault) => panic!("fault: {:?}", fault),
    }
}

fn done(progress: Progress) -> Vec<u8> {
    match progress {
        Progress::Done(batch) => batch.iter().map(|h| h.bytes[0]).collect(),
        Progress::Ask(question) => panic!("asked: {:?}", question),
        Progress::Fault(fault) => panic!("fault: {:?}", fault),
    }
}

// answers the check and the execution of the transaction that is tried next
fn take(builder: &mut BatchBuilder, register: &TransactionRegister, n: u8) {
    match asked(builder.next(register, 0)) {
        Question::CheckIncludability(t) => assert_eq!(t.transaction.hash, hash(n)),
        other => panic!("asked: {:?}", other),
    }
    builder.answer(Answer::Includability(vec![]));
    match asked(builder.next(register, 0)) {
        Question::Execute(t) => assert_eq!(t.transaction.hash, hash(n)),
        other => panic!("asked: {:?}", other),
    }
    builder.answer(Answer::Executed);
}

fn simulate(
    builder: &mut BatchBuilder,
    register: &TransactionRegister,
    n: u8,
    sim: TransactionAccessSimulationResult,
) {
    match asked(builder.next(register, 0)) {
        Question::Simulate(t) => assert_eq!(t.transaction.hash, hash(n)),
        other => panic!("asked: {:?}", other),
    }
    builder.answer(Answer::Simulated(sim));
}

#[test]
fn the_dearest_transaction_is_chosen_and_the_last_of_equals() {
    let priced = vec![(hash(1), 5), (hash(2), 9), (hash(3), 9), (hash(4), 1)];
    assert_eq!(dearest_transaction(priced), hash(3));
    assert_eq!(dearest_transaction(vec![(hash(7), 0)]), hash(7));
}

#[test]
fn batches_are_filled_by_descending_price() {
    let register = register_of(vec![fine(1, 3), fine(2, 8), fine(3, 5)]);
    let mut builder = build_batch(vec![hash(1), hash(9), hash(2), hash(3)]);
    take(&mut builder, &register, 2);
    take(&mut builder, &register, 3);
    take(&mut builder, &register, 1);
    assert_eq!(done(builder.next(&register, 0)), vec![2, 3, 1]);
    // nothing changes a batch that is done
    builder.answer(Answer::Executed);
    assert_eq!(done(builder.next(&register, 0)), vec![2, 3, 1]);
}

#[test]
fn transactions_that_do_not_pass_their_check_are_given_up() {
    let register = register_of(vec![fine(1, 3), fine(2, 8)]);
    let mut builder = build_batch(vec![hash(1), hash(2), hash(2)]);
    assert!(matches!(asked(builder.next(&register, 0)), Question::CheckIncludability(_)));
    builder.answer(Answer::Includability(vec![SimulationError::BlockGasExhausted]));
    take(&mut builder, &register, 1);
    assert_eq!(done(builder.next(&register, 0)), vec![1]);
}

#[test]
fn the_transaction_that_passed_its_check_is_the_one_that_is_executed() {
    let register = register_of(vec![fine(1, 3), fine(2, 8)]);
    let mut builder = build_batch(vec![hash(1), hash(2)]);
    for (n, passes) in [(2, false), (1, true)] {
        match asked(builder.next(&register, 0)) {
            Question::CheckIncludability(t) => assert_eq!(t.transaction.hash, hash(n)),
            other => panic!("asked: {:?}", other),
        }
        let errors = if passes { vec![] } else { vec![SimulationError::BlockBlobGasExhausted] };
        builder.answer(Answer::Includability(errors));
    }
    match asked(builder.next(&register, 0)) {
        Question::Execute(t) => assert_eq!(t.transaction.hash, hash(1)),
        other => panic!("asked: {:?}", other),
    }
}

#[test]
fn an_empty_bucket_gives_an_empty_batch() {
    let register = register_of(vec![fine(1, 3)]);
    assert!(done(build_batch(vec![]).next(&register, 0)).is_empty());
    assert!(done(build_batch(vec![hash(4)]).next(&register, 0)).is_empty());
}

#[test]
fn a_nonce_that_is_too_high_waits_for_the_one_before() {
    // transaction 2 comes from the sender of transaction 1 and needs the next nonce
    let register = register_of(vec![fine(1, 3), too_high(2, 8, 1, 2)]);
    let mut builder = build_batch(vec![hash(2)]);
    simulate(&mut builder, &register, 2, too_high(2, 8, 1, 2));
    simulate(&mut builder, &register, 1, fine(1, 3));
    take(&mut builder, &register, 1);
    simulate(&mut builder, &register, 2, fine(2, 8));
    take(&mut builder, &register, 2);
    assert_eq!(done(builder.next(&register, 0)), vec![1, 2]);
}

#[test]
fn a_nonce_without_predecessor_is_given_up() {
    let register = register_of(vec![too_high(2, 8, 1, 5)]);
    let mut builder = build_batch(vec![hash(2)]);
    simulate(&mut builder, &register, 2, too_high(2, 8, 1, 5));
    assert!(done(builder.next(&register, 0)).is_empty());
}

#[test]
fn missing_funds_wait_for_payments() {
    // transaction 3 needs 5 for gas and 10 for its value, and its sender has 4
    let register = register_of(vec![
        paying(1, 1, 3, 6),
        paying(2, 2, 3, 5),
        unfunded(3, 9),
        paying(4, 4, 3, 100),
    ]);
    let mut builder = build_batch(vec![hash(3)]);
    simulate(&mut builder, &register, 3, unfunded(3, 9));
    match asked(builder.next(&register, 0)) {
        Question::Balance(account) => assert_eq!(account, address(3)),
        other => panic!("asked: {:?}", other),
    }
    builder.answer(Answer::Balance(amount(4)));
    // each payment is simulated once for its amount and once for its own dependencies
    simulate(&mut builder, &register, 1, paying(1, 1, 3, 6));
    simulate(&mut builder, &register, 1, paying(1, 1, 3, 6));
    simulate(&mut builder, &register, 2, paying(2, 2, 3, 5));
    simulate(&mut builder, &register, 2, paying(2, 2, 3, 5));
    take(&mut builder, &register, 2);
    // transaction 3 still waits for transaction 1
    take(&mut builder, &register, 1);
    simulate(&mut builder, &register, 3, fine(3, 9));
    take(&mut builder, &register, 3);
    assert_eq!(done(builder.next(&register, 0)), vec![2, 1, 3]);
}

#[test]
fn funds_that_do_not_suffice_are_not_waited_for() {
    let register = register_of(vec![paying(1, 1, 3, 6), unfunded(3, 9)]);
    let mut builder = build_batch(vec![hash(3)]);
    simulate(&mut builder, &register, 3, unfunded(3, 9));
    assert!(matches!(asked(builder.next(&register, 0)), Question::Balance(_)));
    builder.answer(Answer::Balance(amount(4)));
    // this time the transaction pays nothing to the sender
    simulate(&mut builder, &register, 1, fine(1, 1));
    assert!(done(builder.next(&register, 0)).is_empty());
}

#[test]
fn losses_are_no_funds() {
    let register = register_of(vec![paying(1, 1, 3, 6), unfunded(3, 9)]);
    let mut builder = build_batch(vec![hash(3)]);
    simulate(&mut builder, &register, 3, unfunded(3, 9));
    builder.answer(Answer::Balance(amount(10)));
    // in the current state the transaction takes from the sender what is missing
    simulate(&mut builder, &register, 1, paying(1, 1, 3, -5));
    assert!(done(builder.next(&register, 0)).is_empty());
}

#[test]
fn transactions_that_pay_nothing_are_not_waited_for() {
    let register = register_of(vec![paying(1, 9, 3, 6), paying(2, 1, 3, 6), unfunded(3, 8)]);
    let mut builder = build_batch(vec![hash(3)]);
    simulate(&mut builder, &register, 3, unfunded(3, 8));
    builder.answer(Answer::Balance(amount(9)));
    simulate(&mut builder, &register, 1, paying(1, 9, 3, 0));
    simulate(&mut builder, &register, 2, paying(2, 1, 3, 6));
    simulate(&mut builder, &register, 2, paying(2, 1, 3, 6));
    take(&mut builder, &register, 2);
    simulate(&mut builder, &register, 3, fine(3, 8));
    take(&mut builder, &register, 3);
    assert_eq!(done(builder.next(&register, 0)), vec![2, 3]);
}

#[test]
fn other_errors_have_no_dependencies() {
    let error = SimulationError::BlockGasExhausted;
    let register = register_of(vec![simulation(1, 1, vec![error])]);
    let mut builder = build_batch(vec![hash(1)]);
    simulate(&mut builder, &register, 1, simulation(1, 1, vec![error]));
    assert!(done(builder.next(&register, 0)).is_empty());
}

#[test]
fn extended_batches_simulate_anew() {
    let register = register_of(vec![fine(1, 3), fine(2, 8)]);
    let mut builder = build_extended_batch(vec![hash(1), hash(2)], &vec![hash(7)]);
    simulate(&mut builder, &register, 1, fine(1, 3));
    let error = SimulationError::BlockBlobGasExhausted;
    simulate(&mut builder, &register, 2, simulation(2, 8, vec![error]));
    simulate(&mut builder, &register, 2, simulation(2, 8, vec![error]));
    take(&mut builder, &register, 1);
    assert_eq!(done(builder.next(&register, 0)), vec![1]);
}

#[test]
fn included_transactions_are_no_dependencies() {
    // transaction 1 has the nonce before, but is already included
    let register = register_of(vec![fine(1, 3), too_high(2, 8, 1, 2)]);
    let mut builder = build_extended_batch(vec![hash(2)], &vec![hash(1)]);
    simulate(&mut builder, &register, 2, too_high(2, 8, 1, 2));
    simulate(&mut builder, &register, 2, too_high(2, 8, 1, 2));
    assert!(done(builder.next(&register, 0)).is_empty());
}

fn fault_of(progress: Progress) -> Fault {
    match progress {
        Progress::Fault(fault) => fault,
        _ => panic!("a fault was expected"),
    }
}

#[test]
fn answers_have_to_fit_their_questions() {
    let register = register_of(vec![fine(1, 3)]);
    let mut builder = build_batch(vec![hash(1)]);
    let question = asked(builder.next(&register, 0));
    assert!(question.is_answered_by(&Answer::Includability(vec![])));
    assert!(!question.is_answered_by(&Answer::Executed));
    builder.answer(Answer::Executed);
    assert!(matches!(fault_of(builder.next(&register, 0)), Fault::UnexpectedAnswer));
}

#[test]
fn a_register_of_another_block_is_of_no_use() {
    let register = register_of(vec![fine(1, 3)]);
    let builder = build_batch(vec![hash(1)]);
    assert!(matches!(fault_of(builder.next(&register, 1)), Fault::NotRegistered(h) if h == hash(1)));
}

#[test]
fn unknown_nonces_and_wrong_balances_are_faults() {
    let mut nameless = too_high(2, 8, 1, 2);
    nameless.nonces_required = vec![];
    let register = register_of(vec![too_high(2, 8, 1, 2), unfunded(3, 9), paying(4, 1, 3, 1)]);
    let mut builder = build_batch(vec![hash(2)]);
    builder.answer(Answer::Simulated(nameless));
    assert!(matches!(fault_of(builder.next(&register, 0)), Fault::NonceUnknown(h) if h == hash(2)));

    let mut builder = build_batch(vec![hash(2)]);
    builder.answer(Answer::Simulated(too_high(2, 8, 1, 0)));
    assert!(matches!(fault_of(builder.next(&register, 0)), Fault::NonceUnknown(_)));

    let mut builder = build_batch(vec![hash(3)]);
    builder.answer(Answer::Simulated(unfunded(3, 9)));
    builder.answer(Answer::Balance(amount(16)));
    assert!(matches!(fault_of(builder.next(&register, 0)), Fault::FundsNotMissing(h) if h == hash(3)));

    let mut builder = build_batch(vec![hash(3)]);
    builder.answer(Answer::Simulated(unfunded(3, 9)));
    builder.answer(Answer::Balance(amount(0)));
    let mut huge = paying(4, 1, 3, 1);
    huge.transfer_diffs.insert(address(3), I512::from_limbs([0, 0, 0, 0, 1, 0, 0, 0]));
    builder.answer(Answer::Simulated(huge));
    assert!(matches!(fault_of(builder.next(&register, 0)), Fault::TransferTooLarge(h) if h == hash(4)));
}

#[test]
fn dependencies_are_found_directly() {
    let register = register_of(vec![fine(1, 3), too_high(2, 8, 1, 2)]);
    let answers = vec![Answer::Simulated(too_high(2, 8, 1, 2)), Answer::Simulated(fine(1, 3))];
    let (found, used) =
        find_transaction_depencencies(hash(2), &register, &vec![], &answers, 0).ok().unwrap();
    assert_eq!(found.repl, vec![hash(1)]);
    assert_eq!(found.map.get(&hash(1)), Some(&vec![hash(2)]));
    assert_eq!(used, 2);
    assert!(matches!(
        find_transaction_depencencies(hash(2), &register, &vec![], &vec![], 0),
        Err(Halt::Ask(Question::Simulate(t))) if t.transaction.hash == hash(2)
    ));
}

#[test]
fn maps_of_waiting_transactions_are_merged() {
    let mut a: Table<32, Vec<TxHash>> = Table::new();
    a.insert(hash(1), vec![hash(5), hash(6)]);
    a.insert(hash(2), vec![hash(7)]);
    let mut b: Table<32, Vec<TxHash>> = Table::new();
    b.insert(hash(3), vec![hash(8), hash(8)]);
    b.insert(hash(1), vec![hash(6), hash(9), hash(5)]);
    let merged = merge_tx_maps(a, b);
    assert_eq!(merged.get(&hash(1)), Some(&vec![hash(5), hash(6), hash(9)]));
    assert_eq!(merged.get(&hash(2)), Some(&vec![hash(7)]));
    assert_eq!(merged.get(&hash(3)), Some(&vec![hash(8), hash(8)]));
    assert_eq!(merged.len(), 3);
}

#[test]
fn no_transaction_is_in_a_batch_twice() {
    let register = register_of(vec![fine(1, 3), fine(2, 8)]);
    let mut builder = build_batch(vec![hash(1), hash(2), hash(1), hash(2)]);
    take(&mut builder, &register, 2);
    take(&mut builder, &register, 1);
    assert_eq!(done(builder.next(&register, 0)), vec![2, 1]);
}
