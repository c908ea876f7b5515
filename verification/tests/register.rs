use concurrent_proposers::fixed_bytes::{Address, FixedBytes, TxHash};
use concurrent_proposers::num::{I512, U256};
use concurrent_proposers::simulation::TransactionAccessSimulationResult;
use concurrent_proposers::table::Table;
use concurrent_proposers::transaction::{BlockchainError, TypedTransaction};
use concurrent_proposers::transaction_register::TransactionRegister;

fn hash(n: u8) -> TxHash {
    FixedBytes { bytes: [n; 32] }
}

fn address(n: u8) -> Address {
    FixedBytes { bytes: [n; 20] }
}

fn tx(n: u8) -> TypedTransaction {
    TypedTransaction {
        hash: hash(n),
        signer: Some(address(n)),
        tx_type: 2,
        gas_limit: 21_000,
        gas_price: 10,
        gas_priority_fee: Some(1),
        blob_gas: None,
        value: U256::zero(),
        max_cost: 210_000,
    }
}

fn simulation(n: u8) -> TransactionAccessSimulationResult {
    TransactionAccessSimulationResult {
        hash: hash(n),
        accesses: Table::new(),
        writes: Table::new(),
        transfer_diffs: Table::new(),
        success: true,
        errors: vec![],
        gas_used: n as u64,
        blob_gas_used: 0,
        burned_ether: U256::zero(),
        priority_fee: U256::zero(),
        sender: address(n),
        coinbase: address(0),
        effective_gas_price: 0,
        max_gas_cost: 0,
        nonces_required: vec![(address(n), 5)],
        nonces_possible: vec![],
    }
}

fn positive(n: u64) -> I512 {
    I512::from_limbs([n, 0, 0, 0, 0, 0, 0, 0])
}

fn negative_one() -> I512 {
    I512::from_limbs([u64::MAX; 8])
}

fn register_of(ns: &[u8]) -> TransactionRegister {
    let mut register = TransactionRegister::new();
    for n in ns {
        register.register_transaction(tx(*n), Ok(vec![simulation(*n)]), 0).unwrap();
    }
    register
}

#[test]
fn registered_transactions_are_found_again() {
    let mut register = TransactionRegister::new();
    let (h, sim) = register.register_transaction(tx(1), Ok(vec![simulation(1)]), 8).unwrap();
    assert_eq!(h, hash(1));
    assert_eq!(sim.gas_used, 1);
    assert!(register.has(&hash(1)));
    assert!(!register.has(&hash(2)));
    assert_eq!(register.get_simulation(&hash(1), 8).unwrap().gas_used, 1);
    assert_eq!(register.current_simulation(&hash(1), 8).unwrap().sender, address(1));
    assert_eq!(register.get_raw_transaction(&hash(1), 8).unwrap().max_cost, 210_000);
    assert!(register.get_simulation(&hash(2), 8).is_none());
    assert_eq!(register.get_pending_tx(&hash(1)).sender, address(1));
}

#[test]
fn a_transaction_that_is_registered_again_gets_its_new_simulation() {
    let mut register = register_of(&[1, 2]);
    let mut sim = simulation(1);
    sim.gas_used = 77;
    register.register_transaction(tx(1), Ok(vec![sim]), 0).unwrap();
    assert_eq!(register.get_simulation(&hash(1), 0).unwrap().gas_used, 77);
    assert_eq!(register.get_simulation(&hash(2), 0).unwrap().gas_used, 2);
}

#[test]
fn a_new_block_forgets_everything() {
    let mut register = register_of(&[1, 2]);
    assert!(register.current_simulation(&hash(1), 1).is_none());
    assert!(register.has(&hash(1)));
    assert!(register.get_simulation(&hash(1), 1).is_none());
    assert!(!register.has(&hash(1)));
    assert!(register.get_raw_transaction(&hash(2), 0).is_none());
    register.register_transaction(tx(3), Ok(vec![simulation(3)]), 2).unwrap();
    assert!(register.get_raw_transactions(&vec![hash(3)], 2).is_some());
    assert!(register.get_raw_transactions(&vec![hash(3)], 3).is_none());
}

#[test]
fn exactly_one_simulation_is_needed() {
    let mut register = TransactionRegister::new();
    match register.register_transaction(tx(1), Ok(vec![]), 0) {
        Err(BlockchainError::Message(m)) => assert_eq!(m, "no simulation result found"),
        _ => panic!("a transaction without simulation was registered"),
    }
    assert!(register.register_transaction(tx(1), Ok(vec![simulation(1), simulation(1)]), 0).is_err());
    let failed = register.register_transaction(tx(1), Err(BlockchainError::Other(6)), 0);
    assert!(matches!(failed, Err(BlockchainError::Other(6))));
    assert!(!register.has(&hash(1)));
}

#[test]
fn all_raw_transactions_are_found_or_none() {
    let mut register = register_of(&[1, 2]);
    let txs = register.get_raw_transactions(&vec![hash(2), hash(1), hash(2)], 0).unwrap();
    let hashes: Vec<TxHash> = txs.iter().map(|t| t.hash).collect();
    assert_eq!(hashes, vec![hash(2), hash(1), hash(2)]);
    assert!(register.get_raw_transactions(&vec![hash(2), hash(3)], 0).is_none());
    assert!(register.get_raw_transactions(&vec![], 0).unwrap().is_empty());
    let pending = register.get_pending_txs(&vec![hash(2), hash(1)]);
    assert_eq!(pending[0].sender, address(2));
    assert_eq!(pending[1].sender, address(1));
}

#[test]
fn unsigned_transactions_have_no_sender() {
    let mut register = TransactionRegister::new();
    let mut unsigned = tx(1);
    unsigned.signer = None;
    register.register_transaction(unsigned, Ok(vec![simulation(1)]), 0).unwrap();
    assert!(register.has(&hash(1)));
    assert!(!register.has_signed(&hash(1)));
}

#[test]
fn transactions_are_found_by_nonce() {
    let mut register = register_of(&[1, 2]);
    let mut other = simulation(3);
    other.nonces_possible = vec![(address(9), 5), (address(1), 8)];
    register.register_transaction(tx(3), Ok(vec![other]), 0).unwrap();
    let mut later = simulation(4);
    later.sender = address(1);
    later.nonces_required = vec![(address(1), 8)];
    register.register_transaction(tx(4), Ok(vec![later]), 0).unwrap();

    assert!(register.knows_nonces(&address(1), &vec![]));
    assert_eq!(register.find_transaction_with_nonce(&address(1), 5, &vec![]), Some(hash(1)));
    assert_eq!(register.find_transaction_with_nonce(&address(1), 5, &vec![hash(1)]), None);
    assert_eq!(register.find_transaction_with_nonce(&address(1), 6, &vec![]), None);
    assert_eq!(register.find_transaction_with_nonce(&address(1), 8, &vec![]), Some(hash(3)));
    assert_eq!(register.find_transaction_with_nonce(&address(1), 8, &vec![hash(3)]), Some(hash(4)));
    assert_eq!(register.find_transaction_with_nonce(&address(9), 5, &vec![]), Some(hash(3)));
}

#[test]
fn nonces_of_a_sender_can_be_unknown() {
    let mut register = TransactionRegister::new();
    let mut sim = simulation(1);
    sim.nonces_required = vec![];
    register.register_transaction(tx(1), Ok(vec![sim]), 0).unwrap();
    assert!(!register.knows_nonces(&address(1), &vec![]));
    assert!(register.knows_nonces(&address(1), &vec![hash(1)]));
    assert!(register.knows_nonces(&address(2), &vec![]));
}

#[test]
fn transactions_are_found_by_payment() {
    let mut register = TransactionRegister::new();
    for (n, diff) in [(1, positive(3)), (2, negative_one()), (3, I512::zero()), (4, positive(1))] {
        let mut sim = simulation(n);
        sim.transfer_diffs.insert(address(9), diff);
        register.register_transaction(tx(n), Ok(vec![sim]), 0).unwrap();
    }
    assert_eq!(register.find_transaction_paying(&address(9), &vec![]), vec![hash(1), hash(4)]);
    assert_eq!(register.find_transaction_paying(&address(9), &vec![hash(1)]), vec![hash(4)]);
    assert!(register.find_transaction_paying(&address(8), &vec![]).is_empty());
}

#[test]
fn a_restricted_register_holds_what_it_was_given() {
    let mut register = register_of(&[1, 2, 3]);
    let mut restricted = register.restrict_mempool(&vec![hash(3), hash(1), hash(3)]).ok().unwrap();
    assert!(restricted.has(&hash(1)));
    assert!(!restricted.has(&hash(2)));
    assert_eq!(restricted.get_simulation(&hash(3), 0).unwrap().gas_used, 3);
    assert!(restricted.get_simulation(&hash(3), 1).is_none());
    assert!(matches!(
        register.restrict_mempool(&vec![hash(1), hash(4)]),
        Err(BlockchainError::TransactionNotFound)
    ));
    assert!(register.get_simulation(&hash(2), 0).is_some());
}
