use concurrent_proposers::backend::{
    Backend, BlobExcessGasAndPrice, BlockEnv, CfgEnv, Env, Header, NextBlock, TimestampSource,
};
use concurrent_proposers::fixed_bytes::{Address, FixedBytes};
use concurrent_proposers::num::U256;

fn address(n: u8) -> Address {
    FixedBytes { bytes: [n; 20] }
}

fn root(n: u8) -> FixedBytes<32> {
    FixedBytes { bytes: [n; 32] }
}

fn amount(n: u64) -> U256 {
    U256::from_limbs([n, 0, 0, 0])
}

fn env(spec: u8) -> Env {
    Env {
        block_env: BlockEnv {
            number: amount(41),
            beneficiary: address(1),
            timestamp: amount(5),
            gas_limit: 1000,
            basefee: 7,
            prevrandao: Some(root(1)),
            blob_excess_gas_and_price: None,
        },
        cfg_env: CfgEnv::new(spec),
    }
}

fn next_block() -> NextBlock {
    NextBlock {
        base_fee: 9,
        excess_blob_gas_and_price: Some(BlobExcessGasAndPrice { excess_blob_gas: 2, blob_gasprice: 3 }),
        fork_header: Some(Header {
            mix_hash: Some(root(2)),
            gas_limit: 2000,
            beneficiary: address(2),
            parent_beacon_block_root: Some(root(3)),
            timestamp: 300,
        }),
        previous_timestamp: Some(100),
        clock_timestamp: Some(200),
    }
}

fn backend() -> Backend {
    Backend {
        fetch_mix_hash: false,
        fetch_block_gas_limit: false,
        fetch_block_coinbase: false,
        fetch_parent_beacon_root: false,
        exact_block_timestamps: false,
        fetch_block_timestamps: false,
    }
}

#[test]
fn without_settings_the_clock_decides() {
    let node = backend();
    assert!(!node.needs_fork_header());
    assert_eq!(node.timestamp_source(), TimestampSource::Clock);
    let (after, stored) = node.build_evm_environment(env(18), next_block());
    assert_eq!(after.block_env.number, amount(42));
    assert_eq!(after.block_env.timestamp, amount(200));
    assert_eq!(after.block_env.basefee, 9);
    assert_eq!(after.block_env.gas_limit, 1000);
    assert_eq!(after.block_env.beneficiary, address(1));
    assert_eq!(after.block_env.prevrandao, Some(root(1)));
    assert_eq!(after.block_env.blob_excess_gas_and_price.unwrap().blob_gasprice, 3);
    assert_eq!(after.cfg_env, CfgEnv::new(18));
    assert_eq!(stored, None);
}

#[test]
fn fetched_values_take_the_place_of_the_old_ones() {
    let mut node = backend();
    node.fetch_mix_hash = true;
    node.fetch_block_gas_limit = true;
    node.fetch_block_coinbase = true;
    node.fetch_block_timestamps = true;
    assert!(node.needs_fork_header());
    let (after, stored) = node.build_evm_environment(env(18), next_block());
    assert_eq!(after.block_env.prevrandao, Some(root(2)));
    assert_eq!(after.block_env.gas_limit, 2000);
    assert_eq!(after.block_env.beneficiary, address(2));
    assert_eq!(after.block_env.timestamp, amount(300));
    assert_eq!(stored, None);
}

#[test]
fn exact_timestamps_go_before_fetched_ones() {
    let mut node = backend();
    node.fetch_block_timestamps = true;
    node.exact_block_timestamps = true;
    assert_eq!(node.timestamp_source(), TimestampSource::PreviousBlock);
    assert!(!node.needs_fork_header());
    let (after, _) = node.build_evm_environment(env(18), next_block());
    assert_eq!(after.block_env.timestamp, amount(112));
}

#[test]
fn the_beacon_root_is_stored_from_cancun_on() {
    let mut node = backend();
    node.fetch_parent_beacon_root = true;
    assert_eq!(node.build_evm_environment(env(16), next_block()).1, None);
    assert_eq!(node.build_evm_environment(env(17), next_block()).1, Some(root(3)));
    assert_eq!(node.build_evm_environment(env(20), next_block()).1, Some(root(3)));
    let mut next = next_block();
    next.fork_header.as_mut().unwrap().parent_beacon_block_root = None;
    assert_eq!(node.build_evm_environment(env(17), next).1, None);
}

#[test]
fn the_number_of_the_block_is_held_at_the_largest_value() {
    let mut before = env(18);
    before.block_env.number = U256::from_limbs([u64::MAX; 4]);
    let (after, _) = backend().build_evm_environment(before, next_block());
    assert_eq!(after.block_env.number, U256::from_limbs([u64::MAX; 4]));
}

#[test]
fn what_the_settings_ask_for_has_to_be_known() {
    let mut node = backend();
    let mut next = next_block();
    next.clock_timestamp = None;
    assert!(!node.is_provided(&next));
    node.exact_block_timestamps = true;
    assert!(node.is_provided(&next));
    next.previous_timestamp = Some(u64::MAX - 11);
    assert!(!node.is_provided(&next));
    next.previous_timestamp = Some(u64::MAX - 12);
    assert!(node.is_provided(&next));
    next.fork_header = None;
    assert!(node.is_provided(&next));
    node.fetch_block_coinbase = true;
    assert!(!node.is_provided(&next));
}
