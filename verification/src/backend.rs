//! The settings of the node, and the environment in which the next block is built.

use crate::fixed_bytes::{Address, FixedBytes};
use crate::num;
use crate::num::U256;
use vstd::prelude::*;

verus! {

/// The excess blob gas of a block and the price of blob gas.
#[derive(Clone, Copy, Debug)]
pub struct BlobExcessGasAndPrice {
    pub excess_blob_gas: u64,
    pub blob_gasprice: u128,
}

/// What transactions can learn of the block that they are in.
#[derive(Clone, Copy, Debug)]
pub struct BlockEnv {
    pub number: U256,
    /// the account that gets the priority fees
    pub beneficiary: Address,
    pub timestamp: U256,
    pub gas_limit: u64,
    pub basefee: u64,
    pub prevrandao: Option<FixedBytes<32>>,
    pub blob_excess_gas_and_price: Option<BlobExcessGasAndPrice>,
}

/// The rules by which transactions are executed.
#[derive(Clone, Copy, Debug, PartialEq, Eq, Structural)]
pub struct CfgEnv {
    /// the hard fork whose rules hold, by the number that `revm` gives it
    pub spec: u8,
    /// whether any nonce will do
    pub disable_nonce_check: bool,
    /// whether the sender need not have the funds
    pub disable_balance_check: bool,
    /// whether a transaction may pay less than the base fee
    pub disable_base_fee: bool,
    /// whether a transaction may use more gas than the block has
    pub disable_block_gas_limit: bool,
}

/// The environment in which transactions are executed.
#[derive(Clone, Copy, Debug)]
pub struct Env {
    pub block_env: BlockEnv,
    pub cfg_env: CfgEnv,
}

impl CfgEnv {
    /// The rules of a hard fork with all checks on.
    pub fn new(spec: u8) -> (r: CfgEnv)
        ensures
            r == (CfgEnv {
                spec,
                disable_nonce_check: false,
                disable_balance_check: false,
                disable_base_fee: false,
                disable_block_gas_limit: false,
            }),
    {
        CfgEnv {
            spec,
            disable_nonce_check: false,
            disable_balance_check: false,
            disable_base_fee: false,
            disable_block_gas_limit: false,
        }
    }

    /// The same rules without the checks of nonce, balance, base fee and block gas limit.
    pub open spec fn unchecked(self) -> CfgEnv {
        CfgEnv {
            spec: self.spec,
            disable_nonce_check: true,
            disable_balance_check: true,
            disable_base_fee: true,
            disable_block_gas_limit: true,
        }
    }
}

impl Env {
    /// The environment in which transactions are simulated: that of the block, without the checks of
    /// nonce, balance, base fee and block gas limit.
    pub fn for_simulation(&self) -> (r: Env)
        ensures
            r == (Env { block_env: self.block_env, cfg_env: self.cfg_env.unchecked() }),
    {
        Env {
            block_env: self.block_env,
            cfg_env: CfgEnv {
                spec: self.cfg_env.spec,
                disable_nonce_check: true,
                disable_balance_check: true,
                disable_base_fee: true,
                disable_block_gas_limit: true,
            },
        }
    }
}

/// What is read of the header of a block of the forked chain.
#[derive(Clone, Copy, Debug)]
pub struct Header {
    pub mix_hash: Option<FixedBytes<32>>,
    pub gas_limit: u64,
    pub beneficiary: Address,
    pub parent_beacon_block_root: Option<FixedBytes<32>>,
    pub timestamp: u64,
}

/// What the node knows about the next block.
#[derive(Clone, Copy, Debug)]
pub struct NextBlock {
    pub base_fee: u64,
    pub excess_blob_gas_and_price: Option<BlobExcessGasAndPrice>,
    /// the header of the block with the same number on the forked chain, where it was fetched
    pub fork_header: Option<Header>,
    /// the timestamp of the best block, where it was looked up
    pub previous_timestamp: Option<u64>,
    /// the timestamp of the node's clock, where the clock was asked
    pub clock_timestamp: Option<u64>,
}

/// Where the timestamp of the next block comes from.
#[derive(Clone, Copy, Debug, PartialEq, Eq, Structural)]
pub enum TimestampSource {
    /// the timestamp of the best block
    PreviousBlock,
    /// the block with the same number on the forked chain
    ForkedChain,
    /// the node's clock
    Clock,
}

/// The settings of the node that decide how the next block is built.
#[derive(Clone, Copy, Debug)]
pub struct Backend {
    pub fetch_mix_hash: bool,
    pub fetch_block_gas_limit: bool,
    pub fetch_block_coinbase: bool,
    pub fetch_parent_beacon_root: bool,
    pub exact_block_timestamps: bool,
    pub fetch_block_timestamps: bool,
}

/// The number that `revm` gives the latest hard fork it knows.
pub open spec fn latest_spec() -> u8 {
    20
}

/// The number that `revm` gives the hard fork Cancun.
pub open spec fn cancun() -> u8 {
    17
}

/// The operator `>=` of `revm::primitives::hardfork::SpecId` with Cancun on the right: the order of
/// the hard forks, which is that of their numbers. No hard fork has a number above the latest.
#[verifier::external_body]
fn at_least_cancun(spec: u8) -> (r: bool)
    requires
        spec <= latest_spec(),
    ensures
        r == (spec >= cancun()),
{
    let spec = revm::primitives::hardfork::SpecId::try_from_u8(spec).unwrap();
    spec >= revm::primitives::hardfork::SpecId::CANCUN
}

/// The seconds between two blocks where timestamps are exact.
pub const BLOCK_INTERVAL: u64 = 12;

impl Backend {
    /// Where the timestamp of the next block comes from: exact timestamps go before fetched ones.
    pub open spec fn source(self) -> TimestampSource {
        if self.exact_block_timestamps {
            TimestampSource::PreviousBlock
        } else if self.fetch_block_timestamps {
            TimestampSource::ForkedChain
        } else {
            TimestampSource::Clock
        }
    }

    /// Whether the header of the block with the same number on the forked chain is read.
    pub open spec fn reads_fork(self) -> bool {
        ||| self.fetch_mix_hash
        ||| self.fetch_block_gas_limit
        ||| self.fetch_block_coinbase
        ||| self.fetch_parent_beacon_root
        ||| self.source() == TimestampSource::ForkedChain
    }

    /// Whether all that the settings ask for is known about the next block.
    pub open spec fn provided(self, next: NextBlock) -> bool {
        &&& self.reads_fork() ==> next.fork_header is Some
        &&& self.source() == TimestampSource::PreviousBlock ==> (next.previous_timestamp matches Some(t)
            && t + BLOCK_INTERVAL <= u64::MAX)
        &&& self.source() == TimestampSource::Clock ==> next.clock_timestamp is Some
    }

    /// The timestamp of the next block.
    pub open spec fn timestamp(self, next: NextBlock) -> int {
        match self.source() {
            TimestampSource::PreviousBlock => next.previous_timestamp->Some_0 + BLOCK_INTERVAL,
            TimestampSource::ForkedChain => next.fork_header->Some_0.timestamp as int,
            TimestampSource::Clock => next.clock_timestamp->Some_0 as int,
        }
    }

    /// Whether `after` is the environment of the next block, where `before` is that of the best
    /// block.
    pub open spec fn is_next_env(self, before: Env, next: NextBlock, after: Env) -> bool {
        let old_block = before.block_env;
        let block = after.block_env;
        let fork = next.fork_header->Some_0;
        &&& after.cfg_env == before.cfg_env
        &&& block.basefee == next.base_fee
        &&& block.blob_excess_gas_and_price == next.excess_blob_gas_and_price
        &&& block.number@ == num::u256_sat_add(old_block.number@, 1)
        &&& block.prevrandao == if self.fetch_mix_hash {
            fork.mix_hash
        } else {
            old_block.prevrandao
        }
        &&& block.gas_limit == if self.fetch_block_gas_limit {
            fork.gas_limit
        } else {
            old_block.gas_limit
        }
        &&& block.beneficiary == if self.fetch_block_coinbase {
            fork.beneficiary
        } else {
            old_block.beneficiary
        }
        &&& block.timestamp@ == self.timestamp(next)
    }

    /// The beacon root that is stored at the begin of the next block: that of the forked chain,
    /// where it is fetched and the rules of the hard fork ask for it.
    pub open spec fn beacon_root(self, spec: u8, next: NextBlock) -> Option<FixedBytes<32>> {
        if self.fetch_parent_beacon_root && spec >= cancun() {
            next.fork_header->Some_0.parent_beacon_block_root
        } else {
            None
        }
    }

    /// Where the timestamp of the next block comes from.
    pub fn timestamp_source(&self) -> (r: TimestampSource)
        ensures
            r == self.source(),
    {
        if self.exact_block_timestamps {
            TimestampSource::PreviousBlock
        } else if self.fetch_block_timestamps {
            TimestampSource::ForkedChain
        } else {
            TimestampSource::Clock
        }
    }

    /// Whether the header of the block with the same number on the forked chain is read.
    pub fn needs_fork_header(&self) -> (r: bool)
        ensures
            r == self.reads_fork(),
    {
        self.fetch_mix_hash || self.fetch_block_gas_limit || self.fetch_block_coinbase
            || self.fetch_parent_beacon_root || self.timestamp_source() == TimestampSource::ForkedChain
    }

    /// Whether all that the settings ask for is known about the next block.
    pub fn is_provided(&self, next: &NextBlock) -> (r: bool)
        ensures
            r == self.provided(*next),
    {
        if self.needs_fork_header() && next.fork_header.is_none() {
            return false;
        }
        match self.timestamp_source() {
            TimestampSource::PreviousBlock => match next.previous_timestamp {
                Some(timestamp) => timestamp <= u64::MAX - BLOCK_INTERVAL,
                None => false,
            },
            TimestampSource::ForkedChain => true,
            TimestampSource::Clock => next.clock_timestamp.is_some(),
        }
    }

    /// The environment of the next block, and the beacon root that is to be stored at the begin of
    /// the block, if any.
    pub fn build_evm_environment(&self, env: Env, next: NextBlock) -> (r: (Env, Option<FixedBytes<32>>))
        requires
            self.provided(next),
            env.cfg_env.spec <= latest_spec(),
        ensures
            self.is_next_env(env, next, r.0),
            r.1 == self.beacon_root(env.cfg_env.spec, next),
    {
        let mut block = env.block_env;
        block.basefee = next.base_fee;
        block.blob_excess_gas_and_price = next.excess_blob_gas_and_price;
        block.number = block.number.saturating_add(U256::from_u64(1));
        if self.fetch_mix_hash {
            block.prevrandao = next.fork_header.unwrap().mix_hash;
        }
        if self.fetch_block_gas_limit {
            block.gas_limit = next.fork_header.unwrap().gas_limit;
        }
        if self.fetch_block_coinbase {
            block.beneficiary = next.fork_header.unwrap().beneficiary;
        }
        let parent_beacon_root = if self.fetch_parent_beacon_root {
            next.fork_header.unwrap().parent_beacon_block_root
        } else {
            None
        };
        let timestamp: u64 = match self.timestamp_source() {
            TimestampSource::PreviousBlock => next.previous_timestamp.unwrap() + BLOCK_INTERVAL,
            TimestampSource::ForkedChain => next.fork_header.unwrap().timestamp,
            TimestampSource::Clock => next.clock_timestamp.unwrap(),
        };
        block.timestamp = U256::from_u64(timestamp);
        let stored = if at_least_cancun(env.cfg_env.spec) {
            parent_beacon_root
        } else {
            None
        };
        (Env { block_env: block, cfg_env: env.cfg_env }, stored)
    }
}

/// With exact timestamps the next block comes exactly one interval after the best block, whatever
/// else the settings say.
pub proof fn law_exact_timestamps(backend: Backend, before: Env, next: NextBlock, after: Env)
    requires
        backend.exact_block_timestamps,
        backend.is_next_env(before, next, after),
        next.previous_timestamp is Some,
    ensures
        after.block_env.timestamp@ == next.previous_timestamp->Some_0 + BLOCK_INTERVAL,
{
}

/// Without any setting that fetches, the forked chain has no influence on the next block, and gas
/// limit, beneficiary and randomness stay as they are.
pub proof fn law_fork_is_ignored_without_fetching(
    backend: Backend,
    before: Env,
    next: NextBlock,
    after: Env,
    fork_header: Option<Header>,
)
    requires
        !backend.reads_fork(),
        backend.is_next_env(before, next, after),
    ensures
        backend.is_next_env(before, (NextBlock { fork_header, ..next }), after),
        after.block_env.gas_limit == before.block_env.gas_limit,
        after.block_env.beneficiary == before.block_env.beneficiary,
        after.block_env.prevrandao == before.block_env.prevrandao,
        backend.beacon_root(before.cfg_env.spec, next) is None,
{
}

/// The environment of the next block: its number is one higher, base fee and blob gas are those of the
/// node, and randomness, gas limit and beneficiary are those of the forked chain exactly where they are
/// fetched. With exact timestamps the block comes 12 seconds after the best one; else its timestamp is
/// that of the forked chain where it is fetched, and that of the clock where it is not. The rules stay.
pub proof fn law_next_environment(backend: Backend, before: Env, next: NextBlock, after: Env)
    requires
        backend.is_next_env(before, next, after),
        next.fork_header is Some,
        next.previous_timestamp is Some,
        next.clock_timestamp is Some,
    ensures
        ({
            let fork = next.fork_header->Some_0;
            let old_block = before.block_env;
            let block = after.block_env;
            &&& after.cfg_env == before.cfg_env
            &&& old_block.number@ + 1 < num::u256_modulus() ==> block.number@ == old_block.number@ + 1
            &&& old_block.number@ + 1 == num::u256_modulus() ==> block.number@ == old_block.number@
            &&& block.basefee == next.base_fee
            &&& block.blob_excess_gas_and_price == next.excess_blob_gas_and_price
            &&& backend.fetch_mix_hash ==> block.prevrandao == fork.mix_hash
            &&& !backend.fetch_mix_hash ==> block.prevrandao == old_block.prevrandao
            &&& backend.fetch_block_gas_limit ==> block.gas_limit == fork.gas_limit
            &&& !backend.fetch_block_gas_limit ==> block.gas_limit == old_block.gas_limit
            &&& backend.fetch_block_coinbase ==> block.beneficiary == fork.beneficiary
            &&& !backend.fetch_block_coinbase ==> block.beneficiary == old_block.beneficiary
            &&& backend.exact_block_timestamps ==> block.timestamp@ == next.previous_timestamp->Some_0 + 12
            &&& !backend.exact_block_timestamps && backend.fetch_block_timestamps ==> block.timestamp@
                == fork.timestamp
            &&& !backend.exact_block_timestamps && !backend.fetch_block_timestamps ==> block.timestamp@
                == next.clock_timestamp->Some_0
        }),
{
}

/// The beacon root of the forked chain is stored exactly where it is fetched and the hard fork is Cancun,
/// which has the number 17, or a later one.
pub proof fn law_beacon_root_is_stored_from_cancun_on(backend: Backend, spec: u8, next: NextBlock)
    requires
        next.fork_header is Some,
    ensures
        backend.fetch_parent_beacon_root && spec >= 17 ==> backend.beacon_root(spec, next)
            == next.fork_header->Some_0.parent_beacon_block_root,
        !backend.fetch_parent_beacon_root || spec < 17 ==> backend.beacon_root(spec, next) is None,
{
}

/// The settings can be met exactly where the header of the forked chain is known if anything is fetched,
/// and where the timestamp that they ask for is known and fits in 64 bits.
pub proof fn law_settings_say_what_has_to_be_known(backend: Backend, next: NextBlock)
    ensures
        backend.reads_fork() <==> backend.fetch_mix_hash || backend.fetch_block_gas_limit
            || backend.fetch_block_coinbase || backend.fetch_parent_beacon_root || (
        backend.fetch_block_timestamps && !backend.exact_block_timestamps),
        backend.provided(next) <==> {
            &&& backend.fetch_mix_hash || backend.fetch_block_gas_limit || backend.fetch_block_coinbase
                || backend.fetch_parent_beacon_root || (backend.fetch_block_timestamps
                && !backend.exact_block_timestamps) ==> next.fork_header is Some
            &&& backend.exact_block_timestamps ==> next.previous_timestamp is Some
                && next.previous_timestamp->Some_0 + 12 <= u64::MAX
            &&& !backend.exact_block_timestamps && !backend.fetch_block_timestamps
                ==> next.clock_timestamp is Some
        },
{
}

/// Where nothing is checked, any nonce, any balance, any fee and any amount of gas will do, by the rules
/// of the same hard fork.
pub proof fn law_unchecked_rules_allow_anything(cfg: CfgEnv)
    ensures
        cfg.unchecked().spec == cfg.spec,
        cfg.unchecked().disable_nonce_check,
        cfg.unchecked().disable_balance_check,
        cfg.unchecked().disable_base_fee,
        cfg.unchecked().disable_block_gas_limit,
{
}

} // verus!
