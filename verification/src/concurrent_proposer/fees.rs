//! Sharing the priority fees of a block among the proposers.

use crate::concurrent_proposer::decisions;
use crate::num;
use crate::num::U256;
use crate::simulation::TransactionAccessSimulationResult;
use vstd::prelude::*;

verus! {

/// The priority fees of the first `count` transactions of a block, held at the largest value.
pub open spec fn total_priority_fees(block_sim: Seq<TransactionAccessSimulationResult>, count: int) -> nat
    decreases count,
{
    if count <= 0 {
        0
    } else {
        num::u256_sat_add(total_priority_fees(block_sim, count - 1), block_sim[count - 1].priority_fee@)
    }
}

/// The gas of all proposers together.
pub open spec fn total_gas(gas_contributed: Seq<u64>) -> nat {
    decisions::sum(gas_contributed.map_values(|g: u64| g as nat))
}

/// Whether the shares can be computed: the gas of all proposers fits in 64 bits and is not zero
/// where there is a proposer, and no product of fees and gas needs more than 256 bits.
pub open spec fn shares_defined(fees: nat, gas_contributed: Seq<u64>) -> bool {
    &&& total_gas(gas_contributed) <= u64::MAX
    &&& gas_contributed.len() > 0 ==> total_gas(gas_contributed) > 0
    &&& forall|i: int|
        0 <= i < gas_contributed.len() ==> fees * (#[trigger] gas_contributed[i]) < num::u256_modulus()
}

/// The part of the fees that a proposer gets for its gas, rounded down.
pub open spec fn share(fees: nat, gas: u64, all_gas: nat) -> nat {
    (fees * (gas as nat)) / all_gas
}

/// The priority fees of a block, held at the largest value.
pub fn sum_priority_fees(block_sim: &Vec<TransactionAccessSimulationResult>) -> (r: U256)
    ensures
        r@ == total_priority_fees(block_sim@, block_sim@.len() as int),
{
    let mut total: U256 = U256::zero();
    let mut i: usize = 0;
    while i < block_sim.len()
        invariant
            0 <= i <= block_sim@.len(),
            total@ == total_priority_fees(block_sim@, i as int),
        decreases block_sim@.len() - i,
    {
        total = total.saturating_add(block_sim[i].priority_fee);
        i = i + 1;
    }
    total
}

fn sum_gas(gas_contributed: &Vec<u64>) -> (r: Option<u64>)
    ensures
        r is Some <==> total_gas(gas_contributed@) <= u64::MAX,
        r matches Some(sum) ==> sum == total_gas(gas_contributed@),
{
    let ghost all = gas_contributed@.map_values(|g: u64| g as nat);
    let mut sum: u64 = 0;
    let mut i: usize = 0;
    while i < gas_contributed.len()
        invariant
            all == gas_contributed@.map_values(|g: u64| g as nat),
            0 <= i <= all.len(),
            sum == decisions::sum(all.take(i as int)),
        decreases all.len() - i,
    {
        assert(all.take(i + 1).drop_last() =~= all.take(i as int));
        match sum.checked_add(gas_contributed[i]) {
            None => {
                proof {
                    lemma_sum_prefix(all, i + 1);
                }
                return None;
            },
            Some(more) => {
                sum = more;
            },
        }
        i = i + 1;
    }
    assert(all.take(all.len() as int) =~= all);
    Some(sum)
}

proof fn lemma_sum_prefix(s: Seq<nat>, count: int)
    requires
        0 <= count <= s.len(),
    ensures
        decisions::sum(s.take(count)) <= decisions::sum(s),
    decreases s.len() - count,
{
    if count < s.len() {
        assert(s.take(count + 1).drop_last() =~= s.take(count));
        lemma_sum_prefix(s, count + 1);
    } else {
        assert(s.take(count) =~= s);
    }
}

/// Whether the shares of the proposers can be computed.
pub fn can_share(fees: U256, gas_contributed: &Vec<u64>) -> (r: bool)
    ensures
        r == shares_defined(fees@, gas_contributed@),
{
    match sum_gas(gas_contributed) {
        None => {
            return false;
        },
        Some(sum) => {
            if gas_contributed.len() > 0 && sum == 0 {
                return false;
            }
        },
    }
    let mut i: usize = 0;
    while i < gas_contributed.len()
        invariant
            0 <= i <= gas_contributed@.len(),
            forall|j: int|
                0 <= j < i ==> fees@ * (#[trigger] gas_contributed@[j]) < num::u256_modulus(),
        decreases gas_contributed@.len() - i,
    {
        if fees.checked_mul(U256::from_u64(gas_contributed[i])).is_none() {
            assert(!(fees@ * gas_contributed@[i as int] < num::u256_modulus()));
            return false;
        }
        i = i + 1;
    }
    true
}

/// Shares fees among proposers by the gas that each is credited with, rounding down.
pub fn share_priority_fees(fees: U256, gas_contributed: &Vec<u64>) -> (r: Vec<U256>)
    requires
        shares_defined(fees@, gas_contributed@),
    ensures
        r@.len() == gas_contributed@.len(),
        forall|i: int|
            0 <= i < r@.len() ==> (#[trigger] r@[i])@ == share(
                fees@,
                gas_contributed@[i],
                total_gas(gas_contributed@),
            ),
{
    let mut shares: Vec<U256> = Vec::new();
    if gas_contributed.len() == 0 {
        return shares;
    }
    let all_gas = U256::from_u64(sum_gas(gas_contributed).unwrap());
    let mut i: usize = 0;
    while i < gas_contributed.len()
        invariant
            shares_defined(fees@, gas_contributed@),
            gas_contributed@.len() > 0,
            all_gas@ == total_gas(gas_contributed@),
            0 <= i <= gas_contributed@.len(),
            shares@.len() == i,
            forall|j: int|
                0 <= j < i ==> (#[trigger] shares@[j])@ == share(
                    fees@,
                    gas_contributed@[j],
                    total_gas(gas_contributed@),
                ),
        decreases gas_contributed@.len() - i,
    {
        assert(fees@ * gas_contributed@[i as int] < num::u256_modulus());
        let product = fees.checked_mul(U256::from_u64(gas_contributed[i])).unwrap();
        shares.push(product.wrapping_div(all_gas));
        i = i + 1;
    }
    shares
}

/// The shares of all proposers.
pub open spec fn shares(fees: nat, gas_contributed: Seq<u64>) -> Seq<nat> {
    gas_contributed.map_values(|g: u64| share(fees, g, total_gas(gas_contributed)))
}

/// The proposers together get no more than the fees, and lose to rounding less than one unit each.
pub proof fn law_shares_add_up(fees: nat, gas_contributed: Seq<u64>)
    requires
        total_gas(gas_contributed) > 0,
    ensures
        decisions::sum(shares(fees, gas_contributed)) <= fees,
        fees < decisions::sum(shares(fees, gas_contributed)) + gas_contributed.len(),
{
    let all = total_gas(gas_contributed);
    let gas = gas_contributed.map_values(|g: u64| g as nat);
    let parts = shares(fees, gas_contributed);
    let count = gas_contributed.len() as int;
    lemma_shares_prefix(fees, gas, parts, all, count);
    assert(gas.take(count) =~= gas);
    assert(parts.take(count) =~= parts);
    let s = decisions::sum(parts);
    assert(s <= fees) by (nonlinear_arith)
        requires
            all * s <= fees * all,
            all > 0,
    ;
    assert(fees < s + count) by (nonlinear_arith)
        requires
            fees * all < all * s + count * all,
            all > 0,
    ;
}

proof fn lemma_shares_prefix(fees: nat, gas: Seq<nat>, parts: Seq<nat>, all: nat, count: int)
    requires
        all > 0,
        parts.len() == gas.len(),
        forall|i: int| 0 <= i < gas.len() ==> parts[i] == (fees * #[trigger] gas[i]) / all,
        0 <= count <= gas.len(),
    ensures
        all * decisions::sum(parts.take(count)) <= fees * decisions::sum(gas.take(count)),
        count > 0 ==> fees * decisions::sum(gas.take(count)) < all * decisions::sum(parts.take(count))
            + count * all,
    decreases count,
{
    if count > 0 {
        lemma_shares_prefix(fees, gas, parts, all, count - 1);
        assert(parts.take(count).drop_last() =~= parts.take(count - 1));
        assert(gas.take(count).drop_last() =~= gas.take(count - 1));
        let p = decisions::sum(parts.take(count - 1));
        let g = decisions::sum(gas.take(count - 1));
        let x = (fees * gas[count - 1]) as int;
        let y = parts[count - 1];
        let z = gas[count - 1];
        vstd::arithmetic::div_mod::lemma_fundamental_div_mod(x, all as int);
        vstd::arithmetic::div_mod::lemma_mod_bound(x, all as int);
        assert(all * (p + y) == all * p + all * y) by (nonlinear_arith);
        assert(fees * (g + z) == fees * g + fees * z) by (nonlinear_arith);
        assert(count * all == (count - 1) * all + all) by (nonlinear_arith);
        if count == 1 {
            assert(p == 0);
            assert(g == 0);
            assert(all * p == 0 && fees * g == 0) by (nonlinear_arith)
                requires
                    p == 0,
                    g == 0,
            ;
        }
    } else {
        assert(decisions::sum(parts.take(0)) == 0);
        assert(all * 0nat == 0 && fees * 0nat == 0);
    }
}

/// Each proposer gets its part of the fees by its part of the gas, rounded down: what it gets, times
/// the gas of all, lies below the fees times its own gas by less than the gas of all. So proposers with
/// the same gas get the same, more gas never gets less, and no gas gets nothing.
pub proof fn law_shares_are_proportional(fees: nat, gas_contributed: Seq<u64>, i: int, j: int)
    requires
        0 <= i < gas_contributed.len(),
        0 <= j < gas_contributed.len(),
        decisions::sum(gas_contributed.map_values(|g: u64| g as nat)) > 0,
    ensures
        ({
            let all = decisions::sum(gas_contributed.map_values(|g: u64| g as nat));
            let parts = shares(fees, gas_contributed);
            &&& parts.len() == gas_contributed.len()
            &&& parts[i] * all <= fees * gas_contributed[i]
            &&& fees * gas_contributed[i] < parts[i] * all + all
            &&& gas_contributed[i] <= gas_contributed[j] ==> parts[i] <= parts[j]
            &&& gas_contributed[i] == 0 ==> parts[i] == 0
            &&& gas_contributed[i] == all ==> parts[i] == fees
        }),
{
    let all = decisions::sum(gas_contributed.map_values(|g: u64| g as nat));
    let parts = shares(fees, gas_contributed);
    let g = gas_contributed[i] as nat;
    let h = gas_contributed[j] as nat;
    assert(parts[i] == (fees * g) / all);
    assert(parts[j] == (fees * h) / all);
    vstd::arithmetic::div_mod::lemma_fundamental_div_mod((fees * g) as int, all as int);
    vstd::arithmetic::div_mod::lemma_mod_bound((fees * g) as int, all as int);
    assert(all * parts[i] == parts[i] * all) by (nonlinear_arith);
    if g <= h {
        assert(fees * g <= fees * h) by (nonlinear_arith)
            requires
                g <= h,
        ;
        vstd::arithmetic::div_mod::lemma_div_is_ordered((fees * g) as int, (fees * h) as int, all as int);
    }
    if g == 0 {
        assert(fees * g == 0) by (nonlinear_arith)
            requires
                g == 0,
        ;
        vstd::arithmetic::div_mod::lemma_div_of0(all as int);
    }
    if g == all {
        vstd::arithmetic::div_mod::lemma_div_by_multiple(fees as int, all as int);
    }
}

/// The priority fees of single transactions.
pub open spec fn paid_fees(block_sim: Seq<TransactionAccessSimulationResult>) -> Seq<nat> {
    block_sim.map_values(|sim: TransactionAccessSimulationResult| sim.priority_fee@)
}

/// The fees that are shared are the sum of the priority fees of all transactions of the block, or the
/// largest number of 256 bits where the sum needs more.
pub proof fn law_fees_of_the_block_are_shared(block_sim: Seq<TransactionAccessSimulationResult>)
    ensures
        ({
            let total = decisions::sum(paid_fees(block_sim));
            total_priority_fees(block_sim, block_sim.len() as int) == if total < num::u256_modulus() {
                total as int
            } else {
                num::u256_modulus() - 1
            }
        }),
{
    lemma_total_is_sum(block_sim, block_sim.len() as int);
    assert(paid_fees(block_sim).take(block_sim.len() as int) =~= paid_fees(block_sim));
}

proof fn lemma_total_is_sum(block_sim: Seq<TransactionAccessSimulationResult>, count: int)
    requires
        0 <= count <= block_sim.len(),
    ensures
        ({
            let total = decisions::sum(paid_fees(block_sim).take(count));
            total_priority_fees(block_sim, count) == if total < num::u256_modulus() {
                total as int
            } else {
                num::u256_modulus() - 1
            }
        }),
    decreases count,
{
    if count > 0 {
        lemma_total_is_sum(block_sim, count - 1);
        assert(paid_fees(block_sim).take(count).drop_last() =~= paid_fees(block_sim).take(count - 1));
        assert(paid_fees(block_sim)[count - 1] == block_sim[count - 1].priority_fee@);
    }
}

/// The fees can be shared exactly where the proposers together have gas, if there are any, which fits
/// in 64 bits, and no product of the fees and the gas of a proposer needs more than 256 bits.
pub proof fn law_fees_can_be_shared(fees: nat, gas_contributed: Seq<u64>)
    ensures
        shares_defined(fees, gas_contributed) <==> {
            let all = decisions::sum(gas_contributed.map_values(|g: u64| g as nat));
            &&& all <= 0xffff_ffff_ffff_ffff
            &&& gas_contributed.len() == 0 || all > 0
            &&& forall|i: int|
                0 <= i < gas_contributed.len() ==> fees * (#[trigger] gas_contributed[i])
                    < num::u256_modulus()
        },
{
}

} // verus!
