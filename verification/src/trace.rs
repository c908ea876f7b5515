//! What the execution of a transaction leaves behind, and what is read out of it.

use crate::fixed_bytes::{Address, FixedBytes};
use crate::num;
use crate::num::{I512, U256};
use crate::table::Table;
use crate::transaction::SimulationError;
use vstd::prelude::*;

verus! {

/// A write to a storage slot.
#[derive(Clone, Copy, Debug)]
pub struct StorageChange {
    pub key: U256,
    pub value: U256,
    /// the value before the write, where it is known
    pub had_value: Option<U256>,
}

/// One call of the execution: the account whose storage it uses and the storage changes of its
/// steps.
pub struct TraceNode {
    pub execution_address: Address,
    pub steps: Vec<Option<StorageChange>>,
}

/// A transfer of ether.
#[derive(Clone, Copy, Debug)]
pub struct TransferOperation {
    pub from: Address,
    pub to: Address,
    pub value: U256,
}

/// What a transaction paid for its gas.
#[derive(Clone, Copy, Debug)]
pub struct GasFees {
    /// the part that the proposer gets
    pub proposer_reward: U256,
    /// what the sender paid in advance
    pub caller_gas_spending: U256,
    /// what the sender got back
    pub caller_gas_refund: U256,
    pub effective_gas_price: u128,
}

/// What the execution of a transaction left behind.
pub struct TransactionRun {
    /// why the transaction is not valid in the state that it met
    pub validation_errors: Vec<SimulationError>,
    /// whether the execution succeeded
    pub success: bool,
    pub gas_used: u64,
    /// the storage slots that were touched, by account
    pub touched_slots: Vec<(Address, Vec<FixedBytes<32>>)>,
    pub nodes: Vec<TraceNode>,
    pub transfers: Vec<TransferOperation>,
    pub gas_fees: Option<GasFees>,
    pub required_nonces: Vec<(Address, u64)>,
    pub possible_nonces: Vec<(Address, u64)>,
}

/// What a `TransactionRun` holds.
#[verifier::ext_equal]
pub struct RunModel {
    pub validation_errors: Seq<SimulationError>,
    pub success: bool,
    pub gas_used: u64,
    pub touched_slots: Seq<(Address, Seq<FixedBytes<32>>)>,
    pub nodes: Seq<(Address, Seq<Option<StorageChange>>)>,
    pub transfers: Seq<TransferOperation>,
    pub gas_fees: Option<GasFees>,
    pub required_nonces: Seq<(Address, u64)>,
    pub possible_nonces: Seq<(Address, u64)>,
}

/// The touched slots of accounts as lists.
pub open spec fn slot_lists(touched: Seq<(Address, Vec<FixedBytes<32>>)>) -> Seq<
    (Address, Seq<FixedBytes<32>>),
> {
    touched.map_values(|t: (Address, Vec<FixedBytes<32>>)| (t.0, t.1@))
}

/// The steps of calls as lists, each with the account of its call.
pub open spec fn step_lists(nodes: Seq<TraceNode>) -> Seq<(Address, Seq<Option<StorageChange>>)> {
    nodes.map_values(|node: TraceNode| (node.execution_address, node.steps@))
}

impl View for TransactionRun {
    type V = RunModel;

    open spec fn view(&self) -> RunModel {
        RunModel {
            validation_errors: self.validation_errors@,
            success: self.success,
            gas_used: self.gas_used,
            touched_slots: slot_lists(self.touched_slots@),
            nodes: step_lists(self.nodes@),
            transfers: self.transfers@,
            gas_fees: self.gas_fees,
            required_nonces: self.required_nonces@,
            possible_nonces: self.possible_nonces@,
        }
    }
}

/// The values that stand beside an account in a list.
pub open spec fn values_of<T>(pairs: Seq<(Address, T)>, account: Address) -> Seq<T> {
    pairs.filter(|p: (Address, T)| p.0 == account).map_values(|p: (Address, T)| p.1)
}

/// A list without the values that occurred in it before.
pub open spec fn first_occurrences<T>(s: Seq<T>) -> Seq<T>
    decreases s.len(),
{
    if s.len() == 0 {
        s
    } else {
        let front = first_occurrences(s.drop_last());
        if front.contains(s.last()) {
            front
        } else {
            front.push(s.last())
        }
    }
}

/// The touched slots as pairs of account and number of the slot.
pub open spec fn slot_pairs(touched: Seq<(Address, Vec<FixedBytes<32>>)>) -> Seq<(Address, nat)>
    decreases touched.len(),
{
    if touched.len() == 0 {
        Seq::empty()
    } else {
        slot_pairs(touched.drop_last()) + numbered(touched.last().0, touched.last().1@)
    }
}

/// The slots of one account as pairs of account and number of the slot.
pub open spec fn numbered(account: Address, slots: Seq<FixedBytes<32>>) -> Seq<(Address, nat)> {
    slots.map_values(|slot: FixedBytes<32>| (account, num::be_bytes_value(slot@)))
}

/// Whether a step changes the value of a slot.
pub open spec fn changes(step: Option<StorageChange>) -> bool {
    step matches Some(change) && (change.had_value matches Some(before) && before != change.value)
}

/// The slots that the first `count` steps of a call change, each with the account.
pub open spec fn node_changes(node: TraceNode, count: int) -> Seq<(Address, U256)>
    decreases count,
{
    if count <= 0 {
        Seq::empty()
    } else if changes(node.steps@[count - 1]) {
        node_changes(node, count - 1).push((node.execution_address, node.steps@[count - 1]->Some_0.key))
    } else {
        node_changes(node, count - 1)
    }
}

/// The slots that calls change, each with its account, in the order of the calls and their steps.
pub open spec fn all_changes(nodes: Seq<TraceNode>) -> Seq<(Address, U256)>
    decreases nodes.len(),
{
    if nodes.len() == 0 {
        Seq::empty()
    } else {
        all_changes(nodes.drop_last()) + node_changes(nodes.last(), nodes.last().steps@.len() as int)
    }
}

/// The ether that an account gains or loses by transfers.
pub open spec fn net_transfer(transfers: Seq<TransferOperation>, account: Address) -> int
    decreases transfers.len(),
{
    if transfers.len() == 0 {
        0
    } else {
        let t = transfers.last();
        net_transfer(transfers.drop_last(), account) + (if t.to == account {
            t.value@ as int
        } else {
            0
        }) - (if t.from == account {
            t.value@ as int
        } else {
            0
        })
    }
}

/// Whether an account takes part in a transfer.
pub open spec fn transfers_touch(transfers: Seq<TransferOperation>, account: Address) -> bool {
    exists|i: int|
        0 <= i < transfers.len() && ((#[trigger] transfers[i]).from == account || transfers[i].to == account)
}

/// Whether a table lists, for each account, exactly the touched slots of the account.
pub open spec fn is_access_set(
    accesses: Map<Address, Vec<U256>>,
    touched: Seq<(Address, Vec<FixedBytes<32>>)>,
) -> bool {
    lists_pairs(accesses, slot_pairs(touched))
}

/// Whether a table lists, for each account, exactly the numbers that stand beside it.
pub open spec fn lists_pairs(t: Map<Address, Vec<U256>>, pairs: Seq<(Address, nat)>) -> bool {
    forall|account: Address|
        {
            &&& #[trigger] t.contains_key(account) <==> values_of(pairs, account).len() > 0
            &&& t.contains_key(account) ==> t[account]@.map_values(|x: U256| x@) == values_of(
                pairs,
                account,
            )
        }
}

/// Whether a table lists, for each account, the slots that stand beside it, each one once.
pub open spec fn lists_once(t: Map<Address, Vec<U256>>, pairs: Seq<(Address, U256)>) -> bool {
    forall|account: Address|
        {
            &&& #[trigger] t.contains_key(account) <==> values_of(pairs, account).len() > 0
            &&& t.contains_key(account) ==> t[account]@ == first_occurrences(values_of(pairs, account))
        }
}

/// Whether a table lists, for each account, exactly the slots whose value changed, each one once.
pub open spec fn is_write_set(writes: Map<Address, Vec<U256>>, nodes: Seq<TraceNode>) -> bool {
    lists_once(writes, all_changes(nodes))
}

/// Whether a table holds, for exactly the accounts that take part in transfers, what they gain or
/// lose.
pub open spec fn is_transfer_diffs(diffs: Map<Address, I512>, transfers: Seq<TransferOperation>) -> bool {
    forall|account: Address|
        {
            &&& #[trigger] diffs.contains_key(account) <==> transfers_touch(transfers, account)
            &&& diffs.contains_key(account) ==> diffs[account]@ == net_transfer(transfers, account)
        }
}

pub proof fn lemma_values_push<T>(pairs: Seq<(Address, T)>, pair: (Address, T), account: Address)
    ensures
        values_of(pairs.push(pair), account) == if pair.0 == account {
            values_of(pairs, account).push(pair.1)
        } else {
            values_of(pairs, account)
        },
{
    reveal(Seq::filter);
    assert(pairs.push(pair).drop_last() =~= pairs);
    assert(values_of(pairs.push(pair), account) =~= if pair.0 == account {
        values_of(pairs, account).push(pair.1)
    } else {
        values_of(pairs, account)
    });
}

fn push_slot(t: &mut Table<20, Vec<U256>>, account: Address, slot: U256, Ghost(pairs): Ghost<Seq<(Address, nat)>>)
    requires
        lists_pairs(old(t)@, pairs),
    ensures
        lists_pairs(final(t)@, pairs.push((account, slot@))),
{
    let mut list = t.take_list(account);
    let ghost before = list@;
    list.push(slot);
    t.insert(account, list);
    assert forall|a: Address|
        {
            &&& #[trigger] t@.contains_key(a) <==> values_of(pairs.push((account, slot@)), a).len() > 0
            &&& t@.contains_key(a) ==> t@[a]@.map_values(|x: U256| x@) == values_of(
                pairs.push((account, slot@)),
                a,
            )
        } by {
        lemma_values_push(pairs, (account, slot@), a);
        assert(old(t)@.contains_key(a) <==> values_of(pairs, a).len() > 0);
        if a == account {
            assert(before.map_values(|x: U256| x@) =~= values_of(pairs, a));
            assert(before.push(slot).map_values(|x: U256| x@) =~= before.map_values(|x: U256| x@).push(slot@));
        }
    }
}

/// The touched slots as a table of numbers.
pub fn access_set(touched: &Vec<(Address, Vec<FixedBytes<32>>)>) -> (r: Table<20, Vec<U256>>)
    ensures
        is_access_set(r@, touched@),
{
    let mut accessed: Table<20, Vec<U256>> = Table::new();
    let ghost mut pairs: Seq<(Address, nat)> = Seq::empty();
    let mut i: usize = 0;
    while i < touched.len()
        invariant
            0 <= i <= touched@.len(),
            pairs == slot_pairs(touched@.take(i as int)),
            lists_pairs(accessed@, pairs),
        decreases touched@.len() - i,
    {
        let account = touched[i].0;
        let ghost front = pairs;
        let ghost slots = touched@[i as int].1@;
        let mut j: usize = 0;
        assert(front + numbered(account, slots.take(0)) =~= front);
        while j < touched[i].1.len()
            invariant
                i < touched@.len(),
                account == touched@[i as int].0,
                slots == touched@[i as int].1@,
                0 <= j <= slots.len(),
                pairs == front + numbered(account, slots.take(j as int)),
                lists_pairs(accessed@, pairs),
            decreases slots.len() - j,
        {
            let key = U256::from_fixed_bytes(touched[i].1[j]);
            push_slot(&mut accessed, account, key, Ghost(pairs));
            proof {
                pairs = pairs.push((account, key@));
                assert(pairs =~= front + numbered(account, slots.take(j + 1)));
            }
            j = j + 1;
        }
        proof {
            assert(slots.take(slots.len() as int) =~= slots);
            assert(touched@.take(i + 1).drop_last() =~= touched@.take(i as int));
        }
        i = i + 1;
    }
    assert(touched@.take(touched@.len() as int) =~= touched@);
    accessed
}

/// Whether a slot occurs in a list.
pub fn contains_slot(list: &Vec<U256>, slot: &U256) -> (r: bool)
    ensures
        r == list@.contains(*slot),
{
    let mut i: usize = 0;
    while i < list.len()
        invariant
            0 <= i <= list@.len(),
            forall|j: int| 0 <= j < i ==> list@[j] != *slot,
        decreases list@.len() - i,
    {
        if list[i] == *slot {
            assert(list@[i as int] == *slot);
            return true;
        }
        i = i + 1;
    }
    false
}

fn push_change(t: &mut Table<20, Vec<U256>>, account: Address, slot: U256, Ghost(pairs): Ghost<Seq<(Address, U256)>>)
    requires
        lists_once(old(t)@, pairs),
    ensures
        lists_once(final(t)@, pairs.push((account, slot))),
{
    let mut list = t.take_list(account);
    let ghost before = list@;
    if !contains_slot(&list, &slot) {
        list.push(slot);
    }
    t.insert(account, list);
    assert forall|a: Address|
        {
            &&& #[trigger] t@.contains_key(a) <==> values_of(pairs.push((account, slot)), a).len() > 0
            &&& t@.contains_key(a) ==> t@[a]@ == first_occurrences(
                values_of(pairs.push((account, slot)), a),
            )
        } by {
        lemma_values_push(pairs, (account, slot), a);
        assert(old(t)@.contains_key(a) <==> values_of(pairs, a).len() > 0);
        if a == account {
            let values = values_of(pairs, a);
            assert(before =~= first_occurrences(values));
            assert(values.push(slot).drop_last() =~= values);
        }
    }
}

/// The slots whose value changed.
pub fn write_set(nodes: &Vec<TraceNode>) -> (r: Table<20, Vec<U256>>)
    ensures
        is_write_set(r@, nodes@),
{
    let mut writes: Table<20, Vec<U256>> = Table::new();
    let ghost mut pairs: Seq<(Address, U256)> = Seq::empty();
    let mut i: usize = 0;
    while i < nodes.len()
        invariant
            0 <= i <= nodes@.len(),
            pairs == all_changes(nodes@.take(i as int)),
            lists_once(writes@, pairs),
        decreases nodes@.len() - i,
    {
        let ghost front = pairs;
        let ghost node = nodes@[i as int];
        let mut j: usize = 0;
        assert(front + node_changes(node, 0) =~= front);
        while j < nodes[i].steps.len()
            invariant
                i < nodes@.len(),
                node == nodes@[i as int],
                0 <= j <= node.steps@.len(),
                pairs == front + node_changes(node, j as int),
                lists_once(writes@, pairs),
            decreases node.steps@.len() - j,
        {
            if let Some(change) = nodes[i].steps[j] {
                if let Some(prev_value) = change.had_value {
                    if prev_value != change.value {
                        push_change(&mut writes, nodes[i].execution_address, change.key, Ghost(pairs));
                        proof {
                            pairs = pairs.push((node.execution_address, change.key));
                        }
                    }
                }
            }
            assert(pairs =~= front + node_changes(node, j + 1));
            j = j + 1;
        }
        assert(nodes@.take(i + 1).drop_last() =~= nodes@.take(i as int));
        i = i + 1;
    }
    assert(nodes@.take(nodes@.len() as int) =~= nodes@);
    writes
}

/// What an account gains or loses is bounded by the number of transfers.
proof fn lemma_net_bound(transfers: Seq<TransferOperation>, account: Address)
    ensures
        -(transfers.len() * num::u256_modulus()) <= net_transfer(transfers, account) <= transfers.len()
            * num::u256_modulus(),
    decreases transfers.len(),
{
    if transfers.len() > 0 {
        lemma_net_bound(transfers.drop_last(), account);
        num::lemma_u256_bound(transfers.last().value);
    }
}

proof fn lemma_touch_push(transfers: Seq<TransferOperation>, t: TransferOperation, account: Address)
    ensures
        transfers_touch(transfers.push(t), account) <==> transfers_touch(transfers, account) || t.from
            == account || t.to == account,
{
    let all = transfers.push(t);
    if transfers_touch(transfers, account) {
        let i = choose|i: int|
            0 <= i < transfers.len() && ((#[trigger] transfers[i]).from == account || transfers[i].to
                == account);
        assert(all[i] == transfers[i]);
    }
    if t.from == account || t.to == account {
        assert(all[transfers.len() as int] == t);
    }
    if transfers_touch(all, account) {
        let i = choose|i: int|
            0 <= i < all.len() && ((#[trigger] all[i]).from == account || all[i].to == account);
        if i < transfers.len() {
            assert(transfers[i] == all[i]);
        }
    }
}

fn diff_of(diffs: &Table<20, I512>, account: &Address) -> (r: I512)
    ensures
        diffs@.contains_key(*account) ==> r@ == diffs@[*account]@,
        !diffs@.contains_key(*account) ==> r@ == 0,
{
    match diffs.get(account) {
        Some(diff) => *diff,
        None => I512::zero(),
    }
}

/// An account without transfers neither gains nor loses.
pub proof fn lemma_untouched(transfers: Seq<TransferOperation>, account: Address)
    requires
        !transfers_touch(transfers, account),
    ensures
        net_transfer(transfers, account) == 0,
    decreases transfers.len(),
{
    if transfers.len() > 0 {
        let front = transfers.drop_last();
        assert(transfers =~= front.push(transfers.last()));
        lemma_touch_push(front, transfers.last(), account);
        lemma_untouched(front, account);
    }
}

fn apply_transfer(diffs: &mut Table<20, I512>, t: TransferOperation, Ghost(done): Ghost<Seq<TransferOperation>>)
    requires
        is_transfer_diffs(old(diffs)@, done),
        done.len() < usize::MAX,
    ensures
        is_transfer_diffs(final(diffs)@, done.push(t)),
{
    let ghost before = diffs@;
    proof {
        num::lemma_u256_bound(t.value);
        lemma_net_bound(done, t.from);
        lemma_net_bound(done, t.to);
        assert(before.contains_key(t.from) <==> transfers_touch(done, t.from));
        assert(before.contains_key(t.to) <==> transfers_touch(done, t.to));
        if !transfers_touch(done, t.from) {
            lemma_untouched(done, t.from);
        }
        if !transfers_touch(done, t.to) {
            lemma_untouched(done, t.to);
        }
    }
    let value = I512::from_u256(t.value);
    let diff_from = diff_of(diffs, &t.from).checked_sub(value).unwrap();
    diffs.insert(t.from, diff_from);
    let diff_to = diff_of(diffs, &t.to).checked_add(value).unwrap();
    diffs.insert(t.to, diff_to);
    assert forall|account: Address|
        {
            &&& #[trigger] diffs@.contains_key(account) <==> transfers_touch(done.push(t), account)
            &&& diffs@.contains_key(account) ==> diffs@[account]@ == net_transfer(done.push(t), account)
        } by {
        lemma_touch_push(done, t, account);
        assert(done.push(t).drop_last() =~= done);
        assert(before.contains_key(account) <==> transfers_touch(done, account));
    }
}

/// What accounts gain or lose by transfers.
pub fn transfer_diffs(transfers: &Vec<TransferOperation>) -> (r: Table<20, I512>)
    ensures
        is_transfer_diffs(r@, transfers@),
{
    let mut diffs: Table<20, I512> = Table::new();
    let mut i: usize = 0;
    while i < transfers.len()
        invariant
            0 <= i <= transfers@.len(),
            is_transfer_diffs(diffs@, transfers@.take(i as int)),
        decreases transfers@.len() - i,
    {
        apply_transfer(&mut diffs, transfers[i], Ghost(transfers@.take(i as int)));
        assert(transfers@.take(i as int).push(transfers@[i as int]) =~= transfers@.take(i + 1));
        i = i + 1;
    }
    assert(transfers@.take(transfers@.len() as int) =~= transfers@);
    diffs
}

/// The fees that nobody gets: what was paid, without what was paid back and the proposer's part,
/// wrapping around.
pub open spec fn burned(fees: GasFees) -> nat {
    num::u256_sub(
        num::u256_sub(fees.caller_gas_spending@, fees.caller_gas_refund@),
        fees.proposer_reward@,
    )
}

/// The fees of a run, all zero where none were recorded.
pub open spec fn is_fees_or_zero(recorded: Option<GasFees>, fees: GasFees) -> bool {
    match recorded {
        Some(f) => fees == f,
        None => {
            &&& fees.proposer_reward@ == 0
            &&& fees.caller_gas_spending@ == 0
            &&& fees.caller_gas_refund@ == 0
            &&& fees.effective_gas_price == 0
        },
    }
}

/// The fees of a run, all zero where none were recorded.
pub fn fees_or_zero(recorded: Option<GasFees>) -> (r: GasFees)
    ensures
        is_fees_or_zero(recorded, r),
{
    match recorded {
        Some(fees) => fees,
        None => GasFees {
            proposer_reward: U256::zero(),
            caller_gas_spending: U256::zero(),
            caller_gas_refund: U256::zero(),
            effective_gas_price: 0,
        },
    }
}

/// The fees that nobody gets.
pub fn burned_fees(fees: &GasFees) -> (r: U256)
    ensures
        r@ == burned(*fees),
{
    fees.caller_gas_spending.minus(fees.caller_gas_refund).minus(fees.proposer_reward)
}

/// The fees that nobody gets, the proposer's part and what was paid back make up what was paid.
pub proof fn law_fees_add_up(fees: GasFees)
    requires
        fees.caller_gas_refund@ + fees.proposer_reward@ <= fees.caller_gas_spending@,
    ensures
        burned(fees) + fees.proposer_reward@ + fees.caller_gas_refund@ == fees.caller_gas_spending@,
{
    num::lemma_u256_bound(fees.caller_gas_spending);
    let m = num::u256_modulus() as int;
    let once = fees.caller_gas_spending@ - fees.caller_gas_refund@;
    vstd::arithmetic::div_mod::lemma_small_mod(once as nat, m as nat);
    vstd::arithmetic::div_mod::lemma_small_mod((once - fees.proposer_reward@) as nat, m as nat);
}

/// No slot of a write set is listed twice, and exactly those are listed that stand beside the
/// account.
pub proof fn law_write_set_has_no_duplicates(writes: Map<Address, Vec<U256>>, nodes: Seq<TraceNode>, account: Address)
    requires
        is_write_set(writes, nodes),
        writes.contains_key(account),
    ensures
        writes[account]@.no_duplicates(),
        forall|slot: U256|
            #![auto]
            writes[account]@.contains(slot) <==> values_of(all_changes(nodes), account).contains(slot),
{
    lemma_first_occurrences(values_of(all_changes(nodes), account));
}

proof fn lemma_first_occurrences<T>(s: Seq<T>)
    ensures
        first_occurrences(s).no_duplicates(),
        forall|x: T| #[trigger] first_occurrences(s).contains(x) <==> s.contains(x),
    decreases s.len(),
{
    if s.len() > 0 {
        lemma_first_occurrences(s.drop_last());
        let front = first_occurrences(s.drop_last());
        let all = first_occurrences(s);
        assert forall|x: T| #[trigger] all.contains(x) <==> s.contains(x) by {
            assert(front.contains(x) <==> s.drop_last().contains(x));
            if s.contains(x) {
                let i = choose|i: int| 0 <= i < s.len() && s[i] == x;
                if i < s.len() - 1 {
                    assert(s.drop_last()[i] == x);
                }
                if i == s.len() - 1 && !front.contains(x) {
                    assert(all[front.len() as int] == x);
                }
            }
            if s.drop_last().contains(x) {
                let i = choose|i: int| 0 <= i < s.drop_last().len() && s.drop_last()[i] == x;
                assert(s[i] == x);
            }
            if front.contains(x) {
                let i = choose|i: int| 0 <= i < front.len() && front[i] == x;
                assert(all[i] == x);
            }
            if all.contains(x) {
                let i = choose|i: int| 0 <= i < all.len() && all[i] == x;
                if i < front.len() {
                    assert(front[i] == x);
                } else {
                    assert(s[s.len() - 1] == x);
                }
            }
        }
    }
}

/// The accounts of a list together gain what `net_transfer` gives for each of them.
pub open spec fn net_sum(transfers: Seq<TransferOperation>, accounts: Seq<Address>) -> int
    decreases accounts.len(),
{
    if accounts.len() == 0 {
        0
    } else {
        net_sum(transfers, accounts.drop_last()) + net_transfer(transfers, accounts.last())
    }
}

/// Transfers neither make nor lose ether: what all accounts that take part gain adds up to zero.
pub proof fn law_transfers_keep_the_ether(transfers: Seq<TransferOperation>, accounts: Seq<Address>)
    requires
        accounts.no_duplicates(),
        forall|a: Address| #[trigger] transfers_touch(transfers, a) ==> accounts.contains(a),
    ensures
        net_sum(transfers, accounts) == 0,
    decreases transfers.len(),
{
    if transfers.len() == 0 {
        lemma_net_sum_empty(transfers, accounts);
    } else {
        let front = transfers.drop_last();
        let t = transfers.last();
        assert(transfers =~= front.push(t));
        assert forall|a: Address| #[trigger] transfers_touch(front, a) implies accounts.contains(a) by {
            lemma_touch_push(front, t, a);
        }
        law_transfers_keep_the_ether(front, accounts);
        lemma_touch_push(front, t, t.from);
        lemma_touch_push(front, t, t.to);
        assert(transfers_touch(transfers, t.from) && transfers_touch(transfers, t.to));
        lemma_net_sum_step(front, t, accounts);
    }
}

proof fn lemma_net_sum_empty(transfers: Seq<TransferOperation>, accounts: Seq<Address>)
    requires
        transfers.len() == 0,
    ensures
        net_sum(transfers, accounts) == 0,
    decreases accounts.len(),
{
    if accounts.len() > 0 {
        lemma_net_sum_empty(transfers, accounts.drop_last());
    }
}

proof fn lemma_net_sum_step(front: Seq<TransferOperation>, t: TransferOperation, accounts: Seq<Address>)
    requires
        accounts.no_duplicates(),
    ensures
        net_sum(front.push(t), accounts) == net_sum(front, accounts) + (if accounts.contains(t.to) {
            t.value@ as int
        } else {
            0
        }) - (if accounts.contains(t.from) {
            t.value@ as int
        } else {
            0
        }),
    decreases accounts.len(),
{
    assert(front.push(t).drop_last() =~= front);
    if accounts.len() > 0 {
        let rest = accounts.drop_last();
        let last = accounts.last();
        lemma_net_sum_step(front, t, rest);
        assert forall|a: Address| #[trigger] accounts.contains(a) <==> rest.contains(a) || a == last by {
            if accounts.contains(a) {
                let i = choose|i: int| 0 <= i < accounts.len() && accounts[i] == a;
                if i < rest.len() {
                    assert(rest[i] == a);
                }
            }
            if rest.contains(a) {
                let i = choose|i: int| 0 <= i < rest.len() && rest[i] == a;
                assert(accounts[i] == a);
            }
            if a == last {
                assert(accounts[accounts.len() - 1] == a);
            }
        }
        assert(!rest.contains(last)) by {
            if rest.contains(last) {
                let i = choose|i: int| 0 <= i < rest.len() && rest[i] == last;
                assert(accounts[i] == accounts[accounts.len() - 1]);
            }
        }
    }
}

} // verus!
