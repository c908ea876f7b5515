//! What is read out of executions, by the parts of which they are made up.

use crate::fixed_bytes::{Address, FixedBytes};
use crate::num;
use crate::num::{I512, U256};
use crate::trace;
use crate::trace::{GasFees, StorageChange, TraceNode, TransferOperation};
use vstd::prelude::*;

verus! {

/// The slots of an account, none where it has no entry.
pub open spec fn slots_of(t: Map<Address, Vec<U256>>, account: Address) -> Seq<U256> {
    if t.contains_key(account) {
        t[account]@
    } else {
        Seq::empty()
    }
}

/// Slots as numbers.
pub open spec fn numbers(slots: Seq<U256>) -> Seq<nat> {
    slots.map_values(|x: U256| x@)
}

proof fn lemma_values_add<T>(a: Seq<(Address, T)>, b: Seq<(Address, T)>, account: Address)
    ensures
        trace::values_of(a + b, account) == trace::values_of(a, account) + trace::values_of(b, account),
{
    let own = |p: (Address, T)| p.0 == account;
    Seq::filter_distributes_over_add(a, b, own);
    assert(trace::values_of(a + b, account) =~= trace::values_of(a, account) + trace::values_of(b, account));
}

proof fn lemma_slot_pairs_add(
    a: Seq<(Address, Vec<FixedBytes<32>>)>,
    b: Seq<(Address, Vec<FixedBytes<32>>)>,
)
    ensures
        trace::slot_pairs(a + b) == trace::slot_pairs(a) + trace::slot_pairs(b),
    decreases b.len(),
{
    if b.len() == 0 {
        assert(a + b =~= a);
        assert(trace::slot_pairs(a) + trace::slot_pairs(b) =~= trace::slot_pairs(a));
    } else {
        lemma_slot_pairs_add(a, b.drop_last());
        assert((a + b).drop_last() =~= a + b.drop_last());
        assert(trace::slot_pairs(a + b) =~= trace::slot_pairs(a) + trace::slot_pairs(b));
    }
}

/// The access set of one account that is touched lists its touched slots as numbers, in their order; an
/// account without touched slots is not listed.
pub proof fn law_access_set_of_one_account(
    accesses: Map<Address, Vec<U256>>,
    account: Address,
    slots: Vec<FixedBytes<32>>,
    other: Address,
)
    requires
        trace::is_access_set(accesses, seq![(account, slots)]),
    ensures
        accesses.contains_key(other) <==> other == account && slots@.len() > 0,
        numbers(slots_of(accesses, account)) == slots@.map_values(
            |slot: FixedBytes<32>| num::be_bytes_value(slot@),
        ),
{
    let touched = seq![(account, slots)];
    assert(touched.drop_last() =~= Seq::<(Address, Vec<FixedBytes<32>>)>::empty());
    let pairs = trace::numbered(account, slots@);
    assert(trace::slot_pairs(touched.drop_last()) =~= Seq::empty());
    assert(trace::slot_pairs(touched) =~= pairs);
    lemma_one_account(account, slots@, account);
    lemma_one_account(account, slots@, other);
    assert(accesses.contains_key(account) <==> trace::values_of(pairs, account).len() > 0);
    assert(accesses.contains_key(other) <==> trace::values_of(pairs, other).len() > 0);
    assert(numbers(slots_of(accesses, account)) =~= slots@.map_values(
        |slot: FixedBytes<32>| num::be_bytes_value(slot@),
    ));
}

proof fn lemma_one_account(account: Address, slots: Seq<FixedBytes<32>>, other: Address)
    ensures
        trace::values_of(trace::numbered(account, slots), other) == if other == account {
            slots.map_values(|slot: FixedBytes<32>| num::be_bytes_value(slot@))
        } else {
            Seq::empty()
        },
    decreases slots.len(),
{
    let pairs = trace::numbered(account, slots);
    let want = if other == account {
        slots.map_values(|slot: FixedBytes<32>| num::be_bytes_value(slot@))
    } else {
        Seq::empty()
    };
    reveal(Seq::filter);
    if slots.len() > 0 {
        let front = slots.drop_last();
        lemma_one_account(account, front, other);
        let last = (account, num::be_bytes_value(slots.last()@));
        assert(pairs =~= trace::numbered(account, front).push(last));
        trace::lemma_values_push(trace::numbered(account, front), last, other);
        assert(trace::values_of(pairs, other) =~= want);
    } else {
        assert(trace::values_of(pairs, other) =~= want);
    }
}

/// The access set of all that is touched lists, for each account, what is touched first and then what is
/// touched after that.
pub proof fn law_access_sets_join(
    first: Seq<(Address, Vec<FixedBytes<32>>)>,
    second: Seq<(Address, Vec<FixedBytes<32>>)>,
    a: Map<Address, Vec<U256>>,
    b: Map<Address, Vec<U256>>,
    all: Map<Address, Vec<U256>>,
    account: Address,
)
    requires
        trace::is_access_set(a, first),
        trace::is_access_set(b, second),
        trace::is_access_set(all, first + second),
    ensures
        numbers(slots_of(all, account)) == numbers(slots_of(a, account)) + numbers(slots_of(b, account)),
{
    lemma_slot_pairs_add(first, second);
    lemma_values_add(trace::slot_pairs(first), trace::slot_pairs(second), account);
    assert(a.contains_key(account) <==> trace::values_of(trace::slot_pairs(first), account).len() > 0);
    assert(b.contains_key(account) <==> trace::values_of(trace::slot_pairs(second), account).len() > 0);
    assert(all.contains_key(account) <==> trace::values_of(trace::slot_pairs(first + second), account).len()
        > 0);
    assert(numbers(slots_of(all, account)) =~= numbers(slots_of(a, account)) + numbers(slots_of(b, account)));
}

/// Whether a step of a call writes another value to a slot than the one that was there before.
pub open spec fn writes_new_value(step: Option<StorageChange>, slot: U256) -> bool {
    step matches Some(change) && change.key == slot && (change.had_value matches Some(before) && before
        != change.value)
}

proof fn lemma_node_changes(node: TraceNode, count: int, account: Address, slot: U256)
    requires
        0 <= count <= node.steps@.len(),
    ensures
        trace::values_of(trace::node_changes(node, count), account).contains(slot) <==> node.execution_address
            == account && exists|j: int| 0 <= j < count && #[trigger] writes_new_value(node.steps@[j], slot),
    decreases count,
{
    if count <= 0 {
        reveal(Seq::filter);
        assert(trace::values_of(trace::node_changes(node, count), account) =~= Seq::<U256>::empty());
    } else {
        lemma_node_changes(node, count - 1, account, slot);
        let front = trace::node_changes(node, count - 1);
        let step = node.steps@[count - 1];
        if trace::changes(step) {
            let pair = (node.execution_address, step->Some_0.key);
            assert(trace::node_changes(node, count) =~= front + seq![pair]);
            lemma_values_add(front, seq![pair], account);
            lemma_single_value(pair, account);
            crate::batching::batch_laws::lemma_add_contains(
                trace::values_of(front, account),
                trace::values_of(seq![pair], account),
                slot,
            );
            if node.execution_address == account && pair.1 == slot {
                assert(trace::values_of(seq![pair], account)[0] == slot);
                assert(writes_new_value(node.steps@[count - 1], slot));
            }
        }
        if exists|j: int| 0 <= j < count && #[trigger] writes_new_value(node.steps@[j], slot) {
            let j = choose|j: int| 0 <= j < count && #[trigger] writes_new_value(node.steps@[j], slot);
            if j < count - 1 {
                assert(writes_new_value(node.steps@[j], slot));
            }
        }
    }
}

proof fn lemma_single_value<T>(pair: (Address, T), account: Address)
    ensures
        trace::values_of(seq![pair], account) == if pair.0 == account {
            seq![pair.1]
        } else {
            Seq::empty()
        },
{
    reveal(Seq::filter);
    let one = seq![pair];
    let none = Seq::<(Address, T)>::empty();
    assert(one =~= none.push(pair));
    trace::lemma_values_push(none, pair, account);
    assert(trace::values_of(none, account) =~= Seq::<T>::empty());
    assert(trace::values_of(one, account) =~= if pair.0 == account {
        seq![pair.1]
    } else {
        Seq::empty()
    });
}

proof fn lemma_all_changes(nodes: Seq<TraceNode>, account: Address, slot: U256)
    ensures
        trace::values_of(trace::all_changes(nodes), account).contains(slot) <==> exists|i: int, j: int|
            0 <= i < nodes.len() && nodes[i].execution_address == account && 0 <= j < nodes[i].steps@.len()
                && #[trigger] writes_new_value(nodes[i].steps@[j], slot),
    decreases nodes.len(),
{
    if nodes.len() == 0 {
        reveal(Seq::filter);
        assert(trace::values_of(trace::all_changes(nodes), account) =~= Seq::<U256>::empty());
    } else {
        let front = nodes.drop_last();
        let last = nodes.last();
        let count = last.steps@.len() as int;
        lemma_all_changes(front, account, slot);
        lemma_node_changes(last, count, account, slot);
        lemma_values_add(trace::all_changes(front), trace::node_changes(last, count), account);
        crate::batching::batch_laws::lemma_add_contains(
            trace::values_of(trace::all_changes(front), account),
            trace::values_of(trace::node_changes(last, count), account),
            slot,
        );
        if exists|i: int, j: int|
            0 <= i < front.len() && front[i].execution_address == account && 0 <= j < front[i].steps@.len()
                && #[trigger] writes_new_value(front[i].steps@[j], slot) {
            let (i, j) = choose|i: int, j: int|
                0 <= i < front.len() && front[i].execution_address == account && 0 <= j < front[i].steps@.len()
                    && #[trigger] writes_new_value(front[i].steps@[j], slot);
            assert(writes_new_value(nodes[i].steps@[j], slot));
        }
        if last.execution_address == account && exists|j: int|
            0 <= j < count && #[trigger] writes_new_value(last.steps@[j], slot) {
            let j = choose|j: int| 0 <= j < count && #[trigger] writes_new_value(last.steps@[j], slot);
            assert(writes_new_value(nodes[nodes.len() - 1].steps@[j], slot));
        }
        if exists|i: int, j: int|
            0 <= i < nodes.len() && nodes[i].execution_address == account && 0 <= j < nodes[i].steps@.len()
                && #[trigger] writes_new_value(nodes[i].steps@[j], slot) {
            let (i, j) = choose|i: int, j: int|
                0 <= i < nodes.len() && nodes[i].execution_address == account && 0 <= j < nodes[i].steps@.len()
                    && #[trigger] writes_new_value(nodes[i].steps@[j], slot);
            if i < front.len() {
                assert(writes_new_value(front[i].steps@[j], slot));
            } else {
                assert(writes_new_value(last.steps@[j], slot));
            }
        }
    }
}

/// A slot is in the write set of an account exactly where some step of a call that uses the account's
/// storage wrote another value to it than the one before, and it is there once.
pub proof fn law_write_set_lists_changed_slots(
    writes: Map<Address, Vec<U256>>,
    nodes: Seq<TraceNode>,
    account: Address,
    slot: U256,
)
    requires
        trace::is_write_set(writes, nodes),
    ensures
        slots_of(writes, account).contains(slot) <==> exists|i: int, j: int|
            0 <= i < nodes.len() && nodes[i].execution_address == account && 0 <= j < nodes[i].steps@.len()
                && #[trigger] writes_new_value(nodes[i].steps@[j], slot),
        slots_of(writes, account).no_duplicates(),
        writes.contains_key(account) ==> writes[account]@.len() > 0,
{
    lemma_all_changes(nodes, account, slot);
    let values = trace::values_of(trace::all_changes(nodes), account);
    assert(writes.contains_key(account) <==> values.len() > 0);
    if writes.contains_key(account) {
        trace::law_write_set_has_no_duplicates(writes, nodes, account);
        assert(values.contains(values[0]));
        assert(writes[account]@.contains(values[0]));
    }
}

proof fn lemma_all_changes_add(a: Seq<TraceNode>, b: Seq<TraceNode>)
    ensures
        trace::all_changes(a + b) == trace::all_changes(a) + trace::all_changes(b),
    decreases b.len(),
{
    if b.len() == 0 {
        assert(a + b =~= a);
        assert(trace::all_changes(a) + trace::all_changes(b) =~= trace::all_changes(a));
    } else {
        lemma_all_changes_add(a, b.drop_last());
        assert((a + b).drop_last() =~= a + b.drop_last());
        assert(trace::all_changes(a + b) =~= trace::all_changes(a) + trace::all_changes(b));
    }
}

proof fn lemma_first_occurrences_add(a: Seq<U256>, b: Seq<U256>)
    ensures
        ({
            let front = trace::first_occurrences(a);
            trace::first_occurrences(a + b) == front + trace::first_occurrences(b).filter(
                |x: U256| !front.contains(x),
            )
        }),
    decreases b.len(),
{
    let front = trace::first_occurrences(a);
    let fresh = |x: U256| !front.contains(x);
    reveal(Seq::filter);
    if b.len() == 0 {
        assert(a + b =~= a);
        assert(front + trace::first_occurrences(b).filter(fresh) =~= front);
    } else {
        let c = b.drop_last();
        let x = b.last();
        lemma_first_occurrences_add(a, c);
        assert((a + b).drop_last() =~= a + c);
        let inner = trace::first_occurrences(c);
        let kept = inner.filter(fresh);
        crate::batching::batch_laws::lemma_add_contains(front, kept, x);
        lemma_filter_member(inner, fresh, x);
        if !inner.contains(x) {
            assert(inner.push(x).drop_last() =~= inner);
        }
        assert(trace::first_occurrences(a + b) =~= front + trace::first_occurrences(b).filter(fresh));
    }
}

proof fn lemma_filter_member(list: Seq<U256>, keep: spec_fn(U256) -> bool, x: U256)
    ensures
        list.filter(keep).contains(x) <==> list.contains(x) && keep(x),
    decreases list.len(),
{
    reveal(Seq::filter);
    if list.len() > 0 {
        let front = list.drop_last();
        lemma_filter_member(front, keep, x);
        if keep(list.last()) {
            crate::concurrent_proposer::decisions::lemma_contains_push(front.filter(keep), list.last(), x);
        }
        assert(list =~= front.push(list.last()));
        crate::concurrent_proposer::decisions::lemma_contains_push(front, list.last(), x);
    }
}

/// The write set of all calls lists, for each account, what the first ones changed and then what else
/// the later ones changed.
pub proof fn law_write_sets_join(
    first: Seq<TraceNode>,
    second: Seq<TraceNode>,
    a: Map<Address, Vec<U256>>,
    b: Map<Address, Vec<U256>>,
    all: Map<Address, Vec<U256>>,
    account: Address,
)
    requires
        trace::is_write_set(a, first),
        trace::is_write_set(b, second),
        trace::is_write_set(all, first + second),
    ensures
        slots_of(all, account) == slots_of(a, account) + slots_of(b, account).filter(
            |x: U256| !slots_of(a, account).contains(x),
        ),
{
    let u = trace::values_of(trace::all_changes(first), account);
    let v = trace::values_of(trace::all_changes(second), account);
    lemma_all_changes_add(first, second);
    lemma_values_add(trace::all_changes(first), trace::all_changes(second), account);
    lemma_first_occurrences_add(u, v);
    assert(a.contains_key(account) <==> u.len() > 0);
    assert(b.contains_key(account) <==> v.len() > 0);
    assert(all.contains_key(account) <==> (u + v).len() > 0);
    assert(slots_of(a, account) =~= trace::first_occurrences(u));
    assert(slots_of(b, account) =~= trace::first_occurrences(v));
    assert(slots_of(all, account) =~= trace::first_occurrences(u + v));
    let keep = |x: U256| !trace::first_occurrences(u).contains(x);
    assert(keep =~= (|x: U256| !slots_of(a, account).contains(x)));
}

/// A call whose steps are cut in two changes the same slots in the same order as the two calls.
pub proof fn law_calls_can_be_cut(
    whole: TraceNode,
    first: TraceNode,
    second: TraceNode,
    a: Map<Address, Vec<U256>>,
    b: Map<Address, Vec<U256>>,
    account: Address,
)
    requires
        whole.steps@ == first.steps@ + second.steps@,
        whole.execution_address == first.execution_address,
        whole.execution_address == second.execution_address,
        trace::is_write_set(a, seq![whole]),
        trace::is_write_set(b, seq![first, second]),
    ensures
        slots_of(a, account) == slots_of(b, account),
{
    let n = first.steps@.len() as int;
    let m = second.steps@.len() as int;
    lemma_cut(whole, first, second, m);
    lemma_same_front(whole, first, n);
    let one = seq![whole];
    let two = seq![first, second];
    assert(one.drop_last() =~= Seq::<TraceNode>::empty());
    assert(two.drop_last() =~= seq![first]);
    assert(seq![first].drop_last() =~= Seq::<TraceNode>::empty());
    assert(trace::all_changes(Seq::<TraceNode>::empty()) =~= Seq::<(Address, U256)>::empty());
    assert(trace::all_changes(one) =~= trace::node_changes(whole, n + m));
    assert(trace::all_changes(seq![first]) =~= trace::node_changes(first, n));
    assert(trace::all_changes(two) =~= trace::node_changes(first, n) + trace::node_changes(second, m));
    assert(trace::all_changes(one) == trace::all_changes(two));
    let values = trace::values_of(trace::all_changes(one), account);
    assert(a.contains_key(account) <==> values.len() > 0);
    assert(b.contains_key(account) <==> values.len() > 0);
}

proof fn lemma_same_front(whole: TraceNode, first: TraceNode, count: int)
    requires
        0 <= count <= first.steps@.len() <= whole.steps@.len(),
        forall|j: int| 0 <= j < first.steps@.len() ==> whole.steps@[j] == first.steps@[j],
        whole.execution_address == first.execution_address,
    ensures
        trace::node_changes(whole, count) == trace::node_changes(first, count),
    decreases count,
{
    if count > 0 {
        lemma_same_front(whole, first, count - 1);
    }
}

proof fn lemma_cut(whole: TraceNode, first: TraceNode, second: TraceNode, m: int)
    requires
        whole.steps@ == first.steps@ + second.steps@,
        whole.execution_address == first.execution_address,
        whole.execution_address == second.execution_address,
        0 <= m <= second.steps@.len(),
    ensures
        trace::node_changes(whole, first.steps@.len() + m) == trace::node_changes(
            first,
            first.steps@.len() as int,
        ) + trace::node_changes(second, m),
    decreases m,
{
    let n = first.steps@.len() as int;
    lemma_same_front(whole, first, n);
    if m > 0 {
        lemma_cut(whole, first, second, m - 1);
        assert(whole.steps@[n + m - 1] == second.steps@[m - 1]);
    }
    assert(trace::node_changes(whole, n + m) =~= trace::node_changes(first, n) + trace::node_changes(
        second,
        m,
    ));
}

/// What an account gains by transfers, zero where it has no entry.
pub open spec fn gain_of(diffs: Map<Address, I512>, account: Address) -> int {
    if diffs.contains_key(account) {
        diffs[account]@
    } else {
        0
    }
}

/// By one transfer its receiver gains the value and its sender loses it. Both are listed, and nobody
/// else is.
pub proof fn law_one_transfer(diffs: Map<Address, I512>, t: TransferOperation, account: Address)
    requires
        trace::is_transfer_diffs(diffs, seq![t]),
    ensures
        diffs.contains_key(account) <==> account == t.from || account == t.to,
        t.from != t.to ==> gain_of(diffs, t.to) == t.value@ && gain_of(diffs, t.from) == -(t.value@),
        t.from == t.to ==> gain_of(diffs, t.to) == 0,
{
    let one = seq![t];
    assert(one.drop_last() =~= Seq::<TransferOperation>::empty());
    assert(trace::net_transfer(Seq::<TransferOperation>::empty(), t.to) == 0);
    assert(trace::net_transfer(Seq::<TransferOperation>::empty(), t.from) == 0);
    assert(one[0] == t);
    assert(diffs.contains_key(account) <==> trace::transfers_touch(one, account));
    assert(diffs.contains_key(t.to) <==> trace::transfers_touch(one, t.to));
    assert(diffs.contains_key(t.from) <==> trace::transfers_touch(one, t.from));
}

proof fn lemma_net_add(a: Seq<TransferOperation>, b: Seq<TransferOperation>, account: Address)
    ensures
        trace::net_transfer(a + b, account) == trace::net_transfer(a, account) + trace::net_transfer(b, account),
    decreases b.len(),
{
    if b.len() == 0 {
        assert(a + b =~= a);
    } else {
        assert((a + b).drop_last() =~= a + b.drop_last());
        lemma_net_add(a, b.drop_last(), account);
    }
}

/// What an account gains by all transfers is what it gains by the first and by the later ones, and it is
/// listed where it takes part in either.
pub proof fn law_transfers_add_up(
    first: Seq<TransferOperation>,
    second: Seq<TransferOperation>,
    a: Map<Address, I512>,
    b: Map<Address, I512>,
    all: Map<Address, I512>,
    account: Address,
)
    requires
        trace::is_transfer_diffs(a, first),
        trace::is_transfer_diffs(b, second),
        trace::is_transfer_diffs(all, first + second),
    ensures
        all.contains_key(account) <==> a.contains_key(account) || b.contains_key(account),
        gain_of(all, account) == gain_of(a, account) + gain_of(b, account),
{
    let joined = first + second;
    lemma_net_add(first, second, account);
    assert(a.contains_key(account) <==> trace::transfers_touch(first, account));
    assert(b.contains_key(account) <==> trace::transfers_touch(second, account));
    assert(all.contains_key(account) <==> trace::transfers_touch(joined, account));
    if trace::transfers_touch(first, account) {
        let i = choose|i: int|
            0 <= i < first.len() && ((#[trigger] first[i]).from == account || first[i].to == account);
        assert(joined[i] == first[i]);
    } else {
        trace::lemma_untouched(first, account);
    }
    if trace::transfers_touch(second, account) {
        let i = choose|i: int|
            0 <= i < second.len() && ((#[trigger] second[i]).from == account || second[i].to == account);
        assert(joined[first.len() + i] == second[i]);
    } else {
        trace::lemma_untouched(second, account);
    }
    if trace::transfers_touch(joined, account) {
        let i = choose|i: int|
            0 <= i < joined.len() && ((#[trigger] joined[i]).from == account || joined[i].to == account);
        if i < first.len() {
            assert(first[i] == joined[i]);
        } else {
            assert(second[i - first.len()] == joined[i]);
        }
    }
}

/// The fees that nobody gets, the proposer's part and what was paid back are what was paid, counted in
/// 256 bits.
pub proof fn law_fees_add_up_in_256_bits(fees: GasFees)
    ensures
        trace::burned(fees) < num::u256_modulus(),
        (trace::burned(fees) + fees.proposer_reward@ + fees.caller_gas_refund@) % num::u256_modulus()
            == fees.caller_gas_spending@ % num::u256_modulus(),
{
    let m = num::u256_modulus() as int;
    let paid = fees.caller_gas_spending@ as int;
    let back = fees.caller_gas_refund@ as int;
    let reward = fees.proposer_reward@ as int;
    let once = (paid - back) % m;
    vstd::arithmetic::div_mod::lemma_mod_bound(paid - back, m);
    vstd::arithmetic::div_mod::lemma_mod_bound(once - reward, m);
    assert(trace::burned(fees) == (once - reward) % m);
    vstd::arithmetic::div_mod::lemma_add_mod_noop(once - reward, reward + back, m);
    vstd::arithmetic::div_mod::lemma_add_mod_noop((once - reward) % m, reward + back, m);
    vstd::arithmetic::div_mod::lemma_mod_twice(once - reward, m);
    assert(((once - reward) % m + reward + back) % m == (once + back) % m);
    vstd::arithmetic::div_mod::lemma_add_mod_noop(paid - back, back, m);
    vstd::arithmetic::div_mod::lemma_add_mod_noop(once, back, m);
    vstd::arithmetic::div_mod::lemma_mod_twice(paid - back, m);
    assert((once + back) % m == paid % m);
}

/// Without a record of fees, all fees are zero.
pub proof fn law_unrecorded_fees_are_zero(recorded: Option<GasFees>, fees: GasFees)
    requires
        trace::is_fees_or_zero(recorded, fees),
    ensures
        recorded matches Some(f) ==> fees == f,
        recorded is None ==> fees.proposer_reward@ == 0 && fees.caller_gas_spending@ == 0
            && fees.caller_gas_refund@ == 0 && fees.effective_gas_price == 0 && trace::burned(fees) == 0,
{
}

} // verus!
