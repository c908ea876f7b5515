//! Which transactions a transaction waits for.

use crate::batching::dependencies;
use crate::batching::dependencies::DependencyModel;
use crate::batching::questions;
use crate::batching::questions::{Answer, Fault, Halt, Question};
use crate::fixed_bytes::{Address, TxHash};
use crate::num;
use crate::register_laws;
use crate::simulation::TransactionAccessSimulationResult;
use crate::transaction::{InvalidTransactionError, SimulationError};
use crate::transaction_register;
use crate::transaction_register::RegisterModel;
use vstd::prelude::*;

verus! {

/// The transactions that wait for another one.
pub open spec fn waiting_for(map: Map<TxHash, Seq<TxHash>>, other: TxHash) -> Seq<TxHash> {
    if map.contains_key(other) {
        map[other]
    } else {
        Seq::empty()
    }
}

/// Appending what is new keeps the list and adds exactly what it did not hold, in order.
pub proof fn law_appending_adds_what_is_new(a: Seq<TxHash>, b: Seq<TxHash>, x: TxHash)
    ensures
        ({
            let all = dependencies::append_new(a, b);
            &&& all.len() >= a.len()
            &&& all.take(a.len() as int) == a
            &&& all.skip(a.len() as int) == b.filter(|y: TxHash| !a.contains(y))
            &&& all.contains(x) <==> a.contains(x) || b.contains(x)
            &&& a.no_duplicates() && b.no_duplicates() ==> all.no_duplicates()
        }),
{
    let fresh = |y: TxHash| !a.contains(y);
    let new = b.filter(fresh);
    let all = dependencies::append_new(a, b);
    assert(all =~= a + new);
    assert(all.take(a.len() as int) =~= a);
    assert(all.skip(a.len() as int) =~= new);
    lemma_filter_members(b, fresh, x);
    lemma_add_contains(a, new, x);
    if a.no_duplicates() && b.no_duplicates() {
        lemma_filter_distinct(b, fresh);
        assert forall|i: int, j: int| 0 <= i < all.len() && 0 <= j < all.len() && i != j implies all[i]
            != all[j] by {
            if i < a.len() && j >= a.len() {
                lemma_filter_members(b, fresh, all[j]);
                assert(new[j - a.len()] == all[j]);
                assert(new.contains(all[j]));
                assert(a.contains(all[i]));
            } else if j < a.len() && i >= a.len() {
                lemma_filter_members(b, fresh, all[i]);
                assert(new[i - a.len()] == all[i]);
                assert(new.contains(all[i]));
                assert(a.contains(all[j]));
            } else if i >= a.len() {
                assert(new[i - a.len()] == all[i] && new[j - a.len()] == all[j]);
            }
        }
    }
}

proof fn lemma_add_contains(a: Seq<TxHash>, b: Seq<TxHash>, x: TxHash)
    ensures
        (a + b).contains(x) <==> a.contains(x) || b.contains(x),
{
    let all = a + b;
    if a.contains(x) {
        let i = choose|i: int| 0 <= i < a.len() && a[i] == x;
        assert(all[i] == x);
    }
    if b.contains(x) {
        let i = choose|i: int| 0 <= i < b.len() && b[i] == x;
        assert(all[a.len() + i] == x);
    }
    if all.contains(x) {
        let i = choose|i: int| 0 <= i < all.len() && all[i] == x;
        if i < a.len() {
            assert(a[i] == x);
        } else {
            assert(b[i - a.len()] == x);
        }
    }
}

proof fn lemma_filter_members(list: Seq<TxHash>, keep: spec_fn(TxHash) -> bool, x: TxHash)
    ensures
        list.filter(keep).contains(x) <==> list.contains(x) && keep(x),
    decreases list.len(),
{
    reveal(Seq::filter);
    if list.len() > 0 {
        let front = list.drop_last();
        lemma_filter_members(front, keep, x);
        if keep(list.last()) {
            crate::concurrent_proposer::decisions::lemma_contains_push(front.filter(keep), list.last(), x);
        }
        assert(list =~= front.push(list.last()));
        crate::concurrent_proposer::decisions::lemma_contains_push(front, list.last(), x);
    }
}

proof fn lemma_filter_distinct(list: Seq<TxHash>, keep: spec_fn(TxHash) -> bool)
    requires
        list.no_duplicates(),
    ensures
        list.filter(keep).no_duplicates(),
    decreases list.len(),
{
    reveal(Seq::filter);
    if list.len() > 0 {
        let front = list.drop_last();
        lemma_filter_distinct(front, keep);
        if keep(list.last()) {
            lemma_filter_members(front, keep, list.last());
            assert(!front.contains(list.last()));
            crate::concurrent_proposer::decisions::lemma_no_duplicates_push(front.filter(keep), list.last());
        }
    }
}

/// Of two maps that are merged, a transaction waits for exactly those for which it waited in one of
/// them, and those that waited in the first one come first.
pub proof fn law_merging_keeps_who_waits(
    a: Map<TxHash, Seq<TxHash>>,
    b: Map<TxHash, Seq<TxHash>>,
    other: TxHash,
    tx: TxHash,
)
    ensures
        ({
            let all = waiting_for(dependencies::merged(a, b), other);
            let first = waiting_for(a, other);
            &&& dependencies::merged(a, b).contains_key(other) <==> a.contains_key(other) || b.contains_key(
                other,
            )
            &&& all.contains(tx) <==> first.contains(tx) || waiting_for(b, other).contains(tx)
            &&& all.len() >= first.len()
            &&& all.take(first.len() as int) == first
        }),
{
    law_appending_adds_what_is_new(waiting_for(a, other), waiting_for(b, other), tx);
    assert(!a.contains_key(other) && !b.contains_key(other) ==> waiting_for(dependencies::merged(a, b), other)
        =~= waiting_for(a, other));
}

/// Where a transaction waits for another one, it stands last among those that do, and nothing else
/// changes.
pub proof fn law_waiting_adds_one(d: DependencyModel, other: TxHash, tx: TxHash, k: TxHash)
    ensures
        ({
            let after = d.then_waiting(other, tx);
            &&& after.repl == d.repl
            &&& after.map.contains_key(k) <==> d.map.contains_key(k) || k == other
            &&& waiting_for(after.map, k) == if k == other {
                waiting_for(d.map, k).push(tx)
            } else {
                waiting_for(d.map, k)
            }
        }),
{
}

/// What has to go first for one of two things is what has to go first for either, without doubles.
pub proof fn law_joining_keeps_both(a: DependencyModel, b: DependencyModel, other: TxHash, x: TxHash)
    ensures
        ({
            let both = a.joined(b);
            &&& both.repl.len() >= a.repl.len()
            &&& both.repl.take(a.repl.len() as int) == a.repl
            &&& both.repl.contains(x) <==> a.repl.contains(x) || b.repl.contains(x)
            &&& waiting_for(both.map, other).contains(x) <==> waiting_for(a.map, other).contains(x)
                || waiting_for(b.map, other).contains(x)
        }),
{
    law_appending_adds_what_is_new(a.repl, b.repl, x);
    law_merging_keeps_who_waits(a.map, b.map, other, x);
}

/// Whether nothing can go first.
pub open spec fn is_nothing(d: DependencyModel) -> bool {
    d.repl.len() == 0 && forall|k: TxHash| !(#[trigger] d.map.contains_key(k))
}

/// Looking for what has to go first begins with the simulation of the transaction on top of the block.
/// A transaction without errors stands for itself. Where the last error is neither a nonce that is too
/// high nor a lack of funds, nothing can go first.
pub proof fn law_simulation_decides(
    register: RegisterModel,
    tx: TxHash,
    used: Seq<TxHash>,
    answers: Seq<Answer>,
    at: int,
)
    requires
        0 <= at <= answers.len(),
    ensures
        ({
            let result = dependencies::dependencies(register, tx, used, answers, at);
            &&& !register.is_signed(tx) ==> result == Err::<(DependencyModel, int), Halt>(
                Halt::Fault(Fault::NotRegistered(tx)),
            )
            &&& register.is_signed(tx) && at == answers.len() ==> result == Err::<(DependencyModel, int), Halt>(
                Halt::Ask(Question::Simulate(register.pending(tx))),
            )
            &&& register.is_signed(tx) && at < answers.len() ==> (answers[at] matches Answer::Simulated(sim)
                ==> {
                &&& sim.errors@.len() == 0 ==> (result matches Ok((d, next)) && d.repl == seq![tx]
                    && (forall|k: TxHash| !(#[trigger] d.map.contains_key(k))) && next == at + 1)
                &&& sim.errors@.len() > 0 && sim.errors@.last() != SimulationError::InvalidTransaction(
                    InvalidTransactionError::NonceTooHigh,
                ) && sim.errors@.last() != SimulationError::InvalidTransaction(
                    InvalidTransactionError::InsufficientFunds,
                ) ==> (result matches Ok((d, next)) && is_nothing(d) && next == at + 1)
            })
        }),
{
}

/// Whether a registered transaction lets an account go on with a nonce: the account sends it with that
/// nonce, or another account sends it and it can leave the account with that nonce.
pub open spec fn provides_nonce(sim: TransactionAccessSimulationResult, account: Address, nonce: int) -> bool {
    let own = sim.sender == account && sim.nonces_required@.len() > 0 && sim.nonces_required@[0].0 == account;
    &&& own ==> sim.nonces_required@[0].1 == nonce
    &&& !own ==> exists|k: int|
        0 <= k < sim.nonces_possible@.len() && (#[trigger] sim.nonces_possible@[k]).0 == account
            && sim.nonces_possible@[k].1 == nonce
}

/// A transaction whose nonce is too high waits for an unused registered transaction that provides the
/// nonce before, and so for what has to go first for that one. Only where no unused registered one
/// provides that nonce, can nothing go first.
pub proof fn law_high_nonces_wait_for_the_nonce_before(
    register: RegisterModel,
    tx: TxHash,
    used: Seq<TxHash>,
    answers: Seq<Answer>,
    at: int,
    sim: TransactionAccessSimulationResult,
)
    requires
        0 <= at < answers.len(),
        register.is_signed(tx),
        answers[at] == Answer::Simulated(sim),
        sim.errors@.len() > 0,
        sim.errors@.last() == SimulationError::InvalidTransaction(InvalidTransactionError::NonceTooHigh),
        sim.nonces_required@.len() > 0,
        sim.nonces_required@[0].1 > 0,
        forall|i: int|
            0 <= i < register.simulations.len() && (#[trigger] register.simulations[i]).0 != tx
                && !used.contains(register.simulations[i].0) && register.simulations[i].1.sender == sim.sender
                ==> register.simulations[i].1.nonces_required@.len() > 0,
    ensures
        ({
            let result = dependencies::dependencies(register, tx, used, answers, at);
            let nonce = sim.nonces_required@[0].1 - 1;
            ||| {
                &&& result matches Ok((d, next)) && is_nothing(d) && next == at + 1
                &&& forall|i: int|
                    0 <= i < register.simulations.len() && (#[trigger] register.simulations[i]).0 != tx
                        && !used.contains(register.simulations[i].0) ==> !provides_nonce(
                        *register.simulations[i].1,
                        sim.sender,
                        nonce,
                    )
            }
            ||| exists|i: int|
                {
                    let other = (#[trigger] register.simulations[i]).0;
                    &&& 0 <= i < register.simulations.len()
                    &&& other != tx
                    &&& !used.contains(other)
                    &&& provides_nonce(*register.simulations[i].1, sim.sender, nonce)
                    &&& match dependencies::dependencies(register, other, used.push(tx), answers, at + 1) {
                        Err(halt) => result == Err::<(DependencyModel, int), Halt>(halt),
                        Ok((o, after)) => {
                            &&& result matches Ok((d, next)) && next == after && d.repl == o.repl
                            &&& forall|k: TxHash| #[trigger]
                                waiting_for(result->Ok_0.0.map, k) == if k == other {
                                    waiting_for(o.map, k).push(tx)
                                } else {
                                    waiting_for(o.map, k)
                                }
                        },
                    }
                }
        }),
{
    let used_with_tx = used.push(tx);
    let nonce = (sim.nonces_required@[0].1 - 1) as u64;
    let count = register.simulations.len() as int;
    let result = dependencies::dependencies(register, tx, used, answers, at);
    assert forall|h: TxHash| #[trigger] used_with_tx.contains(h) <==> used.contains(h) || h == tx by {
        crate::concurrent_proposer::decisions::lemma_contains_push(used, tx, h);
    }
    assert(register.nonces_known(sim.sender, used_with_tx));
    assert forall|i: int|
        0 <= i < count && !used_with_tx.contains((#[trigger] register.simulations[i]).0) implies (
    transaction_register::has_nonce(*register.simulations[i].1, sim.sender, nonce) <==> provides_nonce(
        *register.simulations[i].1,
        sim.sender,
        nonce as int,
    )) by {
        let s = *register.simulations[i].1;
        if transaction_register::lists_nonce(s.nonces_possible@, sim.sender, nonce) {
            let k = choose|k: int|
                0 <= k < s.nonces_possible@.len() && #[trigger] s.nonces_possible@[k] == (sim.sender, nonce);
            assert(s.nonces_possible@[k].0 == sim.sender);
        }
        if exists|k: int|
            0 <= k < s.nonces_possible@.len() && (#[trigger] s.nonces_possible@[k]).0 == sim.sender
                && s.nonces_possible@[k].1 == nonce {
            let k = choose|k: int|
                0 <= k < s.nonces_possible@.len() && (#[trigger] s.nonces_possible@[k]).0 == sim.sender
                    && s.nonces_possible@[k].1 == nonce;
            assert(s.nonces_possible@[k] == (sim.sender, nonce));
        }
    }
    register_laws::law_search_by_nonce_is_complete(register, sim.sender, nonce, used_with_tx, count);
    dependencies::lemma_with_nonce_unused(register, sim.sender, nonce, used_with_tx, count);
    match register.with_nonce(sim.sender, nonce, used_with_tx, count) {
        None => {
            assert forall|i: int|
                0 <= i < register.simulations.len() && (#[trigger] register.simulations[i]).0 != tx
                    && !used.contains(register.simulations[i].0) implies !provides_nonce(
                *register.simulations[i].1,
                sim.sender,
                nonce as int,
            ) by {
                assert(!used_with_tx.contains(register.simulations[i].0));
            }
        },
        Some(other) => {
            let i = choose|i: int|
                0 <= i < count && (#[trigger] register.simulations[i]).0 == other
                    && transaction_register::has_nonce(*register.simulations[i].1, sim.sender, nonce);
            assert(register.simulations[i].0 == other);
            assert(provides_nonce(*register.simulations[i].1, sim.sender, nonce as int));
            if let Ok((o, after)) = dependencies::dependencies(register, other, used_with_tx, answers, at + 1) {
                assert(result == Ok::<(DependencyModel, int), Halt>((o.then_waiting(other, tx), after)));
                assert forall|k: TxHash| #[trigger]
                    waiting_for(result->Ok_0.0.map, k) == if k == other {
                        waiting_for(o.map, k).push(tx)
                    } else {
                        waiting_for(o.map, k)
                    } by {
                    law_waiting_adds_one(o, other, tx, k);
                }
            }
        },
    }
}

/// The nonce before cannot be looked for where the simulation tells no nonce, or the first one of all,
/// or where the nonce of an unused transaction of the same sender is not known.
pub proof fn law_unknown_nonces_stop_the_search(
    register: RegisterModel,
    tx: TxHash,
    used: Seq<TxHash>,
    answers: Seq<Answer>,
    at: int,
    sim: TransactionAccessSimulationResult,
)
    requires
        0 <= at < answers.len(),
        register.is_signed(tx),
        answers[at] == Answer::Simulated(sim),
        sim.errors@.len() > 0,
        sim.errors@.last() == SimulationError::InvalidTransaction(InvalidTransactionError::NonceTooHigh),
        ({
            ||| sim.nonces_required@.len() == 0
            ||| sim.nonces_required@[0].1 == 0
            ||| exists|i: int|
                0 <= i < register.simulations.len() && (#[trigger] register.simulations[i]).0 != tx
                    && !used.contains(register.simulations[i].0) && register.simulations[i].1.sender
                    == sim.sender && register.simulations[i].1.nonces_required@.len() == 0
        }),
    ensures
        dependencies::dependencies(register, tx, used, answers, at) == Err::<(DependencyModel, int), Halt>(
            Halt::Fault(Fault::NonceUnknown(tx)),
        ),
{
    let used_with_tx = used.push(tx);
    if exists|i: int|
        0 <= i < register.simulations.len() && (#[trigger] register.simulations[i]).0 != tx && !used.contains(
            register.simulations[i].0,
        ) && register.simulations[i].1.sender == sim.sender
            && register.simulations[i].1.nonces_required@.len() == 0 {
        let i = choose|i: int|
            0 <= i < register.simulations.len() && (#[trigger] register.simulations[i]).0 != tx
                && !used.contains(register.simulations[i].0) && register.simulations[i].1.sender == sim.sender
                && register.simulations[i].1.nonces_required@.len() == 0;
        crate::concurrent_proposer::decisions::lemma_contains_push(used, tx, register.simulations[i].0);
        assert(!register.nonces_known(sim.sender, used_with_tx));
    }
}

/// A transaction whose sender lacks funds waits for payments of what is missing: the value of the
/// transaction and the most that its gas can cost, in 256 bits, less the balance of the sender. The
/// balance is asked for, and payments are looked for among the transactions that are not used.
pub proof fn law_missing_funds_are_looked_for(
    register: RegisterModel,
    tx: TxHash,
    used: Seq<TxHash>,
    answers: Seq<Answer>,
    at: int,
    sim: TransactionAccessSimulationResult,
)
    requires
        0 <= at < answers.len(),
        register.is_signed(tx),
        answers[at] == Answer::Simulated(sim),
        sim.errors@.len() > 0,
        sim.errors@.last() == SimulationError::InvalidTransaction(InvalidTransactionError::InsufficientFunds),
    ensures
        ({
            let result = dependencies::dependencies(register, tx, used, answers, at);
            let value = register.transaction(tx)->Some_0.value@;
            let needed = (sim.max_gas_cost + value) % (num::u256_modulus() as int);
            &&& at + 1 == answers.len() ==> result == Err::<(DependencyModel, int), Halt>(
                Halt::Ask(Question::Balance(sim.sender)),
            )
            &&& at + 1 < answers.len() ==> (answers[at + 1] matches Answer::Balance(balance) ==> {
                &&& balance@ > needed ==> result == Err::<(DependencyModel, int), Halt>(
                    Halt::Fault(Fault::FundsNotMissing(tx)),
                )
                &&& balance@ <= needed ==> result == dependencies::funding(
                    register,
                    tx,
                    sim.sender,
                    (needed - balance@) as nat,
                    used.push(tx),
                    0,
                    0,
                    (DependencyModel { repl: Seq::empty(), map: Map::empty() }),
                    answers,
                    at + 2,
                )
            })
        }),
{
}

/// The ether that an account gains by a transaction, negative where it loses some.
pub open spec fn gain(sim: TransactionAccessSimulationResult, account: Address) -> int {
    if sim.transfer_diffs@.contains_key(account) {
        sim.transfer_diffs@[account]@
    } else {
        0
    }
}

/// Payments are tried one after the other by simulating them. A transaction by which the sender gains
/// nothing is passed over. What has to go first for one by which it gains is joined to what was found,
/// and the transaction waits for it. As soon as the gains reach what is missing, the search is over.
/// Where all of them do not, nothing can go first.
pub proof fn law_payments_are_tried_in_turn(
    register: RegisterModel,
    tx: TxHash,
    sender: Address,
    missing: nat,
    used: Seq<TxHash>,
    i: int,
    found: nat,
    so_far: DependencyModel,
    answers: Seq<Answer>,
    at: int,
)
    requires
        0 <= i,
        0 <= at <= answers.len(),
    ensures
        ({
            let others = register.paying(sender, used, register.simulations.len() as int);
            let other = others[i];
            let result = dependencies::funding(
                register,
                tx,
                sender,
                missing,
                used,
                i,
                found,
                so_far,
                answers,
                at,
            );
            &&& i >= others.len() && found >= missing ==> result == Ok::<(DependencyModel, int), Halt>(
                (so_far, at),
            )
            &&& i >= others.len() && found < missing ==> (result matches Ok((d, next)) && is_nothing(d)
                && next == at)
            &&& i < others.len() && register.is_signed(other) && at == answers.len() ==> result == Err::<
                (DependencyModel, int),
                Halt,
            >(Halt::Ask(Question::Simulate(register.pending(other))))
            &&& i < others.len() && register.is_signed(other) && at < answers.len() ==> (
            answers[at] matches Answer::Simulated(sim) ==> {
                &&& gain(sim, sender) <= 0 && found >= missing ==> result == Ok::<
                    (DependencyModel, int),
                    Halt,
                >((so_far, at + 1))
                &&& gain(sim, sender) <= 0 && found < missing ==> result == dependencies::funding(
                    register,
                    tx,
                    sender,
                    missing,
                    used,
                    i + 1,
                    found,
                    so_far,
                    answers,
                    at + 1,
                )
                &&& gain(sim, sender) >= num::u256_modulus() ==> result == Err::<(DependencyModel, int), Halt>(
                    Halt::Fault(Fault::TransferTooLarge(other)),
                )
                &&& 0 < gain(sim, sender) < num::u256_modulus() ==> match dependencies::dependencies(
                    register,
                    other,
                    used,
                    answers,
                    at + 1,
                ) {
                    Err(halt) => result == Err::<(DependencyModel, int), Halt>(halt),
                    Ok((d, next)) => {
                        let sum = found + gain(sim, sender);
                        let more = if sum < num::u256_modulus() {
                            sum as nat
                        } else {
                            (num::u256_modulus() - 1) as nat
                        };
                        let both = so_far.joined(d.then_waiting(other, tx));
                        &&& more >= missing ==> result == Ok::<(DependencyModel, int), Halt>((both, next))
                        &&& more < missing ==> result == dependencies::funding(
                            register,
                            tx,
                            sender,
                            missing,
                            used,
                            i + 1,
                            more,
                            both,
                            answers,
                            next,
                        )
                    },
                }
            })
        }),
{
    let others = register.paying(sender, used, register.simulations.len() as int);
    if i < others.len() {
        dependencies::lemma_paying_unused(register, sender, used, register.simulations.len() as int, i);
    }
}

/// Where payments make up for what is missing, the transaction waits for at least one of those that pay
/// its sender.
pub proof fn law_sufficient_payments_are_waited_for(
    register: RegisterModel,
    tx: TxHash,
    sender: Address,
    missing: nat,
    used: Seq<TxHash>,
    i: int,
    found: nat,
    so_far: DependencyModel,
    answers: Seq<Answer>,
    at: int,
)
    requires
        found < missing <= found + dependencies::payments(register, sender, used, i, answers, at)
            < num::u256_modulus(),
    ensures
        dependencies::funding(register, tx, sender, missing, used, i, found, so_far, answers, at) matches Ok(
            (d, _),
        ) ==> exists|other: TxHash| #[trigger]
            waiting_for(d.map, other).contains(tx) && register.paying(
                sender,
                used,
                register.simulations.len() as int,
            ).contains(other),
    decreases register.paying(sender, used, register.simulations.len() as int).len() - i,
{
    let count = register.simulations.len() as int;
    let others = register.paying(sender, used, count);
    let result = dependencies::funding(
        register,
        tx,
        sender,
        missing,
        used,
        i,
        found,
        so_far,
        answers,
        at,
    );
    if 0 <= i < others.len() {
        let other = others[i];
        if let Ok(sim) = questions::simulated(register, other, answers, at) {
            if transaction_register::pays(sim, sender) {
                let more = num::u256_sat_add(found, dependencies::paid(sim, sender));
                dependencies::lemma_paying_unused(register, sender, used, count, i);
                if let Ok((d, next)) = dependencies::dependencies(register, other, used, answers, at + 1) {
                    let both = so_far.joined(d.then_waiting(other, tx));
                    law_waiting_adds_one(d, other, tx, other);
                    law_joining_keeps_both(so_far, d.then_waiting(other, tx), other, tx);
                    let list = waiting_for(d.then_waiting(other, tx).map, other);
                    assert(list[list.len() - 1] == tx);
                    assert(waiting_for(both.map, other).contains(tx));
                    assert(others.contains(other));
                    assert(more == found + dependencies::paid(sim, sender));
                    if more >= missing {
                        assert(result == Ok::<(DependencyModel, int), Halt>((both, next)));
                        assert(waiting_for(result->Ok_0.0.map, other).contains(tx));
                    } else {
                        law_sufficient_payments_are_waited_for(
                            register,
                            tx,
                            sender,
                            missing,
                            used,
                            i + 1,
                            more,
                            both,
                            answers,
                            next,
                        );
                        assert(result == dependencies::funding(
                            register,
                            tx,
                            sender,
                            missing,
                            used,
                            i + 1,
                            more,
                            both,
                            answers,
                            next,
                        ));
                    }
                }
            } else {
                law_sufficient_payments_are_waited_for(
                    register,
                    tx,
                    sender,
                    missing,
                    used,
                    i + 1,
                    found,
                    so_far,
                    answers,
                    at + 1,
                );
            }
        }
    }
}

} // verus!
