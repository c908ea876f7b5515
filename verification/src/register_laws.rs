//! What holds of every register of transactions.

use crate::fixed_bytes::{Address, TxHash};
use crate::simulation::TransactionAccessSimulationResult;
use crate::table;
use crate::transaction::TypedTransaction;
use crate::transaction_register;
use crate::transaction_register::RegisterModel;
use std::sync::Arc;
use vstd::prelude::*;

verus! {

/// A new register is consistent, and a consistent one stays so when the block changes and when a
/// transaction is registered.
pub proof fn law_register_stays_consistent(
    register: RegisterModel,
    number: u64,
    hash: TxHash,
    tx: TypedTransaction,
    sim: Arc<TransactionAccessSimulationResult>,
)
    requires
        register.well_formed(),
    ensures
        RegisterModel::empty(number).well_formed(),
        register.at_block(number).well_formed(),
        register.with(hash, tx, sim).well_formed(),
{
    register.lemma_with(hash, tx, sim);
}

/// Restricting a consistent register gives a consistent register.
pub proof fn law_restricted_register_is_consistent(register: RegisterModel, hashes: Seq<TxHash>, count: int)
    requires
        register.well_formed(),
        0 <= count <= hashes.len(),
    ensures
        register.restricted(hashes, count).well_formed(),
        register.restricted(hashes, count).prev_block_number == register.prev_block_number,
    decreases count,
{
    if count > 0 {
        law_restricted_register_is_consistent(register, hashes, count - 1);
        let hash = hashes[count - 1];
        law_register_stays_consistent(
            register.restricted(hashes, count - 1),
            0,
            hash,
            register.transaction(hash)->Some_0,
            register.simulation(hash)->Some_0,
        );
    }
}

/// A registered transaction is found again with its simulation, and registering it leaves all others
/// as they were.
pub proof fn law_registered_transactions_are_found(
    register: RegisterModel,
    hash: TxHash,
    tx: TypedTransaction,
    sim: Arc<TransactionAccessSimulationResult>,
    other: TxHash,
)
    requires
        register.well_formed(),
    ensures
        register.with(hash, tx, sim).has(hash),
        register.with(hash, tx, sim).transaction(hash) == Some(tx),
        register.with(hash, tx, sim).simulation(hash) == Some(sim),
        other != hash ==> {
            &&& register.with(hash, tx, sim).has(other) == register.has(other)
            &&& register.with(hash, tx, sim).transaction(other) == register.transaction(other)
            &&& register.with(hash, tx, sim).simulation(other) == register.simulation(other)
        },
{
    let after = register.with(hash, tx, sim);
    table::lemma_entries_put(register.transactions, hash, tx);
    table::lemma_entries_put(register.simulations, hash, sim);
    table::lemma_entries_map(register.transactions);
    table::lemma_entries_map(register.simulations);
    table::lemma_entries_map(after.transactions);
    table::lemma_entries_map(after.simulations);
    assert(table::entries_map(after.transactions).contains_key(hash));
    assert(table::entries_map(after.simulations).contains_key(hash));
    assert(table::entries_map(after.transactions).contains_key(other) <==> table::has_key(
        after.transactions,
        other,
    ));
    assert(table::entries_map(after.simulations).contains_key(other) <==> table::has_key(
        after.simulations,
        other,
    ));
    assert(table::entries_map(register.transactions).contains_key(other) <==> table::has_key(
        register.transactions,
        other,
    ));
    assert(table::entries_map(register.simulations).contains_key(other) <==> table::has_key(
        register.simulations,
        other,
    ));
}

/// When the best block changes, all transactions are forgotten; as long as it does not, none is.
pub proof fn law_new_block_forgets_everything(register: RegisterModel, number: u64, hash: TxHash)
    ensures
        register.at_block(number).prev_block_number == number,
        register.at_block(number).at_block(number) == register.at_block(number),
        number == register.prev_block_number ==> register.at_block(number) == register,
        number != register.prev_block_number ==> !register.at_block(number).has(hash)
            && register.at_block(number).transaction(hash) is None && register.at_block(number).simulation(
            hash,
        ) is None,
{
}

/// A restricted register holds exactly the given transactions, as they are in the whole register.
pub proof fn law_restricted_register_holds_the_given_transactions(
    register: RegisterModel,
    hashes: Seq<TxHash>,
    count: int,
    hash: TxHash,
)
    requires
        register.well_formed(),
        0 <= count <= hashes.len(),
        forall|i: int| 0 <= i < count ==> register.has(#[trigger] hashes[i]),
    ensures
        register.restricted(hashes, count).has(hash) <==> hashes.take(count).contains(hash),
        hashes.take(count).contains(hash) ==> {
            &&& register.restricted(hashes, count).transaction(hash) == register.transaction(hash)
            &&& register.restricted(hashes, count).simulation(hash) == register.simulation(hash)
        },
    decreases count,
{
    if count > 0 {
        let front = register.restricted(hashes, count - 1);
        let last = hashes[count - 1];
        law_restricted_register_holds_the_given_transactions(register, hashes, count - 1, hash);
        law_restricted_register_is_consistent(register, hashes, count - 1);
        law_registered_transactions_are_found(
            front,
            last,
            register.transaction(last)->Some_0,
            register.simulation(last)->Some_0,
            hash,
        );
        assert(hashes.take(count) =~= hashes.take(count - 1).push(last));
        let shorter = hashes.take(count - 1);
        if shorter.contains(hash) {
            let i = choose|i: int| 0 <= i < shorter.len() && shorter[i] == hash;
            assert(hashes.take(count)[i] == hash);
        }
        if hash == last {
            assert(hashes.take(count)[count - 1] == hash);
        } else if hashes.take(count).contains(hash) {
            let i = choose|i: int| 0 <= i < hashes.take(count).len() && hashes.take(count)[i] == hash;
            assert(shorter[i] == hash);
        }
    }
}

/// The search by nonce finds an unused transaction that lets the account go on, and nothing only
/// where there is none.
pub proof fn law_search_by_nonce_is_complete(
    register: RegisterModel,
    sender: Address,
    nonce: u64,
    used: Seq<TxHash>,
    count: int,
)
    requires
        0 <= count <= register.simulations.len(),
    ensures
        match register.with_nonce(sender, nonce, used, count) {
            Some(hash) => {
                &&& !used.contains(hash)
                &&& exists|i: int|
                    0 <= i < count && (#[trigger] register.simulations[i]).0 == hash
                        && transaction_register::has_nonce(*register.simulations[i].1, sender, nonce)
            },
            None => forall|i: int|
                0 <= i < count && !used.contains((#[trigger] register.simulations[i]).0)
                    ==> !transaction_register::has_nonce(*register.simulations[i].1, sender, nonce),
        },
    decreases count,
{
    if count > 0 {
        law_search_by_nonce_is_complete(register, sender, nonce, used, count - 1);
    }
}

/// The search for payments finds exactly the unused transactions that pay the account, each one
/// once.
pub proof fn law_search_for_payments_is_complete(
    register: RegisterModel,
    recipient: Address,
    used: Seq<TxHash>,
    count: int,
)
    requires
        register.well_formed(),
        0 <= count <= register.simulations.len(),
    ensures
        register.paying(recipient, used, count).no_duplicates(),
        forall|i: int|
            0 <= i < count ==> (register.paying(recipient, used, count).contains(
                (#[trigger] register.simulations[i]).0,
            ) <==> !used.contains(register.simulations[i].0) && transaction_register::pays(
                *register.simulations[i].1,
                recipient,
            )),
        forall|hash: TxHash| #[trigger]
            register.paying(recipient, used, count).contains(hash) ==> !used.contains(hash) && exists|i: int|
                0 <= i < count && (#[trigger] register.simulations[i]).0 == hash,
    decreases count,
{
    let all = register.paying(recipient, used, count);
    if count > 0 {
        law_search_for_payments_is_complete(register, recipient, used, count - 1);
        let front = register.paying(recipient, used, count - 1);
        let last = register.simulations[count - 1];
        assert(!front.contains(last.0)) by {
            if front.contains(last.0) {
                let i = choose|i: int|
                    0 <= i < count - 1 && (#[trigger] register.simulations[i]).0 == last.0;
                assert(register.simulations[i].0 != register.simulations[count - 1].0);
            }
        }
        assert forall|hash: TxHash| #[trigger] all.contains(hash) <==> front.contains(hash) || (hash == last.0
            && !used.contains(last.0) && transaction_register::pays(*last.1, recipient)) by {
            if front.contains(hash) {
                let i = choose|i: int| 0 <= i < front.len() && front[i] == hash;
                assert(all[i] == hash);
            }
            if all.contains(hash) {
                let i = choose|i: int| 0 <= i < all.len() && all[i] == hash;
                if i < front.len() {
                    assert(front[i] == hash);
                }
            }
            if hash == last.0 && !used.contains(last.0) && transaction_register::pays(*last.1, recipient) {
                assert(all[front.len() as int] == hash);
            }
        }
        assert forall|i: int| 0 <= i < count implies (all.contains(
            (#[trigger] register.simulations[i]).0,
        ) <==> !used.contains(register.simulations[i].0) && transaction_register::pays(
            *register.simulations[i].1,
            recipient,
        )) by {
            if i < count - 1 {
                assert(register.simulations[i].0 != register.simulations[count - 1].0);
            }
        }
        assert forall|hash: TxHash| #[trigger] all.contains(hash) implies !used.contains(hash) && exists|i: int|
            0 <= i < count && (#[trigger] register.simulations[i]).0 == hash by {
            if front.contains(hash) {
                let i = choose|i: int|
                    0 <= i < count - 1 && (#[trigger] register.simulations[i]).0 == hash;
                assert(register.simulations[i].0 == hash);
            } else {
                assert(register.simulations[count - 1].0 == hash);
            }
        }
    }
}

/// An unused transaction that an account sends with a nonce is found by the nonce, whatever its
/// simulation says about it otherwise: the search finds it or another one.
pub proof fn law_search_finds_what_the_account_sends(
    register: RegisterModel,
    sender: Address,
    nonce: u64,
    used: Seq<TxHash>,
    i: int,
)
    requires
        0 <= i < register.simulations.len(),
        !used.contains(register.simulations[i].0),
        register.simulations[i].1.sender == sender,
        register.simulations[i].1.nonces_required@.len() > 0,
        register.simulations[i].1.nonces_required@[0] == (sender, nonce),
    ensures
        register.with_nonce(sender, nonce, used, register.simulations.len() as int) is Some,
{
    law_search_by_nonce_is_complete(register, sender, nonce, used, register.simulations.len() as int);
}

/// An unused transaction of another account that can leave an account with a nonce is found by the
/// nonce, whatever its simulation says about it otherwise: the search finds it or another one.
pub proof fn law_search_finds_authorizations(
    register: RegisterModel,
    account: Address,
    nonce: u64,
    used: Seq<TxHash>,
    i: int,
    k: int,
)
    requires
        0 <= i < register.simulations.len(),
        !used.contains(register.simulations[i].0),
        register.simulations[i].1.sender != account,
        0 <= k < register.simulations[i].1.nonces_possible@.len(),
        register.simulations[i].1.nonces_possible@[k] == (account, nonce),
    ensures
        register.with_nonce(account, nonce, used, register.simulations.len() as int) is Some,
{
    law_search_by_nonce_is_complete(register, account, nonce, used, register.simulations.len() as int);
    assert(transaction_register::has_nonce(*register.simulations[i].1, account, nonce));
}

/// What is found by a nonce is the first unused transaction that the account sends with the nonce, or
/// that can leave the account with it. A transaction that the account sends counts by the nonce that it
/// needs alone.
pub proof fn law_search_by_nonce_finds_nothing_else(
    register: RegisterModel,
    sender: Address,
    nonce: u64,
    used: Seq<TxHash>,
)
    requires
        forall|i: int|
            0 <= i < register.simulations.len() && !used.contains((#[trigger] register.simulations[i]).0)
                && register.simulations[i].1.sender == sender
                ==> register.simulations[i].1.nonces_required@.len() > 0,
    ensures
        register.with_nonce(sender, nonce, used, register.simulations.len() as int) matches Some(hash)
            ==> exists|i: int| #![trigger register.simulations[i]]
                {
                    let sim = register.simulations[i].1;
                    let own = sim.sender == sender && sim.nonces_required@[0].0 == sender;
                    &&& 0 <= i < register.simulations.len()
                    &&& register.simulations[i].0 == hash
                    &&& !used.contains(hash)
                    &&& own ==> sim.nonces_required@.len() > 0 && sim.nonces_required@[0] == (sender, nonce)
                    &&& !own ==> exists|k: int|
                        0 <= k < sim.nonces_possible@.len() && #[trigger] sim.nonces_possible@[k] == (
                            sender,
                            nonce,
                        )
                    &&& forall|j: int|
                        0 <= j < i && !used.contains((#[trigger] register.simulations[j]).0)
                            && register.simulations[j].1.sender == sender
                            ==> register.simulations[j].1.nonces_required@[0] != (sender, nonce)
                },
{
    let count = register.simulations.len() as int;
    if register.with_nonce(sender, nonce, used, count) is Some {
        let i = lemma_first_with_nonce(register, sender, nonce, used, count);
        let sim = register.simulations[i].1;
        assert(register.simulations[i].0 == register.with_nonce(sender, nonce, used, count)->Some_0);
        assert forall|j: int|
            0 <= j < i && !used.contains((#[trigger] register.simulations[j]).0)
                && register.simulations[j].1.sender == sender implies register.simulations[j].1.nonces_required@[0]
            != (sender, nonce) by {
            assert(!transaction_register::has_nonce(*register.simulations[j].1, sender, nonce));
        }
    }
}

proof fn lemma_first_with_nonce(
    register: RegisterModel,
    sender: Address,
    nonce: u64,
    used: Seq<TxHash>,
    count: int,
) -> (i: int)
    requires
        0 <= count <= register.simulations.len(),
        register.with_nonce(sender, nonce, used, count) is Some,
    ensures
        0 <= i < count,
        register.with_nonce(sender, nonce, used, count) == Some(register.simulations[i].0),
        !used.contains(register.simulations[i].0),
        transaction_register::has_nonce(*register.simulations[i].1, sender, nonce),
        forall|j: int|
            0 <= j < i && !used.contains((#[trigger] register.simulations[j]).0)
                ==> !transaction_register::has_nonce(*register.simulations[j].1, sender, nonce),
    decreases count,
{
    if register.with_nonce(sender, nonce, used, count - 1) is Some {
        lemma_first_with_nonce(register, sender, nonce, used, count - 1)
    } else {
        law_search_by_nonce_is_complete(register, sender, nonce, used, count - 1);
        count - 1
    }
}

/// The search for payments finds exactly the unused transactions by which the account gains ether,
/// whatever their simulations say about them otherwise.
pub proof fn law_payments_are_gains(register: RegisterModel, recipient: Address, used: Seq<TxHash>, i: int)
    requires
        register.well_formed(),
        0 <= i < register.simulations.len(),
    ensures
        ({
            let (hash, sim) = register.simulations[i];
            register.paying(recipient, used, register.simulations.len() as int).contains(hash) <==> {
                &&& !used.contains(hash)
                &&& sim.transfer_diffs@.contains_key(recipient)
                &&& sim.transfer_diffs@[recipient]@ >= 1
            }
        }),
{
    law_search_for_payments_is_complete(register, recipient, used, register.simulations.len() as int);
}

/// A register answers by what it lists: a transaction is there exactly where it is listed, with the
/// simulation that is listed beside it, and it counts as sent by the account that signed it.
pub proof fn law_register_answers_by_its_lists(register: RegisterModel, hash: TxHash, i: int)
    requires
        register.well_formed(),
    ensures
        register.has(hash) <==> exists|k: int|
            0 <= k < register.transactions.len() && (#[trigger] register.transactions[k]).0 == hash,
        0 <= i < register.transactions.len() ==> {
            let (key, tx) = register.transactions[i];
            &&& register.has(key)
            &&& register.transaction(key) == Some(tx)
            &&& register.simulation(key) == Some(register.simulations[i].1)
            &&& register.is_signed(key) <==> tx.signer is Some
            &&& tx.signer is Some ==> register.pending(key).transaction == tx && Some(
                register.pending(key).sender,
            ) == tx.signer
        },
        !register.has(hash) ==> register.transaction(hash) is None && register.simulation(hash) is None
            && !register.is_signed(hash),
{
    table::lemma_entries_map(register.transactions);
    table::lemma_entries_map(register.simulations);
    if table::has_key(register.transactions, hash) {
        let k = choose|k: int|
            0 <= k < register.transactions.len() && (#[trigger] register.transactions[k]).0 == hash;
        assert(register.simulations[k].0 == hash);
    }
    if table::has_key(register.simulations, hash) {
        let k = choose|k: int|
            0 <= k < register.simulations.len() && (#[trigger] register.simulations[k]).0 == hash;
        assert(register.transactions[k].0 == hash);
    }
    if 0 <= i < register.transactions.len() {
        assert(register.transactions[i].0 == register.simulations[i].0);
        assert(table::has_key(register.transactions, register.transactions[i].0));
        assert(table::has_key(register.simulations, register.simulations[i].0));
    }
}

/// Registering a transaction does not change the block for which it is registered, and lists a new one
/// behind those that were there.
pub proof fn law_registering_keeps_the_block_and_the_order(
    register: RegisterModel,
    hash: TxHash,
    tx: TypedTransaction,
    sim: Arc<TransactionAccessSimulationResult>,
    i: int,
)
    requires
        register.well_formed(),
    ensures
        ({
            let after = register.with(hash, tx, sim);
            &&& after.prev_block_number == register.prev_block_number
            &&& after.transactions.len() == register.transactions.len() + if register.has(hash) {
                0int
            } else {
                1
            }
            &&& 0 <= i < register.transactions.len() ==> after.transactions[i].0
                == register.transactions[i].0
        }),
{
    law_register_answers_by_its_lists(register, hash, 0);
}

/// The nonces of a sender are known exactly where each unused transaction of the sender tells one that
/// it needs.
pub proof fn law_known_nonces(register: RegisterModel, sender: Address, used: Seq<TxHash>)
    ensures
        register.nonces_known(sender, used) <==> forall|i: int|
            0 <= i < register.simulations.len() && !used.contains((#[trigger] register.simulations[i]).0)
                && register.simulations[i].1.sender == sender
                ==> register.simulations[i].1.nonces_required@.len() > 0,
{
}

} // verus!
