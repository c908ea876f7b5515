//! Which transactions have to go first for a transaction to become valid.

use crate::batching::questions;
use crate::batching::questions::{Answer, Fault, Halt};
use crate::concurrent_proposer::batches::contains_hash;
use crate::fixed_bytes::{Address, TxHash};
use crate::num;
use crate::num::U256;
use crate::simulation::TransactionAccessSimulationResult;
use crate::table;
use crate::table::Table;
use crate::transaction::{InvalidTransactionError, SimulationError};
use crate::transaction_register;
use crate::transaction_register::{is_paying, RegisterModel, TransactionRegister};
use std::sync::Arc;
use vstd::prelude::*;

verus! {

/// A list, and behind it what of another list does not occur in it.
pub open spec fn append_new(a: Seq<TxHash>, b: Seq<TxHash>) -> Seq<TxHash> {
    a + b.filter(|x: TxHash| !a.contains(x))
}

/// The list of a key, which is empty where the key has none.
pub open spec fn list_of(map: Map<TxHash, Seq<TxHash>>, key: TxHash) -> Seq<TxHash> {
    if map.contains_key(key) {
        map[key]
    } else {
        Seq::empty()
    }
}

/// Two maps of lists as one: each list of the second is appended to that of the first.
pub open spec fn merged(a: Map<TxHash, Seq<TxHash>>, b: Map<TxHash, Seq<TxHash>>) -> Map<
    TxHash,
    Seq<TxHash>,
> {
    Map::new(
        |k: TxHash| a.contains_key(k) || b.contains_key(k),
        |k: TxHash| append_new(list_of(a, k), list_of(b, k)),
    )
}

/// A map of lists in which a transaction waits for another one.
pub open spec fn waiting(map: Map<TxHash, Seq<TxHash>>, other: TxHash, tx: TxHash) -> Map<
    TxHash,
    Seq<TxHash>,
> {
    map.insert(other, list_of(map, other).push(tx))
}

/// The contents of a table of lists.
pub open spec fn lists(t: Map<TxHash, Vec<TxHash>>) -> Map<TxHash, Seq<TxHash>> {
    t.map_values(|v: Vec<TxHash>| v@)
}

/// What has to go first for a transaction to become valid.
#[verifier::ext_equal]
pub struct DependencyModel {
    /// the transactions that can go into the batch in its place
    pub repl: Seq<TxHash>,
    /// for each transaction those that wait for it
    pub map: Map<TxHash, Seq<TxHash>>,
}

impl DependencyModel {
    /// Nothing can go first.
    pub open spec fn none() -> DependencyModel {
        DependencyModel { repl: Seq::empty(), map: Map::empty() }
    }

    /// The transaction itself can go into the batch.
    pub open spec fn itself(tx: TxHash) -> DependencyModel {
        DependencyModel { repl: seq![tx], map: Map::empty() }
    }

    /// A transaction waits for another one, for which this has to go first.
    pub open spec fn then_waiting(self, other: TxHash, tx: TxHash) -> DependencyModel {
        DependencyModel { map: waiting(self.map, other, tx), ..self }
    }

    /// This and what has to go first for something else.
    pub open spec fn joined(self, more: DependencyModel) -> DependencyModel {
        DependencyModel {
            repl: append_new(self.repl, more.repl),
            map: merged(self.map, more.map),
        }
    }
}

/// The number of simulations whose transaction is not used.
pub open spec fn unused(
    sims: Seq<(TxHash, Arc<TransactionAccessSimulationResult>)>,
    used: Seq<TxHash>,
) -> nat
    decreases sims.len(),
{
    if sims.len() == 0 {
        0
    } else {
        unused(sims.drop_last(), used) + if used.contains(sims.last().0) {
            0nat
        } else {
            1
        }
    }
}

/// The funds that a transaction needs: its value and the most that its gas can cost, wrapping
/// around.
pub open spec fn required_funds(register: RegisterModel, tx: TxHash, sim: TransactionAccessSimulationResult) -> nat {
    num::u256_add(sim.max_gas_cost as nat, register.pending(tx).transaction.value@)
}

/// What has to go first for a transaction to become valid, by the answers from a place on, and the
/// place behind the last one of them.
///
/// A transaction whose nonce is too high waits for one of the same account with the nonce before. A
/// transaction whose sender lacks funds waits for transactions that pay the sender.
pub open spec fn dependencies(
    register: RegisterModel,
    tx: TxHash,
    used: Seq<TxHash>,
    answers: Seq<Answer>,
    at: int,
) -> Result<(DependencyModel, int), Halt>
    decreases unused(register.simulations, used.push(tx)), 1int, 0int,
{
    match questions::simulated(register, tx, answers, at) {
        Err(halt) => Err(halt),
        Ok(sim) => if sim.errors@.len() == 0 {
            Ok((DependencyModel::itself(tx), at + 1))
        } else {
            let used_with_tx = used.push(tx);
            match sim.errors@.last() {
                SimulationError::InvalidTransaction(InvalidTransactionError::NonceTooHigh) => {
                    if sim.nonces_required@.len() == 0 || sim.nonces_required@[0].1 == 0
                        || !register.nonces_known(sim.sender, used_with_tx) {
                        Err(Halt::Fault(Fault::NonceUnknown(tx)))
                    } else {
                        let nonce = (sim.nonces_required@[0].1 - 1) as u64;
                        let count = register.simulations.len() as int;
                        match register.with_nonce(sim.sender, nonce, used_with_tx, count) {
                            None => Ok((DependencyModel::none(), at + 1)),
                            Some(other) => {
                                proof {
                                    lemma_with_nonce_unused(register, sim.sender, nonce, used_with_tx, count);
                                }
                                match dependencies(register, other, used_with_tx, answers, at + 1) {
                                    Err(halt) => Err(halt),
                                    Ok((d, next)) => Ok((d.then_waiting(other, tx), next)),
                                }
                            },
                        }
                    }
                },
                SimulationError::InvalidTransaction(InvalidTransactionError::InsufficientFunds) => {
                    match questions::balance(sim.sender, answers, at + 1) {
                        Err(halt) => Err(halt),
                        Ok(balance) => if balance@ > required_funds(register, tx, sim) {
                            Err(Halt::Fault(Fault::FundsNotMissing(tx)))
                        } else {
                            funding(
                                register,
                                tx,
                                sim.sender,
                                (required_funds(register, tx, sim) - balance@) as nat,
                                used_with_tx,
                                0,
                                0,
                                DependencyModel::none(),
                                answers,
                                at + 2,
                            )
                        },
                    }
                },
                _ => Ok((DependencyModel::none(), at + 1)),
            }
        },
    }
}

/// The ether that an account gets by a transaction that pays it.
pub open spec fn paid(sim: TransactionAccessSimulationResult, recipient: Address) -> nat {
    sim.transfer_diffs@[recipient]@ as nat
}

/// What has to go first for the sender of a transaction to get the missing funds: the transactions
/// that pay the sender, from the one at place `i` on, as long as the funds found so far do not
/// suffice. Where all of them do not suffice, nothing can go first.
///
/// A transaction that turns out to pay the sender nothing is passed over.
pub open spec fn funding(
    register: RegisterModel,
    tx: TxHash,
    sender: Address,
    missing: nat,
    used: Seq<TxHash>,
    i: int,
    found: nat,
    so_far: DependencyModel,
    answers: Seq<Answer>,
    at: int,
) -> Result<(DependencyModel, int), Halt>
    decreases
            unused(register.simulations, used),
            0int,
            register.paying(sender, used, register.simulations.len() as int).len() - i,
{
    let others = register.paying(sender, used, register.simulations.len() as int);
    if i < 0 || i >= others.len() {
        Ok(
            (
                if found >= missing {
                    so_far
                } else {
                    DependencyModel::none()
                },
                at,
            ),
        )
    } else {
        let other = others[i];
        match questions::simulated(register, other, answers, at) {
            Err(halt) => Err(halt),
            Ok(sim) => if transaction_register::pays(sim, sender) {
                let amount = paid(sim, sender);
                if amount >= num::u256_modulus() {
                    Err(Halt::Fault(Fault::TransferTooLarge(other)))
                } else {
                    let more = num::u256_sat_add(found, amount);
                    proof {
                        lemma_paying_unused(register, sender, used, register.simulations.len() as int, i);
                    }
                    match dependencies(register, other, used, answers, at + 1) {
                        Err(halt) => Err(halt),
                        Ok((d, next)) => {
                            let both = so_far.joined(d.then_waiting(other, tx));
                            if more >= missing {
                                Ok((both, next))
                            } else {
                                funding(register, tx, sender, missing, used, i + 1, more, both, answers, next)
                            }
                        },
                    }
                }
            } else if found >= missing {
                Ok((so_far, at + 1))
            } else {
                funding(register, tx, sender, missing, used, i + 1, found, so_far, answers, at + 1)
            },
        }
    }
}

/// Using one more transaction leaves fewer unused.
pub proof fn lemma_unused_shrinks(
    sims: Seq<(TxHash, Arc<TransactionAccessSimulationResult>)>,
    used: Seq<TxHash>,
    hash: TxHash,
)
    ensures
        unused(sims, used.push(hash)) <= unused(sims, used),
        !used.contains(hash) && table::has_key(sims, hash) ==> unused(sims, used.push(hash)) < unused(
            sims,
            used,
        ),
    decreases sims.len(),
{
    if sims.len() > 0 {
        let front = sims.drop_last();
        lemma_unused_shrinks(front, used, hash);
        let last = sims.last().0;
        if used.contains(last) {
            let i = choose|i: int| 0 <= i < used.len() && used[i] == last;
            assert(used.push(hash)[i] == last);
        }
        if last == hash {
            assert(used.push(hash)[used.len() as int] == hash);
        }
        if table::has_key(sims, hash) && last != hash {
            let i = choose|i: int| 0 <= i < sims.len() && (#[trigger] sims[i]).0 == hash;
            assert(front[i].0 == hash);
        }
    }
}

/// A transaction that is found by its nonce is registered and not used.
pub proof fn lemma_with_nonce_unused(
    register: RegisterModel,
    sender: Address,
    nonce: u64,
    used: Seq<TxHash>,
    count: int,
)
    requires
        0 <= count <= register.simulations.len(),
    ensures
        register.with_nonce(sender, nonce, used, count) matches Some(other) ==> {
            &&& !used.contains(other)
            &&& table::has_key(register.simulations, other)
            &&& unused(register.simulations, used.push(other)) < unused(register.simulations, used)
        },
    decreases count,
{
    if count > 0 {
        lemma_with_nonce_unused(register, sender, nonce, used, count - 1);
        if let Some(other) = register.with_nonce(sender, nonce, used, count) {
            if register.with_nonce(sender, nonce, used, count - 1) is None {
                assert(register.simulations[count - 1].0 == other);
                lemma_unused_shrinks(register.simulations, used, other);
            }
        }
    }
}

/// A transaction that is found by its payment is registered and not used.
pub proof fn lemma_paying_unused(
    register: RegisterModel,
    recipient: Address,
    used: Seq<TxHash>,
    count: int,
    i: int,
)
    requires
        0 <= count <= register.simulations.len(),
        0 <= i < register.paying(recipient, used, count).len(),
    ensures
        ({
            let other = register.paying(recipient, used, count)[i];
            &&& !used.contains(other)
            &&& table::has_key(register.simulations, other)
            &&& unused(register.simulations, used.push(other)) < unused(register.simulations, used)
        }),
    decreases count,
{
    if count > 0 {
        let front = register.paying(recipient, used, count - 1);
        let all = register.paying(recipient, used, count);
        if i < front.len() {
            lemma_paying_unused(register, recipient, used, count - 1, i);
            assert(all[i] == front[i]);
        } else {
            assert(register.simulations[count - 1].0 == all[i]);
            lemma_unused_shrinks(register.simulations, used, all[i]);
        }
    }
}

/// What has to go first for a transaction to become valid.
pub struct Dependencies {
    /// the transactions that can go into the batch in its place
    pub repl: Vec<TxHash>,
    /// for each transaction those that wait for it
    pub map: Table<32, Vec<TxHash>>,
}

impl View for Dependencies {
    type V = DependencyModel;

    open spec fn view(&self) -> DependencyModel {
        DependencyModel { repl: self.repl@, map: lists(self.map@) }
    }
}

/// Whether a computation ends as it should.
pub open spec fn agrees<T: View>(r: Result<(T, usize), Halt>, want: Result<(T::V, int), Halt>) -> bool {
    match (r, want) {
        (Ok((x, n)), Ok((model, next))) => x@ == model && n == next,
        (Err(halt), Err(h)) => halt == h,
        _ => false,
    }
}

/// Appends what does not occur in a list yet.
pub fn append_missing(list: &mut Vec<TxHash>, more: &Vec<TxHash>)
    ensures
        final(list)@ == append_new(old(list)@, more@),
{
    let ghost before = list@;
    let ghost fresh = |x: TxHash| !before.contains(x);
    let mut added: Vec<TxHash> = Vec::new();
    let mut i: usize = 0;
    while i < more.len()
        invariant
            list@ == before,
            fresh == (|x: TxHash| !before.contains(x)),
            0 <= i <= more@.len(),
            added@ == more@.take(i as int).filter(fresh),
        decreases more@.len() - i,
    {
        reveal(Seq::filter);
        assert(more@.take(i + 1).drop_last() =~= more@.take(i as int));
        if !contains_hash(list, &more[i]) {
            added.push(more[i]);
        }
        i = i + 1;
    }
    assert(more@.take(more@.len() as int) =~= more@);
    list.append(&mut added);
    assert(list@ =~= append_new(before, more@));
}

impl Dependencies {
    fn none() -> (r: Dependencies)
        ensures
            r@ == DependencyModel::none(),
    {
        let r = Dependencies { repl: Vec::new(), map: Table::new() };
        assert(r@ =~= DependencyModel::none());
        r
    }

    fn itself(tx: TxHash) -> (r: Dependencies)
        ensures
            r@ == DependencyModel::itself(tx),
    {
        let mut repl: Vec<TxHash> = Vec::new();
        repl.push(tx);
        let r = Dependencies { repl, map: Table::new() };
        assert(r@ =~= DependencyModel::itself(tx));
        r
    }

    fn then_waiting(self, other: TxHash, tx: TxHash) -> (r: Dependencies)
        ensures
            r@ == self@.then_waiting(other, tx),
    {
        let mut map = self.map;
        let ghost before = lists(map@);
        let mut list = map.take_list(other);
        list.push(tx);
        map.insert(other, list);
        assert(lists(map@) =~= waiting(before, other, tx));
        Dependencies { repl: self.repl, map }
    }

    fn joined(self, more: Dependencies) -> (r: Dependencies)
        ensures
            r@ == self@.joined(more@),
    {
        let mut repl = self.repl;
        append_missing(&mut repl, &more.repl);
        let map = merge_tx_maps(self.map, more.map);
        Dependencies { repl, map }
    }
}

/// Two maps of lists as one: each list of the second is appended to that of the first, without what
/// occurs there already.
pub fn merge_tx_maps(a: Table<32, Vec<TxHash>>, b: Table<32, Vec<TxHash>>) -> (r: Table<32, Vec<TxHash>>)
    ensures
        lists(r@) == merged(lists(a@), lists(b@)),
{
    let ghost first = lists(a@);
    let ghost entries = b.entries();
    let mut r = a;
    let count = b.len();
    let mut i: usize = 0;
    while i < count
        invariant
            count == entries.len(),
            entries == b.entries(),
            table::keys_distinct(entries),
            0 <= i <= count,
            forall|k: TxHash| #[trigger]
                r@.contains_key(k) <==> first.contains_key(k) || table::has_key(entries.take(i as int), k),
            forall|k: TxHash|
                first.contains_key(k) && !table::has_key(entries.take(i as int), k)
                    ==> #[trigger] r@[k]@ == first[k],
            forall|j: int|
                0 <= j < i ==> r@[(#[trigger] entries[j]).0]@ == append_new(
                    list_of(first, entries[j].0),
                    entries[j].1@,
                ),
        decreases count - i,
    {
        let key = b.key_at(i);
        let ghost before = r@;
        let mut list = r.take_list(key);
        proof {
            lemma_key_not_before(entries, i as int);
            assert(before.contains_key(key) <==> first.contains_key(key));
            assert(list@ == list_of(first, key)) by {
                if first.contains_key(key) {
                    assert(before[key]@ == first[key]);
                }
            }
        }
        append_missing(&mut list, b.value_at(i));
        r.insert(key, list);
        proof {
            assert forall|k: TxHash| #[trigger] table::has_key(entries.take(i + 1), k) <==> table::has_key(
                entries.take(i as int),
                k,
            ) || k == key by {
                lemma_has_key_take(entries, i as int, k);
            }
            assert forall|k: TxHash| #[trigger] r@.contains_key(k) <==> first.contains_key(k)
                || table::has_key(entries.take(i + 1), k) by {
                assert(table::has_key(entries.take(i + 1), k) <==> table::has_key(
                    entries.take(i as int),
                    k,
                ) || k == key);
                assert(before.contains_key(k) <==> first.contains_key(k) || table::has_key(
                    entries.take(i as int),
                    k,
                ));
            }
            assert forall|k: TxHash|
                first.contains_key(k) && !table::has_key(entries.take(i + 1), k) implies #[trigger] r@[k]@
                == first[k] by {
                assert(table::has_key(entries.take(i + 1), k) <==> table::has_key(
                    entries.take(i as int),
                    k,
                ) || k == key);
                assert(before.contains_key(k));
                assert(before[k]@ == first[k]);
            }
            assert forall|j: int| 0 <= j < i + 1 implies r@[(#[trigger] entries[j]).0]@ == append_new(
                list_of(first, entries[j].0),
                entries[j].1@,
            ) by {
                if j < i {
                    assert(entries[j].0 != entries[i as int].0);
                    assert(entries.take(i as int)[j] == entries[j]);
                    assert(before.contains_key(entries[j].0));
                }
            }
        }
        i = i + 1;
    }
    proof {
        table::lemma_entries_map(entries);
        assert(entries.take(count as int) =~= entries);
        let want = merged(first, lists(b@));
        assert forall|k: TxHash| #[trigger] lists(r@).contains_key(k) <==> want.contains_key(k) by {
            assert(b@.contains_key(k) <==> table::has_key(entries, k));
        }
        assert forall|k: TxHash| want.contains_key(k) implies #[trigger] lists(r@)[k] == want[k] by {
            assert(b@.contains_key(k) <==> table::has_key(entries, k));
            assert(r@.contains_key(k) <==> first.contains_key(k) || table::has_key(entries, k));
            if table::has_key(entries, k) {
                let j = choose|j: int| 0 <= j < entries.len() && (#[trigger] entries[j]).0 == k;
                assert(b@[k] == entries[j].1);
                assert(r@[entries[j].0]@ == append_new(list_of(first, k), entries[j].1@));
            } else {
                assert(r@[k]@ == first[k]);
                reveal(Seq::filter);
                assert(append_new(first[k], Seq::empty()) =~= first[k]);
            }
        }
        assert(lists(r@) =~= want);
    }
    r
}

proof fn lemma_has_key_take<V>(entries: Seq<(TxHash, V)>, i: int, k: TxHash)
    requires
        0 <= i < entries.len(),
    ensures
        table::has_key(entries.take(i + 1), k) <==> table::has_key(entries.take(i), k) || k == entries[i].0,
{
    let a = entries.take(i);
    let b = entries.take(i + 1);
    if table::has_key(b, k) {
        let j = choose|j: int| 0 <= j < b.len() && (#[trigger] b[j]).0 == k;
        if j < i {
            assert(a[j].0 == k);
        }
    }
    if table::has_key(a, k) {
        let j = choose|j: int| 0 <= j < a.len() && (#[trigger] a[j]).0 == k;
        assert(b[j].0 == k);
    }
    if k == entries[i].0 {
        assert(b[i].0 == k);
    }
}

proof fn lemma_key_not_before<V>(entries: Seq<(TxHash, V)>, i: int)
    requires
        0 <= i < entries.len(),
        table::keys_distinct(entries),
    ensures
        !table::has_key(entries.take(i), entries[i].0),
{
    let a = entries.take(i);
    if table::has_key(a, entries[i].0) {
        let j = choose|j: int| 0 <= j < a.len() && (#[trigger] a[j]).0 == entries[i].0;
        assert(entries[j].0 != entries[i].0);
    }
}

/// Finds what has to go first for a transaction to become valid, by the answers from a place on.
///
/// The second result is the place behind the last answer that was used.
pub fn find_transaction_depencencies(
    tx: TxHash,
    register: &TransactionRegister,
    used: &Vec<TxHash>,
    answers: &Vec<Answer>,
    at: usize,
) -> (r: Result<(Dependencies, usize), Halt>)
    requires
        at <= answers@.len(),
    ensures
        agrees(r, dependencies(register@, tx, used@, answers@, at as int)),
        r matches Ok((_, next)) ==> at <= next <= answers@.len(),
    decreases unused(register@.simulations, used@.push(tx)), 1int,
{
    let sim = match questions::ask_simulation(register, &tx, answers, at) {
        Ok(sim) => sim,
        Err(halt) => {
            return Err(halt);
        },
    };
    if sim.errors.len() == 0 {
        return Ok((Dependencies::itself(tx), at + 1));
    }
    let mut used_with_tx = copy_list(used);
    used_with_tx.push(tx);
    assert(used_with_tx@ =~= used@.push(tx));
    let sim_error = sim.errors[sim.errors.len() - 1];
    match sim_error {
        SimulationError::InvalidTransaction(InvalidTransactionError::NonceTooHigh) => {
            if sim.nonces_required.len() == 0 || sim.nonces_required[0].1 == 0 || !register.knows_nonces(
                &sim.sender,
                &used_with_tx,
            ) {
                return Err(Halt::Fault(Fault::NonceUnknown(tx)));
            }
            let nonce: u64 = sim.nonces_required[0].1 - 1;
            match register.find_transaction_with_nonce(&sim.sender, nonce, &used_with_tx) {
                None => Ok((Dependencies::none(), at + 1)),
                Some(other) => {
                    proof {
                        lemma_with_nonce_unused(
                            register@,
                            sim.sender,
                            nonce,
                            used_with_tx@,
                            register@.simulations.len() as int,
                        );
                    }
                    match find_transaction_depencencies(other, register, &used_with_tx, answers, at + 1) {
                        Ok((found, next)) => Ok((found.then_waiting(other, tx), next)),
                        Err(halt) => Err(halt),
                    }
                },
            }
        },
        SimulationError::InvalidTransaction(InvalidTransactionError::InsufficientFunds) => {
            let balance = match questions::ask_balance(sim.sender, answers, at + 1) {
                Ok(balance) => balance,
                Err(halt) => {
                    return Err(halt);
                },
            };
            let value = register.get_pending_tx(&tx).transaction.value;
            let required = U256::from_u128(sim.max_gas_cost).plus(value);
            match required.checked_sub(balance) {
                None => Err(Halt::Fault(Fault::FundsNotMissing(tx))),
                Some(missing) => find_funding(
                    tx,
                    &sim.sender,
                    missing,
                    register,
                    &used_with_tx,
                    answers,
                    at + 2,
                ),
            }
        },
        _ => Ok((Dependencies::none(), at + 1)),
    }
}

/// A list with the same contents.
pub fn copy_list(list: &Vec<TxHash>) -> (r: Vec<TxHash>)
    ensures
        r@ == list@,
{
    let mut copy: Vec<TxHash> = Vec::new();
    let mut i: usize = 0;
    while i < list.len()
        invariant
            0 <= i <= list@.len(),
            copy@ == list@.take(i as int),
        decreases list@.len() - i,
    {
        copy.push(list[i]);
        assert(list@.take(i + 1) =~= list@.take(i as int).push(list@[i as int]));
        i = i + 1;
    }
    assert(list@.take(list@.len() as int) =~= list@);
    copy
}

fn find_funding(
    tx: TxHash,
    sender: &Address,
    missing: U256,
    register: &TransactionRegister,
    used: &Vec<TxHash>,
    answers: &Vec<Answer>,
    at: usize,
) -> (r: Result<(Dependencies, usize), Halt>)
    requires
        at <= answers@.len(),
    ensures
        agrees(
            r,
            funding(
                register@,
                tx,
                *sender,
                missing@,
                used@,
                0,
                0,
                DependencyModel::none(),
                answers@,
                at as int,
            ),
        ),
        r matches Ok((_, next)) ==> at <= next <= answers@.len(),
    decreases unused(register@.simulations, used@), 0int,
{
    let others = register.find_transaction_paying(sender, used);
    let mut found_funds = U256::zero();
    let mut so_far = Dependencies::none();
    let mut next: usize = at;
    let mut i: usize = 0;
    let ghost want = funding(
        register@,
        tx,
        *sender,
        missing@,
        used@,
        0,
        0,
        DependencyModel::none(),
        answers@,
        at as int,
    );
    while i < others.len()
        invariant
            others@ == register@.paying(*sender, used@, register@.simulations.len() as int),
            0 <= i <= others@.len(),
            at <= next <= answers@.len(),
            want == funding(
                register@,
                tx,
                *sender,
                missing@,
                used@,
                0,
                0,
                DependencyModel::none(),
                answers@,
                at as int,
            ),
            want == funding(
                register@,
                tx,
                *sender,
                missing@,
                used@,
                i as int,
                found_funds@,
                so_far@,
                answers@,
                next as int,
            ),
        decreases others@.len() - i,
    {
        let other = others[i];
        let other_sim = match questions::ask_simulation(register, &other, answers, next) {
            Ok(sim) => sim,
            Err(halt) => {
                return Err(halt);
            },
        };
        if is_paying(other_sim, sender) {
            let amount = other_sim.transfer_diffs.get(sender).unwrap().unsigned_abs();
            if !amount.fits_u256() {
                return Err(Halt::Fault(Fault::TransferTooLarge(other)));
            }
            found_funds = found_funds.saturating_add(U256::from_u512(amount));
            proof {
                lemma_paying_unused(
                    register@,
                    *sender,
                    used@,
                    register@.simulations.len() as int,
                    i as int,
                );
            }
            match find_transaction_depencencies(other, register, used, answers, next + 1) {
                Err(halt) => {
                    return Err(halt);
                },
                Ok((found, after)) => {
                    so_far = so_far.joined(found.then_waiting(other, tx));
                    next = after;
                },
            }
        } else {
            next = next + 1;
        }
        if found_funds.at_least(missing) {
            return Ok((so_far, next));
        }
        i = i + 1;
    }
    if found_funds.at_least(missing) {
        Ok((so_far, next))
    } else {
        Ok((Dependencies::none(), next))
    }
}

/// The ether that the transactions that pay an account bring together, from the one at place `i` on,
/// by the answers from a place on.
pub open spec fn payments(
    register: RegisterModel,
    sender: Address,
    used: Seq<TxHash>,
    i: int,
    answers: Seq<Answer>,
    at: int,
) -> nat
    decreases register.paying(sender, used, register.simulations.len() as int).len() - i,
{
    let others = register.paying(sender, used, register.simulations.len() as int);
    if i < 0 || i >= others.len() {
        0
    } else {
        match questions::simulated(register, others[i], answers, at) {
            Err(_) => 0,
            Ok(sim) => if transaction_register::pays(sim, sender) {
                paid(sim, sender) + match dependencies(register, others[i], used, answers, at + 1) {
                    Err(_) => 0,
                    Ok((_, next)) => payments(register, sender, used, i + 1, answers, next),
                }
            } else {
                payments(register, sender, used, i + 1, answers, at + 1)
            },
        }
    }
}

/// Only payments to the sender are funds: where all of them do not make up for what is missing,
/// nothing can go first.
pub proof fn law_only_payments_are_funds(
    register: RegisterModel,
    tx: TxHash,
    sender: Address,
    missing: nat,
    used: Seq<TxHash>,
    i: int,
    found: nat,
    so_far: DependencyModel,
    answers: Seq<Answer>,
    at: int,
)
    requires
        found + payments(register, sender, used, i, answers, at) < missing,
    ensures
        funding(register, tx, sender, missing, used, i, found, so_far, answers, at) matches Ok((d, _)) ==> d
            == DependencyModel::none(),
    decreases register.paying(sender, used, register.simulations.len() as int).len() - i,
{
    let others = register.paying(sender, used, register.simulations.len() as int);
    if 0 <= i < others.len() {
        let other = others[i];
        if let Ok(sim) = questions::simulated(register, other, answers, at) {
            if transaction_register::pays(sim, sender) {
                let more = num::u256_sat_add(found, paid(sim, sender));
                if let Ok((d, next)) = dependencies(register, other, used, answers, at + 1) {
                    let both = so_far.joined(d.then_waiting(other, tx));
                    law_only_payments_are_funds(
                        register,
                        tx,
                        sender,
                        missing,
                        used,
                        i + 1,
                        more,
                        both,
                        answers,
                        next,
                    );
                }
            } else {
                law_only_payments_are_funds(
                    register,
                    tx,
                    sender,
                    missing,
                    used,
                    i + 1,
                    found,
                    so_far,
                    answers,
                    at + 1,
                );
            }
        }
    }
}

} // verus!
