//! Building a batch: the dearest transactions that can go into the block, and those that they make
//! valid.

use crate::batching::dependencies;
use crate::batching::dependencies::{
    append_missing, copy_list, find_transaction_depencencies, merge_tx_maps, Dependencies,
    DependencyModel,
};
use crate::batching::pricing;
use crate::batching::questions;
use crate::batching::questions::{Answer, Fault, Halt};
use crate::concurrent_proposer::batches::contains_hash;
use crate::fixed_bytes::TxHash;
use crate::table::Table;
use crate::transaction_register::{RegisterModel, TransactionRegister};
use vstd::prelude::*;

verus! {

/// The state of the building of a batch.
#[verifier::ext_equal]
pub struct PoolModel {
    /// the transactions that can go into the batch
    pub includable: Seq<TxHash>,
    /// for each transaction those that wait for it
    pub map: Map<TxHash, Seq<TxHash>>,
    /// the batch
    pub batch: Seq<TxHash>,
}

/// The transactions other than a given one.
pub open spec fn other_than(hash: TxHash) -> spec_fn(TxHash) -> bool {
    |x: TxHash| x != hash
}

/// A list without a transaction.
pub open spec fn without(list: Seq<TxHash>, hash: TxHash) -> Seq<TxHash> {
    list.filter(other_than(hash))
}

/// Whether a transaction waits for another one than the given.
pub open spec fn waits_for_another(map: Map<TxHash, Seq<TxHash>>, hash: TxHash, tx: TxHash) -> bool {
    exists|k: TxHash| #[trigger] map.contains_key(k) && k != hash && map[k].contains(tx)
}

impl PoolModel {
    /// Nothing was tried yet.
    pub open spec fn empty() -> PoolModel {
        PoolModel { includable: Seq::empty(), map: Map::empty(), batch: Seq::empty() }
    }

    /// One more transaction can go into the batch.
    pub open spec fn with_includable(self, hash: TxHash) -> PoolModel {
        PoolModel { includable: self.includable.push(hash), ..self }
    }

    /// What has to go first for a transaction can go into the batch.
    pub open spec fn with_dependencies(self, d: DependencyModel) -> PoolModel {
        PoolModel {
            includable: dependencies::append_new(self.includable, d.repl),
            map: dependencies::merged(self.map, d.map),
            ..self
        }
    }

    /// A transaction went into the batch.
    pub open spec fn taken(self, hash: TxHash) -> PoolModel {
        PoolModel {
            includable: without(self.includable, hash),
            batch: self.batch.push(hash),
            ..self
        }
    }

    /// A transaction is given up.
    pub open spec fn dropped(self, hash: TxHash) -> PoolModel {
        PoolModel { includable: without(self.includable, hash), ..self }
    }

    /// Nobody waits for a transaction any more.
    pub open spec fn settled(self, hash: TxHash) -> PoolModel {
        PoolModel { map: self.map.remove(hash), ..self }
    }
}

/// The pool after the transactions of the bucket from place `i` on were tried.
///
/// Without a batch that goes before, the registered simulation of a transaction tells whether it can
/// go into the block, and else a new one. Transactions that are not registered are passed over.
pub open spec fn sift(
    register: RegisterModel,
    best_number: u64,
    bucket: Seq<TxHash>,
    i: int,
    already: Seq<TxHash>,
    pool: PoolModel,
    answers: Seq<Answer>,
    at: int,
) -> Result<(PoolModel, int), Halt>
    decreases bucket.len() - i,
{
    if i >= bucket.len() {
        Ok((pool, at))
    } else if !register.has(bucket[i]) {
        sift(register, best_number, bucket, i + 1, already, pool, answers, at)
    } else {
        let hash = bucket[i];
        let tried = if already.len() == 0 {
            match register.at_block(best_number).simulation(hash) {
                Some(sim) => Ok((sim.errors@.len() == 0, at)),
                None => Err(Halt::Fault(Fault::NotRegistered(hash))),
            }
        } else {
            match questions::simulated(register, hash, answers, at) {
                Ok(sim) => Ok((sim.errors@.len() == 0, at + 1)),
                Err(halt) => Err(halt),
            }
        };
        match tried {
            Err(halt) => Err(halt),
            Ok((true, next)) => sift(
                register,
                best_number,
                bucket,
                i + 1,
                already,
                pool.with_includable(hash),
                answers,
                next,
            ),
            Ok((false, next)) => match dependencies::dependencies(register, hash, already, answers, next) {
                Err(halt) => Err(halt),
                Ok((d, after)) => sift(
                    register,
                    best_number,
                    bucket,
                    i + 1,
                    already,
                    pool.with_dependencies(d),
                    answers,
                    after,
                ),
            },
        }
    }
}

/// The pool after the transactions that waited for the one that went into the batch last were tried,
/// from the one at place `j` on.
pub open spec fn unlock(
    register: RegisterModel,
    already: Seq<TxHash>,
    winner: TxHash,
    others: Seq<TxHash>,
    j: int,
    pool: PoolModel,
    answers: Seq<Answer>,
    at: int,
) -> Result<(PoolModel, int), Halt>
    decreases others.len() - j,
{
    if j >= others.len() {
        Ok((pool, at))
    } else {
        let other = others[j];
        if pool.batch.contains(other) || pool.includable.contains(other) || waits_for_another(
            pool.map,
            winner,
            other,
        ) {
            unlock(register, already, winner, others, j + 1, pool, answers, at)
        } else {
            match questions::simulated(register, other, answers, at) {
                Err(halt) => Err(halt),
                Ok(sim) => if sim.errors@.len() == 0 {
                    unlock(
                        register,
                        already,
                        winner,
                        others,
                        j + 1,
                        pool.with_includable(other),
                        answers,
                        at + 1,
                    )
                } else {
                    match dependencies::dependencies(
                        register,
                        other,
                        already + pool.batch,
                        answers,
                        at + 1,
                    ) {
                        Err(halt) => Err(halt),
                        Ok((d, next)) => unlock(
                            register,
                            already,
                            winner,
                            others,
                            j + 1,
                            pool.with_dependencies(d),
                            answers,
                            next,
                        ),
                    }
                },
            }
        }
    }
}

/// The first `count` transactions of a list with the prices that they pay.
pub open spec fn priced(
    register: RegisterModel,
    best_number: u64,
    list: Seq<TxHash>,
    count: int,
) -> Result<Seq<(TxHash, u128)>, Halt>
    decreases count,
{
    if count <= 0 {
        Ok(Seq::empty())
    } else {
        match priced(register, best_number, list, count - 1) {
            Err(halt) => Err(halt),
            Ok(front) => match register.at_block(best_number).simulation(list[count - 1]) {
                None => Err(Halt::Fault(Fault::NotRegistered(list[count - 1]))),
                Some(sim) => Ok(front.push((list[count - 1], sim.effective_gas_price))),
            },
        }
    }
}

/// The transaction that goes into the batch next, if it can: the dearest one.
pub open spec fn winner(register: RegisterModel, best_number: u64, list: Seq<TxHash>) -> Result<TxHash, Halt> {
    match priced(register, best_number, list, list.len() as int) {
        Err(halt) => Err(halt),
        Ok(prices) => Ok(prices[pricing::dearest(prices, prices.len() as int)].0),
    }
}

/// The batch, by the answers from a place on.
pub open spec fn assemble(
    register: RegisterModel,
    best_number: u64,
    already: Seq<TxHash>,
    pool: PoolModel,
    answers: Seq<Answer>,
    at: int,
) -> Result<(Seq<TxHash>, int), Halt>
    decreases answers.len() - at,
    when 0 <= at <= answers.len()
{
    if pool.includable.len() == 0 {
        Ok((pool.batch, at))
    } else {
        match winner(register, best_number, pool.includable) {
            Err(halt) => Err(halt),
            Ok(hash) => if !register.is_signed(hash) {
                Err(Halt::Fault(Fault::NotRegistered(hash)))
            } else {
                match questions::includable(register.pending(hash), answers, at) {
                    Err(halt) => Err(halt),
                    Ok(false) => assemble(
                        register,
                        best_number,
                        already,
                        pool.dropped(hash),
                        answers,
                        at + 1,
                    ),
                    Ok(true) => match questions::executed(register.pending(hash), answers, at + 1) {
                        Err(halt) => Err(halt),
                        Ok(_) => {
                            let others = dependencies::list_of(pool.map, hash);
                            proof {
                                lemma_unlock_advances(
                                    register,
                                    already,
                                    hash,
                                    others,
                                    0,
                                    pool.taken(hash),
                                    answers,
                                    at + 2,
                                );
                            }
                            match unlock(
                                register,
                                already,
                                hash,
                                others,
                                0,
                                pool.taken(hash),
                                answers,
                                at + 2,
                            ) {
                                Err(halt) => Err(halt),
                                Ok((next_pool, next)) => assemble(
                                    register,
                                    best_number,
                                    already,
                                    next_pool.settled(hash),
                                    answers,
                                    next,
                                ),
                            }
                        },
                    },
                }
            },
        }
    }
}

/// The batch that is built out of a bucket of transactions and goes behind those that are already
/// included, by the answers to the questions that came up.
pub open spec fn batch_of(
    register: RegisterModel,
    best_number: u64,
    bucket: Seq<TxHash>,
    already: Seq<TxHash>,
    answers: Seq<Answer>,
) -> Result<(Seq<TxHash>, int), Halt> {
    match sift(register, best_number, bucket, 0, already, PoolModel::empty(), answers, 0) {
        Err(halt) => Err(halt),
        Ok((pool, at)) => assemble(register, best_number, already, pool, answers, at),
    }
}

/// Looking for dependencies uses at least one answer, and none that is not there.
pub proof fn lemma_dependencies_advance(
    register: RegisterModel,
    tx: TxHash,
    used: Seq<TxHash>,
    answers: Seq<Answer>,
    at: int,
)
    requires
        0 <= at <= answers.len(),
    ensures
        dependencies::dependencies(register, tx, used, answers, at) matches Ok((_, next)) ==> at < next
            <= answers.len(),
    decreases dependencies::unused(register.simulations, used.push(tx)), 1int, 0int,
{
    if let Ok(sim) = questions::simulated(register, tx, answers, at) {
        let used_with_tx = used.push(tx);
        if sim.errors@.len() > 0 {
            match sim.errors@.last() {
                crate::transaction::SimulationError::InvalidTransaction(
                    crate::transaction::InvalidTransactionError::NonceTooHigh,
                ) => {
                    if sim.nonces_required@.len() > 0 && sim.nonces_required@[0].1 > 0 {
                        let nonce = (sim.nonces_required@[0].1 - 1) as u64;
                        let count = register.simulations.len() as int;
                        dependencies::lemma_with_nonce_unused(
                            register,
                            sim.sender,
                            nonce,
                            used_with_tx,
                            count,
                        );
                        if let Some(other) = register.with_nonce(sim.sender, nonce, used_with_tx, count) {
                            lemma_dependencies_advance(register, other, used_with_tx, answers, at + 1);
                        }
                    }
                },
                crate::transaction::SimulationError::InvalidTransaction(
                    crate::transaction::InvalidTransactionError::InsufficientFunds,
                ) => {
                    if let Ok(balance) = questions::balance(sim.sender, answers, at + 1) {
                        if balance@ <= dependencies::required_funds(register, tx, sim) {
                            lemma_funding_advances(
                                register,
                                tx,
                                sim.sender,
                                (dependencies::required_funds(register, tx, sim) - balance@) as nat,
                                used_with_tx,
                                0,
                                0,
                                DependencyModel::none(),
                                answers,
                                at + 2,
                            );
                        }
                    }
                },
                _ => {},
            }
        }
    }
}

/// Looking for funds uses no answer that is not there.
pub proof fn lemma_funding_advances(
    register: RegisterModel,
    tx: TxHash,
    sender: crate::fixed_bytes::Address,
    missing: nat,
    used: Seq<TxHash>,
    i: int,
    found: nat,
    so_far: DependencyModel,
    answers: Seq<Answer>,
    at: int,
)
    requires
        0 <= at <= answers.len(),
    ensures
        dependencies::funding(register, tx, sender, missing, used, i, found, so_far, answers, at) matches Ok(
            (_, next),
        ) ==> at <= next <= answers.len(),
    decreases
            dependencies::unused(register.simulations, used),
            0int,
            register.paying(sender, used, register.simulations.len() as int).len() - i,
{
    let count = register.simulations.len() as int;
    let others = register.paying(sender, used, count);
    if 0 <= i < others.len() {
        let other = others[i];
        if let Ok(sim) = questions::simulated(register, other, answers, at) {
            if crate::transaction_register::pays(sim, sender) {
                let more = crate::num::u256_sat_add(found, dependencies::paid(sim, sender));
                dependencies::lemma_paying_unused(register, sender, used, count, i);
                lemma_dependencies_advance(register, other, used, answers, at + 1);
                if let Ok((d, next)) = dependencies::dependencies(register, other, used, answers, at + 1) {
                    let both = so_far.joined(d.then_waiting(other, tx));
                    lemma_funding_advances(
                        register,
                        tx,
                        sender,
                        missing,
                        used,
                        i + 1,
                        more,
                        both,
                        answers,
                        next,
                    );
                }
            } else {
                lemma_funding_advances(
                    register,
                    tx,
                    sender,
                    missing,
                    used,
                    i + 1,
                    found,
                    so_far,
                    answers,
                    at + 1,
                );
            }
        }
    }
}

/// Trying the transactions that waited uses no answer that is not there.
pub proof fn lemma_unlock_advances(
    register: RegisterModel,
    already: Seq<TxHash>,
    winner: TxHash,
    others: Seq<TxHash>,
    j: int,
    pool: PoolModel,
    answers: Seq<Answer>,
    at: int,
)
    requires
        0 <= at <= answers.len(),
    ensures
        unlock(register, already, winner, others, j, pool, answers, at) matches Ok((_, next)) ==> at <= next
            <= answers.len(),
    decreases others.len() - j,
{
    if j < others.len() {
        let other = others[j];
        if pool.batch.contains(other) || pool.includable.contains(other) || waits_for_another(
            pool.map,
            winner,
            other,
        ) {
            lemma_unlock_advances(register, already, winner, others, j + 1, pool, answers, at);
        } else if let Ok(sim) = questions::simulated(register, other, answers, at) {
            if sim.errors@.len() == 0 {
                lemma_unlock_advances(
                    register,
                    already,
                    winner,
                    others,
                    j + 1,
                    pool.with_includable(other),
                    answers,
                    at + 1,
                );
            } else {
                lemma_dependencies_advance(register, other, already + pool.batch, answers, at + 1);
                if let Ok((d, next)) = dependencies::dependencies(
                    register,
                    other,
                    already + pool.batch,
                    answers,
                    at + 1,
                ) {
                    lemma_unlock_advances(
                        register,
                        already,
                        winner,
                        others,
                        j + 1,
                        pool.with_dependencies(d),
                        answers,
                        next,
                    );
                }
            }
        }
    }
}

/// The state of the building of a batch.
struct Pool {
    includable: Vec<TxHash>,
    map: Table<32, Vec<TxHash>>,
    batch: Vec<TxHash>,
}

impl View for Pool {
    type V = PoolModel;

    closed spec fn view(&self) -> PoolModel {
        PoolModel {
            includable: self.includable@,
            map: dependencies::lists(self.map@),
            batch: self.batch@,
        }
    }
}

impl Pool {
    fn new() -> (r: Pool)
        ensures
            r@ == PoolModel::empty(),
    {
        let r = Pool { includable: Vec::new(), map: Table::new(), batch: Vec::new() };
        assert(r@ =~= PoolModel::empty());
        r
    }

    fn add_dependencies(self, d: Dependencies) -> (r: Pool)
        ensures
            r@ == self@.with_dependencies(d@),
    {
        let mut includable = self.includable;
        append_missing(&mut includable, &d.repl);
        let map = merge_tx_maps(self.map, d.map);
        Pool { includable, map, batch: self.batch }
    }
}

/// Removes a transaction from a list.
fn retain_others(list: &mut Vec<TxHash>, hash: &TxHash)
    ensures
        final(list)@ == without(old(list)@, *hash),
{
    let ghost all = list@;
    let mut kept: Vec<TxHash> = Vec::new();
    let mut i: usize = 0;
    while i < list.len()
        invariant
            list@ == all,
            0 <= i <= all.len(),
            kept@ == without(all.take(i as int), *hash),
        decreases all.len() - i,
    {
        reveal(Seq::filter);
        assert(all.take(i + 1).drop_last() =~= all.take(i as int));
        if list[i] != *hash {
            kept.push(list[i]);
        }
        i = i + 1;
    }
    assert(all.take(all.len() as int) =~= all);
    *list = kept;
}

fn is_waiting_for_another(map: &Table<32, Vec<TxHash>>, hash: &TxHash, tx: &TxHash) -> (r: bool)
    ensures
        r == waits_for_another(dependencies::lists(map@), *hash, *tx),
{
    let ghost m = dependencies::lists(map@);
    let count = map.len();
    let mut i: usize = 0;
    while i < count
        invariant
            m == dependencies::lists(map@),
            count == map.entries().len(),
            crate::table::keys_distinct(map.entries()),
            0 <= i <= count,
            forall|j: int|
                0 <= j < i ==> (#[trigger] map.entries()[j]).0 == *hash || !map.entries()[j].1@.contains(*tx),
        decreases count - i,
    {
        let key = map.key_at(i);
        if key != *hash && contains_hash(map.value_at(i), tx) {
            assert(m.contains_key(key));
            return true;
        }
        i = i + 1;
    }
    proof {
        crate::table::lemma_entries_map(map.entries());
        assert forall|k: TxHash| #[trigger] m.contains_key(k) && k != *hash implies !m[k].contains(*tx) by {
            assert(map@.contains_key(k));
            let j = choose|j: int| 0 <= j < map.entries().len() && (#[trigger] map.entries()[j]).0 == k;
            assert(map@[k] == map.entries()[j].1);
        }
    }
    false
}

fn sift_bucket(
    register: &TransactionRegister,
    best_number: u64,
    bucket: &Vec<TxHash>,
    already: &Vec<TxHash>,
    answers: &Vec<Answer>,
) -> (r: Result<(Pool, usize), Halt>)
    ensures
        dependencies::agrees(
            r,
            sift(register@, best_number, bucket@, 0, already@, PoolModel::empty(), answers@, 0),
        ),
        r matches Ok((_, next)) ==> next <= answers.len(),
{
    let mut pool = Pool::new();
    let mut at: usize = 0;
    let mut i: usize = 0;
    let ghost want = sift(
        register@,
        best_number,
        bucket@,
        0,
        already@,
        PoolModel::empty(),
        answers@,
        0,
    );
    while i < bucket.len()
        invariant
            0 <= i <= bucket@.len(),
            at <= answers.len(),
            want == sift(
                register@,
                best_number,
                bucket@,
                0,
                already@,
                PoolModel::empty(),
                answers@,
                0,
            ),
            want == sift(
                register@,
                best_number,
                bucket@,
                i as int,
                already@,
                pool@,
                answers@,
                at as int,
            ),
        decreases bucket@.len() - i,
    {
        let hash = bucket[i];
        if register.has(&hash) {
            let can_go: bool;
            if already.len() == 0 {
                match register.current_simulation(&hash, best_number) {
                    Some(sim) => {
                        can_go = sim.errors.len() == 0;
                    },
                    None => {
                        return Err(Halt::Fault(Fault::NotRegistered(hash)));
                    },
                }
            } else {
                match questions::ask_simulation(register, &hash, answers, at) {
                    Ok(sim) => {
                        can_go = sim.errors.len() == 0;
                        at = at + 1;
                    },
                    Err(halt) => {
                        return Err(halt);
                    },
                }
            }
            if can_go {
                pool.includable.push(hash);
            } else {
                match find_transaction_depencencies(hash, register, already, answers, at) {
                    Ok((found, next)) => {
                        pool = pool.add_dependencies(found);
                        at = next;
                    },
                    Err(halt) => {
                        return Err(halt);
                    },
                }
            }
        }
        i = i + 1;
    }
    Ok((pool, at))
}

/// A list followed by another one.
fn chained(a: &Vec<TxHash>, b: &Vec<TxHash>) -> (r: Vec<TxHash>)
    ensures
        r@ == a@ + b@,
{
    let mut all = copy_list(a);
    let mut more = copy_list(b);
    all.append(&mut more);
    all
}

fn unlock_waiting(
    register: &TransactionRegister,
    already: &Vec<TxHash>,
    winner: TxHash,
    others: &Vec<TxHash>,
    start: Pool,
    answers: &Vec<Answer>,
    at: usize,
) -> (r: Result<(Pool, usize), Halt>)
    requires
        at <= answers.len(),
    ensures
        dependencies::agrees(
            r,
            unlock(register@, already@, winner, others@, 0, start@, answers@, at as int),
        ),
        r matches Ok((_, next)) ==> at <= next <= answers.len(),
{
    let mut pool = start;
    let mut next: usize = at;
    let mut j: usize = 0;
    let ghost want = unlock(register@, already@, winner, others@, 0, start@, answers@, at as int);
    while j < others.len()
        invariant
            0 <= j <= others@.len(),
            at <= next <= answers.len(),
            want == unlock(register@, already@, winner, others@, 0, start@, answers@, at as int),
            want == unlock(
                register@,
                already@,
                winner,
                others@,
                j as int,
                pool@,
                answers@,
                next as int,
            ),
        decreases others@.len() - j,
    {
        let other = others[j];
        if !contains_hash(&pool.batch, &other) && !contains_hash(&pool.includable, &other)
            && !is_waiting_for_another(&pool.map, &winner, &other) {
            match questions::ask_simulation(register, &other, answers, next) {
                Err(halt) => {
                    return Err(halt);
                },
                Ok(other_sim) => {
                    if other_sim.errors.len() == 0 {
                        pool.includable.push(other);
                        next = next + 1;
                    } else {
                        let used = chained(already, &pool.batch);
                        match find_transaction_depencencies(other, register, &used, answers, next + 1) {
                            Ok((found, after)) => {
                                pool = pool.add_dependencies(found);
                                next = after;
                            },
                            Err(halt) => {
                                return Err(halt);
                            },
                        }
                    }
                },
            }
        }
        j = j + 1;
    }
    Ok((pool, next))
}

fn find_winner(register: &TransactionRegister, best_number: u64, list: &Vec<TxHash>) -> (r: Result<TxHash, Halt>)
    requires
        list@.len() > 0,
    ensures
        r == winner(register@, best_number, list@),
{
    let mut prices: Vec<(TxHash, u128)> = Vec::new();
    let mut i: usize = 0;
    while i < list.len()
        invariant
            0 <= i <= list@.len(),
            prices@.len() == i,
            priced(register@, best_number, list@, i as int) == Ok::<Seq<(TxHash, u128)>, Halt>(prices@),
        decreases list@.len() - i,
    {
        match register.current_simulation(&list[i], best_number) {
            None => {
                let halt = Halt::Fault(Fault::NotRegistered(list[i]));
                proof {
                    lemma_priced_halts(register@, best_number, list@, i + 1, list@.len() as int);
                }
                return Err(halt);
            },
            Some(sim) => {
                prices.push((list[i], sim.effective_gas_price));
            },
        }
        i = i + 1;
    }
    Ok(pricing::dearest_transaction(prices))
}

proof fn lemma_priced_halts(register: RegisterModel, best_number: u64, list: Seq<TxHash>, count: int, more: int)
    requires
        priced(register, best_number, list, count) is Err,
        count <= more,
    ensures
        priced(register, best_number, list, more) == priced(register, best_number, list, count),
    decreases more,
{
    if count < more {
        lemma_priced_halts(register, best_number, list, count, more - 1);
    }
}

/// Builds a batch out of a bucket of transactions that goes behind those that are already included,
/// by the answers to the questions that came up so far.
///
/// The second result is the number of answers that were used.
pub fn inner_build_batch(
    register: &TransactionRegister,
    best_number: u64,
    bucket: &Vec<TxHash>,
    already_included: &Vec<TxHash>,
    answers: &Vec<Answer>,
) -> (r: Result<(Vec<TxHash>, usize), Halt>)
    ensures
        dependencies::agrees(
            r,
            batch_of(register@, best_number, bucket@, already_included@, answers@),
        ),
        r matches Ok((_, used)) ==> used <= answers.len(),
{
    let (mut pool, mut at) = match sift_bucket(register, best_number, bucket, already_included, answers) {
        Ok(sifted) => sifted,
        Err(halt) => {
            return Err(halt);
        },
    };
    let ghost want = batch_of(register@, best_number, bucket@, already_included@, answers@);
    while pool.includable.len() > 0
        invariant
            at <= answers.len(),
            want == batch_of(register@, best_number, bucket@, already_included@, answers@),
            want == assemble(
                register@,
                best_number,
                already_included@,
                pool@,
                answers@,
                at as int,
            ),
        decreases answers@.len() - at,
    {
        let winning_tx = match find_winner(register, best_number, &pool.includable) {
            Ok(hash) => hash,
            Err(halt) => {
                return Err(halt);
            },
        };
        if !register.has_signed(&winning_tx) {
            return Err(Halt::Fault(Fault::NotRegistered(winning_tx)));
        }
        let pending_tx = register.get_pending_tx(&winning_tx);
        let can_go = match questions::ask_includability(pending_tx, answers, at) {
            Ok(can_go) => can_go,
            Err(halt) => {
                return Err(halt);
            },
        };
        let ghost before = pool@;
        let mut includable = pool.includable;
        retain_others(&mut includable, &winning_tx);
        pool.includable = includable;
        if can_go {
            pool.batch.push(winning_tx);
            if let Err(halt) = questions::ask_execution(pending_tx, answers, at + 1) {
                return Err(halt);
            }
            let others = match pool.map.get(&winning_tx) {
                Some(list) => copy_list(list),
                None => Vec::new(),
            };
            assert(others@ =~= dependencies::list_of(before.map, winning_tx));
            assert(pool@ =~= before.taken(winning_tx));
            match unlock_waiting(register, already_included, winning_tx, &others, pool, answers, at + 2) {
                Ok((unlocked, next)) => {
                    pool = unlocked;
                    let ghost open = pool@;
                    pool.map.remove(&winning_tx);
                    assert(dependencies::lists(pool.map@) =~= open.map.remove(winning_tx));
                    assert(pool@ =~= open.settled(winning_tx));
                    at = next;
                },
                Err(halt) => {
                    return Err(halt);
                },
            }
        } else {
            assert(pool@ =~= before.dropped(winning_tx));
            at = at + 1;
        }
    }
    Ok((pool.batch, at))
}

} // verus!
