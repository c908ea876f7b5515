//! The transactions that were announced for the next block, with their simulations.

use crate::concurrent_proposer::batches::contains_hash;
use crate::fixed_bytes::{Address, TxHash};
use crate::num::I512;
use crate::simulation::TransactionAccessSimulationResult;
use crate::table;
use crate::table::Table;
use crate::transaction::{BlockchainError, PendingTransaction, TypedTransaction};
use std::sync::Arc;
use vstd::prelude::*;
use vstd::string::*;

verus! {

/// `clone` of `std::sync::Arc`: another pointer to the same value.
#[verifier::external_body]
fn share<T>(value: &Arc<T>) -> (r: Arc<T>)
    ensures
        r == *value,
{
    value.clone()
}

/// What a register holds.
#[verifier::ext_equal]
pub struct RegisterModel {
    /// the transactions, in the order in which they came
    pub transactions: Seq<(TxHash, TypedTransaction)>,
    /// the simulations, in the order in which they came
    pub simulations: Seq<(TxHash, Arc<TransactionAccessSimulationResult>)>,
    /// the number of the block before the one for which the transactions were announced
    pub prev_block_number: u64,
}

/// Whether a transaction pays an account.
pub open spec fn pays(sim: TransactionAccessSimulationResult, recipient: Address) -> bool {
    sim.transfer_diffs@.contains_key(recipient) && sim.transfer_diffs@[recipient]@ > 0
}

/// Whether an account and a nonce occur together in a list.
pub open spec fn lists_nonce(nonces: Seq<(Address, u64)>, account: Address, nonce: u64) -> bool {
    exists|i: int| 0 <= i < nonces.len() && #[trigger] nonces[i] == (account, nonce)
}

/// Whether a transaction lets an account go on after a nonce: the account sends it with that nonce,
/// or it changes the account's nonce to that one by an authorization.
pub open spec fn has_nonce(sim: TransactionAccessSimulationResult, sender: Address, nonce: u64) -> bool {
    if sim.sender == sender && sim.nonces_required@[0].0 == sender {
        sim.nonces_required@[0].1 == nonce
    } else {
        lists_nonce(sim.nonces_possible@, sender, nonce)
    }
}

impl RegisterModel {
    /// A register without transactions.
    pub open spec fn empty(prev_block_number: u64) -> RegisterModel {
        RegisterModel {
            transactions: Seq::empty(),
            simulations: Seq::empty(),
            prev_block_number,
        }
    }

    /// Whether each transaction is there once, with a simulation, and each simulation with a
    /// transaction.
    pub open spec fn well_formed(self) -> bool {
        &&& table::keys_distinct(self.transactions)
        &&& table::keys_distinct(self.simulations)
        &&& self.transactions.len() == self.simulations.len()
        &&& forall|i: int|
            0 <= i < self.transactions.len() ==> (#[trigger] self.transactions[i]).0
                == self.simulations[i].0
    }

    /// The register at a block: transactions of another block are forgotten.
    pub open spec fn at_block(self, number: u64) -> RegisterModel {
        if self.prev_block_number == number {
            self
        } else {
            RegisterModel::empty(number)
        }
    }

    /// The register with one more transaction.
    pub open spec fn with(
        self,
        hash: TxHash,
        tx: TypedTransaction,
        sim: Arc<TransactionAccessSimulationResult>,
    ) -> RegisterModel {
        RegisterModel {
            transactions: table::entries_put(self.transactions, hash, tx),
            simulations: table::entries_put(self.simulations, hash, sim),
            ..self
        }
    }

    /// Whether a transaction is registered.
    pub open spec fn has(self, hash: TxHash) -> bool {
        table::has_key(self.transactions, hash) && table::has_key(self.simulations, hash)
    }

    /// A registered transaction.
    pub open spec fn transaction(self, hash: TxHash) -> Option<TypedTransaction> {
        if table::has_key(self.transactions, hash) {
            Some(table::entries_map(self.transactions)[hash])
        } else {
            None
        }
    }

    /// The simulation of a registered transaction.
    pub open spec fn simulation(self, hash: TxHash) -> Option<Arc<TransactionAccessSimulationResult>> {
        if table::has_key(self.simulations, hash) {
            Some(table::entries_map(self.simulations)[hash])
        } else {
            None
        }
    }

    /// Whether a transaction is registered and its signature is valid.
    pub open spec fn is_signed(self, hash: TxHash) -> bool {
        self.transaction(hash) matches Some(tx) && tx.signer is Some
    }

    /// A registered transaction with its sender.
    pub open spec fn pending(self, hash: TxHash) -> PendingTransaction {
        let tx = self.transaction(hash)->Some_0;
        PendingTransaction { transaction: tx, sender: tx.signer->Some_0 }
    }

    /// Whether the nonce is known that each unused transaction of a sender needs.
    pub open spec fn nonces_known(self, sender: Address, used: Seq<TxHash>) -> bool {
        forall|i: int|
            0 <= i < self.simulations.len() && !used.contains((#[trigger] self.simulations[i]).0)
                && self.simulations[i].1.sender == sender ==> self.simulations[i].1.nonces_required@.len()
                > 0
    }

    /// The first unused one of the first `count` transactions that lets an account go on after a
    /// nonce.
    pub open spec fn with_nonce(
        self,
        sender: Address,
        nonce: u64,
        used: Seq<TxHash>,
        count: int,
    ) -> Option<TxHash>
        decreases count,
    {
        if count <= 0 {
            None
        } else {
            match self.with_nonce(sender, nonce, used, count - 1) {
                Some(hash) => Some(hash),
                None => {
                    let (hash, sim) = self.simulations[count - 1];
                    if !used.contains(hash) && has_nonce(*sim, sender, nonce) {
                        Some(hash)
                    } else {
                        None
                    }
                },
            }
        }
    }

    /// The unused ones of the first `count` transactions that pay an account.
    pub open spec fn paying(self, recipient: Address, used: Seq<TxHash>, count: int) -> Seq<TxHash>
        decreases count,
    {
        if count <= 0 {
            Seq::empty()
        } else {
            let (hash, sim) = self.simulations[count - 1];
            let front = self.paying(recipient, used, count - 1);
            if !used.contains(hash) && pays(*sim, recipient) {
                front.push(hash)
            } else {
                front
            }
        }
    }

    /// The register that holds the first `count` of the given transactions only.
    pub open spec fn restricted(self, hashes: Seq<TxHash>, count: int) -> RegisterModel
        decreases count,
    {
        if count <= 0 {
            RegisterModel::empty(self.prev_block_number)
        } else {
            let hash = hashes[count - 1];
            self.restricted(hashes, count - 1).with(
                hash,
                self.transaction(hash)->Some_0,
                self.simulation(hash)->Some_0,
            )
        }
    }
}

/// The transactions and their simulations.
pub struct TransactionRegisterInner {
    transactions: Table<32, TypedTransaction>,
    simulations: Table<32, Arc<TransactionAccessSimulationResult>>,
}

impl TransactionRegisterInner {
    /// The transactions, in the order in which they came.
    pub closed spec fn transactions(&self) -> Seq<(TxHash, TypedTransaction)> {
        self.transactions.entries()
    }

    /// The simulations, in the order in which they came.
    pub closed spec fn simulations(&self) -> Seq<(TxHash, Arc<TransactionAccessSimulationResult>)> {
        self.simulations.entries()
    }

    /// No transactions.
    pub fn new() -> (r: Self)
        ensures
            r.transactions() == Seq::<(TxHash, TypedTransaction)>::empty(),
            r.simulations() == Seq::<(TxHash, Arc<TransactionAccessSimulationResult>)>::empty(),
    {
        TransactionRegisterInner { transactions: Table::new(), simulations: Table::new() }
    }

    /// Stores a transaction with its simulation.
    pub fn add_transaction(
        &mut self,
        hash: TxHash,
        tx: TypedTransaction,
        sim: Arc<TransactionAccessSimulationResult>,
    )
        ensures
            final(self).transactions() == table::entries_put(old(self).transactions(), hash, tx),
            final(self).simulations() == table::entries_put(old(self).simulations(), hash, sim),
    {
        self.transactions.insert(hash, tx);
        self.simulations.insert(hash, sim);
    }

    /// A stored transaction.
    pub fn get_raw_transaction(&self, hash: &TxHash) -> (r: Option<TypedTransaction>)
        ensures
            r is Some <==> table::has_key(self.transactions(), *hash),
            r matches Some(tx) ==> tx == table::entries_map(self.transactions())[*hash],
    {
        let found = self.transactions.get(hash);
        proof {
            table::lemma_entries_map(self.transactions.entries());
        }
        match found {
            Some(tx) => Some(*tx),
            None => None,
        }
    }

    /// A stored simulation.
    pub fn get_simulation(&self, hash: &TxHash) -> (r: Option<Arc<TransactionAccessSimulationResult>>)
        ensures
            r is Some <==> table::has_key(self.simulations(), *hash),
            r matches Some(sim) ==> sim == table::entries_map(self.simulations())[*hash],
    {
        let found = self.simulations.get(hash);
        proof {
            table::lemma_entries_map(self.simulations.entries());
        }
        match found {
            Some(sim) => Some(share(sim)),
            None => None,
        }
    }
}

/// The transactions that were announced for the next block, with their simulations.
///
/// They are forgotten as soon as the number of the best block changes.
pub struct TransactionRegister {
    inner: TransactionRegisterInner,
    prev_block_number: u64,
}

impl View for TransactionRegister {
    type V = RegisterModel;

    closed spec fn view(&self) -> RegisterModel {
        RegisterModel {
            transactions: self.inner.transactions.entries(),
            simulations: self.inner.simulations.entries(),
            prev_block_number: self.prev_block_number,
        }
    }
}

impl TransactionRegister {
    #[verifier::type_invariant]
    spec fn consistent(&self) -> bool {
        self@.well_formed()
    }
}

fn nonce_listed(nonces: &Vec<(Address, u64)>, account: &Address, nonce: u64) -> (r: bool)
    ensures
        r == lists_nonce(nonces@, *account, nonce),
{
    let mut i: usize = 0;
    while i < nonces.len()
        invariant
            0 <= i <= nonces@.len(),
            forall|j: int| 0 <= j < i ==> #[trigger] nonces@[j] != (*account, nonce),
        decreases nonces@.len() - i,
    {
        if nonces[i].0 == *account && nonces[i].1 == nonce {
            assert(nonces@[i as int] == (*account, nonce));
            return true;
        }
        i = i + 1;
    }
    false
}

fn matches_nonce(sim: &TransactionAccessSimulationResult, sender: &Address, nonce: u64) -> (r: bool)
    requires
        sim.sender == *sender ==> sim.nonces_required@.len() > 0,
    ensures
        r == has_nonce(*sim, *sender, nonce),
{
    if sim.sender == *sender && sim.nonces_required[0].0 == *sender {
        sim.nonces_required[0].1 == nonce
    } else {
        nonce_listed(&sim.nonces_possible, sender, nonce)
    }
}

/// Whether a transaction pays an account.
pub fn is_paying(sim: &TransactionAccessSimulationResult, recipient: &Address) -> (r: bool)
    ensures
        r == pays(*sim, *recipient),
{
    match sim.transfer_diffs.get(recipient) {
        Some(diff) => diff.greater_than(I512::zero()),
        None => false,
    }
}

impl TransactionRegister {
    /// A register without transactions, before the first block.
    pub fn new() -> (r: TransactionRegister)
        ensures
            r@ == RegisterModel::empty(0),
            r@.well_formed(),
    {
        TransactionRegister { inner: TransactionRegisterInner::new(), prev_block_number: 0 }
    }

    /// Registers a transaction with its simulation, which is the only result of a simulation of the
    /// transaction alone.
    pub fn register_transaction(
        &mut self,
        tx: TypedTransaction,
        results: Result<Vec<TransactionAccessSimulationResult>, BlockchainError>,
        best_number: u64,
    ) -> (r: Result<(TxHash, Arc<TransactionAccessSimulationResult>), BlockchainError>)
        ensures
            final(self)@.well_formed(),
            match results {
                Err(e) => r == Err::<(TxHash, Arc<TransactionAccessSimulationResult>), BlockchainError>(e)
                    && final(self)@ == old(self)@,
                Ok(sims) => if sims@.len() == 1 {
                    &&& r == Ok::<_, BlockchainError>((tx.hash, Arc::new(sims@[0])))
                    &&& final(self)@ == old(self)@.at_block(best_number).with(
                        tx.hash,
                        tx,
                        Arc::new(sims@[0]),
                    )
                } else {
                    &&& r matches Err(BlockchainError::Message(m))
                    &&& m@ == "no simulation result found"@
                    &&& final(self)@ == old(self)@
                },
            },
    {
        proof {
            use_type_invariant(&*self);
        }
        let mut sims = match results {
            Ok(sims) => sims,
            Err(e) => {
                return Err(e);
            },
        };
        if sims.len() != 1 {
            return Err(BlockchainError::Message(String::from_str("no simulation result found")));
        }
        assert(sims@.last() == sims@[0]);
        let sim = Arc::new(sims.pop().unwrap());
        self.ensure_current_block(best_number);
        proof {
            self@.lemma_with(tx.hash, tx, sim);
        }
        let mut inner = TransactionRegisterInner::new();
        std::mem::swap(&mut inner, &mut self.inner);
        inner.add_transaction(tx.hash, tx, share(&sim));
        self.inner = inner;
        Ok((tx.hash, sim))
    }

    /// The simulation of a transaction that was registered for the next block.
    pub fn get_simulation(&mut self, hash: &TxHash, best_number: u64) -> (r: Option<
        Arc<TransactionAccessSimulationResult>,
    >)
        ensures
            final(self)@ == old(self)@.at_block(best_number),
            final(self)@.well_formed(),
            r == final(self)@.simulation(*hash),
    {
        self.ensure_current_block(best_number);
        self.inner.get_simulation(hash)
    }

    /// The simulation of a transaction, if it is registered for the block after the best one.
    pub fn current_simulation(&self, hash: &TxHash, best_number: u64) -> (r: Option<
        Arc<TransactionAccessSimulationResult>,
    >)
        ensures
            r == self@.at_block(best_number).simulation(*hash),
    {
        if self.prev_block_number == best_number {
            self.inner.get_simulation(hash)
        } else {
            None
        }
    }

    /// A transaction that was registered for the next block.
    pub fn get_raw_transaction(&mut self, hash: &TxHash, best_number: u64) -> (r: Option<TypedTransaction>)
        ensures
            final(self)@ == old(self)@.at_block(best_number),
            final(self)@.well_formed(),
            r == final(self)@.transaction(*hash),
    {
        self.ensure_current_block(best_number);
        self.inner.get_raw_transaction(hash)
    }

    /// Transactions that were registered for the next block, where all of them were.
    pub fn get_raw_transactions(&mut self, hashes: &Vec<TxHash>, best_number: u64) -> (r: Option<
        Vec<TypedTransaction>,
    >)
        ensures
            final(self)@ == old(self)@.at_block(best_number),
            final(self)@.well_formed(),
            r is Some <==> forall|i: int|
                0 <= i < hashes@.len() ==> final(self)@.transaction(#[trigger] hashes@[i]) is Some,
            r matches Some(txs) ==> txs@.len() == hashes@.len() && forall|i: int|
                0 <= i < hashes@.len() ==> final(self)@.transaction(#[trigger] hashes@[i]) == Some(txs@[i]),
    {
        self.ensure_current_block(best_number);
        let mut txs: Vec<TypedTransaction> = Vec::new();
        let mut i: usize = 0;
        while i < hashes.len()
            invariant
                self@ == old(self)@.at_block(best_number),
                self@.well_formed(),
                0 <= i <= hashes@.len(),
                txs@.len() == i,
                forall|j: int|
                    0 <= j < i ==> self@.transaction(#[trigger] hashes@[j]) == Some(txs@[j]),
            decreases hashes@.len() - i,
        {
            match self.inner.get_raw_transaction(&hashes[i]) {
                Some(tx) => {
                    txs.push(tx);
                },
                None => {
                    assert(self@.transaction(hashes@[i as int]) is None);
                    return None;
                },
            }
            i = i + 1;
        }
        Some(txs)
    }

    /// Whether a transaction is registered and its signature is valid.
    pub fn has_signed(&self, hash: &TxHash) -> (r: bool)
        ensures
            r == self@.is_signed(*hash),
    {
        match self.inner.get_raw_transaction(hash) {
            Some(tx) => tx.signer.is_some(),
            None => false,
        }
    }

    /// A registered transaction with its sender.
    pub fn get_pending_tx(&self, hash: &TxHash) -> (r: PendingTransaction)
        requires
            self@.is_signed(*hash),
        ensures
            r == self@.pending(*hash),
    {
        PendingTransaction::new(self.inner.get_raw_transaction(hash).unwrap()).unwrap()
    }

    /// Registered transactions with their senders.
    pub fn get_pending_txs(&self, hashes: &Vec<TxHash>) -> (r: Vec<PendingTransaction>)
        requires
            forall|i: int| 0 <= i < hashes@.len() ==> self@.is_signed(#[trigger] hashes@[i]),
        ensures
            r@.len() == hashes@.len(),
            forall|i: int| 0 <= i < r@.len() ==> #[trigger] r@[i] == self@.pending(hashes@[i]),
    {
        let mut txs: Vec<PendingTransaction> = Vec::new();
        let mut i: usize = 0;
        while i < hashes.len()
            invariant
                forall|j: int| 0 <= j < hashes@.len() ==> self@.is_signed(#[trigger] hashes@[j]),
                0 <= i <= hashes@.len(),
                txs@.len() == i,
                forall|j: int| 0 <= j < i ==> #[trigger] txs@[j] == self@.pending(hashes@[j]),
            decreases hashes@.len() - i,
        {
            txs.push(self.get_pending_tx(&hashes[i]));
            i = i + 1;
        }
        txs
    }

    /// Whether the nonce is known that each unused transaction of a sender needs.
    pub fn knows_nonces(&self, sender: &Address, used: &Vec<TxHash>) -> (r: bool)
        ensures
            r == self@.nonces_known(*sender, used@),
    {
        let sims = &self.inner.simulations;
        let mut i: usize = 0;
        while i < sims.len()
            invariant
                sims.entries() == self@.simulations,
                0 <= i <= sims.entries().len(),
                forall|j: int|
                    0 <= j < i && !used@.contains((#[trigger] self@.simulations[j]).0)
                        && self@.simulations[j].1.sender == *sender
                        ==> self@.simulations[j].1.nonces_required@.len() > 0,
            decreases sims.entries().len() - i,
        {
            let hash = sims.key_at(i);
            let sim = sims.value_at(i);
            assert(self@.simulations[i as int] == (hash, *sim));
            if !contains_hash(used, &hash) && sim.sender == *sender && sim.nonces_required.len() == 0 {
                return false;
            }
            i = i + 1;
        }
        true
    }

    /// An unused transaction that lets an account go on after a nonce: the one that came first.
    pub fn find_transaction_with_nonce(&self, sender: &Address, nonce: u64, used: &Vec<TxHash>) -> (r: Option<
        TxHash,
    >)
        requires
            self@.nonces_known(*sender, used@),
        ensures
            r == self@.with_nonce(*sender, nonce, used@, self@.simulations.len() as int),
    {
        let sims = &self.inner.simulations;
        let mut i: usize = 0;
        while i < sims.len()
            invariant
                self@.nonces_known(*sender, used@),
                sims.entries() == self@.simulations,
                0 <= i <= sims.entries().len(),
                self@.with_nonce(*sender, nonce, used@, i as int) is None,
            decreases sims.entries().len() - i,
        {
            let hash = sims.key_at(i);
            let sim = sims.value_at(i);
            assert(self@.simulations[i as int] == (hash, *sim));
            if !contains_hash(used, &hash) && matches_nonce(sim, sender, nonce) {
                proof {
                    self@.lemma_with_nonce_stable(*sender, nonce, used@, i + 1, sims.entries().len() as int);
                }
                return Some(hash);
            }
            i = i + 1;
        }
        None
    }

    /// The unused transactions that pay an account, in the order in which they came.
    pub fn find_transaction_paying(&self, recipient: &Address, used: &Vec<TxHash>) -> (r: Vec<TxHash>)
        ensures
            r@ == self@.paying(*recipient, used@, self@.simulations.len() as int),
    {
        let sims = &self.inner.simulations;
        let mut found: Vec<TxHash> = Vec::new();
        let mut i: usize = 0;
        while i < sims.len()
            invariant
                sims.entries() == self@.simulations,
                0 <= i <= sims.entries().len(),
                found@ == self@.paying(*recipient, used@, i as int),
            decreases sims.entries().len() - i,
        {
            let hash = sims.key_at(i);
            let sim = sims.value_at(i);
            assert(self@.simulations[i as int] == (hash, *sim));
            if !contains_hash(used, &hash) && is_paying(sim, recipient) {
                found.push(hash);
            }
            i = i + 1;
        }
        found
    }

    fn ensure_current_block(&mut self, cur_block_number: u64)
        ensures
            final(self)@ == old(self)@.at_block(cur_block_number),
            final(self)@.well_formed(),
    {
        proof {
            use_type_invariant(&*self);
        }
        if self.prev_block_number != cur_block_number {
            self.inner = TransactionRegisterInner::new();
            self.prev_block_number = cur_block_number;
        }
    }

    /// The register that holds the given transactions only.
    pub fn restrict_mempool(&self, restricted: &Vec<TxHash>) -> (r: Result<
        TransactionRegister,
        BlockchainError,
    >)
        ensures
            r is Ok <==> forall|i: int|
                0 <= i < restricted@.len() ==> self@.has(#[trigger] restricted@[i]),
            r matches Err(e) ==> e is TransactionNotFound,
            r matches Ok(register) ==> register@ == self@.restricted(
                restricted@,
                restricted@.len() as int,
            ) && register@.well_formed(),
    {
        proof {
            use_type_invariant(self);
        }
        let mut inner = TransactionRegisterInner::new();
        let mut i: usize = 0;
        while i < restricted.len()
            invariant
                0 <= i <= restricted@.len(),
                self@.well_formed(),
                self@.restricted(restricted@, i as int) == (RegisterModel {
                    transactions: inner.transactions(),
                    simulations: inner.simulations(),
                    prev_block_number: self@.prev_block_number,
                }),
                self@.restricted(restricted@, i as int).well_formed(),
                forall|j: int| 0 <= j < i ==> self@.has(#[trigger] restricted@[j]),
            decreases restricted@.len() - i,
        {
            let hash = restricted[i];
            let raw_tx = match self.inner.get_raw_transaction(&hash) {
                Some(tx) => tx,
                None => {
                    assert(!self@.has(restricted@[i as int]));
                    return Err(BlockchainError::TransactionNotFound);
                },
            };
            let sim = match self.inner.get_simulation(&hash) {
                Some(sim) => sim,
                None => {
                    assert(!self@.has(restricted@[i as int]));
                    return Err(BlockchainError::TransactionNotFound);
                },
            };
            proof {
                self@.restricted(restricted@, i as int).lemma_with(hash, raw_tx, sim);
            }
            inner.add_transaction(hash, raw_tx, sim);
            i = i + 1;
        }
        Ok(TransactionRegister { inner, prev_block_number: self.prev_block_number })
    }

    /// Whether a transaction is registered.
    pub fn has(&self, tx: &TxHash) -> (r: bool)
        ensures
            r == self@.has(*tx),
    {
        self.inner.get_raw_transaction(tx).is_some() && self.inner.get_simulation(tx).is_some()
    }
}

impl RegisterModel {
    /// A consistent register stays so when a transaction is registered.
    pub proof fn lemma_with(
        self,
        hash: TxHash,
        tx: TypedTransaction,
        sim: Arc<TransactionAccessSimulationResult>,
    )
        requires
            self.well_formed(),
        ensures
            self.with(hash, tx, sim).well_formed(),
    {
        table::lemma_entries_put(self.transactions, hash, tx);
        table::lemma_entries_put(self.simulations, hash, sim);
        lemma_put_keys(self.transactions, self.simulations, hash, tx, sim);
    }

    pub proof fn lemma_with_nonce_stable(
        self,
        sender: Address,
        nonce: u64,
        used: Seq<TxHash>,
        count: int,
        more: int,
    )
        requires
            self.with_nonce(sender, nonce, used, count) is Some,
            count <= more,
        ensures
            self.with_nonce(sender, nonce, used, more) == self.with_nonce(sender, nonce, used, count),
        decreases more,
    {
        if count < more {
            self.lemma_with_nonce_stable(sender, nonce, used, count, more - 1);
        }
    }
}

proof fn lemma_put_keys<K, V, W>(a: Seq<(K, V)>, b: Seq<(K, W)>, key: K, v: V, w: W)
    requires
        a.len() == b.len(),
        forall|i: int| 0 <= i < a.len() ==> (#[trigger] a[i]).0 == b[i].0,
    ensures
        ({
            let x = table::entries_put(a, key, v);
            let y = table::entries_put(b, key, w);
            &&& table::has_key(a, key) <==> table::has_key(b, key)
            &&& x.len() == y.len()
            &&& forall|i: int| 0 <= i < x.len() ==> (#[trigger] x[i]).0 == y[i].0
        }),
{
    if table::has_key(a, key) {
        let i = choose|i: int| 0 <= i < a.len() && (#[trigger] a[i]).0 == key;
        assert(b[i].0 == key);
    }
    if table::has_key(b, key) {
        let i = choose|i: int| 0 <= i < b.len() && (#[trigger] b[i]).0 == key;
        assert(a[i].0 == key);
    }
}

} // verus!
