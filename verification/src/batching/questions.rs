//! What the building of a batch asks the machine that executes transactions.

use crate::fixed_bytes::{Address, TxHash};
use crate::num::U256;
use crate::simulation::TransactionAccessSimulationResult;
use crate::transaction::{PendingTransaction, SimulationError};
use crate::transaction_register::{RegisterModel, TransactionRegister};
use vstd::prelude::*;

verus! {

/// What is to be found out or done on top of the block that is being built.
#[derive(Clone, Copy, Debug)]
pub enum Question {
    /// simulate the transaction
    Simulate(PendingTransaction),
    /// look up the balance of the account
    Balance(Address),
    /// check whether the transaction can go into the block
    CheckIncludability(PendingTransaction),
    /// execute the transaction as the next one of the block
    Execute(PendingTransaction),
}

/// What was found out or done.
pub enum Answer {
    Simulated(TransactionAccessSimulationResult),
    Balance(U256),
    /// the reasons why the transaction cannot go into the block
    Includability(Vec<SimulationError>),
    Executed,
}

/// Why the building of a batch cannot go on.
#[derive(Clone, Copy, Debug)]
pub enum Fault {
    /// an answer does not fit the question
    UnexpectedAnswer,
    /// a transaction is not registered for the next block, or its signature is not valid
    NotRegistered(TxHash),
    /// the nonce that a transaction needs is not known or has none before it
    NonceUnknown(TxHash),
    /// the sender of a transaction that lacks funds has enough of them
    FundsNotMissing(TxHash),
    /// a transfer of a transaction is larger than any balance
    TransferTooLarge(TxHash),
}

/// Why the building of a batch stops before it is done.
#[derive(Clone, Copy, Debug)]
pub enum Halt {
    /// a question is open
    Ask(Question),
    /// it cannot go on
    Fault(Fault),
}

impl Question {
    /// Whether an answer fits the question.
    pub open spec fn accepts(self, answer: Answer) -> bool {
        match (self, answer) {
            (Question::Simulate(_), Answer::Simulated(_)) => true,
            (Question::Balance(_), Answer::Balance(_)) => true,
            (Question::CheckIncludability(_), Answer::Includability(_)) => true,
            (Question::Execute(_), Answer::Executed) => true,
            _ => false,
        }
    }

    /// Whether an answer fits the question.
    pub fn is_answered_by(&self, answer: &Answer) -> (r: bool)
        ensures
            r == self.accepts(*answer),
    {
        match (self, answer) {
            (Question::Simulate(_), Answer::Simulated(_)) => true,
            (Question::Balance(_), Answer::Balance(_)) => true,
            (Question::CheckIncludability(_), Answer::Includability(_)) => true,
            (Question::Execute(_), Answer::Executed) => true,
            _ => false,
        }
    }
}

/// The halt at a question: the question itself where no answer is there yet, and a fault where there
/// is one, as the answer does not fit.
pub open spec fn halt_at(question: Question, answers: Seq<Answer>, at: int) -> Halt {
    if at >= answers.len() {
        Halt::Ask(question)
    } else {
        Halt::Fault(Fault::UnexpectedAnswer)
    }
}

/// The simulation of a registered transaction, by the answer at a place.
pub open spec fn simulated(register: RegisterModel, hash: TxHash, answers: Seq<Answer>, at: int) -> Result<
    TransactionAccessSimulationResult,
    Halt,
> {
    if !register.is_signed(hash) {
        Err(Halt::Fault(Fault::NotRegistered(hash)))
    } else if at < answers.len() && answers[at] is Simulated {
        Ok(answers[at]->Simulated_0)
    } else {
        Err(halt_at(Question::Simulate(register.pending(hash)), answers, at))
    }
}

/// The balance of an account, by the answer at a place.
pub open spec fn balance(account: Address, answers: Seq<Answer>, at: int) -> Result<U256, Halt> {
    if at < answers.len() && answers[at] is Balance {
        Ok(answers[at]->Balance_0)
    } else {
        Err(halt_at(Question::Balance(account), answers, at))
    }
}

/// Whether a transaction can go into the block, by the answer at a place.
pub open spec fn includable(tx: PendingTransaction, answers: Seq<Answer>, at: int) -> Result<bool, Halt> {
    if at < answers.len() && answers[at] is Includability {
        Ok(answers[at]->Includability_0@.len() == 0)
    } else {
        Err(halt_at(Question::CheckIncludability(tx), answers, at))
    }
}

/// Whether a transaction was executed, by the answer at a place.
pub open spec fn executed(tx: PendingTransaction, answers: Seq<Answer>, at: int) -> Result<(), Halt> {
    if at < answers.len() && answers[at] is Executed {
        Ok(())
    } else {
        Err(halt_at(Question::Execute(tx), answers, at))
    }
}

fn halted(question: Question, answers: &Vec<Answer>, at: usize) -> (r: Halt)
    ensures
        r == halt_at(question, answers@, at as int),
{
    if at >= answers.len() {
        Halt::Ask(question)
    } else {
        Halt::Fault(Fault::UnexpectedAnswer)
    }
}

/// The simulation of a registered transaction, by the answer at a place.
pub fn ask_simulation<'a>(
    register: &TransactionRegister,
    hash: &TxHash,
    answers: &'a Vec<Answer>,
    at: usize,
) -> (r: Result<&'a TransactionAccessSimulationResult, Halt>)
    ensures
        match simulated(register@, *hash, answers@, at as int) {
            Ok(sim) => r matches Ok(s) && *s == sim && at < answers.len(),
            Err(h) => r matches Err(halt) && halt == h,
        },
{
    if !register.has_signed(hash) {
        return Err(Halt::Fault(Fault::NotRegistered(*hash)));
    }
    if at < answers.len() {
        if let Answer::Simulated(sim) = &answers[at] {
            return Ok(sim);
        }
    }
    Err(halted(Question::Simulate(register.get_pending_tx(hash)), answers, at))
}

/// The balance of an account, by the answer at a place.
pub fn ask_balance(account: Address, answers: &Vec<Answer>, at: usize) -> (r: Result<U256, Halt>)
    ensures
        r == balance(account, answers@, at as int),
        r is Ok ==> at < answers.len(),
{
    if at < answers.len() {
        if let Answer::Balance(amount) = &answers[at] {
            return Ok(*amount);
        }
    }
    Err(halted(Question::Balance(account), answers, at))
}

/// Whether a transaction can go into the block, by the answer at a place.
pub fn ask_includability(tx: PendingTransaction, answers: &Vec<Answer>, at: usize) -> (r: Result<bool, Halt>)
    ensures
        r == includable(tx, answers@, at as int),
        r is Ok ==> at < answers.len(),
{
    if at < answers.len() {
        if let Answer::Includability(errors) = &answers[at] {
            return Ok(errors.len() == 0);
        }
    }
    Err(halted(Question::CheckIncludability(tx), answers, at))
}

/// Whether a transaction was executed, by the answer at a place.
pub fn ask_execution(tx: PendingTransaction, answers: &Vec<Answer>, at: usize) -> (r: Result<(), Halt>)
    ensures
        r == executed(tx, answers@, at as int),
        r is Ok ==> at < answers.len(),
{
    if at < answers.len() {
        if let Answer::Executed = &answers[at] {
            return Ok(());
        }
    }
    Err(halted(Question::Execute(tx), answers, at))
}

/// A simulation is answered by a simulation, a balance by a balance, a check by reasons and an execution
/// by an execution, and by nothing else.
pub proof fn law_answers_fit_their_kind_of_question(question: Question, answer: Answer)
    ensures
        question.accepts(answer) <==> {
            ||| question is Simulate && answer is Simulated
            ||| question is Balance && answer is Balance
            ||| question is CheckIncludability && answer is Includability
            ||| question is Execute && answer is Executed
        },
{
}

} // verus!
