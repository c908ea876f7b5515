//! The building of a batch, one question after the other.

use crate::batching::assembly;
use crate::batching::assembly::inner_build_batch;
use crate::batching::dependencies::copy_list;
use crate::batching::questions::{Answer, Fault, Halt, Question};
use crate::fixed_bytes::TxHash;
use crate::transaction_register::TransactionRegister;
use vstd::prelude::*;

verus! {

/// What a builder was given so far.
#[verifier::ext_equal]
pub struct BuilderModel {
    /// the transactions out of which the batch is built
    pub bucket: Seq<TxHash>,
    /// the transactions behind which the batch goes
    pub already_included: Seq<TxHash>,
    /// the answers so far
    pub answers: Seq<Answer>,
}

/// How far a builder is.
pub enum Progress {
    /// a question has to be answered first
    Ask(Question),
    /// the batch is done
    Done(Vec<TxHash>),
    /// the batch cannot be built
    Fault(Fault),
}

/// Builds a batch from the answers to the questions that come up.
///
/// How far the builder is depends on the answers alone: it goes through all of them again whenever
/// it is asked.
pub struct BatchBuilder {
    bucket: Vec<TxHash>,
    already_included: Vec<TxHash>,
    answers: Vec<Answer>,
}

impl View for BatchBuilder {
    type V = BuilderModel;

    closed spec fn view(&self) -> BuilderModel {
        BuilderModel {
            bucket: self.bucket@,
            already_included: self.already_included@,
            answers: self.answers@,
        }
    }
}

/// Begins to build a batch out of a bucket of transactions.
pub fn build_batch(bucket: Vec<TxHash>) -> (r: BatchBuilder)
    ensures
        r@ == (BuilderModel {
            bucket: bucket@,
            already_included: Seq::empty(),
            answers: Seq::empty(),
        }),
{
    BatchBuilder { bucket, already_included: Vec::new(), answers: Vec::new() }
}

/// Begins to build a batch out of a bucket of transactions that goes behind another batch.
pub fn build_extended_batch(bucket: Vec<TxHash>, primary_batch: &Vec<TxHash>) -> (r: BatchBuilder)
    ensures
        r@ == (BuilderModel {
            bucket: bucket@,
            already_included: primary_batch@,
            answers: Seq::empty(),
        }),
{
    BatchBuilder { bucket, already_included: copy_list(primary_batch), answers: Vec::new() }
}

impl BatchBuilder {
    /// How far the builder is, where `best_number` is the number of the best block.
    pub fn next(&self, register: &TransactionRegister, best_number: u64) -> (r: Progress)
        ensures
            match assembly::batch_of(
                register@,
                best_number,
                self@.bucket,
                self@.already_included,
                self@.answers,
            ) {
                Ok((batch, _)) => r matches Progress::Done(b) && b@ == batch,
                Err(Halt::Ask(question)) => r == Progress::Ask(question),
                Err(Halt::Fault(fault)) => r == Progress::Fault(fault),
            },
    {
        match inner_build_batch(
            register,
            best_number,
            &self.bucket,
            &self.already_included,
            &self.answers,
        ) {
            Ok((batch, _)) => Progress::Done(batch),
            Err(Halt::Ask(question)) => Progress::Ask(question),
            Err(Halt::Fault(fault)) => Progress::Fault(fault),
        }
    }

    /// Takes in the answer to the last question.
    pub fn answer(&mut self, answer: Answer)
        ensures
            final(self)@ == (BuilderModel { answers: old(self)@.answers.push(answer), ..old(self)@ }),
    {
        self.answers.push(answer);
    }
}

} // verus!
