//! The bookkeeping of a batch import: how many files went through, how
//! many failed, what each gave, and whether the batch is still running.
use vstd::prelude::*;
use crate::bom::{BomError, copy_opt_string, error_text};
use crate::text::{concat2, concat4, decimal, usize_text};
use crate::validation::ValidationResult;

verus! {

/// The state of a batch import.
#[derive(Clone, Copy, Debug, PartialEq, Eq, Structural)]
pub enum BatchStatus {
    Running,
    Completed,
    Failed,
}

/// What one file of a batch gave.
#[derive(Debug)]
pub struct BatchResultItem {
    pub file_name: String,
    pub bom_id: Option<String>,
    pub item_count: usize,
    pub error: Option<String>,
}

/// A batch import in progress or done.
#[derive(Debug)]
pub struct BatchJob {
    pub id: String,
    pub total: usize,
    pub completed: usize,
    pub failed: usize,
    pub status: BatchStatus,
    pub results: Vec<BatchResultItem>,
    pub errors: Vec<String>,
}

/// One more, wrapping to zero past the largest `usize`.
pub open spec fn count_up(n: usize) -> usize {
    if n < usize::MAX {
        (n + 1) as usize
    } else {
        0
    }
}

/// The text of an optional error, or the empty text.
pub open spec fn error_or_empty(e: Option<String>) -> Seq<char> {
    match e {
        Some(s) => s@,
        None => seq![],
    }
}

fn count_up_exec(n: usize) -> (r: usize)
    ensures
        r == count_up(n),
{
    if n < usize::MAX {
        n + 1
    } else {
        0
    }
}

impl BatchJob {
    /// A running batch of `total` files with nothing done yet.
    pub fn new(id: String, total: usize) -> (r: BatchJob)
        ensures
            r.id == id,
            r.total == total,
            r.completed == 0,
            r.failed == 0,
            r.status == BatchStatus::Running,
            r.results@.len() == 0,
            r.errors@.len() == 0,
    {
        BatchJob {
            id,
            total,
            completed: 0,
            failed: 0,
            status: BatchStatus::Running,
            results: Vec::new(),
            errors: Vec::new(),
        }
    }

    /// Records what one file gave: a success is counted and its result
    /// kept; a failure is counted and its error text kept (empty when it has
    /// none). The counters wrap past the largest `usize`.
    pub fn record(&mut self, success: bool, result: BatchResultItem)
        ensures
            final(self).id == old(self).id,
            final(self).total == old(self).total,
            final(self).status == old(self).status,
            success ==> {
                &&& final(self).completed == count_up(old(self).completed)
                &&& final(self).failed == old(self).failed
                &&& final(self).results@ == old(self).results@.push(result)
                &&& final(self).errors@ == old(self).errors@
            },
            !success ==> {
                &&& final(self).failed == count_up(old(self).failed)
                &&& final(self).completed == old(self).completed
                &&& final(self).results@ == old(self).results@
                &&& final(self).errors@.len() == old(self).errors@.len() + 1
                &&& final(self).errors@.drop_last() == old(self).errors@
                &&& final(self).errors@.last()@ == error_or_empty(result.error)
            },
    {
        if success {
            self.completed = count_up_exec(self.completed);
            self.results.push(result);
        } else {
            self.failed = count_up_exec(self.failed);
            let text = match result.error {
                Some(e) => e,
                None => String::new(),
            };
            let ghost before = self.errors@;
            self.errors.push(text);
            proof {
                assert(self.errors@.drop_last() =~= before);
            }
        }
    }

    /// Marks the batch as completed.
    pub fn complete(&mut self)
        ensures
            final(self).status == BatchStatus::Completed,
            final(self).id == old(self).id,
            final(self).total == old(self).total,
            final(self).completed == old(self).completed,
            final(self).failed == old(self).failed,
            final(self).results@ == old(self).results@,
            final(self).errors@ == old(self).errors@,
    {
        self.status = BatchStatus::Completed;
    }

    /// Marks the batch as failed.
    pub fn fail(&mut self)
        ensures
            final(self).status == BatchStatus::Failed,
            final(self).id == old(self).id,
            final(self).total == old(self).total,
            final(self).completed == old(self).completed,
            final(self).failed == old(self).failed,
            final(self).results@ == old(self).results@,
            final(self).errors@ == old(self).errors@,
    {
        self.status = BatchStatus::Failed;
    }
}

/// A snapshot of a batch: its counters, state, results and errors.
#[derive(Debug)]
pub struct BatchJobResult {
    pub id: String,
    pub total: usize,
    pub completed: usize,
    pub failed: usize,
    pub status: BatchStatus,
    pub results: Vec<BatchResultItem>,
    pub errors: Vec<String>,
}

impl BatchResultItem {
    /// A copy of this result.
    pub fn duplicate(&self) -> (r: BatchResultItem)
        ensures
            r == *self,
    {
        BatchResultItem {
            file_name: self.file_name.clone(),
            bom_id: copy_opt_string(&self.bom_id),
            item_count: self.item_count,
            error: copy_opt_string(&self.error),
        }
    }
}

impl BatchJob {
    /// A snapshot of this batch.
    pub fn result(&self) -> (r: BatchJobResult)
        ensures
            r.id == self.id,
            r.total == self.total,
            r.completed == self.completed,
            r.failed == self.failed,
            r.status == self.status,
            r.results@ == self.results@,
            r.errors@ == self.errors@,
    {
        let mut results: Vec<BatchResultItem> = Vec::new();
        let mut i: usize = 0;
        while i < self.results.len()
            invariant
                i <= self.results@.len(),
                results@ == self.results@.take(i as int),
            decreases self.results@.len() - i,
        {
            results.push(self.results[i].duplicate());
            proof {
                assert(results@ =~= self.results@.take(i + 1));
            }
            i = i + 1;
        }
        let mut errors: Vec<String> = Vec::new();
        let mut j: usize = 0;
        while j < self.errors.len()
            invariant
                j <= self.errors@.len(),
                errors@ == self.errors@.take(j as int),
            decreases self.errors@.len() - j,
        {
            errors.push(self.errors[j].clone());
            proof {
                assert(errors@ =~= self.errors@.take(j + 1));
            }
            j = j + 1;
        }
        proof {
            assert(self.results@.take(i as int) =~= self.results@);
            assert(self.errors@.take(j as int) =~= self.errors@);
        }
        BatchJobResult {
            id: self.id.clone(),
            total: self.total,
            completed: self.completed,
            failed: self.failed,
            status: self.status,
            results,
            errors,
        }
    }
}

impl Clone for BatchResultItem {
    fn clone(&self) -> (r: BatchResultItem)
        ensures
            r == *self,
    {
        self.duplicate()
    }
}


/// What a file of a batch leads to once it has been read and checked.
#[derive(Debug)]
pub enum FileOutcome {
    /// The check found an error: this failure is recorded and nothing is
    /// stored.
    Rejected(BatchResultItem),
    /// The BOM is stored, with this reason for its first version, and a
    /// success recorded under its id.
    Accepted { reason: String },
}

/// The error text of a file whose check found errors.
pub open spec fn check_failed_text(errors: nat, warnings: nat) -> Seq<char> {
    "校验未通过: "@ + decimal(errors) + " 个错误, "@ + decimal(warnings) + " 个警告"@
}

/// The reason given to the first version of a BOM imported in a batch.
pub open spec fn import_reason(file_name: Seq<char>) -> Seq<char> {
    "批量导入: "@ + file_name
}

/// Decides what a read file of a batch leads to: a BOM whose check found
/// an error is rejected with the counts of errors and warnings; any other
/// is accepted.
pub fn judge_file(file_name: &str, item_count: usize, validation: &ValidationResult) -> (r: FileOutcome)
    ensures
        (match r {
            FileOutcome::Accepted { reason } => validation.valid && reason@ == import_reason(file_name@),
            FileOutcome::Rejected(item) => {
                &&& !validation.valid
                &&& item.file_name@ == file_name@
                &&& item.bom_id is None
                &&& item.item_count == item_count
                &&& item.error matches Some(e) && e@ == check_failed_text(
                    validation.error_count as nat,
                    validation.warning_count as nat,
                )
            },
        }),
{
    if validation.valid {
        FileOutcome::Accepted { reason: concat2("批量导入: ", file_name) }
    } else {
        let errors = usize_text(validation.error_count);
        let warnings = usize_text(validation.warning_count);
        let head = concat4("校验未通过: ", errors.as_str(), " 个错误, ", warnings.as_str());
        let text = concat2(head.as_str(), " 个警告");
        FileOutcome::Rejected(
            BatchResultItem {
                file_name: String::from_str(file_name),
                bom_id: None,
                item_count,
                error: Some(text),
            },
        )
    }
}

/// The failure recorded for a file of a batch that could not be read: no
/// BOM, no items, and the error's text.
pub fn unreadable_file(file_name: &str, error: &BomError) -> (r: BatchResultItem)
    ensures
        r.file_name@ == file_name@,
        r.bom_id is None,
        r.item_count == 0,
        r.error matches Some(e) && e@ == error_text(error@),
{
    BatchResultItem { file_name: String::from_str(file_name), bom_id: None, item_count: 0, error: Some(error.message()) }
}

} // verus!
