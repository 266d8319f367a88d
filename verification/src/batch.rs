//! Batch planning across many files.
//!
//! The caller enumerates candidate files, reads each one's bytes into a
//! checksum (or notes that it could not), and hands the names and checksums
//! in.  Each entry is decided on its own: a file that could not be read gets
//! its own failure verdict and never disturbs the verdict of any other
//! entry.

use vstd::prelude::*;

use crate::policy::{matches_plan, spec_reconcile, EngineError, SpecPlan, Verdict};

verus! {

/// One candidate file: its name and the checksum of its content, or `None`
/// when the content could not be read.
pub struct BatchEntry {
    pub name: String,
    pub checksum: Option<u32>,
}

/// The plan for one entry: an unreadable file fails alone, any other is
/// decided by the reconciliation policy.
pub open spec fn spec_plan_entry(
    name: Seq<char>,
    checksum: Option<u32>,
    update: bool,
    add: bool,
) -> SpecPlan {
    match checksum {
        None => SpecPlan::Fail(EngineError::IoFailure),
        Some(c) => spec_reconcile(name, c, update, add),
    }
}

/// Decides one file from its name and the result of reading its content.
pub fn plan_one(name: &str, checksum: Option<u32>, update: bool, add: bool) -> (v: Verdict)
    ensures
        matches_plan(v, spec_plan_entry(name@, checksum, update, add)),
{
    match checksum {
        None => Verdict::Failed(EngineError::IoFailure),
        Some(c) => crate::policy::reconcile(name, c, update, add),
    }
}

/// Decides every entry of a batch.
///
/// Every entry receives a verdict, and each verdict is a function of that
/// entry alone: an unreadable or failing file among the entries leaves the
/// verdict of every other entry exactly what it would have been without it.
pub fn run_batch(entries: &Vec<BatchEntry>, update: bool, add: bool) -> (verdicts: Vec<Verdict>)
    ensures
        verdicts@.len() == entries@.len(),
        forall|i: int|
            0 <= i < entries@.len() ==> matches_plan(
                #[trigger] verdicts@[i],
                spec_plan_entry(entries@[i].name@, entries@[i].checksum, update, add),
            ),
{
    let mut verdicts: Vec<Verdict> = Vec::new();
    let n = entries.len();
    let mut i: usize = 0;
    while i < n
        invariant
            i <= n,
            n == entries@.len(),
            verdicts@.len() == i,
            forall|j: int|
                0 <= j < i ==> matches_plan(
                    #[trigger] verdicts@[j],
                    spec_plan_entry(entries@[j].name@, entries@[j].checksum, update, add),
                ),
        decreases n - i,
    {
        let entry = &entries[i];
        let v = plan_one(entry.name.as_str(), entry.checksum, update, add);
        verdicts.push(v);
        i = i + 1;
    }
    verdicts
}

} // verus!
