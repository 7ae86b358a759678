//! Entries of the refactor queue and the outcome of their last attempt.
use vstd::prelude::*;

use crate::text::str_eq;

verus! {

/// One task of the refactor queue.
#[derive(Debug, Clone, PartialEq, Eq)]
pub struct RefactorTask {
    pub id: String,
    pub target_file: String,
    pub target_fn: String,
    pub goal: String,
    pub attempts: u32,
    pub last_status: TaskStatus,
}

#[derive(Debug, Clone, Copy, PartialEq, Eq, Structural)]
pub enum TaskStatus {
    /// Never attempted.
    Pending,
    /// The last attempt compiled and kept the callers compiling.
    Pass,
    /// The last attempt did not compile.
    FailCompile,
    /// The last attempt compiled and broke a caller.
    FailCallerCompat,
    /// A check before the attempt failed.
    Skip,
}

/// The stored name of a status.
pub open spec fn status_name(s: TaskStatus) -> Seq<char> {
    match s {
        TaskStatus::Pending => "Pending"@,
        TaskStatus::Pass => "Pass"@,
        TaskStatus::FailCompile => "FailCompile"@,
        TaskStatus::FailCallerCompat => "FailCallerCompat"@,
        TaskStatus::Skip => "Skip"@,
    }
}

/// The five names differ pairwise.
pub proof fn status_names_differ(a: TaskStatus, b: TaskStatus)
    ensures
        status_name(a) == status_name(b) ==> a == b,
{
    reveal_strlit("Pending");
    reveal_strlit("Pass");
    reveal_strlit("FailCompile");
    reveal_strlit("FailCallerCompat");
    reveal_strlit("Skip");
    assert("Pass"@[0] == 'P' && "Skip"@[0] == 'S');
    assert("Pass"@.len() == 4 && "Skip"@.len() == 4 && "Pending"@.len() == 7);
    assert("FailCompile"@.len() == 11 && "FailCallerCompat"@.len() == 16);
}

impl TaskStatus {
    pub fn as_str(self) -> (r: &'static str)
        ensures
            r@ == status_name(self),
    {
        match self {
            TaskStatus::Pending => "Pending",
            TaskStatus::Pass => "Pass",
            TaskStatus::FailCompile => "FailCompile",
            TaskStatus::FailCallerCompat => "FailCallerCompat",
            TaskStatus::Skip => "Skip",
        }
    }

    /// The status with that name. Reading a name that `as_str` gave returns the
    /// status it came from.
    pub fn parse(s: &str) -> (r: Option<TaskStatus>)
        ensures
            forall|st: TaskStatus| r == Some(st) <==> s@ == #[trigger] status_name(st),
            r is None <==> forall|st: TaskStatus| s@ != #[trigger] status_name(st),
    {
        proof {
            assert forall|a: TaskStatus, b: TaskStatus|
                #[trigger] status_name(a) == #[trigger] status_name(b) implies a == b by {
                status_names_differ(a, b);
            }
        }
        if str_eq(s, "Pending") {
            assert(s@ == status_name(TaskStatus::Pending));
            Some(TaskStatus::Pending)
        } else if str_eq(s, "Pass") {
            assert(s@ == status_name(TaskStatus::Pass));
            Some(TaskStatus::Pass)
        } else if str_eq(s, "FailCompile") {
            assert(s@ == status_name(TaskStatus::FailCompile));
            Some(TaskStatus::FailCompile)
        } else if str_eq(s, "FailCallerCompat") {
            assert(s@ == status_name(TaskStatus::FailCallerCompat));
            Some(TaskStatus::FailCallerCompat)
        } else if str_eq(s, "Skip") {
            assert(s@ == status_name(TaskStatus::Skip));
            Some(TaskStatus::Skip)
        } else {
            None
        }
    }
}

} // verus!
