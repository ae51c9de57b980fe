//! The status texts that report the outcome of a batch operation.

use vstd::prelude::*;

verus! {

/// The text for a batch completion that did or did not find a task.
pub open spec fn completion_text(updated: bool) -> Seq<char> {
    if updated {
        "Tasks marked as completed"@
    } else {
        "No tasks found"@
    }
}

/// The text for a batch deletion that did or did not remove a task.
pub open spec fn deletion_text(deleted: bool) -> Seq<char> {
    if deleted {
        "Tasks deleted"@
    } else {
        "No tasks found"@
    }
}

/// Reports a batch completion: one text when at least one task was marked,
/// another when none was found.
pub fn completion_status(updated: bool) -> (text: &'static str)
    ensures
        text@ == completion_text(updated),
{
    if updated {
        "Tasks marked as completed"
    } else {
        "No tasks found"
    }
}

/// Reports a batch deletion: one text when at least one task was removed,
/// another when none was found.
pub fn deletion_status(deleted: bool) -> (text: &'static str)
    ensures
        text@ == deletion_text(deleted),
{
    if deleted {
        "Tasks deleted"
    } else {
        "No tasks found"
    }
}

} // verus!
