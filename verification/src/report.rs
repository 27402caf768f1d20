//! The lines that a run prints, and when a link is reported as dead.

use vstd::prelude::*;
use vstd::string::StringExecFns;

verus! {

/// What stands before the address in the report of a dead link.
pub open spec fn dead_link_prefix() -> Seq<char> {
    "--- Dead link : "@
}

/// The line that reports `link` as dead: the prefix and the address as it
/// was found, unchanged.
pub open spec fn dead_link_text(link: Seq<char>) -> Seq<char> {
    dead_link_prefix() + link
}

/// The line that announces the check of the file at `path`.
pub open spec fn checking_text(path: Seq<char>) -> Seq<char> {
    "checking "@ + path + " .."@
}

/// The line that says that the file at `path` could not be read, and why.
pub open spec fn unreadable_text(path: Seq<char>, reason: Seq<char>) -> Seq<char> {
    "Can't read file "@ + path + " (beacuse "@ + reason + ")"@
}

/// The line that reports `link` as dead.
pub fn dead_link_line(link: &str) -> (line: String)
    ensures
        line@ == dead_link_text(link@),
{
    let mut line = String::from_str("--- Dead link : ");
    line.append(link);
    line
}

/// Judges a link by the outcome of the request for it. A link whose request
/// failed is dead and gets its line; for a link whose request was answered,
/// whatever the answer, there is nothing to print.
pub fn check_link_validity(link: &str, request_failed: bool) -> (report: Option<String>)
    ensures
        request_failed ==> report is Some && report->0@ == dead_link_text(link@),
        !request_failed ==> report is None,
{
    if request_failed {
        Some(dead_link_line(link))
    } else {
        None
    }
}

/// The line that announces the check of the file at `path`.
pub fn checking_line(path: &str) -> (line: String)
    ensures
        line@ == checking_text(path@),
{
    let mut line = String::from_str("checking ");
    line.append(path);
    line.append(" ..");
    line
}

/// The line that says that the file at `path` could not be read, and why.
pub fn unreadable_line(path: &str, reason: &str) -> (line: String)
    ensures
        line@ == unreadable_text(path@, reason@),
{
    let mut line = String::from_str("Can't read file ");
    line.append(path);
    line.append(" (beacuse ");
    line.append(reason);
    line.append(")");
    line
}

} // verus!
