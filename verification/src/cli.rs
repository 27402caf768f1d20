//! The command line: one argument, the directory to check.

use vstd::prelude::*;
use vstd::string::StringExecFns;

verus! {

/// What the command line asks for.
#[derive(Debug)]
pub struct Args {
    /// Directory in which the check will be done
    pub target_dir: String,
}

/// The line that says how the program is called.
pub open spec fn usage_text() -> Seq<char> {
    "Usage: link-checker dir-path"@
}

/// The line that says how the program is called.
pub fn usage_line() -> (line: String)
    ensures
        line@ == usage_text(),
{
    String::from_str("Usage: link-checker dir-path")
}

impl Args {
    /// Reads the words of a command line, the program's name first. There
    /// has to be exactly one word more, the directory; with fewer or more
    /// there are no arguments to go by.
    pub fn from_command_line(words: &Vec<String>) -> (args: Option<Args>)
        ensures
            words@.len() == 2 ==> args is Some && args->0.target_dir@ == words@[1]@,
            words@.len() != 2 ==> args is None,
    {
        if words.len() == 2 {
            Some(Args { target_dir: words[1].clone() })
        } else {
            None
        }
    }
}

} // verus!
