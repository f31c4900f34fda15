//! The job-control engine of an interactive shell: the state and decisions
//! that turn a command line into tracked process groups, arbitrate terminal
//! ownership between the shell and its children, and reconcile asynchronous
//! child-state changes with a user-visible job table.
//!
//! The library holds no process, signal or terminal handles itself: every
//! transition takes plain values (a line of text, a pid, a wait status) and
//! returns the next state together with the actions its caller must perform
//! (spawn, transfer the terminal, signal a group, reply to the controller).
//! The caller runs the loop; the decisions are verified here.

use vstd::prelude::*;

pub mod history;
pub mod jobs;
pub mod laws;
pub mod numparse;
pub mod parse;
pub mod worker;

verus! {

/// A reply sent back to the shell controller after a command settles:
/// either resume reading input (carrying the last exit status) or
/// terminate the shell with the given exit code.
#[derive(Clone, Copy, PartialEq, Eq, Structural, Debug)]
pub enum Reply {
    Continue(i32),
    Quit(i32),
}

} // verus!
