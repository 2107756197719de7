//! The replicated state machine that committed commands are applied to.
use vstd::prelude::*;

verus! {

/// A state machine that applies the commands of committed log entries.
pub trait StateMachine: Send {
    fn apply_command(&self, cmd: Vec<u8>);
}

} // verus!
