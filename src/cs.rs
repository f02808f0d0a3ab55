//! The reconciliation protocol: an authoritative server with a linear
//! history, and a client state machine that rebases local edits on it.
use vstd::prelude::*;
use crate::Operation;

pub mod server;
pub mod client;

verus! {

/// The number of a committed state: its index in the server's history.
#[derive(Clone, Copy, Debug, PartialEq, Eq, Structural, Hash, PartialOrd, Ord)]
pub struct Id(pub usize);

/// A committed state: the edit `diff` that made `content` out of the state
/// `parent`.
pub struct State<O: Operation> {
    pub parent: Id,
    pub id: Id,
    pub diff: O,
    pub content: O::Target,
}

impl<O: Operation> State<O> {
    /// A copy of this state.
    pub fn copy(&self) -> (r: State<O>)
        requires
            self.diff.op_valid(),
        ensures
            r.parent == self.parent,
            r.id == self.id,
            r.diff.op_valid(),
            r.diff.op_model() == self.diff.op_model(),
            O::target_model(&r.content) == O::target_model(&self.content),
    {
        State { parent: self.parent, id: self.id, diff: self.diff.copy_op(), content: O::copy_target(&self.content) }
    }
}

} // verus!
