use vstd::prelude::*;

verus! {

/// What can go wrong when querying a dependency graph.
#[derive(Clone, Copy, Debug, PartialEq, Eq, Structural)]
pub enum SolventError {
    /// A node was reached twice on one resolution path.
    CycleDetected,
    /// The operation referred to a node that was never registered.
    NoSuchNode,
}

impl SolventError {
    /// The text that describes the error.
    pub open spec fn message_spec(&self) -> Seq<char> {
        match self {
            SolventError::CycleDetected => "Cycle Detected"@,
            SolventError::NoSuchNode => "No Such Node"@,
        }
    }

    /// The text that describes the error.
    pub fn message(&self) -> (r: String)
        ensures
            r@ == self.message_spec(),
    {
        match self {
            SolventError::CycleDetected => "Cycle Detected".to_owned(),
            SolventError::NoSuchNode => "No Such Node".to_owned(),
        }
    }
}

} // verus!
