//! Ready-made task markers a host can attach behaviour to.

use vstd::prelude::*;

verus! {

/// A stub task that just carries a message for the host to print when the
/// task completes: useful as a placeholder while building a task set.
#[derive(Debug)]
pub struct HtnTaskDebug(pub String);

impl HtnTaskDebug {
    /// A debug task that prints `message`.
    pub fn new(message: &str) -> (r: HtnTaskDebug)
        ensures
            r.0@ == message@,
    {
        HtnTaskDebug(message.to_owned())
    }
}

} // verus!
