//! The client that fetches documents. Its network work lives with the
//! program around this library; here stand its type and its error.
use vstd::prelude::*;

verus! {

/// Errors of the client itself. None is raised yet; the one variant stands
/// for a failure without a cause of its own.
#[derive(Clone, Copy, Debug, PartialEq, Eq, Structural)]
pub enum ClientError {
    Undefined,
}

pub struct Client {}

impl Client {
    pub fn new() -> (r: Self)
        ensures
            r == (Client {}),
    {
        Self {}
    }
}

} // verus!
