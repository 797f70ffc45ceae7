use vstd::prelude::*;

verus! {

/// One HTTP request method, as far as the routing table distinguishes them.
///
/// A path's resource maps each method registered at that path to its own
/// handler; an unregistered method at a matched path is simply absent.
#[derive(Clone, Copy, PartialEq, Eq, Structural, Debug)]
pub enum Method {
    Get,
    Post,
    Put,
    Delete,
    Patch,
    Head,
    Options,
}

} // verus!
