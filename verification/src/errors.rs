//! Errors reported to callers of the engine's commands.

use vstd::prelude::*;

verus! {

/// A command-level failure carrying a human-readable message.
#[derive(Debug)]
pub struct CacheError {
    pub msg: String,
}

impl CacheError {
    pub fn new(msg: String) -> (r: Self)
        ensures
            r.msg == msg,
    {
        Self { msg }
    }
}

impl From<String> for CacheError {
    fn from(e: String) -> (r: Self) {
        CacheError { msg: e }
    }
}

impl vstd::std_specs::convert::FromSpecImpl<String> for CacheError {
    open spec fn obeys_from_spec() -> bool {
        true
    }

    open spec fn from_spec(e: String) -> Self {
        CacheError { msg: e }
    }
}

} // verus!
