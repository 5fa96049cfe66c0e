//! Build-time command aggregation pipeline: captures a canonical interface
//! signature, validates command implementations against it, persists them as
//! fragments in a directory-backed store, and synthesizes a closed dispatch
//! type over the discovered commands.

use vstd::prelude::*;

pub mod casing;
pub mod dirstore;
pub mod meta_collect;
pub mod meta_generate;
pub mod normalize;
pub mod sig;
pub mod store;

verus! {

/// An error carrying a human-readable description of an interface problem.
#[derive(Debug)]
pub struct InvalidInterfaceError {
    pub msg: String,
}

impl InvalidInterfaceError {
    pub fn new(msg: &str) -> (r: Self)
        ensures
            r.msg@ == msg@,
    {
        InvalidInterfaceError { msg: msg.to_owned() }
    }
}

} // verus!
