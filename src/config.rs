//! Parts of the configuration file that name where a vault lives.
use vstd::prelude::*;

verus! {

/// The storage provider of a vault.
#[derive(Clone, Debug)]
pub struct Profile {
    pub provider: String,
}

/// The storage bucket of a vault.
#[derive(Clone, Debug)]
pub struct Bucket {
    pub name: String,
}

} // verus!
