use vstd::prelude::*;

verus! {

/// A crate version as the graph plugins exchange it.
pub struct Version {
    pub name: String,
    pub version: String,
}

} // verus!
