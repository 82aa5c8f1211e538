use vstd::prelude::*;

verus! {

/// A crate version: the crate's name and the version text.
pub struct Version {
    pub name: String,
    pub version: String,
}

impl Version {
    /// The version `version` of the crate `name`.
    pub fn new(name: &str, version: &str) -> (r: Self)
        ensures
            r.name@ == name@,
            r.version@ == version@,
    {
        Version { name: name.to_owned(), version: version.to_owned() }
    }
}

} // verus!
