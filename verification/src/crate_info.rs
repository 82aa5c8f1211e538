use vstd::prelude::*;

verus! {

/// The date a crate version was released on.
#[verifier::external_type_specification]
#[verifier::external_body]
pub struct ExNaiveDate(chrono::NaiveDate);

/// What is known of a crate: name, current version, description, links to
/// its documentation and repository, its license and how many dependencies
/// it has.
pub struct CrateInfo {
    pub name: String,
    pub version: String,
    pub description: Option<String>,
    pub documentation_url: Option<String>,
    pub repository_url: Option<String>,
    pub license: Option<String>,
    pub dependencies_count: usize,
}

impl CrateInfo {
    /// A crate's information from its parts.
    pub fn new(
        name: String,
        version: String,
        description: Option<String>,
        documentation_url: Option<String>,
        repository_url: Option<String>,
        license: Option<String>,
        dependencies_count: usize,
    ) -> (r: Self)
        ensures
            r.name == name,
            r.version == version,
            r.description == description,
            r.documentation_url == documentation_url,
            r.repository_url == repository_url,
            r.license == license,
            r.dependencies_count == dependencies_count,
    {
        CrateInfo {
            name,
            version,
            description,
            documentation_url,
            repository_url,
            license,
            dependencies_count,
        }
    }
}

/// One released version of a crate: its version text, release date and an
/// optional description.
pub struct CrateVersion {
    pub version: String,
    pub release_date: chrono::NaiveDate,
    pub description: Option<String>,
}

impl CrateVersion {
    /// A released version from its parts.
    pub fn new(version: String, release_date: chrono::NaiveDate, description: Option<String>) -> (r:
        Self)
        ensures
            r.version == version,
            r.release_date == release_date,
            r.description == description,
    {
        CrateVersion { version, release_date, description }
    }
}

} // verus!
