use vstd::prelude::*;
use crate::text::str_eq;

verus! {

/// Where a crate's repository stands in the mirroring and analysis
/// pipeline.
#[derive(Clone, Copy, Debug, PartialEq, Eq, Structural)]
pub enum RepoSyncStatus {
    Syncing,
    Succeed,
    Failed,
    Analysing,
    Analysed,
}

/// Whether a crate is a library or an application.
#[derive(Clone, Copy, Debug, PartialEq, Eq, Structural)]
pub enum CrateType {
    Lib,
    Application,
}

/// The text a status is stored as in the database.
pub open spec fn status_text(s: RepoSyncStatus) -> Seq<char> {
    match s {
        RepoSyncStatus::Syncing => "syncing"@,
        RepoSyncStatus::Succeed => "succeed"@,
        RepoSyncStatus::Failed => "failed"@,
        RepoSyncStatus::Analysing => "analysing"@,
        RepoSyncStatus::Analysed => "analysed"@,
    }
}

/// The status stored as the text, if any is.
pub open spec fn status_of_text(t: Seq<char>) -> Option<RepoSyncStatus> {
    if t == "syncing"@ {
        Some(RepoSyncStatus::Syncing)
    } else if t == "succeed"@ {
        Some(RepoSyncStatus::Succeed)
    } else if t == "failed"@ {
        Some(RepoSyncStatus::Failed)
    } else if t == "analysing"@ {
        Some(RepoSyncStatus::Analysing)
    } else if t == "analysed"@ {
        Some(RepoSyncStatus::Analysed)
    } else {
        None
    }
}

/// The text a crate type is stored as in the database.
pub open spec fn crate_type_text(c: CrateType) -> Seq<char> {
    match c {
        CrateType::Lib => "lib"@,
        CrateType::Application => "application"@,
    }
}

/// The crate type stored as the text, if any is.
pub open spec fn crate_type_of_text(t: Seq<char>) -> Option<CrateType> {
    if t == "lib"@ {
        Some(CrateType::Lib)
    } else if t == "application"@ {
        Some(CrateType::Application)
    } else {
        None
    }
}

/// A stored status reads back as the status that was stored, and a stored
/// crate type as the crate type.
pub proof fn lemma_stored_text_roundtrip(s: RepoSyncStatus, c: CrateType)
    ensures
        status_of_text(status_text(s)) == Some(s),
        crate_type_of_text(crate_type_text(c)) == Some(c),
{
    reveal_strlit("syncing");
    reveal_strlit("succeed");
    reveal_strlit("failed");
    reveal_strlit("analysing");
    reveal_strlit("analysed");
    reveal_strlit("lib");
    reveal_strlit("application");
    assert("syncing"@[1] != "succeed"@[1]);
    assert("syncing"@ != "succeed"@);
    assert("failed"@.len() == 6 && "syncing"@.len() == 7 && "succeed"@.len() == 7);
    assert("analysing"@.len() == 9 && "analysed"@.len() == 8);
    match s {
        RepoSyncStatus::Syncing => {},
        RepoSyncStatus::Succeed => {},
        RepoSyncStatus::Failed => {
            assert("failed"@ != "syncing"@);
            assert("failed"@ != "succeed"@);
        },
        RepoSyncStatus::Analysing => {
            assert("analysing"@ != "syncing"@);
            assert("analysing"@ != "succeed"@);
            assert("analysing"@ != "failed"@);
        },
        RepoSyncStatus::Analysed => {
            assert("analysed"@ != "syncing"@);
            assert("analysed"@ != "succeed"@);
            assert("analysed"@ != "failed"@);
            assert("analysed"@ != "analysing"@);
        },
    }
    assert("lib"@.len() != "application"@.len());
}

impl RepoSyncStatus {
    /// The text the status is stored as.
    pub fn db_value(&self) -> (r: &'static str)
        ensures
            r@ == status_text(*self),
    {
        match self {
            RepoSyncStatus::Syncing => "syncing",
            RepoSyncStatus::Succeed => "succeed",
            RepoSyncStatus::Failed => "failed",
            RepoSyncStatus::Analysing => "analysing",
            RepoSyncStatus::Analysed => "analysed",
        }
    }

    /// The status a stored text stands for, if any.
    pub fn from_db_value(t: &str) -> (r: Option<RepoSyncStatus>)
        ensures
            r == status_of_text(t@),
    {
        if str_eq(t, "syncing") {
            Some(RepoSyncStatus::Syncing)
        } else if str_eq(t, "succeed") {
            Some(RepoSyncStatus::Succeed)
        } else if str_eq(t, "failed") {
            Some(RepoSyncStatus::Failed)
        } else if str_eq(t, "analysing") {
            Some(RepoSyncStatus::Analysing)
        } else if str_eq(t, "analysed") {
            Some(RepoSyncStatus::Analysed)
        } else {
            None
        }
    }
}

impl CrateType {
    /// The text the crate type is stored as.
    pub fn db_value(&self) -> (r: &'static str)
        ensures
            r@ == crate_type_text(*self),
    {
        match self {
            CrateType::Lib => "lib",
            CrateType::Application => "application",
        }
    }

    /// The crate type a stored text stands for, if any.
    pub fn from_db_value(t: &str) -> (r: Option<CrateType>)
        ensures
            r == crate_type_of_text(t@),
    {
        if str_eq(t, "lib") {
            Some(CrateType::Lib)
        } else if str_eq(t, "application") {
            Some(CrateType::Application)
        } else {
            None
        }
    }
}

/// What a crate's sync record becomes once its repository was pushed to
/// the mono repository.
pub struct SyncUpdate {
    pub mega_url: String,
    pub status: RepoSyncStatus,
    pub err_message: Option<String>,
}

/// Whether a crate still has to be mirrored: not once it succeeded.
pub fn needs_sync(status: RepoSyncStatus) -> (r: bool)
    ensures
        r <==> status != RepoSyncStatus::Succeed,
{
    status != RepoSyncStatus::Succeed
}

/// The sync record after a push: the mono path, `Succeed` with no error
/// when the push succeeded, else `Failed` with what the push printed on
/// standard error.
pub fn after_push(mega_path: String, pushed: bool, stderr: String) -> (r: SyncUpdate)
    ensures
        r.mega_url@ == mega_path@,
        pushed ==> r.status == RepoSyncStatus::Succeed && r.err_message is None,
        !pushed ==> r.status == RepoSyncStatus::Failed && r.err_message == Some(stderr),
{
    if pushed {
        SyncUpdate { mega_url: mega_path, status: RepoSyncStatus::Succeed, err_message: None }
    } else {
        SyncUpdate { mega_url: mega_path, status: RepoSyncStatus::Failed, err_message: Some(stderr) }
    }
}

} // verus!
