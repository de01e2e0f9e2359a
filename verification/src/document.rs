//! The versioned `.unplot` document format: its schema version, file extension,
//! provenance metadata, and the rule that decides whether a stored schema
//! version can be read by this build.

use vstd::prelude::*;

verus! {

/// Current on-disk schema version. Bump it when the stored shape changes;
/// documents with a newer version are refused.
pub const SCHEMA_VERSION: u32 = 1;

/// The file extension for a saved curve (JSON inside), distinct so the OS and
/// the open dialog can recognize an unplot document.
pub const FILE_EXTENSION: &'static str = "unplot";

/// Provenance metadata. Extensible: new optional fields keep older files
/// loadable.
pub struct Metadata {
    /// The unplot build that wrote the file, for diagnosing cross-version issues.
    pub app_version: String,
}

impl Metadata {
    /// The metadata this build writes into a new document: its own version.
    pub fn for_this_build() -> (m: Metadata)
        ensures
            m.app_version@ == "0.1.0"@,
    {
        proof {
            reveal_strlit("0.1.0");
        }
        Metadata { app_version: String::from_str(crate::engine_version()) }
    }
}

/// Whether a document stored at `schema_version` can be read by this build:
/// `Ok` for the current or an older schema (the place where older shapes are
/// migrated forward), `Err` carrying the version when it is newer than this
/// build understands.
pub fn check_schema_version(schema_version: u32) -> (r: Result<(), u32>)
    ensures
        r is Ok <==> schema_version <= SCHEMA_VERSION,
        r is Err ==> r == Err::<(), u32>(schema_version),
{
    if schema_version > SCHEMA_VERSION {
        Err(schema_version)
    } else {
        Ok(())
    }
}

} // verus!
