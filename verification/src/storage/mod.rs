pub mod config;
pub mod encryption;
pub mod local;
pub mod retention;

use encryption::{lemma_plaintext_size_of_sealed, sealed_size, spec_plaintext_size};
use retention::{lemma_payload_size_of_stored, payload_size, HEADER_V1_SIZE};
use std::time::SystemTime;
use vstd::prelude::*;

verus! {

#[verifier::external_type_specification]
#[verifier::external_body]
pub struct ExSystemTime(SystemTime);

/// `SystemTime` is a plain `Copy` value: cloning it gives the same instant.
pub assume_specification[ <SystemTime as Clone>::clone ](t: &SystemTime) -> (r: SystemTime)
    ensures
        r == *t,
;

/// Size and modification time of a stored file, as a storage layer reports it.
#[derive(Debug, Clone)]
pub struct FileMetadata {
    pub size: u64,
    pub modified: SystemTime,
}

/// Modification time of a directory.
#[derive(Debug, Clone)]
pub struct DirMetadata {
    pub modified: SystemTime,
}

/// One entry of a directory listing.
#[derive(Debug, Clone)]
#[allow(inconsistent_fields)]
pub enum Resource {
    File { path: String, metadata: FileMetadata },
    Directory { path: String, metadata: DirMetadata },
}

impl Resource {
    pub open spec fn path_view(&self) -> Seq<char> {
        match self {
            Resource::File { path, .. } => path@,
            Resource::Directory { path, .. } => path@,
        }
    }

    /// The entry's path, relative to the storage root.
    pub fn path(&self) -> (p: &str)
        ensures
            p@ == self.path_view(),
    {
        match self {
            Resource::File { path, .. } => path.as_str(),
            Resource::Directory { path, .. } => path.as_str(),
        }
    }
}

/// With the encrypting layer over the retaining one, the size reported for
/// a stored object is the size of the content that was put: the retaining
/// layer takes off its header, the encrypting layer the nonce and tags.
pub proof fn lemma_stacked_layers_report_content_size(n: nat)
    requires
        sealed_size(n as int) + HEADER_V1_SIZE <= u64::MAX,
    ensures
        spec_plaintext_size(
            payload_size((sealed_size(n as int) + HEADER_V1_SIZE) as u64) as int,
        ) == n,
{
    lemma_payload_size_of_stored(sealed_size(n as int) as u64);
    lemma_plaintext_size_of_sealed(n);
}

} // verus!
