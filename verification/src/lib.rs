//! On-device APK mutation and downgrade pipeline, modelled over in-memory
//! stores: checksum-gated binary patching, bounded-retry diff fetching,
//! asset-bundle backup/restore, manifest rewriting, provenance tagging and
//! container re-signing.
use vstd::prelude::*;

pub mod bytes;
pub mod downgrade;
pub mod manifest;
pub mod patching;
pub mod storage;
pub mod tag;
pub mod zip;

verus! {

/// Failure taxonomy of the pipeline. Input-integrity failures (bad payloads,
/// checksum mismatches, malformed manifests) are kept distinct from transient
/// fetch failures and from missing files, so a caller can tell a corrupted
/// download from a tampered or unexpected install.
#[derive(Clone, Copy, Debug, PartialEq, Eq, Structural)]
pub enum MbfError {
    /// The diff payload was not present in the download directory.
    DiffMissing,
    /// The diff payload is not a well-formed binary patch.
    DiffMalformed,
    /// The file to be patched was not found.
    SourceMissing,
    /// The pre-patch file does not have the checksum the diff expects:
    /// the installation differs from the expected base state.
    CrcMismatch { actual: u32, expected: u32 },
    /// The patch could not be applied to the source.
    PatchFailed,
    /// The container holds no manifest entry.
    NoManifest,
    /// The manifest entry could not be decoded.
    ManifestMalformed,
    /// A symbolic resource name has no known numeric id.
    UnknownResource,
}

} // verus!
