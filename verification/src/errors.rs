//! The errors that operations on an archive report.

use crate::bandid::BandId;
use vstd::prelude::*;

verus! {

/// Why an operation on an archive failed.
///
/// Errors that only the storage layer can raise carry the storage layer's
/// own description as `cause`.
#[derive(Debug, PartialEq, Eq)]
pub enum Error {
    /// The directory holds no archive header.
    NotAnArchive { path: String },
    /// The archive was written in a format that this engine does not read.
    UnsupportedArchiveVersion { version: String },
    /// The directory for a new archive could not be made.
    CreateArchiveDirectory { path: String, cause: String },
    /// A file's metadata could not be read.
    ReadMetadata { path: String, cause: String },
    /// The bands of the archive could not be listed.
    ListBands { path: String, cause: String },
    /// The archive holds no band of this id.
    BandNotFound { id: BandId },
    /// The band was never closed, or is closed already where an open one is
    /// needed.
    BandIncomplete { id: BandId },
    /// No block of this name is stored.
    BlockMissing { hash: String },
    /// The stored block does not hold the content that its name promises.
    BlockCorrupt { hash: String },
    /// A hunk of a band's index is unreadable or out of order.
    IndexCorrupt { band: BandId, hunk: u32 },
    /// The text is not a well-formed archive path.
    InvalidApath { s: String },
    /// A record could not be written as JSON.
    SerializeJson { cause: String },
    /// A record could not be read as JSON.
    DeserializeJson { cause: String },
    /// The storage layer failed.
    TransportError { cause: String },
    /// Something of this name is already there.
    AlreadyExists { path: String },
    /// The operation was cancelled before it finished.
    Cancelled,
    /// The archive holds no band at all.
    ArchiveEmpty,
    /// The data is too long to be stored as one block.
    BlockTooLarge,
    /// No band id is left for another band.
    TooManyBands,
}

/// `prefix` followed by `detail`.
fn describe(prefix: &str, detail: &str) -> (s: String)
    ensures
        s@ == prefix@ + detail@,
{
    let mut s = prefix.to_owned();
    s.append(detail);
    s
}

impl Error {
    /// What the error says, in words.
    pub fn message(&self) -> (s: String)
        ensures
            match self {
                Error::NotAnArchive { path } => s@ == "Not a Conserve archive: "@ + path@,
                Error::UnsupportedArchiveVersion { version } => s@
                    == "Unsupported archive version: "@ + version@,
                Error::CreateArchiveDirectory { path, cause } => s@
                    == "Failed to create archive directory: "@ + path@,
                Error::ReadMetadata { path, cause } => s@ == "Failed to read metadata file: "@
                    + path@,
                Error::ListBands { path, cause } => s@ == "Failed to list bands in: "@ + path@,
                Error::BandNotFound { id } => s@ == "Band not found: "@ + crate::bandid::band_text(
                    id@,
                ),
                Error::BandIncomplete { id } => s@ == "Band is not complete: "@
                    + crate::bandid::band_text(id@),
                Error::BlockMissing { hash } => s@ == "Block file missing: "@ + hash@,
                Error::BlockCorrupt { hash } => s@ == "Block file corrupt: "@ + hash@,
                Error::IndexCorrupt { band, hunk } => s@ == "Index is corrupt in band: "@
                    + crate::bandid::band_text(band@),
                Error::InvalidApath { s: text } => s@ == "Invalid apath: "@ + text@,
                Error::SerializeJson { cause } => s@ == "Failed to serialize JSON: "@ + cause@,
                Error::DeserializeJson { cause } => s@ == "Failed to deserialize JSON: "@ + cause@,
                Error::TransportError { cause } => s@ == "Transport error: "@ + cause@,
                Error::AlreadyExists { path } => s@ == "Already exists: "@ + path@,
                Error::Cancelled => s@ == "Cancelled"@,
                Error::ArchiveEmpty => s@ == "Archive is empty"@,
                Error::BlockTooLarge => s@ == "Block is too large"@,
                Error::TooManyBands => s@ == "No band id is left"@,
            },
    {
        match self {
            Error::NotAnArchive { path } => describe("Not a Conserve archive: ", path.as_str()),
            Error::UnsupportedArchiveVersion { version } => describe(
                "Unsupported archive version: ",
                version.as_str(),
            ),
            Error::CreateArchiveDirectory { path, cause } => describe(
                "Failed to create archive directory: ",
                path.as_str(),
            ),
            Error::ReadMetadata { path, cause } => describe(
                "Failed to read metadata file: ",
                path.as_str(),
            ),
            Error::ListBands { path, cause } => describe(
                "Failed to list bands in: ",
                path.as_str(),
            ),
            Error::BandNotFound { id } => describe("Band not found: ", id.to_string().as_str()),
            Error::BandIncomplete { id } => describe(
                "Band is not complete: ",
                id.to_string().as_str(),
            ),
            Error::BlockMissing { hash } => describe("Block file missing: ", hash.as_str()),
            Error::BlockCorrupt { hash } => describe("Block file corrupt: ", hash.as_str()),
            Error::IndexCorrupt { band, hunk } => describe(
                "Index is corrupt in band: ",
                band.to_string().as_str(),
            ),
            Error::InvalidApath { s } => describe("Invalid apath: ", s.as_str()),
            Error::SerializeJson { cause } => describe(
                "Failed to serialize JSON: ",
                cause.as_str(),
            ),
            Error::DeserializeJson { cause } => describe(
                "Failed to deserialize JSON: ",
                cause.as_str(),
            ),
            Error::TransportError { cause } => describe("Transport error: ", cause.as_str()),
            Error::AlreadyExists { path } => describe("Already exists: ", path.as_str()),
            Error::Cancelled => "Cancelled".to_owned(),
            Error::ArchiveEmpty => "Archive is empty".to_owned(),
            Error::BlockTooLarge => "Block is too large".to_owned(),
            Error::TooManyBands => "No band id is left".to_owned(),
        }
    }
}

} // verus!
