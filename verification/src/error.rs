//! The failures that the library reports.

use vstd::prelude::*;

verus! {

/// A failure of one of the library's operations.
///
/// The variants that stand for a failure of the file system or of a codec carry
/// the description of the underlying cause.
#[derive(Debug, Clone, PartialEq, Eq)]
pub enum OngakuError {
    /// A library file is already present where a new one was to be created.
    AlreadyInitialized,
    /// No library file is present.
    NotInitialized,
    /// The stored bytes do not hold a library that this version can read.
    PbDecodingError(String),
    /// The library could not be put into its stored form.
    PbEncodingError(String),
    /// The library file could not be read or written.
    DatabaseReadWriteError(String),
    /// The extraction tool failed; the payload is what it reported.
    YtdlpError(String),
    /// A record of the extraction tool could not be read.
    JsonExtractError(String),
    /// The URL is of no kind that can be added to the library.
    UnsupportedUrl(String),
    /// The library already holds the collection of this name.
    AlreadyInLibrary(String),
}

impl OngakuError {
    /// The line shown to the user for this failure.
    pub open spec fn text(&self) -> Seq<char> {
        match self {
            OngakuError::AlreadyInitialized =>
                "Ongaku has already been initialized in this directory."@,
            OngakuError::NotInitialized =>
                "Ongaku has not yet been initialized in this directory."@,
            OngakuError::PbDecodingError(_) => "Failed to decode database."@,
            OngakuError::PbEncodingError(_) => "Failed to decode database."@,
            OngakuError::DatabaseReadWriteError(_) => "Failed to read/write database."@,
            OngakuError::YtdlpError(detail) => "yt-dlp error: "@ + detail@,
            OngakuError::JsonExtractError(_) => "failed to parse json response"@,
            OngakuError::UnsupportedUrl(url) => "unsuported url type: "@ + url@,
            OngakuError::AlreadyInLibrary(name) => name@ + " is already in library"@,
        }
    }

    /// The description of the underlying cause, where the failure has one.
    pub open spec fn cause(&self) -> Option<Seq<char>> {
        match self {
            OngakuError::PbDecodingError(cause) => Some(cause@),
            OngakuError::PbEncodingError(cause) => Some(cause@),
            OngakuError::DatabaseReadWriteError(cause) => Some(cause@),
            OngakuError::JsonExtractError(cause) => Some(cause@),
            _ => None,
        }
    }

    /// Renders the line shown to the user for this failure.
    pub fn message(&self) -> (line: String)
        ensures
            line@ == self.text(),
    {
        match self {
            OngakuError::AlreadyInitialized => String::from_str(
                "Ongaku has already been initialized in this directory.",
            ),
            OngakuError::NotInitialized => String::from_str(
                "Ongaku has not yet been initialized in this directory.",
            ),
            OngakuError::PbDecodingError(_) => String::from_str("Failed to decode database."),
            OngakuError::PbEncodingError(_) => String::from_str("Failed to decode database."),
            OngakuError::DatabaseReadWriteError(_) => String::from_str(
                "Failed to read/write database.",
            ),
            OngakuError::YtdlpError(detail) => String::from_str("yt-dlp error: ").concat(
                detail.as_str(),
            ),
            OngakuError::JsonExtractError(_) => String::from_str("failed to parse json response"),
            OngakuError::UnsupportedUrl(url) => String::from_str("unsuported url type: ").concat(
                url.as_str(),
            ),
            OngakuError::AlreadyInLibrary(name) => name.clone().concat(" is already in library"),
        }
    }

    /// The description of the underlying cause, where the failure has one.
    pub fn source(&self) -> (cause: Option<String>)
        ensures
            cause is Some == self.cause() is Some,
            cause matches Some(text) ==> self.cause() == Some(text@),
    {
        match self {
            OngakuError::PbDecodingError(cause) => Some(cause.clone()),
            OngakuError::PbEncodingError(cause) => Some(cause.clone()),
            OngakuError::DatabaseReadWriteError(cause) => Some(cause.clone()),
            OngakuError::JsonExtractError(cause) => Some(cause.clone()),
            _ => None,
        }
    }
}

} // verus!
