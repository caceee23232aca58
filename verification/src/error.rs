use vstd::prelude::*;

verus! {

/// Why a dataset could not be loaded.
#[derive(Clone, Copy, Debug, PartialEq, Eq, Structural)]
pub enum LoadError {
    /// The file that the locator names could not be read.
    UnreadableFile,
    /// The locator is neither `file://`, `http://` nor `https://`.
    UnsupportedScheme,
    /// The server answered with a status other than success, and no
    /// fallback file could be read.
    StatusAndNoFallback,
    /// The request did not get through, or its body could not be read, and
    /// no fallback file could be read.
    TransportAndNoFallback,
    /// The bytes are not a gzip stream of text.
    Decompress,
}

impl LoadError {
    /// The text of the message that belongs to the error.
    pub open spec fn message_text(self) -> Seq<char> {
        match self {
            LoadError::UnreadableFile => "Unable to read the database"@,
            LoadError::UnsupportedScheme => "Unsupported URL scheme"@,
            LoadError::StatusAndNoFallback => "Unable to load the database and no fallback data available"@,
            LoadError::TransportAndNoFallback => "Failed to load database from URL and all fallback sources"@,
            LoadError::Decompress => "Unable to decompress the database"@,
        }
    }

    /// The message that belongs to the error.
    pub fn message(&self) -> (text: &'static str)
        ensures
            text@ == self.message_text(),
    {
        match self {
            LoadError::UnreadableFile => "Unable to read the database",
            LoadError::UnsupportedScheme => "Unsupported URL scheme",
            LoadError::StatusAndNoFallback => "Unable to load the database and no fallback data available",
            LoadError::TransportAndNoFallback => "Failed to load database from URL and all fallback sources",
            LoadError::Decompress => "Unable to decompress the database",
        }
    }
}

} // verus!
