use vstd::prelude::*;

verus! {

/// What can go wrong while a gallery is built or served.
#[derive(Clone, Copy, Debug, PartialEq, Eq, Structural)]
pub enum GalleryError {
    /// The source directory is missing, is no directory, or its path is empty.
    InvalidSourceDirectory,
    /// The destination sub-path does not form a valid URL path.
    InvalidDestinationPath,
    /// A file name holds no number right before its extension.
    UnparsableFilename,
    /// Reading or writing the source directory, an image or the document failed.
    StorageFailure,
    /// Listening for clients or talking to one failed.
    NetworkFailure,
}

impl GalleryError {
    /// The message shown when the error ends the run.
    pub fn message(&self) -> (res: &'static str)
        ensures
            res@ == self.spec_message(),
    {
        match self {
            GalleryError::InvalidSourceDirectory => "the source directory is missing or not a directory",
            GalleryError::InvalidDestinationPath => "the destination is not a valid URL path",
            GalleryError::UnparsableFilename => "a file name holds no number before its extension",
            GalleryError::StorageFailure => "a file could not be read or written",
            GalleryError::NetworkFailure => "the network could not be used",
        }
    }

    pub open spec fn spec_message(&self) -> Seq<char> {
        match self {
            GalleryError::InvalidSourceDirectory => "the source directory is missing or not a directory"@,
            GalleryError::InvalidDestinationPath => "the destination is not a valid URL path"@,
            GalleryError::UnparsableFilename => "a file name holds no number before its extension"@,
            GalleryError::StorageFailure => "a file could not be read or written"@,
            GalleryError::NetworkFailure => "the network could not be used"@,
        }
    }
}

} // verus!
