use vstd::prelude::*;

verus! {

/// The failures a download can end in.
///
/// Where the cause is a value of an I/O or HTTP library, the variant keeps
/// its message, so that the library's logic deals in plain values only.
#[derive(Debug)]
pub enum LeviError {
    /// The server answered with a status outside `200..300`.
    HttpStatus(u16),
    /// The request could not be sent or its body could not be read.
    Network(String),
    /// The URL cannot name a file to download.
    Url(String),
    /// No chunk of the body arrived within the allowed time.
    TimeoutElapsed,
    /// A file on disk could not be created, read or written.
    File(String),
    /// A file that would be overwritten already exists.
    FileExists(String),
}

} // verus!
