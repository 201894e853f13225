use vstd::prelude::*;

verus! {

/// Failures of the renderer, each with a stable exit code.
#[derive(Debug)]
pub enum Error {
    /// Bad page range syntax, out-of-bound pages or an unsupported option.
    InvalidArgs(String),
    /// The document could not be opened or holds no pages.
    PdfInvalid(String),
    /// The rendering engine could not be loaded.
    PdfiumNotFound(String),
    /// One or more pages or workers failed.
    Render(String),
    /// A filesystem or subprocess failure, with its message.
    Io(String),
}

/// The process exit code that belongs to each kind of failure.
pub open spec fn exit_code_of(e: Error) -> u8 {
    match e {
        Error::InvalidArgs(_) => 1,
        Error::PdfInvalid(_) => 2,
        Error::PdfiumNotFound(_) => 3,
        Error::Render(_) => 4,
        Error::Io(_) => 5,
    }
}

impl Error {
    /// The exit code a process should end with after this failure.
    pub fn exit_code(&self) -> (r: u8)
        ensures
            r == exit_code_of(*self),
            1 <= r <= 5,
    {
        match self {
            Error::InvalidArgs(_) => 1,
            Error::PdfInvalid(_) => 2,
            Error::PdfiumNotFound(_) => 3,
            Error::Render(_) => 4,
            Error::Io(_) => 5,
        }
    }
}

} // verus!
