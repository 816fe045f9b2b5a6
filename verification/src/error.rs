//! The error type shared by every fallible operation of the library.

use vstd::prelude::*;

verus! {

/// What went wrong, by kind. Each variant carries a short description or,
/// for a size mismatch, the two lengths that disagreed.
#[derive(Debug)]
pub enum Error {
    /// A file operation failed (reported by the caller that did the I/O).
    Io(String),
    /// The executable image or the stored metadata could not be parsed.
    Parse(String),
    /// An encryption or decryption step failed (reserved; not produced today).
    Crypto(String),
    /// The configuration is unusable: capacity exceeded, metadata too large,
    /// or a stored length beyond the capacity.
    Config(String),
    /// A required section is absent from the executable image.
    SectionNotFound(String),
    /// A data slot is smaller than the shard it must hold.
    SizeMismatch { expected: usize, actual: usize },
}

impl Error {
    /// A short, fixed description of the error's kind.
    pub fn describe(&self) -> (r: &'static str)
        ensures
            r@.len() > 0,
    {
        proof {
            reveal_strlit("i/o failure");
            reveal_strlit("parse failure");
            reveal_strlit("crypto failure");
            reveal_strlit("configuration error");
            reveal_strlit("section not found");
            reveal_strlit("section size mismatch");
        }
        match self {
            Error::Io(_) => "i/o failure",
            Error::Parse(_) => "parse failure",
            Error::Crypto(_) => "crypto failure",
            Error::Config(_) => "configuration error",
            Error::SectionNotFound(_) => "section not found",
            Error::SizeMismatch { .. } => "section size mismatch",
        }
    }
}

} // verus!
