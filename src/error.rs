use vstd::prelude::*;

verus! {

/// The kinds of failure that the engines report.
#[derive(Debug, Clone, Copy, PartialEq, Eq, Structural)]
pub enum ErrorKind {
    InvalidKeyLength,
    InvalidRadix,
    UnsupportedTextBounds,
    InvalidTweakBounds,
    InvalidTweakLength,
    InvalidTextLength,
    InvalidCharacter,
    AlphabetTooShort,
    DuplicateAlphabet,
    LengthMisalignment,
}

/// An error, tagged with its kind.
#[derive(Debug, Clone, Copy, PartialEq, Eq, Structural)]
pub struct Error {
    pub kind: ErrorKind,
}

pub type Result<T> = core::result::Result<T, Error>;

impl Error {
    pub fn new(kind: ErrorKind) -> (e: Error)
        ensures
            e.kind == kind,
    {
        Error { kind }
    }

    /// A human-readable description of the error.
    pub fn why(&self) -> (r: &'static str) {
        match self.kind {
            ErrorKind::InvalidKeyLength => "invalid key length",
            ErrorKind::InvalidRadix => "invalid radix",
            ErrorKind::UnsupportedTextBounds => "unsupported radix/maximum text length",
            ErrorKind::InvalidTweakBounds => "minimum tweak length must be less than maximum",
            ErrorKind::InvalidTweakLength => "invalid tweak length",
            ErrorKind::InvalidTextLength => "invalid text length",
            ErrorKind::InvalidCharacter => "invalid character encountered",
            ErrorKind::AlphabetTooShort => "not enough letters in alphabet",
            ErrorKind::DuplicateAlphabet => "duplicate letter(s) in alphabet",
            ErrorKind::LengthMisalignment => "source length is not a multiple of block size",
        }
    }
}

} // verus!
