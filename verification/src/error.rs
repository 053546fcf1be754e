use vstd::prelude::*;

verus! {

/// What can go wrong while an object of the media server is set up.
#[derive(Clone, Copy, Debug, PartialEq, Eq, Structural)]
pub enum Error {
    CreationFailed,
    NoMemory,
    WrongProxyType,
}

impl Error {
    /// The text that describes this error to a reader.
    pub open spec fn text(self) -> Seq<char> {
        match self {
            Error::CreationFailed => "Creation failed"@,
            Error::NoMemory => "No memory"@,
            Error::WrongProxyType => "Wrong proxy type"@,
        }
    }

    /// Returns the text that describes this error.
    pub fn message(&self) -> (s: &'static str)
        ensures
            s@ == self.text(),
    {
        match self {
            Error::CreationFailed => "Creation failed",
            Error::NoMemory => "No memory",
            Error::WrongProxyType => "Wrong proxy type",
        }
    }
}

/// Why a member could not be taken out of its ring.
#[derive(Clone, Copy, Debug, PartialEq, Eq, Structural)]
pub enum ListError {
    /// The handle names no slot, or the slot's neighbours do not point back
    /// at it.
    NotLinked,
}

} // verus!
