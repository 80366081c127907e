use vstd::prelude::*;

verus! {

/// Why a construction was refused.
#[derive(Clone, Copy, Debug, PartialEq, Eq, Structural)]
pub enum Error {
    /// The universe of features is empty.
    InvalidUniverse,
    /// A sequence handed over as sorted has two neighbours that do not increase.
    InvalidInput,
    /// The lower end of an n-gram range lies above its upper end.
    InvalidRange,
}

impl Error {
    /// A short sentence for the user.
    pub fn message(&self) -> (text: &'static str)
        ensures
            text@ == match *self {
                Error::InvalidUniverse => "Invalid universe."@,
                Error::InvalidInput => "The input must be sorted and unique."@,
                Error::InvalidRange => "Invalid ngram range."@,
            },
    {
        match self {
            Error::InvalidUniverse => "Invalid universe.",
            Error::InvalidInput => "The input must be sorted and unique.",
            Error::InvalidRange => "Invalid ngram range.",
        }
    }
}

} // verus!
