use vstd::prelude::*;

verus! {

/// The error taxonomy of the library.  Rejection of an input is not an
/// error; it is a normal [`crate::outcome::EarleyOutcome`] variant.
#[derive(PartialEq, Eq, Debug, Clone, Hash)]
pub enum Error {
    /// The grammar is malformed: its text does not parse (the message is
    /// the parser's diagnostic) or it holds no production to provide a
    /// start rule.
    GrammarError(String),
    /// Internal inconsistency during tree reconstruction; unreachable for a
    /// chart produced by the recognizer.
    ParseForestError(String),
}

impl Error {
    /// The diagnostic message carried by the error.
    pub fn text(&self) -> (r: String)
        ensures
            r@ == self.message(),
    {
        match self {
            Error::GrammarError(s) => s.clone(),
            Error::ParseForestError(s) => s.clone(),
        }
    }

    /// The message of the error, whichever variant carries it.
    pub open spec fn message(&self) -> Seq<char> {
        match self {
            Error::GrammarError(s) => s@,
            Error::ParseForestError(s) => s@,
        }
    }
}

} // verus!
