//! The reasons for which a generator cannot be built.
use vstd::prelude::*;

verus! {

/// Why a mask, a charset or a configuration was rejected.
#[derive(Clone, Copy, Debug, PartialEq, Eq, Structural)]
pub enum GenError {
    /// The escape byte is followed by something the grammar does not know.
    MaskSyntax,
    /// An empty or repeating alphabet, an unknown class letter, or an index
    /// that names no supplied charset or wordlist.
    InvalidCharset,
    /// A length outside `1..=token count`, or a minimum above the maximum.
    LengthRange,
    /// Length options together with wordlists, or a line longer than
    /// `MAX_WORD_SIZE`.
    Configuration,
    /// A wordlist position in a mask handed to the charset-only generator.
    UnsupportedToken,
}

impl GenError {
    /// A short message for the user.
    pub fn message(&self) -> (msg: &'static str)
        ensures
            msg@ == self.spec_message(),
    {
        match self {
            GenError::MaskSyntax => "invalid mask",
            GenError::InvalidCharset => "invalid charset or index",
            GenError::LengthRange => "minlen or maxlen is invalid",
            GenError::Configuration => "invalid configuration",
            GenError::UnsupportedToken => "wordlists are not supported here",
        }
    }

    /// The text of `message`, as a sequence of characters.
    pub open spec fn spec_message(&self) -> Seq<char> {
        match self {
            GenError::MaskSyntax => "invalid mask"@,
            GenError::InvalidCharset => "invalid charset or index"@,
            GenError::LengthRange => "minlen or maxlen is invalid"@,
            GenError::Configuration => "invalid configuration"@,
            GenError::UnsupportedToken => "wordlists are not supported here"@,
        }
    }
}

} // verus!
