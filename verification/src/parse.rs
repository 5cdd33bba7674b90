//! From a token to a typed value.

use vstd::prelude::*;

verus! {

/// A type whose values can be written as a single token.
pub trait FromToken: Sized + DeepView {
    /// The value that `text` denotes, if it denotes one.
    spec fn parse_spec(text: Seq<char>) -> Option<<Self as DeepView>::V>;

    /// Reads `text` as a value of this type.
    fn from_token(text: &str) -> (r: Option<Self>)
        ensures
            r.deep_view() == Self::parse_spec(text@),
    ;
}

impl FromToken for String {
    /// Every token is text as it stands.
    open spec fn parse_spec(text: Seq<char>) -> Option<Seq<char>> {
        Some(text)
    }

    fn from_token(text: &str) -> (r: Option<String>) {
        Some(text.to_owned())
    }
}

} // verus!
