use vstd::prelude::*;
use vstd::string::*;

verus! {

/// The content handed to a parsing operation is not a well-formed JSON
/// document, or does not have the shape the operation requires.
#[derive(Clone, Copy, Debug, PartialEq, Eq, Structural)]
pub struct ParseError;

impl ParseError {
    /// Short description, for callers that render errors as text.
    pub fn message(&self) -> (r: String)
        ensures
            r@ == "malformed JSON"@,
    {
        String::from_str("malformed JSON")
    }
}

} // verus!
