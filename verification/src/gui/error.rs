use vstd::prelude::*;

verus! {

/// An operation was refused; the field says why.
#[derive(Debug)]
pub struct ParserError(pub String);

impl ParserError {
    /// The text that presents this error to the user.
    pub fn to_string(&self) -> (r: String)
        ensures
            r@ == "Failed to parse operation: "@ + self.0@,
    {
        let prefix = String::from_str("Failed to parse operation: ");
        prefix.concat(self.0.as_str())
    }
}

} // verus!
