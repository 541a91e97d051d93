use vstd::prelude::*;

verus! {

/// Failure signal shared by every decoding operation in the crate.
#[derive(Debug, Clone, PartialEq)]
pub enum Error {
    /// A caller-supplied failure message, for composite decoders.
    Custom(String),
    /// Fewer bits or bytes were available than the request needed.
    InvalidSize,
    /// The bits read do not form a valid value for the target type;
    /// reserved for decoders layered on top of this crate.
    InvalidData,
}

impl Error {
    /// A human-readable description of the failure.
    pub fn message(&self) -> (r: String)
        ensures
            self matches Error::Custom(s) ==> r@ == s@,
            self is InvalidSize ==> r@ == "Invalid size"@,
            self is InvalidData ==> r@ == "Invalid data"@,
    {
        match self {
            Error::Custom(s) => s.clone(),
            Error::InvalidSize => "Invalid size".to_owned(),
            Error::InvalidData => "Invalid data".to_owned(),
        }
    }
}

} // verus!
