use vstd::prelude::*;

verus! {

/// std's `io::Error`, carried unopened in `Error::IOError`; nothing is
/// assumed of it.
#[verifier::external_type_specification]
#[verifier::external_body]
pub struct ExIoError(std::io::Error);

/// Why an encoding failed.
#[derive(Debug)]
pub enum Error {
    /// The value's own source could not produce it.
    Custom(String),
    /// The output sink rejected a write.
    IOError(std::io::Error),
    /// A float, a key that is not a string, or another shape that has no
    /// canonical form.
    InvalidInput(String),
    /// The encoding is longer than the size limit.
    SizeLimit,
}

impl Error {
    /// The error for a write that the sink refused.
    pub fn io(err: std::io::Error) -> (r: Self)
        ensures
            r == Error::IOError(err),
    {
        Error::IOError(err)
    }

    /// Whether this is `InvalidInput` with the message `m`.
    pub open spec fn is_invalid_input(self, m: Seq<char>) -> bool {
        self matches Error::InvalidInput(s) && s@ == m
    }
}

} // verus!
