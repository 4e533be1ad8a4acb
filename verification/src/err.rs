use vstd::prelude::*;

verus! {

/// The failures this library reports to its caller.
///
/// None of these is ever swallowed or retried internally; every operation
/// that can fail returns one of them to its immediate caller.
#[derive(Debug)]
pub enum Error {
    /// A consuming option reached the end of the token stream without a
    /// value; carries the option's registered name.
    Argument(String),
    /// A retrieval found no stored entry for the requested state; carries
    /// the state's decimal representation.
    Value(String),
    /// Any other failure, such as a raw value that does not decode to the
    /// requested type; carries a message.
    Custom(String),
}

} // verus!
