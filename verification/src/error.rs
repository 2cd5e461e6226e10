use vstd::prelude::*;

verus! {

/// The recoverable failures that stream reads and numeral parsing surface.
#[derive(Clone, Copy, Debug, PartialEq, Eq, Structural)]
pub enum Error {
    /// No candidate address accepted a connection.
    CouldNotConnect,
    /// The source reached end-of-stream before the search pattern matched.
    PatternNotFound,
    /// The source closed before a fixed-length or line read completed.
    ShortRead,
    /// A numeral was expected, but the bytes were empty, held a non-digit,
    /// or encoded a value that does not fit the result width.
    ParseFailure,
}

} // verus!
