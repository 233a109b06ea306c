//! The failures that the library reports.

use vstd::prelude::*;

verus! {

/// Why a query automaton could not be built.
#[derive(Clone, Copy, Debug, PartialEq, Eq, Structural)]
pub enum CompileError {
    /// The pattern is not a well-formed regular expression.
    Syntax,
    /// The pattern uses a construct that an automaton over whole keys
    /// cannot express: a lazy repetition, a word boundary, an anchor or a
    /// byte literal.
    Unsupported,
    /// The automaton would need more than `limit` states or bytes.
    TooLarge { limit: usize },
}

/// A failure of the library.
#[derive(Clone, Copy, Debug, PartialEq, Eq, Structural)]
pub enum Error {
    /// A key was inserted that does not come after the previous one.
    OutOfOrderInsert,
    /// The buffer is too short or does not hold a node where one is due.
    CorruptData,
    /// The buffer was written in a format that this library does not read.
    VersionMismatch { expected: u64, found: u64 },
    /// A query automaton could not be built.
    AutomatonCompileError(CompileError),
    /// A key is not valid UTF-8 although text was asked for.
    Utf8DecodeError,
}

} // verus!
