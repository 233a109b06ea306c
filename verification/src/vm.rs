//! Programs of match instructions and what running one yields.

use vstd::prelude::*;

verus! {

/// The positions that a match captured. Instructions carry no capture
/// groups, so there is only the empty set of captures.
#[derive(Clone, Copy, Debug, PartialEq, Eq, Structural)]
pub struct Captures;

/// An instruction of a match program.
#[derive(Clone, Copy, Debug, PartialEq, Eq, Structural)]
pub enum Inst {
    /// The text matched.
    Match,
    /// Take one character of the text.
    OneChar,
}

/// Runs the program `insts` on `search` and returns what it captured.
pub fn run_vm_dynamic(insts: &[Inst], search: &str) -> (r: Captures)
    ensures
        r == Captures,
{
    Captures
}

} // verus!
