//! Query automata that outside crates build: the automaton of the keys
//! within an edit distance of a text, and the automaton of the keys that a
//! regular expression matches.
//!
//! Both are deterministic automata over bytes. Their tables are built and
//! held by the outside crates; this module names the table of each and
//! steps through it.

use crate::error::{CompileError, Error};
use vstd::prelude::*;

verus! {

/// Makes `fst_levenshtein::Levenshtein` known to the verifier as a type
/// whose inside it does not see.
#[verifier::external_type_specification]
#[verifier::external_body]
pub struct ExLevenshtein(fst_levenshtein::Levenshtein);

/// Makes `fst_regex::Regex` known to the verifier as a type whose inside
/// it does not see.
#[verifier::external_type_specification]
#[verifier::external_body]
pub struct ExRegex(fst_regex::Regex);

/// The table of the automaton `a`: for each state, whether it accepts,
/// and the state that each byte leads to, where it leads to one.
pub uninterp spec fn lev_table(a: fst_levenshtein::Levenshtein) -> Seq<(bool, Map<u8, usize>)>;

/// The table of the automaton that is built for the keys within
/// `distance` edits of `target`, or why none is built.
pub uninterp spec fn lev_built(target: Seq<char>, distance: u32) -> Result<
    Seq<(bool, Map<u8, usize>)>,
    CompileError,
>;

/// The table of the automaton `a`: for each state, whether it accepts,
/// and the state that each byte leads to, where it leads to one.
pub uninterp spec fn re_table(a: fst_regex::Regex) -> Seq<(bool, Map<u8, usize>)>;

/// The table of the automaton that is built for the regular expression
/// `pattern`, or why none is built.
pub uninterp spec fn re_built(pattern: Seq<char>) -> Result<
    Seq<(bool, Map<u8, usize>)>,
    CompileError,
>;

/// The state that `byte` leads to from state `s` of `table`, if any.
pub open spec fn table_step(table: Seq<(bool, Map<u8, usize>)>, s: usize, byte: u8) -> Option<
    usize,
> {
    if table[s as int].1.contains_key(byte) {
        Some(table[s as int].1[byte])
    } else {
        None
    }
}

/// Calls `fst_levenshtein::Levenshtein::new`. The table of the automaton
/// that comes back is the one named for the arguments, and it has a first
/// state; the one error of the outside crate, too many states, comes back
/// as `TooLarge` with the limit it names.
#[verifier::external_body]
fn lev_new(target: &str, distance: u32) -> (r: Result<fst_levenshtein::Levenshtein, CompileError>)
    ensures
        match r {
            Ok(a) => lev_built(target@, distance) == Ok::<_, CompileError>(lev_table(a))
                && lev_table(a).len() > 0,
            Err(e) => lev_built(target@, distance) == Err::<Seq<(bool, Map<u8, usize>)>, _>(e)
                && e is TooLarge,
        },
{
    match fst_levenshtein::Levenshtein::new(target, distance) {
        Ok(a) => Ok(a),
        Err(fst_levenshtein::Error::TooManyStates(limit)) => Err(CompileError::TooLarge { limit }),
    }
}

/// Calls `Automaton::is_match` of `fst_levenshtein::Levenshtein` on a
/// live state: the flag of that state in the table.
#[verifier::external_body]
fn lev_is_match(a: &fst_levenshtein::Levenshtein, state: usize) -> (r: bool)
    requires
        state < lev_table(*a).len(),
    ensures
        r == lev_table(*a)[state as int].0,
{
    fst::Automaton::is_match(a, &Some(state))
}

/// Calls `Automaton::accept` of `fst_levenshtein::Levenshtein` on a live
/// state: the entry of the table for that state and byte, which is a
/// state of the table if there is one.
#[verifier::external_body]
fn lev_accept(a: &fst_levenshtein::Levenshtein, state: usize, byte: u8) -> (r: Option<usize>)
    requires
        state < lev_table(*a).len(),
    ensures
        r == table_step(lev_table(*a), state, byte),
        r matches Some(s) ==> s < lev_table(*a).len(),
{
    fst::Automaton::accept(a, &Some(state), byte)
}

/// Calls `fst_regex::Regex::new`. The table of the automaton that comes
/// back is the one named for the pattern, and it has a first state; an
/// error comes back by its kind.
#[verifier::external_body]
fn re_new(pattern: &str) -> (r: Result<fst_regex::Regex, CompileError>)
    ensures
        match r {
            Ok(a) => re_built(pattern@) == Ok::<_, CompileError>(re_table(a)) && re_table(a).len()
                > 0,
            Err(e) => re_built(pattern@) == Err::<Seq<(bool, Map<u8, usize>)>, _>(e),
        },
{
    match fst_regex::Regex::new(pattern) {
        Ok(a) => Ok(a),
        Err(fst_regex::Error::Syntax(_)) => Err(CompileError::Syntax),
        Err(fst_regex::Error::CompiledTooBig(limit)) => Err(CompileError::TooLarge { limit }),
        Err(fst_regex::Error::TooManyStates(limit)) => Err(CompileError::TooLarge { limit }),
        Err(fst_regex::Error::NoLazy) => Err(CompileError::Unsupported),
        Err(fst_regex::Error::NoWordBoundary) => Err(CompileError::Unsupported),
        Err(fst_regex::Error::NoEmpty) => Err(CompileError::Unsupported),
        Err(fst_regex::Error::NoBytes) => Err(CompileError::Unsupported),
    }
}

/// Calls `Automaton::is_match` of `fst_regex::Regex` on a live state: the
/// flag of that state in the table.
#[verifier::external_body]
fn re_is_match(a: &fst_regex::Regex, state: usize) -> (r: bool)
    requires
        state < re_table(*a).len(),
    ensures
        r == re_table(*a)[state as int].0,
{
    fst::Automaton::is_match(a, &Some(state))
}

/// Calls `Automaton::accept` of `fst_regex::Regex` on a live state: the
/// entry of the table for that state and byte, which is a state of the
/// table if there is one.
#[verifier::external_body]
fn re_accept(a: &fst_regex::Regex, state: usize, byte: u8) -> (r: Option<usize>)
    requires
        state < re_table(*a).len(),
    ensures
        r == table_step(re_table(*a), state, byte),
        r matches Some(s) ==> s < re_table(*a).len(),
{
    fst::Automaton::accept(a, &Some(state), byte)
}

/// The automaton of the keys within a number of edits of a text. An edit
/// inserts, deletes or replaces one character; the keys are read as
/// UTF-8.
pub struct Fuzzy {
    dfa: fst_levenshtein::Levenshtein,
}

impl Fuzzy {
    #[verifier::type_invariant]
    closed spec fn inv(self) -> bool {
        lev_table(self.dfa).len() > 0
    }

    /// The table of the automaton.
    pub closed spec fn table(self) -> Seq<(bool, Map<u8, usize>)> {
        lev_table(self.dfa)
    }

    /// Says what `new` returns for each outcome of building the automaton.
    pub fn from_built(built: Result<fst_levenshtein::Levenshtein, CompileError>) -> (r: Result<
        Fuzzy,
        Error,
    >)
        requires
            built matches Ok(a) ==> lev_table(a).len() > 0,
        ensures
            match built {
                Ok(a) => r matches Ok(f) && f.table() == lev_table(a),
                Err(e) => r matches Err(x) && x == Error::AutomatonCompileError(e),
            },
    {
        match built {
            Ok(dfa) => Ok(Fuzzy { dfa }),
            Err(e) => Err(Error::AutomatonCompileError(e)),
        }
    }

    /// Builds the automaton of the keys within `distance` edits of
    /// `target`. Fails if the automaton would have too many states.
    pub fn new(target: &str, distance: u32) -> (r: Result<Fuzzy, Error>)
        ensures
            match r {
                Ok(f) => lev_built(target@, distance) == Ok::<_, CompileError>(f.table())
                    && f.table().len() > 0,
                Err(e) => e matches Error::AutomatonCompileError(x) && lev_built(target@, distance)
                    == Err::<Seq<(bool, Map<u8, usize>)>, _>(x) && x is TooLarge,
            },
    {
        Fuzzy::from_built(lev_new(target, distance))
    }

    /// The state from which a key starts: the first state of the table.
    pub fn start(&self) -> (r: usize)
        ensures
            r == 0,
            r < self.table().len(),
    {
        proof {
            use_type_invariant(self);
        }
        0
    }

    /// Whether state `state` accepts.
    pub fn is_match(&self, state: usize) -> (r: bool)
        requires
            state < self.table().len(),
        ensures
            r == self.table()[state as int].0,
    {
        lev_is_match(&self.dfa, state)
    }

    /// The state that `byte` leads to from `state`, if any.
    pub fn accept(&self, state: usize, byte: u8) -> (r: Option<usize>)
        requires
            state < self.table().len(),
        ensures
            r == table_step(self.table(), state, byte),
            r matches Some(s) ==> s < self.table().len(),
    {
        lev_accept(&self.dfa, state, byte)
    }
}

/// The automaton of the keys that a regular expression matches from their
/// first byte to their last; the keys are read as UTF-8.
pub struct Pattern {
    dfa: fst_regex::Regex,
}

impl Pattern {
    #[verifier::type_invariant]
    closed spec fn inv(self) -> bool {
        re_table(self.dfa).len() > 0
    }

    /// The table of the automaton.
    pub closed spec fn table(self) -> Seq<(bool, Map<u8, usize>)> {
        re_table(self.dfa)
    }

    /// Says what `new` returns for each outcome of building the automaton.
    pub fn from_built(built: Result<fst_regex::Regex, CompileError>) -> (r: Result<Pattern, Error>)
        requires
            built matches Ok(a) ==> re_table(a).len() > 0,
        ensures
            match built {
                Ok(a) => r matches Ok(f) && f.table() == re_table(a),
                Err(e) => r matches Err(x) && x == Error::AutomatonCompileError(e),
            },
    {
        match built {
            Ok(dfa) => Ok(Pattern { dfa }),
            Err(e) => Err(Error::AutomatonCompileError(e)),
        }
    }

    /// Builds the automaton of the regular expression `pattern`. Fails if
    /// the pattern is malformed, uses a construct that has no meaning for
    /// whole keys, or needs too large an automaton.
    pub fn new(pattern: &str) -> (r: Result<Pattern, Error>)
        ensures
            match r {
                Ok(f) => re_built(pattern@) == Ok::<_, CompileError>(f.table()) && f.table().len()
                    > 0,
                Err(e) => e matches Error::AutomatonCompileError(x) && re_built(pattern@) == Err::<
                    Seq<(bool, Map<u8, usize>)>,
                    _,
                >(x),
            },
    {
        Pattern::from_built(re_new(pattern))
    }

    /// The state from which a key starts: the first state of the table.
    pub fn start(&self) -> (r: usize)
        ensures
            r == 0,
            r < self.table().len(),
    {
        proof {
            use_type_invariant(self);
        }
        0
    }

    /// Whether state `state` accepts.
    pub fn is_match(&self, state: usize) -> (r: bool)
        requires
            state < self.table().len(),
        ensures
            r == self.table()[state as int].0,
    {
        re_is_match(&self.dfa, state)
    }

    /// The state that `byte` leads to from `state`, if any.
    pub fn accept(&self, state: usize, byte: u8) -> (r: Option<usize>)
        requires
            state < self.table().len(),
        ensures
            r == table_step(self.table(), state, byte),
            r matches Some(s) ==> s < self.table().len(),
    {
        re_accept(&self.dfa, state, byte)
    }
}

} // verus!
