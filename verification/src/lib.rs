//! An ordered map from byte-string keys to `u64` outputs, stored as a
//! minimised finite-state transducer in one immutable byte buffer, with
//! searches by automaton and set algebra over the results.
//!
//! - [`builder`] takes keys in strictly increasing order and writes the
//!   store; [`path`] holds the theory of the unfinished part.
//! - [`node`] and [`pack`] define the bytes of a node; [`model`] says what
//!   map a buffer of nodes stands for.
//! - [`reader`] opens a store, decodes nodes in place and looks keys up.
//! - [`query`] and [`dfa`] are the automata that say which keys are
//!   wanted; [`search`] defines the result of a search, and [`cursor`]
//!   walks the store to give it entry by entry.
//! - [`setop`] merges sorted results: union, intersection, difference and
//!   symmetric difference; [`heap`] keeps the sources by their next keys.
//! - [`order`] is the order of the keys, [`text`] reads keys as text,
//!   [`number`] and [`vm`] are small helpers, and [`laws`] states what
//!   holds across the modules.
//!
//! Every function carries a contract over the map that a builder, a
//! store or a result stands for. The contracts are proved, but for those
//! of the few functions that call an outside crate or the standard
//! library where the verifier has no model of it; these say so.

pub mod builder;
pub mod cursor;
pub mod dfa;
pub mod error;
pub mod heap;
pub mod laws;
pub mod model;
pub mod node;
pub mod number;
pub mod order;
pub mod pack;
pub mod path;
pub mod query;
pub mod reader;
pub mod search;
pub mod setop;
pub mod text;
pub mod vm;
