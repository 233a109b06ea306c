//! Queries: automata that read a key byte by byte and say whether it is
//! wanted. A query is one of a closed set of kinds; the search engine
//! drives any of them through `start`, `accept`, `is_match` and
//! `can_match`.

use crate::dfa::{table_step, Fuzzy, Pattern};
use crate::order::{
    common_prefix_len, lemma_common_prefix, lemma_common_prefix_unique, lex_le, lex_lt,
};
use vstd::prelude::*;

verus! {

/// One end of a range of keys.
#[derive(Debug)]
pub enum Bound {
    /// No limit on this side.
    Unbounded,
    /// The limit itself belongs to the range.
    Included(Vec<u8>),
    /// The limit itself does not belong to the range.
    Excluded(Vec<u8>),
}

/// How the key read so far stands to one limit of a range.
#[derive(Clone, Copy, Debug, PartialEq, Eq, Structural)]
pub enum Side {
    /// The key has passed to the good side of the limit for good.
    Free,
    /// The key read so far is the limit up to this length.
    Tight(usize),
}

/// The state of a query after it has read some bytes of a key.
#[derive(Clone, Copy, Debug, PartialEq, Eq, Structural)]
pub enum State {
    /// No continuation of what was read is wanted.
    Dead,
    /// Any key is wanted.
    Any,
    /// What was read is the wanted key up to this length.
    Exact(usize),
    /// Where what was read stands to the lower and the upper limit.
    Range(Side, Side),
    /// A state of the table of an outside automaton.
    Table(usize),
}

/// A query.
pub enum Query {
    /// Every key.
    All,
    /// One key.
    Exact(Vec<u8>),
    /// The keys between two limits.
    Range(Bound, Bound),
    /// The keys within some edits of a text.
    Fuzzy(Fuzzy),
    /// The keys that a regular expression matches.
    Pattern(Pattern),
}

impl Bound {
    /// The limit, if there is one.
    pub open spec fn limit(self) -> Seq<u8> {
        match self {
            Bound::Unbounded => Seq::<u8>::empty(),
            Bound::Included(e) => e@,
            Bound::Excluded(e) => e@,
        }
    }

    /// `key` respects this bound as a lower limit.
    pub open spec fn below(self, key: Seq<u8>) -> bool {
        match self {
            Bound::Unbounded => true,
            Bound::Included(e) => lex_le(e@, key),
            Bound::Excluded(e) => lex_lt(e@, key),
        }
    }

    /// `key` respects this bound as an upper limit.
    pub open spec fn over(self, key: Seq<u8>) -> bool {
        match self {
            Bound::Unbounded => true,
            Bound::Included(e) => lex_le(key, e@),
            Bound::Excluded(e) => lex_lt(key, e@),
        }
    }

    /// The side from which a key starts against this bound.
    pub open spec fn first(self) -> Side {
        match self {
            Bound::Unbounded => Side::Free,
            _ => Side::Tight(0),
        }
    }
}

/// How a side moves on `b` against the lower limit `e`; `None` when the
/// key has dropped below the limit.
pub open spec fn lower_step(e: Seq<u8>, side: Side, b: u8) -> Option<Side> {
    match side {
        Side::Free => Some(Side::Free),
        Side::Tight(p) => if p >= e.len() {
            Some(Side::Free)
        } else if b == e[p as int] {
            Some(Side::Tight((p + 1) as usize))
        } else if b > e[p as int] {
            Some(Side::Free)
        } else {
            None
        },
    }
}

/// How a side moves on `b` against the upper limit `e`; `None` when the
/// key has risen above the limit.
pub open spec fn upper_step(e: Seq<u8>, side: Side, b: u8) -> Option<Side> {
    match side {
        Side::Free => Some(Side::Free),
        Side::Tight(p) => if p >= e.len() {
            None
        } else if b == e[p as int] {
            Some(Side::Tight((p + 1) as usize))
        } else if b < e[p as int] {
            Some(Side::Free)
        } else {
            None
        },
    }
}

/// Whether a key that stands at `side` to the lower bound respects it.
pub open spec fn lower_holds(bound: Bound, side: Side) -> bool {
    match side {
        Side::Free => true,
        Side::Tight(p) => bound is Included && p == bound.limit().len(),
    }
}

/// Whether a key that stands at `side` to the upper bound respects it.
pub open spec fn upper_holds(bound: Bound, side: Side) -> bool {
    match side {
        Side::Free => true,
        Side::Tight(p) => p < bound.limit().len() || bound is Included,
    }
}

impl Query {
    /// What the query wants: the set of keys that it matches.
    pub open spec fn accepts(self, key: Seq<u8>) -> bool {
        match self {
            Query::All => true,
            Query::Exact(k) => key == k@,
            Query::Range(lower, upper) => lower.below(key) && upper.over(key),
            Query::Fuzzy(f) => self.spec_is_match(self.run(self.spec_start(), key)),
            Query::Pattern(p) => self.spec_is_match(self.run(self.spec_start(), key)),
        }
    }

    /// The keys that the query holds have lengths that a machine can hold.
    /// This is so of every query that exists at run time.
    pub open spec fn sized(self) -> bool {
        match self {
            Query::Exact(k) => k@.len() <= usize::MAX,
            Query::Range(lower, upper) => lower.limit().len() <= usize::MAX && upper.limit().len()
                <= usize::MAX,
            _ => true,
        }
    }

    /// The states that belong to this query.
    pub open spec fn valid(self, st: State) -> bool {
        match (self, st) {
            (_, State::Dead) => true,
            (Query::All, State::Any) => true,
            (Query::Exact(k), State::Exact(p)) => p <= k@.len(),
            (Query::Range(lower, upper), State::Range(lo, up)) => {
                &&& lo matches Side::Tight(p) ==> !(lower is Unbounded) && p <= lower.limit().len()
                &&& up matches Side::Tight(p) ==> !(upper is Unbounded) && p <= upper.limit().len()
            },
            (Query::Fuzzy(f), State::Table(s)) => s < f.table().len(),
            (Query::Pattern(p), State::Table(s)) => s < p.table().len(),
            _ => false,
        }
    }

    /// The state before any byte is read.
    pub open spec fn spec_start(self) -> State {
        match self {
            Query::All => State::Any,
            Query::Exact(_) => State::Exact(0),
            Query::Range(lower, upper) => State::Range(lower.first(), upper.first()),
            Query::Fuzzy(_) => State::Table(0),
            Query::Pattern(_) => State::Table(0),
        }
    }

    /// The state after `b` is read in state `st`.
    pub open spec fn spec_accept(self, st: State, b: u8) -> State {
        match (self, st) {
            (Query::All, State::Any) => State::Any,
            (Query::Exact(k), State::Exact(p)) => if p < k@.len() && k@[p as int] == b {
                State::Exact((p + 1) as usize)
            } else {
                State::Dead
            },
            (Query::Range(lower, upper), State::Range(lo, up)) => match (
                lower_step(lower.limit(), lo, b),
                upper_step(upper.limit(), up, b),
            ) {
                (Some(l), Some(u)) => State::Range(l, u),
                _ => State::Dead,
            },
            (Query::Fuzzy(f), State::Table(s)) => match table_step(f.table(), s, b) {
                Some(t) => State::Table(t),
                None => State::Dead,
            },
            (Query::Pattern(p), State::Table(s)) => match table_step(p.table(), s, b) {
                Some(t) => State::Table(t),
                None => State::Dead,
            },
            _ => State::Dead,
        }
    }

    /// Whether the key read to reach `st` is wanted.
    pub open spec fn spec_is_match(self, st: State) -> bool {
        match (self, st) {
            (Query::All, State::Any) => true,
            (Query::Exact(k), State::Exact(p)) => p == k@.len(),
            (Query::Range(lower, upper), State::Range(lo, up)) => lower_holds(lower, lo)
                && upper_holds(upper, up),
            (Query::Fuzzy(f), State::Table(s)) => f.table()[s as int].0,
            (Query::Pattern(p), State::Table(s)) => p.table()[s as int].0,
            _ => false,
        }
    }

    /// Whether some continuation of the key read to reach `st` may be
    /// wanted. Where this is false, none is.
    pub open spec fn spec_can_match(self, st: State) -> bool {
        st != State::Dead
    }

    /// The state after the bytes of `w` are read from state `st`.
    pub open spec fn run(self, st: State, w: Seq<u8>) -> State
        decreases w.len(),
    {
        if w.len() == 0 {
            st
        } else {
            self.run(self.spec_accept(st, w[0]), w.drop_first())
        }
    }

    /// Whether the automaton, run on `key` from its start, ends in a
    /// state that matches.
    pub open spec fn matches(self, key: Seq<u8>) -> bool {
        self.spec_is_match(self.run(self.spec_start(), key))
    }

    /// A dead state does not match, and stays dead whatever is read.
    pub proof fn lemma_dead(self, w: Seq<u8>)
        ensures
            self.run(State::Dead, w) == State::Dead,
            !self.spec_is_match(State::Dead),
        decreases w.len(),
    {
        if w.len() > 0 {
            self.lemma_dead(w.drop_first());
        }
    }

    /// Reading `u` and then `w` is reading `u + w`.
    pub proof fn lemma_run_concat(self, st: State, u: Seq<u8>, w: Seq<u8>)
        ensures
            self.run(self.run(st, u), w) == self.run(st, u + w),
        decreases u.len(),
    {
        if u.len() == 0 {
            assert(u + w =~= w);
        } else {
            assert((u + w).drop_first() =~= u.drop_first() + w);
            self.lemma_run_concat(self.spec_accept(st, u[0]), u.drop_first(), w);
        }
    }

    /// Reading one more byte after `u` is one more step.
    pub proof fn lemma_run_push(self, st: State, u: Seq<u8>, b: u8)
        ensures
            self.run(st, u.push(b)) == self.spec_accept(self.run(st, u), b),
    {
        let one = seq![b];
        self.lemma_run_concat(st, u, one);
        assert(u + one =~= u.push(b));
        assert(one.drop_first() =~= Seq::<u8>::empty());
        assert(self.run(self.run(st, u), one) == self.spec_accept(self.run(st, u), b)) by {
            reveal_with_fuel(Query::run, 2);
        }
    }
}

/// Moves a side on `b` against a lower bound.
pub fn step_lower(bound: &Bound, side: Side, b: u8) -> (r: Option<Side>)
    ensures
        r == lower_step(bound.limit(), side, b),
{
    match side {
        Side::Free => Some(Side::Free),
        Side::Tight(p) => match bound {
            Bound::Unbounded => Some(Side::Free),
            Bound::Included(e) | Bound::Excluded(e) => {
                if p >= e.len() {
                    Some(Side::Free)
                } else if b == e[p] {
                    Some(Side::Tight(p + 1))
                } else if b > e[p] {
                    Some(Side::Free)
                } else {
                    None
                }
            },
        },
    }
}

/// Moves a side on `b` against an upper bound.
pub fn step_upper(bound: &Bound, side: Side, b: u8) -> (r: Option<Side>)
    ensures
        r == upper_step(bound.limit(), side, b),
{
    match side {
        Side::Free => Some(Side::Free),
        Side::Tight(p) => match bound {
            Bound::Unbounded => None,
            Bound::Included(e) | Bound::Excluded(e) => {
                if p >= e.len() {
                    None
                } else if b == e[p] {
                    Some(Side::Tight(p + 1))
                } else if b < e[p] {
                    Some(Side::Free)
                } else {
                    None
                }
            },
        },
    }
}

/// Tells whether a side respects a lower bound.
pub fn holds_lower(bound: &Bound, side: Side) -> (r: bool)
    ensures
        r == lower_holds(*bound, side),
{
    match side {
        Side::Free => true,
        Side::Tight(p) => match bound {
            Bound::Included(e) => p == e.len(),
            _ => false,
        },
    }
}

/// Tells whether a side respects an upper bound.
pub fn holds_upper(bound: &Bound, side: Side) -> (r: bool)
    ensures
        r == upper_holds(*bound, side),
{
    match side {
        Side::Free => true,
        Side::Tight(p) => match bound {
            Bound::Unbounded => false,
            Bound::Included(e) => true,
            Bound::Excluded(e) => p < e.len(),
        },
    }
}

impl Query {
    /// The state before any byte is read.
    pub fn start(&self) -> (st: State)
        ensures
            st == self.spec_start(),
            self.valid(st),
    {
        match self {
            Query::All => State::Any,
            Query::Exact(_) => State::Exact(0),
            Query::Range(lower, upper) => {
                let lo = match lower {
                    Bound::Unbounded => Side::Free,
                    _ => Side::Tight(0),
                };
                let up = match upper {
                    Bound::Unbounded => Side::Free,
                    _ => Side::Tight(0),
                };
                State::Range(lo, up)
            },
            Query::Fuzzy(f) => State::Table(f.start()),
            Query::Pattern(p) => State::Table(p.start()),
        }
    }

    /// The state after `b` is read in state `st`.
    pub fn accept(&self, st: State, b: u8) -> (r: State)
        requires
            self.valid(st),
        ensures
            r == self.spec_accept(st, b),
            self.valid(r),
    {
        match self {
            Query::All => match st {
                State::Any => State::Any,
                _ => State::Dead,
            },
            Query::Exact(k) => match st {
                State::Exact(p) => {
                    if p < k.len() && k[p] == b {
                        State::Exact(p + 1)
                    } else {
                        State::Dead
                    }
                },
                _ => State::Dead,
            },
            Query::Range(lower, upper) => match st {
                State::Range(lo, up) => {
                    match (step_lower(lower, lo, b), step_upper(upper, up, b)) {
                        (Some(l), Some(u)) => State::Range(l, u),
                        _ => State::Dead,
                    }
                },
                _ => State::Dead,
            },
            Query::Fuzzy(f) => match st {
                State::Table(s) => match f.accept(s, b) {
                    Some(t) => State::Table(t),
                    None => State::Dead,
                },
                _ => State::Dead,
            },
            Query::Pattern(p) => match st {
                State::Table(s) => match p.accept(s, b) {
                    Some(t) => State::Table(t),
                    None => State::Dead,
                },
                _ => State::Dead,
            },
        }
    }

    /// Whether the key read to reach `st` is wanted.
    pub fn is_match(&self, st: State) -> (r: bool)
        requires
            self.valid(st),
        ensures
            r == self.spec_is_match(st),
    {
        match self {
            Query::All => match st {
                State::Any => true,
                _ => false,
            },
            Query::Exact(k) => match st {
                State::Exact(p) => p == k.len(),
                _ => false,
            },
            Query::Range(lower, upper) => match st {
                State::Range(lo, up) => holds_lower(lower, lo) && holds_upper(upper, up),
                _ => false,
            },
            Query::Fuzzy(f) => match st {
                State::Table(s) => f.is_match(s),
                _ => false,
            },
            Query::Pattern(p) => match st {
                State::Table(s) => p.is_match(s),
                _ => false,
            },
        }
    }

    /// Notes that the keys of the query have lengths that a machine can
    /// hold.
    pub(crate) fn note_sized(&self)
        ensures
            self.sized(),
    {
        match self {
            Query::Exact(k) => {
                let n = k.len();
            },
            Query::Range(lower, upper) => {
                match lower {
                    Bound::Included(e) | Bound::Excluded(e) => {
                        let n = e.len();
                    },
                    Bound::Unbounded => {},
                }
                match upper {
                    Bound::Included(e) | Bound::Excluded(e) => {
                        let n = e.len();
                    },
                    Bound::Unbounded => {},
                }
            },
            _ => {},
        }
    }

    /// Whether some continuation of the key read to reach `st` may be
    /// wanted.
    pub fn can_match(&self, st: State) -> (r: bool)
        ensures
            r == self.spec_can_match(st),
    {
        match st {
            State::Dead => false,
            _ => true,
        }
    }
}

/// How the common prefix with `e` grows when `b` is put after `u`.
pub proof fn lemma_prefix_push(e: Seq<u8>, u: Seq<u8>, b: u8)
    ensures
        common_prefix_len(e, u.push(b)) == if common_prefix_len(e, u) == u.len() && u.len()
            < e.len() && e[u.len() as int] == b {
            u.len() + 1
        } else {
            common_prefix_len(e, u)
        },
{
    lemma_common_prefix(e, u);
    let p = common_prefix_len(e, u) as int;
    let v = u.push(b);
    let n = if p == u.len() && p < e.len() && e[p] == b {
        p + 1
    } else {
        p
    };
    assert forall|i: int| 0 <= i < n implies e[i] == v[i] by {
        if i < p {
            assert(v[i] == u[i]);
        }
    }
    if n < e.len() && n < v.len() {
        if p < u.len() {
            assert(v[p] == u[p]);
        }
    }
    lemma_common_prefix_unique(e, v, n);
}

/// Where a key that reads `u` stands to the lower limit `e`; `None` when
/// it has dropped below.
pub open spec fn lower_after(e: Seq<u8>, u: Seq<u8>) -> Option<Side> {
    let p = common_prefix_len(e, u);
    if p == u.len() {
        Some(Side::Tight(p as usize))
    } else if p == e.len() || u[p as int] > e[p as int] {
        Some(Side::Free)
    } else {
        None
    }
}

/// Where a key that reads `u` stands to the upper limit `e`; `None` when
/// it has risen above.
pub open spec fn upper_after(e: Seq<u8>, u: Seq<u8>) -> Option<Side> {
    let p = common_prefix_len(e, u);
    if p == u.len() {
        Some(Side::Tight(p as usize))
    } else if p < e.len() && u[p as int] < e[p as int] {
        Some(Side::Free)
    } else {
        None
    }
}

/// One step against a lower limit keeps track of where the key stands.
pub proof fn lemma_lower_push(e: Seq<u8>, u: Seq<u8>, b: u8)
    requires
        e.len() <= usize::MAX,
    ensures
        lower_after(e, u.push(b)) == match lower_after(e, u) {
            Some(s) => lower_step(e, s, b),
            None => None,
        },
{
    lemma_common_prefix(e, u);
    lemma_common_prefix(e, u.push(b));
    lemma_prefix_push(e, u, b);
    let p = common_prefix_len(e, u) as int;
    if p < u.len() {
        assert(u.push(b)[p] == u[p]);
    } else {
        assert(u.push(b)[p] == b);
    }
}

/// One step against an upper limit keeps track of where the key stands.
pub proof fn lemma_upper_push(e: Seq<u8>, u: Seq<u8>, b: u8)
    requires
        e.len() <= usize::MAX,
    ensures
        upper_after(e, u.push(b)) == match upper_after(e, u) {
            Some(s) => upper_step(e, s, b),
            None => None,
        },
{
    lemma_common_prefix(e, u);
    lemma_common_prefix(e, u.push(b));
    lemma_prefix_push(e, u, b);
    let p = common_prefix_len(e, u) as int;
    if p < u.len() {
        assert(u.push(b)[p] == u[p]);
    } else {
        assert(u.push(b)[p] == b);
    }
}

/// Where the key stands to a lower limit tells whether it respects the
/// bound.
pub proof fn lemma_lower_holds(bound: Bound, u: Seq<u8>)
    requires
        !(bound is Unbounded),
        bound.limit().len() <= usize::MAX,
    ensures
        bound.below(u) == match lower_after(bound.limit(), u) {
            Some(s) => lower_holds(bound, s),
            None => false,
        },
{
    let e = bound.limit();
    lemma_common_prefix(e, u);
    let p = common_prefix_len(e, u) as int;
    if p == u.len() && p == e.len() {
        assert(e =~= u);
    }
    if e == u {
        lemma_common_prefix_unique(e, u, e.len() as int);
    }
}

/// Where the key stands to an upper limit tells whether it respects the
/// bound.
pub proof fn lemma_upper_holds(bound: Bound, u: Seq<u8>)
    requires
        !(bound is Unbounded),
        bound.limit().len() <= usize::MAX,
    ensures
        bound.over(u) == match upper_after(bound.limit(), u) {
            Some(s) => upper_holds(bound, s),
            None => false,
        },
{
    let e = bound.limit();
    lemma_common_prefix(e, u);
    crate::order::lemma_common_prefix_symmetric(e, u);
    let p = common_prefix_len(e, u) as int;
    if p == u.len() && p == e.len() {
        assert(e =~= u);
    }
    if e == u {
        lemma_common_prefix_unique(e, u, e.len() as int);
    }
}

/// The side at which a key that reads `u` stands to a lower bound.
pub open spec fn side_below(bound: Bound, u: Seq<u8>) -> Option<Side> {
    if bound is Unbounded {
        Some(Side::Free)
    } else {
        lower_after(bound.limit(), u)
    }
}

/// The side at which a key that reads `u` stands to an upper bound.
pub open spec fn side_over(bound: Bound, u: Seq<u8>) -> Option<Side> {
    if bound is Unbounded {
        Some(Side::Free)
    } else {
        upper_after(bound.limit(), u)
    }
}

/// The state of a range query that has read `u`.
pub open spec fn range_state(lower: Bound, upper: Bound, u: Seq<u8>) -> State {
    match (side_below(lower, u), side_over(upper, u)) {
        (Some(l), Some(h)) => State::Range(l, h),
        _ => State::Dead,
    }
}

impl Query {
    /// A range query that has read `u` is in the state that tells where
    /// `u` stands to both limits.
    pub proof fn lemma_range_run(self, u: Seq<u8>)
        requires
            self is Range,
            self.sized(),
        ensures
            self.run(self.spec_start(), u) == range_state(self->Range_0, self->Range_1, u),
        decreases u.len(),
    {
        let lower = self->Range_0;
        let upper = self->Range_1;
        if u.len() == 0 {
            lemma_common_prefix(lower.limit(), u);
            lemma_common_prefix(upper.limit(), u);
        } else {
            let init = u.drop_last();
            let b = u.last();
            assert(init.push(b) =~= u);
            self.lemma_range_run(init);
            self.lemma_run_push(self.spec_start(), init, b);
            lemma_lower_push(lower.limit(), init, b);
            lemma_upper_push(upper.limit(), init, b);
        }
    }

    /// An exact query that stands at position `p` matches what is left of
    /// its key and nothing else.
    pub proof fn lemma_exact_run(self, p: usize, w: Seq<u8>)
        requires
            self is Exact,
            self.sized(),
            p <= self->Exact_0@.len(),
        ensures
            self.spec_is_match(self.run(State::Exact(p), w)) == (w == self->Exact_0@.skip(p as int)),
        decreases w.len(),
    {
        let k = self->Exact_0@;
        let rest = k.skip(p as int);
        if w.len() == 0 {
            if p == k.len() {
                assert(rest =~= w);
            }
        } else if p < k.len() && k[p as int] == w[0] {
            self.lemma_exact_run((p + 1) as usize, w.drop_first());
            assert(rest.drop_first() =~= k.skip(p + 1));
            assert(rest[0] == w[0]);
            if w.drop_first() == k.skip(p + 1) {
                crate::path::lemma_same_first_and_rest(w, rest);
            }
        } else {
            self.lemma_dead(w.drop_first());
            if p < k.len() {
                assert(rest[0] == k[p as int]);
            }
        }
    }

    /// The automaton of a query matches exactly the keys that the query
    /// wants.
    pub proof fn lemma_matches(self, key: Seq<u8>)
        requires
            self.sized(),
        ensures
            self.matches(key) == self.accepts(key),
    {
        match self {
            Query::All => {
                self.lemma_all_run(key);
            },
            Query::Exact(k) => {
                self.lemma_exact_run(0, key);
                assert(k@.skip(0) =~= k@);
            },
            Query::Range(lower, upper) => {
                self.lemma_range_run(key);
                if !(lower is Unbounded) {
                    lemma_lower_holds(lower, key);
                }
                if !(upper is Unbounded) {
                    lemma_upper_holds(upper, key);
                }
            },
            Query::Fuzzy(_) => {},
            Query::Pattern(_) => {},
        }
    }

    /// The query for every key stays in its one state.
    pub proof fn lemma_all_run(self, w: Seq<u8>)
        requires
            self is All,
        ensures
            self.run(State::Any, w) == State::Any,
        decreases w.len(),
    {
        if w.len() > 0 {
            self.lemma_all_run(w.drop_first());
        }
    }
}

/// A range of keys under construction: it starts without limits, and
/// each call sets one.
#[derive(Debug)]
pub struct Range {
    pub lower: Bound,
    pub upper: Bound,
}

impl Range {
    /// The range of all keys.
    pub fn new() -> (r: Range)
        ensures
            r.lower is Unbounded,
            r.upper is Unbounded,
    {
        Range { lower: Bound::Unbounded, upper: Bound::Unbounded }
    }

    /// Keeps the keys that are `key` or come after it.
    pub fn ge(self, key: &[u8]) -> (r: Range)
        ensures
            r.lower matches Bound::Included(e) && e@ == key@,
            r.upper == self.upper,
    {
        Range { lower: Bound::Included(vstd::slice::slice_to_vec(key)), upper: self.upper }
    }

    /// Keeps the keys that come after `key`.
    pub fn gt(self, key: &[u8]) -> (r: Range)
        ensures
            r.lower matches Bound::Excluded(e) && e@ == key@,
            r.upper == self.upper,
    {
        Range { lower: Bound::Excluded(vstd::slice::slice_to_vec(key)), upper: self.upper }
    }

    /// Keeps the keys that are `key` or come before it.
    pub fn le(self, key: &[u8]) -> (r: Range)
        ensures
            r.upper matches Bound::Included(e) && e@ == key@,
            r.lower == self.lower,
    {
        Range { lower: self.lower, upper: Bound::Included(vstd::slice::slice_to_vec(key)) }
    }

    /// Keeps the keys that come before `key`.
    pub fn lt(self, key: &[u8]) -> (r: Range)
        ensures
            r.upper matches Bound::Excluded(e) && e@ == key@,
            r.lower == self.lower,
    {
        Range { lower: self.lower, upper: Bound::Excluded(vstd::slice::slice_to_vec(key)) }
    }

    /// The query for the keys of the range.
    pub fn into_query(self) -> (q: Query)
        ensures
            q == Query::Range(self.lower, self.upper),
    {
        Query::Range(self.lower, self.upper)
    }
}

} // verus!
