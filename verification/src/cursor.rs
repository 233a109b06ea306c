//! The search engine: a cursor over the keys of a store that a query
//! wants. The cursor walks the nodes in the order of their labels, takes
//! the query along, leaves out what the query can no longer match, and
//! gives one entry at each call of `next`.

use crate::node::{node_ok, raw_count, raw_target, raw_transition};
use crate::query::{Query, State};
use crate::reader::{Node, Reader};
use crate::search::{
    emit_node, emit_own, emit_rest, entries, is_result, lemma_search_result, Entry,
};
use vstd::prelude::*;

verus! {

/// A node on the way from the root to where the cursor stands.
#[derive(Clone, Copy, Debug)]
pub struct Level<'a> {
    /// The node.
    pub node: Node<'a>,
    /// The transition to take next.
    pub next: usize,
    /// The state of the query at the node.
    pub state: State,
    /// The sum of the outputs on the way to the node.
    pub total: u64,
    /// Whether the node itself is still to be looked at.
    pub fresh: bool,
}

impl<'a> Level<'a> {
    /// What the walk still yields at and below this node, when `prefix`
    /// was read to reach it.
    pub open spec fn rest(self, data: Seq<u8>, q: Query, prefix: Seq<u8>) -> Seq<Entry> {
        if self.fresh {
            emit_node(data, self.node.address(), q, self.state, prefix, self.total as int)
        } else {
            emit_rest(
                data,
                self.node.address(),
                q,
                self.state,
                prefix,
                self.total as int,
                self.next as int,
            )
        }
    }

    /// A bound on the steps that the walk still takes at and below this
    /// node.
    pub open spec fn cost(self, data: Seq<u8>) -> nat {
        if self.fresh {
            cost_node(data, self.node.address())
        } else {
            cost_rest(data, self.node.address(), self.next as int)
        }
    }
}

/// A bound on the steps of a walk from the node at `addr`.
pub open spec fn cost_node(data: Seq<u8>, addr: int) -> nat
    decreases addr, 1int, 0int,
{
    if !node_ok(data, addr) {
        1
    } else {
        1 + cost_rest(data, addr, 0)
    }
}

/// A bound on the steps of a walk through the transitions of the node at
/// `addr` from transition `from` on.
pub open spec fn cost_rest(data: Seq<u8>, addr: int, from: int) -> nat
    decreases addr, 0int, raw_count(data, addr) - from,
{
    if !node_ok(data, addr) || from < 0 || from >= raw_count(data, addr) {
        1
    } else {
        1 + (if raw_target(data, addr, from) < addr {
            cost_node(data, raw_target(data, addr, from) as int)
        } else {
            0
        }) + cost_rest(data, addr, from + 1)
    }
}

/// What the walk still yields at and below the first `n` levels, the
/// deepest first.
pub open spec fn pending(
    levels: Seq<Level<'_>>,
    data: Seq<u8>,
    q: Query,
    key: Seq<u8>,
    n: int,
) -> Seq<Entry>
    decreases n,
{
    if n <= 0 {
        Seq::<Entry>::empty()
    } else {
        levels[n - 1].rest(data, q, key.take(n - 1)) + pending(levels, data, q, key, n - 1)
    }
}

/// A bound on the steps that the walk still takes at and below the first
/// `n` levels.
pub open spec fn pending_cost(levels: Seq<Level<'_>>, data: Seq<u8>, n: int) -> nat
    decreases n,
{
    if n <= 0 {
        0
    } else {
        levels[n - 1].cost(data) + pending_cost(levels, data, n - 1)
    }
}

/// What is pending at the first `n` levels depends only on these levels
/// and on the key as far as they reach.
pub proof fn lemma_pending_agree(
    l1: Seq<Level<'_>>,
    l2: Seq<Level<'_>>,
    data: Seq<u8>,
    q: Query,
    k1: Seq<u8>,
    k2: Seq<u8>,
    n: int,
)
    requires
        n <= l1.len(),
        n <= l2.len(),
        forall|j: int| 0 <= j < n ==> l1[j] == l2[j],
        forall|j: int| 0 <= j < n ==> #[trigger] k1.take(j) == k2.take(j),
    ensures
        pending(l1, data, q, k1, n) == pending(l2, data, q, k2, n),
        pending_cost(l1, data, n) == pending_cost(l2, data, n),
    decreases n,
{
    if n > 0 {
        lemma_pending_agree(l1, l2, data, q, k1, k2, n - 1);
        assert(k1.take(n - 1) == k2.take(n - 1));
    }
}

/// The level that is left when the node of a fresh level was looked at.
pub open spec fn opened<'a>(lv: Level<'a>) -> Level<'a> {
    Level { node: lv.node, next: 0, state: lv.state, total: lv.total, fresh: false }
}

/// The level that is left when one more transition was taken.
pub open spec fn advanced<'a>(lv: Level<'a>) -> Level<'a> {
    Level {
        node: lv.node,
        next: (lv.next + 1) as usize,
        state: lv.state,
        total: lv.total,
        fresh: false,
    }
}

/// Looking at the node of the deepest level takes its own entry, if it
/// has one, from what is pending.
pub proof fn lemma_step_fresh(
    levels: Seq<Level<'_>>,
    data: Seq<u8>,
    q: Query,
    key: Seq<u8>,
)
    requires
        levels.len() >= 1,
        levels.last().fresh,
        node_ok(data, levels.last().node.address()),
    ensures
        ({
            let n = levels.len() as int;
            let top = levels.last();
            let l2 = levels.update(n - 1, opened(top));
            &&& pending(levels, data, q, key, n) == emit_own(
                data,
                top.node.address(),
                q,
                top.state,
                key.take(n - 1),
                top.total as int,
            ) + pending(l2, data, q, key, n)
            &&& pending_cost(l2, data, n) < pending_cost(levels, data, n)
        }),
{
    let n = levels.len() as int;
    let top = levels.last();
    let l2 = levels.update(n - 1, opened(top));
    lemma_pending_agree(levels, l2, data, q, key, key, n - 1);
    let own = emit_own(data, top.node.address(), q, top.state, key.take(n - 1), top.total as int);
    let rest = emit_rest(
        data,
        top.node.address(),
        q,
        top.state,
        key.take(n - 1),
        top.total as int,
        0,
    );
    let below = pending(levels, data, q, key, n - 1);
    assert(l2[n - 1].rest(data, q, key.take(n - 1)) == rest);
    assert(levels[n - 1].rest(data, q, key.take(n - 1)) == own + rest);
    assert((own + rest) + below =~= own + (rest + below));
}

/// Passing over a transition behind which nothing is wanted changes
/// nothing of what is pending.
pub proof fn lemma_step_skip(levels: Seq<Level<'_>>, data: Seq<u8>, q: Query, key: Seq<u8>)
    requires
        levels.len() >= 1,
        !levels.last().fresh,
        node_ok(data, levels.last().node.address()),
        levels.last().next < raw_count(data, levels.last().node.address()),
        ({
            let top = levels.last();
            let t = raw_transition(data, top.node.address(), top.next as int);
            let st = q.spec_accept(top.state, t.label);
            !q.spec_can_match(st) || top.total + t.output > u64::MAX || !node_ok(
                data,
                t.target as int,
            )
        }),
    ensures
        ({
            let n = levels.len() as int;
            let l2 = levels.update(n - 1, advanced(levels.last()));
            &&& pending(levels, data, q, key, n) == pending(l2, data, q, key, n)
            &&& pending_cost(l2, data, n) < pending_cost(levels, data, n)
        }),
{
    let n = levels.len() as int;
    let top = levels.last();
    let l2 = levels.update(n - 1, advanced(top));
    lemma_pending_agree(levels, l2, data, q, key, key, n - 1);
    let addr = top.node.address();
    let i = top.next as int;
    let t = raw_transition(data, addr, i);
    assert(raw_target(data, addr, i) < addr);
    let later = emit_rest(data, addr, q, top.state, key.take(n - 1), top.total as int, i + 1);
    let st = q.spec_accept(top.state, t.label);
    assert(t.target as int == raw_target(data, addr, i));
    let first = if q.spec_can_match(st) && top.total + t.output <= u64::MAX {
        emit_node(
            data,
            t.target as int,
            q,
            st,
            key.take(n - 1).push(t.label),
            top.total + t.output,
        )
    } else {
        Seq::<Entry>::empty()
    };
    assert(first =~= Seq::<Entry>::empty());
    assert(emit_rest(data, addr, q, top.state, key.take(n - 1), top.total as int, i) == first
        + later);
    assert(first + later =~= later);
    assert(levels[n - 1].rest(data, q, key.take(n - 1)) =~= later);
    assert(l2[n - 1].rest(data, q, key.take(n - 1)) == later);
}

/// Going down a transition moves what is wanted behind it to a new
/// deepest level.
pub proof fn lemma_step_push<'a>(
    levels: Seq<Level<'a>>,
    data: Seq<u8>,
    q: Query,
    key: Seq<u8>,
    child: Level<'a>,
)
    requires
        levels.len() >= 1,
        key.len() == levels.len() - 1,
        !levels.last().fresh,
        node_ok(data, levels.last().node.address()),
        levels.last().next < raw_count(data, levels.last().node.address()),
        ({
            let top = levels.last();
            let t = raw_transition(data, top.node.address(), top.next as int);
            let st = q.spec_accept(top.state, t.label);
            &&& q.spec_can_match(st)
            &&& top.total + t.output <= u64::MAX
            &&& child.fresh
            &&& child.node.address() == t.target
            &&& child.state == st
            &&& child.total == top.total + t.output
        }),
    ensures
        ({
            let n = levels.len() as int;
            let top = levels.last();
            let t = raw_transition(data, top.node.address(), top.next as int);
            let l2 = levels.update(n - 1, advanced(top)).push(child);
            let k2 = key.push(t.label);
            &&& pending(levels, data, q, key, n) == pending(l2, data, q, k2, n + 1)
            &&& pending_cost(l2, data, n + 1) < pending_cost(levels, data, n)
        }),
{
    let n = levels.len() as int;
    let top = levels.last();
    let addr = top.node.address();
    let i = top.next as int;
    let t = raw_transition(data, addr, i);
    let l2 = levels.update(n - 1, advanced(top)).push(child);
    let k2 = key.push(t.label);
    assert forall|j: int| 0 <= j < n implies #[trigger] key.take(j) == k2.take(j) by {
        assert(key.take(j) =~= k2.take(j));
    }
    lemma_pending_agree(levels, l2, data, q, key, k2, n - 1);
    assert(raw_target(data, addr, i) < addr);
    assert(k2.take(n) =~= k2);
    assert(key.take(n - 1) =~= key);
    assert(k2.take(n - 1) =~= key);
    let first = emit_node(data, t.target as int, q, child.state, k2, child.total as int);
    let later = emit_rest(data, addr, q, top.state, key, top.total as int, i + 1);
    let below = pending(levels, data, q, key, n - 1);
    assert(levels[n - 1].rest(data, q, key.take(n - 1)) == first + later);
    assert(l2[n].rest(data, q, k2.take(n)) == first);
    assert(l2[n - 1].rest(data, q, k2.take(n - 1)) == later);
    assert(pending(l2, data, q, k2, n) == later + below);
    assert(pending(l2, data, q, k2, n + 1) == first + (later + below));
    assert((first + later) + below =~= first + (later + below));
    assert(pending_cost(l2, data, n) == l2[n - 1].cost(data) + pending_cost(l2, data, n - 1));
}

/// Leaving a level whose transitions are all taken changes nothing of
/// what is pending.
pub proof fn lemma_step_pop(levels: Seq<Level<'_>>, data: Seq<u8>, q: Query, key: Seq<u8>)
    requires
        levels.len() >= 1,
        key.len() == levels.len() - 1,
        !levels.last().fresh,
        levels.last().next >= raw_count(data, levels.last().node.address()),
    ensures
        ({
            let n = levels.len() as int;
            let l2 = levels.drop_last();
            let k2 = if key.len() > 0 {
                key.drop_last()
            } else {
                key
            };
            &&& pending(levels, data, q, key, n) == pending(l2, data, q, k2, n - 1)
            &&& pending_cost(l2, data, n - 1) < pending_cost(levels, data, n)
        }),
{
    let n = levels.len() as int;
    let l2 = levels.drop_last();
    let k2 = if key.len() > 0 {
        key.drop_last()
    } else {
        key
    };
    assert forall|j: int| 0 <= j < n - 1 implies #[trigger] key.take(j) == k2.take(j) by {
        assert(key.take(j) =~= k2.take(j));
    }
    lemma_pending_agree(levels, l2, data, q, key, k2, n - 1);
    let below = pending(levels, data, q, key, n - 1);
    assert(Seq::<Entry>::empty() + below =~= below);
}

/// A cursor over the entries of a store that a query wants.
pub struct Cursor<'a> {
    data: &'a [u8],
    query: &'a Query,
    levels: Vec<Level<'a>>,
    key: Vec<u8>,
}

impl<'a> Cursor<'a> {
    /// The node records that the cursor walks.
    pub closed spec fn body(&self) -> Seq<u8> {
        self.data@
    }

    /// The query that the cursor takes along.
    pub closed spec fn query(&self) -> Query {
        *self.query
    }

    /// The entries that the cursor has still to give, in their order.
    pub closed spec fn remaining(&self) -> Seq<Entry> {
        pending(self.levels@, self.data@, *self.query, self.key@, self.levels.len() as int)
    }

    /// A bound on the steps that the cursor has still to take.
    pub closed spec fn cost(&self) -> nat {
        pending_cost(self.levels@, self.data@, self.levels.len() as int)
    }

    /// The invariant of the cursor: every level holds a node of the
    /// store and a state of the query, and the key is as long as the
    /// way to the deepest level.
    pub closed spec fn wf(&self) -> bool {
        &&& self.levels.len() == 0 ==> self.key.len() == 0
        &&& self.levels.len() > 0 ==> self.key.len() == self.levels.len() - 1
        &&& forall|j: int|
            0 <= j < self.levels.len() ==> {
                let lv = #[trigger] self.levels[j];
                &&& lv.node.buffer() == self.data@
                &&& node_ok(self.data@, lv.node.address())
                &&& self.query.valid(lv.state)
                &&& !lv.fresh ==> lv.next <= raw_count(self.data@, lv.node.address())
            }
    }

    /// A cursor at the start of the search for what `query` wants in the
    /// store of `reader`.
    pub fn new(reader: &'a Reader, query: &'a Query) -> (c: Cursor<'a>)
        ensures
            c.wf(),
            c.body() == reader.body(),
            c.query() == *query,
            is_result(c.remaining(), reader@, *query),
    {
        let data = reader.bytes();
        let root = reader.root();
        let state = query.start();
        query.note_sized();
        let mut levels: Vec<Level<'a>> = Vec::new();
        levels.push(Level { node: root, next: 0, state, total: 0, fresh: true });
        let c = Cursor { data, query, levels, key: Vec::new() };
        proof {
            lemma_search_result(data@, reader.root_address(), *query);
            let none = Seq::<u8>::empty();
            assert(c.key@.take(0) =~= none);
            assert(pending(c.levels@, data@, *query, c.key@, 0) =~= Seq::<Entry>::empty());
            assert(c.remaining() =~= emit_node(
                data@,
                reader.root_address(),
                *query,
                query.spec_start(),
                none,
                0,
            ));
        }
        c
    }

    /// Looks at the node of the deepest level, which is fresh, and gives
    /// its own entry if it has one.
    fn step_fresh(&mut self) -> (r: Option<(Vec<u8>, u64)>)
        requires
            old(self).wf(),
            old(self).levels.len() > 0,
            old(self).levels@.last().fresh,
        ensures
            final(self).wf(),
            final(self).data@ == old(self).data@,
            *final(self).query == *old(self).query,
            final(self).cost() < old(self).cost(),
            match r {
                None => final(self).remaining() == old(self).remaining(),
                Some(e) => old(self).remaining().len() > 0 && (e.0@, e.1) == old(
                    self,
                ).remaining()[0] && final(self).remaining() == old(self).remaining().drop_first(),
            },
    {
        let top = self.levels.len() - 1;
        let lv = self.levels[top];
        let ghost before = self.levels@;
        let ghost key0 = self.key@;
        assert(before.last() == lv);
        proof {
            lemma_step_fresh(before, self.data@, *self.query, key0);
            assert(key0.take(top as int) =~= key0);
        }
        self.levels[top] = Level {
            node: lv.node,
            next: 0,
            state: lv.state,
            total: lv.total,
            fresh: false,
        };
        assert(self.levels@ =~= before.update(top as int, opened(lv)));
        let ghost own = emit_own(
            self.data@,
            lv.node.address(),
            *self.query,
            lv.state,
            key0,
            lv.total as int,
        );
        if lv.node.is_final() && self.query.is_match(lv.state) {
            match lv.total.checked_add(lv.node.final_output()) {
                Some(v) => {
                    let k = vstd::slice::slice_to_vec(self.key.as_slice());
                    proof {
                        assert(own.len() == 1 && own[0] == (k@, v));
                        assert((own + self.remaining()).drop_first() =~= self.remaining());
                    }
                    return Some((k, v));
                },
                None => {},
            }
        }
        proof {
            assert(own + self.remaining() =~= self.remaining());
        }
        None
    }

    /// Takes the next transition of the deepest level, and goes down it
    /// if something may be wanted behind it.
    fn step_down(&mut self)
        requires
            old(self).wf(),
            old(self).levels.len() > 0,
            !old(self).levels@.last().fresh,
            old(self).levels@.last().next < raw_count(
                old(self).data@,
                old(self).levels@.last().node.address(),
            ),
        ensures
            final(self).wf(),
            final(self).data@ == old(self).data@,
            *final(self).query == *old(self).query,
            final(self).cost() < old(self).cost(),
            final(self).remaining() == old(self).remaining(),
    {
        let top = self.levels.len() - 1;
        let lv = self.levels[top];
        let ghost before = self.levels@;
        let ghost key0 = self.key@;
        assert(before.last() == lv);
        let t = lv.node.transition(lv.next);
        let st = self.query.accept(lv.state, t.label);
        assert(t == raw_transition(self.data@, lv.node.address(), lv.next as int));
        let moved = Level {
            node: lv.node,
            next: lv.next + 1,
            state: lv.state,
            total: lv.total,
            fresh: false,
        };
        if self.query.can_match(st) {
            match lv.total.checked_add(t.output) {
                Some(sum) => match Node::read(self.data, t.target) {
                    Some(child) => {
                        let below = Level {
                            node: child,
                            next: 0,
                            state: st,
                            total: sum,
                            fresh: true,
                        };
                        proof {
                            lemma_step_push(before, self.data@, *self.query, key0, below);
                        }
                        self.levels[top] = moved;
                        self.levels.push(below);
                        self.key.push(t.label);
                        assert(self.levels@ =~= before.update(top as int, advanced(lv)).push(
                            below,
                        ));
                        return ;
                    },
                    None => {},
                },
                None => {},
            }
        }
        proof {
            lemma_step_skip(before, self.data@, *self.query, key0);
        }
        self.levels[top] = moved;
        assert(self.levels@ =~= before.update(top as int, advanced(lv)));
    }

    /// Leaves the deepest level, whose transitions are all taken.
    fn step_up(&mut self)
        requires
            old(self).wf(),
            old(self).levels.len() > 0,
            !old(self).levels@.last().fresh,
            old(self).levels@.last().next >= raw_count(
                old(self).data@,
                old(self).levels@.last().node.address(),
            ),
        ensures
            final(self).wf(),
            final(self).data@ == old(self).data@,
            *final(self).query == *old(self).query,
            final(self).cost() < old(self).cost(),
            final(self).remaining() == old(self).remaining(),
    {
        let ghost before = self.levels@;
        let ghost key0 = self.key@;
        proof {
            lemma_step_pop(before, self.data@, *self.query, key0);
        }
        self.levels.pop();
        self.key.pop();
        assert(self.levels@ =~= before.drop_last());
    }

    /// Gives the next entry, or `None` when all were given.
    pub fn next(&mut self) -> (r: Option<(Vec<u8>, u64)>)
        requires
            old(self).wf(),
        ensures
            final(self).wf(),
            final(self).body() == old(self).body(),
            final(self).query() == old(self).query(),
            match r {
                None => old(self).remaining().len() == 0 && final(self).remaining().len() == 0,
                Some(e) => old(self).remaining().len() > 0 && (e.0@, e.1) == old(
                    self,
                ).remaining()[0] && final(self).remaining() == old(self).remaining().drop_first(),
            },
    {
        loop
            invariant
                self.wf(),
                self.data@ == old(self).data@,
                *self.query == *old(self).query,
                self.remaining() == old(self).remaining(),
            decreases self.cost(),
        {
            let n = self.levels.len();
            if n == 0 {
                return None;
            }
            let lv = self.levels[n - 1];
            assert(self.levels@.last() == lv);
            if lv.fresh {
                match self.step_fresh() {
                    Some(e) => {
                        return Some(e);
                    },
                    None => {},
                }
            } else if lv.next < lv.node.len() {
                self.step_down();
            } else {
                self.step_up();
            }
        }
    }
}

impl<'a> Cursor<'a> {
    /// Gives all entries that are left, in their order.
    pub fn collect(self) -> (out: Vec<(Vec<u8>, u64)>)
        requires
            self.wf(),
        ensures
            entries(out@) == self.remaining(),
    {
        let mut cursor = self;
        let mut out: Vec<(Vec<u8>, u64)> = Vec::new();
        assert(entries(out@) + cursor.remaining() =~= self.remaining());
        loop
            invariant
                cursor.wf(),
                entries(out@) + cursor.remaining() == self.remaining(),
            decreases cursor.remaining().len(),
        {
            let ghost before = cursor.remaining();
            let ghost done = entries(out@);
            match cursor.next() {
                None => {
                    assert(done + before =~= done);
                    return out;
                },
                Some(e) => {
                    out.push(e);
                    proof {
                        assert(entries(out@) =~= done.push(before[0]));
                        assert(done.push(before[0]) + before.drop_first() =~= done + before);
                    }
                },
            }
        }
    }
}

impl Reader {
    /// Starts a search for the entries whose keys `query` wants.
    pub fn search<'a>(&'a self, query: &'a Query) -> (c: Cursor<'a>)
        ensures
            c.wf(),
            c.body() == self.body(),
            c.query() == *query,
            is_result(c.remaining(), self@, *query),
    {
        Cursor::new(self, query)
    }

    /// The entries whose keys `query` wants, in the order of the keys.
    pub fn find_all(&self, query: &Query) -> (out: Vec<(Vec<u8>, u64)>)
        ensures
            is_result(entries(out@), self@, *query),
    {
        Cursor::new(self, query).collect()
    }
}

} // verus!
