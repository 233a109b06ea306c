//! What a search yields: the keys of a store that a query wants, with
//! their outputs, in the order of the keys.
//!
//! The result is defined by a walk over the nodes: a node gives its own
//! key if it is final and the query matches, then what each of its
//! transitions leads to, in the order of the labels. The walk leaves out
//! what the query can no longer match. This module proves that the walk
//! yields exactly the wanted keys, in strictly increasing order.

use crate::model::{
    contents_at, lemma_labels_increase, lemma_lookup_end, lemma_lookup_nonnegative,
    lemma_lookup_step, lemma_step_member, lookup,
};
use crate::node::{node_ok, raw_count, raw_final, raw_node, raw_target, raw_transition};
use crate::order::{lemma_common_prefix_unique, lemma_lex_irreflexive, lemma_lex_transitive, lex_lt};
use crate::query::{Query, State};
use vstd::prelude::*;

verus! {

/// A key with its output.
pub type Entry = (Seq<u8>, u64);

/// The entries that a list of keys with outputs holds.
pub open spec fn entries(list: Seq<(Vec<u8>, u64)>) -> Seq<Entry> {
    Seq::new(list.len(), |i: int| (list[i].0@, list[i].1))
}

/// What the node at `addr` gives for its own key.
pub open spec fn emit_own(
    data: Seq<u8>,
    addr: int,
    q: Query,
    st: State,
    prefix: Seq<u8>,
    total: int,
) -> Seq<Entry> {
    if raw_final(data, addr) && q.spec_is_match(st) && total + raw_node(data, addr).final_output
        <= u64::MAX {
        seq![(prefix, (total + raw_node(data, addr).final_output) as u64)]
    } else {
        Seq::<Entry>::empty()
    }
}

/// What a walk from the node at `addr` yields, when `prefix` was read to
/// reach it, with outputs that sum to `total`, and the query is in `st`.
pub open spec fn emit_node(
    data: Seq<u8>,
    addr: int,
    q: Query,
    st: State,
    prefix: Seq<u8>,
    total: int,
) -> Seq<Entry>
    decreases addr, 1int, 0int,
{
    if !node_ok(data, addr) {
        Seq::<Entry>::empty()
    } else {
        emit_own(data, addr, q, st, prefix, total) + emit_rest(data, addr, q, st, prefix, total, 0)
    }
}

/// What the walk yields through the transitions of the node at `addr`
/// from transition `from` on.
pub open spec fn emit_rest(
    data: Seq<u8>,
    addr: int,
    q: Query,
    st: State,
    prefix: Seq<u8>,
    total: int,
    from: int,
) -> Seq<Entry>
    decreases addr, 0int, raw_count(data, addr) - from,
{
    if !node_ok(data, addr) || from < 0 || from >= raw_count(data, addr) {
        Seq::<Entry>::empty()
    } else {
        let t = raw_transition(data, addr, from);
        let next = q.spec_accept(st, t.label);
        let first = if q.spec_can_match(next) && total + t.output <= u64::MAX && raw_target(
            data,
            addr,
            from,
        ) < addr {
            emit_node(
                data,
                raw_target(data, addr, from) as int,
                q,
                next,
                prefix.push(t.label),
                total + t.output,
            )
        } else {
            Seq::<Entry>::empty()
        };
        first + emit_rest(data, addr, q, st, prefix, total, from + 1)
    }
}

/// `k` starts with `prefix`.
pub open spec fn starts_with(k: Seq<u8>, prefix: Seq<u8>) -> bool {
    k.len() >= prefix.len() && k.take(prefix.len() as int) == prefix
}

/// The entry `(k, v)` is wanted below the node at `addr`: `k` is `prefix`
/// and then a key that is read from the node with the output that `v`
/// has beyond `total`, and the query matches it.
pub open spec fn hit(
    data: Seq<u8>,
    addr: int,
    q: Query,
    st: State,
    prefix: Seq<u8>,
    total: int,
    e: Entry,
) -> bool {
    &&& starts_with(e.0, prefix)
    &&& lookup(data, addr, e.0.skip(prefix.len() as int)) == Some(e.1 - total)
    &&& q.spec_is_match(q.run(st, e.0.skip(prefix.len() as int)))
}

/// The entry is wanted below the node at `addr` through one of its
/// transitions from `from` on.
pub open spec fn hit_from(
    data: Seq<u8>,
    addr: int,
    q: Query,
    st: State,
    prefix: Seq<u8>,
    total: int,
    from: int,
    e: Entry,
) -> bool {
    &&& hit(data, addr, q, st, prefix, total, e)
    &&& e.0.len() > prefix.len()
    &&& exists|i: int|
        from <= i < raw_count(data, addr) && #[trigger] raw_transition(data, addr, i).label
            == e.0[prefix.len() as int]
}

/// What is in a list made of two is in one of them.
pub proof fn lemma_concat_contains(a: Seq<Entry>, b: Seq<Entry>, e: Entry)
    ensures
        (a + b).contains(e) == (a.contains(e) || b.contains(e)),
{
    let c = a + b;
    if c.contains(e) {
        let i = choose|i: int| 0 <= i < c.len() && c[i] == e;
        if i < a.len() {
            assert(a[i] == e);
        } else {
            assert(b[i - a.len()] == e);
        }
    }
    if a.contains(e) {
        let i = choose|i: int| 0 <= i < a.len() && a[i] == e;
        assert(c[i] == e);
    }
    if b.contains(e) {
        let i = choose|i: int| 0 <= i < b.len() && b[i] == e;
        assert(c[i + a.len()] == e);
    }
}

/// A key starts with `prefix` and then `b` exactly if it starts with
/// `prefix` and has `b` next.
pub proof fn lemma_starts_push(k: Seq<u8>, prefix: Seq<u8>, b: u8)
    ensures
        starts_with(k, prefix.push(b)) == (starts_with(k, prefix) && k.len() > prefix.len()
            && k[prefix.len() as int] == b),
{
    let plen = prefix.len() as int;
    let pb = prefix.push(b);
    if starts_with(k, pb) {
        assert forall|j: int| 0 <= j < plen implies k.take(plen)[j] == prefix[j] by {
            assert(k.take(plen + 1)[j] == k[j]);
            assert(pb[j] == prefix[j]);
        }
        assert(k.take(plen) =~= prefix);
        assert(k.take(plen + 1)[plen] == k[plen]);
        assert(pb[plen] == b);
    }
    if starts_with(k, prefix) && k.len() > plen && k[plen] == b {
        assert forall|j: int| 0 <= j < plen + 1 implies k.take(plen + 1)[j] == pb[j] by {
            if j < plen {
                assert(k.take(plen)[j] == k[j]);
            }
        }
        assert(k.take(plen + 1) =~= pb);
    }
}

/// For a key that goes through transition `i`, being wanted below the
/// node is being wanted below the target of the transition.
proof fn lemma_hit_step(
    data: Seq<u8>,
    addr: int,
    q: Query,
    st: State,
    total: int,
    i: int,
    w: Seq<u8>,
    v: u64,
)
    requires
        node_ok(data, addr),
        0 <= i < raw_count(data, addr),
        0 <= total,
        w.len() > 0,
        w[0] == raw_transition(data, addr, i).label,
    ensures
        ({
            let t = raw_transition(data, addr, i);
            let next = q.spec_accept(st, t.label);
            (lookup(data, addr, w) == Some(v - total) && q.spec_is_match(q.run(st, w))) == (
            q.spec_can_match(next) && total + t.output <= u64::MAX && lookup(
                data,
                t.target as int,
                w.drop_first(),
            ) == Some(v - (total + t.output)) && q.spec_is_match(q.run(next, w.drop_first())))
        }),
{
    let t = raw_transition(data, addr, i);
    let next = q.spec_accept(st, t.label);
    let rest = w.drop_first();
    assert(raw_node(data, addr).transitions[i] == t);
    lemma_lookup_step(data, addr, w, i);
    lemma_lookup_nonnegative(data, t.target as int, rest);
    assert(q.run(st, w) == q.run(next, rest));
    if next == State::Dead {
        q.lemma_dead(rest);
    }
}

/// An entry through transition `i` of the node at `addr` is an entry
/// below the target of that transition, and the other way round.
pub proof fn lemma_hit_through(
    data: Seq<u8>,
    addr: int,
    q: Query,
    st: State,
    prefix: Seq<u8>,
    total: int,
    i: int,
    e: Entry,
)
    requires
        node_ok(data, addr),
        0 <= i < raw_count(data, addr),
        0 <= total,
    ensures
        ({
            let t = raw_transition(data, addr, i);
            let next = q.spec_accept(st, t.label);
            (hit(data, addr, q, st, prefix, total, e) && e.0.len() > prefix.len()
                && e.0[prefix.len() as int] == t.label) == (q.spec_can_match(next) && total
                + t.output <= u64::MAX && hit(
                data,
                t.target as int,
                q,
                next,
                prefix.push(t.label),
                total + t.output,
                e,
            ))
        }),
{
    let t = raw_transition(data, addr, i);
    let plen = prefix.len() as int;
    let k = e.0;
    lemma_starts_push(k, prefix, t.label);
    if starts_with(k, prefix.push(t.label)) {
        let w = k.skip(plen);
        assert(w.drop_first() =~= k.skip(plen + 1));
        assert(w[0] == k[plen]);
        lemma_hit_step(data, addr, q, st, total, i, w, e.1);
    }
}

/// The walk through the transitions from `from` on yields exactly the
/// entries that are wanted through them.
pub proof fn lemma_emit_rest_members(
    data: Seq<u8>,
    addr: int,
    q: Query,
    st: State,
    prefix: Seq<u8>,
    total: int,
    from: int,
    e: Entry,
)
    requires
        0 <= from,
        0 <= total,
    ensures
        emit_rest(data, addr, q, st, prefix, total, from).contains(e) == hit_from(
            data,
            addr,
            q,
            st,
            prefix,
            total,
            from,
            e,
        ),
    decreases addr, 0int, raw_count(data, addr) - from,
{
    let plen = prefix.len() as int;
    if !node_ok(data, addr) {
    } else if from >= raw_count(data, addr) {
    } else {
        let t = raw_transition(data, addr, from);
        let next = q.spec_accept(st, t.label);
        let open = q.spec_can_match(next) && total + t.output <= u64::MAX;
        assert(raw_target(data, addr, from) < addr);
        let first = if open {
            emit_node(data, t.target as int, q, next, prefix.push(t.label), total + t.output)
        } else {
            Seq::<Entry>::empty()
        };
        let later = emit_rest(data, addr, q, st, prefix, total, from + 1);
        assert(emit_rest(data, addr, q, st, prefix, total, from) == first + later);
        lemma_concat_contains(first, later, e);
        lemma_emit_rest_members(data, addr, q, st, prefix, total, from + 1, e);
        if open {
            lemma_emit_node_members(
                data,
                t.target as int,
                q,
                next,
                prefix.push(t.label),
                total + t.output,
                e,
            );
        }
        lemma_hit_through(data, addr, q, st, prefix, total, from, e);
        if hit_from(data, addr, q, st, prefix, total, from, e) {
            let i = choose|i: int|
                from <= i < raw_count(data, addr) && #[trigger] raw_transition(data, addr, i).label
                    == e.0[plen];
            if i > from {
                assert(hit_from(data, addr, q, st, prefix, total, from + 1, e));
            }
        }
        if hit_from(data, addr, q, st, prefix, total, from + 1, e) {
            let i = choose|i: int|
                from + 1 <= i < raw_count(data, addr) && #[trigger] raw_transition(
                    data,
                    addr,
                    i,
                ).label == e.0[plen];
            assert(from <= i);
        }
        if first.contains(e) {
            assert(raw_transition(data, addr, from).label == e.0[plen]);
        }
    }
}

/// The walk from a node yields exactly the entries that are wanted below
/// it.
pub proof fn lemma_emit_node_members(
    data: Seq<u8>,
    addr: int,
    q: Query,
    st: State,
    prefix: Seq<u8>,
    total: int,
    e: Entry,
)
    requires
        0 <= total,
    ensures
        emit_node(data, addr, q, st, prefix, total).contains(e) == hit(
            data,
            addr,
            q,
            st,
            prefix,
            total,
            e,
        ),
    decreases addr, 1int, 0int,
{
    let plen = prefix.len() as int;
    if !node_ok(data, addr) {
    } else {
        let own = emit_own(data, addr, q, st, prefix, total);
        let rest = emit_rest(data, addr, q, st, prefix, total, 0);
        lemma_concat_contains(own, rest, e);
        lemma_emit_rest_members(data, addr, q, st, prefix, total, 0, e);
        let k = e.0;
        if own.contains(e) {
            assert(own[0] == e);
            assert(k.take(plen) =~= prefix);
            assert(k.skip(plen) =~= Seq::<u8>::empty());
            lemma_lookup_end(data, addr, k.skip(plen));
        }
        if hit(data, addr, q, st, prefix, total, e) {
            let w = k.skip(plen);
            if w.len() == 0 {
                assert(k =~= prefix);
                lemma_lookup_end(data, addr, w);
                assert(own[0] == e);
            } else {
                let n = raw_node(data, addr);
                let i = lemma_step_member(n, w[0]);
                assert(raw_transition(data, addr, i).label == k[plen]);
            }
        }
    }
}

/// The keys of the list increase strictly.
pub open spec fn sorted_keys(r: Seq<Entry>) -> bool {
    forall|i: int, j: int| 0 <= i < j < r.len() ==> lex_lt(#[trigger] r[i].0, #[trigger] r[j].0)
}

/// The list `r` is the result of the query `q` on the map `m`: it holds
/// the entries of `m` whose keys `q` wants, and no others, in the strictly
/// increasing order of the keys.
pub open spec fn is_result(r: Seq<Entry>, m: Map<Seq<u8>, u64>, q: Query) -> bool {
    &&& sorted_keys(r)
    &&& forall|k: Seq<u8>, v: u64| #[trigger]
        r.contains((k, v)) <==> m.contains_pair(k, v) && q.accepts(k)
}

/// Two sorted lists, every key of the first before every key of the
/// second, make a sorted list.
pub proof fn lemma_sorted_concat(a: Seq<Entry>, b: Seq<Entry>)
    requires
        sorted_keys(a),
        sorted_keys(b),
        forall|i: int, j: int|
            0 <= i < a.len() && 0 <= j < b.len() ==> lex_lt(#[trigger] a[i].0, #[trigger] b[j].0),
    ensures
        sorted_keys(a + b),
{
    let c = a + b;
    assert forall|i: int, j: int| 0 <= i < j < c.len() implies lex_lt(
        #[trigger] c[i].0,
        #[trigger] c[j].0,
    ) by {
        if j < a.len() {
            assert(c[i] == a[i] && c[j] == a[j]);
        } else if i >= a.len() {
            assert(c[i] == b[i - a.len()] && c[j] == b[j - a.len()]);
        } else {
            assert(c[i] == a[i] && c[j] == b[j - a.len()]);
        }
    }
}

/// A key comes before every longer key that starts with it.
pub proof fn lemma_prefix_first(prefix: Seq<u8>, k: Seq<u8>)
    requires
        starts_with(k, prefix),
        k.len() > prefix.len(),
    ensures
        lex_lt(prefix, k),
{
    let plen = prefix.len() as int;
    assert forall|i: int| 0 <= i < plen implies prefix[i] == k[i] by {
        assert(k.take(plen)[i] == k[i]);
    }
    lemma_common_prefix_unique(prefix, k, plen);
}

/// Of two keys that start alike and then part, the one with the smaller
/// byte comes first.
pub proof fn lemma_branch_order(prefix: Seq<u8>, x: Seq<u8>, y: Seq<u8>)
    requires
        starts_with(x, prefix),
        starts_with(y, prefix),
        x.len() > prefix.len(),
        y.len() > prefix.len(),
        x[prefix.len() as int] < y[prefix.len() as int],
    ensures
        lex_lt(x, y),
{
    let plen = prefix.len() as int;
    assert forall|i: int| 0 <= i < plen implies x[i] == y[i] by {
        assert(x.take(plen)[i] == x[i]);
        assert(y.take(plen)[i] == y[i]);
    }
    lemma_common_prefix_unique(x, y, plen);
}

/// The walk through the transitions yields keys in increasing order.
pub proof fn lemma_emit_rest_sorted(
    data: Seq<u8>,
    addr: int,
    q: Query,
    st: State,
    prefix: Seq<u8>,
    total: int,
    from: int,
)
    requires
        0 <= from,
        0 <= total,
    ensures
        sorted_keys(emit_rest(data, addr, q, st, prefix, total, from)),
    decreases addr, 0int, raw_count(data, addr) - from,
{
    let plen = prefix.len() as int;
    if !node_ok(data, addr) {
    } else if from >= raw_count(data, addr) {
    } else {
        let t = raw_transition(data, addr, from);
        let next = q.spec_accept(st, t.label);
        let open = q.spec_can_match(next) && total + t.output <= u64::MAX;
        assert(raw_target(data, addr, from) < addr);
        let first = if open {
            emit_node(data, t.target as int, q, next, prefix.push(t.label), total + t.output)
        } else {
            Seq::<Entry>::empty()
        };
        let later = emit_rest(data, addr, q, st, prefix, total, from + 1);
        assert(emit_rest(data, addr, q, st, prefix, total, from) == first + later);
        lemma_emit_rest_sorted(data, addr, q, st, prefix, total, from + 1);
        if open {
            lemma_emit_node_sorted(
                data,
                t.target as int,
                q,
                next,
                prefix.push(t.label),
                total + t.output,
            );
        }
        assert forall|i: int, j: int| 0 <= i < first.len() && 0 <= j < later.len() implies lex_lt(
            #[trigger] first[i].0,
            #[trigger] later[j].0,
        ) by {
            let x = first[i];
            let y = later[j];
            assert(first.contains(x));
            assert(later.contains(y));
            lemma_emit_node_members(
                data,
                t.target as int,
                q,
                next,
                prefix.push(t.label),
                total + t.output,
                x,
            );
            lemma_emit_rest_members(data, addr, q, st, prefix, total, from + 1, y);
            lemma_starts_push(x.0, prefix, t.label);
            let m = choose|m: int|
                from + 1 <= m < raw_count(data, addr) && #[trigger] raw_transition(data, addr, m).label
                    == y.0[plen];
            lemma_labels_increase(data, addr, from, m);
            lemma_branch_order(prefix, x.0, y.0);
        }
        lemma_sorted_concat(first, later);
    }
}

/// The walk from a node yields keys in increasing order.
pub proof fn lemma_emit_node_sorted(
    data: Seq<u8>,
    addr: int,
    q: Query,
    st: State,
    prefix: Seq<u8>,
    total: int,
)
    requires
        0 <= total,
    ensures
        sorted_keys(emit_node(data, addr, q, st, prefix, total)),
    decreases addr, 1int, 0int,
{
    if node_ok(data, addr) {
        let own = emit_own(data, addr, q, st, prefix, total);
        let rest = emit_rest(data, addr, q, st, prefix, total, 0);
        lemma_emit_rest_sorted(data, addr, q, st, prefix, total, 0);
        assert forall|i: int, j: int| 0 <= i < own.len() && 0 <= j < rest.len() implies lex_lt(
            #[trigger] own[i].0,
            #[trigger] rest[j].0,
        ) by {
            let y = rest[j];
            assert(rest.contains(y));
            lemma_emit_rest_members(data, addr, q, st, prefix, total, 0, y);
            lemma_prefix_first(prefix, y.0);
        }
        lemma_sorted_concat(own, rest);
    }
}

/// The walk from the root of a store is the result of the query on the
/// map that the store holds.
pub proof fn lemma_search_result(data: Seq<u8>, root: int, q: Query)
    requires
        q.sized(),
    ensures
        is_result(
            emit_node(data, root, q, q.spec_start(), Seq::<u8>::empty(), 0),
            contents_at(data, root),
            q,
        ),
{
    let none = Seq::<u8>::empty();
    let r = emit_node(data, root, q, q.spec_start(), none, 0);
    let m = contents_at(data, root);
    lemma_emit_node_sorted(data, root, q, q.spec_start(), none, 0);
    assert forall|k: Seq<u8>, v: u64| #[trigger]
        r.contains((k, v)) <==> m.contains_pair(k, v) && q.accepts(k) by {
        lemma_emit_node_members(data, root, q, q.spec_start(), none, 0, (k, v));
        q.lemma_matches(k);
        lemma_lookup_nonnegative(data, root, k);
        assert(k.skip(0) =~= k);
        assert(k.take(0) =~= none);
        let l = lookup(data, root, k);
        assert(hit(data, root, q, q.spec_start(), none, 0, (k, v)) == (l == Some(v as int)
            && q.matches(k)));
        assert(m.contains_pair(k, v) == (l == Some(v as int)));
    }
}

/// A query has one result on a map.
pub proof fn lemma_result_unique(a: Seq<Entry>, b: Seq<Entry>, m: Map<Seq<u8>, u64>, q: Query)
    requires
        is_result(a, m, q),
        is_result(b, m, q),
    ensures
        a == b,
{
    assert forall|e: Entry| a.contains(e) == b.contains(e) by {
        assert(a.contains((e.0, e.1)) <==> m.contains_pair(e.0, e.1) && q.accepts(e.0));
        assert(b.contains((e.0, e.1)) <==> m.contains_pair(e.0, e.1) && q.accepts(e.0));
    }
    lemma_sorted_same(a, b);
}

/// Two sorted lists with the same entries are the same list.
pub proof fn lemma_sorted_same(a: Seq<Entry>, b: Seq<Entry>)
    requires
        sorted_keys(a),
        sorted_keys(b),
        forall|e: Entry| a.contains(e) == b.contains(e),
    ensures
        a == b,
    decreases a.len(),
{
    if a.len() == 0 {
        if b.len() > 0 {
            assert(b.contains(b[0]));
        }
        assert(a =~= b);
    } else {
        assert(a.contains(a[0]));
        assert(b.contains(a[0]));
        let j = choose|j: int| 0 <= j < b.len() && b[j] == a[0];
        assert(b.contains(b[0]));
        let i = choose|i: int| 0 <= i < a.len() && a[i] == b[0];
        lemma_lex_irreflexive(a[0].0);
        if j > 0 {
            assert(lex_lt(b[0].0, b[j].0));
            if i > 0 {
                assert(lex_lt(a[0].0, a[i].0));
                lemma_lex_transitive(a[0].0, b[0].0, a[0].0);
            }
        }
        assert(a[0] == b[0]);
        let ta = a.drop_first();
        let tb = b.drop_first();
        assert forall|x: int, y: int| 0 <= x < y < ta.len() implies lex_lt(
            #[trigger] ta[x].0,
            #[trigger] ta[y].0,
        ) by {
            assert(ta[x] == a[x + 1] && ta[y] == a[y + 1]);
        }
        assert forall|x: int, y: int| 0 <= x < y < tb.len() implies lex_lt(
            #[trigger] tb[x].0,
            #[trigger] tb[y].0,
        ) by {
            assert(tb[x] == b[x + 1] && tb[y] == b[y + 1]);
        }
        assert forall|e: Entry| ta.contains(e) == tb.contains(e) by {
            if ta.contains(e) {
                let x = choose|x: int| 0 <= x < ta.len() && ta[x] == e;
                assert(a[x + 1] == e);
                assert(a.contains(e));
                assert(lex_lt(a[0].0, a[x + 1].0));
                let y = choose|y: int| 0 <= y < b.len() && b[y] == e;
                assert(y > 0);
                assert(tb[y - 1] == e);
            }
            if tb.contains(e) {
                let y = choose|y: int| 0 <= y < tb.len() && tb[y] == e;
                assert(b[y + 1] == e);
                assert(b.contains(e));
                assert(lex_lt(b[0].0, b[y + 1].0));
                let x = choose|x: int| 0 <= x < a.len() && a[x] == e;
                assert(x > 0);
                assert(ta[x - 1] == e);
            }
        }
        lemma_sorted_same(ta, tb);
        assert(a =~= seq![a[0]] + ta);
        assert(b =~= seq![b[0]] + tb);
    }
}

} // verus!
