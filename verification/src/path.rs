//! The unfinished part of a transducer under construction: the path of
//! nodes along the key inserted last, none of them stored yet.
//!
//! Each node of the path but the last has a pending transition to the next
//! node of the path; all its other transitions lead to stored nodes.

use crate::model::{
    closed, extends, lemma_extends, lemma_step_found, lemma_step_member, lookup, shift,
};
use crate::node::{node_at, NodeModel, Transition};
use vstd::prelude::*;

verus! {

/// A transition whose target is not stored yet.
#[derive(Clone, Copy, Debug, PartialEq, Eq, Structural)]
pub struct Pending {
    pub label: u8,
    pub output: u64,
}

/// A node of the path with its pending transition, if it has one.
pub struct Frame {
    pub node: NodeModel,
    pub last: Option<Pending>,
}

/// The total output of `key` read from node `i` of the path: along pending
/// transitions within the path, along stored ones into `data`.
pub open spec fn path_lookup(path: Seq<Frame>, data: Seq<u8>, i: int, key: Seq<u8>) -> Option<int>
    decreases key.len(),
{
    if i < 0 || i >= path.len() {
        None
    } else if key.len() == 0 {
        if path[i].node.is_final {
            Some(path[i].node.final_output as int)
        } else {
            None
        }
    } else if path[i].last is Some && path[i].last->0.label == key[0] {
        shift(path_lookup(path, data, i + 1, key.drop_first()), path[i].last->0.output as int)
    } else {
        match path[i].node.step(key[0]) {
            None => None,
            Some(t) => shift(lookup(data, t.target as int, key.drop_first()), t.output as int),
        }
    }
}

/// The output of the pending transition of a frame, zero if it has none.
pub open spec fn pending_output(f: Frame) -> int {
    match f.last {
        Some(p) => p.output as int,
        None => 0,
    }
}

/// The sum of the pending outputs above node `i` of the path.
pub open spec fn above(path: Seq<Frame>, i: int) -> int
    decreases i,
{
    if i <= 0 {
        0
    } else {
        above(path, i - 1) + pending_output(path[i - 1])
    }
}

/// The node of the frame can be stored after `data`, all its targets are
/// closed, and its pending label comes after all its other labels.
pub open spec fn frame_ok(f: Frame, data: Seq<u8>) -> bool {
    &&& f.node.storable(data.len() as int)
    &&& data.len() <= usize::MAX
    &&& forall|k: int|
        0 <= k < f.node.transitions.len() ==> closed(
            data,
            (#[trigger] f.node.transitions[k]).target as int,
        )
    &&& f.last is Some ==> forall|k: int|
        0 <= k < f.node.transitions.len() ==> (#[trigger] f.node.transitions[k]).label
            < f.last->0.label
}

/// Every output of the frame, added to `sum`, fits in 64 bits.
pub open spec fn frame_bounded(f: Frame, sum: int) -> bool {
    &&& sum + f.node.final_output <= u64::MAX
    &&& forall|k: int|
        0 <= k < f.node.transitions.len() ==> sum + (#[trigger] f.node.transitions[k]).output
            <= u64::MAX
    &&& sum + pending_output(f) <= u64::MAX
}

/// The path is well formed over `data`.
pub open spec fn path_ok(path: Seq<Frame>, data: Seq<u8>) -> bool {
    &&& path.len() >= 1
    &&& forall|i: int| 0 <= i < path.len() - 1 ==> (#[trigger] path[i]).last is Some
    &&& path.last().last is None
    &&& forall|i: int| 0 <= i < path.len() ==> frame_ok(#[trigger] path[i], data)
    &&& forall|i: int| 0 <= i < path.len() ==> frame_bounded(#[trigger] path[i], above(path, i))
}

/// Reading from a node of the path depends only on the frames from that
/// node on.
pub proof fn lemma_path_suffix(pa: Seq<Frame>, pb: Seq<Frame>, data: Seq<u8>, i: int, key: Seq<u8>)
    requires
        pa.len() == pb.len(),
        forall|k: int| i <= k < pa.len() ==> pa[k] == pb[k],
    ensures
        path_lookup(pb, data, i, key) == path_lookup(pa, data, i, key),
    decreases key.len(),
{
    if 0 <= i < pa.len() && key.len() > 0 {
        if pa[i].last is Some && pa[i].last->0.label == key[0] {
            lemma_path_suffix(pa, pb, data, i + 1, key.drop_first());
        }
    }
}

/// If two paths agree above node `i`, and from node `i` every key reads
/// the same in both, then so it does from every node above; the second
/// path may stand over a buffer that extends the first.
pub proof fn lemma_path_prefix(
    pa: Seq<Frame>,
    d1: Seq<u8>,
    pb: Seq<Frame>,
    d2: Seq<u8>,
    i: int,
    j: int,
    key: Seq<u8>,
)
    requires
        0 <= j <= i,
        i < pa.len(),
        i < pb.len(),
        extends(d2, d1),
        forall|k: int| 0 <= k < i ==> pb[k] == pa[k],
        forall|k: int| 0 <= k < i ==> frame_ok(#[trigger] pa[k], d1),
        forall|w: Seq<u8>| path_lookup(pb, d2, i, w) == path_lookup(pa, d1, i, w),
    ensures
        path_lookup(pb, d2, j, key) == path_lookup(pa, d1, j, key),
    decreases key.len(),
{
    if j < i && key.len() > 0 {
        let f = pa[j];
        assert(pb[j] == f);
        assert(frame_ok(f, d1));
        if f.last is Some && f.last->0.label == key[0] {
            lemma_path_prefix(pa, d1, pb, d2, i, j + 1, key.drop_first());
        } else if f.node.step(key[0]) is Some {
            let m = lemma_step_member(f.node, key[0]);
            let t = f.node.transitions[m];
            assert(closed(d1, t.target as int));
            lemma_extends(d1, d2, t.target as int);
        }
    }
}

/// The sum of the pending outputs above a node depends only on the frames
/// above it.
pub proof fn lemma_above_agree(pa: Seq<Frame>, pb: Seq<Frame>, i: int)
    requires
        forall|k: int| 0 <= k < i ==> pending_output(pa[k]) == pending_output(pb[k]),
    ensures
        above(pa, i) == above(pb, i),
    decreases i,
{
    if i > 0 {
        lemma_above_agree(pa, pb, i - 1);
    }
}

/// The node `n` with one more transition `t` after its others.
pub open spec fn with_transition(n: NodeModel, t: Transition) -> NodeModel {
    NodeModel {
        is_final: n.is_final,
        final_output: n.final_output,
        transitions: n.transitions.push(t),
    }
}

/// Adding a transition with a larger label keeps a node storable, gives a
/// step on that label and changes no other step.
pub proof fn lemma_with_transition(n: NodeModel, t: Transition, limit: int, new_limit: int)
    requires
        n.storable(limit),
        limit <= new_limit,
        t.target < new_limit,
        forall|k: int| 0 <= k < n.transitions.len() ==> (#[trigger] n.transitions[k]).label < t.label,
    ensures
        with_transition(n, t).storable(new_limit),
        with_transition(n, t).step(t.label) == Some(t),
        forall|b: u8| b != t.label ==> with_transition(n, t).step(b) == n.step(b),
{
    let n2 = with_transition(n, t);
    let len = n.transitions.len() as int;
    assert forall|i: int, j: int| 0 <= i < j < n2.transitions.len() implies n2.transitions[i].label
        < n2.transitions[j].label by {
        if j < len {
            assert(n2.transitions[i] == n.transitions[i]);
            assert(n2.transitions[j] == n.transitions[j]);
        } else {
            assert(n2.transitions[i] == n.transitions[i]);
        }
    }
    assert forall|i: int| 0 <= i < n2.transitions.len() implies (#[trigger] n2.transitions[
        i
    ]).target < new_limit by {
        if i < len {
            assert(n2.transitions[i] == n.transitions[i]);
        }
    }
    assert(n2.transitions[len] == t);
    lemma_step_found(n2, new_limit, len);
    assert forall|b: u8| b != t.label implies n2.step(b) == n.step(b) by {
        if n.step(b) is Some {
            let k = lemma_step_member(n, b);
            assert(n2.transitions[k] == n.transitions[k]);
            lemma_step_found(n2, new_limit, k);
        } else {
            if n2.step(b) is Some {
                let k = lemma_step_member(n2, b);
                if k < len {
                    assert(n2.transitions[k] == n.transitions[k]);
                }
            }
        }
    }
}

/// The path after its last node was stored at `addr`: the node is gone,
/// and the pending transition of the node before it leads to `addr`.
pub open spec fn frozen(path: Seq<Frame>, addr: usize) -> Seq<Frame> {
    let m = path.len() - 1;
    let parent = path[m - 1];
    path.take(m).update(
        m - 1,
        Frame {
            node: with_transition(
                parent.node,
                Transition {
                    label: parent.last->0.label,
                    output: parent.last->0.output,
                    target: addr,
                },
            ),
            last: None,
        },
    )
}

/// A frame that is well formed over a buffer is so over every buffer that
/// extends it.
pub proof fn lemma_frame_ok_extends(f: Frame, d1: Seq<u8>, d2: Seq<u8>)
    requires
        frame_ok(f, d1),
        extends(d2, d1),
        d2.len() <= usize::MAX,
    ensures
        frame_ok(f, d2),
{
    assert forall|k: int| 0 <= k < f.node.transitions.len() implies closed(
        d2,
        (#[trigger] f.node.transitions[k]).target as int,
    ) by {
        lemma_extends(d1, d2, f.node.transitions[k].target as int);
    }
}

/// Reading from the last node of the path is reading from a stored node
/// with the same content.
pub proof fn lemma_top_lookup(
    path: Seq<Frame>,
    d1: Seq<u8>,
    d2: Seq<u8>,
    addr: int,
    key: Seq<u8>,
)
    requires
        path.len() >= 1,
        path.last().last is None,
        frame_ok(path.last(), d1),
        extends(d2, d1),
        node_at(d2, addr) == Some(path.last().node),
    ensures
        lookup(d2, addr, key) == path_lookup(path, d1, path.len() - 1, key),
{
    let f = path.last();
    if key.len() > 0 && f.node.step(key[0]) is Some {
        let m = lemma_step_member(f.node, key[0]);
        lemma_extends(d1, d2, f.node.transitions[m].target as int);
    }
}

/// Storing the last node of the path changes no total output.
pub proof fn lemma_freeze_lookup(pa: Seq<Frame>, d1: Seq<u8>, d2: Seq<u8>, addr: usize)
    requires
        path_ok(pa, d1),
        pa.len() >= 2,
        extends(d2, d1),
        d2.len() <= usize::MAX,
        node_at(d2, addr as int) == Some(pa.last().node),
        closed(d2, addr as int),
    ensures
        forall|key: Seq<u8>|
            path_lookup(frozen(pa, addr), d2, 0, key) == path_lookup(pa, d1, 0, key),
{
    let m = pa.len() - 1;
    let pb = frozen(pa, addr);
    let parent = pa[m - 1];
    let t = Transition { label: parent.last->0.label, output: parent.last->0.output, target: addr };
    assert(frame_ok(parent, d1));
    lemma_with_transition(parent.node, t, d1.len() as int, d2.len() as int);
    let q = m - 1;
    assert forall|w: Seq<u8>| path_lookup(pb, d2, q, w) == path_lookup(pa, d1, q, w) by {
        if w.len() > 0 {
            if w[0] == t.label {
                lemma_top_lookup(pa, d1, d2, addr as int, w.drop_first());
            } else if parent.node.step(w[0]) is Some {
                let k = lemma_step_member(parent.node, w[0]);
                lemma_extends(d1, d2, parent.node.transitions[k].target as int);
            }
        }
    }
    assert forall|key: Seq<u8>| path_lookup(pb, d2, 0, key) == path_lookup(pa, d1, 0, key) by {
        lemma_path_prefix(pa, d1, pb, d2, q, 0, key);
    }
}

/// Storing the last node of the path leaves the path well formed.
pub proof fn lemma_freeze_ok(pa: Seq<Frame>, d1: Seq<u8>, d2: Seq<u8>, addr: usize)
    requires
        path_ok(pa, d1),
        pa.len() >= 2,
        extends(d2, d1),
        d2.len() <= usize::MAX,
        node_at(d2, addr as int) == Some(pa.last().node),
        closed(d2, addr as int),
    ensures
        path_ok(frozen(pa, addr), d2),
{
    let m = pa.len() - 1;
    let pb = frozen(pa, addr);
    let parent = pa[m - 1];
    let t = Transition { label: parent.last->0.label, output: parent.last->0.output, target: addr };
    assert(frame_ok(parent, d1));
    assert(frame_bounded(parent, above(pa, m - 1)));
    lemma_with_transition(parent.node, t, d1.len() as int, d2.len() as int);
    assert forall|i: int| 0 <= i < pb.len() implies frame_ok(#[trigger] pb[i], d2) by {
        assert(frame_ok(pa[i], d1));
        lemma_frame_ok_extends(pa[i], d1, d2);
        if i == m - 1 {
            let n2 = pb[i].node;
            assert forall|k: int| 0 <= k < n2.transitions.len() implies closed(
                d2,
                (#[trigger] n2.transitions[k]).target as int,
            ) by {
                if k < parent.node.transitions.len() {
                    assert(n2.transitions[k] == parent.node.transitions[k]);
                }
            }
        }
    }
    assert forall|i: int| 0 <= i < pb.len() implies frame_bounded(
        #[trigger] pb[i],
        above(pb, i),
    ) by {
        lemma_above_agree(pa, pb, i);
        assert(frame_bounded(pa[i], above(pa, i)));
        if i == m - 1 {
            let n2 = pb[i].node;
            assert forall|k: int| 0 <= k < n2.transitions.len() implies above(pb, i) + (
            #[trigger] n2.transitions[k]).output <= u64::MAX by {
                if k < parent.node.transitions.len() {
                    assert(n2.transitions[k] == parent.node.transitions[k]);
                }
            }
        }
    }
}

/// The frame with `p` added to every output that leaves its node.
pub open spec fn raised(f: Frame, p: u64) -> Frame {
    Frame {
        node: NodeModel {
            is_final: f.node.is_final,
            final_output: if f.node.is_final {
                (f.node.final_output + p) as u64
            } else {
                f.node.final_output
            },
            transitions: Seq::new(
                f.node.transitions.len(),
                |k: int|
                    Transition {
                        label: f.node.transitions[k].label,
                        output: (f.node.transitions[k].output + p) as u64,
                        target: f.node.transitions[k].target,
                    },
            ),
        },
        last: match f.last {
            Some(l) => Some(Pending { label: l.label, output: (l.output + p) as u64 }),
            None => None,
        },
    }
}

/// The path after `p` was moved from the pending transition of node `i`
/// to the outputs that leave node `i + 1`.
pub open spec fn shared(path: Seq<Frame>, i: int, p: u64) -> Seq<Frame> {
    path.update(
        i,
        Frame {
            node: path[i].node,
            last: Some(
                Pending {
                    label: path[i].last->0.label,
                    output: (path[i].last->0.output - p) as u64,
                },
            ),
        },
    ).update(i + 1, raised(path[i + 1], p))
}

/// Raising a frame keeps its labels and targets and adds to the outputs
/// of its steps.
pub proof fn lemma_raised_step(f: Frame, p: u64, limit: int, b: u8)
    requires
        f.node.storable(limit),
    ensures
        raised(f, p).node.storable(limit),
        match f.node.step(b) {
            None => raised(f, p).node.step(b) is None,
            Some(t) => raised(f, p).node.step(b) == Some(
                Transition { label: t.label, output: (t.output + p) as u64, target: t.target },
            ),
        },
{
    let n = f.node;
    let n2 = raised(f, p).node;
    assert forall|i: int, j: int| 0 <= i < j < n2.transitions.len() implies n2.transitions[i].label
        < n2.transitions[j].label by {
        assert(n.transitions[i].label < n.transitions[j].label);
    }
    assert forall|i: int| 0 <= i < n2.transitions.len() implies (#[trigger] n2.transitions[
        i
    ]).target < limit by {
        assert(n.transitions[i].target < limit);
    }
    if n.step(b) is Some {
        let k = lemma_step_member(n, b);
        assert(n2.transitions[k].label == b);
        lemma_step_found(n2, limit, k);
    } else {
        if n2.step(b) is Some {
            let k = lemma_step_member(n2, b);
            assert(n.transitions[k].label == b);
        }
    }
}

/// The pending outputs above a node are at least each of them.
pub proof fn lemma_above_at_least(path: Seq<Frame>, i: int)
    requires
        0 <= i < path.len(),
    ensures
        above(path, i) >= 0,
        above(path, i + 1) == above(path, i) + pending_output(path[i]),
        above(path, i + 1) >= pending_output(path[i]) >= 0,
    decreases i,
{
    if i > 0 {
        lemma_above_at_least(path, i - 1);
    }
}

/// Adding `p` to the outputs that leave the node of `f` overflows none.
pub open spec fn can_raise(f: Frame, p: u64) -> bool {
    &&& f.node.final_output + p <= u64::MAX
    &&& forall|k: int|
        0 <= k < f.node.transitions.len() ==> (#[trigger] f.node.transitions[k]).output + p
            <= u64::MAX
    &&& pending_output(f) + p <= u64::MAX
}

/// From the node that received the output, every total is larger by it.
proof fn lemma_share_below(pa: Seq<Frame>, data: Seq<u8>, i: int, p: u64, limit: int, w: Seq<u8>)
    requires
        0 <= i,
        i + 1 < pa.len(),
        pa[i + 1].node.storable(limit),
        can_raise(pa[i + 1], p),
    ensures
        path_lookup(shared(pa, i, p), data, i + 1, w) == shift(
            path_lookup(pa, data, i + 1, w),
            p as int,
        ),
{
    let pb = shared(pa, i, p);
    let j = i + 1;
    let f = pa[j];
    assert(pb[j] == raised(f, p));
    if w.len() > 0 {
        if f.last is Some && f.last->0.label == w[0] {
            lemma_path_suffix(pa, pb, data, j + 1, w.drop_first());
        } else {
            lemma_raised_step(f, p, limit, w[0]);
            if f.node.step(w[0]) is Some {
                let k = lemma_step_member(f.node, w[0]);
                assert(f.node.transitions[k].output + p <= u64::MAX);
            }
        }
    }
}

/// If every total from node `i + 1` grew by `p` and the pending output of
/// node `i` shrank by `p`, every total from node `i` is what it was.
proof fn lemma_share_at(
    pa: Seq<Frame>,
    pb: Seq<Frame>,
    data: Seq<u8>,
    i: int,
    j: int,
    p: u64,
    w: Seq<u8>,
)
    requires
        0 <= i,
        j == i + 1,
        i + 1 < pa.len(),
        pa.len() == pb.len(),
        pa[i].last is Some,
        pb[i].last is Some,
        p <= pa[i].last->0.output,
        pb[i].node == pa[i].node,
        pb[i].last->0.label == pa[i].last->0.label,
        pb[i].last->0.output == pa[i].last->0.output - p,
        forall|v: Seq<u8>|
            path_lookup(pb, data, j, v) == shift(path_lookup(pa, data, j, v), p as int),
    ensures
        path_lookup(pb, data, i, w) == path_lookup(pa, data, i, w),
{
    if w.len() > 0 && pa[i].last->0.label == w[0] {
        let rest = w.drop_first();
        let below = path_lookup(pa, data, j, rest);
        assert(path_lookup(pb, data, j, rest) == shift(below, p as int));
        assert(path_lookup(pa, data, i, w) == shift(below, pa[i].last->0.output as int));
        assert(path_lookup(pb, data, i, w) == shift(
            path_lookup(pb, data, i + 1, rest),
            pb[i].last->0.output as int,
        ));
    }
}

/// In a well-formed path, the output pending at a node can be added to
/// every output that leaves the next node.
pub proof fn lemma_can_raise(pa: Seq<Frame>, data: Seq<u8>, i: int, p: u64)
    requires
        path_ok(pa, data),
        0 <= i,
        i + 1 < pa.len(),
        p <= pa[i].last->0.output,
    ensures
        pa[i].last is Some,
        pa[i + 1].node.storable(data.len() as int),
        can_raise(pa[i + 1], p),
{
    let j = i + 1;
    let f = pa[j];
    assert(pa[i].last is Some);
    assert(frame_ok(f, data));
    assert(frame_bounded(f, above(pa, j)));
    lemma_above_at_least(pa, i);
    assert forall|k: int| 0 <= k < f.node.transitions.len() implies (#[trigger] f.node.transitions[
        k
    ]).output + p <= u64::MAX by {
        assert(above(pa, j) + f.node.transitions[k].output <= u64::MAX);
    }
}

/// Moving output down the path changes no total output.
pub proof fn lemma_share_lookup(pa: Seq<Frame>, data: Seq<u8>, i: int, p: u64)
    requires
        path_ok(pa, data),
        0 <= i,
        i + 1 < pa.len(),
        p <= pa[i].last->0.output,
    ensures
        forall|key: Seq<u8>|
            path_lookup(shared(pa, i, p), data, 0, key) == path_lookup(pa, data, 0, key),
{
    let pb = shared(pa, i, p);
    lemma_can_raise(pa, data, i, p);
    let j = i + 1;
    assert forall|v: Seq<u8>| path_lookup(pb, data, j, v) == shift(
        path_lookup(pa, data, j, v),
        p as int,
    ) by {
        lemma_share_below(pa, data, i, p, data.len() as int, v);
    }
    assert forall|w: Seq<u8>| path_lookup(pb, data, i, w) == path_lookup(pa, data, i, w) by {
        lemma_share_at(pa, pb, data, i, j, p, w);
    }
    assert(extends(data, data)) by {
        assert(data.subrange(0, data.len() as int) =~= data);
    }
    assert forall|key: Seq<u8>| path_lookup(pb, data, 0, key) == path_lookup(pa, data, 0, key) by {
        lemma_path_prefix(pa, data, pb, data, i, 0, key);
    }
}

/// Moving output down the path leaves the path well formed, and lowers the
/// sum above the node that received it.
pub proof fn lemma_share_ok(pa: Seq<Frame>, data: Seq<u8>, i: int, p: u64)
    requires
        path_ok(pa, data),
        0 <= i,
        i + 1 < pa.len(),
        p <= pa[i].last->0.output,
    ensures
        path_ok(shared(pa, i, p), data),
        above(shared(pa, i, p), i) == above(pa, i),
        above(shared(pa, i, p), i + 1) == above(pa, i + 1) - p,
{
    let pb = shared(pa, i, p);
    let j = i + 1;
    let f = pa[j];
    assert(pa[i].last is Some);
    assert(frame_ok(f, data));
    assert(frame_ok(pa[i], data));
    assert(frame_bounded(f, above(pa, j)));
    assert(frame_bounded(pa[i], above(pa, i)));
    lemma_above_at_least(pa, i);
    lemma_above_at_least(pb, i);
    lemma_above_agree(pa, pb, i);
    lemma_raised_step(f, p, data.len() as int, 0);
    assert forall|k: int| 0 <= k < pb.len() - 1 implies (#[trigger] pb[k]).last is Some by {
        assert(pa[k].last is Some);
    }
    assert forall|k: int| 0 <= k < pb.len() implies frame_ok(#[trigger] pb[k], data) by {
        assert(frame_ok(pa[k], data));
        if k == j {
            let n2 = pb[k].node;
            assert forall|x: int| 0 <= x < n2.transitions.len() implies closed(
                data,
                (#[trigger] n2.transitions[x]).target as int,
            ) by {
                assert(closed(data, f.node.transitions[x].target as int));
            }
            if f.last is Some {
                assert forall|x: int| 0 <= x < n2.transitions.len() implies (
                #[trigger] n2.transitions[x]).label < pb[k].last->0.label by {
                    assert(f.node.transitions[x].label < f.last->0.label);
                }
            }
        }
    }
    assert forall|k: int| 0 <= k < pb.len() implies frame_bounded(
        #[trigger] pb[k],
        above(pb, k),
    ) by {
        assert(frame_bounded(pa[k], above(pa, k)));
        if k < i {
            lemma_above_agree(pa, pb, k);
        } else if k == j {
            let n2 = pb[k].node;
            assert forall|x: int| 0 <= x < n2.transitions.len() implies above(pb, k) + (
            #[trigger] n2.transitions[x]).output <= u64::MAX by {
                assert(above(pa, j) + f.node.transitions[x].output <= u64::MAX);
            }
        } else if k > j {
            lemma_above_beyond(pa, pb, j, k);
        }
    }
}

/// Below the two nodes between which output moved, the sums above the
/// nodes are what they were.
pub proof fn lemma_above_beyond(pa: Seq<Frame>, pb: Seq<Frame>, j: int, k: int)
    requires
        0 < j < k <= pa.len(),
        pa.len() == pb.len(),
        above(pb, j) + pending_output(pb[j]) == above(pa, j) + pending_output(pa[j]),
        forall|x: int| j < x < pa.len() ==> pa[x] == pb[x],
    ensures
        above(pb, k) == above(pa, k),
    decreases k,
{
    if k > j + 1 {
        lemma_above_beyond(pa, pb, j, k - 1);
    }
}

/// Two strings with the same first byte and the same rest are the same.
pub proof fn lemma_same_first_and_rest(a: Seq<u8>, b: Seq<u8>)
    requires
        a.len() > 0,
        b.len() > 0,
        a[0] == b[0],
        a.drop_first() == b.drop_first(),
    ensures
        a == b,
{
    assert(a.len() == a.drop_first().len() + 1);
    assert(b.len() == b.drop_first().len() + 1);
    assert forall|k: int| 0 <= k < a.len() implies a[k] == b[k] by {
        if k > 0 {
            assert(a[k] == a.drop_first()[k - 1]);
            assert(b[k] == b.drop_first()[k - 1]);
        }
    }
    assert(a =~= b);
}

/// A node with nothing but a pending transition on `label`.
pub open spec fn link(label: u8) -> Frame {
    Frame {
        node: NodeModel { is_final: false, final_output: 0, transitions: Seq::empty() },
        last: Some(Pending { label, output: 0 }),
    }
}

/// A final node without transitions.
pub open spec fn end_frame() -> Frame {
    Frame {
        node: NodeModel { is_final: true, final_output: 0, transitions: Seq::empty() },
        last: None,
    }
}

/// The path grown along `key`: the last node of `path` gets a pending
/// transition with output `rem`, and one new node follows for each further
/// byte of the key, the last of them final.
pub open spec fn extended(path: Seq<Frame>, key: Seq<u8>, rem: u64) -> Seq<Frame> {
    let m = path.len() - 1;
    Seq::new(
        key.len() + 1,
        |j: int|
            if j < m {
                path[j]
            } else if j == m {
                Frame { node: path[m].node, last: Some(Pending { label: key[m], output: rem }) }
            } else if j < key.len() {
                link(key[j])
            } else {
                end_frame()
            },
    )
}

/// From a new node of the grown path only the rest of the key is read,
/// with output zero.
proof fn lemma_extended_chain(
    path: Seq<Frame>,
    data: Seq<u8>,
    key: Seq<u8>,
    rem: u64,
    j: int,
    w: Seq<u8>,
)
    requires
        path.len() >= 1,
        path.len() - 1 < j <= key.len(),
    ensures
        path_lookup(extended(path, key, rem), data, j, w) == if w == key.skip(j) {
            Some(0int)
        } else {
            None
        },
    decreases key.len() - j,
{
    let pb = extended(path, key, rem);
    let tail = key.skip(j);
    if j == key.len() {
        assert(pb[j] == end_frame());
        if w.len() == 0 {
            assert(w =~= tail);
        } else {
            assert(end_frame().node.step(w[0]) is None);
        }
    } else {
        assert(pb[j] == link(key[j]));
        assert(tail[0] == key[j]);
        if w.len() > 0 {
            if w[0] == key[j] {
                lemma_extended_chain(path, data, key, rem, j + 1, w.drop_first());
                assert(tail.drop_first() =~= key.skip(j + 1));
                if w.drop_first() == key.skip(j + 1) {
                    lemma_same_first_and_rest(w, tail);
                }
            } else {
                assert(link(key[j]).node.step(w[0]) is None);
            }
        }
    }
}

/// From the node where the new key leaves the old path, the rest of the
/// key reads `rem`, and every other key reads what it did.
proof fn lemma_extended_fork(path: Seq<Frame>, data: Seq<u8>, key: Seq<u8>, rem: u64, w: Seq<u8>)
    requires
        path.len() >= 1,
        path.len() - 1 < key.len(),
        path.last().last is None,
        forall|k: int|
            0 <= k < path.last().node.transitions.len() ==> (#[trigger] path.last().node.transitions[
                k
            ]).label < key[path.len() - 1],
    ensures
        path_lookup(extended(path, key, rem), data, path.len() - 1, w) == if w == key.skip(
            path.len() - 1,
        ) {
            Some(rem as int)
        } else {
            path_lookup(path, data, path.len() - 1, w)
        },
{
    let m = path.len() - 1;
    let pb = extended(path, key, rem);
    let tail = key.skip(m);
    let f = path[m];
    assert(pb[m].node == f.node);
    assert(pb[m].last == Some(Pending { label: key[m], output: rem }));
    assert(tail[0] == key[m]);
    if w.len() > 0 && w[0] == key[m] {
        lemma_extended_chain(path, data, key, rem, m + 1, w.drop_first());
        assert(tail.drop_first() =~= key.skip(m + 1));
        if w.drop_first() == key.skip(m + 1) {
            lemma_same_first_and_rest(w, tail);
        }
        if f.node.step(w[0]) is Some {
            let k = lemma_step_member(f.node, w[0]);
            assert(f.node.transitions[k].label < key[m]);
        }
    }
}

/// From a node above the fork, the rest of the key reads `rem` and the
/// pending outputs down to the fork, and every other key reads what it did.
proof fn lemma_extended_above(
    path: Seq<Frame>,
    data: Seq<u8>,
    key: Seq<u8>,
    rem: u64,
    i: int,
    w: Seq<u8>,
)
    requires
        path.len() >= 1,
        path.len() - 1 < key.len(),
        path.last().last is None,
        forall|k: int|
            0 <= k < path.last().node.transitions.len() ==> (#[trigger] path.last().node.transitions[
                k
            ]).label < key[path.len() - 1],
        forall|k: int|
            0 <= k < path.len() - 1 ==> (#[trigger] path[k]).last is Some && path[k].last->0.label
                == key[k],
        0 <= i <= path.len() - 1,
    ensures
        path_lookup(extended(path, key, rem), data, i, w) == if w == key.skip(i) {
            Some(rem + above(path, path.len() - 1) - above(path, i))
        } else {
            path_lookup(path, data, i, w)
        },
    decreases path.len() - i,
{
    let m = path.len() - 1;
    let pb = extended(path, key, rem);
    let tail = key.skip(i);
    if i == m {
        lemma_extended_fork(path, data, key, rem, w);
    } else {
        assert(pb[i] == path[i]);
        assert(path[i].last is Some && path[i].last->0.label == key[i]);
        assert(tail[0] == key[i]);
        lemma_above_at_least(path, i);
        if w.len() > 0 && w[0] == key[i] {
            lemma_extended_above(path, data, key, rem, i + 1, w.drop_first());
            assert(tail.drop_first() =~= key.skip(i + 1));
            if w.drop_first() == key.skip(i + 1) {
                lemma_same_first_and_rest(w, tail);
            }
        }
    }
}

/// Growing the path along a new key adds that key with its output and
/// changes no other total.
pub proof fn lemma_extended_lookup(path: Seq<Frame>, data: Seq<u8>, key: Seq<u8>, rem: u64)
    requires
        path.len() >= 1,
        path.len() - 1 < key.len(),
        path.last().last is None,
        forall|k: int|
            0 <= k < path.last().node.transitions.len() ==> (#[trigger] path.last().node.transitions[
                k
            ]).label < key[path.len() - 1],
        forall|k: int|
            0 <= k < path.len() - 1 ==> (#[trigger] path[k]).last is Some && path[k].last->0.label
                == key[k],
    ensures
        forall|w: Seq<u8>|
            path_lookup(extended(path, key, rem), data, 0, w) == if w == key {
                Some(rem + above(path, path.len() - 1))
            } else {
                path_lookup(path, data, 0, w)
            },
{
    assert(key.skip(0) =~= key);
    assert forall|w: Seq<u8>|
        path_lookup(extended(path, key, rem), data, 0, w) == if w == key {
            Some(rem + above(path, path.len() - 1))
        } else {
            path_lookup(path, data, 0, w)
        } by {
        lemma_extended_above(path, data, key, rem, 0, w);
    }
}

/// The sum above a new node of the grown path is the sum above the fork
/// and `rem`.
proof fn lemma_extended_sum(path: Seq<Frame>, key: Seq<u8>, rem: u64, j: int)
    requires
        path.len() >= 1,
        path.len() - 1 < key.len(),
        path.last().last is None,
        0 <= j <= key.len(),
    ensures
        j <= path.len() - 1 ==> above(extended(path, key, rem), j) == above(path, j),
        j > path.len() - 1 ==> above(extended(path, key, rem), j) == above(path, path.len() - 1)
            + rem,
    decreases j,
{
    if j > 0 {
        lemma_extended_sum(path, key, rem, j - 1);
    }
}

/// Growing a well-formed path along a new key leaves it well formed.
pub proof fn lemma_extended_ok(path: Seq<Frame>, data: Seq<u8>, key: Seq<u8>, rem: u64)
    requires
        path_ok(path, data),
        path.len() - 1 < key.len(),
        forall|k: int|
            0 <= k < path.last().node.transitions.len() ==> (#[trigger] path.last().node.transitions[
                k
            ]).label < key[path.len() - 1],
        rem + above(path, path.len() - 1) <= u64::MAX,
    ensures
        path_ok(extended(path, key, rem), data),
{
    let m = path.len() - 1;
    let pb = extended(path, key, rem);
    assert forall|i: int| 0 <= i < pb.len() - 1 implies (#[trigger] pb[i]).last is Some by {
        if i < m {
            assert(path[i].last is Some);
        }
    }
    assert forall|i: int| 0 <= i < pb.len() implies frame_ok(#[trigger] pb[i], data) by {
        if i <= m {
            assert(frame_ok(path[i], data));
        } else {
            assert(frame_ok(path[m], data));
        }
    }
    assert forall|i: int| 0 <= i < pb.len() implies frame_bounded(
        #[trigger] pb[i],
        above(pb, i),
    ) by {
        lemma_extended_sum(path, key, rem, i);
        lemma_above_at_least(path, m);
        if i <= m {
            assert(frame_bounded(path[i], above(path, i)));
        }
    }
}

} // verus!
