//! Building a store from keys that arrive in increasing order.
//!
//! The builder keeps the path of the key inserted last as a stack of nodes
//! that are not stored yet. A new key shares a prefix of that path; the
//! nodes below the shared prefix can get no more transitions, so they are
//! stored, each one only if the registry does not already know a stored
//! node with the same content.

use crate::error::Error;
use crate::reader::Reader;
use crate::search::{entries, sorted_keys, Entry};
use crate::model::{
    closed, contents_at, extends, lemma_extends, lookup, store_body, store_contents, store_count,
    store_ok, store_root, store_version, VERSION,
};
use crate::node::{
    node_at, raw_node, raw_target, raw_transition, write_node, NodeModel, OwnedNode, Transition,
};
use crate::order::{
    common_prefix, common_prefix_len, key_lt, lemma_common_prefix, lemma_lex_total,
    lemma_lex_transitive, lex_le, lex_lt,
};
use crate::pack::{
    le_bytes, lemma_le_bytes_len, lemma_le_round_trip, lemma_pow256_values, write_uint,
};
use crate::path::{
    above, can_raise, end_frame, extended, frame_bounded, frame_ok, frozen, lemma_above_agree,
    lemma_above_at_least, lemma_can_raise, lemma_extended_lookup, lemma_extended_ok,
    lemma_freeze_lookup, lemma_freeze_ok, lemma_share_lookup, lemma_share_ok, lemma_top_lookup,
    link, path_lookup, path_ok, raised, shared, Frame, Pending,
};
use vstd::prelude::*;

verus! {

/// A node of the path that is not stored yet.
#[derive(Debug)]
struct Unfinished {
    node: OwnedNode,
    last: Option<Pending>,
}

impl View for Unfinished {
    type V = Frame;

    closed spec fn view(&self) -> Frame {
        Frame { node: self.node@, last: self.last }
    }
}

/// The frames of a stack of unfinished nodes.
spec fn frames(stack: Seq<Unfinished>) -> Seq<Frame> {
    Seq::new(stack.len(), |i: int| stack[i]@)
}

/// A stored node that the registry remembers.
#[derive(Debug)]
struct Cell {
    node: OwnedNode,
    addr: usize,
}

/// A bounded table of stored nodes, found again by their content. A node
/// takes the slot that its hash selects and drives out what was there.
#[derive(Debug)]
struct Registry {
    slots: Vec<Option<Cell>>,
}

impl Registry {
    /// Every remembered node stands in `data` at its address, closed.
    spec fn wf(self, data: Seq<u8>) -> bool {
        forall|i: int|
            0 <= i < self.slots.len() ==> match #[trigger] self.slots[i] {
                Some(cell) => node_at(data, cell.addr as int) == Some(cell.node@) && closed(
                    data,
                    cell.addr as int,
                ),
                None => true,
            }
    }

    /// An empty registry with `size` slots.
    fn new(size: usize) -> (r: Registry)
        ensures
            r.slots.len() == size,
            forall|data: Seq<u8>| r.wf(data),
    {
        let mut slots: Vec<Option<Cell>> = Vec::new();
        let mut i: usize = 0;
        while i < size
            invariant
                i <= size,
                slots.len() == i,
                forall|k: int| 0 <= k < i ==> slots[k] is None,
            decreases size - i,
        {
            slots.push(None);
            i += 1;
        }
        Registry { slots }
    }
}

/// Whether two nodes have the same content.
fn same_node(a: &OwnedNode, b: &OwnedNode) -> (r: bool)
    ensures
        r == (a@ == b@),
{
    if a.is_final != b.is_final || a.final_output != b.final_output || a.transitions.len()
        != b.transitions.len() {
        return false;
    }
    let n = a.transitions.len();
    let mut i: usize = 0;
    while i < n
        invariant
            i <= n,
            n == a.transitions.len(),
            n == b.transitions.len(),
            forall|k: int| 0 <= k < i ==> a.transitions[k] == b.transitions[k],
        decreases n - i,
    {
        let x = a.transitions[i];
        let y = b.transitions[i];
        if x.label != y.label || x.output != y.output || x.target != y.target {
            assert(a@.transitions[i as int] != b@.transitions[i as int]);
            return false;
        }
        i += 1;
    }
    assert(a@.transitions =~= b@.transitions);
    true
}

/// A hash of the content of a node, by which the registry picks a slot:
/// nodes with the same content have the same hash.
fn hash_node(node: &OwnedNode) -> (h: u64)
    ensures
        h == node_hash(node@),
{
    let prime: u64 = 1099511628211;
    let mut h: u64 = 14695981039346656037;
    let flag: u64 = if node.is_final {
        1
    } else {
        0
    };
    h = (h ^ flag).wrapping_mul(prime);
    h = (h ^ node.final_output).wrapping_mul(prime);
    let n = node.transitions.len();
    let mut i: usize = 0;
    while i < n
        invariant
            i <= n,
            n == node.transitions.len(),
            prime == 1099511628211u64,
            h == hash_upto(node@, i as int),
        decreases n - i,
    {
        let t = node.transitions[i];
        assert(hash_upto(node@, i + 1) == mix(
            mix(mix(hash_upto(node@, i as int), t.label as u64), t.output),
            t.target as u64,
        ));
        h = (h ^ (t.label as u64)).wrapping_mul(prime);
        h = (h ^ t.output).wrapping_mul(prime);
        h = (h ^ (t.target as u64)).wrapping_mul(prime);
        i += 1;
    }
    h
}

/// One step of the hash: `v` is mixed into `h` by exclusive or, and the
/// result is multiplied by a fixed prime, modulo `2^64`.
pub open spec fn mix(h: u64, v: u64) -> u64 {
    (h ^ v).wrapping_mul(1099511628211u64)
}

/// The hash of the finality, the final output and the first `k`
/// transitions of a node.
pub open spec fn hash_upto(n: NodeModel, k: int) -> u64
    decreases k,
{
    if k <= 0 {
        mix(
            mix(
                14695981039346656037u64,
                if n.is_final {
                    1u64
                } else {
                    0u64
                },
            ),
            n.final_output,
        )
    } else {
        let t = n.transitions[k - 1];
        mix(mix(mix(hash_upto(n, k - 1), t.label as u64), t.output), t.target as u64)
    }
}

/// The hash of the content of a node: its finality, its final output and
/// the label, output and target of each transition, mixed in this order.
pub open spec fn node_hash(n: NodeModel) -> u64 {
    hash_upto(n, n.transitions.len() as int)
}

/// Stores `node`, unless the registry knows a stored node with the same
/// content, and returns the address of the stored node.
fn compile(buf: &mut Vec<u8>, registry: &mut Registry, node: OwnedNode) -> (addr: usize)
    requires
        node@.storable(old(buf)@.len() as int),
        forall|k: int|
            0 <= k < node@.transitions.len() ==> closed(
                old(buf)@,
                (#[trigger] node@.transitions[k]).target as int,
            ),
        old(registry).wf(old(buf)@),
    ensures
        extends(final(buf)@, old(buf)@),
        node_at(final(buf)@, addr as int) == Some(node@),
        closed(final(buf)@, addr as int),
        final(registry).wf(final(buf)@),
        final(registry).slots.len() == old(registry).slots.len(),
{
    let size = registry.slots.len();
    let slot = if size == 0 {
        0
    } else {
        (hash_node(&node) % (size as u64)) as usize
    };
    if size > 0 {
        match &registry.slots[slot] {
            Some(cell) => {
                if same_node(&cell.node, &node) {
                    assert(extends(buf@, buf@)) by {
                        assert(buf@.subrange(0, buf@.len() as int) =~= buf@);
                    }
                    return cell.addr;
                }
            },
            None => {},
        }
    }
    let ghost before = buf@;
    let addr = write_node(buf, &node);
    proof {
        assert(buf@.subrange(0, before.len() as int) =~= before);
        lemma_compiled_closed(before, buf@, addr as int, node@);
        assert forall|i: int| 0 <= i < registry.slots.len() implies match #[trigger] registry.slots[i] {
            Some(cell) => node_at(buf@, cell.addr as int) == Some(cell.node@) && closed(
                buf@,
                cell.addr as int,
            ),
            None => true,
        } by {
            match registry.slots[i] {
                Some(cell) => {
                    lemma_extends(before, buf@, cell.addr as int);
                },
                None => {},
            }
        }
    }
    if size > 0 {
        registry.slots[slot] = Some(Cell { node, addr });
    }
    addr
}

/// A node written after a buffer in which all its targets are closed is
/// itself closed.
pub proof fn lemma_compiled_closed(before: Seq<u8>, after: Seq<u8>, addr: int, n: NodeModel)
    requires
        extends(after, before),
        node_at(after, addr) == Some(n),
        forall|k: int|
            0 <= k < n.transitions.len() ==> closed(before, (#[trigger] n.transitions[k]).target as int),
    ensures
        closed(after, addr),
{
    assert forall|i: int| 0 <= i < crate::node::raw_count(after, addr) implies {
        let t = #[trigger] raw_target(after, addr, i) as int;
        t < addr && closed(after, t)
    } by {
        assert(raw_node(after, addr).transitions[i] == n.transitions[i]);
        assert(raw_transition(after, addr, i).target == n.transitions[i].target);
        assert(raw_target(after, addr, i) < addr);
        lemma_extends(before, after, n.transitions[i].target as int);
    }
}

/// Adds `p` to every output that leaves the node.
fn raise(u: &mut Unfinished, p: u64)
    requires
        can_raise(old(u)@, p),
    ensures
        final(u)@ == raised(old(u)@, p),
{
    if u.node.is_final {
        u.node.final_output = u.node.final_output + p;
    }
    let n = u.node.transitions.len();
    let mut k: usize = 0;
    while k < n
        invariant
            k <= n,
            n == u.node.transitions.len(),
            n == old(u).node.transitions.len(),
            u.node.is_final == old(u).node.is_final,
            u.node.final_output == raised(old(u)@, p).node.final_output,
            u.last == old(u).last,
            can_raise(old(u)@, p),
            forall|x: int|
                0 <= x < k ==> u.node.transitions[x] == raised(old(u)@, p).node.transitions[x],
            forall|x: int| k <= x < n ==> u.node.transitions[x] == old(u).node.transitions[x],
        decreases n - k,
    {
        let t = u.node.transitions[k];
        assert(old(u)@.node.transitions[k as int].output + p <= u64::MAX);
        u.node.transitions[k] = Transition {
            label: t.label,
            output: t.output + p,
            target: t.target,
        };
        k += 1;
    }
    match u.last {
        Some(l) => {
            u.last = Some(Pending { label: l.label, output: l.output + p });
        },
        None => {},
    }
    assert(u@.node.transitions =~= raised(old(u)@, p).node.transitions);
}

/// Two frames carry the same labels, pending and stored.
pub open spec fn same_labels(f: Frame, g: Frame) -> bool {
    &&& f.node.labels() == g.node.labels()
    &&& f.last is Some <==> g.last is Some
    &&& f.last is Some ==> f.last->0.label == g.last->0.label
}

/// Raising a frame changes none of its labels.
pub proof fn lemma_raised_labels(f: Frame, p: u64)
    ensures
        same_labels(raised(f, p), f),
{
    assert(raised(f, p).node.labels() =~= f.node.labels());
}

/// Lets the new key take over as much of the outputs pending along the
/// first `prefix` nodes as it can use: each pending output is cut down to
/// what it has in common with the output still to place, and what was cut
/// is added behind it. Returns the output that is left to place.
fn share_outputs(stack: &mut Vec<Unfinished>, buf: &Vec<u8>, prefix: usize, output: u64) -> (rem:
    u64)
    requires
        path_ok(frames(old(stack)@), buf@),
        prefix < old(stack).len(),
    ensures
        path_ok(frames(final(stack)@), buf@),
        final(stack).len() == old(stack).len(),
        forall|key: Seq<u8>|
            path_lookup(frames(final(stack)@), buf@, 0, key) == path_lookup(
                frames(old(stack)@),
                buf@,
                0,
                key,
            ),
        rem + above(frames(final(stack)@), prefix as int) == output,
        forall|k: int|
            0 <= k < old(stack).len() ==> same_labels(
                #[trigger] frames(final(stack)@)[k],
                frames(old(stack)@)[k],
            ),
{
    let mut out = output;
    let mut i: usize = 0;
    while i < prefix
        invariant
            i <= prefix < stack.len(),
            stack.len() == old(stack).len(),
            path_ok(frames(stack@), buf@),
            forall|key: Seq<u8>|
                path_lookup(frames(stack@), buf@, 0, key) == path_lookup(
                    frames(old(stack)@),
                    buf@,
                    0,
                    key,
                ),
            out + above(frames(stack@), i as int) == output,
            forall|k: int|
                0 <= k < old(stack).len() ==> same_labels(
                    #[trigger] frames(stack@)[k],
                    frames(old(stack)@)[k],
                ),
        decreases prefix - i,
    {
        let ghost before = frames(stack@);
        assert(before[i as int].last is Some);
        assert(before[i as int] == stack@[i as int]@);
        let pend = stack[i].last.unwrap();
        let common = if pend.output < out {
            pend.output
        } else {
            out
        };
        let add = pend.output - common;
        out = out - common;
        proof {
            lemma_above_at_least(before, i as int);
        }
        if add > 0 {
            proof {
                lemma_can_raise(before, buf@, i as int, add);
                assert(before[i + 1] == stack@[i + 1]@);
            }
            stack[i].last = Some(Pending { label: pend.label, output: common });
            raise(&mut stack[i + 1], add);
            proof {
                let after = frames(stack@);
                assert(after =~= shared(before, i as int, add));
                lemma_share_lookup(before, buf@, i as int, add);
                lemma_share_ok(before, buf@, i as int, add);
                lemma_raised_labels(before[i + 1], add);
                assert forall|k: int| 0 <= k < old(stack).len() implies same_labels(
                    #[trigger] after[k],
                    frames(old(stack)@)[k],
                ) by {
                    assert(same_labels(before[k], frames(old(stack)@)[k]));
                }
            }
        }
        i += 1;
    }
    out
}

/// Extending is transitive.
pub proof fn lemma_extends_transitive(a: Seq<u8>, b: Seq<u8>, c: Seq<u8>)
    requires
        extends(b, a),
        extends(c, b),
    ensures
        extends(c, a),
{
    assert(c.subrange(0, a.len() as int) =~= b.subrange(0, a.len() as int)) by {
        assert forall|k: int| 0 <= k < a.len() implies c[k] == b[k] by {
            assert(c.subrange(0, b.len() as int)[k] == c[k]);
        }
    }
}

/// Every buffer extends itself.
pub proof fn lemma_extends_self(a: Seq<u8>)
    ensures
        extends(a, a),
{
    assert(a.subrange(0, a.len() as int) =~= a);
}

/// What the node at depth `m` looks like once the node below it was
/// stored: it kept its transitions and got one more, on the label that
/// was pending.
pub open spec fn took_pending(f: Frame, g: Frame) -> bool {
    &&& g.last is Some
    &&& f.node.transitions.len() == g.node.transitions.len() + 1
    &&& f.node.transitions.last().label == g.last->0.label
    &&& forall|k: int|
        0 <= k < g.node.transitions.len() ==> (#[trigger] f.node.transitions[k]).label
            == g.node.transitions[k].label
}

/// Stores the nodes of the path below depth `depth`, deepest first, and
/// turns the pending transition that led to each into a stored one.
fn freeze_to(
    buf: &mut Vec<u8>,
    stack: &mut Vec<Unfinished>,
    registry: &mut Registry,
    depth: usize,
)
    requires
        path_ok(frames(old(stack)@), old(buf)@),
        old(registry).wf(old(buf)@),
        depth < old(stack).len(),
    ensures
        path_ok(frames(final(stack)@), final(buf)@),
        final(registry).wf(final(buf)@),
        final(registry).slots.len() == old(registry).slots.len(),
        extends(final(buf)@, old(buf)@),
        final(stack).len() == depth + 1,
        forall|key: Seq<u8>|
            path_lookup(frames(final(stack)@), final(buf)@, 0, key) == path_lookup(
                frames(old(stack)@),
                old(buf)@,
                0,
                key,
            ),
        forall|k: int|
            0 <= k < depth ==> #[trigger] frames(final(stack)@)[k] == frames(old(stack)@)[k],
        old(stack).len() == depth + 1 ==> frames(final(stack)@)[depth as int] == frames(
            old(stack)@,
        )[depth as int],
        old(stack).len() > depth + 1 ==> took_pending(
            frames(final(stack)@)[depth as int],
            frames(old(stack)@)[depth as int],
        ),
{
    proof {
        lemma_extends_self(buf@);
    }
    while stack.len() > depth + 1
        invariant
            depth < stack.len() <= old(stack).len(),
            path_ok(frames(stack@), buf@),
            registry.wf(buf@),
            registry.slots.len() == old(registry).slots.len(),
            extends(buf@, old(buf)@),
            forall|key: Seq<u8>|
                path_lookup(frames(stack@), buf@, 0, key) == path_lookup(
                    frames(old(stack)@),
                    old(buf)@,
                    0,
                    key,
                ),
            forall|k: int|
                0 <= k < stack.len() - 1 ==> #[trigger] frames(stack@)[k] == frames(
                    old(stack)@,
                )[k],
            stack.len() == old(stack).len() ==> frames(stack@)[stack.len() - 1] == frames(
                old(stack)@,
            )[stack.len() - 1],
            stack.len() < old(stack).len() ==> took_pending(
                frames(stack@)[stack.len() - 1],
                frames(old(stack)@)[stack.len() - 1],
            ),
        decreases stack.len(),
    {
        let ghost pa = frames(stack@);
        let ghost d1 = buf@;
        let ghost m = stack.len() - 2;
        assert(pa[m + 1] == stack@[m + 1]@);
        assert(pa[m] == stack@[m]@);
        assert(frame_ok(pa[m + 1], d1));
        assert(pa[m].last is Some);
        let top = stack.pop().unwrap();
        let addr = compile(buf, registry, top.node);
        let size = buf.len();
        assert(buf@.len() <= usize::MAX);
        let last = stack.len() - 1;
        let pend = stack[last].last.unwrap();
        stack[last].node.transitions.push(
            Transition { label: pend.label, output: pend.output, target: addr },
        );
        stack[last].last = None;
        proof {
            let pb = frames(stack@);
            assert(pb =~= frozen(pa, addr)) by {
                assert(pb.len() == frozen(pa, addr).len());
                assert forall|k: int| 0 <= k < pb.len() implies pb[k] == frozen(pa, addr)[k] by {
                    if k == m {
                        assert(pb[k].node.transitions =~= frozen(
                            pa,
                            addr,
                        )[k].node.transitions);
                    }
                }
            }
            lemma_freeze_lookup(pa, d1, buf@, addr);
            lemma_freeze_ok(pa, d1, buf@, addr);
            lemma_extends_transitive(old(buf)@, d1, buf@);
            let g = frames(old(stack)@)[m];
            assert(pa[m] == g);
            assert(took_pending(pb[m], g)) by {
                assert forall|k: int| 0 <= k < g.node.transitions.len() implies (
                #[trigger] pb[m].node.transitions[k]).label == g.node.transitions[k].label by {
                    assert(pb[m].node.transitions[k] == g.node.transitions[k]);
                }
            }
        }
    }
}

/// Grows the path along the rest of `key`: the last node gets a pending
/// transition with output `rem`, and a new node follows for every further
/// byte, the last of them final.
fn add_suffix(stack: &mut Vec<Unfinished>, key: &[u8], rem: u64)
    requires
        old(stack).len() >= 1,
        old(stack).len() - 1 < key.len(),
    ensures
        frames(final(stack)@) == extended(frames(old(stack)@), key@, rem),
{
    let ghost pz = frames(stack@);
    let ghost goal = extended(pz, key@, rem);
    let m = stack.len() - 1;
    assert(pz[m as int] == stack@[m as int]@);
    stack[m].last = Some(Pending { label: key[m], output: rem });
    let mut j: usize = m + 1;
    while j < key.len()
        invariant
            m < j <= key.len(),
            stack.len() == j,
            goal == extended(pz, key@, rem),
            pz.len() == m + 1,
            forall|k: int| 0 <= k < j ==> #[trigger] frames(stack@)[k] == goal[k],
        decreases key.len() - j,
    {
        let ghost before = frames(stack@);
        stack.push(
            Unfinished {
                node: OwnedNode { is_final: false, final_output: 0, transitions: Vec::new() },
                last: Some(Pending { label: key[j], output: 0 }),
            },
        );
        proof {
            assert forall|k: int| 0 <= k < j + 1 implies #[trigger] frames(stack@)[k]
                == goal[k] by {
                if k < j {
                    assert(frames(stack@)[k] == before[k]);
                } else {
                    assert(goal[k] == link(key@[k]));
                }
            }
        }
        j += 1;
    }
    let ghost before = frames(stack@);
    stack.push(
        Unfinished {
            node: OwnedNode { is_final: true, final_output: 0, transitions: Vec::new() },
            last: None,
        },
    );
    proof {
        assert forall|k: int| 0 <= k < goal.len() implies frames(stack@)[k] == goal[k] by {
            if k < key.len() {
                assert(frames(stack@)[k] == before[k]);
            } else {
                assert(goal[k] == end_frame());
            }
        }
        assert(frames(stack@) =~= goal);
    }
}

/// The output that the map `m` holds for `key`, as a total.
pub open spec fn total_of(m: Map<Seq<u8>, u64>, key: Seq<u8>) -> Option<int> {
    if m.contains_key(key) {
        Some(m[key] as int)
    } else {
        None
    }
}

/// The path runs along `key`: one pending transition per byte, and a last
/// node that has no transitions yet.
pub open spec fn spells(path: Seq<Frame>, key: Seq<u8>) -> bool {
    &&& path.len() == key.len() + 1
    &&& forall|i: int|
        0 <= i < key.len() ==> (#[trigger] path[i]).last is Some && path[i].last->0.label == key[i]
    &&& path.last().node.transitions.len() == 0
}

/// Where a new key leaves the path of the key before it, its next byte
/// comes after every label of the node at the fork, and the path above
/// the fork runs along the new key.
pub proof fn lemma_fork_labels(
    pz: Seq<Frame>,
    pa: Seq<Frame>,
    pb: Seq<Frame>,
    data: Seq<u8>,
    last: Seq<u8>,
    key: Seq<u8>,
    p: int,
)
    requires
        spells(pz, last),
        lex_lt(last, key),
        p == common_prefix_len(last, key),
        pa.len() == pz.len(),
        forall|k: int| 0 <= k < pz.len() ==> same_labels(#[trigger] pa[k], pz[k]),
        path_ok(pa, data),
        pb.len() == p + 1,
        forall|k: int| 0 <= k < p ==> #[trigger] pb[k] == pa[k],
        pa.len() == p + 1 ==> pb[p] == pa[p],
        pa.len() > p + 1 ==> took_pending(pb[p], pa[p]),
    ensures
        0 <= p < key.len(),
        p <= last.len(),
        forall|k: int|
            0 <= k < pb.last().node.transitions.len() ==> (#[trigger] pb.last().node.transitions[k]).label
                < key[p],
        forall|k: int|
            0 <= k < pb.len() - 1 ==> (#[trigger] pb[k]).last is Some && pb[k].last->0.label
                == key[k],
{
    lemma_common_prefix(last, key);
    assert forall|k: int| 0 <= k < pb.len() - 1 implies (#[trigger] pb[k]).last is Some
        && pb[k].last->0.label == key[k] by {
        assert(pb[k] == pa[k]);
        assert(same_labels(pa[k], pz[k]));
        assert(pz[k].last is Some && pz[k].last->0.label == last[k]);
    }
    let top = pb.last();
    assert(top == pb[p]);
    assert(same_labels(pa[p], pz[p]));
    if pa.len() == p + 1 {
        assert(pz.last() == pz[p]);
        assert(pz[p].node.labels().len() == 0);
        assert(pa[p].node.labels().len() == 0);
        assert(top.node.transitions.len() == 0);
    } else {
        assert(p < last.len());
        assert(last[p] < key[p]);
        assert(pz[p].last is Some && pz[p].last->0.label == last[p]);
        assert(frame_ok(pa[p], data));
        let g = pa[p];
        assert forall|k: int| 0 <= k < top.node.transitions.len() implies (
        #[trigger] top.node.transitions[k]).label < key[p] by {
            if k < g.node.transitions.len() {
                assert(top.node.transitions[k].label == g.node.transitions[k].label);
                assert(g.node.transitions[k].label < g.last->0.label);
            } else {
                assert(top.node.transitions[k] == top.node.transitions.last());
            }
        }
    }
}

/// The path grown along a key runs along that key.
pub proof fn lemma_extended_spells(path: Seq<Frame>, key: Seq<u8>, rem: u64)
    requires
        path.len() >= 1,
        path.len() - 1 < key.len(),
        forall|k: int|
            0 <= k < path.len() - 1 ==> (#[trigger] path[k]).last is Some && path[k].last->0.label
                == key[k],
    ensures
        spells(extended(path, key, rem), key),
{
    let pb = extended(path, key, rem);
    assert forall|i: int| 0 <= i < key.len() implies (#[trigger] pb[i]).last is Some
        && pb[i].last->0.label == key[i] by {
        if i < path.len() - 1 {
            assert(pb[i] == path[i]);
        }
    }
    assert(pb.last() == end_frame());
}

/// A key that comes after all keys of a map is new to it, so that
/// inserting it makes the map larger by one, and it then comes last.
pub proof fn lemma_insert_new_key(m: Map<Seq<u8>, u64>, last: Seq<u8>, key: Seq<u8>, output: u64)
    requires
        m.dom().finite(),
        forall|k: Seq<u8>| #[trigger] m.contains_key(k) ==> lex_le(k, last),
        lex_lt(last, key) || m == Map::<Seq<u8>, u64>::empty(),
    ensures
        !m.contains_key(key),
        m.insert(key, output).dom().finite(),
        m.insert(key, output).len() == m.len() + 1,
        forall|k: Seq<u8>| #[trigger] m.insert(key, output).contains_key(k) ==> lex_le(k, key),
{
    if m.contains_key(key) {
        assert(lex_le(key, last));
        lemma_lex_total(last, key);
    }
    assert forall|k: Seq<u8>| #[trigger] m.insert(key, output).contains_key(k) implies lex_le(
        k,
        key,
    ) by {
        if k != key {
            assert(m.contains_key(k));
            assert(lex_le(k, last));
            if k == last {
            } else {
                lemma_lex_transitive(k, last, key);
            }
        }
    }
    assert(m.insert(key, output).dom() =~= m.dom().insert(key));
}

/// A node from which every key reads what a map holds stands for that map.
pub proof fn lemma_contents(data: Seq<u8>, root: int, m: Map<Seq<u8>, u64>)
    requires
        forall|key: Seq<u8>| #[trigger] lookup(data, root, key) == total_of(m, key),
    ensures
        contents_at(data, root) == m,
{
    let c = contents_at(data, root);
    assert forall|k: Seq<u8>| c.contains_key(k) == m.contains_key(k) by {
        assert(lookup(data, root, k) == total_of(m, k));
    }
    assert forall|k: Seq<u8>| c.contains_key(k) implies c[k] == m[k] by {
        assert(lookup(data, root, k) == total_of(m, k));
    }
    assert(c =~= m);
}

/// The bytes of a store: the node records and the trailer.
pub open spec fn with_trailer(body: Seq<u8>, version: u64, root: u64, count: u64) -> Seq<u8> {
    body + le_bytes(version as nat, 8) + le_bytes(root as nat, 8) + le_bytes(count as nat, 8)
}

/// The trailer is read back as it was written, and what stands before it
/// is the body.
pub proof fn lemma_trailer(body: Seq<u8>, version: u64, root: u64, count: u64)
    ensures
        with_trailer(body, version, root, count).len() == body.len() + 24,
        store_body(with_trailer(body, version, root, count)) == body,
        store_version(with_trailer(body, version, root, count)) == version,
        store_root(with_trailer(body, version, root, count)) == root,
        store_count(with_trailer(body, version, root, count)) == count,
{
    let v = le_bytes(version as nat, 8);
    let r = le_bytes(root as nat, 8);
    let c = le_bytes(count as nat, 8);
    lemma_le_bytes_len(version as nat, 8);
    lemma_le_bytes_len(root as nat, 8);
    lemma_le_bytes_len(count as nat, 8);
    lemma_pow256_values();
    lemma_le_round_trip(version as nat, 8);
    lemma_le_round_trip(root as nat, 8);
    lemma_le_round_trip(count as nat, 8);
    let all = with_trailer(body, version, root, count);
    assert(all.len() == body.len() + 24);
    assert(store_body(all) =~= body);
    assert(all.subrange(all.len() - 24 + 8 * 0, all.len() - 16 + 8 * 0) =~= v);
    assert(all.subrange(all.len() - 24 + 8 * 1, all.len() - 16 + 8 * 1) =~= r);
    assert(all.subrange(all.len() - 24 + 8 * 2, all.len() - 16 + 8 * 2) =~= c);
}

/// The number of keys of a map, as far as 64 bits can tell.
pub open spec fn count_of(m: Map<Seq<u8>, u64>) -> u64 {
    if m.len() <= u64::MAX {
        m.len() as u64
    } else {
        u64::MAX
    }
}

/// The number of slots of the registry of a builder made by `new`.
pub const DEFAULT_REGISTRY_SIZE: usize = 10000;

/// Builds a store from keys inserted in strictly increasing order. Its
/// view is the map of the keys inserted so far to their outputs.
pub struct Builder {
    buf: Vec<u8>,
    stack: Vec<Unfinished>,
    registry: Registry,
    last: Option<Vec<u8>>,
    count: u64,
    model: Ghost<Map<Seq<u8>, u64>>,
}

impl View for Builder {
    type V = Map<Seq<u8>, u64>;

    open spec fn view(&self) -> Map<Seq<u8>, u64> {
        self.model()
    }
}

impl Builder {
    /// The keys inserted so far, with their outputs.
    pub closed spec fn model(&self) -> Map<Seq<u8>, u64> {
        self.model@
    }

    /// The key inserted last, if any.
    pub closed spec fn last_key(&self) -> Option<Seq<u8>> {
        match self.last {
            Some(l) => Some(l@),
            None => None,
        }
    }

    /// The node records written so far. They are never changed again:
    /// later inserts and the end of the build only add to them.
    pub closed spec fn written(&self) -> Seq<u8> {
        self.buf@
    }

    /// The builder takes `key` next: it comes after the key inserted last.
    pub open spec fn accepts(&self, key: Seq<u8>) -> bool {
        match self.last_key() {
            None => true,
            Some(l) => lex_lt(l, key),
        }
    }

    /// The invariant of the builder: the unfinished path is well formed
    /// over the bytes written so far, it runs along the key inserted last,
    /// and what can be read from its first node is the map of the keys
    /// inserted.
    pub closed spec fn wf(&self) -> bool {
        let path = frames(self.stack@);
        &&& path_ok(path, self.buf@)
        &&& self.registry.wf(self.buf@)
        &&& forall|key: Seq<u8>|
            #[trigger] path_lookup(path, self.buf@, 0, key) == total_of(self.model@, key)
        &&& self.model@.dom().finite()
        &&& self.count == count_of(self.model@)
        &&& match self.last {
            None => spells(path, Seq::<u8>::empty()) && self.model@ == Map::<Seq<u8>, u64>::empty(),
            Some(l) => spells(path, l@) && forall|k: Seq<u8>|
                #[trigger] self.model@.contains_key(k) ==> lex_le(k, l@),
        }
    }

    /// A builder without keys, with a registry of the default size.
    pub fn new() -> (b: Builder)
        ensures
            b.wf(),
            b@ == Map::<Seq<u8>, u64>::empty(),
            b.last_key() is None,
            b.registry_size() == DEFAULT_REGISTRY_SIZE,
    {
        Builder::with_registry_size(DEFAULT_REGISTRY_SIZE)
    }

    /// A builder without keys, whose registry remembers at most `size`
    /// stored nodes. A larger registry finds more nodes again and so
    /// writes fewer; the map that is built does not depend on it.
    pub fn with_registry_size(size: usize) -> (b: Builder)
        ensures
            b.wf(),
            b@ == Map::<Seq<u8>, u64>::empty(),
            b.last_key() is None,
            b.registry_size() == size,
    {
        let registry = Registry::new(size);
        let mut stack: Vec<Unfinished> = Vec::new();
        stack.push(
            Unfinished {
                node: OwnedNode { is_final: false, final_output: 0, transitions: Vec::new() },
                last: None,
            },
        );
        let buf: Vec<u8> = Vec::new();
        let b = Builder {
            buf,
            stack,
            registry,
            last: None,
            count: 0,
            model: Ghost(Map::<Seq<u8>, u64>::empty()),
        };
        proof {
            let path = frames(b.stack@);
            assert(path.len() == 1);
            assert(above(path, 0) == 0);
            assert(frame_ok(path[0], b.buf@));
            assert(frame_bounded(path[0], 0));
            assert forall|key: Seq<u8>| #[trigger]
                path_lookup(path, b.buf@, 0, key) == total_of(b.model@, key) by {
                if key.len() > 0 {
                    assert(path[0].node.step(key[0]) is None);
                }
            }
        }
        b
    }
}

impl Builder {
    /// The number of slots of the registry: the most stored nodes that
    /// the builder remembers at a time, so as to find them again.
    pub closed spec fn registry_size(&self) -> nat {
        self.registry.slots.len() as nat
    }

    /// Inserts `key` with `output`. The key must come after the key
    /// inserted last; if it does not, the builder refuses it and stays as
    /// it was.
    pub fn insert(&mut self, key: &[u8], output: u64) -> (r: Result<(), Error>)
        requires
            old(self).wf(),
        ensures
            final(self).wf(),
            match r {
                Ok(_) => old(self).accepts(key@) && final(self)@ == old(self)@.insert(key@, output)
                    && final(self).last_key() == Some(key@),
                Err(e) => !old(self).accepts(key@) && e == Error::OutOfOrderInsert && final(self)@
                    == old(self)@ && final(self).last_key() == old(self).last_key(),
            },
            extends(final(self).written(), old(self).written()),
            final(self).registry_size() == old(self).registry_size(),
    {
        let prefix = match &self.last {
            Some(l) => {
                if !key_lt(l.as_slice(), key) {
                    proof {
                        lemma_extends_self(self.buf@);
                    }
                    return Err(Error::OutOfOrderInsert);
                }
                common_prefix(l.as_slice(), key)
            },
            None => 0,
        };
        let ghost last = match self.last_key() {
            Some(l) => l,
            None => Seq::<u8>::empty(),
        };
        let ghost model0 = self.model@;
        let ghost pz = frames(self.stack@);
        let ghost d0 = self.buf@;
        proof {
            lemma_insert_new_key(model0, last, key@, output);
            lemma_extends_self(d0);
        }
        if key.len() == 0 {
            proof {
                if self.last is Some {
                    lemma_common_prefix(last, key@);
                }
                assert(pz[0] == self.stack@[0]@);
            }
            self.stack[0].node.is_final = true;
            self.stack[0].node.final_output = output;
            proof {
                let pc = frames(self.stack@);
                assert(pc.len() == 1);
                assert(above(pc, 0) == 0);
                assert(pc[0].node.transitions =~= pz[0].node.transitions);
                assert(frame_ok(pz[0], d0));
                assert(frame_ok(pc[0], d0));
                assert(frame_bounded(pc[0], 0));
                assert forall|w: Seq<u8>| #[trigger]
                    path_lookup(pc, d0, 0, w) == total_of(model0.insert(key@, output), w) by {
                    if w.len() > 0 {
                        assert(pc[0].node.step(w[0]) is None);
                        assert(w != key@);
                    } else {
                        assert(w =~= key@);
                    }
                }
            }
        } else {
            proof {
                if self.last is None {
                    assert(common_prefix_len(last, key@) == 0);
                    assert(lex_lt(last, key@));
                }
                lemma_common_prefix(last, key@);
            }
            let rem = share_outputs(&mut self.stack, &self.buf, prefix, output);
            let ghost pa = frames(self.stack@);
            freeze_to(&mut self.buf, &mut self.stack, &mut self.registry, prefix);
            let ghost pb = frames(self.stack@);
            let ghost d2 = self.buf@;
            proof {
                lemma_fork_labels(pz, pa, pb, d0, last, key@, prefix as int);
                lemma_above_agree(pa, pb, prefix as int);
                lemma_extended_lookup(pb, d2, key@, rem);
                lemma_extended_ok(pb, d2, key@, rem);
                lemma_extended_spells(pb, key@, rem);
            }
            add_suffix(&mut self.stack, key, rem);
            proof {
                let pc = frames(self.stack@);
                assert forall|w: Seq<u8>| #[trigger]
                    path_lookup(pc, d2, 0, w) == total_of(model0.insert(key@, output), w) by {
                    assert(path_lookup(pb, d2, 0, w) == path_lookup(pa, d0, 0, w));
                    assert(path_lookup(pa, d0, 0, w) == path_lookup(pz, d0, 0, w));
                    assert(path_lookup(pz, d0, 0, w) == total_of(model0, w));
                }
            }
        }
        self.last = Some(vstd::slice::slice_to_vec(key));
        if self.count < u64::MAX {
            self.count = self.count + 1;
        }
        self.model = Ghost(model0.insert(key@, output));
        Ok(())
    }

    /// The node records written so far. A caller that streams the store
    /// to a sink may send what is new of them after each insert.
    pub fn bytes_written(&self) -> (r: &[u8])
        ensures
            r@ == self.written(),
    {
        self.buf.as_slice()
    }

    /// The number of keys inserted so far, as far as 64 bits can tell.
    pub fn len(&self) -> (n: u64)
        requires
            self.wf(),
        ensures
            n == count_of(self@),
    {
        self.count
    }

    /// Stores what is left of the path and the trailer, and returns the
    /// store: the bytes that hold the map of the keys inserted.
    pub fn finish(self) -> (bytes: Vec<u8>)
        requires
            self.wf(),
        ensures
            store_ok(bytes@),
            store_contents(bytes@) == self@,
            store_count(bytes@) == count_of(self@),
            extends(store_body(bytes@), self.written()),
    {
        let ghost model0 = self.model@;
        let ghost pz = frames(self.stack@);
        let ghost d0 = self.buf@;
        let Builder { buf, stack, registry, last, count, model } = self;
        let mut buf = buf;
        let mut stack = stack;
        let mut registry = registry;
        freeze_to(&mut buf, &mut stack, &mut registry, 0);
        let ghost pa = frames(stack@);
        let ghost d1 = buf@;
        assert(pa[0] == stack@[0]@);
        assert(frame_ok(pa[0], d1));
        let root = stack.pop().unwrap();
        let addr = compile(&mut buf, &mut registry, root.node);
        let ghost d2 = buf@;
        proof {
            assert forall|key: Seq<u8>| lookup(d2, addr as int, key) == total_of(model0, key) by {
                lemma_top_lookup(pa, d1, d2, addr as int, key);
                assert(path_lookup(pa, d1, 0, key) == path_lookup(pz, d0, 0, key));
            }
            lemma_contents(d2, addr as int, model0);
            lemma_extends_transitive(d0, d1, d2);
        }
        write_uint(&mut buf, VERSION, 8);
        write_uint(&mut buf, addr as u64, 8);
        write_uint(&mut buf, count, 8);
        proof {
            lemma_trailer(d2, VERSION, addr as u64, count);
        }
        buf
    }
}

/// The map that a list of entries spells out. Where keys increase
/// strictly, no key has two entries.
pub open spec fn map_of(list: Seq<Entry>) -> Map<Seq<u8>, u64> {
    Map::new(
        |k: Seq<u8>| exists|j: int| 0 <= j < list.len() && (#[trigger] list[j]).0 == k,
        |k: Seq<u8>| list[choose|j: int| 0 <= j < list.len() && (#[trigger] list[j]).0 == k].1,
    )
}

/// In the map of a sorted list every entry of the list is found with its
/// own output.
pub proof fn lemma_map_of(list: Seq<Entry>, j: int)
    requires
        sorted_keys(list),
        0 <= j < list.len(),
    ensures
        map_of(list).contains_pair(list[j].0, list[j].1),
{
    let k = list[j].0;
    let c = choose|c: int| 0 <= c < list.len() && (#[trigger] list[c]).0 == k;
    lemma_lex_total(list[c].0, list[j].0);
    if c < j {
        assert(lex_lt(list[c].0, list[j].0));
    } else if j < c {
        assert(lex_lt(list[j].0, list[c].0));
    }
}

/// The map of a sorted list with one more entry at its end is the map of
/// the list with that entry inserted.
pub proof fn lemma_map_of_push(list: Seq<Entry>, e: Entry)
    requires
        sorted_keys(list.push(e)),
    ensures
        map_of(list.push(e)) == map_of(list).insert(e.0, e.1),
{
    let longer = list.push(e);
    let n = list.len() as int;
    assert forall|a: int, b: int| 0 <= a < b < list.len() implies lex_lt(
        #[trigger] list[a].0,
        #[trigger] list[b].0,
    ) by {
        assert(longer[a] == list[a] && longer[b] == list[b]);
    }
    let m1 = map_of(longer);
    let m2 = map_of(list).insert(e.0, e.1);
    assert forall|k: Seq<u8>| m1.contains_key(k) == m2.contains_key(k) by {
        if m1.contains_key(k) {
            let j = choose|j: int| 0 <= j < longer.len() && (#[trigger] longer[j]).0 == k;
            if j < n {
                assert(list[j].0 == k);
            }
        }
        if m2.contains_key(k) && k != e.0 {
            let j = choose|j: int| 0 <= j < list.len() && (#[trigger] list[j]).0 == k;
            assert(longer[j].0 == k);
        }
        if k == e.0 {
            assert(longer[n].0 == k);
        }
    }
    assert forall|k: Seq<u8>| m1.contains_key(k) implies m1[k] == m2[k] by {
        let j = choose|j: int| 0 <= j < longer.len() && (#[trigger] longer[j]).0 == k;
        lemma_map_of(longer, j);
        if j < n {
            assert(longer[j] == list[j]);
            lemma_map_of(list, j);
            assert(lex_lt(longer[j].0, longer[n].0));
            lemma_lex_total(k, e.0);
        }
    }
    assert(m1 =~= m2);
}

impl Builder {
    /// Finishes the store and opens it for reading. What is read is what
    /// was inserted.
    pub fn into_reader(self) -> (r: Reader)
        requires
            self.wf(),
        ensures
            r@ == self@,
            r.recorded_len() == count_of(self@),
    {
        let bytes = self.finish();
        match Reader::open(bytes) {
            Ok(r) => r,
            Err(_) => vstd::pervasive::unreached(),
        }
    }
}

/// Builds a store from a list of entries. The keys must increase
/// strictly; the store then holds exactly the entries, and otherwise
/// nothing is built.
pub fn from_entries(list: &Vec<(Vec<u8>, u64)>) -> (r: Result<Vec<u8>, Error>)
    ensures
        match r {
            Ok(bytes) => sorted_keys(entries(list@)) && store_ok(bytes@) && store_contents(bytes@)
                == map_of(entries(list@)),
            Err(e) => !sorted_keys(entries(list@)) && e == Error::OutOfOrderInsert,
        },
{
    let ghost all = entries(list@);
    let mut b = Builder::new();
    let n = list.len();
    let mut i: usize = 0;
    proof {
        assert(map_of(all.take(0)) =~= Map::<Seq<u8>, u64>::empty());
    }
    while i < n
        invariant
            i <= n,
            n == list.len(),
            all == entries(list@),
            b.wf(),
            sorted_keys(all.take(i as int)),
            b@ == map_of(all.take(i as int)),
            b.last_key() == if i == 0 {
                None::<Seq<u8>>
            } else {
                Some(all[i - 1].0)
            },
        decreases n - i,
    {
        let ghost head = all.take(i as int);
        let ghost e = all[i as int];
        match b.insert(list[i].0.as_slice(), list[i].1) {
            Ok(_) => {
                proof {
                    let longer = all.take(i + 1);
                    assert(longer =~= head.push(e));
                    assert forall|x: int, y: int| 0 <= x < y < longer.len() implies lex_lt(
                        #[trigger] longer[x].0,
                        #[trigger] longer[y].0,
                    ) by {
                        assert(longer[x] == all[x] && longer[y] == all[y]);
                        if y < i {
                            assert(head[x] == all[x] && head[y] == all[y]);
                        } else if x < i - 1 {
                            assert(head[x] == all[x] && head[i - 1] == all[i - 1]);
                            lemma_lex_transitive(all[x].0, all[i - 1].0, all[i as int].0);
                        }
                    }
                    lemma_map_of_push(head, e);
                }
            },
            Err(_) => {
                assert(!lex_lt(all[i - 1].0, all[i as int].0));
                return Err(Error::OutOfOrderInsert);
            },
        }
        i += 1;
    }
    proof {
        assert(all.take(n as int) =~= all);
    }
    Ok(b.finish())
}

} // verus!
