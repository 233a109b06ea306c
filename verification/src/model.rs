//! What a buffer of node records means: the map from keys to outputs that
//! is read off by walking from a node along the bytes of a key.

use crate::error::Error;
use crate::node::{
    lemma_same_record, node_at, node_ok, raw_count, raw_node, raw_target, raw_transition,
    NodeModel,
};
use crate::pack::le_value;
use vstd::prelude::*;

verus! {

/// The number of bytes in the trailer that ends a store: the format
/// version, the address of the root node and the number of keys, eight
/// bytes each, least significant byte first.
pub const TRAILER_LEN: usize = 24;

/// The format version that this library writes and reads.
pub const VERSION: u64 = 1;

/// Field `k` (0, 1 or 2) of the trailer of `data`.
pub open spec fn trailer_field(data: Seq<u8>, k: int) -> nat {
    le_value(data.subrange(data.len() - 24 + 8 * k, data.len() - 16 + 8 * k))
}

/// The node records of a store: everything before the trailer.
pub open spec fn store_body(data: Seq<u8>) -> Seq<u8> {
    data.subrange(0, data.len() - 24)
}

/// The format version that `data` announces.
pub open spec fn store_version(data: Seq<u8>) -> nat {
    trailer_field(data, 0)
}

/// The address of the root node that `data` announces.
pub open spec fn store_root(data: Seq<u8>) -> nat {
    trailer_field(data, 1)
}

/// The number of keys that `data` announces.
pub open spec fn store_count(data: Seq<u8>) -> nat {
    trailer_field(data, 2)
}

/// `data` is a store: it ends in a trailer of the right version whose root
/// address holds a node.
pub open spec fn store_ok(data: Seq<u8>) -> bool {
    &&& data.len() >= 24
    &&& store_version(data) == VERSION
    &&& node_ok(store_body(data), store_root(data) as int)
}

/// The map that the store `data` holds.
pub open spec fn store_contents(data: Seq<u8>) -> Map<Seq<u8>, u64> {
    contents_at(store_body(data), store_root(data) as int)
}

/// Why `data` is refused, if it is no store.
pub open spec fn open_error(data: Seq<u8>) -> Error {
    if data.len() >= 24 && store_version(data) != VERSION {
        Error::VersionMismatch { expected: VERSION, found: store_version(data) as u64 }
    } else {
        Error::CorruptData
    }
}

/// Adds `by` to a total output, if there is one.
pub open spec fn shift(total: Option<int>, by: int) -> Option<int> {
    match total {
        None => None,
        Some(v) => Some(v + by),
    }
}

/// The total output of `key` read from the node at `addr`: the sum of the
/// outputs of the transitions taken and of the final output of the node
/// reached. `None` if a transition is missing, a record on the way is not a
/// node, or the node reached is not final.
pub open spec fn lookup(data: Seq<u8>, addr: int, key: Seq<u8>) -> Option<int>
    decreases key.len(),
{
    match node_at(data, addr) {
        None => None,
        Some(n) => if key.len() == 0 {
            if n.is_final {
                Some(n.final_output as int)
            } else {
                None
            }
        } else {
            match n.step(key[0]) {
                None => None,
                Some(t) => shift(lookup(data, t.target as int, key.drop_first()), t.output as int),
            }
        },
    }
}

/// The map that the node at `root` stands for: every key with a total
/// output that fits in 64 bits, with that output.
pub open spec fn contents_at(data: Seq<u8>, root: int) -> Map<Seq<u8>, u64> {
    Map::new(
        |k: Seq<u8>| lookup(data, root, k) is Some && lookup(data, root, k)->0 <= u64::MAX,
        |k: Seq<u8>| lookup(data, root, k)->0 as u64,
    )
}

/// Everything that can be reached from `addr` is a node.
pub open spec fn closed(data: Seq<u8>, addr: int) -> bool
    decreases addr,
{
    &&& node_ok(data, addr)
    &&& forall|i: int|
        0 <= i < raw_count(data, addr) ==> {
            let t = #[trigger] raw_target(data, addr, i) as int;
            t < addr && closed(data, t)
        }
}

/// The labels of a node increase from each transition to every later one.
pub proof fn lemma_labels_increase(data: Seq<u8>, addr: int, i: int, j: int)
    requires
        node_ok(data, addr),
        0 <= i < j < raw_count(data, addr),
    ensures
        raw_transition(data, addr, i).label < raw_transition(data, addr, j).label,
    decreases j - i,
{
    if i + 1 < j {
        lemma_labels_increase(data, addr, i, j - 1);
    }
    assert(crate::node::raw_label(data, addr, j - 1) < crate::node::raw_label(data, addr, j));
}

/// A node read from a buffer can be stored at its address.
pub proof fn lemma_node_ok_storable(data: Seq<u8>, addr: int)
    requires
        node_ok(data, addr),
    ensures
        raw_node(data, addr).storable(addr),
{
    let n = raw_node(data, addr);
    assert forall|i: int, j: int| 0 <= i < j < n.transitions.len() implies n.transitions[i].label
        < n.transitions[j].label by {
        lemma_labels_increase(data, addr, i, j);
    }
    assert forall|i: int| 0 <= i < n.transitions.len() implies (#[trigger] n.transitions[i]).target
        < addr by {
        assert(raw_target(data, addr, i) < addr);
    }
    if !n.is_final {
        assert(data.subrange(addr + 5, addr + 5).len() == 0);
    }
}

/// In a node whose labels increase, the transition on a label is the one
/// that carries it.
pub proof fn lemma_step_found(n: NodeModel, limit: int, i: int)
    requires
        n.storable(limit),
        0 <= i < n.transitions.len(),
    ensures
        n.step(n.transitions[i].label) == Some(n.transitions[i]),
{
    let label = n.transitions[i].label;
    let j = choose|j: int| 0 <= j < n.transitions.len() && n.transitions[j].label == label;
    if j < i {
        assert(n.transitions[j].label < n.transitions[i].label);
    } else if i < j {
        assert(n.transitions[i].label < n.transitions[j].label);
    }
}

/// The transition that a step takes is one of the node's.
pub proof fn lemma_step_member(n: NodeModel, label: u8) -> (i: int)
    requires
        n.step(label) is Some,
    ensures
        0 <= i < n.transitions.len(),
        n.transitions[i].label == label,
        n.step(label) == Some(n.transitions[i]),
{
    choose|i: int| 0 <= i < n.transitions.len() && n.transitions[i].label == label
}

/// Total outputs are sums of unsigned numbers.
pub proof fn lemma_lookup_nonnegative(data: Seq<u8>, addr: int, key: Seq<u8>)
    ensures
        lookup(data, addr, key) is Some ==> lookup(data, addr, key)->0 >= 0,
    decreases key.len(),
{
    if key.len() > 0 {
        match node_at(data, addr) {
            None => {},
            Some(n) => match n.step(key[0]) {
                None => {},
                Some(t) => {
                    lemma_lookup_nonnegative(data, t.target as int, key.drop_first());
                },
            },
        }
    }
}

/// Appending bytes leaves everything reachable from `addr` a node.
pub proof fn lemma_closed_extend(data: Seq<u8>, ext: Seq<u8>, addr: int)
    requires
        closed(data, addr),
    ensures
        closed(data + ext, addr),
    decreases addr,
{
    lemma_same_record(data, data + ext, addr);
    assert(raw_node(data + ext, addr) == raw_node(data, addr));
    assert forall|i: int| 0 <= i < raw_count(data + ext, addr) implies {
        let t = #[trigger] raw_target(data + ext, addr, i) as int;
        t < addr && closed(data + ext, t)
    } by {
        assert(raw_node(data + ext, addr).transitions[i] == raw_node(data, addr).transitions[i]);
        let t = raw_target(data, addr, i) as int;
        assert(t < addr && closed(data, t));
        assert(raw_transition(data + ext, addr, i).target == raw_transition(
            data,
            addr,
            i,
        ).target);
        assert(raw_target(data + ext, addr, i) < addr);
        assert(raw_target(data + ext, addr, i) == t);
        lemma_closed_extend(data, ext, t);
    }
}

/// Appending bytes changes no total output read from a closed node.
pub proof fn lemma_lookup_extend(data: Seq<u8>, ext: Seq<u8>, addr: int, key: Seq<u8>)
    requires
        closed(data, addr),
    ensures
        lookup(data + ext, addr, key) == lookup(data, addr, key),
    decreases key.len(),
{
    lemma_same_record(data, data + ext, addr);
    if key.len() > 0 {
        let n = raw_node(data, addr);
        if n.step(key[0]) is Some {
            let i = lemma_step_member(n, key[0]);
            let t = raw_target(data, addr, i) as int;
            assert(t < addr && closed(data, t));
            assert(n.transitions[i].target == t);
            lemma_lookup_extend(data, ext, t, key.drop_first());
        }
    }
}

/// Reading a key from a node follows the transition that carries the
/// first byte of the key.
pub proof fn lemma_lookup_step(data: Seq<u8>, addr: int, key: Seq<u8>, j: int)
    requires
        node_ok(data, addr),
        key.len() > 0,
        0 <= j < raw_node(data, addr).transitions.len(),
        raw_node(data, addr).transitions[j].label == key[0],
    ensures
        lookup(data, addr, key) == shift(
            lookup(data, raw_node(data, addr).transitions[j].target as int, key.drop_first()),
            raw_node(data, addr).transitions[j].output as int,
        ),
{
    lemma_node_ok_storable(data, addr);
    lemma_step_found(raw_node(data, addr), addr, j);
}

/// A key whose first byte no transition carries is not read.
pub proof fn lemma_lookup_missing(data: Seq<u8>, addr: int, key: Seq<u8>)
    requires
        key.len() > 0,
        forall|j: int|
            0 <= j < raw_node(data, addr).transitions.len() ==> raw_node(
                data,
                addr,
            ).transitions[j].label != key[0],
    ensures
        lookup(data, addr, key) is None,
{
}

/// The empty key is read at a node exactly if the node is final.
pub proof fn lemma_lookup_end(data: Seq<u8>, addr: int, key: Seq<u8>)
    requires
        node_ok(data, addr),
        key.len() == 0,
    ensures
        lookup(data, addr, key) == if raw_node(data, addr).is_final {
            Some(raw_node(data, addr).final_output as int)
        } else {
            None
        },
{
}

/// `new` is `old` with bytes appended.
pub open spec fn extends(new: Seq<u8>, old: Seq<u8>) -> bool {
    old.len() <= new.len() && new.subrange(0, old.len() as int) == old
}

/// What is closed in a buffer stays closed, and reads the same, in every
/// buffer that extends it.
pub proof fn lemma_extends(old: Seq<u8>, new: Seq<u8>, addr: int)
    requires
        extends(new, old),
        closed(old, addr),
    ensures
        closed(new, addr),
        node_at(new, addr) == node_at(old, addr),
        forall|key: Seq<u8>| lookup(new, addr, key) == lookup(old, addr, key),
{
    let ext = new.skip(old.len() as int);
    assert(new =~= old + ext);
    lemma_closed_extend(old, ext, addr);
    lemma_same_record(old, new, addr);
    assert forall|key: Seq<u8>| lookup(new, addr, key) == lookup(old, addr, key) by {
        lemma_lookup_extend(old, ext, addr, key);
    }
}

} // verus!
