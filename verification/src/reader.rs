//! Reading a store: decoding nodes in place and looking keys up.

use crate::error::Error;
use crate::model::{
    contents_at, lemma_lookup_nonnegative, lemma_node_ok_storable, lemma_lookup_end,
    lemma_lookup_missing, lemma_lookup_step, lookup, open_error, shift, store_body, store_contents,
    store_count, store_ok, store_root, TRAILER_LEN, VERSION,
};
use crate::node::{
    labels_at, lemma_slot_bounds, node_ok, outputs_at, raw_addr_width, raw_count, raw_final,
    raw_final_output, raw_label, raw_node, raw_out_width, raw_target, targets_at, NodeModel,
    Transition,
};
use crate::pack::{lemma_le_value_bound, lemma_pow256_values, read_uint};
use vstd::prelude::*;

verus! {

/// A table of at most 256 slots of at most eight bytes takes at most 2048.
pub proof fn lemma_table_bound(count: int, w: int)
    by (nonlinear_arith)
    requires
        0 <= count <= 256,
        0 <= w <= 8,
    ensures
        0 <= count * w <= 2048,
{
}

/// A node decoded in place: it keeps a reference to the buffer and reads
/// its transitions from there when asked.
#[derive(Clone, Copy, Debug)]
pub struct Node<'a> {
    data: &'a [u8],
    addr: usize,
    is_final: bool,
    final_output: u64,
    count: usize,
    out_width: usize,
    addr_width: usize,
    labels_at: usize,
    targets_at: usize,
    outputs_at: usize,
}

impl<'a> View for Node<'a> {
    type V = NodeModel;

    open spec fn view(&self) -> NodeModel {
        raw_node(self.buffer(), self.address())
    }
}

impl<'a> Node<'a> {
    #[verifier::type_invariant]
    closed spec fn inv(self) -> bool {
        &&& node_ok(self.data@, self.addr as int)
        &&& self.is_final == raw_final(self.data@, self.addr as int)
        &&& self.final_output == raw_final_output(self.data@, self.addr as int)
        &&& self.count == raw_count(self.data@, self.addr as int)
        &&& self.out_width == raw_out_width(self.data@, self.addr as int)
        &&& self.addr_width == raw_addr_width(self.data@, self.addr as int)
        &&& self.labels_at == labels_at(self.data@, self.addr as int)
        &&& self.targets_at == targets_at(self.data@, self.addr as int)
        &&& self.outputs_at == outputs_at(self.data@, self.addr as int)
    }

    /// The buffer that the node was read from.
    pub closed spec fn buffer(self) -> Seq<u8> {
        self.data@
    }

    /// The address of the node in its buffer.
    pub closed spec fn address(self) -> int {
        self.addr as int
    }

    /// Decodes the node at `addr`, or returns `None` if the bytes there are
    /// not a node.
    pub fn read(data: &'a [u8], addr: usize) -> (r: Option<Node<'a>>)
        ensures
            r is Some <==> node_ok(data@, addr as int),
            r matches Some(n) ==> n.buffer() == data@ && n.address() == addr,
    {
        if data.len() < 5 || addr > data.len() - 5 {
            return None;
        }
        let flag = data[addr];
        let wo = data[addr + 1] as usize;
        let wa = data[addr + 2] as usize;
        let count = data[addr + 3] as usize + 256 * (data[addr + 4] as usize);
        if flag > 1 || wo > 8 || wa > 8 || count > 256 {
            return None;
        }
        proof {
            lemma_table_bound(count as int, wa as int);
            lemma_table_bound(count as int, wo as int);
        }
        let fin_len = if flag == 1 {
            wo
        } else {
            0
        };
        let need = fin_len + count + count * wa + count * wo;
        if need > data.len() - addr - 5 {
            return None;
        }
        let labels = addr + 5 + fin_len;
        let targets = labels + count;
        let outputs = targets + count * wa;
        let mut prev: u8 = 0;
        let mut i: usize = 0;
        while i < count
            invariant
                i <= count,
                crate::node::header_ok(data@, addr as int),
                count == raw_count(data@, addr as int),
                wa == raw_addr_width(data@, addr as int),
                labels == labels_at(data@, addr as int),
                targets == targets_at(data@, addr as int),
                i > 0 ==> prev == raw_label(data@, addr as int, i - 1),
                forall|k: int|
                    0 < k < i ==> raw_label(data@, addr as int, k - 1) < #[trigger] raw_label(
                        data@,
                        addr as int,
                        k,
                    ),
                forall|k: int| 0 <= k < i ==> #[trigger] raw_target(data@, addr as int, k) < addr,
            decreases count - i,
        {
            proof {
                lemma_slot_bounds(i as int, count as int, wa as int);
                lemma_table_bound(count as int, wa as int);
                lemma_table_bound(count as int, raw_out_width(data@, addr as int));
            }
            let label = data[labels + i];
            if i > 0 && label <= prev {
                assert(!(raw_label(data@, addr as int, i - 1) < raw_label(
                    data@,
                    addr as int,
                    i as int,
                )));
                return None;
            }
            let target = read_uint(data, targets + i * wa, wa);
            if target >= addr as u64 {
                assert(!(raw_target(data@, addr as int, i as int) < addr));
                return None;
            }
            prev = label;
            i += 1;
        }
        let final_output = read_uint(data, addr + 5, fin_len);
        Some(
            Node {
                data,
                addr,
                is_final: flag == 1,
                final_output,
                count,
                out_width: wo,
                addr_width: wa,
                labels_at: labels,
                targets_at: targets,
                outputs_at: outputs,
            },
        )
    }

    /// The address that the node was read from.
    pub fn addr(&self) -> (r: usize)
        ensures
            r == self.address(),
            node_ok(self.buffer(), self.address()),
    {
        proof {
            use_type_invariant(self);
        }
        self.addr
    }

    /// Whether a key may end at this node.
    pub fn is_final(&self) -> (r: bool)
        ensures
            r == self@.is_final,
    {
        proof {
            use_type_invariant(self);
        }
        self.is_final
    }

    /// The output added to a key that ends at this node; zero if none may.
    pub fn final_output(&self) -> (r: u64)
        ensures
            r == self@.final_output,
    {
        proof {
            use_type_invariant(self);
        }
        self.final_output
    }

    /// The number of transitions that leave this node.
    pub fn len(&self) -> (r: usize)
        ensures
            r == self@.transitions.len(),
            r <= 256,
    {
        proof {
            use_type_invariant(self);
        }
        self.count
    }

    /// The label of transition `i`.
    pub fn label(&self, i: usize) -> (r: u8)
        requires
            i < self@.transitions.len(),
        ensures
            r == self@.transitions[i as int].label,
    {
        proof {
            use_type_invariant(self);
            lemma_table_bound(self.count as int, self.addr_width as int);
            lemma_table_bound(self.count as int, self.out_width as int);
        }
        self.data[self.labels_at + i]
    }

    /// Transition `i`, counted in the order of the labels.
    pub fn transition(&self, i: usize) -> (r: Transition)
        requires
            i < self@.transitions.len(),
        ensures
            r == self@.transitions[i as int],
            r.target < self.address(),
    {
        proof {
            use_type_invariant(self);
            lemma_table_bound(self.count as int, self.addr_width as int);
            lemma_table_bound(self.count as int, self.out_width as int);
            lemma_slot_bounds(i as int, self.count as int, self.addr_width as int);
            lemma_slot_bounds(i as int, self.count as int, self.out_width as int);
            assert(raw_target(self.data@, self.addr as int, i as int) < self.addr);
        }
        let label = self.data[self.labels_at + i];
        let target = read_uint(self.data, self.targets_at + i * self.addr_width, self.addr_width);
        let output = read_uint(self.data, self.outputs_at + i * self.out_width, self.out_width);
        Transition { label, output, target: target as usize }
    }

    /// All transitions of the node, in the order of the labels.
    pub fn transitions(&self) -> (r: Vec<Transition>)
        ensures
            r@ == self@.transitions,
    {
        let n = self.len();
        let mut out: Vec<Transition> = Vec::new();
        let mut i: usize = 0;
        while i < n
            invariant
                i <= n,
                n == self@.transitions.len(),
                out.len() == i,
                forall|k: int| 0 <= k < i ==> out[k] == self@.transitions[k],
            decreases n - i,
        {
            out.push(self.transition(i));
            i += 1;
        }
        assert(out@ =~= self@.transitions);
        out
    }

    /// Finds the transition on `label` by binary search over the labels.
    pub fn find_transition(&self, label: u8) -> (r: Option<usize>)
        ensures
            match r {
                Some(i) => i < self@.transitions.len() && self@.transitions[i as int].label
                    == label,
                None => forall|i: int|
                    0 <= i < self@.transitions.len() ==> self@.transitions[i].label != label,
            },
            r == index_of_label(self@, label),
    {
        proof {
            use_type_invariant(self);
            lemma_node_ok_storable(self.data@, self.addr as int);
        }
        let ghost n = self@;
        let mut lo: usize = 0;
        let mut hi: usize = self.count;
        while lo < hi
            invariant
                lo <= hi <= self.count,
                n == self@,
                self.count == n.transitions.len(),
                n.storable(self.addr as int),
                forall|k: int| 0 <= k < lo ==> (#[trigger] n.transitions[k]).label < label,
                forall|k: int| hi <= k < self.count ==> (#[trigger] n.transitions[k]).label > label,
            decreases hi - lo,
        {
            let mid = lo + (hi - lo) / 2;
            let l = self.label(mid);
            assert(l == n.transitions[mid as int].label);
            if l == label {
                proof {
                    lemma_index_of_label(n, label, mid as int);
                }
                return Some(mid);
            }
            if l < label {
                assert forall|k: int| 0 <= k < mid + 1 implies (#[trigger] n.transitions[k]).label
                    < label by {
                    if k < mid {
                        assert(n.transitions[k].label < n.transitions[mid as int].label);
                    }
                }
                lo = mid + 1;
            } else {
                assert forall|k: int| mid <= k < self.count implies (#[trigger] n.transitions[
                    k
                ]).label > label by {
                    if mid < k {
                        assert(n.transitions[mid as int].label < n.transitions[k].label);
                    }
                }
                hi = mid;
            }
        }
        Option::None
    }
}

/// The index of the transition of `n` that carries `label`, if there is one.
pub open spec fn index_of_label(n: NodeModel, label: u8) -> Option<usize> {
    if exists|i: int| 0 <= i < n.transitions.len() && n.transitions[i].label == label {
        Some(
            (choose|i: int| 0 <= i < n.transitions.len() && n.transitions[i].label == label)
                as usize,
        )
    } else {
        None
    }
}

/// Where labels increase, the index of a label is the only place that
/// carries it.
pub proof fn lemma_index_of_label(n: NodeModel, label: u8, i: int)
    requires
        forall|a: int, b: int|
            0 <= a < b < n.transitions.len() ==> n.transitions[a].label < n.transitions[b].label,
        0 <= i < n.transitions.len() <= usize::MAX,
        n.transitions[i].label == label,
    ensures
        index_of_label(n, label) == Some(i as usize),
{
    let j = choose|j: int| 0 <= j < n.transitions.len() && n.transitions[j].label == label;
    if j < i {
        assert(n.transitions[j].label < n.transitions[i].label);
    } else if i < j {
        assert(n.transitions[i].label < n.transitions[j].label);
    }
}


/// A store opened for reading. Its view is the map that it holds.
#[derive(Debug)]
pub struct Reader {
    body: Vec<u8>,
    root: usize,
    count: u64,
}

impl View for Reader {
    type V = Map<Seq<u8>, u64>;

    open spec fn view(&self) -> Map<Seq<u8>, u64> {
        contents_at(self.body(), self.root_address())
    }
}

impl Reader {
    #[verifier::type_invariant]
    closed spec fn inv(self) -> bool {
        node_ok(self.body@, self.root as int)
    }

    /// The node records of the store.
    pub closed spec fn body(self) -> Seq<u8> {
        self.body@
    }

    /// The address of the root node.
    pub closed spec fn root_address(self) -> int {
        self.root as int
    }

    /// The number of keys that the trailer of the store announced.
    pub closed spec fn recorded_len(self) -> u64 {
        self.count
    }

    /// Opens a store. The trailer and the root node are checked; the other
    /// nodes are checked when a query reaches them.
    pub fn open(bytes: Vec<u8>) -> (r: Result<Reader, Error>)
        ensures
            match r {
                Ok(rd) => store_ok(bytes@) && rd.body() == store_body(bytes@) && rd.root_address()
                    == store_root(bytes@) && rd.recorded_len() == store_count(bytes@) && rd@
                    == store_contents(bytes@),
                Err(e) => !store_ok(bytes@) && e == open_error(bytes@),
            },
    {
        let len = bytes.len();
        if len < TRAILER_LEN {
            return Err(Error::CorruptData);
        }
        proof {
            lemma_pow256_values();
            lemma_le_value_bound(bytes@.subrange(len - 24, len - 16));
            lemma_le_value_bound(bytes@.subrange(len - 16, len - 8));
            lemma_le_value_bound(bytes@.subrange(len - 8, len as int));
        }
        let version = read_uint(bytes.as_slice(), len - 24, 8);
        if version != VERSION {
            return Err(Error::VersionMismatch { expected: VERSION, found: version });
        }
        let root = read_uint(bytes.as_slice(), len - 16, 8);
        let count = read_uint(bytes.as_slice(), len - 8, 8);
        let body_len = len - 24;
        if root >= body_len as u64 {
            return Err(Error::CorruptData);
        }
        let mut body = bytes;
        body.truncate(body_len);
        let ok = Node::read(body.as_slice(), root as usize).is_some();
        if !ok {
            return Err(Error::CorruptData);
        }
        Ok(Reader { body, root: root as usize, count })
    }

    /// The node records of the store.
    pub fn bytes(&self) -> (r: &[u8])
        ensures
            r@ == self.body(),
    {
        self.body.as_slice()
    }

    /// The number of keys that the store announces in its trailer.
    pub fn len(&self) -> (r: u64)
        ensures
            r == self.recorded_len(),
    {
        self.count
    }

    /// The entry node, from which every key is read.
    pub fn root(&self) -> (r: Node<'_>)
        ensures
            r.buffer() == self.body(),
            r.address() == self.root_address(),
            node_ok(self.body(), self.root_address()),
    {
        proof {
            use_type_invariant(self);
        }
        Node::read(self.body.as_slice(), self.root).unwrap()
    }

    /// The node at `addr`, to which a transition led.
    pub fn node(&self, addr: usize) -> (r: Result<Node<'_>, Error>)
        ensures
            match r {
                Ok(n) => node_ok(self.body(), addr as int) && n.buffer() == self.body()
                    && n.address() == addr,
                Err(e) => !node_ok(self.body(), addr as int) && e == Error::CorruptData,
            },
    {
        match Node::read(self.body.as_slice(), addr) {
            Some(n) => Ok(n),
            None => Err(Error::CorruptData),
        }
    }

    /// The output stored for `key`, or `None` if the store does not hold it.
    pub fn get(&self, key: &[u8]) -> (r: Option<u64>)
        ensures
            r == self@.get(key@),
    {
        let body = self.body.as_slice();
        let mut node = self.root();
        let mut acc: u64 = 0;
        let mut i: usize = 0;
        assert(key@.skip(0) =~= key@);
        while i < key.len()
            invariant
                i <= key.len(),
                body@ == self.body@,
                node.buffer() == body@,
                node_ok(body@, node.address()),
                lookup(body@, self.root as int, key@) == shift(
                    lookup(body@, node.address(), key@.skip(i as int)),
                    acc as int,
                ),
            decreases key.len() - i,
        {
            let ghost rest = key@.skip(i as int);
            proof {
                assert(rest.drop_first() =~= key@.skip(i + 1));
                assert(rest[0] == key@[i as int]);
            }
            match node.find_transition(key[i]) {
                None => {
                    proof {
                        lemma_lookup_missing(body@, node.address(), rest);
                    }
                    return None;
                },
                Some(j) => {
                    let t = node.transition(j);
                    proof {
                        lemma_lookup_step(body@, node.address(), rest, j as int);
                        lemma_lookup_nonnegative(body@, t.target as int, rest.drop_first());
                    }
                    match acc.checked_add(t.output) {
                        None => {
                            return None;
                        },
                        Some(a) => match Node::read(body, t.target) {
                            None => {
                                return None;
                            },
                            Some(child) => {
                                node = child;
                                acc = a;
                            },
                        },
                    }
                },
            }
            i += 1;
        }
        proof {
            lemma_lookup_end(body@, node.address(), key@.skip(i as int));
        }
        if node.is_final() {
            acc.checked_add(node.final_output())
        } else {
            None
        }
    }

    /// Whether the store holds `key`.
    pub fn contains_key(&self, key: &[u8]) -> (r: bool)
        ensures
            r == self@.contains_key(key@),
    {
        self.get(key).is_some()
    }
}

} // verus!
