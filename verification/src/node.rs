//! Nodes of the transducer and their encoding as a run of bytes.
//!
//! A node record holds a five-byte header (finality, the byte width of its
//! outputs, the byte width of its target addresses, and the number of
//! transitions in two bytes), then the final output if the node is final,
//! then the labels, the targets and the outputs of all transitions, each
//! group stored contiguously so that a transition can be read by index.

use crate::pack::{
    le_bytes, le_value, lemma_le_bytes_len, lemma_le_round_trip, lemma_packed_len,
    lemma_pow256_values, pack_size, packed_len, pow256, write_uint,
};
use vstd::prelude::*;

verus! {

/// The number of bytes in the header of a node record.
pub const HEADER_LEN: usize = 5;

/// An edge of the transducer: reading `label` adds `output` to the running
/// total and leads to the node stored at `target`.
#[derive(Clone, Copy, Debug, PartialEq, Eq, Structural)]
pub struct Transition {
    pub label: u8,
    pub output: u64,
    pub target: usize,
}

/// The mathematical content of a node.
pub struct NodeModel {
    pub is_final: bool,
    pub final_output: u64,
    pub transitions: Seq<Transition>,
}

impl NodeModel {
    /// The labels in the order of the transitions.
    pub open spec fn labels(self) -> Seq<u8> {
        Seq::new(self.transitions.len(), |i: int| self.transitions[i].label)
    }

    /// The target addresses in the order of the transitions.
    pub open spec fn targets(self) -> Seq<nat> {
        Seq::new(self.transitions.len(), |i: int| self.transitions[i].target as nat)
    }

    /// The output deltas in the order of the transitions.
    pub open spec fn outputs(self) -> Seq<nat> {
        Seq::new(self.transitions.len(), |i: int| self.transitions[i].output as nat)
    }

    /// A node that may be stored at address `limit`: its labels increase
    /// strictly, its targets lie below `limit`, and it carries a final
    /// output only if it is final.
    pub open spec fn storable(self, limit: int) -> bool {
        &&& forall|i: int, j: int|
            0 <= i < j < self.transitions.len() ==> self.transitions[i].label
                < self.transitions[j].label
        &&& forall|i: int|
            0 <= i < self.transitions.len() ==> (#[trigger] self.transitions[i]).target < limit
        &&& !self.is_final ==> self.final_output == 0
    }

    /// The byte width that the outputs of this node are stored with.
    pub open spec fn output_width(self) -> nat {
        packed_len(max2(max_of(self.outputs()), self.final_output as nat))
    }

    /// The byte width that the targets of this node are stored with.
    pub open spec fn target_width(self) -> nat {
        packed_len(max_of(self.targets()))
    }

    /// The transition on `label`, if the node has one.
    pub open spec fn step(self, label: u8) -> Option<Transition> {
        if exists|i: int| 0 <= i < self.transitions.len() && self.transitions[i].label == label {
            let i = choose|i: int|
                0 <= i < self.transitions.len() && self.transitions[i].label == label;
            Some(self.transitions[i])
        } else {
            None
        }
    }
}

/// The larger of two numbers.
pub open spec fn max2(a: nat, b: nat) -> nat {
    if a >= b {
        a
    } else {
        b
    }
}

/// The largest of `vals`, or zero if there are none.
pub open spec fn max_of(vals: Seq<nat>) -> nat
    decreases vals.len(),
{
    if vals.len() == 0 {
        0
    } else {
        max2(max_of(vals.drop_last()), vals.last())
    }
}

/// Each of `vals` written with `width` bytes, one after the other.
pub open spec fn pack_all(vals: Seq<nat>, width: nat) -> Seq<u8>
    decreases vals.len(),
{
    if vals.len() == 0 {
        Seq::<u8>::empty()
    } else {
        pack_all(vals.drop_last(), width) + le_bytes(vals.last(), width)
    }
}

/// The five header bytes of a node with the given shape.
pub open spec fn encode_header(is_final: bool, out_width: nat, addr_width: nat, count: nat) -> Seq<
    u8,
> {
    seq![
        if is_final {
            1u8
        } else {
            0u8
        },
        out_width as u8,
        addr_width as u8,
        (count % 256) as u8,
        (count / 256) as u8,
    ]
}

/// The record that stores `n`.
pub open spec fn encode_node(n: NodeModel) -> Seq<u8> {
    let wo = n.output_width();
    let wa = n.target_width();
    encode_header(n.is_final, wo, wa, n.transitions.len()) + (if n.is_final {
        le_bytes(n.final_output as nat, wo)
    } else {
        Seq::<u8>::empty()
    }) + n.labels() + pack_all(n.targets(), wa) + pack_all(n.outputs(), wo)
}

/// Whether the node at `addr` is marked final.
pub open spec fn raw_final(data: Seq<u8>, addr: int) -> bool {
    data[addr] == 1
}

/// The byte width of the outputs of the node at `addr`.
pub open spec fn raw_out_width(data: Seq<u8>, addr: int) -> int {
    data[addr + 1] as int
}

/// The byte width of the targets of the node at `addr`.
pub open spec fn raw_addr_width(data: Seq<u8>, addr: int) -> int {
    data[addr + 2] as int
}

/// The number of transitions of the node at `addr`.
pub open spec fn raw_count(data: Seq<u8>, addr: int) -> int {
    data[addr + 3] as int + 256 * (data[addr + 4] as int)
}

/// Where the labels of the node at `addr` start.
pub open spec fn labels_at(data: Seq<u8>, addr: int) -> int {
    addr + 5 + (if raw_final(data, addr) {
        raw_out_width(data, addr)
    } else {
        0
    })
}

/// Where the targets of the node at `addr` start.
pub open spec fn targets_at(data: Seq<u8>, addr: int) -> int {
    labels_at(data, addr) + raw_count(data, addr)
}

/// Where the outputs of the node at `addr` start.
pub open spec fn outputs_at(data: Seq<u8>, addr: int) -> int {
    targets_at(data, addr) + raw_count(data, addr) * raw_addr_width(data, addr)
}

/// The first position after the record of the node at `addr`.
pub open spec fn node_end(data: Seq<u8>, addr: int) -> int {
    outputs_at(data, addr) + raw_count(data, addr) * raw_out_width(data, addr)
}

/// The header at `addr` is legible and the record it announces lies within
/// `data`.
pub open spec fn header_ok(data: Seq<u8>, addr: int) -> bool {
    &&& 0 <= addr <= usize::MAX
    &&& addr + 5 <= data.len()
    &&& data[addr] <= 1
    &&& raw_out_width(data, addr) <= 8
    &&& raw_addr_width(data, addr) <= 8
    &&& raw_count(data, addr) <= 256
    &&& node_end(data, addr) <= data.len()
}

/// The final output stored in the node at `addr`, zero if it is not final.
pub open spec fn raw_final_output(data: Seq<u8>, addr: int) -> nat {
    le_value(data.subrange(addr + 5, labels_at(data, addr)))
}

/// The label of transition `i` of the node at `addr`.
pub open spec fn raw_label(data: Seq<u8>, addr: int, i: int) -> u8 {
    data[labels_at(data, addr) + i]
}

/// The target of transition `i` of the node at `addr`.
pub open spec fn raw_target(data: Seq<u8>, addr: int, i: int) -> nat {
    let w = raw_addr_width(data, addr);
    le_value(data.subrange(targets_at(data, addr) + i * w, targets_at(data, addr) + i * w + w))
}

/// The output of transition `i` of the node at `addr`.
pub open spec fn raw_output(data: Seq<u8>, addr: int, i: int) -> nat {
    let w = raw_out_width(data, addr);
    le_value(data.subrange(outputs_at(data, addr) + i * w, outputs_at(data, addr) + i * w + w))
}

/// The record at `addr` is a node: its header is legible, its labels
/// increase strictly and every target lies below `addr`.
pub open spec fn node_ok(data: Seq<u8>, addr: int) -> bool {
    &&& header_ok(data, addr)
    &&& forall|i: int|
        0 < i < raw_count(data, addr) ==> raw_label(data, addr, i - 1) < #[trigger] raw_label(
            data,
            addr,
            i,
        )
    &&& forall|i: int|
        0 <= i < raw_count(data, addr) ==> #[trigger] raw_target(data, addr, i) < addr
}

/// Transition `i` of the node at `addr`.
pub open spec fn raw_transition(data: Seq<u8>, addr: int, i: int) -> Transition {
    Transition {
        label: raw_label(data, addr, i),
        output: raw_output(data, addr, i) as u64,
        target: raw_target(data, addr, i) as usize,
    }
}

/// The content of the record at `addr`, whether or not it is a node.
pub open spec fn raw_node(data: Seq<u8>, addr: int) -> NodeModel {
    NodeModel {
        is_final: raw_final(data, addr),
        final_output: raw_final_output(data, addr) as u64,
        transitions: Seq::new(
            raw_count(data, addr) as nat,
            |i: int| raw_transition(data, addr, i),
        ),
    }
}

/// The node stored at `addr`, if the bytes there are one.
pub open spec fn node_at(data: Seq<u8>, addr: int) -> Option<NodeModel> {
    if node_ok(data, addr) {
        Some(raw_node(data, addr))
    } else {
        None
    }
}


/// The bytes of a slot of width `w` lie within a table of `count` slots.
pub proof fn lemma_slot_bounds(i: int, count: int, w: int)
    by (nonlinear_arith)
    requires
        0 <= i < count,
        0 <= w,
    ensures
        0 <= i * w,
        i * w + w <= count * w,
        (i + 1) * w == i * w + w,
{
}

/// No value exceeds the largest.
pub proof fn lemma_max_of(vals: Seq<nat>, i: int)
    requires
        0 <= i < vals.len(),
    ensures
        vals[i] <= max_of(vals),
    decreases vals.len(),
{
    if i < vals.len() - 1 {
        lemma_max_of(vals.drop_last(), i);
    }
}

/// A value no larger than `m` fits in the bytes that `m` takes.
pub proof fn lemma_fits_width(v: nat, m: nat)
    requires
        v <= m,
    ensures
        v < pow256(packed_len(m)),
{
    lemma_packed_len(m, packed_len(m));
}

/// A 64-bit value takes at most eight bytes.
pub proof fn lemma_width_at_most_8(v: nat)
    requires
        v <= u64::MAX,
    ensures
        packed_len(v) <= 8,
{
    lemma_pow256_values();
    lemma_packed_len(v, 8);
}

/// The length of a table of packed values.
pub proof fn lemma_pack_all_len(vals: Seq<nat>, w: nat)
    ensures
        pack_all(vals, w).len() == vals.len() * w,
    decreases vals.len(),
{
    if vals.len() > 0 {
        lemma_pack_all_len(vals.drop_last(), w);
        lemma_le_bytes_len(vals.last(), w);
        assert((vals.len() - 1) * w + w == vals.len() * w) by (nonlinear_arith);
    } else {
        assert(0 * w == 0);
    }
}

/// Slot `i` of a table of packed values holds the bytes of value `i`.
pub proof fn lemma_pack_all_slot(vals: Seq<nat>, w: nat, i: int)
    requires
        0 <= i < vals.len(),
    ensures
        0 <= i * w,
        i * w + w <= pack_all(vals, w).len(),
        pack_all(vals, w).subrange(i * w, i * w + w) == le_bytes(vals[i], w),
    decreases vals.len(),
{
    let init = vals.drop_last();
    lemma_pack_all_len(vals, w);
    lemma_pack_all_len(init, w);
    lemma_le_bytes_len(vals.last(), w);
    lemma_slot_bounds(i, vals.len() as int, w as int);
    if i == vals.len() - 1 {
        assert(pack_all(vals, w).subrange(i * w, i * w + w) =~= le_bytes(vals.last(), w));
    } else {
        lemma_pack_all_slot(init, w, i);
        lemma_slot_bounds(i, init.len() as int, w as int);
        assert(pack_all(vals, w).subrange(i * w, i * w + w) =~= pack_all(init, w).subrange(
            i * w,
            i * w + w,
        ));
    }
}

/// Appending a value to the list appends its bytes to the table.
pub proof fn lemma_pack_all_push(vals: Seq<nat>, w: nat, v: nat)
    ensures
        pack_all(vals.push(v), w) == pack_all(vals, w) + le_bytes(v, w),
{
    assert(vals.push(v).drop_last() =~= vals);
}

/// Strictly increasing byte labels are at least their index, so a node has
/// at most 256 transitions.
pub proof fn lemma_label_index(n: NodeModel, limit: int, i: int)
    requires
        n.storable(limit),
        0 <= i < n.transitions.len(),
    ensures
        n.transitions[i].label >= i,
        n.transitions.len() <= 256,
    decreases i,
{
    if i > 0 {
        lemma_label_index(n, limit, i - 1);
    }
    let last = n.transitions.len() - 1;
    if i < last {
        lemma_label_index_only(n, limit, last);
    }
}

proof fn lemma_label_index_only(n: NodeModel, limit: int, i: int)
    requires
        n.storable(limit),
        0 <= i < n.transitions.len(),
    ensures
        n.transitions[i].label >= i,
    decreases i,
{
    if i > 0 {
        lemma_label_index_only(n, limit, i - 1);
    }
}

/// The length of a node record.
pub proof fn lemma_encode_len(n: NodeModel)
    ensures
        encode_node(n).len() == 5 + (if n.is_final {
            n.output_width()
        } else {
            0
        }) + n.transitions.len() + n.transitions.len() * n.target_width() + n.transitions.len()
            * n.output_width(),
{
    lemma_pack_all_len(n.targets(), n.target_width());
    lemma_pack_all_len(n.outputs(), n.output_width());
    lemma_le_bytes_len(n.final_output as nat, n.output_width());
}

/// Two buffers hold the same record at `addr`: the second is long enough
/// and agrees with the first from `addr` to the end of the record.
pub open spec fn same_record(d1: Seq<u8>, d2: Seq<u8>, addr: int) -> bool {
    &&& node_end(d1, addr) <= d2.len()
    &&& forall|j: int| addr <= j < node_end(d1, addr) ==> d1[j] == d2[j]
}

/// The fields of a node depend only on the bytes of its record.
pub proof fn lemma_same_record(d1: Seq<u8>, d2: Seq<u8>, addr: int)
    requires
        header_ok(d1, addr),
        same_record(d1, d2, addr),
    ensures
        header_ok(d2, addr),
        node_end(d2, addr) == node_end(d1, addr),
        raw_node(d2, addr) == raw_node(d1, addr),
        node_ok(d2, addr) == node_ok(d1, addr),
        node_at(d2, addr) == node_at(d1, addr),
{
    let count = raw_count(d1, addr);
    let wa = raw_addr_width(d1, addr);
    let wo = raw_out_width(d1, addr);
    assert(0 <= count * wa && 0 <= count * wo) by (nonlinear_arith)
        requires
            0 <= count,
            0 <= wa,
            0 <= wo,
    ;
    assert(raw_final(d2, addr) == raw_final(d1, addr));
    assert(raw_count(d2, addr) == count);
    assert(labels_at(d2, addr) == labels_at(d1, addr));
    assert(d2.subrange(addr + 5, labels_at(d2, addr)) =~= d1.subrange(
        addr + 5,
        labels_at(d1, addr),
    ));
    assert forall|i: int| 0 <= i < count implies raw_transition(d2, addr, i) == raw_transition(
        d1,
        addr,
        i,
    ) by {
        lemma_slot_bounds(i, count, wa);
        lemma_slot_bounds(i, count, wo);
        let ta = targets_at(d1, addr);
        let oa = outputs_at(d1, addr);
        assert(d2.subrange(ta + i * wa, ta + i * wa + wa) =~= d1.subrange(
            ta + i * wa,
            ta + i * wa + wa,
        ));
        assert(d2.subrange(oa + i * wo, oa + i * wo + wo) =~= d1.subrange(
            oa + i * wo,
            oa + i * wo + wo,
        ));
    }
    assert(raw_node(d2, addr).transitions =~= raw_node(d1, addr).transitions);
    assert forall|i: int| 0 <= i < count implies raw_label(d2, addr, i) == raw_label(
        d1,
        addr,
        i,
    ) && raw_target(d2, addr, i) == raw_target(d1, addr, i) by {
        assert(raw_transition(d2, addr, i) == raw_transition(d1, addr, i));
        lemma_slot_bounds(i, count, wa);
        let ta = targets_at(d1, addr);
        assert(d2.subrange(ta + i * wa, ta + i * wa + wa) =~= d1.subrange(
            ta + i * wa,
            ta + i * wa + wa,
        ));
    }
}

/// The buffer holds the parts of the record of `n` where the header found
/// at `addr` says they are.
pub open spec fn sections_match(data: Seq<u8>, addr: int, n: NodeModel) -> bool {
    let count = n.transitions.len() as int;
    let la = labels_at(data, addr);
    let ta = targets_at(data, addr);
    let oa = outputs_at(data, addr);
    &&& header_ok(data, addr)
    &&& raw_final(data, addr) == n.is_final
    &&& raw_out_width(data, addr) == n.output_width()
    &&& raw_addr_width(data, addr) == n.target_width()
    &&& raw_count(data, addr) == count
    &&& count <= 256
    &&& node_end(data, addr) == addr + encode_node(n).len()
    &&& raw_final_output(data, addr) == n.final_output
    &&& data.subrange(la, la + count) == n.labels()
    &&& data.subrange(ta, ta + count * n.target_width()) == pack_all(
        n.targets(),
        n.target_width(),
    )
    &&& data.subrange(oa, oa + count * n.output_width()) == pack_all(
        n.outputs(),
        n.output_width(),
    )
}

proof fn lemma_encoded_sections(data: Seq<u8>, addr: int, n: NodeModel)
    requires
        0 <= addr <= usize::MAX,
        addr + encode_node(n).len() <= data.len(),
        data.subrange(addr, addr + encode_node(n).len()) == encode_node(n),
        n.storable(addr),
    ensures
        sections_match(data, addr, n),
{
    let enc = encode_node(n);
    let wo = n.output_width();
    let wa = n.target_width();
    let count = n.transitions.len() as int;
    let head = encode_header(n.is_final, wo, wa, count as nat);
    let fin = if n.is_final {
        le_bytes(n.final_output as nat, wo)
    } else {
        Seq::<u8>::empty()
    };
    let tg = pack_all(n.targets(), wa);
    let ou = pack_all(n.outputs(), wo);
    let fl = fin.len() as int;
    let tl = tg.len() as int;
    let ol = ou.len() as int;
    let el = enc.len() as int;
    lemma_encode_len(n);
    lemma_pack_all_len(n.targets(), wa);
    lemma_pack_all_len(n.outputs(), wo);
    lemma_le_bytes_len(n.final_output as nat, wo);
    if count > 0 {
        lemma_label_index(n, addr, 0);
        lemma_max_of_is_member(n.outputs());
        lemma_max_of_is_member(n.targets());
    }
    lemma_width_at_most_8(max2(max_of(n.outputs()), n.final_output as nat));
    lemma_width_at_most_8(max_of(n.targets()));
    assert(0 <= count * wa && 0 <= count * wo) by (nonlinear_arith)
        requires
            0 <= count,
            0 <= wa,
            0 <= wo,
    ;
    assert(enc.subrange(0, 5) =~= head);
    lemma_subrange_within(data, addr, enc, 0, 5);
    assert(data.subrange(addr, addr + 5) == head);
    assert(data[addr] == data.subrange(addr, addr + 5)[0]);
    assert(data[addr + 1] == data.subrange(addr, addr + 5)[1]);
    assert(data[addr + 2] == data.subrange(addr, addr + 5)[2]);
    assert(data[addr + 3] == data.subrange(addr, addr + 5)[3]);
    assert(data[addr + 4] == data.subrange(addr, addr + 5)[4]);
    assert(raw_final(data, addr) == n.is_final);
    assert(raw_out_width(data, addr) == wo);
    assert(raw_addr_width(data, addr) == wa);
    assert(raw_count(data, addr) == count);
    let la = labels_at(data, addr);
    let ta = targets_at(data, addr);
    let oa = outputs_at(data, addr);
    assert(la == addr + 5 + fl);
    assert(node_end(data, addr) == addr + enc.len());
    assert(enc.subrange(5, 5 + fl) =~= fin);
    lemma_subrange_within(data, addr, enc, 5, 5 + fl);
    if n.is_final {
        lemma_fits_width(
            n.final_output as nat,
            max2(max_of(n.outputs()), n.final_output as nat),
        );
        lemma_le_round_trip(n.final_output as nat, wo);
    }
    assert(raw_final_output(data, addr) == n.final_output);
    assert(enc.subrange(5 + fl, 5 + fl + count) =~= n.labels());
    lemma_subrange_within(data, addr, enc, 5 + fl, 5 + fl + count);
    assert(enc.subrange(5 + fl + count, 5 + fl + count + tl) =~= tg);
    lemma_subrange_within(
        data,
        addr,
        enc,
        5 + fl + count,
        5 + fl + count + tl,
    );
    assert(enc.subrange(el - ol, el) =~= ou);
    lemma_subrange_within(data, addr, enc, el - ol, el);
}

proof fn lemma_encoded_transition(data: Seq<u8>, addr: int, n: NodeModel, i: int)
    requires
        sections_match(data, addr, n),
        0 <= i < n.transitions.len(),
    ensures
        raw_label(data, addr, i) == n.transitions[i].label,
        raw_target(data, addr, i) == n.transitions[i].target,
        raw_output(data, addr, i) == n.transitions[i].output,
        raw_transition(data, addr, i) == n.transitions[i],
{
    let wo = n.output_width();
    let wa = n.target_width();
    let count = n.transitions.len() as int;
    let la = labels_at(data, addr);
    let ta = targets_at(data, addr);
    let oa = outputs_at(data, addr);
    let tg = pack_all(n.targets(), wa);
    let ou = pack_all(n.outputs(), wo);
    lemma_pack_all_len(n.targets(), wa);
    lemma_pack_all_len(n.outputs(), wo);
    lemma_slot_bounds(i, count, wa as int);
    lemma_slot_bounds(i, count, wo as int);
    assert(0 <= count * wa && 0 <= count * wo) by (nonlinear_arith)
        requires
            0 <= count,
            0 <= wa,
            0 <= wo,
    ;
    assert(data.subrange(la, la + count)[i] == data[la + i]);
    assert(n.labels()[i] == n.transitions[i].label);
    lemma_pack_all_slot(n.targets(), wa, i);
    lemma_subrange_within(data, ta, tg, i * wa, i * wa + wa);
    lemma_max_of(n.targets(), i);
    lemma_fits_width(n.targets()[i], max_of(n.targets()));
    lemma_le_round_trip(n.targets()[i], wa);
    lemma_pack_all_slot(n.outputs(), wo, i);
    lemma_subrange_within(data, oa, ou, i * wo, i * wo + wo);
    lemma_max_of(n.outputs(), i);
    lemma_fits_width(n.outputs()[i], max2(max_of(n.outputs()), n.final_output as nat));
    lemma_le_round_trip(n.outputs()[i], wo);
}

/// Decoding the record of a storable node gives the node back.
pub proof fn lemma_decode_encoded(data: Seq<u8>, addr: int, n: NodeModel)
    requires
        0 <= addr <= usize::MAX,
        addr + encode_node(n).len() <= data.len(),
        data.subrange(addr, addr + encode_node(n).len()) == encode_node(n),
        n.storable(addr),
    ensures
        node_at(data, addr) == Some(n),
        node_end(data, addr) == addr + encode_node(n).len(),
{
    lemma_encoded_sections(data, addr, n);
    let count = n.transitions.len() as int;
    assert forall|i: int| 0 <= i < count implies raw_transition(data, addr, i)
        == n.transitions[i] by {
        lemma_encoded_transition(data, addr, n, i);
    }
    assert(raw_node(data, addr).transitions =~= n.transitions);
    assert(raw_node(data, addr) == n);
    assert forall|i: int| 0 < i < count implies raw_label(data, addr, i - 1) < #[trigger] raw_label(
        data,
        addr,
        i,
    ) by {
        lemma_encoded_transition(data, addr, n, i);
        lemma_encoded_transition(data, addr, n, i - 1);
    }
    assert forall|i: int| 0 <= i < count implies #[trigger] raw_target(data, addr, i) < addr by {
        lemma_encoded_transition(data, addr, n, i);
        assert(n.transitions[i].target < addr);
    }
}

/// A part of a part of the buffer is the same part of the buffer.
pub proof fn lemma_subrange_within(data: Seq<u8>, start: int, part: Seq<u8>, lo: int, hi: int)
    requires
        0 <= start,
        start + part.len() <= data.len(),
        data.subrange(start, start + part.len()) == part,
        0 <= lo <= hi <= part.len(),
    ensures
        data.subrange(start + lo, start + hi) == part.subrange(lo, hi),
{
    assert forall|k: int| 0 <= k < hi - lo implies data.subrange(start + lo, start + hi)[k]
        == part.subrange(lo, hi)[k] by {
        assert(data.subrange(start, start + part.len())[lo + k] == data[start + lo + k]);
    }
    assert(data.subrange(start + lo, start + hi) =~= part.subrange(lo, hi));
}

/// The largest of a non-empty list is one of its members.
pub proof fn lemma_max_of_is_member(vals: Seq<nat>)
    requires
        vals.len() > 0,
    ensures
        exists|i: int| 0 <= i < vals.len() && vals[i] == max_of(vals),
    decreases vals.len(),
{
    let init = vals.drop_last();
    assert(max_of(vals) == max2(max_of(init), vals.last()));
    if init.len() == 0 || max_of(init) < vals.last() {
        assert(init.len() == 0 ==> max_of(init) == 0);
        assert(vals[vals.len() - 1] == max_of(vals));
    } else {
        lemma_max_of_is_member(init);
        let i = choose|i: int| 0 <= i < init.len() && init[i] == max_of(init);
        assert(vals[i] == max_of(vals));
    }
}


/// A node held in memory, as the builder makes it before it is stored.
#[derive(Debug)]
pub struct OwnedNode {
    pub is_final: bool,
    pub final_output: u64,
    pub transitions: Vec<Transition>,
}

impl View for OwnedNode {
    type V = NodeModel;

    open spec fn view(&self) -> NodeModel {
        NodeModel {
            is_final: self.is_final,
            final_output: self.final_output,
            transitions: self.transitions@,
        }
    }
}

/// Computes the byte widths with which the outputs and the targets of
/// `node` are stored.
pub fn widths(node: &OwnedNode) -> (w: (usize, usize))
    ensures
        w.0 == node@.output_width(),
        w.1 == node@.target_width(),
        w.0 <= 8,
        w.1 <= 8,
{
    let n = node.transitions.len();
    let ghost outs = node@.outputs();
    let ghost tgts = node@.targets();
    let mut max_out: u64 = node.final_output;
    let mut max_tgt: usize = 0;
    let mut i: usize = 0;
    while i < n
        invariant
            i <= n,
            n == node.transitions.len(),
            outs == node@.outputs(),
            tgts == node@.targets(),
            max_out as nat == max2(max_of(outs.take(i as int)), node.final_output as nat),
            max_tgt as nat == max_of(tgts.take(i as int)),
        decreases n - i,
    {
        let t = node.transitions[i];
        proof {
            assert(outs.take(i + 1).drop_last() =~= outs.take(i as int));
            assert(tgts.take(i + 1).drop_last() =~= tgts.take(i as int));
            assert(outs.take(i + 1).last() == t.output);
            assert(tgts.take(i + 1).last() == t.target);
        }
        if t.output > max_out {
            max_out = t.output;
        }
        if t.target > max_tgt {
            max_tgt = t.target;
        }
        i += 1;
    }
    proof {
        assert(outs.take(n as int) =~= outs);
        assert(tgts.take(n as int) =~= tgts);
    }
    (pack_size(max_out), pack_size(max_tgt as u64))
}

/// Appends the labels of `node` to `buf`.
pub fn write_labels(buf: &mut Vec<u8>, node: &OwnedNode)
    ensures
        final(buf)@ == old(buf)@ + node@.labels(),
{
    let n = node.transitions.len();
    let ghost labels = node@.labels();
    let mut i: usize = 0;
    assert(buf@ =~= old(buf)@ + labels.take(0));
    while i < n
        invariant
            i <= n,
            n == node.transitions.len(),
            labels == node@.labels(),
            buf@ == old(buf)@ + labels.take(i as int),
        decreases n - i,
    {
        let t = node.transitions[i];
        buf.push(t.label);
        proof {
            assert(labels.take(i + 1) =~= labels.take(i as int).push(t.label));
            assert(buf@ =~= old(buf)@ + labels.take(i + 1));
        }
        i += 1;
    }
    proof {
        assert(labels.take(n as int) =~= labels);
    }
}

/// Appends the targets of `node` to `buf`, each with `width` bytes.
pub fn write_targets(buf: &mut Vec<u8>, node: &OwnedNode, width: usize)
    requires
        width <= 8,
    ensures
        final(buf)@ == old(buf)@ + pack_all(node@.targets(), width as nat),
{
    let n = node.transitions.len();
    let ghost tgts = node@.targets();
    let mut i: usize = 0;
    assert(buf@ =~= old(buf)@ + pack_all(tgts.take(0), width as nat));
    while i < n
        invariant
            i <= n,
            n == node.transitions.len(),
            width <= 8,
            tgts == node@.targets(),
            buf@ == old(buf)@ + pack_all(tgts.take(i as int), width as nat),
        decreases n - i,
    {
        let t = node.transitions[i];
        write_uint(buf, t.target as u64, width);
        proof {
            assert(tgts.take(i + 1) =~= tgts.take(i as int).push(t.target as nat));
            lemma_pack_all_push(tgts.take(i as int), width as nat, t.target as nat);
            assert(buf@ =~= old(buf)@ + pack_all(tgts.take(i + 1), width as nat));
        }
        i += 1;
    }
    proof {
        assert(tgts.take(n as int) =~= tgts);
    }
}

/// Appends the outputs of the transitions of `node` to `buf`, each with
/// `width` bytes.
pub fn write_outputs(buf: &mut Vec<u8>, node: &OwnedNode, width: usize)
    requires
        width <= 8,
    ensures
        final(buf)@ == old(buf)@ + pack_all(node@.outputs(), width as nat),
{
    let n = node.transitions.len();
    let ghost outs = node@.outputs();
    let mut i: usize = 0;
    assert(buf@ =~= old(buf)@ + pack_all(outs.take(0), width as nat));
    while i < n
        invariant
            i <= n,
            n == node.transitions.len(),
            width <= 8,
            outs == node@.outputs(),
            buf@ == old(buf)@ + pack_all(outs.take(i as int), width as nat),
        decreases n - i,
    {
        let t = node.transitions[i];
        write_uint(buf, t.output, width);
        proof {
            assert(outs.take(i + 1) =~= outs.take(i as int).push(t.output as nat));
            lemma_pack_all_push(outs.take(i as int), width as nat, t.output as nat);
            assert(buf@ =~= old(buf)@ + pack_all(outs.take(i + 1), width as nat));
        }
        i += 1;
    }
    proof {
        assert(outs.take(n as int) =~= outs);
    }
}

/// Appends the header of a node record to `buf`.
pub fn write_header(buf: &mut Vec<u8>, is_final: bool, out_width: usize, addr_width: usize, count: usize)
    requires
        out_width <= 8,
        addr_width <= 8,
        count <= 256,
    ensures
        final(buf)@ == old(buf)@ + encode_header(
            is_final,
            out_width as nat,
            addr_width as nat,
            count as nat,
        ),
{
    buf.push(
        if is_final {
            1
        } else {
            0
        },
    );
    buf.push(out_width as u8);
    buf.push(addr_width as u8);
    buf.push((count % 256) as u8);
    buf.push((count / 256) as u8);
    assert(buf@ =~= old(buf)@ + encode_header(
        is_final,
        out_width as nat,
        addr_width as nat,
        count as nat,
    ));
}

/// Appends the record of `node` to `buf` and returns the address at which
/// it now stands.
pub fn write_node(buf: &mut Vec<u8>, node: &OwnedNode) -> (addr: usize)
    requires
        node@.storable(old(buf)@.len() as int),
    ensures
        addr == old(buf)@.len(),
        final(buf)@ == old(buf)@ + encode_node(node@),
        node_at(final(buf)@, addr as int) == Some(node@),
{
    let addr = buf.len();
    let n = node.transitions.len();
    proof {
        if n > 0 {
            lemma_label_index(node@, addr as int, 0);
        }
    }
    let (wo, wa) = widths(node);
    write_header(buf, node.is_final, wo, wa, n);
    if node.is_final {
        write_uint(buf, node.final_output, wo);
    }
    let ghost fin = if node.is_final {
        le_bytes(node.final_output as nat, wo as nat)
    } else {
        Seq::<u8>::empty()
    };
    let ghost base1 = old(buf)@ + encode_header(node.is_final, wo as nat, wa as nat, n as nat)
        + fin;
    assert(buf@ =~= base1);
    write_labels(buf, node);
    write_targets(buf, node, wa);
    write_outputs(buf, node, wo);
    proof {
        let enc = encode_node(node@);
        assert(buf@ == base1 + node@.labels() + pack_all(node@.targets(), wa as nat) + pack_all(
            node@.outputs(),
            wo as nat,
        ));
        assert(buf@ =~= old(buf)@ + enc);
        assert(buf@.subrange(addr as int, addr + enc.len()) =~= enc);
        lemma_decode_encoded(buf@, addr as int, node@);
    }
    addr
}

} // verus!
