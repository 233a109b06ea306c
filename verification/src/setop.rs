//! Set algebra over sorted lists of entries: union, intersection,
//! difference and symmetric difference of any number of sources.
//!
//! All four walk the sources together. At each step the smallest key that
//! any source has still to give is taken from every source that has it;
//! the operation decides by the sources that had it whether the key
//! belongs to the result. The outputs are not combined: each key comes
//! with the output of every source that had it.

use crate::order::{
    key_lt, lemma_lex_irreflexive, lemma_lex_total, lemma_lex_transitive, lex_le, lex_lt,
};
use crate::heap::{
    active, head, heap_ok, heap_pop, heap_push, lemma_heap_first, lemma_heap_frame, sources_of,
};
use crate::search::{entries, sorted_keys, Entry};
use vstd::prelude::*;

verus! {

/// The output that the source with number `index` has for a key.
#[derive(Clone, Copy, Debug, PartialEq, Eq, Structural)]
pub struct IndexedValue {
    pub index: usize,
    pub value: u64,
}

/// An operation on sets of keys.
#[derive(Clone, Copy, Debug, PartialEq, Eq, Structural)]
pub enum Op {
    /// The keys of any source.
    Union,
    /// The keys that all sources have.
    Intersection,
    /// The keys that the first source has and no other.
    Difference,
    /// The keys that an odd number of sources have.
    SymmetricDifference,
}

/// Where `source` holds `key`, if it does.
pub open spec fn position(source: Seq<Entry>, key: Seq<u8>) -> Option<int> {
    if exists|j: int| 0 <= j < source.len() && (#[trigger] source[j]).0 == key {
        Some(choose|j: int| 0 <= j < source.len() && (#[trigger] source[j]).0 == key)
    } else {
        None
    }
}

/// The outputs that the first `n` sources have for `key`, in the order of
/// the sources.
pub open spec fn holders(sources: Seq<Seq<Entry>>, key: Seq<u8>, n: int) -> Seq<IndexedValue>
    decreases n,
{
    if n <= 0 {
        Seq::<IndexedValue>::empty()
    } else {
        holders(sources, key, n - 1) + (match position(sources[n - 1], key) {
            Some(j) => seq![IndexedValue { index: (n - 1) as usize, value: sources[n - 1][j].1 }],
            None => Seq::<IndexedValue>::empty(),
        })
    }
}

/// Whether a key that the sources in `held` have belongs to the result of
/// `op` on `count` sources.
pub open spec fn selects(op: Op, held: Seq<IndexedValue>, count: int) -> bool {
    match op {
        Op::Union => held.len() > 0,
        Op::Intersection => held.len() > 0 && held.len() == count,
        Op::Difference => held.len() == 1 && held[0].index == 0,
        Op::SymmetricDifference => held.len() % 2 == 1,
    }
}

/// A key of the result with the outputs of the sources that have it.
pub type Merged = (Seq<u8>, Seq<IndexedValue>);

/// The keys of the list increase strictly.
pub open spec fn merged_sorted(r: Seq<Merged>) -> bool {
    forall|i: int, j: int| 0 <= i < j < r.len() ==> lex_lt(#[trigger] r[i].0, #[trigger] r[j].0)
}

/// Some entry of the list has the key.
pub open spec fn has_key(r: Seq<Merged>, key: Seq<u8>) -> bool {
    exists|j: int| 0 <= j < r.len() && (#[trigger] r[j]).0 == key
}

/// The list `r` is the result of `op` on the sources: its keys increase
/// strictly, they are the keys that `op` selects by the sources that hold
/// them, and each comes with the outputs of those sources.
pub open spec fn is_merge(r: Seq<Merged>, op: Op, sources: Seq<Seq<Entry>>) -> bool {
    &&& merged_sorted(r)
    &&& forall|key: Seq<u8>| #[trigger]
        has_key(r, key) <==> selects(
            op,
            holders(sources, key, sources.len() as int),
            sources.len() as int,
        )
    &&& forall|j: int|
        0 <= j < r.len() ==> (#[trigger] r[j]).1 == holders(
            sources,
            r[j].0,
            sources.len() as int,
        )
}

/// The keys and outputs that a list of results holds.
pub open spec fn merged_of(list: Seq<(Vec<u8>, Vec<IndexedValue>)>) -> Seq<Merged> {
    Seq::new(list.len(), |i: int| (list[i].0@, list[i].1@))
}

/// Whether two keys are the same.
pub fn key_eq(a: &[u8], b: &[u8]) -> (r: bool)
    ensures
        r == (a@ == b@),
{
    if a.len() != b.len() {
        return false;
    }
    let mut i: usize = 0;
    while i < a.len()
        invariant
            i <= a.len(),
            a.len() == b.len(),
            forall|j: int| 0 <= j < i ==> a@[j] == b@[j],
        decreases a.len() - i,
    {
        if a[i] != b[i] {
            return false;
        }
        i += 1;
    }
    assert(a@ =~= b@);
    true
}

/// `key` comes after the bound, if there is one.
pub open spec fn after(bound: Option<Seq<u8>>, key: Seq<u8>) -> bool {
    match bound {
        None => true,
        Some(b) => lex_lt(b, key),
    }
}

/// `key` does not come after the bound.
pub open spec fn upto(bound: Option<Seq<u8>>, key: Seq<u8>) -> bool {
    match bound {
        None => false,
        Some(b) => lex_le(key, b),
    }
}

/// The source is cut at `p` by the bound: its entries before `p` do not
/// come after the bound, and those from `p` on do.
pub open spec fn cut(source: Seq<Entry>, p: int, bound: Option<Seq<u8>>) -> bool {
    &&& 0 <= p <= source.len()
    &&& forall|j: int| 0 <= j < p ==> upto(bound, (#[trigger] source[j]).0)
    &&& forall|j: int| p <= j < source.len() ==> after(bound, (#[trigger] source[j]).0)
}

/// Moving the bound up to a key that no entry still to come precedes
/// moves the cut past the entry with that key, if there is one; and the
/// source holds the key exactly if that entry is there.
pub proof fn lemma_cut_step(source: Seq<Entry>, p: int, bound: Option<Seq<u8>>, m: Seq<u8>)
    requires
        sorted_keys(source),
        cut(source, p, bound),
        after(bound, m),
        p < source.len() ==> !lex_lt(source[p].0, m),
    ensures
        ({
            let here = p < source.len() && source[p].0 == m;
            &&& cut(
                source,
                if here {
                    p + 1
                } else {
                    p
                },
                Some(m),
            )
            &&& position(source, m) == if here {
                Some(p)
            } else {
                None
            }
        }),
{
    let here = p < source.len() && source[p].0 == m;
    let pb = if here {
        p + 1
    } else {
        p
    };
    assert forall|j: int| 0 <= j < pb implies upto(Some(m), (#[trigger] source[j]).0) by {
        if j < p {
            assert(upto(bound, source[j].0));
            let b = bound->0;
            if source[j].0 != b {
                lemma_lex_transitive(source[j].0, b, m);
            }
        }
    }
    assert forall|j: int| pb <= j < source.len() implies after(Some(m), (#[trigger] source[j]).0) by {
        lemma_lex_total(source[p].0, m);
        if j > p {
            assert(lex_lt(source[p].0, source[j].0));
            if source[p].0 != m {
                lemma_lex_transitive(m, source[p].0, source[j].0);
            }
        }
    }
    assert forall|j: int| 0 <= j < source.len() && (#[trigger] source[j]).0 == m implies here && j
        == p by {
        lemma_lex_irreflexive(m);
        if j < p {
            assert(upto(bound, source[j].0));
            let b = bound->0;
            lemma_lex_total(b, m);
        } else if j > p {
            assert(lex_lt(source[p].0, source[j].0));
        }
    }
    if here {
        assert(source[p].0 == m);
    }
}

/// The entries that the sources have still to give, counted.
pub open spec fn left(sources: Seq<Seq<Entry>>, pos: Seq<usize>, n: int) -> int
    decreases n,
{
    if n <= 0 {
        0
    } else {
        left(sources, pos, n - 1) + (sources[n - 1].len() - pos[n - 1])
    }
}

/// Moving one source on by one entry leaves one entry less.
pub proof fn lemma_left_update(sources: Seq<Seq<Entry>>, pos: Seq<usize>, i: int, v: usize, n: int)
    requires
        0 <= i < pos.len(),
        n <= pos.len(),
        v == pos[i] + 1,
    ensures
        left(sources, pos.update(i, v), n) == left(sources, pos, n) - (if i < n {
            1int
        } else {
            0int
        }),
    decreases n,
{
    if n > 0 {
        lemma_left_update(sources, pos, i, v, n - 1);
    }
}

/// What is left is never negative.
pub proof fn lemma_left_nonnegative(sources: Seq<Seq<Entry>>, pos: Seq<usize>, n: int)
    requires
        n <= pos.len(),
        n <= sources.len(),
        forall|i: int| 0 <= i < n ==> pos[i] <= sources[i].len(),
    ensures
        left(sources, pos, n) >= 0,
    decreases n,
{
    if n > 0 {
        lemma_left_nonnegative(sources, pos, n - 1);
    }
}

/// A key with holders is held by some source.
pub proof fn lemma_holders_nonempty(sources: Seq<Seq<Entry>>, key: Seq<u8>, n: int) -> (i: int)
    requires
        holders(sources, key, n).len() > 0,
    ensures
        0 <= i < n,
        position(sources[i], key) is Some,
    decreases n,
{
    if n <= 0 {
        0
    } else if position(sources[n - 1], key) is Some {
        n - 1
    } else {
        assert(holders(sources, key, n) =~= holders(sources, key, n - 1));
        lemma_holders_nonempty(sources, key, n - 1)
    }
}

/// A key that a source holds has holders.
pub proof fn lemma_holders_of_held(sources: Seq<Seq<Entry>>, key: Seq<u8>, n: int, i: int)
    requires
        0 <= i < n,
        position(sources[i], key) is Some,
    ensures
        holders(sources, key, n).len() > 0,
    decreases n,
{
    if i < n - 1 {
        lemma_holders_of_held(sources, key, n - 1, i);
    }
}

/// The sources are all cut by the bound at their positions.
pub open spec fn all_cut(sources: Seq<Seq<Entry>>, pos: Seq<usize>, bound: Option<Seq<u8>>) -> bool {
    &&& pos.len() == sources.len()
    &&& forall|i: int| 0 <= i < sources.len() ==> cut(#[trigger] sources[i], pos[i] as int, bound)
}

/// The list `out` is the result of `op` on the sources as far as the
/// bound: it holds the selected keys that do not come after the bound.
pub open spec fn merged_upto(
    out: Seq<Merged>,
    op: Op,
    sources: Seq<Seq<Entry>>,
    bound: Option<Seq<u8>>,
) -> bool {
    &&& merged_sorted(out)
    &&& forall|j: int| 0 <= j < out.len() ==> upto(bound, (#[trigger] out[j]).0)
    &&& forall|key: Seq<u8>| #[trigger]
        has_key(out, key) <==> upto(bound, key) && selects(
            op,
            holders(sources, key, sources.len() as int),
            sources.len() as int,
        )
    &&& forall|j: int|
        0 <= j < out.len() ==> (#[trigger] out[j]).1 == holders(
            sources,
            out[j].0,
            sources.len() as int,
        )
}

/// A key between the old bound and the new one that is not the new bound
/// is held by no source, where the sources are cut at both bounds alike
/// but for the entries with the new bound.
pub proof fn lemma_nothing_between(
    sources: Seq<Seq<Entry>>,
    pos: Seq<usize>,
    bound: Option<Seq<u8>>,
    m: Seq<u8>,
    key: Seq<u8>,
)
    requires
        all_cut(sources, pos, bound),
        forall|i: int|
            0 <= i < sources.len() && pos[i] < sources[i].len() ==> !lex_lt(
                (#[trigger] sources[i])[pos[i] as int].0,
                m,
            ),
        forall|i: int| 0 <= i < sources.len() ==> sorted_keys(#[trigger] sources[i]),
        lex_lt(key, m),
        holders(sources, key, sources.len() as int).len() > 0,
    ensures
        upto(bound, key),
{
    let i = lemma_holders_nonempty(sources, key, sources.len() as int);
    let src = sources[i];
    let j = choose|j: int| 0 <= j < src.len() && (#[trigger] src[j]).0 == key;
    assert(cut(src, pos[i] as int, bound));
    if j >= pos[i] {
        let head = src[pos[i] as int].0;
        if j > pos[i] {
            assert(lex_lt(head, src[j].0));
            lemma_lex_transitive(head, key, m);
        }
    }
}

/// `op` selects `key` by the sources that hold it.
pub open spec fn wanted(op: Op, sources: Seq<Seq<Entry>>, key: Seq<u8>) -> bool {
    selects(op, holders(sources, key, sources.len() as int), sources.len() as int)
}

/// `k` is the first key after the bound that `op` selects.
pub open spec fn next_key(op: Op, sources: Seq<Seq<Entry>>, bound: Option<Seq<u8>>, k: Seq<u8>) -> bool {
    &&& after(bound, k)
    &&& wanted(op, sources, k)
    &&& forall|key: Seq<u8>| after(bound, key) && lex_lt(key, k) ==> !#[trigger] wanted(op, sources, key)
}

/// `op` selects no key after the bound.
pub open spec fn none_after(op: Op, sources: Seq<Seq<Entry>>, bound: Option<Seq<u8>>) -> bool {
    forall|key: Seq<u8>| after(bound, key) ==> !#[trigger] wanted(op, sources, key)
}

/// A key comes after a bound or does not, never both.
pub proof fn lemma_after_or_upto(bound: Option<Seq<u8>>, key: Seq<u8>)
    ensures
        bound is Some ==> after(bound, key) != upto(bound, key),
        bound is None ==> after(bound, key) && !upto(bound, key),
{
    if bound is Some {
        lemma_lex_total(bound->0, key);
    }
}

/// No key between the bound and the smallest key still to come is
/// selected: no source holds it.
pub proof fn lemma_gap(
    op: Op,
    sources: Seq<Seq<Entry>>,
    pos: Seq<usize>,
    bound: Option<Seq<u8>>,
    m: Seq<u8>,
    key: Seq<u8>,
)
    requires
        all_cut(sources, pos, bound),
        forall|i: int|
            0 <= i < sources.len() && pos[i] < sources[i].len() ==> !lex_lt(
                (#[trigger] sources[i])[pos[i] as int].0,
                m,
            ),
        forall|i: int| 0 <= i < sources.len() ==> sorted_keys(#[trigger] sources[i]),
        after(bound, key),
        lex_lt(key, m),
    ensures
        !wanted(op, sources, key),
{
    if wanted(op, sources, key) {
        lemma_nothing_between(sources, pos, bound, m, key);
        lemma_after_or_upto(bound, key);
    }
}

/// When no source has an entry left, no key after the bound is selected.
pub proof fn lemma_exhausted(
    op: Op,
    sources: Seq<Seq<Entry>>,
    pos: Seq<usize>,
    bound: Option<Seq<u8>>,
    key: Seq<u8>,
)
    requires
        all_cut(sources, pos, bound),
        forall|i: int| 0 <= i < sources.len() ==> pos[i] == (#[trigger] sources[i]).len(),
        after(bound, key),
    ensures
        !wanted(op, sources, key),
{
    let n = sources.len() as int;
    if wanted(op, sources, key) {
        let i = lemma_holders_nonempty(sources, key, n);
        let src = sources[i];
        let j = choose|j: int| 0 <= j < src.len() && (#[trigger] src[j]).0 == key;
        assert(cut(src, pos[i] as int, bound));
        assert(upto(bound, src[j].0));
        lemma_after_or_upto(bound, key);
    }
}

/// When nothing is selected after the bound, what was merged as far as the
/// bound is the whole result.
pub proof fn lemma_merged_end(
    out: Seq<Merged>,
    op: Op,
    sources: Seq<Seq<Entry>>,
    bound: Option<Seq<u8>>,
)
    requires
        merged_upto(out, op, sources, bound),
        none_after(op, sources, bound),
    ensures
        is_merge(out, op, sources),
{
    let n = sources.len() as int;
    assert forall|key: Seq<u8>| #[trigger]
        has_key(out, key) <==> selects(op, holders(sources, key, n), n) by {
        lemma_after_or_upto(bound, key);
        if wanted(op, sources, key) {
            assert(!after(bound, key));
        }
    }
}

/// The next selected key extends what was merged as far as the old bound
/// to what is merged as far as that key.
pub proof fn lemma_merged_next(
    out: Seq<Merged>,
    op: Op,
    sources: Seq<Seq<Entry>>,
    bound: Option<Seq<u8>>,
    k: Seq<u8>,
)
    requires
        merged_upto(out, op, sources, bound),
        next_key(op, sources, bound, k),
    ensures
        merged_upto(
            out.push((k, holders(sources, k, sources.len() as int))),
            op,
            sources,
            Some(k),
        ),
{
    let n = sources.len() as int;
    let vals = holders(sources, k, n);
    let out2 = out.push((k, vals));
    lemma_lex_irreflexive(k);
    assert forall|j: int| 0 <= j < out.len() implies lex_lt((#[trigger] out[j]).0, k) by {
        assert(upto(bound, out[j].0));
        let b = bound->0;
        if out[j].0 != b {
            lemma_lex_transitive(out[j].0, b, k);
        }
    }
    assert forall|i: int, j: int| 0 <= i < j < out2.len() implies lex_lt(
        #[trigger] out2[i].0,
        #[trigger] out2[j].0,
    ) by {
        if j < out.len() {
            assert(out2[i] == out[i] && out2[j] == out[j]);
        } else {
            assert(out2[i] == out[i]);
        }
    }
    assert forall|j: int| 0 <= j < out2.len() implies upto(Some(k), (#[trigger] out2[j]).0) by {
        if j < out.len() {
            assert(out2[j] == out[j]);
        }
    }
    assert forall|j: int| 0 <= j < out2.len() implies (#[trigger] out2[j]).1 == holders(
        sources,
        out2[j].0,
        n,
    ) by {
        if j < out.len() {
            assert(out2[j] == out[j]);
        }
    }
    assert forall|key: Seq<u8>| #[trigger]
        has_key(out2, key) <==> upto(Some(k), key) && selects(op, holders(sources, key, n), n) by {
        if has_key(out2, key) {
            let j = choose|j: int| 0 <= j < out2.len() && (#[trigger] out2[j]).0 == key;
            if j < out.len() {
                assert(out[j].0 == key);
                assert(has_key(out, key));
                assert(lex_lt(out[j].0, k));
            }
        }
        if upto(Some(k), key) && wanted(op, sources, key) {
            if key == k {
                assert(out2[out.len() as int].0 == k);
            } else {
                lemma_after_or_upto(bound, key);
                assert(upto(bound, key));
                assert(has_key(out, key));
                let j = choose|j: int| 0 <= j < out.len() && (#[trigger] out[j]).0 == key;
                assert(out2[j].0 == key);
            }
        }
    }
}

/// Tells whether `op` selects a key by the sources that hold it.
pub fn selected(op: Op, vals: &Vec<IndexedValue>, count: usize) -> (r: bool)
    ensures
        r == selects(op, vals@, count as int),
{
    match op {
        Op::Union => vals.len() > 0,
        Op::Intersection => vals.len() > 0 && vals.len() == count,
        Op::Difference => vals.len() == 1 && vals[0].index == 0,
        Op::SymmetricDifference => vals.len() % 2 == 1,
    }
}

/// Source `i` has `m` as its next key at the positions `pos`.
pub open spec fn holds(sources: Seq<Seq<Entry>>, pos: Seq<usize>, m: Seq<u8>, i: int) -> bool {
    active(sources, pos, i) && head(sources, pos, i) == m
}

/// The positions `pos` are the positions `start`, moved on by one for the
/// sources below `cur` that had `m` as their next key.
pub open spec fn moved(
    sources: Seq<Seq<Entry>>,
    start: Seq<usize>,
    pos: Seq<usize>,
    m: Seq<u8>,
    cur: int,
) -> bool {
    &&& pos.len() == start.len()
    &&& forall|i: int|
        0 <= i < start.len() ==> (#[trigger] pos[i]) as int == if holds(sources, start, m, i) && i
            < cur {
            start[i] + 1
        } else {
            start[i] as int
        }
}

/// A source holds the smallest key still to come exactly if it is its
/// next key, and is cut by that key past it.
pub proof fn lemma_position(
    sources: Seq<Seq<Entry>>,
    start: Seq<usize>,
    bound: Option<Seq<u8>>,
    m: Seq<u8>,
    i: int,
)
    requires
        0 <= i < sources.len(),
        start.len() == sources.len(),
        cut(sources[i], start[i] as int, bound),
        sorted_keys(sources[i]),
        after(bound, m),
        active(sources, start, i) ==> !lex_lt(head(sources, start, i), m),
    ensures
        position(sources[i], m) == if holds(sources, start, m, i) {
            Some(start[i] as int)
        } else {
            None
        },
        cut(
            sources[i],
            if holds(sources, start, m, i) {
                start[i] + 1
            } else {
                start[i] as int
            },
            Some(m),
        ),
{
    lemma_cut_step(sources[i], start[i] as int, bound, m);
}

/// Sources that do not hold a key add nothing to its holders.
pub proof fn lemma_holders_skip(sources: Seq<Seq<Entry>>, m: Seq<u8>, a: int, b: int)
    requires
        0 <= a <= b,
        forall|i: int| a <= i < b ==> position(#[trigger] sources[i], m) is None,
    ensures
        holders(sources, m, b) == holders(sources, m, a),
    decreases b - a,
{
    if a < b {
        lemma_holders_skip(sources, m, a, b - 1);
        assert(position(sources[b - 1], m) is None);
        assert(holders(sources, m, b) =~= holders(sources, m, b - 1));
    }
}

/// The facts that hold while the key `m` is taken from the sources, when
/// all its holders below `cur` were taken: the positions moved for these,
/// the heap holds every source that has an entry left, none of them has
/// a next key before `m`, and those with next key `m` come from `cur` on.
pub open spec fn taking(
    sources: Seq<Seq<Entry>>,
    start: Seq<usize>,
    pos: Seq<usize>,
    heap: Seq<usize>,
    m: Seq<u8>,
    cur: int,
) -> bool {
    &&& moved(sources, start, pos, m, cur)
    &&& heap_ok(heap, sources, pos)
    &&& forall|i: int| active(sources, pos, i) ==> #[trigger] heap.contains(i as usize)
    &&& forall|k: int|
        0 <= k < heap.len() ==> !lex_lt(head(sources, pos, #[trigger] heap[k] as int), m)
    &&& forall|i: int| 0 <= i < sources.len() ==> sorted_keys(#[trigger] sources[i])
    &&& start.len() == sources.len()
    &&& sources.len() <= usize::MAX
}

/// While `m` is taken, a source at the top of the heap with next key `m`
/// is the next holder: no source between `cur` and it holds `m`.
pub proof fn lemma_next_holder(
    sources: Seq<Seq<Entry>>,
    start: Seq<usize>,
    pos: Seq<usize>,
    heap: Seq<usize>,
    m: Seq<u8>,
    cur: int,
)
    requires
        taking(sources, start, pos, heap, m, cur),
        heap.len() > 0,
        head(sources, pos, heap[0] as int) == m,
    ensures
        cur <= heap[0],
        holds(sources, start, m, heap[0] as int),
        pos[heap[0] as int] == start[heap[0] as int],
        forall|i: int| cur <= i < heap[0] ==> !holds(sources, start, m, i),
{
    let t = heap[0] as int;
    assert(active(sources, pos, t));
    lemma_lex_irreflexive(m);
    if holds(sources, start, m, t) && t < cur {
        assert(pos[t] == start[t] + 1);
        assert(lex_lt(sources[t][start[t] as int].0, sources[t][pos[t] as int].0));
    }
    assert(pos[t] == start[t]);
    assert forall|i: int| cur <= i < t implies !holds(sources, start, m, i) by {
        if holds(sources, start, m, i) {
            assert(pos[i] == start[i]);
            assert(active(sources, pos, i));
            assert(heap.contains(i as usize));
            let k = choose|k: int| 0 <= k < heap.len() && heap[k] == i as usize;
            lemma_heap_first(heap, sources, pos, k);
        }
    }
}

/// While `m` is taken, when the heap is empty or the source at its top
/// has another next key, no source from `cur` on holds `m`.
pub proof fn lemma_no_more_holders(
    sources: Seq<Seq<Entry>>,
    start: Seq<usize>,
    pos: Seq<usize>,
    heap: Seq<usize>,
    m: Seq<u8>,
    cur: int,
)
    requires
        taking(sources, start, pos, heap, m, cur),
        heap.len() == 0 || head(sources, pos, heap[0] as int) != m,
    ensures
        forall|i: int| cur <= i < sources.len() ==> !holds(sources, start, m, i),
{
    assert forall|i: int| cur <= i < sources.len() implies !holds(sources, start, m, i) by {
        if holds(sources, start, m, i) {
            assert(pos[i] == start[i]);
            assert(active(sources, pos, i));
            assert(heap.contains(i as usize));
            let k = choose|k: int| 0 <= k < heap.len() && heap[k] == i as usize;
            lemma_heap_first(heap, sources, pos, k);
            let t = heap[0] as int;
            assert(!lex_lt(head(sources, pos, t), m));
            lemma_lex_total(head(sources, pos, t), m);
        }
    }
}

/// When every holder of `m` was taken, the holders of `m` among the
/// sources below `cur` are all its holders, and every source is cut by
/// `m`.
pub proof fn lemma_taken(
    sources: Seq<Seq<Entry>>,
    start: Seq<usize>,
    pos: Seq<usize>,
    bound: Option<Seq<u8>>,
    m: Seq<u8>,
    cur: int,
)
    requires
        0 <= cur <= sources.len(),
        moved(sources, start, pos, m, cur),
        all_cut(sources, start, bound),
        after(bound, m),
        forall|i: int| 0 <= i < sources.len() ==> sorted_keys(#[trigger] sources[i]),
        forall|i: int|
            0 <= i < sources.len() && active(sources, start, i) ==> !lex_lt(
                head(sources, start, i),
                m,
            ),
        forall|i: int| cur <= i < sources.len() ==> !holds(sources, start, m, i),
    ensures
        all_cut(sources, pos, Some(m)),
        holders(sources, m, sources.len() as int) == holders(sources, m, cur),
{
    assert forall|i: int| 0 <= i < sources.len() implies cut(
        #[trigger] sources[i],
        pos[i] as int,
        Some(m),
    ) by {
        lemma_position(sources, start, bound, m, i);
    }
    assert forall|i: int| cur <= i < sources.len() implies position(#[trigger] sources[i], m)
        is None by {
        lemma_position(sources, start, bound, m, i);
    }
    lemma_holders_skip(sources, m, cur, sources.len() as int);
}

/// Takes the key `m` from every source that has it as its next key,
/// starting with source `first`, which was taken from the top of the heap,
/// and going on with the sources that come to the top with the same key.
/// Returns the outputs of these sources.
fn take_key(
    sources: &Vec<Vec<(Vec<u8>, u64)>>,
    pos: &mut Vec<usize>,
    heap: &mut Vec<usize>,
    m: &[u8],
    first: usize,
    Ghost(bound): Ghost<Option<Seq<u8>>>,
) -> (vals: Vec<IndexedValue>)
    requires
        all_cut(sources_of(sources@), old(pos)@, bound),
        forall|i: int| 0 <= i < sources.len() ==> sorted_keys(#[trigger] sources_of(sources@)[i]),
        after(bound, m@),
        forall|i: int|
            0 <= i < sources.len() && active(sources_of(sources@), old(pos)@, i) ==> !lex_lt(
                #[trigger] head(sources_of(sources@), old(pos)@, i),
                m@,
            ),
        holds(sources_of(sources@), old(pos)@, m@, first as int),
        forall|i: int| 0 <= i < first ==> !holds(sources_of(sources@), old(pos)@, m@, i),
        heap_ok(old(heap)@, sources_of(sources@), old(pos)@),
        !old(heap)@.contains(first),
        forall|i: int|
            active(sources_of(sources@), old(pos)@, i) && i != first ==> #[trigger] old(
                heap,
            )@.contains(i as usize),
    ensures
        all_cut(sources_of(sources@), final(pos)@, Some(m@)),
        vals@ == holders(sources_of(sources@), m@, sources.len() as int),
        left(sources_of(sources@), final(pos)@, sources.len() as int) < left(
            sources_of(sources@),
            old(pos)@,
            sources.len() as int,
        ),
        heap_ok(final(heap)@, sources_of(sources@), final(pos)@),
        forall|i: int|
            active(sources_of(sources@), final(pos)@, i) ==> #[trigger] final(heap)@.contains(
                i as usize,
            ),
{
    let n = sources.len();
    let ghost all = sources_of(sources@);
    let ghost start = pos@;
    let mut vals: Vec<IndexedValue> = Vec::new();
    let mut cur: usize = first;
    proof {
        assert forall|i: int| 0 <= i < cur implies position(#[trigger] all[i], m@) is None by {
            assert(cut(all[i], start[i] as int, bound));
            lemma_position(all, start, bound, m@, i);
        }
        lemma_holders_skip(all, m@, 0, cur as int);
        assert forall|k: int| 0 <= k < heap.len() implies !lex_lt(
            head(all, start, #[trigger] heap[k] as int),
            m@,
        ) by {
            assert(active(all, start, heap[k] as int));
        }
    }
    loop
        invariant
            n == sources.len(),
            all == sources_of(sources@),
            start == old(pos)@,
            start.len() == n,
            all_cut(all, start, bound),
            after(bound, m@),
            forall|i: int| 0 <= i < n ==> sorted_keys(#[trigger] all[i]),
            forall|i: int|
                0 <= i < n && active(all, start, i) ==> !lex_lt(#[trigger] head(all, start, i), m@),
            cur < n,
            holds(all, start, m@, cur as int),
            !heap@.contains(cur),
            moved(all, start, pos@, m@, cur as int),
            heap_ok(heap@, all, pos@),
            forall|i: int| active(all, pos@, i) && i != cur ==> #[trigger] heap@.contains(i as usize),
            forall|k: int|
                0 <= k < heap.len() ==> !lex_lt(head(all, pos@, #[trigger] heap[k] as int), m@),
            vals@ == holders(all, m@, cur as int),
            left(all, pos@, n as int) <= left(all, start, n as int),
            cur > first ==> left(all, pos@, n as int) < left(all, start, n as int),
        decreases n - cur,
    {
        let p = pos[cur];
        assert(p == start[cur as int]);
        let ghost src = all[cur as int];
        assert(src.len() == sources[cur as int].len());
        assert(active(all, start, cur as int));
        proof {
            assert(cut(src, start[cur as int] as int, bound));
            lemma_position(all, start, bound, m@, cur as int);
            lemma_heap_frame(heap@, all, pos@, cur as int, (p + 1) as usize);
            lemma_left_update(all, pos@, cur as int, (p + 1) as usize, n as int);
            assert(src[p as int] == (sources[cur as int][p as int].0@, sources[cur as int][p as int].1));
        }
        vals.push(IndexedValue { index: cur, value: sources[cur][p].1 });
        let ghost before = pos@;
        pos[cur] = p + 1;
        assert(pos@ =~= before.update(cur as int, (p + 1) as usize));
        proof {
            assert forall|k: int| 0 <= k < heap.len() implies !lex_lt(
                head(all, pos@, #[trigger] heap[k] as int),
                m@,
            ) && heap[k] != cur by {
                assert(heap@.contains(heap[k]));
                assert(!lex_lt(head(all, before, heap[k] as int), m@));
            }
        }
        if p + 1 < sources[cur].len() {
            proof {
                assert(lex_lt(src[p as int].0, src[p + 1].0));
                lemma_lex_total(m@, src[p + 1].0);
            }
            let ghost held = heap@;
            heap_push(heap, sources, pos, cur);
            proof {
                assert forall|k: int| 0 <= k < heap.len() implies !lex_lt(
                    head(all, pos@, #[trigger] heap[k] as int),
                    m@,
                ) by {
                    assert(heap@.contains(heap[k]));
                    if heap[k] != cur {
                        assert(held.contains(heap[k]));
                        let j = choose|j: int| 0 <= j < held.len() && held[j] == heap[k];
                        assert(!lex_lt(head(all, pos@, held[j] as int), m@));
                    }
                }
            }
        }
        proof {
            assert forall|i: int| active(all, pos@, i) implies #[trigger] heap@.contains(
                i as usize,
            ) by {
                if i != cur {
                    assert(active(all, before, i));
                }
            }
            assert(moved(all, start, pos@, m@, cur + 1));
            assert(taking(all, start, pos@, heap@, m@, cur + 1));
        }
        if heap.len() == 0 {
            proof {
                lemma_no_more_holders(all, start, pos@, heap@, m@, cur + 1);
                lemma_taken(all, start, pos@, bound, m@, cur + 1);
            }
            return vals;
        }
        let t = heap[0];
        proof {
            assert(active(all, pos@, t as int));
            assert(all[t as int][pos[t as int] as int].0 == sources[t as int][pos[t as int] as int].0@);
        }
        if !key_eq(sources[t][pos[t]].0.as_slice(), m) {
            proof {
                lemma_no_more_holders(all, start, pos@, heap@, m@, cur + 1);
                lemma_taken(all, start, pos@, bound, m@, cur + 1);
            }
            return vals;
        }
        proof {
            lemma_next_holder(all, start, pos@, heap@, m@, cur + 1);
            assert forall|i: int| cur + 1 <= i < t implies position(#[trigger] all[i], m@)
                is None by {
                assert(cut(all[i], start[i] as int, bound));
                lemma_position(all, start, bound, m@, i);
            }
            lemma_holders_skip(all, m@, cur + 1, t as int);
            assert(moved(all, start, pos@, m@, t as int));
        }
        let ghost held = heap@;
        let popped = heap_pop(heap, sources, pos);
        proof {
            assert forall|k: int| 0 <= k < heap.len() implies !lex_lt(
                head(all, pos@, #[trigger] heap[k] as int),
                m@,
            ) by {
                assert(heap@.contains(heap[k]));
                assert(held.contains(heap[k]));
                let j = choose|j: int| 0 <= j < held.len() && held[j] == heap[k];
                assert(!lex_lt(head(all, pos@, held[j] as int), m@));
            }
        }
        cur = t;
    }
}

/// A set operation in progress: it gives the selected keys one by one, in
/// their order, each with the outputs of the sources that have it. A heap
/// keeps the sources by their next keys, so that the smallest key still
/// to come is always at hand.
pub struct Merger<'a> {
    op: Op,
    sources: &'a Vec<Vec<(Vec<u8>, u64)>>,
    pos: Vec<usize>,
    heap: Vec<usize>,
    bound: Ghost<Option<Seq<u8>>>,
}

impl<'a> Merger<'a> {
    /// The operation.
    pub closed spec fn op(&self) -> Op {
        self.op
    }

    /// The sources.
    pub closed spec fn sources(&self) -> Seq<Seq<Entry>> {
        sources_of(self.sources@)
    }

    /// The last key that was taken from the sources, whether or not the
    /// operation selected it; `None` before the first.
    pub closed spec fn bound(&self) -> Option<Seq<u8>> {
        self.bound@
    }

    /// The number of entries that the sources have still to give.
    pub closed spec fn work(&self) -> int {
        left(sources_of(self.sources@), self.pos@, self.sources.len() as int)
    }

    /// The invariant: the keys of every source increase strictly, every
    /// source is cut by the bound at its position, and the heap holds the
    /// sources that have an entry left.
    pub closed spec fn wf(&self) -> bool {
        &&& forall|i: int|
            0 <= i < self.sources.len() ==> sorted_keys(#[trigger] sources_of(self.sources@)[i])
        &&& all_cut(sources_of(self.sources@), self.pos@, self.bound@)
        &&& heap_ok(self.heap@, sources_of(self.sources@), self.pos@)
        &&& forall|i: int|
            active(sources_of(self.sources@), self.pos@, i) ==> #[trigger] self.heap@.contains(
                i as usize,
            )
    }

    /// Starts `op` on the sources. Every source must give its keys in
    /// strictly increasing order.
    pub fn new(op: Op, sources: &'a Vec<Vec<(Vec<u8>, u64)>>) -> (r: Merger<'a>)
        requires
            forall|i: int|
                0 <= i < sources.len() ==> sorted_keys(#[trigger] sources_of(sources@)[i]),
        ensures
            r.wf(),
            r.op() == op,
            r.sources() == sources_of(sources@),
            r.bound() is None,
    {
        let n = sources.len();
        let ghost all = sources_of(sources@);
        let mut pos: Vec<usize> = Vec::new();
        let mut i: usize = 0;
        while i < n
            invariant
                i <= n,
                pos.len() == i,
                forall|k: int| 0 <= k < i ==> pos[k] == 0,
            decreases n - i,
        {
            pos.push(0);
            i += 1;
        }
        let mut heap: Vec<usize> = Vec::new();
        let mut i: usize = 0;
        while i < n
            invariant
                i <= n,
                n == sources.len(),
                pos.len() == n,
                all == sources_of(sources@),
                forall|k: int| 0 <= k < n ==> pos[k] == 0,
                heap_ok(heap@, all, pos@),
                forall|k: int| 0 <= k < heap.len() ==> (#[trigger] heap[k]) < i,
                forall|k: int| 0 <= k < i && active(all, pos@, k) ==> #[trigger] heap@.contains(
                    k as usize,
                ),
            decreases n - i,
        {
            if sources[i].len() > 0 {
                let ghost held = heap@;
                proof {
                    if held.contains(i) {
                        let k = choose|k: int| 0 <= k < held.len() && held[k] == i;
                        assert(held[k] < i);
                    }
                }
                heap_push(&mut heap, sources, &pos, i);
                proof {
                    assert forall|k: int| 0 <= k < heap.len() implies (#[trigger] heap[k]) < i
                        + 1 by {
                        assert(heap@.contains(heap[k]));
                        if heap[k] != i {
                            let j = choose|j: int| 0 <= j < held.len() && held[j] == heap[k];
                        }
                    }
                    assert forall|k: int| 0 <= k < i + 1 && active(
                        all,
                        pos@,
                        k,
                    ) implies #[trigger] heap@.contains(k as usize) by {
                        if k < i {
                            assert(held.contains(k as usize));
                        }
                    }
                }
            }
            i += 1;
        }
        Merger { op, sources, pos, heap, bound: Ghost(None) }
    }

    /// Takes the smallest key that any source has still to give from
    /// every source that has it. Returns the key, the outputs of those
    /// sources, and whether the operation selects the key; `None` when no
    /// source has an entry left.
    fn advance(&mut self) -> (r: Option<(Vec<u8>, Vec<IndexedValue>, bool)>)
        requires
            old(self).wf(),
        ensures
            final(self).wf(),
            final(self).op() == old(self).op(),
            final(self).sources() == old(self).sources(),
            match r {
                None => none_after(old(self).op(), old(self).sources(), old(self).bound())
                    && final(self).bound() == old(self).bound(),
                Some(step) => {
                    &&& after(old(self).bound(), step.0@)
                    &&& final(self).bound() == Some(step.0@)
                    &&& step.1@ == holders(
                        old(self).sources(),
                        step.0@,
                        old(self).sources().len() as int,
                    )
                    &&& step.2 == wanted(old(self).op(), old(self).sources(), step.0@)
                    &&& forall|key: Seq<u8>|
                        after(old(self).bound(), key) && lex_lt(key, step.0@) ==> !#[trigger] wanted(
                            old(self).op(),
                            old(self).sources(),
                            key,
                        )
                    &&& 0 <= final(self).work() < old(self).work()
                },
            },
    {
        let n = self.sources.len();
        let ghost all = sources_of(self.sources@);
        let ghost bound = self.bound@;
        let ghost pos0 = self.pos@;
        let ghost heap0 = self.heap@;
        if self.heap.len() == 0 {
            proof {
                assert forall|key: Seq<u8>| after(bound, key) implies !#[trigger] wanted(
                    self.op,
                    all,
                    key,
                ) by {
                    assert forall|k: int| 0 <= k < n implies pos0[k] == (#[trigger] all[k]).len() by {
                        assert(cut(all[k], pos0[k] as int, bound));
                        if pos0[k] < all[k].len() {
                            assert(active(all, pos0, k));
                            assert(heap0.contains(k as usize));
                        }
                    }
                    lemma_exhausted(self.op, all, pos0, bound, key);
                }
            }
            return None;
        }
        let b = heap_pop(&mut self.heap, self.sources, &self.pos);
        proof {
            assert(heap0.contains(heap0[0]));
            assert(active(all, pos0, b as int));
        }
        let m = vstd::slice::slice_to_vec(self.sources[b][self.pos[b]].0.as_slice());
        proof {
            assert(cut(all[b as int], pos0[b as int] as int, bound));
            assert(head(all, pos0, b as int) == m@);
            assert forall|i: int| 0 <= i < n && active(all, pos0, i) implies !lex_lt(
                #[trigger] head(all, pos0, i),
                m@,
            ) by {
                assert(heap0.contains(i as usize));
                let k = choose|k: int| 0 <= k < heap0.len() && heap0[k] == i as usize;
                lemma_heap_first(heap0, all, pos0, k);
            }
            assert forall|i: int| 0 <= i < b implies !holds(all, pos0, m@, i) by {
                if holds(all, pos0, m@, i) {
                    assert(heap0.contains(i as usize));
                    let k = choose|k: int| 0 <= k < heap0.len() && heap0[k] == i as usize;
                    lemma_heap_first(heap0, all, pos0, k);
                }
            }
            assert forall|k: int| 0 <= k < n && pos0[k] < all[k].len() implies !lex_lt(
                (#[trigger] all[k])[pos0[k] as int].0,
                m@,
            ) by {
                assert(active(all, pos0, k));
                assert(!lex_lt(head(all, pos0, k), m@));
            }
            assert forall|key: Seq<u8>| after(bound, key) && lex_lt(key, m@) implies !#[trigger] wanted(
                self.op,
                all,
                key,
            ) by {
                lemma_gap(self.op, all, pos0, bound, m@, key);
            }
        }
        let vals = take_key(
            self.sources,
            &mut self.pos,
            &mut self.heap,
            m.as_slice(),
            b,
            Ghost(bound),
        );
        let chosen = selected(self.op, &vals, n);
        self.bound = Ghost(Some(m@));
        proof {
            assert forall|k: int| 0 <= k < n implies self.pos[k] <= (#[trigger] all[k]).len() by {
                assert(cut(all[k], self.pos[k] as int, Some(m@)));
            }
            lemma_left_nonnegative(all, self.pos@, n as int);
        }
        Some((m, vals, chosen))
    }

    /// Gives the next key that the operation selects, with the outputs of
    /// the sources that have it; `None` when no key is left.
    pub fn next(&mut self) -> (r: Option<(Vec<u8>, Vec<IndexedValue>)>)
        requires
            old(self).wf(),
        ensures
            final(self).wf(),
            final(self).op() == old(self).op(),
            final(self).sources() == old(self).sources(),
            match r {
                None => none_after(old(self).op(), old(self).sources(), old(self).bound()),
                Some(e) => {
                    &&& next_key(old(self).op(), old(self).sources(), old(self).bound(), e.0@)
                    &&& e.1@ == holders(
                        old(self).sources(),
                        e.0@,
                        old(self).sources().len() as int,
                    )
                    &&& final(self).bound() == Some(e.0@)
                    &&& 0 <= final(self).work() < old(self).work()
                },
            },
    {
        let ghost first = self.bound@;
        let ghost all = sources_of(self.sources@);
        let ghost op = self.op;
        proof {
            assert forall|key: Seq<u8>| after(first, key) && upto(first, key) implies !#[trigger] wanted(
                op,
                all,
                key,
            ) by {
                lemma_after_or_upto(first, key);
            }
        }
        loop
            invariant
                self.wf(),
                self.op() == op,
                op == old(self).op(),
                self.sources() == all,
                all == old(self).sources(),
                first == old(self).bound(),
                self.work() <= old(self).work(),
                self.bound() == first || (self.bound() is Some && after(first, self.bound()->0)),
                forall|key: Seq<u8>|
                    after(first, key) && upto(self.bound(), key) ==> !#[trigger] wanted(op, all, key),
            decreases self.work(),
        {
            let ghost before = self.bound@;
            match self.advance() {
                None => {
                    proof {
                        assert forall|key: Seq<u8>| after(first, key) implies !#[trigger] wanted(
                            op,
                            all,
                            key,
                        ) by {
                            lemma_after_or_upto(before, key);
                        }
                    }
                    return None;
                },
                Some(step) => {
                    let (m, vals, chosen) = step;
                    proof {
                        assert(after(first, m@)) by {
                            if first is Some && before != first {
                                lemma_lex_transitive(first->0, before->0, m@);
                            }
                        }
                        assert forall|key: Seq<u8>| after(first, key) && lex_lt(key, m@) implies !#[trigger] wanted(
                            op,
                            all,
                            key,
                        ) by {
                            lemma_after_or_upto(before, key);
                        }
                    }
                    if chosen {
                        return Some((m, vals));
                    }
                },
            }
        }
    }
}

/// Applies `op` to the sources: gives the keys that `op` selects, in
/// their order, each with the outputs of the sources that have it. Every
/// source must give its keys in strictly increasing order.
pub fn merge(op: Op, sources: &Vec<Vec<(Vec<u8>, u64)>>) -> (out: Vec<(Vec<u8>, Vec<IndexedValue>)>)
    requires
        forall|i: int| 0 <= i < sources.len() ==> sorted_keys(#[trigger] sources_of(sources@)[i]),
    ensures
        is_merge(merged_of(out@), op, sources_of(sources@)),
{
    let ghost all = sources_of(sources@);
    let mut merger = Merger::new(op, sources);
    let mut out: Vec<(Vec<u8>, Vec<IndexedValue>)> = Vec::new();
    proof {
        assert forall|key: Seq<u8>| !#[trigger] has_key(merged_of(out@), key) by {}
    }
    loop
        invariant
            merger.wf(),
            merger.op() == op,
            merger.sources() == all,
            all == sources_of(sources@),
            merged_upto(merged_of(out@), op, all, merger.bound()),
        decreases merger.work(),
    {
        let ghost done = merged_of(out@);
        let ghost bound = merger.bound();
        match merger.next() {
            None => {
                proof {
                    lemma_merged_end(done, op, all, bound);
                }
                return out;
            },
            Some(e) => {
                proof {
                    lemma_merged_next(done, op, all, bound, e.0@);
                }
                let ghost k = e.0@;
                let ghost vals = e.1@;
                out.push(e);
                assert(merged_of(out@) =~= done.push((k, vals)));
            },
        }
    }
}

/// Tells whether the keys of a list increase strictly, as a source of a
/// set operation must have them.
pub fn is_sorted(source: &Vec<(Vec<u8>, u64)>) -> (r: bool)
    ensures
        r == sorted_keys(entries(source@)),
{
    let n = source.len();
    if n < 2 {
        return true;
    }
    let ghost list = entries(source@);
    let mut i: usize = 1;
    while i < n
        invariant
            1 <= i <= n,
            n == source.len(),
            list == entries(source@),
            forall|a: int, b: int| 0 <= a < b < i ==> lex_lt(#[trigger] list[a].0, #[trigger] list[b].0),
        decreases n - i,
    {
        if !key_lt(source[i - 1].0.as_slice(), source[i].0.as_slice()) {
            assert(!lex_lt(list[i - 1].0, list[i as int].0));
            return false;
        }
        proof {
            assert forall|a: int, b: int| 0 <= a < b < i + 1 implies lex_lt(
                #[trigger] list[a].0,
                #[trigger] list[b].0,
            ) by {
                if b == i && a < i - 1 {
                    lemma_lex_transitive(list[a].0, list[i - 1].0, list[i as int].0);
                }
            }
        }
        i += 1;
    }
    true
}

/// Collects sources for a set operation. Its view is the list of the
/// sources added so far.
pub struct OpBuilder {
    sources: Vec<Vec<(Vec<u8>, u64)>>,
}

impl View for OpBuilder {
    type V = Seq<Seq<Entry>>;

    open spec fn view(&self) -> Seq<Seq<Entry>> {
        self.added()
    }
}

impl OpBuilder {
    #[verifier::type_invariant]
    closed spec fn inv(self) -> bool {
        forall|i: int|
            0 <= i < self.sources.len() ==> sorted_keys(#[trigger] sources_of(self.sources@)[i])
    }

    /// The sources added so far.
    pub closed spec fn added(&self) -> Seq<Seq<Entry>> {
        sources_of(self.sources@)
    }

    /// A builder without sources.
    pub fn new() -> (r: OpBuilder)
        ensures
            r@.len() == 0,
    {
        OpBuilder { sources: Vec::new() }
    }

    /// Adds a source, whose keys must increase strictly.
    pub fn add(self, source: Vec<(Vec<u8>, u64)>) -> (r: OpBuilder)
        requires
            sorted_keys(entries(source@)),
        ensures
            r@ == self@.push(entries(source@)),
    {
        proof {
            use_type_invariant(&self);
        }
        let ghost before = sources_of(self.sources@);
        let mut sources = self.sources;
        sources.push(source);
        proof {
            assert(sources_of(sources@) =~= before.push(entries(source@)));
        }
        OpBuilder { sources }
    }

    /// Applies `op` to the sources.
    pub fn apply(self, op: Op) -> (out: Vec<(Vec<u8>, Vec<IndexedValue>)>)
        ensures
            is_merge(merged_of(out@), op, self@),
    {
        proof {
            use_type_invariant(&self);
        }
        merge(op, &self.sources)
    }

    /// The keys of any source.
    pub fn union(self) -> (out: Vec<(Vec<u8>, Vec<IndexedValue>)>)
        ensures
            is_merge(merged_of(out@), Op::Union, self@),
    {
        self.apply(Op::Union)
    }

    /// The keys that all sources have.
    pub fn intersection(self) -> (out: Vec<(Vec<u8>, Vec<IndexedValue>)>)
        ensures
            is_merge(merged_of(out@), Op::Intersection, self@),
    {
        self.apply(Op::Intersection)
    }

    /// The keys that the first source has and no other.
    pub fn difference(self) -> (out: Vec<(Vec<u8>, Vec<IndexedValue>)>)
        ensures
            is_merge(merged_of(out@), Op::Difference, self@),
    {
        self.apply(Op::Difference)
    }

    /// The keys that an odd number of sources have.
    pub fn symmetric_difference(self) -> (out: Vec<(Vec<u8>, Vec<IndexedValue>)>)
        ensures
            is_merge(merged_of(out@), Op::SymmetricDifference, self@),
    {
        self.apply(Op::SymmetricDifference)
    }
}

} // verus!
