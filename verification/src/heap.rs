//! A binary heap of sources, the one with the smallest next key first and,
//! among sources with the same next key, the one with the smallest
//! number.
//!
//! The heap holds the numbers of the sources; their keys stay where they
//! are, in the sources, at the positions that the merger keeps.

use crate::order::{key_lt, lemma_lex_irreflexive, lemma_lex_total, lemma_lex_transitive, lex_lt};
use crate::search::{entries, Entry};
use vstd::prelude::*;

verus! {

/// The lists of entries that a list of sources holds.
pub open spec fn sources_of(sources: Seq<Vec<(Vec<u8>, u64)>>) -> Seq<Seq<Entry>> {
    Seq::new(sources.len(), |i: int| entries(sources[i]@))
}

/// Source `i` has an entry left at its position.
pub open spec fn active(sources: Seq<Seq<Entry>>, pos: Seq<usize>, i: int) -> bool {
    0 <= i < sources.len() && i < pos.len() && pos[i] < sources[i].len()
}

/// The next key of source `i`.
pub open spec fn head(sources: Seq<Seq<Entry>>, pos: Seq<usize>, i: int) -> Seq<u8> {
    sources[i][pos[i] as int].0
}

/// Source `a` goes before source `b`: its next key is smaller, or the
/// same with `a` the smaller number.
pub open spec fn ahead(sources: Seq<Seq<Entry>>, pos: Seq<usize>, a: int, b: int) -> bool {
    lex_lt(head(sources, pos, a), head(sources, pos, b)) || (head(sources, pos, a) == head(
        sources,
        pos,
        b,
    ) && a < b)
}

/// Going before is a strict total order of the sources.
pub proof fn lemma_ahead_order(sources: Seq<Seq<Entry>>, pos: Seq<usize>, a: int, b: int, c: int)
    ensures
        !ahead(sources, pos, a, a),
        a != b ==> ahead(sources, pos, a, b) || ahead(sources, pos, b, a),
        !(ahead(sources, pos, a, b) && ahead(sources, pos, b, a)),
        ahead(sources, pos, a, b) && ahead(sources, pos, b, c) ==> ahead(sources, pos, a, c),
        !ahead(sources, pos, b, a) && !ahead(sources, pos, c, b) ==> !ahead(sources, pos, c, a),
{
    let ka = head(sources, pos, a);
    let kb = head(sources, pos, b);
    let kc = head(sources, pos, c);
    lemma_lex_irreflexive(ka);
    lemma_lex_irreflexive(kb);
    lemma_lex_irreflexive(kc);
    lemma_lex_total(ka, kb);
    lemma_lex_total(kb, kc);
    lemma_lex_total(ka, kc);
    if lex_lt(ka, kb) && lex_lt(kb, kc) {
        lemma_lex_transitive(ka, kb, kc);
    }
    if lex_lt(kc, kb) && lex_lt(kb, ka) {
        lemma_lex_transitive(kc, kb, ka);
    }
}

/// The place above place `k` of the heap.
pub open spec fn parent(k: int) -> int {
    (k - 1) / 2
}

/// The heap is in order but perhaps at place `hole`: no source stands
/// before the one above it, the place `hole` set aside.
pub open spec fn ordered_but(heap: Seq<usize>, sources: Seq<Seq<Entry>>, pos: Seq<usize>, hole: int) -> bool {
    forall|k: int|
        0 < k < heap.len() && k != hole ==> !ahead(
            sources,
            pos,
            #[trigger] heap[k] as int,
            heap[parent(k)] as int,
        )
}

/// The heap holds active sources, none twice, in heap order.
pub open spec fn heap_ok(heap: Seq<usize>, sources: Seq<Seq<Entry>>, pos: Seq<usize>) -> bool {
    &&& forall|k: int| 0 <= k < heap.len() ==> active(sources, pos, #[trigger] heap[k] as int)
    &&& heap.no_duplicates()
    &&& ordered_but(heap, sources, pos, -1)
}

/// The first source of a heap goes before all others.
pub proof fn lemma_heap_first(heap: Seq<usize>, sources: Seq<Seq<Entry>>, pos: Seq<usize>, k: int)
    requires
        heap_ok(heap, sources, pos),
        0 <= k < heap.len(),
    ensures
        !ahead(sources, pos, heap[k] as int, heap[0] as int),
    decreases k,
{
    if k > 0 {
        lemma_heap_first(heap, sources, pos, parent(k));
        lemma_ahead_order(sources, pos, heap[0] as int, heap[parent(k)] as int, heap[k] as int);
    } else {
        lemma_ahead_order(sources, pos, heap[0] as int, heap[0] as int, heap[0] as int);
    }
}

/// A heap stays one when the position of a source outside it changes.
pub proof fn lemma_heap_frame(
    heap: Seq<usize>,
    sources: Seq<Seq<Entry>>,
    pos: Seq<usize>,
    i: int,
    v: usize,
)
    requires
        heap_ok(heap, sources, pos),
        0 <= i < pos.len(),
        !heap.contains(i as usize),
    ensures
        heap_ok(heap, sources, pos.update(i, v)),
{
    let pos2 = pos.update(i, v);
    assert forall|k: int| 0 <= k < heap.len() implies active(
        sources,
        pos2,
        #[trigger] heap[k] as int,
    ) && heap[k] != i by {
        assert(active(sources, pos, heap[k] as int));
        assert(heap.contains(heap[k]));
    }
    assert forall|k: int| 0 < k < heap.len() implies !ahead(
        sources,
        pos2,
        #[trigger] heap[k] as int,
        heap[parent(k)] as int,
    ) by {
        assert(heap.contains(heap[k]));
        assert(heap.contains(heap[parent(k)]));
        assert(!ahead(sources, pos, heap[k] as int, heap[parent(k)] as int));
    }
}

/// Tells whether source `a` goes before source `b`.
pub fn goes_first(sources: &Vec<Vec<(Vec<u8>, u64)>>, pos: &Vec<usize>, a: usize, b: usize) -> (r:
    bool)
    requires
        active(sources_of(sources@), pos@, a as int),
        active(sources_of(sources@), pos@, b as int),
    ensures
        r == ahead(sources_of(sources@), pos@, a as int, b as int),
{
    let ka = sources[a][pos[a]].0.as_slice();
    let kb = sources[b][pos[b]].0.as_slice();
    assert(ka@ == head(sources_of(sources@), pos@, a as int));
    assert(kb@ == head(sources_of(sources@), pos@, b as int));
    if key_lt(ka, kb) {
        true
    } else if key_lt(kb, ka) {
        false
    } else {
        proof {
            lemma_lex_total(ka@, kb@);
        }
        a < b
    }
}

/// Exchanging two places of a list keeps what the list holds.
pub proof fn lemma_swap(s: Seq<usize>, i: int, j: int)
    requires
        0 <= i < s.len(),
        0 <= j < s.len(),
    ensures
        forall|x: usize| s.update(i, s[j]).update(j, s[i]).contains(x) == s.contains(x),
        s.no_duplicates() ==> s.update(i, s[j]).update(j, s[i]).no_duplicates(),
{
    let t = s.update(i, s[j]).update(j, s[i]);
    assert forall|x: usize| t.contains(x) == s.contains(x) by {
        if s.contains(x) {
            let k = choose|k: int| 0 <= k < s.len() && s[k] == x;
            if k == i {
                assert(t[j] == x);
            } else if k == j {
                assert(t[i] == x);
            } else {
                assert(t[k] == x);
            }
        }
        if t.contains(x) {
            let k = choose|k: int| 0 <= k < t.len() && t[k] == x;
            if k == i {
                assert(s[j] == x);
            } else if k == j {
                assert(s[i] == x);
            } else {
                assert(s[k] == x);
            }
        }
    }
    if s.no_duplicates() {
        assert forall|a: int, b: int| 0 <= a < t.len() && 0 <= b < t.len() && a != b implies t[a]
            != t[b] by {
            let sa = if a == i {
                j
            } else if a == j {
                i
            } else {
                a
            };
            let sb = if b == i {
                j
            } else if b == j {
                i
            } else {
                b
            };
            assert(t[a] == s[sa] && t[b] == s[sb]);
        }
    }
}

/// The list with places `i` and `j` exchanged.
pub open spec fn swapped(s: Seq<usize>, i: int, j: int) -> Seq<usize> {
    s.update(i, s[j]).update(j, s[i])
}

/// No source below place `hole` stands before the one two places up.
pub open spec fn skips(heap: Seq<usize>, sources: Seq<Seq<Entry>>, pos: Seq<usize>, hole: int) -> bool {
    hole > 0 ==> forall|k: int|
        0 < k < heap.len() && parent(k) == hole ==> !ahead(
            sources,
            pos,
            #[trigger] heap[k] as int,
            heap[parent(hole)] as int,
        )
}

/// The heap is in order but perhaps below place `hole`: no source stands
/// before the one above it, those right below `hole` set aside.
pub open spec fn ordered_under(heap: Seq<usize>, sources: Seq<Seq<Entry>>, pos: Seq<usize>, hole: int) -> bool {
    forall|k: int|
        0 < k < heap.len() && parent(k) != hole ==> !ahead(
            sources,
            pos,
            #[trigger] heap[k] as int,
            heap[parent(k)] as int,
        )
}

/// Moving a source that goes before the one above it one place up leaves
/// the heap in order but at the place it moved to.
pub proof fn lemma_up_step(heap: Seq<usize>, sources: Seq<Seq<Entry>>, pos: Seq<usize>, j: int)
    requires
        0 < j < heap.len(),
        ordered_but(heap, sources, pos, j),
        skips(heap, sources, pos, j),
        ahead(sources, pos, heap[j] as int, heap[parent(j)] as int),
    ensures
        ordered_but(swapped(heap, j, parent(j)), sources, pos, parent(j)),
        skips(swapped(heap, j, parent(j)), sources, pos, parent(j)),
{
    let p = parent(j);
    let h2 = swapped(heap, j, p);
    let a = heap[j] as int;
    let b = heap[p] as int;
    assert forall|k: int| 0 < k < h2.len() && k != p implies !ahead(
        sources,
        pos,
        #[trigger] h2[k] as int,
        h2[parent(k)] as int,
    ) by {
        let x = heap[k] as int;
        if k == j {
            lemma_ahead_order(sources, pos, a, b, a);
        } else if parent(k) == j {
            assert(!ahead(sources, pos, x, b));
        } else if parent(k) == p {
            assert(!ahead(sources, pos, x, b));
            lemma_ahead_order(sources, pos, x, a, b);
        } else {
            assert(!ahead(sources, pos, x, heap[parent(k)] as int));
        }
    }
    if p > 0 {
        let g = heap[parent(p)] as int;
        assert(!ahead(sources, pos, heap[p] as int, g));
        assert forall|k: int| 0 < k < h2.len() && parent(k) == p implies !ahead(
            sources,
            pos,
            #[trigger] h2[k] as int,
            h2[parent(p)] as int,
        ) by {
            if k != j {
                let x = heap[k] as int;
                assert(!ahead(sources, pos, x, b));
                lemma_ahead_order(sources, pos, g, b, x);
            }
        }
    }
}

/// Moving a source that the smaller of the sources below it goes before
/// one place down leaves the heap in order but below the place it moved
/// to.
pub proof fn lemma_down_step(
    heap: Seq<usize>,
    sources: Seq<Seq<Entry>>,
    pos: Seq<usize>,
    j: int,
    s: int,
)
    requires
        0 <= j < s < heap.len(),
        parent(s) == j,
        ordered_under(heap, sources, pos, j),
        skips(heap, sources, pos, j),
        ahead(sources, pos, heap[s] as int, heap[j] as int),
        forall|c: int|
            0 < c < heap.len() && parent(c) == j ==> !ahead(
                sources,
                pos,
                #[trigger] heap[c] as int,
                heap[s] as int,
            ),
    ensures
        ordered_under(swapped(heap, j, s), sources, pos, s),
        skips(swapped(heap, j, s), sources, pos, s),
{
    let h2 = swapped(heap, j, s);
    let a = heap[j] as int;
    let b = heap[s] as int;
    assert forall|k: int| 0 < k < h2.len() && parent(k) != s implies !ahead(
        sources,
        pos,
        #[trigger] h2[k] as int,
        h2[parent(k)] as int,
    ) by {
        let x = heap[k] as int;
        if k == s {
            lemma_ahead_order(sources, pos, b, a, b);
        } else if parent(k) == j {
            assert(!ahead(sources, pos, x, b));
        } else if k == j {
            assert(!ahead(sources, pos, heap[s] as int, heap[parent(j)] as int));
        } else {
            assert(!ahead(sources, pos, x, heap[parent(k)] as int));
        }
    }
    assert forall|k: int| 0 < k < h2.len() && parent(k) == s implies !ahead(
        sources,
        pos,
        #[trigger] h2[k] as int,
        h2[parent(s)] as int,
    ) by {
        assert(!ahead(sources, pos, heap[k] as int, heap[parent(k)] as int));
    }
}

/// Lets the source at the last place rise to the place where it belongs.
fn sift_up(heap: &mut Vec<usize>, sources: &Vec<Vec<(Vec<u8>, u64)>>, pos: &Vec<usize>)
    requires
        old(heap).len() > 0,
        forall|k: int|
            0 <= k < old(heap).len() ==> active(
                sources_of(sources@),
                pos@,
                #[trigger] old(heap)[k] as int,
            ),
        old(heap)@.no_duplicates(),
        ordered_but(old(heap)@, sources_of(sources@), pos@, old(heap).len() - 1),
    ensures
        heap_ok(final(heap)@, sources_of(sources@), pos@),
        final(heap).len() == old(heap).len(),
        forall|x: usize| final(heap)@.contains(x) == old(heap)@.contains(x),
{
    let ghost all = sources_of(sources@);
    let mut j: usize = heap.len() - 1;
    while j > 0 && goes_first(sources, pos, heap[j], heap[(j - 1) / 2])
        invariant
            0 <= j < heap.len(),
            heap.len() == old(heap).len(),
            all == sources_of(sources@),
            forall|k: int| 0 <= k < heap.len() ==> active(all, pos@, #[trigger] heap[k] as int),
            heap@.no_duplicates(),
            forall|x: usize| heap@.contains(x) == old(heap)@.contains(x),
            ordered_but(heap@, all, pos@, j as int),
            skips(heap@, all, pos@, j as int),
        decreases j,
    {
        let p = (j - 1) / 2;
        let a = heap[j];
        let b = heap[p];
        let ghost before = heap@;
        proof {
            lemma_up_step(before, all, pos@, j as int);
            lemma_swap(before, j as int, p as int);
        }
        heap[j] = b;
        heap[p] = a;
        assert(heap@ =~= swapped(before, j as int, p as int));
        j = p;
    }
    proof {
        assert forall|k: int| 0 < k < heap.len() implies !ahead(
            all,
            pos@,
            #[trigger] heap[k] as int,
            heap[parent(k)] as int,
        ) by {}
    }
}

/// Lets the source at the first place sink to the place where it belongs.
fn sift_down(heap: &mut Vec<usize>, sources: &Vec<Vec<(Vec<u8>, u64)>>, pos: &Vec<usize>)
    requires
        forall|k: int|
            0 <= k < old(heap).len() ==> active(
                sources_of(sources@),
                pos@,
                #[trigger] old(heap)[k] as int,
            ),
        old(heap)@.no_duplicates(),
        ordered_under(old(heap)@, sources_of(sources@), pos@, 0),
    ensures
        heap_ok(final(heap)@, sources_of(sources@), pos@),
        final(heap).len() == old(heap).len(),
        forall|x: usize| final(heap)@.contains(x) == old(heap)@.contains(x),
{
    let ghost all = sources_of(sources@);
    let n = heap.len();
    let mut j: usize = 0;
    loop
        invariant
            n == heap.len(),
            n == old(heap).len(),
            j < n || n == 0,
            all == sources_of(sources@),
            forall|k: int| 0 <= k < heap.len() ==> active(all, pos@, #[trigger] heap[k] as int),
            heap@.no_duplicates(),
            forall|x: usize| heap@.contains(x) == old(heap)@.contains(x),
            ordered_under(heap@, all, pos@, j as int),
            skips(heap@, all, pos@, j as int),
        decreases n - j,
    {
        if n < 2 || j > (n - 2) / 2 {
            proof {
                assert forall|k: int| 0 < k < heap.len() implies !ahead(
                    all,
                    pos@,
                    #[trigger] heap[k] as int,
                    heap[parent(k)] as int,
                ) by {}
            }
            return ;
        }
        let l = 2 * j + 1;
        let r = l + 1;
        let mut s = l;
        if r < n && goes_first(sources, pos, heap[r], heap[l]) {
            s = r;
        }
        proof {
            assert forall|c: int| 0 < c < heap.len() && parent(c) == j implies !ahead(
                all,
                pos@,
                #[trigger] heap[c] as int,
                heap[s as int] as int,
            ) by {
                assert(c == l || c == r);
                lemma_ahead_order(all, pos@, heap[l as int] as int, heap[r as int] as int, 0);
                lemma_ahead_order(all, pos@, heap[c] as int, heap[c] as int, 0);
            }
        }
        if !goes_first(sources, pos, heap[s], heap[j]) {
            proof {
                assert forall|k: int| 0 < k < heap.len() implies !ahead(
                    all,
                    pos@,
                    #[trigger] heap[k] as int,
                    heap[parent(k)] as int,
                ) by {
                    if parent(k) == j {
                        lemma_ahead_order(
                            all,
                            pos@,
                            heap[j as int] as int,
                            heap[s as int] as int,
                            heap[k] as int,
                        );
                    }
                }
            }
            return ;
        }
        let a = heap[j];
        let b = heap[s];
        let ghost before = heap@;
        proof {
            lemma_down_step(before, all, pos@, j as int, s as int);
            lemma_swap(before, j as int, s as int);
        }
        heap[j] = b;
        heap[s] = a;
        assert(heap@ =~= swapped(before, j as int, s as int));
        j = s;
    }
}

/// Puts source `x` into the heap.
pub fn heap_push(
    heap: &mut Vec<usize>,
    sources: &Vec<Vec<(Vec<u8>, u64)>>,
    pos: &Vec<usize>,
    x: usize,
)
    requires
        heap_ok(old(heap)@, sources_of(sources@), pos@),
        active(sources_of(sources@), pos@, x as int),
        !old(heap)@.contains(x),
    ensures
        heap_ok(final(heap)@, sources_of(sources@), pos@),
        final(heap).len() == old(heap).len() + 1,
        forall|y: usize| final(heap)@.contains(y) == (old(heap)@.contains(y) || y == x),
{
    let ghost before = heap@;
    heap.push(x);
    proof {
        let now = heap@;
        assert forall|y: usize| now.contains(y) == (before.contains(y) || y == x) by {
            if before.contains(y) {
                let k = choose|k: int| 0 <= k < before.len() && before[k] == y;
                assert(now[k] == y);
            }
            if now.contains(y) && y != x {
                let k = choose|k: int| 0 <= k < now.len() && now[k] == y;
                assert(before[k] == y);
            }
            assert(now[before.len() as int] == x);
        }
        assert forall|a: int, b: int| 0 <= a < now.len() && 0 <= b < now.len() && a != b implies now[a]
            != now[b] by {
            if a < before.len() && b < before.len() {
                assert(before[a] != before[b]);
            } else if a < before.len() {
                assert(before.contains(before[a]));
            } else {
                assert(before.contains(before[b]));
            }
        }
        assert forall|k: int| 0 < k < now.len() && k != now.len() - 1 implies !ahead(
            sources_of(sources@),
            pos@,
            #[trigger] now[k] as int,
            now[parent(k)] as int,
        ) by {
            assert(now[k] == before[k]);
            assert(now[parent(k)] == before[parent(k)]);
        }
    }
    sift_up(heap, sources, pos);
}

/// Takes the first source from the heap: the one that goes before all
/// others.
pub fn heap_pop(heap: &mut Vec<usize>, sources: &Vec<Vec<(Vec<u8>, u64)>>, pos: &Vec<usize>) -> (top:
    usize)
    requires
        heap_ok(old(heap)@, sources_of(sources@), pos@),
        old(heap).len() > 0,
    ensures
        top == old(heap)[0],
        heap_ok(final(heap)@, sources_of(sources@), pos@),
        final(heap).len() == old(heap).len() - 1,
        forall|y: usize| final(heap)@.contains(y) == (old(heap)@.contains(y) && y != top),
{
    let ghost before = heap@;
    let top = heap[0];
    let last = heap.pop().unwrap();
    if heap.len() > 0 {
        heap[0] = last;
    }
    proof {
        let now = heap@;
        let n = now.len() as int;
        assert forall|y: usize| now.contains(y) == (before.contains(y) && y != top) by {
            if now.contains(y) {
                let k = choose|k: int| 0 <= k < now.len() && now[k] == y;
                if k == 0 {
                    assert(before[n] == y);
                } else {
                    assert(before[k] == y);
                }
            }
            if before.contains(y) && y != top {
                let k = choose|k: int| 0 <= k < before.len() && before[k] == y;
                if k == n {
                    assert(now[0] == y);
                } else {
                    assert(now[k] == y);
                }
            }
        }
        assert forall|a: int, b: int| 0 <= a < now.len() && 0 <= b < now.len() && a != b implies now[a]
            != now[b] by {
            let sa = if a == 0 {
                n
            } else {
                a
            };
            let sb = if b == 0 {
                n
            } else {
                b
            };
            assert(now[a] == before[sa] && now[b] == before[sb]);
        }
        assert forall|k: int| 0 <= k < now.len() implies active(
            sources_of(sources@),
            pos@,
            #[trigger] now[k] as int,
        ) by {
            if k == 0 {
                assert(now[k] == before[n]);
            } else {
                assert(now[k] == before[k]);
            }
        }
        assert forall|k: int| 0 < k < now.len() && parent(k) != 0 implies !ahead(
            sources_of(sources@),
            pos@,
            #[trigger] now[k] as int,
            now[parent(k)] as int,
        ) by {
            assert(now[k] == before[k]);
            assert(now[parent(k)] == before[parent(k)]);
        }
    }
    sift_down(heap, sources, pos);
    top
}

} // verus!
