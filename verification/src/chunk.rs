//! First-fit heap allocator over an address-ordered free list of chunks.
//!
//! Every chunk of the heap starts with a header; a free chunk's header links
//! to the next free chunk by address, a used chunk's header records its size
//! and the slack that was left in it. The list head is a header of its own
//! that lives outside the heap.

use vstd::prelude::*;
use std::collections::HashMap;

verus! {

/// Size in bytes of a chunk header on the Cortex-M3 target (an
/// `Option<usize>` of eight bytes and two four-byte sizes).
pub const CHUNK_HEADER_SIZE: usize = 16;

/// A chunk's header: the next free chunk (for a free chunk or the list
/// head), the chunk's size including the header, and the unused tail of a
/// used chunk that was too small to split.
#[derive(Clone, Copy)]
pub struct ChunkHeader {
    next: Option<usize>,
    chunk_size: usize,
    dummy_size: usize,
}

// ---------------------------------------------------------------------------
// The mathematical model: free chunks as (address, size) in list order, used
// chunks as a map from address to (size, slack).
// ---------------------------------------------------------------------------

/// The two byte ranges `[a1, a1 + s1)` and `[a2, a2 + s2)` do not overlap.
pub open spec fn disjoint(a1: int, s1: int, a2: int, s2: int) -> bool {
    a1 + s1 <= a2 || a2 + s2 <= a1
}

/// A free chunk of `size` bytes can serve a request of `request` bytes.
pub open spec fn fits(size: int, request: int) -> bool {
    size >= request + CHUNK_HEADER_SIZE
}

/// Serving `request` from a chunk of `size` leaves room for another free chunk.
pub open spec fn splits(size: int, request: int) -> bool {
    size >= request + 2 * CHUNK_HEADER_SIZE
}

/// The heap `[lo, hi)` is well shaped: free chunks lie in it in increasing
/// address order with a gap between neighbours, used chunks lie in it, each
/// used chunk holds its header and slack, and no two chunks overlap.
#[verifier::opaque]
pub open spec fn heap_shape(
    free: Seq<(usize, usize)>,
    used: Map<usize, (usize, usize)>,
    lo: int,
    hi: int,
) -> bool {
    &&& hi <= usize::MAX
    &&& used.dom().finite()
    &&& forall|i: int| 0 <= i < free.len() ==> lo <= #[trigger] free[i].0 && free[i].0 + free[i].1 <= hi
    &&& forall|i: int, j: int|
        0 <= i < j < free.len() ==> #[trigger] free[i].0 + free[i].1 < #[trigger] free[j].0
    &&& forall|a: usize|
        #[trigger] used.contains_key(a) ==> lo <= a && a + used[a].0 <= hi && used[a].0
            >= CHUNK_HEADER_SIZE + used[a].1
    &&& forall|a: usize, i: int|
        #![trigger used.contains_key(a), free[i]]
        used.contains_key(a) && 0 <= i < free.len() ==> a != free[i].0 && disjoint(
            a as int,
            used[a].0 as int,
            free[i].0 as int,
            free[i].1 as int,
        )
    &&& forall|a: usize, b: usize|
        #![trigger used.contains_key(a), used.contains_key(b)]
        used.contains_key(a) && used.contains_key(b) && a != b ==> disjoint(
            a as int,
            used[a].0 as int,
            b as int,
            used[b].0 as int,
        )
}

/// Byte `x` lies in free chunk `i`.
pub open spec fn in_free_chunk(free: Seq<(usize, usize)>, i: int, x: int) -> bool {
    0 <= i < free.len() && free[i].0 <= x < free[i].0 + free[i].1
}

/// Byte `x` lies in the used chunk at `a`.
pub open spec fn in_used_chunk(used: Map<usize, (usize, usize)>, a: usize, x: int) -> bool {
    used.contains_key(a) && a <= x < a + used[a].0
}

/// Byte `x` lies in a free chunk.
pub open spec fn free_byte(free: Seq<(usize, usize)>, x: int) -> bool {
    exists|i: int| #[trigger] in_free_chunk(free, i, x)
}

/// Byte `x` lies in a free chunk or in a used one.
pub open spec fn covered(free: Seq<(usize, usize)>, used: Map<usize, (usize, usize)>, x: int) -> bool {
    (exists|i: int| #[trigger] in_free_chunk(free, i, x)) || (exists|a: usize|
        #[trigger] in_used_chunk(used, a, x))
}

/// Every byte of `[lo, hi)` lies in a free chunk or in a used one: no part
/// of the heap is lost.
pub open spec fn heap_covered(
    free: Seq<(usize, usize)>,
    used: Map<usize, (usize, usize)>,
    lo: int,
    hi: int,
) -> bool {
    forall|x: int| lo <= x < hi ==> #[trigger] covered(free, used, x)
}

/// Some free chunk can serve `request`.
pub open spec fn has_fit(free: Seq<(usize, usize)>, request: usize) -> bool {
    exists|i: int| 0 <= i < free.len() && fits(free[i].1 as int, request as int)
}

/// Chunk `i` is the first one in list order that can serve `request`.
pub open spec fn is_first_fit(free: Seq<(usize, usize)>, request: usize, i: int) -> bool {
    &&& 0 <= i < free.len()
    &&& fits(free[i].1 as int, request as int)
    &&& forall|j: int| 0 <= j < i ==> !fits(#[trigger] free[j].1 as int, request as int)
}

/// The index of the first free chunk that can serve `request`.
pub open spec fn first_fit(free: Seq<(usize, usize)>, request: usize) -> int {
    choose|i: int| is_first_fit(free, request, i)
}

/// Where a request is served: just past the header of the first chunk that
/// fits, if there is one.
pub open spec fn alloc_address(free: Seq<(usize, usize)>, request: usize) -> Option<usize> {
    if has_fit(free, request) {
        Some((free[first_fit(free, request)].0 + CHUNK_HEADER_SIZE) as usize)
    } else {
        None
    }
}

/// The free chunks after serving `request`: the first chunk that fits gives
/// up its front part, or all of itself when the rest could not hold a header.
pub open spec fn free_after_alloc(free: Seq<(usize, usize)>, request: usize) -> Seq<(usize, usize)> {
    if has_fit(free, request) {
        let i = first_fit(free, request);
        let (a, s) = free[i];
        if splits(s as int, request as int) {
            free.update(
                i,
                (
                    (a + request + CHUNK_HEADER_SIZE) as usize,
                    (s - request - CHUNK_HEADER_SIZE) as usize,
                ),
            )
        } else {
            free.remove(i)
        }
    } else {
        free
    }
}

/// The used chunks after serving `request`.
pub open spec fn used_after_alloc(
    free: Seq<(usize, usize)>,
    used: Map<usize, (usize, usize)>,
    request: usize,
) -> Map<usize, (usize, usize)> {
    if has_fit(free, request) {
        let i = first_fit(free, request);
        let (a, s) = free[i];
        if splits(s as int, request as int) {
            used.insert(a, ((request + CHUNK_HEADER_SIZE) as usize, 0))
        } else {
            used.insert(a, (s, (s - request - CHUNK_HEADER_SIZE) as usize))
        }
    } else {
        used
    }
}

/// `j` is where a chunk at address `a` goes in the address-ordered list.
pub open spec fn is_insertion_index(free: Seq<(usize, usize)>, a: usize, j: int) -> bool {
    &&& 0 <= j <= free.len()
    &&& forall|k: int| 0 <= k < j ==> #[trigger] free[k].0 < a
    &&& forall|k: int| j <= k < free.len() ==> #[trigger] free[k].0 > a
}

/// The position of address `a` in the address-ordered free list.
pub open spec fn insertion_index(free: Seq<(usize, usize)>, a: usize) -> int {
    choose|j: int| is_insertion_index(free, a, j)
}

/// The free chunks after the chunk `[a, a + s)` is given back: it joins the
/// free neighbour that ends where it starts and the one that starts where it
/// ends, and otherwise takes its place in address order.
pub open spec fn free_after_release(free: Seq<(usize, usize)>, a: usize, s: usize) -> Seq<
    (usize, usize),
> {
    let j = insertion_index(free, a);
    let joins_prev = j > 0 && free[j - 1].0 + free[j - 1].1 == a;
    let joins_next = j < free.len() && a + s == free[j].0;
    if joins_prev && joins_next {
        free.update(j - 1, (free[j - 1].0, (free[j - 1].1 + s + free[j].1) as usize)).remove(j)
    } else if joins_prev {
        free.update(j - 1, (free[j - 1].0, (free[j - 1].1 + s) as usize))
    } else if joins_next {
        free.update(j, (a, (s + free[j].1) as usize))
    } else {
        free.insert(j, (a, s))
    }
}

/// The address of the first free chunk, if any: where the list head links.
pub open spec fn first_free_address(free: Seq<(usize, usize)>) -> Option<usize> {
    if free.len() == 0 {
        None
    } else {
        Some(free[0].0)
    }
}

/// The headers at every address outside `written` are as they were: present
/// at the same addresses, with the same contents.
pub open spec fn headers_kept_except(
    before: Map<usize, ChunkHeader>,
    after: Map<usize, ChunkHeader>,
    written: Set<usize>,
) -> bool {
    forall|x: usize|
        !written.contains(x) ==> (#[trigger] after.contains_key(x) == before.contains_key(x)
            && (before.contains_key(x) ==> after[x] == before[x]))
}

/// The heap addresses whose headers serving `request` writes: the chunk
/// served, the free chunk before it (the list head itself otherwise), and,
/// when the chunk is split, the new free chunk after the served part.
pub open spec fn alloc_writes(free: Seq<(usize, usize)>, request: usize) -> Set<usize> {
    if has_fit(free, request) {
        let i = first_fit(free, request);
        let a = free[i].0;
        let served = Set::empty().insert(a);
        let with_prev = if i > 0 {
            served.insert(free[i - 1].0)
        } else {
            served
        };
        if splits(free[i].1 as int, request as int) {
            with_prev.insert((a + request + CHUNK_HEADER_SIZE) as usize)
        } else {
            with_prev
        }
    } else {
        Set::empty()
    }
}

/// The heap addresses whose headers giving back the chunk at `a` may write:
/// that chunk and the free chunk before it (the list head itself otherwise).
pub open spec fn release_writes(free: Seq<(usize, usize)>, a: usize) -> Set<usize> {
    let j = insertion_index(free, a);
    if j > 0 {
        Set::empty().insert(a).insert(free[j - 1].0)
    } else {
        Set::empty().insert(a)
    }
}

/// The total size of a list of chunks.
pub open spec fn total_size(chunks: Seq<(usize, usize)>) -> int
    decreases chunks.len(),
{
    if chunks.len() == 0 {
        0
    } else {
        total_size(chunks.drop_last()) + chunks.last().1
    }
}

// ---------------------------------------------------------------------------
// Lemmas on the model.
// ---------------------------------------------------------------------------

/// The free chunks of a well shaped heap come in increasing address order
/// with a gap after each.
proof fn lemma_free_sorted(
    free: Seq<(usize, usize)>,
    used: Map<usize, (usize, usize)>,
    lo: int,
    hi: int,
)
    requires
        heap_shape(free, used, lo, hi),
    ensures
        forall|i: int, j: int|
            0 <= i < j < free.len() ==> #[trigger] free[i].0 + free[i].1 < #[trigger] free[j].0,
{
    reveal(heap_shape);
}

/// Each free chunk of a well shaped heap ends inside the address space.
proof fn lemma_chunk_in_heap(
    free: Seq<(usize, usize)>,
    used: Map<usize, (usize, usize)>,
    lo: int,
    hi: int,
    i: int,
)
    requires
        heap_shape(free, used, lo, hi),
        0 <= i < free.len(),
    ensures
        lo <= free[i].0,
        free[i].0 + free[i].1 <= hi <= usize::MAX,
{
    reveal(heap_shape);
}

/// Each used chunk of a well shaped heap lies inside it and holds its
/// header and slack.
proof fn lemma_used_in_heap(
    free: Seq<(usize, usize)>,
    used: Map<usize, (usize, usize)>,
    lo: int,
    hi: int,
    a: usize,
)
    requires
        heap_shape(free, used, lo, hi),
        used.contains_key(a),
    ensures
        lo <= a,
        a + used[a].0 <= hi <= usize::MAX,
        used[a].0 >= CHUNK_HEADER_SIZE + used[a].1,
{
    reveal(heap_shape);
}

/// If a chunk below position `n` fits, the first fit is well defined.
proof fn lemma_first_fit_exists(free: Seq<(usize, usize)>, request: usize, n: int)
    requires
        0 <= n <= free.len(),
        exists|i: int| 0 <= i < n && fits(free[i].1 as int, request as int),
    ensures
        is_first_fit(free, request, first_fit(free, request)),
    decreases n,
{
    if exists|i: int| 0 <= i < n - 1 && fits(free[i].1 as int, request as int) {
        lemma_first_fit_exists(free, request, n - 1);
    } else {
        assert(is_first_fit(free, request, n - 1));
    }
}

/// The first fit is well defined whenever some chunk fits.
proof fn lemma_first_fit(free: Seq<(usize, usize)>, request: usize)
    requires
        has_fit(free, request),
    ensures
        is_first_fit(free, request, first_fit(free, request)),
        forall|j: int| is_first_fit(free, request, j) ==> j == first_fit(free, request),
{
    lemma_first_fit_exists(free, request, free.len() as int);
    let i = first_fit(free, request);
    assert forall|j: int| is_first_fit(free, request, j) implies j == i by {
        if j < i {
            assert(!fits(free[j].1 as int, request as int));
        } else if i < j {
            assert(!fits(free[i].1 as int, request as int));
        }
    }
}

/// Law: serving a request keeps the heap well shaped.
pub proof fn lemma_alloc_keeps_shape(
    free: Seq<(usize, usize)>,
    used: Map<usize, (usize, usize)>,
    lo: int,
    hi: int,
    request: usize,
)
    requires
        heap_shape(free, used, lo, hi),
    ensures
        heap_shape(free_after_alloc(free, request), used_after_alloc(free, used, request), lo, hi),
{
    reveal(heap_shape);
    if has_fit(free, request) {
        lemma_first_fit(free, request);
        let i = first_fit(free, request);
        let (a, s) = free[i];
        let f2 = free_after_alloc(free, request);
        let u2 = used_after_alloc(free, used, request);
        assert(u2.dom() =~= used.dom().insert(a));
        assert forall|b: usize| used.contains_key(b) implies b != a by {
            assert(used.contains_key(b) && 0 <= i < free.len());
        }
        if splits(s as int, request as int) {
            assert forall|x: int, y: int| 0 <= x < y < f2.len() implies #[trigger] f2[x].0 + f2[x].1
                < #[trigger] f2[y].0 by {
                assert(free[x].0 + free[x].1 < free[y].0);
            }
            assert forall|b: usize, k: int|
                #![trigger u2.contains_key(b), f2[k]]
                u2.contains_key(b) && 0 <= k < f2.len() implies b != f2[k].0 && disjoint(
                b as int,
                u2[b].0 as int,
                f2[k].0 as int,
                f2[k].1 as int,
            ) by {
                if b == a {
                    if k < i {
                        assert(free[k].0 + free[k].1 < free[i].0);
                    } else if k > i {
                        assert(free[i].0 + free[i].1 < free[k].0);
                    }
                } else {
                    assert(used.contains_key(b) && 0 <= i < free.len());
                    assert(used.contains_key(b) && 0 <= k < free.len());
                }
            }
            assert forall|b: usize, c: usize|
                #![trigger u2.contains_key(b), u2.contains_key(c)]
                u2.contains_key(b) && u2.contains_key(c) && b != c implies disjoint(
                b as int,
                u2[b].0 as int,
                c as int,
                u2[c].0 as int,
            ) by {
                if b == a {
                    assert(used.contains_key(c) && 0 <= i < free.len());
                } else if c == a {
                    assert(used.contains_key(b) && 0 <= i < free.len());
                } else {
                    assert(used.contains_key(b) && used.contains_key(c));
                }
            }
        } else {
            assert forall|x: int, y: int| 0 <= x < y < f2.len() implies #[trigger] f2[x].0 + f2[x].1
                < #[trigger] f2[y].0 by {
                let ox = if x < i { x } else { x + 1 };
                let oy = if y < i { y } else { y + 1 };
                assert(free[ox].0 + free[ox].1 < free[oy].0);
            }
            assert forall|x: int| 0 <= x < f2.len() implies lo <= #[trigger] f2[x].0 && f2[x].0
                + f2[x].1 <= hi by {
                let ox = if x < i { x } else { x + 1 };
                assert(f2[x] == free[ox]);
            }
            assert forall|b: usize, k: int|
                #![trigger u2.contains_key(b), f2[k]]
                u2.contains_key(b) && 0 <= k < f2.len() implies b != f2[k].0 && disjoint(
                b as int,
                u2[b].0 as int,
                f2[k].0 as int,
                f2[k].1 as int,
            ) by {
                let ok = if k < i { k } else { k + 1 };
                assert(f2[k] == free[ok]);
                if b == a {
                    if ok < i {
                        assert(free[ok].0 + free[ok].1 < free[i].0);
                    } else {
                        assert(free[i].0 + free[i].1 < free[ok].0);
                    }
                } else {
                    assert(used.contains_key(b) && 0 <= ok < free.len());
                }
            }
            assert forall|b: usize, c: usize|
                #![trigger u2.contains_key(b), u2.contains_key(c)]
                u2.contains_key(b) && u2.contains_key(c) && b != c implies disjoint(
                b as int,
                u2[b].0 as int,
                c as int,
                u2[c].0 as int,
            ) by {
                if b == a {
                    assert(used.contains_key(c) && 0 <= i < free.len());
                } else if c == a {
                    assert(used.contains_key(b) && 0 <= i < free.len());
                } else {
                    assert(used.contains_key(b) && used.contains_key(c));
                }
            }
        }
    }
}

/// Below position `n`, the address-ordered list has an insertion index for
/// an address that no chunk starts at.
proof fn lemma_insertion_index_exists(free: Seq<(usize, usize)>, a: usize, n: int)
    requires
        0 <= n <= free.len(),
        forall|i: int, j: int| 0 <= i < j < free.len() ==> #[trigger] free[i].0 < #[trigger] free[j].0,
        forall|i: int| 0 <= i < free.len() ==> #[trigger] free[i].0 != a,
        forall|k: int| n <= k < free.len() ==> #[trigger] free[k].0 > a,
    ensures
        is_insertion_index(free, a, insertion_index(free, a)),
    decreases n,
{
    if n > 0 && free[n - 1].0 > a {
        lemma_insertion_index_exists(free, a, n - 1);
    } else {
        assert(is_insertion_index(free, a, n));
    }
}

/// In a well shaped heap, the position of a used chunk's address among the
/// free chunks is well defined and unique.
proof fn lemma_insertion_index(
    free: Seq<(usize, usize)>,
    used: Map<usize, (usize, usize)>,
    lo: int,
    hi: int,
    a: usize,
)
    requires
        heap_shape(free, used, lo, hi),
        used.contains_key(a),
    ensures
        is_insertion_index(free, a, insertion_index(free, a)),
        forall|j: int| is_insertion_index(free, a, j) ==> j == insertion_index(free, a),
{
    reveal(heap_shape);
    assert forall|i: int, j: int| 0 <= i < j < free.len() implies #[trigger] free[i].0
        < #[trigger] free[j].0 by {
        assert(free[i].0 + free[i].1 < free[j].0);
    }
    assert forall|i: int| 0 <= i < free.len() implies #[trigger] free[i].0 != a by {
        assert(used.contains_key(a) && 0 <= i < free.len());
    }
    lemma_insertion_index_exists(free, a, free.len() as int);
    lemma_insertion_index_unique(free, a);
}

/// An address has at most one insertion index.
proof fn lemma_insertion_index_unique(free: Seq<(usize, usize)>, a: usize)
    ensures
        forall|j1: int, j2: int|
            is_insertion_index(free, a, j1) && is_insertion_index(free, a, j2) ==> j1 == j2,
{
    assert forall|j1: int, j2: int|
        is_insertion_index(free, a, j1) && is_insertion_index(free, a, j2) implies j1 == j2 by {
        if j1 < j2 {
            assert(free[j1].0 < a);
        } else if j2 < j1 {
            assert(free[j2].0 < a);
        }
    }
}

/// Law: the block handed out for a request lies inside the heap right after
/// its chunk's header, and its chunk overlaps no chunk that was handed out
/// before nor any chunk that stays free.
pub proof fn lemma_alloc_block_private(
    free: Seq<(usize, usize)>,
    used: Map<usize, (usize, usize)>,
    lo: int,
    hi: int,
    request: usize,
)
    requires
        heap_shape(free, used, lo, hi),
        has_fit(free, request),
    ensures
        ({
            let p = alloc_address(free, request).unwrap();
            let a = (p - CHUNK_HEADER_SIZE) as usize;
            let u2 = used_after_alloc(free, used, request);
            let f2 = free_after_alloc(free, request);
            &&& lo + CHUNK_HEADER_SIZE <= p
            &&& p + request <= a + u2[a].0 <= hi
            &&& u2.contains_key(a)
            &&& !used.contains_key(a)
            &&& forall|b: usize| #[trigger]
                used.contains_key(b) ==> disjoint(a as int, u2[a].0 as int, b as int, used[b].0 as int)
            &&& forall|k: int|
                0 <= k < f2.len() ==> disjoint(
                    a as int,
                    u2[a].0 as int,
                    #[trigger] f2[k].0 as int,
                    f2[k].1 as int,
                )
        }),
{
    lemma_first_fit(free, request);
    lemma_alloc_keeps_shape(free, used, lo, hi, request);
    reveal(heap_shape);
    let i = first_fit(free, request);
    let a = free[i].0;
    let u2 = used_after_alloc(free, used, request);
    let f2 = free_after_alloc(free, request);
    assert(!used.contains_key(a)) by {
        if used.contains_key(a) {
            assert(used.contains_key(a) && 0 <= i < free.len());
        }
    }
    assert forall|b: usize| #[trigger] used.contains_key(b) implies disjoint(
        a as int,
        u2[a].0 as int,
        b as int,
        used[b].0 as int,
    ) by {
        assert(u2.contains_key(a) && u2.contains_key(b) && a != b);
    }
    assert forall|k: int| 0 <= k < f2.len() implies disjoint(
        a as int,
        u2[a].0 as int,
        #[trigger] f2[k].0 as int,
        f2[k].1 as int,
    ) by {
        assert(u2.contains_key(a) && 0 <= k < f2.len());
    }
}

/// Law: once every block has been given back, the free list is one chunk
/// spanning the whole heap again; freeing leaves no fragments behind.
pub proof fn lemma_all_released_is_one_chunk(
    free: Seq<(usize, usize)>,
    used: Map<usize, (usize, usize)>,
    lo: int,
    hi: int,
)
    requires
        heap_shape(free, used, lo, hi),
        heap_covered(free, used, lo, hi),
        used.dom() == Set::<usize>::empty(),
        lo < hi,
    ensures
        free == seq![(lo as usize, (hi - lo) as usize)],
{
    reveal(heap_shape);
    assert forall|a: usize, x: int| !in_used_chunk(used, a, x) by {
        assert(!used.dom().contains(a));
    }
    // Byte `lo` lies in some free chunk, so there is one.
    assert(covered(free, used, lo));
    let k0 = choose|k: int| #[trigger] in_free_chunk(free, k, lo);
    assert(free.len() >= 1);
    // A byte right after a free chunk that is not the last lies in a gap,
    // yet every byte is covered: so there is only one chunk.
    if free.len() > 1 {
        let x = free[0].0 + free[0].1;
        assert(x < free[1].0);
        assert(covered(free, used, x));
        let k = choose|k: int| #[trigger] in_free_chunk(free, k, x);
        if k > 0 {
            assert(free[0].0 + free[0].1 < free[k].0);
        }
        assert(false);
    }
    assert(k0 == 0);
    assert(free[0].0 == lo);
    if free[0].0 + free[0].1 < hi {
        let x = free[0].0 + free[0].1;
        assert(covered(free, used, x));
        let k = choose|k: int| #[trigger] in_free_chunk(free, k, x);
        assert(false);
    }
    assert(free =~= seq![(lo as usize, (hi - lo) as usize)]);
}

/// Law: serving a request loses no byte of the heap: every byte is still in
/// a free chunk or a used one.
pub proof fn lemma_alloc_keeps_cover(
    free: Seq<(usize, usize)>,
    used: Map<usize, (usize, usize)>,
    lo: int,
    hi: int,
    request: usize,
)
    requires
        heap_shape(free, used, lo, hi),
        heap_covered(free, used, lo, hi),
    ensures
        heap_covered(free_after_alloc(free, request), used_after_alloc(free, used, request), lo, hi),
{
    reveal(heap_shape);
    if has_fit(free, request) {
        lemma_first_fit(free, request);
        let i = first_fit(free, request);
        let (a, s) = free[i];
        let f2 = free_after_alloc(free, request);
        let u2 = used_after_alloc(free, used, request);
        assert forall|x: int| lo <= x < hi implies covered(f2, u2, x) by {
            assert(covered(free, used, x));
            if exists|k: int| #[trigger] in_free_chunk(free, k, x) {
                let k = choose|k: int| #[trigger] in_free_chunk(free, k, x);
                if k == i {
                    if splits(s as int, request as int) && x >= a + request + CHUNK_HEADER_SIZE {
                        assert(in_free_chunk(f2, i, x));
                    } else {
                        assert(in_used_chunk(u2, a, x));
                    }
                } else if splits(s as int, request as int) || k < i {
                    assert(in_free_chunk(f2, k, x));
                } else {
                    assert(in_free_chunk(f2, k - 1, x));
                }
            } else {
                let b = choose|b: usize| #[trigger] in_used_chunk(used, b, x);
                assert(b != a) by {
                    reveal(heap_shape);
                    assert(used.contains_key(b) && 0 <= i < free.len());
                }
                assert(in_used_chunk(u2, b, x));
            }
        }
    }
}

/// Law: giving a chunk back loses no byte of the heap.
pub proof fn lemma_release_keeps_cover(
    free: Seq<(usize, usize)>,
    used: Map<usize, (usize, usize)>,
    lo: int,
    hi: int,
    a: usize,
)
    requires
        heap_shape(free, used, lo, hi),
        heap_covered(free, used, lo, hi),
        used.contains_key(a),
    ensures
        heap_covered(free_after_release(free, a, used[a].0), used.remove(a), lo, hi),
{
    reveal(heap_shape);
    lemma_insertion_index(free, used, lo, hi, a);
    let s = used[a].0;
    let j = insertion_index(free, a);
    let n = free.len();
    let jp = j > 0 && free[j - 1].0 + free[j - 1].1 == a;
    let jn = j < n && a + s == free[j].0;
    let f2 = free_after_release(free, a, s);
    let u2 = used.remove(a);
    assert forall|x: int| lo <= x < hi implies covered(f2, u2, x) by {
        assert(covered(free, used, x));
        if exists|k: int| #[trigger] in_free_chunk(free, k, x) {
            let k = choose|k: int| #[trigger] in_free_chunk(free, k, x);
            if jp && jn {
                if k < j - 1 {
                    assert(in_free_chunk(f2, k, x));
                } else if k == j - 1 || k == j {
                    assert(in_free_chunk(f2, j - 1, x));
                } else {
                    assert(in_free_chunk(f2, k - 1, x));
                }
            } else if jp {
                assert(in_free_chunk(f2, k, x));
            } else if jn {
                assert(in_free_chunk(f2, k, x));
            } else if k < j {
                assert(in_free_chunk(f2, k, x));
            } else {
                assert(in_free_chunk(f2, k + 1, x));
            }
        } else {
            let b = choose|b: usize| #[trigger] in_used_chunk(used, b, x);
            if b == a {
                if jp {
                    assert(in_free_chunk(f2, j - 1, x));
                } else {
                    assert(in_free_chunk(f2, j, x));
                }
            } else {
                assert(in_used_chunk(u2, b, x));
            }
        }
    }
}

proof fn lemma_total_update(chunks: Seq<(usize, usize)>, i: int, v: (usize, usize))
    requires
        0 <= i < chunks.len(),
    ensures
        total_size(chunks.update(i, v)) == total_size(chunks) - chunks[i].1 + v.1,
    decreases chunks.len(),
{
    let c2 = chunks.update(i, v);
    if i == chunks.len() - 1 {
        assert(c2.drop_last() =~= chunks.drop_last());
    } else {
        lemma_total_update(chunks.drop_last(), i, v);
        assert(c2.drop_last() =~= chunks.drop_last().update(i, v));
    }
}

proof fn lemma_total_remove(chunks: Seq<(usize, usize)>, i: int)
    requires
        0 <= i < chunks.len(),
    ensures
        total_size(chunks.remove(i)) == total_size(chunks) - chunks[i].1,
    decreases chunks.len(),
{
    let c2 = chunks.remove(i);
    if i == chunks.len() - 1 {
        assert(c2 =~= chunks.drop_last());
    } else {
        lemma_total_remove(chunks.drop_last(), i);
        assert(c2.drop_last() =~= chunks.drop_last().remove(i));
    }
}

proof fn lemma_total_insert(chunks: Seq<(usize, usize)>, i: int, v: (usize, usize))
    requires
        0 <= i <= chunks.len(),
    ensures
        total_size(chunks.insert(i, v)) == total_size(chunks) + v.1,
    decreases chunks.len(),
{
    let c2 = chunks.insert(i, v);
    if i == chunks.len() {
        assert(c2.drop_last() =~= chunks);
    } else {
        lemma_total_insert(chunks.drop_last(), i, v);
        assert(c2.drop_last() =~= chunks.drop_last().insert(i, v));
    }
}

/// Law: serving a request takes exactly the served chunk's size out of the
/// free chunks, and the served chunk holds the request, its header and its
/// slack.
pub proof fn lemma_alloc_total(
    free: Seq<(usize, usize)>,
    used: Map<usize, (usize, usize)>,
    lo: int,
    hi: int,
    request: usize,
)
    requires
        heap_shape(free, used, lo, hi),
        has_fit(free, request),
    ensures
        ({
            let a = (alloc_address(free, request).unwrap() - CHUNK_HEADER_SIZE) as usize;
            let u2 = used_after_alloc(free, used, request);
            &&& u2.contains_key(a)
            &&& u2[a].0 - u2[a].1 - CHUNK_HEADER_SIZE == request
            &&& total_size(free_after_alloc(free, request)) == total_size(free) - u2[a].0
        }),
{
    lemma_first_fit(free, request);
    let i = first_fit(free, request);
    lemma_chunk_in_heap(free, used, lo, hi, i);
    let (a, s) = free[i];
    if splits(s as int, request as int) {
        lemma_total_update(
            free,
            i,
            ((a + request + CHUNK_HEADER_SIZE) as usize, (s - request - CHUNK_HEADER_SIZE) as usize),
        );
    } else {
        lemma_total_remove(free, i);
    }
}

/// Law: giving a chunk back adds exactly its size to the free chunks.
pub proof fn lemma_release_total(
    free: Seq<(usize, usize)>,
    used: Map<usize, (usize, usize)>,
    lo: int,
    hi: int,
    a: usize,
)
    requires
        heap_shape(free, used, lo, hi),
        used.contains_key(a),
    ensures
        total_size(free_after_release(free, a, used[a].0)) == total_size(free) + used[a].0,
{
    lemma_insertion_index(free, used, lo, hi, a);
    lemma_used_in_heap(free, used, lo, hi, a);
    let s = used[a].0;
    let j = insertion_index(free, a);
    let jp = j > 0 && free[j - 1].0 + free[j - 1].1 == a;
    let jn = j < free.len() && a + s == free[j].0;
    if j < free.len() {
        lemma_chunk_in_heap(free, used, lo, hi, j);
    }
    if jp && jn {
        let f1 = free.update(j - 1, (free[j - 1].0, (free[j - 1].1 + s + free[j].1) as usize));
        lemma_total_update(free, j - 1, (free[j - 1].0, (free[j - 1].1 + s + free[j].1) as usize));
        lemma_total_remove(f1, j);
    } else if jp {
        lemma_total_update(free, j - 1, (free[j - 1].0, (free[j - 1].1 + s) as usize));
    } else if jn {
        lemma_total_update(free, j, (a, (s + free[j].1) as usize));
    } else {
        lemma_total_insert(free, j, (a, s));
    }
}

/// Law: after a chunk is given back, each of its bytes lies in exactly one
/// free chunk, and every byte that was free before still is.
pub proof fn lemma_release_frees_bytes(
    free: Seq<(usize, usize)>,
    used: Map<usize, (usize, usize)>,
    lo: int,
    hi: int,
    a: usize,
)
    requires
        heap_shape(free, used, lo, hi),
        used.contains_key(a),
    ensures
        ({
            let f2 = free_after_release(free, a, used[a].0);
            &&& forall|x: int| a <= x < a + used[a].0 ==> #[trigger] free_byte(f2, x)
            &&& forall|x: int| #[trigger] free_byte(free, x) ==> free_byte(f2, x)
            &&& forall|x: int, k1: int, k2: int|
                #[trigger] in_free_chunk(f2, k1, x) && #[trigger] in_free_chunk(f2, k2, x) ==> k1
                    == k2
        }),
{
    lemma_release_keeps_shape(free, used, lo, hi, a);
    reveal(heap_shape);
    lemma_insertion_index(free, used, lo, hi, a);
    let s = used[a].0;
    let j = insertion_index(free, a);
    let n = free.len();
    let jp = j > 0 && free[j - 1].0 + free[j - 1].1 == a;
    let jn = j < n && a + s == free[j].0;
    let f2 = free_after_release(free, a, s);
    let u2 = used.remove(a);
    assert forall|x: int| a <= x < a + s implies #[trigger] free_byte(f2, x) by {
        if jp {
            assert(in_free_chunk(f2, j - 1, x));
        } else {
            assert(in_free_chunk(f2, j, x));
        }
    }
    assert forall|x: int| #[trigger] free_byte(free, x) implies free_byte(f2, x) by {
        let k = choose|k: int| #[trigger] in_free_chunk(free, k, x);
        if jp && jn {
            if k < j - 1 {
                assert(in_free_chunk(f2, k, x));
            } else if k == j - 1 || k == j {
                assert(in_free_chunk(f2, j - 1, x));
            } else {
                assert(in_free_chunk(f2, k - 1, x));
            }
        } else if jp || jn {
            assert(in_free_chunk(f2, k, x));
        } else if k < j {
            assert(in_free_chunk(f2, k, x));
        } else {
            assert(in_free_chunk(f2, k + 1, x));
        }
    }
    assert forall|x: int, k1: int, k2: int|
        #[trigger] in_free_chunk(f2, k1, x) && #[trigger] in_free_chunk(f2, k2, x) implies k1
        == k2 by {
        if k1 < k2 {
            assert(f2[k1].0 + f2[k1].1 < f2[k2].0);
        } else if k2 < k1 {
            assert(f2[k2].0 + f2[k2].1 < f2[k1].0);
        }
    }
}

/// The headers that serving a request writes lie in the heap.
proof fn lemma_alloc_writes_in_heap(
    free: Seq<(usize, usize)>,
    used: Map<usize, (usize, usize)>,
    lo: int,
    hi: int,
    request: usize,
)
    requires
        heap_shape(free, used, lo, hi),
    ensures
        forall|x: usize| #[trigger] alloc_writes(free, request).contains(x) ==> lo <= x < hi,
{
    if has_fit(free, request) {
        lemma_first_fit(free, request);
        let i = first_fit(free, request);
        lemma_chunk_in_heap(free, used, lo, hi, i);
        if i > 0 {
            lemma_chunk_in_heap(free, used, lo, hi, i - 1);
            lemma_free_sorted(free, used, lo, hi);
            assert(free[i - 1].0 + free[i - 1].1 < free[i].0);
        }
    }
}

/// The neighbours of a used chunk's position in the free list, and every
/// other free chunk, start at addresses that are not those of used chunks.
proof fn lemma_release_distinct(
    free: Seq<(usize, usize)>,
    used: Map<usize, (usize, usize)>,
    lo: int,
    hi: int,
    a: usize,
    j: int,
)
    requires
        heap_shape(free, used, lo, hi),
        used.contains_key(a),
        is_insertion_index(free, a, j),
    ensures
        forall|k: int| 0 <= k < free.len() ==> #[trigger] free[k].0 != a,
        forall|b: usize|
            #[trigger] used.contains_key(b) && b != a ==> (j > 0 ==> b != free[j - 1].0) && (j
                < free.len() ==> b != free[j].0),
{
    reveal(heap_shape);
    assert forall|k: int| 0 <= k < free.len() implies #[trigger] free[k].0 != a by {
        assert(used.contains_key(a) && 0 <= k < free.len());
    }
    assert forall|b: usize|
        #[trigger] used.contains_key(b) && b != a implies (j > 0 ==> b != free[j - 1].0) && (j
            < free.len() ==> b != free[j].0) by {
        if j > 0 {
            assert(used.contains_key(b) && 0 <= j - 1 < free.len());
        }
        if j < free.len() {
            assert(used.contains_key(b) && 0 <= j < free.len());
        }
    }
}

/// Law: giving a used chunk back keeps the heap well shaped.
pub proof fn lemma_release_keeps_shape(
    free: Seq<(usize, usize)>,
    used: Map<usize, (usize, usize)>,
    lo: int,
    hi: int,
    a: usize,
)
    requires
        heap_shape(free, used, lo, hi),
        used.contains_key(a),
    ensures
        heap_shape(free_after_release(free, a, used[a].0), used.remove(a), lo, hi),
{
    reveal(heap_shape);
    lemma_insertion_index(free, used, lo, hi, a);
    let s = used[a].0;
    let j = insertion_index(free, a);
    let n = free.len();
    let joins_prev = j > 0 && free[j - 1].0 + free[j - 1].1 == a;
    let joins_next = j < n && a + s == free[j].0;
    let f2 = free_after_release(free, a, s);
    let u2 = used.remove(a);
    assert(u2.dom() =~= used.dom().remove(a));
    if j > 0 {
        assert(used.contains_key(a) && 0 <= j - 1 < free.len());
        assert(free[j - 1].0 + free[j - 1].1 <= a);
    }
    if j < n {
        assert(used.contains_key(a) && 0 <= j < free.len());
        assert(a + s <= free[j].0);
    }
    assert forall|x: int| 0 <= x < f2.len() implies lo <= #[trigger] f2[x].0 && f2[x].0 + f2[x].1
        <= hi by {
        if joins_prev && joins_next {
            if x == j - 1 {
                assert(lo <= free[j - 1].0);
                assert(free[j].0 + free[j].1 <= hi);
            } else if x >= j {
                assert(f2[x] == free[x + 1]);
            }
        } else if joins_prev {
            if x == j - 1 {
                assert(lo <= free[j - 1].0);
            }
        } else if joins_next {
            if x == j {
                assert(free[j].0 + free[j].1 <= hi);
            }
        } else {
            if x < j {
                assert(f2[x] == free[x]);
            } else if x > j {
                assert(f2[x] == free[x - 1]);
            }
        }
    }
    assert forall|x: int, y: int| 0 <= x < y < f2.len() implies #[trigger] f2[x].0 + f2[x].1
        < #[trigger] f2[y].0 by {
        if joins_prev && joins_next {
            let ox = if x < j { x } else { x + 1 };
            let oy = if y < j { y } else { y + 1 };
            assert(free[ox].0 + free[ox].1 < free[oy].0);
            if x == j - 1 {
                assert(free[j].0 + free[j].1 < free[oy].0);
            }
            if y == j - 1 {
                assert(free[ox].0 + free[ox].1 < free[j - 1].0);
            }
        } else if joins_prev {
            assert(free[x].0 + free[x].1 < free[y].0);
            if x == j - 1 && y == j {
                assert(a + s <= free[j].0);
            }
        } else if joins_next {
            assert(free[x].0 + free[x].1 < free[y].0);
            if x == j {
                if y > j {
                    assert(free[j].0 + free[j].1 < free[y].0);
                }
            }
            if y == j && x == j - 1 {
                assert(free[j - 1].0 + free[j - 1].1 <= a);
            }
        } else {
            let ox = if x < j { x } else { x - 1 };
            let oy = if y < j { y } else { y - 1 };
            if x != j && y != j {
                assert(free[ox].0 + free[ox].1 < free[oy].0);
            } else if x == j {
                assert(a + s <= free[j].0);
                if oy > j {
                    assert(free[j].0 + free[j].1 < free[oy].0);
                }
            } else {
                assert(free[x].0 + free[x].1 <= free[j - 1].0 + free[j - 1].1);
            }
        }
    }
    assert forall|b: usize, k: int|
        #![trigger u2.contains_key(b), f2[k]]
        u2.contains_key(b) && 0 <= k < f2.len() implies b != f2[k].0 && disjoint(
        b as int,
        u2[b].0 as int,
        f2[k].0 as int,
        f2[k].1 as int,
    ) by {
        assert(used.contains_key(b) && used.contains_key(a));
        if j > 0 {
            assert(used.contains_key(b) && 0 <= j - 1 < free.len());
        }
        if j < n {
            assert(used.contains_key(b) && 0 <= j < free.len());
        }
        if joins_prev && joins_next {
            if k >= j {
                assert(used.contains_key(b) && 0 <= k + 1 < free.len());
            } else if k < j - 1 {
                assert(used.contains_key(b) && 0 <= k < free.len());
            }
        } else if joins_prev {
            if k != j - 1 {
                assert(used.contains_key(b) && 0 <= k < free.len());
            }
        } else if joins_next {
            if k != j {
                assert(used.contains_key(b) && 0 <= k < free.len());
            }
        } else {
            if k < j {
                assert(used.contains_key(b) && 0 <= k < free.len());
            } else if k > j {
                assert(used.contains_key(b) && 0 <= k - 1 < free.len());
            }
        }
    }
    assert forall|b: usize, c: usize|
        #![trigger u2.contains_key(b), u2.contains_key(c)]
        u2.contains_key(b) && u2.contains_key(c) && b != c implies disjoint(
        b as int,
        u2[b].0 as int,
        c as int,
        u2[c].0 as int,
    ) by {
        assert(used.contains_key(b) && used.contains_key(c));
    }
}

/// Law: giving back the chunk that a request was just served from restores
/// the free list and the used chunks exactly as they were.
pub proof fn lemma_release_undoes_alloc(
    free: Seq<(usize, usize)>,
    used: Map<usize, (usize, usize)>,
    lo: int,
    hi: int,
    request: usize,
)
    requires
        heap_shape(free, used, lo, hi),
        has_fit(free, request),
    ensures
        ({
            let a = (alloc_address(free, request).unwrap() - CHUNK_HEADER_SIZE) as usize;
            let u2 = used_after_alloc(free, used, request);
            &&& u2.contains_key(a)
            &&& free_after_release(free_after_alloc(free, request), a, u2[a].0) == free
            &&& u2.remove(a) == used
        }),
{
    lemma_first_fit(free, request);
    lemma_alloc_block_private(free, used, lo, hi, request);
    lemma_alloc_keeps_shape(free, used, lo, hi, request);
    lemma_free_sorted(free, used, lo, hi);
    let i = first_fit(free, request);
    let (a, s) = free[i];
    lemma_chunk_in_heap(free, used, lo, hi, i);
    let f2 = free_after_alloc(free, request);
    let u2 = used_after_alloc(free, used, request);
    assert(u2.remove(a) =~= used);
    lemma_insertion_index(f2, u2, lo, hi, a);
    if i > 0 {
        assert(free[i - 1].0 + free[i - 1].1 < free[i].0);
    }
    assert forall|k: int| 0 <= k < i implies #[trigger] f2[k].0 < a by {
        assert(free[k].0 + free[k].1 < free[i].0);
    }
    if splits(s as int, request as int) {
        assert forall|k: int| i <= k < f2.len() implies #[trigger] f2[k].0 > a by {
            if k > i {
                assert(free[i].0 + free[i].1 < free[k].0);
            }
        }
        assert(is_insertion_index(f2, a, i));
        assert(free_after_release(f2, a, u2[a].0) =~= free);
    } else {
        assert forall|k: int| i <= k < f2.len() implies #[trigger] f2[k].0 > a by {
            assert(free[i].0 + free[i].1 < free[k + 1].0);
        }
        assert(is_insertion_index(f2, a, i));
        if i < f2.len() {
            assert(free[i].0 + free[i].1 < free[i + 1].0);
        }
        assert(free_after_release(f2, a, u2[a].0) =~= free);
    }
}

// ---------------------------------------------------------------------------
// The heap's memory and the free list threaded through it.
// ---------------------------------------------------------------------------

/// The heap region as the chunk headers written into it, by address, with
/// the bookkeeping of which chunks are free (in list order), which are
/// handed out, and where the region lies.
pub struct HeapMemory {
    headers: HashMap<usize, ChunkHeader>,
    free: Ghost<Seq<usize>>,
    used: Ghost<Set<usize>>,
    bounds: Ghost<(int, int)>,
}

/// The successor of position `i` of the free list (`-1` for the list head).
pub open spec fn list_next(free: Seq<usize>, i: int) -> Option<usize> {
    if i + 1 < free.len() {
        Some(free[i + 1])
    } else {
        None
    }
}

impl HeapMemory {
    /// The header written at each address.
    pub closed spec fn headers(&self) -> Map<usize, ChunkHeader> {
        self.headers@
    }

    /// The free chunks as (address, size), in list order.
    #[verifier::opaque]
    pub closed spec fn free_chunks(&self) -> Seq<(usize, usize)> {
        self.free@.map_values(|a: usize| (a, self.headers@[a].chunk_size))
    }

    /// The chunks handed out, by address, as (size, slack).
    #[verifier::opaque]
    pub closed spec fn used_chunks(&self) -> Map<usize, (usize, usize)> {
        Map::new(
            |a: usize| self.used@.contains(a),
            |a: usize| (self.headers@[a].chunk_size, self.headers@[a].dummy_size),
        )
    }

    /// First address of the heap region.
    pub closed spec fn heap_start(&self) -> int {
        self.bounds@.0
    }

    /// One past the last address of the heap region.
    pub closed spec fn heap_end(&self) -> int {
        self.bounds@.1
    }

    /// A memory with no header written in it and no chunk.
    pub fn new() -> (m: Self)
        ensures
            m.free_chunks() == Seq::<(usize, usize)>::empty(),
            m.used_chunks() == Map::<usize, (usize, usize)>::empty(),
            forall|h: ChunkHeader| h.next_free() is None && h.slack() == 0 ==> h.wf(&m),
    {
        broadcast use vstd::std_specs::hash::group_hash_axioms;

        let m = HeapMemory {
            headers: HashMap::new(),
            free: Ghost(Seq::empty()),
            used: Ghost(Set::empty()),
            bounds: Ghost((0, 0)),
        };
        reveal(HeapMemory::free_chunks);
        reveal(HeapMemory::used_chunks);
        assert(m.free_chunks() =~= Seq::<(usize, usize)>::empty());
        assert(m.used_chunks() =~= Map::<usize, (usize, usize)>::empty());
        assert forall|h: ChunkHeader| h.next_free() is None && h.slack() == 0 implies h.wf(&m) by {
            reveal(heap_shape);
            reveal(ChunkHeader::wf);
            assert(m.used_chunks().dom() =~= Set::<usize>::empty());
        }
        m
    }

    /// The header at `addr`.
    fn read(&self, addr: usize) -> (h: ChunkHeader)
        requires
            self.headers@.contains_key(addr),
        ensures
            h == self.headers@[addr],
    {
        broadcast use vstd::std_specs::hash::group_hash_axioms;

        *self.headers.get(&addr).unwrap()
    }

    /// Writes the header `h` at `addr`.
    fn write(&mut self, addr: usize, h: ChunkHeader)
        ensures
            final(self).headers@ == old(self).headers@.insert(addr, h),
            final(self).free == old(self).free,
            final(self).used == old(self).used,
            final(self).bounds == old(self).bounds,
    {
        broadcast use vstd::std_specs::hash::group_hash_axioms;

        self.headers.insert(addr, h);
    }
}

impl ChunkHeader {
    /// The next free chunk that this header links to.
    pub closed spec fn next_free(&self) -> Option<usize> {
        self.next
    }

    /// The chunk's size in bytes, header included.
    pub closed spec fn size(&self) -> usize {
        self.chunk_size
    }

    /// The unused tail of a used chunk.
    pub closed spec fn slack(&self) -> usize {
        self.dummy_size
    }

    /// `self`, the list head, and `mem` hold a well-formed free list: the
    /// head and each free chunk link to the next free chunk, every chunk has
    /// a header, and the chunks are well shaped in the heap.
    #[verifier::opaque]
    pub closed spec fn wf(&self, mem: &HeapMemory) -> bool {
        let f = mem.free@;
        &&& self.next == list_next(f, -1)
        &&& self.dummy_size == 0
        &&& forall|i: int|
            0 <= i < f.len() ==> mem.headers@.contains_key(#[trigger] f[i])
                && mem.headers@[f[i]].next == list_next(f, i)
        &&& forall|a: usize| #[trigger] mem.used@.contains(a) ==> mem.headers@.contains_key(a)
        &&& mem.used@.finite()
        &&& heap_shape(mem.free_chunks(), mem.used_chunks(), mem.heap_start(), mem.heap_end())
        &&& heap_covered(mem.free_chunks(), mem.used_chunks(), mem.heap_start(), mem.heap_end())
    }

    /// What a well-formed list gives: each free chunk's header and link,
    /// and its entry in the model.
    proof fn lemma_wf_unfold(&self, mem: &HeapMemory)
        requires
            self.wf(mem),
        ensures
            self.next == list_next(mem.free@, -1),
            mem.free_chunks().len() == mem.free@.len(),
            forall|i: int|
                0 <= i < mem.free@.len() ==> mem.headers@.contains_key(#[trigger] mem.free@[i])
                    && mem.headers@[mem.free@[i]].next == list_next(mem.free@, i)
                    && mem.free_chunks()[i] == (mem.free@[i], mem.headers@[mem.free@[i]].chunk_size),
            forall|a: usize| #[trigger] mem.used@.contains(a) ==> mem.headers@.contains_key(a),
            mem.used@.finite(),
            heap_shape(mem.free_chunks(), mem.used_chunks(), mem.heap_start(), mem.heap_end()),
            heap_covered(mem.free_chunks(), mem.used_chunks(), mem.heap_start(), mem.heap_end()),
    {
        reveal(ChunkHeader::wf);
        reveal(HeapMemory::free_chunks);
    }

    /// A well-formed list describes a well shaped heap in which every byte
    /// belongs to a free chunk or a used one.
    pub proof fn lemma_wf_heap(&self, mem: &HeapMemory)
        requires
            self.wf(mem),
        ensures
            heap_shape(mem.free_chunks(), mem.used_chunks(), mem.heap_start(), mem.heap_end()),
            heap_covered(mem.free_chunks(), mem.used_chunks(), mem.heap_start(), mem.heap_end()),
    {
        reveal(ChunkHeader::wf);
    }

    /// A well-formed list head links to the first free chunk and has no
    /// slack.
    proof fn lemma_head_link(&self, mem: &HeapMemory)
        requires
            self.wf(mem),
        ensures
            self.next_free() == first_free_address(mem.free_chunks()),
            self.slack() == 0,
    {
        reveal(ChunkHeader::wf);
        reveal(HeapMemory::free_chunks);
    }

    /// A list head with no free chunk.
    pub fn empty() -> (h: Self)
        ensures
            h.next_free() is None,
            h.size() == 0,
            h.slack() == 0,
    {
        ChunkHeader { next: None, chunk_size: 0, dummy_size: 0 }
    }

    /// Makes the region `[heap_start, heap_start + heap_size)` one free
    /// chunk, writing its header at `heap_start`, and returns the list head
    /// that links to it.
    pub fn new(heap_start: usize, heap_size: usize, mem: &mut HeapMemory) -> (head: ChunkHeader)
        requires
            heap_start + heap_size <= usize::MAX,
        ensures
            head.wf(final(mem)),
            head.size() == 0,
            head.slack() == 0,
            head.next_free() == Some(heap_start),
            headers_kept_except(old(mem).headers(), final(mem).headers(), set![heap_start]),
            final(mem).free_chunks() == seq![(heap_start, heap_size)],
            final(mem).used_chunks() == Map::<usize, (usize, usize)>::empty(),
            final(mem).heap_start() == heap_start,
            final(mem).heap_end() == heap_start + heap_size,
    {
        let new_chunk_head = ChunkHeader { next: None, chunk_size: heap_size, dummy_size: 0 };
        mem.write(heap_start, new_chunk_head);
        proof {
            mem.free@ = seq![heap_start];
            mem.used@ = Set::empty();
            mem.bounds@ = (heap_start as int, heap_start + heap_size);
        }
        let head = ChunkHeader { next: Some(heap_start), chunk_size: 0, dummy_size: 0 };
        reveal(HeapMemory::free_chunks);
        reveal(HeapMemory::used_chunks);
        assert(mem.free_chunks() =~= seq![(heap_start, heap_size)]);
        assert(mem.used_chunks() =~= Map::<usize, (usize, usize)>::empty());
        assert(mem.used_chunks().dom() =~= Set::<usize>::empty());
        assert(heap_shape(mem.free_chunks(), mem.used_chunks(), mem.heap_start(), mem.heap_end())) by {
            reveal(heap_shape);
        }
        assert forall|x: int| mem.heap_start() <= x < mem.heap_end() implies #[trigger] covered(
            mem.free_chunks(),
            mem.used_chunks(),
            x,
        ) by {
            assert(in_free_chunk(mem.free_chunks(), 0, x));
        }
        assert(head.wf(mem)) by {
            reveal(ChunkHeader::wf);
        }
        head
    }

    /// Serves `request_size` bytes from the first free chunk large enough
    /// for them and a header, and returns the address just past that
    /// chunk's header; `None` when no free chunk is large enough.
    pub fn add(&mut self, mem: &mut HeapMemory, request_size: usize) -> (r: Option<usize>)
        requires
            old(self).wf(old(mem)),
        ensures
            final(self).wf(final(mem)),
            final(self).size() == old(self).size(),
            final(self).slack() == 0,
            final(self).next_free() == first_free_address(final(mem).free_chunks()),
            r == alloc_address(old(mem).free_chunks(), request_size),
            r matches Some(p) ==> ({
                let a = (p - CHUNK_HEADER_SIZE) as usize;
                &&& final(mem).used_chunks().contains_key(a)
                &&& final(mem).used_chunks()[a].0 - final(mem).used_chunks()[a].1
                    - CHUNK_HEADER_SIZE == request_size
            }),
            headers_kept_except(
                old(mem).headers(),
                final(mem).headers(),
                alloc_writes(old(mem).free_chunks(), request_size),
            ),
            forall|x: usize| #[trigger]
                alloc_writes(old(mem).free_chunks(), request_size).contains(x) ==> old(
                    mem,
                ).heap_start() <= x < old(mem).heap_end(),
            final(mem).free_chunks() == free_after_alloc(old(mem).free_chunks(), request_size),
            final(mem).used_chunks() == used_after_alloc(
                old(mem).free_chunks(),
                old(mem).used_chunks(),
                request_size,
            ),
            final(mem).heap_start() == old(mem).heap_start(),
            final(mem).heap_end() == old(mem).heap_end(),
    {
        let ghost f = mem.free@;
        let ghost c = mem.free_chunks();
        let ghost u = mem.used_chunks();
        proof {
            self.lemma_wf_unfold(mem);
        }
        if self.next.is_none() {
            assert(!has_fit(c, request_size));
            proof {
                self.lemma_head_link(mem);
            }
            return None;
        }
        let mut prev: Option<usize> = None;
        let mut head: usize = self.next.unwrap();
        let mut h = mem.read(head);
        let ghost mut i: int = 0;
        loop
            invariant
                *self == *old(self),
                *mem == *old(mem),
                old(self).wf(old(mem)),
                f == old(mem).free@,
                c == old(mem).free_chunks(),
                u == old(mem).used_chunks(),
                c.len() == f.len(),
                forall|k: int|
                    0 <= k < f.len() ==> mem.headers@.contains_key(#[trigger] f[k])
                        && mem.headers@[f[k]].next == list_next(f, k)
                        && c[k] == (f[k], mem.headers@[f[k]].chunk_size),
                0 <= i < f.len(),
                head == f[i],
                h == mem.headers@[head],
                prev == (if i == 0 { None } else { Some(f[i - 1]) }),
                forall|j: int| 0 <= j < i ==> !fits(#[trigger] c[j].1 as int, request_size as int),
            ensures
                0 <= i < f.len(),
                head == f[i],
                h == mem.headers@[head],
                prev == (if i == 0 { None } else { Some(f[i - 1]) }),
                is_first_fit(c, request_size, i),
            decreases f.len() - i,
        {
            assert(c[i] == (head, h.chunk_size));
            if h.chunk_size >= request_size && h.chunk_size - request_size >= CHUNK_HEADER_SIZE {
                break;
            }
            if h.next.is_none() {
                assert(!has_fit(c, request_size)) by {
                    assert forall|j: int| 0 <= j < c.len() implies !fits(#[trigger] c[j].1 as int, request_size as int) by {
                        if j < i {
                        } else {
                            assert(j == i);
                        }
                    }
                }
                proof {
                    self.lemma_head_link(mem);
                }
                return None;
            }
            prev = Some(head);
            head = h.next.unwrap();
            proof {
                i = i + 1;
            }
            h = mem.read(head);
        }
        proof {
            lemma_first_fit(c, request_size);
            self.lemma_wf_unfold(mem);
            lemma_chunk_in_heap(c, u, mem.heap_start(), mem.heap_end(), i);
            lemma_alloc_writes_in_heap(c, u, mem.heap_start(), mem.heap_end(), request_size);
            assert(c[i] == (head, h.chunk_size));
        }
        let ghost old_self = *self;
        let ghost old_mem = *mem;
        if h.chunk_size - request_size >= 2 * CHUNK_HEADER_SIZE {
            // The chunk is split: its front serves the request and a new
            // free chunk starts right after it.
            let new_addr = head + request_size + CHUNK_HEADER_SIZE;
            let new_chunk_head = ChunkHeader {
                next: h.next,
                chunk_size: h.chunk_size - request_size - CHUNK_HEADER_SIZE,
                dummy_size: 0,
            };
            match prev {
                None => {
                    let prev_size = self.chunk_size;
                    *self = ChunkHeader { next: Some(new_addr), chunk_size: prev_size, dummy_size: 0 };
                },
                Some(p) => {
                    let ph = mem.read(p);
                    mem.write(p, ChunkHeader { next: Some(new_addr), chunk_size: ph.chunk_size, dummy_size: 0 });
                },
            }
            mem.write(new_addr, new_chunk_head);
            let use_chunk_head = ChunkHeader {
                next: None,
                chunk_size: request_size + CHUNK_HEADER_SIZE,
                dummy_size: 0,
            };
            mem.write(head, use_chunk_head);
            proof {
                mem.free@ = f.update(i, new_addr);
                mem.used@ = old_mem.used@.insert(head);
                Self::lemma_split_frame(old_self, old_mem, *self, *mem, request_size, i);
            }
        } else {
            // The rest of the chunk could not hold a header: the whole chunk
            // is used and the rest is recorded as its slack.
            match prev {
                None => {
                    let prev_size = self.chunk_size;
                    *self = ChunkHeader { next: h.next, chunk_size: prev_size, dummy_size: 0 };
                },
                Some(p) => {
                    let ph = mem.read(p);
                    mem.write(p, ChunkHeader { next: h.next, chunk_size: ph.chunk_size, dummy_size: 0 });
                },
            }
            let use_chunk_head = ChunkHeader {
                next: None,
                chunk_size: h.chunk_size,
                dummy_size: h.chunk_size - request_size - CHUNK_HEADER_SIZE,
            };
            mem.write(head, use_chunk_head);
            proof {
                mem.free@ = f.remove(i);
                mem.used@ = old_mem.used@.insert(head);
                Self::lemma_take_frame(old_self, old_mem, *self, *mem, request_size, i);
            }
        }
        proof {
            self.lemma_head_link(mem);
        }
        Some(head + CHUNK_HEADER_SIZE)
    }

    /// The free list after the first chunk that fits is split.
    proof fn lemma_split_frame(
        s0: ChunkHeader,
        m0: HeapMemory,
        s1: ChunkHeader,
        m1: HeapMemory,
        request: usize,
        i: int,
    )
        requires
            s0.wf(&m0),
            is_first_fit(m0.free_chunks(), request, i),
            splits(m0.free_chunks()[i].1 as int, request as int),
            ({
                let f = m0.free@;
                let a = f[i];
                let h = m0.headers@[a];
                let na = (a + request + CHUNK_HEADER_SIZE) as usize;
                let rest = ChunkHeader {
                    next: h.next,
                    chunk_size: (h.chunk_size - request - CHUNK_HEADER_SIZE) as usize,
                    dummy_size: 0,
                };
                let taken = ChunkHeader {
                    next: None,
                    chunk_size: (request + CHUNK_HEADER_SIZE) as usize,
                    dummy_size: 0,
                };
                &&& i == 0 ==> s1 == ChunkHeader {
                    next: Some(na),
                    chunk_size: s0.chunk_size,
                    dummy_size: 0,
                } && m1.headers@ == m0.headers@.insert(na, rest).insert(a, taken)
                &&& i > 0 ==> s1 == s0 && m1.headers@ == m0.headers@.insert(
                    f[i - 1],
                    ChunkHeader {
                        next: Some(na),
                        chunk_size: m0.headers@[f[i - 1]].chunk_size,
                        dummy_size: 0,
                    },
                ).insert(na, rest).insert(a, taken)
                &&& m1.free@ == f.update(i, na)
                &&& m1.used@ == m0.used@.insert(a)
                &&& m1.bounds == m0.bounds
            }),
        ensures
            s1.wf(&m1),
            s1.chunk_size == s0.chunk_size,
            m1.free_chunks() == free_after_alloc(m0.free_chunks(), request),
            m1.used_chunks() == used_after_alloc(m0.free_chunks(), m0.used_chunks(), request),
    {
        reveal(ChunkHeader::wf);
        reveal(HeapMemory::free_chunks);
        reveal(HeapMemory::used_chunks);
        let f = m0.free@;
        let c = m0.free_chunks();
        let u = m0.used_chunks();
        let a = f[i];
        let na = (a + request + CHUNK_HEADER_SIZE) as usize;
        lemma_first_fit(c, request);
        lemma_alloc_keeps_shape(c, u, m0.heap_start(), m0.heap_end(), request);
        lemma_alloc_keeps_cover(c, u, m0.heap_start(), m0.heap_end(), request);
        assert(c[i] == (a, m0.headers@[a].chunk_size));
        reveal(heap_shape);
        // Addresses of the other free chunks and of the used chunks are
        // neither the split chunk, its new remainder, nor (for used chunks)
        // the predecessor.
        assert forall|k: int| 0 <= k < f.len() && k != i implies #[trigger] f[k] != a && f[k]
            != na by {
            if k < i {
                assert(c[k].0 + c[k].1 < c[i].0);
            } else {
                assert(c[i].0 + c[i].1 < c[k].0);
            }
        }
        assert forall|b: usize| #[trigger] m0.used@.contains(b) implies b != a && b != na && (i > 0
            ==> b != f[i - 1]) by {
            if i > 0 {
                assert(c[i - 1].0 == f[i - 1]);
            }
            assert(u.contains_key(b) && 0 <= i < c.len());
            if i > 0 {
                assert(u.contains_key(b) && 0 <= i - 1 < c.len());
            }
        }
        let f1 = m1.free@;
        assert forall|k: int| 0 <= k < f1.len() implies m1.headers@.contains_key(#[trigger] f1[k])
            && m1.headers@[f1[k]].next == list_next(f1, k) by {
            if k != i {
                assert(f1[k] == f[k]);
                assert(m0.headers@.contains_key(f[k]));
            }
        }
        assert(m1.free_chunks() =~= free_after_alloc(c, request));
        assert(m1.used_chunks() =~= used_after_alloc(c, u, request));
        assert(m1.used@.finite());
    }

    /// The free list after the first chunk that fits is taken whole.
    proof fn lemma_take_frame(
        s0: ChunkHeader,
        m0: HeapMemory,
        s1: ChunkHeader,
        m1: HeapMemory,
        request: usize,
        i: int,
    )
        requires
            s0.wf(&m0),
            is_first_fit(m0.free_chunks(), request, i),
            !splits(m0.free_chunks()[i].1 as int, request as int),
            ({
                let f = m0.free@;
                let a = f[i];
                let h = m0.headers@[a];
                let taken = ChunkHeader {
                    next: None,
                    chunk_size: h.chunk_size,
                    dummy_size: (h.chunk_size - request - CHUNK_HEADER_SIZE) as usize,
                };
                &&& i == 0 ==> s1 == ChunkHeader {
                    next: h.next,
                    chunk_size: s0.chunk_size,
                    dummy_size: 0,
                } && m1.headers@ == m0.headers@.insert(a, taken)
                &&& i > 0 ==> s1 == s0 && m1.headers@ == m0.headers@.insert(
                    f[i - 1],
                    ChunkHeader {
                        next: h.next,
                        chunk_size: m0.headers@[f[i - 1]].chunk_size,
                        dummy_size: 0,
                    },
                ).insert(a, taken)
                &&& m1.free@ == f.remove(i)
                &&& m1.used@ == m0.used@.insert(a)
                &&& m1.bounds == m0.bounds
            }),
        ensures
            s1.wf(&m1),
            s1.chunk_size == s0.chunk_size,
            m1.free_chunks() == free_after_alloc(m0.free_chunks(), request),
            m1.used_chunks() == used_after_alloc(m0.free_chunks(), m0.used_chunks(), request),
    {
        reveal(ChunkHeader::wf);
        reveal(HeapMemory::free_chunks);
        reveal(HeapMemory::used_chunks);
        let f = m0.free@;
        let c = m0.free_chunks();
        let u = m0.used_chunks();
        let a = f[i];
        lemma_first_fit(c, request);
        lemma_alloc_keeps_shape(c, u, m0.heap_start(), m0.heap_end(), request);
        lemma_alloc_keeps_cover(c, u, m0.heap_start(), m0.heap_end(), request);
        assert(c[i] == (a, m0.headers@[a].chunk_size));
        reveal(heap_shape);
        assert forall|k: int| 0 <= k < f.len() && k != i implies #[trigger] f[k] != a by {
            if k < i {
                assert(c[k].0 + c[k].1 < c[i].0);
            } else {
                assert(c[i].0 + c[i].1 < c[k].0);
            }
        }
        assert forall|b: usize| #[trigger] m0.used@.contains(b) implies b != a && (i > 0 ==> b
            != f[i - 1]) by {
            if i > 0 {
                assert(c[i - 1].0 == f[i - 1]);
            }
            assert(u.contains_key(b) && 0 <= i < c.len());
            if i > 0 {
                assert(u.contains_key(b) && 0 <= i - 1 < c.len());
            }
        }
        let f1 = m1.free@;
        assert forall|k: int| 0 <= k < f1.len() implies m1.headers@.contains_key(#[trigger] f1[k])
            && m1.headers@[f1[k]].next == list_next(f1, k) by {
            let ok = if k < i { k } else { k + 1 };
            assert(f1[k] == f[ok]);
            assert(m0.headers@.contains_key(f[ok]));
        }
        assert(m1.free_chunks() =~= free_after_alloc(c, request));
        assert(m1.used_chunks() =~= used_after_alloc(c, u, request));
    }

    /// The free chunks as (address, size), in list order, read by walking
    /// the list from this head.
    pub fn free_list(&self, mem: &HeapMemory) -> (r: Vec<(usize, usize)>)
        requires
            self.wf(mem),
        ensures
            r@ == mem.free_chunks(),
    {
        let ghost f = mem.free@;
        let ghost c = mem.free_chunks();
        proof {
            self.lemma_wf_unfold(mem);
        }
        let mut r: Vec<(usize, usize)> = Vec::new();
        let mut cur = self.next;
        while cur.is_some()
            invariant
                forall|k: int|
                    0 <= k < f.len() ==> mem.headers@.contains_key(#[trigger] f[k])
                        && mem.headers@[f[k]].next == list_next(f, k)
                        && c[k] == (f[k], mem.headers@[f[k]].chunk_size),
                c.len() == f.len(),
                r.len() <= f.len(),
                cur == list_next(f, r.len() - 1),
                r@ == c.subrange(0, r.len() as int),
            decreases f.len() - r.len(),
        {
            let a = cur.unwrap();
            let h = mem.read(a);
            r.push((a, h.chunk_size));
            cur = h.next;
        }
        assert(r@ == c);
        r
    }

    /// Gives back the chunk whose block starts at `ptr` and was served for
    /// `request_size` bytes: the chunk takes its place in the address-ordered
    /// free list and is joined with a free chunk that ends where it starts
    /// and with one that starts where it ends.
    #[verifier::rlimit(40)]
    pub fn del(&mut self, mem: &mut HeapMemory, ptr: usize, request_size: usize)
        requires
            old(self).wf(old(mem)),
            ptr >= CHUNK_HEADER_SIZE,
            old(mem).used_chunks().contains_key((ptr - CHUNK_HEADER_SIZE) as usize),
            old(mem).used_chunks()[(ptr - CHUNK_HEADER_SIZE) as usize].0 - old(
                mem,
            ).used_chunks()[(ptr - CHUNK_HEADER_SIZE) as usize].1 - CHUNK_HEADER_SIZE
                == request_size,
        ensures
            final(self).wf(final(mem)),
            final(self).size() == old(self).size(),
            final(self).slack() == 0,
            final(self).next_free() == first_free_address(final(mem).free_chunks()),
            headers_kept_except(
                old(mem).headers(),
                final(mem).headers(),
                release_writes(old(mem).free_chunks(), (ptr - CHUNK_HEADER_SIZE) as usize),
            ),
            forall|x: usize| #[trigger]
                release_writes(old(mem).free_chunks(), (ptr - CHUNK_HEADER_SIZE) as usize).contains(
                    x,
                ) ==> old(mem).heap_start() <= x < old(mem).heap_end(),
            final(mem).free_chunks() == free_after_release(
                old(mem).free_chunks(),
                (ptr - CHUNK_HEADER_SIZE) as usize,
                old(mem).used_chunks()[(ptr - CHUNK_HEADER_SIZE) as usize].0,
            ),
            final(mem).used_chunks() == old(mem).used_chunks().remove(
                (ptr - CHUNK_HEADER_SIZE) as usize,
            ),
            final(mem).heap_start() == old(mem).heap_start(),
            final(mem).heap_end() == old(mem).heap_end(),
    {
        let ghost f = mem.free@;
        let ghost c = mem.free_chunks();
        let ghost u = mem.used_chunks();
        let head = ptr - CHUNK_HEADER_SIZE;
        proof {
            self.lemma_wf_unfold(mem);
            reveal(HeapMemory::used_chunks);
            lemma_used_in_heap(c, u, mem.heap_start(), mem.heap_end(), head);
            lemma_insertion_index(c, u, mem.heap_start(), mem.heap_end(), head);
        }
        let hh = mem.read(head);
        let real_size = hh.chunk_size - CHUNK_HEADER_SIZE;

        // Walk to the last free chunk below the released one.
        let mut prev: Option<usize> = None;
        let mut ph: ChunkHeader = *self;
        let ghost mut j: int = 0;
        while ph.next.is_some() && ph.next.unwrap() < head
            invariant
                forall|k: int|
                    0 <= k < f.len() ==> mem.headers@.contains_key(#[trigger] f[k])
                        && mem.headers@[f[k]].next == list_next(f, k),
                0 <= j <= f.len(),
                forall|k: int| 0 <= k < j ==> #[trigger] f[k] < head,
                prev == (if j == 0 { None } else { Some(f[j - 1]) }),
                ph.next == list_next(f, j - 1),
                j == 0 ==> ph == *self,
                j > 0 ==> ph == mem.headers@[f[j - 1]],
            decreases f.len() - j,
        {
            let n = ph.next.unwrap();
            prev = Some(n);
            ph = mem.read(n);
            proof {
                j = j + 1;
            }
        }
        proof {
            assert(is_insertion_index(c, head, j)) by {
                reveal(heap_shape);
                assert forall|k: int| 0 <= k < j implies #[trigger] c[k].0 < head by {
                    assert(f[k] < head);
                }
                assert forall|k: int| j <= k < c.len() implies #[trigger] c[k].0 > head by {
                    assert(u.contains_key(head) && 0 <= k < c.len());
                    if k > j {
                        assert(c[j].0 + c[j].1 < c[k].0);
                    }
                }
            }
            if j > 0 {
                lemma_chunk_in_heap(c, u, mem.heap_start(), mem.heap_end(), j - 1);
            }
            if j < f.len() {
                lemma_chunk_in_heap(c, u, mem.heap_start(), mem.heap_end(), j);
            }
        }
        let next_free: Option<usize> = ph.next;
        // The list head lives outside the heap, so no heap chunk starts
        // where it ends.
        let joins_prev = match prev {
            Some(p) => p + ph.chunk_size == head,
            None => false,
        };
        let joins_next = match next_free {
            Some(n) => ptr + real_size == n,
            None => false,
        };
        let ghost old_self = *self;
        let ghost old_mem = *mem;
        if joins_prev && joins_next {
            // The released chunk closes the gap between two free chunks.
            let p = prev.unwrap();
            let n = next_free.unwrap();
            let nh = mem.read(n);
            let new_prev_free_head = ChunkHeader {
                next: nh.next,
                chunk_size: ph.chunk_size + hh.chunk_size + nh.chunk_size,
                dummy_size: 0,
            };
            mem.write(p, new_prev_free_head);
            proof {
                mem.free@ = f.remove(j);
            }
        } else if joins_prev {
            // The free chunk before it grows over it.
            let p = prev.unwrap();
            let new_prev_free_head = ChunkHeader {
                next: ph.next,
                chunk_size: ph.chunk_size + hh.chunk_size,
                dummy_size: 0,
            };
            mem.write(p, new_prev_free_head);
        } else if joins_next {
            // It grows over the free chunk after it.
            let n = next_free.unwrap();
            let nh = mem.read(n);
            let new_prev_free_head = ChunkHeader {
                next: Some(head),
                chunk_size: ph.chunk_size,
                dummy_size: 0,
            };
            match prev {
                None => {
                    *self = new_prev_free_head;
                },
                Some(p) => {
                    mem.write(p, new_prev_free_head);
                },
            }
            let new_head = ChunkHeader {
                next: nh.next,
                chunk_size: hh.chunk_size + nh.chunk_size,
                dummy_size: 0,
            };
            mem.write(head, new_head);
            proof {
                mem.free@ = f.update(j, head);
            }
        } else {
            // It becomes a free chunk of its own.
            let new_prev_free_head = ChunkHeader {
                next: Some(head),
                chunk_size: ph.chunk_size,
                dummy_size: 0,
            };
            match prev {
                None => {
                    *self = new_prev_free_head;
                },
                Some(p) => {
                    mem.write(p, new_prev_free_head);
                },
            }
            let new_head = ChunkHeader { next: ph.next, chunk_size: hh.chunk_size, dummy_size: 0 };
            mem.write(head, new_head);
            proof {
                mem.free@ = f.insert(j, head);
            }
        }
        proof {
            mem.used@ = old_mem.used@.remove(head);
            Self::lemma_release_frame(old_self, old_mem, *self, *mem, head, j);
            self.lemma_head_link(mem);
        }
    }

    /// The headers and bookkeeping that giving back the chunk at `a`, whose
    /// place in the free list is `j`, leaves: the predecessor (or the list
    /// head) and the chunk's own header are rewritten as the four joining
    /// cases ask.
    spec fn release_written(
        s0: ChunkHeader,
        m0: HeapMemory,
        s1: ChunkHeader,
        m1: HeapMemory,
        a: usize,
        j: int,
    ) -> bool {
        let f = m0.free@;
        let c = m0.free_chunks();
        let hd = m0.headers@;
        let s = hd[a].chunk_size;
        let jp = j > 0 && c[j - 1].0 + c[j - 1].1 == a;
        let jn = j < c.len() && a + s == c[j].0;
        let prev_next = if j == 0 { s0.next } else { hd[f[j - 1]].next };
        let prev_size = if j == 0 { s0.chunk_size } else { hd[f[j - 1]].chunk_size };
        let linked = ChunkHeader { next: Some(a), chunk_size: prev_size, dummy_size: 0 };
        &&& jp && jn ==> s1 == s0 && m1.headers@ == hd.insert(
            f[j - 1],
            ChunkHeader {
                next: hd[f[j]].next,
                chunk_size: (prev_size + s + c[j].1) as usize,
                dummy_size: 0,
            },
        ) && m1.free@ == f.remove(j)
        &&& jp && !jn ==> s1 == s0 && m1.headers@ == hd.insert(
            f[j - 1],
            ChunkHeader { next: prev_next, chunk_size: (prev_size + s) as usize, dummy_size: 0 },
        ) && m1.free@ == f
        &&& !jp && jn ==> m1.free@ == f.update(j, a) && (j == 0 ==> s1 == linked
            && m1.headers@ == hd.insert(
            a,
            ChunkHeader { next: hd[f[j]].next, chunk_size: (s + c[j].1) as usize, dummy_size: 0 },
        )) && (j > 0 ==> s1 == s0 && m1.headers@ == hd.insert(f[j - 1], linked).insert(
            a,
            ChunkHeader { next: hd[f[j]].next, chunk_size: (s + c[j].1) as usize, dummy_size: 0 },
        ))
        &&& !jp && !jn ==> m1.free@ == f.insert(j, a) && (j == 0 ==> s1 == linked
            && m1.headers@ == hd.insert(
            a,
            ChunkHeader { next: prev_next, chunk_size: s, dummy_size: 0 },
        )) && (j > 0 ==> s1 == s0 && m1.headers@ == hd.insert(f[j - 1], linked).insert(
            a,
            ChunkHeader { next: prev_next, chunk_size: s, dummy_size: 0 },
        ))
        &&& m1.used@ == m0.used@.remove(a)
        &&& m1.bounds == m0.bounds
    }

    /// The free list after a used chunk is given back.
    proof fn lemma_release_frame(
        s0: ChunkHeader,
        m0: HeapMemory,
        s1: ChunkHeader,
        m1: HeapMemory,
        a: usize,
        j: int,
    )
        requires
            s0.wf(&m0),
            m0.used_chunks().contains_key(a),
            is_insertion_index(m0.free_chunks(), a, j),
            Self::release_written(s0, m0, s1, m1, a, j),
        ensures
            s1.wf(&m1),
            s1.chunk_size == s0.chunk_size,
            m1.free_chunks() == free_after_release(m0.free_chunks(), a, m0.used_chunks()[a].0),
            m1.used_chunks() == m0.used_chunks().remove(a),
    {
        let c = m0.free_chunks();
        let u = m0.used_chunks();
        s0.lemma_wf_unfold(&m0);
        lemma_insertion_index(c, u, m0.heap_start(), m0.heap_end(), a);
        lemma_release_keeps_shape(c, u, m0.heap_start(), m0.heap_end(), a);
        lemma_release_keeps_cover(c, u, m0.heap_start(), m0.heap_end(), a);
        lemma_release_distinct(c, u, m0.heap_start(), m0.heap_end(), a, j);
        Self::lemma_release_links(s0, m0, s1, m1, a, j);
        reveal(HeapMemory::free_chunks);
        reveal(HeapMemory::used_chunks);
        assert(u[a].0 == m0.headers@[a].chunk_size);
        assert(m1.used_chunks() =~= u.remove(a)) by {
            assert forall|b: usize| #[trigger] m0.used@.contains(b) && b != a implies m1.headers@[b]
                == m0.headers@[b] by {
                assert(u.contains_key(b));
            }
        }
        assert(m1.free_chunks() =~= free_after_release(c, a, u[a].0)) by {
            assert forall|k: int| 0 <= k < m0.free@.len() implies #[trigger] m0.free@[k] != a by {
                assert(c[k].0 == m0.free@[k]);
            }
        }
        reveal(ChunkHeader::wf);
    }

    /// After a release every free chunk's header links to its successor.
    #[verifier::rlimit(40)]
    proof fn lemma_release_links(
        s0: ChunkHeader,
        m0: HeapMemory,
        s1: ChunkHeader,
        m1: HeapMemory,
        a: usize,
        j: int,
    )
        requires
            s0.wf(&m0),
            m0.used_chunks().contains_key(a),
            is_insertion_index(m0.free_chunks(), a, j),
            Self::release_written(s0, m0, s1, m1, a, j),
        ensures
            s1.next == list_next(m1.free@, -1),
            s1.chunk_size == s0.chunk_size,
            forall|k: int|
                0 <= k < m1.free@.len() ==> m1.headers@.contains_key(#[trigger] m1.free@[k])
                    && m1.headers@[m1.free@[k]].next == list_next(m1.free@, k),
            forall|b: usize| #[trigger] m1.used@.contains(b) ==> m1.headers@.contains_key(b),
            m1.used@.finite(),
    {
        let c = m0.free_chunks();
        let u = m0.used_chunks();
        let f = m0.free@;
        s0.lemma_wf_unfold(&m0);
        lemma_insertion_index(c, u, m0.heap_start(), m0.heap_end(), a);
        lemma_release_distinct(c, u, m0.heap_start(), m0.heap_end(), a, j);
        assert forall|k: int| 0 <= k < f.len() implies #[trigger] f[k] != a && f[k] == c[k].0 by {
            assert(m0.free@[k] == f[k]);
            assert(c[k] == (f[k], m0.headers@[f[k]].chunk_size));
            assert(c[k].0 != a);
        }
        let f1 = m1.free@;
        assert forall|k: int| 0 <= k < f1.len() implies m1.headers@.contains_key(#[trigger] f1[k])
            && m1.headers@[f1[k]].next == list_next(f1, k) by {
            if j > 0 {
                assert(f[j - 1] == c[j - 1].0);
            }
            if k < f.len() {
                assert(f[k] != a);
            }
        }
    }

}

} // verus!
