//! Chunk bookkeeping inside one memory block: the chunk list, the placement
//! rule for linear and non-linear resources, splitting on allocation and
//! coalescing on free.

use crate::align::{
    align_down_spec, align_up, align_up_spec, is_on_same_page, is_pow2, lemma_align_down, lemma_align_up,
    lemma_align_up_past_max, lemma_mod_trans, lemma_pow2_divides, lemma_pow2_positive,
    same_page_spec,
};
use vstd::prelude::*;

verus! {

/// Placement class of a chunk. `Free` chunks are unoccupied; `Linear` and
/// `NonLinear` mirror the device's two tiling classes, which may not share a
/// page of the device's granularity.
#[derive(Clone, Copy, Debug, PartialEq, Eq, Structural)]
pub enum ResourceType {
    Free,
    Linear,
    NonLinear,
}

/// Identity of a chunk within its block, stable for the chunk's lifetime.
pub type ChunkId = u64;

/// Whether two placement classes may not share a page: both occupied, and
/// of different classes.
pub open spec fn conflict_spec(type_a: ResourceType, type_b: ResourceType) -> bool {
    type_a != ResourceType::Free && type_b != ResourceType::Free && type_a != type_b
}

/// Whether resources of these two classes may not share a page.
pub fn granularity_conflict(type_a: ResourceType, type_b: ResourceType) -> (r: bool)
    ensures
        r == conflict_spec(type_a, type_b),
{
    if type_a == ResourceType::Free || type_b == ResourceType::Free {
        return false;
    }
    type_a != type_b
}

/// A contiguous byte range of a block. An occupied chunk starts with
/// `padding` bytes left over by alignment, then holds the resource.
#[derive(Clone, Copy, Debug, PartialEq, Eq, Structural)]
pub struct MemoryChunk {
    pub id: ChunkId,
    pub size: u64,
    pub offset: u64,
    pub padding: u64,
    pub resource_type: ResourceType,
}

/// One past the last byte of a chunk.
pub open spec fn chunk_end(c: MemoryChunk) -> int {
    c.offset + c.size
}

/// Where the resource held by a chunk starts.
pub open spec fn data_offset(c: MemoryChunk) -> int {
    c.offset + c.padding
}

/// The chunks, in order, cover `[0, size)` without gap or overlap.
#[verifier::opaque]
pub open spec fn partitions(chunks: Seq<MemoryChunk>, size: int) -> bool {
    &&& chunks.len() > 0
    &&& chunks[0].offset == 0
    &&& chunk_end(chunks.last()) == size
    &&& forall|i: int| 0 <= i < chunks.len() ==> (#[trigger] chunks[i]).size > 0 && chunk_end(chunks[i]) <= size
    &&& forall|i: int, j: int|
        #![trigger chunks[i], chunks[j]]
        0 <= i && j == i + 1 && j < chunks.len() ==> chunk_end(chunks[i]) == chunks[j].offset
}

/// Bytes a chunk contributes to the block's occupied count.
pub open spec fn occupied_size(c: MemoryChunk) -> int {
    if c.resource_type == ResourceType::Free {
        0
    } else {
        c.size as int
    }
}

/// Sum of the sizes of the occupied chunks.
pub open spec fn occupied_sum(chunks: Seq<MemoryChunk>) -> int
    decreases chunks.len(),
{
    if chunks.len() == 0 {
        0
    } else {
        occupied_sum(chunks.drop_last()) + occupied_size(chunks.last())
    }
}

/// No two free chunks are neighbours.
#[verifier::opaque]
pub open spec fn coalesced(chunks: Seq<MemoryChunk>) -> bool {
    forall|i: int, j: int|
        #![trigger chunks[i], chunks[j]]
        0 <= i && j == i + 1 && j < chunks.len() ==> !(chunks[i].resource_type == ResourceType::Free
            && chunks[j].resource_type == ResourceType::Free)
}

/// Free chunks carry no padding; an occupied chunk's padding leaves room
/// for at least one byte of its resource.
#[verifier::opaque]
pub open spec fn paddings_ok(chunks: Seq<MemoryChunk>) -> bool {
    forall|i: int|
        0 <= i < chunks.len() ==> ((#[trigger] chunks[i]).resource_type == ResourceType::Free
            ==> chunks[i].padding == 0) && chunks[i].padding < chunks[i].size
}

/// Neighbouring chunks of conflicting classes never share a page: the page
/// of the left one's last byte comes before the page where the right one's
/// resource starts.
#[verifier::opaque]
pub open spec fn pages_apart(chunks: Seq<MemoryChunk>, granularity: int) -> bool {
    forall|i: int, j: int|
        #![trigger chunks[i], chunks[j]]
        0 <= i && j == i + 1 && j < chunks.len() && conflict_spec(
            chunks[i].resource_type,
            chunks[j].resource_type,
        ) ==> !same_page_spec(
            chunks[i].offset as int,
            chunks[i].size as int,
            data_offset(chunks[j]),
            granularity,
        )
}

/// Chunk ids are distinct and below `bound`.
#[verifier::opaque]
pub open spec fn ids_below(chunks: Seq<MemoryChunk>, bound: int) -> bool {
    &&& forall|i: int| 0 <= i < chunks.len() ==> (#[trigger] chunks[i]).id < bound
    &&& forall|i: int, j: int|
        0 <= i < chunks.len() && 0 <= j < chunks.len() && i != j ==> (#[trigger] chunks[i]).id
            != (#[trigger] chunks[j]).id
}

/// Where a request would place its resource in free chunk `i`: the chunk's
/// offset rounded up to the alignment, then, if the left neighbour holds a
/// conflicting class on the same page, up to the next page.
pub open spec fn placed_offset(
    chunks: Seq<MemoryChunk>,
    i: int,
    alignment: int,
    granularity: int,
    resource_type: ResourceType,
) -> int {
    let aligned = align_up_spec(chunks[i].offset as int, alignment);
    if i > 0 && conflict_spec(chunks[i - 1].resource_type, resource_type) && same_page_spec(
        chunks[i - 1].offset as int,
        chunks[i - 1].size as int,
        aligned,
        granularity,
    ) {
        align_up_spec(aligned, granularity)
    } else {
        aligned
    }
}

/// Whether chunk `i` can take the request: it is free, holds the padded
/// resource, its right neighbour does not conflict on the same page, and a
/// split, if one is needed, has a fresh id to use.
pub open spec fn fits(
    chunks: Seq<MemoryChunk>,
    i: int,
    size: int,
    alignment: int,
    granularity: int,
    resource_type: ResourceType,
    can_split: bool,
) -> bool {
    let c = chunks[i];
    let offset = placed_offset(chunks, i, alignment, granularity, resource_type);
    &&& c.resource_type == ResourceType::Free
    &&& offset + size <= chunk_end(c)
    &&& !(i + 1 < chunks.len() && conflict_spec(resource_type, chunks[i + 1].resource_type)
        && same_page_spec(offset, size, data_offset(chunks[i + 1]), granularity))
    &&& (offset + size == chunk_end(c) || can_split)
}

/// The first chunk from `j` on, in offset order, that can take the request.
pub open spec fn first_fit(
    chunks: Seq<MemoryChunk>,
    j: int,
    size: int,
    alignment: int,
    granularity: int,
    resource_type: ResourceType,
    can_split: bool,
) -> Option<int>
    decreases chunks.len() - j,
{
    if j < 0 || j >= chunks.len() {
        None
    } else if fits(chunks, j, size, alignment, granularity, resource_type, can_split) {
        Some(j)
    } else {
        first_fit(chunks, j + 1, size, alignment, granularity, resource_type, can_split)
    }
}

/// The chunk list after placing a resource at `offset` in free chunk `i`:
/// on an exact fit the chunk itself becomes occupied; otherwise a new chunk
/// with id `new_id` takes the front and the free chunk keeps the rest.
pub open spec fn split_layout(
    chunks: Seq<MemoryChunk>,
    i: int,
    offset: int,
    size: int,
    resource_type: ResourceType,
    new_id: ChunkId,
) -> Seq<MemoryChunk> {
    let c = chunks[i];
    let used = offset + size - c.offset;
    if used == c.size {
        chunks.update(
            i,
            MemoryChunk {
                id: c.id,
                size: c.size,
                offset: c.offset,
                padding: (offset - c.offset) as u64,
                resource_type,
            },
        )
    } else {
        chunks.update(
            i,
            MemoryChunk {
                id: c.id,
                size: (c.size - used) as u64,
                offset: (c.offset + used) as u64,
                padding: 0,
                resource_type: ResourceType::Free,
            },
        ).insert(
            i,
            MemoryChunk {
                id: new_id,
                size: used as u64,
                offset: c.offset,
                padding: (offset - c.offset) as u64,
                resource_type,
            },
        )
    }
}

/// The chunk list after freeing chunk `i`: it becomes free and joins a free
/// neighbour on either side; a free left neighbour absorbs it, and otherwise
/// a free right neighbour grows down over it.
pub open spec fn free_layout(chunks: Seq<MemoryChunk>, i: int) -> Seq<MemoryChunk> {
    let c = chunks[i];
    let left_free = i > 0 && chunks[i - 1].resource_type == ResourceType::Free;
    let right_free = i + 1 < chunks.len() && chunks[i + 1].resource_type == ResourceType::Free;
    if left_free && right_free {
        let l = chunks[i - 1];
        chunks.subrange(0, i - 1).push(
            MemoryChunk { size: (l.size + c.size + chunks[i + 1].size) as u64, ..l },
        ) + chunks.subrange(i + 2, chunks.len() as int)
    } else if left_free {
        let l = chunks[i - 1];
        chunks.subrange(0, i - 1).push(MemoryChunk { size: (l.size + c.size) as u64, ..l })
            + chunks.subrange(i + 1, chunks.len() as int)
    } else if right_free {
        let r = chunks[i + 1];
        chunks.subrange(0, i).push(
            MemoryChunk { offset: c.offset, size: (c.size + r.size) as u64, ..r },
        ) + chunks.subrange(i + 2, chunks.len() as int)
    } else {
        chunks.update(i, MemoryChunk { padding: 0, resource_type: ResourceType::Free, ..c })
    }
}

/// Whether chunk `i` is occupied and has id `id`.
pub open spec fn is_live(chunks: Seq<MemoryChunk>, i: int, id: ChunkId) -> bool {
    0 <= i < chunks.len() && chunks[i].id == id && chunks[i].resource_type != ResourceType::Free
}

/// `t` is `s` with chunks `a..b` replaced by the one chunk `m`.
pub open spec fn merge_shape(s: Seq<MemoryChunk>, t: Seq<MemoryChunk>, a: int, b: int, m: MemoryChunk) -> bool {
    &&& 0 <= a < b <= s.len()
    &&& t.len() == s.len() - (b - a) + 1
    &&& t[a] == m
    &&& forall|j: int| 0 <= j < a ==> #[trigger] t[j] == s[j]
    &&& forall|j: int| a < j < t.len() ==> #[trigger] t[j] == s[j + (b - a) - 1]
}

proof fn lemma_merge_shape(s: Seq<MemoryChunk>, a: int, b: int, m: MemoryChunk)
    requires
        0 <= a < b <= s.len(),
    ensures
        merge_shape(s, s.subrange(0, a).push(m) + s.subrange(b, s.len() as int), a, b, m),
{
}

/// The merged chunk and its surroundings, as a free on chunk `i` leaves them.
pub open spec fn merge_ok(s: Seq<MemoryChunk>, a: int, b: int, m: MemoryChunk, i: int) -> bool {
    &&& a <= i < b
    &&& s[i].resource_type != ResourceType::Free
    &&& forall|k: int| a <= k < b && k != i ==> (#[trigger] s[k]).resource_type == ResourceType::Free
    &&& a > 0 ==> s[a - 1].resource_type != ResourceType::Free
    &&& b < s.len() ==> s[b].resource_type != ResourceType::Free
    &&& m.resource_type == ResourceType::Free
    &&& m.padding == 0
    &&& m.size > 0
    &&& m.offset == s[a].offset
    &&& chunk_end(m) == chunk_end(s[b - 1])
}

proof fn lemma_merge_partitions(s: Seq<MemoryChunk>, t: Seq<MemoryChunk>, a: int, b: int, m: MemoryChunk, i: int, size: int)
    requires
        merge_shape(s, t, a, b, m),
        merge_ok(s, a, b, m, i),
        partitions(s, size),
    ensures
        partitions(t, size),
{
    reveal(partitions);
    let d = b - a - 1;
    assert forall|j: int, k: int| 0 <= j && k == j + 1 && k < t.len() implies #[trigger] chunk_end(t[j]) == #[trigger] t[k].offset by {
        if k < a {
            assert(t[j] == s[j] && t[k] == s[k]);
        } else if k == a {
            assert(t[j] == s[j]);
        } else if j == a {
            assert(t[k] == s[b]);
        } else {
            assert(t[j] == s[j + d] && t[k] == s[k + d]);
        }
    }
    assert forall|j: int| 0 <= j < t.len() implies (#[trigger] t[j]).size > 0 && chunk_end(t[j]) <= size by {
        if j < a {
            assert(t[j] == s[j]);
        } else if j > a {
            assert(t[j] == s[j + d]);
        }
    }
    if a > 0 {
        assert(t[0] == s[0]);
    }
    if b < s.len() {
        assert(t.last() == s.last());
    }
}

proof fn lemma_merge_coalesced(s: Seq<MemoryChunk>, t: Seq<MemoryChunk>, a: int, b: int, m: MemoryChunk, i: int)
    requires
        merge_shape(s, t, a, b, m),
        merge_ok(s, a, b, m, i),
        coalesced(s),
    ensures
        coalesced(t),
{
    reveal(coalesced);
    let d = b - a - 1;
    assert forall|j: int, k: int| 0 <= j && k == j + 1 && k < t.len() implies !((#[trigger] t[j]).resource_type == ResourceType::Free
        && (#[trigger] t[k]).resource_type == ResourceType::Free) by {
        if k < a {
            assert(t[j] == s[j] && t[k] == s[k]);
        } else if k == a {
            assert(t[j] == s[j]);
        } else if j == a {
            assert(t[k] == s[b]);
        } else {
            assert(t[j] == s[j + d] && t[k] == s[k + d]);
        }
    }
}

proof fn lemma_merge_paddings(s: Seq<MemoryChunk>, t: Seq<MemoryChunk>, a: int, b: int, m: MemoryChunk, i: int)
    requires
        merge_shape(s, t, a, b, m),
        merge_ok(s, a, b, m, i),
        paddings_ok(s),
    ensures
        paddings_ok(t),
{
    reveal(paddings_ok);
    let d = b - a - 1;
    assert forall|j: int| 0 <= j < t.len() implies ((#[trigger] t[j]).resource_type == ResourceType::Free
        ==> t[j].padding == 0) && t[j].padding < t[j].size by {
        if j < a {
            assert(t[j] == s[j]);
        } else if j > a {
            assert(t[j] == s[j + d]);
        }
    }
}

proof fn lemma_merge_pages(s: Seq<MemoryChunk>, t: Seq<MemoryChunk>, a: int, b: int, m: MemoryChunk, i: int, g: int)
    requires
        merge_shape(s, t, a, b, m),
        merge_ok(s, a, b, m, i),
        pages_apart(s, g),
    ensures
        pages_apart(t, g),
{
    reveal(pages_apart);
    let d = b - a - 1;
    assert forall|j: int, k: int|
        0 <= j && k == j + 1 && k < t.len() && conflict_spec((#[trigger] t[j]).resource_type, (#[trigger] t[k]).resource_type)
        implies !same_page_spec(t[j].offset as int, t[j].size as int, data_offset(t[k]), g) by {
        if k < a {
            assert(t[j] == s[j] && t[k] == s[k]);
        } else if j > a {
            assert(t[j] == s[j + d] && t[k] == s[k + d]);
        }
    }
}

proof fn lemma_merge_ids(s: Seq<MemoryChunk>, t: Seq<MemoryChunk>, a: int, b: int, m: MemoryChunk, km: int, next_id: int)
    requires
        merge_shape(s, t, a, b, m),
        a <= km < b,
        m.id == s[km].id,
        ids_below(s, next_id),
    ensures
        ids_below(t, next_id),
{
    reveal(ids_below);
    let d = b - a - 1;
    let ghost f = |j: int| if j < a { j } else if j == a { km } else { j + d };
    assert forall|j: int| 0 <= j < t.len() implies (#[trigger] t[j]).id < next_id && t[j].id == s[f(j)].id && 0 <= f(j) < s.len() by {
        if j < a {
            assert(t[j] == s[j]);
        } else if j > a {
            assert(t[j] == s[j + d]);
        }
    }
    assert forall|j: int, k: int|
        0 <= j < t.len() && 0 <= k < t.len() && j != k implies (#[trigger] t[j]).id != (#[trigger] t[k]).id by {
        assert(t[j].id == s[f(j)].id && t[k].id == s[f(k)].id);
        assert(f(j) != f(k));
    }
}

proof fn lemma_sum_all_free(s: Seq<MemoryChunk>)
    requires
        forall|k: int| 0 <= k < s.len() ==> (#[trigger] s[k]).resource_type == ResourceType::Free,
    ensures
        occupied_sum(s) == 0,
    decreases s.len(),
{
    if s.len() > 0 {
        let t = s.drop_last();
        assert forall|k: int| 0 <= k < t.len() implies (#[trigger] t[k]).resource_type == ResourceType::Free by {
            assert(t[k] == s[k]);
        }
        lemma_sum_all_free(t);
    }
}

proof fn lemma_merge_sum(s: Seq<MemoryChunk>, t: Seq<MemoryChunk>, a: int, b: int, m: MemoryChunk, i: int)
    requires
        t == s.subrange(0, a).push(m) + s.subrange(b, s.len() as int),
        0 <= a < b <= s.len(),
        merge_ok(s, a, b, m, i),
    ensures
        occupied_sum(t) == occupied_sum(s) - s[i].size,
{
    let pre = s.subrange(0, a);
    let mid = s.subrange(a, b);
    let post = s.subrange(b, s.len() as int);
    assert(t =~= pre + seq![m] + post);
    lemma_sum_concat(pre + seq![m], post);
    lemma_sum_concat(pre, seq![m]);
    lemma_sum_single(m);
    assert(s =~= pre + mid + post);
    lemma_sum_concat(pre + mid, post);
    lemma_sum_concat(pre, mid);
    lemma_sum_split(mid, i - a);
    let left = mid.subrange(0, i - a);
    let right = mid.subrange(i - a + 1, mid.len() as int);
    assert forall|k: int| 0 <= k < left.len() implies (#[trigger] left[k]).resource_type == ResourceType::Free by {
        assert(left[k] == s[a + k]);
    }
    assert forall|k: int| 0 <= k < right.len() implies (#[trigger] right[k]).resource_type == ResourceType::Free by {
        assert(right[k] == s[i + 1 + k]);
    }
    lemma_sum_all_free(left);
    lemma_sum_all_free(right);
}

/// Freeing a live chunk, with its free neighbours merged into one chunk,
/// keeps every invariant of the chunk list.
proof fn lemma_merge_preserves(
    s: Seq<MemoryChunk>,
    a: int,
    b: int,
    m: MemoryChunk,
    i: int,
    km: int,
    size: int,
    g: int,
    next_id: int,
)
    requires
        0 <= a < b <= s.len(),
        merge_ok(s, a, b, m, i),
        a <= km < b,
        m.id == s[km].id,
        partitions(s, size),
        coalesced(s),
        paddings_ok(s),
        pages_apart(s, g),
        ids_below(s, next_id),
    ensures
        ({
            let t = s.subrange(0, a).push(m) + s.subrange(b, s.len() as int);
            &&& partitions(t, size)
            &&& coalesced(t)
            &&& paddings_ok(t)
            &&& pages_apart(t, g)
            &&& ids_below(t, next_id)
            &&& occupied_sum(t) == occupied_sum(s) - s[i].size
        }),
{
    let t = s.subrange(0, a).push(m) + s.subrange(b, s.len() as int);
    lemma_merge_shape(s, a, b, m);
    lemma_merge_partitions(s, t, a, b, m, i, size);
    lemma_merge_coalesced(s, t, a, b, m, i);
    lemma_merge_paddings(s, t, a, b, m, i);
    lemma_merge_pages(s, t, a, b, m, i, g);
    lemma_merge_ids(s, t, a, b, m, km, next_id);
    lemma_merge_sum(s, t, a, b, m, i);
}

/// Freeing live chunk `i` keeps every invariant of the chunk list and
/// takes the chunk's size off the occupied sum.
pub proof fn lemma_free_preserves(s: Seq<MemoryChunk>, i: int, size: int, g: int, next_id: int)
    requires
        0 <= i < s.len(),
        s[i].resource_type != ResourceType::Free,
        partitions(s, size),
        coalesced(s),
        paddings_ok(s),
        pages_apart(s, g),
        ids_below(s, next_id),
        size <= u64::MAX,
    ensures
        partitions(free_layout(s, i), size),
        coalesced(free_layout(s, i)),
        paddings_ok(free_layout(s, i)),
        pages_apart(free_layout(s, i), g),
        ids_below(free_layout(s, i), next_id),
        occupied_sum(free_layout(s, i)) == occupied_sum(s) - s[i].size,
        i > 0 ==> chunk_end(s[i - 1]) == s[i].offset,
        i + 1 < s.len() ==> chunk_end(s[i]) == s[i + 1].offset && chunk_end(s[i + 1]) <= size,
{
    reveal(partitions);
    reveal(coalesced);
    reveal(paddings_ok);
    let c = s[i];
    let len = s.len() as int;
    let left_free = i > 0 && s[i - 1].resource_type == ResourceType::Free;
    let right_free = i + 1 < len && s[i + 1].resource_type == ResourceType::Free;
    if i > 0 {
        assert(chunk_end(s[i - 1]) == s[i].offset);
        assert(s[i - 1].size > 0);
    }
    if i + 1 < len {
        assert(chunk_end(s[i]) == s[i + 1].offset);
        assert(chunk_end(s[i + 1]) <= size);
    }
    if i > 1 && left_free {
        assert(!(s[i - 2].resource_type == ResourceType::Free && s[i - 1].resource_type == ResourceType::Free));
    }
    if i + 2 < len && right_free {
        assert(!(s[i + 1].resource_type == ResourceType::Free && s[i + 2].resource_type == ResourceType::Free));
    }
    if left_free && right_free {
        let l = s[i - 1];
        let m = MemoryChunk { size: (l.size + c.size + s[i + 1].size) as u64, ..l };
        lemma_merge_preserves(s, i - 1, i + 2, m, i, i - 1, size, g, next_id);
    } else if left_free {
        let l = s[i - 1];
        let m = MemoryChunk { size: (l.size + c.size) as u64, ..l };
        lemma_merge_preserves(s, i - 1, i + 1, m, i, i - 1, size, g, next_id);
    } else if right_free {
        let r = s[i + 1];
        let m = MemoryChunk { offset: c.offset, size: (c.size + r.size) as u64, ..r };
        lemma_merge_preserves(s, i, i + 2, m, i, i + 1, size, g, next_id);
    } else {
        let m = MemoryChunk { padding: 0, resource_type: ResourceType::Free, ..c };
        lemma_merge_preserves(s, i, i + 1, m, i, i, size, g, next_id);
        assert(free_layout(s, i) =~= s.subrange(0, i).push(m) + s.subrange(i + 1, len));
    }
}

/// A chunk of positive size that ends within the 64-bit range, with room
/// for its resource after its padding.
pub open spec fn chunk_bounded(c: MemoryChunk) -> bool {
    c.size > 0 && chunk_end(c) <= u64::MAX && c.padding < c.size
}

proof fn lemma_sum_concat(a: Seq<MemoryChunk>, b: Seq<MemoryChunk>)
    ensures
        occupied_sum(a + b) == occupied_sum(a) + occupied_sum(b),
    decreases b.len(),
{
    if b.len() == 0 {
        assert(a + b =~= a);
    } else {
        lemma_sum_concat(a, b.drop_last());
        assert((a + b).drop_last() =~= a + b.drop_last());
    }
}

proof fn lemma_sum_single(x: MemoryChunk)
    ensures
        occupied_sum(seq![x]) == occupied_size(x),
{
    assert(seq![x].drop_last() =~= Seq::<MemoryChunk>::empty());
    assert(occupied_sum(Seq::<MemoryChunk>::empty()) == 0);
    assert(seq![x].last() == x);
}

/// The occupied sum of a list split around index `i`.
proof fn lemma_sum_split(s: Seq<MemoryChunk>, i: int)
    requires
        0 <= i < s.len(),
    ensures
        occupied_sum(s) == occupied_sum(s.subrange(0, i)) + occupied_size(s[i]) + occupied_sum(
            s.subrange(i + 1, s.len() as int),
        ),
{
    assert(s =~= s.subrange(0, i) + seq![s[i]] + s.subrange(i + 1, s.len() as int));
    lemma_sum_concat(s.subrange(0, i) + seq![s[i]], s.subrange(i + 1, s.len() as int));
    lemma_sum_concat(s.subrange(0, i), seq![s[i]]);
    lemma_sum_single(s[i]);
}

/// A run of chunks, each ending where the next starts.
pub open spec fn contiguous(s: Seq<MemoryChunk>) -> bool {
    forall|i: int, j: int|
        #![trigger s[i], s[j]]
        0 <= i && j == i + 1 && j < s.len() ==> chunk_end(s[i]) == s[j].offset
}

/// The occupied bytes of a contiguous run of chunks fit within the run.
proof fn lemma_sum_bound(s: Seq<MemoryChunk>)
    requires
        s.len() > 0,
        contiguous(s),
    ensures
        0 <= occupied_sum(s) <= chunk_end(s.last()) - s[0].offset,
    decreases s.len(),
{
    if s.len() == 1 {
        lemma_sum_single(s[0]);
        assert(s =~= seq![s[0]]);
    } else {
        let t = s.drop_last();
        assert(contiguous(t)) by {
            assert forall|i: int, j: int| 0 <= i && j == i + 1 && j < t.len() implies #[trigger] chunk_end(t[i]) == #[trigger] t[j].offset by {
                assert(t[i] == s[i] && t[j] == s[j]);
            }
        }
        lemma_sum_bound(t);
        assert(chunk_end(s[s.len() - 2]) == s[s.len() - 1].offset);
        assert(t.last() == s[s.len() - 2]);
        assert(t[0] == s[0]);
    }
}

/// Facts about where a request lands in free chunk `i`: inside the chunk,
/// aligned, and off the page of a conflicting left neighbour.
pub proof fn lemma_placed(
    s: Seq<MemoryChunk>,
    i: int,
    alignment: u64,
    granularity: u64,
    resource_type: ResourceType,
)
    requires
        0 <= i < s.len(),
        is_pow2(alignment),
        is_pow2(granularity),
        i > 0 ==> chunk_end(s[i - 1]) == s[i].offset && s[i - 1].size > 0,
    ensures
        ({
            let offset = placed_offset(s, i, alignment as int, granularity as int, resource_type);
            &&& s[i].offset <= offset
            &&& offset % (alignment as int) == 0
            &&& (i > 0 && conflict_spec(s[i - 1].resource_type, resource_type)) ==> !same_page_spec(
                s[i - 1].offset as int,
                s[i - 1].size as int,
                offset,
                granularity as int,
            )
        }),
{
    lemma_pow2_positive(alignment);
    lemma_pow2_positive(granularity);
    let a = alignment as int;
    let g = granularity as int;
    let aligned = align_up_spec(s[i].offset as int, a);
    lemma_align_up(s[i].offset as int, a);
    if i > 0 && conflict_spec(s[i - 1].resource_type, resource_type) && same_page_spec(
        s[i - 1].offset as int,
        s[i - 1].size as int,
        aligned,
        g,
    ) {
        let offset = align_up_spec(aligned, g);
        lemma_align_up(aligned, g);
        let last = s[i - 1].offset + s[i - 1].size - 1;
        lemma_align_down(last, g);
        lemma_align_down(offset, g);
        lemma_align_up(offset, g);
        reveal(align_down_spec);
        if alignment <= granularity {
            lemma_pow2_divides(alignment, granularity);
            lemma_mod_trans(offset, g, a);
        } else {
            lemma_pow2_divides(granularity, alignment);
            lemma_mod_trans(aligned, a, g);
        }
    }
}

/// The first fit is a fitting chunk with none before it.
pub proof fn lemma_first_fit(
    chunks: Seq<MemoryChunk>,
    j: int,
    size: int,
    alignment: int,
    granularity: int,
    resource_type: ResourceType,
    can_split: bool,
)
    requires
        0 <= j,
    ensures
        match first_fit(chunks, j, size, alignment, granularity, resource_type, can_split) {
            Some(i) => {
                &&& j <= i < chunks.len()
                &&& fits(chunks, i, size, alignment, granularity, resource_type, can_split)
                &&& forall|k: int| j <= k < i ==> !fits(chunks, k, size, alignment, granularity, resource_type, can_split)
            },
            None => forall|k: int|
                j <= k < chunks.len() ==> !fits(chunks, k, size, alignment, granularity, resource_type, can_split),
        },
    decreases chunks.len() - j,
{
    if j < chunks.len() && !fits(chunks, j, size, alignment, granularity, resource_type, can_split) {
        lemma_first_fit(chunks, j + 1, size, alignment, granularity, resource_type, can_split);
    }
}

/// `t` is `s` with chunk `i` replaced by the two chunks `n` and `f`.
pub open spec fn split_shape(s: Seq<MemoryChunk>, t: Seq<MemoryChunk>, i: int, n: MemoryChunk, f: MemoryChunk) -> bool {
    &&& 0 <= i < s.len()
    &&& t.len() == s.len() + 1
    &&& t[i] == n
    &&& t[i + 1] == f
    &&& forall|j: int| 0 <= j < i ==> #[trigger] t[j] == s[j]
    &&& forall|j: int| i + 1 < j < t.len() ==> #[trigger] t[j] == s[j - 1]
}

proof fn lemma_split_shape(s: Seq<MemoryChunk>, i: int, n: MemoryChunk, f: MemoryChunk)
    requires
        0 <= i < s.len(),
    ensures
        split_shape(s, s.update(i, f).insert(i, n), i, n, f),
{
}

proof fn lemma_split_partitions(s: Seq<MemoryChunk>, t: Seq<MemoryChunk>, i: int, n: MemoryChunk, f: MemoryChunk, size: int)
    requires
        split_shape(s, t, i, n, f),
        partitions(s, size),
        n.offset == s[i].offset,
        n.size > 0,
        f.size > 0,
        chunk_end(n) == f.offset,
        chunk_end(f) == chunk_end(s[i]),
    ensures
        partitions(t, size),
{
    reveal(partitions);
    assert forall|j: int, k: int| 0 <= j && k == j + 1 && k < t.len() implies #[trigger] chunk_end(t[j]) == #[trigger] t[k].offset by {
        if j < i - 1 {
            assert(t[j] == s[j] && t[k] == s[k]);
        } else if j == i - 1 {
            assert(t[j] == s[j]);
        } else if j == i + 1 {
            assert(t[k] == s[i + 1]);
        } else if j > i + 1 {
            assert(t[j] == s[j - 1] && t[k] == s[j]);
        }
    }
    assert forall|j: int| 0 <= j < t.len() implies (#[trigger] t[j]).size > 0 && chunk_end(t[j]) <= size by {
        if j < i {
            assert(t[j] == s[j]);
        } else if j > i + 1 {
            assert(t[j] == s[j - 1]);
        }
    }
    if i > 0 {
        assert(t[0] == s[0]);
    }
    if i < s.len() - 1 {
        assert(t.last() == s.last());
    }
}

proof fn lemma_split_coalesced(s: Seq<MemoryChunk>, t: Seq<MemoryChunk>, i: int, n: MemoryChunk, f: MemoryChunk)
    requires
        split_shape(s, t, i, n, f),
        coalesced(s),
        s[i].resource_type == ResourceType::Free,
        n.resource_type != ResourceType::Free,
    ensures
        coalesced(t),
{
    reveal(coalesced);
    assert forall|j: int, k: int| 0 <= j && k == j + 1 && k < t.len() implies !((#[trigger] t[j]).resource_type == ResourceType::Free
        && (#[trigger] t[k]).resource_type == ResourceType::Free) by {
        if j < i - 1 {
            assert(t[j] == s[j] && t[k] == s[k]);
        } else if j == i + 1 {
            assert(t[k] == s[i + 1]);
        } else if j > i + 1 {
            assert(t[j] == s[j - 1] && t[k] == s[j]);
        }
    }
}

proof fn lemma_split_paddings(s: Seq<MemoryChunk>, t: Seq<MemoryChunk>, i: int, n: MemoryChunk, f: MemoryChunk)
    requires
        split_shape(s, t, i, n, f),
        paddings_ok(s),
        n.padding < n.size,
        n.resource_type != ResourceType::Free,
        f.padding == 0,
        f.size > 0,
    ensures
        paddings_ok(t),
{
    reveal(paddings_ok);
    assert forall|j: int| 0 <= j < t.len() implies ((#[trigger] t[j]).resource_type == ResourceType::Free
        ==> t[j].padding == 0) && t[j].padding < t[j].size by {
        if j < i {
            assert(t[j] == s[j]);
        } else if j > i + 1 {
            assert(t[j] == s[j - 1]);
        }
    }
}

proof fn lemma_split_pages(s: Seq<MemoryChunk>, t: Seq<MemoryChunk>, i: int, n: MemoryChunk, f: MemoryChunk, g: int)
    requires
        split_shape(s, t, i, n, f),
        pages_apart(s, g),
        f.resource_type == ResourceType::Free,
        i > 0 && conflict_spec(s[i - 1].resource_type, n.resource_type) ==> !same_page_spec(
            s[i - 1].offset as int,
            s[i - 1].size as int,
            data_offset(n),
            g,
        ),
    ensures
        pages_apart(t, g),
{
    reveal(pages_apart);
    assert forall|j: int, k: int|
        0 <= j && k == j + 1 && k < t.len() && conflict_spec((#[trigger] t[j]).resource_type, (#[trigger] t[k]).resource_type)
        implies !same_page_spec(t[j].offset as int, t[j].size as int, data_offset(t[k]), g) by {
        if j < i - 1 {
            assert(t[j] == s[j] && t[k] == s[k]);
        } else if j == i - 1 {
            assert(t[j] == s[j]);
        } else if j > i + 1 {
            assert(t[j] == s[j - 1] && t[k] == s[j]);
        }
    }
}

proof fn lemma_split_ids(s: Seq<MemoryChunk>, t: Seq<MemoryChunk>, i: int, n: MemoryChunk, f: MemoryChunk, next_id: int)
    requires
        split_shape(s, t, i, n, f),
        ids_below(s, next_id),
        f.id == s[i].id,
        n.id == next_id,
    ensures
        ids_below(t, next_id + 1),
{
    reveal(ids_below);
    let ghost m = |j: int| if j < i { j } else if j == i { -1 } else { j - 1 };
    assert forall|j: int| 0 <= j < t.len() implies (#[trigger] t[j]).id < next_id + 1 && (m(j) >= 0 ==> t[j].id == s[m(j)].id) by {
        if j < i {
            assert(t[j] == s[j]);
        } else if j > i + 1 {
            assert(t[j] == s[j - 1]);
        }
    }
    assert forall|j: int, k: int|
        0 <= j < t.len() && 0 <= k < t.len() && j != k implies (#[trigger] t[j]).id != (#[trigger] t[k]).id by {
        assert(m(j) >= 0 ==> t[j].id == s[m(j)].id);
        assert(m(k) >= 0 ==> t[k].id == s[m(k)].id);
        if m(j) >= 0 && m(k) >= 0 {
            assert(s[m(j)].id != s[m(k)].id);
        }
    }
}

proof fn lemma_split_sum(s: Seq<MemoryChunk>, t: Seq<MemoryChunk>, i: int, n: MemoryChunk, f: MemoryChunk)
    requires
        split_shape(s, t, i, n, f),
        s[i].resource_type == ResourceType::Free,
        f.resource_type == ResourceType::Free,
    ensures
        occupied_sum(t) == occupied_sum(s) + occupied_size(n),
{
    assert(t.subrange(0, i) =~= s.subrange(0, i));
    assert(t.subrange(i + 1, t.len() as int) =~= seq![f] + s.subrange(i + 1, s.len() as int));
    lemma_sum_split(t, i);
    lemma_sum_split(s, i);
    lemma_sum_concat(seq![f], s.subrange(i + 1, s.len() as int));
    lemma_sum_single(f);
}

/// Turning free chunk `i` into `n` in place, over the same bytes.
proof fn lemma_fill_preserves(s: Seq<MemoryChunk>, i: int, n: MemoryChunk, size: int, g: int, next_id: int)
    requires
        0 <= i < s.len(),
        partitions(s, size),
        coalesced(s),
        paddings_ok(s),
        pages_apart(s, g),
        ids_below(s, next_id),
        s[i].resource_type == ResourceType::Free,
        n.resource_type != ResourceType::Free,
        n.id == s[i].id,
        n.offset == s[i].offset,
        n.size == s[i].size,
        n.padding < n.size,
        i > 0 && conflict_spec(s[i - 1].resource_type, n.resource_type) ==> !same_page_spec(
            s[i - 1].offset as int,
            s[i - 1].size as int,
            data_offset(n),
            g,
        ),
        i + 1 < s.len() && conflict_spec(n.resource_type, s[i + 1].resource_type) ==> !same_page_spec(
            n.offset as int,
            n.size as int,
            data_offset(s[i + 1]),
            g,
        ),
    ensures
        partitions(s.update(i, n), size),
        coalesced(s.update(i, n)),
        paddings_ok(s.update(i, n)),
        pages_apart(s.update(i, n), g),
        ids_below(s.update(i, n), next_id),
        occupied_sum(s.update(i, n)) == occupied_sum(s) + n.size,
{
    reveal(partitions);
    reveal(coalesced);
    reveal(paddings_ok);
    reveal(pages_apart);
    reveal(ids_below);
    let t = s.update(i, n);
    assert(t.subrange(0, i) =~= s.subrange(0, i));
    assert(t.subrange(i + 1, t.len() as int) =~= s.subrange(i + 1, s.len() as int));
    lemma_sum_split(t, i);
    lemma_sum_split(s, i);
}

/// What `allocate` does, from the block before (`o`) to the block after
/// (`n`) and its result `r`: nothing, when no chunk takes the request;
/// otherwise the first fitting chunk is split or filled and the result names
/// the occupied chunk and the resource's offset.
pub open spec fn allocate_post(
    o: SubAllocator,
    n: SubAllocator,
    size: int,
    alignment: int,
    resource_type: ResourceType,
    r: Option<(ChunkId, u64)>,
) -> bool {
    match first_fit(o.chunks(), 0, size, alignment, o.granularity_spec() as int, resource_type, o.can_split()) {
        None => {
            &&& r is None
            &&& n.chunks() == o.chunks()
            &&& n.allocated_spec() == o.allocated_spec()
            &&& n.next_id() == o.next_id()
        },
        Some(i) => {
            let c = o.chunks()[i];
            let offset = placed_offset(o.chunks(), i, alignment, o.granularity_spec() as int, resource_type);
            let used = offset + size - c.offset;
            let exact = used == c.size;
            &&& r == Some((if exact { c.id } else { o.next_id() }, offset as u64))
            &&& n.chunks() == split_layout(o.chunks(), i, offset, size, resource_type, o.next_id())
            &&& n.allocated_spec() == o.allocated_spec() + used
            &&& n.next_id() == if exact {
                o.next_id() as int
            } else {
                o.next_id() + 1
            }
        },
    }
}

/// What `free` does, from the block before (`o`) to the block after (`n`)
/// and its result `r`: the live chunk with that id is freed and merged, or,
/// when there is none, nothing changes.
pub open spec fn free_post(o: SubAllocator, n: SubAllocator, chunk_id: ChunkId, r: bool) -> bool {
    &&& r == exists|i: int| is_live(o.chunks(), i, chunk_id)
    &&& forall|i: int|
        #[trigger] is_live(o.chunks(), i, chunk_id) ==> n.chunks() == free_layout(o.chunks(), i) && n.allocated_spec()
            == o.allocated_spec() - o.chunks()[i].size
    &&& !r ==> n.chunks() == o.chunks() && n.allocated_spec() == o.allocated_spec()
}

/// Sub-allocator of one block: the chunks that cover it, in offset order.
pub struct SubAllocator {
    size: u64,
    granularity: u64,
    chunks: Vec<MemoryChunk>,
    id_counter: ChunkId,
    allocated: u64,
}

impl SubAllocator {
    /// The chunks, in offset order.
    pub closed spec fn chunks(&self) -> Seq<MemoryChunk> {
        self.chunks@
    }

    /// Size of the block in bytes.
    pub closed spec fn size_spec(&self) -> nat {
        self.size as nat
    }

    /// Page size that linear and non-linear resources may not share.
    pub closed spec fn granularity_spec(&self) -> u64 {
        self.granularity
    }

    /// The id the next split will use.
    pub closed spec fn next_id(&self) -> ChunkId {
        self.id_counter
    }

    /// Bytes held by occupied chunks.
    pub closed spec fn allocated_spec(&self) -> nat {
        self.allocated as nat
    }

    /// Whether a split has an id left to use.
    pub open spec fn can_split(&self) -> bool {
        self.next_id() < u64::MAX
    }

    /// The invariant of a block's chunk list: it covers the block, the
    /// occupied count matches it, free chunks are merged, resources of
    /// conflicting classes keep a page apart, and ids are distinct.
    pub open spec fn wf(&self) -> bool {
        &&& is_pow2(self.granularity_spec())
        &&& partitions(self.chunks(), self.size_spec() as int)
        &&& self.allocated_spec() == occupied_sum(self.chunks())
        &&& coalesced(self.chunks())
        &&& paddings_ok(self.chunks())
        &&& pages_apart(self.chunks(), self.granularity_spec() as int)
        &&& ids_below(self.chunks(), self.next_id() as int)
    }

    proof fn lemma_bounded(&self)
        requires
            self.wf(),
        ensures
            forall|j: int| 0 <= j < self.chunks().len() ==> chunk_bounded(#[trigger] self.chunks()[j]),
    {
        reveal(partitions);
        reveal(paddings_ok);
        assert forall|j: int| 0 <= j < self.chunks().len() implies chunk_bounded(#[trigger] self.chunks()[j]) by {
            assert(self.chunks()[j].size > 0 && chunk_end(self.chunks()[j]) <= self.size_spec());
            assert(self.chunks()[j].padding < self.chunks()[j].size);
        }
    }

    /// A block of `size` bytes held by one free chunk.
    pub fn new(size: u64, granularity: u64) -> (r: Self)
        requires
            size > 0,
            is_pow2(granularity),
        ensures
            r.wf(),
            r.size_spec() == size,
            r.granularity_spec() == granularity,
            r.allocated_spec() == 0,
            r.next_id() == 2,
            r.chunks() == seq![
                MemoryChunk { id: 1, size, offset: 0, padding: 0, resource_type: ResourceType::Free },
            ],
    {
        let id: ChunkId = 1;
        let mut chunks: Vec<MemoryChunk> = Vec::new();
        chunks.push(MemoryChunk { id, size, offset: 0, padding: 0, resource_type: ResourceType::Free });
        let r = SubAllocator { size, granularity, chunks, id_counter: id + 1, allocated: 0 };
        proof {
            assert(r.chunks() =~= seq![
                MemoryChunk { id: 1, size, offset: 0, padding: 0, resource_type: ResourceType::Free },
            ]);
            lemma_sum_single(r.chunks()[0]);
            reveal(partitions);
            reveal(coalesced);
            reveal(paddings_ok);
            reveal(pages_apart);
            reveal(ids_below);
        }
        r
    }

    /// Size of the block in bytes.
    pub fn size(&self) -> (r: u64)
        ensures
            r == self.size_spec(),
    {
        self.size
    }

    /// Bytes held by occupied chunks.
    pub fn allocated(&self) -> (r: u64)
        ensures
            r == self.allocated_spec(),
    {
        self.allocated
    }

    /// Whether no chunk is occupied.
    pub fn is_empty(&self) -> (r: bool)
        ensures
            r == (self.allocated_spec() == 0),
    {
        self.allocated == 0
    }

    /// The chunks, in offset order.
    pub fn chunk_list(&self) -> (r: Vec<MemoryChunk>)
        ensures
            r@ == self.chunks(),
    {
        self.chunks.clone()
    }

    /// Places a resource of `size` bytes, aligned to `alignment`, in the
    /// first chunk in offset order that can take it, and returns the id of
    /// the chunk that now holds it and the resource's offset. A larger free
    /// chunk is split: a new chunk takes the padding and the resource, and
    /// the free chunk keeps the rest. `None`, with nothing changed, when no
    /// chunk can take the request.
    pub fn allocate(&mut self, size: u64, alignment: u64, resource_type: ResourceType) -> (r: Option<(ChunkId, u64)>)
        requires
            old(self).wf(),
            size > 0,
            is_pow2(alignment),
            resource_type != ResourceType::Free,
        ensures
            final(self).wf(),
            final(self).size_spec() == old(self).size_spec(),
            final(self).granularity_spec() == old(self).granularity_spec(),
            allocate_post(*old(self), *final(self), size as int, alignment as int, resource_type, r),
            r matches Some((id, offset)) ==> offset % alignment == 0,
    {
        let (i, offset) = match self.find_fit(size, alignment, resource_type) {
            Some(found) => found,
            None => return None,
        };
        let ghost s = self.chunks@;
        let ghost g = self.granularity;
        proof {
            lemma_first_fit(s, 0, size as int, alignment as int, g as int, resource_type, self.can_split());
            self.lemma_bounded();
            reveal(partitions);
            if i > 0 {
                assert(chunk_end(s[i - 1]) == s[i as int].offset);
            }
            lemma_placed(s, i as int, alignment, g, resource_type);
        }
        let c = self.chunks[i];
        let used = offset + size - c.offset;
        let id = if used < c.size {
            let new_id = self.id_counter;
            self.id_counter = self.id_counter + 1;
            let f = MemoryChunk {
                id: c.id,
                size: c.size - used,
                offset: c.offset + used,
                padding: 0,
                resource_type: ResourceType::Free,
            };
            let n = MemoryChunk { id: new_id, size: used, offset: c.offset, padding: offset - c.offset, resource_type };
            self.chunks.set(i, f);
            self.chunks.insert(i, n);
            proof {
                let t = self.chunks@;
                lemma_split_shape(s, i as int, n, f);
                lemma_split_partitions(s, t, i as int, n, f, self.size as int);
                lemma_split_coalesced(s, t, i as int, n, f);
                lemma_split_paddings(s, t, i as int, n, f);
                lemma_split_pages(s, t, i as int, n, f, g as int);
                lemma_split_ids(s, t, i as int, n, f, new_id as int);
                lemma_split_sum(s, t, i as int, n, f);
            }
            new_id
        } else {
            let n = MemoryChunk {
                id: c.id,
                size: c.size,
                offset: c.offset,
                padding: offset - c.offset,
                resource_type,
            };
            self.chunks.set(i, n);
            proof {
                lemma_fill_preserves(s, i as int, n, self.size as int, g as int, self.id_counter as int);
            }
            c.id
        };
        proof {
            reveal(partitions);
            lemma_sum_bound(self.chunks@);
        }
        self.allocated = self.allocated + used;
        Some((id, offset))
    }

    /// Frees the occupied chunk with id `chunk_id` and merges it with free
    /// neighbours. Returns `false`, with nothing changed, when no occupied
    /// chunk has that id.
    pub fn free(&mut self, chunk_id: ChunkId) -> (r: bool)
        requires
            old(self).wf(),
        ensures
            final(self).wf(),
            final(self).size_spec() == old(self).size_spec(),
            final(self).granularity_spec() == old(self).granularity_spec(),
            final(self).next_id() == old(self).next_id(),
            free_post(*old(self), *final(self), chunk_id, r),
    {
        let mut i: usize = 0;
        while i < self.chunks.len()
            invariant
                self.wf(),
                self.chunks() == old(self).chunks(),
                self.allocated_spec() == old(self).allocated_spec(),
                self.next_id() == old(self).next_id(),
                self.size_spec() == old(self).size_spec(),
                self.granularity_spec() == old(self).granularity_spec(),
                i <= self.chunks().len(),
                forall|k: int| 0 <= k < i ==> !is_live(self.chunks(), k, chunk_id),
            decreases self.chunks().len() - i,
        {
            if self.chunks[i].id == chunk_id && self.chunks[i].resource_type != ResourceType::Free {
                proof {
                    reveal(ids_below);
                    assert forall|j: int| is_live(self.chunks(), j, chunk_id) implies j == i by {
                        if j != i {
                            assert(self.chunks()[j].id != self.chunks()[i as int].id);
                        }
                    }
                }
                assert(is_live(old(self).chunks(), i as int, chunk_id));
                self.free_at(i);
                return true;
            }
            i += 1;
        }
        false
    }

    /// Frees chunk `i`, merging it into free neighbours.
    #[verifier::rlimit(30)]
    fn free_at(&mut self, i: usize)
        requires
            old(self).wf(),
            i < old(self).chunks().len(),
            old(self).chunks()[i as int].resource_type != ResourceType::Free,
        ensures
            final(self).wf(),
            final(self).chunks() == free_layout(old(self).chunks(), i as int),
            final(self).allocated_spec() == old(self).allocated_spec() - old(self).chunks()[i as int].size,
            final(self).size_spec() == old(self).size_spec(),
            final(self).granularity_spec() == old(self).granularity_spec(),
            final(self).next_id() == old(self).next_id(),
    {
        let ghost s = self.chunks@;
        proof {
            self.lemma_bounded();
            lemma_free_preserves(s, i as int, self.size as int, self.granularity as int, self.id_counter as int);
        }
        let c = self.chunks[i];
        let len = self.chunks.len();
        let left_free = i > 0 && self.chunks[i - 1].resource_type == ResourceType::Free;
        let right_free = i < len - 1 && self.chunks[i + 1].resource_type == ResourceType::Free;
        if left_free && right_free {
            let l = self.chunks[i - 1];
            let r = self.chunks[i + 1];
            let m = MemoryChunk { size: l.size + c.size + r.size, ..l };
            self.chunks.set(i - 1, m);
            self.chunks.remove(i + 1);
            self.chunks.remove(i);
            proof {
                assert(self.chunks@ =~= free_layout(s, i as int));
            }
        } else if left_free {
            let l = self.chunks[i - 1];
            let m = MemoryChunk { size: l.size + c.size, ..l };
            self.chunks.set(i - 1, m);
            self.chunks.remove(i);
            proof {
                assert(self.chunks@ =~= free_layout(s, i as int));
            }
        } else if right_free {
            let r = self.chunks[i + 1];
            let m = MemoryChunk { offset: c.offset, size: c.size + r.size, ..r };
            self.chunks.set(i + 1, m);
            self.chunks.remove(i);
            proof {
                assert(self.chunks@ =~= free_layout(s, i as int));
            }
        } else {
            let m = MemoryChunk { padding: 0, resource_type: ResourceType::Free, ..c };
            self.chunks.set(i, m);
            proof {
                assert(self.chunks@ =~= free_layout(s, i as int));
            }
        }
        proof {
            reveal(partitions);
            lemma_sum_bound(self.chunks@);
        }
        self.allocated = self.allocated - c.size;
    }

    /// The chunk with id `chunk_id`, if there is one.
    pub fn get_chunk(&self, chunk_id: ChunkId) -> (r: Option<MemoryChunk>)
        ensures
            r matches Some(c) ==> c.id == chunk_id && exists|i: int| 0 <= i < self.chunks().len() && self.chunks()[i] == c,
            r is None ==> forall|i: int| 0 <= i < self.chunks().len() ==> self.chunks()[i].id != chunk_id,
    {
        let mut i: usize = 0;
        while i < self.chunks.len()
            invariant
                i <= self.chunks().len(),
                forall|k: int| 0 <= k < i ==> self.chunks()[k].id != chunk_id,
            decreases self.chunks().len() - i,
        {
            if self.chunks[i].id == chunk_id {
                return Some(self.chunks[i]);
            }
            i += 1;
        }
        None
    }

    /// Whether an occupied chunk has id `chunk_id`.
    pub fn holds(&self, chunk_id: ChunkId) -> (r: bool)
        ensures
            r == exists|i: int| is_live(self.chunks(), i, chunk_id),
    {
        let mut i: usize = 0;
        while i < self.chunks.len()
            invariant
                i <= self.chunks().len(),
                forall|k: int| 0 <= k < i ==> !is_live(self.chunks(), k, chunk_id),
            decreases self.chunks().len() - i,
        {
            if self.chunks[i].id == chunk_id && self.chunks[i].resource_type != ResourceType::Free {
                assert(is_live(self.chunks(), i as int, chunk_id));
                return true;
            }
            i += 1;
        }
        false
    }

    /// Whether some chunk can take the request.
    pub fn fits_request(&self, size: u64, alignment: u64, resource_type: ResourceType) -> (r: bool)
        requires
            self.wf(),
            size > 0,
            is_pow2(alignment),
        ensures
            r == first_fit(
                self.chunks(),
                0,
                size as int,
                alignment as int,
                self.granularity_spec() as int,
                resource_type,
                self.can_split(),
            ) is Some,
    {
        self.find_fit(size, alignment, resource_type).is_some()
    }

    /// Where the request would place its resource in chunk `i`; `None` when
    /// that lies past the 64-bit range.
    fn placed(&self, i: usize, alignment: u64, resource_type: ResourceType) -> (r: Option<u64>)
        requires
            is_pow2(self.granularity_spec()),
            is_pow2(alignment),
            i < self.chunks().len(),
            i > 0 ==> chunk_end(self.chunks()[i - 1]) <= u64::MAX && self.chunks()[i - 1].size > 0,
        ensures
            r matches Some(offset) ==> offset == placed_offset(
                self.chunks(),
                i as int,
                alignment as int,
                self.granularity_spec() as int,
                resource_type,
            ),
            r is None ==> placed_offset(
                self.chunks(),
                i as int,
                alignment as int,
                self.granularity_spec() as int,
                resource_type,
            ) > u64::MAX,
    {
        let start = self.chunks[i].offset;
        proof {
            lemma_pow2_positive(alignment);
            lemma_pow2_positive(self.granularity);
        }
        if start > u64::MAX - (alignment - 1) {
            proof {
                lemma_align_up_past_max(start, alignment);
                lemma_align_up(align_up_spec(start as int, alignment as int), self.granularity as int);
            }
            return None;
        }
        let offset = align_up(start, alignment);
        if i > 0 {
            let prev = self.chunks[i - 1];
            if granularity_conflict(prev.resource_type, resource_type) && is_on_same_page(
                prev.offset,
                prev.size,
                offset,
                self.granularity,
            ) {
                if offset > u64::MAX - (self.granularity - 1) {
                    proof {
                        lemma_align_up_past_max(offset, self.granularity);
                    }
                    return None;
                }
                return Some(align_up(offset, self.granularity));
            }
        }
        Some(offset)
    }

    /// Where the request would go in chunk `i`, if it fits there.
    fn fit_at(&self, i: usize, size: u64, alignment: u64, resource_type: ResourceType) -> (r: Option<u64>)
        requires
            is_pow2(self.granularity_spec()),
            i < self.chunks().len(),
            forall|j: int| 0 <= j < self.chunks().len() ==> chunk_bounded(#[trigger] self.chunks()[j]),
            size > 0,
            is_pow2(alignment),
        ensures
            r is Some <==> fits(
                self.chunks(),
                i as int,
                size as int,
                alignment as int,
                self.granularity_spec() as int,
                resource_type,
                self.can_split(),
            ),
            r matches Some(offset) ==> offset == placed_offset(
                self.chunks(),
                i as int,
                alignment as int,
                self.granularity_spec() as int,
                resource_type,
            ),
    {
        let c = self.chunks[i];
        proof {
            assert(chunk_bounded(self.chunks()[i as int]));
            if i > 0 {
                assert(chunk_bounded(self.chunks()[i - 1]));
            }
            if i + 1 < self.chunks().len() {
                assert(chunk_bounded(self.chunks()[i + 1]));
            }
        }
        if c.resource_type != ResourceType::Free {
            return None;
        }
        let offset = match self.placed(i, alignment, resource_type) {
            Some(o) => o,
            None => return None,
        };
        let end = c.offset + c.size;
        if offset > end || size > end - offset {
            return None;
        }
        if i < self.chunks.len() - 1 {
            let next = self.chunks[i + 1];
            if granularity_conflict(resource_type, next.resource_type) && is_on_same_page(
                offset,
                size,
                next.offset + next.padding,
                self.granularity,
            ) {
                return None;
            }
        }
        if offset + size < end && self.id_counter == u64::MAX {
            return None;
        }
        Some(offset)
    }

    /// The first chunk in offset order that takes the request, and where.
    fn find_fit(&self, size: u64, alignment: u64, resource_type: ResourceType) -> (r: Option<(usize, u64)>)
        requires
            self.wf(),
            size > 0,
            is_pow2(alignment),
        ensures
            match r {
                Some((i, offset)) => {
                    &&& first_fit(
                        self.chunks(),
                        0,
                        size as int,
                        alignment as int,
                        self.granularity_spec() as int,
                        resource_type,
                        self.can_split(),
                    ) == Some(i as int)
                    &&& offset == placed_offset(
                        self.chunks(),
                        i as int,
                        alignment as int,
                        self.granularity_spec() as int,
                        resource_type,
                    )
                },
                None => first_fit(
                    self.chunks(),
                    0,
                    size as int,
                    alignment as int,
                    self.granularity_spec() as int,
                    resource_type,
                    self.can_split(),
                ) is None,
            },
    {
        proof {
            self.lemma_bounded();
        }
        let mut i: usize = 0;
        while i < self.chunks.len()
            invariant
                self.wf(),
                forall|j: int| 0 <= j < self.chunks().len() ==> chunk_bounded(#[trigger] self.chunks()[j]),
                size > 0,
                is_pow2(alignment),
                i <= self.chunks().len(),
                first_fit(
                    self.chunks(),
                    0,
                    size as int,
                    alignment as int,
                    self.granularity_spec() as int,
                    resource_type,
                    self.can_split(),
                ) == first_fit(
                    self.chunks(),
                    i as int,
                    size as int,
                    alignment as int,
                    self.granularity_spec() as int,
                    resource_type,
                    self.can_split(),
                ),
            decreases self.chunks().len() - i,
        {
            match self.fit_at(i, size, alignment, resource_type) {
                Some(offset) => {
                    return Some((i, offset));
                },
                None => {},
            }
            i += 1;
        }
        None
    }
}

} // verus!
