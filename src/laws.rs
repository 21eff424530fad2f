//! Properties that relate several operations of the allocator, proved over
//! the contracts of those operations.

use crate::align::{is_pow2, lemma_align_up, lemma_pow2_positive, same_page_spec};
use crate::memory::{
    block_takes, first_block, region_free_post, region_new_block_post, AllocError, MemoryRegion,
};
use crate::suballocator::{
    allocate_post, chunk_end, coalesced, conflict_spec, first_fit, fits, free_layout, free_post,
    is_live, lemma_first_fit, occupied_sum, pages_apart, paddings_ok, partitions, placed_offset,
    ChunkId, MemoryChunk, ResourceType, SubAllocator,
};
use vstd::prelude::*;

verus! {

/// In every well-formed block the chunks, in offset order, cover the block
/// without gap or overlap; the occupied count is the sum of the sizes of
/// the occupied chunks; and neighbouring chunks of conflicting classes
/// never share a page of the granularity.
pub proof fn lemma_block_invariants(b: SubAllocator)
    requires
        b.wf(),
    ensures
        partitions(b.chunks(), b.size_spec() as int),
        b.allocated_spec() == occupied_sum(b.chunks()),
        pages_apart(b.chunks(), b.granularity_spec() as int),
{
}

proof fn lemma_offset_in_chunk(s: Seq<MemoryChunk>, i: int, alignment: u64, granularity: u64, resource_type: ResourceType)
    requires
        0 <= i < s.len(),
        is_pow2(alignment),
        is_pow2(granularity),
    ensures
        s[i].offset <= placed_offset(s, i, alignment as int, granularity as int, resource_type),
{
    lemma_pow2_positive(alignment);
    lemma_pow2_positive(granularity);
    let aligned = crate::align::align_up_spec(s[i].offset as int, alignment as int);
    lemma_align_up(s[i].offset as int, alignment as int);
    lemma_align_up(aligned, granularity as int);
}

/// Allocating a request and then freeing the chunk it got gives back the
/// block's chunk list and occupied count as they were before.
pub proof fn lemma_allocate_then_free(
    o: SubAllocator,
    n: SubAllocator,
    f: SubAllocator,
    size: u64,
    alignment: u64,
    resource_type: ResourceType,
    id: ChunkId,
    offset: u64,
    freed: bool,
)
    requires
        o.wf(),
        size > 0,
        is_pow2(alignment),
        resource_type != ResourceType::Free,
        allocate_post(o, n, size as int, alignment as int, resource_type, Some((id, offset))),
        free_post(n, f, id, freed),
    ensures
        freed,
        f.chunks() == o.chunks(),
        f.allocated_spec() == o.allocated_spec(),
{
    reveal(partitions);
    reveal(coalesced);
    reveal(paddings_ok);
    let s = o.chunks();
    let g = o.granularity_spec();
    let cs = o.can_split();
    lemma_first_fit(s, 0, size as int, alignment as int, g as int, resource_type, cs);
    let i = first_fit(s, 0, size as int, alignment as int, g as int, resource_type, cs)->Some_0;
    let c = s[i];
    let off = placed_offset(s, i, alignment as int, g as int, resource_type);
    lemma_offset_in_chunk(s, i, alignment, g, resource_type);
    let t = n.chunks();
    let used = off + size - c.offset;
    assert(c.padding == 0);
    if i > 0 {
        assert(!(s[i - 1].resource_type == ResourceType::Free && s[i].resource_type == ResourceType::Free));
    }
    if i + 1 < s.len() {
        assert(!(s[i].resource_type == ResourceType::Free && s[i + 1].resource_type == ResourceType::Free));
    }
    assert(is_live(t, i, id));
    if used == c.size {
        assert(free_layout(t, i) =~= s);
    } else {
        assert(free_layout(t, i) =~= s);
    }
}

/// A request exactly the size of the chunk it lands in fills that chunk:
/// no split, and the chunk keeps its id.
pub proof fn lemma_exact_fit_reuses_chunk(
    o: SubAllocator,
    n: SubAllocator,
    size: u64,
    alignment: u64,
    resource_type: ResourceType,
    id: ChunkId,
    offset: u64,
    i: int,
)
    requires
        o.wf(),
        size > 0,
        is_pow2(alignment),
        resource_type != ResourceType::Free,
        first_fit(o.chunks(), 0, size as int, alignment as int, o.granularity_spec() as int, resource_type, o.can_split())
            == Some(i),
        o.chunks()[i].size == size,
        allocate_post(o, n, size as int, alignment as int, resource_type, Some((id, offset))),
    ensures
        id == o.chunks()[i].id,
        offset == o.chunks()[i].offset,
        n.chunks().len() == o.chunks().len(),
        n.chunks()[i].id == o.chunks()[i].id,
        n.chunks()[i].resource_type == resource_type,
{
    let s = o.chunks();
    lemma_first_fit(s, 0, size as int, alignment as int, o.granularity_spec() as int, resource_type, o.can_split());
    lemma_offset_in_chunk(s, i, alignment, o.granularity_spec(), resource_type);
}

/// A chunk smaller than the request never takes it.
proof fn lemma_small_chunk_never_fits(
    s: Seq<MemoryChunk>,
    i: int,
    size: u64,
    alignment: u64,
    granularity: u64,
    resource_type: ResourceType,
    can_split: bool,
)
    requires
        0 <= i < s.len(),
        is_pow2(alignment),
        is_pow2(granularity),
        s[i].size < size,
    ensures
        !fits(s, i, size as int, alignment as int, granularity as int, resource_type, can_split),
{
    lemma_offset_in_chunk(s, i, alignment, granularity, resource_type);
}

/// When every free chunk of every block of a region is smaller than the
/// request, no block takes it: the region has to open a new block.
pub proof fn lemma_larger_than_free_needs_block(o: MemoryRegion, size: u64, alignment: u64, resource_type: ResourceType)
    requires
        o.wf(),
        is_pow2(alignment),
        forall|k: int, i: int|
            #![trigger o.slots()[k]->Some_0.sub().chunks()[i]]
            0 <= k < o.slots().len() && o.slots()[k] is Some && 0 <= i < o.slots()[k]->Some_0.sub().chunks().len()
                && o.slots()[k]->Some_0.sub().chunks()[i].resource_type == ResourceType::Free ==> o.slots()[k]->Some_0.sub().chunks()[i].size
                < size,
    ensures
        first_block(o.slots(), 0, size as int, alignment as int, resource_type) is None,
{
    assert forall|k: int| 0 <= k < o.slots().len() implies !block_takes(o.slots()[k], size as int, alignment as int, resource_type) by {
        if o.slots()[k] is Some {
            let b = o.slots()[k]->Some_0.sub();
            lemma_first_fit(b.chunks(), 0, size as int, alignment as int, b.granularity_spec() as int, resource_type, b.can_split());
            if first_fit(b.chunks(), 0, size as int, alignment as int, b.granularity_spec() as int, resource_type, b.can_split()) is Some {
                let i = first_fit(b.chunks(), 0, size as int, alignment as int, b.granularity_spec() as int, resource_type, b.can_split())->Some_0;
                lemma_small_chunk_never_fits(b.chunks(), i, size, alignment, b.granularity_spec(), resource_type, b.can_split());
            }
        }
    }
    lemma_no_block_takes(o.slots(), 0, size as int, alignment as int, resource_type);
}

proof fn lemma_no_block_takes(
    slots: Seq<Option<crate::memory::MemoryBlock>>,
    j: int,
    size: int,
    alignment: int,
    resource_type: ResourceType,
)
    requires
        0 <= j,
        forall|k: int| 0 <= k < slots.len() ==> !block_takes(slots[k], size, alignment, resource_type),
    ensures
        first_block(slots, j, size, alignment, resource_type) is None,
    decreases slots.len() - j,
{
    if j < slots.len() {
        lemma_no_block_takes(slots, j + 1, size, alignment, resource_type);
    }
}

/// A request placed next to a chunk of the conflicting class whose last
/// page its aligned start would share starts on the next page boundary,
/// clear of that page.
pub proof fn lemma_conflicting_neighbour_next_page(
    s: Seq<MemoryChunk>,
    i: int,
    alignment: u64,
    granularity: u64,
    resource_type: ResourceType,
)
    requires
        0 < i < s.len(),
        is_pow2(alignment),
        is_pow2(granularity),
        chunk_end(s[i - 1]) == s[i].offset,
        s[i - 1].size > 0,
        conflict_spec(s[i - 1].resource_type, resource_type),
        same_page_spec(
            s[i - 1].offset as int,
            s[i - 1].size as int,
            crate::align::align_up_spec(s[i].offset as int, alignment as int),
            granularity as int,
        ),
    ensures
        placed_offset(s, i, alignment as int, granularity as int, resource_type) % (granularity as int) == 0,
        placed_offset(s, i, alignment as int, granularity as int, resource_type) % (alignment as int) == 0,
        !same_page_spec(
            s[i - 1].offset as int,
            s[i - 1].size as int,
            placed_offset(s, i, alignment as int, granularity as int, resource_type),
            granularity as int,
        ),
{
    lemma_pow2_positive(granularity);
    lemma_align_up(crate::align::align_up_spec(s[i].offset as int, alignment as int), granularity as int);
    crate::suballocator::lemma_placed(s, i, alignment, granularity, resource_type);
}

/// A block opened for a request is released again when that request is
/// freed: its slot is empty and its native memory handle comes back, so
/// allocating and freeing the same request leaves the region's block count
/// where it was.
pub proof fn lemma_new_block_released(
    o: MemoryRegion,
    n: MemoryRegion,
    f: MemoryRegion,
    memory: u64,
    size: u64,
    resource_type: ResourceType,
    a: crate::memory::Allocation,
    r: Result<Option<u64>, AllocError>,
)
    requires
        o.wf(),
        n.wf(),
        size > 0,
        resource_type != ResourceType::Free,
        region_new_block_post(o, n, memory, size as int, resource_type, a),
        region_free_post(n, f, a.block_index, a.chunk_id, r),
    ensures
        r == Ok::<Option<u64>, AllocError>(Some(memory)),
        f.slots()[a.block_index as int] is None,
        forall|j: int| 0 <= j < o.slots().len() && j != a.block_index ==> f.slots()[j] == o.slots()[j],
{
    let k = a.block_index as int;
    crate::memory::lemma_first_empty(o.slots(), 0);
    assert(k < n.slots().len());
    let nb = n.slots()[k]->Some_0;
    let t = nb.sub().chunks();
    assert(is_live(t, 0, a.chunk_id));
    assert(t[0].size == size);
    assert(nb.sub().allocated_spec() - t[0].size == 0);
}

} // verus!
