//! Memory blocks and the regions that own them: one region per native
//! memory type, each holding the blocks allocated from that type.

use crate::align::{is_pow2, lemma_align_up, lemma_pow2_positive};
use crate::suballocator::{
    allocate_post, first_fit, fits, free_layout, is_live, placed_offset,
    split_layout, ChunkId, MemoryChunk, ResourceType, SubAllocator,
};
use vstd::prelude::*;

verus! {

/// Errors that the allocator reports to its caller.
#[derive(Clone, Copy, Debug, PartialEq, Eq, Structural)]
pub enum AllocError {
    /// No memory type of the device has the requested properties and is
    /// allowed by the resource.
    NoSuitableMemoryType,
    /// The freed identity names no occupied chunk.
    InvalidFree,
}

/// A placed resource: the native memory it lives in, its offset there, and
/// the identity that frees it.
#[derive(Clone, Copy, Debug, PartialEq, Eq, Structural)]
pub struct Allocation {
    /// Handle of the native memory allocation of the block.
    pub memory: u64,
    /// Offset of the resource within the block.
    pub offset: u64,
    /// Id of the chunk that holds the resource.
    pub chunk_id: ChunkId,
    /// Index of the block within its region.
    pub block_index: usize,
    /// Index of the memory type the block was allocated from.
    pub memory_type: usize,
}

/// One native memory allocation and the chunks it is split into.
pub struct MemoryBlock {
    memory: u64,
    suballocator: SubAllocator,
}

impl MemoryBlock {
    /// Handle of the native memory allocation.
    pub closed spec fn memory_spec(&self) -> u64 {
        self.memory
    }

    /// The block's chunk bookkeeping.
    pub closed spec fn sub(&self) -> SubAllocator {
        self.suballocator
    }

    /// A block over native memory `memory` of `size` bytes, all free.
    pub fn new(memory: u64, size: u64, granularity: u64) -> (r: Self)
        requires
            size > 0,
            is_pow2(granularity),
        ensures
            r.memory_spec() == memory,
            r.sub().wf(),
            r.sub().size_spec() == size,
            r.sub().granularity_spec() == granularity,
            r.sub().allocated_spec() == 0,
            r.sub().next_id() == 2,
            r.sub().chunks() == seq![
                MemoryChunk { id: 1, size, offset: 0, padding: 0, resource_type: ResourceType::Free },
            ],
    {
        MemoryBlock { memory, suballocator: SubAllocator::new(size, granularity) }
    }

    /// Handle of the native memory allocation.
    pub fn memory(&self) -> (r: u64)
        ensures
            r == self.memory_spec(),
    {
        self.memory
    }

    /// The chunk with id `chunk_id`, if there is one.
    pub fn get_chunk(&self, chunk_id: ChunkId) -> (r: Option<MemoryChunk>)
        ensures
            r matches Some(c) ==> c.id == chunk_id && exists|i: int|
                0 <= i < self.sub().chunks().len() && self.sub().chunks()[i] == c,
            r is None ==> forall|i: int| 0 <= i < self.sub().chunks().len() ==> self.sub().chunks()[i].id != chunk_id,
    {
        self.suballocator.get_chunk(chunk_id)
    }

    /// The block's chunk bookkeeping.
    pub fn suballocator(&self) -> (r: &SubAllocator)
        ensures
            *r == self.sub(),
    {
        &self.suballocator
    }
}

/// Whether the block in `slot` can take the request.
pub open spec fn block_takes(slot: Option<MemoryBlock>, size: int, alignment: int, resource_type: ResourceType) -> bool {
    match slot {
        Some(b) => first_fit(
            b.sub().chunks(),
            0,
            size,
            alignment,
            b.sub().granularity_spec() as int,
            resource_type,
            b.sub().can_split(),
        ) is Some,
        None => false,
    }
}

/// The first block from slot `j` on that can take the request.
pub open spec fn first_block(
    slots: Seq<Option<MemoryBlock>>,
    j: int,
    size: int,
    alignment: int,
    resource_type: ResourceType,
) -> Option<int>
    decreases slots.len() - j,
{
    if j < 0 || j >= slots.len() {
        None
    } else if block_takes(slots[j], size, alignment, resource_type) {
        Some(j)
    } else {
        first_block(slots, j + 1, size, alignment, resource_type)
    }
}

/// The first empty slot from `j` on, or the number of slots if none is.
pub open spec fn first_empty(slots: Seq<Option<MemoryBlock>>, j: int) -> int
    decreases slots.len() - j,
{
    if j < 0 || j >= slots.len() {
        slots.len() as int
    } else if slots[j] is None {
        j
    } else {
        first_empty(slots, j + 1)
    }
}

/// The size of a block opened for a request of `size` bytes.
pub open spec fn new_block_size_spec(block_size: int, size: int) -> int {
    if size > block_size {
        size
    } else {
        block_size
    }
}

proof fn lemma_first_block(
    slots: Seq<Option<MemoryBlock>>,
    j: int,
    size: int,
    alignment: int,
    resource_type: ResourceType,
)
    requires
        0 <= j,
    ensures
        match first_block(slots, j, size, alignment, resource_type) {
            Some(k) => j <= k < slots.len() && block_takes(slots[k], size, alignment, resource_type),
            None => forall|k: int| j <= k < slots.len() ==> !block_takes(slots[k], size, alignment, resource_type),
        },
    decreases slots.len() - j,
{
    if j < slots.len() && !block_takes(slots[j], size, alignment, resource_type) {
        lemma_first_block(slots, j + 1, size, alignment, resource_type);
    }
}

/// The first empty slot is an empty slot, or one past the last.
pub proof fn lemma_first_empty(slots: Seq<Option<MemoryBlock>>, j: int)
    requires
        0 <= j <= slots.len(),
    ensures
        j <= first_empty(slots, j) <= slots.len(),
        first_empty(slots, j) < slots.len() ==> slots[first_empty(slots, j)] is None,
    decreases slots.len() - j,
{
    if j < slots.len() && slots[j] is Some {
        lemma_first_empty(slots, j + 1);
    }
}

/// What `MemoryRegion::allocate` does, from the region before (`o`) to the
/// region after (`n`) and its result `r`.
pub open spec fn region_allocate_post(
    o: MemoryRegion,
    n: MemoryRegion,
    size: int,
    alignment: int,
    resource_type: ResourceType,
    r: Option<Allocation>,
) -> bool {
    match first_block(o.slots(), 0, size, alignment, resource_type) {
        None => r is None && n.slots() == o.slots(),
        Some(k) => {
            &&& r matches Some(a)
            &&& a.block_index == k
            &&& a.memory_type == o.memory_type_spec()
            &&& n.slots().len() == o.slots().len()
            &&& forall|j: int| 0 <= j < o.slots().len() && j != k ==> n.slots()[j] == o.slots()[j]
            &&& n.slots()[k] matches Some(nb)
            &&& o.slots()[k] matches Some(ob)
            &&& nb.memory_spec() == ob.memory_spec()
            &&& a.memory == ob.memory_spec()
            &&& nb.sub().size_spec() == ob.sub().size_spec()
            &&& allocate_post(ob.sub(), nb.sub(), size, alignment, resource_type, Some((a.chunk_id, a.offset)))
        },
    }
}

/// What `MemoryRegion::allocate_from_new_block` does, from the region
/// before (`o`) to the region after (`n`) and its result `r`.
pub open spec fn region_new_block_post(
    o: MemoryRegion,
    n: MemoryRegion,
    memory: u64,
    size: int,
    resource_type: ResourceType,
    r: Allocation,
) -> bool {
    let bs = new_block_size_spec(o.block_size_spec() as int, size);
    let fresh = MemoryChunk { id: 1, size: bs as u64, offset: 0, padding: 0, resource_type: ResourceType::Free };
    &&& r.memory == memory
    &&& r.offset == 0
    &&& r.memory_type == o.memory_type_spec()
    &&& r.block_index == first_empty(o.slots(), 0)
    &&& r.chunk_id == if size == bs { 1u64 } else { 2u64 }
    &&& n.slots().len() == if r.block_index < o.slots().len() {
        o.slots().len() as int
    } else {
        o.slots().len() + 1int
    }
    &&& forall|j: int| 0 <= j < o.slots().len() && j != r.block_index ==> n.slots()[j] == o.slots()[j]
    &&& n.slots()[r.block_index as int] is Some
    &&& n.slots()[r.block_index as int]->Some_0.memory_spec() == memory
    &&& n.slots()[r.block_index as int]->Some_0.sub().size_spec() == bs
    &&& n.slots()[r.block_index as int]->Some_0.sub().allocated_spec() == size
    &&& n.slots()[r.block_index as int]->Some_0.sub().chunks() == split_layout(seq![fresh], 0, 0, size, resource_type, 2)
}

/// What `MemoryRegion::free` does, from the region before (`o`) to the
/// region after (`n`) and its result `r`.
pub open spec fn region_free_post(
    o: MemoryRegion,
    n: MemoryRegion,
    block_index: usize,
    chunk_id: ChunkId,
    r: Result<Option<u64>, AllocError>,
) -> bool {
    let live = block_index < o.slots().len() && o.slots()[block_index as int] is Some && exists|i: int|
        is_live(o.slots()[block_index as int]->Some_0.sub().chunks(), i, chunk_id);
    &&& r is Err <==> !live
    &&& r is Err ==> r == Err::<Option<u64>, AllocError>(AllocError::InvalidFree) && n.slots() == o.slots()
    &&& block_index < o.slots().len() && o.slots()[block_index as int] is Some ==> ({
            let ob = o.slots()[block_index as int]->Some_0;
            forall|i: int|
                #[trigger] is_live(ob.sub().chunks(), i, chunk_id) ==> {
                    let new_allocated = ob.sub().allocated_spec() - ob.sub().chunks()[i].size;
                    &&& forall|j: int|
                        0 <= j < o.slots().len() && j != block_index ==> n.slots()[j] == o.slots()[j]
                    &&& new_allocated == 0 ==> (r == Ok::<Option<u64>, AllocError>(Some(ob.memory_spec()))
                        && n.slots()[block_index as int] is None)
                    &&& new_allocated != 0 ==> (r == Ok::<Option<u64>, AllocError>(None) && n.slots()[block_index as int] is Some && ({
                        let nb = n.slots()[block_index as int]->Some_0;
                        &&& nb.memory_spec() == ob.memory_spec()
                        &&& nb.sub().size_spec() == ob.sub().size_spec()
                        &&& nb.sub().chunks() == free_layout(ob.sub().chunks(), i)
                        &&& nb.sub().allocated_spec() == new_allocated
                    }))
                }
        })
}

/// All blocks allocated from one native memory type, by slot. A slot
/// keeps its index for the block's lifetime and is empty once the block
/// is released.
pub struct MemoryRegion {
    blocks: Vec<Option<MemoryBlock>>,
    properties: u32,
    memory_type: usize,
    granularity: u64,
    block_size: u64,
}

impl MemoryRegion {
    /// The blocks, by slot.
    pub closed spec fn slots(&self) -> Seq<Option<MemoryBlock>> {
        self.blocks@
    }

    /// Page size that linear and non-linear resources may not share.
    pub closed spec fn granularity_spec(&self) -> u64 {
        self.granularity
    }

    /// Property flags of the region's memory type.
    pub closed spec fn properties_spec(&self) -> u32 {
        self.properties
    }

    /// Index of the region's memory type.
    pub closed spec fn memory_type_spec(&self) -> usize {
        self.memory_type
    }

    /// Size of a newly opened block, unless a request needs more.
    pub closed spec fn block_size_spec(&self) -> u64 {
        self.block_size
    }

    /// Every block of the region is well formed and uses the region's
    /// granularity.
    pub open spec fn wf(&self) -> bool {
        &&& is_pow2(self.granularity_spec())
        &&& self.block_size_spec() > 0
        &&& forall|k: int|
            0 <= k < self.slots().len() && (#[trigger] self.slots()[k]) is Some ==> self.slots()[k]->Some_0.sub().wf()
                && self.slots()[k]->Some_0.sub().granularity_spec() == self.granularity_spec()
    }

    /// An empty region for memory type `memory_type`.
    pub fn new(properties: u32, memory_type: usize, granularity: u64, block_size: u64) -> (r: Self)
        requires
            is_pow2(granularity),
            block_size > 0,
        ensures
            r.wf(),
            r.slots().len() == 0,
            r.properties_spec() == properties,
            r.memory_type_spec() == memory_type,
            r.granularity_spec() == granularity,
            r.block_size_spec() == block_size,
    {
        MemoryRegion { blocks: Vec::new(), properties, memory_type, granularity, block_size }
    }

    /// Property flags of the region's memory type.
    pub fn properties(&self) -> (r: u32)
        ensures
            r == self.properties_spec(),
    {
        self.properties
    }

    /// Index of the region's memory type.
    pub fn memory_type(&self) -> (r: usize)
        ensures
            r == self.memory_type_spec(),
    {
        self.memory_type
    }

    /// The blocks, by slot.
    pub fn blocks(&self) -> (r: &Vec<Option<MemoryBlock>>)
        ensures
            r@ == self.slots(),
    {
        &self.blocks
    }

    /// Number of live blocks.
    pub fn block_count(&self) -> (r: usize)
        ensures
            r == self.slots().filter(|b: Option<MemoryBlock>| b is Some).len(),
    {
        let mut n: usize = 0;
        let mut k: usize = 0;
        while k < self.blocks.len()
            invariant
                k <= self.slots().len(),
                n == self.slots().subrange(0, k as int).filter(|b: Option<MemoryBlock>| b is Some).len(),
                n <= k,
            decreases self.slots().len() - k,
        {
            proof {
                let pre = self.slots().subrange(0, k as int);
                assert(self.slots().subrange(0, k + 1) =~= pre.push(self.slots()[k as int]));
                pre.lemma_filter_push(self.slots()[k as int], |b: Option<MemoryBlock>| b is Some);
            }
            if self.blocks[k].is_some() {
                n += 1;
            }
            k += 1;
        }
        proof {
            assert(self.slots().subrange(0, k as int) =~= self.slots());
        }
        n
    }

    /// Places the request in the first block, by slot, that can take it.
    /// `None`, with nothing changed, when no block can: the caller then
    /// opens a new block with `allocate_from_new_block`.
    pub fn allocate(&mut self, size: u64, alignment: u64, resource_type: ResourceType) -> (r: Option<Allocation>)
        requires
            old(self).wf(),
            size > 0,
            is_pow2(alignment),
            resource_type != ResourceType::Free,
        ensures
            final(self).wf(),
            final(self).properties_spec() == old(self).properties_spec(),
            final(self).memory_type_spec() == old(self).memory_type_spec(),
            final(self).granularity_spec() == old(self).granularity_spec(),
            final(self).block_size_spec() == old(self).block_size_spec(),
            region_allocate_post(*old(self), *final(self), size as int, alignment as int, resource_type, r),
            r matches Some(a) ==> a.offset % alignment == 0,
    {
        let mut k: usize = 0;
        while k < self.blocks.len()
            invariant
                self.wf(),
                *self == *old(self),
                size > 0,
                is_pow2(alignment),
                resource_type != ResourceType::Free,
                k <= self.slots().len(),
                first_block(self.slots(), 0, size as int, alignment as int, resource_type) == first_block(
                    self.slots(),
                    k as int,
                    size as int,
                    alignment as int,
                    resource_type,
                ),
            decreases self.slots().len() - k,
        {
            let takes = match &self.blocks[k] {
                Some(b) => b.suballocator.fits_request(size, alignment, resource_type),
                None => false,
            };
            if takes {
                let ghost before = self.slots();
                let slot = self.blocks.remove(k);
                let mut block = match slot {
                    Some(b) => b,
                    None => {
                        return None;
                    },
                };
                let result = block.suballocator.allocate(size, alignment, resource_type);
                let memory = block.memory;
                self.blocks.insert(k, Some(block));
                proof {
                    assert(self.slots() =~= before.update(k as int, Some(block)));
                }
                match result {
                    Some((chunk_id, offset)) => {
                        return Some(Allocation { memory, offset, chunk_id, block_index: k, memory_type: self.memory_type });
                    },
                    None => {
                        return None;
                    },
                }
            }
            k += 1;
        }
        None
    }

    /// Takes native memory `memory` of `new_block_size(size)` bytes as a new
    /// block, in the first empty slot or a new one, and places the request
    /// at its start.
    pub fn allocate_from_new_block(
        &mut self,
        memory: u64,
        size: u64,
        alignment: u64,
        resource_type: ResourceType,
    ) -> (r: Allocation)
        requires
            old(self).wf(),
            size > 0,
            is_pow2(alignment),
            resource_type != ResourceType::Free,
        ensures
            final(self).wf(),
            final(self).properties_spec() == old(self).properties_spec(),
            final(self).memory_type_spec() == old(self).memory_type_spec(),
            final(self).granularity_spec() == old(self).granularity_spec(),
            final(self).block_size_spec() == old(self).block_size_spec(),
            region_new_block_post(*old(self), *final(self), memory, size as int, resource_type, r),
    {
        let block_size = self.new_block_size(size);
        let mut block = MemoryBlock::new(memory, block_size, self.granularity);
        let ghost s0 = block.sub().chunks();
        proof {
            lemma_pow2_positive(alignment);
            lemma_align_up(0, alignment as int);
            assert(placed_offset(s0, 0, alignment as int, self.granularity as int, resource_type) == 0);
            assert(fits(s0, 0, size as int, alignment as int, self.granularity as int, resource_type, true));
            assert(first_fit(s0, 0, size as int, alignment as int, self.granularity as int, resource_type, true) == Some(0int));
        }
        let result = block.suballocator.allocate(size, alignment, resource_type);
        let (chunk_id, offset) = match result {
            Some(found) => found,
            None => (0, 0),
        };
        let mut k: usize = 0;
        while k < self.blocks.len() && self.blocks[k].is_some()
            invariant
                *self == *old(self),
                k <= self.slots().len(),
                first_empty(self.slots(), 0) == first_empty(self.slots(), k as int),
            decreases self.slots().len() - k,
        {
            k += 1;
        }
        proof {
            lemma_first_empty(self.slots(), k as int);
        }
        if k < self.blocks.len() {
            self.blocks.set(k, Some(block));
        } else {
            self.blocks.push(Some(block));
        }
        Allocation { memory, offset, chunk_id, block_index: k, memory_type: self.memory_type }
    }

    /// Frees chunk `chunk_id` of the block in slot `block_index`. When that
    /// leaves the block empty, the block is removed from its slot and its
    /// native memory handle is returned for release.
    pub fn free(&mut self, block_index: usize, chunk_id: ChunkId) -> (r: Result<Option<u64>, AllocError>)
        requires
            old(self).wf(),
        ensures
            final(self).wf(),
            final(self).properties_spec() == old(self).properties_spec(),
            final(self).memory_type_spec() == old(self).memory_type_spec(),
            final(self).granularity_spec() == old(self).granularity_spec(),
            final(self).block_size_spec() == old(self).block_size_spec(),
            final(self).slots().len() == old(self).slots().len(),
            region_free_post(*old(self), *final(self), block_index, chunk_id, r),
    {
        if block_index >= self.blocks.len() {
            return Err(AllocError::InvalidFree);
        }
        let holds = match &self.blocks[block_index] {
            Some(b) => b.suballocator.holds(chunk_id),
            None => false,
        };
        if !holds {
            return Err(AllocError::InvalidFree);
        }
        let ghost before = self.slots();
        let slot = self.blocks.remove(block_index);
        let mut block = match slot {
            Some(b) => b,
            None => {
                return Err(AllocError::InvalidFree);
            },
        };
        let ghost ob = block;
        proof {
            assert(before[block_index as int] == Some(ob));
        }
        block.suballocator.free(chunk_id);
        let ghost nb = block;
        let empty = block.suballocator.is_empty();
        proof {
            assert forall|i: int| #[trigger] is_live(ob.sub().chunks(), i, chunk_id) implies nb.sub().chunks()
                == free_layout(ob.sub().chunks(), i) && nb.sub().allocated_spec() == ob.sub().allocated_spec()
                - ob.sub().chunks()[i].size && (empty <==> ob.sub().allocated_spec() - ob.sub().chunks()[i].size
                == 0) by {}
            assert(old(self).slots()[block_index as int]->Some_0 == ob);
        }
        if empty {
            let memory = block.memory;
            self.blocks.insert(block_index, None);
            proof {
                assert(self.slots() =~= before.update(block_index as int, None));
            }
            return Ok(Some(memory));
        }
        self.blocks.insert(block_index, Some(block));
        proof {
            assert(self.slots() =~= before.update(block_index as int, Some(nb)));
        }
        Ok(None)
    }

    /// The size of a block opened for a request of `size` bytes: the
    /// region's block size, or the request's size if that is larger.
    pub fn new_block_size(&self, size: u64) -> (r: u64)
        ensures
            r == new_block_size_spec(self.block_size_spec() as int, size as int),
    {
        if size > self.block_size {
            size
        } else {
            self.block_size
        }
    }
}

} // verus!
