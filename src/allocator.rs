//! The allocator's façade: picks the region of the memory type that suits a
//! request and hands the request to it.

use crate::align::is_pow2;
use crate::memory::{
    new_block_size_spec, region_allocate_post, region_free_post, region_new_block_post, AllocError, Allocation,
    MemoryRegion,
};
use crate::suballocator::ResourceType;
use vstd::prelude::*;

verus! {

/// Property flag of memory local to the device.
pub const DEVICE_LOCAL: u32 = 1;

/// Property flag of memory the host can map.
pub const HOST_VISIBLE: u32 = 2;

/// Property flag of host memory that needs no explicit flush.
pub const HOST_COHERENT: u32 = 4;

/// Size of the blocks the allocator opens, unless a request needs more:
/// 256 MiB.
pub const DEFAULT_BLOCK_SIZE: u64 = 268435456;

/// Where a resource lives.
#[derive(Clone, Copy, Debug, PartialEq, Eq, Structural)]
pub enum MemoryLocation {
    /// Used by the device only.
    Device,
    /// Written by the host and read by the device.
    Shared,
}

/// What a resource asks of its memory: its size, its alignment, and the
/// memory types it may live in, one bit per type index.
#[derive(Clone, Copy, Debug, PartialEq, Eq, Structural)]
pub struct MemoryRequirements {
    pub size: u64,
    pub alignment: u64,
    pub memory_type_bits: u32,
}

/// The outcome of a request: placed, or waiting for a new block of native
/// memory of `size` bytes from memory type `memory_type`.
#[derive(Clone, Copy, Debug, PartialEq, Eq, Structural)]
pub enum AllocationStep {
    Done(Allocation),
    NeedsBlock { memory_type: usize, size: u64 },
}

/// Property flags a location asks for: device-local memory, which the host
/// can also see when it writes the resource.
pub open spec fn location_flags(location: MemoryLocation) -> u32 {
    match location {
        MemoryLocation::Device => DEVICE_LOCAL,
        MemoryLocation::Shared => DEVICE_LOCAL | HOST_VISIBLE,
    }
}

/// Whether bit `k` of a resource's memory-type bits is set.
pub open spec fn type_allowed(type_bits: u32, k: int) -> bool {
    0 <= k < 32 && (type_bits >> (k as u32)) & 1u32 == 1u32
}

/// Whether `flags` has every flag of `wanted`.
pub open spec fn has_flags(flags: u32, wanted: u32) -> bool {
    flags & wanted == wanted
}

/// Whether memory type `k`, with property flags `types[k]`, suits the request.
pub open spec fn suitable(types: Seq<u32>, k: int, type_bits: u32, wanted: u32) -> bool {
    0 <= k < types.len() && type_allowed(type_bits, k) && has_flags(types[k], wanted)
}

/// The first memory type that suits the request.
pub open spec fn first_suitable(types: Seq<u32>, type_bits: u32, wanted: u32) -> Option<int> {
    if exists|k: int| suitable(types, k, type_bits, wanted) {
        Some(choose|k: int| suitable(types, k, type_bits, wanted) && forall|j: int| 0 <= j < k ==> !suitable(types, j, type_bits, wanted))
    } else {
        None
    }
}

/// The property flags a location asks for.
pub fn required_properties(location: MemoryLocation) -> (r: u32)
    ensures
        r == location_flags(location),
{
    match location {
        MemoryLocation::Device => DEVICE_LOCAL,
        MemoryLocation::Shared => DEVICE_LOCAL | HOST_VISIBLE,
    }
}

/// The device's memory, one region per memory type.
pub struct Allocator {
    regions: Vec<MemoryRegion>,
    granularity: u64,
}

impl Allocator {
    /// The regions, by memory type index.
    pub closed spec fn regions(&self) -> Seq<MemoryRegion> {
        self.regions@
    }

    /// Property flags of each memory type, by index.
    pub open spec fn types(&self) -> Seq<u32> {
        Seq::new(self.regions().len(), |k: int| self.regions()[k].properties_spec())
    }

    /// Page size that linear and non-linear resources may not share.
    pub closed spec fn granularity_spec(&self) -> u64 {
        self.granularity
    }

    /// Region `k` serves memory type `k`, and every region is well formed
    /// with the allocator's granularity.
    pub open spec fn wf(&self) -> bool {
        &&& is_pow2(self.granularity_spec())
        &&& forall|k: int|
            0 <= k < self.regions().len() ==> (#[trigger] self.regions()[k]).wf() && self.regions()[k].memory_type_spec()
                == k && self.regions()[k].granularity_spec() == self.granularity_spec()
    }

    /// An allocator over memory types with property flags `memory_types`,
    /// by index, that keeps resources of conflicting classes `granularity`
    /// bytes apart and opens blocks of `block_size` bytes.
    pub fn new(memory_types: &Vec<u32>, granularity: u64, block_size: u64) -> (r: Self)
        requires
            is_pow2(granularity),
            block_size > 0,
        ensures
            r.wf(),
            r.types() == memory_types@,
            r.granularity_spec() == granularity,
            forall|k: int|
                0 <= k < r.regions().len() ==> (#[trigger] r.regions()[k]).slots().len() == 0
                    && r.regions()[k].block_size_spec() == block_size,
    {
        let mut regions: Vec<MemoryRegion> = Vec::new();
        let mut k: usize = 0;
        while k < memory_types.len()
            invariant
                is_pow2(granularity),
                block_size > 0,
                k <= memory_types@.len(),
                regions@.len() == k,
                forall|j: int|
                    0 <= j < k ==> (#[trigger] regions@[j]).wf() && regions@[j].memory_type_spec() == j
                        && regions@[j].granularity_spec() == granularity && regions@[j].properties_spec()
                        == memory_types@[j] && regions@[j].slots().len() == 0 && regions@[j].block_size_spec()
                        == block_size,
            decreases memory_types@.len() - k,
        {
            regions.push(MemoryRegion::new(memory_types[k], k, granularity, block_size));
            k += 1;
        }
        let r = Allocator { regions, granularity };
        proof {
            assert(r.types() =~= memory_types@);
        }
        r
    }

    /// The regions, by memory type index.
    pub fn region_list(&self) -> (r: &Vec<MemoryRegion>)
        ensures
            r@ == self.regions(),
    {
        &self.regions
    }

    /// The first memory type allowed by `type_bits` whose flags include
    /// `properties`.
    pub fn find_memory_type(&self, type_bits: u32, properties: u32) -> (r: Option<usize>)
        ensures
            r matches Some(k) ==> first_suitable(self.types(), type_bits, properties) == Some(k as int),
            r is None ==> first_suitable(self.types(), type_bits, properties) is None,
    {
        let mut k: usize = 0;
        while k < self.regions.len()
            invariant
                k <= self.regions().len(),
                forall|j: int| 0 <= j < k ==> !suitable(self.types(), j, type_bits, properties),
            decreases self.regions().len() - k,
        {
            let allowed = k < 32 && (type_bits >> (k as u32)) & 1u32 == 1u32;
            let flags = self.regions[k].properties();
            if allowed && flags & properties == properties {
                proof {
                    assert(suitable(self.types(), k as int, type_bits, properties));
                    let c = choose|c: int| suitable(self.types(), c, type_bits, properties) && forall|j: int| 0 <= j < c ==> !suitable(self.types(), j, type_bits, properties);
                    assert(c == k);
                }
                return Some(k);
            }
            k += 1;
        }
        None
    }

    /// Places a resource with `requirements` in the memory type that suits
    /// it and `location`. `NeedsBlock` when no block of that type can take
    /// it: the caller then allocates native memory of the given size and
    /// type and hands it to `allocate_from_new_block`.
    pub fn allocate(
        &mut self,
        requirements: MemoryRequirements,
        location: MemoryLocation,
        resource_type: ResourceType,
    ) -> (r: Result<AllocationStep, AllocError>)
        requires
            old(self).wf(),
            requirements.size > 0,
            is_pow2(requirements.alignment),
            resource_type != ResourceType::Free,
        ensures
            final(self).wf(),
            final(self).types() == old(self).types(),
            final(self).regions().len() == old(self).regions().len(),
            match first_suitable(old(self).types(), requirements.memory_type_bits, location_flags(location)) {
                None => r == Err::<AllocationStep, AllocError>(AllocError::NoSuitableMemoryType) && final(self).regions()
                    == old(self).regions(),
                Some(k) => {
                    &&& forall|j: int| 0 <= j < old(self).regions().len() && j != k ==> final(self).regions()[j] == old(self).regions()[j]
                    &&& match r {
                        Ok(AllocationStep::Done(a)) => region_allocate_post(
                            old(self).regions()[k],
                            final(self).regions()[k],
                            requirements.size as int,
                            requirements.alignment as int,
                            resource_type,
                            Some(a),
                        ),
                        Ok(AllocationStep::NeedsBlock { memory_type, size }) => {
                            &&& region_allocate_post(
                                old(self).regions()[k],
                                final(self).regions()[k],
                                requirements.size as int,
                                requirements.alignment as int,
                                resource_type,
                                None,
                            )
                            &&& memory_type == k
                            &&& size == new_block_size_spec(
                                old(self).regions()[k].block_size_spec() as int,
                                requirements.size as int,
                            )
                        },
                        Err(_) => false,
                    }
                },
            },
            r matches Ok(AllocationStep::Done(a)) ==> a.offset % requirements.alignment == 0,
    {
        let properties = required_properties(location);
        let k = match self.find_memory_type(requirements.memory_type_bits, properties) {
            Some(k) => k,
            None => return Err(AllocError::NoSuitableMemoryType),
        };
        let ghost before = self.regions();
        let mut region = self.regions.remove(k);
        proof {
            assert(region == before[k as int]);
            assert(region.wf());
        }
        let result = region.allocate(requirements.size, requirements.alignment, resource_type);
        let size = region.new_block_size(requirements.size);
        self.regions.insert(k, region);
        proof {
            assert(self.regions() =~= before.update(k as int, region));
            assert(self.types() =~= old(self).types());
        }
        match result {
            Some(a) => Ok(AllocationStep::Done(a)),
            None => Ok(AllocationStep::NeedsBlock { memory_type: k, size }),
        }
    }

    /// Takes native memory `memory`, allocated from memory type
    /// `memory_type` with the size that `NeedsBlock` gave, as a new block of
    /// that type and places the resource at its start.
    pub fn allocate_from_new_block(
        &mut self,
        memory_type: usize,
        memory: u64,
        requirements: MemoryRequirements,
        resource_type: ResourceType,
    ) -> (r: Allocation)
        requires
            old(self).wf(),
            memory_type < old(self).regions().len(),
            requirements.size > 0,
            is_pow2(requirements.alignment),
            resource_type != ResourceType::Free,
        ensures
            final(self).wf(),
            final(self).types() == old(self).types(),
            final(self).regions().len() == old(self).regions().len(),
            forall|j: int| 0 <= j < old(self).regions().len() && j != memory_type ==> final(self).regions()[j] == old(self).regions()[j],
            region_new_block_post(
                old(self).regions()[memory_type as int],
                final(self).regions()[memory_type as int],
                memory,
                requirements.size as int,
                resource_type,
                r,
            ),
    {
        let ghost before = self.regions();
        let mut region = self.regions.remove(memory_type);
        proof {
            assert(region == before[memory_type as int]);
        }
        let a = region.allocate_from_new_block(memory, requirements.size, requirements.alignment, resource_type);
        self.regions.insert(memory_type, region);
        proof {
            assert(self.regions() =~= before.update(memory_type as int, region));
            assert(self.types() =~= old(self).types());
        }
        a
    }

    /// Frees an allocation. When that empties its block, the block's native
    /// memory handle is returned for release.
    pub fn free(&mut self, allocation: &Allocation) -> (r: Result<Option<u64>, AllocError>)
        requires
            old(self).wf(),
        ensures
            final(self).wf(),
            final(self).types() == old(self).types(),
            final(self).regions().len() == old(self).regions().len(),
            allocation.memory_type >= old(self).regions().len() ==> r == Err::<Option<u64>, AllocError>(
                AllocError::InvalidFree,
            ) && final(self).regions() == old(self).regions(),
            allocation.memory_type < old(self).regions().len() ==> {
                &&& forall|j: int|
                    0 <= j < old(self).regions().len() && j != allocation.memory_type ==> final(self).regions()[j]
                        == old(self).regions()[j]
                &&& region_free_post(
                    old(self).regions()[allocation.memory_type as int],
                    final(self).regions()[allocation.memory_type as int],
                    allocation.block_index,
                    allocation.chunk_id,
                    r,
                )
            },
    {
        let k = allocation.memory_type;
        if k >= self.regions.len() {
            return Err(AllocError::InvalidFree);
        }
        let ghost before = self.regions();
        let mut region = self.regions.remove(k);
        proof {
            assert(region == before[k as int]);
        }
        let result = region.free(allocation.block_index, allocation.chunk_id);
        self.regions.insert(k, region);
        proof {
            assert(self.regions() =~= before.update(k as int, region));
            assert(self.types() =~= old(self).types());
        }
        result
    }
}

} // verus!
