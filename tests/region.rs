use caliban::allocator::{
    required_properties, AllocationStep, Allocator, MemoryLocation, MemoryRequirements, DEFAULT_BLOCK_SIZE,
    DEVICE_LOCAL, HOST_COHERENT, HOST_VISIBLE,
};
use caliban::memory::{AllocError, Allocation, MemoryRegion};
use caliban::suballocator::{MemoryChunk, ResourceType};

fn region_1024() -> MemoryRegion {
    MemoryRegion::new(DEVICE_LOCAL, 0, 256, 1024)
}

fn chunks_of(region: &MemoryRegion, k: usize) -> Vec<MemoryChunk> {
    region.blocks()[k].as_ref().unwrap().suballocator().chunk_list()
}

/// Allocates from the region, opening a block with handle `memory` when it
/// asks for one.
fn place(region: &mut MemoryRegion, memory: u64, size: u64, alignment: u64, class: ResourceType) -> Allocation {
    match region.allocate(size, alignment, class) {
        Some(a) => a,
        None => region.allocate_from_new_block(memory, size, alignment, class),
    }
}

#[test]
fn region_opens_block_lazily() {
    let mut region = region_1024();
    assert_eq!(region.block_count(), 0);
    assert_eq!(region.allocate(100, 16, ResourceType::Linear), None);
    assert_eq!(region.block_count(), 0);
    let a = region.allocate_from_new_block(7, 100, 16, ResourceType::Linear);
    assert_eq!(a, Allocation { memory: 7, offset: 0, chunk_id: 2, block_index: 0, memory_type: 0 });
    assert_eq!(region.block_count(), 1);
    let block = region.blocks()[0].as_ref().unwrap();
    assert_eq!(block.memory(), 7);
    assert_eq!(block.get_chunk(2).unwrap().size, 100);
    assert_eq!(block.get_chunk(1).unwrap().resource_type, ResourceType::Free);
    assert_eq!(block.get_chunk(5), None);
    let chunks = chunks_of(&region, 0);
    assert_eq!(chunks.len(), 2);
    assert_eq!((chunks[0].offset, chunks[0].size), (0, 100));
    assert_eq!((chunks[1].offset, chunks[1].size, chunks[1].resource_type), (100, 924, ResourceType::Free));
}

#[test]
fn region_second_request_pushed_to_page_boundary() {
    let mut region = region_1024();
    place(&mut region, 7, 100, 16, ResourceType::Linear);
    let b = region.allocate(50, 16, ResourceType::NonLinear).unwrap();
    assert_eq!(b.offset, 256);
    assert_eq!(b.memory, 7);
    assert_eq!(b.block_index, 0);
    assert_eq!(region.block_count(), 1);
}

#[test]
fn region_frees_both_and_releases_block() {
    let mut region = region_1024();
    let a = place(&mut region, 7, 100, 16, ResourceType::Linear);
    let b = place(&mut region, 8, 50, 16, ResourceType::NonLinear);
    assert_eq!(region.free(a.block_index, a.chunk_id), Ok(None));
    let chunks = chunks_of(&region, 0);
    assert_eq!(chunks[0].resource_type, ResourceType::Free);
    assert_eq!(region.free(b.block_index, b.chunk_id), Ok(Some(7)));
    assert_eq!(region.block_count(), 0);
    assert!(region.blocks()[0].is_none());
}

#[test]
fn region_large_request_opens_own_block() {
    let mut region = region_1024();
    place(&mut region, 7, 100, 16, ResourceType::Linear);
    let before = chunks_of(&region, 0);
    assert_eq!(region.allocate(2048, 16, ResourceType::Linear), None);
    assert_eq!(region.new_block_size(2048), 2048);
    let a = region.allocate_from_new_block(9, 2048, 16, ResourceType::Linear);
    assert_eq!(a.block_index, 1);
    assert_eq!(a.offset, 0);
    assert_eq!(a.memory, 9);
    assert_eq!(a.chunk_id, 1);
    assert_eq!(region.blocks()[1].as_ref().unwrap().suballocator().size(), 2048);
    assert_eq!(chunks_of(&region, 0), before);
    assert_eq!(region.block_count(), 2);
}

#[test]
fn region_one_byte_over_free_space_needs_block() {
    let mut region = region_1024();
    place(&mut region, 7, 100, 1, ResourceType::Linear);
    assert_eq!(region.allocate(925, 1, ResourceType::Linear), None);
    assert_eq!(region.new_block_size(925), 1024);
    assert!(region.allocate(924, 1, ResourceType::Linear).is_some());
}

#[test]
fn region_reuses_empty_slot() {
    let mut region = region_1024();
    let a = place(&mut region, 7, 1000, 1, ResourceType::Linear);
    let b = place(&mut region, 8, 1000, 1, ResourceType::Linear);
    assert_eq!(b.block_index, 1);
    assert_eq!(region.free(a.block_index, a.chunk_id), Ok(Some(7)));
    let c = place(&mut region, 9, 1000, 1, ResourceType::Linear);
    assert_eq!(c.block_index, 0);
    assert_eq!(c.memory, 9);
    assert_eq!(region.free(b.block_index, b.chunk_id), Ok(Some(8)));
}

#[test]
fn region_invalid_free() {
    let mut region = region_1024();
    assert_eq!(region.free(0, 1), Err(AllocError::InvalidFree));
    let a = place(&mut region, 7, 100, 1, ResourceType::Linear);
    assert_eq!(region.free(3, a.chunk_id), Err(AllocError::InvalidFree));
    assert_eq!(region.free(0, 1), Err(AllocError::InvalidFree));
    assert_eq!(region.free(0, a.chunk_id), Ok(Some(7)));
    assert_eq!(region.free(0, a.chunk_id), Err(AllocError::InvalidFree));
}

#[test]
fn repeated_cycles_keep_block_count_bounded() {
    let mut region = region_1024();
    let keep = place(&mut region, 1, 300, 16, ResourceType::NonLinear);
    let mut handle = 100u64;
    for i in 0..1000u64 {
        let size = 100 + (i % 7) * 50;
        handle += 1;
        let a = place(&mut region, handle, size, 16, ResourceType::Linear);
        assert!(region.block_count() <= 2);
        region.free(a.block_index, a.chunk_id).unwrap();
        assert_eq!(region.block_count(), 1);
    }
    assert_eq!(region.free(keep.block_index, keep.chunk_id), Ok(Some(1)));
}

fn requirements(size: u64, alignment: u64, bits: u32) -> MemoryRequirements {
    MemoryRequirements { size, alignment, memory_type_bits: bits }
}

#[test]
fn location_flags() {
    assert_eq!(required_properties(MemoryLocation::Device), DEVICE_LOCAL);
    assert_eq!(required_properties(MemoryLocation::Shared), DEVICE_LOCAL | HOST_VISIBLE);
}

#[test]
fn finds_first_suitable_memory_type() {
    let types = vec![HOST_VISIBLE | HOST_COHERENT, DEVICE_LOCAL, DEVICE_LOCAL | HOST_VISIBLE | HOST_COHERENT];
    let allocator = Allocator::new(&types, 256, DEFAULT_BLOCK_SIZE);
    assert_eq!(allocator.find_memory_type(0b111, DEVICE_LOCAL), Some(1));
    assert_eq!(allocator.find_memory_type(0b101, DEVICE_LOCAL), Some(2));
    assert_eq!(allocator.find_memory_type(0b111, DEVICE_LOCAL | HOST_VISIBLE), Some(2));
    assert_eq!(allocator.find_memory_type(0b011, DEVICE_LOCAL | HOST_VISIBLE), None);
    assert_eq!(allocator.find_memory_type(0, DEVICE_LOCAL), None);
}

#[test]
fn allocator_reports_missing_memory_type() {
    let types = vec![DEVICE_LOCAL, HOST_VISIBLE | HOST_COHERENT];
    let mut allocator = Allocator::new(&types, 256, 1024);
    let r = allocator.allocate(requirements(100, 16, 0b11), MemoryLocation::Shared, ResourceType::Linear);
    assert_eq!(r, Err(AllocError::NoSuitableMemoryType));
    for region in allocator.region_list() {
        assert_eq!(region.block_count(), 0);
    }
}

#[test]
fn allocator_two_step_allocation_and_free() {
    let types = vec![HOST_VISIBLE, DEVICE_LOCAL | HOST_VISIBLE];
    let mut allocator = Allocator::new(&types, 256, 1024);
    let req = requirements(100, 16, 0b11);
    let step = allocator.allocate(req, MemoryLocation::Shared, ResourceType::Linear).unwrap();
    assert_eq!(step, AllocationStep::NeedsBlock { memory_type: 1, size: 1024 });
    let a = allocator.allocate_from_new_block(1, 42, req, ResourceType::Linear);
    assert_eq!(a, Allocation { memory: 42, offset: 0, chunk_id: 2, block_index: 0, memory_type: 1 });
    let step = allocator.allocate(requirements(50, 16, 0b11), MemoryLocation::Device, ResourceType::NonLinear).unwrap();
    let b = match step {
        AllocationStep::Done(b) => b,
        other => panic!("expected a placement, got {:?}", other),
    };
    assert_eq!(b.offset, 256);
    assert_eq!(b.memory_type, 1);
    assert_eq!(allocator.free(&a), Ok(None));
    assert_eq!(allocator.free(&b), Ok(Some(42)));
    assert_eq!(allocator.free(&b), Err(AllocError::InvalidFree));
    let foreign = Allocation { memory: 0, offset: 0, chunk_id: 1, block_index: 0, memory_type: 9 };
    assert_eq!(allocator.free(&foreign), Err(AllocError::InvalidFree));
}
