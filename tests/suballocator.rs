use caliban::align::{align_down, align_up, is_on_same_page};
use caliban::suballocator::{granularity_conflict, MemoryChunk, ResourceType, SubAllocator};

fn check_layout(block: &SubAllocator) {
    let chunks = block.chunk_list();
    assert!(!chunks.is_empty());
    assert_eq!(chunks[0].offset, 0);
    let mut occupied = 0u64;
    for w in chunks.windows(2) {
        assert_eq!(w[0].offset + w[0].size, w[1].offset);
        assert!(!(w[0].resource_type == ResourceType::Free && w[1].resource_type == ResourceType::Free));
    }
    for c in &chunks {
        assert!(c.size > 0);
        if c.resource_type != ResourceType::Free {
            occupied += c.size;
        }
    }
    let last = chunks[chunks.len() - 1];
    assert_eq!(last.offset + last.size, block.size());
    assert_eq!(occupied, block.allocated());
}

fn free_chunk(id: u64, offset: u64, size: u64) -> MemoryChunk {
    MemoryChunk { id, size, offset, padding: 0, resource_type: ResourceType::Free }
}

#[test]
fn align_helpers() {
    assert_eq!(align_down(0x3F, 0x20), 0x20);
    assert_eq!(align_down(0x1F, 0x20), 0);
    assert_eq!(align_up(100, 16), 112);
    assert_eq!(align_up(112, 16), 112);
    assert_eq!(align_up(0, 256), 0);
    assert_eq!(align_up(1, 256), 256);
}

#[test]
fn same_page_rule() {
    assert!(is_on_same_page(0, 100, 112, 256));
    assert!(!is_on_same_page(0, 100, 256, 256));
    assert!(is_on_same_page(0, 256, 255, 256));
    assert!(!is_on_same_page(0, 256, 256, 256));
}

#[test]
fn conflict_rule() {
    assert!(!granularity_conflict(ResourceType::Free, ResourceType::Linear));
    assert!(!granularity_conflict(ResourceType::NonLinear, ResourceType::Free));
    assert!(!granularity_conflict(ResourceType::Linear, ResourceType::Linear));
    assert!(granularity_conflict(ResourceType::Linear, ResourceType::NonLinear));
    assert!(granularity_conflict(ResourceType::NonLinear, ResourceType::Linear));
}

#[test]
fn new_block_is_one_free_chunk() {
    let block = SubAllocator::new(1024, 256);
    assert_eq!(block.chunk_list(), vec![free_chunk(1, 0, 1024)]);
    assert_eq!(block.allocated(), 0);
    assert!(block.is_empty());
}

#[test]
fn first_allocation_splits_at_offset_zero() {
    let mut block = SubAllocator::new(1024, 256);
    let (id, offset) = block.allocate(100, 16, ResourceType::Linear).unwrap();
    assert_eq!(offset, 0);
    assert_eq!(id, 2);
    let chunks = block.chunk_list();
    assert_eq!(chunks.len(), 2);
    assert_eq!(chunks[0], MemoryChunk { id: 2, size: 100, offset: 0, padding: 0, resource_type: ResourceType::Linear });
    assert_eq!(chunks[1], free_chunk(1, 100, 924));
    assert_eq!(block.allocated(), 100);
    check_layout(&block);
}

#[test]
fn conflicting_neighbour_pushes_to_next_page() {
    let mut block = SubAllocator::new(1024, 256);
    block.allocate(100, 16, ResourceType::Linear).unwrap();
    let (id, offset) = block.allocate(50, 16, ResourceType::NonLinear).unwrap();
    assert_eq!(offset, 256);
    let chunks = block.chunk_list();
    assert_eq!(chunks[1], MemoryChunk { id, size: 206, offset: 100, padding: 156, resource_type: ResourceType::NonLinear });
    assert_eq!(chunks[2], free_chunk(1, 306, 718));
    assert!(!is_on_same_page(chunks[0].offset, chunks[0].size, offset, 256));
    assert_eq!(block.allocated(), 306);
    check_layout(&block);
}

#[test]
fn same_class_neighbour_is_not_pushed() {
    let mut block = SubAllocator::new(1024, 256);
    block.allocate(100, 16, ResourceType::Linear).unwrap();
    let (_, offset) = block.allocate(50, 16, ResourceType::Linear).unwrap();
    assert_eq!(offset, 112);
    check_layout(&block);
}

#[test]
fn freeing_both_restores_one_free_chunk() {
    let mut block = SubAllocator::new(1024, 256);
    let (a, _) = block.allocate(100, 16, ResourceType::Linear).unwrap();
    let (b, _) = block.allocate(50, 16, ResourceType::NonLinear).unwrap();
    assert!(block.free(a));
    check_layout(&block);
    assert!(block.free(b));
    let chunks = block.chunk_list();
    assert_eq!(chunks.len(), 1);
    assert_eq!((chunks[0].offset, chunks[0].size, chunks[0].resource_type), (0, 1024, ResourceType::Free));
    assert_eq!(block.allocated(), 0);
    assert!(block.is_empty());
}

#[test]
fn freeing_in_allocation_order_also_coalesces() {
    let mut block = SubAllocator::new(1024, 256);
    let (a, _) = block.allocate(100, 16, ResourceType::Linear).unwrap();
    let (b, _) = block.allocate(100, 16, ResourceType::Linear).unwrap();
    let (c, _) = block.allocate(100, 16, ResourceType::Linear).unwrap();
    assert!(block.free(b));
    check_layout(&block);
    assert!(block.free(a));
    check_layout(&block);
    assert!(block.free(c));
    assert_eq!(block.chunk_list().len(), 1);
    assert!(block.is_empty());
}

#[test]
fn allocate_then_free_restores_layout() {
    let mut block = SubAllocator::new(4096, 256);
    block.allocate(300, 64, ResourceType::Linear).unwrap();
    block.allocate(200, 128, ResourceType::NonLinear).unwrap();
    let before = block.chunk_list();
    let allocated = block.allocated();
    let (id, offset) = block.allocate(500, 32, ResourceType::Linear).unwrap();
    assert_eq!(offset % 32, 0);
    assert!(block.free(id));
    assert_eq!(block.chunk_list(), before);
    assert_eq!(block.allocated(), allocated);
}

#[test]
fn exact_size_reuses_chunk_id() {
    let mut block = SubAllocator::new(1024, 256);
    let (id, offset) = block.allocate(1024, 16, ResourceType::Linear).unwrap();
    assert_eq!(id, 1);
    assert_eq!(offset, 0);
    assert_eq!(block.chunk_list().len(), 1);
    assert_eq!(block.allocated(), 1024);
    check_layout(&block);
}

#[test]
fn exact_size_of_remaining_chunk_reuses_it() {
    let mut block = SubAllocator::new(1024, 256);
    block.allocate(256, 256, ResourceType::Linear).unwrap();
    let (id, offset) = block.allocate(768, 256, ResourceType::Linear).unwrap();
    assert_eq!(id, 1);
    assert_eq!(offset, 256);
    assert_eq!(block.chunk_list().len(), 2);
    check_layout(&block);
}

#[test]
fn one_byte_more_than_free_chunk_does_not_fit() {
    let mut block = SubAllocator::new(1024, 256);
    block.allocate(100, 1, ResourceType::Linear).unwrap();
    let before = block.chunk_list();
    assert_eq!(block.allocate(925, 1, ResourceType::Linear), None);
    assert_eq!(block.chunk_list(), before);
    assert!(block.allocate(924, 1, ResourceType::Linear).is_some());
}

#[test]
fn right_neighbour_conflict_rejects_chunk() {
    let mut block = SubAllocator::new(1024, 256);
    let (a, _) = block.allocate(300, 1, ResourceType::NonLinear).unwrap();
    let (_, r) = block.allocate(100, 1, ResourceType::NonLinear).unwrap();
    assert_eq!(r, 300);
    assert!(block.free(a));
    // A linear resource in [0, 280) would end on the page where the
    // non-linear one at 300 starts, so the free chunk at 0 is passed over.
    let (_, offset) = block.allocate(280, 1, ResourceType::Linear).unwrap();
    assert_eq!(offset, 512);
    assert_eq!(block.chunk_list()[0].resource_type, ResourceType::Free);
    // A non-linear resource does not conflict and takes it.
    let (_, offset) = block.allocate(280, 1, ResourceType::NonLinear).unwrap();
    assert_eq!(offset, 0);
    check_layout(&block);
}

#[test]
fn left_neighbour_conflict_can_push_past_chunk() {
    let mut block = SubAllocator::new(1024, 256);
    block.allocate(260, 1, ResourceType::NonLinear).unwrap();
    let (b, _) = block.allocate(40, 1, ResourceType::NonLinear).unwrap();
    block.allocate(100, 1, ResourceType::NonLinear).unwrap();
    assert!(block.free(b));
    // The free chunk [260, 300) shares its page with the non-linear chunk
    // before it; pushed to 512 the request no longer fits there.
    let (_, offset) = block.allocate(20, 1, ResourceType::Linear).unwrap();
    assert_eq!(offset, 512);
    check_layout(&block);
}

#[test]
fn unknown_or_free_chunk_is_an_invalid_free() {
    let mut block = SubAllocator::new(1024, 256);
    assert!(!block.free(1));
    let (a, _) = block.allocate(100, 16, ResourceType::Linear).unwrap();
    assert!(!block.free(99));
    assert!(block.free(a));
    assert!(!block.free(a));
    assert_eq!(block.chunk_list(), vec![free_chunk(1, 0, 1024)]);
}

#[test]
fn holds_reports_live_chunks() {
    let mut block = SubAllocator::new(1024, 256);
    let (a, _) = block.allocate(100, 16, ResourceType::Linear).unwrap();
    assert!(block.holds(a));
    assert!(!block.holds(1));
    assert!(block.fits_request(924, 1, ResourceType::Linear));
    assert!(!block.fits_request(925, 1, ResourceType::Linear));
}

#[test]
fn invariants_hold_through_churn() {
    let mut block = SubAllocator::new(1 << 20, 1024);
    let mut live: Vec<u64> = Vec::new();
    let mut seed: u64 = 12345;
    for step in 0..400 {
        seed = seed.wrapping_mul(6364136223846793005).wrapping_add(1442695040888963407);
        let size = 1 + (seed >> 33) % 5000;
        let alignment = 1u64 << ((seed >> 20) % 9);
        let class = if (seed >> 40) % 2 == 0 { ResourceType::Linear } else { ResourceType::NonLinear };
        if step % 3 == 2 && !live.is_empty() {
            let k = ((seed >> 12) as usize) % live.len();
            let id = live.swap_remove(k);
            assert!(block.free(id));
        } else if let Some((id, offset)) = block.allocate(size, alignment, class) {
            assert_eq!(offset % alignment, 0);
            live.push(id);
        }
        check_layout(&block);
        let chunks = block.chunk_list();
        for w in chunks.windows(2) {
            if granularity_conflict(w[0].resource_type, w[1].resource_type) {
                assert!(!is_on_same_page(w[0].offset, w[0].size, w[1].offset + w[1].padding, 1024));
            }
        }
    }
    for id in live {
        assert!(block.free(id));
    }
    assert_eq!(block.chunk_list().len(), 1);
    assert!(block.is_empty());
}
