use lab_allocator::{AllocError, Block, LabByteAllocator, HEADER_SIZE};

fn free_list(heap: &LabByteAllocator) -> Vec<Block> {
    let mut out = Vec::new();
    let mut i = 0;
    while let Some(block) = heap.free_block(i) {
        out.push(block);
        i += 1;
    }
    assert_eq!(out.len(), heap.free_block_count());
    out
}

fn free_total(heap: &LabByteAllocator) -> usize {
    free_list(heap).iter().map(|b| b.size).sum()
}

fn block(start: usize, size: usize) -> Block {
    Block { start, size }
}

#[test]
fn header_size_is_sixteen() {
    assert_eq!(HEADER_SIZE, 16);
}

#[test]
fn new_allocator_is_empty() {
    let heap = LabByteAllocator::new();
    assert_eq!(heap.total_bytes(), 0);
    assert_eq!(heap.used_bytes(), 0);
    assert_eq!(heap.available_bytes(), 0);
    assert_eq!(heap.free_block_count(), 0);
    assert_eq!(heap.free_block(0), None);
}

#[test]
fn allocate_on_empty_allocator_reports_no_memory() {
    let mut heap = LabByteAllocator::new();
    assert_eq!(heap.allocate(1, 1), Err(AllocError::NoMemory));
    assert_eq!(heap.used_bytes(), 0);
}

#[test]
fn init_seeds_one_block() {
    let mut heap = LabByteAllocator::new();
    heap.init(0x1000, 4096);
    assert_eq!(free_list(&heap), vec![block(0x1000, 4096)]);
    assert_eq!(heap.total_bytes(), 4096);
    assert_eq!(heap.used_bytes(), 0);
    assert_eq!(heap.available_bytes(), 4096);
    assert_eq!(heap.free_block(1), None);
}

#[test]
fn init_discards_prior_state() {
    let mut heap = LabByteAllocator::new();
    heap.init(0x1000, 4096);
    assert_eq!(heap.allocate(100, 1), Ok(0x1010));
    heap.init(0x8000, 256);
    assert_eq!(free_list(&heap), vec![block(0x8000, 256)]);
    assert_eq!(heap.total_bytes(), 256);
    assert_eq!(heap.used_bytes(), 0);
}

#[test]
fn place_reserves_header_and_rounds_up() {
    let b = block(0x1000, 4096);
    assert_eq!(b.place(64, 8), Some(0x1010));
    assert_eq!(b.place(64, 1), Some(0x1010));
    assert_eq!(b.place(10, 64), Some(0x1040));
    assert_eq!(b.place(1, 4096), None);
    assert_eq!(b.place(4080, 1), Some(0x1010));
    assert_eq!(b.place(4081, 1), None);
    assert_eq!(block(0x1001, 64).place(8, 3), Some(0x1011));
    assert_eq!(block(0x1000, 15).place(0, 1), None);
    assert_eq!(block(0x1000, 16).place(0, 1), Some(0x1010));
    assert_eq!(block(usize::MAX - 32, 32).place(1, 1 << 20), None);
}

#[test]
fn scenario_allocate_then_dealloc() {
    let mut heap = LabByteAllocator::new();
    heap.init(0x1000, 4096);
    let p = heap.allocate(64, 8).unwrap();
    assert_eq!(p, 0x1010);
    assert_eq!(p % 8, 0);
    assert!((0x1000..=0x1FFF).contains(&p));
    assert_eq!(heap.used_bytes(), 64);
    assert_eq!(free_list(&heap), vec![block(0x1050, 4016)]);
    heap.dealloc(p, 64, 8);
    assert_eq!(heap.used_bytes(), 0);
    assert_eq!(heap.available_bytes(), 4096);
    assert_eq!(free_list(&heap), vec![block(0x1000, 4096)]);
}

#[test]
fn exhaustion_and_recovery() {
    let mut heap = LabByteAllocator::new();
    heap.init(0x1000, 4096);
    assert_eq!(heap.allocate(4096 - HEADER_SIZE, 1), Ok(0x1010));
    assert_eq!(heap.free_block_count(), 0);
    assert_eq!(heap.allocate(1, 1), Err(AllocError::NoMemory));
    assert_eq!(heap.used_bytes(), 4080);
    assert_eq!(heap.add_memory(0x2000, 4096), Ok(()));
    assert_eq!(heap.total_bytes(), 8192);
    assert_eq!(heap.allocate(1, 1), Ok(0x2010));
    assert_eq!(heap.used_bytes(), 4081);
    assert_eq!(free_list(&heap), vec![block(0x2011, 4079)]);
}

#[test]
fn whole_region_request_does_not_fit_beside_its_header() {
    let mut heap = LabByteAllocator::new();
    heap.init(0x1000, 4096);
    assert_eq!(heap.allocate(4096, 1), Err(AllocError::NoMemory));
    assert_eq!(free_list(&heap), vec![block(0x1000, 4096)]);
    assert_eq!(heap.used_bytes(), 0);
}

#[test]
fn failed_allocate_changes_nothing() {
    let mut heap = LabByteAllocator::new();
    heap.init(0x1000, 256);
    assert_eq!(heap.allocate(32, 1), Ok(0x1010));
    let before = free_list(&heap);
    assert_eq!(heap.allocate(1000, 1), Err(AllocError::NoMemory));
    assert_eq!(free_list(&heap), before);
    assert_eq!(heap.used_bytes(), 32);
    assert_eq!(heap.total_bytes(), 256);
}

#[test]
fn allocate_returns_aligned_addresses() {
    let aligns: [usize; 8] = [1, 2, 4, 8, 16, 64, 256, 1024];
    let mut heap = LabByteAllocator::new();
    heap.init(0x1008, 1 << 16);
    for (n, align) in aligns.iter().enumerate() {
        let p = heap.allocate(24 + n, *align).unwrap();
        assert_eq!(p % align, 0);
        assert!(p >= 0x1008 + HEADER_SIZE);
        assert!(p + 24 + n <= 0x1008 + (1 << 16));
    }
}

#[test]
fn alignment_padding_is_not_recovered() {
    let mut heap = LabByteAllocator::new();
    heap.init(0x1000, 4096);
    assert_eq!(heap.allocate(10, 64), Ok(0x1040));
    assert_eq!(heap.used_bytes(), 10);
    assert_eq!(free_list(&heap), vec![block(0x104A, 4022)]);
    heap.dealloc(0x1040, 10, 64);
    assert_eq!(free_list(&heap), vec![block(0x1030, 4048)]);
    assert_eq!(heap.used_bytes(), 0);
    assert_eq!(heap.available_bytes(), 4096);
}

#[test]
fn small_remainder_leaves_with_the_block() {
    let mut heap = LabByteAllocator::new();
    heap.init(0x1000, 100);
    assert_eq!(heap.allocate(80, 1), Ok(0x1010));
    assert_eq!(heap.free_block_count(), 0);
    heap.dealloc(0x1010, 80, 1);
    assert_eq!(free_list(&heap), vec![block(0x1000, 96)]);
}

#[test]
fn remainder_of_exactly_one_header_is_split_off() {
    let mut heap = LabByteAllocator::new();
    heap.init(0x1000, 112);
    assert_eq!(heap.allocate(80, 1), Ok(0x1010));
    assert_eq!(free_list(&heap), vec![block(0x1060, 16)]);
}

#[test]
fn exact_fit_round_trip_restores_the_block() {
    let mut heap = LabByteAllocator::new();
    heap.init(0x1000, 96);
    assert_eq!(heap.allocate(80, 16), Ok(0x1010));
    assert_eq!(heap.free_block_count(), 0);
    heap.dealloc(0x1010, 80, 16);
    assert_eq!(free_list(&heap), vec![block(0x1000, 96)]);
}

#[test]
fn zero_sized_request_takes_a_header() {
    let mut heap = LabByteAllocator::new();
    heap.init(0x1000, 64);
    assert_eq!(heap.allocate(0, 1), Ok(0x1010));
    assert_eq!(heap.used_bytes(), 0);
    assert_eq!(free_list(&heap), vec![block(0x1010, 48)]);
    heap.dealloc(0x1010, 0, 1);
    assert_eq!(free_list(&heap), vec![block(0x1000, 64)]);
}

#[test]
fn first_fit_takes_the_lowest_block_that_fits() {
    let mut heap = LabByteAllocator::new();
    heap.init(0x1000, 64);
    assert_eq!(heap.add_memory(0x3000, 4096), Ok(()));
    assert_eq!(heap.add_memory(0x5000, 4096), Ok(()));
    assert_eq!(heap.allocate(100, 1), Ok(0x3010));
    assert_eq!(
        free_list(&heap),
        vec![block(0x1000, 64), block(0x3074, 3980), block(0x5000, 4096)]
    );
    assert_eq!(heap.allocate(8, 8), Ok(0x1010));
    assert_eq!(
        free_list(&heap),
        vec![block(0x1018, 40), block(0x3074, 3980), block(0x5000, 4096)]
    );
    assert_eq!(heap.used_bytes(), 108);
}

#[test]
fn add_memory_grows_the_block_that_ends_at_its_start() {
    let mut heap = LabByteAllocator::new();
    heap.init(0x1000, 0x1000);
    assert_eq!(heap.add_memory(0x2000, 0x1000), Ok(()));
    assert_eq!(free_list(&heap), vec![block(0x1000, 0x2000)]);
    assert_eq!(heap.total_bytes(), 0x2000);
    assert_eq!(heap.available_bytes(), 0x2000);
}

#[test]
fn add_memory_absorbs_the_block_that_starts_at_its_end() {
    let mut heap = LabByteAllocator::new();
    heap.init(0x2000, 0x1000);
    assert_eq!(heap.add_memory(0x1000, 0x1000), Ok(()));
    assert_eq!(free_list(&heap), vec![block(0x1000, 0x2000)]);
    assert_eq!(heap.total_bytes(), 0x2000);
}

#[test]
fn add_memory_inserts_in_address_order() {
    let mut heap = LabByteAllocator::new();
    heap.init(0x3000, 0x1000);
    assert_eq!(heap.add_memory(0x1000, 0x1000), Ok(()));
    assert_eq!(heap.add_memory(0x7000, 0x800), Ok(()));
    assert_eq!(heap.add_memory(0x5000, 0x100), Ok(()));
    assert_eq!(
        free_list(&heap),
        vec![
            block(0x1000, 0x1000),
            block(0x3000, 0x1000),
            block(0x5000, 0x100),
            block(0x7000, 0x800)
        ]
    );
    assert_eq!(heap.total_bytes(), 0x2900);
}

#[test]
fn add_memory_between_two_blocks_grows_the_lower_one_only() {
    let mut heap = LabByteAllocator::new();
    heap.init(0x1000, 0x1000);
    assert_eq!(heap.add_memory(0x3000, 0x1000), Ok(()));
    assert_eq!(heap.add_memory(0x2000, 0x1000), Ok(()));
    assert_eq!(free_list(&heap), vec![block(0x1000, 0x2000), block(0x3000, 0x1000)]);
}

#[test]
fn add_memory_on_new_allocator() {
    let mut heap = LabByteAllocator::new();
    assert_eq!(heap.add_memory(0x4000, 512), Ok(()));
    assert_eq!(free_list(&heap), vec![block(0x4000, 512)]);
    assert_eq!(heap.total_bytes(), 512);
    assert_eq!(heap.allocate(16, 16), Ok(0x4010));
}

fn three_allocations() -> LabByteAllocator {
    let mut heap = LabByteAllocator::new();
    heap.init(0x1000, 4096);
    assert_eq!(heap.allocate(32, 1), Ok(0x1010));
    assert_eq!(heap.allocate(32, 1), Ok(0x1040));
    assert_eq!(heap.allocate(32, 1), Ok(0x1070));
    assert_eq!(free_list(&heap), vec![block(0x1090, 3952)]);
    assert_eq!(heap.used_bytes(), 96);
    heap
}

#[test]
fn adjacent_blocks_coalesce_lower_first() {
    let mut heap = three_allocations();
    heap.dealloc(0x1010, 32, 1);
    assert_eq!(free_list(&heap), vec![block(0x1000, 48), block(0x1090, 3952)]);
    heap.dealloc(0x1040, 32, 1);
    assert_eq!(free_list(&heap), vec![block(0x1000, 96), block(0x1090, 3952)]);
    assert_eq!(heap.used_bytes(), 32);
}

#[test]
fn adjacent_blocks_coalesce_upper_first() {
    let mut heap = three_allocations();
    heap.dealloc(0x1040, 32, 1);
    assert_eq!(free_list(&heap), vec![block(0x1030, 48), block(0x1090, 3952)]);
    heap.dealloc(0x1010, 32, 1);
    assert_eq!(free_list(&heap), vec![block(0x1000, 96), block(0x1090, 3952)]);
    assert_eq!(heap.used_bytes(), 32);
}

#[test]
fn dealloc_prefers_the_block_above_to_the_block_below() {
    let mut heap = three_allocations();
    heap.dealloc(0x1010, 32, 1);
    heap.dealloc(0x1070, 32, 1);
    assert_eq!(free_list(&heap), vec![block(0x1000, 48), block(0x1060, 4000)]);
    heap.dealloc(0x1040, 32, 1);
    assert_eq!(free_list(&heap), vec![block(0x1000, 48), block(0x1030, 4048)]);
    assert_eq!(heap.used_bytes(), 0);
    assert_eq!(free_total(&heap), 4096);
}

#[test]
fn dealloc_above_every_free_block_appends() {
    let mut heap = LabByteAllocator::new();
    heap.init(0x1000, 128);
    assert_eq!(heap.allocate(16, 1), Ok(0x1010));
    assert_eq!(heap.allocate(16, 1), Ok(0x1030));
    assert_eq!(heap.allocate(48, 1), Ok(0x1050));
    assert_eq!(heap.free_block_count(), 0);
    heap.dealloc(0x1010, 16, 1);
    heap.dealloc(0x1050, 48, 1);
    assert_eq!(free_list(&heap), vec![block(0x1000, 32), block(0x1040, 64)]);
    assert_eq!(heap.used_bytes(), 16);
}

#[test]
fn counters_balance_with_header_overhead() {
    let mut heap = LabByteAllocator::new();
    heap.init(0x1000, 4096);
    assert_eq!(heap.used_bytes() + free_total(&heap), heap.total_bytes());
    assert_eq!(heap.add_memory(0x4000, 1024), Ok(()));
    assert_eq!(heap.used_bytes() + free_total(&heap), heap.total_bytes());
    let p = heap.allocate(64, 1).unwrap();
    assert_eq!(heap.used_bytes() + free_total(&heap) + HEADER_SIZE, heap.total_bytes());
    let q = heap.allocate(100, 1).unwrap();
    assert_eq!(heap.used_bytes() + free_total(&heap) + 2 * HEADER_SIZE, heap.total_bytes());
    heap.dealloc(p, 64, 1);
    assert_eq!(heap.used_bytes() + free_total(&heap) + HEADER_SIZE, heap.total_bytes());
    heap.dealloc(q, 100, 1);
    assert_eq!(heap.used_bytes() + free_total(&heap), heap.total_bytes());
    assert_eq!(
        free_list(&heap),
        vec![block(0x1000, 80), block(0x1050, 4016), block(0x4000, 1024)]
    );
}

#[test]
fn live_allocations_do_not_overlap() {
    let mut heap = LabByteAllocator::new();
    heap.init(0x1000, 4096);
    let requests: [(usize, usize); 6] = [(24, 8), (100, 64), (1, 1), (512, 256), (7, 2), (64, 16)];
    let mut live: Vec<(usize, usize)> = Vec::new();
    for (size, align) in requests {
        let p = heap.allocate(size, align).unwrap();
        live.push((p - HEADER_SIZE, p + size));
    }
    heap.dealloc(live[2].0 + HEADER_SIZE, 1, 1);
    live.remove(2);
    let p = heap.allocate(300, 4).unwrap();
    live.push((p - HEADER_SIZE, p + 300));
    for (i, a) in live.iter().enumerate() {
        assert!(0x1000 <= a.0 && a.1 <= 0x2000);
        for b in live.iter().skip(i + 1) {
            assert!(a.1 <= b.0 || b.1 <= a.0);
        }
        for f in free_list(&heap) {
            assert!(a.1 <= f.start || f.start + f.size <= a.0);
        }
        assert!(heap.clear_of_free(a.0, a.1 - a.0));
    }
}

#[test]
fn clear_of_free_tells_overlap() {
    let mut heap = LabByteAllocator::new();
    heap.init(0x1000, 0x1000);
    assert!(heap.clear_of_free(0x2000, 0x1000));
    assert!(heap.clear_of_free(0x800, 0x800));
    assert!(!heap.clear_of_free(0x800, 0x801));
    assert!(!heap.clear_of_free(0x1FFF, 16));
    assert!(!heap.clear_of_free(0x1100, 16));
}

#[test]
fn available_bytes_is_total_minus_used() {
    let mut heap = LabByteAllocator::new();
    heap.init(0x1000, 4096);
    assert_eq!(heap.allocate(1000, 1), Ok(0x1010));
    assert_eq!(heap.total_bytes(), 4096);
    assert_eq!(heap.used_bytes(), 1000);
    assert_eq!(heap.available_bytes(), 3096);
}
