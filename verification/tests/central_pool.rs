use orthotope::central_pool::CentralPool;
use orthotope::class_pool::{CentralRefill, SlabState};
use orthotope::free_list::{Batch, FreeList};
use orthotope::header::{read_small_free_list_next, AllocationHeader};
use orthotope::memory::Memory;
use orthotope::size_class::SizeClass;

const PAGE_SIZE: usize = 4_096;

/// Memory for `count` blocks of `class`, with the headers of small blocks.
fn map_blocks(class: SizeClass, count: usize) -> Memory {
    let block_size = class.block_size();
    let mut memory = Memory::map(block_size * count)
        .unwrap_or_else(|error| panic!("expected anonymous mapping: {error:?}"));
    let first = memory.first_address();
    for index in 0..count {
        AllocationHeader::write_small_to_block(&mut memory, first + index * block_size, class, 1, 1)
            .unwrap_or_else(|| panic!("expected header initialization to succeed"));
    }
    memory
}

struct RegisteredSlab {
    memory: Memory,
    start: usize,
    block_size: usize,
    capacity: usize,
}

impl RegisteredSlab {
    fn new(pool: &mut CentralPool, class: SizeClass, capacity: usize) -> Self {
        let memory = map_blocks(class, capacity);
        let start = memory.first_address();
        let block_size = class.block_size();
        pool.register_slab(class, start, block_size, capacity);
        Self {
            memory,
            start,
            block_size,
            capacity,
        }
    }

    fn block(&self, index: usize) -> usize {
        self.start + index * self.block_size
    }

    fn batch(&mut self, indices: &[usize]) -> Batch {
        let mut list = FreeList::new();
        for &index in indices {
            let block = self.block(index);
            list.push_block(block, &mut self.memory);
        }
        list.pop_batch(indices.len(), &mut self.memory)
    }
}

fn collect_batch(batch: Batch, memory: &mut Memory) -> Vec<usize> {
    let mut list = FreeList::new();
    list.push_batch(batch, memory);

    let mut result = Vec::new();
    while let Some(ptr) = list.pop_block(memory) {
        result.push(ptr);
    }
    result
}

fn return_blocks(pool: &mut CentralPool, class: SizeClass, memory: &mut Memory, blocks: &[usize]) {
    let mut list = FreeList::new();
    for &block in blocks {
        list.push_block(block, memory);
    }
    let batch = list.pop_batch(blocks.len(), memory);
    pool.return_batch(class, batch, memory);
}

fn sweepable_test_class() -> SizeClass {
    SizeClass::ALL
        .into_iter()
        .find(|class| class.block_size() >= PAGE_SIZE)
        .unwrap_or_else(|| panic!("expected at least one size class to span a full page"))
}

#[test]
fn empty_pool_returns_empty_refill() {
    let mut pool = CentralPool::new(PAGE_SIZE);
    let mut memory = map_blocks(SizeClass::B64, 4);

    assert!(matches!(
        pool.take_refill(SizeClass::B64, 4, &mut memory),
        CentralRefill::Empty
    ));
    assert_eq!(pool.block_counts()[SizeClass::B64.index()], 0);
}

#[test]
fn partial_returns_can_be_taken_back_as_batches() {
    let mut pool = CentralPool::new(PAGE_SIZE);
    let mut slab = RegisteredSlab::new(&mut pool, SizeClass::B64, 4);

    let batch = slab.batch(&[0, 1, 2]);
    pool.return_batch(SizeClass::B64, batch, &mut slab.memory);

    let refill = pool.take_refill(SizeClass::B64, 2, &mut slab.memory);
    let batch = match refill {
        CentralRefill::Batch(batch) => batch,
        _ => panic!("expected partial batch refill"),
    };
    let returned = collect_batch(batch, &mut slab.memory);

    assert_eq!(returned.len(), 2);
    assert_eq!(pool.block_counts()[SizeClass::B64.index()], 1);
}

#[test]
fn fully_central_slab_reissues_as_metadata_only_whole_slab() {
    let mut pool = CentralPool::new(PAGE_SIZE);
    let mut slab = RegisteredSlab::new(&mut pool, SizeClass::B64, 4);

    let batch = slab.batch(&[0, 1, 2, 3]);
    pool.return_batch(SizeClass::B64, batch, &mut slab.memory);

    assert_eq!(pool.block_counts()[SizeClass::B64.index()], 4);
    let refill = pool.take_refill(SizeClass::B64, 2, &mut slab.memory);

    match refill {
        CentralRefill::Slab {
            start,
            block_size,
            capacity,
        } => {
            assert_eq!(start, slab.start);
            assert_eq!(block_size, slab.block_size);
            assert_eq!(capacity, slab.capacity);
        }
        _ => panic!("expected whole-slab refill"),
    }
    assert_eq!(pool.block_counts()[SizeClass::B64.index()], 0);
}

#[test]
fn slab_state_transitions_to_full_hot_when_all_blocks_return() {
    let mut pool = CentralPool::new(PAGE_SIZE);
    let mut slab = RegisteredSlab::new(&mut pool, SizeClass::B64, 2);

    let batch = slab.batch(&[0]);
    pool.return_batch(SizeClass::B64, batch, &mut slab.memory);

    assert_eq!(
        pool.lists[SizeClass::B64.index()].slabs[0].state,
        SlabState::Partial
    );

    let batch = slab.batch(&[1]);
    pool.return_batch(SizeClass::B64, batch, &mut slab.memory);

    let class_pool = &pool.lists[SizeClass::B64.index()];
    assert_eq!(class_pool.slabs[0].state, SlabState::FullHot);
    assert!(class_pool.slabs[0].partial_free.is_empty());
}

#[test]
fn bounded_sweep_can_transition_full_hot_slab_to_full_cold() {
    let mut pool = CentralPool::new(PAGE_SIZE);
    let class = sweepable_test_class();
    let mut slab = RegisteredSlab::new(&mut pool, class, 1);

    let batch = slab.batch(&[0]);
    pool.return_batch(class, batch, &mut slab.memory);

    let class_pool = &mut pool.lists[class.index()];
    assert!(class_pool.force_first_full_hot_to_cold_for_test());

    assert_eq!(class_pool.slabs[0].state, SlabState::FullCold);
}

#[test]
fn published_blocks_count_before_they_are_drained() {
    let mut pool = CentralPool::new(PAGE_SIZE);
    let mut slab = RegisteredSlab::new(&mut pool, SizeClass::B64, 4);

    let batch = slab.batch(&[1, 3]);
    pool.publish_remote_batch(SizeClass::B64, batch, &mut slab.memory);
    assert_eq!(pool.block_counts()[SizeClass::B64.index()], 2);
    assert_eq!(
        pool.lists[SizeClass::B64.index()].slabs[0].state,
        SlabState::Loaned
    );

    match pool.take_refill(SizeClass::B64, 4, &mut slab.memory) {
        CentralRefill::Batch(batch) => {
            let mut blocks = collect_batch(batch, &mut slab.memory);
            blocks.sort_unstable();
            assert_eq!(blocks, vec![slab.block(1), slab.block(3)]);
        }
        _ => panic!("expected the published blocks"),
    }
    assert_eq!(pool.block_counts()[SizeClass::B64.index()], 0);
}

#[test]
fn idle_slab_is_offered_for_reclaim_and_cools_when_advised() {
    let class = sweepable_test_class();
    let mut pool = CentralPool::new(PAGE_SIZE);
    let block_size = class.block_size();
    let mut memory = map_blocks(class, 4);
    let start = memory.first_address();
    pool.register_slab(class, start, block_size, 2);
    return_blocks(&mut pool, class, &mut memory, &[start, start + block_size]);

    let mut request = None;
    let other_start = start + 2 * block_size;
    pool.register_slab(class, other_start, block_size, 2);
    for _ in 0..400 {
        return_blocks(&mut pool, class, &mut memory, &[other_start]);
        assert!(matches!(
            pool.take_refill(class, 1, &mut memory),
            CentralRefill::Batch(_)
        ));
        if let Some(pages) = pool.take_sweep_request(class) {
            request = Some(pages);
            break;
        }
    }
    let pages = request.unwrap_or_else(|| panic!("expected the idle slab to be offered"));
    assert_eq!(pages.slab_start, start);
    assert!(pages.addr >= start);
    assert!(pages.addr + pages.len <= start + block_size * 2);
    assert_eq!(pages.addr % PAGE_SIZE, 0);
    assert_eq!(pages.len % PAGE_SIZE, 0);

    assert!(!pool.complete_sweep(class, pages.slab_start, false));
    assert_eq!(pool.lists[class.index()].slabs[0].state, SlabState::FullHot);
    assert!(pool.complete_sweep(class, pages.slab_start, true));
    assert_eq!(pool.lists[class.index()].slabs[0].state, SlabState::FullCold);
    assert_eq!(pool.block_counts()[class.index()], 2);
}

#[test]
fn slabs_are_kept_in_address_order() {
    let mut pool = CentralPool::new(PAGE_SIZE);
    for start in [0x5000, 0x1000, 0x9000, 0x3000] {
        pool.register_slab(SizeClass::B64, start, 128, 2);
    }
    let starts: Vec<usize> = pool.lists[SizeClass::B64.index()]
        .slabs
        .iter()
        .map(|slab| slab.start)
        .collect();
    assert_eq!(starts, vec![0x1000, 0x3000, 0x5000, 0x9000]);
}

#[test]
fn every_idle_slab_that_was_found_is_offered() {
    let class = SizeClass::B4K;
    let mut pool = CentralPool::new(PAGE_SIZE);
    let block_size = class.block_size();
    let mut memory = map_blocks(class, 12);
    let first = memory.first_address();
    let starts = [first, first + 4 * block_size];
    for start in starts {
        pool.register_slab(class, start, block_size, 4);
        let blocks: Vec<usize> = (0..4).map(|index| start + index * block_size).collect();
        return_blocks(&mut pool, class, &mut memory, &blocks);
    }
    let busy = first + 8 * block_size;
    pool.register_slab(class, busy, block_size, 4);
    for _ in 0..400 {
        return_blocks(&mut pool, class, &mut memory, &[busy]);
        assert!(matches!(
            pool.take_refill(class, 1, &mut memory),
            CentralRefill::Batch(_)
        ));
    }

    let mut offered: Vec<usize> = Vec::new();
    while let Some(pages) = pool.take_sweep_request(class) {
        offered.push(pages.slab_start);
        assert!(pool.complete_sweep(class, pages.slab_start, true));
    }
    offered.sort_unstable();
    assert_eq!(offered, starts.to_vec());
    assert!(pool.take_sweep_request(class).is_none());
}

#[test]
fn partial_blocks_are_linked_through_their_headers() {
    let mut pool = CentralPool::new(PAGE_SIZE);
    let mut slab = RegisteredSlab::new(&mut pool, SizeClass::B64, 4);
    let batch = slab.batch(&[2, 0, 3]);
    pool.return_batch(SizeClass::B64, batch, &mut slab.memory);

    let batch = match pool.take_refill(SizeClass::B64, 2, &mut slab.memory) {
        CentralRefill::Batch(batch) => batch,
        _ => panic!("expected partial batch refill"),
    };
    let taken = collect_batch(batch, &mut slab.memory);

    assert_eq!(taken.len(), 2);
    assert_eq!(
        read_small_free_list_next(&slab.memory, taken[0]),
        Some(taken[1])
    );
    assert_eq!(read_small_free_list_next(&slab.memory, taken[1]), None);
}
