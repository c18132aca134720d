use memalloc::block::{BLOCK_HEADER_SIZE, MAX_REQUEST, MIN_BLOCK_SIZE, WORD_SIZE};
use memalloc::mmap::{Allocation, MmapAllocator};
use memalloc::region::REGION_HEADER_SIZE;
use std::collections::HashMap;

const PAGE: usize = 4096;
const FIRST: usize = 0x10_0000;

/// Stands in for the operating system: hands out ranges, takes them back,
/// and keeps the bytes that the tests write.
struct Platform {
    page_size: usize,
    next: usize,
    held: Vec<(usize, usize)>,
    bytes: HashMap<usize, u8>,
    exhausted: bool,
}

impl Platform {
    fn new(page_size: usize) -> Self {
        Platform { page_size, next: FIRST, held: Vec::new(), bytes: HashMap::new(), exhausted: false }
    }

    fn acquire(&mut self, len: usize) -> usize {
        if self.exhausted {
            return 0;
        }
        assert_eq!(len % self.page_size, 0);
        let addr = self.next;
        self.next += len + self.page_size;
        self.held.push((addr, len));
        addr
    }

    fn release(&mut self, addr: usize, len: usize) {
        let at = self.held.iter().position(|&range| range == (addr, len));
        assert!(at.is_some(), "a range was released that was never acquired");
        self.held.remove(at.unwrap());
    }

    fn holds(&self, addr: usize, len: usize) -> bool {
        self.held.iter().any(|&(base, span)| base <= addr && addr + len <= base + span)
    }

    fn write_u32(&mut self, addr: usize, value: u32) {
        assert!(self.holds(addr, 4));
        for (i, byte) in value.to_le_bytes().iter().enumerate() {
            self.bytes.insert(addr + i, *byte);
        }
    }

    fn read_u32(&self, addr: usize) -> u32 {
        let mut raw = [0u8; 4];
        for i in 0..4 {
            raw[i] = *self.bytes.get(&(addr + i)).unwrap_or(&0);
        }
        u32::from_le_bytes(raw)
    }
}

/// One request as a caller makes it: ask, and bring memory when asked to.
/// Address 0 is the null pointer.
fn request(heap: &mut MmapAllocator, os: &mut Platform, size: usize, align: usize) -> usize {
    loop {
        match heap.allocate(size, align) {
            Allocation::Placed(ptr) => return ptr,
            Allocation::Refused => return 0,
            Allocation::NeedsPageSize => {
                assert!(heap.learn_page_size(os.page_size));
            }
            Allocation::NeedsRegion(len) => {
                let addr = os.acquire(len);
                return match heap.allocate_in_region(addr, len, size, align) {
                    Some(ptr) => ptr,
                    None => {
                        if addr != 0 {
                            os.release(addr, len);
                        }
                        0
                    }
                };
            }
        }
    }
}

fn give_back(heap: &mut MmapAllocator, os: &mut Platform, ptr: usize, size: usize, align: usize) {
    if let Some((addr, len)) = heap.deallocate(ptr, size, align) {
        os.release(addr, len);
    }
}

fn index_of(heap: &MmapAllocator) -> Vec<usize> {
    let mut entries = Vec::new();
    let mut walk = heap.allocator.free_list.items.iter();
    while let Some(entry) = walk.next() {
        entries.push(*entry);
    }
    entries
}

/// Blocks of every region as (address, payload, free), region by region.
fn layout_of(heap: &MmapAllocator) -> Vec<Vec<(usize, usize, bool)>> {
    let mut regions = Vec::new();
    for r in 0..heap.allocator.regions.len() {
        let region = &heap.allocator.regions.node_at(r).data;
        let mut blocks = Vec::new();
        for b in 0..region.blocks.len() {
            let header = region.blocks.node_at(b).data;
            blocks.push((region.blocks.addr_at(b), header.size, header.is_free));
        }
        regions.push(blocks);
    }
    regions
}

/// What must hold between any two requests.
fn assert_well_formed(heap: &MmapAllocator) {
    let layout = layout_of(heap);
    let index = index_of(heap);
    let mut free = Vec::new();
    for (r, blocks) in layout.iter().enumerate() {
        let base = heap.allocator.regions.addr_at(r);
        let size = heap.allocator.regions.node_at(r).data.size;
        assert!(!blocks.is_empty());
        assert_eq!(blocks[0].0, base + REGION_HEADER_SIZE);
        assert!(blocks.iter().any(|b| !b.2), "a region holds free space alone");
        for (k, &(addr, payload, is_free)) in blocks.iter().enumerate() {
            assert_eq!((addr + BLOCK_HEADER_SIZE) % WORD_SIZE, 0);
            assert!(payload >= MIN_BLOCK_SIZE);
            let end = addr + BLOCK_HEADER_SIZE + payload;
            if k + 1 < blocks.len() {
                assert_eq!(end, blocks[k + 1].0);
                assert!(!(is_free && blocks[k + 1].2), "two free blocks side by side");
            } else {
                assert_eq!(end, base + REGION_HEADER_SIZE + size);
            }
            if is_free {
                free.push(addr);
            }
        }
    }
    let mut sorted = index.clone();
    sorted.sort();
    free.sort();
    assert_eq!(sorted, free);
}

#[test]
fn basic_allocation_and_write() {
    let mut allocator = MmapAllocator::new();
    let mut os = Platform::new(PAGE);

    let block1 = request(&mut allocator, &mut os, 4, 4);

    os.write_u32(block1, 12415);
    assert_eq!(os.read_u32(block1), 12415);

    let block2 = request(&mut allocator, &mut os, 4, 4);

    os.write_u32(block2, 36353);
    assert_eq!(os.read_u32(block2), 36353);

    // Check block1 has not been overwritten
    assert_eq!(os.read_u32(block1), 12415);
}

#[test]
fn alloc_dealloc_reuse() {
    let mut allocator = MmapAllocator::new();
    let mut os = Platform::new(PAGE);

    // Keeps the region from being returned during the test
    request(&mut allocator, &mut os, 8, 8);

    let block1 = request(&mut allocator, &mut os, 8, 8);
    assert!(block1 != 0);

    // We free the block
    give_back(&mut allocator, &mut os, block1, 8, 8);

    let block2 = request(&mut allocator, &mut os, 8, 8);
    assert!(block2 != 0);

    assert_eq!(block1, block2);

    let block3 = request(&mut allocator, &mut os, 8, 8);
    assert!(block3 != 0);

    // We should get a different block since we haven't deallocated `block2`
    assert_ne!(block3, block2);
}

#[test]
fn dealloc_null() {
    // This should not do anything, it should not panic.
    let mut allocator = MmapAllocator::new();
    let mut os = Platform::new(PAGE);
    give_back(&mut allocator, &mut os, 0, 1, 1);
    assert!(allocator.allocator.regions.is_empty());
    assert!(allocator.allocator.free_list.is_empty());
}

#[test]
fn block_merging() {
    let mut allocator = MmapAllocator::new();
    let mut os = Platform::new(PAGE);

    // Keeps the region from being returned during the test
    request(&mut allocator, &mut os, 8, 8);

    let p1 = request(&mut allocator, &mut os, 1, 1);
    let p2 = request(&mut allocator, &mut os, 1, 1);
    give_back(&mut allocator, &mut os, p2, 1, 1);

    // After this, p1 and p2 should be merged (merging with next)
    give_back(&mut allocator, &mut os, p1, 1, 1);
    // This block should use the merged block
    let p3 = request(&mut allocator, &mut os, 2, 2);
    assert_eq!(p1, p3);

    let p4 = request(&mut allocator, &mut os, 2, 2);

    give_back(&mut allocator, &mut os, p3, 2, 2);

    // After this, p3 and p4 should be merged (merging with prev)
    give_back(&mut allocator, &mut os, p4, 2, 2);

    // This block should use the merged block
    let p5 = request(&mut allocator, &mut os, 4, 4);
    assert_eq!(p3, p5);
    assert_well_formed(&allocator);
}

#[test]
fn munmap_region_when_needed() {
    let mut allocator = MmapAllocator::new();
    let mut os = Platform::new(PAGE);

    let p1 = request(&mut allocator, &mut os, 8, 8);
    let p2 = request(&mut allocator, &mut os, 8, 8);

    assert!(!allocator.allocator.regions.is_empty());

    give_back(&mut allocator, &mut os, p1, 8, 8);
    give_back(&mut allocator, &mut os, p2, 8, 8);

    assert!(allocator.allocator.regions.is_empty());
    assert!(os.held.is_empty());
}

#[test]
fn write_then_allocate_then_read_back() {
    let mut heap = MmapAllocator::new();
    let mut os = Platform::new(PAGE);
    let p1 = request(&mut heap, &mut os, 4, 4);
    os.write_u32(p1, 0x0000_3097);
    let p2 = request(&mut heap, &mut os, 4, 4);
    assert_ne!(p2, p1);
    os.write_u32(p2, 0x0000_8e01);
    assert_eq!(os.read_u32(p1), 0x0000_3097);
    assert_eq!(os.read_u32(p2), 0x0000_8e01);
    assert_eq!(p1, FIRST + REGION_HEADER_SIZE + BLOCK_HEADER_SIZE);
    assert_eq!(p2, p1 + MIN_BLOCK_SIZE + BLOCK_HEADER_SIZE);
}

#[test]
fn freed_block_is_used_again() {
    let mut heap = MmapAllocator::new();
    let mut os = Platform::new(PAGE);
    let pin = request(&mut heap, &mut os, 64, 8);
    let p = request(&mut heap, &mut os, 8, 8);
    give_back(&mut heap, &mut os, p, 8, 8);
    let q = request(&mut heap, &mut os, 8, 8);
    assert_eq!(q, p);
    assert_eq!(p, pin + 64 + BLOCK_HEADER_SIZE);
    assert_well_formed(&heap);
}

#[test]
fn block_merged_into_its_front_neighbour_starts_there() {
    let mut heap = MmapAllocator::new();
    let mut os = Platform::new(PAGE);
    let p1 = request(&mut heap, &mut os, 8, 8);
    let p2 = request(&mut heap, &mut os, 8, 8);
    let pin = request(&mut heap, &mut os, 8, 8);
    // The rest of the region goes to one more allocation, so the index is empty.
    let tail = request(&mut heap, &mut os, PAGE - 88 - 3 * 64, 8);
    assert_eq!(tail, pin + 64);
    assert!(index_of(&heap).is_empty());
    give_back(&mut heap, &mut os, p1, 8, 8);
    give_back(&mut heap, &mut os, p2, 8, 8);
    assert_eq!(layout_of(&heap)[0][0], (p1 - BLOCK_HEADER_SIZE, 24 + 40 + 24, true));
    let q = request(&mut heap, &mut os, 88, 8);
    assert_eq!(q, p1);
    assert_ne!(q, p2);
    assert_ne!(q, pin);
    assert_well_formed(&heap);
}

#[test]
fn lone_allocation_takes_its_region_along() {
    let mut heap = MmapAllocator::new();
    let mut os = Platform::new(PAGE);
    let p = request(&mut heap, &mut os, 8, 8);
    assert_eq!(p, FIRST + 88);
    give_back(&mut heap, &mut os, p, 8, 8);
    assert!(os.held.is_empty());
    // The next request starts over, in whatever range the platform gives.
    let q = request(&mut heap, &mut os, 8, 8);
    assert_eq!(q, FIRST + 2 * PAGE + 88);
    assert_eq!(os.held, vec![(FIRST + 2 * PAGE, PAGE)]);
}

#[test]
fn three_freed_blocks_merge_into_one() {
    // Pages of 800 bytes leave 40 bytes behind the four blocks, too few for
    // the last request, so the merged block is the first that fits.
    let mut heap = MmapAllocator::new();
    let mut os = Platform::new(800);
    let p1 = request(&mut heap, &mut os, 128, 8);
    let p2 = request(&mut heap, &mut os, 128, 8);
    let p3 = request(&mut heap, &mut os, 128, 8);
    let p4 = request(&mut heap, &mut os, 128, 8);
    assert_eq!(layout_of(&heap).len(), 1);
    assert_eq!(p4, p1 + 3 * 168);
    give_back(&mut heap, &mut os, p1, 128, 8);
    give_back(&mut heap, &mut os, p3, 128, 8);
    give_back(&mut heap, &mut os, p2, 128, 8);
    assert_well_formed(&heap);
    let merged = layout_of(&heap)[0][0];
    assert_eq!(merged, (p1 - BLOCK_HEADER_SIZE, 3 * 128 + 2 * BLOCK_HEADER_SIZE, true));
    let p5 = request(&mut heap, &mut os, 264, 8);
    assert_eq!(p5, p1);
    assert_well_formed(&heap);
}

#[test]
fn first_fit_prefers_the_older_entry() {
    // With pages of 4096 bytes the block behind the four is large and has
    // been in the index longer than the merged block: first fit takes it.
    let mut heap = MmapAllocator::new();
    let mut os = Platform::new(PAGE);
    let p1 = request(&mut heap, &mut os, 128, 8);
    let p2 = request(&mut heap, &mut os, 128, 8);
    let p3 = request(&mut heap, &mut os, 128, 8);
    let p4 = request(&mut heap, &mut os, 128, 8);
    give_back(&mut heap, &mut os, p1, 128, 8);
    give_back(&mut heap, &mut os, p3, 128, 8);
    give_back(&mut heap, &mut os, p2, 128, 8);
    assert_eq!(index_of(&heap), vec![p4 + 128, p1 - BLOCK_HEADER_SIZE]);
    let p5 = request(&mut heap, &mut os, 264, 8);
    assert_eq!(p5, p4 + 128 + BLOCK_HEADER_SIZE);
    assert_well_formed(&heap);
}

#[test]
fn empty_region_goes_back_to_the_platform() {
    let mut heap = MmapAllocator::new();
    let mut os = Platform::new(PAGE);
    let p1 = request(&mut heap, &mut os, 8, 8);
    let p2 = request(&mut heap, &mut os, 8, 8);
    assert_eq!(layout_of(&heap).len(), 1);
    assert_eq!(os.held, vec![(FIRST, PAGE)]);
    assert_eq!(heap.deallocate(p2, 8, 8), None);
    assert_eq!(heap.deallocate(p1, 8, 8), Some((FIRST, PAGE)));
    assert!(heap.allocator.regions.is_empty());
    assert!(heap.allocator.free_list.is_empty());
}

#[test]
fn null_and_second_free_change_nothing() {
    let mut heap = MmapAllocator::new();
    let mut os = Platform::new(PAGE);
    let pin = request(&mut heap, &mut os, 16, 8);
    let p = request(&mut heap, &mut os, 16, 8);
    assert_eq!(heap.deallocate(0, 16, 8), None);
    give_back(&mut heap, &mut os, p, 16, 8);
    let before = (layout_of(&heap), index_of(&heap));
    assert_eq!(heap.deallocate(p, 16, 8), None);
    assert_eq!((layout_of(&heap), index_of(&heap)), before);
    assert_eq!(heap.deallocate(0, 16, 8), None);
    assert_eq!((layout_of(&heap), index_of(&heap)), before);
    let again = request(&mut heap, &mut os, 16, 8);
    assert_eq!(again, p);
    assert_ne!(again, pin);
    assert_well_formed(&heap);
}

#[test]
fn foreign_address_changes_nothing() {
    let mut heap = MmapAllocator::new();
    let mut os = Platform::new(PAGE);
    let p = request(&mut heap, &mut os, 16, 8);
    let before = (layout_of(&heap), index_of(&heap));
    assert_eq!(heap.deallocate(p + 8, 16, 8), None);
    assert_eq!(heap.deallocate(7, 16, 8), None);
    assert_eq!(heap.deallocate(0x7000_0000, 16, 8), None);
    assert_eq!((layout_of(&heap), index_of(&heap)), before);
}

#[test]
fn answers_of_allocate_step_by_step() {
    let mut heap = MmapAllocator::new();
    assert_eq!(heap.allocate(4, 4), Allocation::NeedsPageSize);
    assert!(!heap.learn_page_size(0));
    assert!(!heap.learn_page_size(4100));
    assert!(heap.learn_page_size(PAGE));
    assert!(!heap.learn_page_size(8192));
    assert_eq!(heap.allocator.page_size, PAGE);
    assert_eq!(heap.allocate(4, 4), Allocation::NeedsRegion(PAGE));
    assert_eq!(heap.allocate(4008, 8), Allocation::NeedsRegion(PAGE));
    assert_eq!(heap.allocate(4009, 8), Allocation::NeedsRegion(2 * PAGE));
    assert_eq!(heap.allocate_in_region(FIRST, PAGE, 4, 4), Some(FIRST + 88));
    assert_eq!(heap.allocate(4, 4), Allocation::Placed(FIRST + 152));
    assert_eq!(heap.allocate(5000, 8), Allocation::NeedsRegion(2 * PAGE));
}

#[test]
fn unsupported_requests_are_refused() {
    let mut heap = MmapAllocator::new();
    assert!(heap.learn_page_size(PAGE));
    assert_eq!(heap.allocate(16, 16), Allocation::Refused);
    assert_eq!(heap.allocate(16, 0), Allocation::Refused);
    assert_eq!(heap.allocate(16, 3), Allocation::Refused);
    assert_eq!(heap.allocate(MAX_REQUEST + 1, 8), Allocation::Refused);
    assert_eq!(heap.allocate(MAX_REQUEST, 8), Allocation::Refused);
    assert_eq!(heap.allocate(usize::MAX - PAGE, 8), Allocation::Refused);
    assert_eq!(heap.allocate_in_region(FIRST, PAGE, 16, 16), None);
    assert_eq!(heap.allocate_in_region(FIRST, PAGE, MAX_REQUEST + 1, 8), None);
    assert!(heap.allocator.regions.is_empty());
    assert!(heap.allocator.free_list.is_empty());
}

#[test]
fn exhausted_platform_gives_null_and_changes_nothing() {
    let mut heap = MmapAllocator::new();
    let mut os = Platform::new(PAGE);
    let p = request(&mut heap, &mut os, 4000, 8);
    assert_ne!(p, 0);
    let before = (layout_of(&heap), index_of(&heap));
    os.exhausted = true;
    assert_eq!(request(&mut heap, &mut os, 4000, 8), 0);
    assert_eq!((layout_of(&heap), index_of(&heap)), before);
    os.exhausted = false;
    assert_ne!(request(&mut heap, &mut os, 4000, 8), 0);
    assert_well_formed(&heap);
}

#[test]
fn unfit_ranges_are_turned_down() {
    let mut heap = MmapAllocator::new();
    assert!(heap.learn_page_size(PAGE));
    assert_eq!(heap.allocate_in_region(0, PAGE, 8, 8), None);
    assert_eq!(heap.allocate_in_region(FIRST + 4, PAGE, 8, 8), None);
    assert_eq!(heap.allocate_in_region(FIRST, 100, 8, 8), None);
    assert_eq!(heap.allocate_in_region(FIRST, PAGE, 4009, 8), None);
    assert_eq!(heap.allocate_in_region(usize::MAX - 4095, PAGE, 8, 8), None);
    assert!(heap.allocator.regions.is_empty());
    assert_eq!(heap.allocate_in_region(FIRST, PAGE, 4008, 8), Some(FIRST + 88));
    assert_eq!(heap.allocate_in_region(FIRST + 2048, PAGE, 8, 8), None);
    assert_eq!(heap.allocate_in_region(FIRST - 8, PAGE, 8, 8), None);
    assert_eq!(layout_of(&heap), vec![vec![(FIRST + 48, 4008, false)]]);
    assert_eq!(heap.allocate_in_region(FIRST + PAGE, PAGE, 8, 8), Some(FIRST + PAGE + 88));
    assert_well_formed(&heap);
}

#[test]
fn split_only_where_the_rest_can_stand() {
    let mut heap = MmapAllocator::new();
    assert!(heap.learn_page_size(PAGE));
    // 4008 bytes of payload: a request of 3944 leaves exactly a header and
    // the smallest payload, one of 3952 leaves too little.
    assert_eq!(heap.allocate_in_region(FIRST, PAGE, 3944, 8), Some(FIRST + 88));
    assert_eq!(
        layout_of(&heap),
        vec![vec![(FIRST + 48, 3944, false), (FIRST + 48 + 40 + 3944, 24, true)]]
    );
    assert_eq!(heap.allocate_in_region(2 * FIRST, PAGE, 3952, 8), Some(2 * FIRST + 88));
    assert_eq!(layout_of(&heap)[1], vec![(2 * FIRST + 48, 4008, false)]);
    assert_eq!(index_of(&heap), vec![FIRST + 48 + 40 + 3944]);
    assert_well_formed(&heap);
}

#[test]
fn payloads_are_word_aligned_and_apart() {
    let mut heap = MmapAllocator::new();
    let mut os = Platform::new(PAGE);
    let sizes = [1usize, 7, 8, 9, 24, 25, 100, 1000, 4000, 5000, 3, 64];
    let mut live: Vec<(usize, usize)> = Vec::new();
    for &size in sizes.iter() {
        let ptr = request(&mut heap, &mut os, size, 8);
        assert_ne!(ptr, 0);
        assert_eq!(ptr % WORD_SIZE, 0);
        assert!(os.holds(ptr, size));
        for &(other, len) in live.iter() {
            assert!(ptr + size <= other || other + len <= ptr);
        }
        live.push((ptr, size));
        assert_well_formed(&heap);
    }
}

#[test]
fn freeing_everything_empties_the_heap() {
    let mut heap = MmapAllocator::new();
    let mut os = Platform::new(PAGE);
    let sizes = [100usize, 5000, 8, 3000, 64, 9000, 1];
    let mut live = Vec::new();
    for &size in sizes.iter() {
        live.push((request(&mut heap, &mut os, size, 8), size));
    }
    assert!(layout_of(&heap).len() > 1);
    for &(ptr, size) in live.iter().rev() {
        give_back(&mut heap, &mut os, ptr, size, 8);
        assert_well_formed(&heap);
    }
    assert!(heap.allocator.regions.is_empty());
    assert!(heap.allocator.free_list.is_empty());
    assert!(os.held.is_empty());
}

#[test]
fn interleaved_stress() {
    // Two callers take turns, each with its own run of sizes in 1..=1024.
    let mut heap = MmapAllocator::new();
    let mut os = Platform::new(PAGE);
    let mut seeds = [0x2545_f491_4f6c_dd1du64, 0x9e37_79b9_7f4a_7c15u64];
    let mut live: [Vec<(usize, usize, u32)>; 2] = [Vec::new(), Vec::new()];
    for round in 0..10_000 {
        for who in 0..2 {
            seeds[who] ^= seeds[who] << 13;
            seeds[who] ^= seeds[who] >> 7;
            seeds[who] ^= seeds[who] << 17;
            let size = (seeds[who] % 1024) as usize + 1;
            let ptr = request(&mut heap, &mut os, size, 8);
            assert_ne!(ptr, 0);
            assert_eq!(ptr % WORD_SIZE, 0);
            let stamp = (round * 2 + who) as u32;
            os.write_u32(ptr, stamp);
            live[who].push((ptr, size, stamp));
            if live[who].len() > 8 || seeds[who] % 3 == 0 {
                let at = (seeds[who] >> 20) as usize % live[who].len();
                let (old, len, written) = live[who].swap_remove(at);
                assert_eq!(os.read_u32(old), written);
                give_back(&mut heap, &mut os, old, len, 8);
            }
        }
        if round % 500 == 0 {
            assert_well_formed(&heap);
        }
    }
    for who in 0..2 {
        while let Some((ptr, len, written)) = live[who].pop() {
            assert_eq!(os.read_u32(ptr), written);
            give_back(&mut heap, &mut os, ptr, len, 8);
        }
    }
    assert!(heap.allocator.regions.is_empty());
    assert!(heap.allocator.free_list.is_empty());
    assert!(os.held.is_empty());
}
