use memalloc::block::{Block, BLOCK_HEADER_SIZE};
use memalloc::freelist::FreeList;
use memalloc::kernel::{Kernel, RegionError};
use memalloc::layout::{locate, payload_size};
use memalloc::region::REGION_HEADER_SIZE;

const PAGE: usize = 4096;
const BASE: usize = 0x20_0000;

fn index_of(list: &FreeList) -> Vec<usize> {
    let mut entries = Vec::new();
    let mut walk = list.items.iter();
    while let Some(entry) = walk.next() {
        entries.push(*entry);
    }
    entries
}

fn blocks_of(kernel: &Kernel, r: usize) -> Vec<(usize, usize, bool)> {
    let region = &kernel.regions.node_at(r).data;
    let mut blocks = Vec::new();
    for b in 0..region.blocks.len() {
        let header = region.blocks.node_at(b).data;
        blocks.push((region.blocks.addr_at(b), header.size, header.is_free));
    }
    blocks
}

#[test]
fn header_sizes() {
    assert_eq!(BLOCK_HEADER_SIZE, 40);
    assert_eq!(REGION_HEADER_SIZE, 48);
}

#[test]
fn new_kernel_is_empty() {
    let kernel = Kernel::new();
    assert!(kernel.regions.is_empty());
    assert!(kernel.free_list.is_empty());
    assert_eq!(kernel.page_size, 0);
}

#[test]
fn region_size_is_whole_pages() {
    let mut kernel = Kernel::new();
    assert_eq!(kernel.region_size(8), None);
    kernel.page_size = PAGE;
    assert_eq!(kernel.region_size(0), Some(4096));
    assert_eq!(kernel.region_size(8), Some(4096));
    assert_eq!(kernel.region_size(4008), Some(4096));
    assert_eq!(kernel.region_size(4009), Some(8192));
    assert_eq!(kernel.region_size(8104), Some(8192));
    assert_eq!(kernel.region_size(8105), Some(12288));
    assert_eq!(kernel.region_size(usize::MAX), None);
    assert_eq!(kernel.region_size(usize::MAX - 4096), None);
    kernel.page_size = 4100;
    assert_eq!(kernel.region_size(8), None);
    kernel.page_size = 800;
    assert_eq!(kernel.region_size(128), Some(800));
    assert_eq!(kernel.region_size(712), Some(800));
    assert_eq!(kernel.region_size(713), Some(1600));
}

#[test]
fn new_region_holds_one_free_block() {
    let mut kernel = Kernel::new();
    assert_eq!(kernel.allocate_new_region(BASE, PAGE), Ok(()));
    assert_eq!(kernel.regions.len(), 1);
    assert_eq!(kernel.regions.first(), Some(BASE));
    assert_eq!(kernel.regions.node_at(0).data.size, PAGE - REGION_HEADER_SIZE);
    assert_eq!(blocks_of(&kernel, 0), vec![(BASE + 48, PAGE - 88, true)]);
    assert_eq!(kernel.regions.node_at(0).data.blocks.node_at(0).data.region, BASE);
    assert_eq!(index_of(&kernel.free_list), vec![BASE + 48]);
    assert_eq!(kernel.free_list.items.first(), Some(BASE + 88));
}

#[test]
fn region_errors() {
    let mut kernel = Kernel::new();
    assert_eq!(kernel.allocate_new_region(0, PAGE), Err(RegionError::OutOfMemory));
    assert_eq!(kernel.allocate_new_region(BASE + 1, PAGE), Err(RegionError::Unusable));
    assert_eq!(kernel.allocate_new_region(BASE, PAGE + 1), Err(RegionError::Unusable));
    assert_eq!(kernel.allocate_new_region(BASE, 104), Err(RegionError::Unusable));
    assert_eq!(kernel.allocate_new_region(usize::MAX - 7, PAGE), Err(RegionError::Unusable));
    assert!(kernel.regions.is_empty());
    assert_eq!(kernel.allocate_new_region(BASE, 112), Ok(()));
    assert_eq!(kernel.allocate_new_region(BASE, PAGE), Err(RegionError::Unusable));
    assert_eq!(kernel.allocate_new_region(BASE + 104, PAGE), Err(RegionError::Unusable));
    assert_eq!(kernel.allocate_new_region(BASE - 8, 112), Err(RegionError::Unusable));
    assert_eq!(kernel.allocate_new_region(BASE + 112, 112), Ok(()));
    assert_eq!(kernel.regions.len(), 2);
    assert_eq!(index_of(&kernel.free_list), vec![BASE + 48, BASE + 112 + 48]);
}

#[test]
fn take_splits_and_indexes_the_rest() {
    let mut kernel = Kernel::new();
    assert_eq!(kernel.allocate_new_region(BASE, PAGE), Ok(()));
    let payload = kernel.take_from_block(BASE + 48, 100);
    assert_eq!(payload, BASE + 88);
    assert_eq!(
        blocks_of(&kernel, 0),
        vec![(BASE + 48, 104, false), (BASE + 48 + 144, PAGE - 88 - 144, true)]
    );
    assert_eq!(index_of(&kernel.free_list), vec![BASE + 192]);
    assert_eq!(kernel.free_list.items.first(), Some(BASE + 232));
    let rest = kernel.regions.node_at(0).data.blocks.node_at(1);
    assert_eq!(rest.prev, Some(BASE + 48));
    assert_eq!(rest.next, None);
    assert_eq!(rest.data.region, BASE);
}

#[test]
fn take_whole_block_when_rest_is_too_small() {
    let mut kernel = Kernel::new();
    assert_eq!(kernel.allocate_new_region(BASE, 256), Ok(()));
    let payload = kernel.take_from_block(BASE + 48, 112);
    assert_eq!(payload, BASE + 88);
    assert_eq!(blocks_of(&kernel, 0), vec![(BASE + 48, 168, false)]);
    assert!(kernel.free_list.is_empty());
}

#[test]
fn find_free_block_is_first_fit() {
    let mut kernel = Kernel::new();
    assert_eq!(kernel.allocate_new_region(BASE, 256), Ok(()));
    assert_eq!(kernel.allocate_new_region(2 * BASE, 1024), Ok(()));
    assert_eq!(kernel.allocate_new_region(3 * BASE, 512), Ok(()));
    assert_eq!(kernel.free_list.find_free_block(&kernel.regions, 1), Some(BASE + 48));
    assert_eq!(kernel.free_list.find_free_block(&kernel.regions, 168), Some(BASE + 48));
    assert_eq!(kernel.free_list.find_free_block(&kernel.regions, 169), Some(2 * BASE + 48));
    assert_eq!(kernel.free_list.find_free_block(&kernel.regions, 424), Some(2 * BASE + 48));
    assert_eq!(kernel.free_list.find_free_block(&kernel.regions, 936), Some(2 * BASE + 48));
    assert_eq!(kernel.free_list.find_free_block(&kernel.regions, 937), None);
    assert_eq!(kernel.free_list.find_free_block(&kernel.regions, usize::MAX), None);
    assert_eq!(FreeList::new().find_free_block(&kernel.regions, 1), None);
}

#[test]
fn free_list_insert_and_remove() {
    let mut list = FreeList::new();
    assert!(list.is_empty());
    let mut one = Block { size: 64, is_free: false, region: BASE };
    let mut two = Block { size: 32, is_free: false, region: BASE };
    assert_eq!(list.insert_free_block(&mut one, BASE + 48, BASE + 88), BASE + 88);
    assert_eq!(list.insert_free_block(&mut two, BASE + 152, BASE + 192), BASE + 192);
    assert!(one.is_free && two.is_free);
    assert_eq!((one.size, one.region), (64, BASE));
    assert!(!list.is_empty());
    assert_eq!(index_of(&list), vec![BASE + 48, BASE + 152]);
    list.remove_free_block(BASE + 999);
    assert_eq!(index_of(&list), vec![BASE + 48, BASE + 152]);
    list.remove_free_block(BASE + 48);
    assert_eq!(index_of(&list), vec![BASE + 152]);
    assert!(one.is_free);
    list.remove_free_block(BASE + 152);
    assert!(list.is_empty());
}

#[test]
fn locate_finds_headers_only() {
    let mut kernel = Kernel::new();
    assert_eq!(kernel.allocate_new_region(BASE, PAGE), Ok(()));
    assert_eq!(kernel.allocate_new_region(2 * BASE, PAGE), Ok(()));
    kernel.take_from_block(2 * BASE + 48, 8);
    assert_eq!(locate(&kernel.regions, BASE + 48), Some((0, 0)));
    assert_eq!(locate(&kernel.regions, 2 * BASE + 48), Some((1, 0)));
    assert_eq!(locate(&kernel.regions, 2 * BASE + 112), Some((1, 1)));
    assert_eq!(locate(&kernel.regions, 2 * BASE + 88), None);
    assert_eq!(locate(&kernel.regions, BASE), None);
    assert_eq!(payload_size(&kernel.regions, 2 * BASE + 48), Some(24));
    assert_eq!(payload_size(&kernel.regions, 2 * BASE + 112), Some(PAGE - 88 - 64));
    assert_eq!(payload_size(&kernel.regions, 2 * BASE + 113), None);
}

#[test]
fn merges_take_free_neighbours_in() {
    let mut kernel = Kernel::new();
    assert_eq!(kernel.allocate_new_region(BASE, 1024), Ok(()));
    let a = kernel.take_from_block(BASE + 48, 64) - BLOCK_HEADER_SIZE;
    let b = kernel.take_from_block(a + 104, 64) - BLOCK_HEADER_SIZE;
    let c = kernel.take_from_block(b + 104, 64) - BLOCK_HEADER_SIZE;
    let rest = c + 104;
    assert_eq!(index_of(&kernel.free_list), vec![rest]);

    // free `a` by hand and enter it into the index
    kernel.regions.data_mut(0).blocks.data_mut(0).is_free = true;
    assert_eq!(kernel.check_region_removal(BASE, a), None);
    assert_eq!(index_of(&kernel.free_list), vec![rest, a]);

    // `b` is freed: its front neighbour `a` takes it in
    kernel.regions.data_mut(0).blocks.data_mut(1).is_free = true;
    let mut node = b;
    {
        let Kernel { regions, free_list, .. } = &mut kernel;
        regions.data_mut(0).merge_with_prev(&mut node, free_list);
    }
    assert_eq!(node, a);
    assert_eq!(index_of(&kernel.free_list), vec![rest]);
    assert_eq!(blocks_of(&kernel, 0)[0], (a, 64 + 40 + 64, true));
    // `c` behind it is in use: nothing to merge
    {
        let Kernel { regions, free_list, .. } = &mut kernel;
        regions.data_mut(0).merge_with_next(&mut node, free_list);
    }
    assert_eq!(node, a);
    assert_eq!(blocks_of(&kernel, 0).len(), 3);
    assert_eq!(kernel.check_region_removal(BASE, node), None);
    assert_eq!(index_of(&kernel.free_list), vec![rest, a]);

    // `c` is freed: both neighbours are free, and the region empties
    kernel.regions.data_mut(0).blocks.data_mut(1).is_free = true;
    let mut node = c;
    {
        let Kernel { regions, free_list, .. } = &mut kernel;
        regions.data_mut(0).merge_with_prev(&mut node, free_list);
        regions.data_mut(0).merge_with_next(&mut node, free_list);
    }
    assert_eq!(node, a);
    assert_eq!(blocks_of(&kernel, 0), vec![(a, 1024 - 88, true)]);
    assert!(kernel.free_list.is_empty());
    assert_eq!(kernel.check_region_removal(BASE, node), Some((BASE, 1024)));
    assert!(kernel.regions.is_empty());
    assert!(kernel.free_list.is_empty());
}
