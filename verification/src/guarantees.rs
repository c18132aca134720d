//! What holds of the allocator between any two requests.
//!
//! Every request leaves the allocator well formed, so what is proved here
//! of a well-formed allocator holds after any run of requests.

use vstd::prelude::*;
use crate::block::{payload_for, BLOCK_HEADER_SIZE, MIN_BLOCK_SIZE, WORD_SIZE};
use crate::freelist::{first_fit, lemma_first_fit, lemma_without_contains, without};
use crate::kernel::{adopted, merged, settled, Kernel};
use crate::layout::{
    apart, block_fits, holds, is_free_block, lemma_fits_at, lemma_free_at_place, lemma_place,
    lemma_used_block_holds, place,
};
use crate::mmap::{released, MmapAllocator};
use crate::region::{flagged, Region, REGION_HEADER_SIZE};

verus! {

/// Two live allocations share no byte of payload.
pub proof fn lemma_allocations_apart(
    heap: MmapAllocator,
    p: usize,
    p_payload: int,
    q: usize,
    q_payload: int,
)
    requires
        heap.wf(),
        heap.allocated(p, p_payload),
        heap.allocated(q, q_payload),
        p != q,
    ensures
        p + p_payload <= q || q + q_payload <= p,
{
    let regions = &heap.allocator.regions;
    let (i, j) = lemma_used_block_holds(regions, (p - BLOCK_HEADER_SIZE) as usize, p_payload);
    let (i2, j2) = lemma_used_block_holds(regions, (q - BLOCK_HEADER_SIZE) as usize, q_payload);
    let a = regions.data()[i];
    let b = regions.data()[i2];
    assert(a.laid_out() && b.laid_out());
    a.lemma_block_within(j);
    b.lemma_block_within(j2);
    if i == i2 {
        if j < j2 {
            a.lemma_blocks_ascend(j, j2);
        } else if j2 < j {
            a.lemma_blocks_ascend(j2, j);
        }
    } else if i < i2 {
        assert(apart(a, b));
    } else {
        assert(apart(b, a));
    }
}

/// The payload of a live allocation starts at a multiple of the word size
/// that is not 0, and is made of whole words, no fewer than the smallest
/// payload.
pub proof fn lemma_allocation_aligned(heap: MmapAllocator, p: usize, payload: int)
    requires
        heap.wf(),
        heap.allocated(p, payload),
    ensures
        p != 0,
        p % WORD_SIZE == 0,
        payload % (WORD_SIZE as int) == 0,
        payload >= MIN_BLOCK_SIZE,
{
    let regions = &heap.allocator.regions;
    let (i, j) = lemma_used_block_holds(regions, (p - BLOCK_HEADER_SIZE) as usize, payload);
    let a = regions.data()[i];
    assert(a.laid_out());
    a.lemma_block_within(j);
    assert(a.end_of(j) >= 0);
}

/// No header of a block reaches into the payload of a live allocation.
pub proof fn lemma_block_header_outside_allocations(
    heap: MmapAllocator,
    i: int,
    j: int,
    p: usize,
    payload: int,
)
    requires
        heap.wf(),
        0 <= i < heap.allocator.regions.data().len(),
        0 <= j < heap.allocator.regions.data()[i].count(),
        heap.allocated(p, payload),
    ensures
        heap.allocator.regions.data()[i].addr_of(j) + BLOCK_HEADER_SIZE <= p || p + payload
            <= heap.allocator.regions.data()[i].addr_of(j),
{
    let regions = &heap.allocator.regions;
    let (i2, j2) = lemma_used_block_holds(regions, (p - BLOCK_HEADER_SIZE) as usize, payload);
    let a = regions.data()[i];
    let b = regions.data()[i2];
    assert(a.laid_out() && b.laid_out());
    a.lemma_block_within(j);
    b.lemma_block_within(j2);
    if i == i2 {
        if j < j2 {
            a.lemma_blocks_ascend(j, j2);
        } else if j2 < j {
            a.lemma_blocks_ascend(j2, j);
        }
    } else if i < i2 {
        assert(apart(a, b));
    } else {
        assert(apart(b, a));
    }
}

/// No header of a region reaches into the payload of a live allocation.
pub proof fn lemma_region_header_outside_allocations(
    heap: MmapAllocator,
    i: int,
    p: usize,
    payload: int,
)
    requires
        heap.wf(),
        0 <= i < heap.allocator.regions.data().len(),
        heap.allocated(p, payload),
    ensures
        heap.allocator.regions.addrs()[i] + REGION_HEADER_SIZE <= p || p + payload
            <= heap.allocator.regions.addrs()[i],
{
    let regions = &heap.allocator.regions;
    let (i2, j2) = lemma_used_block_holds(regions, (p - BLOCK_HEADER_SIZE) as usize, payload);
    let a = regions.data()[i];
    let b = regions.data()[i2];
    assert(a.laid_out() && b.laid_out());
    b.lemma_block_within(j2);
    if i < i2 {
        assert(apart(a, b));
    } else if i2 < i {
        assert(apart(b, a));
    }
}

/// No node of the index reaches into the payload of a live allocation:
/// each lies in the payload of a free block. With the two lemmas before,
/// nothing that the allocator keeps for itself shares a byte with what a
/// caller holds.
pub proof fn lemma_index_node_outside_allocations(
    heap: MmapAllocator,
    k: int,
    p: usize,
    payload: int,
)
    requires
        heap.wf(),
        0 <= k < heap.allocator.free_list.items.addrs().len(),
        heap.allocated(p, payload),
    ensures
        heap.allocator.free_list.items.addrs()[k] + MIN_BLOCK_SIZE <= p || p + payload
            <= heap.allocator.free_list.items.addrs()[k],
{
    let regions = &heap.allocator.regions;
    let index = heap.allocator.free_list.index();
    let node = heap.allocator.free_list.items.addrs()[k];
    let entry = index[k];
    assert(node == entry + BLOCK_HEADER_SIZE);
    assert(index.contains(entry));
    assert(is_free_block(regions, entry));
    let (i, j) = crate::layout::lemma_free_block_holds(regions, entry);
    let (i2, j2) = lemma_used_block_holds(regions, (p - BLOCK_HEADER_SIZE) as usize, payload);
    let a = regions.data()[i];
    let b = regions.data()[i2];
    assert(a.laid_out() && b.laid_out());
    a.lemma_block_within(j);
    b.lemma_block_within(j2);
    if i == i2 {
        if j < j2 {
            a.lemma_blocks_ascend(j, j2);
        } else if j2 < j {
            a.lemma_blocks_ascend(j2, j);
        }
    } else if i < i2 {
        assert(apart(a, b));
    } else {
        assert(apart(b, a));
    }
}

/// A live allocation has one size.
pub proof fn lemma_allocation_has_one_size(heap: MmapAllocator, p: usize, one: int, other: int)
    requires
        heap.wf(),
        heap.allocated(p, one),
        heap.allocated(p, other),
    ensures
        one == other,
{
    let regions = &heap.allocator.regions;
    let addr = (p - BLOCK_HEADER_SIZE) as usize;
    let (i, j) = lemma_used_block_holds(regions, addr, one);
    let (i2, j2) = lemma_used_block_holds(regions, addr, other);
    crate::layout::lemma_one_block_per_address(regions, i, j, i2, j2, addr);
}

/// Between requests no region holds two free blocks side by side.
pub proof fn lemma_no_adjacent_free_blocks(heap: MmapAllocator, i: int, j: int)
    requires
        heap.wf(),
        0 <= i < heap.allocator.regions.data().len(),
        0 <= j,
        j + 1 < heap.allocator.regions.data()[i].count(),
    ensures
        !(heap.allocator.regions.data()[i].block(j).is_free && heap.allocator.regions.data()[i].block(
            j + 1,
        ).is_free),
{
    let held = heap.allocator.regions.data()[i];
    assert(held.no_adjacent_free());
}

/// Every region held has a live allocation inside its range; so a region
/// whose one block is free is never held between requests.
pub proof fn lemma_region_holds_allocation(heap: MmapAllocator, i: int) -> (witness: (usize, int))
    requires
        heap.wf(),
        0 <= i < heap.allocator.regions.data().len(),
    ensures
        heap.allocated(witness.0, witness.1),
        heap.allocator.regions.addrs()[i] + REGION_HEADER_SIZE + BLOCK_HEADER_SIZE <= witness.0,
        witness.0 + witness.1 <= heap.allocator.regions.addrs()[i] + REGION_HEADER_SIZE
            + heap.allocator.regions.data()[i].size,
        heap.allocator.regions.data()[i].count() == 1 ==> !heap.allocator.regions.data()[i].block(
            0,
        ).is_free,
{
    let held = heap.allocator.regions.data()[i];
    assert(held.laid_out());
    assert(held.has_used());
    let j = choose|j: int| 0 <= j < held.count() && !(#[trigger] held.block(j)).is_free;
    held.lemma_block_within(j);
    let addr = held.addr_of(j);
    let payload = held.block(j).size as int;
    assert(held.has_used_at(addr, payload));
    ((addr + BLOCK_HEADER_SIZE) as usize, payload)
}

/// With no live allocation left, no region is held and the index is empty.
pub proof fn lemma_nothing_live_nothing_held(heap: MmapAllocator)
    requires
        heap.wf(),
        forall|p: usize, payload: int| !heap.allocated(p, payload),
    ensures
        heap.allocator.regions.addrs().len() == 0,
        heap.allocator.regions.data().len() == 0,
        heap.allocator.free_list.index().len() == 0,
{
    if heap.allocator.regions.data().len() > 0 {
        let witness = lemma_region_holds_allocation(heap, 0);
        assert(heap.allocated(witness.0, witness.1));
    }
    let index = heap.allocator.free_list.index();
    if index.len() > 0 {
        assert(index.contains(index[0]));
        assert(is_free_block(&heap.allocator.regions, index[0]));
    }
}

/// The block behind the live allocation at `ptr` is the one entry of the
/// index, if any, that can hold `want` bytes.
pub open spec fn only_the_block_behind_fits(heap: MmapAllocator, ptr: usize, want: int) -> bool {
    let regions = &heap.allocator.regions;
    let (r, b) = place(regions, (ptr - BLOCK_HEADER_SIZE) as usize);
    forall|k: int|
        0 <= k < heap.allocator.free_list.index().len() && #[trigger] block_fits(
            regions,
            heap.allocator.free_list.index()[k],
            want,
        ) ==> b + 1 < regions.data()[r].count() && heap.allocator.free_list.index()[k]
            == regions.data()[r].addr_of(b + 1)
}

/// The live allocation at `ptr` has a block in use in front of it, or none,
/// and is not the one block in use of its region.
pub open spec fn stays_in_place(heap: MmapAllocator, ptr: usize) -> bool {
    let regions = &heap.allocator.regions;
    let (r, b) = place(regions, (ptr - BLOCK_HEADER_SIZE) as usize);
    &&& b > 0 ==> !regions.data()[r].block(b - 1).is_free
    &&& exists|j: int|
        0 <= j < regions.data()[r].count() && j != b && !(#[trigger] regions.data()[r].block(
            j,
        )).is_free
}

/// An allocation that was given back is the first fit of the next request
/// that it can hold, so that request gets the same address again. This
/// holds where the block was not merged into a free block in front of it,
/// its region stayed, and no older entry of the index can hold the request.
pub proof fn lemma_freed_block_is_first_fit(
    pre: MmapAllocator,
    post: MmapAllocator,
    ptr: usize,
    payload: int,
    out: Option<(usize, usize)>,
    size: usize,
)
    requires
        pre.wf(),
        pre.allocated(ptr, payload),
        released(pre, post, ptr, out),
        payload_for(size as int) <= payload,
        stays_in_place(pre, ptr),
        only_the_block_behind_fits(pre, ptr, payload_for(size as int)),
    ensures
        out.is_none(),
        first_fit(
            &post.allocator.regions,
            post.allocator.free_list.index(),
            payload_for(size as int),
        ) < post.allocator.free_list.index().len(),
        post.allocator.free_list.index()[first_fit(
            &post.allocator.regions,
            post.allocator.free_list.index(),
            payload_for(size as int),
        )] + BLOCK_HEADER_SIZE == ptr,
{
    let want = payload_for(size as int);
    let block = (ptr - BLOCK_HEADER_SIZE) as usize;
    let k0 = pre.allocator;
    let k2 = post.allocator;
    let (mid, r1, r2, front_index, node) = choose|
        mid: Kernel,
        r1: Region,
        r2: Region,
        front_index: Seq<usize>,
        node: usize,
    | #![trigger merged(k0, mid, block, r1, r2, front_index, node)]
        merged(k0, mid, block, r1, r2, front_index, node) && settled(mid, k2, node, out);
    let (r, b) = place(&k0.regions, block);
    let r0 = k0.regions.data()[r];
    let r3 = mid.regions.data()[r];
    let idx0 = k0.free_list.index();
    let (i, j) = lemma_used_block_holds(&k0.regions, block, payload);
    lemma_place(&k0.regions, i, j, block);
    lemma_free_at_place(&k0.regions, r, b, block);
    assert(r0.laid_out());
    assert(r0.block(b).size == payload);
    k0.lemma_merged(mid, block, r1, r2, front_index, node);
    k0.free_list.lemma_index_distinct();
    // the block in front stays out of it
    assert(r1.block(b - 1) == r0.block(b - 1) || b == 0);
    assert(node == block && r2 == r1 && front_index == idx0);
    assert(r2.blocks.addrs()[b] == block);
    assert(r2.blocks.addrs().index_of(block) == b) by {
        let at = r2.blocks.addrs().index_of(block);
        assert(r2.blocks.addrs()[at] == block);
    }
    let back = b + 1 < r2.count() && r2.block(b + 1).is_free;
    let behind = r0.addr_of(b + 1);
    crate::region::lemma_flagged(r0, r1, b, true);
    if back {
        assert(r2.block(b + 1) == r0.block(b + 1));
        assert(r2.addr_of(b + 1) == behind);
        r2.lemma_block_within(b + 1);
        assert(r2.end_of(b) == r2.addr_of(b + 1));
    }
    assert(r3.addr_of(b) == block);
    assert(r3.block(b).size >= payload);
    assert(holds(&mid.regions, r, b, block));
    lemma_place(&mid.regions, r, b, block);
    // the region stays
    let other = choose|j: int| 0 <= j < r0.count() && j != b && !(#[trigger] r0.block(j)).is_free;
    assert(r3.count() >= 2) by {
        assert(r1.block(other) == r0.block(other));
        if back {
            assert(other != b + 1);
        }
    }
    assert(out.is_none());
    let idx1 = mid.free_list.index();
    let idx2 = k2.free_list.index();
    assert(!idx0.contains(block));
    lemma_without_contains(idx0, behind, block);
    assert(!idx1.contains(block));
    assert(without(idx1, block) == idx1);
    assert(idx2 == idx1.push(block));
    let r4 = k2.regions.data()[r];
    assert(flagged(r3, r4, b, true));
    assert(r4.addr_of(b) == block);
    assert(r4.block(b).size >= want);
    lemma_fits_at(&k2.regions, r, b, want);
    assert forall|k: int| 0 <= k < idx1.len() implies !block_fits(&k2.regions, idx1[k], want) by {
        let e = idx1[k];
        assert(idx1.contains(e));
        lemma_without_contains(idx0, behind, e);
        assert(idx0.contains(e));
        let at = idx0.index_of(e);
        assert(idx0[at] == e);
        assert(is_free_block(&k0.regions, e));
        if block_fits(&k2.regions, e, want) {
            reveal(block_fits);
            let (i2, j2) = choose|i2: int, j2: int| #[trigger]
                holds(&k2.regions, i2, j2, e) && k2.regions.data()[i2].block(j2).size >= want;
            if i2 != r {
                assert(k2.regions.data()[i2] == mid.regions.data()[i2]);
                assert(mid.regions.data()[i2] == k0.regions.data()[i2]);
                assert(holds(&k0.regions, i2, j2, e));
                assert(block_fits(&k0.regions, idx0[at], want));
                crate::layout::lemma_one_block_per_address(&k0.regions, i2, j2, r, b + 1, e);
            } else {
                assert(r4.addr_of(j2) == r3.addr_of(j2));
                assert(j2 != b);
                assert(r4.block(j2).size == r3.block(j2).size);
                let j0 = if back && j2 > b {
                    j2 + 1
                } else {
                    j2
                };
                assert(r3.addr_of(j2) == r0.addr_of(j0));
                assert(r3.block(j2).size == r0.block(j0).size);
                assert(holds(&k0.regions, r, j0, e));
                assert(block_fits(&k0.regions, idx0[at], want));
                crate::layout::lemma_one_block_per_address(&k0.regions, r, j0, r, b + 1, e);
                lemma_free_at_place(&k0.regions, r, b + 1, e);
            }
        }
    }
    lemma_first_fit(&k2.regions, idx2, want);
    let f = first_fit(&k2.regions, idx2, want);
    let n = idx1.len() as int;
    assert(idx2[n] == block);
    if f < n {
        assert(idx2[f] == idx1[f]);
        assert(block_fits(&k2.regions, idx1[f], want));
    }
    if f > n {
        assert(!block_fits(&k2.regions, idx2[n], want));
    }
}

/// Where no free block can hold a request, the block of a region that has
/// just joined is the first fit: a request served from it is served as
/// first fit asks.
pub proof fn lemma_new_block_is_first_fit(
    pre: Kernel,
    post: Kernel,
    addr: usize,
    len: usize,
    want: int,
)
    requires
        pre.sound(),
        post.sound(),
        pre.usable(addr, len),
        adopted(pre, post, addr, len),
        first_fit(&pre.regions, pre.free_list.index(), want) == pre.free_list.index().len(),
        len - REGION_HEADER_SIZE - BLOCK_HEADER_SIZE >= want,
    ensures
        first_fit(&post.regions, post.free_list.index(), want) == pre.free_list.index().len(),
        post.free_list.index()[pre.free_list.index().len() as int] == addr + REGION_HEADER_SIZE,
{
    let first = (addr + REGION_HEADER_SIZE) as usize;
    let old_index = pre.free_list.index();
    let index = post.free_list.index();
    let n = pre.regions.data().len() as int;
    let last = old_index.len() as int;
    let fresh = post.regions.data()[n];
    pre.lemma_usable_is_new(addr, len);
    lemma_first_fit(&pre.regions, old_index, want);
    assert(fresh.addr_of(0) == first);
    assert(holds(&post.regions, n, 0, first));
    lemma_fits_at(&post.regions, n, 0, want);
    assert(index[last] == first);
    assert forall|k: int| 0 <= k < last implies !block_fits(&post.regions, index[k], want) by {
        let e = index[k];
        assert(e == old_index[k]);
        assert(old_index.contains(e));
        assert(!block_fits(&pre.regions, old_index[k], want));
        if block_fits(&post.regions, e, want) {
            reveal(block_fits);
            let (i, j) = choose|i: int, j: int| #[trigger]
                holds(&post.regions, i, j, e) && post.regions.data()[i].block(j).size >= want;
            if i < n {
                assert(post.regions.data().take(n)[i] == post.regions.data()[i]);
                assert(holds(&pre.regions, i, j, e));
            }
        }
    }
    lemma_first_fit(&post.regions, index, want);
    let f = first_fit(&post.regions, index, want);
    if f < last {
        assert(block_fits(&post.regions, index[f], want));
    }
    if f > last {
        assert(!block_fits(&post.regions, index[last], want));
    }
}

} // verus!
