//! The allocator as its callers see it.
//!
//! The allocator does not touch the platform itself. A request that needs
//! more memory says so, and the caller brings the range it took from the
//! platform; a release that empties a region hands the region's range back
//! for the caller to return.

use vstd::prelude::*;
use crate::block::{
    padded_payload, payload_for, Block, BLOCK_HEADER_SIZE, MAX_REQUEST, WORD_SIZE,
};
use crate::freelist::first_fit;
use crate::kernel::{granted, merged, region_span, Kernel};
use crate::layout::{
    holds, is_free_block, is_used_block, lemma_fits_at, lemma_free_at_place, lemma_place, locate,
    place,
};
use crate::region::{flagged, Region, REGION_HEADER_SIZE};

verus! {

/// The allocator: a [`Kernel`] behind the interface of allocation,
/// release, and the two steps by which memory comes from the platform.
///
/// Callers that share one allocator between threads keep it behind a lock
/// and hold the lock for the whole of a request, the trip to the platform
/// included.
pub struct MmapAllocator {
    /// The manager of the free space.
    pub allocator: Kernel,
}

/// What became of a request for memory.
#[derive(Clone, Copy, Debug, PartialEq, Eq, Structural)]
pub enum Allocation {
    /// The request was served: the payload starts at this address.
    Placed(usize),
    /// No free block fits, and the page size is not known yet: tell the
    /// allocator the page size and ask again.
    NeedsPageSize,
    /// No free block fits: take a range of this many bytes from the
    /// platform and hand it over with the request.
    NeedsRegion(usize),
    /// The request cannot be served: the alignment is stricter than a word,
    /// or the size is beyond what can be computed with.
    Refused,
}

/// Payload addresses are multiples of the word size, so they serve every
/// alignment that divides it.
pub open spec fn supported(align: usize) -> bool {
    align != 0 && WORD_SIZE % align == 0
}

/// `region` spans the `len` bytes at `addr`, and its front serves a request
/// that needs `want` bytes: one block in use, and behind it the rest as a
/// free block where the rest can stand as one.
pub open spec fn served(region: Region, addr: usize, len: usize, want: int) -> bool {
    let first = (addr + REGION_HEADER_SIZE) as usize;
    let room = len - REGION_HEADER_SIZE - BLOCK_HEADER_SIZE;
    &&& region.size == len - REGION_HEADER_SIZE
    &&& if crate::kernel::worth_splitting(room, want) {
        &&& region.blocks.addrs() == seq![first, (first + BLOCK_HEADER_SIZE + want) as usize]
        &&& region.blocks.data() == seq![
            Block { size: want as usize, is_free: false, region: addr },
            Block { size: (room - want - BLOCK_HEADER_SIZE) as usize, is_free: true, region: addr },
        ]
    } else {
        &&& region.blocks.addrs() == seq![first]
        &&& region.blocks.data() == seq![Block { size: room as usize, is_free: false, region: addr }]
    }
}

impl MmapAllocator {
    /// The state of the allocator between requests.
    pub open spec fn wf(&self) -> bool {
        self.allocator.wf()
    }

    /// A live allocation with `payload` bytes of payload starts at `ptr`.
    pub open spec fn allocated(&self, ptr: usize, payload: int) -> bool {
        ptr >= BLOCK_HEADER_SIZE && is_used_block(
            &self.allocator.regions,
            (ptr - BLOCK_HEADER_SIZE) as usize,
            payload,
        )
    }

    /// Some live allocation starts at `ptr`.
    pub open spec fn live(&self, ptr: usize) -> bool {
        exists|payload: int| self.allocated(ptr, payload)
    }

    /// Constructs an allocator that holds no region yet.
    pub fn new() -> (created: Self)
        ensures
            created.wf(),
            created.allocator.regions.addrs().len() == 0,
            created.allocator.free_list.index().len() == 0,
            created.allocator.page_size == 0,
            forall|ptr: usize, payload: int| !created.allocated(ptr, payload),
    {
        let created = Self { allocator: Kernel::new() };
        proof {
            assert forall|ptr: usize, payload: int| !created.allocated(ptr, payload) by {}
        }
        created
    }

    /// Tells the allocator the page size of the machine. It is taken once:
    /// a size of 0, one that is no whole number of words, or a second
    /// telling changes nothing.
    pub fn learn_page_size(&mut self, page_size: usize) -> (taken: bool)
        requires
            old(self).wf(),
        ensures
            final(self).wf(),
            taken == (old(self).allocator.page_size == 0 && page_size > 0 && page_size % WORD_SIZE
                == 0),
            final(self).allocator.regions == old(self).allocator.regions,
            final(self).allocator.free_list == old(self).allocator.free_list,
            final(self).allocator.page_size == if taken {
                page_size
            } else {
                old(self).allocator.page_size
            },
    {
        if self.allocator.page_size == 0 && page_size > 0 && page_size % WORD_SIZE == 0 {
            self.allocator.page_size = page_size;
            true
        } else {
            false
        }
    }

    /// Asks for `size` bytes aligned to `align`.
    ///
    /// The request is served from the first block of the index that fits.
    /// Where none fits, nothing changes and the answer names what the
    /// allocator needs in order to grow.
    pub fn allocate(&mut self, size: usize, align: usize) -> (answer: Allocation)
        requires
            old(self).wf(),
        ensures
            final(self).wf(),
            ({
                let pre = old(self).allocator;
                let want = payload_for(size as int);
                let fit = first_fit(&pre.regions, pre.free_list.index(), want);
                if !supported(align) || size > MAX_REQUEST {
                    answer == Allocation::Refused && *final(self) == *old(self)
                } else if fit < pre.free_list.index().len() {
                    let block = pre.free_list.index()[fit];
                    let (r, b) = place(&pre.regions, block);
                    let payload = granted(pre.regions.data()[r].block(b).size as int, want);
                    &&& answer == Allocation::Placed((block + BLOCK_HEADER_SIZE) as usize)
                    &&& (block + BLOCK_HEADER_SIZE) % (WORD_SIZE as int) == 0
                    &&& (block + BLOCK_HEADER_SIZE) % (align as int) == 0
                    &&& payload >= size
                    &&& crate::kernel::took(pre, final(self).allocator, block, want)
                    &&& forall|q: usize, s: int|
                        final(self).allocated(q, s) <==> old(self).allocated(q, s) || (q == block
                            + BLOCK_HEADER_SIZE && s == payload)
                } else if pre.page_size == 0 {
                    answer == Allocation::NeedsPageSize && *final(self) == *old(self)
                } else if want + BLOCK_HEADER_SIZE + REGION_HEADER_SIZE + pre.page_size
                    > usize::MAX {
                    answer == Allocation::Refused && *final(self) == *old(self)
                } else {
                    &&& answer == Allocation::NeedsRegion(
                        region_span(size as int, pre.page_size as int) as usize,
                    )
                    &&& *final(self) == *old(self)
                }
            }),
    {
        if align == 0 || WORD_SIZE % align != 0 || size > MAX_REQUEST {
            return Allocation::Refused;
        }
        match self.allocator.free_list.find_free_block(&self.allocator.regions, size) {
            Some(block) => {
                let ghost want = payload_for(size as int);
                proof {
                    crate::freelist::lemma_first_fit(
                        &self.allocator.regions,
                        self.allocator.free_list.index(),
                        want,
                    );
                    crate::block::lemma_payload_for(size as int);
                    let idx = self.allocator.free_list.index();
                    let fit = first_fit(&self.allocator.regions, idx, want);
                    assert(idx[fit] == block);
                    assert(idx.contains(block));
                    assert(is_free_block(&self.allocator.regions, block));
                    let p = crate::layout::lemma_free_block_holds(&self.allocator.regions, block);
                    lemma_place(&self.allocator.regions, p.0, p.1, block);
                    crate::layout::lemma_fit_size(&self.allocator.regions, p.0, p.1, block, want);
                }
                let payload: usize = self.allocator.take_from_block(block, size);
                proof {
                    let (r, b) = place(&old(self).allocator.regions, block);
                    assert forall|i: int|
                        0 <= i < final(self).allocator.regions.data().len() implies (
                    #[trigger] final(self).allocator.regions.data()[i]).has_used() by {
                        if i != r {
                            assert(final(self).allocator.regions.data()[i] == old(
                                self,
                            ).allocator.regions.data()[i]);
                        }
                    }
                    crate::utils::lemma_multiple_of_multiple(
                        payload as int,
                        WORD_SIZE as int,
                        align as int,
                    );
                    let given = granted(
                        old(self).allocator.regions.data()[r].block(b).size as int,
                        want,
                    );
                    assert forall|q: usize, s: int|
                        final(self).allocated(q, s) <==> old(self).allocated(q, s) || (q == block
                            + BLOCK_HEADER_SIZE && s == given) by {
                        if q >= BLOCK_HEADER_SIZE {
                            let a = (q - BLOCK_HEADER_SIZE) as usize;
                            assert(is_used_block(&final(self).allocator.regions, a, s)
                                <==> is_used_block(&old(self).allocator.regions, a, s) || (a
                                == block && s == given));
                        }
                    }
                }
                Allocation::Placed(payload)
            },
            None => {
                if self.allocator.page_size == 0 {
                    return Allocation::NeedsPageSize;
                }
                match self.allocator.region_size(size) {
                    Some(len) => Allocation::NeedsRegion(len),
                    None => Allocation::Refused,
                }
            },
        }
    }

    /// Serves a request for `size` bytes aligned to `align` from the range
    /// of `len` bytes at `addr`, which the caller has just taken from the
    /// platform: the range becomes a region, and the request gets the front
    /// of its one block.
    ///
    /// An address of 0 stands for a platform that had nothing to give.
    /// Where the range cannot be a region, or cannot hold the request,
    /// nothing changes and the range is the caller's still.
    pub fn allocate_in_region(&mut self, addr: usize, len: usize, size: usize, align: usize) -> (placed:
        Option<usize>)
        requires
            old(self).wf(),
        ensures
            final(self).wf(),
            ({
                let pre = old(self).allocator;
                let want = payload_for(size as int);
                let room = len - REGION_HEADER_SIZE - BLOCK_HEADER_SIZE;
                if supported(align) && size <= MAX_REQUEST && pre.usable(addr, len) && room
                    >= want {
                    let n = pre.regions.data().len() as int;
                    &&& placed == Some((addr + REGION_HEADER_SIZE + BLOCK_HEADER_SIZE) as usize)
                    &&& (addr + REGION_HEADER_SIZE + BLOCK_HEADER_SIZE) % (WORD_SIZE as int) == 0
                    &&& (addr + REGION_HEADER_SIZE + BLOCK_HEADER_SIZE) % (align as int) == 0
                    &&& granted(room, want) >= size
                    &&& final(self).allocator.page_size == pre.page_size
                    &&& final(self).allocator.regions.addrs() == pre.regions.addrs().push(addr)
                    &&& final(self).allocator.regions.data().len() == n + 1
                    &&& final(self).allocator.regions.data().take(n) == pre.regions.data()
                    &&& served(final(self).allocator.regions.data()[n], addr, len, want)
                    &&& final(self).allocator.free_list.index() == if crate::kernel::worth_splitting(
                        room,
                        want,
                    ) {
                        pre.free_list.index().push(
                            (addr + REGION_HEADER_SIZE + BLOCK_HEADER_SIZE + want) as usize,
                        )
                    } else {
                        pre.free_list.index()
                    }
                    &&& forall|q: usize, s: int|
                        final(self).allocated(q, s) <==> old(self).allocated(q, s) || (q == addr
                            + REGION_HEADER_SIZE + BLOCK_HEADER_SIZE && s == granted(room, want))
                } else {
                    placed.is_none() && *final(self) == *old(self)
                }
            }),
    {
        if align == 0 || WORD_SIZE % align != 0 {
            return None;
        }
        let want: usize = match padded_payload(size) {
            Some(p) => p,
            None => {
                return None;
            },
        };
        if len < REGION_HEADER_SIZE + BLOCK_HEADER_SIZE || len - REGION_HEADER_SIZE
            - BLOCK_HEADER_SIZE < want {
            return None;
        }
        match self.allocator.allocate_new_region(addr, len) {
            Err(_) => None,
            Ok(_) => {
                let ghost mid = self.allocator;
                let ghost n = old(self).allocator.regions.data().len() as int;
                let first: usize = addr + REGION_HEADER_SIZE;
                proof {
                    crate::block::lemma_payload_for(size as int);
                    let fresh = mid.regions.data()[n];
                    assert(fresh.addr_of(0) == first);
                    assert(fresh.block(0).size == len - REGION_HEADER_SIZE - BLOCK_HEADER_SIZE);
                    assert(holds(&mid.regions, n, 0, first));
                    lemma_fits_at(&mid.regions, n, 0, want as int);
                    lemma_place(&mid.regions, n, 0, first);
                    crate::freelist::lemma_push_contains(
                        old(self).allocator.free_list.index(),
                        first,
                        first,
                    );
                    old(self).allocator.lemma_usable_is_new(addr, len);
                }
                let payload: usize = self.allocator.take_from_block(first, size);
                proof {
                    let post = final(self).allocator;
                    let pre = old(self).allocator;
                    assert(post.regions.data().take(n) =~= pre.regions.data()) by {
                        assert forall|i: int| 0 <= i < n implies post.regions.data().take(n)[i]
                            == pre.regions.data()[i] by {
                            assert(post.regions.data()[i] == mid.regions.data()[i]);
                            assert(mid.regions.data().take(n)[i] == mid.regions.data()[i]);
                        }
                    }
                    assert forall|i: int| 0 <= i < post.regions.data().len() implies (
                    #[trigger] post.regions.data()[i]).has_used() by {
                        if i != n {
                            assert(post.regions.data()[i] == mid.regions.data()[i]);
                            assert(mid.regions.data().take(n)[i] == mid.regions.data()[i]);
                            assert(pre.regions.data()[i].has_used());
                        }
                    }
                    crate::utils::lemma_multiple_of_multiple(
                        payload as int,
                        WORD_SIZE as int,
                        align as int,
                    );
                    let room = len - REGION_HEADER_SIZE - BLOCK_HEADER_SIZE;
                    assert(served(post.regions.data()[n], addr, len, want as int)) by {
                        let before = mid.regions.data()[n];
                        let after = post.regions.data()[n];
                        if crate::kernel::worth_splitting(room, want as int) {
                            assert(crate::region::cut(before, after, 0, want as int));
                            assert(after.blocks.addrs() =~= seq![
                                first,
                                (first + BLOCK_HEADER_SIZE + want) as usize,
                            ]);
                            assert(after.blocks.data() =~= seq![
                                Block { size: want as usize, is_free: false, region: addr },
                                Block {
                                    size: (room - want - BLOCK_HEADER_SIZE) as usize,
                                    is_free: true,
                                    region: addr,
                                },
                            ]);
                        } else {
                            assert(flagged(before, after, 0, false));
                            assert(after.blocks.data() =~= seq![
                                Block { size: room as usize, is_free: false, region: addr },
                            ]);
                        }
                    }
                    assert(crate::freelist::without(mid.free_list.index(), first)
                        =~= pre.free_list.index()) by {
                        let idx = mid.free_list.index();
                        mid.free_list.lemma_index_distinct();
                        let last = pre.free_list.index().len() as int;
                        assert(idx[last] == first);
                        assert(idx.index_of(first) == last);
                    }
                    assert forall|q: usize, s: int|
                        final(self).allocated(q, s) <==> old(self).allocated(q, s) || (q == addr
                            + REGION_HEADER_SIZE + BLOCK_HEADER_SIZE && s == granted(
                            room,
                            want as int,
                        )) by {
                        if q >= BLOCK_HEADER_SIZE {
                            let a = (q - BLOCK_HEADER_SIZE) as usize;
                            assert(is_used_block(&post.regions, a, s) <==> is_used_block(
                                &mid.regions,
                                a,
                                s,
                            ) || (a == first && s == granted(room, want as int)));
                            assert(is_used_block(&mid.regions, a, s) <==> is_used_block(
                                &pre.regions,
                                a,
                                s,
                            ));
                        }
                    }
                }
                Some(payload)
            },
        }
    }

    /// Takes back the allocation at `ptr`. `size` and `align` are what the
    /// caller asked for; the header in front of the payload is what counts.
    ///
    /// The block is merged with the free blocks beside it. Where that
    /// leaves the region with nothing in use, the region is dropped and its
    /// range is the answer, as its address and its length in bytes: the
    /// caller returns it to the platform. Address 0 and an address at which
    /// no allocation lives change nothing.
    pub fn deallocate(&mut self, ptr: usize, size: usize, align: usize) -> (out: Option<(usize, usize)>)
        requires
            old(self).wf(),
        ensures
            final(self).wf(),
            final(self).allocator.page_size == old(self).allocator.page_size,
            forall|q: usize, s: int|
                final(self).allocated(q, s) <==> old(self).allocated(q, s) && q != ptr,
            !old(self).live(ptr) ==> out.is_none() && *final(self) == *old(self),
            old(self).live(ptr) ==> released(*old(self), *final(self), ptr, out),
            old(self).live(ptr) ==> ({
                let regions = old(self).allocator.regions;
                let (r, b) = place(&regions, (ptr - BLOCK_HEADER_SIZE) as usize);
                if regions.data()[r].all_free_but(b) {
                    &&& out == Some(
                        (regions.addrs()[r], (regions.data()[r].size + REGION_HEADER_SIZE) as usize),
                    )
                    &&& final(self).allocator.regions.addrs() == regions.addrs().remove(r)
                    &&& final(self).allocator.regions.data() == regions.data().remove(r)
                } else {
                    &&& out.is_none()
                    &&& final(self).allocator.regions.addrs() == regions.addrs()
                }
            }),
    {
        if ptr < BLOCK_HEADER_SIZE {
            return None;
        }
        let block: usize = ptr - BLOCK_HEADER_SIZE;
        let (r, b) = match locate(&self.allocator.regions, block) {
            Some(found) => found,
            None => {
                proof {
                    assert forall|s: int| !old(self).allocated(ptr, s) by {
                        if is_used_block(&self.allocator.regions, block, s) {
                            let p = crate::layout::lemma_used_block_holds(
                                &self.allocator.regions,
                                block,
                                s,
                            );
                        }
                    }
                }
                return None;
            },
        };
        let header: Block = self.allocator.regions.node_at(r).data.blocks.node_at(b).data;
        proof {
            lemma_free_at_place(&self.allocator.regions, r as int, b as int, block);
        }
        if header.is_free {
            return None;
        }
        assert(old(self).allocated(ptr, header.size as int));
        let region: usize = self.allocator.regions.addr_at(r);
        let ghost r0 = self.allocator.regions.data()[r as int];
        assert(r0.laid_out());
        let mut node: usize = block;
        let held = self.allocator.regions.data_mut(r);
        let flag = held.blocks.data_mut(b);
        flag.is_free = true;
        let ghost r1 = *held;
        proof {
            assert(r1.blocks.data() =~= r0.blocks.data().update(
                b as int,
                Block {
                    size: r0.block(b as int).size,
                    is_free: true,
                    region: r0.block(b as int).region,
                },
            ));
            assert(flagged(r0, r1, b as int, true));
            crate::region::lemma_flagged(r0, r1, b as int, true);
            assert(r1.blocks.addrs()[b as int] == block);
            assert(r1.blocks.addrs().index_of(block) == b) by {
                let k = r1.blocks.addrs().index_of(block);
                assert(r1.blocks.addrs()[k] == block);
            }
        }
        held.merge_with_prev(&mut node, &mut self.allocator.free_list);
        let ghost r2 = *held;
        let ghost front_index = self.allocator.free_list.index();
        let ghost front_node = node;
        held.merge_with_next(&mut node, &mut self.allocator.free_list);
        let ghost mid = self.allocator;
        proof {
            assert(merged(old(self).allocator, mid, block, r1, r2, front_index, node));
            old(self).allocator.lemma_merged(mid, block, r1, r2, front_index, node);
        }
        let out = self.allocator.check_region_removal(region, node);
        proof {
            assert forall|q: usize, s: int|
                final(self).allocated(q, s) <==> old(self).allocated(q, s) && q != ptr by {
                if q >= BLOCK_HEADER_SIZE {
                    let a = (q - BLOCK_HEADER_SIZE) as usize;
                    assert(is_used_block(&final(self).allocator.regions, a, s) <==> is_used_block(
                        &mid.regions,
                        a,
                        s,
                    ));
                    assert(is_used_block(&mid.regions, a, s) <==> is_used_block(
                        &old(self).allocator.regions,
                        a,
                        s,
                    ) && a != block);
                }
            }
        }
        out
    }
}

/// `post` is `pre` after the live allocation at `ptr` was taken back, and
/// `out` is the range that left with it, if one did.
pub open spec fn released(
    pre: MmapAllocator,
    post: MmapAllocator,
    ptr: usize,
    out: Option<(usize, usize)>,
) -> bool {
    let block = (ptr - BLOCK_HEADER_SIZE) as usize;
    exists|mid: Kernel, r1: Region, r2: Region, front_index: Seq<usize>, node: usize|
        #![trigger merged(pre.allocator, mid, block, r1, r2, front_index, node)]
        merged(pre.allocator, mid, block, r1, r2, front_index, node) && crate::kernel::settled(
            mid,
            post.allocator,
            node,
            out,
        )
}

} // verus!
