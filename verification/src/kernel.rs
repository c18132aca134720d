//! The manager of the free space: regions, blocks and the index of free
//! blocks, and the steps that serve and take back memory.

use vstd::prelude::*;
use crate::block::{
    padded_payload, payload_for, Block, BLOCK_HEADER_SIZE, MAX_REQUEST, MIN_BLOCK_SIZE, WORD_SIZE,
};
use crate::freelist::{
    lemma_push_contains, lemma_without_contains, lemma_without_distinct, without, FreeList,
};
use crate::layout::{
    apart, block_fits, holds, is_free_block, is_used_block, lemma_free_at_place,
    lemma_region_added, lemma_region_removed, lemma_region_replaced, locate, place,
    regions_laid_out,
};
use crate::list::List;
use crate::region::{
    absorbed, cut, flagged, lemma_cut, lemma_flagged, Region, REGION_HEADER_SIZE,
};
use crate::utils::{align, align_up};

verus! {

/// The state of the allocator.
pub struct Kernel {
    /// The regions taken from the platform and not yet given back.
    pub regions: List<Region>,
    /// Page size of the machine; 0 until it is known.
    pub page_size: usize,
    /// The index of free blocks.
    pub free_list: FreeList,
}

/// Why a range offered as a new region was turned down.
#[derive(Clone, Copy, Debug, PartialEq, Eq, Structural)]
pub enum RegionError {
    /// The platform had no memory to give: the range starts at address 0.
    OutOfMemory,
    /// The range cannot hold a region: it is not made of whole words, too
    /// short for one block, runs past the end of the address space, or
    /// shares bytes with a region already held.
    Unusable,
}

/// A free block of `payload` bytes is cut in two for a request that needs
/// `want` bytes when the rest can hold a header and the smallest payload.
pub open spec fn worth_splitting(payload: int, want: int) -> bool {
    payload + BLOCK_HEADER_SIZE >= BLOCK_HEADER_SIZE + want + BLOCK_HEADER_SIZE + MIN_BLOCK_SIZE
}

/// Bytes to take from the platform for a request of `size` bytes where
/// pages have `page` bytes: room for the region header, one block header
/// and the payload, in whole pages.
pub open spec fn region_span(size: int, page: int) -> int {
    align_up(payload_for(size) + BLOCK_HEADER_SIZE + REGION_HEADER_SIZE, page)
}

/// `after` is a region at `addr` that spans `len` bytes and holds one free block.
pub open spec fn fresh_region(after: Region, addr: usize, len: usize) -> bool {
    &&& after.size == len - REGION_HEADER_SIZE
    &&& after.blocks.addrs() == seq![(addr + REGION_HEADER_SIZE) as usize]
    &&& after.blocks.data() == seq![
        Block {
            size: (len - REGION_HEADER_SIZE - BLOCK_HEADER_SIZE) as usize,
            is_free: true,
            region: addr,
        },
    ]
}

/// Payload that a request in need of `want` bytes gets from a free block of
/// `payload` bytes: `want` where the block is cut, else the whole block.
pub open spec fn granted(payload: int, want: int) -> int {
    if worth_splitting(payload, want) {
        want
    } else {
        payload
    }
}

/// `post` is `pre` after the block at `block`, free and not in the index,
/// was settled: where it is the one block of its region, the region has
/// left and `out` is its range (its address and its length in bytes);
/// else the block has entered the index.
pub open spec fn settled(pre: Kernel, post: Kernel, block: usize, out: Option<(usize, usize)>) -> bool {
    let (r, b) = place(&pre.regions, block);
    let before = pre.regions.data()[r];
    &&& post.page_size == pre.page_size
    &&& if before.count() == 1 {
        &&& out == Some((pre.regions.addrs()[r], (before.size + REGION_HEADER_SIZE) as usize))
        &&& post.regions.addrs() == pre.regions.addrs().remove(r)
        &&& post.regions.data() == pre.regions.data().remove(r)
        &&& post.free_list.index() == without(pre.free_list.index(), block)
    } else {
        &&& out.is_none()
        &&& post.regions.addrs() == pre.regions.addrs()
        &&& post.regions.data().len() == pre.regions.data().len()
        &&& forall|i: int|
            0 <= i < pre.regions.data().len() && i != r ==> #[trigger] post.regions.data()[i]
                == pre.regions.data()[i]
        &&& flagged(before, post.regions.data()[r], b, true)
        &&& post.free_list.index() == without(pre.free_list.index(), block).push(block)
    }
}

/// `mid` is `pre` after the block in use at `block` was marked free and
/// merged with its free neighbours, first the one in front, then the one
/// behind. `flagged_region` and `front_merged` are the block's region after
/// the first and the second of the three steps, and `node` is where the
/// merged block starts.
pub open spec fn merged(
    pre: Kernel,
    mid: Kernel,
    block: usize,
    flagged_region: Region,
    front_merged: Region,
    front_index: Seq<usize>,
    node: usize,
) -> bool {
    let (r, b) = place(&pre.regions, block);
    let r0 = pre.regions.data()[r];
    let r1 = flagged_region;
    let r2 = front_merged;
    let r3 = mid.regions.data()[r];
    let k = r2.blocks.addrs().index_of(node);
    &&& holds(&pre.regions, r, b, block)
    &&& !r0.block(b).is_free
    &&& mid.page_size == pre.page_size
    &&& mid.regions.wf()
    &&& mid.free_list.wf()
    &&& mid.regions.addrs() == pre.regions.addrs()
    &&& mid.regions.data().len() == pre.regions.data().len()
    &&& forall|i: int|
        0 <= i < pre.regions.data().len() && i != r ==> #[trigger] mid.regions.data()[i]
            == pre.regions.data()[i]
    &&& flagged(r0, r1, b, true)
    &&& r1.blocks.wf()
    &&& r2.blocks.wf()
    &&& r3.blocks.wf()
    &&& if b > 0 && r1.block(b - 1).is_free {
        &&& node == r1.addr_of(b - 1)
        &&& absorbed(r1, r2, b - 1)
        &&& front_index == without(pre.free_list.index(), r1.addr_of(b - 1))
    } else {
        &&& node == block
        &&& r2 == r1
        &&& front_index == pre.free_list.index()
    }
    &&& r2.blocks.addrs().contains(node)
    &&& if k + 1 < r2.count() && r2.block(k + 1).is_free {
        &&& absorbed(r2, r3, k)
        &&& mid.free_list.index() == without(front_index, r2.addr_of(k + 1))
    } else {
        &&& r3 == r2
        &&& mid.free_list.index() == front_index
    }
}

/// `post` is `pre` after the free block at `block` has served a request
/// that needs `want` bytes: the block is in use, cut in two where that is
/// worth it, and the index names the rest in its place.
pub open spec fn took(pre: Kernel, post: Kernel, block: usize, want: int) -> bool {
    let (r, b) = place(&pre.regions, block);
    let before = pre.regions.data()[r];
    let after = post.regions.data()[r];
    &&& holds(&pre.regions, r, b, block)
    &&& post.page_size == pre.page_size
    &&& post.regions.addrs() == pre.regions.addrs()
    &&& post.regions.data().len() == pre.regions.data().len()
    &&& forall|i: int|
        0 <= i < pre.regions.data().len() && i != r ==> #[trigger] post.regions.data()[i]
            == pre.regions.data()[i]
    &&& if worth_splitting(before.block(b).size as int, want) {
        &&& cut(before, after, b, want)
        &&& post.free_list.index() == without(pre.free_list.index(), block).push(
            (block + BLOCK_HEADER_SIZE + want) as usize,
        )
    } else {
        &&& flagged(before, after, b, false)
        &&& post.free_list.index() == without(pre.free_list.index(), block)
    }
}

/// `post` is `pre` with the `len` bytes at `addr` as one more region, which
/// holds one free block, the newest entry of the index.
pub open spec fn adopted(pre: Kernel, post: Kernel, addr: usize, len: usize) -> bool {
    let n = pre.regions.data().len() as int;
    &&& post.page_size == pre.page_size
    &&& post.regions.addrs() == pre.regions.addrs().push(addr)
    &&& post.regions.data().len() == n + 1
    &&& post.regions.data().take(n) == pre.regions.data()
    &&& fresh_region(post.regions.data()[n], addr, len)
    &&& post.free_list.index() == pre.free_list.index().push((addr + REGION_HEADER_SIZE) as usize)
}

impl Kernel {
    /// The regions are laid out, the index is well formed, and the page
    /// size, once known, is a whole number of words.
    pub open spec fn structure(&self) -> bool {
        &&& regions_laid_out(&self.regions)
        &&& self.free_list.wf()
        &&& self.page_size % WORD_SIZE == 0
    }

    /// The index names the free blocks, all but `pending`, and nothing else.
    pub open spec fn indexed(&self, pending: Option<usize>) -> bool {
        forall|addr: usize| #[trigger]
            self.free_list.index().contains(addr) <==> is_free_block(&self.regions, addr)
                && pending != Some(addr)
    }

    /// No region has two free blocks side by side.
    pub open spec fn coalesced(&self) -> bool {
        forall|i: int|
            0 <= i < self.regions.data().len() ==> (#[trigger] self.regions.data()[i]).no_adjacent_free()
    }

    /// Every region holds a block that is in use.
    pub open spec fn tidy(&self) -> bool {
        forall|i: int|
            0 <= i < self.regions.data().len() ==> (#[trigger] self.regions.data()[i]).has_used()
    }

    /// The state between two steps of one request: everything holds but that
    /// a region may consist of free space alone.
    pub open spec fn sound(&self) -> bool {
        &&& self.structure()
        &&& self.indexed(None)
        &&& self.coalesced()
    }

    /// The state between requests.
    pub open spec fn wf(&self) -> bool {
        self.sound() && self.tidy()
    }

    /// The range of `len` bytes at `addr` can become a region: it is made of
    /// whole words, holds at least one block, and shares no byte with the
    /// regions held.
    pub open spec fn usable(&self, addr: usize, len: usize) -> bool {
        &&& addr > 0
        &&& addr % WORD_SIZE == 0
        &&& len % WORD_SIZE == 0
        &&& len >= REGION_HEADER_SIZE + BLOCK_HEADER_SIZE + MIN_BLOCK_SIZE
        &&& addr + len <= usize::MAX
        &&& forall|i: int|
            0 <= i < self.regions.data().len() ==> (#[trigger] self.regions.data()[i]).limit()
                <= addr || addr + len <= self.regions.data()[i].base()
    }

    /// Creates a manager with no region and an empty index. The page size
    /// is not known yet.
    pub fn new() -> (kernel: Self)
        ensures
            kernel.wf(),
            kernel.regions.addrs().len() == 0,
            kernel.free_list.index().len() == 0,
            kernel.page_size == 0,
    {
        let kernel = Self { regions: List::new(), page_size: 0, free_list: FreeList::new() };
        proof {
            assert forall|addr: usize| #[trigger]
                kernel.free_list.index().contains(addr) <==> is_free_block(&kernel.regions, addr)
                    && None::<usize> != Some(addr) by {}
        }
        kernel
    }

    /// Bytes to take from the platform so that a request of `size` bytes can
    /// be served from a new region; nothing while the page size is unknown
    /// or no whole number of words, or when the sizes involved cannot be
    /// computed in a machine word.
    pub fn region_size(&self, size: usize) -> (len: Option<usize>)
        ensures
            match len {
                Some(n) => {
                    &&& self.page_size > 0
                    &&& self.page_size % WORD_SIZE == 0
                    &&& size <= MAX_REQUEST
                    &&& n == region_span(size as int, self.page_size as int)
                    &&& n % self.page_size == 0
                    &&& n % WORD_SIZE == 0
                    &&& n >= payload_for(size as int) + BLOCK_HEADER_SIZE + REGION_HEADER_SIZE
                    &&& payload_for(size as int) + BLOCK_HEADER_SIZE + REGION_HEADER_SIZE
                        + self.page_size <= usize::MAX
                },
                None => self.page_size == 0 || self.page_size % WORD_SIZE != 0 || size
                    > MAX_REQUEST || payload_for(size as int) + BLOCK_HEADER_SIZE
                    + REGION_HEADER_SIZE + self.page_size > usize::MAX,
            },
    {
        if self.page_size == 0 || self.page_size % WORD_SIZE != 0 {
            return None;
        }
        let payload: usize = match padded_payload(size) {
            Some(p) => p,
            None => {
                return None;
            },
        };
        let headers: usize = BLOCK_HEADER_SIZE + REGION_HEADER_SIZE;
        if payload > usize::MAX - headers {
            return None;
        }
        let gross: usize = payload + headers;
        if gross > usize::MAX - self.page_size {
            return None;
        }
        let n: usize = align(gross, self.page_size);
        proof {
            crate::utils::lemma_multiple_of_multiple(
                n as int,
                self.page_size as int,
                WORD_SIZE as int,
            );
        }
        Some(n)
    }

    /// Makes a region of the `len` bytes at `addr`, which the platform has
    /// just handed over: the region joins the list of regions, one free
    /// block spans it, and the index names that block.
    ///
    /// A range that starts at address 0 stands for a platform that had
    /// nothing to give. Such a range, or one that cannot hold a region,
    /// is turned down and nothing changes.
    pub fn allocate_new_region(&mut self, addr: usize, len: usize) -> (done: Result<(), RegionError>)
        requires
            old(self).sound(),
        ensures
            final(self).sound(),
            final(self).page_size == old(self).page_size,
            match done {
                Ok(_) => {
                    &&& old(self).usable(addr, len)
                    &&& adopted(*old(self), *final(self), addr, len)
                    &&& forall|a: usize, s: int| #[trigger]
                        is_used_block(&final(self).regions, a, s) <==> is_used_block(
                            &old(self).regions,
                            a,
                            s,
                        )
                },
                Err(e) => {
                    &&& !old(self).usable(addr, len)
                    &&& (e == RegionError::OutOfMemory) == (addr == 0)
                    &&& *final(self) == *old(self)
                },
            },
    {
        if addr == 0 {
            return Err(RegionError::OutOfMemory);
        }
        if addr % WORD_SIZE != 0 || len % WORD_SIZE != 0 || len < REGION_HEADER_SIZE
            + BLOCK_HEADER_SIZE + MIN_BLOCK_SIZE || len > usize::MAX - addr {
            return Err(RegionError::Unusable);
        }
        let n: usize = self.regions.len();
        let mut i: usize = 0;
        while i < n
            invariant
                *self == *old(self),
                self.sound(),
                n == self.regions.data().len(),
                i <= n,
                addr != 0,
                addr + len <= usize::MAX,
                forall|k: int|
                    0 <= k < i ==> (#[trigger] self.regions.data()[k]).limit() <= addr || addr + len
                        <= self.regions.data()[k].base(),
            decreases n - i,
        {
            let base: usize = self.regions.addr_at(i);
            let held = &self.regions.node_at(i).data;
            proof {
                assert(*held == self.regions.data()[i as int]);
                assert(held.laid_out() && held.base() == base);
            }
            let limit: usize = base + REGION_HEADER_SIZE + held.size;
            if !(limit <= addr || addr + len <= base) {
                proof {
                    let held = self.regions.data()[i as int];
                    assert(!(held.limit() <= addr || addr + len <= held.base()));
                }
                return Err(RegionError::Unusable);
            }
            i += 1;
        }
        assert(self.usable(addr, len));
        let first: usize = addr + REGION_HEADER_SIZE;
        let mut blocks: List<Block> = List::new();
        let _ = blocks.append(
            Block { size: len - REGION_HEADER_SIZE - BLOCK_HEADER_SIZE, is_free: true, region: addr },
            first,
        );
        proof {
            old(self).lemma_usable_is_new(addr, len);
        }
        let _ = self.free_list.insert_free_block(
            blocks.data_mut(0),
            first,
            first + BLOCK_HEADER_SIZE,
        );
        let _ = self.regions.append(Region { size: len - REGION_HEADER_SIZE, blocks }, addr);
        proof {
            let fresh = final(self).regions.data()[n as int];
            assert(final(self).regions.data().take(n as int) =~= old(self).regions.data());
            assert(fresh.blocks.data() =~= seq![
                Block {
                    size: (len - REGION_HEADER_SIZE - BLOCK_HEADER_SIZE) as usize,
                    is_free: true,
                    region: addr,
                },
            ]);
            assert(fresh.block(0).region == addr);
            assert(fresh.laid_out()) by {
                assert forall|k: int| 0 <= k < fresh.count() implies {
                    &&& #[trigger] fresh.end_of(k) == if k + 1 < fresh.count() {
                        fresh.addr_of(k + 1) as int
                    } else {
                        fresh.limit()
                    }
                    &&& fresh.block(k).size >= MIN_BLOCK_SIZE
                    &&& fresh.block(k).size % WORD_SIZE == 0
                    &&& fresh.block(k).region == fresh.base()
                } by {}
            }
            assert(fresh.no_adjacent_free());
            assert forall|i: int| 0 <= i < old(self).regions.data().len() implies apart(
                #[trigger] old(self).regions.data()[i],
                fresh,
            ) by {}
            assert(final(self).regions.data() =~= old(self).regions.data().push(fresh));
            lemma_region_added(&old(self).regions, &final(self).regions, fresh);
            assert forall|a: usize| #[trigger]
                fresh.has_free_at(a) <==> a == first by {
                if a == first {
                    assert(fresh.addr_of(0) == a && fresh.block(0).is_free);
                }
            }
            assert forall|a: usize, s: int| !#[trigger] fresh.has_used_at(a, s) by {}
            assert forall|a: usize, s: int| #[trigger]
                is_used_block(&final(self).regions, a, s) <==> is_used_block(
                    &old(self).regions,
                    a,
                    s,
                ) by {
                assert(!fresh.has_used_at(a, s));
            }
            assert forall|a: usize| #[trigger]
                final(self).free_list.index().contains(a) <==> is_free_block(
                    &final(self).regions,
                    a,
                ) && None::<usize> != Some(a) by {
                lemma_push_contains(old(self).free_list.index(), first, a);
                assert(old(self).free_list.index().contains(a) <==> is_free_block(
                    &old(self).regions,
                    a,
                ));
                assert(fresh.has_free_at(a) <==> a == first);
            }
            assert forall|i: int| 0 <= i < final(self).regions.data().len() implies (
            #[trigger] final(self).regions.data()[i]).no_adjacent_free() by {
                if i < n {
                    assert(final(self).regions.data()[i] == old(self).regions.data()[i]);
                }
            }
        }
        Ok(())
    }

    /// Serves a request of `requested_size` bytes from the free block at
    /// `block`, and gives the address of the payload.
    ///
    /// ```text
    /// +----------+------------------------------+       +----------+-------+----------+------------+
    /// |  Header  |          Free block          |  -->  |  Header  | Block |  Header  | Free block |
    /// +----------+------------------------------+       +----------+-------+----------+------------+
    /// ```
    ///
    /// The block is cut in two where the rest can stand as a block of its
    /// own; the rest then enters the region's blocks behind `block`, and the
    /// index. Otherwise the request gets the whole block.
    pub fn take_from_block(&mut self, block: usize, requested_size: usize) -> (payload: usize)
        requires
            old(self).sound(),
            old(self).free_list.index().contains(block),
            block_fits(&old(self).regions, block, payload_for(requested_size as int)),
        ensures
            payload == block + BLOCK_HEADER_SIZE,
            payload % WORD_SIZE == 0,
            final(self).sound(),
            took(*old(self), *final(self), block, payload_for(requested_size as int)),
            final(self).regions.data()[place(&old(self).regions, block).0].has_used(),
            forall|a: usize, s: int| #[trigger]
                is_used_block(&final(self).regions, a, s) <==> is_used_block(
                    &old(self).regions,
                    a,
                    s,
                ) || (a == block && s == granted(
                    old(self).regions.data()[place(&old(self).regions, block).0].block(
                        place(&old(self).regions, block).1,
                    ).size as int,
                    payload_for(requested_size as int),
                )),
    {
        let ghost want = payload_for(requested_size as int);
        proof {
            crate::block::lemma_payload_for(requested_size as int);
            crate::layout::lemma_fit_is_bounded(&self.regions, block, want);
            self.free_list.lemma_index_distinct();
            assert(is_free_block(&self.regions, block));
            let p = crate::layout::lemma_free_block_holds(&self.regions, block);
            crate::layout::lemma_place(&self.regions, p.0, p.1, block);
        }
        let (r, b) = match locate(&self.regions, block) {
            Some(found) => found,
            None => (0, 0),
        };
        let requested: usize = match padded_payload(requested_size) {
            Some(p) => p,
            None => MIN_BLOCK_SIZE,
        };
        let ghost before = self.regions.data()[r as int];
        proof {
            assert(before.laid_out());
            before.lemma_block_within(b as int);
            crate::layout::lemma_fit_size(&self.regions, r as int, b as int, block, want);
            lemma_free_at_place(&self.regions, r as int, b as int, block);
        }
        let split_offset: usize = align(BLOCK_HEADER_SIZE + requested, WORD_SIZE);
        let header: Block = self.regions.node_at(r).data.blocks.node_at(b).data;
        let blocks_held: usize = self.regions.node_at(r).data.blocks.len();
        assert(header == before.block(b as int));
        assert(b < blocks_held);
        let total: usize = header.size + BLOCK_HEADER_SIZE;
        assert(split_offset == BLOCK_HEADER_SIZE + requested) by {
            crate::utils::lemma_align_up((BLOCK_HEADER_SIZE + requested) as int, WORD_SIZE as int);
        }
        self.free_list.remove_free_block(block);
        if total - split_offset >= BLOCK_HEADER_SIZE + MIN_BLOCK_SIZE {
            let remaining: usize = total - split_offset - BLOCK_HEADER_SIZE;
            let new_addr: usize = block + split_offset;
            proof {
                before.lemma_new_header_is_fresh(b as int, new_addr);
                old(self).lemma_inside_is_unindexed(r as int, b as int, new_addr);
                lemma_without_contains(old(self).free_list.index(), block, new_addr);
            }
            let region = self.regions.data_mut(r);
            let taken = region.blocks.data_mut(b);
            taken.is_free = false;
            taken.size = split_offset - BLOCK_HEADER_SIZE;
            let _ = region.blocks.insert_after(
                block,
                Block { size: remaining, is_free: true, region: header.region },
                new_addr,
            );
            let rest = region.blocks.data_mut(b + 1);
            let _ = self.free_list.insert_free_block(rest, new_addr, new_addr + BLOCK_HEADER_SIZE);
            proof {
                let after = final(self).regions.data()[r as int];
                assert(before.blocks.addrs().index_of(block) == b) by {
                    let k = before.blocks.addrs().index_of(block);
                    assert(before.blocks.addrs()[k] == block);
                }
                assert(after.blocks.data() =~= before.blocks.data().update(
                    b as int,
                    Block { size: want as usize, is_free: false, region: before.block(b as int).region },
                ).insert(
                    b + 1,
                    Block {
                        size: (before.block(b as int).size - want - BLOCK_HEADER_SIZE) as usize,
                        is_free: true,
                        region: before.block(b as int).region,
                    },
                ));
                assert(cut(before, after, b as int, want));
                old(self).lemma_took_keeps_sound(*final(self), block, want);
            }
        } else {
            let region = self.regions.data_mut(r);
            let taken = region.blocks.data_mut(b);
            taken.is_free = false;
            proof {
                let after = final(self).regions.data()[r as int];
                assert(flagged(before, after, b as int, false));
                old(self).lemma_took_keeps_sound(*final(self), block, want);
            }
        }
        block + BLOCK_HEADER_SIZE
    }

    /// Settles the block at `block`, which was just freed and merged with
    /// its free neighbours, in the region at `region`.
    ///
    /// Where the block is all that the region holds, the region leaves the
    /// list of regions, and its range is handed back for the platform: its
    /// address and its length in bytes. Else the block enters the index,
    /// with a node in its payload.
    pub fn check_region_removal(&mut self, region: usize, block: usize) -> (out: Option<
        (usize, usize),
    >)
        requires
            old(self).structure(),
            old(self).indexed(Some(block)),
            old(self).coalesced(),
            holds(
                &old(self).regions,
                place(&old(self).regions, block).0,
                place(&old(self).regions, block).1,
                block,
            ),
            old(self).regions.addrs()[place(&old(self).regions, block).0] == region,
            is_free_block(&old(self).regions, block),
        ensures
            final(self).sound(),
            settled(*old(self), *final(self), block, out),
            (forall|i: int|
                0 <= i < old(self).regions.data().len() && i != place(&old(self).regions, block).0
                    ==> (#[trigger] old(self).regions.data()[i]).has_used()) ==> final(self).tidy(),
            forall|a: usize, s: int| #[trigger]
                is_used_block(&final(self).regions, a, s) <==> is_used_block(
                    &old(self).regions,
                    a,
                    s,
                ),
    {
        let ghost (r0, b0) = place(&self.regions, block);
        let ghost before = self.regions.data()[r0];
        proof {
            assert(before.laid_out());
            before.lemma_block_within(b0);
            lemma_free_at_place(&self.regions, r0, b0, block);
            self.free_list.lemma_index_distinct();
        }
        let r: usize = match self.regions.position(region) {
            Some(r) => r,
            None => 0,
        };
        assert(r == r0);
        let count: usize = self.regions.node_at(r).data.blocks.len();
        self.free_list.remove_free_block(block);
        if count == 1 {
            let total: usize = self.regions.node_at(r).data.size + REGION_HEADER_SIZE;
            let _ = self.regions.remove_at(r);
            proof {
                lemma_region_removed(&old(self).regions, &final(self).regions, r0);
                assert(b0 == 0);
                assert forall|a: usize| #[trigger] before.has_free_at(a) <==> a == block by {
                    if a == block {
                        assert(before.addr_of(0) == a && before.block(0).is_free);
                    }
                }
                assert forall|a: usize, s: int| !#[trigger] before.has_used_at(a, s) by {}
                assert forall|a: usize| #[trigger]
                    final(self).free_list.index().contains(a) <==> is_free_block(
                        &final(self).regions,
                        a,
                    ) && None::<usize> != Some(a) by {
                    lemma_without_contains(old(self).free_list.index(), block, a);
                    assert(old(self).free_list.index().contains(a) <==> is_free_block(
                        &old(self).regions,
                        a,
                    ) && Some(block) != Some(a));
                    assert(before.has_free_at(a) <==> a == block);
                }
                assert forall|i: int| 0 <= i < final(self).regions.data().len() implies (
                #[trigger] final(self).regions.data()[i]).no_adjacent_free() by {
                    let pi = if i < r0 { i } else { i + 1 };
                    assert(final(self).regions.data()[i] == old(self).regions.data()[pi]);
                }
                if forall|i: int|
                    0 <= i < old(self).regions.data().len() && i != r0 ==> (
                    #[trigger] old(self).regions.data()[i]).has_used() {
                    assert forall|i: int| 0 <= i < final(self).regions.data().len() implies (
                    #[trigger] final(self).regions.data()[i]).has_used() by {
                        let pi = if i < r0 { i } else { i + 1 };
                        assert(final(self).regions.data()[i] == old(self).regions.data()[pi]);
                    }
                }
            }
            Some((region, total))
        } else {
            let b: usize = match self.regions.node_at(r).data.blocks.position(block) {
                Some(b) => b,
                None => 0,
            };
            proof {
                crate::layout::lemma_one_block_per_address(
                    &self.regions,
                    r0,
                    b0,
                    r0,
                    b as int,
                    block,
                );
                lemma_without_contains(old(self).free_list.index(), block, block);
            }
            let held = self.regions.data_mut(r);
            let header = held.blocks.data_mut(b);
            let _ = self.free_list.insert_free_block(header, block, block + BLOCK_HEADER_SIZE);
            proof {
                let after = final(self).regions.data()[r0];
                assert(after.blocks.data() =~= before.blocks.data().update(
                    b0,
                    Block {
                        size: before.block(b0).size,
                        is_free: true,
                        region: before.block(b0).region,
                    },
                ));
                assert(flagged(before, after, b0, true));
                lemma_flagged(before, after, b0, true);
                lemma_region_replaced(&old(self).regions, &final(self).regions, r0);
                assert(before.no_adjacent_free());
                before.lemma_crowded_has_used();
                assert forall|a: usize| #[trigger]
                    final(self).free_list.index().contains(a) <==> is_free_block(
                        &final(self).regions,
                        a,
                    ) && None::<usize> != Some(a) by {
                    lemma_without_contains(old(self).free_list.index(), block, a);
                    lemma_push_contains(without(old(self).free_list.index(), block), block, a);
                    assert(old(self).free_list.index().contains(a) <==> is_free_block(
                        &old(self).regions,
                        a,
                    ) && Some(block) != Some(a));
                    if before.has_free_at(a) {
                        assert(is_free_block(&old(self).regions, a));
                    }
                    assert(after.has_free_at(a) <==> if a == before.addr_of(b0) {
                        true
                    } else {
                        before.has_free_at(a)
                    });
                }
                assert forall|a: usize, s: int| #[trigger]
                    is_used_block(&final(self).regions, a, s) <==> is_used_block(
                        &old(self).regions,
                        a,
                        s,
                    ) by {
                    if before.has_used_at(a, s) {
                        assert(is_used_block(&old(self).regions, a, s));
                    }
                    assert(after.has_used_at(a, s) <==> if a == before.addr_of(b0) {
                        !true && s == before.block(b0).size
                    } else {
                        before.has_used_at(a, s)
                    });
                    if before.has_used_at(block, s) {
                        assert(is_used_block(&old(self).regions, block, s));
                    }
                }
                assert forall|i: int| 0 <= i < final(self).regions.data().len() implies (
                #[trigger] final(self).regions.data()[i]).no_adjacent_free() by {
                    if i != r0 {
                        assert(final(self).regions.data()[i] == old(self).regions.data()[i]);
                    }
                }
                if forall|i: int|
                    0 <= i < old(self).regions.data().len() && i != r0 ==> (
                    #[trigger] old(self).regions.data()[i]).has_used() {
                    assert forall|i: int| 0 <= i < final(self).regions.data().len() implies (
                    #[trigger] final(self).regions.data()[i]).has_used() by {
                        if i != r0 {
                            assert(final(self).regions.data()[i] == old(self).regions.data()[i]);
                        } else {
                            after.lemma_crowded_has_used();
                        }
                    }
                }
            }
            None
        }
    }

    /// After a block in use was marked free and merged with its free
    /// neighbours, the state lacks one thing only: the merged block is not
    /// in the index. Of the blocks in use, that one alone is gone.
    pub proof fn lemma_merged(
        &self,
        mid: Kernel,
        block: usize,
        r1: Region,
        r2: Region,
        front_index: Seq<usize>,
        node: usize,
    )
        requires
            self.wf(),
            merged(*self, mid, block, r1, r2, front_index, node),
        ensures
            mid.structure(),
            mid.indexed(Some(node)),
            mid.coalesced(),
            holds(&mid.regions, place(&mid.regions, node).0, place(&mid.regions, node).1, node),
            place(&mid.regions, node).0 == place(&self.regions, block).0,
            is_free_block(&mid.regions, node),
            forall|i: int|
                0 <= i < mid.regions.data().len() && i != place(&mid.regions, node).0 ==> (
                #[trigger] mid.regions.data()[i]).has_used(),
            forall|a: usize, s: int| #[trigger]
                is_used_block(&mid.regions, a, s) <==> is_used_block(&self.regions, a, s) && a
                    != block,
            (mid.regions.data()[place(&self.regions, block).0].count() == 1)
                == self.regions.data()[place(&self.regions, block).0].all_free_but(
                place(&self.regions, block).1,
            ),
            mid.regions.data()[place(&self.regions, block).0].size
                == self.regions.data()[place(&self.regions, block).0].size,
    {
        let (r, b) = place(&self.regions, block);
        let r0 = self.regions.data()[r];
        let r3 = mid.regions.data()[r];
        let idx0 = self.free_list.index();
        assert(r0.laid_out());
        assert(r0.no_adjacent_free());
        lemma_free_at_place(&self.regions, r, b, block);
        lemma_flagged(r0, r1, b, true);
        let front = b > 0 && r1.block(b - 1).is_free;
        if front {
            crate::region::lemma_absorbed(r1, r2, b - 1, b - 1, b);
            assert(r2.addr_of(b - 1) == node);
        } else {
            assert(r2.addr_of(b) == node);
            assert forall|j: int|
                0 <= j < r2.count() - 1 && (#[trigger] r2.block(j)).is_free && r2.block(
                    j + 1,
                ).is_free implies b <= j <= b by {}
        }
        let k = r2.blocks.addrs().index_of(node);
        assert(r2.addr_of(k) == node);
        assert(k == if front { b - 1 } else { b });
        assert(r2.adjacent_free_within(k, k));
        assert(r2.block(k).is_free);
        let back = k + 1 < r2.count() && r2.block(k + 1).is_free;
        if back {
            crate::region::lemma_absorbed(r2, r3, k, k, k);
        }
        assert(r3.no_adjacent_free());
        assert(r3.addr_of(k) == node);
        assert(r3.block(k).is_free);
        assert((r3.count() == 1) == r0.all_free_but(b)) by {
            assert(b > 0 ==> r1.block(b - 1) == r0.block(b - 1));
            assert(b + 1 < r0.count() ==> r2.block(k + 1) == r0.block(b + 1));
            assert(r3.count() == r0.count() - (if front { 1int } else { 0 }) - (if back {
                1int
            } else {
                0
            }));
            if r0.all_free_but(b) {
                if b > 1 {
                    assert(r0.block(b - 2).is_free && r0.block(b - 1).is_free);
                }
                if b + 2 < r0.count() {
                    assert(r0.block(b + 1).is_free && r0.block(b + 2).is_free);
                }
                if b > 0 {
                    assert(r0.block(b - 1).is_free);
                }
                if b + 1 < r0.count() {
                    assert(r0.block(b + 1).is_free);
                }
            }
            if r3.count() == 1 {
                assert forall|j: int| 0 <= j < r0.count() && j != b implies (#[trigger] r0.block(
                    j,
                )).is_free by {
                    assert(j == b - 1 || j == b + 1);
                }
            }
        }
        lemma_region_replaced(&self.regions, &mid.regions, r);
        assert(holds(&mid.regions, r, k, node));
        crate::layout::lemma_place(&mid.regions, r, k, node);
        lemma_free_at_place(&mid.regions, r, k, node);
        self.free_list.lemma_index_distinct();
        if front {
            assert(r1.addr_of(b - 1) == r0.addr_of(b - 1));
            assert(r0.block(b - 1).is_free);
            lemma_free_at_place(&self.regions, r, b - 1, r0.addr_of(b - 1));
        }
        let back_addr = r2.addr_of(k + 1);
        if back {
            assert(r2.has_free_at(back_addr));
            assert(back_addr != node);
        }
        assert(front_index.no_duplicates()) by {
            if front {
                lemma_without_distinct(idx0, r1.addr_of(b - 1));
            }
        }
        assert forall|a: usize| #[trigger]
            mid.free_list.index().contains(a) <==> is_free_block(&mid.regions, a) && Some(node)
                != Some(a) by {
            assert(idx0.contains(a) <==> is_free_block(&self.regions, a));
            if r0.has_free_at(a) {
                assert(is_free_block(&self.regions, a));
            }
            assert(r1.has_free_at(a) <==> if a == r0.addr_of(b) {
                true
            } else {
                r0.has_free_at(a)
            });
            if front {
                lemma_without_contains(idx0, r1.addr_of(b - 1), a);
                assert(r2.has_free_at(a) <==> r1.has_free_at(a) && a != r1.addr_of(b));
            }
            if back {
                lemma_without_contains(front_index, back_addr, a);
                assert(r3.has_free_at(a) <==> r2.has_free_at(a) && a != back_addr);
            }
            assert(is_free_block(&mid.regions, a) <==> r3.has_free_at(a) || (is_free_block(
                &self.regions,
                a,
            ) && !r0.has_free_at(a)));
        }
        assert forall|i: int| 0 <= i < mid.regions.data().len() implies (
        #[trigger] mid.regions.data()[i]).no_adjacent_free() by {
            if i != r {
                assert(mid.regions.data()[i] == self.regions.data()[i]);
            }
        }
        assert forall|i: int| 0 <= i < mid.regions.data().len() && i != r implies (
        #[trigger] mid.regions.data()[i]).has_used() by {
            assert(mid.regions.data()[i] == self.regions.data()[i]);
        }
        assert forall|a: usize, s: int| #[trigger]
            is_used_block(&mid.regions, a, s) <==> is_used_block(&self.regions, a, s) && a
                != block by {
            if r0.has_used_at(a, s) {
                assert(is_used_block(&self.regions, a, s));
            }
            assert(r1.has_used_at(a, s) <==> if a == r0.addr_of(b) {
                !true && s == r0.block(b).size
            } else {
                r0.has_used_at(a, s)
            });
            if front {
                assert(r2.has_used_at(a, s) <==> r1.has_used_at(a, s));
            }
            if back {
                assert(r3.has_used_at(a, s) <==> r2.has_used_at(a, s));
            }
            assert(is_used_block(&mid.regions, a, s) <==> r3.has_used_at(a, s) || (is_used_block(
                &self.regions,
                a,
                s,
            ) && !r0.has_used_at(a, s)));
            if a == block && is_used_block(&self.regions, a, s) {
                assert(r0.addr_of(b) == a && !r0.block(b).is_free && r0.block(b).size == s);
                assert(r0.has_used_at(a, s));
            }
        }
    }

    /// An address inside a block is the header of no block, and the index
    /// does not name it.
    pub proof fn lemma_inside_is_unindexed(&self, r: int, b: int, addr: usize)
        requires
            self.sound(),
            0 <= r < self.regions.data().len(),
            0 <= b < self.regions.data()[r].count(),
            self.regions.data()[r].addr_of(b) < addr < self.regions.data()[r].end_of(b),
        ensures
            !self.free_list.index().contains(addr),
    {
        let here = self.regions.data()[r];
        assert(here.laid_out());
        here.lemma_new_header_is_fresh(b, addr);
        here.lemma_block_within(b);
        if self.free_list.index().contains(addr) {
            assert(is_free_block(&self.regions, addr));
            let p = crate::layout::lemma_free_block_holds(&self.regions, addr);
            let there = self.regions.data()[p.0];
            assert(there.laid_out());
            there.lemma_block_within(p.1);
            if p.0 < r {
                assert(apart(there, here));
            } else if r < p.0 {
                assert(apart(here, there));
            } else {
                assert(here.blocks.addrs()[p.1] == addr);
            }
        }
    }

    /// Serving a request from a free block that fits leaves a sound state.
    pub proof fn lemma_took_keeps_sound(&self, post: Kernel, block: usize, want: int)
        requires
            self.sound(),
            self.free_list.index().contains(block),
            took(*self, post, block, want),
            want >= MIN_BLOCK_SIZE,
            want % (WORD_SIZE as int) == 0,
            self.regions.data()[place(&self.regions, block).0].block(
                place(&self.regions, block).1,
            ).size >= want,
            post.regions.wf(),
            post.free_list.wf(),
            post.regions.data()[place(&self.regions, block).0].blocks.wf(),
        ensures
            post.sound(),
            post.regions.data()[place(&self.regions, block).0].has_used(),
            forall|a: usize, s: int| #[trigger]
                is_used_block(&post.regions, a, s) <==> is_used_block(&self.regions, a, s) || (a
                    == block && s == granted(
                    self.regions.data()[place(&self.regions, block).0].block(
                        place(&self.regions, block).1,
                    ).size as int,
                    want,
                )),
    {
        let (r, b) = place(&self.regions, block);
        let before = self.regions.data()[r];
        let after = post.regions.data()[r];
        let fresh = (block + BLOCK_HEADER_SIZE + want) as usize;
        let split = worth_splitting(before.block(b).size as int, want);
        assert(before.laid_out());
        assert(before.no_adjacent_free());
        before.lemma_block_within(b);
        lemma_free_at_place(&self.regions, r, b, block);
        assert(is_free_block(&self.regions, block));
        if split {
            lemma_cut(before, after, b, want);
        } else {
            lemma_flagged(before, after, b, false);
        }
        lemma_region_replaced(&self.regions, &post.regions, r);
        self.free_list.lemma_index_distinct();
        assert forall|a: usize| #[trigger]
            post.free_list.index().contains(a) <==> is_free_block(&post.regions, a)
                && None::<usize> != Some(a) by {
            lemma_without_contains(self.free_list.index(), block, a);
            lemma_push_contains(without(self.free_list.index(), block), fresh, a);
            assert(self.free_list.index().contains(a) <==> is_free_block(&self.regions, a));
            if before.has_free_at(a) {
                assert(is_free_block(&self.regions, a));
            }
            assert(is_free_block(&post.regions, a) <==> after.has_free_at(a) || (is_free_block(
                &self.regions,
                a,
            ) && !before.has_free_at(a)));
            if split {
                assert(after.has_free_at(a) <==> (before.has_free_at(a) && a != before.addr_of(b))
                    || a == before.addr_of(b) + BLOCK_HEADER_SIZE + want);
            } else {
                assert(after.has_free_at(a) <==> if a == before.addr_of(b) {
                    false
                } else {
                    before.has_free_at(a)
                });
            }
        }
        assert forall|i: int| 0 <= i < post.regions.data().len() implies (
        #[trigger] post.regions.data()[i]).no_adjacent_free() by {
            if i != r {
                assert(post.regions.data()[i] == self.regions.data()[i]);
            }
        }
        assert forall|a: usize, s: int| #[trigger]
            is_used_block(&post.regions, a, s) <==> is_used_block(&self.regions, a, s) || (a
                == block && s == granted(before.block(b).size as int, want)) by {
            if before.has_used_at(a, s) {
                assert(is_used_block(&self.regions, a, s));
            }
            assert(is_used_block(&post.regions, a, s) <==> after.has_used_at(a, s) || (
            is_used_block(&self.regions, a, s) && !before.has_used_at(a, s)));
            if split {
                assert(after.has_used_at(a, s) <==> before.has_used_at(a, s) || (a
                    == before.addr_of(b) && s == want));
            } else {
                assert(after.has_used_at(a, s) <==> if a == before.addr_of(b) {
                    !false && s == before.block(b).size
                } else {
                    before.has_used_at(a, s)
                });
                assert(!before.has_used_at(block, s)) by {
                    if before.has_used_at(block, s) {
                        assert(is_used_block(&self.regions, block, s));
                    }
                }
            }
        }
    }

    /// A usable range holds no region yet, and no block of the index.
    pub proof fn lemma_usable_is_new(&self, addr: usize, len: usize)
        requires
            self.sound(),
            self.usable(addr, len),
        ensures
            !self.regions.addrs().contains(addr),
            !self.free_list.index().contains((addr + REGION_HEADER_SIZE) as usize),
    {
        if self.regions.addrs().contains(addr) {
            let i = self.regions.addrs().index_of(addr);
            assert(self.regions.addrs()[i] == addr);
            assert(self.regions.data()[i].laid_out());
        }
        let first = (addr + REGION_HEADER_SIZE) as usize;
        if self.free_list.index().contains(first) {
            assert(is_free_block(&self.regions, first));
            let p = crate::layout::lemma_free_block_holds(&self.regions, first);
            let held = self.regions.data()[p.0];
            assert(held.laid_out());
            held.lemma_block_within(p.1);
        }
    }
}

} // verus!
