//! Regions: the ranges taken from the platform, and the blocks within them.

use vstd::prelude::*;
use crate::block::{Block, BLOCK_HEADER_SIZE, MIN_BLOCK_SIZE, WORD_SIZE};
use crate::freelist::{without, FreeList};
use crate::list::List;

verus! {

/// Bytes that a region header takes at the start of its range: the two links
/// of its list node and the fields of [`Region`].
pub const REGION_HEADER_SIZE: usize = 48;

/// Header of a region. A region spans `REGION_HEADER_SIZE + size` bytes from
/// its address, and its blocks fill everything behind the header:
///
/// ```text
/// +--------+--------+---------+--------+---------+--------+---------+
/// | Region | Header | payload | Header | payload | Header | payload |
/// +--------+--------+---------+--------+---------+--------+---------+
/// ```
pub struct Region {
    /// Bytes of the region behind its header.
    pub size: usize,
    /// The blocks of the region, by ascending address.
    pub blocks: List<Block>,
}

/// A block's header after the block took over `extra` more bytes.
pub open spec fn grown(block: Block, extra: int) -> Block {
    Block { size: (block.size + extra) as usize, is_free: block.is_free, region: block.region }
}

impl Region {
    /// Number of blocks.
    pub open spec fn count(&self) -> int {
        self.blocks.addrs().len() as int
    }

    /// Address of the header of block `j`.
    pub open spec fn addr_of(&self, j: int) -> usize {
        self.blocks.addrs()[j]
    }

    /// Header of block `j`.
    pub open spec fn block(&self, j: int) -> Block {
        self.blocks.data()[j]
    }

    /// First address behind the payload of block `j`.
    pub open spec fn end_of(&self, j: int) -> int {
        self.addr_of(j) + BLOCK_HEADER_SIZE + self.block(j).size
    }

    /// Address of the region, as its first block records it.
    pub open spec fn base(&self) -> usize {
        self.block(0).region
    }

    /// First address behind the region.
    pub open spec fn limit(&self) -> int {
        self.base() + REGION_HEADER_SIZE + self.size
    }

    /// The blocks lie one behind the other and cover the region exactly; each
    /// has a payload of whole words, large enough for a node of the index.
    pub open spec fn laid_out(&self) -> bool {
        &&& self.blocks.wf()
        &&& self.count() >= 1
        &&& self.base() > 0
        &&& self.base() % WORD_SIZE == 0
        &&& self.limit() <= usize::MAX
        &&& self.addr_of(0) == self.base() + REGION_HEADER_SIZE
        &&& forall|j: int|
            0 <= j < self.count() ==> {
                &&& #[trigger] self.end_of(j) == if j + 1 < self.count() {
                    self.addr_of(j + 1) as int
                } else {
                    self.limit()
                }
                &&& self.block(j).size >= MIN_BLOCK_SIZE
                &&& self.block(j).size % WORD_SIZE == 0
                &&& self.block(j).region == self.base()
            }
    }

    /// No two neighbouring blocks are both free.
    pub open spec fn no_adjacent_free(&self) -> bool {
        forall|j: int|
            0 <= j < self.count() - 1 ==> !((#[trigger] self.block(j)).is_free && self.block(
                j + 1,
            ).is_free)
    }

    /// Some block of the region is in use.
    pub open spec fn has_used(&self) -> bool {
        exists|j: int| 0 <= j < self.count() && !(#[trigger] self.block(j)).is_free
    }

    /// Every block of the region but block `b` is free.
    pub open spec fn all_free_but(&self, b: int) -> bool {
        forall|j: int| 0 <= j < self.count() && j != b ==> (#[trigger] self.block(j)).is_free
    }

    /// A free block of the region has its header at `addr`.
    pub open spec fn has_free_at(&self, addr: usize) -> bool {
        exists|j: int|
            0 <= j < self.count() && #[trigger] self.addr_of(j) == addr && self.block(j).is_free
    }

    /// A block in use with `payload` bytes of payload has its header at `addr`.
    pub open spec fn has_used_at(&self, addr: usize, payload: int) -> bool {
        exists|j: int|
            0 <= j < self.count() && #[trigger] self.addr_of(j) == addr && !self.block(j).is_free
                && self.block(j).size == payload
    }

    /// Two free blocks stand side by side only where the first of them has
    /// a position from `lo` to `hi`.
    pub open spec fn adjacent_free_within(&self, lo: int, hi: int) -> bool {
        forall|j: int|
            0 <= j < self.count() - 1 && (#[trigger] self.block(j)).is_free && self.block(
                j + 1,
            ).is_free ==> lo <= j <= hi
    }

    /// A later block starts where an earlier one ends, or behind.
    pub proof fn lemma_blocks_ascend(&self, j: int, k: int)
        requires
            self.laid_out(),
            0 <= j < k < self.count(),
        ensures
            self.end_of(j) <= self.addr_of(k),
        decreases k - j,
    {
        if j + 1 < k {
            self.lemma_blocks_ascend(j + 1, k);
            assert(self.end_of(j) == self.addr_of(j + 1));
            assert(self.end_of(j + 1) >= self.addr_of(j + 1));
        } else {
            assert(self.end_of(j) == self.addr_of(j + 1));
        }
    }

    /// Every block lies inside the region, behind the region's header.
    pub proof fn lemma_block_within(&self, j: int)
        requires
            self.laid_out(),
            0 <= j < self.count(),
        ensures
            self.base() + REGION_HEADER_SIZE <= self.addr_of(j),
            self.end_of(j) <= self.limit(),
            self.addr_of(j) % WORD_SIZE == 0,
        decreases j,
    {
        let last = self.count() - 1;
        assert(self.end_of(last) == self.limit());
        if j < last {
            self.lemma_blocks_ascend(j, last);
        }
        if j > 0 {
            self.lemma_block_within(j - 1);
            assert(self.end_of(j - 1) == self.addr_of(j));
        }
    }

    /// A region of two blocks or more, no two free ones side by side, holds
    /// a block in use.
    pub proof fn lemma_crowded_has_used(&self)
        requires
            self.count() >= 2,
            self.no_adjacent_free(),
        ensures
            self.has_used(),
    {
        if self.block(0).is_free {
            assert(!self.block(1).is_free);
        }
    }

    /// An address inside a block is not the header of any block of the region.
    pub proof fn lemma_new_header_is_fresh(&self, b: int, addr: usize)
        requires
            self.laid_out(),
            0 <= b < self.count(),
            self.addr_of(b) < addr < self.end_of(b),
        ensures
            !self.blocks.addrs().contains(addr),
    {
        if self.blocks.addrs().contains(addr) {
            let k = self.blocks.addrs().index_of(addr);
            assert(self.addr_of(k) == addr);
            if k < b {
                self.lemma_blocks_ascend(k, b);
            } else if k > b {
                self.lemma_blocks_ascend(b, k);
            }
        }
    }

    /// Tries to merge the block at `node` into the block in front of it,
    /// which can be done if that block is free. The block in front then
    /// leaves the index, takes over the header and payload of `node`, and
    /// `node` names it from then on. Whether the grown block is in the index
    /// is left to the caller.
    pub fn merge_with_prev(&mut self, node: &mut usize, free_list: &mut FreeList)
        requires
            old(self).laid_out(),
            old(self).blocks.addrs().contains(*old(node)),
            old(free_list).wf(),
        ensures
            final(self).laid_out(),
            final(self).blocks.wf(),
            final(self).base() == old(self).base(),
            final(free_list).wf(),
            final(self).blocks.addrs().contains(*final(node)),
            ({
                let j = old(self).blocks.addrs().index_of(*old(node));
                if j > 0 && old(self).block(j - 1).is_free {
                    &&& *final(node) == old(self).addr_of(j - 1)
                    &&& absorbed(*old(self), *final(self), j - 1)
                    &&& final(free_list).index() == without(
                        old(free_list).index(),
                        old(self).addr_of(j - 1),
                    )
                } else {
                    &&& *final(node) == *old(node)
                    &&& *final(self) == *old(self)
                    &&& final(free_list).index() == old(free_list).index()
                }
            }),
    {
        let ghost j0 = self.blocks.addrs().index_of(*node);
        assert(self.blocks.addrs()[j0] == *node);
        let j: usize = match self.blocks.position(*node) {
            Some(j) => j,
            None => 0,
        };
        assert(j == j0);
        if j == 0 {
            return ;
        }
        let prev: Block = self.blocks.node_at(j - 1).data;
        if prev.is_free {
            let prev_addr: usize = self.blocks.addr_at(j - 1);
            let size: usize = self.blocks.node_at(j).data.size;
            free_list.remove_free_block(prev_addr);
            proof {
                assert(self.end_of(j - 1) == self.addr_of(j as int));
                assert(self.end_of(j as int) <= usize::MAX);
            }
            let front = self.blocks.data_mut(j - 1);
            front.size = front.size + BLOCK_HEADER_SIZE + size;
            let _ = self.blocks.remove_at(j);
            *node = prev_addr;
            proof {
                lemma_absorbed(*old(self), *final(self), j - 1, 0, 0);
                assert(final(self).addr_of(j - 1) == prev_addr);
            }
        }
    }

    /// Tries to merge the block behind `node` into the block at `node`,
    /// which can be done if that block is free. The block behind then leaves
    /// the index and `node` takes over its header and payload.
    pub fn merge_with_next(&mut self, node: &mut usize, free_list: &mut FreeList)
        requires
            old(self).laid_out(),
            old(self).blocks.addrs().contains(*old(node)),
            old(free_list).wf(),
        ensures
            final(self).laid_out(),
            final(self).blocks.wf(),
            final(self).base() == old(self).base(),
            final(free_list).wf(),
            *final(node) == *old(node),
            final(self).blocks.addrs().contains(*final(node)),
            final(self).blocks.addrs().index_of(*final(node)) == old(self).blocks.addrs().index_of(
                *old(node),
            ),
            ({
                let j = old(self).blocks.addrs().index_of(*old(node));
                if j + 1 < old(self).count() && old(self).block(j + 1).is_free {
                    &&& absorbed(*old(self), *final(self), j)
                    &&& final(free_list).index() == without(
                        old(free_list).index(),
                        old(self).addr_of(j + 1),
                    )
                } else {
                    &&& *final(self) == *old(self)
                    &&& final(free_list).index() == old(free_list).index()
                }
            }),
    {
        let ghost j0 = self.blocks.addrs().index_of(*node);
        assert(self.blocks.addrs()[j0] == *node);
        let j: usize = match self.blocks.position(*node) {
            Some(j) => j,
            None => 0,
        };
        assert(j == j0);
        if j >= self.blocks.len() - 1 {
            return ;
        }
        let next: Block = self.blocks.node_at(j + 1).data;
        if next.is_free {
            let next_addr: usize = self.blocks.addr_at(j + 1);
            free_list.remove_free_block(next_addr);
            proof {
                assert(self.end_of(j as int) == self.addr_of(j + 1));
                assert(self.end_of(j + 1) <= usize::MAX);
            }
            let front = self.blocks.data_mut(j);
            front.size = front.size + BLOCK_HEADER_SIZE + next.size;
            let _ = self.blocks.remove_at(j + 1);
            proof {
                lemma_absorbed(*old(self), *final(self), j as int, 0, 0);
                let a = final(self).blocks.addrs();
                assert(a[j as int] == *node);
                assert(a.index_of(*node) == j);
            }
        }
    }
}

/// A region is laid out when its first block stands behind the header and
/// every block ends where the next begins, the last at the region's end.
pub proof fn lemma_laid_out(region: Region)
    requires
        region.blocks.wf(),
        region.count() >= 1,
        region.base() > 0,
        region.base() % WORD_SIZE == 0,
        region.limit() <= usize::MAX,
        region.addr_of(0) == region.base() + REGION_HEADER_SIZE,
        forall|j: int|
            0 <= j < region.count() ==> {
                &&& #[trigger] region.end_of(j) == if j + 1 < region.count() {
                    region.addr_of(j + 1) as int
                } else {
                    region.limit()
                }
                &&& region.block(j).size >= MIN_BLOCK_SIZE
                &&& region.block(j).size % WORD_SIZE == 0
                &&& region.block(j).region == region.base()
            },
    ensures
        region.laid_out(),
{
}

/// `after` is `before` with the flag of its block `b` set to `free`.
pub open spec fn flagged(before: Region, after: Region, b: int, free: bool) -> bool {
    &&& after.size == before.size
    &&& after.blocks.addrs() == before.blocks.addrs()
    &&& after.blocks.data() == before.blocks.data().update(
        b,
        Block { size: before.block(b).size, is_free: free, region: before.block(b).region },
    )
}

/// `after` is `before` with its block `b` cut in two: the front keeps `want`
/// bytes and is in use, the rest is a new free block behind it.
pub open spec fn cut(before: Region, after: Region, b: int, want: int) -> bool {
    &&& after.size == before.size
    &&& after.blocks.addrs() == before.blocks.addrs().insert(
        b + 1,
        (before.addr_of(b) + BLOCK_HEADER_SIZE + want) as usize,
    )
    &&& after.blocks.data() == before.blocks.data().update(
        b,
        Block { size: want as usize, is_free: false, region: before.block(b).region },
    ).insert(
        b + 1,
        Block {
            size: (before.block(b).size - want - BLOCK_HEADER_SIZE) as usize,
            is_free: true,
            region: before.block(b).region,
        },
    )
}

/// `after` is `before` with block `b + 1` taken into block `b`.
pub open spec fn absorbed(before: Region, after: Region, b: int) -> bool {
    &&& after.size == before.size
    &&& after.blocks.addrs() == before.blocks.addrs().remove(b + 1)
    &&& after.blocks.data() == before.blocks.data().update(
        b,
        grown(before.block(b), BLOCK_HEADER_SIZE + before.block(b + 1).size),
    ).remove(b + 1)
}

/// Setting the flag of a block keeps the layout; it changes which blocks
/// are free at that block's address alone.
pub proof fn lemma_flagged(before: Region, after: Region, b: int, free: bool)
    requires
        before.laid_out(),
        0 <= b < before.count(),
        flagged(before, after, b, free),
        after.blocks.wf(),
    ensures
        after.laid_out(),
        after.base() == before.base(),
        after.count() == before.count(),
        forall|a: usize| #[trigger]
            after.has_free_at(a) <==> if a == before.addr_of(b) {
                free
            } else {
                before.has_free_at(a)
            },
        !free ==> after.has_used(),
        !free && before.no_adjacent_free() ==> after.no_adjacent_free(),
        free && before.no_adjacent_free() ==> after.adjacent_free_within(b - 1, b),
        free == before.block(b).is_free && before.no_adjacent_free() ==> after.no_adjacent_free(),
        forall|a: usize, s: int| #[trigger]
            after.has_used_at(a, s) <==> if a == before.addr_of(b) {
                !free && s == before.block(b).size
            } else {
                before.has_used_at(a, s)
            },
{
    assert forall|a: usize, s: int| #[trigger]
        after.has_used_at(a, s) <==> if a == before.addr_of(b) {
            !free && s == before.block(b).size
        } else {
            before.has_used_at(a, s)
        } by {
        if after.has_used_at(a, s) {
            let j = choose|j: int|
                0 <= j < after.count() && #[trigger] after.addr_of(j) == a && !after.block(j).is_free
                    && after.block(j).size == s;
            if j != b {
                assert(before.addr_of(j) == a && before.block(j) == after.block(j));
                assert(before.addr_of(j) != before.addr_of(b));
            }
        }
        if a == before.addr_of(b) {
            if !free && s == before.block(b).size {
                assert(after.addr_of(b) == a && !after.block(b).is_free);
            }
        } else if before.has_used_at(a, s) {
            let j = choose|j: int|
                0 <= j < before.count() && #[trigger] before.addr_of(j) == a && !before.block(
                    j,
                ).is_free && before.block(j).size == s;
            assert(after.addr_of(j) == a && after.block(j) == before.block(j));
        }
    }
    if free == before.block(b).is_free && before.no_adjacent_free() {
        assert forall|j: int| 0 <= j < after.count() - 1 implies !((#[trigger] after.block(
            j,
        )).is_free && after.block(j + 1).is_free) by {
            assert(before.block(j).is_free == after.block(j).is_free);
            assert(before.block(j + 1).is_free == after.block(j + 1).is_free);
        }
    }
    assert(after.block(0).region == before.block(0).region);
    assert forall|k: int| 0 <= k < after.count() implies {
        &&& #[trigger] after.end_of(k) == if k + 1 < after.count() {
            after.addr_of(k + 1) as int
        } else {
            after.limit()
        }
        &&& after.block(k).size >= MIN_BLOCK_SIZE
        &&& after.block(k).size % WORD_SIZE == 0
        &&& after.block(k).region == after.base()
    } by {
        assert(after.end_of(k) == before.end_of(k));
    }
    assert(after.base() == before.base());
    assert(after.limit() == before.limit());
    assert(after.addr_of(0) == before.addr_of(0));
    lemma_laid_out(after);
    assert forall|a: usize| #[trigger]
        after.has_free_at(a) <==> if a == before.addr_of(b) {
            free
        } else {
            before.has_free_at(a)
        } by {
        if after.has_free_at(a) {
            let j = choose|j: int|
                0 <= j < after.count() && #[trigger] after.addr_of(j) == a && after.block(j).is_free;
            if j != b {
                assert(before.addr_of(j) == a && before.block(j).is_free);
                assert(before.addr_of(j) != before.addr_of(b));
            }
        }
        if a == before.addr_of(b) {
            if free {
                assert(after.addr_of(b) == a && after.block(b).is_free);
            }
        } else if before.has_free_at(a) {
            let j = choose|j: int|
                0 <= j < before.count() && #[trigger] before.addr_of(j) == a && before.block(
                    j,
                ).is_free;
            assert(after.addr_of(j) == a && after.block(j).is_free);
        }
    }
    if !free {
        assert(!after.block(b).is_free);
        if before.no_adjacent_free() {
            assert forall|j: int| 0 <= j < after.count() - 1 implies !((#[trigger] after.block(
                j,
            )).is_free && after.block(j + 1).is_free) by {
                if j != b && j + 1 != b {
                    assert(before.block(j) == after.block(j));
                    assert(before.block(j + 1) == after.block(j + 1));
                }
            }
        }
    } else if before.no_adjacent_free() {
        assert forall|j: int|
            0 <= j < after.count() - 1 && (#[trigger] after.block(j)).is_free && after.block(
                j + 1,
            ).is_free implies b - 1 <= j <= b by {
            if j != b && j + 1 != b {
                assert(before.block(j) == after.block(j));
                assert(before.block(j + 1) == after.block(j + 1));
            }
        }
    }
}

/// Cutting a free block keeps the layout and leaves no two free blocks side
/// by side.
pub proof fn lemma_cut_layout(before: Region, after: Region, b: int, want: int)
    requires
        before.laid_out(),
        before.no_adjacent_free(),
        0 <= b < before.count(),
        before.block(b).is_free,
        want >= MIN_BLOCK_SIZE,
        want % (WORD_SIZE as int) == 0,
        before.block(b).size >= want + BLOCK_HEADER_SIZE + MIN_BLOCK_SIZE,
        cut(before, after, b, want),
        after.blocks.wf(),
    ensures
        after.laid_out(),
        after.base() == before.base(),
        after.no_adjacent_free(),
        after.has_used(),
{
    let fresh = (before.addr_of(b) + BLOCK_HEADER_SIZE + want) as usize;
    before.lemma_block_within(b);
    assert(after.count() == before.count() + 1);
    assert(after.block(0).region == before.block(0).region);
    assert(after.addr_of(0) == before.addr_of(0));
    assert forall|k: int| 0 <= k < after.count() implies {
        &&& #[trigger] after.end_of(k) == if k + 1 < after.count() {
            after.addr_of(k + 1) as int
        } else {
            after.limit()
        }
        &&& after.block(k).size >= MIN_BLOCK_SIZE
        &&& after.block(k).size % WORD_SIZE == 0
        &&& after.block(k).region == after.base()
    } by {
        if k < b {
            assert(after.end_of(k) == before.end_of(k));
        } else if k == b {
            assert(after.addr_of(b + 1) == fresh);
        } else if k == b + 1 {
            assert(after.end_of(k) == before.end_of(b));
            assert(before.block(b).size % WORD_SIZE == 0);
        } else {
            assert(after.end_of(k) == before.end_of(k - 1));
        }
    }
    assert(after.base() == before.base());
    assert(after.limit() == before.limit());
    lemma_laid_out(after);
    assert(!after.block(b).is_free);
    assert forall|j: int| 0 <= j < after.count() - 1 implies !((#[trigger] after.block(j)).is_free
        && after.block(j + 1).is_free) by {
        if j + 1 < b {
            assert(before.block(j) == after.block(j));
            assert(before.block(j + 1) == after.block(j + 1));
        } else if j == b + 1 {
            assert(after.block(j + 1) == before.block(b + 1));
            assert(before.block(b).is_free);
        } else if j > b + 1 {
            assert(before.block(j - 1) == after.block(j));
            assert(before.block(j) == after.block(j + 1));
        }
    }
}

/// Cutting a free block takes its front from the free blocks to the blocks
/// in use, and adds the rest to the free blocks.
pub proof fn lemma_cut(before: Region, after: Region, b: int, want: int)
    requires
        before.laid_out(),
        before.no_adjacent_free(),
        0 <= b < before.count(),
        before.block(b).is_free,
        want >= MIN_BLOCK_SIZE,
        want % (WORD_SIZE as int) == 0,
        before.block(b).size >= want + BLOCK_HEADER_SIZE + MIN_BLOCK_SIZE,
        cut(before, after, b, want),
        after.blocks.wf(),
    ensures
        after.laid_out(),
        after.base() == before.base(),
        after.no_adjacent_free(),
        after.has_used(),
        forall|a: usize| #[trigger]
            after.has_free_at(a) <==> (before.has_free_at(a) && a != before.addr_of(b)) || a
                == before.addr_of(b) + BLOCK_HEADER_SIZE + want,
        forall|a: usize, s: int| #[trigger]
            after.has_used_at(a, s) <==> before.has_used_at(a, s) || (a == before.addr_of(b) && s
                == want),
{
    let fresh = (before.addr_of(b) + BLOCK_HEADER_SIZE + want) as usize;
    before.lemma_block_within(b);
    lemma_cut_layout(before, after, b, want);
    assert(after.count() == before.count() + 1);
    assert forall|a: usize, s: int| #[trigger]
        after.has_used_at(a, s) <==> before.has_used_at(a, s) || (a == before.addr_of(b) && s
            == want) by {
        if after.has_used_at(a, s) {
            let j = choose|j: int|
                0 <= j < after.count() && #[trigger] after.addr_of(j) == a && !after.block(j).is_free
                    && after.block(j).size == s;
            if j < b {
                assert(before.addr_of(j) == a && before.block(j) == after.block(j));
            } else if j > b + 1 {
                assert(before.addr_of(j - 1) == a && before.block(j - 1) == after.block(j));
            }
        }
        if a == before.addr_of(b) && s == want {
            assert(after.addr_of(b) == a && !after.block(b).is_free);
        }
        if before.has_used_at(a, s) {
            let j = choose|j: int|
                0 <= j < before.count() && #[trigger] before.addr_of(j) == a && !before.block(
                    j,
                ).is_free && before.block(j).size == s;
            if j < b {
                assert(after.addr_of(j) == a && after.block(j) == before.block(j));
            } else {
                assert(after.addr_of(j + 1) == a && after.block(j + 1) == before.block(j));
            }
        }
    }
    assert forall|a: usize| #[trigger]
        after.has_free_at(a) <==> (before.has_free_at(a) && a != before.addr_of(b)) || a
            == fresh by {
        if after.has_free_at(a) {
            let j = choose|j: int|
                0 <= j < after.count() && #[trigger] after.addr_of(j) == a && after.block(j).is_free;
            if j < b {
                assert(before.addr_of(j) == a && before.block(j).is_free);
                assert(before.addr_of(j) != before.addr_of(b));
            } else if j > b + 1 {
                assert(before.addr_of(j - 1) == a && before.block(j - 1).is_free);
                assert(before.addr_of(j - 1) != before.addr_of(b));
            }
        }
        if a == fresh {
            assert(after.addr_of(b + 1) == a && after.block(b + 1).is_free);
        } else if before.has_free_at(a) && a != before.addr_of(b) {
            let j = choose|j: int|
                0 <= j < before.count() && #[trigger] before.addr_of(j) == a && before.block(
                    j,
                ).is_free;
            if j < b {
                assert(after.addr_of(j) == a && after.block(j).is_free);
            } else {
                assert(after.addr_of(j + 1) == a && after.block(j + 1).is_free);
            }
        }
    }
}

/// Taking a free block into the block in front of it keeps the layout; the
/// block taken in is no block any more, and free blocks can stand side by
/// side in one place less.
pub proof fn lemma_absorbed(before: Region, after: Region, b: int, lo: int, hi: int)
    requires
        before.laid_out(),
        0 <= b,
        b + 1 < before.count(),
        absorbed(before, after, b),
        after.blocks.wf(),
    ensures
        after.laid_out(),
        after.base() == before.base(),
        after.count() == before.count() - 1,
        before.block(b + 1).is_free && before.adjacent_free_within(lo, hi) && lo <= b <= hi
            ==> after.adjacent_free_within(lo, hi - 1),
        forall|a: usize| #[trigger]
            after.has_free_at(a) <==> before.has_free_at(a) && a != before.addr_of(b + 1),
        forall|j: int|
            0 <= j < before.count() && j != b && j != b + 1 && !(#[trigger] before.block(
                j,
            )).is_free ==> after.has_used(),
        before.block(b).is_free && before.block(b + 1).is_free ==> forall|a: usize, s: int| #[trigger]
            after.has_used_at(a, s) <==> before.has_used_at(a, s),
{
    before.lemma_block_within(b + 1);
    if before.block(b).is_free && before.block(b + 1).is_free {
        assert forall|a: usize, s: int| #[trigger]
            after.has_used_at(a, s) <==> before.has_used_at(a, s) by {
            if after.has_used_at(a, s) {
                let j = choose|j: int|
                    0 <= j < after.count() && #[trigger] after.addr_of(j) == a && !after.block(
                        j,
                    ).is_free && after.block(j).size == s;
                if j < b {
                    assert(before.addr_of(j) == a && before.block(j) == after.block(j));
                } else if j > b {
                    assert(before.addr_of(j + 1) == a && before.block(j + 1) == after.block(j));
                }
            }
            if before.has_used_at(a, s) {
                let j = choose|j: int|
                    0 <= j < before.count() && #[trigger] before.addr_of(j) == a && !before.block(
                        j,
                    ).is_free && before.block(j).size == s;
                if j < b {
                    assert(after.addr_of(j) == a && after.block(j) == before.block(j));
                } else {
                    assert(after.addr_of(j - 1) == a && after.block(j - 1) == before.block(j));
                }
            }
        }
    }
    assert(after.block(0).region == before.block(0).region);
    assert(after.addr_of(0) == before.addr_of(0));
    assert forall|k: int| 0 <= k < after.count() implies {
        &&& #[trigger] after.end_of(k) == if k + 1 < after.count() {
            after.addr_of(k + 1) as int
        } else {
            after.limit()
        }
        &&& after.block(k).size >= MIN_BLOCK_SIZE
        &&& after.block(k).size % WORD_SIZE == 0
        &&& after.block(k).region == after.base()
    } by {
        if k < b {
            assert(after.end_of(k) == before.end_of(k));
        } else if k == b {
            assert(before.end_of(b) == before.addr_of(b + 1));
            assert(after.end_of(k) == before.end_of(b + 1));
            assert(before.block(b).size % WORD_SIZE == 0);
            assert(before.block(b + 1).size % WORD_SIZE == 0);
        } else {
            assert(after.end_of(k) == before.end_of(k + 1));
        }
    }
    assert(after.base() == before.base());
    assert(after.limit() == before.limit());
    assert(after.count() == before.count() - 1);
    lemma_laid_out(after);
    if before.block(b + 1).is_free && before.adjacent_free_within(lo, hi) && lo <= b <= hi {
        assert forall|j: int|
            0 <= j < after.count() - 1 && (#[trigger] after.block(j)).is_free && after.block(
                j + 1,
            ).is_free implies lo <= j <= hi - 1 by {
            if j < b {
                assert(before.block(j).is_free);
                assert(before.block(j + 1).is_free);
            } else {
                assert(before.block(j + 1).is_free);
                assert(before.block(j + 2).is_free);
            }
        }
    }
    assert forall|a: usize| #[trigger]
        after.has_free_at(a) <==> before.has_free_at(a) && a != before.addr_of(b + 1) by {
        if after.has_free_at(a) {
            let j = choose|j: int|
                0 <= j < after.count() && #[trigger] after.addr_of(j) == a && after.block(j).is_free;
            if j <= b {
                assert(before.addr_of(j) == a && before.block(j).is_free);
                assert(before.addr_of(j) != before.addr_of(b + 1));
            } else {
                assert(before.addr_of(j + 1) == a && before.block(j + 1).is_free);
                assert(before.addr_of(j + 1) != before.addr_of(b + 1));
            }
        }
        if before.has_free_at(a) && a != before.addr_of(b + 1) {
            let j = choose|j: int|
                0 <= j < before.count() && #[trigger] before.addr_of(j) == a && before.block(
                    j,
                ).is_free;
            if j <= b {
                assert(after.addr_of(j) == a && after.block(j).is_free);
            } else {
                assert(after.addr_of(j - 1) == a && after.block(j - 1).is_free);
            }
        }
    }
    assert forall|j: int|
        0 <= j < before.count() && j != b && j != b + 1 && !(#[trigger] before.block(j)).is_free
        implies after.has_used() by {
        if j < b {
            assert(!after.block(j).is_free);
        } else {
            assert(!after.block(j - 1).is_free);
        }
    }
}

} // verus!
