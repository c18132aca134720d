//! The index of free blocks.
//!
//! The index is a list of block addresses. The node that stands for a free
//! block is written into that block's own payload, which nobody else uses
//! while the block is free, so the index costs no memory of its own.

use vstd::prelude::*;
use crate::block::{padded_payload, payload_for, Block, BLOCK_HEADER_SIZE};
use crate::layout::{block_fits, payload_size, regions_laid_out};
use crate::list::{Link, List};
use crate::region::Region;

verus! {

/// List of the addresses of the free blocks, in the order in which they
/// became free.
pub struct FreeList {
    /// One node for each free block; its element is the block's address.
    pub items: List<usize>,
}

/// `entries` without the first occurrence of `block`.
pub open spec fn without(entries: Seq<usize>, block: usize) -> Seq<usize> {
    if entries.contains(block) {
        entries.remove(entries.index_of(block))
    } else {
        entries
    }
}

/// Taking out a value that occurs once takes out that value and no other.
pub proof fn lemma_without_contains(entries: Seq<usize>, block: usize, addr: usize)
    requires
        entries.no_duplicates(),
    ensures
        without(entries, block).contains(addr) <==> entries.contains(addr) && addr != block,
{
    if entries.contains(block) {
        let at = entries.index_of(block);
        assert(entries[at] == block);
        let rest = entries.remove(at);
        if rest.contains(addr) {
            let k = rest.index_of(addr);
            assert(rest[k] == addr);
            let ok = if k < at { k } else { k + 1 };
            assert(entries[ok] == addr);
        }
        if entries.contains(addr) && addr != block {
            let k = entries.index_of(addr);
            assert(entries[k] == addr);
            let nk = if k < at { k } else { k - 1 };
            assert(rest[nk] == addr);
        }
    }
}

/// Taking a value out of a sequence without repeats leaves no repeats.
pub proof fn lemma_without_distinct(entries: Seq<usize>, block: usize)
    requires
        entries.no_duplicates(),
    ensures
        without(entries, block).no_duplicates(),
{
    if entries.contains(block) {
        let at = entries.index_of(block);
        let rest = entries.remove(at);
        assert forall|x: int, y: int|
            0 <= x < rest.len() && 0 <= y < rest.len() && x != y implies rest[x] != rest[y] by {
            let ox = if x < at { x } else { x + 1 };
            let oy = if y < at { y } else { y + 1 };
            assert(rest[x] == entries[ox] && rest[y] == entries[oy]);
        }
    }
}

/// A sequence with one more entry at its end holds that entry and what it held.
pub proof fn lemma_push_contains(entries: Seq<usize>, last: usize, addr: usize)
    ensures
        entries.push(last).contains(addr) <==> entries.contains(addr) || addr == last,
{
    let more = entries.push(last);
    if more.contains(addr) {
        let k = more.index_of(addr);
        assert(more[k] == addr);
        if k < entries.len() {
            assert(entries[k] == addr);
        }
    }
    if entries.contains(addr) {
        let k = entries.index_of(addr);
        assert(entries[k] == addr);
        assert(more[k] == addr);
    }
    assert(more[entries.len() as int] == last);
}

/// Position of the first entry of `entries` that names a block of `regions`
/// with at least `payload` bytes; `entries.len()` when there is none.
pub open spec fn first_fit(regions: &List<Region>, entries: Seq<usize>, payload: int) -> int
    decreases entries.len(),
{
    if entries.len() == 0 {
        0
    } else if block_fits(regions, entries[0], payload) {
        0
    } else {
        1 + first_fit(regions, entries.skip(1), payload)
    }
}

/// What `first_fit` gives lies in range, fits, and nothing before it fits.
pub proof fn lemma_first_fit(regions: &List<Region>, entries: Seq<usize>, payload: int)
    ensures
        0 <= first_fit(regions, entries, payload) <= entries.len(),
        first_fit(regions, entries, payload) < entries.len() ==> block_fits(
            regions,
            entries[first_fit(regions, entries, payload)],
            payload,
        ),
        forall|k: int|
            0 <= k < first_fit(regions, entries, payload) ==> !#[trigger] block_fits(
                regions,
                entries[k],
                payload,
            ),
    decreases entries.len(),
{
    if entries.len() > 0 && !block_fits(regions, entries[0], payload) {
        let rest = entries.skip(1);
        lemma_first_fit(regions, rest, payload);
        let f = first_fit(regions, rest, payload);
        assert forall|k: int| 0 <= k < 1 + f implies !#[trigger] block_fits(
            regions,
            entries[k],
            payload,
        ) by {
            if k > 0 {
                assert(entries[k] == rest[k - 1]);
            }
        }
        if f < rest.len() {
            assert(entries[1 + f] == rest[f]);
        }
    }
}

impl FreeList {
    /// The addresses of the free blocks, oldest entry first.
    pub open spec fn index(&self) -> Seq<usize> {
        self.items.data()
    }

    /// Every node of the index lies in the payload of the block it names.
    pub open spec fn wf(&self) -> bool {
        &&& self.items.wf()
        &&& forall|k: int|
            0 <= k < self.items.addrs().len() ==> #[trigger] self.items.addrs()[k]
                == self.items.data()[k] + BLOCK_HEADER_SIZE
    }

    /// In a well-formed index no block is named twice.
    pub proof fn lemma_index_distinct(&self)
        requires
            self.wf(),
        ensures
            self.index().no_duplicates(),
    {
        assert forall|x: int, y: int|
            0 <= x < self.index().len() && 0 <= y < self.index().len() && x != y implies self.index()[x]
            != self.index()[y] by {
            assert(self.items.addrs()[x] != self.items.addrs()[y]);
        }
    }

    /// Creates an empty index.
    pub fn new() -> (list: Self)
        ensures
            list.wf(),
            list.index() == Seq::<usize>::empty(),
    {
        let list = Self { items: List::new() };
        proof {
            assert(list.index() =~= Seq::<usize>::empty());
        }
        list
    }

    /// Tells whether the index names no block.
    pub fn is_empty(&self) -> (empty: bool)
        requires
            self.wf(),
        ensures
            empty == (self.index().len() == 0),
    {
        self.items.is_empty()
    }

    /// Enters the block at `block_addr` into the index and marks it free.
    ///
    /// `block` is the header found at `block_addr`, and `addr` is where the
    /// node of the index is written: the block's payload address.
    pub fn insert_free_block(
        &mut self,
        block: &mut Block,
        block_addr: usize,
        addr: usize,
    ) -> (node: usize)
        requires
            old(self).wf(),
            addr == block_addr + BLOCK_HEADER_SIZE,
            !old(self).index().contains(block_addr),
        ensures
            node == addr,
            final(self).wf(),
            final(self).index() == old(self).index().push(block_addr),
            final(block).is_free,
            final(block).size == old(block).size,
            final(block).region == old(block).region,
    {
        block.is_free = true;
        proof {
            if self.items.addrs().contains(addr) {
                let k = self.items.addrs().index_of(addr);
                assert(self.items.addrs()[k] == addr);
                assert(self.items.data()[k] == block_addr);
            }
        }
        self.items.append(block_addr, addr)
    }

    /// Takes the entry for the block at `node` out of the index; an index
    /// without such an entry stays as it is. The block's flag is left alone.
    pub fn remove_free_block(&mut self, node: usize)
        requires
            old(self).wf(),
        ensures
            final(self).wf(),
            final(self).index() == without(old(self).index(), node),
    {
        let n: usize = self.items.len();
        let mut i: usize = 0;
        while i < n
            invariant
                self.wf(),
                *self == *old(self),
                n == self.items.addrs().len(),
                i <= n,
                forall|k: int| 0 <= k < i ==> self.index()[k] != node,
            decreases n - i,
        {
            if self.items.node_at(i).data == node {
                proof {
                    self.lemma_index_distinct();
                    assert(self.index()[i as int] == node);
                    assert(self.index().index_of(node) == i);
                }
                let _ = self.items.remove_at(i);
                return ;
            }
            i += 1;
        }
    }

    /// Looks for a free block that can hold `size` bytes, first fit: the
    /// oldest entry of the index whose block has payload enough.
    pub fn find_free_block(&self, regions: &List<Region>, size: usize) -> (found: Link)
        requires
            self.wf(),
            regions_laid_out(regions),
        ensures
            found == if first_fit(regions, self.index(), payload_for(size as int))
                < self.index().len() {
                Some(self.index()[first_fit(regions, self.index(), payload_for(size as int))])
            } else {
                None
            },
    {
        let ghost want = payload_for(size as int);
        proof {
            lemma_first_fit(regions, self.index(), want);
        }
        if self.is_empty() {
            return None;
        }
        let needed: usize = match padded_payload(size) {
            Some(p) => p,
            None => {
                proof {
                    crate::block::lemma_payload_for(size as int);
                    let f = first_fit(regions, self.index(), want);
                    if f < self.index().len() {
                        crate::layout::lemma_fit_is_bounded(regions, self.index()[f], want);
                    }
                }
                return None;
            },
        };
        let n: usize = self.items.len();
        let mut i: usize = 0;
        while i < n
            invariant
                self.wf(),
                regions_laid_out(regions),
                n == self.items.addrs().len(),
                n == self.index().len(),
                i <= n,
                needed == want,
                want == payload_for(size as int),
                forall|k: int| 0 <= k < i ==> !#[trigger] block_fits(regions, self.index()[k], want),
            decreases n - i,
        {
            let block: usize = self.items.node_at(i).data;
            assert(block == self.index()[i as int]);
            match payload_size(regions, block) {
                Some(payload) => {
                    if payload >= needed {
                        proof {
                            assert(block_fits(regions, block, want));
                            lemma_first_fit(regions, self.index(), want);
                            let f = first_fit(regions, self.index(), want);
                            if f < i {
                                assert(block_fits(regions, self.index()[f], want));
                            }
                            if f > i {
                                assert(!block_fits(regions, self.index()[i as int], want));
                            }
                        }
                        return Some(block);
                    }
                    assert(!block_fits(regions, block, want));
                },
                None => {
                    assert(!block_fits(regions, block, want));
                },
            }
            i += 1;
        }
        proof {
            lemma_first_fit(regions, self.index(), want);
            let f = first_fit(regions, self.index(), want);
            if f < n {
                assert(block_fits(regions, self.index()[f], want));
            }
        }
        None
    }
}

} // verus!
