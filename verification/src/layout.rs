//! How the regions lie in the address space: which block stands where,
//! and how the free blocks and the blocks in use change when a region
//! changes, joins or leaves.

use vstd::prelude::*;
use crate::block::BLOCK_HEADER_SIZE;
use crate::list::List;
use crate::region::Region;

verus! {

/// The ranges of two regions share no byte.
pub open spec fn apart(a: Region, b: Region) -> bool {
    a.limit() <= b.base() || b.limit() <= a.base()
}

/// Every region of the list is laid out at the address of its node, and no
/// two regions overlap.
pub open spec fn regions_laid_out(regions: &List<Region>) -> bool {
    &&& regions.wf()
    &&& forall|i: int|
        0 <= i < regions.data().len() ==> (#[trigger] regions.data()[i]).laid_out()
            && regions.data()[i].base() == regions.addrs()[i]
    &&& forall|i: int, k: int|
        0 <= i < k < regions.data().len() ==> apart(
            #[trigger] regions.data()[i],
            #[trigger] regions.data()[k],
        )
}

/// Block `j` of region `i` exists and its header stands at `addr`.
pub open spec fn holds(regions: &List<Region>, i: int, j: int, addr: usize) -> bool {
    &&& 0 <= i < regions.data().len()
    &&& 0 <= j < regions.data()[i].count()
    &&& regions.data()[i].addr_of(j) == addr
}

/// Where the block with its header at `addr` is found: the position of its
/// region and its own position within the region.
pub open spec fn place(regions: &List<Region>, addr: usize) -> (int, int) {
    choose|p: (int, int)| holds(regions, p.0, p.1, addr)
}

/// Some block has its header at `addr`.
pub open spec fn is_block(regions: &List<Region>, addr: usize) -> bool {
    exists|i: int, j: int| holds(regions, i, j, addr)
}

/// Some block has its header at `addr` and a payload of `payload` bytes or more.
#[verifier::opaque]
pub open spec fn block_fits(regions: &List<Region>, addr: usize, payload: int) -> bool {
    exists|i: int, j: int| #[trigger]
        holds(regions, i, j, addr) && regions.data()[i].block(j).size >= payload
}

/// An address is the header of one block at most.
pub proof fn lemma_one_block_per_address(
    regions: &List<Region>,
    i: int,
    j: int,
    i2: int,
    j2: int,
    addr: usize,
)
    requires
        regions_laid_out(regions),
        holds(regions, i, j, addr),
        holds(regions, i2, j2, addr),
    ensures
        i == i2,
        j == j2,
{
    let a = regions.data()[i];
    let b = regions.data()[i2];
    a.lemma_block_within(j);
    b.lemma_block_within(j2);
    if i < i2 {
        assert(apart(a, b));
    } else if i2 < i {
        assert(apart(b, a));
    }
}

/// The place of a block is where its header is found.
pub proof fn lemma_place(regions: &List<Region>, i: int, j: int, addr: usize)
    requires
        regions_laid_out(regions),
        holds(regions, i, j, addr),
    ensures
        place(regions, addr) == (i, j),
        is_block(regions, addr),
{
    let p = place(regions, addr);
    assert(holds(regions, (i, j).0, (i, j).1, addr));
    lemma_one_block_per_address(regions, i, j, p.0, p.1, addr);
}

/// A block that fits proves so at its place.
pub proof fn lemma_fits_at(regions: &List<Region>, i: int, j: int, payload: int)
    requires
        0 <= i < regions.data().len(),
        0 <= j < regions.data()[i].count(),
        regions.data()[i].block(j).size >= payload,
    ensures
        block_fits(regions, regions.data()[i].addr_of(j), payload),
{
    reveal(block_fits);
    assert(holds(regions, i, j, regions.data()[i].addr_of(j)));
}

/// A block that is too small makes its address fit nothing.
pub proof fn lemma_no_fit_at(regions: &List<Region>, i: int, j: int, payload: int)
    requires
        regions_laid_out(regions),
        0 <= i < regions.data().len(),
        0 <= j < regions.data()[i].count(),
        regions.data()[i].block(j).size < payload,
    ensures
        !block_fits(regions, regions.data()[i].addr_of(j), payload),
{
    reveal(block_fits);
    let addr = regions.data()[i].addr_of(j);
    assert(holds(regions, i, j, addr));
    assert forall|i2: int, j2: int| #[trigger] holds(regions, i2, j2, addr) implies !(
    regions.data()[i2].block(j2).size >= payload) by {
        lemma_one_block_per_address(regions, i, j, i2, j2, addr);
    }
}

/// A block that fits has the payload asked for.
pub proof fn lemma_fit_size(regions: &List<Region>, i: int, j: int, addr: usize, payload: int)
    requires
        regions_laid_out(regions),
        holds(regions, i, j, addr),
        block_fits(regions, addr, payload),
    ensures
        regions.data()[i].block(j).size >= payload,
{
    reveal(block_fits);
    let (i2, j2) = choose|i2: int, j2: int| #[trigger]
        holds(regions, i2, j2, addr) && regions.data()[i2].block(j2).size >= payload;
    lemma_one_block_per_address(regions, i, j, i2, j2, addr);
}

/// An address that is no block's header fits nothing.
pub proof fn lemma_no_fit_without_block(regions: &List<Region>, addr: usize, payload: int)
    requires
        forall|i: int, j: int| !holds(regions, i, j, addr),
    ensures
        !block_fits(regions, addr, payload),
{
    reveal(block_fits);
}

/// No block is large enough for a payload that leaves no room for a header.
pub proof fn lemma_fit_is_bounded(regions: &List<Region>, addr: usize, payload: int)
    requires
        regions_laid_out(regions),
        block_fits(regions, addr, payload),
    ensures
        payload <= usize::MAX - BLOCK_HEADER_SIZE,
{
    reveal(block_fits);
    let (i, j) = choose|i: int, j: int| #[trigger]
        holds(regions, i, j, addr) && regions.data()[i].block(j).size >= payload;
    regions.data()[i].lemma_block_within(j);
}

/// Some free block has its header at `addr`.
pub open spec fn is_free_block(regions: &List<Region>, addr: usize) -> bool {
    exists|i: int| 0 <= i < regions.data().len() && (#[trigger] regions.data()[i]).has_free_at(addr)
}

/// Some block in use with `payload` bytes of payload has its header at `addr`.
pub open spec fn is_used_block(regions: &List<Region>, addr: usize, payload: int) -> bool {
    exists|i: int|
        0 <= i < regions.data().len() && (#[trigger] regions.data()[i]).has_used_at(addr, payload)
}

/// Whether a block is free shows at its place.
pub proof fn lemma_free_at_place(regions: &List<Region>, i: int, j: int, addr: usize)
    requires
        regions_laid_out(regions),
        holds(regions, i, j, addr),
    ensures
        is_free_block(regions, addr) == regions.data()[i].block(j).is_free,
        regions.data()[i].has_free_at(addr) == regions.data()[i].block(j).is_free,
        forall|s: int| #[trigger]
            is_used_block(regions, addr, s) <==> !regions.data()[i].block(j).is_free
                && regions.data()[i].block(j).size == s,
{
    let here = regions.data()[i];
    if here.block(j).is_free {
        assert(here.addr_of(j) == addr);
        assert(here.has_free_at(addr));
    }
    if here.has_free_at(addr) {
        let j2 = choose|j2: int|
            0 <= j2 < here.count() && #[trigger] here.addr_of(j2) == addr && here.block(j2).is_free;
        lemma_one_block_per_address(regions, i, j, i, j2, addr);
    }
    if is_free_block(regions, addr) {
        let i2 = choose|i2: int|
            0 <= i2 < regions.data().len() && (#[trigger] regions.data()[i2]).has_free_at(addr);
        let there = regions.data()[i2];
        let j2 = choose|j2: int|
            0 <= j2 < there.count() && #[trigger] there.addr_of(j2) == addr && there.block(j2).is_free;
        lemma_one_block_per_address(regions, i, j, i2, j2, addr);
    }
    assert forall|s: int| #[trigger]
        is_used_block(regions, addr, s) <==> !regions.data()[i].block(j).is_free
            && regions.data()[i].block(j).size == s by {
        if is_used_block(regions, addr, s) {
            let (i2, j2) = lemma_used_block_holds(regions, addr, s);
            lemma_one_block_per_address(regions, i, j, i2, j2, addr);
        }
        if !here.block(j).is_free && here.block(j).size == s {
            assert(here.addr_of(j) == addr);
            assert(here.has_used_at(addr, s));
        }
    }
}

/// A block in use is a block.
pub proof fn lemma_used_block_holds(regions: &List<Region>, addr: usize, payload: int) -> (p: (
    int,
    int,
))
    requires
        is_used_block(regions, addr, payload),
    ensures
        holds(regions, p.0, p.1, addr),
        !regions.data()[p.0].block(p.1).is_free,
        regions.data()[p.0].block(p.1).size == payload,
{
    let i = choose|i: int|
        0 <= i < regions.data().len() && (#[trigger] regions.data()[i]).has_used_at(addr, payload);
    let there = regions.data()[i];
    let j = choose|j: int|
        0 <= j < there.count() && #[trigger] there.addr_of(j) == addr && !there.block(j).is_free
            && there.block(j).size == payload;
    (i, j)
}

/// A free block is a block.
pub proof fn lemma_free_block_holds(regions: &List<Region>, addr: usize) -> (p: (int, int))
    requires
        is_free_block(regions, addr),
    ensures
        holds(regions, p.0, p.1, addr),
        regions.data()[p.0].block(p.1).is_free,
{
    let i = choose|i: int|
        0 <= i < regions.data().len() && (#[trigger] regions.data()[i]).has_free_at(addr);
    let there = regions.data()[i];
    let j = choose|j: int|
        0 <= j < there.count() && #[trigger] there.addr_of(j) == addr && there.block(j).is_free;
    (i, j)
}

/// When one region changes in place and keeps its range, the regions stay
/// laid out, and the free blocks change as that region's do.
pub proof fn lemma_region_replaced(pre: &List<Region>, post: &List<Region>, r: int)
    requires
        regions_laid_out(pre),
        post.wf(),
        0 <= r < pre.data().len(),
        post.addrs() == pre.addrs(),
        post.data().len() == pre.data().len(),
        forall|i: int|
            0 <= i < pre.data().len() && i != r ==> #[trigger] post.data()[i] == pre.data()[i],
        post.data()[r].laid_out(),
        post.data()[r].base() == pre.data()[r].base(),
        post.data()[r].size == pre.data()[r].size,
    ensures
        regions_laid_out(post),
        forall|a: usize| #[trigger]
            is_free_block(post, a) <==> post.data()[r].has_free_at(a) || (is_free_block(pre, a)
                && !pre.data()[r].has_free_at(a)),
        forall|a: usize, s: int| #[trigger]
            is_used_block(post, a, s) <==> post.data()[r].has_used_at(a, s) || (is_used_block(
                pre,
                a,
                s,
            ) && !pre.data()[r].has_used_at(a, s)),
{
    assert forall|a: usize, s: int| #[trigger]
        is_used_block(post, a, s) <==> post.data()[r].has_used_at(a, s) || (is_used_block(
            pre,
            a,
            s,
        ) && !pre.data()[r].has_used_at(a, s)) by {
        if is_used_block(post, a, s) {
            let i = choose|i: int|
                0 <= i < post.data().len() && (#[trigger] post.data()[i]).has_used_at(a, s);
            if i != r {
                assert(post.data()[i] == pre.data()[i]);
                assert(pre.data()[i].has_used_at(a, s));
                if pre.data()[r].has_used_at(a, s) {
                    let here = pre.data()[r];
                    let j = choose|j: int|
                        0 <= j < here.count() && #[trigger] here.addr_of(j) == a && !here.block(
                            j,
                        ).is_free && here.block(j).size == s;
                    let there = pre.data()[i];
                    let j2 = choose|j2: int|
                        0 <= j2 < there.count() && #[trigger] there.addr_of(j2) == a
                            && !there.block(j2).is_free && there.block(j2).size == s;
                    lemma_one_block_per_address(pre, r, j, i, j2, a);
                }
            }
        }
        if post.data()[r].has_used_at(a, s) {
            assert(is_used_block(post, a, s));
        }
        if is_used_block(pre, a, s) && !pre.data()[r].has_used_at(a, s) {
            let i = choose|i: int|
                0 <= i < pre.data().len() && (#[trigger] pre.data()[i]).has_used_at(a, s);
            assert(post.data()[i] == pre.data()[i]);
            assert(post.data()[i].has_used_at(a, s));
        }
    }
    assert forall|i: int| 0 <= i < post.data().len() implies (#[trigger] post.data()[i]).laid_out()
        && post.data()[i].base() == post.addrs()[i] by {
        if i != r {
            assert(post.data()[i] == pre.data()[i]);
        }
        assert(pre.data()[i].laid_out());
    }
    assert forall|i: int, k: int| 0 <= i < k < post.data().len() implies apart(
        #[trigger] post.data()[i],
        #[trigger] post.data()[k],
    ) by {
        assert(apart(pre.data()[i], pre.data()[k]));
        assert(post.data()[i].base() == pre.data()[i].base());
        assert(post.data()[k].base() == pre.data()[k].base());
        assert(post.data()[i].size == pre.data()[i].size);
        assert(post.data()[k].size == pre.data()[k].size);
    }
    assert forall|a: usize| #[trigger]
        is_free_block(post, a) <==> post.data()[r].has_free_at(a) || (is_free_block(pre, a)
            && !pre.data()[r].has_free_at(a)) by {
        if is_free_block(post, a) {
            let i = choose|i: int|
                0 <= i < post.data().len() && (#[trigger] post.data()[i]).has_free_at(a);
            if i != r {
                assert(post.data()[i] == pre.data()[i]);
                assert(pre.data()[i].has_free_at(a));
                let p = lemma_free_block_holds(pre, a);
                lemma_free_at_place(pre, p.0, p.1, a);
                if pre.data()[r].has_free_at(a) {
                    let here = pre.data()[r];
                    let j = choose|j: int|
                        0 <= j < here.count() && #[trigger] here.addr_of(j) == a && here.block(
                            j,
                        ).is_free;
                    let there = pre.data()[i];
                    let j2 = choose|j2: int|
                        0 <= j2 < there.count() && #[trigger] there.addr_of(j2) == a
                            && there.block(j2).is_free;
                    lemma_one_block_per_address(pre, r, j, i, j2, a);
                }
            }
        }
        if post.data()[r].has_free_at(a) {
            assert(is_free_block(post, a));
        }
        if is_free_block(pre, a) && !pre.data()[r].has_free_at(a) {
            let i = choose|i: int|
                0 <= i < pre.data().len() && (#[trigger] pre.data()[i]).has_free_at(a);
            assert(post.data()[i] == pre.data()[i]);
            assert(post.data()[i].has_free_at(a));
        }
    }
}

/// A region that overlaps none of the others can join them; its free
/// blocks join theirs.
pub proof fn lemma_region_added(pre: &List<Region>, post: &List<Region>, fresh: Region)
    requires
        regions_laid_out(pre),
        post.wf(),
        post.addrs() == pre.addrs().push(fresh.base()),
        post.data() == pre.data().push(fresh),
        fresh.laid_out(),
        forall|i: int| 0 <= i < pre.data().len() ==> apart(#[trigger] pre.data()[i], fresh),
    ensures
        regions_laid_out(post),
        forall|a: usize| #[trigger]
            is_free_block(post, a) <==> fresh.has_free_at(a) || is_free_block(pre, a),
        forall|a: usize, s: int| #[trigger]
            is_used_block(post, a, s) <==> fresh.has_used_at(a, s) || is_used_block(pre, a, s),
{
    let n = pre.data().len() as int;
    assert forall|a: usize, s: int| #[trigger]
        is_used_block(post, a, s) <==> fresh.has_used_at(a, s) || is_used_block(pre, a, s) by {
        if is_used_block(post, a, s) {
            let i = choose|i: int|
                0 <= i < post.data().len() && (#[trigger] post.data()[i]).has_used_at(a, s);
            if i < n {
                assert(post.data()[i] == pre.data()[i]);
            }
        }
        if fresh.has_used_at(a, s) {
            assert(post.data()[n] == fresh);
        }
        if is_used_block(pre, a, s) {
            let i = choose|i: int|
                0 <= i < pre.data().len() && (#[trigger] pre.data()[i]).has_used_at(a, s);
            assert(post.data()[i] == pre.data()[i]);
        }
    }
    assert forall|i: int| 0 <= i < post.data().len() implies (#[trigger] post.data()[i]).laid_out()
        && post.data()[i].base() == post.addrs()[i] by {
        if i < n {
            assert(post.data()[i] == pre.data()[i]);
        }
    }
    assert forall|i: int, k: int| 0 <= i < k < post.data().len() implies apart(
        #[trigger] post.data()[i],
        #[trigger] post.data()[k],
    ) by {
        assert(post.data()[i] == pre.data()[i]);
        if k < n {
            assert(post.data()[k] == pre.data()[k]);
        }
    }
    assert forall|a: usize| #[trigger]
        is_free_block(post, a) <==> fresh.has_free_at(a) || is_free_block(pre, a) by {
        if is_free_block(post, a) {
            let i = choose|i: int|
                0 <= i < post.data().len() && (#[trigger] post.data()[i]).has_free_at(a);
            if i < n {
                assert(post.data()[i] == pre.data()[i]);
            }
        }
        if fresh.has_free_at(a) {
            assert(post.data()[n] == fresh);
        }
        if is_free_block(pre, a) {
            let i = choose|i: int|
                0 <= i < pre.data().len() && (#[trigger] pre.data()[i]).has_free_at(a);
            assert(post.data()[i] == pre.data()[i]);
        }
    }
}

/// When a region leaves, the others stay laid out, and its free blocks
/// leave with it.
pub proof fn lemma_region_removed(pre: &List<Region>, post: &List<Region>, r: int)
    requires
        regions_laid_out(pre),
        post.wf(),
        0 <= r < pre.data().len(),
        post.addrs() == pre.addrs().remove(r),
        post.data() == pre.data().remove(r),
    ensures
        regions_laid_out(post),
        forall|a: usize| #[trigger]
            is_free_block(post, a) <==> is_free_block(pre, a) && !pre.data()[r].has_free_at(a),
        forall|a: usize, s: int| #[trigger]
            is_used_block(post, a, s) <==> is_used_block(pre, a, s) && !pre.data()[r].has_used_at(
                a,
                s,
            ),
{
    assert forall|a: usize, s: int| #[trigger]
        is_used_block(post, a, s) <==> is_used_block(pre, a, s) && !pre.data()[r].has_used_at(
            a,
            s,
        ) by {
        if is_used_block(post, a, s) {
            let i = choose|i: int|
                0 <= i < post.data().len() && (#[trigger] post.data()[i]).has_used_at(a, s);
            let pi = if i < r { i } else { i + 1 };
            assert(post.data()[i] == pre.data()[pi]);
            assert(pre.data()[pi].has_used_at(a, s));
            if pre.data()[r].has_used_at(a, s) {
                let here = pre.data()[r];
                let j = choose|j: int|
                    0 <= j < here.count() && #[trigger] here.addr_of(j) == a && !here.block(
                        j,
                    ).is_free && here.block(j).size == s;
                let there = pre.data()[pi];
                let j2 = choose|j2: int|
                    0 <= j2 < there.count() && #[trigger] there.addr_of(j2) == a && !there.block(
                        j2,
                    ).is_free && there.block(j2).size == s;
                lemma_one_block_per_address(pre, r, j, pi, j2, a);
            }
        }
        if is_used_block(pre, a, s) && !pre.data()[r].has_used_at(a, s) {
            let i = choose|i: int|
                0 <= i < pre.data().len() && (#[trigger] pre.data()[i]).has_used_at(a, s);
            let qi = if i < r { i } else { i - 1 };
            assert(post.data()[qi] == pre.data()[i]);
        }
    }
    assert forall|i: int| 0 <= i < post.data().len() implies (#[trigger] post.data()[i]).laid_out()
        && post.data()[i].base() == post.addrs()[i] by {
        if i < r {
            assert(post.data()[i] == pre.data()[i]);
        } else {
            assert(post.data()[i] == pre.data()[i + 1]);
        }
    }
    assert forall|i: int, k: int| 0 <= i < k < post.data().len() implies apart(
        #[trigger] post.data()[i],
        #[trigger] post.data()[k],
    ) by {
        let pi = if i < r { i } else { i + 1 };
        let pk = if k < r { k } else { k + 1 };
        assert(post.data()[i] == pre.data()[pi]);
        assert(post.data()[k] == pre.data()[pk]);
    }
    assert forall|a: usize| #[trigger]
        is_free_block(post, a) <==> is_free_block(pre, a) && !pre.data()[r].has_free_at(
            a,
        ) by {
        if is_free_block(post, a) {
            let i = choose|i: int|
                0 <= i < post.data().len() && (#[trigger] post.data()[i]).has_free_at(a);
            let pi = if i < r { i } else { i + 1 };
            assert(post.data()[i] == pre.data()[pi]);
            assert(pre.data()[pi].has_free_at(a));
            if pre.data()[r].has_free_at(a) {
                let here = pre.data()[r];
                let j = choose|j: int|
                    0 <= j < here.count() && #[trigger] here.addr_of(j) == a && here.block(j).is_free;
                let there = pre.data()[pi];
                let j2 = choose|j2: int|
                    0 <= j2 < there.count() && #[trigger] there.addr_of(j2) == a && there.block(
                        j2,
                    ).is_free;
                lemma_one_block_per_address(pre, r, j, pi, j2, a);
            }
        }
        if is_free_block(pre, a) && !pre.data()[r].has_free_at(a) {
            let i = choose|i: int|
                0 <= i < pre.data().len() && (#[trigger] pre.data()[i]).has_free_at(a);
            let qi = if i < r { i } else { i - 1 };
            assert(post.data()[qi] == pre.data()[i]);
        }
    }
}

/// Finds the block whose header stands at `addr`: the position of its region
/// and its own position within the region.
pub fn locate(regions: &List<Region>, addr: usize) -> (found: Option<(usize, usize)>)
    requires
        regions_laid_out(regions),
    ensures
        match found {
            Some((i, j)) => holds(regions, i as int, j as int, addr) && place(regions, addr) == (
                i as int,
                j as int,
            ),
            None => forall|i: int, j: int| !holds(regions, i, j, addr),
        },
        found.is_some() == is_block(regions, addr),
{
    let n: usize = regions.len();
    let mut i: usize = 0;
    while i < n
        invariant
            regions_laid_out(regions),
            n == regions.data().len(),
            i <= n,
            forall|r: int, j: int| 0 <= r < i ==> !holds(regions, r, j, addr),
        decreases n - i,
    {
        let region = &regions.node_at(i).data;
        assert(*region == regions.data()[i as int]);
        assert(region.laid_out());
        match region.blocks.position(addr) {
            Some(j) => {
                proof {
                    lemma_place(regions, i as int, j as int, addr);
                }
                return Some((i, j));
            },
            None => {},
        }
        i += 1;
    }
    None
}

/// Payload size of the block whose header stands at `addr`, if there is one.
pub fn payload_size(regions: &List<Region>, addr: usize) -> (size: Option<usize>)
    requires
        regions_laid_out(regions),
    ensures
        match size {
            Some(s) => forall|payload: int| #[trigger]
                block_fits(regions, addr, payload) <==> s >= payload,
            None => forall|payload: int| !#[trigger] block_fits(regions, addr, payload),
        },
{
    match locate(regions, addr) {
        Some((i, j)) => {
            let s: usize = regions.node_at(i).data.blocks.node_at(j).data.size;
            proof {
                assert(s == regions.data()[i as int].block(j as int).size);
                assert forall|payload: int| #[trigger]
                    block_fits(regions, addr, payload) <==> s >= payload by {
                    if s >= payload {
                        lemma_fits_at(regions, i as int, j as int, payload);
                    } else {
                        lemma_no_fit_at(regions, i as int, j as int, payload);
                    }
                }
            }
            Some(s)
        },
        None => {
            proof {
                assert forall|payload: int| !#[trigger] block_fits(regions, addr, payload) by {
                    lemma_no_fit_without_block(regions, addr, payload);
                }
            }
            None
        },
    }
}

} // verus!
