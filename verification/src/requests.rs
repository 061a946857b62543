//! Runs of allocations with no release in between: what they hand out never
//! overlaps, and they cannot hand out more than the arena holds.

use vstd::prelude::*;
use crate::laws::{lemma_allocate_live, lemma_allocation_serves, lemma_live_disjoint};
use crate::layout::{lemma_rounded, rounded, UNIT};
use crate::model::{
    carved, chained, first_fit, high_water, lemma_first_fit, placed, taken, Block, HeapView,
};

verus! {

/// Bytes of the arena that the used blocks take up, headers included.
pub open spec fn footprint(blocks: Seq<Block>) -> int
    decreases blocks.len(),
{
    if blocks.len() == 0 {
        0
    } else {
        footprint(blocks.drop_last()) + if blocks.last().free {
            0
        } else {
            UNIT + blocks.last().size
        }
    }
}

/// The state after the requests were made in turn.
pub open spec fn serve_all(v: HeapView, requests: Seq<int>) -> HeapView
    decreases requests.len(),
{
    if requests.len() == 0 {
        v
    } else {
        serve_all(v, requests.drop_last()).allocate(requests.last())
    }
}

/// Every one of the requests, made in turn, is served.
pub open spec fn all_served(v: HeapView, requests: Seq<int>) -> bool
    decreases requests.len(),
{
    requests.len() == 0 || (all_served(v, requests.drop_last()) && serve_all(
        v,
        requests.drop_last(),
    ).can_allocate(requests.last()))
}

/// Bytes of the arena that serving the requests takes at the least: for
/// each, a header and the rounded size.
pub open spec fn demand(requests: Seq<int>) -> int
    decreases requests.len(),
{
    if requests.len() == 0 {
        0
    } else {
        demand(requests.drop_last()) + UNIT + rounded(requests.last())
    }
}

/// Sum of the requested sizes.
pub open spec fn total(requests: Seq<int>) -> int
    decreases requests.len(),
{
    if requests.len() == 0 {
        0
    } else {
        total(requests.drop_last()) + requests.last()
    }
}

/// What two rows take up together is the sum of what each takes up.
pub proof fn lemma_footprint_concat(a: Seq<Block>, b: Seq<Block>)
    ensures
        footprint(a + b) == footprint(a) + footprint(b),
    decreases b.len(),
{
    if b.len() == 0 {
        assert(a + b =~= a);
    } else {
        assert((a + b).drop_last() =~= a + b.drop_last());
        assert((a + b).last() == b.last());
        lemma_footprint_concat(a, b.drop_last());
    }
}

/// What a row of one block takes up.
proof fn lemma_footprint_one(b: Block)
    ensures
        footprint(seq![b]) == if b.free {
            0
        } else {
            UNIT + b.size
        },
{
    assert(seq![b].drop_last() =~= Seq::<Block>::empty());
    assert(footprint(Seq::<Block>::empty()) == 0);
}

/// The used blocks lie within the chain, beside any free block.
pub proof fn lemma_footprint_bound(blocks: Seq<Block>)
    requires
        chained(blocks),
        blocks.len() > 0,
    ensures
        0 <= footprint(blocks) <= high_water(blocks) - blocks[0].start,
        forall|i: int|
            0 <= i < blocks.len() && (#[trigger] blocks[i]).free ==> footprint(blocks) + UNIT
                + blocks[i].size <= high_water(blocks) - blocks[0].start,
    decreases blocks.len(),
{
    let rest = blocks.drop_last();
    let last = blocks.last();
    assert(last.well_sized());
    if rest.len() == 0 {
        assert(footprint(rest) == 0);
    } else {
        assert(chained(rest)) by {
            assert forall|i: int| 0 <= i < rest.len() implies (#[trigger] rest[i]).well_sized() by {
                assert(rest[i] == blocks[i]);
            }
            assert forall|i: int, j: int| 0 <= i && j == i + 1 && j < rest.len() implies (
            #[trigger] rest[j]).start == (#[trigger] rest[i]).end() by {
                assert(rest[i] == blocks[i] && rest[j] == blocks[j]);
            }
        }
        lemma_footprint_bound(rest);
        assert(rest.last() == blocks[blocks.len() - 2]);
        assert(last.start == blocks[blocks.len() - 2].end());
        assert(rest[0] == blocks[0]);
        assert forall|i: int| 0 <= i < blocks.len() && (#[trigger] blocks[i]).free implies footprint(
            blocks,
        ) + UNIT + blocks[i].size <= high_water(blocks) - blocks[0].start by {
            if i < rest.len() {
                assert(rest[i] == blocks[i]);
            }
        }
    }
}

/// Exhaustion: a request that, with its header, no longer fits beside what
/// the used blocks take up is refused.
pub proof fn lemma_exhaustion(v: HeapView, n: int)
    requires
        v.wf(),
        footprint(v.blocks) + UNIT + rounded(n) > v.capacity,
    ensures
        !v.can_allocate(n),
        v.allocate(n) == v,
{
    let need = rounded(n);
    lemma_first_fit(v.blocks, need, 0);
    if v.blocks.len() > 0 {
        lemma_footprint_bound(v.blocks);
        let i = first_fit(v.blocks, need, 0);
        if i < v.blocks.len() {
            assert(v.blocks[i].free);
        }
    } else {
        assert(footprint(v.blocks) == 0);
    }
}

/// What the used blocks take up is never more than the arena.
pub proof fn lemma_footprint_within(v: HeapView)
    requires
        v.wf(),
    ensures
        0 <= footprint(v.blocks) <= v.high_water() <= v.capacity,
{
    if v.blocks.len() > 0 {
        lemma_footprint_bound(v.blocks);
    } else {
        assert(footprint(v.blocks) == 0);
    }
}

/// A served request adds at least its header and its rounded size to what
/// the used blocks take up.
pub proof fn lemma_allocate_footprint(v: HeapView, n: int)
    requires
        v.wf(),
        v.can_allocate(n),
    ensures
        footprint(v.allocate(n).blocks) >= footprint(v.blocks) + UNIT + rounded(n),
{
    let need = rounded(n);
    let blocks = v.blocks;
    let i = first_fit(blocks, need, 0);
    lemma_rounded(n);
    lemma_first_fit(blocks, need, 0);
    if i < blocks.len() {
        let b = blocks[i];
        let pieces = taken(b, need);
        let below = blocks.subrange(0, i);
        let above = blocks.subrange(i + 1, blocks.len() as int);
        assert(blocks =~= below + seq![b] + above);
        assert(placed(blocks, i, need) == below + pieces + above);
        lemma_footprint_concat(below, seq![b]);
        lemma_footprint_concat(below + seq![b], above);
        lemma_footprint_concat(below, pieces);
        lemma_footprint_concat(below + pieces, above);
        lemma_footprint_one(b);
        if b.splits(need) {
            let used = Block { start: b.start, size: need, free: false };
            assert(pieces.drop_last() =~= seq![used]);
            lemma_footprint_one(used);
        } else {
            lemma_footprint_one(Block { start: b.start, size: b.size, free: false });
        }
    } else {
        assert(carved(blocks, need).drop_last() =~= blocks);
    }
}

/// A run of served requests leaves the heap well formed, with at least the
/// run's demand added to what the used blocks take up.
pub proof fn lemma_serve_all(v: HeapView, requests: Seq<int>)
    requires
        v.wf(),
        all_served(v, requests),
    ensures
        serve_all(v, requests).wf(),
        serve_all(v, requests).capacity == v.capacity,
        footprint(serve_all(v, requests).blocks) >= footprint(v.blocks) + demand(requests),
    decreases requests.len(),
{
    if requests.len() > 0 {
        let before = serve_all(v, requests.drop_last());
        lemma_serve_all(v, requests.drop_last());
        lemma_allocate_live(before, requests.last(), 0);
        lemma_allocate_footprint(before, requests.last());
    }
}

/// The demand of a run is at least the sum of its requests.
proof fn lemma_demand_holds_total(requests: Seq<int>)
    ensures
        demand(requests) >= total(requests),
        demand(requests) >= 0,
    decreases requests.len(),
{
    if requests.len() > 0 {
        lemma_demand_holds_total(requests.drop_last());
        lemma_rounded(requests.last());
    }
}

/// Exhaustion of a run: requests that ask for more than the arena has left
/// beside the used blocks are not all served. In particular no run that
/// asks for more bytes than the arena holds is served in full.
pub proof fn lemma_run_exhausts(v: HeapView, requests: Seq<int>)
    requires
        v.wf(),
        footprint(v.blocks) + demand(requests) > v.capacity || total(requests) > v.capacity,
    ensures
        !all_served(v, requests),
{
    if all_served(v, requests) {
        lemma_serve_all(v, requests);
        lemma_footprint_within(serve_all(v, requests));
        lemma_footprint_within(v);
        lemma_demand_holds_total(requests);
    }
}

/// Where a run is served, so is each of its beginnings, and each request
/// is served in the state that the requests before it left.
proof fn lemma_served_prefix(v: HeapView, requests: Seq<int>, k: int)
    requires
        v.wf(),
        all_served(v, requests),
        0 <= k <= requests.len(),
    ensures
        all_served(v, requests.take(k)),
        serve_all(v, requests.take(k)).wf(),
        k < requests.len() ==> serve_all(v, requests.take(k)).can_allocate(requests[k])
            && serve_all(v, requests.take(k + 1)) == serve_all(v, requests.take(k)).allocate(
            requests[k],
        ),
    decreases requests.len() - k,
{
    if k == requests.len() {
        assert(requests.take(k) =~= requests);
        lemma_serve_all(v, requests);
    } else {
        lemma_served_prefix(v, requests, k + 1);
        let longer = requests.take(k + 1);
        assert(longer.drop_last() =~= requests.take(k));
        assert(longer.last() == requests[k]);
        lemma_serve_all(v, requests.take(k));
    }
}

/// A payload that is live at one point of a served run is live, with the
/// same length, at every later point.
proof fn lemma_stays_live(v: HeapView, requests: Seq<int>, p: int, from: int, to: int)
    requires
        v.wf(),
        all_served(v, requests),
        0 <= from <= to <= requests.len(),
        serve_all(v, requests.take(from)).is_live(p),
    ensures
        serve_all(v, requests.take(to)).is_live(p),
        serve_all(v, requests.take(to)).usable_size(p) == serve_all(
            v,
            requests.take(from),
        ).usable_size(p),
    decreases to - from,
{
    if from < to {
        lemma_stays_live(v, requests, p, from, to - 1);
        lemma_served_prefix(v, requests, to - 1);
        lemma_allocate_live(serve_all(v, requests.take(to - 1)), requests[to - 1], p);
    }
}

/// Disjointness: in a run of served requests with no release in between,
/// the payloads handed out to two of them do not overlap, and each lies
/// inside the arena and holds its request.
pub proof fn lemma_run_disjoint(v: HeapView, requests: Seq<int>, a: int, b: int)
    requires
        v.wf(),
        all_served(v, requests),
        0 <= a < b < requests.len(),
    ensures
        ({
            let p = serve_all(v, requests.take(a)).allocation(requests[a]);
            let q = serve_all(v, requests.take(b)).allocation(requests[b]);
            &&& p + requests[a] <= q || q + requests[b] <= p
            &&& 0 <= p && p + requests[a] <= v.capacity
            &&& 0 <= q && q + requests[b] <= v.capacity
        }),
{
    let va = serve_all(v, requests.take(a));
    let vb = serve_all(v, requests.take(b));
    let p = va.allocation(requests[a]);
    let q = vb.allocation(requests[b]);
    lemma_served_prefix(v, requests, a);
    lemma_served_prefix(v, requests, b);
    lemma_serve_all(v, requests.take(a));
    lemma_serve_all(v, requests.take(b));
    lemma_allocation_serves(va, requests[a]);
    lemma_allocation_serves(vb, requests[b]);
    lemma_stays_live(v, requests, p, a + 1, b);
    lemma_allocate_live(vb, requests[b], p);
    lemma_allocate_live(vb, requests[b], q);
    lemma_live_disjoint(vb.allocate(requests[b]), p, q);
}

} // verus!
