//! How the bytes of an arena and a free list stand for a row of blocks, and
//! why each step of an allocation or a release keeps them doing so.

use vstd::prelude::*;
use crate::arena::{header_free, header_size, header_written, lemma_header_frame};
use crate::layout::{aligned, UNIT};
use crate::model::{
    carved, chained, coalesced, first_fit, free_start, freed, high_water, lemma_carved,
    lemma_first_fit_is, lemma_chained_index_order, lemma_chained_ordered, lemma_below_high_water,
    lemma_freed, lemma_placed, lemma_block_aligned, lemma_span, lemma_splice_free_start,
    lemma_splice_index, lemma_start_in_span, merge_from, merge_to, placed, span, splice, taken,
    tiled, Block,
};

verus! {

/// The header that the bytes hold at the block's start is the block's own.
pub open spec fn header_matches(bytes: Seq<u8>, b: Block) -> bool {
    &&& header_size(bytes, b.start) == b.size
    &&& header_free(bytes, b.start) == b.free
}

/// Every block finds its header in the bytes.
pub open spec fn headers_match(bytes: Seq<u8>, blocks: Seq<Block>) -> bool {
    forall|i: int| 0 <= i < blocks.len() ==> header_matches(bytes, #[trigger] blocks[i])
}

/// The offsets grow strictly along the list.
pub open spec fn ascending(list: Seq<usize>) -> bool {
    forall|k: int, l: int| 0 <= k < l < list.len() ==> list[k] < list[l]
}

/// The list has an entry `a`.
pub open spec fn listed(list: Seq<usize>, a: int) -> bool {
    exists|k: int| 0 <= k < list.len() && (#[trigger] list[k]) == a
}

/// The list holds, in address order, the header offsets of exactly the free
/// blocks.
pub open spec fn lists_free(list: Seq<usize>, blocks: Seq<Block>) -> bool {
    &&& ascending(list)
    &&& forall|a: int|
        #![trigger listed(list, a)]
        #![trigger free_start(blocks, a)]
        listed(list, a) <==> free_start(blocks, a)
}

/// How often the list has the entry `a`.
pub open spec fn occurrences(list: Seq<usize>, a: int) -> nat
    decreases list.len(),
{
    if list.len() == 0 {
        0
    } else {
        occurrences(list.drop_last(), a) + if list.last() == a {
            1nat
        } else {
            0nat
        }
    }
}

/// An ascending list has each of its entries once.
pub proof fn lemma_occurrences(list: Seq<usize>, a: int)
    requires
        ascending(list),
    ensures
        occurrences(list, a) == (if listed(list, a) {
            1nat
        } else {
            0nat
        }),
    decreases list.len(),
{
    if list.len() > 0 {
        let rest = list.drop_last();
        let n = list.len() - 1;
        assert forall|k: int, l: int| 0 <= k < l < rest.len() implies rest[k] < rest[l] by {
            assert(rest[k] == list[k] && rest[l] == list[l]);
        }
        lemma_occurrences(rest, a);
        if listed(rest, a) {
            let k = choose|k: int| 0 <= k < rest.len() && (#[trigger] rest[k]) == a;
            assert(list[k] == a);
            assert(list[k] < list[n]);
        }
        if listed(list, a) && list.last() != a {
            let k = choose|k: int| 0 <= k < list.len() && (#[trigger] list[k]) == a;
            assert(rest[k] == a);
        }
        if list.last() == a {
            assert(list[n] == a);
        }
    }
}

/// The bijection of headers and free list: the header of a free block has
/// exactly one entry in the free list, the header of a used block has none.
pub proof fn lemma_listed_once(list: Seq<usize>, blocks: Seq<Block>, i: int)
    requires
        chained(blocks),
        lists_free(list, blocks),
        0 <= i < blocks.len(),
    ensures
        occurrences(list, blocks[i].start) == (if blocks[i].free {
            1nat
        } else {
            0nat
        }),
{
    let a = blocks[i].start;
    lemma_occurrences(list, a);
    assert(listed(list, a) <==> free_start(blocks, a));
    if free_start(blocks, a) {
        let j = choose|j: int| 0 <= j < blocks.len() && (#[trigger] blocks[j]).free && blocks[j].start == a;
        lemma_chained_index_order(blocks, i, j);
    }
}

/// Bytes and free list describe the row of blocks: the row is a coalesced
/// tiling inside the bytes, each block's header lies at its start, and the
/// free list names the free blocks.
pub open spec fn represents(bytes: Seq<u8>, list: Seq<usize>, blocks: Seq<Block>) -> bool {
    &&& tiled(blocks)
    &&& coalesced(blocks)
    &&& high_water(blocks) <= bytes.len()
    &&& headers_match(bytes, blocks)
    &&& lists_free(list, blocks)
}

/// The free block that entry `k` of the free list names.
pub proof fn lemma_listed_block(list: Seq<usize>, blocks: Seq<Block>, k: int) -> (i: int)
    requires
        lists_free(list, blocks),
        0 <= k < list.len(),
    ensures
        0 <= i < blocks.len(),
        blocks[i].free,
        blocks[i].start == list[k],
{
    assert(listed(list, list[k] as int));
    choose|i: int| 0 <= i < blocks.len() && (#[trigger] blocks[i]).free && blocks[i].start == list[k]
}

/// The entry of the free list that names the free block `i`.
pub proof fn lemma_block_listed(list: Seq<usize>, blocks: Seq<Block>, i: int) -> (k: int)
    requires
        lists_free(list, blocks),
        0 <= i < blocks.len(),
        blocks[i].free,
    ensures
        0 <= k < list.len(),
        list[k] == blocks[i].start,
{
    assert(free_start(blocks, blocks[i].start));
    assert(listed(list, blocks[i].start));
    choose|k: int| 0 <= k < list.len() && (#[trigger] list[k]) == blocks[i].start
}

/// Taking an entry out of an ascending list.
pub proof fn lemma_ascending_remove(list: Seq<usize>, k: int)
    requires
        ascending(list),
        0 <= k < list.len(),
    ensures
        ascending(list.remove(k)),
        forall|a: int| #[trigger] listed(list.remove(k), a) <==> listed(list, a) && a != list[k],
{
    let r = list.remove(k);
    assert forall|a: int| #[trigger] listed(r, a) <==> listed(list, a) && a != list[k] by {
        if listed(r, a) {
            let x = choose|x: int| 0 <= x < r.len() && (#[trigger] r[x]) == a;
            if x < k {
                assert(list[x] == a);
            } else {
                assert(list[x + 1] == a);
            }
        }
        if listed(list, a) && a != list[k] {
            let x = choose|x: int| 0 <= x < list.len() && (#[trigger] list[x]) == a;
            if x < k {
                assert(r[x] == a);
            } else {
                assert(r[x - 1] == a);
            }
        }
    }
}

/// Replacing an entry of an ascending list by one that lies between its
/// neighbours.
pub proof fn lemma_ascending_update(list: Seq<usize>, k: int, v: usize)
    requires
        ascending(list),
        0 <= k < list.len(),
        k > 0 ==> list[k - 1] < v,
        k + 1 < list.len() ==> v < list[k + 1],
    ensures
        ascending(list.update(k, v)),
        forall|a: int|
            #[trigger] listed(list.update(k, v), a) <==> (listed(list, a) && a != list[k]) || a
                == v,
{
    let r = list.update(k, v);
    assert forall|x: int, y: int| 0 <= x < y < r.len() implies r[x] < r[y] by {
        if x < k {
            assert(list[x] <= list[k - 1]);
        }
        if y > k {
            assert(list[k + 1] <= list[y]);
        }
    }
    assert forall|a: int| #[trigger] listed(r, a) <==> (listed(list, a) && a != list[k]) || a
        == v by {
        if listed(r, a) {
            let x = choose|x: int| 0 <= x < r.len() && (#[trigger] r[x]) == a;
            if x != k {
                assert(list[x] == a);
            }
        }
        if listed(list, a) && a != list[k] {
            let x = choose|x: int| 0 <= x < list.len() && (#[trigger] list[x]) == a;
            assert(r[x] == a);
        }
        if a == v {
            assert(r[k] == a);
        }
    }
}

/// Putting an entry into an ascending list where it belongs.
pub proof fn lemma_ascending_insert(list: Seq<usize>, k: int, v: usize)
    requires
        ascending(list),
        0 <= k <= list.len(),
        k > 0 ==> list[k - 1] < v,
        k < list.len() ==> v < list[k],
    ensures
        ascending(list.insert(k, v)),
        forall|a: int| #[trigger] listed(list.insert(k, v), a) <==> listed(list, a) || a == v,
{
    let r = list.insert(k, v);
    assert forall|x: int, y: int| 0 <= x < y < r.len() implies r[x] < r[y] by {
        if x < k {
            assert(r[x] == list[x]);
            assert(list[x] <= list[k - 1]);
        } else if x > k {
            assert(r[x] == list[x - 1]);
        }
        if y > k {
            assert(r[y] == list[y - 1]);
            assert(list[k] <= list[y - 1]);
        } else if y < k {
            assert(r[y] == list[y]);
        }
    }
    assert forall|a: int| #[trigger] listed(r, a) <==> listed(list, a) || a == v by {
        if listed(r, a) {
            let x = choose|x: int| 0 <= x < r.len() && (#[trigger] r[x]) == a;
            if x < k {
                assert(list[x] == a);
            } else if x > k {
                assert(list[x - 1] == a);
            }
        }
        if listed(list, a) {
            let x = choose|x: int| 0 <= x < list.len() && (#[trigger] list[x]) == a;
            if x < k {
                assert(r[x] == a);
            } else {
                assert(r[x + 1] == a);
            }
        }
        if a == v {
            assert(r[k] == a);
        }
    }
}

/// A splice leaves the headers in place when the bytes changed only within
/// the room of the replaced blocks and hold the headers of the pieces.
pub proof fn lemma_splice_headers(
    before: Seq<u8>,
    after: Seq<u8>,
    blocks: Seq<Block>,
    lo: int,
    hi: int,
    pieces: Seq<Block>,
)
    requires
        chained(blocks),
        high_water(blocks) <= before.len(),
        headers_match(before, blocks),
        0 <= lo < hi <= blocks.len(),
        after.len() == before.len(),
        forall|x: int|
            0 <= x < before.len() && !(blocks[lo].start <= x < blocks[hi - 1].end())
                ==> #[trigger] after[x] == before[x],
        headers_match(after, pieces),
    ensures
        headers_match(after, splice(blocks, lo, hi, pieces)),
{
    let s = splice(blocks, lo, hi, pieces);
    let n = pieces.len() as int;
    lemma_splice_index(blocks, lo, hi, pieces);
    assert forall|j: int| 0 <= j < s.len() implies header_matches(after, #[trigger] s[j]) by {
        if j < lo {
            assert(s[j] == blocks[j]);
            lemma_chained_ordered(blocks, j, lo);
            lemma_below_high_water(blocks, j);
            assert(blocks[j].well_sized());
            lemma_header_frame(before, after, blocks[j].start);
            assert(header_matches(before, blocks[j]));
        } else if j < lo + n {
            assert(s[j] == pieces[j - lo]);
        } else {
            let i = j - lo - n + hi;
            assert(s[j] == blocks[i]);
            lemma_chained_ordered(blocks, hi - 1, i);
            lemma_below_high_water(blocks, i);
            assert(blocks[i].well_sized());
            lemma_header_frame(before, after, blocks[i].start);
            assert(header_matches(before, blocks[i]));
        }
    }
}

/// A splice keeps the free list in step when the new list is ascending and
/// holds the old entries outside the room of the replaced blocks, and the
/// starts of the free pieces.
pub proof fn lemma_relist(
    list: Seq<usize>,
    next: Seq<usize>,
    blocks: Seq<Block>,
    lo: int,
    hi: int,
    pieces: Seq<Block>,
)
    requires
        chained(blocks),
        lists_free(list, blocks),
        0 <= lo < hi <= blocks.len(),
        ascending(next),
        forall|a: int|
            #[trigger] listed(next, a) <==> free_start(pieces, a) || (listed(list, a) && !(
            blocks[lo].start <= a < blocks[hi - 1].end())),
    ensures
        lists_free(next, splice(blocks, lo, hi, pieces)),
{
    let row = splice(blocks, lo, hi, pieces);
    assert forall|a: int| listed(next, a) <==> free_start(row, a) by {
        lemma_splice_free_start(blocks, lo, hi, pieces, a);
        assert(listed(list, a) <==> free_start(blocks, a));
    }
}

/// A free-list entry within the room of the blocks `lo..=hi` names one of
/// them.
pub proof fn lemma_listed_in_span(list: Seq<usize>, blocks: Seq<Block>, lo: int, hi: int, a: int) -> (j: int)
    requires
        chained(blocks),
        lists_free(list, blocks),
        0 <= lo <= hi < blocks.len(),
        listed(list, a),
        blocks[lo].start <= a < blocks[hi].end(),
    ensures
        lo <= j <= hi,
        blocks[j].free,
        blocks[j].start == a,
{
    assert(free_start(blocks, a));
    let j = choose|j: int| 0 <= j < blocks.len() && (#[trigger] blocks[j]).free && blocks[j].start == a;
    lemma_start_in_span(blocks, lo, hi, j);
    j
}

/// No payload byte of a used block differs between the two arenas.
pub open spec fn payloads_kept(before: Seq<u8>, after: Seq<u8>, blocks: Seq<Block>) -> bool {
    forall|j: int, x: int|
        0 <= j < blocks.len() && !(#[trigger] blocks[j]).free && blocks[j].payload() <= x
            < blocks[j].end() ==> #[trigger] after[x] == before[x]
}

/// Writing a header touches no payload of a used block: the header is that
/// of a block of the row, or lies in the payload of a free block, or above
/// the high-water mark.
pub proof fn lemma_header_keeps_payloads(
    before: Seq<u8>,
    after: Seq<u8>,
    blocks: Seq<Block>,
    m: int,
    at: int,
    size: int,
    free: bool,
)
    requires
        chained(blocks),
        high_water(blocks) <= before.len(),
        header_written(before, after, at, size, free),
        at >= high_water(blocks) || (0 <= m < blocks.len() && (at == blocks[m].start || (
        blocks[m].free && blocks[m].payload() <= at && at + UNIT <= blocks[m].end()))),
    ensures
        payloads_kept(before, after, blocks),
{
    assert forall|j: int, x: int|
        0 <= j < blocks.len() && !(#[trigger] blocks[j]).free && blocks[j].payload() <= x
            < blocks[j].end() implies #[trigger] after[x] == before[x] by {
        lemma_below_high_water(blocks, j);
        if at < high_water(blocks) {
            assert(blocks[m].well_sized());
            if j < m {
                lemma_chained_ordered(blocks, j, m);
            } else if m < j {
                lemma_chained_ordered(blocks, m, j);
            }
        }
    }
}

/// Rewriting payload bytes of a used block leaves the arena standing for
/// the same row of blocks.
pub proof fn lemma_payload_rewritten(
    before: Seq<u8>,
    after: Seq<u8>,
    list: Seq<usize>,
    blocks: Seq<Block>,
    m: int,
)
    requires
        represents(before, list, blocks),
        0 <= m < blocks.len(),
        after.len() == before.len(),
        forall|x: int|
            0 <= x < before.len() && !(blocks[m].payload() <= x < blocks[m].end())
                ==> #[trigger] after[x] == before[x],
    ensures
        represents(after, list, blocks),
        forall|j: int, x: int|
            0 <= j < blocks.len() && j != m && (#[trigger] blocks[j]).payload() <= x
                < blocks[j].end() ==> #[trigger] after[x] == before[x],
{
    assert forall|j: int| 0 <= j < blocks.len() implies header_matches(after, #[trigger] blocks[j]) by {
        lemma_below_high_water(blocks, j);
        assert(blocks[j].well_sized());
        assert(blocks[m].well_sized());
        if j < m {
            lemma_chained_ordered(blocks, j, m);
        } else if m < j {
            lemma_chained_ordered(blocks, m, j);
        }
        lemma_header_frame(before, after, blocks[j].start);
        assert(header_matches(before, blocks[j]));
    }
    assert forall|j: int, x: int|
        0 <= j < blocks.len() && j != m && (#[trigger] blocks[j]).payload() <= x
            < blocks[j].end() implies #[trigger] after[x] == before[x] by {
        lemma_below_high_water(blocks, j);
        assert(blocks[j].well_sized());
        assert(blocks[m].well_sized());
        if j < m {
            lemma_chained_ordered(blocks, j, m);
        } else {
            lemma_chained_ordered(blocks, m, j);
        }
    }
}

/// Allocating a whole free block: its header is rewritten as used and its
/// entry leaves the free list.
pub proof fn lemma_place_whole(
    before: Seq<u8>,
    after: Seq<u8>,
    list: Seq<usize>,
    blocks: Seq<Block>,
    k: int,
    i: int,
    need: int,
)
    requires
        represents(before, list, blocks),
        0 <= k < list.len(),
        0 <= i < blocks.len(),
        list[k] == blocks[i].start,
        blocks[i].fits(need),
        !blocks[i].splits(need),
        need >= UNIT,
        aligned(need),
        header_written(before, after, blocks[i].start, blocks[i].size, false),
    ensures
        represents(after, list.remove(k), placed(blocks, i, need)),
{
    let pieces = taken(blocks[i], need);
    lemma_placed(blocks, i, need);
    lemma_below_high_water(blocks, i);
    assert(header_matches(after, pieces[0]));
    lemma_splice_headers(before, after, blocks, i, i + 1, pieces);
    lemma_whole_list(list, blocks, k, i, need);
}

/// The free list without the entry of a block that was allocated whole.
proof fn lemma_whole_list(list: Seq<usize>, blocks: Seq<Block>, k: int, i: int, need: int)
    requires
        chained(blocks),
        lists_free(list, blocks),
        0 <= k < list.len(),
        0 <= i < blocks.len(),
        list[k] == blocks[i].start,
        !blocks[i].splits(need),
    ensures
        lists_free(list.remove(k), placed(blocks, i, need)),
{
    let pieces = taken(blocks[i], need);
    let next = list.remove(k);
    lemma_ascending_remove(list, k);
    assert forall|a: int| #[trigger] listed(next, a) <==> free_start(pieces, a) || (listed(list, a)
        && !(blocks[i].start <= a < blocks[i].end())) by {
        if listed(list, a) && blocks[i].start <= a < blocks[i].end() {
            let j = lemma_listed_in_span(list, blocks, i, i, a);
        }
        if free_start(pieces, a) {
            let j = choose|j: int|
                0 <= j < pieces.len() && (#[trigger] pieces[j]).free && pieces[j].start == a;
            assert(j == 0);
        }
        assert(blocks[i].well_sized());
    }
    lemma_relist(list, next, blocks, i, i + 1, pieces);
}

/// Allocating the front of a free block: the remainder gets a header of its
/// own and takes over the block's entry in the free list.
pub proof fn lemma_place_split(
    before: Seq<u8>,
    between: Seq<u8>,
    after: Seq<u8>,
    list: Seq<usize>,
    blocks: Seq<Block>,
    k: int,
    i: int,
    need: int,
    rest: usize,
)
    requires
        represents(before, list, blocks),
        0 <= k < list.len(),
        0 <= i < blocks.len(),
        list[k] == blocks[i].start,
        blocks[i].fits(need),
        blocks[i].splits(need),
        need >= UNIT,
        aligned(need),
        rest == blocks[i].start + UNIT + need,
        header_written(before, between, rest as int, blocks[i].size - need - UNIT, true),
        header_written(between, after, blocks[i].start, need, false),
    ensures
        represents(after, list.update(k, rest), placed(blocks, i, need)),
{
    lemma_placed(blocks, i, need);
    lemma_split_headers(before, between, after, blocks, i, need, rest);
    lemma_split_list(list, blocks, k, i, need, rest);
}

/// The headers after the front of a free block was allocated.
proof fn lemma_split_headers(
    before: Seq<u8>,
    between: Seq<u8>,
    after: Seq<u8>,
    blocks: Seq<Block>,
    i: int,
    need: int,
    rest: usize,
)
    requires
        chained(blocks),
        high_water(blocks) <= before.len(),
        headers_match(before, blocks),
        0 <= i < blocks.len(),
        blocks[i].splits(need),
        need >= UNIT,
        rest == blocks[i].start + UNIT + need,
        header_written(before, between, rest as int, blocks[i].size - need - UNIT, true),
        header_written(between, after, blocks[i].start, need, false),
    ensures
        headers_match(after, placed(blocks, i, need)),
{
    let pieces = taken(blocks[i], need);
    lemma_below_high_water(blocks, i);
    assert(header_matches(after, pieces[0]));
    assert(header_matches(between, pieces[1]));
    lemma_header_frame(between, after, rest as int);
    assert(header_matches(after, pieces[1]));
    assert forall|x: int|
        0 <= x < before.len() && !(blocks[i].start <= x < blocks[i].end()) implies #[trigger] after[x]
        == before[x] by {
        assert(after[x] == between[x]);
        assert(between[x] == before[x]);
    }
    lemma_splice_headers(before, after, blocks, i, i + 1, pieces);
}

/// The free list after the front of a free block was allocated: the rest
/// has the block's place.
proof fn lemma_split_list(
    list: Seq<usize>,
    blocks: Seq<Block>,
    k: int,
    i: int,
    need: int,
    rest: usize,
)
    requires
        chained(blocks),
        lists_free(list, blocks),
        0 <= k < list.len(),
        0 <= i < blocks.len(),
        list[k] == blocks[i].start,
        blocks[i].splits(need),
        need >= UNIT,
        rest == blocks[i].start + UNIT + need,
    ensures
        lists_free(list.update(k, rest), placed(blocks, i, need)),
{
    let pieces = taken(blocks[i], need);
    let next = list.update(k, rest);
    if k > 0 {
        assert(list[k - 1] < list[k]);
    }
    if k + 1 < list.len() {
        let j = lemma_listed_block(list, blocks, k + 1);
        assert(list[k] < list[k + 1]);
        lemma_chained_index_order(blocks, i, j);
        lemma_chained_ordered(blocks, i, j);
    }
    lemma_ascending_update(list, k, rest);
    assert forall|a: int| #[trigger] listed(next, a) <==> free_start(pieces, a) || (listed(list, a)
        && !(blocks[i].start <= a < blocks[i].end())) by {
        if listed(list, a) && blocks[i].start <= a < blocks[i].end() {
            let j = lemma_listed_in_span(list, blocks, i, i, a);
        }
        if a == rest {
            assert(pieces[1].free && pieces[1].start == a);
        }
        if free_start(pieces, a) {
            let j = choose|j: int|
                0 <= j < pieces.len() && (#[trigger] pieces[j]).free && pieces[j].start == a;
            assert(j == 1);
        }
    }
    lemma_relist(list, next, blocks, i, i + 1, pieces);
}

/// Carving a used block at the high-water mark: its header is written there
/// and the free list stays as it is.
pub proof fn lemma_carve(
    before: Seq<u8>,
    after: Seq<u8>,
    list: Seq<usize>,
    blocks: Seq<Block>,
    need: int,
)
    requires
        represents(before, list, blocks),
        need >= UNIT,
        aligned(need),
        high_water(blocks) + UNIT + need <= before.len(),
        header_written(before, after, high_water(blocks), need, false),
    ensures
        represents(after, list, carved(blocks, need)),
{
    let row = carved(blocks, need);
    lemma_carved(blocks, need);
    assert forall|j: int| 0 <= j < row.len() implies header_matches(after, #[trigger] row[j]) by {
        if j < blocks.len() {
            assert(row[j] == blocks[j]);
            lemma_below_high_water(blocks, j);
            assert(blocks[j].well_sized());
            lemma_header_frame(before, after, blocks[j].start);
            assert(header_matches(before, blocks[j]));
        }
    }
    assert forall|a: int| listed(list, a) <==> free_start(row, a) by {
        assert(listed(list, a) <==> free_start(blocks, a));
        if free_start(blocks, a) {
            let j = choose|j: int|
                0 <= j < blocks.len() && (#[trigger] blocks[j]).free && blocks[j].start == a;
            assert(row[j] == blocks[j]);
        }
        if free_start(row, a) {
            let j = choose|j: int|
                0 <= j < row.len() && (#[trigger] row[j]).free && row[j].start == a;
            assert(row[j] == blocks[j]);
        }
    }
}

/// `k` is where a header at `a` belongs in the list: the entries before it
/// lie lower, the entries from it on lie higher.
pub open spec fn slot_of(list: Seq<usize>, k: int, a: int) -> bool {
    &&& 0 <= k <= list.len()
    &&& forall|x: int| 0 <= x < k ==> (#[trigger] list[x]) < a
    &&& forall|x: int| k <= x < list.len() ==> (#[trigger] list[x]) > a
}

/// The scan of the free list finds the first fit: an entry whose block holds
/// `need` bytes, after entries whose blocks do not, names the first block of
/// the row that fits.
pub proof fn lemma_scan_found(
    bytes: Seq<u8>,
    list: Seq<usize>,
    blocks: Seq<Block>,
    k: int,
    need: int,
)
    requires
        represents(bytes, list, blocks),
        0 <= k < list.len(),
        forall|x: int| 0 <= x < k ==> header_size(bytes, (#[trigger] list[x]) as int) < need,
        header_size(bytes, list[k] as int) >= need,
    ensures
        first_fit(blocks, need, 0) < blocks.len(),
        blocks[first_fit(blocks, need, 0)].start == list[k],
        blocks[first_fit(blocks, need, 0)].fits(need),
        header_size(bytes, list[k] as int) == blocks[first_fit(blocks, need, 0)].size,
{
    let i = lemma_listed_block(list, blocks, k);
    assert(header_matches(bytes, blocks[i]));
    assert forall|j: int| 0 <= j < i implies !(#[trigger] blocks[j]).fits(need) by {
        if blocks[j].free {
            let x = lemma_block_listed(list, blocks, j);
            lemma_chained_index_order(blocks, j, i);
            assert(x < k);
            assert(header_size(bytes, list[x] as int) < need);
            assert(header_matches(bytes, blocks[j]));
        }
    }
    lemma_first_fit_is(blocks, need, 0, i);
}

/// When no entry of the free list names a block that holds `need` bytes, no
/// block of the row fits.
pub proof fn lemma_scan_failed(bytes: Seq<u8>, list: Seq<usize>, blocks: Seq<Block>, need: int)
    requires
        represents(bytes, list, blocks),
        forall|x: int|
            0 <= x < list.len() ==> header_size(bytes, (#[trigger] list[x]) as int) < need,
    ensures
        first_fit(blocks, need, 0) == blocks.len(),
{
    assert forall|j: int| 0 <= j < blocks.len() implies !(#[trigger] blocks[j]).fits(need) by {
        if blocks[j].free {
            let x = lemma_block_listed(list, blocks, j);
            assert(header_size(bytes, list[x] as int) < need);
            assert(header_matches(bytes, blocks[j]));
        }
    }
    lemma_first_fit_is(blocks, need, 0, blocks.len() as int);
}

/// The slot of a used block: no entry of the free list names it, so once
/// the entries below it are passed, the rest lie above.
pub proof fn lemma_slot(list: Seq<usize>, blocks: Seq<Block>, i: int, k: int)
    requires
        chained(blocks),
        lists_free(list, blocks),
        0 <= i < blocks.len(),
        !blocks[i].free,
        0 <= k <= list.len(),
        forall|x: int| 0 <= x < k ==> (#[trigger] list[x]) < blocks[i].start,
        k < list.len() ==> list[k] >= blocks[i].start,
    ensures
        slot_of(list, k, blocks[i].start),
{
    assert forall|x: int| k <= x < list.len() implies (#[trigger] list[x]) > blocks[i].start by {
        assert(list[k] <= list[x]);
        if list[x] == blocks[i].start {
            let j = lemma_listed_block(list, blocks, x);
            lemma_chained_index_order(blocks, i, j);
        }
    }
}

/// What the free list tells of the neighbours of a used block `i`, given the
/// slot `k` where the block belongs: the entry before the slot is the lower
/// neighbour exactly if that entry's block ends where block `i` starts, and
/// the entry at the slot is the upper neighbour exactly if it lies where
/// block `i` ends.
pub proof fn lemma_neighbours(
    bytes: Seq<u8>,
    list: Seq<usize>,
    blocks: Seq<Block>,
    i: int,
    k: int,
)
    requires
        represents(bytes, list, blocks),
        0 <= i < blocks.len(),
        !blocks[i].free,
        slot_of(list, k, blocks[i].start),
    ensures
        k > 0 ==> list[k - 1] + UNIT + header_size(bytes, list[k - 1] as int) <= blocks[i].start,
        (k > 0 && list[k - 1] + UNIT + header_size(bytes, list[k - 1] as int) == blocks[i].start)
            <==> merge_from(blocks, i) < i,
        merge_from(blocks, i) < i ==> list[k - 1] == blocks[i - 1].start,
        (k < list.len() && list[k] == blocks[i].end()) <==> merge_to(blocks, i) > i,
        merge_to(blocks, i) > i ==> header_size(bytes, list[k] as int) == blocks[i + 1].size,
        k < list.len() ==> list[k] >= blocks[i].end(),
{
    if k > 0 {
        let j = lemma_listed_block(list, blocks, k - 1);
        lemma_chained_index_order(blocks, j, i);
        lemma_chained_ordered(blocks, j, i);
        assert(header_matches(bytes, blocks[j]));
        if j < i - 1 {
            lemma_chained_ordered(blocks, j, i - 1);
            assert(blocks[i - 1].well_sized());
            assert(blocks[i].start == blocks[i - 1].end());
        } else {
            assert(blocks[i].start == blocks[j].end());
        }
    }
    if i > 0 && blocks[i - 1].free {
        let x = lemma_block_listed(list, blocks, i - 1);
        assert(blocks[i].start == blocks[i - 1].end());
        assert(x < k);
        if x < k - 1 {
            let j = lemma_listed_block(list, blocks, k - 1);
            assert(list[x] < list[k - 1]);
            lemma_chained_index_order(blocks, i - 1, j);
            lemma_chained_index_order(blocks, j, i);
        }
    }
    if k < list.len() {
        let j = lemma_listed_block(list, blocks, k);
        lemma_chained_index_order(blocks, i, j);
        lemma_chained_ordered(blocks, i, j);
        assert(header_matches(bytes, blocks[j]));
        if j > i + 1 {
            lemma_chained_ordered(blocks, i + 1, j);
            assert(blocks[i + 1].well_sized());
            assert(blocks[i + 1].start == blocks[i].end());
        } else {
            assert(blocks[j].start == blocks[i].end());
        }
    }
    if i + 1 < blocks.len() && blocks[i + 1].free {
        let x = lemma_block_listed(list, blocks, i + 1);
        assert(blocks[i + 1].start == blocks[i].end());
        assert(x >= k);
        if x > k {
            let j = lemma_listed_block(list, blocks, k);
            assert(list[k] < list[x]);
            lemma_chained_index_order(blocks, i, j);
            lemma_chained_index_order(blocks, j, i + 1);
        }
    }
}

/// The free list after the used block at `a` was released from slot `k`:
/// the block joins the list unless its lower neighbour absorbs it, and the
/// upper neighbour leaves the list if it was absorbed.
pub open spec fn relinked(list: Seq<usize>, k: int, a: usize, lower: bool, upper: bool) -> Seq<usize> {
    if lower && upper {
        list.remove(k)
    } else if lower {
        list
    } else if upper {
        list.update(k, a)
    } else {
        list.insert(k, a)
    }
}

/// Releasing a used block: one header is written where the merged block
/// starts, and the free list is relinked around the block's slot.
pub proof fn lemma_release(
    before: Seq<u8>,
    after: Seq<u8>,
    list: Seq<usize>,
    blocks: Seq<Block>,
    i: int,
    k: int,
    a: usize,
)
    requires
        represents(before, list, blocks),
        0 <= i < blocks.len(),
        !blocks[i].free,
        a == blocks[i].start,
        slot_of(list, k, a as int),
        header_written(
            before,
            after,
            blocks[merge_from(blocks, i)].start,
            span(blocks, merge_from(blocks, i), merge_to(blocks, i)).size,
            true,
        ),
    ensures
        represents(
            after,
            relinked(list, k, a, merge_from(blocks, i) < i, merge_to(blocks, i) > i),
            freed(blocks, i),
        ),
{
    let lo = merge_from(blocks, i);
    let hi = merge_to(blocks, i);
    let pieces = seq![span(blocks, lo, hi)];
    lemma_freed(blocks, i);
    lemma_below_high_water(blocks, lo);
    lemma_below_high_water(blocks, hi);
    lemma_span(blocks, lo, hi);
    assert(header_matches(after, pieces[0]));
    lemma_splice_headers(before, after, blocks, lo, hi + 1, pieces);
    lemma_neighbours(before, list, blocks, i, k);
    lemma_release_list(list, blocks, i, k, a);
}

/// The free list after a release, relinked around the block's slot.
proof fn lemma_release_list(list: Seq<usize>, blocks: Seq<Block>, i: int, k: int, a: usize)
    requires
        chained(blocks),
        lists_free(list, blocks),
        0 <= i < blocks.len(),
        !blocks[i].free,
        a == blocks[i].start,
        slot_of(list, k, a as int),
        merge_from(blocks, i) < i ==> k > 0 && list[k - 1] == blocks[i - 1].start,
        merge_to(blocks, i) > i ==> k < list.len() && list[k] == blocks[i].end(),
    ensures
        lists_free(
            relinked(list, k, a, merge_from(blocks, i) < i, merge_to(blocks, i) > i),
            freed(blocks, i),
        ),
{
    let lo = merge_from(blocks, i);
    let hi = merge_to(blocks, i);
    let lower = lo < i;
    let upper = hi > i;
    let pieces = seq![span(blocks, lo, hi)];
    let next = relinked(list, k, a, lower, upper);
    if upper {
        assert(blocks[i + 1].start == blocks[i].end());
    }
    if lower {
        assert(blocks[i].start == blocks[i - 1].end());
    }
    if lower && upper {
        lemma_ascending_remove(list, k);
    } else if lower {
    } else if upper {
        if k > 0 {
            assert(list[k - 1] < a);
        }
        if k + 1 < list.len() {
            assert(list[k] < list[k + 1]);
        }
        lemma_ascending_update(list, k, a);
    } else {
        lemma_ascending_insert(list, k, a);
    }
    assert forall|x: int| #[trigger] listed(next, x) <==> free_start(pieces, x) || (listed(list, x)
        && !(blocks[lo].start <= x < blocks[hi].end())) by {
        if listed(list, x) && blocks[lo].start <= x < blocks[hi].end() {
            let j = lemma_listed_in_span(list, blocks, lo, hi, x);
        }
        if x == blocks[lo].start {
            assert(pieces[0].free && pieces[0].start == x);
        }
        if free_start(pieces, x) {
            let j = choose|j: int|
                0 <= j < pieces.len() && (#[trigger] pieces[j]).free && pieces[j].start == x;
            assert(j == 0);
        }
        if lower {
            assert(list[k - 1] == blocks[lo].start);
        }
        lemma_span(blocks, lo, hi);
        assert(blocks[i].well_sized());
        lemma_block_aligned(blocks[i]);
    }
    lemma_relist(list, next, blocks, lo, hi + 1, pieces);
}

} // verus!
