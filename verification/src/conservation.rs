//! What repacking conserves: every payload that a block pointed to before is
//! the payload that it points to afterwards, and the payloads that were
//! appended lie in the asset stream one after the other, in the order of
//! their blocks.

use crate::layout::{field, flag_set, lemma_field_depends_on_its_bytes, lemma_with_field, window};
use crate::matching::tag_payload;
use crate::repack::{repack_block, repack_blocks, sound_permutation_layout, stream_bytes, BlockLayout};
use crate::sound::{range_fields, repack_ranges, PERMUTATION_LEN, RANGE_LEN};
use crate::tag::ResidentView;
use vstd::prelude::*;

verus! {

/// Position of block number `b` of the table that starts at `table`.
pub open spec fn block_at(table: int, b: int, lay: BlockLayout) -> int {
    table + b * lay.len
}

/// The block's payload still lives in the source runtime's shared pool.
pub open spec fn pooled(r: ResidentView, block: int, lay: BlockLayout) -> bool {
    flag_set(r.structured, block + lay.flag_at)
}

/// The size of the block's payload.
pub open spec fn payload_size(r: ResidentView, block: int, lay: BlockLayout) -> int {
    field(r.structured, block + lay.size_at)
}

/// The offset of the block's payload, in the shared pool or in the asset
/// stream as the block's flag says.
pub open spec fn payload_offset(r: ResidentView, block: int, lay: BlockLayout) -> int {
    field(r.structured, block + lay.offset_at)
}

/// Position `i` lies inside the offset field of the block at `block`.
pub open spec fn in_offset_field(i: int, block: int, lay: BlockLayout) -> bool {
    block + lay.offset_at <= i < block + lay.offset_at + 4
}

/// `before` is the beginning of `after`: a stream only ever grows at its end.
pub open spec fn extends(after: Seq<u8>, before: Seq<u8>) -> bool {
    before.len() <= after.len() && after.subrange(0, before.len() as int) == before
}

/// Block `b` stands one block length behind block `b - 1`, and block 0 at
/// the start of the table.
pub proof fn lemma_block_at(table: int, b: int, lay: BlockLayout)
    ensures
        block_at(table, 0, lay) == table,
        block_at(table, b, lay) == block_at(table + lay.len, b - 1, lay),
        block_at(table, b + 1, lay) == block_at(table, b, lay) + lay.len,
        b >= 1 ==> block_at(table, b, lay) >= table + lay.len,
        b >= 0 ==> block_at(table, b, lay) >= table,
{
    let len = lay.len as int;
    assert(b * len == (b - 1) * len + len) by (nonlinear_arith);
    assert((b + 1) * len == b * len + len) by (nonlinear_arith);
    assert(b >= 1 ==> b * len >= len) by (nonlinear_arith)
        requires
            len >= 0,
    ;
    assert(b >= 0 ==> b * len >= 0) by (nonlinear_arith)
        requires
            len >= 0,
    ;
}

/// What repacking one block changes and what it leaves alone.
///
/// Nothing is touched but the block's offset field and its flag byte; the
/// size field stays. A block
/// whose payload lived in the pool has bit 0 of its flag byte cleared, the
/// other bits of that byte being kept, and its offset
/// set to the old end of the stream, where its payload now follows. Any
/// other block is left as it was, and so is the stream.
pub proof fn lemma_repack_block_effect(
    r: ResidentView,
    pool: Seq<u8>,
    block: int,
    lay: BlockLayout,
)
    requires
        lay.wf(),
        0 <= block,
        block + lay.len <= r.structured.len(),
        repack_block(r, pool, block, lay).is_ok(),
    ensures
        ({
            let next = repack_block(r, pool, block, lay).unwrap();
            &&& next.structured.len() == r.structured.len()
            &&& next.address == r.address
            &&& forall|i: int|
                0 <= i < r.structured.len() && !in_offset_field(i, block, lay) && i != block
                    + lay.flag_at ==> #[trigger] next.structured[i] == r.structured[i]
            &&& payload_size(next, block, lay) == payload_size(r, block, lay)
            &&& if pooled(r, block, lay) {
                &&& next.structured[block + lay.flag_at] as int == r.structured[block
                    + lay.flag_at] as int - 1
                &&& !pooled(next, block, lay)
                &&& payload_offset(next, block, lay) == stream_bytes(r.asset).len()
                &&& tag_payload(r, pool, block, lay).is_some()
                &&& next.asset == Some(
                    stream_bytes(r.asset) + tag_payload(r, pool, block, lay).unwrap(),
                )
            } else {
                next == r
            }
        }),
{
    if pooled(r, block, lay) {
        let position = stream_bytes(r.asset).len() as u32;
        let written = crate::layout::with_field(r.structured, block + lay.offset_at, position);
        let next = repack_block(r, pool, block, lay).unwrap();
        lemma_with_field(r.structured, block + lay.offset_at, position);
        assert(next.structured == written.update(
            block + lay.flag_at,
            crate::layout::without_flag(r.structured[block + lay.flag_at]),
        ));
        lemma_field_depends_on_its_bytes(next.structured, written, block + lay.offset_at);
        lemma_field_depends_on_its_bytes(next.structured, r.structured, block + lay.size_at);
        assert forall|i: int|
            0 <= i < r.structured.len() && !in_offset_field(i, block, lay) && i != block
                + lay.flag_at implies #[trigger] next.structured[i] == r.structured[i] by {
            assert(written[i] == r.structured[i]);
        }
    }
}

/// What repacking a run of blocks leaves alone: everything in front of the
/// first block and everything from `end` on, where the run ends at `end` or
/// before it; and the stream as far as it existed.
pub proof fn lemma_repack_blocks_frame(
    r: ResidentView,
    pool: Seq<u8>,
    block: int,
    remaining: int,
    lay: BlockLayout,
    end: int,
)
    requires
        lay.wf(),
        0 <= block,
        block_at(block, remaining, lay) <= end,
        repack_blocks(r, pool, block, remaining, lay).is_ok(),
    ensures
        ({
            let last = repack_blocks(r, pool, block, remaining, lay).unwrap();
            &&& last.structured.len() == r.structured.len()
            &&& last.address == r.address
            &&& forall|i: int|
                0 <= i < r.structured.len() && (i < block || end <= i)
                    ==> #[trigger] last.structured[i] == r.structured[i]
            &&& extends(stream_bytes(last.asset), stream_bytes(r.asset))
            &&& r.asset.is_some() ==> last.asset.is_some()
        }),
    decreases remaining,
{
    let stream = stream_bytes(r.asset);
    if remaining <= 0 {
        assert(stream.subrange(0, stream.len() as int) =~= stream);
    } else {
        let next = repack_block(r, pool, block, lay).unwrap();
        let last = repack_blocks(r, pool, block, remaining, lay).unwrap();
        lemma_repack_block_effect(r, pool, block, lay);
        lemma_block_at(block, remaining, lay);
        lemma_block_at(block + lay.len, remaining - 1, lay);
        lemma_repack_blocks_frame(next, pool, block + lay.len, remaining - 1, lay, end);
        let grown = stream_bytes(next.asset);
        assert(extends(grown, stream)) by {
            assert(grown.subrange(0, stream.len() as int) =~= stream);
        }
        assert(extends(stream_bytes(last.asset), stream)) by {
            assert(stream_bytes(last.asset).subrange(0, stream.len() as int) =~= grown.subrange(
                0,
                stream.len() as int,
            ));
        }
        assert forall|i: int|
            0 <= i < r.structured.len() && (i < block || end <= i)
                implies #[trigger] last.structured[i] == r.structured[i] by {
            assert(next.structured[i] == r.structured[i]);
        }
    }
}

/// A payload that lies inside a stream is the same payload inside every
/// stream that extends it.
pub proof fn lemma_window_of_extension(after: Seq<u8>, before: Seq<u8>, at: int, len: int)
    requires
        extends(after, before),
        window(before, at, len).is_some(),
    ensures
        window(after, at, len) == window(before, at, len),
{
    let theirs = after.subrange(at, at + len);
    let ours = before.subrange(at, at + len);
    assert forall|k: int| 0 <= k < len implies #[trigger] theirs[k] == ours[k] by {
        assert(after.subrange(0, before.len() as int)[at + k] == before[at + k]);
    }
    assert(theirs =~= ours);
}

/// Two tags whose structured data agree on a block agree on what the block
/// says: its flag, its size and its offset.
pub proof fn lemma_same_block(a: ResidentView, b: ResidentView, block: int, lay: BlockLayout)
    requires
        lay.wf(),
        0 <= block,
        block + lay.len <= a.structured.len(),
        block + lay.len <= b.structured.len(),
        forall|i: int| block <= i < block + lay.len ==> #[trigger] a.structured[i] == b.structured[i],
    ensures
        pooled(a, block, lay) == pooled(b, block, lay),
        payload_size(a, block, lay) == payload_size(b, block, lay),
        payload_offset(a, block, lay) == payload_offset(b, block, lay),
{
    assert(a.structured[block + lay.flag_at] == b.structured[block + lay.flag_at]);
    lemma_field_depends_on_its_bytes(a.structured, b.structured, block + lay.size_at);
    lemma_field_depends_on_its_bytes(a.structured, b.structured, block + lay.offset_at);
}

/// What repacking owes the block at position `at`, `before` being the tag
/// as it was and `after` the tag as it is now.
///
/// The block lies inside the structured data, keeps its size and every
/// other byte but those of its offset field and its flag byte, and is
/// private afterwards. If its payload lived in the pool, its flag byte has
/// lost bit 0 and nothing else, its
/// new offset lies behind what the stream held before, the payload lies
/// inside the new stream, and it is, byte for byte, the payload that the
/// block pointed to in the pool. If its payload was private already, the
/// block is untouched and still points to the same bytes.
pub open spec fn conserved(
    before: ResidentView,
    after: ResidentView,
    pool: Seq<u8>,
    at: int,
    lay: BlockLayout,
) -> bool {
    &&& 0 <= at
    &&& at + lay.len <= before.structured.len()
    &&& after.structured.len() == before.structured.len()
    &&& payload_size(after, at, lay) == payload_size(before, at, lay)
    &&& forall|i: int|
        at <= i < at + lay.len && !in_offset_field(i, at, lay) && i != at + lay.flag_at
            ==> #[trigger] after.structured[i] == before.structured[i]
    &&& !pooled(after, at, lay)
    &&& if pooled(before, at, lay) {
        &&& after.structured[at + lay.flag_at] as int == before.structured[at + lay.flag_at] as int
            - 1
        &&& stream_bytes(before.asset).len() <= payload_offset(after, at, lay)
        &&& payload_offset(after, at, lay) + payload_size(after, at, lay) <= stream_bytes(
            after.asset,
        ).len()
        &&& tag_payload(before, pool, at, lay).is_some()
        &&& tag_payload(after, pool, at, lay) == tag_payload(before, pool, at, lay)
    } else {
        &&& forall|i: int|
            at <= i < at + lay.len ==> #[trigger] after.structured[i] == before.structured[i]
        &&& payload_offset(after, at, lay) == payload_offset(before, at, lay)
        &&& tag_payload(before, pool, at, lay).is_some() ==> tag_payload(after, pool, at, lay)
            == tag_payload(before, pool, at, lay)
    }
}

/// A block that was conserved stays conserved when what follows leaves its
/// bytes alone and only extends the stream.
pub proof fn lemma_conserved_then_untouched(
    before: ResidentView,
    middle: ResidentView,
    after: ResidentView,
    pool: Seq<u8>,
    at: int,
    lay: BlockLayout,
)
    requires
        lay.wf(),
        conserved(before, middle, pool, at, lay),
        after.structured.len() == middle.structured.len(),
        forall|i: int|
            at <= i < at + lay.len ==> #[trigger] after.structured[i] == middle.structured[i],
        extends(stream_bytes(after.asset), stream_bytes(middle.asset)),
        middle.asset.is_some() ==> after.asset.is_some(),
    ensures
        conserved(before, after, pool, at, lay),
{
    lemma_same_block(after, middle, at, lay);
    if tag_payload(middle, pool, at, lay).is_some() {
        lemma_window_of_extension(
            stream_bytes(after.asset),
            stream_bytes(middle.asset),
            payload_offset(middle, at, lay),
            payload_size(middle, at, lay),
        );
    }
}

/// A block that is conserved from some point on is conserved from any
/// earlier point on, where what happened in between left its bytes alone
/// and only extended the stream.
pub proof fn lemma_untouched_then_conserved(
    before: ResidentView,
    middle: ResidentView,
    after: ResidentView,
    pool: Seq<u8>,
    at: int,
    lay: BlockLayout,
)
    requires
        lay.wf(),
        conserved(middle, after, pool, at, lay),
        before.structured.len() == middle.structured.len(),
        forall|i: int|
            at <= i < at + lay.len ==> #[trigger] middle.structured[i] == before.structured[i],
        extends(stream_bytes(middle.asset), stream_bytes(before.asset)),
        before.asset.is_some() ==> middle.asset.is_some(),
    ensures
        conserved(before, after, pool, at, lay),
{
    lemma_same_block(middle, before, at, lay);
    if !pooled(before, at, lay) && tag_payload(before, pool, at, lay).is_some() {
        lemma_window_of_extension(
            stream_bytes(middle.asset),
            stream_bytes(before.asset),
            payload_offset(before, at, lay),
            payload_size(before, at, lay),
        );
    }
}

/// Repacking a table of `count` blocks conserves block number `b`.
pub proof fn lemma_repack_blocks_entry(
    r: ResidentView,
    pool: Seq<u8>,
    table: int,
    count: int,
    lay: BlockLayout,
    b: int,
)
    requires
        lay.wf(),
        0 <= table,
        0 <= b < count,
        repack_blocks(r, pool, table, count, lay).is_ok(),
    ensures
        table <= block_at(table, b, lay),
        conserved(
            r,
            repack_blocks(r, pool, table, count, lay).unwrap(),
            pool,
            block_at(table, b, lay),
            lay,
        ),
    decreases b,
{
    let next = repack_block(r, pool, table, lay).unwrap();
    let last = repack_blocks(r, pool, table, count, lay).unwrap();
    let at = block_at(table, b, lay);
    let rest = table + lay.len;
    lemma_block_at(table, b, lay);
    lemma_block_at(rest, count - 1, lay);
    lemma_repack_block_effect(r, pool, table, lay);
    assert(last == repack_blocks(next, pool, rest, count - 1, lay).unwrap());
    if b == 0 {
        let end = block_at(rest, count - 1, lay);
        lemma_repack_blocks_frame(next, pool, rest, count - 1, lay, end);
        lemma_same_block(last, next, at, lay);
        if pooled(r, at, lay) {
            let payload = tag_payload(r, pool, at, lay).unwrap();
            let grown = stream_bytes(next.asset);
            let from = stream_bytes(r.asset).len() as int;
            assert(grown.subrange(from, from + payload.len()) =~= payload);
            lemma_window_of_extension(stream_bytes(last.asset), grown, from, payload.len() as int);
        } else {
            if tag_payload(r, pool, at, lay).is_some() {
                lemma_window_of_extension(
                    stream_bytes(last.asset),
                    stream_bytes(r.asset),
                    payload_offset(r, at, lay),
                    payload_size(r, at, lay),
                );
            }
        }
    } else {
        lemma_repack_blocks_entry(next, pool, rest, count - 1, lay, b - 1);
        lemma_same_block(next, r, at, lay);
        if pooled(r, at, lay) {
            assert(tag_payload(next, pool, at, lay) == tag_payload(r, pool, at, lay));
        } else {
            if tag_payload(r, pool, at, lay).is_some() {
                assert(extends(stream_bytes(next.asset), stream_bytes(r.asset))) by {
                    assert(stream_bytes(next.asset).subrange(
                        0,
                        stream_bytes(r.asset).len() as int,
                    ) =~= stream_bytes(r.asset));
                }
                lemma_window_of_extension(
                    stream_bytes(next.asset),
                    stream_bytes(r.asset),
                    payload_offset(r, at, lay),
                    payload_size(r, at, lay),
                );
                assert(tag_payload(next, pool, at, lay) == tag_payload(r, pool, at, lay));
            }
        }
    }
}

/// Of two blocks of a table whose payloads lived in the pool, the earlier
/// one's payload ends in the repacked stream before the later one's begins.
pub proof fn lemma_repack_blocks_order(
    r: ResidentView,
    pool: Seq<u8>,
    table: int,
    count: int,
    lay: BlockLayout,
    b1: int,
    b2: int,
)
    requires
        lay.wf(),
        0 <= table,
        0 <= b1 < b2 < count,
        repack_blocks(r, pool, table, count, lay).is_ok(),
        pooled(r, block_at(table, b1, lay), lay),
        pooled(r, block_at(table, b2, lay), lay),
    ensures
        ({
            let last = repack_blocks(r, pool, table, count, lay).unwrap();
            let first = block_at(table, b1, lay);
            let second = block_at(table, b2, lay);
            payload_offset(last, first, lay) + payload_size(last, first, lay) <= payload_offset(
                last,
                second,
                lay,
            )
        }),
    decreases b1,
{
    let next = repack_block(r, pool, table, lay).unwrap();
    let last = repack_blocks(r, pool, table, count, lay).unwrap();
    let rest = table + lay.len;
    let first = block_at(table, b1, lay);
    let second = block_at(table, b2, lay);
    lemma_block_at(table, b1, lay);
    lemma_block_at(table, b2, lay);
    lemma_block_at(rest, count - 1, lay);
    lemma_repack_block_effect(r, pool, table, lay);
    lemma_repack_blocks_entry(r, pool, table, count, lay, b2);
    lemma_repack_blocks_entry(next, pool, rest, count - 1, lay, b2 - 1);
    lemma_same_block(next, r, second, lay);
    if b1 == 0 {
        let end = block_at(rest, count - 1, lay);
        lemma_repack_blocks_frame(next, pool, rest, count - 1, lay, end);
        lemma_same_block(last, next, first, lay);
    } else {
        lemma_repack_blocks_entry(r, pool, table, count, lay, b1);
        lemma_same_block(next, r, first, lay);
        lemma_repack_blocks_order(next, pool, rest, count - 1, lay, b1 - 1, b2 - 1);
    }
}

/// The number of bytes that repacking appends for `count` consecutive
/// blocks, the first of which stands at `block`: the sizes of those whose
/// payload lives in the pool, added up.
pub open spec fn pooled_total(r: ResidentView, block: int, count: int, lay: BlockLayout) -> int
    decreases count,
{
    if count <= 0 {
        0
    } else {
        (if pooled(r, block, lay) {
            payload_size(r, block, lay)
        } else {
            0
        }) + pooled_total(r, block + lay.len, count - 1, lay)
    }
}

/// Two tags whose structured data agree on a run of blocks append the same
/// number of bytes for it.
pub proof fn lemma_pooled_total_same(
    a: ResidentView,
    b: ResidentView,
    block: int,
    count: int,
    lay: BlockLayout,
)
    requires
        lay.wf(),
        0 <= block,
        a.structured.len() == b.structured.len(),
        count > 0 ==> block_at(block, count, lay) <= a.structured.len(),
        forall|i: int|
            block <= i < block_at(block, count, lay) ==> #[trigger] a.structured[i]
                == b.structured[i],
    ensures
        pooled_total(a, block, count, lay) == pooled_total(b, block, count, lay),
    decreases count,
{
    if count > 0 {
        lemma_block_at(block, count, lay);
        lemma_block_at(block + lay.len, count - 1, lay);
        lemma_same_block(a, b, block, lay);
        lemma_pooled_total_same(a, b, block + lay.len, count - 1, lay);
    }
}

/// The bytes appended for a run of blocks are those appended for its first
/// part and those appended for the rest.
pub proof fn lemma_pooled_total_split(
    r: ResidentView,
    block: int,
    first: int,
    count: int,
    lay: BlockLayout,
)
    requires
        0 <= first <= count,
    ensures
        pooled_total(r, block, count, lay) == pooled_total(r, block, first, lay) + pooled_total(
            r,
            block_at(block, first, lay),
            count - first,
            lay,
        ),
    decreases first,
{
    lemma_block_at(block, first, lay);
    if first > 0 {
        lemma_pooled_total_split(r, block + lay.len, first - 1, count - 1, lay);
    }
}

/// Nothing is appended for a run of blocks none of which has its payload in
/// the pool.
pub proof fn lemma_pooled_total_none(r: ResidentView, block: int, count: int, lay: BlockLayout)
    requires
        forall|b: int| 0 <= b < count ==> !pooled(r, #[trigger] block_at(block, b, lay), lay),
    ensures
        pooled_total(r, block, count, lay) == 0,
    decreases count,
{
    if count > 0 {
        lemma_block_at(block, 0, lay);
        assert(!pooled(r, block_at(block, 0, lay), lay));
        assert forall|b: int| 0 <= b < count - 1 implies !pooled(
            r,
            #[trigger] block_at(block + lay.len, b, lay),
            lay,
        ) by {
            lemma_block_at(block, b + 1, lay);
            assert(!pooled(r, block_at(block, b + 1, lay), lay));
        }
        lemma_pooled_total_none(r, block + lay.len, count - 1, lay);
    }
}

/// Repacking a run of blocks makes the stream longer by exactly the sizes of
/// the payloads that lived in the pool; and a run that can be repacked lies
/// inside the structured data.
pub proof fn lemma_repack_blocks_length(
    r: ResidentView,
    pool: Seq<u8>,
    block: int,
    remaining: int,
    lay: BlockLayout,
)
    requires
        lay.wf(),
        0 <= block,
        repack_blocks(r, pool, block, remaining, lay).is_ok(),
    ensures
        stream_bytes(repack_blocks(r, pool, block, remaining, lay).unwrap().asset).len()
            == stream_bytes(r.asset).len() + pooled_total(r, block, remaining, lay),
        remaining > 0 ==> block_at(block, remaining, lay) <= r.structured.len(),
    decreases remaining,
{
    if remaining > 0 {
        let next = repack_block(r, pool, block, lay).unwrap();
        lemma_repack_block_effect(r, pool, block, lay);
        lemma_block_at(block, remaining, lay);
        lemma_block_at(block + lay.len, remaining - 1, lay);
        lemma_block_at(block + lay.len, 0, lay);
        lemma_repack_blocks_length(next, pool, block + lay.len, remaining - 1, lay);
        lemma_pooled_total_same(next, r, block + lay.len, remaining - 1, lay);
    }
}

/// Repacking a table puts the payload of block number `b`, where it lived
/// in the pool, behind what the stream held before and behind the payloads
/// of the blocks in front of it that lived in the pool, with nothing in
/// between.
pub proof fn lemma_repack_blocks_offset(
    r: ResidentView,
    pool: Seq<u8>,
    table: int,
    count: int,
    lay: BlockLayout,
    b: int,
)
    requires
        lay.wf(),
        0 <= table,
        0 <= b < count,
        repack_blocks(r, pool, table, count, lay).is_ok(),
        pooled(r, block_at(table, b, lay), lay),
    ensures
        payload_offset(
            repack_blocks(r, pool, table, count, lay).unwrap(),
            block_at(table, b, lay),
            lay,
        ) == stream_bytes(r.asset).len() + pooled_total(r, table, b, lay),
    decreases b,
{
    let next = repack_block(r, pool, table, lay).unwrap();
    let last = repack_blocks(r, pool, table, count, lay).unwrap();
    let at = block_at(table, b, lay);
    let rest = table + lay.len;
    lemma_block_at(table, b, lay);
    lemma_block_at(rest, count - 1, lay);
    lemma_block_at(rest, b - 1, lay);
    lemma_repack_block_effect(r, pool, table, lay);
    lemma_repack_blocks_entry(r, pool, table, count, lay, b);
    if b == 0 {
        let end = block_at(rest, count - 1, lay);
        lemma_repack_blocks_frame(next, pool, rest, count - 1, lay, end);
        lemma_same_block(last, next, at, lay);
    } else {
        lemma_same_block(next, r, at, lay);
        lemma_repack_blocks_offset(next, pool, rest, count - 1, lay, b - 1);
        lemma_pooled_total_same(next, r, rest, b - 1, lay);
    }
}

/// Block `b` of the table that starts at block `a` of a table is block
/// `a + b` of that table.
pub proof fn lemma_block_at_add(table: int, a: int, b: int, lay: BlockLayout)
    ensures
        block_at(block_at(table, a, lay), b, lay) == block_at(table, a + b, lay),
{
    let len = lay.len as int;
    assert((a + b) * len == a * len + b * len) by (nonlinear_arith);
}

/// The first block of a table whose payload lived in the pool has its
/// payload put exactly where the stream ended before.
pub proof fn lemma_repack_blocks_first_offset(
    r: ResidentView,
    pool: Seq<u8>,
    table: int,
    count: int,
    lay: BlockLayout,
    b: int,
)
    requires
        lay.wf(),
        0 <= table,
        0 <= b < count,
        repack_blocks(r, pool, table, count, lay).is_ok(),
        pooled(r, block_at(table, b, lay), lay),
        forall|m: int| 0 <= m < b ==> !pooled(r, #[trigger] block_at(table, m, lay), lay),
    ensures
        payload_offset(
            repack_blocks(r, pool, table, count, lay).unwrap(),
            block_at(table, b, lay),
            lay,
        ) == stream_bytes(r.asset).len(),
{
    lemma_repack_blocks_offset(r, pool, table, count, lay, b);
    lemma_pooled_total_none(r, table, b, lay);
}

/// Of two blocks of a table whose payloads lived in the pool, with none
/// such between them, the later one's payload begins exactly where the
/// earlier one's ends.
pub proof fn lemma_repack_blocks_next_offset(
    r: ResidentView,
    pool: Seq<u8>,
    table: int,
    count: int,
    lay: BlockLayout,
    b1: int,
    b2: int,
)
    requires
        lay.wf(),
        0 <= table,
        0 <= b1 < b2 < count,
        repack_blocks(r, pool, table, count, lay).is_ok(),
        pooled(r, block_at(table, b1, lay), lay),
        pooled(r, block_at(table, b2, lay), lay),
        forall|m: int| b1 < m < b2 ==> !pooled(r, #[trigger] block_at(table, m, lay), lay),
    ensures
        ({
            let last = repack_blocks(r, pool, table, count, lay).unwrap();
            let first = block_at(table, b1, lay);
            let second = block_at(table, b2, lay);
            payload_offset(last, second, lay) == payload_offset(last, first, lay) + payload_size(
                last,
                first,
                lay,
            )
        }),
{
    let first = block_at(table, b1, lay);
    lemma_repack_blocks_offset(r, pool, table, count, lay, b1);
    lemma_repack_blocks_offset(r, pool, table, count, lay, b2);
    lemma_repack_blocks_entry(r, pool, table, count, lay, b1);
    lemma_pooled_total_split(r, table, b1, b2, lay);
    lemma_block_at(first, 0, lay);
    assert forall|m: int| 0 <= m < b2 - b1 - 1 implies !pooled(
        r,
        #[trigger] block_at(first + lay.len, m, lay),
        lay,
    ) by {
        lemma_block_at(first, m + 1, lay);
        lemma_block_at_add(table, b1, m + 1, lay);
        assert(!pooled(r, block_at(table, b1 + 1 + m, lay), lay));
    }
    lemma_pooled_total_none(r, first + lay.len, b2 - b1 - 1, lay);
}

/// Position of range number `i` of the range table that starts at `ranges`.
pub open spec fn range_at(ranges: int, i: int) -> int {
    ranges + i * RANGE_LEN
}

/// Where the permutations of range number `i` stand and where they end, as
/// `snapshot` announces them for a tag laid out at `address`.
pub open spec fn table_span(snapshot: Seq<u8>, address: u32, ranges: int, i: int) -> (int, int) {
    let (count, pointer) = range_fields(snapshot, range_at(ranges, i));
    (pointer - address, pointer - address + count * PERMUTATION_LEN)
}

/// The number of permutations of range number `i`.
pub open spec fn table_count(snapshot: Seq<u8>, ranges: int, i: int) -> int {
    range_fields(snapshot, range_at(ranges, i)).0
}

/// Two spans of bytes have no byte in common.
pub open spec fn apart(a: (int, int), b: (int, int)) -> bool {
    a.1 <= b.0 || b.1 <= a.0
}

/// No two of the first `count` ranges share a byte of their permutation
/// tables.
pub open spec fn tables_apart(snapshot: Seq<u8>, address: u32, ranges: int, count: int) -> bool {
    forall|i: int, j: int|
        0 <= i < j < count ==> apart(
            #[trigger] table_span(snapshot, address, ranges, i),
            #[trigger] table_span(snapshot, address, ranges, j),
        )
}

/// Range `i` of a range table is range `i - 1` of the table that starts one
/// range later.
pub proof fn lemma_range_shift(snapshot: Seq<u8>, address: u32, ranges: int, i: int)
    ensures
        range_at(ranges, i) == range_at(ranges + RANGE_LEN, i - 1),
        table_span(snapshot, address, ranges, i) == table_span(
            snapshot,
            address,
            ranges + RANGE_LEN,
            i - 1,
        ),
        table_count(snapshot, ranges, i) == table_count(snapshot, ranges + RANGE_LEN, i - 1),
{
}

/// Tables that lie apart still do when the first range is left out.
pub proof fn lemma_tables_apart_rest(snapshot: Seq<u8>, address: u32, ranges: int, count: int)
    requires
        tables_apart(snapshot, address, ranges, count),
    ensures
        tables_apart(snapshot, address, ranges + RANGE_LEN, count - 1),
{
    assert forall|i: int, j: int| 0 <= i < j < count - 1 implies apart(
        #[trigger] table_span(snapshot, address, ranges + RANGE_LEN, i),
        #[trigger] table_span(snapshot, address, ranges + RANGE_LEN, j),
    ) by {
        lemma_range_shift(snapshot, address, ranges, i + 1);
        lemma_range_shift(snapshot, address, ranges, j + 1);
        assert(apart(
            table_span(snapshot, address, ranges, i + 1),
            table_span(snapshot, address, ranges, j + 1),
        ));
    }
}

/// Repacking a run of ranges only ever appends to the stream, whatever the
/// ranges point to, and changes neither the length of the structured data
/// nor the tag's address.
pub proof fn lemma_repack_ranges_extend(
    r: ResidentView,
    snapshot: Seq<u8>,
    source: Seq<u8>,
    ranges: int,
    remaining: int,
)
    requires
        repack_ranges(r, snapshot, source, ranges, remaining).is_ok(),
    ensures
        ({
            let last = repack_ranges(r, snapshot, source, ranges, remaining).unwrap();
            &&& last.structured.len() == r.structured.len()
            &&& last.address == r.address
            &&& extends(stream_bytes(last.asset), stream_bytes(r.asset))
            &&& r.asset.is_some() ==> last.asset.is_some()
        }),
    decreases remaining,
{
    let stream = stream_bytes(r.asset);
    if remaining <= 0 {
        assert(stream.subrange(0, stream.len() as int) =~= stream);
    } else {
        let lay = sound_permutation_layout();
        let (count, pointer) = range_fields(snapshot, ranges);
        let table = pointer - r.address;
        let next = repack_blocks(r, source, table, count, lay).unwrap();
        let last = repack_ranges(r, snapshot, source, ranges, remaining).unwrap();
        lemma_repack_blocks_frame(r, source, table, count, lay, table + count * PERMUTATION_LEN);
        lemma_repack_ranges_extend(next, snapshot, source, ranges + RANGE_LEN, remaining - 1);
        let grown = stream_bytes(next.asset);
        assert(extends(stream_bytes(last.asset), stream)) by {
            assert(stream_bytes(last.asset).subrange(0, stream.len() as int) =~= grown.subrange(
                0,
                stream.len() as int,
            ));
        }
    }
}

/// What repacking a run of ranges leaves alone: every byte of the span
/// `keep` where no permutation table of the run reaches into it; and the
/// stream as far as it existed.
pub proof fn lemma_repack_ranges_frame(
    r: ResidentView,
    snapshot: Seq<u8>,
    source: Seq<u8>,
    ranges: int,
    remaining: int,
    keep: (int, int),
)
    requires
        repack_ranges(r, snapshot, source, ranges, remaining).is_ok(),
        forall|k: int|
            0 <= k < remaining ==> apart(
                #[trigger] table_span(snapshot, r.address, ranges, k),
                keep,
            ),
    ensures
        ({
            let last = repack_ranges(r, snapshot, source, ranges, remaining).unwrap();
            &&& last.structured.len() == r.structured.len()
            &&& last.address == r.address
            &&& forall|i: int|
                0 <= i < r.structured.len() && keep.0 <= i < keep.1
                    ==> #[trigger] last.structured[i] == r.structured[i]
            &&& extends(stream_bytes(last.asset), stream_bytes(r.asset))
            &&& r.asset.is_some() ==> last.asset.is_some()
        }),
    decreases remaining,
{
    let stream = stream_bytes(r.asset);
    if remaining <= 0 {
        assert(stream.subrange(0, stream.len() as int) =~= stream);
    } else {
        let lay = sound_permutation_layout();
        let (count, pointer) = range_fields(snapshot, ranges);
        let table = pointer - r.address;
        let next = repack_blocks(r, source, table, count, lay).unwrap();
        let last = repack_ranges(r, snapshot, source, ranges, remaining).unwrap();
        assert(table_span(snapshot, r.address, ranges, 0) == (table, table + count * PERMUTATION_LEN));
        lemma_repack_blocks_frame(r, source, table, count, lay, table + count * PERMUTATION_LEN);
        assert forall|k: int| 0 <= k < remaining - 1 implies apart(
            #[trigger] table_span(snapshot, next.address, ranges + RANGE_LEN, k),
            keep,
        ) by {
            lemma_range_shift(snapshot, r.address, ranges, k + 1);
            assert(apart(table_span(snapshot, r.address, ranges, k + 1), keep));
        }
        lemma_repack_ranges_frame(next, snapshot, source, ranges + RANGE_LEN, remaining - 1, keep);
        let grown = stream_bytes(next.asset);
        assert(extends(stream_bytes(last.asset), stream)) by {
            assert(stream_bytes(last.asset).subrange(0, stream.len() as int) =~= grown.subrange(
                0,
                stream.len() as int,
            ));
        }
        assert forall|i: int|
            0 <= i < r.structured.len() && keep.0 <= i < keep.1
                implies #[trigger] last.structured[i] == r.structured[i] by {
            assert(next.structured[i] == r.structured[i]);
        }
    }
}

/// Repacking a run of ranges whose permutation tables lie apart conserves
/// permutation number `p` of range number `i`.
pub proof fn lemma_repack_ranges_entry(
    r: ResidentView,
    snapshot: Seq<u8>,
    source: Seq<u8>,
    ranges: int,
    remaining: int,
    i: int,
    p: int,
)
    requires
        repack_ranges(r, snapshot, source, ranges, remaining).is_ok(),
        tables_apart(snapshot, r.address, ranges, remaining),
        0 <= i < remaining,
        0 <= p < table_count(snapshot, ranges, i),
    ensures
        conserved(
            r,
            repack_ranges(r, snapshot, source, ranges, remaining).unwrap(),
            source,
            block_at(table_span(snapshot, r.address, ranges, i).0, p, sound_permutation_layout()),
            sound_permutation_layout(),
        ),
    decreases remaining,
{
    let lay = sound_permutation_layout();
    let (count, pointer) = range_fields(snapshot, ranges);
    let table = pointer - r.address;
    let next = repack_blocks(r, source, table, count, lay).unwrap();
    let last = repack_ranges(r, snapshot, source, ranges, remaining).unwrap();
    let span = table_span(snapshot, r.address, ranges, i);
    let at = block_at(span.0, p, lay);
    assert(table_span(snapshot, r.address, ranges, 0) == (table, table + count * PERMUTATION_LEN));
    lemma_repack_blocks_frame(r, source, table, count, lay, table + count * PERMUTATION_LEN);
    lemma_tables_apart_rest(snapshot, r.address, ranges, remaining);
    lemma_block_in_span(snapshot, r.address, ranges, i, p);
    if i == 0 {
        lemma_repack_blocks_entry(r, source, table, count, lay, p);
        assert forall|k: int| 0 <= k < remaining - 1 implies apart(
            #[trigger] table_span(snapshot, next.address, ranges + RANGE_LEN, k),
            span,
        ) by {
            lemma_range_shift(snapshot, r.address, ranges, k + 1);
            assert(apart(span, table_span(snapshot, r.address, ranges, k + 1)));
        }
        lemma_repack_ranges_frame(next, snapshot, source, ranges + RANGE_LEN, remaining - 1, span);
        lemma_conserved_then_untouched(r, next, last, source, at, lay);
    } else {
        lemma_range_shift(snapshot, r.address, ranges, i);
        assert(apart(table_span(snapshot, r.address, ranges, 0), span));
        lemma_repack_ranges_entry(next, snapshot, source, ranges + RANGE_LEN, remaining - 1, i - 1, p);
        lemma_untouched_then_conserved(r, next, last, source, at, lay);
    }
}

/// A permutation lies inside the span of its range's table.
pub proof fn lemma_block_in_span(snapshot: Seq<u8>, address: u32, ranges: int, i: int, p: int)
    requires
        0 <= p < table_count(snapshot, ranges, i),
    ensures
        ({
            let span = table_span(snapshot, address, ranges, i);
            let at = block_at(span.0, p, sound_permutation_layout());
            span.0 <= at && at + PERMUTATION_LEN <= span.1
        }),
{
    let c = table_count(snapshot, ranges, i);
    assert(p * PERMUTATION_LEN + PERMUTATION_LEN <= c * PERMUTATION_LEN);
}

/// Of two permutations whose payloads lived in the pool, the one that is
/// visited first (the one in the earlier range, or the earlier one of the
/// same range) has its payload end in the repacked stream before the other
/// one's begins, where the permutation tables of the ranges lie apart.
pub proof fn lemma_repack_ranges_order(
    r: ResidentView,
    snapshot: Seq<u8>,
    source: Seq<u8>,
    ranges: int,
    remaining: int,
    ra: int,
    pa: int,
    rb: int,
    pb: int,
)
    requires
        repack_ranges(r, snapshot, source, ranges, remaining).is_ok(),
        tables_apart(snapshot, r.address, ranges, remaining),
        0 <= ra <= rb < remaining,
        0 <= pa < table_count(snapshot, ranges, ra),
        0 <= pb < table_count(snapshot, ranges, rb),
        ra == rb ==> pa < pb,
        pooled(
            r,
            block_at(table_span(snapshot, r.address, ranges, ra).0, pa, sound_permutation_layout()),
            sound_permutation_layout(),
        ),
        pooled(
            r,
            block_at(table_span(snapshot, r.address, ranges, rb).0, pb, sound_permutation_layout()),
            sound_permutation_layout(),
        ),
    ensures
        ({
            let lay = sound_permutation_layout();
            let last = repack_ranges(r, snapshot, source, ranges, remaining).unwrap();
            let first = block_at(table_span(snapshot, r.address, ranges, ra).0, pa, lay);
            let second = block_at(table_span(snapshot, r.address, ranges, rb).0, pb, lay);
            payload_offset(last, first, lay) + payload_size(last, first, lay) <= payload_offset(
                last,
                second,
                lay,
            )
        }),
    decreases remaining,
{
    let lay = sound_permutation_layout();
    let (count, pointer) = range_fields(snapshot, ranges);
    let table = pointer - r.address;
    let next = repack_blocks(r, source, table, count, lay).unwrap();
    let last = repack_ranges(r, snapshot, source, ranges, remaining).unwrap();
    let span0 = table_span(snapshot, r.address, ranges, 0);
    let span1 = table_span(snapshot, r.address, ranges, ra);
    let span2 = table_span(snapshot, r.address, ranges, rb);
    let first = block_at(span1.0, pa, lay);
    let second = block_at(span2.0, pb, lay);
    assert(span0 == (table, table + count * PERMUTATION_LEN));
    lemma_block_in_span(snapshot, r.address, ranges, ra, pa);
    lemma_block_in_span(snapshot, r.address, ranges, rb, pb);
    lemma_repack_blocks_frame(r, source, table, count, lay, table + count * PERMUTATION_LEN);
    lemma_tables_apart_rest(snapshot, r.address, ranges, remaining);
    lemma_range_shift(snapshot, r.address, ranges, ra);
    lemma_range_shift(snapshot, r.address, ranges, rb);
    lemma_repack_ranges_entry(r, snapshot, source, ranges, remaining, ra, pa);
    lemma_repack_ranges_entry(r, snapshot, source, ranges, remaining, rb, pb);
    if ra == 0 {
        assert forall|k: int| 0 <= k < remaining - 1 implies apart(
            #[trigger] table_span(snapshot, next.address, ranges + RANGE_LEN, k),
            span0,
        ) by {
            lemma_range_shift(snapshot, r.address, ranges, k + 1);
            assert(apart(span0, table_span(snapshot, r.address, ranges, k + 1)));
        }
        lemma_repack_ranges_frame(next, snapshot, source, ranges + RANGE_LEN, remaining - 1, span0);
        lemma_repack_blocks_entry(r, source, table, count, lay, pa);
        lemma_same_block(last, next, first, lay);
        if rb == 0 {
            lemma_repack_blocks_order(r, source, table, count, lay, pa, pb);
            lemma_same_block(last, next, second, lay);
        } else {
            assert(apart(span0, span2));
            lemma_same_block(next, r, second, lay);
            lemma_repack_ranges_entry(
                next,
                snapshot,
                source,
                ranges + RANGE_LEN,
                remaining - 1,
                rb - 1,
                pb,
            );
        }
    } else {
        assert(apart(span0, span1));
        assert(apart(span0, span2));
        lemma_same_block(next, r, first, lay);
        lemma_same_block(next, r, second, lay);
        lemma_repack_ranges_order(
            next,
            snapshot,
            source,
            ranges + RANGE_LEN,
            remaining - 1,
            ra - 1,
            pa,
            rb - 1,
            pb,
        );
    }
}

/// The number of bytes that repacking appends for `count` consecutive
/// ranges, the first of which stands at `ranges`: what it appends for the
/// permutations of each of them, added up.
pub open spec fn ranges_total(r: ResidentView, snapshot: Seq<u8>, ranges: int, count: int) -> int
    decreases count,
{
    if count <= 0 {
        0
    } else {
        let (permutations, pointer) = range_fields(snapshot, ranges);
        pooled_total(r, pointer - r.address, permutations, sound_permutation_layout())
            + ranges_total(r, snapshot, ranges + RANGE_LEN, count - 1)
    }
}

/// The permutations of range number `i` lie inside a buffer of `len` bytes
/// and away from the bytes of the span `changed`.
pub open spec fn table_untouched(
    snapshot: Seq<u8>,
    address: u32,
    ranges: int,
    i: int,
    len: int,
    changed: (int, int),
) -> bool {
    let span = table_span(snapshot, address, ranges, i);
    0 <= span.0 && span.1 <= len && apart(span, changed)
}

/// The permutation tables of a run of ranges that can be repacked lie inside
/// the structured data.
pub proof fn lemma_ranges_inside(
    r: ResidentView,
    snapshot: Seq<u8>,
    source: Seq<u8>,
    ranges: int,
    remaining: int,
    k: int,
)
    requires
        repack_ranges(r, snapshot, source, ranges, remaining).is_ok(),
        0 <= k < remaining,
    ensures
        0 <= table_span(snapshot, r.address, ranges, k).0,
        table_span(snapshot, r.address, ranges, k).1 <= r.structured.len(),
    decreases remaining,
{
    let lay = sound_permutation_layout();
    let (count, pointer) = range_fields(snapshot, ranges);
    let table = pointer - r.address;
    let next = repack_blocks(r, source, table, count, lay).unwrap();
    if k > 0 {
        crate::repack::lemma_repack_blocks_keeps_shape(r, source, table, count, lay);
        lemma_range_shift(snapshot, r.address, ranges, k);
        lemma_ranges_inside(next, snapshot, source, ranges + RANGE_LEN, remaining - 1, k - 1);
    }
}

/// Two tags that differ only inside the span `changed` append the same
/// number of bytes for a run of ranges whose permutation tables lie inside
/// the structured data and away from that span.
pub proof fn lemma_ranges_total_same(
    a: ResidentView,
    b: ResidentView,
    snapshot: Seq<u8>,
    ranges: int,
    count: int,
    changed: (int, int),
)
    requires
        a.address == b.address,
        a.structured.len() == b.structured.len(),
        forall|i: int|
            0 <= i < a.structured.len() && !(changed.0 <= i < changed.1)
                ==> #[trigger] a.structured[i] == b.structured[i],
        forall|k: int|
            0 <= k < count ==> #[trigger] table_untouched(
                snapshot,
                a.address,
                ranges,
                k,
                a.structured.len() as int,
                changed,
            ),
    ensures
        ranges_total(a, snapshot, ranges, count) == ranges_total(b, snapshot, ranges, count),
    decreases count,
{
    if count > 0 {
        let lay = sound_permutation_layout();
        let (permutations, pointer) = range_fields(snapshot, ranges);
        let table = pointer - a.address;
        let len = a.structured.len() as int;
        assert(table_untouched(snapshot, a.address, ranges, 0, len, changed));
        assert(table_span(snapshot, a.address, ranges, 0) == (
            table,
            table + permutations * PERMUTATION_LEN,
        ));
        lemma_pooled_total_same(a, b, table, permutations, lay);
        assert forall|k: int| 0 <= k < count - 1 implies #[trigger] table_untouched(
            snapshot,
            a.address,
            ranges + RANGE_LEN,
            k,
            len,
            changed,
        ) by {
            lemma_range_shift(snapshot, a.address, ranges, k + 1);
            assert(table_untouched(snapshot, a.address, ranges, k + 1, len, changed));
        }
        lemma_ranges_total_same(a, b, snapshot, ranges + RANGE_LEN, count - 1, changed);
    }
}

/// What repacking the permutations of the first range of a run leaves for
/// the ranges behind it, where the permutation tables lie apart: the same
/// number of bytes to append as before.
pub proof fn lemma_first_range_leaves_rest(
    r: ResidentView,
    snapshot: Seq<u8>,
    source: Seq<u8>,
    ranges: int,
    remaining: int,
    count: int,
)
    requires
        repack_ranges(r, snapshot, source, ranges, remaining).is_ok(),
        tables_apart(snapshot, r.address, ranges, remaining),
        0 <= count < remaining,
    ensures
        ({
            let (permutations, pointer) = range_fields(snapshot, ranges);
            let next = repack_blocks(
                r,
                source,
                pointer - r.address,
                permutations,
                sound_permutation_layout(),
            ).unwrap();
            ranges_total(next, snapshot, ranges + RANGE_LEN, count) == ranges_total(
                r,
                snapshot,
                ranges + RANGE_LEN,
                count,
            )
        }),
{
    let lay = sound_permutation_layout();
    let (permutations, pointer) = range_fields(snapshot, ranges);
    let table = pointer - r.address;
    let next = repack_blocks(r, source, table, permutations, lay).unwrap();
    let span0 = table_span(snapshot, r.address, ranges, 0);
    let len = r.structured.len() as int;
    assert(span0 == (table, table + permutations * PERMUTATION_LEN));
    lemma_repack_blocks_frame(r, source, table, permutations, lay, span0.1);
    assert forall|k: int| 0 <= k < count implies #[trigger] table_untouched(
        snapshot,
        next.address,
        ranges + RANGE_LEN,
        k,
        len,
        span0,
    ) by {
        lemma_range_shift(snapshot, r.address, ranges, k + 1);
        lemma_ranges_inside(r, snapshot, source, ranges, remaining, k + 1);
        assert(apart(span0, table_span(snapshot, r.address, ranges, k + 1)));
    }
    lemma_ranges_total_same(next, r, snapshot, ranges + RANGE_LEN, count, span0);
}

/// Repacking a run of ranges whose permutation tables lie apart makes the
/// stream longer by exactly the sizes of the payloads that lived in the
/// pool.
pub proof fn lemma_repack_ranges_length(
    r: ResidentView,
    snapshot: Seq<u8>,
    source: Seq<u8>,
    ranges: int,
    remaining: int,
)
    requires
        repack_ranges(r, snapshot, source, ranges, remaining).is_ok(),
        tables_apart(snapshot, r.address, ranges, remaining),
    ensures
        stream_bytes(repack_ranges(r, snapshot, source, ranges, remaining).unwrap().asset).len()
            == stream_bytes(r.asset).len() + ranges_total(r, snapshot, ranges, remaining),
    decreases remaining,
{
    if remaining > 0 {
        let lay = sound_permutation_layout();
        let (permutations, pointer) = range_fields(snapshot, ranges);
        let table = pointer - r.address;
        let next = repack_blocks(r, source, table, permutations, lay).unwrap();
        lemma_repack_blocks_length(r, source, table, permutations, lay);
        lemma_repack_blocks_frame(r, source, table, permutations, lay, table + permutations * PERMUTATION_LEN);
        lemma_tables_apart_rest(snapshot, r.address, ranges, remaining);
        lemma_repack_ranges_length(next, snapshot, source, ranges + RANGE_LEN, remaining - 1);
        lemma_first_range_leaves_rest(r, snapshot, source, ranges, remaining, remaining - 1);
    }
}

/// Repacking a run of ranges whose permutation tables lie apart puts the
/// payload of permutation number `p` of range number `i`, where it lived in
/// the pool, behind what the stream held before and behind the payloads of
/// the permutations visited before it that lived in the pool, with nothing
/// in between.
pub proof fn lemma_repack_ranges_offset(
    r: ResidentView,
    snapshot: Seq<u8>,
    source: Seq<u8>,
    ranges: int,
    remaining: int,
    i: int,
    p: int,
)
    requires
        repack_ranges(r, snapshot, source, ranges, remaining).is_ok(),
        tables_apart(snapshot, r.address, ranges, remaining),
        0 <= i < remaining,
        0 <= p < table_count(snapshot, ranges, i),
        pooled(
            r,
            block_at(table_span(snapshot, r.address, ranges, i).0, p, sound_permutation_layout()),
            sound_permutation_layout(),
        ),
    ensures
        ({
            let lay = sound_permutation_layout();
            let table = table_span(snapshot, r.address, ranges, i).0;
            payload_offset(
                repack_ranges(r, snapshot, source, ranges, remaining).unwrap(),
                block_at(table, p, lay),
                lay,
            ) == stream_bytes(r.asset).len() + ranges_total(r, snapshot, ranges, i) + pooled_total(
                r,
                table,
                p,
                lay,
            )
        }),
    decreases remaining,
{
    let lay = sound_permutation_layout();
    let (permutations, pointer) = range_fields(snapshot, ranges);
    let table = pointer - r.address;
    let next = repack_blocks(r, source, table, permutations, lay).unwrap();
    let last = repack_ranges(r, snapshot, source, ranges, remaining).unwrap();
    let span0 = table_span(snapshot, r.address, ranges, 0);
    let span = table_span(snapshot, r.address, ranges, i);
    let at = block_at(span.0, p, lay);
    assert(span0 == (table, table + permutations * PERMUTATION_LEN));
    lemma_block_in_span(snapshot, r.address, ranges, i, p);
    lemma_repack_blocks_frame(r, source, table, permutations, lay, span0.1);
    lemma_tables_apart_rest(snapshot, r.address, ranges, remaining);
    lemma_ranges_inside(r, snapshot, source, ranges, remaining, i);
    if i == 0 {
        lemma_repack_blocks_offset(r, source, table, permutations, lay, p);
        assert forall|k: int| 0 <= k < remaining - 1 implies apart(
            #[trigger] table_span(snapshot, next.address, ranges + RANGE_LEN, k),
            span0,
        ) by {
            lemma_range_shift(snapshot, r.address, ranges, k + 1);
            assert(apart(span0, table_span(snapshot, r.address, ranges, k + 1)));
        }
        lemma_repack_ranges_frame(next, snapshot, source, ranges + RANGE_LEN, remaining - 1, span0);
        lemma_same_block(last, next, at, lay);
    } else {
        lemma_range_shift(snapshot, r.address, ranges, i);
        assert(apart(span0, span));
        lemma_same_block(next, r, at, lay);
        lemma_repack_ranges_offset(next, snapshot, source, ranges + RANGE_LEN, remaining - 1, i - 1, p);
        lemma_repack_blocks_length(r, source, table, permutations, lay);
        lemma_first_range_leaves_rest(r, snapshot, source, ranges, remaining, i - 1);
        lemma_block_at(span.0, p, lay);
        lemma_pooled_total_same(next, r, span.0, p, lay);
    }
}

/// The number of bytes that repacking appends for everything that it visits
/// before permutation number `p` of range number `i`: the ranges in front of
/// that range, and the permutations in front of that permutation.
pub open spec fn appended_before(
    r: ResidentView,
    snapshot: Seq<u8>,
    ranges: int,
    i: int,
    p: int,
) -> int {
    ranges_total(r, snapshot, ranges, i) + pooled_total(
        r,
        table_span(snapshot, r.address, ranges, i).0,
        p,
        sound_permutation_layout(),
    )
}

/// Permutation number `q` of range number `k` is visited before permutation
/// number `p` of range number `i`.
pub open spec fn visited_before(k: int, q: int, i: int, p: int) -> bool {
    k < i || (k == i && q < p)
}

/// The payload of permutation number `q` of range number `k` lives in the
/// pool.
pub open spec fn permutation_pooled(
    r: ResidentView,
    snapshot: Seq<u8>,
    ranges: int,
    k: int,
    q: int,
) -> bool {
    pooled(
        r,
        block_at(table_span(snapshot, r.address, ranges, k).0, q, sound_permutation_layout()),
        sound_permutation_layout(),
    )
}

/// The bytes appended for a run of ranges are those appended for its first
/// part and those appended for the rest.
pub proof fn lemma_ranges_total_split(
    r: ResidentView,
    snapshot: Seq<u8>,
    ranges: int,
    first: int,
    count: int,
)
    requires
        0 <= first <= count,
    ensures
        ranges_total(r, snapshot, ranges, count) == ranges_total(r, snapshot, ranges, first)
            + ranges_total(r, snapshot, range_at(ranges, first), count - first),
    decreases first,
{
    if first > 0 {
        lemma_ranges_total_split(r, snapshot, ranges + RANGE_LEN, first - 1, count - 1);
    }
}

/// Nothing is appended for a run of ranges none of whose permutations has
/// its payload in the pool.
pub proof fn lemma_ranges_total_none(r: ResidentView, snapshot: Seq<u8>, ranges: int, count: int)
    requires
        forall|k: int, q: int|
            0 <= k < count && 0 <= q < table_count(snapshot, ranges, k) ==> !#[trigger] permutation_pooled(
                r,
                snapshot,
                ranges,
                k,
                q,
            ),
    ensures
        ranges_total(r, snapshot, ranges, count) == 0,
    decreases count,
{
    if count > 0 {
        let lay = sound_permutation_layout();
        let (permutations, pointer) = range_fields(snapshot, ranges);
        let table = pointer - r.address;
        assert forall|q: int| 0 <= q < permutations implies !pooled(
            r,
            #[trigger] block_at(table, q, lay),
            lay,
        ) by {
            assert(!permutation_pooled(r, snapshot, ranges, 0, q));
        }
        lemma_pooled_total_none(r, table, permutations, lay);
        assert forall|k: int, q: int|
            0 <= k < count - 1 && 0 <= q < table_count(
                snapshot,
                ranges + RANGE_LEN,
                k,
            ) implies !#[trigger] permutation_pooled(r, snapshot, ranges + RANGE_LEN, k, q) by {
            lemma_range_shift(snapshot, r.address, ranges, k + 1);
            assert(!permutation_pooled(r, snapshot, ranges, k + 1, q));
        }
        lemma_ranges_total_none(r, snapshot, ranges + RANGE_LEN, count - 1);
    }
}

/// Nothing is appended for what is visited before the first permutation
/// whose payload lives in the pool.
pub proof fn lemma_appended_before_first(
    r: ResidentView,
    snapshot: Seq<u8>,
    ranges: int,
    i: int,
    p: int,
)
    requires
        0 <= i,
        0 <= p,
        forall|k: int, q: int|
            0 <= k && 0 <= q < table_count(snapshot, ranges, k) && visited_before(k, q, i, p)
                ==> !#[trigger] permutation_pooled(r, snapshot, ranges, k, q),
        p <= table_count(snapshot, ranges, i),
    ensures
        appended_before(r, snapshot, ranges, i, p) == 0,
{
    let lay = sound_permutation_layout();
    let table = table_span(snapshot, r.address, ranges, i).0;
    assert forall|k: int, q: int|
        0 <= k < i && 0 <= q < table_count(snapshot, ranges, k) implies !#[trigger] permutation_pooled(
        r,
        snapshot,
        ranges,
        k,
        q,
    ) by {
        assert(visited_before(k, q, i, p));
    }
    lemma_ranges_total_none(r, snapshot, ranges, i);
    assert forall|q: int| 0 <= q < p implies !pooled(r, #[trigger] block_at(table, q, lay), lay) by {
        assert(visited_before(i, q, i, p));
        assert(!permutation_pooled(r, snapshot, ranges, i, q));
    }
    lemma_pooled_total_none(r, table, p, lay);
}

/// Of two permutations whose payloads live in the pool, with none such
/// visited between them, what is appended before the later one is what is
/// appended before the earlier one and the earlier one's payload.
pub proof fn lemma_appended_before_next(
    r: ResidentView,
    snapshot: Seq<u8>,
    ranges: int,
    ra: int,
    pa: int,
    rb: int,
    pb: int,
)
    requires
        0 <= ra <= rb,
        0 <= pa < table_count(snapshot, ranges, ra),
        0 <= pb < table_count(snapshot, ranges, rb),
        visited_before(ra, pa, rb, pb),
        permutation_pooled(r, snapshot, ranges, ra, pa),
        forall|k: int, q: int|
            0 <= k && 0 <= q < table_count(snapshot, ranges, k) && visited_before(ra, pa, k, q)
                && visited_before(k, q, rb, pb) ==> !#[trigger] permutation_pooled(
                r,
                snapshot,
                ranges,
                k,
                q,
            ),
    ensures
        appended_before(r, snapshot, ranges, rb, pb) == appended_before(r, snapshot, ranges, ra, pa)
            + payload_size(
            r,
            block_at(
                table_span(snapshot, r.address, ranges, ra).0,
                pa,
                sound_permutation_layout(),
            ),
            sound_permutation_layout(),
        ),
{
    let lay = sound_permutation_layout();
    let ta = table_span(snapshot, r.address, ranges, ra).0;
    let tb = table_span(snapshot, r.address, ranges, rb).0;
    let na = table_count(snapshot, ranges, ra);
    let at = block_at(ta, pa, lay);
    // what follows the earlier permutation inside its own range, up to `end`
    let end = if ra == rb {
        pb
    } else {
        na
    };
    lemma_pooled_total_split(r, ta, pa, end, lay);
    lemma_block_at(at, 0, lay);
    assert forall|m: int| 0 <= m < end - pa - 1 implies !pooled(
        r,
        #[trigger] block_at(at + lay.len, m, lay),
        lay,
    ) by {
        lemma_block_at(at, m + 1, lay);
        lemma_block_at_add(ta, pa, m + 1, lay);
        assert(visited_before(ra, pa, ra, pa + 1 + m));
        assert(visited_before(ra, pa + 1 + m, rb, pb));
        assert(!permutation_pooled(r, snapshot, ranges, ra, pa + 1 + m));
    }
    lemma_pooled_total_none(r, at + lay.len, end - pa - 1, lay);
    assert(pooled_total(r, ta, end, lay) == pooled_total(r, ta, pa, lay) + payload_size(r, at, lay));
    if ra < rb {
        // the ranges between the two, and the permutations in front of the later one
        lemma_ranges_total_split(r, snapshot, ranges, ra, rb);
        let from = range_at(ranges, ra);
        assert(table_span(snapshot, r.address, from, 0) == table_span(
            snapshot,
            r.address,
            ranges,
            ra,
        ));
        assert forall|k: int, q: int|
            0 <= k < rb - ra - 1 && 0 <= q < table_count(
                snapshot,
                from + RANGE_LEN,
                k,
            ) implies !#[trigger] permutation_pooled(r, snapshot, from + RANGE_LEN, k, q) by {
            assert(range_at(from + RANGE_LEN, k) == range_at(ranges, ra + 1 + k));
            assert(visited_before(ra, pa, ra + 1 + k, q));
            assert(visited_before(ra + 1 + k, q, rb, pb));
            assert(!permutation_pooled(r, snapshot, ranges, ra + 1 + k, q));
        }
        lemma_ranges_total_none(r, snapshot, from + RANGE_LEN, rb - ra - 1);
        assert forall|q: int| 0 <= q < pb implies !pooled(r, #[trigger] block_at(tb, q, lay), lay) by {
            assert(visited_before(ra, pa, rb, q));
            assert(visited_before(rb, q, rb, pb));
            assert(!permutation_pooled(r, snapshot, ranges, rb, q));
        }
        lemma_pooled_total_none(r, tb, pb, lay);
    }
}

} // verus!
