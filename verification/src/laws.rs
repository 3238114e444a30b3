//! What holds of every conversion, stated over the models that the
//! functions' contracts speak of.

use crate::bitmap::{bitmap_candidate, bitmap_repacked, bitmap_search, bitmap_table, bitmap_verdicts, BITMAP_TABLE_AT};
use crate::conservation::{apart, lemma_repack_ranges_frame, appended_before, lemma_appended_before_first, lemma_appended_before_next, lemma_repack_ranges_length, lemma_repack_ranges_offset, permutation_pooled, ranges_total, visited_before, block_at, conserved, extends, lemma_repack_blocks_first_offset, lemma_repack_blocks_length, lemma_repack_blocks_next_offset, lemma_repack_blocks_offset, pooled_total, lemma_repack_blocks_frame, lemma_repack_ranges_extend, lemma_repack_blocks_entry, lemma_repack_blocks_order, lemma_repack_ranges_entry, lemma_repack_ranges_order, payload_offset, payload_size, pooled, table_count, table_span, tables_apart};
use crate::convert::{converted, first_malformed, tag_resolved, PoolsView};
use crate::layout::{field, window};
use crate::matching::{first_decisive, lemma_accepted_blocks, lemma_first_accepted_is_found, lemma_first_decisive, lemma_rejected_are_passed_over, resource_payload, tag_payload, Search, Verdict};
use crate::repack::{bitmap_entry_layout, sound_permutation_layout, stream_bytes};
use crate::sound::{range_fields, range_verdict, ranges_verdict, sound_candidate, sound_ranges, sound_repacked, sound_search, sound_verdicts, RANGE_LEN, RESOURCE_RANGES_AT};
use crate::tag::{CacheView, Fault, PoolView, ResidentView, RuntimeVariant, TagView, BITMAP_CLASS, SOUND_CLASS};
use vstd::prelude::*;

verus! {

/// A tag that is neither a bitmap nor a sound passes through a conversion
/// unchanged.
pub proof fn lemma_other_classes_pass(t: TagView, pools: PoolsView)
    requires
        t.class != BITMAP_CLASS,
        t.class != SOUND_CLASS,
    ensures
        tag_resolved(t, pools) == Ok::<TagView, Fault>(t),
{
    reveal(tag_resolved);
}

/// A tag that is a reference already passes through a conversion unchanged,
/// whatever its class.
pub proof fn lemma_references_pass(t: TagView, pools: PoolsView)
    requires
        t.payload is External,
    ensures
        tag_resolved(t, pools) == Ok::<TagView, Fault>(t),
{
    reveal(tag_resolved);
}

/// Where every tag from `from` on can be resolved, none of them is the
/// first malformed one.
pub proof fn lemma_none_malformed(tags: Seq<TagView>, pools: PoolsView, from: int)
    requires
        0 <= from,
        forall|i: int| from <= i < tags.len() ==> (#[trigger] tag_resolved(tags[i], pools)).is_ok(),
    ensures
        first_malformed(tags, pools, from).is_none(),
    decreases tags.len() - from,
{
    if from < tags.len() {
        lemma_none_malformed(tags, pools, from + 1);
    }
}

/// The tag that an abandoned pass names is the first that cannot be
/// resolved: every tag in front of it can, and the fault reported is the one
/// that was met in it. A pass that is not abandoned resolved every tag.
pub proof fn lemma_first_malformed(tags: Seq<TagView>, pools: PoolsView, from: int)
    requires
        0 <= from,
    ensures
        match first_malformed(tags, pools, from) {
            Some(index) => {
                &&& from <= index < tags.len()
                &&& tag_resolved(tags[index], pools) is Err
                &&& forall|j: int| from <= j < index ==> (#[trigger] tag_resolved(tags[j], pools)).is_ok()
            },
            None => forall|j: int|
                from <= j < tags.len() ==> (#[trigger] tag_resolved(tags[j], pools)).is_ok(),
        },
    decreases tags.len() - from,
{
    if from < tags.len() && tag_resolved(tags[from], pools).is_ok() {
        lemma_first_malformed(tags, pools, from + 1);
    }
}

/// Converting a cache file that holds neither bitmap nor sound tags always
/// succeeds and changes nothing but the runtime that the file is marked for:
/// the tags come out as they went in, one for one and in the same order.
pub proof fn lemma_conversion_without_assets(cache: CacheView, pools: PoolsView)
    requires
        forall|i: int|
            0 <= i < cache.tags.len() ==> (#[trigger] cache.tags[i]).class != BITMAP_CLASS
                && cache.tags[i].class != SOUND_CLASS,
    ensures
        converted(cache, pools) == Ok::<CacheView, crate::tag::ConvertError>(
            CacheView { tags: cache.tags, variant: RuntimeVariant::CustomEdition },
        ),
{
    assert forall|i: int| 0 <= i < cache.tags.len() implies #[trigger] tag_resolved(
        cache.tags[i],
        pools,
    ) == Ok::<TagView, Fault>(cache.tags[i]) by {
        lemma_other_classes_pass(cache.tags[i], pools);
    }
    lemma_none_malformed(cache.tags, pools, 0);
    let out = converted(cache, pools)->Ok_0;
    assert(out.tags =~= cache.tags);
}

/// Repacking a bitmap tag conserves every entry: an entry whose pixels
/// lived in the source pool now points into the tag's own stream, behind
/// everything that the stream held before, and the bytes that its new
/// offset and its size pick out of the stream are exactly the bytes that its
/// old offset and its size picked out of the pool. An entry that was private
/// already is untouched.
pub proof fn lemma_bitmap_round_trip(r: ResidentView, source: Seq<u8>, entry: int)
    requires
        bitmap_repacked(r, source).is_ok(),
        0 <= entry < bitmap_table(r).unwrap().0,
    ensures
        ({
            let lay = bitmap_entry_layout();
            let after = bitmap_repacked(r, source).unwrap();
            let at = block_at(bitmap_table(r).unwrap().1, entry, lay);
            &&& conserved(r, after, source, at, lay)
            &&& pooled(r, at, lay) ==> {
                &&& window(source, payload_offset(r, at, lay), payload_size(r, at, lay)).is_some()
                &&& window(
                    stream_bytes(after.asset),
                    payload_offset(after, at, lay),
                    payload_size(after, at, lay),
                ) == window(source, payload_offset(r, at, lay), payload_size(r, at, lay))
            }
        }),
{
    let lay = bitmap_entry_layout();
    let (count, table) = bitmap_table(r).unwrap();
    lemma_repack_blocks_entry(r, source, table, count, lay, entry);
}

/// The payloads that repacking a bitmap tag appends lie in the stream in
/// the order of their entries and do not overlap: of two entries whose
/// pixels lived in the source pool, the earlier one's payload ends before
/// the later one's begins. Where the earlier payload is not empty, the two
/// offsets differ, the earlier one being the smaller.
pub proof fn lemma_bitmap_offsets_ascend(
    r: ResidentView,
    source: Seq<u8>,
    earlier: int,
    later: int,
)
    requires
        bitmap_repacked(r, source).is_ok(),
        0 <= earlier < later < bitmap_table(r).unwrap().0,
        pooled(
            r,
            block_at(bitmap_table(r).unwrap().1, earlier, bitmap_entry_layout()),
            bitmap_entry_layout(),
        ),
        pooled(
            r,
            block_at(bitmap_table(r).unwrap().1, later, bitmap_entry_layout()),
            bitmap_entry_layout(),
        ),
    ensures
        ({
            let lay = bitmap_entry_layout();
            let after = bitmap_repacked(r, source).unwrap();
            let first = block_at(bitmap_table(r).unwrap().1, earlier, lay);
            let second = block_at(bitmap_table(r).unwrap().1, later, lay);
            &&& payload_offset(after, first, lay) + payload_size(after, first, lay)
                <= payload_offset(after, second, lay)
            &&& payload_size(after, first, lay) > 0 ==> payload_offset(after, first, lay)
                < payload_offset(after, second, lay)
        }),
{
    let lay = bitmap_entry_layout();
    let (count, table) = bitmap_table(r).unwrap();
    lemma_repack_blocks_order(r, source, table, count, lay, earlier, later);
}

/// Repacking a bitmap tag makes its stream longer by exactly the sizes of
/// the entries whose pixels lived in the source pool.
pub proof fn lemma_bitmap_stream_length(r: ResidentView, source: Seq<u8>)
    requires
        bitmap_repacked(r, source).is_ok(),
    ensures
        ({
            let (count, table) = bitmap_table(r).unwrap();
            stream_bytes(bitmap_repacked(r, source).unwrap().asset).len() == stream_bytes(
                r.asset,
            ).len() + pooled_total(r, table, count, bitmap_entry_layout())
        }),
{
    let (count, table) = bitmap_table(r).unwrap();
    lemma_repack_blocks_length(r, source, table, count, bitmap_entry_layout());
}

/// Repacking a bitmap tag gives an entry whose pixels lived in the source
/// pool the offset at which the stream ended before, plus the sizes of the
/// entries in front of it whose pixels lived there too.
pub proof fn lemma_bitmap_offset_is_exact(r: ResidentView, source: Seq<u8>, entry: int)
    requires
        bitmap_repacked(r, source).is_ok(),
        0 <= entry < bitmap_table(r).unwrap().0,
        pooled(
            r,
            block_at(bitmap_table(r).unwrap().1, entry, bitmap_entry_layout()),
            bitmap_entry_layout(),
        ),
    ensures
        ({
            let lay = bitmap_entry_layout();
            let (count, table) = bitmap_table(r).unwrap();
            payload_offset(bitmap_repacked(r, source).unwrap(), block_at(table, entry, lay), lay)
                == stream_bytes(r.asset).len() + pooled_total(r, table, entry, lay)
        }),
{
    let (count, table) = bitmap_table(r).unwrap();
    lemma_repack_blocks_offset(r, source, table, count, bitmap_entry_layout(), entry);
}

/// The first entry of a bitmap tag whose pixels lived in the source pool
/// gets the offset at which the stream ended before.
pub proof fn lemma_bitmap_first_offset(r: ResidentView, source: Seq<u8>, entry: int)
    requires
        bitmap_repacked(r, source).is_ok(),
        0 <= entry < bitmap_table(r).unwrap().0,
        pooled(
            r,
            block_at(bitmap_table(r).unwrap().1, entry, bitmap_entry_layout()),
            bitmap_entry_layout(),
        ),
        forall|m: int|
            0 <= m < entry ==> !pooled(
                r,
                #[trigger] block_at(bitmap_table(r).unwrap().1, m, bitmap_entry_layout()),
                bitmap_entry_layout(),
            ),
    ensures
        ({
            let lay = bitmap_entry_layout();
            let (count, table) = bitmap_table(r).unwrap();
            payload_offset(bitmap_repacked(r, source).unwrap(), block_at(table, entry, lay), lay)
                == stream_bytes(r.asset).len()
        }),
{
    let (count, table) = bitmap_table(r).unwrap();
    lemma_repack_blocks_first_offset(r, source, table, count, bitmap_entry_layout(), entry);
}

/// Of two entries of a bitmap tag whose pixels lived in the source pool,
/// with no such entry between them, the later one gets the earlier one's
/// offset plus the earlier one's size.
pub proof fn lemma_bitmap_next_offset(r: ResidentView, source: Seq<u8>, earlier: int, later: int)
    requires
        bitmap_repacked(r, source).is_ok(),
        0 <= earlier < later < bitmap_table(r).unwrap().0,
        pooled(
            r,
            block_at(bitmap_table(r).unwrap().1, earlier, bitmap_entry_layout()),
            bitmap_entry_layout(),
        ),
        pooled(
            r,
            block_at(bitmap_table(r).unwrap().1, later, bitmap_entry_layout()),
            bitmap_entry_layout(),
        ),
        forall|m: int|
            earlier < m < later ==> !pooled(
                r,
                #[trigger] block_at(bitmap_table(r).unwrap().1, m, bitmap_entry_layout()),
                bitmap_entry_layout(),
            ),
    ensures
        ({
            let lay = bitmap_entry_layout();
            let after = bitmap_repacked(r, source).unwrap();
            let first = block_at(bitmap_table(r).unwrap().1, earlier, lay);
            let second = block_at(bitmap_table(r).unwrap().1, later, lay);
            payload_offset(after, second, lay) == payload_offset(after, first, lay) + payload_size(
                after,
                first,
                lay,
            )
        }),
{
    let (count, table) = bitmap_table(r).unwrap();
    lemma_repack_blocks_next_offset(r, source, table, count, bitmap_entry_layout(), earlier, later);
}

/// Repacking a bitmap tag touches nothing outside its entry table: the
/// entry count, the table pointer and everything else in front of the table
/// or behind it stay as they are. What it changes inside an entry, and what
/// not, [`lemma_bitmap_round_trip`] says.
pub proof fn lemma_bitmap_rest_untouched(r: ResidentView, source: Seq<u8>, i: int)
    requires
        bitmap_repacked(r, source).is_ok(),
        0 <= i < r.structured.len(),
        i < bitmap_table(r).unwrap().1 || block_at(
            bitmap_table(r).unwrap().1,
            bitmap_table(r).unwrap().0,
            bitmap_entry_layout(),
        ) <= i,
    ensures
        bitmap_repacked(r, source).unwrap().structured[i] == r.structured[i],
{
    let lay = bitmap_entry_layout();
    let (count, table) = bitmap_table(r).unwrap();
    lemma_repack_blocks_frame(r, source, table, count, lay, block_at(table, count, lay));
}

/// Repacking a sound tag touches nothing outside the permutation tables of
/// its ranges, whatever the ranges point to: a byte that lies in none of
/// them stays as it is. What it changes inside a permutation, and what not,
/// [`lemma_sound_round_trip`] says.
pub proof fn lemma_sound_rest_untouched(r: ResidentView, source: Seq<u8>, i: int)
    requires
        sound_repacked(r, source).is_ok(),
        sound_ranges(r).unwrap().is_some(),
        0 <= i < r.structured.len(),
        forall|k: int|
            0 <= k < sound_ranges(r).unwrap().unwrap().0 ==> apart(
                #[trigger] table_span(
                    r.structured,
                    r.address,
                    sound_ranges(r).unwrap().unwrap().1,
                    k,
                ),
                (i, i + 1),
            ),
    ensures
        sound_repacked(r, source).unwrap().structured[i] == r.structured[i],
{
    let (count, ranges) = sound_ranges(r).unwrap().unwrap();
    lemma_repack_ranges_frame(r, r.structured, source, ranges, count, (i, i + 1));
}

/// Repacking a bitmap tag only ever appends to its stream: what the stream
/// held before is still there, in front of everything that was added. The
/// structured data keeps its length and the tag its address.
pub proof fn lemma_bitmap_stream_grows(r: ResidentView, source: Seq<u8>)
    requires
        bitmap_repacked(r, source).is_ok(),
    ensures
        ({
            let after = bitmap_repacked(r, source).unwrap();
            &&& extends(stream_bytes(after.asset), stream_bytes(r.asset))
            &&& after.structured.len() == r.structured.len()
            &&& after.address == r.address
        }),
{
    let lay = bitmap_entry_layout();
    let (count, table) = bitmap_table(r).unwrap();
    lemma_repack_blocks_frame(r, source, table, count, lay, block_at(table, count, lay));
}

/// Repacking a sound tag only ever appends to its stream, whatever its
/// ranges point to: what the stream held before is still there, in front of
/// everything that was added. The structured data keeps its length and the
/// tag its address.
pub proof fn lemma_sound_stream_grows(r: ResidentView, source: Seq<u8>)
    requires
        sound_repacked(r, source).is_ok(),
    ensures
        ({
            let after = sound_repacked(r, source).unwrap();
            &&& extends(stream_bytes(after.asset), stream_bytes(r.asset))
            &&& after.structured.len() == r.structured.len()
            &&& after.address == r.address
        }),
{
    let stream = stream_bytes(r.asset);
    match sound_ranges(r).unwrap() {
        Some((count, ranges)) => {
            lemma_repack_ranges_extend(r, r.structured, source, ranges, count);
        },
        None => {
            assert(stream.subrange(0, stream.len() as int) =~= stream);
        },
    }
}

/// Repacking a sound tag whose permutation tables lie apart makes its
/// stream longer by exactly the sizes of the permutations whose samples
/// lived in the source pool.
pub proof fn lemma_sound_stream_length(r: ResidentView, source: Seq<u8>)
    requires
        sound_repacked(r, source).is_ok(),
        sound_ranges(r).unwrap().is_some(),
        tables_apart(
            r.structured,
            r.address,
            sound_ranges(r).unwrap().unwrap().1,
            sound_ranges(r).unwrap().unwrap().0,
        ),
    ensures
        ({
            let (count, ranges) = sound_ranges(r).unwrap().unwrap();
            stream_bytes(sound_repacked(r, source).unwrap().asset).len() == stream_bytes(
                r.asset,
            ).len() + ranges_total(r, r.structured, ranges, count)
        }),
{
    let (count, ranges) = sound_ranges(r).unwrap().unwrap();
    lemma_repack_ranges_length(r, r.structured, source, ranges, count);
}

/// Repacking a sound tag whose permutation tables lie apart gives a
/// permutation whose samples lived in the source pool the offset at which
/// the stream ended before, plus the sizes of the permutations visited
/// before it whose samples lived there too: those of the ranges in front of
/// its range, and those in front of it in its own range.
pub proof fn lemma_sound_offset_is_exact(
    r: ResidentView,
    source: Seq<u8>,
    range: int,
    permutation: int,
)
    requires
        sound_repacked(r, source).is_ok(),
        sound_ranges(r).unwrap().is_some(),
        tables_apart(
            r.structured,
            r.address,
            sound_ranges(r).unwrap().unwrap().1,
            sound_ranges(r).unwrap().unwrap().0,
        ),
        0 <= range < sound_ranges(r).unwrap().unwrap().0,
        0 <= permutation < table_count(
            r.structured,
            sound_ranges(r).unwrap().unwrap().1,
            range,
        ),
        permutation_pooled(
            r,
            r.structured,
            sound_ranges(r).unwrap().unwrap().1,
            range,
            permutation,
        ),
    ensures
        ({
            let lay = sound_permutation_layout();
            let ranges = sound_ranges(r).unwrap().unwrap().1;
            let at = block_at(table_span(r.structured, r.address, ranges, range).0, permutation, lay);
            payload_offset(sound_repacked(r, source).unwrap(), at, lay) == stream_bytes(
                r.asset,
            ).len() + appended_before(r, r.structured, ranges, range, permutation)
        }),
{
    let (count, ranges) = sound_ranges(r).unwrap().unwrap();
    lemma_repack_ranges_offset(r, r.structured, source, ranges, count, range, permutation);
}

/// The first permutation of a sound tag that is visited and whose samples
/// lived in the source pool gets the offset at which the stream ended
/// before, where the permutation tables lie apart.
pub proof fn lemma_sound_first_offset(
    r: ResidentView,
    source: Seq<u8>,
    range: int,
    permutation: int,
)
    requires
        sound_repacked(r, source).is_ok(),
        sound_ranges(r).unwrap().is_some(),
        tables_apart(
            r.structured,
            r.address,
            sound_ranges(r).unwrap().unwrap().1,
            sound_ranges(r).unwrap().unwrap().0,
        ),
        0 <= range < sound_ranges(r).unwrap().unwrap().0,
        0 <= permutation < table_count(
            r.structured,
            sound_ranges(r).unwrap().unwrap().1,
            range,
        ),
        permutation_pooled(
            r,
            r.structured,
            sound_ranges(r).unwrap().unwrap().1,
            range,
            permutation,
        ),
        forall|k: int, q: int|
            0 <= k && 0 <= q < table_count(r.structured, sound_ranges(r).unwrap().unwrap().1, k)
                && visited_before(k, q, range, permutation) ==> !#[trigger] permutation_pooled(
                r,
                r.structured,
                sound_ranges(r).unwrap().unwrap().1,
                k,
                q,
            ),
    ensures
        ({
            let lay = sound_permutation_layout();
            let ranges = sound_ranges(r).unwrap().unwrap().1;
            let at = block_at(table_span(r.structured, r.address, ranges, range).0, permutation, lay);
            payload_offset(sound_repacked(r, source).unwrap(), at, lay) == stream_bytes(
                r.asset,
            ).len()
        }),
{
    let (count, ranges) = sound_ranges(r).unwrap().unwrap();
    lemma_repack_ranges_offset(r, r.structured, source, ranges, count, range, permutation);
    lemma_appended_before_first(r, r.structured, ranges, range, permutation);
}

/// Of two permutations of a sound tag whose samples lived in the source
/// pool, with no such permutation visited between them, the later one gets
/// the earlier one's offset plus the earlier one's size, where the
/// permutation tables lie apart.
pub proof fn lemma_sound_next_offset(
    r: ResidentView,
    source: Seq<u8>,
    earlier: (int, int),
    later: (int, int),
)
    requires
        sound_repacked(r, source).is_ok(),
        sound_ranges(r).unwrap().is_some(),
        tables_apart(
            r.structured,
            r.address,
            sound_ranges(r).unwrap().unwrap().1,
            sound_ranges(r).unwrap().unwrap().0,
        ),
        0 <= earlier.0 <= later.0 < sound_ranges(r).unwrap().unwrap().0,
        visited_before(earlier.0, earlier.1, later.0, later.1),
        0 <= earlier.1 < table_count(
            r.structured,
            sound_ranges(r).unwrap().unwrap().1,
            earlier.0,
        ),
        0 <= later.1 < table_count(r.structured, sound_ranges(r).unwrap().unwrap().1, later.0),
        permutation_pooled(
            r,
            r.structured,
            sound_ranges(r).unwrap().unwrap().1,
            earlier.0,
            earlier.1,
        ),
        permutation_pooled(
            r,
            r.structured,
            sound_ranges(r).unwrap().unwrap().1,
            later.0,
            later.1,
        ),
        forall|k: int, q: int|
            0 <= k && 0 <= q < table_count(r.structured, sound_ranges(r).unwrap().unwrap().1, k)
                && visited_before(earlier.0, earlier.1, k, q) && visited_before(
                k,
                q,
                later.0,
                later.1,
            ) ==> !#[trigger] permutation_pooled(
                r,
                r.structured,
                sound_ranges(r).unwrap().unwrap().1,
                k,
                q,
            ),
    ensures
        ({
            let lay = sound_permutation_layout();
            let after = sound_repacked(r, source).unwrap();
            let ranges = sound_ranges(r).unwrap().unwrap().1;
            let first = block_at(
                table_span(r.structured, r.address, ranges, earlier.0).0,
                earlier.1,
                lay,
            );
            let second = block_at(
                table_span(r.structured, r.address, ranges, later.0).0,
                later.1,
                lay,
            );
            payload_offset(after, second, lay) == payload_offset(after, first, lay) + payload_size(
                after,
                first,
                lay,
            )
        }),
{
    let (count, ranges) = sound_ranges(r).unwrap().unwrap();
    lemma_repack_ranges_offset(r, r.structured, source, ranges, count, earlier.0, earlier.1);
    lemma_repack_ranges_offset(r, r.structured, source, ranges, count, later.0, later.1);
    lemma_repack_ranges_entry(r, r.structured, source, ranges, count, earlier.0, earlier.1);
    lemma_appended_before_next(
        r,
        r.structured,
        ranges,
        earlier.0,
        earlier.1,
        later.0,
        later.1,
    );
}

/// Repacking a sound tag conserves every permutation of every range, as
/// repacking a bitmap tag conserves every entry, where no two ranges share
/// a byte of their permutation tables.
pub proof fn lemma_sound_round_trip(
    r: ResidentView,
    source: Seq<u8>,
    range: int,
    permutation: int,
)
    requires
        sound_repacked(r, source).is_ok(),
        sound_ranges(r).unwrap().is_some(),
        tables_apart(
            r.structured,
            r.address,
            sound_ranges(r).unwrap().unwrap().1,
            sound_ranges(r).unwrap().unwrap().0,
        ),
        0 <= range < sound_ranges(r).unwrap().unwrap().0,
        0 <= permutation < table_count(
            r.structured,
            sound_ranges(r).unwrap().unwrap().1,
            range,
        ),
    ensures
        ({
            let lay = sound_permutation_layout();
            let after = sound_repacked(r, source).unwrap();
            let ranges = sound_ranges(r).unwrap().unwrap().1;
            let at = block_at(table_span(r.structured, r.address, ranges, range).0, permutation, lay);
            &&& conserved(r, after, source, at, lay)
            &&& pooled(r, at, lay) ==> {
                &&& window(source, payload_offset(r, at, lay), payload_size(r, at, lay)).is_some()
                &&& window(
                    stream_bytes(after.asset),
                    payload_offset(after, at, lay),
                    payload_size(after, at, lay),
                ) == window(source, payload_offset(r, at, lay), payload_size(r, at, lay))
            }
        }),
{
    let (count, ranges) = sound_ranges(r).unwrap().unwrap();
    lemma_repack_ranges_entry(r, r.structured, source, ranges, count, range, permutation);
}

/// The payloads that repacking a sound tag appends lie in the stream in the
/// order in which their permutations are visited, range by range, and do
/// not overlap, where no two ranges share a byte of their permutation
/// tables. Where the earlier payload is not empty, the two offsets differ,
/// the earlier one being the smaller.
pub proof fn lemma_sound_offsets_ascend(
    r: ResidentView,
    source: Seq<u8>,
    earlier: (int, int),
    later: (int, int),
)
    requires
        sound_repacked(r, source).is_ok(),
        sound_ranges(r).unwrap().is_some(),
        tables_apart(
            r.structured,
            r.address,
            sound_ranges(r).unwrap().unwrap().1,
            sound_ranges(r).unwrap().unwrap().0,
        ),
        0 <= earlier.0 <= later.0 < sound_ranges(r).unwrap().unwrap().0,
        earlier.0 == later.0 ==> earlier.1 < later.1,
        0 <= earlier.1 < table_count(
            r.structured,
            sound_ranges(r).unwrap().unwrap().1,
            earlier.0,
        ),
        0 <= later.1 < table_count(r.structured, sound_ranges(r).unwrap().unwrap().1, later.0),
        pooled(
            r,
            block_at(
                table_span(
                    r.structured,
                    r.address,
                    sound_ranges(r).unwrap().unwrap().1,
                    earlier.0,
                ).0,
                earlier.1,
                sound_permutation_layout(),
            ),
            sound_permutation_layout(),
        ),
        pooled(
            r,
            block_at(
                table_span(r.structured, r.address, sound_ranges(r).unwrap().unwrap().1, later.0).0,
                later.1,
                sound_permutation_layout(),
            ),
            sound_permutation_layout(),
        ),
    ensures
        ({
            let lay = sound_permutation_layout();
            let after = sound_repacked(r, source).unwrap();
            let ranges = sound_ranges(r).unwrap().unwrap().1;
            let first = block_at(
                table_span(r.structured, r.address, ranges, earlier.0).0,
                earlier.1,
                lay,
            );
            let second = block_at(
                table_span(r.structured, r.address, ranges, later.0).0,
                later.1,
                lay,
            );
            &&& payload_offset(after, first, lay) + payload_size(after, first, lay)
                <= payload_offset(after, second, lay)
            &&& payload_size(after, first, lay) > 0 ==> payload_offset(after, first, lay)
                < payload_offset(after, second, lay)
        }),
{
    let (count, ranges) = sound_ranges(r).unwrap().unwrap();
    lemma_repack_ranges_order(
        r,
        r.structured,
        source,
        ranges,
        count,
        earlier.0,
        earlier.1,
        later.0,
        later.1,
    );
}

/// The verdict on the resource at `index` of a pool, for a bitmap tag.
pub open spec fn bitmap_verdict_at(
    r: ResidentView,
    source: Seq<u8>,
    pool: PoolView,
    index: int,
) -> Verdict
    recommends
        bitmap_table(r).is_ok(),
        0 <= index < pool.resources.len(),
{
    let (count, table) = bitmap_table(r).unwrap();
    bitmap_candidate(r, count, table, source, pool.resources[index], pool.bytes)
}

/// The verdict on the resource at `index` of a pool, for a sound tag.
pub open spec fn sound_verdict_at(
    r: ResidentView,
    source: Seq<u8>,
    pool: PoolView,
    index: int,
) -> Verdict
    recommends
        sound_ranges(r) matches Ok(Some(_)),
        0 <= index < pool.resources.len(),
{
    let (count, table) = sound_ranges(r).unwrap().unwrap();
    sound_candidate(r, count, table, source, pool.resources[index], pool.bytes)
}

/// Of two resources that both match a bitmap tag, the later one is never
/// the one that is found: the search finds a resource in front of it, or
/// ends on a malformed resource in front of it.
pub proof fn lemma_bitmap_first_match_wins(
    r: ResidentView,
    source: Seq<u8>,
    pool: PoolView,
    earlier: int,
    later: int,
)
    requires
        bitmap_table(r).is_ok(),
        0 <= earlier < later < pool.resources.len() <= usize::MAX,
        bitmap_verdict_at(r, source, pool, earlier) == Verdict::Accepted,
        bitmap_verdict_at(r, source, pool, later) == Verdict::Accepted,
    ensures
        match bitmap_search(r, source, pool) {
            Search::Found(index) => index <= earlier && bitmap_verdict_at(
                r,
                source,
                pool,
                index as int,
            ) == Verdict::Accepted,
            Search::NotFound => false,
            Search::Malformed(_) => true,
        },
{
    let (count, table) = bitmap_table(r).unwrap();
    let verdicts = bitmap_verdicts(r, count, table, source, pool);
    lemma_first_decisive(verdicts, 0);
    assert(verdicts[earlier] == Verdict::Accepted);
}

/// The first resource of a pool that matches a bitmap tag is the one that
/// is found, whatever comes after it, where every resource in front of it
/// was rejected.
pub proof fn lemma_bitmap_first_match_is_found(
    r: ResidentView,
    source: Seq<u8>,
    pool: PoolView,
    index: int,
)
    requires
        bitmap_table(r).is_ok(),
        0 <= index < pool.resources.len() <= usize::MAX,
        bitmap_verdict_at(r, source, pool, index) == Verdict::Accepted,
        forall|j: int|
            0 <= j < index ==> #[trigger] bitmap_verdict_at(r, source, pool, j)
                == Verdict::Rejected,
    ensures
        bitmap_search(r, source, pool) == Search::Found(index as usize),
{
    let (count, table) = bitmap_table(r).unwrap();
    let verdicts = bitmap_verdicts(r, count, table, source, pool);
    assert forall|j: int| 0 <= j < index implies verdicts[j] == Verdict::Rejected by {
        assert(bitmap_verdict_at(r, source, pool, j) == Verdict::Rejected);
    }
    lemma_first_accepted_is_found(verdicts, 0, index);
}

/// Of two resources that both match a sound tag, the later one is never the
/// one that is found.
pub proof fn lemma_sound_first_match_wins(
    r: ResidentView,
    source: Seq<u8>,
    pool: PoolView,
    earlier: int,
    later: int,
)
    requires
        sound_ranges(r) matches Ok(Some(_)),
        0 <= earlier < later < pool.resources.len() <= usize::MAX,
        sound_verdict_at(r, source, pool, earlier) == Verdict::Accepted,
        sound_verdict_at(r, source, pool, later) == Verdict::Accepted,
    ensures
        match sound_search(r, source, pool) {
            Search::Found(index) => index <= earlier && sound_verdict_at(
                r,
                source,
                pool,
                index as int,
            ) == Verdict::Accepted,
            Search::NotFound => false,
            Search::Malformed(_) => true,
        },
{
    let (count, table) = sound_ranges(r).unwrap().unwrap();
    let verdicts = sound_verdicts(r, count, table, source, pool);
    lemma_first_decisive(verdicts, 0);
    assert(verdicts[earlier] == Verdict::Accepted);
}

/// The first resource of a pool that matches a sound tag is the one that is
/// found, whatever comes after it, where every resource in front of it was
/// rejected.
pub proof fn lemma_sound_first_match_is_found(
    r: ResidentView,
    source: Seq<u8>,
    pool: PoolView,
    index: int,
)
    requires
        sound_ranges(r) matches Ok(Some(_)),
        0 <= index < pool.resources.len() <= usize::MAX,
        sound_verdict_at(r, source, pool, index) == Verdict::Accepted,
        forall|j: int|
            0 <= j < index ==> #[trigger] sound_verdict_at(r, source, pool, j)
                == Verdict::Rejected,
    ensures
        sound_search(r, source, pool) == Search::Found(index as usize),
{
    let (count, table) = sound_ranges(r).unwrap().unwrap();
    let verdicts = sound_verdicts(r, count, table, source, pool);
    assert forall|j: int| 0 <= j < index implies verdicts[j] == Verdict::Rejected by {
        assert(sound_verdict_at(r, source, pool, j) == Verdict::Rejected);
    }
    lemma_first_accepted_is_found(verdicts, 0, index);
}

/// A resource that is rejected for a bitmap tag, as every resource in front
/// of it was, is passed over: the search goes on with the next candidate.
pub proof fn lemma_bitmap_search_moves_on(
    r: ResidentView,
    source: Seq<u8>,
    pool: PoolView,
    index: int,
)
    requires
        bitmap_table(r).is_ok(),
        0 <= index < pool.resources.len(),
        forall|j: int|
            0 <= j <= index ==> #[trigger] bitmap_verdict_at(r, source, pool, j)
                == Verdict::Rejected,
    ensures
        bitmap_search(r, source, pool) == first_decisive(
            bitmap_verdicts(
                r,
                bitmap_table(r).unwrap().0,
                bitmap_table(r).unwrap().1,
                source,
                pool,
            ),
            index + 1,
        ),
{
    let (count, table) = bitmap_table(r).unwrap();
    let verdicts = bitmap_verdicts(r, count, table, source, pool);
    assert forall|j: int| 0 <= j <= index implies verdicts[j] == Verdict::Rejected by {
        assert(bitmap_verdict_at(r, source, pool, j) == Verdict::Rejected);
    }
    lemma_rejected_are_passed_over(verdicts, 0, index);
}

/// A resource that is rejected for a sound tag, as every resource in front
/// of it was, is passed over: the search goes on with the next candidate.
pub proof fn lemma_sound_search_moves_on(
    r: ResidentView,
    source: Seq<u8>,
    pool: PoolView,
    index: int,
)
    requires
        sound_ranges(r) matches Ok(Some(_)),
        0 <= index < pool.resources.len(),
        forall|j: int|
            0 <= j <= index ==> #[trigger] sound_verdict_at(r, source, pool, j)
                == Verdict::Rejected,
    ensures
        sound_search(r, source, pool) == first_decisive(
            sound_verdicts(
                r,
                sound_ranges(r).unwrap().unwrap().0,
                sound_ranges(r).unwrap().unwrap().1,
                source,
                pool,
            ),
            index + 1,
        ),
{
    let (count, table) = sound_ranges(r).unwrap().unwrap();
    let verdicts = sound_verdicts(r, count, table, source, pool);
    assert forall|j: int| 0 <= j <= index implies verdicts[j] == Verdict::Rejected by {
        assert(sound_verdict_at(r, source, pool, j) == Verdict::Rejected);
    }
    lemma_rejected_are_passed_over(verdicts, 0, index);
}

/// A resource is found for a bitmap tag only if every single entry compares
/// equal: the resource has as many entries as the tag, and entry by entry
/// the two sizes are the same and the two payloads exist and are the same,
/// byte for byte. One entry that differs keeps the resource from being
/// found.
pub proof fn lemma_bitmap_match_is_total(
    r: ResidentView,
    source: Seq<u8>,
    pool: PoolView,
    entry: int,
)
    requires
        pool.resources.len() <= usize::MAX,
        bitmap_search(r, source, pool) is Found,
        0 <= entry < bitmap_table(r).unwrap().0,
    ensures
        ({
            let lay = bitmap_entry_layout();
            let (count, table) = bitmap_table(r).unwrap();
            let index = bitmap_search(r, source, pool)->Found_0 as int;
            let data = pool.resources[index].data;
            let ours = block_at(table, entry, lay);
            let theirs = block_at(field(data, BITMAP_TABLE_AT as int), entry, lay);
            &&& 0 <= index < pool.resources.len()
            &&& field(data, crate::bitmap::BITMAP_COUNT_AT as int) == count
            &&& payload_size(r, ours, lay) == field(data, theirs + lay.size_at)
            &&& tag_payload(r, source, ours, lay).is_some()
            &&& tag_payload(r, source, ours, lay) == resource_payload(data, pool.bytes, theirs, lay)
        }),
{
    let lay = bitmap_entry_layout();
    let (count, table) = bitmap_table(r).unwrap();
    let verdicts = bitmap_verdicts(r, count, table, source, pool);
    lemma_first_decisive(verdicts, 0);
    let index = bitmap_search(r, source, pool)->Found_0 as int;
    let data = pool.resources[index].data;
    assert(verdicts[index] == Verdict::Accepted);
    lemma_accepted_blocks(
        r,
        source,
        table,
        data,
        field(data, BITMAP_TABLE_AT as int),
        pool.bytes,
        count,
        lay,
        entry,
    );
}

/// Where the ranges of a tag and of a resource are accepted, each single
/// range is.
pub proof fn lemma_accepted_ranges(
    r: ResidentView,
    source: Seq<u8>,
    t_range: int,
    data: Seq<u8>,
    d_range: int,
    dest: Seq<u8>,
    count: int,
    i: int,
)
    requires
        0 <= i < count,
        ranges_verdict(r, source, t_range, data, d_range, dest, count) == Verdict::Accepted,
    ensures
        range_verdict(r, source, t_range + i * RANGE_LEN, data, d_range + i * RANGE_LEN, dest)
            == Verdict::Accepted,
    decreases i,
{
    if i > 0 {
        lemma_accepted_ranges(
            r,
            source,
            t_range + RANGE_LEN,
            data,
            d_range + RANGE_LEN,
            dest,
            count - 1,
            i - 1,
        );
    }
}

/// A resource is found for a sound tag only if every single permutation of
/// every single range compares equal: the resource has as many ranges as
/// the tag, range by range the two have as many permutations, and
/// permutation by permutation the two sizes are the same and the two
/// payloads exist and are the same, byte for byte. One permutation that
/// differs keeps the resource from being found.
pub proof fn lemma_sound_match_is_total(
    r: ResidentView,
    source: Seq<u8>,
    pool: PoolView,
    range: int,
    permutation: int,
)
    requires
        pool.resources.len() <= usize::MAX,
        sound_search(r, source, pool) is Found,
        0 <= range < sound_ranges(r).unwrap().unwrap().0,
        0 <= permutation < table_count(
            r.structured,
            sound_ranges(r).unwrap().unwrap().1,
            range,
        ),
    ensures
        ({
            let lay = sound_permutation_layout();
            let (count, table) = sound_ranges(r).unwrap().unwrap();
            let index = sound_search(r, source, pool)->Found_0 as int;
            let data = pool.resources[index].data;
            let ours = block_at(table_span(r.structured, r.address, table, range).0, permutation, lay);
            let theirs = block_at(
                table_span(data, 0, RESOURCE_RANGES_AT as int, range).0 + RESOURCE_RANGES_AT,
                permutation,
                lay,
            );
            &&& 0 <= index < pool.resources.len()
            &&& field(data, crate::sound::SOUND_COUNT_AT as int) == count
            &&& table_count(data, RESOURCE_RANGES_AT as int, range) == table_count(
                r.structured,
                table,
                range,
            )
            &&& payload_size(r, ours, lay) == field(data, theirs + lay.size_at)
            &&& tag_payload(r, source, ours, lay).is_some()
            &&& tag_payload(r, source, ours, lay) == resource_payload(data, pool.bytes, theirs, lay)
        }),
{
    let lay = sound_permutation_layout();
    let (count, table) = sound_ranges(r).unwrap().unwrap();
    let verdicts = sound_verdicts(r, count, table, source, pool);
    lemma_first_decisive(verdicts, 0);
    let index = sound_search(r, source, pool)->Found_0 as int;
    let data = pool.resources[index].data;
    assert(verdicts[index] == Verdict::Accepted);
    lemma_accepted_ranges(
        r,
        source,
        table,
        data,
        RESOURCE_RANGES_AT as int,
        pool.bytes,
        count,
        range,
    );
    let (t_count, t_pointer) = range_fields(r.structured, table + range * RANGE_LEN);
    let (d_count, d_pointer) = range_fields(data, RESOURCE_RANGES_AT + range * RANGE_LEN);
    lemma_accepted_blocks(
        r,
        source,
        t_pointer - r.address,
        data,
        d_pointer + RESOURCE_RANGES_AT,
        pool.bytes,
        t_count,
        lay,
        permutation,
    );
}

} // verus!
