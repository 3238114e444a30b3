//! Sound tags: a table of 72-byte ranges, each of which points at a table of
//! 124-byte permutations with their sample payloads.

use crate::layout::{field, has_field, lemma_field_of_part, read_field};
use crate::matching::{blocks_verdict, compare_table, first_decisive, has_suffix, name_ends_with, Search, Verdict};
use crate::repack::{lemma_repack_blocks_keeps_shape, repack_blocks, repack_table, resident_view, sound_permutation, sound_permutation_layout};
use crate::tag::{pool_view, resolution_view, tag_fault, Fault, PoolView, Resident, ResidentView, Resolution, ResolutionView, Resource, ResourcePool, ResourceView};
use vstd::prelude::*;
use vstd::slice::{slice_subrange, slice_to_vec};

verus! {

/// Position of the range count in a sound tag and in a sound resource.
pub const SOUND_COUNT_AT: u64 = 0x98;

/// Position of the pointer to the range table in a sound tag.
pub const SOUND_TABLE_AT: u64 = 0x9C;

/// Position of the range table in a sound resource.
pub const RESOURCE_RANGES_AT: u64 = 0xA4;

/// Length of one range.
pub const RANGE_LEN: u64 = 0x48;

/// Position of the permutation count inside a range.
pub const RANGE_COUNT_AT: u64 = 0x3C;

/// Position of the pointer to the permutation table inside a range.
pub const RANGE_TABLE_AT: u64 = 0x40;

/// Length of one permutation.
pub const PERMUTATION_LEN: u64 = 124;

/// Names with this suffix belong to bulk sample data, not to sound
/// resources.
pub open spec fn samples_suffix() -> Seq<char> {
    seq!['_', '_', 's', 'a', 'm', 'p', 'l', 'e', 's']
}

/// The range table of a sound tag: `Ok(None)` for a tag without ranges and
/// `Ok(Some((count, table)))` for one with `count` ranges that start at
/// position `table` of the structured data. The count field is at fault
/// where it does not exist; the pointer field where, the count being
/// positive, it does not exist, the pointer lies below the tag's address, or
/// the table does not lie inside the structured data.
pub open spec fn sound_ranges(r: ResidentView) -> Result<Option<(int, int)>, Fault> {
    if !has_field(r.structured, SOUND_COUNT_AT as int) {
        Err(tag_fault(SOUND_COUNT_AT as int))
    } else {
        let count = field(r.structured, SOUND_COUNT_AT as int);
        if count == 0 {
            Ok(None)
        } else if !has_field(r.structured, SOUND_TABLE_AT as int) {
            Err(tag_fault(SOUND_TABLE_AT as int))
        } else {
            let pointer = field(r.structured, SOUND_TABLE_AT as int);
            if pointer < r.address || pointer - r.address + count * RANGE_LEN
                > r.structured.len() {
                Err(tag_fault(SOUND_TABLE_AT as int))
            } else {
                Ok(Some((count, pointer - r.address)))
            }
        }
    }
}

/// The permutation table that the range at position `range` of `data`
/// announces: its number of permutations and its pointer.
pub open spec fn range_fields(data: Seq<u8>, range: int) -> (int, int)
    recommends
        0 <= range,
        range + RANGE_LEN <= data.len(),
{
    (field(data, range + RANGE_COUNT_AT), field(data, range + RANGE_TABLE_AT))
}

/// Comparison of one range of the tag with one range of a resource: the two
/// permutation counts first, then, where they agree, every permutation in
/// turn. The tag's permutation pointer is a virtual address; the resource's
/// is relative to the start of its range table. A permutation table that
/// does not lie inside its buffer puts the range's pointer field at fault,
/// the tag's before the resource's.
pub open spec fn range_verdict(
    r: ResidentView,
    source: Seq<u8>,
    t_range: int,
    data: Seq<u8>,
    d_range: int,
    dest: Seq<u8>,
) -> Verdict
    recommends
        0 <= t_range,
        t_range + RANGE_LEN <= r.structured.len(),
        0 <= d_range,
        d_range + RANGE_LEN <= data.len(),
{
    let (t_count, t_pointer) = range_fields(r.structured, t_range);
    let (d_count, d_pointer) = range_fields(data, d_range);
    if t_count != d_count {
        Verdict::Rejected
    } else if t_pointer < r.address || t_pointer - r.address + t_count * PERMUTATION_LEN
        > r.structured.len() {
        Verdict::TagMalformed { position: (t_range + RANGE_TABLE_AT) as u64 }
    } else if d_pointer + RESOURCE_RANGES_AT + d_count * PERMUTATION_LEN > data.len() {
        Verdict::ResourceMalformed { position: (d_range + RANGE_TABLE_AT) as u64 }
    } else {
        blocks_verdict(
            r,
            source,
            t_pointer - r.address,
            data,
            d_pointer + RESOURCE_RANGES_AT,
            dest,
            t_count,
            sound_permutation_layout(),
        )
    }
}

/// Comparison of `remaining` consecutive ranges of the tag, from `t_range`
/// on, with as many consecutive ranges of a resource, from `d_range` on. The
/// ranges are taken in ascending order and the first one that is not
/// accepted decides.
pub open spec fn ranges_verdict(
    r: ResidentView,
    source: Seq<u8>,
    t_range: int,
    data: Seq<u8>,
    d_range: int,
    dest: Seq<u8>,
    remaining: int,
) -> Verdict
    decreases remaining,
{
    if remaining <= 0 {
        Verdict::Accepted
    } else {
        match range_verdict(r, source, t_range, data, d_range, dest) {
            Verdict::Accepted => ranges_verdict(
                r,
                source,
                t_range + RANGE_LEN,
                data,
                d_range + RANGE_LEN,
                dest,
                remaining - 1,
            ),
            other => other,
        }
    }
}

/// Comparison of a sound tag that has `count` ranges at `table` with one
/// resource of the destination pool.
///
/// A resource with the bulk sample suffix is no candidate, and neither is
/// one whose range count differs. Otherwise every range is compared in turn,
/// the resource's range table standing at a fixed position.
pub open spec fn sound_candidate(
    r: ResidentView,
    count: int,
    table: int,
    source: Seq<u8>,
    resource: ResourceView,
    dest: Seq<u8>,
) -> Verdict {
    if has_suffix(resource.name, samples_suffix()) {
        Verdict::Rejected
    } else if !has_field(resource.data, SOUND_COUNT_AT as int) {
        Verdict::ResourceMalformed { position: SOUND_COUNT_AT }
    } else if field(resource.data, SOUND_COUNT_AT as int) != count {
        Verdict::Rejected
    } else if RESOURCE_RANGES_AT + count * RANGE_LEN > resource.data.len() {
        Verdict::ResourceMalformed { position: SOUND_COUNT_AT }
    } else {
        ranges_verdict(r, source, table, resource.data, RESOURCE_RANGES_AT as int, dest, count)
    }
}

/// The verdict on every resource of the pool, in pool order.
pub open spec fn sound_verdicts(
    r: ResidentView,
    count: int,
    table: int,
    source: Seq<u8>,
    pool: PoolView,
) -> Seq<Verdict> {
    Seq::new(
        pool.resources.len(),
        |i: int| sound_candidate(r, count, table, source, pool.resources[i], pool.bytes),
    )
}

/// What repacking does to `remaining` consecutive ranges, the first of which
/// stands at position `range`: the permutations of each range in turn, in
/// ascending order. Where a range's permutations stand is read from
/// `snapshot`, the structured data as it was before any repacking; the
/// permutations themselves are read from the data that the ranges before
/// left behind. A permutation table that does not lie inside the structured
/// data puts the range's pointer field at fault and ends the run, as does a
/// permutation that cannot be repacked.
pub open spec fn repack_ranges(
    r: ResidentView,
    snapshot: Seq<u8>,
    source: Seq<u8>,
    range: int,
    remaining: int,
) -> Result<ResidentView, Fault>
    decreases remaining,
{
    if remaining <= 0 {
        Ok(r)
    } else {
        let (count, pointer) = range_fields(snapshot, range);
        if pointer < r.address || pointer - r.address + count * PERMUTATION_LEN
            > r.structured.len() {
            Err(tag_fault(range + RANGE_TABLE_AT))
        } else {
            match repack_blocks(
                r,
                source,
                pointer - r.address,
                count,
                sound_permutation_layout(),
            ) {
                Ok(next) => repack_ranges(
                    next,
                    snapshot,
                    source,
                    range + RANGE_LEN,
                    remaining - 1,
                ),
                Err(fault) => Err(fault),
            }
        }
    }
}

/// The sound tag with every permutation repacked whose payload still lived
/// in the source pool. A tag without ranges stays as it is.
pub open spec fn sound_repacked(r: ResidentView, source: Seq<u8>) -> Result<ResidentView, Fault> {
    match sound_ranges(r) {
        Ok(Some((count, table))) => repack_ranges(r, r.structured, source, table, count),
        Ok(None) => Ok(r),
        Err(fault) => Err(fault),
    }
}

/// The first resource of the pool, in pool order, that matches the sound
/// tag in full. A tag without ranges matches nothing.
pub open spec fn sound_search(r: ResidentView, source: Seq<u8>, pool: PoolView) -> Search {
    match sound_ranges(r) {
        Ok(Some((count, table))) => first_decisive(
            sound_verdicts(r, count, table, source, pool),
            0,
        ),
        Ok(None) => Search::NotFound,
        Err(fault) => Search::Malformed(fault),
    }
}

/// What becomes of a sound tag: it is matched with the first resource that
/// is the same in full, where a destination pool is given and holds one, and
/// repacked otherwise. A tag without ranges stays as it is. The first fault
/// met, in the tag or in a resource looked at, ends it.
pub open spec fn sound_resolved(
    r: ResidentView,
    source: Seq<u8>,
    dest: Option<PoolView>,
) -> Result<ResolutionView, Fault> {
    let found = match dest {
        Some(pool) => sound_search(r, source, pool),
        None => Search::NotFound,
    };
    match found {
        Search::Found(index) => Ok(ResolutionView::Matched(index)),
        Search::Malformed(fault) => Err(fault),
        Search::NotFound => match sound_repacked(r, source) {
            Ok(repacked) => Ok(ResolutionView::Repacked(repacked)),
            Err(fault) => Err(fault),
        },
    }
}

/// Reads the range count and the position of the range table of a sound tag.
pub fn read_sound_ranges(resident: &Resident) -> (r: Result<Option<(u32, u64)>, Fault>)
    ensures
        match r {
            Ok(Some((count, table))) => sound_ranges(resident@) == Ok::<
                Option<(int, int)>,
                Fault,
            >(Some((count as int, table as int))),
            Ok(None) => sound_ranges(resident@) == Ok::<Option<(int, int)>, Fault>(None),
            Err(fault) => sound_ranges(resident@) == Err::<Option<(int, int)>, Fault>(fault),
        },
{
    let data = resident.structured_data.as_slice();
    let count: u32 = match read_field(data, SOUND_COUNT_AT) {
        Some(n) => n,
        None => {
            return Err(Fault { resource: None, position: SOUND_COUNT_AT });
        },
    };
    if count == 0 {
        return Ok(None);
    }
    let pointer: u32 = match read_field(data, SOUND_TABLE_AT) {
        Some(n) => n,
        None => {
            return Err(Fault { resource: None, position: SOUND_TABLE_AT });
        },
    };
    if pointer < resident.memory_address {
        return Err(Fault { resource: None, position: SOUND_TABLE_AT });
    }
    let table: u64 = (pointer - resident.memory_address) as u64;
    if table + count as u64 * RANGE_LEN > data.len() as u64 {
        return Err(Fault { resource: None, position: SOUND_TABLE_AT });
    }
    Ok(Some((count, table)))
}

/// Compares one range of the tag with one range of a resource.
pub(crate) fn compare_range(
    resident: &Resident,
    source: &[u8],
    t_range: u64,
    data: &[u8],
    d_range: u64,
    dest: &[u8],
) -> (v: Verdict)
    requires
        t_range + RANGE_LEN <= resident.structured_data@.len(),
        d_range + RANGE_LEN <= data@.len(),
    ensures
        v == range_verdict(resident@, source@, t_range as int, data@, d_range as int, dest@),
{
    let ours = resident.structured_data.as_slice();
    let t_len: usize = ours.len();
    let d_len: usize = data.len();
    let t_count: u32 = read_field(ours, t_range + RANGE_COUNT_AT).unwrap();
    let d_count: u32 = read_field(data, d_range + RANGE_COUNT_AT).unwrap();
    if t_count != d_count {
        return Verdict::Rejected;
    }
    let t_pointer: u32 = read_field(ours, t_range + RANGE_TABLE_AT).unwrap();
    let d_pointer: u32 = read_field(data, d_range + RANGE_TABLE_AT).unwrap();
    if t_pointer < resident.memory_address {
        return Verdict::TagMalformed { position: t_range + RANGE_TABLE_AT };
    }
    let t_table: u64 = (t_pointer - resident.memory_address) as u64;
    let d_table: u64 = d_pointer as u64 + RESOURCE_RANGES_AT;
    if t_table + t_count as u64 * PERMUTATION_LEN > t_len as u64 {
        return Verdict::TagMalformed { position: t_range + RANGE_TABLE_AT };
    }
    if d_table + d_count as u64 * PERMUTATION_LEN > d_len as u64 {
        return Verdict::ResourceMalformed { position: d_range + RANGE_TABLE_AT };
    }
    compare_table(resident, source, t_table, data, d_table, dest, t_count, sound_permutation())
}

/// Compares `count` consecutive ranges of the tag, from `t_table` on, with
/// as many consecutive ranges of a resource, from `d_table` on.
pub(crate) fn compare_ranges(
    resident: &Resident,
    source: &[u8],
    t_table: u64,
    data: &[u8],
    d_table: u64,
    dest: &[u8],
    count: u32,
) -> (v: Verdict)
    requires
        t_table + count * RANGE_LEN <= resident.structured_data@.len(),
        d_table + count * RANGE_LEN <= data@.len(),
    ensures
        v == ranges_verdict(
            resident@,
            source@,
            t_table as int,
            data@,
            d_table as int,
            dest@,
            count as int,
        ),
{
    let d_len: usize = data.len();
    let t_len: usize = resident.structured_data.len();
    let mut t_range: u64 = t_table;
    let mut d_range: u64 = d_table;
    let mut done: u32 = 0;
    while done < count
        invariant
            done <= count,
            t_len == resident.structured_data@.len(),
            d_len == data@.len(),
            t_range + (count - done) * RANGE_LEN <= t_len,
            d_range + (count - done) * RANGE_LEN <= d_len,
            ranges_verdict(
                resident@,
                source@,
                t_range as int,
                data@,
                d_range as int,
                dest@,
                count - done,
            ) == ranges_verdict(
                resident@,
                source@,
                t_table as int,
                data@,
                d_table as int,
                dest@,
                count as int,
            ),
        decreases count - done,
    {
        match compare_range(resident, source, t_range, data, d_range, dest) {
            Verdict::Accepted => {},
            other => {
                return other;
            },
        }
        t_range = t_range + RANGE_LEN;
        d_range = d_range + RANGE_LEN;
        done = done + 1;
    }
    Verdict::Accepted
}

/// Compares a sound tag that has `count` ranges at `table` with one resource
/// of the destination pool.
pub(crate) fn compare_sound_resource(
    resident: &Resident,
    count: u32,
    table: u64,
    source: &[u8],
    resource: &Resource,
    dest: &[u8],
) -> (v: Verdict)
    requires
        table + count * RANGE_LEN <= resident.structured_data@.len(),
    ensures
        v == sound_candidate(resident@, count as int, table as int, source@, resource@, dest@),
{
    proof {
        reveal_strlit("__samples");
        assert("__samples"@ =~= samples_suffix());
    }
    if name_ends_with(resource.name.as_str(), "__samples") {
        return Verdict::Rejected;
    }
    let data = resource.data.as_slice();
    let d_len: usize = data.len();
    let theirs: u32 = match read_field(data, SOUND_COUNT_AT) {
        Some(n) => n,
        None => {
            return Verdict::ResourceMalformed { position: SOUND_COUNT_AT };
        },
    };
    if theirs != count {
        return Verdict::Rejected;
    }
    if RESOURCE_RANGES_AT + count as u64 * RANGE_LEN > d_len as u64 {
        return Verdict::ResourceMalformed { position: SOUND_COUNT_AT };
    }
    compare_ranges(resident, source, table, data, RESOURCE_RANGES_AT, dest, count)
}

/// Looks through the destination pool for the first resource that matches
/// the sound tag in full.
pub fn find_sound_resource(resident: &Resident, source: &[u8], pool: &ResourcePool) -> (found:
    Search)
    ensures
        found == sound_search(resident@, source@, pool@),
{
    let (count, table) = match read_sound_ranges(resident) {
        Ok(Some(header)) => header,
        Ok(None) => {
            return Search::NotFound;
        },
        Err(fault) => {
            return Search::Malformed(fault);
        },
    };
    let ghost verdicts = sound_verdicts(resident@, count as int, table as int, source@, pool@);
    let n: usize = pool.resources.len();
    let mut i: usize = 0;
    while i < n
        invariant
            i <= n == pool.resources@.len(),
            table + count * RANGE_LEN <= resident.structured_data@.len(),
            sound_ranges(resident@) == Ok::<Option<(int, int)>, Fault>(
                Some((count as int, table as int)),
            ),
            verdicts == sound_verdicts(resident@, count as int, table as int, source@, pool@),
            first_decisive(verdicts, i as int) == first_decisive(verdicts, 0),
        decreases n - i,
    {
        let v = compare_sound_resource(
            resident,
            count,
            table,
            source,
            &pool.resources[i],
            pool.bytes.as_slice(),
        );
        assert(pool@.resources[i as int] == pool.resources@[i as int]@);
        assert(verdicts[i as int] == v);
        match v {
            Verdict::Accepted => {
                return Search::Found(i);
            },
            Verdict::Rejected => {},
            Verdict::TagMalformed { position } => {
                return Search::Malformed(Fault { resource: None, position });
            },
            Verdict::ResourceMalformed { position } => {
                return Search::Malformed(Fault { resource: Some(i), position });
            },
        }
        i = i + 1;
    }
    Search::NotFound
}

/// Repacks every permutation of a sound tag whose payload still lives in the
/// source pool.
pub fn repack_sound(resident: Resident, source: &[u8]) -> (r: Result<Resident, Fault>)
    ensures
        resident_view(r) == sound_repacked(resident@, source@),
{
    let (count, table) = match read_sound_ranges(&resident) {
        Ok(Some(header)) => header,
        Ok(None) => {
            return Ok(resident);
        },
        Err(fault) => {
            return Err(fault);
        },
    };
    let ghost start = resident@;
    let address: u32 = resident.memory_address;
    let total: usize = resident.structured_data.len();
    let ranges: Vec<u8> = slice_to_vec(
        slice_subrange(
            resident.structured_data.as_slice(),
            table as usize,
            (table + count as u64 * RANGE_LEN) as usize,
        ),
    );
    let mut current = resident;
    let mut at: u64 = 0;
    let mut done: u32 = 0;
    while done < count
        invariant
            done <= count,
            start == resident@,
            sound_ranges(start) == Ok::<Option<(int, int)>, Fault>(
                Some((count as int, table as int)),
            ),
            table + count * RANGE_LEN <= total == start.structured.len(),
            ranges@ == start.structured.subrange(table as int, table + count * RANGE_LEN),
            at == done * RANGE_LEN,
            current.memory_address == address == start.address,
            current.structured_data@.len() == total,
            repack_ranges(current@, start.structured, source@, table + at, count - done)
                == repack_ranges(start, start.structured, source@, table as int, count as int),
        decreases count - done,
    {
        let p_count: u32 = read_field(ranges.as_slice(), at + RANGE_COUNT_AT).unwrap();
        let pointer: u32 = read_field(ranges.as_slice(), at + RANGE_TABLE_AT).unwrap();
        proof {
            let end = table + count * RANGE_LEN;
            lemma_field_of_part(start.structured, table as int, end, at + RANGE_COUNT_AT);
            lemma_field_of_part(start.structured, table as int, end, at + RANGE_TABLE_AT);
        }
        if pointer < address {
            return Err(Fault { resource: None, position: table + at + RANGE_TABLE_AT });
        }
        let p_table: u64 = (pointer - address) as u64;
        if p_table + p_count as u64 * PERMUTATION_LEN > total as u64 {
            return Err(Fault { resource: None, position: table + at + RANGE_TABLE_AT });
        }
        proof {
            lemma_repack_blocks_keeps_shape(
                current@,
                source@,
                p_table as int,
                p_count as int,
                sound_permutation_layout(),
            );
        }
        match repack_table(current, source, p_table, p_count, sound_permutation()) {
            Ok(next) => {
                current = next;
            },
            Err(fault) => {
                return Err(fault);
            },
        }
        at = at + RANGE_LEN;
        done = done + 1;
    }
    Ok(current)
}

/// Resolves a sound tag: finds the first resource of the destination pool
/// that matches it in full, or repacks it where there is no such resource or
/// no pool. The error says where malformed data was met.
pub fn resolve_sound(resident: Resident, source: &[u8], dest: Option<&ResourcePool>) -> (r:
    Result<Resolution, Fault>)
    ensures
        resolution_view(r) == sound_resolved(resident@, source@, pool_view(dest)),
{
    let found = match dest {
        Some(pool) => find_sound_resource(&resident, source, pool),
        None => Search::NotFound,
    };
    match found {
        Search::Found(index) => Ok(Resolution::Matched(index)),
        Search::Malformed(fault) => Err(fault),
        Search::NotFound => match repack_sound(resident, source) {
            Ok(repacked) => Ok(Resolution::Repacked(repacked)),
            Err(fault) => Err(fault),
        },
    }
}

} // verus!
