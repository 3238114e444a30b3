//! Bitmap tags: a flat table of 48-byte entries, each with its pixel payload.

use crate::layout::{field, has_field, read_field};
use crate::matching::{blocks_verdict, compare_table, first_decisive, has_suffix, name_ends_with, Search, Verdict};
use crate::repack::{bitmap_entry, bitmap_entry_layout, repack_blocks, repack_table, resident_view};
use crate::tag::{pool_view, resolution_view, tag_fault, Fault, PoolView, Resident, ResidentView, Resolution, ResolutionView, Resource, ResourcePool, ResourceView};
use vstd::prelude::*;

verus! {

/// Position of the entry count in a bitmap tag and in a bitmap resource.
pub const BITMAP_COUNT_AT: u64 = 0x60;

/// Position of the pointer to the entry table in a bitmap tag and in a
/// bitmap resource.
pub const BITMAP_TABLE_AT: u64 = 0x64;

/// Names with this suffix belong to bulk pixel data, not to bitmap resources.
pub open spec fn pixels_suffix() -> Seq<char> {
    seq!['_', '_', 'p', 'i', 'x', 'e', 'l', 's']
}

/// The number of entries of a bitmap tag and the position of its entry table
/// in the structured data. The table pointer is a virtual address and is
/// taken relative to the tag's own address. The count field is at fault
/// where it does not exist; the pointer field where it does not exist, the
/// pointer lies below the tag's address, or the table would start behind the
/// end of the structured data.
pub open spec fn bitmap_table(r: ResidentView) -> Result<(int, int), Fault> {
    if !has_field(r.structured, BITMAP_COUNT_AT as int) {
        Err(tag_fault(BITMAP_COUNT_AT as int))
    } else if !has_field(r.structured, BITMAP_TABLE_AT as int) {
        Err(tag_fault(BITMAP_TABLE_AT as int))
    } else {
        let pointer = field(r.structured, BITMAP_TABLE_AT as int);
        if pointer < r.address || pointer - r.address > r.structured.len() {
            Err(tag_fault(BITMAP_TABLE_AT as int))
        } else {
            Ok((field(r.structured, BITMAP_COUNT_AT as int), pointer - r.address))
        }
    }
}

/// Comparison of a bitmap tag that has `count` entries at `table` with one
/// resource of the destination pool.
///
/// A resource with the bulk pixel suffix is no candidate, and neither is one
/// whose entry count differs. Otherwise every entry is compared in turn, the
/// resource's table standing at the position that its table field gives.
pub open spec fn bitmap_candidate(
    r: ResidentView,
    count: int,
    table: int,
    source: Seq<u8>,
    resource: ResourceView,
    dest: Seq<u8>,
) -> Verdict {
    if has_suffix(resource.name, pixels_suffix()) {
        Verdict::Rejected
    } else if !has_field(resource.data, BITMAP_COUNT_AT as int) {
        Verdict::ResourceMalformed { position: BITMAP_COUNT_AT }
    } else if field(resource.data, BITMAP_COUNT_AT as int) != count {
        Verdict::Rejected
    } else if !has_field(resource.data, BITMAP_TABLE_AT as int) || field(
        resource.data,
        BITMAP_TABLE_AT as int,
    ) > resource.data.len() {
        Verdict::ResourceMalformed { position: BITMAP_TABLE_AT }
    } else {
        blocks_verdict(
            r,
            source,
            table,
            resource.data,
            field(resource.data, BITMAP_TABLE_AT as int),
            dest,
            count,
            bitmap_entry_layout(),
        )
    }
}

/// The verdict on every resource of the pool, in pool order.
pub open spec fn bitmap_verdicts(
    r: ResidentView,
    count: int,
    table: int,
    source: Seq<u8>,
    pool: PoolView,
) -> Seq<Verdict> {
    Seq::new(
        pool.resources.len(),
        |i: int| bitmap_candidate(r, count, table, source, pool.resources[i], pool.bytes),
    )
}

/// The first resource of the pool, in pool order, that matches the bitmap
/// tag in full.
pub open spec fn bitmap_search(r: ResidentView, source: Seq<u8>, pool: PoolView) -> Search {
    match bitmap_table(r) {
        Ok((count, table)) => first_decisive(bitmap_verdicts(r, count, table, source, pool), 0),
        Err(fault) => Search::Malformed(fault),
    }
}

/// The bitmap tag with every entry repacked whose payload still lived in the
/// source pool.
pub open spec fn bitmap_repacked(r: ResidentView, source: Seq<u8>) -> Result<ResidentView, Fault> {
    match bitmap_table(r) {
        Ok((count, table)) => repack_blocks(r, source, table, count, bitmap_entry_layout()),
        Err(fault) => Err(fault),
    }
}

/// What becomes of a bitmap tag: it is matched with the first resource that
/// is the same in full, where a destination pool is given and holds one, and
/// repacked otherwise. The first fault met, in the tag or in a resource
/// looked at, ends it.
pub open spec fn bitmap_resolved(
    r: ResidentView,
    source: Seq<u8>,
    dest: Option<PoolView>,
) -> Result<ResolutionView, Fault> {
    let found = match dest {
        Some(pool) => bitmap_search(r, source, pool),
        None => Search::NotFound,
    };
    match found {
        Search::Found(index) => Ok(ResolutionView::Matched(index)),
        Search::Malformed(fault) => Err(fault),
        Search::NotFound => match bitmap_repacked(r, source) {
            Ok(repacked) => Ok(ResolutionView::Repacked(repacked)),
            Err(fault) => Err(fault),
        },
    }
}

/// Reads the entry count and the position of the entry table of a bitmap tag.
pub fn read_bitmap_table(resident: &Resident) -> (r: Result<(u32, u64), Fault>)
    ensures
        match r {
            Ok((count, table)) => bitmap_table(resident@) == Ok::<(int, int), Fault>(
                (count as int, table as int),
            ),
            Err(fault) => bitmap_table(resident@) == Err::<(int, int), Fault>(fault),
        },
{
    let data = resident.structured_data.as_slice();
    let count: u32 = match read_field(data, BITMAP_COUNT_AT) {
        Some(n) => n,
        None => {
            return Err(Fault { resource: None, position: BITMAP_COUNT_AT });
        },
    };
    let pointer: u32 = match read_field(data, BITMAP_TABLE_AT) {
        Some(n) => n,
        None => {
            return Err(Fault { resource: None, position: BITMAP_TABLE_AT });
        },
    };
    if pointer < resident.memory_address {
        return Err(Fault { resource: None, position: BITMAP_TABLE_AT });
    }
    let table: u64 = (pointer - resident.memory_address) as u64;
    if table > data.len() as u64 {
        return Err(Fault { resource: None, position: BITMAP_TABLE_AT });
    }
    Ok((count, table))
}

/// Compares a bitmap tag that has `count` entries at `table` with one
/// resource of the destination pool.
pub(crate) fn compare_bitmap_resource(
    resident: &Resident,
    count: u32,
    table: u64,
    source: &[u8],
    resource: &Resource,
    dest: &[u8],
) -> (v: Verdict)
    requires
        table <= resident.structured_data@.len(),
    ensures
        v == bitmap_candidate(resident@, count as int, table as int, source@, resource@, dest@),
{
    proof {
        reveal_strlit("__pixels");
        assert("__pixels"@ =~= pixels_suffix());
    }
    if name_ends_with(resource.name.as_str(), "__pixels") {
        return Verdict::Rejected;
    }
    let data = resource.data.as_slice();
    let theirs: u32 = match read_field(data, BITMAP_COUNT_AT) {
        Some(n) => n,
        None => {
            return Verdict::ResourceMalformed { position: BITMAP_COUNT_AT };
        },
    };
    if theirs != count {
        return Verdict::Rejected;
    }
    let d_table: u32 = match read_field(data, BITMAP_TABLE_AT) {
        Some(n) => n,
        None => {
            return Verdict::ResourceMalformed { position: BITMAP_TABLE_AT };
        },
    };
    if d_table as u64 > data.len() as u64 {
        return Verdict::ResourceMalformed { position: BITMAP_TABLE_AT };
    }
    compare_table(resident, source, table, data, d_table as u64, dest, count, bitmap_entry())
}

/// Looks through the destination pool for the first resource that matches
/// the bitmap tag in full.
pub fn find_bitmap_resource(resident: &Resident, source: &[u8], pool: &ResourcePool) -> (found:
    Search)
    ensures
        found == bitmap_search(resident@, source@, pool@),
{
    let (count, table) = match read_bitmap_table(resident) {
        Ok(header) => header,
        Err(fault) => {
            return Search::Malformed(fault);
        },
    };
    let ghost verdicts = bitmap_verdicts(resident@, count as int, table as int, source@, pool@);
    let n: usize = pool.resources.len();
    let mut i: usize = 0;
    while i < n
        invariant
            i <= n == pool.resources@.len(),
            table <= resident.structured_data@.len(),
            bitmap_table(resident@) == Ok::<(int, int), Fault>((count as int, table as int)),
            verdicts == bitmap_verdicts(resident@, count as int, table as int, source@, pool@),
            first_decisive(verdicts, i as int) == first_decisive(verdicts, 0),
        decreases n - i,
    {
        let v = compare_bitmap_resource(
            resident,
            count,
            table,
            source,
            &pool.resources[i],
            pool.bytes.as_slice(),
        );
        assert(pool@.resources[i as int] == pool.resources@[i as int]@);
        assert(verdicts[i as int] == v);
        match v {
            Verdict::Accepted => {
                return Search::Found(i);
            },
            Verdict::Rejected => {},
            Verdict::TagMalformed { position } => {
                return Search::Malformed(Fault { resource: None, position });
            },
            Verdict::ResourceMalformed { position } => {
                return Search::Malformed(Fault { resource: Some(i), position });
            },
        }
        i = i + 1;
    }
    Search::NotFound
}

/// Repacks every entry of a bitmap tag whose payload still lives in the
/// source pool.
pub fn repack_bitmap(resident: Resident, source: &[u8]) -> (r: Result<Resident, Fault>)
    ensures
        resident_view(r) == bitmap_repacked(resident@, source@),
{
    let (count, table) = match read_bitmap_table(&resident) {
        Ok(header) => header,
        Err(fault) => {
            return Err(fault);
        },
    };
    repack_table(resident, source, table, count, bitmap_entry())
}

/// Resolves a bitmap tag: finds the first resource of the destination pool
/// that matches it in full, or repacks it where there is no such resource or
/// no pool. The error says where malformed data was met.
pub fn resolve_bitmap(resident: Resident, source: &[u8], dest: Option<&ResourcePool>) -> (r:
    Result<Resolution, Fault>)
    ensures
        resolution_view(r) == bitmap_resolved(resident@, source@, pool_view(dest)),
{
    let found = match dest {
        Some(pool) => find_bitmap_resource(&resident, source, pool),
        None => Search::NotFound,
    };
    match found {
        Search::Found(index) => Ok(Resolution::Matched(index)),
        Search::Malformed(fault) => Err(fault),
        Search::NotFound => match repack_bitmap(resident, source) {
            Ok(repacked) => Ok(Resolution::Repacked(repacked)),
            Err(fault) => Err(fault),
        },
    }
}

} // verus!
