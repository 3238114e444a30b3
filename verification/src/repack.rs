//! Repacking: moving payloads from the source runtime's shared pool into a
//! tag's private asset stream.
//!
//! Bitmap entries and sound permutations are blocks of one shape: a flag byte
//! whose bit 0 says that the payload still lives in the shared pool, a
//! four-byte payload size and a four-byte payload offset. What differs is
//! where in the block they stand, which a [`BlockLayout`] records.

use crate::layout::{clear_flag, field, flag_set, lemma_with_field, read_field, read_flag, window, window_fits, with_field, without_flag, write_field};
use crate::tag::{tag_fault, Fault, Resident, ResidentView};
use vstd::prelude::*;
use vstd::slice::slice_subrange;

verus! {

/// Where a block keeps its flag byte, its payload size and its payload
/// offset, and how long the block is.
#[derive(Clone, Copy, Debug, PartialEq, Eq)]
pub struct BlockLayout {
    pub len: u64,
    pub flag_at: u64,
    pub size_at: u64,
    pub offset_at: u64,
}

impl BlockLayout {
    /// The block is at most 4096 bytes long, the three fields lie inside it,
    /// and the flag byte lies outside the two four-byte fields, which do not
    /// overlap each other.
    pub open spec fn wf(self) -> bool {
        &&& self.len <= 0x1000
        &&& self.flag_at < self.len
        &&& self.size_at + 4 <= self.len
        &&& self.offset_at + 4 <= self.len
        &&& (self.flag_at < self.size_at || self.size_at + 4 <= self.flag_at)
        &&& (self.flag_at < self.offset_at || self.offset_at + 4 <= self.flag_at)
        &&& (self.size_at + 4 <= self.offset_at || self.offset_at + 4 <= self.size_at)
    }
}

/// Layout of one 48-byte entry of a bitmap tag.
pub open spec fn bitmap_entry_layout() -> BlockLayout {
    BlockLayout { len: 48, flag_at: 0x0F, size_at: 0x1C, offset_at: 0x18 }
}

/// Layout of one 124-byte permutation of a sound tag.
pub open spec fn sound_permutation_layout() -> BlockLayout {
    BlockLayout { len: 124, flag_at: 0x44, size_at: 0x40, offset_at: 0x48 }
}

/// The layout of a bitmap entry.
pub fn bitmap_entry() -> (lay: BlockLayout)
    ensures
        lay == bitmap_entry_layout(),
        lay.wf(),
{
    BlockLayout { len: 48, flag_at: 0x0F, size_at: 0x1C, offset_at: 0x18 }
}

/// The layout of a sound permutation.
pub fn sound_permutation() -> (lay: BlockLayout)
    ensures
        lay == sound_permutation_layout(),
        lay.wf(),
{
    BlockLayout { len: 124, flag_at: 0x44, size_at: 0x40, offset_at: 0x48 }
}

/// The bytes of an asset stream; a stream that does not exist yet has none.
pub open spec fn stream_bytes(asset: Option<Seq<u8>>) -> Seq<u8> {
    match asset {
        Some(bytes) => bytes,
        None => Seq::empty(),
    }
}

/// The model of a resident part or of the fault that was met instead.
pub open spec fn resident_view(r: Result<Resident, Fault>) -> Result<ResidentView, Fault> {
    match r {
        Ok(resident) => Ok(resident@),
        Err(fault) => Err(fault),
    }
}

/// What repacking does to the block at position `block`.
///
/// A block whose flag is clear is left alone. Otherwise its payload, the
/// `size` bytes of `pool` from `offset` on, is appended to the asset stream,
/// the block's offset field is set to the position in the stream at which the
/// payload now starts, and bit 0 of its flag byte is cleared; the other bits
/// of the flag byte stay as they are. The block's offset
/// field is at fault where the payload does not lie inside `pool` and where
/// the stream is already too long for its length to fit into the field.
pub open spec fn repack_block(
    r: ResidentView,
    pool: Seq<u8>,
    block: int,
    lay: BlockLayout,
) -> Result<ResidentView, Fault>
    recommends
        lay.wf(),
        0 <= block,
        block + lay.len <= r.structured.len(),
{
    if !flag_set(r.structured, block + lay.flag_at) {
        Ok(r)
    } else {
        let size = field(r.structured, block + lay.size_at);
        let offset = field(r.structured, block + lay.offset_at);
        let stream = stream_bytes(r.asset);
        match window(pool, offset, size) {
            Some(payload) => if stream.len() <= u32::MAX {
                Ok(
                    ResidentView {
                        structured: with_field(
                            r.structured,
                            block + lay.offset_at,
                            stream.len() as u32,
                        ).update(
                            block + lay.flag_at,
                            without_flag(r.structured[block + lay.flag_at]),
                        ),
                        asset: Some(stream + payload),
                        address: r.address,
                    },
                )
            } else {
                Err(tag_fault(block + lay.offset_at))
            },
            None => Err(tag_fault(block + lay.offset_at)),
        }
    }
}

/// What repacking does to `remaining` consecutive blocks, the first of which
/// stands at position `block`: each block in turn, in ascending order, as
/// [`repack_block`] says, on the data that the blocks before it left behind.
/// The first block that does not lie inside the structured data, or that
/// cannot be repacked, ends the run with its fault.
pub open spec fn repack_blocks(
    r: ResidentView,
    pool: Seq<u8>,
    block: int,
    remaining: int,
    lay: BlockLayout,
) -> Result<ResidentView, Fault>
    decreases remaining,
{
    if remaining <= 0 {
        Ok(r)
    } else if block + lay.len > r.structured.len() {
        Err(tag_fault(block))
    } else {
        match repack_block(r, pool, block, lay) {
            Ok(next) => repack_blocks(next, pool, block + lay.len, remaining - 1, lay),
            Err(fault) => Err(fault),
        }
    }
}

/// Repacking a block changes neither the length of the structured data nor
/// the tag's address, and it leaves a stream behind whenever there was one.
pub proof fn lemma_repack_block_keeps_shape(
    r: ResidentView,
    pool: Seq<u8>,
    block: int,
    lay: BlockLayout,
)
    requires
        lay.wf(),
        0 <= block,
        block + lay.len <= r.structured.len(),
    ensures
        repack_block(r, pool, block, lay) matches Ok(next) ==> {
            &&& next.structured.len() == r.structured.len()
            &&& next.address == r.address
            &&& r.asset.is_some() ==> next.asset.is_some()
        },
{
    if flag_set(r.structured, block + lay.flag_at) && stream_bytes(r.asset).len() <= u32::MAX {
        lemma_with_field(r.structured, block + lay.offset_at, stream_bytes(r.asset).len() as u32);
    }
}

/// Repacking a run of blocks changes neither the length of the structured
/// data nor the tag's address, and it leaves a stream behind whenever there
/// was one.
pub proof fn lemma_repack_blocks_keeps_shape(
    r: ResidentView,
    pool: Seq<u8>,
    block: int,
    remaining: int,
    lay: BlockLayout,
)
    requires
        lay.wf(),
        0 <= block,
    ensures
        repack_blocks(r, pool, block, remaining, lay) matches Ok(last) ==> {
            &&& last.structured.len() == r.structured.len()
            &&& last.address == r.address
            &&& r.asset.is_some() ==> last.asset.is_some()
        },
    decreases remaining,
{
    if remaining > 0 && block + lay.len <= r.structured.len() {
        lemma_repack_block_keeps_shape(r, pool, block, lay);
        if let Ok(next) = repack_block(r, pool, block, lay) {
            lemma_repack_blocks_keeps_shape(next, pool, block + lay.len, remaining - 1, lay);
        }
    }
}

/// Repacks the block at position `block`.
pub(crate) fn repack_one(resident: Resident, pool: &[u8], block: u64, lay: BlockLayout) -> (r: Result<
    Resident,
    Fault,
>)
    requires
        lay.wf(),
        block + lay.len <= resident.structured_data@.len(),
    ensures
        resident_view(r) == repack_block(resident@, pool@, block as int, lay),
{
    let Resident { structured_data, asset_data, memory_address } = resident;
    let mut data = structured_data;
    let ghost before = data@;
    let len: usize = data.len();
    assert(block + lay.len <= len);
    let flag_at: usize = (block + lay.flag_at) as usize;
    if !read_flag(data.as_slice(), flag_at) {
        return Ok(Resident { structured_data: data, asset_data, memory_address });
    }
    let size: u32 = read_field(data.as_slice(), block + lay.size_at).unwrap();
    let offset: u32 = read_field(data.as_slice(), block + lay.offset_at).unwrap();
    let mut stream: Vec<u8> = match asset_data {
        Some(bytes) => bytes,
        None => Vec::new(),
    };
    if !window_fits(pool.len(), offset, size) || stream.len() as u64 > 0xFFFF_FFFF {
        return Err(Fault { resource: None, position: block + lay.offset_at });
    }
    let position: u32 = stream.len() as u32;
    write_field(&mut data, (block + lay.offset_at) as usize, position);
    proof {
        lemma_with_field(before, block + lay.offset_at, position);
    }
    clear_flag(&mut data, flag_at);
    let payload = slice_subrange(pool, offset as usize, offset as usize + size as usize);
    let ghost stream_before = stream@;
    stream.extend_from_slice(payload);
    assert(stream@ =~= stream_before + payload@);
    Ok(Resident { structured_data: data, asset_data: Some(stream), memory_address })
}

/// Repacks `count` consecutive blocks, the first of which stands at position
/// `table`.
pub(crate) fn repack_table(
    resident: Resident,
    pool: &[u8],
    table: u64,
    count: u32,
    lay: BlockLayout,
) -> (r: Result<Resident, Fault>)
    requires
        lay.wf(),
        table <= resident.structured_data@.len(),
    ensures
        resident_view(r) == repack_blocks(resident@, pool@, table as int, count as int, lay),
{
    let ghost start = resident@;
    let mut current = resident;
    let mut block: u64 = table;
    let mut done: u32 = 0;
    let total: usize = current.structured_data.len();
    while done < count
        invariant
            lay.wf(),
            start == resident@,
            total == current.structured_data@.len(),
            done <= count,
            block <= total,
            repack_blocks(current@, pool@, block as int, count - done, lay) == repack_blocks(
                start,
                pool@,
                table as int,
                count as int,
                lay,
            ),
        decreases count - done,
    {
        if total as u64 - block < lay.len {
            return Err(Fault { resource: None, position: block });
        }
        proof {
            lemma_repack_block_keeps_shape(current@, pool@, block as int, lay);
        }
        match repack_one(current, pool, block, lay) {
            Ok(next) => {
                current = next;
            },
            Err(fault) => {
                return Err(fault);
            },
        }
        block = block + lay.len;
        done = done + 1;
    }
    Ok(current)
}

} // verus!
