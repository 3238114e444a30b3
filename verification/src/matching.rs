//! Matching a tag's payloads against a candidate resource, block by block,
//! and finding the first resource of a pool that matches in full.

use crate::layout::{field, flag_set, read_field, read_flag, window, window_fits, windows_equal};
use crate::repack::BlockLayout;
use crate::tag::{Fault, Resident, ResidentView};
use vstd::prelude::*;

verus! {

/// Outcome of comparing a tag, or a part of it, with a candidate resource.
#[derive(Clone, Copy, Debug, PartialEq, Eq)]
pub enum Verdict {
    /// Every size and every payload byte is the same on both sides.
    Accepted,
    /// The candidate differs from the tag, or is not a candidate at all.
    Rejected,
    /// The field at this position of the tag's structured data does not
    /// exist or points outside the buffer that it refers to.
    TagMalformed { position: u64 },
    /// The field at this position of the candidate's data does not exist or
    /// points outside the buffer that it refers to.
    ResourceMalformed { position: u64 },
}

/// Outcome of looking through a pool for a resource that matches a tag.
#[derive(Clone, Copy, Debug, PartialEq, Eq)]
pub enum Search {
    /// The resource at this index matches, and none before it does.
    Found(usize),
    /// No resource of the pool matches.
    NotFound,
    /// A size or an offset met on the way points outside its buffer.
    Malformed(Fault),
}

/// The comparison met malformed data, in the tag or in the candidate.
pub open spec fn is_malformed(v: Verdict) -> bool {
    v is TagMalformed || v is ResourceMalformed
}

/// The fault that a verdict on the resource at `index` reports.
pub open spec fn fault_of(v: Verdict, index: usize) -> Fault
    recommends
        is_malformed(v),
{
    match v {
        Verdict::ResourceMalformed { position } => Fault { resource: Some(index), position },
        Verdict::TagMalformed { position } => Fault { resource: None, position },
        _ => Fault { resource: None, position: 0 },
    }
}

/// A string ends with the given suffix.
pub open spec fn has_suffix(s: Seq<char>, suffix: Seq<char>) -> bool {
    s.len() >= suffix.len() && s.subrange(s.len() - suffix.len(), s.len() as int) == suffix
}

/// `str::ends_with` with a string as the pattern: tells whether the pattern
/// matches a suffix of `name`, that is, whether `name` ends with the
/// characters of `suffix`.
#[verifier::external_body]
pub(crate) fn name_ends_with(name: &str, suffix: &str) -> (r: bool)
    ensures
        r == has_suffix(name@, suffix@),
{
    name.ends_with(suffix)
}

/// The payload that the tag's block at `block` refers to: bytes of the
/// source runtime's shared pool where the block's flag is set, bytes of the
/// tag's own asset stream otherwise. `None` where those bytes do not exist.
pub open spec fn tag_payload(
    r: ResidentView,
    source: Seq<u8>,
    block: int,
    lay: BlockLayout,
) -> Option<Seq<u8>>
    recommends
        lay.wf(),
        0 <= block,
        block + lay.len <= r.structured.len(),
{
    let size = field(r.structured, block + lay.size_at);
    let offset = field(r.structured, block + lay.offset_at);
    if flag_set(r.structured, block + lay.flag_at) {
        window(source, offset, size)
    } else {
        match r.asset {
            Some(stream) => window(stream, offset, size),
            None => None,
        }
    }
}

/// The payload that a resource's block at `block` refers to: bytes of the
/// destination runtime's shared buffer. `None` where those bytes do not exist.
pub open spec fn resource_payload(
    data: Seq<u8>,
    dest: Seq<u8>,
    block: int,
    lay: BlockLayout,
) -> Option<Seq<u8>>
    recommends
        lay.wf(),
        0 <= block,
        block + lay.len <= data.len(),
{
    window(dest, field(data, block + lay.offset_at), field(data, block + lay.size_at))
}

/// Comparison of one block of the tag with one block of a resource: the two
/// sizes first, then, where they agree, the two payloads byte for byte. A
/// payload that does not exist puts the block's offset field at fault, the
/// tag's before the resource's.
pub open spec fn block_verdict(
    r: ResidentView,
    source: Seq<u8>,
    t_block: int,
    data: Seq<u8>,
    d_block: int,
    dest: Seq<u8>,
    lay: BlockLayout,
) -> Verdict
    recommends
        lay.wf(),
        0 <= t_block,
        t_block + lay.len <= r.structured.len(),
        0 <= d_block,
        d_block + lay.len <= data.len(),
{
    if field(r.structured, t_block + lay.size_at) != field(data, d_block + lay.size_at) {
        Verdict::Rejected
    } else {
        match tag_payload(r, source, t_block, lay) {
            None => Verdict::TagMalformed { position: (t_block + lay.offset_at) as u64 },
            Some(ours) => match resource_payload(data, dest, d_block, lay) {
                None => Verdict::ResourceMalformed { position: (d_block + lay.offset_at) as u64 },
                Some(theirs) => if ours == theirs {
                    Verdict::Accepted
                } else {
                    Verdict::Rejected
                },
            },
        }
    }
}

/// Comparison of `remaining` consecutive blocks of the tag, from `t_block`
/// on, with as many consecutive blocks of a resource, from `d_block` on. The
/// blocks are taken in ascending order and the first one that is not
/// accepted decides; a block that does not lie inside its buffer is
/// malformed, the resource's before the tag's.
pub open spec fn blocks_verdict(
    r: ResidentView,
    source: Seq<u8>,
    t_block: int,
    data: Seq<u8>,
    d_block: int,
    dest: Seq<u8>,
    remaining: int,
    lay: BlockLayout,
) -> Verdict
    decreases remaining,
{
    if remaining <= 0 {
        Verdict::Accepted
    } else if d_block + lay.len > data.len() {
        Verdict::ResourceMalformed { position: d_block as u64 }
    } else if t_block + lay.len > r.structured.len() {
        Verdict::TagMalformed { position: t_block as u64 }
    } else {
        match block_verdict(r, source, t_block, data, d_block, dest, lay) {
            Verdict::Accepted => blocks_verdict(
                r,
                source,
                t_block + lay.len,
                data,
                d_block + lay.len,
                dest,
                remaining - 1,
                lay,
            ),
            other => other,
        }
    }
}

/// The first verdict from position `from` on that is not a rejection
/// decides: an acceptance finds that resource, a malformation ends the
/// search. Where every verdict is a rejection nothing is found.
pub open spec fn first_decisive(verdicts: Seq<Verdict>, from: int) -> Search
    decreases verdicts.len() - from,
{
    if from < 0 || from >= verdicts.len() {
        Search::NotFound
    } else {
        match verdicts[from] {
            Verdict::Accepted => Search::Found(from as usize),
            Verdict::Rejected => first_decisive(verdicts, from + 1),
            other => Search::Malformed(fault_of(other, from as usize)),
        }
    }
}

/// What the outcome of a search says about the verdicts: a resource is found
/// exactly where it is the first that is accepted and every one before it
/// was rejected; nothing is found exactly where all are rejected; and the
/// search is malformed exactly where the first verdict that is no rejection
/// is a malformation, whose fault it then reports.
pub proof fn lemma_first_decisive(verdicts: Seq<Verdict>, from: int)
    requires
        0 <= from,
        verdicts.len() <= usize::MAX,
    ensures
        match first_decisive(verdicts, from) {
            Search::Found(index) => {
                &&& from <= index < verdicts.len()
                &&& verdicts[index as int] == Verdict::Accepted
                &&& forall|j: int| from <= j < index ==> verdicts[j] == Verdict::Rejected
            },
            Search::NotFound => forall|j: int|
                from <= j < verdicts.len() ==> verdicts[j] == Verdict::Rejected,
            Search::Malformed(fault) => exists|i: int|
                {
                    &&& from <= i < verdicts.len()
                    &&& is_malformed(#[trigger] verdicts[i])
                    &&& fault == fault_of(verdicts[i], i as usize)
                    &&& forall|j: int| from <= j < i ==> verdicts[j] == Verdict::Rejected
                },
        },
    decreases verdicts.len() - from,
{
    if from < verdicts.len() {
        match verdicts[from] {
            Verdict::Accepted => {},
            Verdict::Rejected => {
                lemma_first_decisive(verdicts, from + 1);
                if let Search::Malformed(fault) = first_decisive(verdicts, from) {
                    let i = choose|i: int|
                        {
                            &&& from + 1 <= i < verdicts.len()
                            &&& is_malformed(#[trigger] verdicts[i])
                            &&& fault == fault_of(verdicts[i], i as usize)
                            &&& forall|j: int| from + 1 <= j < i ==> verdicts[j] == Verdict::Rejected
                        };
                    assert(forall|j: int| from <= j < i ==> verdicts[j] == Verdict::Rejected);
                }
            },
            _ => {
                assert(is_malformed(verdicts[from]));
            },
        }
    }
}

/// The first resource that is accepted is the one that is found, whatever
/// comes after it, where every resource before it was rejected.
pub proof fn lemma_first_accepted_is_found(verdicts: Seq<Verdict>, from: int, index: int)
    requires
        0 <= from <= index < verdicts.len() <= usize::MAX,
        verdicts[index] == Verdict::Accepted,
        forall|j: int| from <= j < index ==> verdicts[j] == Verdict::Rejected,
    ensures
        first_decisive(verdicts, from) == Search::Found(index as usize),
    decreases index - from,
{
    if from < index {
        lemma_first_accepted_is_found(verdicts, from + 1, index);
    }
}

/// Block number `b` of the tag's table and block number `b` of the
/// resource's table lie inside their buffers and compare equal.
pub open spec fn block_accepted(
    r: ResidentView,
    source: Seq<u8>,
    t_table: int,
    data: Seq<u8>,
    d_table: int,
    dest: Seq<u8>,
    lay: BlockLayout,
    b: int,
) -> bool {
    let t_block = t_table + b * lay.len;
    let d_block = d_table + b * lay.len;
    &&& d_block + lay.len <= data.len()
    &&& t_block + lay.len <= r.structured.len()
    &&& block_verdict(r, source, t_block, data, d_block, dest, lay) == Verdict::Accepted
}

/// A table is accepted only if each of its blocks is.
pub proof fn lemma_accepted_blocks(
    r: ResidentView,
    source: Seq<u8>,
    t_table: int,
    data: Seq<u8>,
    d_table: int,
    dest: Seq<u8>,
    count: int,
    lay: BlockLayout,
    b: int,
)
    requires
        0 <= b < count,
        blocks_verdict(r, source, t_table, data, d_table, dest, count, lay) == Verdict::Accepted,
    ensures
        block_accepted(r, source, t_table, data, d_table, dest, lay, b),
    decreases b,
{
    let len = lay.len as int;
    if b > 0 {
        lemma_accepted_blocks(
            r,
            source,
            t_table + len,
            data,
            d_table + len,
            dest,
            count - 1,
            lay,
            b - 1,
        );
        assert(b * len == (b - 1) * len + len) by (nonlinear_arith);
    } else {
        assert(0 * len == 0);
    }
}

/// A table each of whose blocks is accepted is accepted.
pub proof fn lemma_blocks_all_accepted(
    r: ResidentView,
    source: Seq<u8>,
    t_table: int,
    data: Seq<u8>,
    d_table: int,
    dest: Seq<u8>,
    count: int,
    lay: BlockLayout,
)
    requires
        forall|b: int|
            0 <= b < count ==> #[trigger] block_accepted(
                r,
                source,
                t_table,
                data,
                d_table,
                dest,
                lay,
                b,
            ),
    ensures
        blocks_verdict(r, source, t_table, data, d_table, dest, count, lay) == Verdict::Accepted,
    decreases count,
{
    let len = lay.len as int;
    if count > 0 {
        assert(block_accepted(r, source, t_table, data, d_table, dest, lay, 0));
        assert(0 * len == 0);
        assert forall|b: int| 0 <= b < count - 1 implies #[trigger] block_accepted(
            r,
            source,
            t_table + len,
            data,
            d_table + len,
            dest,
            lay,
            b,
        ) by {
            assert(block_accepted(r, source, t_table, data, d_table, dest, lay, b + 1));
            assert((b + 1) * len == b * len + len) by (nonlinear_arith);
        }
        lemma_blocks_all_accepted(
            r,
            source,
            t_table + len,
            data,
            d_table + len,
            dest,
            count - 1,
            lay,
        );
    }
}

/// One block that does not compare equal keeps the table from being
/// accepted.
pub proof fn lemma_one_mismatch_rejects(
    r: ResidentView,
    source: Seq<u8>,
    t_table: int,
    data: Seq<u8>,
    d_table: int,
    dest: Seq<u8>,
    count: int,
    lay: BlockLayout,
    b: int,
)
    requires
        0 <= b < count,
        !block_accepted(r, source, t_table, data, d_table, dest, lay, b),
    ensures
        blocks_verdict(r, source, t_table, data, d_table, dest, count, lay) != Verdict::Accepted,
{
    if blocks_verdict(r, source, t_table, data, d_table, dest, count, lay) == Verdict::Accepted {
        lemma_accepted_blocks(r, source, t_table, data, d_table, dest, count, lay, b);
    }
}

/// Resources that are rejected are passed over: the search goes on behind
/// them as if it had started there.
pub proof fn lemma_rejected_are_passed_over(verdicts: Seq<Verdict>, from: int, index: int)
    requires
        0 <= from <= index < verdicts.len(),
        forall|j: int| from <= j <= index ==> verdicts[j] == Verdict::Rejected,
    ensures
        first_decisive(verdicts, from) == first_decisive(verdicts, index + 1),
    decreases index - from,
{
    if from < index {
        lemma_rejected_are_passed_over(verdicts, from + 1, index);
    }
}

/// The first block that does not compare equal decides: where it differs
/// from its counterpart, in size or in a byte of its payload, the table is
/// rejected.
pub proof fn lemma_first_mismatch_rejects(
    r: ResidentView,
    source: Seq<u8>,
    t_table: int,
    data: Seq<u8>,
    d_table: int,
    dest: Seq<u8>,
    count: int,
    lay: BlockLayout,
    b: int,
)
    requires
        0 <= b < count,
        forall|k: int|
            0 <= k < b ==> #[trigger] block_accepted(r, source, t_table, data, d_table, dest, lay, k),
        d_table + b * lay.len + lay.len <= data.len(),
        t_table + b * lay.len + lay.len <= r.structured.len(),
        block_verdict(r, source, t_table + b * lay.len, data, d_table + b * lay.len, dest, lay)
            == Verdict::Rejected,
    ensures
        blocks_verdict(r, source, t_table, data, d_table, dest, count, lay) == Verdict::Rejected,
    decreases b,
{
    let len = lay.len as int;
    if b > 0 {
        assert(block_accepted(r, source, t_table, data, d_table, dest, lay, 0));
        assert(0 * len == 0);
        assert(b * len == (b - 1) * len + len) by (nonlinear_arith);
        assert forall|k: int| 0 <= k < b - 1 implies #[trigger] block_accepted(
            r,
            source,
            t_table + len,
            data,
            d_table + len,
            dest,
            lay,
            k,
        ) by {
            assert(block_accepted(r, source, t_table, data, d_table, dest, lay, k + 1));
            assert((k + 1) * len == k * len + len) by (nonlinear_arith);
        }
        lemma_first_mismatch_rejects(
            r,
            source,
            t_table + len,
            data,
            d_table + len,
            dest,
            count - 1,
            lay,
            b - 1,
        );
    } else {
        assert(0 * len == 0);
    }
}

/// Compares one block of the tag with one block of a resource.
pub(crate) fn compare_block(
    resident: &Resident,
    source: &[u8],
    t_block: u64,
    data: &[u8],
    d_block: u64,
    dest: &[u8],
    lay: BlockLayout,
) -> (v: Verdict)
    requires
        lay.wf(),
        t_block + lay.len <= resident.structured_data@.len(),
        d_block + lay.len <= data@.len(),
    ensures
        v == block_verdict(resident@, source@, t_block as int, data@, d_block as int, dest@, lay),
{
    let ours = resident.structured_data.as_slice();
    let t_len: usize = ours.len();
    let d_len: usize = data.len();
    let t_size: u32 = read_field(ours, t_block + lay.size_at).unwrap();
    let d_size: u32 = read_field(data, d_block + lay.size_at).unwrap();
    if t_size != d_size {
        return Verdict::Rejected;
    }
    let t_offset: u32 = read_field(ours, t_block + lay.offset_at).unwrap();
    let d_offset: u32 = read_field(data, d_block + lay.offset_at).unwrap();
    let from_pool: bool = read_flag(ours, (t_block + lay.flag_at) as usize);
    if from_pool {
        if !window_fits(source.len(), t_offset, t_size) {
            return Verdict::TagMalformed { position: t_block + lay.offset_at };
        }
        if !window_fits(dest.len(), d_offset, d_size) {
            return Verdict::ResourceMalformed { position: d_block + lay.offset_at };
        }
        if windows_equal(source, t_offset as usize, dest, d_offset as usize, t_size as usize) {
            Verdict::Accepted
        } else {
            Verdict::Rejected
        }
    } else {
        match &resident.asset_data {
            Some(stream) => {
                if !window_fits(stream.len(), t_offset, t_size) {
                    return Verdict::TagMalformed { position: t_block + lay.offset_at };
                }
                if !window_fits(dest.len(), d_offset, d_size) {
                    return Verdict::ResourceMalformed { position: d_block + lay.offset_at };
                }
                if windows_equal(
                    stream.as_slice(),
                    t_offset as usize,
                    dest,
                    d_offset as usize,
                    t_size as usize,
                ) {
                    Verdict::Accepted
                } else {
                    Verdict::Rejected
                }
            },
            None => Verdict::TagMalformed { position: t_block + lay.offset_at },
        }
    }
}

/// Compares `count` consecutive blocks of the tag, from `t_table` on, with
/// as many consecutive blocks of a resource, from `d_table` on.
pub(crate) fn compare_table(
    resident: &Resident,
    source: &[u8],
    t_table: u64,
    data: &[u8],
    d_table: u64,
    dest: &[u8],
    count: u32,
    lay: BlockLayout,
) -> (v: Verdict)
    requires
        lay.wf(),
        t_table <= resident.structured_data@.len(),
        d_table <= data@.len(),
    ensures
        v == blocks_verdict(
            resident@,
            source@,
            t_table as int,
            data@,
            d_table as int,
            dest@,
            count as int,
            lay,
        ),
{
    let t_len: usize = resident.structured_data.len();
    let d_len: usize = data.len();
    let mut t_block: u64 = t_table;
    let mut d_block: u64 = d_table;
    let mut done: u32 = 0;
    while done < count
        invariant
            lay.wf(),
            done <= count,
            t_len == resident.structured_data@.len(),
            d_len == data@.len(),
            t_block <= t_len,
            d_block <= d_len,
            blocks_verdict(
                resident@,
                source@,
                t_block as int,
                data@,
                d_block as int,
                dest@,
                count - done,
                lay,
            ) == blocks_verdict(
                resident@,
                source@,
                t_table as int,
                data@,
                d_table as int,
                dest@,
                count as int,
                lay,
            ),
        decreases count - done,
    {
        if d_len as u64 - d_block < lay.len {
            return Verdict::ResourceMalformed { position: d_block };
        }
        if t_len as u64 - t_block < lay.len {
            return Verdict::TagMalformed { position: t_block };
        }
        match compare_block(resident, source, t_block, data, d_block, dest, lay) {
            Verdict::Accepted => {},
            other => {
                return other;
            },
        }
        t_block = t_block + lay.len;
        d_block = d_block + lay.len;
        done = done + 1;
    }
    Verdict::Accepted
}

} // verus!
