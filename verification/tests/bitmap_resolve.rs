use combustion::bitmap::{
    find_bitmap_resource, read_bitmap_table, repack_bitmap, resolve_bitmap,
};
use combustion::layout::read_field;
use combustion::matching::Search;
use combustion::tag::{Fault, Resident, Resolution, Resource, ResourcePool};

const ADDRESS: u32 = 0x4000_0000;
const TABLE: usize = 0x68;

fn put(data: &mut [u8], at: usize, n: u32) {
    data[at..at + 4].copy_from_slice(&n.to_le_bytes());
}

/// Structured data with its entry table right behind the two header fields.
/// Each entry is (flag byte, payload offset, payload size).
fn bitmap_data(base: u32, entries: &[(u8, u32, u32)]) -> Vec<u8> {
    let mut data = vec![0xEEu8; TABLE + entries.len() * 48];
    put(&mut data, 0x60, entries.len() as u32);
    put(&mut data, 0x64, base + TABLE as u32);
    for (i, (flag, offset, size)) in entries.iter().enumerate() {
        let at = TABLE + i * 48;
        data[at + 0x0F] = *flag;
        put(&mut data, at + 0x18, *offset);
        put(&mut data, at + 0x1C, *size);
    }
    data
}

fn tag_of(entries: &[(u8, u32, u32)]) -> Resident {
    Resident {
        structured_data: bitmap_data(ADDRESS, entries),
        asset_data: None,
        memory_address: ADDRESS,
    }
}

fn resource_of(name: &str, entries: &[(u8, u32, u32)]) -> Resource {
    Resource { name: String::from(name), data: bitmap_data(0, entries) }
}

/// The verdict on one resource: what a search through a pool of that
/// resource alone comes to.
fn verdict(tag: &Resident, source: &[u8], resource: &Resource, dest: &[u8]) -> Search {
    let pool = ResourcePool { resources: vec![resource.clone()], bytes: dest.to_vec() };
    find_bitmap_resource(tag, source, &pool)
}

fn in_tag(position: u64) -> Fault {
    Fault { resource: None, position }
}

fn in_resource(index: usize, position: u64) -> Fault {
    Fault { resource: Some(index), position }
}

fn ramp(len: usize, start: u8) -> Vec<u8> {
    (0..len).map(|i| start.wrapping_add(i as u8)).collect()
}

/// A source pool that holds 100 bytes at offset 8 and 50 bytes at offset 200.
fn source_pool() -> Vec<u8> {
    let mut pool = vec![0u8; 300];
    pool[8..108].copy_from_slice(&ramp(100, 1));
    pool[200..250].copy_from_slice(&ramp(50, 7));
    pool
}

/// A destination buffer that holds the same 100 bytes at offset 16 and the
/// same 50 bytes at offset 400.
fn dest_bytes() -> Vec<u8> {
    let mut bytes = vec![0u8; 500];
    bytes[16..116].copy_from_slice(&ramp(100, 1));
    bytes[400..450].copy_from_slice(&ramp(50, 7));
    bytes
}

#[test]
fn table_is_pointer_minus_address() {
    let tag = tag_of(&[(1, 8, 100), (1, 200, 50)]);
    assert_eq!(read_bitmap_table(&tag), Ok((2, 0x68)));
}

#[test]
fn table_pointer_below_address_is_malformed() {
    let mut tag = tag_of(&[(1, 8, 100)]);
    put(&mut tag.structured_data, 0x64, ADDRESS - 1);
    assert_eq!(read_bitmap_table(&tag), Err(in_tag(0x64)));
    assert_eq!(repack_bitmap(tag, &source_pool()), Err(in_tag(0x64)));
}

#[test]
fn table_behind_the_end_is_malformed() {
    let mut tag = tag_of(&[]);
    let len = tag.structured_data.len() as u32;
    put(&mut tag.structured_data, 0x64, ADDRESS + len);
    assert_eq!(read_bitmap_table(&tag), Ok((0, len as u64)));
    put(&mut tag.structured_data, 0x64, ADDRESS + len + 1);
    assert_eq!(read_bitmap_table(&tag), Err(in_tag(0x64)));
}

#[test]
fn header_that_does_not_fit_is_malformed() {
    let tag = Resident { structured_data: vec![0u8; 0x67], asset_data: None, memory_address: 0 };
    assert_eq!(read_bitmap_table(&tag), Err(in_tag(0x64)));
    assert_eq!(resolve_bitmap(tag, &[], None), Err(in_tag(0x64)));
    let tag = Resident { structured_data: vec![0u8; 0x63], asset_data: None, memory_address: 0 };
    assert_eq!(read_bitmap_table(&tag), Err(in_tag(0x60)));
}

#[test]
fn matching_resource_makes_the_tag_a_reference_to_it() {
    let tag = tag_of(&[(1, 8, 100), (1, 200, 50)]);
    let pool = ResourcePool {
        resources: vec![resource_of("levels\\a10\\bitmaps\\hull", &[(0, 16, 100), (0, 400, 50)])],
        bytes: dest_bytes(),
    };
    assert_eq!(resolve_bitmap(tag, &source_pool(), Some(&pool)), Ok(Resolution::Matched(0)));
}

#[test]
fn size_mismatch_falls_through_to_repack() {
    let tag = tag_of(&[(1, 8, 100), (1, 200, 50)]);
    let pool = ResourcePool {
        resources: vec![resource_of("levels\\a10\\bitmaps\\hull", &[(0, 16, 100), (0, 400, 51)])],
        bytes: dest_bytes(),
    };
    let source = source_pool();
    let repacked = match resolve_bitmap(tag, &source, Some(&pool)) {
        Ok(Resolution::Repacked(resident)) => resident,
        other => panic!("expected a repacked tag, got {:?}", other),
    };
    let mut stream = ramp(100, 1);
    stream.extend_from_slice(&ramp(50, 7));
    assert_eq!(repacked.asset_data, Some(stream));
    let data = &repacked.structured_data;
    assert_eq!(read_field(data, (TABLE + 0x18) as u64), Some(0));
    assert_eq!(read_field(data, (TABLE + 48 + 0x18) as u64), Some(100));
    assert_eq!(read_field(data, (TABLE + 0x1C) as u64), Some(100));
    assert_eq!(read_field(data, (TABLE + 48 + 0x1C) as u64), Some(50));
    assert_eq!(data[TABLE + 0x0F], 0);
    assert_eq!(data[TABLE + 48 + 0x0F], 0);
    assert_eq!(repacked.memory_address, ADDRESS);
}

#[test]
fn repack_touches_nothing_but_offset_and_flag_bit() {
    let tag = tag_of(&[(0xFF, 8, 100), (0, 3, 4), (1, 200, 50)]);
    let before = tag.structured_data.clone();
    let repacked = repack_bitmap(tag, &source_pool()).unwrap();
    let mut expected = before;
    expected[TABLE + 0x0F] = 0xFE;
    put(&mut expected, TABLE + 0x18, 0);
    expected[TABLE + 96 + 0x0F] = 0;
    put(&mut expected, TABLE + 96 + 0x18, 100);
    assert_eq!(repacked.structured_data, expected);
}

#[test]
fn repack_appends_behind_an_existing_stream() {
    let mut tag = tag_of(&[(0, 1, 2), (1, 200, 50)]);
    tag.asset_data = Some(vec![9, 8, 7]);
    let repacked = repack_bitmap(tag, &source_pool()).unwrap();
    let mut stream = vec![9, 8, 7];
    stream.extend_from_slice(&ramp(50, 7));
    assert_eq!(repacked.asset_data, Some(stream));
    assert_eq!(read_field(&repacked.structured_data, (TABLE + 48 + 0x18) as u64), Some(3));
    assert_eq!(read_field(&repacked.structured_data, (TABLE + 0x18) as u64), Some(1));
}

#[test]
fn repack_without_pooled_entries_creates_no_stream() {
    let tag = tag_of(&[(0, 1, 2), (2, 5, 6)]);
    let before = tag.clone();
    assert_eq!(repack_bitmap(tag, &source_pool()), Ok(before));
}

#[test]
fn repacked_payload_reads_back_from_the_stream() {
    let source = source_pool();
    let tag = tag_of(&[(1, 200, 50), (1, 8, 100), (1, 250, 0), (1, 100, 8)]);
    let before = tag.structured_data.clone();
    let repacked = repack_bitmap(tag, &source).unwrap();
    let stream = repacked.asset_data.clone().unwrap();
    let mut last_end = 0usize;
    for i in 0..4 {
        let at = (TABLE + i * 48) as u64;
        let old_offset = read_field(&before, at + 0x18).unwrap() as usize;
        let size = read_field(&before, at + 0x1C).unwrap() as usize;
        let new_offset = read_field(&repacked.structured_data, at + 0x18).unwrap() as usize;
        assert_eq!(read_field(&repacked.structured_data, at + 0x1C), Some(size as u32));
        assert_eq!(&stream[new_offset..new_offset + size], &source[old_offset..old_offset + size]);
        assert_eq!(new_offset, last_end);
        last_end = new_offset + size;
    }
    assert_eq!(last_end, stream.len());
    assert_eq!(stream.len(), 158);
}

#[test]
fn payload_outside_the_source_pool_is_malformed() {
    let tag = tag_of(&[(1, 8, 100), (1, 251, 50)]);
    assert_eq!(repack_bitmap(tag, &source_pool()), Err(in_tag((TABLE + 48 + 0x18) as u64)));
    let tag = tag_of(&[(1, 250, 50)]);
    assert!(repack_bitmap(tag, &source_pool()).is_ok());
}

#[test]
fn entry_outside_the_structured_data_is_malformed() {
    let mut tag = tag_of(&[(1, 8, 100), (1, 200, 50)]);
    tag.structured_data.truncate(TABLE + 48 + 47);
    assert_eq!(repack_bitmap(tag, &source_pool()), Err(in_tag((TABLE + 48) as u64)));
}

#[test]
fn first_of_two_matching_resources_wins() {
    let tag = tag_of(&[(1, 8, 100), (1, 200, 50)]);
    let pool = ResourcePool {
        resources: vec![
            resource_of("one", &[(0, 16, 100), (0, 400, 50)]),
            resource_of("two", &[(0, 16, 100), (0, 400, 50)]),
        ],
        bytes: dest_bytes(),
    };
    assert_eq!(find_bitmap_resource(&tag, &source_pool(), &pool), Search::Found(0));
}

#[test]
fn search_moves_on_after_a_single_differing_byte() {
    let tag = tag_of(&[(1, 8, 100), (1, 200, 50)]);
    let mut bytes = dest_bytes();
    bytes.resize(600, 0);
    bytes[500..550].copy_from_slice(&ramp(50, 7));
    bytes[549] ^= 1;
    let pool = ResourcePool {
        resources: vec![
            resource_of("differs in the last byte", &[(0, 16, 100), (0, 500, 50)]),
            resource_of("other count", &[(0, 16, 100)]),
            resource_of("same", &[(0, 16, 100), (0, 400, 50)]),
        ],
        bytes,
    };
    assert_eq!(find_bitmap_resource(&tag, &source_pool(), &pool), Search::Found(2));
}

#[test]
fn bulk_pixel_resources_are_no_candidates() {
    let tag = tag_of(&[(1, 8, 100), (1, 200, 50)]);
    let entries = [(0, 16, 100), (0, 400, 50)];
    let dest = dest_bytes();
    let source = source_pool();
    let bulk = resource_of("levels\\a10\\bitmaps\\hull__pixels", &entries);
    let plain = resource_of("levels\\a10\\bitmaps\\hull__pixels_2", &entries);
    assert_eq!(verdict(&tag, &source, &bulk, &dest), Search::NotFound);
    assert_eq!(verdict(&tag, &source, &plain, &dest), Search::Found(0));
    let short = Resource { name: String::from("__pixels"), data: Vec::new() };
    assert_eq!(verdict(&tag, &source, &short, &dest), Search::NotFound);
    let pool = ResourcePool { resources: vec![bulk, plain], bytes: dest };
    assert_eq!(find_bitmap_resource(&tag, &source, &pool), Search::Found(1));
}

#[test]
fn malformed_resource_ends_the_search() {
    let tag = tag_of(&[(1, 8, 100), (1, 200, 50)]);
    let source = source_pool();
    let good = resource_of("good", &[(0, 16, 100), (0, 400, 50)]);
    let short = Resource { name: String::from("short"), data: vec![0u8; 0x63] };
    let pool = ResourcePool { resources: vec![short.clone(), good.clone()], bytes: dest_bytes() };
    assert_eq!(find_bitmap_resource(&tag, &source, &pool), Search::Malformed(in_resource(0, 0x60)));
    assert_eq!(resolve_bitmap(tag.clone(), &source, Some(&pool)), Err(in_resource(0, 0x60)));
    let pool = ResourcePool { resources: vec![good, short], bytes: dest_bytes() };
    assert_eq!(find_bitmap_resource(&tag, &source, &pool), Search::Found(0));
}

#[test]
fn later_entries_are_not_looked_at_after_a_mismatch() {
    let tag = tag_of(&[(1, 8, 100), (1, 200, 50)]);
    let source = source_pool();
    let mut resource = resource_of("cut short", &[(0, 16, 99), (0, 400, 50)]);
    resource.data.truncate(TABLE + 48);
    let dest = dest_bytes();
    assert_eq!(verdict(&tag, &source, &resource, &dest), Search::NotFound);
    let mut resource = resource_of("cut short", &[(0, 16, 100), (0, 400, 50)]);
    resource.data.truncate(TABLE + 48);
    assert_eq!(
        verdict(&tag, &source, &resource, &dest),
        Search::Malformed(in_resource(0, (TABLE + 48) as u64))
    );
}

#[test]
fn payload_outside_the_destination_buffer_is_malformed() {
    let tag = tag_of(&[(1, 8, 100)]);
    let resource = resource_of("far", &[(0, 401, 100)]);
    let outcome =
        verdict(&tag, &source_pool(), &resource, &dest_bytes());
    assert_eq!(outcome, Search::Malformed(in_resource(0, (TABLE + 0x18) as u64)));
}

#[test]
fn private_entry_is_compared_through_the_asset_stream() {
    let mut tag = tag_of(&[(0, 2, 50)]);
    let resource = resource_of("same", &[(0, 400, 50)]);
    let source = source_pool();
    let dest = dest_bytes();
    assert_eq!(
        verdict(&tag, &source, &resource, &dest),
        Search::Malformed(in_tag((TABLE + 0x18) as u64))
    );
    let mut stream = vec![0u8, 0];
    stream.extend_from_slice(&ramp(50, 7));
    tag.asset_data = Some(stream);
    assert_eq!(verdict(&tag, &source, &resource, &dest), Search::Found(0));
    tag.asset_data.as_mut().unwrap()[10] ^= 0x80;
    assert_eq!(verdict(&tag, &source, &resource, &dest), Search::NotFound);
}

#[test]
fn tag_without_entries_matches_the_first_resource_without_entries() {
    let tag = tag_of(&[]);
    let pool = ResourcePool {
        resources: vec![resource_of("one entry", &[(0, 16, 100)]), resource_of("none", &[])],
        bytes: dest_bytes(),
    };
    assert_eq!(resolve_bitmap(tag, &source_pool(), Some(&pool)), Ok(Resolution::Matched(1)));
}

#[test]
fn no_pool_means_repack() {
    let tag = tag_of(&[(1, 200, 50)]);
    match resolve_bitmap(tag, &source_pool(), None) {
        Ok(Resolution::Repacked(resident)) => {
            assert_eq!(resident.asset_data, Some(ramp(50, 7)));
        }
        other => panic!("expected a repacked tag, got {:?}", other),
    }
}

#[test]
fn repack_keeps_the_other_bits_of_the_flag_byte() {
    for flag in [0x01u8, 0x03, 0x81, 0xFF, 0x55] {
        let tag = tag_of(&[(flag, 200, 50)]);
        let repacked = repack_bitmap(tag, &source_pool()).unwrap();
        assert_eq!(repacked.structured_data[TABLE + 0x0F], flag & 0xFE);
    }
    for flag in [0x00u8, 0x02, 0x80, 0xFE] {
        let tag = tag_of(&[(flag, 200, 50)]);
        let before = tag.clone();
        assert_eq!(repack_bitmap(tag, &source_pool()), Ok(before));
    }
}

#[test]
fn offsets_continue_where_the_stream_and_the_payload_before_end() {
    let mut tag = tag_of(&[(0, 0, 3), (1, 8, 100), (2, 1, 1), (1, 250, 0), (0x81, 200, 50)]);
    tag.asset_data = Some(vec![7u8; 5]);
    let repacked = repack_bitmap(tag, &source_pool()).unwrap();
    let data = &repacked.structured_data;
    let offset = |entry: usize| read_field(data, (TABLE + entry * 48 + 0x18) as u64).unwrap();
    assert_eq!(offset(1), 5);
    assert_eq!(offset(3), 5 + 100);
    assert_eq!(offset(4), 5 + 100);
    assert_eq!(offset(0), 0);
    assert_eq!(offset(2), 1);
    let stream = repacked.asset_data.unwrap();
    assert_eq!(stream.len(), 5 + 100 + 50);
    assert_eq!(&stream[..5], &[7u8; 5]);
    assert_eq!(data[TABLE + 4 * 48 + 0x0F], 0x80);
    assert_eq!(data[TABLE + 2 * 48 + 0x0F], 2);
}
