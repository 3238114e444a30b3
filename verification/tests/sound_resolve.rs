use combustion::layout::read_field;
use combustion::matching::Search;
use combustion::sound::{find_sound_resource, read_sound_ranges, repack_sound, resolve_sound};
use combustion::tag::{Fault, Resident, Resolution, Resource, ResourcePool};

const ADDRESS: u32 = 0x4000_0000;
const RANGES: usize = 0xA4;

fn put(data: &mut [u8], at: usize, n: u32) {
    data[at..at + 4].copy_from_slice(&n.to_le_bytes());
}

/// Sound data with its range table at 0xA4 and the permutation tables right
/// behind it, one after the other. Each permutation is (flag byte, payload
/// offset, payload size). Pointers are written relative to `pointer_base`,
/// permutation pointers after `table_base` has been taken off their position.
fn sound_data(pointer_base: u32, table_base: u32, ranges: &[Vec<(u8, u32, u32)>]) -> Vec<u8> {
    let permutations: usize = ranges.iter().map(|r| r.len()).sum();
    let mut data = vec![0xEEu8; RANGES + ranges.len() * 0x48 + permutations * 124];
    put(&mut data, 0x98, ranges.len() as u32);
    put(&mut data, 0x9C, pointer_base + RANGES as u32);
    let mut table = RANGES + ranges.len() * 0x48;
    for (i, range) in ranges.iter().enumerate() {
        let at = RANGES + i * 0x48;
        put(&mut data, at + 0x3C, range.len() as u32);
        put(&mut data, at + 0x40, pointer_base + table as u32 - table_base);
        for (p, (flag, offset, size)) in range.iter().enumerate() {
            let block = table + p * 124;
            data[block + 0x44] = *flag;
            put(&mut data, block + 0x48, *offset);
            put(&mut data, block + 0x40, *size);
        }
        table += range.len() * 124;
    }
    data
}

fn tag_of(ranges: &[Vec<(u8, u32, u32)>]) -> Resident {
    Resident {
        structured_data: sound_data(ADDRESS, 0, ranges),
        asset_data: None,
        memory_address: ADDRESS,
    }
}

fn resource_of(name: &str, ranges: &[Vec<(u8, u32, u32)>]) -> Resource {
    Resource { name: String::from(name), data: sound_data(0, RANGES as u32, ranges) }
}

/// The verdict on one resource: what a search through a pool of that
/// resource alone comes to.
fn verdict(tag: &Resident, source: &[u8], resource: &Resource, dest: &[u8]) -> Search {
    let pool = ResourcePool { resources: vec![resource.clone()], bytes: dest.to_vec() };
    find_sound_resource(tag, source, &pool)
}

fn in_tag(position: u64) -> Fault {
    Fault { resource: None, position }
}

fn in_resource(index: usize, position: u64) -> Fault {
    Fault { resource: Some(index), position }
}

fn ramp(len: usize, start: u8) -> Vec<u8> {
    (0..len).map(|i| start.wrapping_add(i as u8)).collect()
}

/// 30 bytes at offset 0, 20 bytes at offset 40, 10 bytes at offset 90.
fn source_pool() -> Vec<u8> {
    let mut pool = vec![0u8; 100];
    pool[0..30].copy_from_slice(&ramp(30, 3));
    pool[40..60].copy_from_slice(&ramp(20, 50));
    pool[90..100].copy_from_slice(&ramp(10, 200));
    pool
}

/// The same three payloads at the offsets 100, 10 and 60.
fn dest_bytes() -> Vec<u8> {
    let mut bytes = vec![0xAAu8; 130];
    bytes[100..130].copy_from_slice(&ramp(30, 3));
    bytes[10..30].copy_from_slice(&ramp(20, 50));
    bytes[60..70].copy_from_slice(&ramp(10, 200));
    bytes
}

fn two_ranges() -> Vec<Vec<(u8, u32, u32)>> {
    vec![vec![(1, 0, 30), (1, 40, 20)], vec![(1, 90, 10)]]
}

fn same_in_dest() -> Vec<Vec<(u8, u32, u32)>> {
    vec![vec![(0, 100, 30), (0, 10, 20)], vec![(0, 60, 10)]]
}

#[test]
fn range_table_is_pointer_minus_address() {
    assert_eq!(read_sound_ranges(&tag_of(&two_ranges())), Ok(Some((2, 0xA4))));
}

#[test]
fn tag_without_ranges_is_left_alone() {
    let mut tag = tag_of(&[]);
    put(&mut tag.structured_data, 0x9C, 0);
    tag.structured_data.truncate(0x9C);
    assert_eq!(read_sound_ranges(&tag), Ok(None));
    let pool = ResourcePool { resources: vec![resource_of("empty", &[])], bytes: dest_bytes() };
    let before = tag.clone();
    assert_eq!(
        resolve_sound(tag.clone(), &source_pool(), Some(&pool)),
        Ok(Resolution::Repacked(before.clone()))
    );
    assert_eq!(resolve_sound(tag, &source_pool(), None), Ok(Resolution::Repacked(before)));
}

#[test]
fn range_table_outside_the_structured_data_is_malformed() {
    let mut tag = tag_of(&two_ranges());
    put(&mut tag.structured_data, 0x98, 9);
    assert_eq!(read_sound_ranges(&tag), Err(in_tag(0x9C)));
    assert_eq!(resolve_sound(tag, &source_pool(), None), Err(in_tag(0x9C)));
    let mut tag = tag_of(&two_ranges());
    put(&mut tag.structured_data, 0x9C, ADDRESS - 4);
    assert_eq!(read_sound_ranges(&tag), Err(in_tag(0x9C)));
    let tag = Resident { structured_data: vec![0u8; 0x9B], asset_data: None, memory_address: 0 };
    assert_eq!(read_sound_ranges(&tag), Err(in_tag(0x98)));
}

#[test]
fn matching_sound_resource_is_found() {
    let tag = tag_of(&two_ranges());
    let pool = ResourcePool {
        resources: vec![
            resource_of("sound\\sfx\\door__samples", &same_in_dest()),
            resource_of("sound\\sfx\\door", &same_in_dest()),
            resource_of("sound\\sfx\\door_again", &same_in_dest()),
        ],
        bytes: dest_bytes(),
    };
    assert_eq!(find_sound_resource(&tag, &source_pool(), &pool), Search::Found(1));
    assert_eq!(resolve_sound(tag, &source_pool(), Some(&pool)), Ok(Resolution::Matched(1)));
}

#[test]
fn mismatch_in_a_later_range_rejects_the_resource() {
    let tag = tag_of(&two_ranges());
    let source = source_pool();
    let dest = dest_bytes();
    let wrong_bytes = resource_of("a", &[vec![(0, 100, 30), (0, 10, 20)], vec![(0, 61, 10)]]);
    let wrong_size = resource_of("b", &[vec![(0, 100, 30), (0, 10, 20)], vec![(0, 60, 9)]]);
    let wrong_count =
        resource_of("c", &[vec![(0, 100, 30), (0, 10, 20)], vec![(0, 60, 10), (0, 60, 10)]]);
    let right = resource_of("d", &same_in_dest());
    for wrong in [&wrong_bytes, &wrong_size, &wrong_count] {
        assert_eq!(verdict(&tag, &source, wrong, &dest), Search::NotFound);
    }
    assert_eq!(verdict(&tag, &source, &right, &dest), Search::Found(0));
    let pool = ResourcePool {
        resources: vec![wrong_bytes, wrong_size, wrong_count, right],
        bytes: dest,
    };
    assert_eq!(find_sound_resource(&tag, &source, &pool), Search::Found(3));
}

#[test]
fn mismatch_in_the_first_range_rejects_the_resource() {
    let tag = tag_of(&two_ranges());
    let wrong = resource_of("a", &[vec![(0, 100, 30), (0, 11, 20)], vec![(0, 60, 10)]]);
    let pool = ResourcePool { resources: vec![wrong], bytes: dest_bytes() };
    assert_eq!(find_sound_resource(&tag, &source_pool(), &pool), Search::NotFound);
}

#[test]
fn sound_resource_with_other_range_count_is_no_candidate() {
    let tag = tag_of(&two_ranges());
    let fewer = resource_of("fewer", &[vec![(0, 100, 30), (0, 10, 20)]]);
    let outcome = verdict(&tag, &source_pool(), &fewer, &dest_bytes());
    assert_eq!(outcome, Search::NotFound);
}

#[test]
fn malformed_sound_resource_ends_the_search() {
    let tag = tag_of(&two_ranges());
    let source = source_pool();
    let dest = dest_bytes();
    let short = Resource { name: String::from("short"), data: vec![0u8; 0x9B] };
    assert_eq!(verdict(&tag, &source, &short, &dest), Search::Malformed(in_resource(0, 0x98)));
    let mut cut = resource_of("cut", &same_in_dest());
    cut.data.truncate(RANGES + 2 * 0x48 - 1);
    assert_eq!(verdict(&tag, &source, &cut, &dest), Search::Malformed(in_resource(0, 0x98)));
    let mut cut = resource_of("cut", &same_in_dest());
    let len = cut.data.len();
    cut.data.truncate(len - 1);
    assert_eq!(
        verdict(&tag, &source, &cut, &dest),
        Search::Malformed(in_resource(0, (RANGES + 0x48 + 0x40) as u64))
    );
    let pool = ResourcePool {
        resources: vec![resource_of("d__samples", &same_in_dest()), short, resource_of("d", &same_in_dest())],
        bytes: dest,
    };
    assert_eq!(find_sound_resource(&tag, &source, &pool), Search::Malformed(in_resource(1, 0x98)));
    assert_eq!(resolve_sound(tag, &source, Some(&pool)), Err(in_resource(1, 0x98)));
}

#[test]
fn permutation_pointer_below_address_is_malformed() {
    let mut tag = tag_of(&two_ranges());
    put(&mut tag.structured_data, RANGES + 0x48 + 0x40, ADDRESS - 1);
    let right = resource_of("d", &same_in_dest());
    let outcome = verdict(&tag, &source_pool(), &right, &dest_bytes());
    assert_eq!(outcome, Search::Malformed(in_tag((RANGES + 0x48 + 0x40) as u64)));
    assert_eq!(repack_sound(tag, &source_pool()), Err(in_tag((RANGES + 0x48 + 0x40) as u64)));
}

#[test]
fn sound_repack_moves_every_pooled_permutation() {
    let tag = tag_of(&vec![vec![(1, 40, 20), (0, 5, 6)], vec![], vec![(3, 90, 10), (1, 0, 30)]]);
    let before = tag.structured_data.clone();
    let repacked = repack_sound(tag, &source_pool()).unwrap();
    let mut stream = ramp(20, 50);
    stream.extend_from_slice(&ramp(10, 200));
    stream.extend_from_slice(&ramp(30, 3));
    assert_eq!(repacked.asset_data, Some(stream));
    let first = RANGES + 3 * 0x48;
    let mut expected = before;
    expected[first + 0x44] = 0;
    put(&mut expected, first + 0x48, 0);
    expected[first + 2 * 124 + 0x44] = 2;
    put(&mut expected, first + 2 * 124 + 0x48, 20);
    expected[first + 3 * 124 + 0x44] = 0;
    put(&mut expected, first + 3 * 124 + 0x48, 30);
    assert_eq!(repacked.structured_data, expected);
    assert_eq!(read_field(&repacked.structured_data, (first + 124 + 0x48) as u64), Some(5));
}

#[test]
fn sound_payload_outside_the_source_pool_is_malformed() {
    let tag = tag_of(&vec![vec![(1, 0, 30)], vec![(1, 91, 10)]]);
    let second = RANGES + 2 * 0x48 + 124;
    assert_eq!(repack_sound(tag, &source_pool()), Err(in_tag((second + 0x48) as u64)));
}

#[test]
fn permutation_table_outside_the_structured_data_is_malformed() {
    let mut tag = tag_of(&two_ranges());
    put(&mut tag.structured_data, RANGES + 0x48 + 0x3C, 2);
    assert_eq!(repack_sound(tag, &source_pool()), Err(in_tag((RANGES + 0x48 + 0x40) as u64)));
}

#[test]
fn ranges_that_share_a_table_are_repacked_once() {
    let mut tag = tag_of(&vec![vec![(1, 40, 20)], vec![(1, 90, 10)]]);
    let first = (RANGES + 2 * 0x48) as u32;
    put(&mut tag.structured_data, RANGES + 0x48 + 0x40, ADDRESS + first);
    let repacked = repack_sound(tag, &source_pool()).unwrap();
    assert_eq!(repacked.asset_data, Some(ramp(20, 50)));
    assert_eq!(repacked.structured_data[first as usize + 124 + 0x44], 1);
}

#[test]
fn matched_sound_read_private_permutations_from_the_stream() {
    let mut tag = tag_of(&vec![vec![(0, 1, 10)]]);
    let mut stream = vec![0u8];
    stream.extend_from_slice(&ramp(10, 200));
    tag.asset_data = Some(stream);
    let pool = ResourcePool {
        resources: vec![resource_of("s", &vec![vec![(0, 60, 10)]])],
        bytes: dest_bytes(),
    };
    assert_eq!(find_sound_resource(&tag, &source_pool(), &pool), Search::Found(0));
    tag.asset_data = None;
    assert_eq!(
        find_sound_resource(&tag, &source_pool(), &pool),
        Search::Malformed(in_tag((RANGES + 0x48 + 0x48) as u64))
    );
}

#[test]
fn sound_offsets_continue_across_ranges() {
    let mut tag =
        tag_of(&vec![vec![(0, 9, 9), (1, 40, 20)], vec![(2, 8, 8)], vec![(5, 0, 30), (1, 90, 10)]]);
    tag.asset_data = Some(vec![1u8, 2, 3]);
    let repacked = repack_sound(tag, &source_pool()).unwrap();
    let data = &repacked.structured_data;
    let first = RANGES + 3 * 0x48;
    let offset = |block: usize| read_field(data, (first + block * 124 + 0x48) as u64).unwrap();
    assert_eq!(offset(1), 3);
    assert_eq!(offset(3), 3 + 20);
    assert_eq!(offset(4), 3 + 20 + 30);
    assert_eq!(offset(0), 9);
    assert_eq!(offset(2), 8);
    let stream = repacked.asset_data.unwrap();
    assert_eq!(stream.len(), 3 + 20 + 30 + 10);
    assert_eq!(&stream[..3], &[1u8, 2, 3]);
    assert_eq!(data[first + 3 * 124 + 0x44], 4);
    assert_eq!(data[first + 2 * 124 + 0x44], 2);
}
