use combustion::convert::{convert_map, resolve_tag, resolve_tags, AssetPools};
use combustion::layout::read_field;
use combustion::tag::{
    CacheFile, ConvertError, Fault, Payload, Resident, Resource, ResourcePool, RuntimeVariant,
    Tag, BITMAP_CLASS, SOUND_CLASS,
};

const ADDRESS: u32 = 0x1000;

fn put(data: &mut [u8], at: usize, n: u32) {
    data[at..at + 4].copy_from_slice(&n.to_le_bytes());
}

/// A bitmap tag, or a bitmap resource where `base` is 0, with one entry.
fn one_entry(base: u32, flag: u8, offset: u32, size: u32) -> Vec<u8> {
    let mut data = vec![0u8; 0x68 + 48];
    put(&mut data, 0x60, 1);
    put(&mut data, 0x64, base + 0x68);
    data[0x68 + 0x0F] = flag;
    put(&mut data, 0x68 + 0x18, offset);
    put(&mut data, 0x68 + 0x1C, size);
    data
}

/// A sound tag with one range of one permutation.
fn one_permutation(flag: u8, offset: u32, size: u32) -> Vec<u8> {
    let mut data = vec![0u8; 0xA4 + 0x48 + 124];
    put(&mut data, 0x98, 1);
    put(&mut data, 0x9C, ADDRESS + 0xA4);
    put(&mut data, 0xA4 + 0x3C, 1);
    put(&mut data, 0xA4 + 0x40, ADDRESS + 0xA4 + 0x48);
    let block = 0xA4 + 0x48;
    data[block + 0x44] = flag;
    put(&mut data, block + 0x48, offset);
    put(&mut data, block + 0x40, size);
    data
}

/// The sound resource that has the same shape, with its payload at `offset`.
fn one_permutation_resource(name: &str, offset: u32, size: u32) -> Resource {
    let mut data = vec![0u8; 0xA4 + 0x48 + 124];
    put(&mut data, 0x98, 1);
    put(&mut data, 0xA4 + 0x3C, 1);
    put(&mut data, 0xA4 + 0x40, 0x48);
    let block = 0xA4 + 0x48;
    put(&mut data, block + 0x48, offset);
    put(&mut data, block + 0x40, size);
    Resource { name: String::from(name), data }
}

fn resident(class: u32, path: &str, data: Vec<u8>) -> Tag {
    Tag {
        class,
        path: String::from(path),
        payload: Payload::Resident(Resident {
            structured_data: data,
            asset_data: None,
            memory_address: ADDRESS,
        }),
    }
}

fn no_pools<'a>(pixels: &'a [u8], samples: &'a [u8]) -> AssetPools<'a> {
    AssetPools {
        bitmaps_source: pixels,
        sounds_source: samples,
        bitmaps_dest: None,
        sounds_dest: None,
    }
}

#[test]
fn cache_without_assets_only_changes_its_variant() {
    let tags = vec![
        resident(0x7363_6E72, "levels\\a10\\a10", vec![1, 2, 3]),
        resident(0x7368_6472, "shaders\\hull", Vec::new()),
        Tag {
            class: 0x6D6F_6432,
            path: String::from("characters\\grunt"),
            payload: Payload::External { resource_index: Some(7) },
        },
    ];
    let cache = CacheFile { tags: tags.clone(), variant: RuntimeVariant::Retail };
    let pool = ResourcePool { resources: Vec::new(), bytes: Vec::new() };
    let pools = AssetPools {
        bitmaps_source: &[],
        sounds_source: &[],
        bitmaps_dest: Some(&pool),
        sounds_dest: Some(&pool),
    };
    let out = convert_map(cache, &pools).unwrap();
    assert_eq!(out, CacheFile { tags, variant: RuntimeVariant::CustomEdition });
}

#[test]
fn empty_cache_converts_to_an_empty_cache() {
    let cache = CacheFile { tags: Vec::new(), variant: RuntimeVariant::Retail };
    let out = convert_map(cache, &no_pools(&[], &[]));
    assert_eq!(out, Ok(CacheFile { tags: Vec::new(), variant: RuntimeVariant::CustomEdition }));
}

#[test]
fn references_are_skipped_whatever_their_class() {
    let tag = Tag {
        class: BITMAP_CLASS,
        path: String::from("ui\\cursor"),
        payload: Payload::External { resource_index: None },
    };
    assert_eq!(resolve_tag(tag.clone(), &no_pools(&[], &[])), Ok(tag));
}

#[test]
fn pass_resolves_bitmaps_and_sounds_in_place() {
    let pixels = [5u8, 6, 7, 8];
    let samples = [1u8, 2, 3];
    let bitmap_pool = ResourcePool {
        resources: vec![Resource {
            name: String::from("ui\\cursor"),
            data: one_entry(0, 0, 1, 4),
        }],
        bytes: vec![0, 5, 6, 7, 8],
    };
    let sound_pool = ResourcePool {
        resources: vec![
            one_permutation_resource("sound\\other", 0, 3),
            one_permutation_resource("sound\\shared\\beep", 2, 3),
        ],
        bytes: vec![9, 9, 1, 2, 3],
    };
    let pools = AssetPools {
        bitmaps_source: &pixels,
        sounds_source: &samples,
        bitmaps_dest: Some(&bitmap_pool),
        sounds_dest: Some(&sound_pool),
    };
    let cache = CacheFile {
        tags: vec![
            resident(SOUND_CLASS, "sound\\beep", one_permutation(1, 0, 3)),
            resident(0x7363_6E72, "levels\\a10\\a10", vec![1, 2, 3]),
            resident(BITMAP_CLASS, "ui\\cursor", one_entry(ADDRESS, 1, 0, 4)),
            resident(BITMAP_CLASS, "ui\\arrow", one_entry(ADDRESS, 1, 1, 3)),
        ],
        variant: RuntimeVariant::Retail,
    };
    let out = convert_map(cache, &pools).unwrap();
    assert_eq!(out.variant, RuntimeVariant::CustomEdition);
    assert_eq!(out.tags.len(), 4);
    assert_eq!(
        out.tags[0],
        Tag {
            class: SOUND_CLASS,
            path: String::from("sound\\shared\\beep"),
            payload: Payload::External { resource_index: None },
        }
    );
    assert_eq!(out.tags[1], resident(0x7363_6E72, "levels\\a10\\a10", vec![1, 2, 3]));
    assert_eq!(
        out.tags[2],
        Tag {
            class: BITMAP_CLASS,
            path: String::from("ui\\cursor"),
            payload: Payload::External { resource_index: Some(0) },
        }
    );
    let mut data = one_entry(ADDRESS, 0, 0, 3);
    put(&mut data, 0x68 + 0x18, 0);
    assert_eq!(
        out.tags[3],
        Tag {
            class: BITMAP_CLASS,
            path: String::from("ui\\arrow"),
            payload: Payload::Resident(Resident {
                structured_data: data,
                asset_data: Some(vec![6, 7, 8]),
                memory_address: ADDRESS,
            }),
        }
    );
}

#[test]
fn unmatched_sound_is_repacked_and_keeps_its_path() {
    let samples = [1u8, 2, 3];
    let sound_pool = ResourcePool {
        resources: vec![one_permutation_resource("sound\\shared\\beep", 0, 3)],
        bytes: vec![1, 2, 4],
    };
    let pools = AssetPools {
        bitmaps_source: &[],
        sounds_source: &samples,
        bitmaps_dest: None,
        sounds_dest: Some(&sound_pool),
    };
    let tag = resident(SOUND_CLASS, "sound\\beep", one_permutation(1, 0, 3));
    let out = resolve_tag(tag, &pools).unwrap();
    assert_eq!(out.path, "sound\\beep");
    match out.payload {
        Payload::Resident(r) => assert_eq!(r.asset_data, Some(vec![1, 2, 3])),
        other => panic!("expected a resident tag, got {:?}", other),
    }
}

#[test]
fn first_malformed_tag_is_reported_with_index_and_class() {
    let pixels = [5u8, 6, 7, 8];
    let cache = CacheFile {
        tags: vec![
            resident(0x7363_6E72, "levels\\a10\\a10", Vec::new()),
            resident(BITMAP_CLASS, "ui\\cursor", one_entry(ADDRESS, 1, 0, 4)),
            resident(SOUND_CLASS, "sound\\bad", one_permutation(1, 2, 3)),
            resident(BITMAP_CLASS, "ui\\bad", one_entry(ADDRESS, 1, 2, 3)),
        ],
        variant: RuntimeVariant::Retail,
    };
    let out = convert_map(cache, &no_pools(&pixels, &[1, 2, 3]));
    let fault = Fault { resource: None, position: 0xA4 + 0x48 + 0x48 };
    assert_eq!(
        out,
        Err(ConvertError::MalformedTagData { tag_index: 2, class: SOUND_CLASS, fault })
    );
}

#[test]
fn malformed_bitmap_aborts_the_conversion() {
    let cache = CacheFile {
        tags: vec![resident(BITMAP_CLASS, "ui\\short", vec![0u8; 0x60])],
        variant: RuntimeVariant::CustomEdition,
    };
    let out = convert_map(cache, &no_pools(&[], &[]));
    let fault = Fault { resource: None, position: 0x60 };
    assert_eq!(
        out,
        Err(ConvertError::MalformedTagData { tag_index: 0, class: BITMAP_CLASS, fault })
    );
}

#[test]
fn converting_a_converted_cache_changes_nothing() {
    let pixels = [5u8, 6, 7, 8];
    let cache = CacheFile {
        tags: vec![resident(BITMAP_CLASS, "ui\\arrow", one_entry(ADDRESS, 1, 1, 3))],
        variant: RuntimeVariant::Retail,
    };
    let once = convert_map(cache, &no_pools(&pixels, &[])).unwrap();
    let twice = convert_map(once.clone(), &no_pools(&[], &[])).unwrap();
    assert_eq!(twice, once);
}

/// A bitmap tag, or a bitmap resource where `base` is 0, with two entries of
/// the sizes 100 and 50.
fn two_entries(base: u32, flag: u8, offsets: [u32; 2], sizes: [u32; 2]) -> Vec<u8> {
    let mut data = vec![0u8; 0x68 + 96];
    put(&mut data, 0x60, 2);
    put(&mut data, 0x64, base + 0x68);
    for i in 0..2 {
        data[0x68 + i * 48 + 0x0F] = flag;
        put(&mut data, 0x68 + i * 48 + 0x18, offsets[i]);
        put(&mut data, 0x68 + i * 48 + 0x1C, sizes[i]);
    }
    data
}

fn pixels() -> Vec<u8> {
    (0..150u32).map(|i| (i * 7 % 251) as u8).collect()
}

#[test]
fn bitmap_with_identical_resource_becomes_a_reference() {
    let source = pixels();
    let mut dest = vec![0u8; 10];
    dest.extend_from_slice(&source);
    let pool = ResourcePool {
        resources: vec![Resource {
            name: String::from("ui\\shell\\background"),
            data: two_entries(0, 0, [10, 110], [100, 50]),
        }],
        bytes: dest,
    };
    let pools = AssetPools {
        bitmaps_source: &source,
        sounds_source: &[],
        bitmaps_dest: Some(&pool),
        sounds_dest: None,
    };
    let tag = resident(BITMAP_CLASS, "ui\\background", two_entries(ADDRESS, 1, [0, 100], [100, 50]));
    let out = resolve_tag(tag, &pools).unwrap();
    assert_eq!(out.payload, Payload::External { resource_index: Some(0) });
    assert_eq!(out.class, BITMAP_CLASS);
    assert_eq!(out.path, "ui\\background");
}

#[test]
fn bitmap_with_other_sizes_in_the_resource_is_repacked() {
    let source = pixels();
    let mut dest = vec![0u8; 10];
    dest.extend_from_slice(&source);
    dest.push(0);
    let pool = ResourcePool {
        resources: vec![Resource {
            name: String::from("ui\\shell\\background"),
            data: two_entries(0, 0, [10, 110], [100, 51]),
        }],
        bytes: dest,
    };
    let pools = AssetPools {
        bitmaps_source: &source,
        sounds_source: &[],
        bitmaps_dest: Some(&pool),
        sounds_dest: None,
    };
    let tag = resident(BITMAP_CLASS, "ui\\background", two_entries(ADDRESS, 1, [0, 100], [100, 50]));
    let out = resolve_tag(tag, &pools).unwrap();
    let repacked = match out.payload {
        Payload::Resident(resident) => resident,
        other => panic!("expected a resident tag, got {:?}", other),
    };
    assert_eq!(repacked.asset_data, Some(source.clone()));
    assert_eq!(read_field(&repacked.structured_data, 0x68 + 0x18), Some(0));
    assert_eq!(read_field(&repacked.structured_data, 0x68 + 48 + 0x18), Some(100));
    assert_eq!(repacked.structured_data[0x68 + 0x0F] & 1, 0);
    assert_eq!(repacked.structured_data[0x68 + 48 + 0x0F] & 1, 0);
}

#[test]
fn pass_keeps_the_variant_and_conversion_sets_it() {
    let cache = CacheFile {
        tags: vec![resident(0x7363_6E72, "levels\\a10\\a10", vec![1])],
        variant: RuntimeVariant::Retail,
    };
    let passed = resolve_tags(cache.clone(), &no_pools(&[], &[])).unwrap();
    assert_eq!(passed, cache);
    let out = convert_map(cache.clone(), &no_pools(&[], &[])).unwrap();
    assert_eq!(out.tags, cache.tags);
    assert_eq!(out.variant, RuntimeVariant::CustomEdition);
}

#[test]
fn class_codes_spell_their_names() {
    assert_eq!(BITMAP_CLASS.to_be_bytes(), *b"bitm");
    assert_eq!(SOUND_CLASS.to_be_bytes(), *b"snd!");
}

#[test]
fn malformed_resource_is_reported_with_its_index() {
    let pixels = [5u8, 6, 7, 8];
    let pool = ResourcePool {
        resources: vec![
            Resource { name: String::from("ui\\other"), data: one_entry(0, 0, 0, 5) },
            Resource { name: String::from("ui\\cursor"), data: one_entry(0, 0, 2, 4) },
        ],
        bytes: vec![0, 5, 6, 7, 8],
    };
    let pools = AssetPools {
        bitmaps_source: &pixels,
        sounds_source: &[],
        bitmaps_dest: Some(&pool),
        sounds_dest: None,
    };
    let cache = CacheFile {
        tags: vec![resident(BITMAP_CLASS, "ui\\cursor", one_entry(ADDRESS, 1, 0, 4))],
        variant: RuntimeVariant::Retail,
    };
    let fault = Fault { resource: Some(1), position: 0x68 + 0x18 };
    assert_eq!(
        convert_map(cache, &pools),
        Err(ConvertError::MalformedTagData { tag_index: 0, class: BITMAP_CLASS, fault })
    );
}
