use combustion::output::{assemble, deliver, serialized};
use combustion::tag::{CacheFile, ConvertError, Payload, RuntimeVariant, Tag};

#[test]
fn buffer_of_the_exact_length_receives_the_cache_file() {
    let converted = vec![1u8, 2, 3, 4];
    let mut buffer = [0u8; 4];
    assert_eq!(deliver(&converted, &mut buffer), 4);
    assert_eq!(buffer, [1, 2, 3, 4]);
}

#[test]
fn longer_buffer_is_left_untouched() {
    let converted = vec![1u8, 2, 3, 4];
    let mut buffer = [9u8; 5];
    assert_eq!(deliver(&converted, &mut buffer), 0);
    assert_eq!(buffer, [9; 5]);
}

#[test]
fn shorter_buffer_is_left_untouched() {
    let converted = vec![1u8, 2, 3, 4];
    let mut buffer = [9u8; 3];
    assert_eq!(deliver(&converted, &mut buffer), 0);
    assert_eq!(buffer, [9; 3]);
    let mut nothing: [u8; 0] = [];
    assert_eq!(deliver(&converted, &mut nothing), 0);
}

#[test]
fn failed_serialization_is_an_error() {
    assert_eq!(serialized(None), Err(ConvertError::SerializationError));
    assert_eq!(serialized(Some(vec![7, 8])), Ok(vec![7, 8]));
    assert_eq!(serialized(Some(Vec::new())), Ok(Vec::new()));
}

#[test]
fn assembling_marks_the_destination_runtime() {
    let tag = Tag {
        class: 0x7363_6E72,
        path: String::from("levels\\a10\\a10"),
        payload: Payload::External { resource_index: None },
    };
    let retail = CacheFile { tags: vec![tag.clone()], variant: RuntimeVariant::Retail };
    let marked = CacheFile { tags: vec![tag], variant: RuntimeVariant::CustomEdition };
    assert_eq!(assemble(retail), marked);
    assert_eq!(assemble(marked.clone()), marked);
}
