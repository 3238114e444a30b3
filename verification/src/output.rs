//! The end of a conversion: marking the cache file for the destination
//! runtime and handing the serialized result over.

use crate::tag::{CacheFile, CacheView, ConvertError, RuntimeVariant};
use vstd::prelude::*;

verus! {

/// Marks a cache file for the destination runtime. The tags stay as they
/// are.
pub fn assemble(cache: CacheFile) -> (out: CacheFile)
    ensures
        out@ == (CacheView { tags: cache@.tags, variant: RuntimeVariant::CustomEdition }),
{
    let CacheFile { tags, variant: _ } = cache;
    CacheFile { tags, variant: RuntimeVariant::CustomEdition }
}

/// What a conversion returns once the container format's writer has been
/// asked to serialize the cache file: the bytes that it produced, or a
/// serialization error where it produced none. Nothing is tried again.
pub fn serialized(outcome: Option<Vec<u8>>) -> (r: Result<Vec<u8>, ConvertError>)
    ensures
        match outcome {
            Some(bytes) => r == Ok::<Vec<u8>, ConvertError>(bytes),
            None => r == Err::<Vec<u8>, ConvertError>(ConvertError::SerializationError),
        },
{
    match outcome {
        Some(bytes) => Ok(bytes),
        None => Err(ConvertError::SerializationError),
    }
}

/// Copies a converted cache file into the caller's buffer, which has to be
/// exactly as long as the cache file, and returns the number of bytes
/// written. A buffer of any other length, longer or shorter, is left
/// untouched and 0 is returned.
pub fn deliver(converted: &[u8], buffer: &mut [u8]) -> (written: usize)
    ensures
        converted@.len() == old(buffer)@.len() ==> final(buffer)@ == converted@ && written
            == converted@.len(),
        converted@.len() != old(buffer)@.len() ==> final(buffer)@ == old(buffer)@ && written == 0,
{
    let len: usize = converted.len();
    if buffer.len() != len {
        return 0;
    }
    let mut i: usize = 0;
    while i < len
        invariant
            i <= len == converted@.len() == buffer@.len(),
            buffer@.subrange(0, i as int) == converted@.subrange(0, i as int),
        decreases len - i,
    {
        let ghost copied = buffer@.subrange(0, i as int);
        buffer[i] = converted[i];
        assert(buffer@.subrange(0, i + 1) =~= copied.push(converted@[i as int]));
        assert(converted@.subrange(0, i + 1) =~= converted@.subrange(0, i as int).push(
            converted@[i as int],
        ));
        i += 1;
    }
    assert(buffer@ =~= buffer@.subrange(0, len as int));
    assert(converted@ =~= converted@.subrange(0, len as int));
    len
}

} // verus!
