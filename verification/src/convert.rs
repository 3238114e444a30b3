//! The conversion pass: every tag of a cache file in collection order, bitmap
//! and sound tags resolved, all others passed through, and the result marked
//! for the destination runtime.

use crate::bitmap::{bitmap_resolved, resolve_bitmap};
use crate::matching::lemma_first_decisive;
use crate::output::assemble;
use crate::sound::{resolve_sound, sound_ranges, sound_resolved, sound_verdicts};
use crate::tag::{pool_view, CacheFile, CacheView, ConvertError, Fault, Payload, PayloadView, PoolView, Resolution, ResolutionView, ResourcePool, RuntimeVariant, Tag, TagView, BITMAP_CLASS, SOUND_CLASS};
use vstd::prelude::*;

verus! {

/// The buffers that a conversion reads besides the cache file itself.
pub struct AssetPools<'a> {
    /// The source runtime's shared pixel pool.
    pub bitmaps_source: &'a [u8],
    /// The source runtime's shared sample pool.
    pub sounds_source: &'a [u8],
    /// The destination runtime's bitmap resources, where they are at hand.
    pub bitmaps_dest: Option<&'a ResourcePool>,
    /// The destination runtime's sound resources, where they are at hand.
    pub sounds_dest: Option<&'a ResourcePool>,
}

/// Mathematical model of [`AssetPools`].
pub struct PoolsView {
    pub bitmaps_source: Seq<u8>,
    pub sounds_source: Seq<u8>,
    pub bitmaps_dest: Option<PoolView>,
    pub sounds_dest: Option<PoolView>,
}

impl<'a> View for AssetPools<'a> {
    type V = PoolsView;

    open spec fn view(&self) -> PoolsView {
        PoolsView {
            bitmaps_source: self.bitmaps_source@,
            sounds_source: self.sounds_source@,
            bitmaps_dest: pool_view(self.bitmaps_dest),
            sounds_dest: pool_view(self.sounds_dest),
        }
    }
}

/// The name of the resource at `index` of an optional pool.
pub open spec fn resource_name(pool: Option<PoolView>, index: usize) -> Seq<char>
    recommends
        pool matches Some(p) && index < p.resources.len(),
{
    pool->0.resources[index as int].name
}

/// What the pass makes of one tag.
///
/// A tag that is a reference already, and a resident tag of any class but
/// the two that carry large payloads, stays as it is. A bitmap tag that
/// matches a resource becomes a reference to it by index. A sound tag that
/// matches a resource becomes a reference without an index and takes the
/// resource's name as its path. A tag that matches nothing keeps its class
/// and path and gets the repacked data. A malformed tag, or a malformed
/// resource that it was compared with, gives the fault that was met.
#[verifier::opaque]
pub open spec fn tag_resolved(t: TagView, pools: PoolsView) -> Result<TagView, Fault> {
    match t.payload {
        PayloadView::External { .. } => Ok(t),
        PayloadView::Resident(r) => if t.class == BITMAP_CLASS {
            match bitmap_resolved(r, pools.bitmaps_source, pools.bitmaps_dest) {
                Ok(ResolutionView::Matched(index)) => Ok(
                    TagView {
                        class: t.class,
                        path: t.path,
                        payload: PayloadView::External { resource_index: Some(index) },
                    },
                ),
                Ok(ResolutionView::Repacked(repacked)) => Ok(
                    TagView { class: t.class, path: t.path, payload: PayloadView::Resident(repacked) },
                ),
                Err(fault) => Err(fault),
            }
        } else if t.class == SOUND_CLASS {
            match sound_resolved(r, pools.sounds_source, pools.sounds_dest) {
                Ok(ResolutionView::Matched(index)) => Ok(
                    TagView {
                        class: t.class,
                        path: resource_name(pools.sounds_dest, index),
                        payload: PayloadView::External { resource_index: None },
                    },
                ),
                Ok(ResolutionView::Repacked(repacked)) => Ok(
                    TagView { class: t.class, path: t.path, payload: PayloadView::Resident(repacked) },
                ),
                Err(fault) => Err(fault),
            }
        } else {
            Ok(t)
        },
    }
}

/// The first tag from position `from` on that is malformed.
pub open spec fn first_malformed(tags: Seq<TagView>, pools: PoolsView, from: int) -> Option<int>
    decreases tags.len() - from,
{
    if from < 0 || from >= tags.len() {
        None
    } else if tag_resolved(tags[from], pools) is Err {
        Some(from)
    } else {
        first_malformed(tags, pools, from + 1)
    }
}

/// What the pass over the tags makes of a cache file: every tag resolved,
/// in collection order; or the first malformed tag, by index and class, with
/// the fault that was met in it, and nothing else.
pub open spec fn resolved(cache: CacheView, pools: PoolsView) -> Result<CacheView, ConvertError> {
    match first_malformed(cache.tags, pools, 0) {
        Some(index) => Err(
            ConvertError::MalformedTagData {
                tag_index: index as usize,
                class: cache.tags[index].class,
                fault: tag_resolved(cache.tags[index], pools)->Err_0,
            },
        ),
        None => Ok(
            CacheView {
                tags: Seq::new(
                    cache.tags.len(),
                    |i: int| tag_resolved(cache.tags[i], pools)->Ok_0,
                ),
                variant: cache.variant,
            },
        ),
    }
}

/// What a conversion makes of a cache file: every tag resolved and the file
/// marked for the destination runtime; or the error of the pass.
pub open spec fn converted(cache: CacheView, pools: PoolsView) -> Result<CacheView, ConvertError> {
    match resolved(cache, pools) {
        Ok(out) => Ok(CacheView { tags: out.tags, variant: RuntimeVariant::CustomEdition }),
        Err(e) => Err(e),
    }
}

/// The model of a tag or of the fault that was met instead.
pub open spec fn tag_view(tag: Result<Tag, Fault>) -> Result<TagView, Fault> {
    match tag {
        Ok(t) => Ok(t@),
        Err(fault) => Err(fault),
    }
}

/// The model of the outcome of a conversion.
pub open spec fn outcome_view(outcome: Result<CacheFile, ConvertError>) -> Result<
    CacheView,
    ConvertError,
> {
    match outcome {
        Ok(cache) => Ok(cache@),
        Err(e) => Err(e),
    }
}

/// The name of the sound resource that a tag was matched with.
fn matched_name(pool: Option<&ResourcePool>, index: usize) -> (name: Option<String>)
    ensures
        match pool {
            Some(p) => index < p.resources@.len() ==> (name matches Some(n) && n@
                == p@.resources[index as int].name),
            None => name.is_none(),
        },
{
    match pool {
        Some(p) => if index < p.resources.len() {
            Some(p.resources[index].name.clone())
        } else {
            None
        },
        None => None,
    }
}

/// Resolves one tag as the pass does. The error says where malformed data
/// was met.
pub fn resolve_tag(tag: Tag, pools: &AssetPools) -> (r: Result<Tag, Fault>)
    ensures
        tag_view(r) == tag_resolved(tag@, pools@),
{
    reveal(tag_resolved);
    let Tag { class, path, payload } = tag;
    match payload {
        Payload::External { resource_index } => Ok(
            Tag { class, path, payload: Payload::External { resource_index } },
        ),
        Payload::Resident(resident) => {
            if class == BITMAP_CLASS {
                match resolve_bitmap(resident, pools.bitmaps_source, pools.bitmaps_dest) {
                    Ok(Resolution::Matched(index)) => Ok(
                        Tag { class, path, payload: Payload::External { resource_index: Some(index) } },
                    ),
                    Ok(Resolution::Repacked(repacked)) => Ok(
                        Tag { class, path, payload: Payload::Resident(repacked) },
                    ),
                    Err(fault) => Err(fault),
                }
            } else if class == SOUND_CLASS {
                let ghost before = resident@;
                match resolve_sound(resident, pools.sounds_source, pools.sounds_dest) {
                    Ok(Resolution::Matched(index)) => {
                        proof {
                            assert(pools.sounds_dest->0.resources.len() <= usize::MAX);
                            let pool = pools@.sounds_dest->0;
                            let (count, table) = sound_ranges(before)->Ok_0->0;
                            lemma_first_decisive(
                                sound_verdicts(before, count, table, pools@.sounds_source, pool),
                                0,
                            );
                        }
                        let name = match matched_name(pools.sounds_dest, index) {
                            Some(name) => name,
                            None => path,
                        };
                        Ok(
                            Tag {
                                class,
                                path: name,
                                payload: Payload::External { resource_index: None },
                            },
                        )
                    },
                    Ok(Resolution::Repacked(repacked)) => Ok(
                        Tag { class, path, payload: Payload::Resident(repacked) },
                    ),
                    Err(fault) => Err(fault),
                }
            } else {
                Ok(Tag { class, path, payload: Payload::Resident(resident) })
            }
        },
    }
}

/// Resolves every tag of a cache file, in collection order. A malformed tag
/// abandons the pass, and the error names the first such tag.
pub fn resolve_tags(cache: CacheFile, pools: &AssetPools) -> (outcome: Result<
    CacheFile,
    ConvertError,
>)
    ensures
        outcome_view(outcome) == resolved(cache@, pools@),
{
    let ghost before = cache@;
    let CacheFile { tags, variant } = cache;
    let mut tags = tags;
    let count: usize = tags.len();
    let mut index: usize = 0;
    while index < count
        invariant
            before == cache@,
            index <= count == tags@.len() == before.tags.len(),
            first_malformed(before.tags, pools@, index as int) == first_malformed(
                before.tags,
                pools@,
                0,
            ),
            forall|i: int|
                0 <= i < index ==> tag_resolved(before.tags[i], pools@) == Ok::<TagView, Fault>(
                    #[trigger] tags@[i]@,
                ),
            forall|i: int| index <= i < count ==> before.tags[i] == #[trigger] tags@[i]@,
        decreases count - index,
    {
        let mut slot = Tag {
            class: 0,
            path: String::new(),
            payload: Payload::External { resource_index: None },
        };
        tags.set_and_swap(index, &mut slot);
        let class: u32 = slot.class;
        assert(slot@ == before.tags[index as int]);
        match resolve_tag(slot, pools) {
            Ok(done) => {
                tags.set(index, done);
            },
            Err(fault) => {
                return Err(ConvertError::MalformedTagData { tag_index: index, class, fault });
            },
        }
        index = index + 1;
    }
    let out = CacheFile { tags, variant };
    assert(out@.tags =~= resolved(before, pools@)->Ok_0.tags);
    Ok(out)
}

/// Converts a cache file: resolves every tag in collection order and marks
/// the file for the destination runtime. A malformed tag abandons the
/// conversion, and the error names the first such tag.
pub fn convert_map(cache: CacheFile, pools: &AssetPools) -> (outcome: Result<
    CacheFile,
    ConvertError,
>)
    ensures
        outcome_view(outcome) == converted(cache@, pools@),
{
    match resolve_tags(cache, pools) {
        Ok(out) => Ok(assemble(out)),
        Err(e) => Err(e),
    }
}

} // verus!
