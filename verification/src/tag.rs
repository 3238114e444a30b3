//! The data that a conversion works on: tags, cache files, shared resources.

use vstd::prelude::*;

verus! {

/// Class code of a bitmap container tag: the characters `bitm`.
pub const BITMAP_CLASS: u32 = 0x6269_746D;

/// Class code of a sound container tag: the characters `snd!`.
pub const SOUND_CLASS: u32 = 0x736E_6421;

/// The field at which malformed data was met.
#[derive(Clone, Copy, Debug, PartialEq, Eq)]
pub struct Fault {
    /// The index, in the destination pool, of the resource whose data holds
    /// the field; `None` where the tag's own structured data holds it.
    pub resource: Option<usize>,
    /// The position, in that data, of the field that does not exist or whose
    /// value points outside the buffer that it refers to; for a block that
    /// does not lie inside the data, the position at which it would start.
    pub position: u64,
}

/// Why a conversion was abandoned. No error leaves a partial result behind.
#[derive(Clone, Copy, Debug, PartialEq, Eq)]
pub enum ConvertError {
    /// A cache file or a resource map could not be parsed.
    FormatError,
    /// The auxiliary cache file lacks the tag that an import starts from.
    MissingRequiredTag,
    /// A size or an offset met while the tag at `tag_index`, of class
    /// `class`, was resolved points outside the buffer that it refers to;
    /// `fault` says which one.
    MalformedTagData { tag_index: usize, class: u32, fault: Fault },
    /// The converted cache file could not be written out.
    SerializationError,
}

/// The runtime that a cache file is built for.
#[derive(Clone, Copy, Debug, PartialEq, Eq)]
pub enum RuntimeVariant {
    /// The runtime that cache files are converted from.
    Retail,
    /// The runtime that cache files are converted to.
    CustomEdition,
}

/// The part of a tag that is stored inside its own cache file.
#[derive(Clone, Debug, PartialEq, Eq)]
pub struct Resident {
    /// The tag's header and tables. Pointers in it are virtual addresses.
    pub structured_data: Vec<u8>,
    /// The tag's private payload, absent until something is appended to it.
    pub asset_data: Option<Vec<u8>>,
    /// The virtual address at which `structured_data` was laid out.
    pub memory_address: u32,
}

/// Where a tag's content lives.
#[derive(Clone, Debug, PartialEq, Eq)]
pub enum Payload {
    /// The content is stored in the cache file.
    Resident(Resident),
    /// The content is supplied by a shared resource, found by `resource_index`
    /// where there is one and by the tag's path otherwise.
    External { resource_index: Option<usize> },
}

/// What resolving did to the resident part of a bitmap or sound tag.
#[derive(Clone, Debug, PartialEq, Eq)]
pub enum Resolution {
    /// The resource at this index of the destination pool supplies the
    /// payloads from now on.
    Matched(usize),
    /// The payloads were moved into the tag's own asset stream where they
    /// were not there already.
    Repacked(Resident),
}

/// One named, typed unit of a cache file.
#[derive(Clone, Debug, PartialEq, Eq)]
pub struct Tag {
    /// Four-byte code of the tag's format.
    pub class: u32,
    /// Symbolic name of the tag.
    pub path: String,
    /// The tag's content, or the reference that stands for it.
    pub payload: Payload,
}

/// An ordered collection of tags and the runtime it is meant for.
#[derive(Clone, Debug, PartialEq, Eq)]
pub struct CacheFile {
    pub tags: Vec<Tag>,
    pub variant: RuntimeVariant,
}

/// One named blob of a shared resource map.
#[derive(Clone, Debug, PartialEq, Eq)]
pub struct Resource {
    pub name: String,
    pub data: Vec<u8>,
}

/// The destination runtime's shared resources of one kind: the entries of its
/// resource map, in order, and the raw buffer that their payload offsets
/// point into.
#[derive(Clone, Debug, PartialEq, Eq)]
pub struct ResourcePool {
    pub resources: Vec<Resource>,
    pub bytes: Vec<u8>,
}

/// Mathematical model of a [`Resident`].
pub struct ResidentView {
    pub structured: Seq<u8>,
    pub asset: Option<Seq<u8>>,
    pub address: u32,
}

/// Mathematical model of a [`Payload`].
pub enum PayloadView {
    Resident(ResidentView),
    External { resource_index: Option<usize> },
}

/// Mathematical model of a [`Resolution`].
pub enum ResolutionView {
    Matched(usize),
    Repacked(ResidentView),
}

/// Mathematical model of a [`Tag`].
pub struct TagView {
    pub class: u32,
    pub path: Seq<char>,
    pub payload: PayloadView,
}

/// Mathematical model of a [`CacheFile`].
pub struct CacheView {
    pub tags: Seq<TagView>,
    pub variant: RuntimeVariant,
}

/// Mathematical model of a [`Resource`].
pub struct ResourceView {
    pub name: Seq<char>,
    pub data: Seq<u8>,
}

/// Mathematical model of a [`ResourcePool`].
pub struct PoolView {
    pub resources: Seq<ResourceView>,
    pub bytes: Seq<u8>,
}

/// The bytes of an optional buffer.
pub open spec fn stream_view(stream: Option<Vec<u8>>) -> Option<Seq<u8>> {
    match stream {
        Some(bytes) => Some(bytes@),
        None => None,
    }
}

impl View for Resident {
    type V = ResidentView;

    open spec fn view(&self) -> ResidentView {
        ResidentView {
            structured: self.structured_data@,
            asset: stream_view(self.asset_data),
            address: self.memory_address,
        }
    }
}

impl View for Payload {
    type V = PayloadView;

    open spec fn view(&self) -> PayloadView {
        match *self {
            Payload::Resident(resident) => PayloadView::Resident(resident@),
            Payload::External { resource_index } => PayloadView::External { resource_index },
        }
    }
}

impl View for Resolution {
    type V = ResolutionView;

    open spec fn view(&self) -> ResolutionView {
        match *self {
            Resolution::Matched(index) => ResolutionView::Matched(index),
            Resolution::Repacked(resident) => ResolutionView::Repacked(resident@),
        }
    }
}

/// The model of a resolution or of the fault that kept it from being made.
pub open spec fn resolution_view(r: Result<Resolution, Fault>) -> Result<ResolutionView, Fault> {
    match r {
        Ok(resolution) => Ok(resolution@),
        Err(fault) => Err(fault),
    }
}

/// A fault in the tag's own structured data.
pub open spec fn tag_fault(position: int) -> Fault {
    Fault { resource: None, position: position as u64 }
}

/// A fault in the data of the resource at `index` of the destination pool.
pub open spec fn resource_fault(index: usize, position: int) -> Fault {
    Fault { resource: Some(index), position: position as u64 }
}

/// The model of an optional pool.
pub open spec fn pool_view(pool: Option<&ResourcePool>) -> Option<PoolView> {
    match pool {
        Some(p) => Some(p@),
        None => None,
    }
}

impl View for Tag {
    type V = TagView;

    open spec fn view(&self) -> TagView {
        TagView { class: self.class, path: self.path@, payload: self.payload@ }
    }
}

impl View for CacheFile {
    type V = CacheView;

    open spec fn view(&self) -> CacheView {
        CacheView { tags: self.tags@.map_values(|t: Tag| t@), variant: self.variant }
    }
}

impl View for Resource {
    type V = ResourceView;

    open spec fn view(&self) -> ResourceView {
        ResourceView { name: self.name@, data: self.data@ }
    }
}

impl View for ResourcePool {
    type V = PoolView;

    open spec fn view(&self) -> PoolView {
        PoolView { resources: self.resources@.map_values(|r: Resource| r@), bytes: self.bytes@ }
    }
}

} // verus!
