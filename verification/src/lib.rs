//! Asset localization and deduplication for packaged cache files.
//!
//! A cache file carries bitmap and sound tags whose large payloads live either
//! in a pool shared by every cache file of the source runtime or in the tag's
//! own asset stream. This crate decides, tag by tag, whether such a payload is
//! already present in the destination runtime's shared resources (the tag then
//! becomes a reference to that resource) or has to be repacked into the tag's
//! private stream, and it states and proves what each of those steps does.
//!
//! - [`tag`] holds the data model, [`layout`] the bounds-checked access to
//!   little-endian fields.
//! - [`matching`] compares a tag with a candidate resource and picks the
//!   first resource that matches; [`repack`] moves payloads into the private
//!   stream. [`bitmap`] and [`sound`] apply both to the two kinds of tags.
//! - [`convert`] is the pass over a whole cache file, [`output`] its end, and
//!   [`importer`] the protocol of the import that may precede it.
//! - [`conservation`] and [`laws`] hold what is proved of all of this.
//!
//! Parsing and serializing the container format is not done here: the crate
//! works on parsed tags and hands parsed tags back.

pub mod bitmap;
pub mod conservation;
pub mod convert;
pub mod importer;
pub mod laws;
pub mod layout;
pub mod matching;
pub mod output;
pub mod repack;
pub mod sound;
pub mod tag;
