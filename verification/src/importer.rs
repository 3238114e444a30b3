//! Importing a tag subgraph from an auxiliary cache file.
//!
//! Parsing the auxiliary file, looking a tag up, listing a tag's references
//! and inserting the closure of a tag into the primary file are the work of
//! the container format's reader. What is decided here is what to ask of it
//! next: [`import_step`] takes the state of an import and the outcome of the
//! last request and gives the next state and the next request.

use crate::tag::ConvertError;
use vstd::prelude::*;

verus! {

/// Class code of the tag that an import starts from: the characters `tagc`.
pub const IMPORT_ROOT_CLASS: u32 = 0x7461_6763;

/// How far an import has come.
#[derive(Clone, Copy, Debug, PartialEq, Eq)]
pub enum ImportState {
    /// Nothing has been asked for yet.
    Start,
    /// The auxiliary cache file is being parsed.
    Parsing,
    /// The tag that the import starts from is being looked up.
    Locating,
    /// The references of the tag at index `root` are being listed.
    Listing { root: usize },
    /// The closure of the reference at position `next` of the `count` listed
    /// ones is being inserted; those before it have been dealt with.
    Inserting { count: usize, next: usize },
    /// Nothing is left to do.
    Finished,
    /// The import was abandoned.
    Failed(ConvertError),
}

/// What the last request led to.
#[derive(Clone, Copy, Debug, PartialEq, Eq)]
pub enum ImportEvent {
    /// The conversion was handed an auxiliary buffer of this length.
    Supplied { auxiliary_len: usize },
    /// The auxiliary cache file was parsed.
    Parsed,
    /// The auxiliary buffer is no cache file.
    ParseFailed,
    /// The lookup ended, with the index of the tag where there is one.
    Located { root: Option<usize> },
    /// The tag has this many references.
    Listed { count: usize },
    /// The closure is in the primary file now: it was inserted, or it was
    /// there already.
    Inserted,
    /// The insertion failed.
    InsertFailed,
}

/// What to ask of the container format's reader next.
#[derive(Clone, Copy, Debug, PartialEq, Eq)]
pub enum ImportAction {
    /// Parse the auxiliary buffer.
    Parse,
    /// Look up, in the auxiliary file, the tag with the path
    /// [`import_root_path`] and the class [`IMPORT_ROOT_CLASS`].
    Locate,
    /// List the references of the auxiliary file's tag at index `root`.
    List { root: usize },
    /// Insert into the primary file the closure of the tag that the listed
    /// reference at this position points to.
    Insert { position: usize },
    /// Go on with the conversion.
    Done,
    /// Abandon the conversion with this error.
    Fail(ConvertError),
}

/// Path of the tag that an import starts from.
pub open spec fn root_path() -> Seq<char> {
    "ui\\ui_tags_loaded_multiplayer_scenario_type"@
}

/// The next state and the next request, or `None` where the event is not one
/// that the state waits for.
///
/// An empty auxiliary buffer ends the import at once. A buffer that is no
/// cache file and a missing root tag abandon it, each with its own error.
/// The references of the root tag are inserted one by one, in the order in
/// which they were listed and each of them once. An insertion that fails
/// abandons the import with a format error: nothing is inserted after it and
/// the failure is not passed over.
pub open spec fn import_next(state: ImportState, event: ImportEvent) -> Option<
    (ImportState, ImportAction),
> {
    match (state, event) {
        (ImportState::Start, ImportEvent::Supplied { auxiliary_len }) => if auxiliary_len == 0 {
            Some((ImportState::Finished, ImportAction::Done))
        } else {
            Some((ImportState::Parsing, ImportAction::Parse))
        },
        (ImportState::Parsing, ImportEvent::Parsed) => Some(
            (ImportState::Locating, ImportAction::Locate),
        ),
        (ImportState::Parsing, ImportEvent::ParseFailed) => Some(
            (
                ImportState::Failed(ConvertError::FormatError),
                ImportAction::Fail(ConvertError::FormatError),
            ),
        ),
        (ImportState::Locating, ImportEvent::Located { root: Some(root) }) => Some(
            (ImportState::Listing { root }, ImportAction::List { root }),
        ),
        (ImportState::Locating, ImportEvent::Located { root: None }) => Some(
            (
                ImportState::Failed(ConvertError::MissingRequiredTag),
                ImportAction::Fail(ConvertError::MissingRequiredTag),
            ),
        ),
        (ImportState::Listing { .. }, ImportEvent::Listed { count }) => if count == 0 {
            Some((ImportState::Finished, ImportAction::Done))
        } else {
            Some(
                (ImportState::Inserting { count, next: 0 }, ImportAction::Insert { position: 0 }),
            )
        },
        (ImportState::Inserting { count, next }, ImportEvent::Inserted) => if next + 1 < count {
            Some(
                (
                    ImportState::Inserting { count, next: (next + 1) as usize },
                    ImportAction::Insert { position: (next + 1) as usize },
                ),
            )
        } else {
            Some((ImportState::Finished, ImportAction::Done))
        },
        (ImportState::Inserting { .. }, ImportEvent::InsertFailed) => Some(
            (
                ImportState::Failed(ConvertError::FormatError),
                ImportAction::Fail(ConvertError::FormatError),
            ),
        ),
        _ => None,
    }
}

/// The path of the tag that an import starts from.
pub fn import_root_path() -> (path: &'static str)
    ensures
        path@ == root_path(),
{
    "ui\\ui_tags_loaded_multiplayer_scenario_type"
}

/// Decides what an import does next.
pub fn import_step(state: ImportState, event: ImportEvent) -> (r: Option<
    (ImportState, ImportAction),
>)
    ensures
        r == import_next(state, event),
{
    match (state, event) {
        (ImportState::Start, ImportEvent::Supplied { auxiliary_len }) => {
            if auxiliary_len == 0 {
                Some((ImportState::Finished, ImportAction::Done))
            } else {
                Some((ImportState::Parsing, ImportAction::Parse))
            }
        },
        (ImportState::Parsing, ImportEvent::Parsed) => Some(
            (ImportState::Locating, ImportAction::Locate),
        ),
        (ImportState::Parsing, ImportEvent::ParseFailed) => Some(
            (
                ImportState::Failed(ConvertError::FormatError),
                ImportAction::Fail(ConvertError::FormatError),
            ),
        ),
        (ImportState::Locating, ImportEvent::Located { root: Some(root) }) => Some(
            (ImportState::Listing { root }, ImportAction::List { root }),
        ),
        (ImportState::Locating, ImportEvent::Located { root: None }) => Some(
            (
                ImportState::Failed(ConvertError::MissingRequiredTag),
                ImportAction::Fail(ConvertError::MissingRequiredTag),
            ),
        ),
        (ImportState::Listing { root: _ }, ImportEvent::Listed { count }) => {
            if count == 0 {
                Some((ImportState::Finished, ImportAction::Done))
            } else {
                Some(
                    (
                        ImportState::Inserting { count, next: 0 },
                        ImportAction::Insert { position: 0 },
                    ),
                )
            }
        },
        (ImportState::Inserting { count, next }, ImportEvent::Inserted) => {
            if next < count && count - next > 1 {
                Some(
                    (
                        ImportState::Inserting { count, next: next + 1 },
                        ImportAction::Insert { position: next + 1 },
                    ),
                )
            } else {
                Some((ImportState::Finished, ImportAction::Done))
            }
        },
        (ImportState::Inserting { count: _, next: _ }, ImportEvent::InsertFailed) => Some(
            (
                ImportState::Failed(ConvertError::FormatError),
                ImportAction::Fail(ConvertError::FormatError),
            ),
        ),
        _ => None,
    }
}

} // verus!
