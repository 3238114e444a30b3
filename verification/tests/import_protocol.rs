use combustion::convert::{convert_map, AssetPools};
use combustion::importer::{
    import_root_path, import_step, ImportAction, ImportEvent, ImportState, IMPORT_ROOT_CLASS,
};
use combustion::tag::{CacheFile, ConvertError, Payload, Resident, RuntimeVariant, Tag};

#[test]
fn empty_auxiliary_buffer_imports_nothing() {
    let step = import_step(ImportState::Start, ImportEvent::Supplied { auxiliary_len: 0 });
    assert_eq!(step, Some((ImportState::Finished, ImportAction::Done)));
    let tag = Tag {
        class: 0x7363_6E72,
        path: String::from("levels\\a10\\a10"),
        payload: Payload::Resident(Resident {
            structured_data: vec![1, 2, 3],
            asset_data: None,
            memory_address: 0,
        }),
    };
    let primary = CacheFile { tags: vec![tag.clone(), tag], variant: RuntimeVariant::Retail };
    let pools = AssetPools {
        bitmaps_source: &[],
        sounds_source: &[],
        bitmaps_dest: None,
        sounds_dest: None,
    };
    assert_eq!(convert_map(primary, &pools).unwrap().tags.len(), 2);
}

#[test]
fn import_root_is_the_scenario_type_selector() {
    assert_eq!(import_root_path(), "ui\\ui_tags_loaded_multiplayer_scenario_type");
    assert_eq!(IMPORT_ROOT_CLASS.to_be_bytes(), *b"tagc");
}

#[test]
fn import_inserts_every_reference_once_and_in_order() {
    let mut state = ImportState::Start;
    let mut asked = Vec::new();
    let mut event = ImportEvent::Supplied { auxiliary_len: 4096 };
    loop {
        let (next, action) = import_step(state, event).unwrap();
        state = next;
        asked.push(action);
        event = match action {
            ImportAction::Parse => ImportEvent::Parsed,
            ImportAction::Locate => ImportEvent::Located { root: Some(12) },
            ImportAction::List { .. } => ImportEvent::Listed { count: 3 },
            ImportAction::Insert { .. } => ImportEvent::Inserted,
            ImportAction::Done | ImportAction::Fail(_) => break,
        };
    }
    assert_eq!(
        asked,
        vec![
            ImportAction::Parse,
            ImportAction::Locate,
            ImportAction::List { root: 12 },
            ImportAction::Insert { position: 0 },
            ImportAction::Insert { position: 1 },
            ImportAction::Insert { position: 2 },
            ImportAction::Done,
        ]
    );
    assert_eq!(state, ImportState::Finished);
}

#[test]
fn root_without_references_finishes_the_import() {
    let step = import_step(ImportState::Listing { root: 3 }, ImportEvent::Listed { count: 0 });
    assert_eq!(step, Some((ImportState::Finished, ImportAction::Done)));
}

#[test]
fn missing_root_abandons_the_import() {
    let step = import_step(ImportState::Locating, ImportEvent::Located { root: None });
    assert_eq!(
        step,
        Some((
            ImportState::Failed(ConvertError::MissingRequiredTag),
            ImportAction::Fail(ConvertError::MissingRequiredTag)
        ))
    );
}

#[test]
fn unparsable_auxiliary_abandons_the_import() {
    let step = import_step(ImportState::Parsing, ImportEvent::ParseFailed);
    assert_eq!(
        step,
        Some((
            ImportState::Failed(ConvertError::FormatError),
            ImportAction::Fail(ConvertError::FormatError)
        ))
    );
}

#[test]
fn events_out_of_turn_are_refused() {
    assert_eq!(import_step(ImportState::Start, ImportEvent::Inserted), None);
    assert_eq!(import_step(ImportState::Finished, ImportEvent::Parsed), None);
    assert_eq!(
        import_step(
            ImportState::Failed(ConvertError::MissingRequiredTag),
            ImportEvent::Supplied { auxiliary_len: 1 }
        ),
        None
    );
    assert_eq!(
        import_step(ImportState::Inserting { count: 2, next: 0 }, ImportEvent::Listed { count: 1 }),
        None
    );
}

#[test]
fn failed_insertion_abandons_the_import() {
    for (count, next) in [(1usize, 0usize), (3, 0), (3, 1), (3, 2)] {
        let state = ImportState::Inserting { count, next };
        assert_eq!(
            import_step(state, ImportEvent::InsertFailed),
            Some((
                ImportState::Failed(ConvertError::FormatError),
                ImportAction::Fail(ConvertError::FormatError)
            ))
        );
    }
    let failed = ImportState::Failed(ConvertError::FormatError);
    assert_eq!(import_step(failed, ImportEvent::Inserted), None);
    assert_eq!(import_step(ImportState::Listing { root: 0 }, ImportEvent::InsertFailed), None);
}

#[test]
fn import_stops_at_the_first_failed_insertion() {
    let mut state = ImportState::Inserting { count: 4, next: 0 };
    let mut asked = Vec::new();
    let outcomes = [ImportEvent::Inserted, ImportEvent::InsertFailed];
    for event in outcomes {
        let (next, action) = import_step(state, event).unwrap();
        state = next;
        asked.push(action);
    }
    assert_eq!(
        asked,
        vec![
            ImportAction::Insert { position: 1 },
            ImportAction::Fail(ConvertError::FormatError)
        ]
    );
    assert_eq!(import_step(state, ImportEvent::Inserted), None);
}

#[test]
fn last_insertion_finishes_the_import() {
    let state = ImportState::Inserting { count: 2, next: 1 };
    assert_eq!(
        import_step(state, ImportEvent::Inserted),
        Some((ImportState::Finished, ImportAction::Done))
    );
    let state = ImportState::Inserting { count: usize::MAX, next: usize::MAX - 1 };
    assert_eq!(
        import_step(state, ImportEvent::Inserted),
        Some((ImportState::Finished, ImportAction::Done))
    );
}
