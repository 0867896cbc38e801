use note_convert::note::keep::{sort_notes_by_created, KeepNote};
use note_convert::note::noto::{
    max_folder_position, max_note_id, NotoColor, NotoData, NotoFolder, NotoLabel, NotoNote,
    NotoNoteLabel, NotoSettings, SortOrder,
};
use note_convert::note::{
    convert_keep_to_markdown, convert_keep_to_noto, convert_noto_to_markdown, convert_notes,
    map_note, resolve_collisions, sanitize_title, ConversionPath, ConvertError, Document,
    FileNameFormat, NoteFormat,
};
use note_convert::timestamp::ZoneOffset;

fn keep_note(title: &str, body: &str, usec: u64, archived: bool) -> KeepNote {
    KeepNote {
        is_archived: archived,
        text_content: body.to_string(),
        title: title.to_string(),
        user_edited_timestamp_usec: usec,
        created_timestamp_usec: usec,
    }
}

fn noto_note(id: i64, folder_id: i64, title: &str, body: &str, position: i32) -> NotoNote {
    NotoNote {
        id,
        folder_id,
        title: title.to_string(),
        body: body.to_string(),
        position,
        creation_date: 1_500_000_000,
        is_pinned: false,
        is_archived: false,
        is_vaulted: false,
        access_date: 1_500_000_000,
        scrolling_position: 0,
    }
}

fn folder(id: i64, title: &str) -> NotoFolder {
    NotoFolder {
        id,
        title: title.to_string(),
        position: 0,
        color: NotoColor::Gray,
        creation_date: 1_400_000_000,
        layout: "Linear".to_string(),
        note_preview_size: 15,
        is_archived: false,
        is_pinned: false,
        is_show_note_creation_date: false,
        new_note_cursor_position: "Body".to_string(),
        sorting_type: "CreationDate".to_string(),
        sorting_order: SortOrder::Descending,
        grouping: "Default".to_string(),
        grouping_order: "Descending".to_string(),
        is_vaulted: false,
        scrolling_position: 0,
        filtering_type: "Inclusive".to_string(),
        open_notes_in: "Editor".to_string(),
    }
}

fn settings() -> NotoSettings {
    NotoSettings {
        theme: "System".to_string(),
        font: "Nunito".to_string(),
        language: "English".to_string(),
        icon: "Futuristic".to_string(),
        vault_timeout: "Immediately".to_string(),
        is_vault_open: false,
        is_bio_auth_enabled: false,
        last_version: "2.2.3".to_string(),
        sorting_type: "CreationDate".to_string(),
        sorting_order: SortOrder::Descending,
        is_show_notes_count: true,
        is_do_not_disturb: false,
        is_screen_on: true,
        main_interface_id: -1,
        is_remember_scrolling_position: true,
        all_notes_scrolling_position: 0,
        recent_notes_scrolling_position: 0,
        scheduled_notes_scrolling_position: 0,
        archived_notes_scrolling_position: 0,
    }
}

fn collection(notes: Vec<NotoNote>) -> NotoData {
    NotoData {
        folders: vec![folder(-1, "Main"), folder(2, "Work")],
        notes,
        labels: vec![NotoLabel {
            id: 1,
            folder_id: -1,
            title: "Ideas".to_string(),
            color: NotoColor::Blue,
            position: 0,
        }],
        note_labels: vec![NotoNoteLabel {}],
        settings: settings(),
    }
}

#[test]
fn dispatch_selects_supported_paths() {
    assert_eq!(
        convert_notes(&NoteFormat::GoogleKeep, &NoteFormat::Noto),
        Ok(ConversionPath::KeepToNoto)
    );
    assert_eq!(
        convert_notes(&NoteFormat::GoogleKeep, &NoteFormat::Markdown),
        Ok(ConversionPath::KeepToMarkdown)
    );
    assert_eq!(
        convert_notes(&NoteFormat::Noto, &NoteFormat::Markdown),
        Ok(ConversionPath::NotoToMarkdown)
    );
}

#[test]
fn dispatch_rejects_unsupported_pairs() {
    assert_eq!(
        convert_notes(&NoteFormat::Noto, &NoteFormat::GoogleKeep),
        Err(ConvertError::UnsupportedConversion)
    );
    assert_eq!(
        convert_notes(&NoteFormat::Markdown, &NoteFormat::Noto),
        Err(ConvertError::UnsupportedConversion)
    );
    assert_eq!(
        convert_notes(&NoteFormat::Noto, &NoteFormat::Noto),
        Err(ConvertError::UnsupportedConversion)
    );
}

#[test]
fn map_note_date_policy_scenario() {
    let zone = ZoneOffset::utc();
    let src = keep_note("anything", "hello", 1_600_000_000_000_000, false);
    let n = map_note(src, -1, 5, 3, &FileNameFormat::Date, &zone).unwrap();
    assert_eq!(n.title, "2020-09-13");
    assert_eq!(n.body, "hello");
    assert!(!n.is_archived);
    assert!(!n.is_pinned);
    assert!(!n.is_vaulted);
    assert_eq!(n.scrolling_position, 0);
    assert_eq!(n.id, 5);
    assert_eq!(n.folder_id, -1);
    assert_eq!(n.position, 3);
    assert_eq!(n.creation_date, 1_600_000_000);
    assert_eq!(n.access_date, 1_600_000_000);
}

#[test]
fn map_note_keeps_archived_flag() {
    let zone = ZoneOffset::utc();
    let src = keep_note("t", "b", 1_600_000_000_000_000, true);
    let n = map_note(src, -1, 1, 1, &FileNameFormat::Original, &zone).unwrap();
    assert!(n.is_archived);
    assert!(!n.is_pinned);
    assert!(!n.is_vaulted);
}

#[test]
fn map_note_sanitizes_title() {
    let zone = ZoneOffset::utc();
    let src = keep_note("notes/2020/plans", "b", 1_600_000_000_000_000, false);
    let n = map_note(src, -1, 1, 1, &FileNameFormat::Original, &zone).unwrap();
    assert_eq!(n.title, "notes_2020_plans");
}

#[test]
fn sanitize_title_replaces_separators() {
    assert_eq!(sanitize_title("a/b/c"), "a_b_c");
    assert_eq!(sanitize_title("käse/kuchen"), "käse_kuchen");
    assert_eq!(sanitize_title("plain"), "plain");
    assert_eq!(sanitize_title(""), "");
}

#[test]
fn merge_assigns_fresh_ids_and_positions() {
    let data = collection(vec![
        noto_note(7, -1, "latest", "x", 4),
        noto_note(3, 2, "work", "y", 9),
    ]);
    let batch = vec![
        keep_note("a", "A", 1_600_000_000_000_000, false),
        keep_note("b", "B", 1_600_000_100_000_000, false),
        keep_note("c", "C", 1_600_000_200_000_000, true),
    ];
    let zone = ZoneOffset::utc();
    let merged = convert_keep_to_noto(batch, data, -1, &FileNameFormat::Original, &zone).unwrap();
    assert_eq!(merged.notes.len(), 5);
    // Existing notes unchanged, in place.
    assert_eq!(merged.notes[0], noto_note(7, -1, "latest", "x", 4));
    assert_eq!(merged.notes[1], noto_note(3, 2, "work", "y", 9));
    // Ids continue from the greatest existing id: 8, 9, 10.
    assert_eq!(merged.notes[2].id, 8);
    assert_eq!(merged.notes[3].id, 9);
    assert_eq!(merged.notes[4].id, 10);
    // Positions continue from the folder's greatest position: 5, 6, 7.
    assert_eq!(merged.notes[2].position, 5);
    assert_eq!(merged.notes[3].position, 6);
    assert_eq!(merged.notes[4].position, 7);
    assert!(merged.notes[2..].iter().all(|n| n.folder_id == -1));
    assert_eq!(merged.notes[2].title, "a");
    assert_eq!(merged.notes[4].body, "C");
    assert!(merged.notes[4].is_archived);
    // Pass-through parts untouched.
    let original = collection(vec![]);
    assert_eq!(merged.folders, original.folders);
    assert_eq!(merged.labels, original.labels);
    assert_eq!(merged.note_labels, original.note_labels);
    assert_eq!(merged.settings, original.settings);
}

#[test]
fn merge_into_other_folder_leaves_positions_alone() {
    let data = collection(vec![
        noto_note(7, -1, "latest", "x", 4),
        noto_note(3, 2, "work", "y", 9),
    ]);
    let batch = vec![keep_note("a", "A", 1_600_000_000_000_000, false)];
    let zone = ZoneOffset::utc();
    let merged = convert_keep_to_noto(batch, data, 2, &FileNameFormat::Original, &zone).unwrap();
    assert_eq!(merged.notes[2].position, 10);
    assert_eq!(merged.notes[0].position, 4);
    assert_eq!(merged.notes[1].position, 9);
}

#[test]
fn merge_empty_batch_is_identity() {
    let data = collection(vec![
        noto_note(7, -1, "latest", "x", 4),
        noto_note(3, 2, "work", "y", 9),
    ]);
    let before = data.clone();
    let zone = ZoneOffset::utc();
    let merged = convert_keep_to_noto(vec![], data, -1, &FileNameFormat::Date, &zone).unwrap();
    assert_eq!(merged, before);
}

#[test]
fn merge_into_empty_collection_starts_at_one() {
    let data = collection(vec![]);
    let batch = vec![keep_note("a", "A", 1_600_000_000_000_000, false)];
    let zone = ZoneOffset::utc();
    let merged = convert_keep_to_noto(batch, data, -1, &FileNameFormat::Original, &zone).unwrap();
    assert_eq!(merged.notes.len(), 1);
    assert_eq!(merged.notes[0].id, 1);
    assert_eq!(merged.notes[0].position, 1);
}

#[test]
fn merge_aborts_on_bad_timestamp() {
    let data = collection(vec![noto_note(7, -1, "latest", "x", 4)]);
    let batch = vec![
        keep_note("good", "A", 1_600_000_000_000_000, false),
        keep_note("bad", "B", u64::MAX, false),
    ];
    let zone = ZoneOffset::utc();
    assert_eq!(
        convert_keep_to_noto(batch, data, -1, &FileNameFormat::Original, &zone),
        Err(ConvertError::InvalidTimestamp)
    );
}

#[test]
fn max_scans_whole_collection() {
    let notes = vec![
        noto_note(3, -1, "a", "x", 2),
        noto_note(9, -1, "b", "y", 1),
        noto_note(5, 2, "c", "z", 8),
    ];
    assert_eq!(max_note_id(&notes), 9);
    assert_eq!(max_folder_position(&notes, -1), 2);
    assert_eq!(max_folder_position(&notes, 2), 8);
    assert_eq!(max_folder_position(&notes, 99), 0);
    assert_eq!(max_note_id(&vec![]), 0);
}

#[test]
fn keep_to_markdown_derives_names_and_contents() {
    let notes = vec![
        keep_note("plan/a", "first body", 1_600_000_000_000_000, false),
        keep_note("other", "second body", 1_600_000_100_000_000, false),
    ];
    let zone = ZoneOffset::utc();
    let docs = convert_keep_to_markdown(&notes, &FileNameFormat::Original, &zone).unwrap();
    assert_eq!(docs.len(), 2);
    assert_eq!(docs[0].name, "plan_a");
    assert_eq!(docs[0].content, "first body");
    assert_eq!(docs[1].name, "other");
    assert_eq!(docs[1].content, "second body");
}

#[test]
fn keep_to_markdown_rejects_bad_timestamp_whatever_the_policy() {
    let notes = vec![keep_note("t", "b", u64::MAX, false)];
    let zone = ZoneOffset::utc();
    assert_eq!(
        convert_keep_to_markdown(&notes, &FileNameFormat::Original, &zone),
        Err(ConvertError::InvalidTimestamp)
    );
}

#[test]
fn colliding_documents_resolve_to_last_writer() {
    // Two notes created the same day, named by date: one file remains,
    // holding the later note's body.
    let notes = vec![
        keep_note("a", "morning", 1_599_960_000_000_000, false),
        keep_note("b", "evening", 1_600_030_000_000_000, false),
    ];
    let zone = ZoneOffset::utc();
    let docs = convert_keep_to_markdown(&notes, &FileNameFormat::Date, &zone).unwrap();
    assert_eq!(docs.len(), 2);
    assert_eq!(docs[0].name, docs[1].name);
    let resolved = resolve_collisions(&docs);
    assert_eq!(resolved.len(), 1);
    assert_eq!(resolved[0].name, "2020-09-13");
    assert_eq!(resolved[0].content, "evening");
}

#[test]
fn resolve_collisions_keeps_first_occurrence_order() {
    let docs = vec![
        Document { name: "a".to_string(), content: "1".to_string() },
        Document { name: "b".to_string(), content: "2".to_string() },
        Document { name: "a".to_string(), content: "3".to_string() },
    ];
    let resolved = resolve_collisions(&docs);
    assert_eq!(resolved.len(), 2);
    assert_eq!(resolved[0].name, "a");
    assert_eq!(resolved[0].content, "3");
    assert_eq!(resolved[1].name, "b");
    assert_eq!(resolved[1].content, "2");
}

#[test]
fn resolve_collisions_without_collisions_is_identity() {
    let docs = vec![
        Document { name: "a".to_string(), content: "1".to_string() },
        Document { name: "b".to_string(), content: "2".to_string() },
    ];
    let resolved = resolve_collisions(&docs);
    assert_eq!(resolved, docs);
}

#[test]
fn noto_to_markdown_emits_one_folder() {
    let data = collection(vec![
        noto_note(1, -1, "home/note", "home body", 1),
        noto_note(2, 2, "work note", "work body", 1),
        noto_note(3, 2, "more/work", "more work", 2),
    ]);
    let zone = ZoneOffset::utc();
    let docs = convert_noto_to_markdown(&data, 2, &FileNameFormat::Original, &zone).unwrap();
    assert_eq!(docs.len(), 2);
    assert_eq!(docs[0].name, "work note");
    assert_eq!(docs[0].content, "work body");
    assert_eq!(docs[1].name, "more_work");
    assert_eq!(docs[1].content, "more work");
}

#[test]
fn noto_to_markdown_date_policy_renders_creation_dates() {
    let mut note = noto_note(1, -1, "t", "body", 1);
    note.creation_date = 1_600_000_000;
    let data = collection(vec![note]);
    let zone = ZoneOffset::utc();
    let docs = convert_noto_to_markdown(&data, -1, &FileNameFormat::Date, &zone).unwrap();
    assert_eq!(docs.len(), 1);
    assert_eq!(docs[0].name, "2020-09-13");
}

#[test]
fn noto_to_markdown_rejects_unrenderable_date() {
    let mut note = noto_note(1, -1, "t", "body", 1);
    note.creation_date = i64::MIN;
    let data = collection(vec![note]);
    let zone = ZoneOffset::utc();
    assert_eq!(
        convert_noto_to_markdown(&data, -1, &FileNameFormat::Date, &zone),
        Err(ConvertError::InvalidTimestamp)
    );
    // The source-title policy does not look at the date.
    assert!(convert_noto_to_markdown(&data, -1, &FileNameFormat::Original, &zone).is_ok());
}

#[test]
fn sort_orders_by_creation_timestamp() {
    let notes = vec![
        keep_note("c", "3", 3_000_000, false),
        keep_note("a", "1", 1_000_000, false),
        keep_note("b", "2", 2_000_000, false),
    ];
    let sorted = sort_notes_by_created(notes);
    let titles: Vec<&str> = sorted.iter().map(|n| n.title.as_str()).collect();
    assert_eq!(titles, vec!["a", "b", "c"]);
}

#[test]
fn labels_match_prompt_wording() {
    assert_eq!(NoteFormat::GoogleKeep.label(), "Google Keep");
    assert_eq!(NoteFormat::Noto.label(), "Noto");
    assert_eq!(NoteFormat::Markdown.label(), "Markdown");
    assert_eq!(FileNameFormat::Original.label(), "Use note's original title");
    assert_eq!(
        FileNameFormat::Date.label(),
        "Use the note's creation date (YYYY-MM-DD)"
    );
    assert_eq!(ConvertError::InvalidTimestamp.message(), "Invalid timestamp.");
    assert_eq!(
        ConvertError::UnsupportedConversion.message(),
        "Unsupported conversion."
    );
}
