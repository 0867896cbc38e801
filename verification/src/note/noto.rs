//! The Noto destination collection model.
//!
//! Instants are held as whole seconds since the Unix epoch, the convention
//! the collection is serialized with; the surrounding program converts its
//! datetime values to and from these fields when it loads and stores a
//! backup.

use vstd::prelude::*;

verus! {

/// Display color of a folder or label; opaque pass-through data.
#[derive(PartialEq, Eq, Structural, Clone, Copy, Debug)]
pub enum NotoColor {
    Gray,
    Blue,
    Pink,
    Cyan,
    Purple,
    Red,
    Yellow,
    Orange,
    Green,
    Brown,
    BlueGray,
    Teal,
    Indigo,
    DeepPurple,
    DeepOrange,
    DeepGreen,
    LightBlue,
    LightGreen,
    LightRed,
    LightPink,
    Black,
}

/// Sorting direction; opaque pass-through data.
#[derive(PartialEq, Eq, Structural, Clone, Copy, Debug)]
pub enum SortOrder {
    Ascending,
    Descending,
}

/// One note of a destination collection.
#[derive(Clone, PartialEq, Debug)]
pub struct NotoNote {
    /// Unique within the whole collection.
    pub id: i64,
    /// -1 for the root folder, else a folder's id.
    pub folder_id: i64,
    pub title: String,
    pub body: String,
    /// Ordering key, unique among the notes of one folder.
    pub position: i32,
    /// Whole seconds since the Unix epoch, UTC.
    pub creation_date: i64,
    pub is_pinned: bool,
    pub is_archived: bool,
    pub is_vaulted: bool,
    /// Whole seconds since the Unix epoch, UTC.
    pub access_date: i64,
    pub scrolling_position: i64,
}

/// One folder of a destination collection; all fields but `id` are opaque
/// pass-through data.
#[derive(Clone, PartialEq, Debug)]
pub struct NotoFolder {
    pub id: i64,
    pub title: String,
    pub position: i64,
    pub color: NotoColor,
    /// Whole seconds since the Unix epoch, UTC.
    pub creation_date: i64,
    pub layout: String,
    pub note_preview_size: i32,
    pub is_archived: bool,
    pub is_pinned: bool,
    pub is_show_note_creation_date: bool,
    pub new_note_cursor_position: String,
    pub sorting_type: String,
    pub sorting_order: SortOrder,
    pub grouping: String,
    pub grouping_order: String,
    pub is_vaulted: bool,
    pub scrolling_position: i64,
    pub filtering_type: String,
    pub open_notes_in: String,
}

/// A label; opaque pass-through data.
#[derive(Clone, PartialEq, Debug)]
pub struct NotoLabel {
    pub id: i64,
    pub folder_id: i64,
    pub title: String,
    pub color: NotoColor,
    pub position: i64,
}

/// A note-label association; opaque pass-through data.
#[derive(Clone, PartialEq, Debug)]
pub struct NotoNoteLabel {}

/// Collection-wide settings; opaque pass-through data.
#[derive(Clone, PartialEq, Debug)]
pub struct NotoSettings {
    pub theme: String,
    pub font: String,
    pub language: String,
    pub icon: String,
    pub vault_timeout: String,
    pub is_vault_open: bool,
    pub is_bio_auth_enabled: bool,
    pub last_version: String,
    pub sorting_type: String,
    pub sorting_order: SortOrder,
    pub is_show_notes_count: bool,
    pub is_do_not_disturb: bool,
    pub is_screen_on: bool,
    pub main_interface_id: i64,
    pub is_remember_scrolling_position: bool,
    pub all_notes_scrolling_position: i64,
    pub recent_notes_scrolling_position: i64,
    pub scheduled_notes_scrolling_position: i64,
    pub archived_notes_scrolling_position: i64,
}

/// A whole destination collection.  The merger appends to `notes`; every
/// other field is carried through unchanged.
#[derive(Clone, PartialEq, Debug)]
pub struct NotoData {
    pub folders: Vec<NotoFolder>,
    pub notes: Vec<NotoNote>,
    pub labels: Vec<NotoLabel>,
    pub note_labels: Vec<NotoNoteLabel>,
    pub settings: NotoSettings,
}

/// The greatest note id in the collection, or 0 when there are no notes.
/// Newly merged notes receive ids strictly above this.
pub open spec fn spec_max_id(notes: Seq<NotoNote>) -> int
    decreases notes.len(),
{
    if notes.len() == 0 {
        0
    } else if notes.len() == 1 {
        notes[0].id as int
    } else {
        let rest = spec_max_id(notes.drop_last());
        if notes.last().id as int > rest {
            notes.last().id as int
        } else {
            rest
        }
    }
}

/// The greatest position among the notes of the given folder, or 0 when the
/// folder holds no note yet.  Newly merged notes of that folder receive
/// positions strictly above this.
pub open spec fn spec_max_position(notes: Seq<NotoNote>, folder_id: i64) -> int
    decreases notes.len(),
{
    if notes.len() == 0 {
        0
    } else {
        let rest = spec_max_position(notes.drop_last(), folder_id);
        if notes.last().folder_id == folder_id {
            if folder_has_notes(notes.drop_last(), folder_id) {
                if notes.last().position as int > rest {
                    notes.last().position as int
                } else {
                    rest
                }
            } else {
                notes.last().position as int
            }
        } else {
            rest
        }
    }
}

/// Whether any note of the collection belongs to the given folder.
pub open spec fn folder_has_notes(notes: Seq<NotoNote>, folder_id: i64) -> bool
    decreases notes.len(),
{
    notes.len() > 0 && (notes.last().folder_id == folder_id || folder_has_notes(
        notes.drop_last(),
        folder_id,
    ))
}

/// Every note id is at most `spec_max_id` of the collection.
pub proof fn lemma_max_id_ge(notes: Seq<NotoNote>, i: int)
    requires
        0 <= i < notes.len(),
    ensures
        notes[i].id as int <= spec_max_id(notes),
    decreases notes.len(),
{
    if notes.len() > 1 && i < notes.len() - 1 {
        lemma_max_id_ge(notes.drop_last(), i);
    }
}

/// Every position of a note of the given folder is at most
/// `spec_max_position` of the collection for that folder.
pub proof fn lemma_max_position_ge(notes: Seq<NotoNote>, folder_id: i64, i: int)
    requires
        0 <= i < notes.len(),
        notes[i].folder_id == folder_id,
    ensures
        folder_has_notes(notes, folder_id),
        notes[i].position as int <= spec_max_position(notes, folder_id),
    decreases notes.len(),
{
    if i < notes.len() - 1 {
        lemma_max_position_ge(notes.drop_last(), folder_id, i);
    }
}

/// The greatest existing note id, scanning the whole collection; 0 when
/// there are no notes.
pub fn max_note_id(notes: &Vec<NotoNote>) -> (r: i64)
    ensures
        r as int == spec_max_id(notes@),
{
    let mut r: i64 = if notes.len() == 0 {
        0
    } else {
        notes[0].id
    };
    let mut i: usize = 1;
    while i < notes.len()
        invariant
            notes@.len() > 0 ==> 1 <= i,
            notes@.len() == 0 ==> r == 0,
            i <= notes@.len() || i == 1,
            notes@.len() > 0 ==> r as int == spec_max_id(notes@.take(i as int)),
        decreases notes@.len() - i,
    {
        proof {
            assert(notes@.take(i + 1).drop_last() =~= notes@.take(i as int));
        }
        if notes[i].id > r {
            r = notes[i].id;
        }
        i += 1;
    }
    proof {
        if notes@.len() > 0 {
            assert(notes@.take(notes@.len() as int) =~= notes@);
        }
    }
    r
}

/// The greatest existing position among the notes of the given folder,
/// scanning the whole collection; 0 when the folder holds no note.
pub fn max_folder_position(notes: &Vec<NotoNote>, folder_id: i64) -> (r: i32)
    ensures
        r as int == spec_max_position(notes@, folder_id),
{
    let mut r: i32 = 0;
    let mut found = false;
    let mut i: usize = 0;
    while i < notes.len()
        invariant
            i <= notes@.len(),
            found == folder_has_notes(notes@.take(i as int), folder_id),
            r as int == spec_max_position(notes@.take(i as int), folder_id),
        decreases notes@.len() - i,
    {
        proof {
            assert(notes@.take(i + 1).drop_last() =~= notes@.take(i as int));
        }
        if notes[i].folder_id == folder_id {
            if !found || notes[i].position > r {
                r = notes[i].position;
            }
            found = true;
        }
        i += 1;
    }
    proof {
        assert(notes@.take(notes@.len() as int) =~= notes@);
    }
    r
}

} // verus!
