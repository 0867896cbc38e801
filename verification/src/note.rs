//! Note conversion: formats, errors, the dispatch over format pairs, the
//! note mapper, the collection merger, and document emission.

use vstd::prelude::*;
use vstd::string::StrSliceExecFns;
use vstd::string::StringExecFns;

use crate::note::keep::KeepNote;
use crate::note::noto::NotoData;
use crate::note::noto::NotoNote;
use crate::note::noto::spec_max_id;
use crate::note::noto::spec_max_position;
use crate::note::noto::lemma_max_id_ge;
use crate::note::noto::lemma_max_position_ge;
use crate::note::noto::max_note_id;
use crate::note::noto::max_folder_position;
use crate::timestamp::ZoneOffset;
use crate::timestamp::civil_from_day_index;
use crate::timestamp::civil_of_index;
use crate::timestamp::date_chars;
use crate::timestamp::format_civil_date;
use crate::timestamp::lemma_normalized_day_bounds;
use crate::timestamp::lemma_renderable_year_bound;
use crate::timestamp::local_day_index;
use crate::timestamp::local_day_index_checked;
use crate::timestamp::normalize_timestamp;
use crate::timestamp::timestamp_in_range;
use crate::timestamp::MAX_DAY_INDEX;
use crate::timestamp::USECS_PER_SEC;

pub mod keep;
pub mod noto;

verus! {

/// Supported note formats.
#[derive(PartialEq, Eq, Structural, Clone, Copy, Debug)]
pub enum NoteFormat {
    GoogleKeep,
    Noto,
    Markdown,
}

impl NoteFormat {
    /// Human-readable name of the format, shown when choosing one.
    pub fn label(&self) -> (r: String)
        ensures
            *self == NoteFormat::GoogleKeep ==> r@ == "Google Keep"@,
            *self == NoteFormat::Noto ==> r@ == "Noto"@,
            *self == NoteFormat::Markdown ==> r@ == "Markdown"@,
    {
        match self {
            NoteFormat::GoogleKeep => String::from_str("Google Keep"),
            NoteFormat::Noto => String::from_str("Noto"),
            NoteFormat::Markdown => String::from_str("Markdown"),
        }
    }
}

/// How the title (and, for documents, the file name) of a converted note is
/// chosen: keep the source title, or use the creation date.
#[derive(PartialEq, Eq, Structural, Clone, Copy, Debug)]
pub enum FileNameFormat {
    Original,
    Date,
}

impl FileNameFormat {
    /// Human-readable description of the naming policy, shown when choosing one.
    pub fn label(&self) -> (r: String)
        ensures
            *self == FileNameFormat::Original ==> r@ == "Use note's original title"@,
            *self == FileNameFormat::Date ==> r@ == "Use the note's creation date (YYYY-MM-DD)"@,
    {
        match self {
            FileNameFormat::Original => String::from_str("Use note's original title"),
            FileNameFormat::Date => String::from_str("Use the note's creation date (YYYY-MM-DD)"),
        }
    }
}

/// A failure that aborts a conversion run.
#[derive(PartialEq, Eq, Structural, Clone, Copy, Debug)]
pub enum ConvertError {
    /// A source timestamp does not correspond to a representable instant.
    InvalidTimestamp,
    /// No conversion path exists for the chosen format pair.
    UnsupportedConversion,
}

impl ConvertError {
    /// Human-readable message for the error.
    pub fn message(&self) -> (r: String)
        ensures
            *self == ConvertError::InvalidTimestamp ==> r@ == "Invalid timestamp."@,
            *self == ConvertError::UnsupportedConversion ==> r@ == "Unsupported conversion."@,
    {
        match self {
            ConvertError::InvalidTimestamp => String::from_str("Invalid timestamp."),
            ConvertError::UnsupportedConversion => String::from_str("Unsupported conversion."),
        }
    }
}

/// One of the supported conversion paths.
#[derive(PartialEq, Eq, Structural, Clone, Copy, Debug)]
pub enum ConversionPath {
    KeepToNoto,
    KeepToMarkdown,
    NotoToMarkdown,
}

/// The conversion path for a format pair: exactly the pairs
/// (Google Keep, Noto), (Google Keep, Markdown) and (Noto, Markdown) are
/// supported; every other pair is refused.
pub open spec fn path_for(source: NoteFormat, target: NoteFormat) -> Result<
    ConversionPath,
    ConvertError,
> {
    match (source, target) {
        (NoteFormat::GoogleKeep, NoteFormat::Noto) => Ok(ConversionPath::KeepToNoto),
        (NoteFormat::GoogleKeep, NoteFormat::Markdown) => Ok(ConversionPath::KeepToMarkdown),
        (NoteFormat::Noto, NoteFormat::Markdown) => Ok(ConversionPath::NotoToMarkdown),
        _ => Err(ConvertError::UnsupportedConversion),
    }
}

/// Selects the conversion path for a (source format, target format) pair.
///
/// An unsupported pair fails with `UnsupportedConversion` before any input
/// is read or any output is produced: the caller obtains the path first and
/// only then performs the conversion it names.
pub fn convert_notes(source: &NoteFormat, target: &NoteFormat) -> (r: Result<
    ConversionPath,
    ConvertError,
>)
    ensures
        r == path_for(*source, *target),
{
    match (source, target) {
        (NoteFormat::GoogleKeep, NoteFormat::Noto) => Ok(ConversionPath::KeepToNoto),
        (NoteFormat::GoogleKeep, NoteFormat::Markdown) => Ok(ConversionPath::KeepToMarkdown),
        (NoteFormat::Noto, NoteFormat::Markdown) => Ok(ConversionPath::NotoToMarkdown),
        _ => Err(ConvertError::UnsupportedConversion),
    }
}

/// A title with each path separator `/` replaced by `_`.
pub open spec fn sanitize_chars(t: Seq<char>) -> Seq<char> {
    t.map(
        |i: int, c: char|
            if c == '/' {
                '_'
            } else {
                c
            },
    )
}

/// Replaces each path separator `/` in a title with `_`, so the title can
/// serve as a file name.
pub fn sanitize_title(title: &str) -> (r: String)
    ensures
        r@ == sanitize_chars(title@),
{
    let len = title.unicode_len();
    let mut out = String::new();
    let mut i: usize = 0;
    while i < len
        invariant
            i <= len,
            len == title@.len(),
            out@ == sanitize_chars(title@).take(i as int),
        decreases len - i,
    {
        let c = title.get_char(i);
        if c == '/' {
            proof {
                reveal_strlit("_");
                assert("_"@ =~= seq!['_']);
            }
            out.append("_");
        } else {
            let piece = title.substring_char(i, i + 1);
            out.append(piece);
        }
        proof {
            assert(title@.subrange(i as int, i as int + 1) =~= seq![title@[i as int]]);
            assert(sanitize_chars(title@).take(i as int + 1) =~= sanitize_chars(title@).take(
                i as int,
            ).push(sanitize_chars(title@)[i as int]));
            assert(out@ =~= sanitize_chars(title@).take(i as int + 1));
        }
        i += 1;
    }
    proof {
        assert(sanitize_chars(title@).take(len as int) =~= sanitize_chars(title@));
    }
    out
}

/// The title a mapped note receives: the sanitized source title, or the
/// creation date in the configured zone as `YYYY-MM-DD`.
pub open spec fn mapped_title(note: KeepNote, fmt: FileNameFormat, zone: ZoneOffset) -> Seq<char> {
    match fmt {
        FileNameFormat::Original => sanitize_chars(note.title@),
        FileNameFormat::Date => date_chars(
            civil_of_index(
                local_day_index(
                    note.created_timestamp_usec as int / (USECS_PER_SEC as int),
                    zone.spec_secs(),
                ),
            ),
        ),
    }
}

/// The title for one source note under the chosen naming policy.
///
/// Fails with `InvalidTimestamp` exactly when the note's creation
/// timestamp is not representable; the source title policy checks the
/// timestamp too, so that one corrupt record aborts the run whichever
/// policy is chosen.
pub fn title_for(note: &KeepNote, title_format: &FileNameFormat, zone: &ZoneOffset) -> (r: Result<
    String,
    ConvertError,
>)
    requires
        zone.wf(),
    ensures
        r is Ok <==> timestamp_in_range(note.created_timestamp_usec as int),
        r is Ok ==> r.unwrap()@ == mapped_title(*note, *title_format, *zone),
        r is Err ==> r == Err::<String, ConvertError>(ConvertError::InvalidTimestamp),
{
    let norm = match normalize_timestamp(note.created_timestamp_usec, zone) {
        Ok(n) => n,
        Err(e) => {
            return Err(e);
        },
    };
    match title_format {
        FileNameFormat::Original => Ok(sanitize_title(note.title.as_str())),
        FileNameFormat::Date => {
            proof {
                lemma_normalized_day_bounds(note.created_timestamp_usec as int, *zone, norm);
            }
            Ok(format_civil_date(&norm.date))
        },
    }
}

/// How a destination note relates to the source note it was mapped from:
/// id, folder and position as the allocator chose them; the title per the
/// naming policy; the body verbatim; creation and access instant both the
/// normalized source creation instant; archived as in the source; never
/// pinned or vaulted; scroll offset zero.
pub open spec fn is_mapped_note(
    n: NotoNote,
    src: KeepNote,
    folder_id: i64,
    id: int,
    pos: int,
    fmt: FileNameFormat,
    zone: ZoneOffset,
) -> bool {
    &&& n.id == id
    &&& n.folder_id == folder_id
    &&& n.title@ == mapped_title(src, fmt, zone)
    &&& n.body@ == src.text_content@
    &&& n.position == pos
    &&& n.creation_date == src.created_timestamp_usec as int / (USECS_PER_SEC as int)
    &&& n.access_date == n.creation_date
    &&& n.is_pinned == false
    &&& n.is_archived == src.is_archived
    &&& n.is_vaulted == false
    &&& n.scrolling_position == 0
}

/// Maps one source note to a destination note, given the placement and the
/// id and position the allocator chose for it.
///
/// Pure transformation: everything the result holds is stated over the
/// inputs.  Fails with `InvalidTimestamp` exactly when the creation
/// timestamp is not representable.
pub fn map_note(
    src: KeepNote,
    folder_id: i64,
    id: i64,
    position: i32,
    title_format: &FileNameFormat,
    zone: &ZoneOffset,
) -> (r: Result<NotoNote, ConvertError>)
    requires
        zone.wf(),
    ensures
        r is Ok <==> timestamp_in_range(src.created_timestamp_usec as int),
        r is Ok ==> is_mapped_note(
            r.unwrap(),
            src,
            folder_id,
            id as int,
            position as int,
            *title_format,
            *zone,
        ),
        r is Err ==> r == Err::<NotoNote, ConvertError>(ConvertError::InvalidTimestamp),
{
    let title = match title_for(&src, title_format, zone) {
        Ok(t) => t,
        Err(e) => {
            return Err(e);
        },
    };
    let secs = src.created_timestamp_usec / USECS_PER_SEC;
    Ok(
        NotoNote {
            id,
            folder_id,
            title,
            body: src.text_content,
            position,
            creation_date: secs as i64,
            is_pinned: false,
            is_archived: src.is_archived,
            is_vaulted: false,
            access_date: secs as i64,
            scrolling_position: 0,
        },
    )
}

/// Whether every source note's creation timestamp is representable.
pub open spec fn all_timestamps_valid(s: Seq<KeepNote>) -> bool {
    forall|i: int|
        0 <= i < s.len() ==> timestamp_in_range((#[trigger] s[i]).created_timestamp_usec as int)
}

/// How a merged collection relates to the original collection and the
/// source batch: folders, labels, associations and settings unchanged; the
/// existing notes unchanged, in place; and one mapped note appended per
/// source note, in source order, with ids continuing from the greatest
/// existing id and positions from the greatest existing position in the
/// chosen folder.
pub open spec fn is_merge_of(
    r: NotoData,
    orig: NotoData,
    src: Seq<KeepNote>,
    folder_id: i64,
    fmt: FileNameFormat,
    zone: ZoneOffset,
) -> bool {
    let base_id = spec_max_id(orig.notes@);
    let base_pos = spec_max_position(orig.notes@, folder_id);
    &&& r.folders == orig.folders
    &&& r.labels == orig.labels
    &&& r.note_labels == orig.note_labels
    &&& r.settings == orig.settings
    &&& r.notes@.len() == orig.notes@.len() + src.len()
    &&& (forall|i: int| 0 <= i < orig.notes@.len() ==> r.notes@[i] == orig.notes@[i])
    &&& (forall|i: int|
        0 <= i < src.len() ==> is_mapped_note(
            #[trigger] r.notes@[orig.notes@.len() + i],
            src[i],
            folder_id,
            base_id + 1 + i,
            base_pos + 1 + i,
            fmt,
            zone,
        ))
}

/// Merges a batch of source notes into a destination collection.
///
/// The batch is mapped in order; ids continue from the greatest existing
/// note id, positions from the greatest existing position in the chosen
/// folder.  Nothing already in the collection moves or changes.  Fails
/// with `InvalidTimestamp`, and leaves no partial result, exactly when
/// some source timestamp is not representable.
pub fn convert_keep_to_noto(
    source_notes: Vec<KeepNote>,
    noto: NotoData,
    folder_id: i64,
    title_format: &FileNameFormat,
    zone: &ZoneOffset,
) -> (r: Result<NotoData, ConvertError>)
    requires
        zone.wf(),
        source_notes@.len() <= i64::MAX,
        spec_max_id(noto.notes@) + source_notes@.len() <= i64::MAX,
        spec_max_position(noto.notes@, folder_id) + source_notes@.len() <= i32::MAX,
    ensures
        r is Ok <==> all_timestamps_valid(source_notes@),
        r is Ok ==> is_merge_of(
            r.unwrap(),
            noto,
            source_notes@,
            folder_id,
            *title_format,
            *zone,
        ),
        r is Err ==> r == Err::<NotoData, ConvertError>(ConvertError::InvalidTimestamp),
{
    let base_id = max_note_id(&noto.notes);
    let base_pos = max_folder_position(&noto.notes, folder_id);
    let ghost all = source_notes@;
    let mut src = source_notes;
    let mut converted: Vec<NotoNote> = Vec::new();
    let mut k: usize = 0;
    while src.len() != 0
        invariant
            zone.wf(),
            all == source_notes@,
            all.len() <= i64::MAX,
            base_id as int == spec_max_id(noto.notes@),
            base_pos as int == spec_max_position(noto.notes@, folder_id),
            base_id + all.len() <= i64::MAX,
            base_pos + all.len() <= i32::MAX,
            k + src@.len() == all.len(),
            src@ == all.skip(k as int),
            converted@.len() == k,
            forall|i: int|
                0 <= i < k ==> timestamp_in_range(
                    (#[trigger] all[i]).created_timestamp_usec as int,
                ),
            forall|i: int|
                0 <= i < k ==> is_mapped_note(
                    #[trigger] converted@[i],
                    all[i],
                    folder_id,
                    base_id + 1 + i,
                    base_pos + 1 + i,
                    *title_format,
                    *zone,
                ),
        decreases src@.len(),
    {
        let note = src.remove(0);
        proof {
            assert(all.skip(k as int).remove(0) =~= all.skip(k as int + 1));
            assert(note == all[k as int]);
        }
        let id: i64 = base_id + 1 + (k as i64);
        let pos64: i64 = (base_pos as i64) + 1 + (k as i64);
        let pos: i32 = pos64 as i32;
        let mapped = match map_note(note, folder_id, id, pos, title_format, zone) {
            Ok(m) => m,
            Err(e) => {
                proof {
                    assert(!timestamp_in_range(all[k as int].created_timestamp_usec as int));
                }
                return Err(e);
            },
        };
        converted.push(mapped);
        k += 1;
    }
    let mut data = noto;
    data.notes.append(&mut converted);
    proof {
        assert(all.skip(all.len() as int) =~= Seq::<KeepNote>::empty());
    }
    Ok(data)
}

/// The ids a merge assigns are exactly the next batch-size many ids after
/// the greatest existing one: mutually distinct, and distinct from every
/// pre-existing id.
pub proof fn lemma_merge_ids_fresh(
    r: NotoData,
    orig: NotoData,
    src: Seq<KeepNote>,
    folder_id: i64,
    fmt: FileNameFormat,
    zone: ZoneOffset,
)
    requires
        is_merge_of(r, orig, src, folder_id, fmt, zone),
    ensures
        forall|i: int|
            0 <= i < src.len() ==> (#[trigger] r.notes@[orig.notes@.len() + i]).id as int
                == spec_max_id(orig.notes@) + 1 + i,
        forall|i: int, j: int|
            0 <= i < j < src.len() ==> (#[trigger] r.notes@[orig.notes@.len() + i]).id != (
            #[trigger] r.notes@[orig.notes@.len() + j]).id,
        forall|i: int, j: int|
            0 <= i < orig.notes@.len() && 0 <= j < src.len() ==> (#[trigger] r.notes@[i]).id != (
            #[trigger] r.notes@[orig.notes@.len() + j]).id,
{
    assert forall|i: int, j: int|
        0 <= i < orig.notes@.len() && 0 <= j < src.len() implies (#[trigger] r.notes@[i]).id != (
    #[trigger] r.notes@[orig.notes@.len() + j]).id by {
        lemma_max_id_ge(orig.notes@, i);
    }
}

/// The positions a merge assigns in the chosen folder are exactly the next
/// batch-size many positions after the greatest existing one there:
/// mutually distinct, above every pre-existing position in that folder,
/// and no note of any other folder moves or changes.
pub proof fn lemma_merge_positions(
    r: NotoData,
    orig: NotoData,
    src: Seq<KeepNote>,
    folder_id: i64,
    fmt: FileNameFormat,
    zone: ZoneOffset,
)
    requires
        is_merge_of(r, orig, src, folder_id, fmt, zone),
    ensures
        forall|i: int|
            0 <= i < src.len() ==> (#[trigger] r.notes@[orig.notes@.len() + i]).folder_id
                == folder_id && r.notes@[orig.notes@.len() + i].position as int
                == spec_max_position(orig.notes@, folder_id) + 1 + i,
        forall|i: int, j: int|
            0 <= i < orig.notes@.len() && orig.notes@[i].folder_id == folder_id && 0 <= j
                < src.len() ==> (#[trigger] r.notes@[i]).position < (#[trigger] r.notes@[orig.notes@.len()
                + j]).position,
        forall|i: int| 0 <= i < orig.notes@.len() ==> #[trigger] r.notes@[i] == orig.notes@[i],
{
    assert forall|i: int, j: int|
        0 <= i < orig.notes@.len() && orig.notes@[i].folder_id == folder_id && 0 <= j
            < src.len() implies (#[trigger] r.notes@[i]).position < (#[trigger] r.notes@[orig.notes@.len()
        + j]).position by {
        lemma_max_position_ge(orig.notes@, folder_id, i);
    }
}

/// One emitted document: a derived file name (without directory or
/// extension) and a note body as its content.
#[derive(PartialEq, Eq, Debug)]
pub struct Document {
    pub name: String,
    pub content: String,
}

/// Converts a batch of source notes to one document per note, named per
/// the chosen policy, each holding its note's body verbatim.
///
/// The documents come in source order; two may share a name, which the
/// writer resolves by `resolve_collisions`.  Fails with
/// `InvalidTimestamp`, and emits nothing, exactly when some source
/// timestamp is not representable.
pub fn convert_keep_to_markdown(
    source_notes: &Vec<KeepNote>,
    title_format: &FileNameFormat,
    zone: &ZoneOffset,
) -> (r: Result<Vec<Document>, ConvertError>)
    requires
        zone.wf(),
    ensures
        r is Ok <==> all_timestamps_valid(source_notes@),
        r is Ok ==> r.unwrap()@.len() == source_notes@.len(),
        r is Ok ==> forall|i: int|
            0 <= i < source_notes@.len() ==> (#[trigger] r.unwrap()@[i]).name@ == mapped_title(
                source_notes@[i],
                *title_format,
                *zone,
            ) && r.unwrap()@[i].content@ == source_notes@[i].text_content@,
        r is Err ==> r == Err::<Vec<Document>, ConvertError>(ConvertError::InvalidTimestamp),
{
    let mut docs: Vec<Document> = Vec::new();
    let mut i: usize = 0;
    while i < source_notes.len()
        invariant
            zone.wf(),
            i <= source_notes@.len(),
            docs@.len() == i,
            forall|k: int|
                0 <= k < i ==> timestamp_in_range(
                    (#[trigger] source_notes@[k]).created_timestamp_usec as int,
                ),
            forall|k: int|
                0 <= k < i ==> (#[trigger] docs@[k]).name@ == mapped_title(
                    source_notes@[k],
                    *title_format,
                    *zone,
                ) && docs@[k].content@ == source_notes@[k].text_content@,
        decreases source_notes@.len() - i,
    {
        let name = match title_for(&source_notes[i], title_format, zone) {
            Ok(t) => t,
            Err(e) => {
                proof {
                    assert(!timestamp_in_range(
                        source_notes@[i as int].created_timestamp_usec as int,
                    ));
                }
                return Err(e);
            },
        };
        let content = source_notes[i].text_content.clone();
        docs.push(Document { name, content });
        i += 1;
    }
    Ok(docs)
}

/// The notes of the collection that belong to the given folder, in
/// collection order.
pub open spec fn folder_notes(notes: Seq<NotoNote>, folder_id: i64) -> Seq<NotoNote> {
    notes.filter(|n: NotoNote| n.folder_id == folder_id)
}

/// The document name a stored note receives: its sanitized title, or its
/// creation date in the configured zone as `YYYY-MM-DD`.
pub open spec fn noto_note_title(n: NotoNote, fmt: FileNameFormat, zone: ZoneOffset) -> Seq<char> {
    match fmt {
        FileNameFormat::Original => sanitize_chars(n.title@),
        FileNameFormat::Date => date_chars(
            civil_of_index(local_day_index(n.creation_date as int, zone.spec_secs())),
        ),
    }
}

/// Whether a stored instant's local calendar date can be rendered: it
/// falls between January 1 of year 1 and the last renderable day.
pub open spec fn date_renderable(secs: int, zone: ZoneOffset) -> bool {
    0 <= local_day_index(secs, zone.spec_secs()) <= MAX_DAY_INDEX
}

/// Whether every note of the chosen folder can be named under the policy:
/// the source-title policy always can; the date policy needs each note's
/// creation date to be renderable in the zone.
pub open spec fn all_dates_renderable(
    notes: Seq<NotoNote>,
    folder_id: i64,
    fmt: FileNameFormat,
    zone: ZoneOffset,
) -> bool {
    fmt == FileNameFormat::Date ==> forall|i: int|
        0 <= i < folder_notes(notes, folder_id).len() ==> date_renderable(
            (#[trigger] folder_notes(notes, folder_id)[i]).creation_date as int,
            zone,
        )
}

/// Converts the notes of one folder of a destination collection to one
/// document per note, named per the chosen policy, each holding its
/// note's body verbatim.
///
/// The documents come in collection order.  Fails with
/// `InvalidTimestamp`, and emits nothing, exactly when the date policy is
/// chosen and some note of the folder has a creation date that cannot be
/// rendered in the zone.
pub fn convert_noto_to_markdown(
    data: &NotoData,
    folder_id: i64,
    title_format: &FileNameFormat,
    zone: &ZoneOffset,
) -> (r: Result<Vec<Document>, ConvertError>)
    requires
        zone.wf(),
    ensures
        r is Ok <==> all_dates_renderable(data.notes@, folder_id, *title_format, *zone),
        r is Ok ==> r.unwrap()@.len() == folder_notes(data.notes@, folder_id).len(),
        r is Ok ==> forall|k: int|
            0 <= k < r.unwrap()@.len() ==> (#[trigger] r.unwrap()@[k]).name@ == noto_note_title(
                folder_notes(data.notes@, folder_id)[k],
                *title_format,
                *zone,
            ) && r.unwrap()@[k].content@ == folder_notes(data.notes@, folder_id)[k].body@,
        r is Err ==> r == Err::<Vec<Document>, ConvertError>(ConvertError::InvalidTimestamp),
{
    let mut docs: Vec<Document> = Vec::new();
    let mut i: usize = 0;
    proof {
        reveal(Seq::filter);
        assert(data.notes@.take(0) =~= Seq::<NotoNote>::empty());
    }
    while i < data.notes.len()
        invariant
            zone.wf(),
            i <= data.notes@.len(),
            docs@.len() == folder_notes(data.notes@.take(i as int), folder_id).len(),
            forall|k: int|
                0 <= k < docs@.len() ==> (#[trigger] docs@[k]).name@ == noto_note_title(
                    folder_notes(data.notes@.take(i as int), folder_id)[k],
                    *title_format,
                    *zone,
                ) && docs@[k].content@ == folder_notes(data.notes@.take(i as int), folder_id)[k].body@,
            *title_format == FileNameFormat::Date ==> forall|k: int|
                0 <= k < docs@.len() ==> date_renderable(
                    (#[trigger] folder_notes(data.notes@.take(i as int), folder_id)[k]).creation_date
                        as int,
                    *zone,
                ),
        decreases data.notes@.len() - i,
    {
        let ghost pre = data.notes@.take(i as int);
        let ghost post = data.notes@.take(i as int + 1);
        proof {
            reveal(Seq::filter);
            assert(post.drop_last() =~= pre);
            assert(post.last() == data.notes@[i as int]);
        }
        let note = &data.notes[i];
        if note.folder_id == folder_id {
            proof {
                reveal(Seq::filter);
                assert(folder_notes(post, folder_id) =~= folder_notes(pre, folder_id).push(
                    data.notes@[i as int],
                ));
            }
            let name = match title_format {
                FileNameFormat::Original => sanitize_title(note.title.as_str()),
                FileNameFormat::Date => {
                    match local_day_index_checked(note.creation_date, zone) {
                        Some(idx) => {
                            let date = civil_from_day_index(idx);
                            proof {
                                lemma_renderable_year_bound(date);
                            }
                            format_civil_date(&date)
                        },
                        None => {
                            proof {
                                broadcast use vstd::prelude::Seq::filter_distributes_over_add;

                                let tail = data.notes@.skip(i as int + 1);
                                let flt = folder_notes(data.notes@, folder_id);
                                let at = folder_notes(pre, folder_id).len() as int;
                                assert(data.notes@ =~= post + tail);
                                assert(flt == folder_notes(post + tail, folder_id));
                                assert(flt == folder_notes(post, folder_id) + folder_notes(
                                    tail,
                                    folder_id,
                                ));
                                assert(flt[at] == data.notes@[i as int]);
                                assert(!date_renderable(flt[at].creation_date as int, *zone));
                            }
                            return Err(ConvertError::InvalidTimestamp);
                        },
                    }
                },
            };
            let content = note.body.clone();
            docs.push(Document { name, content });
        } else {
            proof {
                assert(folder_notes(post, folder_id) =~= folder_notes(pre, folder_id));
            }
        }
        i += 1;
    }
    proof {
        assert(data.notes@.take(data.notes@.len() as int) =~= data.notes@);
    }
    Ok(docs)
}

/// Whether some document of the batch carries the given name.
pub open spec fn has_doc_named(s: Seq<Document>, name: Seq<char>) -> bool
    decreases s.len(),
{
    s.len() > 0 && (s.last().name@ == name || has_doc_named(s.drop_last(), name))
}

/// The content of the last document of the batch that carries the given
/// name: what a file of that name holds after every document has been
/// written in order, each overwriting its predecessor.
pub open spec fn last_content_for(s: Seq<Document>, name: Seq<char>) -> Seq<char>
    decreases s.len(),
{
    if s.len() == 0 {
        Seq::empty()
    } else if s.last().name@ == name {
        s.last().content@
    } else {
        last_content_for(s.drop_last(), name)
    }
}

/// The batch's distinct names, in order of first occurrence.
pub open spec fn distinct_names(s: Seq<Document>) -> Seq<Seq<char>>
    decreases s.len(),
{
    if s.len() == 0 {
        Seq::empty()
    } else {
        let rest = distinct_names(s.drop_last());
        if has_doc_named(s.drop_last(), s.last().name@) {
            rest
        } else {
            rest.push(s.last().name@)
        }
    }
}

/// The names of a batch of documents, in batch order.
pub open spec fn doc_names(s: Seq<Document>) -> Seq<Seq<char>> {
    s.map_values(|d: Document| d.name@)
}

/// A name stands among the distinct names exactly when some document
/// carries it.
proof fn lemma_distinct_names_has(s: Seq<Document>, name: Seq<char>)
    ensures
        distinct_names(s).contains(name) <==> has_doc_named(s, name),
    decreases s.len(),
{
    if s.len() > 0 {
        lemma_distinct_names_has(s.drop_last(), name);
        let rest = distinct_names(s.drop_last());
        let last_name = s.last().name@;
        if !has_doc_named(s.drop_last(), last_name) {
            if name == last_name {
                assert(rest.push(last_name)[rest.len() as int] == name);
                assert(distinct_names(s).contains(name));
            }
            if rest.contains(name) {
                let k = choose|k: int| 0 <= k < rest.len() && rest[k] == name;
                assert(rest.push(last_name)[k] == name);
                assert(distinct_names(s).contains(name));
            }
            if distinct_names(s).contains(name) && name != last_name {
                let k = choose|k: int|
                    0 <= k < rest.push(last_name).len() && rest.push(last_name)[k] == name;
                assert(rest[k] == name);
                assert(rest.contains(name));
            }
        }
    }
}

/// Resolves name collisions among a batch of documents by the overwrite
/// policy of a file system: writing the documents in order, a later one
/// of the same name replaces an earlier one.  The result holds one
/// document per distinct name, in order of first occurrence, each with
/// the content of the last document of that name; a batch without
/// collisions comes back as it went in.
pub fn resolve_collisions(docs: &Vec<Document>) -> (r: Vec<Document>)
    ensures
        doc_names(r@) == distinct_names(docs@),
        forall|k: int|
            0 <= k < r@.len() ==> (#[trigger] r@[k]).content@ == last_content_for(
                docs@,
                r@[k].name@,
            ),
        forall|a: int, b: int| 0 <= a < b < r@.len() ==> r@[a].name@ != r@[b].name@,
{
    let mut out: Vec<Document> = Vec::new();
    let mut i: usize = 0;
    proof {
        assert(docs@.take(0) =~= Seq::<Document>::empty());
        assert(doc_names(out@) =~= distinct_names(docs@.take(0)));
    }
    while i < docs.len()
        invariant
            i <= docs@.len(),
            doc_names(out@) == distinct_names(docs@.take(i as int)),
            out@.len() == distinct_names(docs@.take(i as int)).len(),
            forall|k: int|
                0 <= k < out@.len() ==> (#[trigger] out@[k]).content@ == last_content_for(
                    docs@.take(i as int),
                    out@[k].name@,
                ),
            forall|a: int, b: int| 0 <= a < b < out@.len() ==> out@[a].name@ != out@[b].name@,
        decreases docs@.len() - i,
    {
        let ghost pre = docs@.take(i as int);
        let ghost post = docs@.take(i as int + 1);
        proof {
            assert(post.drop_last() =~= pre);
            assert(post.last() == docs@[i as int]);
        }
        let mut j: usize = 0;
        let mut found = false;
        let mut at: usize = 0;
        while j < out.len() && !found
            invariant
                i < docs@.len(),
                j <= out@.len(),
                found ==> at < out@.len() && out@[at as int].name@ == docs@[i as int].name@,
                !found ==> forall|jj: int|
                    0 <= jj < j ==> (#[trigger] out@[jj]).name@ != docs@[i as int].name@,
            decreases out@.len() - j,
        {
            if out[j].name == docs[i].name {
                found = true;
                at = j;
            }
            j += 1;
        }
        let replacement = Document {
            name: docs[i].name.clone(),
            content: docs[i].content.clone(),
        };
        if found {
            proof {
                lemma_distinct_names_has(pre, docs@[i as int].name@);
                assert(doc_names(out@)[at as int] == out@[at as int].name@);
                assert(distinct_names(pre).contains(docs@[i as int].name@));
                assert(has_doc_named(pre, docs@[i as int].name@));
                assert(distinct_names(post) == distinct_names(pre));
            }
            let ghost held = out@;
            out.remove(at);
            out.insert(at, replacement);
            proof {
                assert(out@ =~= held.update(at as int, replacement));
                assert(doc_names(out@) =~= doc_names(held));
            }
        } else {
            proof {
                if has_doc_named(pre, docs@[i as int].name@) {
                    lemma_distinct_names_has(pre, docs@[i as int].name@);
                    let k = choose|k: int|
                        0 <= k < distinct_names(pre).len() && distinct_names(pre)[k] == docs@[i as int].name@;
                    assert(doc_names(out@)[k] == out@[k].name@);
                    assert(false);
                }
                assert(distinct_names(post) == distinct_names(pre).push(docs@[i as int].name@));
            }
            out.push(replacement);
            proof {
                assert(doc_names(out@) =~= distinct_names(post));
            }
        }
        i += 1;
    }
    proof {
        assert(docs@.take(docs@.len() as int) =~= docs@);
    }
    out
}

/// An empty merge is the identity: merging a batch of no notes gives back
/// the collection exactly, so a load, an empty merge, and a store
/// round-trip a collection unchanged.
pub proof fn lemma_empty_merge_identity(
    r: NotoData,
    orig: NotoData,
    folder_id: i64,
    fmt: FileNameFormat,
    zone: ZoneOffset,
)
    requires
        is_merge_of(r, orig, Seq::<KeepNote>::empty(), folder_id, fmt, zone),
    ensures
        r.notes@ == orig.notes@,
        r.folders == orig.folders,
        r.labels == orig.labels,
        r.note_labels == orig.note_labels,
        r.settings == orig.settings,
{
    assert(r.notes@ =~= orig.notes@);
}

} // verus!
