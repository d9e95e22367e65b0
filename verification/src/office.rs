//! Office documents (DOCX, PPTX, XLSX): which entries of the archive hold
//! paragraphs to translate and with which element names, which hold images,
//! and the archive written again.
use std::io::{Read, Write};
use vstd::prelude::*;

use crate::files::{is_office_image, office_image_spec, FileError, OfficeKind};
use crate::models::{AppData, Provider};
use crate::text::{chars_of, ends_with_chars, ends_with_seq, starts_with_chars, starts_with_seq};

verus! {

/// An entry of an Office archive: its name, whether it is a directory, and
/// its contents (empty for a directory).
#[derive(Debug)]
pub struct OfficeEntry {
    pub name: String,
    pub is_directory: bool,
    pub contents: Vec<u8>,
}

/// The view of an entry.
pub open spec fn entry_view(e: OfficeEntry) -> (Seq<char>, bool, Seq<u8>) {
    (e.name@, e.is_directory, e.contents@)
}

/// The views of entries.
pub open spec fn entries_view(es: Seq<OfficeEntry>) -> Seq<(Seq<char>, bool, Seq<u8>)> {
    es.map_values(|e: OfficeEntry| entry_view(e))
}

/// What the `zip` crate reads from an archive: its entries in order, or its
/// error (`true` when it was an I/O error) and the words of it.
pub uninterp spec fn zip_unpacked(bytes: Seq<u8>) -> Result<Seq<(Seq<char>, bool, Seq<u8>)>, (bool, Seq<char>)>;

/// What the `zip` crate writes for entries, each file compressed with
/// Deflate, or its error (`true` when it was an I/O error) and the words of
/// it.
pub uninterp spec fn zip_packed(entries: Seq<(Seq<char>, bool, Seq<u8>)>) -> Result<Seq<u8>, (bool, Seq<char>)>;

/// The error of the archive crate as a file error.
pub open spec fn archive_error(e: FileError, err: (bool, Seq<char>)) -> bool {
    if err.0 {
        e == FileError::Io(e->Io_0) && e->Io_0@ == err.1
    } else {
        e == FileError::Zip(e->Zip_0) && e->Zip_0@ == err.1
    }
}

/// Reads the entries of an archive with `zip::ZipArchive`: for each index,
/// its name, whether it is a directory and (for a file) its contents read to
/// the end. The contract names the outcome as [`zip_unpacked`] of the bytes.
#[verifier::external_body]
pub fn unpack_office(bytes: &[u8]) -> (r: Result<Vec<OfficeEntry>, FileError>)
    ensures
        match r {
            Ok(es) => zip_unpacked(bytes@) == Ok::<Seq<(Seq<char>, bool, Seq<u8>)>, (bool, Seq<char>)>(
                entries_view(es@),
            ),
            Err(e) => zip_unpacked(bytes@) is Err && archive_error(e, zip_unpacked(bytes@)->Err_0),
        },
{
    let zip_error = |error: zip::result::ZipError| FileError::Zip(error.to_string());
    let mut archive = zip::ZipArchive::new(std::io::Cursor::new(bytes)).map_err(zip_error)?;
    let mut entries = Vec::with_capacity(archive.len());
    for index in 0..archive.len() {
        let mut source = archive.by_index(index).map_err(zip_error)?;
        let (name, is_directory, mut contents) = (source.name().to_string(), source.is_dir(), Vec::new());
        if !is_directory {
            source.read_to_end(&mut contents).map_err(|error| FileError::Io(error.to_string()))?;
        }
        entries.push(OfficeEntry { name, is_directory, contents });
    }
    Ok(entries)
}

/// Writes entries into a new archive with `zip::ZipWriter`: a directory for
/// each directory entry, and each file compressed with Deflate. The contract
/// names the outcome as [`zip_packed`] of the entries; it depends on them
/// alone, since the crate is built without its `time` feature and dates every
/// entry 1980-01-01.
#[verifier::external_body]
pub fn pack_office(entries: &Vec<OfficeEntry>) -> (r: Result<Vec<u8>, FileError>)
    ensures
        match r {
            Ok(bytes) => zip_packed(entries_view(entries@)) == Ok::<Seq<u8>, (bool, Seq<char>)>(bytes@),
            Err(e) => zip_packed(entries_view(entries@)) is Err && archive_error(
                e,
                zip_packed(entries_view(entries@))->Err_0,
            ),
        },
{
    let zip_error = |error: zip::result::ZipError| FileError::Zip(error.to_string());
    let mut output = zip::ZipWriter::new(std::io::Cursor::new(Vec::new()));
    let options = zip::write::SimpleFileOptions::default().compression_method(zip::CompressionMethod::Deflated);
    for entry in entries {
        if entry.is_directory {
            output.add_directory(entry.name.as_str(), options).map_err(zip_error)?;
        } else {
            output.start_file(entry.name.as_str(), options).map_err(zip_error)?;
            output.write_all(&entry.contents).map_err(|error| FileError::Io(error.to_string()))?;
        }
    }
    Ok(output.finish().map_err(zip_error)?.into_inner())
}

/// The element names of the paragraphs and text runs of an XML part.
#[derive(Debug, Clone, Copy, PartialEq, Eq, Structural)]
pub enum XmlTags {
    /// Word paragraphs: `w:p` holding `w:t` runs.
    WordParagraph,
    /// Slide paragraphs: `a:p` holding `a:t` runs.
    SlideParagraph,
    /// Shared strings of a workbook: `si` holding `t` runs.
    SharedString,
    /// Inline strings of a worksheet: `is` holding `t` runs.
    InlineString,
}

/// The element name of the paragraphs.
pub open spec fn block_tag_spec(tags: XmlTags) -> Seq<u8> {
    match tags {
        XmlTags::WordParagraph => seq![119u8, 58u8, 112u8],
        XmlTags::SlideParagraph => seq![97u8, 58u8, 112u8],
        XmlTags::SharedString => seq![115u8, 105u8],
        XmlTags::InlineString => seq![105u8, 115u8],
    }
}

/// The element name of the text runs.
pub open spec fn text_tag_spec(tags: XmlTags) -> Seq<u8> {
    match tags {
        XmlTags::WordParagraph => seq![119u8, 58u8, 116u8],
        XmlTags::SlideParagraph => seq![97u8, 58u8, 116u8],
        XmlTags::SharedString => seq![116u8],
        XmlTags::InlineString => seq![116u8],
    }
}

/// The namespace prefix of an element name: everything up to and including
/// its last colon, or nothing when it has none.
pub open spec fn name_prefix(name: Seq<u8>) -> Seq<u8>
    decreases name.len(),
{
    if name.len() == 0 {
        Seq::empty()
    } else if name.last() == 58u8 {
        name
    } else {
        name_prefix(name.drop_last())
    }
}

/// The prefix under which the text markup of each kind of document is
/// written: WordprocessingML (`w:`) for Word, DrawingML (`a:`) for the text
/// of slides, and SpreadsheetML's default namespace (no prefix) for Excel.
pub open spec fn markup_prefix(kind: OfficeKind) -> Seq<u8> {
    match kind {
        OfficeKind::Word => seq![119u8, 58u8],
        OfficeKind::PowerPoint => seq![97u8, 58u8],
        OfficeKind::Excel => Seq::empty(),
    }
}

/// The text runs of a paragraph are elements of the paragraph's own
/// namespace named `t`, distinct from the paragraph element.
pub proof fn lemma_text_tag_beside_block_tag(tags: XmlTags)
    ensures
        text_tag_spec(tags) == name_prefix(block_tag_spec(tags)).push(116u8),
        text_tag_spec(tags) != block_tag_spec(tags),
{
    reveal_with_fuel(name_prefix, 4);
    let b = block_tag_spec(tags);
    match tags {
        XmlTags::WordParagraph => {
            assert(b.drop_last() =~= seq![119u8, 58u8]);
            assert(name_prefix(b) == seq![119u8, 58u8]);
            assert(text_tag_spec(tags) =~= seq![119u8, 58u8].push(116u8));
            assert(text_tag_spec(tags)[2] != b[2]);
        },
        XmlTags::SlideParagraph => {
            assert(b.drop_last() =~= seq![97u8, 58u8]);
            assert(name_prefix(b) == seq![97u8, 58u8]);
            assert(text_tag_spec(tags) =~= seq![97u8, 58u8].push(116u8));
            assert(text_tag_spec(tags)[2] != b[2]);
        },
        XmlTags::SharedString => {
            assert(b.drop_last() =~= seq![115u8]);
            assert(b.drop_last().drop_last() =~= Seq::<u8>::empty());
            assert(name_prefix(b) =~= Seq::<u8>::empty());
            assert(text_tag_spec(tags) =~= Seq::<u8>::empty().push(116u8));
            assert(text_tag_spec(tags).len() != b.len());
        },
        XmlTags::InlineString => {
            assert(b.drop_last() =~= seq![105u8]);
            assert(b.drop_last().drop_last() =~= Seq::<u8>::empty());
            assert(name_prefix(b) =~= Seq::<u8>::empty());
            assert(text_tag_spec(tags) =~= Seq::<u8>::empty().push(116u8));
            assert(text_tag_spec(tags).len() != b.len());
        },
    }
}

/// Each translated part of a document is read with the paragraph and text
/// elements of that kind of document's markup: `w:` in Word parts, `a:` in
/// slides, no prefix in workbooks.
pub proof fn lemma_part_tags_in_markup(kind: OfficeKind, name: Seq<char>)
    ensures
        paragraph_part(kind, name) matches Some(tags) ==> name_prefix(text_tag_spec(tags))
            == markup_prefix(kind) && name_prefix(block_tag_spec(tags)) == markup_prefix(kind),
{
    reveal_with_fuel(name_prefix, 4);
    if let Some(tags) = paragraph_part(kind, name) {
        let t = text_tag_spec(tags);
        let b = block_tag_spec(tags);
        match kind {
            OfficeKind::Word => {
                assert(t.drop_last() =~= seq![119u8, 58u8]);
                assert(b.drop_last() =~= seq![119u8, 58u8]);
            },
            OfficeKind::PowerPoint => {
                assert(t.drop_last() =~= seq![97u8, 58u8]);
                assert(b.drop_last() =~= seq![97u8, 58u8]);
            },
            OfficeKind::Excel => {
                assert(t.drop_last() =~= Seq::<u8>::empty());
                assert(b.drop_last().drop_last() =~= Seq::<u8>::empty());
                assert(name_prefix(t) =~= Seq::<u8>::empty());
                assert(name_prefix(b) =~= Seq::<u8>::empty());
            },
        }
    }
}

/// The element name of the paragraphs (`w:p`, `a:p`, `si` or `is`).
pub fn block_tag(tags: XmlTags) -> (r: Vec<u8>)
    ensures
        r@ == block_tag_spec(tags),
{
    let r = match tags {
        XmlTags::WordParagraph => vec![119u8, 58u8, 112u8],
        XmlTags::SlideParagraph => vec![97u8, 58u8, 112u8],
        XmlTags::SharedString => vec![115u8, 105u8],
        XmlTags::InlineString => vec![105u8, 115u8],
    };
    assert(r@ =~= block_tag_spec(tags));
    r
}

/// The element name of the text runs (`w:t`, `a:t` or `t`).
pub fn text_tag(tags: XmlTags) -> (r: Vec<u8>)
    ensures
        r@ == text_tag_spec(tags),
{
    let r = match tags {
        XmlTags::WordParagraph => vec![119u8, 58u8, 116u8],
        XmlTags::SlideParagraph => vec![97u8, 58u8, 116u8],
        XmlTags::SharedString => vec![116u8],
        XmlTags::InlineString => vec![116u8],
    };
    assert(r@ =~= text_tag_spec(tags));
    r
}

/// What is done with an entry of an Office archive.
#[derive(Debug, Clone, Copy, PartialEq, Eq, Structural)]
pub enum EntryAction {
    /// A directory: written again as a directory.
    Directory,
    /// An XML part whose paragraphs are translated.
    Paragraphs(XmlTags),
    /// An image of the document, translated by the provider.
    Image,
    /// An image of the document kept as it is, because the provider does not
    /// take images; it counts as skipped.
    SkippedImage,
    /// Kept as it is.
    Keep,
}

/// The XML part of a document whose paragraphs are translated, and with
/// which element names: Word's `word/*.xml`, the slides of a presentation,
/// and the shared and inline strings of a workbook.
pub open spec fn paragraph_part(kind: OfficeKind, name: Seq<char>) -> Option<XmlTags> {
    match kind {
        OfficeKind::Word => if starts_with_seq(name, "word/"@) && ends_with_seq(name, ".xml"@) {
            Some(XmlTags::WordParagraph)
        } else {
            None
        },
        OfficeKind::PowerPoint => if starts_with_seq(name, "ppt/slides/"@) && ends_with_seq(name, ".xml"@) {
            Some(XmlTags::SlideParagraph)
        } else {
            None
        },
        OfficeKind::Excel => if name == "xl/sharedStrings.xml"@ {
            Some(XmlTags::SharedString)
        } else if starts_with_seq(name, "xl/worksheets/"@) && ends_with_seq(name, ".xml"@) {
            Some(XmlTags::InlineString)
        } else {
            None
        },
    }
}

/// What is done with an entry (see [`EntryAction`]).
pub open spec fn entry_action_spec(kind: OfficeKind, name: Seq<char>, is_directory: bool, images: bool) -> EntryAction {
    if is_directory {
        EntryAction::Directory
    } else {
        match paragraph_part(kind, name) {
            Some(tags) => EntryAction::Paragraphs(tags),
            None => if office_image_spec(kind, name) {
                if images {
                    EntryAction::Image
                } else {
                    EntryAction::SkippedImage
                }
            } else {
                EntryAction::Keep
            },
        }
    }
}

fn text_eq(a: &str, b: &str) -> (r: bool)
    ensures
        r == (a@ == b@),
{
    crate::text::chars_equal(chars_of(a).as_slice(), chars_of(b).as_slice())
}

fn starts_ends(name: &str, prefix: &str, suffix: &str) -> (r: bool)
    ensures
        r == (starts_with_seq(name@, prefix@) && ends_with_seq(name@, suffix@)),
{
    let n = chars_of(name);
    starts_with_chars(n.as_slice(), chars_of(prefix).as_slice()) && ends_with_chars(
        n.as_slice(),
        chars_of(suffix).as_slice(),
    )
}

/// Decides what is done with an entry of an Office archive; `images` tells
/// whether the provider takes images.
pub fn office_entry_action(kind: OfficeKind, name: &str, is_directory: bool, images: bool) -> (r: EntryAction)
    ensures
        r == entry_action_spec(kind, name@, is_directory, images),
{
    if is_directory {
        return EntryAction::Directory;
    }
    let part = match kind {
        OfficeKind::Word => if starts_ends(name, "word/", ".xml") {
            Some(XmlTags::WordParagraph)
        } else {
            None
        },
        OfficeKind::PowerPoint => if starts_ends(name, "ppt/slides/", ".xml") {
            Some(XmlTags::SlideParagraph)
        } else {
            None
        },
        OfficeKind::Excel => if text_eq(name, "xl/sharedStrings.xml") {
            Some(XmlTags::SharedString)
        } else if starts_ends(name, "xl/worksheets/", ".xml") {
            Some(XmlTags::InlineString)
        } else {
            None
        },
    };
    match part {
        Some(tags) => EntryAction::Paragraphs(tags),
        None => if is_office_image(kind, name) {
            if images {
                EntryAction::Image
            } else {
                EntryAction::SkippedImage
            }
        } else {
            EntryAction::Keep
        },
    }
}

/// Whether the chosen provider exists, is enabled and takes images.
pub open spec fn provider_takes_images(providers: Seq<Provider>, id: Seq<char>) -> bool {
    exists|i: int|
        0 <= i < providers.len() && (#[trigger] providers[i]).id@ == id && providers[i].enabled
            && providers[i].supports_images
}

/// Whether the chosen provider exists, is enabled and takes images.
pub fn provider_supports_images(data: &AppData, provider_id: &str) -> (r: bool)
    ensures
        r == provider_takes_images(data.providers@, provider_id@),
{
    let mut i: usize = 0;
    while i < data.providers.len()
        invariant
            i <= data.providers@.len(),
            forall|j: int|
                0 <= j < i ==> !((#[trigger] data.providers@[j]).id@ == provider_id@
                    && data.providers@[j].enabled && data.providers@[j].supports_images),
        decreases data.providers@.len() - i,
    {
        let p = &data.providers[i];
        if p.enabled && p.supports_images && text_eq(p.id.as_str(), provider_id) {
            return true;
        }
        i = i + 1;
    }
    false
}

// ---------------------------------------------------------------------------
// Text for a summary
// ---------------------------------------------------------------------------

/// The XML part of a document read for its summary: Word's `word/*.xml`, the
/// slides of a presentation and the shared strings of a workbook.
pub open spec fn summary_part(kind: OfficeKind, name: Seq<char>) -> Option<XmlTags> {
    match kind {
        OfficeKind::Excel => if name == "xl/sharedStrings.xml"@ {
            Some(XmlTags::SharedString)
        } else {
            None
        },
        _ => paragraph_part(kind, name),
    }
}

/// Which XML part of a document is read for its summary.
pub fn office_summary_part(kind: OfficeKind, name: &str) -> (r: Option<XmlTags>)
    ensures
        r == summary_part(kind, name@),
{
    match kind {
        OfficeKind::Excel => if text_eq(name, "xl/sharedStrings.xml") {
            Some(XmlTags::SharedString)
        } else {
            None
        },
        _ => match office_entry_action(kind, name, false, false) {
            EntryAction::Paragraphs(tags) => Some(tags),
            _ => None,
        },
    }
}

/// The non-blank paragraph texts of one part, each followed by a line feed.
pub open spec fn paragraph_lines(texts: Seq<Seq<char>>) -> Seq<char>
    decreases texts.len(),
{
    if texts.len() == 0 {
        Seq::empty()
    } else {
        paragraph_lines(texts.drop_last()) + if crate::text::all_ws(texts.last()) {
            Seq::empty()
        } else {
            texts.last() + seq!['\n']
        }
    }
}

/// The summary text of one XML part: its non-blank paragraphs, a line each.
pub open spec fn part_summary(contents: Seq<u8>, tags: XmlTags) -> Seq<char> {
    paragraph_lines(crate::xml::paragraph_texts(contents, block_tag_spec(tags), text_tag_spec(tags)))
}

/// The summary text of the first entries of a document.
pub open spec fn entries_summary(es: Seq<(Seq<char>, bool, Seq<u8>)>, kind: OfficeKind) -> Seq<char>
    decreases es.len(),
{
    if es.len() == 0 {
        Seq::empty()
    } else {
        let e = es.last();
        entries_summary(es.drop_last(), kind) + if !e.1 {
            match summary_part(kind, e.0) {
                Some(tags) => part_summary(e.2, tags),
                None => Seq::empty(),
            }
        } else {
            Seq::empty()
        }
    }
}

/// An entry read for the summary reads as XML, and so do its paragraphs.
pub open spec fn part_readable(e: (Seq<char>, bool, Seq<u8>), kind: OfficeKind) -> bool {
    !e.1 ==> match summary_part(kind, e.0) {
        Some(tags) => crate::xml::xml_readable(e.2) && crate::xml::paragraphs_readable(
            e.2,
            block_tag_spec(tags),
            text_tag_spec(tags),
        ),
        None => true,
    }
}

/// Every entry read for the summary reads.
pub open spec fn summary_parts_readable(es: Seq<(Seq<char>, bool, Seq<u8>)>, kind: OfficeKind) -> bool {
    forall|i: int| 0 <= i < es.len() ==> part_readable(#[trigger] es[i], kind)
}

/// The text of an Office document for its summary: the non-blank paragraphs
/// of each part read for it, in order, each on a line of its own. It is
/// refused when the archive cannot be read, or a part read for the summary
/// is not readable XML or holds a paragraph whose text does not decode.
pub fn office_summary_text(kind: OfficeKind, bytes: &[u8]) -> (r: Result<String, FileError>)
    ensures
        match zip_unpacked(bytes@) {
            Err(err) => r is Err && archive_error(r->Err_0, err),
            Ok(es) => (r is Ok <==> summary_parts_readable(es, kind)) && (r is Ok ==> r->Ok_0@
                == entries_summary(es, kind)),
        },
{
    let entries = match unpack_office(bytes) {
        Ok(entries) => entries,
        Err(e) => {
            return Err(e);
        },
    };
    let ghost es = entries_view(entries@);
    let mut output = String::new();
    let mut i: usize = 0;
    while i < entries.len()
        invariant
            i <= entries@.len(),
            es == entries_view(entries@),
            zip_unpacked(bytes@) == Ok::<Seq<(Seq<char>, bool, Seq<u8>)>, (bool, Seq<char>)>(es),
            output@ == entries_summary(es.take(i as int), kind),
            forall|j: int| 0 <= j < i ==> part_readable(#[trigger] es[j], kind),
        decreases entries@.len() - i,
    {
        let entry = &entries[i];
        proof {
            assert(es.take(i + 1).drop_last() =~= es.take(i as int));
            assert(es.take(i + 1).last() == entry_view(entries@[i as int]));
        }
        let ghost start = output@;
        if !entry.is_directory {
            if let Some(tags) = office_summary_part(kind, entry.name.as_str()) {
                let blocks = match crate::xml::extract_xml_blocks(
                    entry.contents.as_slice(),
                    block_tag(tags).as_slice(),
                    text_tag(tags).as_slice(),
                ) {
                    Ok(blocks) => blocks,
                    Err(e) => {
                        proof {
                            assert(!part_readable(es[i as int], kind));
                        }
                        return Err(e);
                    },
                };
                let ghost texts = blocks@.map_values(|b: crate::xml::XmlBlock| b.text@);
                proof {
                    let evs = choose|evs: Seq<crate::xml::EventView>|
                        {
                            &&& crate::xml::xml_events_of(entry.contents@, evs)
                            &&& crate::xml::blocks_in_order(blocks@)
                            &&& (blocks@.len() > 0 ==> blocks@.last().end <= entry.contents@.len())
                            &&& blocks@.len() == crate::xml::block_spans(evs, block_tag_spec(tags)).len()
                            &&& forall|k: int|
                                0 <= k < blocks@.len() ==> crate::xml::found_block(
                                    #[trigger] blocks@[k],
                                    crate::xml::block_spans(evs, block_tag_spec(tags))[k],
                                    entry.contents@,
                                    text_tag_spec(tags),
                                )
                        };
                    crate::xml::lemma_block_texts(
                        entry.contents@,
                        block_tag_spec(tags),
                        text_tag_spec(tags),
                        blocks@,
                        evs,
                    );
                    assert(texts.take(0) =~= Seq::<Seq<char>>::empty());
                }
                let mut j: usize = 0;
                while j < blocks.len()
                    invariant
                        j <= blocks@.len(),
                        texts == blocks@.map_values(|b: crate::xml::XmlBlock| b.text@),
                        output@ == start + paragraph_lines(texts.take(j as int)),
                    decreases blocks@.len() - j,
                {
                    let text = &blocks[j].text;
                    proof {
                        assert(texts.take(j + 1).drop_last() =~= texts.take(j as int));
                        assert(texts.take(j + 1).last() == text@);
                    }
                    if !crate::text::is_blank(chars_of(text.as_str()).as_slice()) {
                        output.append(text.as_str());
                        output.append("\n");
                        proof {
                            reveal_strlit("\n");
                        }
                    }
                    assert(output@ =~= start + paragraph_lines(texts.take(j + 1)));
                    j = j + 1;
                }
                assert(texts.take(blocks@.len() as int) =~= texts);
            } else {
                assert(output@ =~= entries_summary(es.take(i + 1), kind));
            }
        } else {
            assert(output@ =~= entries_summary(es.take(i + 1), kind));
        }
        proof {
            assert(part_readable(es[i as int], kind));
        }
        i = i + 1;
    }
    assert(es.take(entries@.len() as int) =~= es);
    Ok(output)
}

} // verus!
