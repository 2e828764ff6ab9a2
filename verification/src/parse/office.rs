//! OOXML formats. docx and pptx are zip containers of XML read directly; xlsx goes
//! through `calamine`, which already handles shared strings and the cell type zoo.
//!
//! The containers, the XML tokenizer and the workbook reader are outside code. What the
//! library decides — which parts are read and in what order, which XML events carry
//! text, where paragraphs break, which cells are kept and how rows are laid out — is
//! here and verified.

use vstd::prelude::*;

use quick_xml::events::Event;

use super::{has_str_prefix, starts_with_chars, RawText, SourceKind, TextExtractor};
use crate::config::Config;
use crate::error::{io_error_text, ExtractError};
use crate::resources::{sort_strings, sorted_texts};
use vstd::string::StringExecFns;

verus! {

// ---------------------------------------------------------------------------------------
// Zip containers
// ---------------------------------------------------------------------------------------

#[verifier::external_type_specification]
#[verifier::external_body]
pub struct ExZipError(zip::result::ZipError);

/// The name of every entry of a zip container, in directory order, `None` for an entry
/// whose header or name cannot be read: `None` as a whole when the bytes are not a
/// readable zip archive.
pub uninterp spec fn zip_entry_names(bytes: Seq<u8>) -> Option<Seq<Option<Seq<char>>>>;

/// The text of the entry named `name` of a zip container: `None` when the archive, the
/// entry or its UTF-8 text cannot be read.
pub uninterp spec fn zip_entry_text(bytes: Seq<u8>, name: Seq<char>) -> Option<Seq<char>>;

pub open spec fn entry_texts(v: Seq<Option<String>>) -> Seq<Option<Seq<char>>> {
    v.map_values(|o: Option<String>| match o {
        Some(s) => Some(s@),
        None => None,
    })
}

/// `zip::ZipArchive::new` over the bytes, then `by_index_raw` and `ZipFile::name` for
/// every index below `len()`: the entry names in directory order.
#[verifier::external_body]
pub(crate) fn zip_entries(bytes: &[u8]) -> (r: Result<Vec<Option<String>>, zip::result::ZipError>)
    ensures
        r is Ok <==> zip_entry_names(bytes@) is Some,
        r is Ok ==> entry_texts(r->Ok_0@) == zip_entry_names(bytes@)->0,
{
    let mut z = zip::ZipArchive::new(std::io::Cursor::new(bytes))?;
    let mut names = Vec::new();
    for i in 0..z.len() {
        names.push(z.by_index_raw(i).ok().and_then(|f| f.name().ok().map(|n| n.into_owned())));
    }
    Ok(names)
}

/// Why an entry could not be read: the archive or entry lookup failed, or its bytes did
/// not read as UTF-8 text.
pub enum ZipEntryError {
    Archive(zip::result::ZipError),
    Read(std::io::Error),
}

/// `zip::ZipArchive::new` over the bytes, `by_name`, then `Read::read_to_string` on the
/// entry.
#[verifier::external_body]
fn read_zip_entry(bytes: &[u8], name: &str) -> (r: Result<String, ZipEntryError>)
    ensures
        r is Ok <==> zip_entry_text(bytes@, name@) is Some,
        r is Ok ==> r->Ok_0@ == zip_entry_text(bytes@, name@)->0,
{
    let mut z = zip::ZipArchive::new(std::io::Cursor::new(bytes)).map_err(ZipEntryError::Archive)?;
    let mut f = z.by_name(name).map_err(ZipEntryError::Archive)?;
    let mut buf = String::new();
    std::io::Read::read_to_string(&mut f, &mut buf).map_err(ZipEntryError::Read)?;
    Ok(buf)
}

/// `ZipError`'s `Display` text. Nothing is stated of its wording.
#[verifier::external_body]
fn zip_error_text(e: &zip::result::ZipError) -> String {
    format!("{e}")
}

/// Which parts of a container a format reads.
pub enum PartSelection {
    /// `word/document.xml`.
    WordDocument,
    /// `ppt/slides/slide*.xml`.
    Slides,
}

/// Whether `s` ends with `p`.
pub open spec fn ends_with_chars(s: Seq<char>, p: Seq<char>) -> bool {
    p.len() <= s.len() && s.skip(s.len() - p.len()) == p
}

pub open spec fn part_wanted(sel: PartSelection, name: Seq<char>) -> bool {
    match sel {
        PartSelection::WordDocument => name == "word/document.xml"@,
        PartSelection::Slides => starts_with_chars(name, "ppt/slides/slide"@) && ends_with_chars(name, ".xml"@),
    }
}

/// The readable entry names that the selection wants, in directory order.
pub open spec fn wanted_names(names: Seq<Option<Seq<char>>>, sel: PartSelection) -> Seq<Seq<char>>
    decreases names.len(),
{
    if names.len() == 0 {
        Seq::empty()
    } else {
        let rest = wanted_names(names.drop_last(), sel);
        match names.last() {
            Some(n) => if part_wanted(sel, n) {
                rest.push(n)
            } else {
                rest
            },
            None => rest,
        }
    }
}

fn has_str_suffix(s: &str, p: &str) -> (r: bool)
    ensures
        r == ends_with_chars(s@, p@),
{
    let sc = crate::text::chars_of(s);
    let pc = crate::text::chars_of(p);
    if pc.len() > sc.len() {
        return false;
    }
    let off = sc.len() - pc.len();
    let mut i: usize = 0;
    while i < pc.len()
        invariant
            sc@ == s@,
            pc@ == p@,
            off == sc.len() - pc.len(),
            i <= pc.len() <= sc.len(),
            forall|k: int| 0 <= k < i ==> sc@[off + k] == pc@[k],
        decreases pc.len() - i,
    {
        if sc[off + i] != pc[i] {
            proof {
                assert(sc@.skip(off as int)[i as int] != pc@[i as int]);
            }
            return false;
        }
        i = i + 1;
    }
    proof {
        assert(sc@.skip(off as int) =~= pc@);
    }
    true
}

fn wants(sel: &PartSelection, name: &str) -> (r: bool)
    ensures
        r == part_wanted(*sel, name@),
{
    match sel {
        PartSelection::WordDocument => {
            let target = crate::text::chars_of("word/document.xml");
            same_text(name, target.as_slice())
        },
        PartSelection::Slides => has_str_prefix(name, "ppt/slides/slide") && has_str_suffix(name, ".xml"),
    }
}

/// The texts of the wanted parts, sorted by name: `Ok` exactly when the archive opens and
/// every wanted entry reads.
pub open spec fn parts_readable(bytes: Seq<u8>, sel: PartSelection) -> bool {
    &&& zip_entry_names(bytes) is Some
    &&& forall|i: int|
        0 <= i < sorted_texts(wanted_names(zip_entry_names(bytes)->0, sel)).len() ==> (#[trigger] zip_entry_text(
            bytes,
            sorted_texts(wanted_names(zip_entry_names(bytes)->0, sel))[i],
        )) is Some
}

/// Read every entry the selection wants, sorted by name for determinism: zip entry order
/// does not guarantee reading order.
fn read_parts(bytes: &[u8], sel: &PartSelection) -> (r: Result<Vec<String>, ExtractError>)
    ensures
        r is Ok <==> parts_readable(bytes@, *sel),
        r is Ok ==> ({
            let ns = sorted_texts(wanted_names(zip_entry_names(bytes@)->0, *sel));
            &&& r->Ok_0.len() == ns.len()
            &&& forall|i: int| 0 <= i < ns.len() ==> Some((#[trigger] r->Ok_0@[i])@) == zip_entry_text(bytes@, ns[i])
        }),
        r is Err ==> r->Err_0 is Parse,
{
    let entries = match zip_entries(bytes) {
        Err(e) => {
            let msg = String::from_str("zip: ").concat(zip_error_text(&e).as_str());
            return Err(ExtractError::Parse(msg));
        },
        Ok(v) => v,
    };
    let ghost all = entry_texts(entries@);
    let mut names: Vec<String> = Vec::new();
    let mut i: usize = 0;
    while i < entries.len()
        invariant
            all == entry_texts(entries@),
            i <= entries.len(),
            crate::resources::texts_seq(names@) == wanted_names(all.take(i as int), *sel),
        decreases entries.len() - i,
    {
        proof {
            assert(all.take(i + 1).drop_last() =~= all.take(i as int));
        }
        match &entries[i] {
            Some(n) => {
                if wants(sel, n.as_str()) {
                    names.push(n.clone());
                    proof {
                        assert(crate::resources::texts_seq(names@) =~= wanted_names(all.take(i as int), *sel).push(
                            n@,
                        ));
                    }
                }
            },
            None => {},
        }
        i = i + 1;
    }
    proof {
        assert(all.take(entries.len() as int) =~= all);
    }
    sort_strings(&mut names);
    let ghost ns = crate::resources::texts_seq(names@);
    let mut out: Vec<String> = Vec::new();
    let mut k: usize = 0;
    while k < names.len()
        invariant
            ns == crate::resources::texts_seq(names@),
            ns == sorted_texts(wanted_names(zip_entry_names(bytes@)->0, *sel)),
            zip_entry_names(bytes@) is Some,
            k <= names.len(),
            out.len() == k,
            forall|q: int| 0 <= q < k ==> Some((#[trigger] out@[q])@) == zip_entry_text(bytes@, ns[q]),
            forall|q: int| 0 <= q < k ==> (#[trigger] zip_entry_text(bytes@, ns[q])) is Some,
        decreases names.len() - k,
    {
        let name = names[k].as_str();
        proof {
            assert(ns[k as int] == name@);
        }
        match read_zip_entry(bytes, name) {
            Ok(t) => {
                out.push(t);
            },
            Err(e) => {
                let detail = match &e {
                    ZipEntryError::Archive(z) => zip_error_text(z),
                    ZipEntryError::Read(io) => io_error_text(io),
                };
                let msg = String::from_str("zip entry ").concat(name).concat(": ").concat(detail.as_str());
                return Err(ExtractError::Parse(msg));
            },
        }
        k = k + 1;
    }
    Ok(out)
}

// ---------------------------------------------------------------------------------------
// XML parts
// ---------------------------------------------------------------------------------------

#[verifier::external_type_specification]
#[verifier::external_body]
pub struct ExXmlError(quick_xml::Error);

/// One event of an XML part, as far as text extraction cares: the local name of a start
/// or end tag, decoded character data, or anything else.
pub enum XmlEvent {
    Start(String),
    End(String),
    Text(String),
    Other,
}

/// An event as a plain value: its tag (start, end, text, other), local name and text.
pub type XmlEventView = (int, Seq<char>, Seq<char>);

pub open spec fn event_view(e: XmlEvent) -> XmlEventView {
    match e {
        XmlEvent::Start(n) => (0, n@, Seq::empty()),
        XmlEvent::End(n) => (1, n@, Seq::empty()),
        XmlEvent::Text(t) => (2, Seq::empty(), t@),
        XmlEvent::Other => (3, Seq::empty(), Seq::empty()),
    }
}

pub open spec fn event_views(v: Seq<XmlEvent>) -> Seq<XmlEventView> {
    v.map_values(|e: XmlEvent| event_view(e))
}

/// The events of an XML document up to its end or its first malformed construct, and
/// whether reading stopped at such an error.
pub uninterp spec fn xml_reading(xml: Seq<char>) -> (Seq<XmlEventView>, bool);

/// `quick_xml::Reader::from_str` with its default configuration (text is not trimmed),
/// `read_event` until `Eof` or an error, each event kept as its local name
/// (`name().local_name()`) or its text (`BytesText::xml10_content`).
#[verifier::external_body]
fn read_xml_events(xml: &str) -> (r: (Vec<XmlEvent>, Option<quick_xml::Error>))
    ensures
        event_views(r.0@) == xml_reading(xml@).0,
        r.1 is Some <==> xml_reading(xml@).1,
{
    let mut reader = quick_xml::Reader::from_str(xml);
    let mut out = Vec::new();
    loop {
        out.push(match reader.read_event() {
            Ok(Event::Start(e)) => XmlEvent::Start(e.name().local_name().into_inner().to_string()),
            Ok(Event::End(e)) => XmlEvent::End(e.name().local_name().into_inner().to_string()),
            Ok(Event::Text(e)) => XmlEvent::Text(e.xml10_content().into_owned()),
            Ok(Event::Eof) => return (out, None),
            Ok(_) => XmlEvent::Other,
            Err(e) => return (out, Some(e)),
        });
    }
}

/// `quick_xml::Error`'s `Display` text. Nothing is stated of its wording.
#[verifier::external_body]
fn xml_error_text(e: &quick_xml::Error) -> String {
    format!("{e}")
}

/// Whether a run of text is open, and the text so far, after one more event: the
/// run-text element opens and closes a run, the paragraph element's end breaks the line,
/// and character data counts only inside a run.
pub open spec fn ooxml_step(st: (bool, Seq<char>), e: XmlEventView, tl: Seq<char>, bl: Seq<char>) -> (bool, Seq<char>) {
    if e.0 == 0 {
        (if e.1 == tl {
            true
        } else {
            st.0
        }, st.1)
    } else if e.0 == 1 {
        if e.1 == tl {
            (false, st.1)
        } else if e.1 == bl {
            (st.0, st.1.push('\n'))
        } else {
            st
        }
    } else if e.0 == 2 && st.0 {
        (st.0, st.1 + e.2)
    } else {
        st
    }
}

pub open spec fn ooxml_fold(ev: Seq<XmlEventView>, tl: Seq<char>, bl: Seq<char>, k: int) -> (bool, Seq<char>)
    decreases k,
{
    if k <= 0 {
        (false, Seq::empty())
    } else {
        ooxml_step(ooxml_fold(ev, tl, bl, k - 1), ev[k - 1], tl, bl)
    }
}

/// The text of an event stream.
pub open spec fn spec_ooxml_text(ev: Seq<XmlEventView>, tl: Seq<char>, bl: Seq<char>) -> Seq<char> {
    ooxml_fold(ev, tl, bl, ev.len() as int).1
}

fn same_text(a: &str, b: &[char]) -> (r: bool)
    ensures
        r == (a@ == b@),
{
    let ac = crate::text::chars_of(a);
    if ac.len() != b.len() {
        return false;
    }
    let mut i: usize = 0;
    while i < ac.len()
        invariant
            ac@ == a@,
            ac.len() == b.len(),
            i <= ac.len(),
            forall|k: int| 0 <= k < i ==> ac@[k] == b@[k],
        decreases ac.len() - i,
    {
        if ac[i] != b[i] {
            return false;
        }
        i = i + 1;
    }
    proof {
        assert(ac@ =~= b@);
    }
    true
}

/// The text carried by an event stream: run text joined without gaps, one newline at
/// the end of each paragraph element. `text_local` is the local name of the run-text
/// element (`w:t`, `a:t`) and `break_local` that of the paragraph (`w:p`); matching on
/// local names ignores namespace prefixes, which vary between producers.
pub fn ooxml_events_text(events: &Vec<XmlEvent>, text_local: &str, break_local: &str) -> (r: String)
    ensures
        r@ == spec_ooxml_text(event_views(events@), text_local@, break_local@),
{
    let tl = crate::text::chars_of(text_local);
    let bl = crate::text::chars_of(break_local);
    let ghost ev = event_views(events@);
    let mut out = String::new();
    let mut in_text = false;
    let mut k: usize = 0;
    while k < events.len()
        invariant
            ev == event_views(events@),
            tl@ == text_local@,
            bl@ == break_local@,
            k <= events.len(),
            (in_text, out@) == ooxml_fold(ev, tl@, bl@, k as int),
        decreases events.len() - k,
    {
        proof {
            assert(ev[k as int] == event_view(events@[k as int]));
        }
        match &events[k] {
            XmlEvent::Start(n) => {
                if same_text(n.as_str(), tl.as_slice()) {
                    in_text = true;
                }
            },
            XmlEvent::End(n) => {
                if same_text(n.as_str(), tl.as_slice()) {
                    in_text = false;
                } else if same_text(n.as_str(), bl.as_slice()) {
                    out.append("\n");
                    proof {
                        reveal_strlit("\n");
                    }
                }
            },
            XmlEvent::Text(t) => {
                if in_text {
                    out.append(t.as_str());
                }
            },
            XmlEvent::Other => {},
        }
        k = k + 1;
    }
    out
}

/// Pull text from an OOXML part: the text of its events, or a parse error when the XML
/// is malformed.
pub fn text_from_ooxml(xml: &str, text_local: &str, break_local: &str) -> (r: Result<String, ExtractError>)
    ensures
        r is Ok <==> !xml_reading(xml@).1,
        r is Ok ==> r->Ok_0@ == spec_ooxml_text(xml_reading(xml@).0, text_local@, break_local@),
        r is Err ==> r->Err_0 is Parse,
{
    let (events, err) = read_xml_events(xml);
    match err {
        Some(e) => {
            let msg = String::from_str("ooxml: ").concat(xml_error_text(&e).as_str());
            Err(ExtractError::Parse(msg))
        },
        None => Ok(ooxml_events_text(&events, text_local, break_local)),
    }
}

// ---------------------------------------------------------------------------------------
// Word processing and presentations
// ---------------------------------------------------------------------------------------

/// The XML of the wanted parts, sorted by name.
pub open spec fn part_xmls(bytes: Seq<u8>, sel: PartSelection) -> Seq<Seq<char>> {
    let ns = sorted_texts(wanted_names(zip_entry_names(bytes)->0, sel));
    Seq::new(ns.len(), |i: int| zip_entry_text(bytes, ns[i])->0)
}

/// The text of the parts, each part's run text followed by `sep`: `None` when any part
/// is malformed XML.
pub open spec fn parts_text(xmls: Seq<Seq<char>>, sep: Seq<char>) -> Option<Seq<char>>
    decreases xmls.len(),
{
    if xmls.len() == 0 {
        Some(Seq::empty())
    } else {
        match parts_text(xmls.drop_last(), sep) {
            None => None,
            Some(t) => if xml_reading(xmls.last()).1 {
                None
            } else {
                Some(t + spec_ooxml_text(xml_reading(xmls.last()).0, "t"@, "p"@) + sep)
            },
        }
    }
}

/// The text of a container's wanted parts: `None` when the container, a part or a part's
/// XML cannot be read.
pub open spec fn ooxml_document_text(bytes: Seq<u8>, sel: PartSelection, sep: Seq<char>) -> Option<Seq<char>> {
    if parts_readable(bytes, sel) {
        parts_text(part_xmls(bytes, sel), sep)
    } else {
        None
    }
}

fn document_text(bytes: &[u8], sel: PartSelection, sep: &str) -> (r: Result<String, ExtractError>)
    ensures
        r is Ok <==> ooxml_document_text(bytes@, sel, sep@) is Some,
        r is Ok ==> r->Ok_0@ == ooxml_document_text(bytes@, sel, sep@)->0,
        r is Err ==> r->Err_0 is Parse,
{
    let parts = read_parts(bytes, &sel)?;
    let ghost xmls = part_xmls(bytes@, sel);
    proof {
        assert(parts_readable(bytes@, sel));
        assert(ooxml_document_text(bytes@, sel, sep@) == parts_text(xmls, sep@));
    }
    proof {
        assert forall|i: int| 0 <= i < parts.len() implies (#[trigger] parts@[i])@ == xmls[i] by {}
    }
    let mut text = String::new();
    let mut k: usize = 0;
    proof {
        reveal_strlit("t");
        reveal_strlit("p");
        assert(xmls.take(0) =~= Seq::<Seq<char>>::empty());
    }
    while k < parts.len()
        invariant
            parts.len() == xmls.len(),
            forall|i: int| 0 <= i < parts.len() ==> (#[trigger] parts@[i])@ == xmls[i],
            k <= parts.len(),
            parts_text(xmls.take(k as int), sep@) == Some(text@),
            ooxml_document_text(bytes@, sel, sep@) == parts_text(xmls, sep@),
        decreases parts.len() - k,
    {
        proof {
            assert(xmls.take(k + 1).drop_last() =~= xmls.take(k as int));
            assert(xmls.take(k + 1).last() == xmls[k as int]);
        }
        match text_from_ooxml(parts[k].as_str(), "t", "p") {
            Ok(t) => {
                text.append(t.as_str());
                text.append(sep);
            },
            Err(e) => {
                proof {
                    assert(xml_reading(xmls[k as int]).1);
                    assert(parts_text(xmls.take(k + 1).drop_last(), sep@) == Some(text@));
                    assert(parts_text(xmls.take(k + 1), sep@) is None);
                    lemma_parts_text_prefix_none(xmls, sep@, k + 1);
                    assert(xmls.take(xmls.len() as int) =~= xmls);
                }
                return Err(e);
            },
        }
        k = k + 1;
    }
    proof {
        assert(xmls.take(xmls.len() as int) =~= xmls);
    }
    Ok(text)
}

/// Once a prefix of the parts fails, so does every longer prefix.
proof fn lemma_parts_text_prefix_none(xmls: Seq<Seq<char>>, sep: Seq<char>, k: int)
    requires
        0 <= k <= xmls.len(),
        parts_text(xmls.take(k), sep) is None,
    ensures
        parts_text(xmls.take(xmls.len() as int), sep) is None,
    decreases xmls.len() - k,
{
    if k < xmls.len() {
        assert(xmls.take(k + 1).drop_last() =~= xmls.take(k));
        lemma_parts_text_prefix_none(xmls, sep, k + 1);
    }
}

pub struct DocxExtractor;

impl TextExtractor for DocxExtractor {
    /// The run text of `word/document.xml`, one line per paragraph.
    fn extract(&self, bytes: &[u8], _cfg: &Config) -> (r: Result<RawText, ExtractError>)
        ensures
            r is Ok <==> ooxml_document_text(bytes@, PartSelection::WordDocument, Seq::empty()) is Some,
            r is Ok ==> r->Ok_0.text@ == ooxml_document_text(bytes@, PartSelection::WordDocument, Seq::empty())->0
                && r->Ok_0.source == SourceKind::WordProcessing && r->Ok_0.text_layer_present is None,
            r is Err ==> r->Err_0 is Parse,
    {
        proof {
            reveal_strlit("");
            assert(""@ =~= Seq::<char>::empty());
        }
        let text = document_text(bytes, PartSelection::WordDocument, "")?;
        Ok(RawText::new(text, SourceKind::WordProcessing))
    }
}

pub struct PptxExtractor;

impl TextExtractor for PptxExtractor {
    /// The run text of every slide, slides in name order, each slide ending in a newline.
    ///
    /// Zip entry order does not guarantee reading order, so slides are sorted by name.
    /// `slide10` sorting before `slide2` is accepted: it is stable, which is what
    /// determinism requires, and slide order does not affect which keywords are found.
    fn extract(&self, bytes: &[u8], _cfg: &Config) -> (r: Result<RawText, ExtractError>)
        ensures
            r is Ok <==> ooxml_document_text(bytes@, PartSelection::Slides, seq!['\n']) is Some,
            r is Ok ==> r->Ok_0.text@ == ooxml_document_text(bytes@, PartSelection::Slides, seq!['\n'])->0
                && r->Ok_0.source == SourceKind::Presentation && r->Ok_0.text_layer_present is None,
            r is Err ==> r->Err_0 is Parse,
    {
        proof {
            reveal_strlit("\n");
            assert("\n"@ =~= seq!['\n']);
        }
        let text = document_text(bytes, PartSelection::Slides, "\n")?;
        Ok(RawText::new(text, SourceKind::Presentation))
    }
}

// ---------------------------------------------------------------------------------------
// Spreadsheets
// ---------------------------------------------------------------------------------------

#[verifier::external_type_specification]
#[verifier::external_body]
#[verifier::reject_recursive_types(T)]
pub struct ExCursor<T>(std::io::Cursor<T>);

#[verifier::external_type_specification]
#[verifier::external_body]
#[verifier::reject_recursive_types(RS)]
pub struct ExXlsx<RS>(calamine::Xlsx<RS>);

#[verifier::external_type_specification]
#[verifier::external_body]
#[verifier::reject_recursive_types(T)]
pub struct ExRange<T>(calamine::Range<T>);

#[verifier::external_type_specification]
#[verifier::external_body]
pub struct ExData(calamine::Data);

#[verifier::external_type_specification]
#[verifier::external_body]
pub struct ExXlsxError(calamine::XlsxError);

/// A worksheet cell as far as text extraction cares: the variants of `calamine::Data`,
/// holding the text of those that carry text.
pub enum Cell {
    Int,
    Float,
    String(String),
    Bool,
    DateTime,
    DateTimeIso(String),
    DurationIso(String),
    Error,
    Empty,
}

/// A cell as plain values: which `calamine::Data` variant it is, in declaration order,
/// and the text of the variants that carry text.
pub open spec fn cell_view(c: Cell) -> (nat, Option<Seq<char>>) {
    match c {
        Cell::Int => (0, None),
        Cell::Float => (1, None),
        Cell::String(s) => (2, Some(s@)),
        Cell::Bool => (3, None),
        Cell::DateTime => (4, None),
        Cell::DateTimeIso(s) => (5, Some(s@)),
        Cell::DurationIso(s) => (6, Some(s@)),
        Cell::Error => (7, None),
        Cell::Empty => (8, None),
    }
}

/// Whether `calamine::Xlsx::new` opens these bytes. (The names below are functions of
/// the bytes: `calamine` keeps the workbook's relationships and paths in hash maps but
/// only looks entries up in them and never walks them, and reads each part from the
/// zip container by name.)
pub uninterp spec fn xlsx_opens(bytes: Seq<u8>) -> bool;

/// What `Reader::sheet_names` reports of the workbook these bytes open to.
pub uninterp spec fn xlsx_sheet_names(bytes: Seq<u8>) -> Seq<Seq<char>>;

/// Whether `Reader::worksheet_range` reads the named sheet of the workbook.
pub uninterp spec fn xlsx_sheet_readable(bytes: Seq<u8>, sheet: Seq<char>) -> bool;

/// What `Range::height` reports of the named sheet's cells.
pub uninterp spec fn xlsx_sheet_height(bytes: Seq<u8>, sheet: Seq<char>) -> nat;

/// What `Range::width` reports of the named sheet's cells.
pub uninterp spec fn xlsx_sheet_width(bytes: Seq<u8>, sheet: Seq<char>) -> nat;

/// What `Range::get` holds at a relative position of the named sheet, as a cell view;
/// a position outside the range reads as empty.
pub uninterp spec fn xlsx_cell(bytes: Seq<u8>, sheet: Seq<char>, row: nat, col: nat) -> (nat, Option<Seq<char>>);

/// A workbook `calamine` opened, with the bytes it was opened from. Built only by
/// [`open_workbook`], right after opening those bytes.
pub struct OpenXlsx {
    wb: calamine::Xlsx<std::io::Cursor<Vec<u8>>>,
    source: Ghost<Seq<u8>>,
}

impl OpenXlsx {
    /// The bytes the workbook was opened from.
    pub closed spec fn bytes(&self) -> Seq<u8> {
        self.source@
    }
}

/// One sheet's cells as `calamine` read them, with the workbook bytes and the sheet name
/// they were read from. Built only by [`read_sheet`].
pub struct SheetRange {
    range: calamine::Range<calamine::Data>,
    source: Ghost<Seq<u8>>,
    sheet: Ghost<Seq<char>>,
}

impl SheetRange {
    pub closed spec fn bytes(&self) -> Seq<u8> {
        self.source@
    }

    pub closed spec fn sheet(&self) -> Seq<char> {
        self.sheet@
    }
}

/// `calamine::Xlsx::new` over a copy of the bytes.
#[verifier::external_body]
fn open_xlsx(bytes: &[u8]) -> (r: Result<calamine::Xlsx<std::io::Cursor<Vec<u8>>>, calamine::XlsxError>)
    ensures
        r is Ok <==> xlsx_opens(bytes@),
{
    calamine::Reader::new(std::io::Cursor::new(bytes.to_vec()))
}

/// Open the bytes as a workbook, keeping the bytes it was opened from.
fn open_workbook(bytes: &[u8]) -> (r: Result<OpenXlsx, calamine::XlsxError>)
    ensures
        r is Ok <==> xlsx_opens(bytes@),
        r is Ok ==> r->Ok_0.bytes() == bytes@,
{
    match open_xlsx(bytes) {
        Ok(wb) => Ok(OpenXlsx { wb, source: Ghost(bytes@) }),
        Err(e) => Err(e),
    }
}

/// `Reader::sheet_names`: the workbook's sheet names, in workbook order.
#[verifier::external_body]
fn sheet_names(wb: &OpenXlsx) -> (r: Vec<String>)
    ensures
        r@.len() == xlsx_sheet_names(wb.bytes()).len(),
        forall|i: int| 0 <= i < r@.len() ==> (#[trigger] r@[i])@ == xlsx_sheet_names(wb.bytes())[i],
{
    calamine::Reader::sheet_names(&wb.wb)
}

/// `Reader::worksheet_range`: the sheet's cells, `None` when the sheet cannot be read.
#[verifier::external_body]
fn worksheet_range(wb: &mut OpenXlsx, name: &str) -> (r: Option<calamine::Range<calamine::Data>>)
    ensures
        final(wb).bytes() == old(wb).bytes(),
        r is Some <==> xlsx_sheet_readable(old(wb).bytes(), name@),
{
    calamine::Reader::worksheet_range(&mut wb.wb, name).ok()
}

/// Read the named sheet's cells, keeping where they were read from.
fn read_sheet(wb: &mut OpenXlsx, name: &str) -> (r: Option<SheetRange>)
    ensures
        final(wb).bytes() == old(wb).bytes(),
        r is Some <==> xlsx_sheet_readable(old(wb).bytes(), name@),
        r is Some ==> r->0.bytes() == old(wb).bytes() && r->0.sheet() == name@,
{
    let ghost b = wb.bytes();
    match worksheet_range(wb, name) {
        Some(range) => Some(SheetRange { range, source: Ghost(b), sheet: Ghost(name@) }),
        None => None,
    }
}

/// `Range::height`.
#[verifier::external_body]
fn range_height(r: &SheetRange) -> (h: usize)
    ensures
        h as nat == xlsx_sheet_height(r.bytes(), r.sheet()),
{
    r.range.height()
}

/// `Range::width`.
#[verifier::external_body]
fn range_width(r: &SheetRange) -> (w: usize)
    ensures
        w as nat == xlsx_sheet_width(r.bytes(), r.sheet()),
{
    r.range.width()
}

/// `Range::get` at a relative position, each `Data` variant taken to its `Cell`; a
/// position outside the range reads as empty.
#[verifier::external_body]
fn range_cell(r: &SheetRange, row: usize, col: usize) -> (c: Cell)
    ensures
        cell_view(c) == xlsx_cell(r.bytes(), r.sheet(), row as nat, col as nat),
{
    match r.range.get((row, col)) {
        Some(calamine::Data::Int(_)) => Cell::Int,
        Some(calamine::Data::Float(_)) => Cell::Float,
        Some(calamine::Data::String(s)) => Cell::String(s.clone()),
        Some(calamine::Data::Bool(_)) => Cell::Bool,
        Some(calamine::Data::DateTime(_)) => Cell::DateTime,
        Some(calamine::Data::DateTimeIso(s)) => Cell::DateTimeIso(s.clone()),
        Some(calamine::Data::DurationIso(s)) => Cell::DurationIso(s.clone()),
        Some(calamine::Data::Error(_)) => Cell::Error,
        Some(calamine::Data::Empty) | None => Cell::Empty,
    }
}

/// `XlsxError`'s `Debug` text. Nothing is stated of its wording.
#[verifier::external_body]
fn xlsx_error_debug(e: &calamine::XlsxError) -> String {
    format!("{e:?}")
}

/// The text a cell contributes: a string trimmed of surrounding whitespace unless that
/// leaves nothing, an ISO date or duration as written, and nothing for any other cell.
/// Bare numbers are dropped: a spreadsheet of measurements would otherwise flood the
/// identifier stage with numerics that carry no identifying power on their own.
pub open spec fn spec_cell_text(c: Cell) -> Option<Seq<char>> {
    match c {
        Cell::String(s) => if crate::canonical::trim(s@).len() == 0 {
            None
        } else {
            Some(crate::canonical::trim(s@))
        },
        Cell::DateTimeIso(s) => Some(s@),
        Cell::DurationIso(s) => Some(s@),
        _ => None,
    }
}

/// Render a cell as text, dropping cells that carry no lexical content.
pub fn cell_text(c: &Cell) -> (r: Option<String>)
    ensures
        match r {
            Some(t) => spec_cell_text(*c) == Some(t@),
            None => spec_cell_text(*c) is None,
        },
{
    match c {
        Cell::String(s) => {
            let cs = crate::text::chars_of(s.as_str());
            let t = crate::canonical::trimmed_chars(cs.as_slice());
            if t.len() == 0 {
                None
            } else {
                Some(crate::text::string_from_chars(t.as_slice()))
            }
        },
        Cell::DateTimeIso(s) => Some(s.clone()),
        Cell::DurationIso(s) => Some(s.clone()),
        _ => None,
    }
}

/// The texts of a row's cells, dropped cells left out.
pub open spec fn kept_cells(row: Seq<Cell>) -> Seq<Seq<char>>
    decreases row.len(),
{
    if row.len() == 0 {
        Seq::empty()
    } else {
        let rest = kept_cells(row.drop_last());
        match spec_cell_text(row.last()) {
            Some(t) => rest.push(t),
            None => rest,
        }
    }
}

/// Texts joined by tabs.
pub open spec fn join_tabs(ws: Seq<Seq<char>>) -> Seq<char>
    decreases ws.len(),
{
    if ws.len() == 0 {
        Seq::empty()
    } else if ws.len() == 1 {
        ws[0]
    } else {
        join_tabs(ws.drop_last()) + seq!['\t'] + ws.last()
    }
}

/// One line per row that keeps any cell, its cells separated by tabs.
pub open spec fn rows_text(rows: Seq<Vec<Cell>>) -> Seq<char>
    decreases rows.len(),
{
    if rows.len() == 0 {
        Seq::empty()
    } else {
        let kept = kept_cells(rows.last()@);
        rows_text(rows.drop_last()) + if kept.len() == 0 {
            Seq::empty()
        } else {
            join_tabs(kept) + seq!['\n']
        }
    }
}

/// Every readable sheet: its name on a line of its own, then its rows. A sheet that
/// cannot be read is left out.
pub open spec fn spec_workbook_text(sheets: Seq<(String, Option<Vec<Vec<Cell>>>)>) -> Seq<char>
    decreases sheets.len(),
{
    if sheets.len() == 0 {
        Seq::empty()
    } else {
        let rest = spec_workbook_text(sheets.drop_last());
        match sheets.last().1 {
            Some(rows) => rest + sheets.last().0@ + seq!['\n'] + rows_text(rows@),
            None => rest,
        }
    }
}

/// The line of one row: its kept cells joined by tabs and a newline, or nothing.
fn row_line(row: &Vec<Cell>) -> (r: Vec<char>)
    ensures
        r@ == (if kept_cells(row@).len() == 0 {
            Seq::empty()
        } else {
            join_tabs(kept_cells(row@)) + seq!['\n']
        }),
{
    let mut line: Vec<char> = Vec::new();
    let mut count: usize = 0;
    let mut c: usize = 0;
    proof {
        assert(row@.take(0) =~= Seq::<Cell>::empty());
    }
    while c < row.len()
        invariant
            c <= row.len(),
            count == kept_cells(row@.take(c as int)).len(),
            count <= c,
            line@ == join_tabs(kept_cells(row@.take(c as int))),
        decreases row.len() - c,
    {
        proof {
            assert(row@.take(c + 1).drop_last() =~= row@.take(c as int));
            assert(row@.take(c + 1).last() == row@[c as int]);
        }
        match cell_text(&row[c]) {
            Some(t) => {
                let tc = crate::text::chars_of(t.as_str());
                let ghost before = line@;
                if count > 0 {
                    line.push('\t');
                }
                crate::canonical::append_all(&mut line, tc.as_slice());
                proof {
                    let k = kept_cells(row@.take(c + 1));
                    assert(k == kept_cells(row@.take(c as int)).push(t@));
                    if count == 0 {
                        assert(k =~= seq![t@]);
                        assert(before =~= Seq::<char>::empty());
                        assert(line@ =~= k[0]);
                    } else {
                        assert(k.drop_last() =~= kept_cells(row@.take(c as int)));
                        assert(line@ =~= join_tabs(k.drop_last()) + seq!['\t'] + k.last());
                    }
                }
                count = count + 1;
            },
            None => {},
        }
        c = c + 1;
    }
    proof {
        assert(row@.take(row.len() as int) =~= row@);
    }
    if count > 0 {
        line.push('\n');
    } else {
        proof {
            assert(line@ =~= Seq::<char>::empty());
        }
    }
    line
}

/// The text of a workbook given its sheets in workbook order, each with its rows or
/// `None` when the sheet could not be read.
pub fn workbook_text(sheets: &Vec<(String, Option<Vec<Vec<Cell>>>)>) -> (r: String)
    ensures
        r@ == spec_workbook_text(sheets@),
{
    let mut out: Vec<char> = Vec::new();
    let mut i: usize = 0;
    proof {
        assert(sheets@.take(0) =~= Seq::<(String, Option<Vec<Vec<Cell>>>)>::empty());
    }
    while i < sheets.len()
        invariant
            i <= sheets.len(),
            out@ == spec_workbook_text(sheets@.take(i as int)),
        decreases sheets.len() - i,
    {
        proof {
            assert(sheets@.take(i + 1).drop_last() =~= sheets@.take(i as int));
            assert(sheets@.take(i + 1).last() == sheets@[i as int]);
        }
        match &sheets[i].1 {
            Some(rows) => {
                let ghost before = out@;
                let name = crate::text::chars_of(sheets[i].0.as_str());
                crate::canonical::append_all(&mut out, name.as_slice());
                out.push('\n');
                let ghost head = out@;
                let mut k: usize = 0;
                proof {
                    assert(rows@.take(0) =~= Seq::<Vec<Cell>>::empty());
                    assert(head =~= before + sheets@[i as int].0@ + seq!['\n'] + rows_text(rows@.take(0)));
                }
                while k < rows.len()
                    invariant
                        k <= rows.len(),
                        out@ == before + sheets@[i as int].0@ + seq!['\n'] + rows_text(rows@.take(k as int)),
                    decreases rows.len() - k,
                {
                    proof {
                        assert(rows@.take(k + 1).drop_last() =~= rows@.take(k as int));
                        assert(rows@.take(k + 1).last() == rows@[k as int]);
                    }
                    let line = row_line(&rows[k]);
                    crate::canonical::append_all(&mut out, line.as_slice());
                    proof {
                        assert(out@ =~= before + sheets@[i as int].0@ + seq!['\n'] + rows_text(rows@.take(k + 1)));
                    }
                    k = k + 1;
                }
                proof {
                    assert(rows@.take(rows.len() as int) =~= rows@);
                }
            },
            None => {},
        }
        i = i + 1;
    }
    proof {
        assert(sheets@.take(sheets.len() as int) =~= sheets@);
    }
    crate::text::string_from_chars(out.as_slice())
}

/// Whether `rows` are the named sheet's first rows as the reader reports them: each as
/// wide as the sheet, each cell the one at that position.
pub open spec fn rows_agree(rows: Seq<Vec<Cell>>, bytes: Seq<u8>, sheet: Seq<char>) -> bool {
    &&& forall|r: int| 0 <= r < rows.len() ==> (#[trigger] rows[r])@.len() == xlsx_sheet_width(bytes, sheet)
    &&& forall|r: int, c: int|
        0 <= r < rows.len() && 0 <= c < rows[r]@.len() ==> cell_view(#[trigger] rows[r]@[c]) == xlsx_cell(
            bytes,
            sheet,
            r as nat,
            c as nat,
        )
}

/// Whether `rows` are the named sheet's cells as the reader reports them: as many rows
/// as its height, each as wide as its width, each cell the one at that position.
pub open spec fn rows_match(rows: Seq<Vec<Cell>>, bytes: Seq<u8>, sheet: Seq<char>) -> bool {
    &&& rows.len() == xlsx_sheet_height(bytes, sheet)
    &&& rows_agree(rows, bytes, sheet)
}

/// Whether `sheets` are the workbook's sheets as the reader reports them: every sheet
/// in workbook order, under its name, with its cells when it can be read.
pub open spec fn workbook_matches(sheets: Seq<(String, Option<Vec<Vec<Cell>>>)>, bytes: Seq<u8>) -> bool {
    let names = xlsx_sheet_names(bytes);
    &&& sheets.len() == names.len()
    &&& forall|i: int|
        0 <= i < sheets.len() ==> {
            &&& (#[trigger] sheets[i]).0@ == names[i]
            &&& (sheets[i].1 is Some <==> xlsx_sheet_readable(bytes, names[i]))
            &&& sheets[i].1 is Some ==> rows_match(sheets[i].1->0@, bytes, names[i])
        }
}

/// A cell's text depends on its view alone.
proof fn lemma_cell_text_by_view(a: Cell, b: Cell)
    requires
        cell_view(a) == cell_view(b),
    ensures
        spec_cell_text(a) == spec_cell_text(b),
{
}

proof fn lemma_kept_cells_by_view(a: Seq<Cell>, b: Seq<Cell>)
    requires
        a.len() == b.len(),
        forall|c: int| 0 <= c < a.len() ==> cell_view(#[trigger] a[c]) == cell_view(b[c]),
    ensures
        kept_cells(a) == kept_cells(b),
    decreases a.len(),
{
    if a.len() > 0 {
        lemma_kept_cells_by_view(a.drop_last(), b.drop_last());
        lemma_cell_text_by_view(a.last(), b.last());
    }
}

proof fn lemma_rows_text_by_view(a: Seq<Vec<Cell>>, b: Seq<Vec<Cell>>, bytes: Seq<u8>, sheet: Seq<char>)
    requires
        rows_agree(a, bytes, sheet),
        rows_agree(b, bytes, sheet),
        a.len() == b.len(),
    ensures
        rows_text(a) == rows_text(b),
    decreases a.len(),
{
    if a.len() > 0 {
        let n = (a.len() - 1) as int;
        assert(rows_agree(a.drop_last(), bytes, sheet)) by {
            assert forall|r: int, c: int| 0 <= r < a.drop_last().len() && 0 <= c < a.drop_last()[r]@.len()
                implies cell_view(#[trigger] a.drop_last()[r]@[c]) == xlsx_cell(bytes, sheet, r as nat, c as nat) by {
                assert(a.drop_last()[r] == a[r]);
            }
        }
        assert(rows_agree(b.drop_last(), bytes, sheet)) by {
            assert forall|r: int, c: int| 0 <= r < b.drop_last().len() && 0 <= c < b.drop_last()[r]@.len()
                implies cell_view(#[trigger] b.drop_last()[r]@[c]) == xlsx_cell(bytes, sheet, r as nat, c as nat) by {
                assert(b.drop_last()[r] == b[r]);
            }
        }
        lemma_rows_text_by_view(a.drop_last(), b.drop_last(), bytes, sheet);
        assert(a[n]@.len() == b[n]@.len());
        assert forall|c: int| 0 <= c < a[n]@.len() implies cell_view(#[trigger] a[n]@[c]) == cell_view(b[n]@[c]) by {
            assert(cell_view(a[n]@[c]) == xlsx_cell(bytes, sheet, n as nat, c as nat));
            assert(cell_view(b[n]@[c]) == xlsx_cell(bytes, sheet, n as nat, c as nat));
        }
        lemma_kept_cells_by_view(a[n]@, b[n]@);
    }
}

/// The text of a workbook is fixed by what the reader reports of it: any two sheet lists
/// that match the workbook lay out to the same text.
pub proof fn lemma_workbook_text_determined(
    a: Seq<(String, Option<Vec<Vec<Cell>>>)>,
    b: Seq<(String, Option<Vec<Vec<Cell>>>)>,
    bytes: Seq<u8>,
)
    requires
        workbook_matches(a, bytes),
        workbook_matches(b, bytes),
    ensures
        spec_workbook_text(a) == spec_workbook_text(b),
{
    lemma_prefix_text(a, b, bytes, a.len() as int);
}

/// The first `n` sheets of a matching list match the first `n` reported sheets.
pub open spec fn prefix_matches(sheets: Seq<(String, Option<Vec<Vec<Cell>>>)>, bytes: Seq<u8>, n: int) -> bool {
    let names = xlsx_sheet_names(bytes);
    &&& sheets.len() == n
    &&& n <= names.len()
    &&& forall|i: int|
        0 <= i < n ==> {
            &&& (#[trigger] sheets[i]).0@ == names[i]
            &&& (sheets[i].1 is Some <==> xlsx_sheet_readable(bytes, names[i]))
            &&& sheets[i].1 is Some ==> rows_match(sheets[i].1->0@, bytes, names[i])
        }
}

proof fn lemma_prefix_text(
    a: Seq<(String, Option<Vec<Vec<Cell>>>)>,
    b: Seq<(String, Option<Vec<Vec<Cell>>>)>,
    bytes: Seq<u8>,
    n: int,
)
    requires
        prefix_matches(a, bytes, n),
        prefix_matches(b, bytes, n),
    ensures
        spec_workbook_text(a) == spec_workbook_text(b),
    decreases n,
{
    if n > 0 {
        let names = xlsx_sheet_names(bytes);
        assert forall|i: int| 0 <= i < n - 1 implies (#[trigger] a.drop_last()[i]) == a[i] by {}
        assert forall|i: int| 0 <= i < n - 1 implies (#[trigger] b.drop_last()[i]) == b[i] by {}
        assert(prefix_matches(a.drop_last(), bytes, n - 1));
        assert(prefix_matches(b.drop_last(), bytes, n - 1));
        lemma_prefix_text(a.drop_last(), b.drop_last(), bytes, n - 1);
        let k = n - 1;
        assert(a[k].0@ == b[k].0@);
        if a[k].1 is Some {
            lemma_rows_text_by_view(a[k].1->0@, b[k].1->0@, bytes, names[k]);
        }
    }
}

/// What extracting a workbook gives: a parse error when it does not open, and otherwise
/// the text laid out from every sheet the reader reports, in workbook order.
pub open spec fn xlsx_outcome(bytes: Seq<u8>, r: Result<RawText, ExtractError>) -> bool {
    &&& r is Ok <==> xlsx_opens(bytes)
    &&& r is Ok ==> (exists|sheets: Seq<(String, Option<Vec<Vec<Cell>>>)>|
        workbook_matches(sheets, bytes) && r->Ok_0.text@ == #[trigger] spec_workbook_text(sheets))
        && r->Ok_0.source == SourceKind::Spreadsheet && r->Ok_0.text_layer_present is None
    &&& r is Err ==> r->Err_0 is Parse
}

pub struct XlsxExtractor;

impl TextExtractor for XlsxExtractor {
    /// Every readable sheet's name and rows, read through `calamine`, laid out by
    /// [`workbook_text`]: sheets in workbook order, rows top to bottom, cells left to
    /// right.
    fn extract(&self, bytes: &[u8], _cfg: &Config) -> (r: Result<RawText, ExtractError>)
        ensures
            xlsx_outcome(bytes@, r),
    {
        let mut wb = match open_workbook(bytes) {
            Ok(wb) => wb,
            Err(e) => {
                let msg = String::from_str("xlsx: ").concat(xlsx_error_debug(&e).as_str());
                return Err(ExtractError::Parse(msg));
            },
        };
        let ghost b = bytes@;
        let names = sheet_names(&wb);
        let mut sheets: Vec<(String, Option<Vec<Vec<Cell>>>)> = Vec::new();
        let mut i: usize = 0;
        while i < names.len()
            invariant
                wb.bytes() == b,
                names@.len() == xlsx_sheet_names(b).len(),
                forall|k: int| 0 <= k < names@.len() ==> (#[trigger] names@[k])@ == xlsx_sheet_names(b)[k],
                i <= names.len(),
                prefix_matches(sheets@, b, i as int),
            decreases names.len() - i,
        {
            let ghost sheet = names@[i as int]@;
            let rows = match read_sheet(&mut wb, names[i].as_str()) {
                None => None,
                Some(range) => {
                    let h = range_height(&range);
                    let w = range_width(&range);
                    let mut rows: Vec<Vec<Cell>> = Vec::new();
                    let mut rr: usize = 0;
                    while rr < h
                        invariant
                            range.bytes() == b,
                            range.sheet() == sheet,
                            h as nat == xlsx_sheet_height(b, sheet),
                            w as nat == xlsx_sheet_width(b, sheet),
                            rr <= h,
                            rows@.len() == rr,
                            forall|r: int| 0 <= r < rr ==> (#[trigger] rows@[r])@.len() == w,
                            forall|r: int, c: int|
                                0 <= r < rr && 0 <= c < w ==> cell_view(#[trigger] rows@[r]@[c]) == xlsx_cell(
                                    b,
                                    sheet,
                                    r as nat,
                                    c as nat,
                                ),
                        decreases h - rr,
                    {
                        let mut row: Vec<Cell> = Vec::new();
                        let mut cc: usize = 0;
                        while cc < w
                            invariant
                                range.bytes() == b,
                                range.sheet() == sheet,
                                cc <= w,
                                row@.len() == cc,
                                forall|c: int| 0 <= c < cc ==> cell_view(#[trigger] row@[c]) == xlsx_cell(
                                    b,
                                    sheet,
                                    rr as nat,
                                    c as nat,
                                ),
                            decreases w - cc,
                        {
                            row.push(range_cell(&range, rr, cc));
                            cc = cc + 1;
                        }
                        let ghost before = rows@;
                        rows.push(row);
                        proof {
                            assert forall|r: int, c: int|
                                0 <= r < rr + 1 && 0 <= c < w implies cell_view(#[trigger] rows@[r]@[c]) == xlsx_cell(
                                b,
                                sheet,
                                r as nat,
                                c as nat,
                            ) by {
                                if r < rr {
                                    assert(rows@[r] == before[r]);
                                }
                            }
                        }
                        rr = rr + 1;
                    }
                    proof {
                        assert(rows_match(rows@, b, sheet));
                    }
                    Some(rows)
                },
            };
            let ghost before = sheets@;
            sheets.push((names[i].clone(), rows));
            proof {
                assert forall|k: int| 0 <= k < i + 1 implies {
                    &&& (#[trigger] sheets@[k]).0@ == xlsx_sheet_names(b)[k]
                    &&& (sheets@[k].1 is Some <==> xlsx_sheet_readable(b, xlsx_sheet_names(b)[k]))
                    &&& sheets@[k].1 is Some ==> rows_match(sheets@[k].1->0@, b, xlsx_sheet_names(b)[k])
                } by {
                    if k < i {
                        assert(sheets@[k] == before[k]);
                    }
                }
            }
            i = i + 1;
        }
        let text = workbook_text(&sheets);
        proof {
            assert(workbook_matches(sheets@, b));
        }
        Ok(RawText::new(text, SourceKind::Spreadsheet))
    }
}

} // verus!
