//! HWPX (OWPML) text: the text of the `t` elements of a section's XML,
//! each paragraph (`p` element) starting on a new line.

use vstd::prelude::*;

use quick_xml::events::Event;
use quick_xml::reader::Reader;

use crate::order::{sort_texts, is_stable_sort, text_keys};
use crate::text::{chars_of, has_prefix, has_suffix, starts_with, ends_with};

verus! {

/// The part of `q` after its first `:`, when it has one.
pub open spec fn after_first_colon(q: Seq<u8>) -> Option<Seq<u8>>
    decreases q.len(),
{
    if q.len() == 0 {
        None
    } else if q[0] == 58 {
        Some(q.drop_first())
    } else {
        after_first_colon(q.drop_first())
    }
}

/// The local part of a qualified XML name: what follows the first `:`, or
/// the whole name when it has no prefix.
pub open spec fn local_part(q: Seq<u8>) -> Seq<u8> {
    match after_first_colon(q) {
        Some(rest) => rest,
        None => q,
    }
}

/// The local part of a qualified XML name (`hp:t` gives `t`).
pub fn local_name(qname: &[u8]) -> (r: &[u8])
    ensures
        r@ == local_part(qname@),
{
    let mut i: usize = 0;
    assert(qname@.skip(0) =~= qname@);
    while i < qname.len()
        invariant
            i <= qname.len(),
            after_first_colon(qname@) == after_first_colon(qname@.skip(i as int)),
        decreases qname.len() - i,
    {
        assert(qname@.skip(i as int).drop_first() =~= qname@.skip(i + 1));
        if qname[i] == 58 {
            return &qname[i + 1..qname.len()];
        }
        i = i + 1;
    }
    &qname[0..qname.len()]
}

/// One event of an XML reader, with the names and text it carries.
pub enum XmlEvent {
    /// A start tag, with its qualified name.
    Start(Vec<u8>),
    /// An end tag, with its qualified name.
    End(Vec<u8>),
    /// Character data, unescaped; or why it could not be unescaped.
    Text(Result<String, String>),
    /// The end of the document.
    Eof,
    /// A syntax or reading error, in words.
    Error(String),
    /// Any other event (empty element, comment, CDATA, declaration, ...).
    Other,
}

/// The mathematical value of an [`XmlEvent`].
pub enum XmlEventView {
    Start(Seq<u8>),
    End(Seq<u8>),
    Text(Result<Seq<char>, Seq<char>>),
    Eof,
    Error(Seq<char>),
    Other,
}

impl View for XmlEvent {
    type V = XmlEventView;

    open spec fn view(&self) -> XmlEventView {
        match self {
            XmlEvent::Start(n) => XmlEventView::Start(n@),
            XmlEvent::End(n) => XmlEventView::End(n@),
            XmlEvent::Text(Ok(t)) => XmlEventView::Text(Ok(t@)),
            XmlEvent::Text(Err(e)) => XmlEventView::Text(Err(e@)),
            XmlEvent::Eof => XmlEventView::Eof,
            XmlEvent::Error(e) => XmlEventView::Error(e@),
            XmlEvent::Other => XmlEventView::Other,
        }
    }
}

/// Events after which a reader hands out nothing new.
pub open spec fn ends_reading(e: XmlEventView) -> bool {
    e is Eof || e is Error
}

/// Where the scan of a section stands: the text so far, whether it is
/// inside a `t` element, and how many `t` elements are open.
pub struct ScanView {
    pub out: Seq<char>,
    pub in_t: bool,
    pub depth: nat,
}

/// The outcome of one event: go on from a new position, or finish.
pub enum ScanStep {
    Continue(ScanView),
    Finish(Result<Seq<char>, Seq<char>>),
}

/// The scan before any event.
pub open spec fn scan_start() -> ScanView {
    ScanView { out: seq![], in_t: false, depth: 0 }
}

/// What one event does to the scan.
pub open spec fn scan_step(s: ScanView, e: XmlEventView) -> ScanStep {
    match e {
        XmlEventView::Error(m) => ScanStep::Finish(Err("XML parse error: "@ + m)),
        XmlEventView::Eof => ScanStep::Finish(Ok(s.out)),
        XmlEventView::Start(name) => {
            if local_part(name) == seq![116u8] {
                ScanStep::Continue(ScanView { out: s.out, in_t: true, depth: s.depth + 1 })
            } else if local_part(name) == seq![112u8] {
                ScanStep::Continue(ScanView { out: s.out.push('\n'), in_t: s.in_t, depth: s.depth })
            } else {
                ScanStep::Continue(s)
            }
        },
        XmlEventView::End(name) => {
            if local_part(name) == seq![116u8] {
                let d: nat = if s.depth > 0 { (s.depth - 1) as nat } else { 0 };
                ScanStep::Continue(ScanView { out: s.out, in_t: if d == 0 { false } else { s.in_t }, depth: d })
            } else {
                ScanStep::Continue(s)
            }
        },
        XmlEventView::Text(r) => {
            if s.in_t {
                match r {
                    Ok(t) => ScanStep::Continue(ScanView { out: s.out + t, in_t: s.in_t, depth: s.depth }),
                    Err(m) => ScanStep::Finish(Err(m)),
                }
            } else {
                ScanStep::Continue(s)
            }
        },
        XmlEventView::Other => ScanStep::Continue(s),
    }
}

/// The outcome of scanning `events` from `s`; a list that ends without a
/// final event gives the text so far.
pub open spec fn scan_events(events: Seq<XmlEventView>, s: ScanView) -> Result<Seq<char>, Seq<char>>
    decreases events.len(),
{
    if events.len() == 0 {
        Ok(s.out)
    } else {
        match scan_step(s, events[0]) {
            ScanStep::Finish(r) => r,
            ScanStep::Continue(next) => scan_events(events.drop_first(), next),
        }
    }
}

/// The views of a list of events.
pub open spec fn event_views(events: Seq<XmlEvent>) -> Seq<XmlEventView> {
    events.map_values(|e: XmlEvent| e@)
}

/// The value of a result of text whose error is a reason in words.
pub open spec fn text_or_reason(r: Result<String, String>) -> Result<Seq<char>, Seq<char>> {
    match r {
        Ok(t) => Ok(t@),
        Err(e) => Err(e@),
    }
}

struct Scan {
    out: String,
    in_t: bool,
    depth: usize,
}

impl Scan {
    spec fn view(&self) -> ScanView {
        ScanView { out: self.out@, in_t: self.in_t, depth: self.depth as nat }
    }
}

/// Applies one event; `None` to go on, `Some(Ok(()))` when the text is
/// complete, `Some(Err(reason))` on an error.
fn scan_event(scan: &mut Scan, event: &XmlEvent) -> (r: Option<Result<(), String>>)
    requires
        !ends_reading(event@) ==> old(scan).depth < usize::MAX,
    ensures
        match scan_step(old(scan).view(), event@) {
            ScanStep::Continue(next) => r is None && final(scan).view() == next,
            ScanStep::Finish(Ok(t)) => r == Some(Ok::<(), String>(())) && final(scan).out@ == t,
            ScanStep::Finish(Err(m)) => (r matches Some(Err(e)) && e@ == m),
        },
        final(scan).depth <= old(scan).depth + 1,
{
    match event {
        XmlEvent::Error(m) => Some(Err(crate::text::concat("XML parse error: ", m.as_str()))),
        XmlEvent::Eof => Some(Ok(())),
        XmlEvent::Start(name) => {
            let local = local_name(name.as_slice());
            if local.len() == 1 && local[0] == 116 {
                assert(local@ =~= seq![116u8]);
                scan.in_t = true;
                scan.depth = scan.depth + 1;
            } else if local.len() == 1 && local[0] == 112 {
                assert(local@ =~= seq![112u8]);
                scan.out.push('\n');
            }
            None
        },
        XmlEvent::End(name) => {
            let local = local_name(name.as_slice());
            if local.len() == 1 && local[0] == 116 {
                assert(local@ =~= seq![116u8]);
                if scan.depth > 0 {
                    scan.depth = scan.depth - 1;
                }
                if scan.depth == 0 {
                    scan.in_t = false;
                }
            }
            None
        },
        XmlEvent::Text(r) => {
            if scan.in_t {
                match r {
                    Ok(t) => {
                        scan.out.append(t.as_str());
                        None
                    },
                    Err(e) => Some(Err(e.clone())),
                }
            } else {
                None
            }
        },
        XmlEvent::Other => None,
    }
}

/// The text of a section, given the events an XML reader hands out for it.
pub fn section_text(events: &Vec<XmlEvent>) -> (r: Result<String, String>)
    ensures
        text_or_reason(r) == scan_events(event_views(events@), scan_start()),
{
    let mut scan = Scan { out: String::new(), in_t: false, depth: 0 };
    let mut i: usize = 0;
    assert(event_views(events@).skip(0) =~= event_views(events@));
    while i < events.len()
        invariant
            i <= events.len(),
            scan.depth <= i,
            scan_events(event_views(events@), scan_start()) == scan_events(event_views(events@).skip(i as int), scan.view()),
        decreases events.len() - i,
    {
        let ghost rest = event_views(events@).skip(i as int);
        assert(rest[0] == events@[i as int]@);
        assert(rest.drop_first() =~= event_views(events@).skip(i + 1));
        match scan_event(&mut scan, &events[i]) {
            Some(Ok(())) => {
                return Ok(scan.out);
            },
            Some(Err(e)) => {
                return Err(e);
            },
            None => {},
        }
        i = i + 1;
    }
    assert(event_views(events@).skip(i as int) =~= Seq::<XmlEventView>::empty());
    Ok(scan.out)
}

/// Event number `index` (from 0) that `quick_xml`'s `Reader`, reading from
/// the start of `input` with text left untrimmed, hands out.
pub uninterp spec fn xml_event(input: Seq<u8>, index: nat) -> XmlEventView;

/// The document a reader reads.
pub uninterp spec fn reader_input(reader: Reader<&[u8]>) -> Seq<u8>;

/// How many events a reader has handed out.
pub uninterp spec fn reader_events_read(reader: Reader<&[u8]>) -> nat;

/// `quick_xml::reader::Reader`, carried through verified code as an opaque
/// value.
#[verifier::external_type_specification]
#[verifier::external_body]
#[verifier::reject_recursive_types(R)]
pub struct ExXmlReader<R>(Reader<R>);

/// A `quick_xml::reader::Reader` (made by `Reader::from_reader`) over `xml`,
/// with text trimming off, that has handed out no event yet.
#[verifier::external_body]
fn xml_reader<'a>(xml: &'a [u8]) -> (r: Reader<&'a [u8]>)
    ensures
        reader_input(r) == xml@,
        reader_events_read(r) == 0,
{
    let mut reader = Reader::from_reader(xml);
    reader.config_mut().trim_text(false);
    reader
}

/// The next event of `Reader::read_event_into`, with the tag names, the
/// text (through `BytesText::unescape`) and the error (through its
/// `Display`) taken out as plain values. The contract claims that it is
/// the next event of the reader's document in order, and that every event
/// that is neither the end nor an error consumes at least one byte of the
/// document, as the reader's source shows; it says nothing of `buf`.
#[verifier::external_body]
fn next_xml_event(reader: &mut Reader<&[u8]>, buf: &mut Vec<u8>) -> (e: XmlEvent)
    ensures
        e@ == xml_event(reader_input(*old(reader)), reader_events_read(*old(reader))),
        reader_input(*final(reader)) == reader_input(*old(reader)),
        reader_events_read(*final(reader)) == reader_events_read(*old(reader)) + 1,
        !ends_reading(e@) && (forall|j: nat|
            j < reader_events_read(*old(reader)) ==> !ends_reading(
                #[trigger] xml_event(reader_input(*old(reader)), j),
            )) ==> reader_events_read(*old(reader)) < reader_input(*old(reader)).len(),
{
    match reader.read_event_into(buf) {
        Err(e) => XmlEvent::Error(e.to_string()),
        Ok(Event::Eof) => XmlEvent::Eof,
        Ok(Event::Start(e)) => XmlEvent::Start(e.name().as_ref().to_vec()),
        Ok(Event::End(e)) => XmlEvent::End(e.name().as_ref().to_vec()),
        Ok(Event::Text(t)) => match t.unescape() {
            Ok(text) => XmlEvent::Text(Ok(text.into_owned())),
            Err(e) => XmlEvent::Text(Err(e.to_string())),
        },
        Ok(_) => XmlEvent::Other,
    }
}

/// The events a reader hands out for `xml`, up to the point by which it
/// has reached the end or an error.
pub open spec fn xml_events(xml: Seq<u8>) -> Seq<XmlEventView> {
    Seq::new(xml.len() + 1, |i: int| xml_event(xml, i as nat))
}

/// The text of a section's XML.
pub open spec fn xml_section_text(xml: Seq<u8>) -> Result<Seq<char>, Seq<char>> {
    scan_events(xml_events(xml), scan_start())
}

/// The events a reader hands out for `xml`, up to and including the first
/// that ends reading (the end of the document or an error).
fn read_events(xml: &[u8]) -> (events: Vec<XmlEvent>)
    ensures
        1 <= events@.len() <= xml@.len() + 1,
        forall|i: int| 0 <= i < events@.len() ==> #[trigger] event_views(events@)[i] == xml_event(xml@, i as nat),
        ends_reading(event_views(events@)[events@.len() - 1]),
{
    let mut reader = xml_reader(xml);
    let mut buf: Vec<u8> = Vec::new();
    let mut events: Vec<XmlEvent> = Vec::new();
    let ghost mut n: nat = 0;
    loop
        invariant
            reader_input(reader) == xml@,
            reader_events_read(reader) == n,
            n <= xml@.len(),
            events@.len() == n,
            forall|j: nat| j < n ==> !ends_reading(#[trigger] xml_event(xml@, j)),
            forall|i: int| 0 <= i < events@.len() ==> #[trigger] event_views(events@)[i] == xml_event(xml@, i as nat),
        decreases xml@.len() - n,
    {
        let event = next_xml_event(&mut reader, &mut buf);
        let ends = match &event {
            XmlEvent::Eof | XmlEvent::Error(_) => true,
            _ => false,
        };
        let ghost seen = events@;
        events.push(event);
        assert forall|i: int| 0 <= i < events@.len() implies #[trigger] event_views(events@)[i] == xml_event(xml@, i as nat) by {
            if i < n {
                assert(events@[i] == seen[i]);
                assert(event_views(seen)[i] == xml_event(xml@, i as nat));
            }
        }
        if ends {
            return events;
        }
        proof {
            assert forall|j: nat| j < n + 1 implies !ends_reading(#[trigger] xml_event(xml@, j)) by {
                if j == n {
                    assert(event_views(events@)[n as int] == xml_event(xml@, n));
                }
            }
            n = n + 1;
        }
        buf.clear();
    }
}

/// Events after one that ends reading do not change the outcome of a scan.
proof fn lemma_scan_stops_at_end(events: Seq<XmlEventView>, k: int, s: ScanView)
    requires
        0 <= k < events.len(),
        ends_reading(events[k]),
    ensures
        scan_events(events, s) == scan_events(events.take(k + 1), s),
    decreases k,
{
    let short = events.take(k + 1);
    assert(short[0] == events[0]);
    if k > 0 {
        match scan_step(s, events[0]) {
            ScanStep::Finish(_) => {},
            ScanStep::Continue(next) => {
                assert(short.drop_first() =~= events.drop_first().take(k));
                lemma_scan_stops_at_end(events.drop_first(), k - 1, next);
            },
        }
    }
}

/// The text of a section's XML: the text inside `t` elements, with a line
/// break at the start of each `p` element.
pub fn parse_section(xml: &[u8]) -> (r: Result<String, String>)
    ensures
        text_or_reason(r) == xml_section_text(xml@),
{
    let events = read_events(xml);
    let ghost k = events@.len() - 1;
    proof {
        let all = xml_events(xml@);
        assert(all[k] == event_views(events@)[k]);
        lemma_scan_stops_at_end(all, k, scan_start());
        assert(all.take(k + 1) =~= event_views(events@));
    }
    section_text(&events)
}

/// Whether an archive entry name names a section part.
pub open spec fn is_section_name(n: Seq<char>) -> bool {
    has_prefix(n, "Contents/section"@) && has_suffix(n, ".xml"@)
}

/// The names of `names` that name section parts, in their order.
pub open spec fn section_entries(names: Seq<String>) -> Seq<String>
    decreases names.len(),
{
    if names.len() == 0 {
        seq![]
    } else {
        let rest = section_entries(names.drop_last());
        if is_section_name(names.last()@) {
            rest.push(names.last())
        } else {
            rest
        }
    }
}

/// The section parts (`Contents/section*.xml`) among the entry names of an
/// HWPX archive, in lexicographic order.
pub fn section_names(names: &Vec<String>) -> (r: Vec<String>)
    ensures
        exists|p: Seq<int>| #[trigger] is_stable_sort(text_keys(section_entries(names@)), text_keys(r@), p),
{
    let prefix = chars_of("Contents/section");
    let suffix = chars_of(".xml");
    let mut kept: Vec<String> = Vec::new();
    let mut i: usize = 0;
    while i < names.len()
        invariant
            i <= names.len(),
            prefix@ == "Contents/section"@,
            suffix@ == ".xml"@,
            kept@ == section_entries(names@.take(i as int)),
        decreases names.len() - i,
    {
        assert(names@.take(i + 1).drop_last() =~= names@.take(i as int));
        let name = chars_of(names[i].as_str());
        if starts_with(&name, &prefix) && ends_with(&name, &suffix) {
            kept.push(names[i].clone());
        }
        i = i + 1;
    }
    assert(names@.take(names@.len() as int) =~= names@);
    sort_texts(kept)
}

/// `prefix` put before the text of `r`.
pub open spec fn prepend_text(prefix: Seq<char>, r: Result<Seq<char>, Seq<char>>) -> Result<Seq<char>, Seq<char>> {
    match r {
        Ok(t) => Ok(prefix + t),
        Err(f) => Err(f),
    }
}

/// The text of the section parts, in order: each one's text followed by a
/// line break; the first part that could not be read or parsed gives the
/// error.
pub open spec fn sections_text(parts: Seq<Result<Vec<u8>, String>>) -> Result<Seq<char>, Seq<char>>
    decreases parts.len(),
{
    if parts.len() == 0 {
        Ok(seq![])
    } else {
        match parts[0] {
            Err(e) => Err(e@),
            Ok(xml) => match xml_section_text(xml@) {
                Err(m) => Err(m),
                Ok(t) => prepend_text(t.push('\n'), sections_text(parts.drop_first())),
            },
        }
    }
}

/// The error given when an archive has no section part.
pub open spec fn no_sections_message() -> Seq<char> {
    "hwpx 안에 Contents/section*.xml이 없음"@
}

/// The text of an HWPX document, given the contents (or read errors) of its
/// section parts in the order of [`section_names`].
pub open spec fn hwpx_text(parts: Seq<Result<Vec<u8>, String>>) -> Result<Seq<char>, Seq<char>> {
    if parts.len() == 0 {
        Err(no_sections_message())
    } else {
        sections_text(parts)
    }
}

/// The text of an HWPX document from the contents (or read errors) of its
/// section parts, in the order of [`section_names`].
pub fn extract_text(sections: Vec<Result<Vec<u8>, String>>) -> (r: Result<String, String>)
    ensures
        text_or_reason(r) == hwpx_text(sections@),
{
    if sections.len() == 0 {
        return Err("hwpx 안에 Contents/section*.xml이 없음".to_owned());
    }
    let mut out = String::new();
    let mut i: usize = 0;
    assert(sections@.skip(0) =~= sections@);
    while i < sections.len()
        invariant
            i <= sections.len(),
            sections@.len() > 0,
            sections_text(sections@) == prepend_text(out@, sections_text(sections@.skip(i as int))),
        decreases sections.len() - i,
    {
        let ghost rest = sections@.skip(i as int);
        assert(rest.drop_first() =~= sections@.skip(i + 1));
        match &sections[i] {
            Err(e) => {
                return Err(e.clone());
            },
            Ok(xml) => {
                let text = match parse_section(xml.as_slice()) {
                    Ok(t) => t,
                    Err(m) => {
                        return Err(m);
                    },
                };
                let ghost before = out@;
                out.append(text.as_str());
                out.push('\n');
                assert(out@ =~= before + text@.push('\n'));
                proof {
                    match sections_text(sections@.skip(i + 1)) {
                        Ok(t) => {
                            assert(before + (text@.push('\n') + t) =~= out@ + t);
                        },
                        Err(_) => {},
                    }
                }
            },
        }
        i = i + 1;
    }
    assert(sections@.skip(i as int) =~= Seq::<Result<Vec<u8>, String>>::empty());
    Ok(out)
}

proof fn lemma_after_first_colon_concat(prefix: Seq<u8>, rest: Seq<u8>)
    requires
        !prefix.contains(58u8),
    ensures
        after_first_colon(prefix + rest) == after_first_colon(rest),
    decreases prefix.len(),
{
    if prefix.len() > 0 {
        assert((prefix + rest).drop_first() =~= prefix.drop_first() + rest);
        assert(prefix[0] != 58u8);
        assert(!prefix.drop_first().contains(58u8)) by {
            if prefix.drop_first().contains(58u8) {
                let k = choose|k: int| 0 <= k < prefix.drop_first().len() && prefix.drop_first()[k] == 58u8;
                assert(prefix[k + 1] == 58u8);
            }
        }
        lemma_after_first_colon_concat(prefix.drop_first(), rest);
    } else {
        assert(prefix + rest =~= rest);
    }
}

/// The namespace prefix does not matter: `prefix:local` has local part
/// `local` for every prefix without `:`, and a name without `:` is its own
/// local part.
pub proof fn lemma_local_part(prefix: Seq<u8>, local: Seq<u8>)
    requires
        !prefix.contains(58u8),
    ensures
        local_part(prefix + seq![58u8] + local) == local,
        local_part(prefix) == prefix,
{
    lemma_after_first_colon_concat(prefix, seq![58u8] + local);
    assert(prefix + seq![58u8] + local =~= prefix + (seq![58u8] + local));
    assert((seq![58u8] + local).drop_first() =~= local);
    lemma_after_first_colon_concat(prefix, Seq::<u8>::empty());
    assert(prefix + Seq::<u8>::empty() =~= prefix);
}

/// Two events that differ at most in the namespace prefixes of their tag
/// names.
pub open spec fn same_but_prefixes(a: XmlEventView, b: XmlEventView) -> bool {
    match (a, b) {
        (XmlEventView::Start(x), XmlEventView::Start(y)) => local_part(x) == local_part(y),
        (XmlEventView::End(x), XmlEventView::End(y)) => local_part(x) == local_part(y),
        _ => a == b,
    }
}

/// Only local names matter: events that differ only in the namespace
/// prefixes of their tags give the same section text.
pub proof fn lemma_scan_ignores_prefixes(e1: Seq<XmlEventView>, e2: Seq<XmlEventView>, s: ScanView)
    requires
        e1.len() == e2.len(),
        forall|i: int| 0 <= i < e1.len() ==> same_but_prefixes(#[trigger] e1[i], e2[i]),
    ensures
        scan_events(e1, s) == scan_events(e2, s),
    decreases e1.len(),
{
    if e1.len() > 0 {
        assert(same_but_prefixes(e1[0], e2[0]));
        assert(scan_step(s, e1[0]) == scan_step(s, e2[0]));
        match scan_step(s, e1[0]) {
            ScanStep::Finish(_) => {},
            ScanStep::Continue(next) => {
                assert forall|i: int| 0 <= i < e1.len() - 1 implies same_but_prefixes(
                    #[trigger] e1.drop_first()[i],
                    e2.drop_first()[i],
                ) by {
                    assert(same_but_prefixes(e1[i + 1], e2[i + 1]));
                }
                lemma_scan_ignores_prefixes(e1.drop_first(), e2.drop_first(), next);
            },
        }
    }
}

/// Only local names matter, for whole sections: two documents for which
/// the reader hands out the same events but for the namespace prefixes of
/// their tags, up to an end or error within both documents, have the same
/// section text.
pub proof fn lemma_section_ignores_prefixes(xml1: Seq<u8>, xml2: Seq<u8>, n: nat)
    requires
        n <= xml1.len(),
        n <= xml2.len(),
        ends_reading(xml_event(xml1, n)),
        forall|i: nat| i <= n ==> same_but_prefixes(#[trigger] xml_event(xml1, i), xml_event(xml2, i)),
    ensures
        xml_section_text(xml1) == xml_section_text(xml2),
{
    let all1 = xml_events(xml1);
    let all2 = xml_events(xml2);
    let m: int = n as int + 1;
    assert(all1[n as int] == xml_event(xml1, n));
    assert(all2[n as int] == xml_event(xml2, n));
    assert(same_but_prefixes(xml_event(xml1, n), xml_event(xml2, n)));
    lemma_scan_stops_at_end(all1, n as int, scan_start());
    lemma_scan_stops_at_end(all2, n as int, scan_start());
    assert forall|i: int| 0 <= i < m implies same_but_prefixes(
        #[trigger] all1.take(m)[i],
        all2.take(m)[i],
    ) by {
        assert(same_but_prefixes(xml_event(xml1, i as nat), xml_event(xml2, i as nat)));
    }
    lemma_scan_ignores_prefixes(all1.take(m), all2.take(m), scan_start());
}

/// Inside a `t` element every piece of text is kept whole, whatever it
/// holds (only spaces, say): the section goes on with the text appended.
pub proof fn lemma_text_inside_t_is_kept(s: ScanView, t: Seq<char>, rest: Seq<XmlEventView>)
    requires
        s.in_t,
    ensures
        scan_events(seq![XmlEventView::Text(Ok(t))] + rest, s) == scan_events(
            rest,
            ScanView { out: s.out + t, in_t: true, depth: s.depth },
        ),
{
    let e = seq![XmlEventView::Text(Ok(t))] + rest;
    assert(e[0] == XmlEventView::Text(Ok(t)));
    assert(e.drop_first() =~= rest);
}

/// A paragraph of runs reads as a line break followed by the runs' texts
/// side by side, each kept as it is: `<p><t>a</t><t>b</t></p>` gives
/// `"\n" + a + b` for all texts `a` and `b`.
pub proof fn lemma_paragraph_of_runs(a: Seq<char>, b: Seq<char>)
    ensures
        scan_events(
            seq![
                XmlEventView::Start(seq![112u8]),
                XmlEventView::Start(seq![116u8]),
                XmlEventView::Text(Ok(a)),
                XmlEventView::End(seq![116u8]),
                XmlEventView::Start(seq![116u8]),
                XmlEventView::Text(Ok(b)),
                XmlEventView::End(seq![116u8]),
                XmlEventView::End(seq![112u8]),
                XmlEventView::Eof,
            ],
            scan_start(),
        ) == Ok::<Seq<char>, Seq<char>>(seq!['\n'] + a + b),
{
    let es = seq![
        XmlEventView::Start(seq![112u8]),
        XmlEventView::Start(seq![116u8]),
        XmlEventView::Text(Ok(a)),
        XmlEventView::End(seq![116u8]),
        XmlEventView::Start(seq![116u8]),
        XmlEventView::Text(Ok(b)),
        XmlEventView::End(seq![116u8]),
        XmlEventView::End(seq![112u8]),
        XmlEventView::Eof,
    ];
    lemma_local_part(seq![112u8], seq![]);
    lemma_local_part(seq![116u8], seq![]);
    let s0 = scan_start();
    let s1 = ScanView { out: seq!['\n'], in_t: false, depth: 0 };
    let s2 = ScanView { out: seq!['\n'], in_t: true, depth: 1 };
    let s3 = ScanView { out: seq!['\n'] + a, in_t: true, depth: 1 };
    let s4 = ScanView { out: seq!['\n'] + a, in_t: false, depth: 0 };
    let s5 = ScanView { out: seq!['\n'] + a, in_t: true, depth: 1 };
    let s6 = ScanView { out: seq!['\n'] + a + b, in_t: true, depth: 1 };
    let s7 = ScanView { out: seq!['\n'] + a + b, in_t: false, depth: 0 };
    assert(s0.out.push('\n') =~= seq!['\n']);
    assert(scan_events(es, s0) == scan_events(es.skip(1), s1)) by {
        assert(es.drop_first() =~= es.skip(1));
    }
    assert(scan_events(es.skip(1), s1) == scan_events(es.skip(2), s2)) by {
        assert(es.skip(1).drop_first() =~= es.skip(2));
    }
    assert(scan_events(es.skip(2), s2) == scan_events(es.skip(3), s3)) by {
        assert(es.skip(2).drop_first() =~= es.skip(3));
    }
    assert(scan_events(es.skip(3), s3) == scan_events(es.skip(4), s4)) by {
        assert(es.skip(3).drop_first() =~= es.skip(4));
    }
    assert(scan_events(es.skip(4), s4) == scan_events(es.skip(5), s5)) by {
        assert(es.skip(4).drop_first() =~= es.skip(5));
    }
    assert(scan_events(es.skip(5), s5) == scan_events(es.skip(6), s6)) by {
        assert(es.skip(5).drop_first() =~= es.skip(6));
    }
    assert(scan_events(es.skip(6), s6) == scan_events(es.skip(7), s7)) by {
        assert(es.skip(6).drop_first() =~= es.skip(7));
    }
    assert(scan_events(es.skip(7), s7) == scan_events(es.skip(8), s7)) by {
        assert(es.skip(7).drop_first() =~= es.skip(8));
    }
    assert(es.skip(8)[0] == XmlEventView::Eof);
}

} // verus!
