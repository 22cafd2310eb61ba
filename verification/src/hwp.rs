//! HWP 5.0 body-text records: the record stream of a `BodyText/Section`
//! stream and the UTF-16LE text of its `PARA_TEXT` records.

use vstd::prelude::*;

use crate::order::{sort_texts, is_stable_sort, text_keys};
use crate::text::{chars_of, has_prefix, starts_with};

verus! {

/// Tag of the record that holds a paragraph's text.
pub const PARA_TEXT: u32 = 67;

/// Little-endian 16-bit value of `b[i]`, `b[i + 1]`.
pub open spec fn u16_le(b: Seq<u8>, i: int) -> int {
    b[i] + 256 * b[i + 1]
}

/// Little-endian 32-bit value of `b[i] .. b[i + 3]`.
pub open spec fn u32_le(b: Seq<u8>, i: int) -> int {
    b[i] + 256 * b[i + 1] + 65536 * b[i + 2] + 16777216 * b[i + 3]
}

/// Code units that stand for an inline control: the unit is followed by
/// 14 more bytes that belong to it, and none of it is text.
pub open spec fn is_inline_control(c: int) -> bool {
    (1 <= c <= 8) || c == 11 || c == 12 || (14 <= c <= 19) || (21 <= c <= 24) || (28 <= c <= 31)
}

/// What one code unit of paragraph text contributes: tab and line breaks
/// as `\t` and `\n`, a surrogate nothing, any other unit its character.
pub open spec fn unit_text(c: int) -> Seq<char> {
    if c == 9 {
        seq!['\t']
    } else if c == 10 || c == 13 {
        seq!['\n']
    } else if 0xD800 <= c <= 0xDFFF {
        seq![]
    } else {
        seq![(c as u32) as char]
    }
}

/// The text of the data of a `PARA_TEXT` record, read as UTF-16LE units.
pub open spec fn para_text(d: Seq<u8>) -> Seq<char>
    decreases d.len(),
{
    if d.len() < 2 {
        seq![]
    } else {
        let c = u16_le(d, 0);
        if is_inline_control(c) {
            if d.len() < 16 {
                seq![]
            } else {
                para_text(d.skip(16))
            }
        } else {
            unit_text(c) + para_text(d.skip(2))
        }
    }
}

/// The first record of `b`, as (tag, offset of its data, size of its data),
/// when its header and its data lie inside `b`. The 32-bit little-endian
/// header holds the tag in its low 10 bits, the level in the next 10 and
/// the size in the top 12; a size field of `0xFFF` means that the size
/// follows the header in 4 more bytes.
pub open spec fn first_record(b: Seq<u8>) -> Option<(int, int, int)> {
    if b.len() < 4 {
        None
    } else {
        let h = u32_le(b, 0);
        let short_size = h / 1048576;
        if short_size == 4095 {
            if b.len() < 8 {
                None
            } else if b.len() < 8 + u32_le(b, 4) {
                None
            } else {
                Some((h % 1024, 8, u32_le(b, 4)))
            }
        } else if b.len() < 4 + short_size {
            None
        } else {
            Some((h % 1024, 4, short_size))
        }
    }
}

/// The text of a record stream: for each complete record, in order, the
/// text of its data followed by a line break when it is a `PARA_TEXT`
/// record; reading stops at the first record that does not fit.
pub open spec fn records_text(b: Seq<u8>) -> Seq<char>
    decreases b.len(),
{
    match first_record(b) {
        None => seq![],
        Some((tag, start, size)) => (if tag == 67 {
            para_text(b.subrange(start, start + size)).push('\n')
        } else {
            seq![]
        }) + records_text(b.skip(start + size)),
    }
}

fn read_u32_le(b: &[u8], i: usize) -> (r: u32)
    requires
        i + 4 <= b@.len(),
    ensures
        r == u32_le(b@, i as int),
{
    (b[i] as u32) + (b[i + 1] as u32) * 256 + (b[i + 2] as u32) * 65536 + (b[i + 3] as u32)
        * 16777216
}

/// Appends the text of the data of a `PARA_TEXT` record to `out`.
pub fn extract_para_text(data: &[u8], out: &mut String)
    ensures
        final(out)@ == old(out)@ + para_text(data@),
{
    let ghost start = out@;
    let mut i: usize = 0;
    assert(data@.skip(0) =~= data@);
    while i < data.len() && data.len() - i >= 2
        invariant
            i <= data.len(),
            start + para_text(data@) == out@ + para_text(data@.skip(i as int)),
        decreases data.len() - i,
    {
        let ghost d = data@.skip(i as int);
        let ch: u16 = (data[i] as u16) + (data[i + 1] as u16) * 256;
        assert(ch == u16_le(d, 0));
        assert(d.skip(2) =~= data@.skip(i + 2));
        i = i + 2;
        if (1 <= ch && ch <= 8) || ch == 11 || ch == 12 || (14 <= ch && ch <= 19) || (21 <= ch
            && ch <= 24) || (28 <= ch && ch <= 31) {
            if data.len() - i < 14 {
                i = data.len();
                assert(data@.skip(i as int) =~= Seq::<u8>::empty());
            } else {
                assert(d.skip(16) =~= data@.skip(i + 14));
                i = i + 14;
            }
        } else if ch == 9 {
            out.push('\t');
        } else if ch == 10 || ch == 13 {
            out.push('\n');
        } else {
            match char::from_u32(ch as u32) {
                Some(c) => out.push(c),
                None => {},
            }
        }
    }
    assert(data@.skip(i as int).len() < 2);
}

/// The text of a section's record stream: the text of every `PARA_TEXT`
/// record, each followed by a line break.
#[verifier::rlimit(40)]
pub fn parse_section_records(bytes: &[u8]) -> (text: String)
    ensures
        text@ == records_text(bytes@),
{
    let mut out = String::new();
    let mut i: usize = 0;
    assert(bytes@.skip(0) =~= bytes@);
    while i < bytes.len() && bytes.len() - i >= 4
        invariant
            i <= bytes.len(),
            records_text(bytes@) == out@ + records_text(bytes@.skip(i as int)),
        decreases bytes.len() - i,
    {
        let ghost b = bytes@.skip(i as int);
        let h = read_u32_le(bytes, i);
        assert(h == u32_le(b, 0));
        let tag_id = h % 1024;
        let mut size: usize = (h / 1048576) as usize;
        let mut j: usize = i + 4;
        if size == 0xFFF {
            if bytes.len() - j < 4 {
                assert(first_record(b) is None);
                return out;
            }
            size = read_u32_le(bytes, j) as usize;
            assert(size == u32_le(b, 4));
            j = j + 4;
        }
        if size > bytes.len() - j {
            assert(first_record(b) is None);
            return out;
        }
        assert(first_record(b) == Some((tag_id as int, j - i, size as int)));
        if tag_id == PARA_TEXT {
            assert(b.subrange(j - i, j - i + size) =~= bytes@.subrange(j as int, j + size));
            extract_para_text(&bytes[j..j + size], &mut out);
            out.push('\n');
        }
        let ghost old_i = i;
        i = j + size;
        assert(b.skip(i - old_i) =~= bytes@.skip(i as int));
    }
    out
}

/// Why text could not be taken from an HWP file.
pub enum HwpError {
    /// The `FileHeader` stream could not be opened; holds the reason.
    HeaderMissing(String),
    /// The `FileHeader` stream holds fewer than 36 bytes.
    HeaderTooShort,
    /// The file has no `BodyText/Section` or `ViewText/Section` stream.
    NoSections,
    /// A stream could not be read; holds the reason.
    Stream(String),
    /// A compressed section stream could not be inflated; holds the reason.
    Inflate(String),
}

/// The mathematical value of an [`HwpError`].
pub enum HwpFailure {
    HeaderMissing(Seq<char>),
    HeaderTooShort,
    NoSections,
    Stream(Seq<char>),
    Inflate(Seq<char>),
}

impl View for HwpError {
    type V = HwpFailure;

    open spec fn view(&self) -> HwpFailure {
        match self {
            HwpError::HeaderMissing(e) => HwpFailure::HeaderMissing(e@),
            HwpError::HeaderTooShort => HwpFailure::HeaderTooShort,
            HwpError::NoSections => HwpFailure::NoSections,
            HwpError::Stream(e) => HwpFailure::Stream(e@),
            HwpError::Inflate(e) => HwpFailure::Inflate(e@),
        }
    }
}

/// The text shown for an error.
pub open spec fn failure_message(f: HwpFailure) -> Seq<char> {
    match f {
        HwpFailure::HeaderMissing(e) => "FileHeader 누락: "@ + e,
        HwpFailure::HeaderTooShort => "FileHeader 너무 짧음"@,
        HwpFailure::NoSections => "hwp 안에 Section 스트림이 없음"@,
        HwpFailure::Stream(e) => e,
        HwpFailure::Inflate(e) => "hwp 압축 해제 실패: "@ + e,
    }
}

impl HwpError {
    /// The text shown for this error.
    pub fn message(&self) -> (m: String)
        ensures
            m@ == failure_message(self@),
    {
        match self {
            HwpError::HeaderMissing(e) => crate::text::concat("FileHeader 누락: ", e.as_str()),
            HwpError::HeaderTooShort => "FileHeader 너무 짧음".to_owned(),
            HwpError::NoSections => "hwp 안에 Section 스트림이 없음".to_owned(),
            HwpError::Stream(e) => e.clone(),
            HwpError::Inflate(e) => crate::text::concat("hwp 압축 해제 실패: ", e.as_str()),
        }
    }
}

/// The value of a result of bytes, with its error as an [`HwpFailure`].
pub open spec fn bytes_result(r: Result<Vec<u8>, HwpError>) -> Result<Seq<u8>, HwpFailure> {
    match r {
        Ok(v) => Ok(v@),
        Err(e) => Err(e@),
    }
}

/// The value of a result of text, with its error as an [`HwpFailure`].
pub open spec fn text_result(r: Result<String, HwpError>) -> Result<Seq<char>, HwpFailure> {
    match r {
        Ok(v) => Ok(v@),
        Err(e) => Err(e@),
    }
}

/// Byte `i` of the 256-byte header buffer that `h` was read into (zero past
/// the bytes that were read).
pub open spec fn header_byte(h: Seq<u8>, i: int) -> int {
    if i < h.len() {
        h[i] as int
    } else {
        0
    }
}

/// Whether the section streams are compressed, by bit 0 of the 32-bit
/// property field at offset 36 of the header; `None` when fewer than 36
/// header bytes were read.
pub open spec fn header_compressed(h: Seq<u8>) -> Option<bool> {
    if h.len() < 36 {
        None
    } else {
        let prop = header_byte(h, 36) + 256 * header_byte(h, 37) + 65536 * header_byte(h, 38)
            + 16777216 * header_byte(h, 39);
        Some(prop % 2 == 1)
    }
}

/// Whether the section streams are compressed, given the bytes read from
/// the `FileHeader` stream.
pub fn is_compressed(header: &[u8]) -> (r: Result<bool, HwpError>)
    ensures
        header_compressed(header@) is None ==> (r matches Err(e) && e@ == HwpFailure::HeaderTooShort),
        header_compressed(header@) matches Some(c) ==> r == Ok::<bool, HwpError>(c),
{
    if header.len() < 36 {
        return Err(HwpError::HeaderTooShort);
    }
    let b36: u32 = if header.len() > 36 { header[36] as u32 } else { 0 };
    let b37: u32 = if header.len() > 37 { header[37] as u32 } else { 0 };
    let b38: u32 = if header.len() > 38 { header[38] as u32 } else { 0 };
    let b39: u32 = if header.len() > 39 { header[39] as u32 } else { 0 };
    let prop: u32 = b36 + b37 * 256 + b38 * 65536 + b39 * 16777216;
    Ok(prop % 2 == 1)
}

/// What a raw DEFLATE decoder gives for `data`: the inflated bytes, or the
/// text of the error it stopped with.
pub uninterp spec fn raw_deflate_decoded(data: Seq<u8>) -> Result<Seq<u8>, Seq<char>>;

/// The value of a result of bytes whose error is a reason in words.
pub open spec fn bytes_or_reason(r: Result<Vec<u8>, String>) -> Result<Seq<u8>, Seq<char>> {
    match r {
        Ok(v) => Ok(v@),
        Err(e) => Err(e@),
    }
}

/// Inflates a raw DEFLATE stream with `flate2::read::DeflateDecoder`, read to
/// its end. Its contract claims only that the outcome is the one the
/// decoder gives for these bytes, `raw_deflate_decoded(bytes@)`.
#[verifier::external_body]
fn raw_inflate(bytes: &[u8]) -> (r: Result<Vec<u8>, String>)
    ensures
        bytes_or_reason(r) == raw_deflate_decoded(bytes@),
{
    let mut decoder = flate2::read::DeflateDecoder::new(bytes);
    let mut out = Vec::new();
    match std::io::Read::read_to_end(&mut decoder, &mut out) {
        Ok(_) => Ok(out),
        Err(e) => Err(e.to_string()),
    }
}

/// The inflated bytes of a compressed section stream.
pub open spec fn inflated(data: Seq<u8>) -> Result<Seq<u8>, HwpFailure> {
    match raw_deflate_decoded(data) {
        Ok(d) => Ok(d),
        Err(m) => Err(HwpFailure::Inflate(m)),
    }
}

/// Inflates a compressed section stream (raw DEFLATE, no zlib header).
pub fn inflate(bytes: &[u8]) -> (r: Result<Vec<u8>, HwpError>)
    ensures
        bytes_result(r) == inflated(bytes@),
{
    match raw_inflate(bytes) {
        Ok(v) => Ok(v),
        Err(e) => Err(HwpError::Inflate(e)),
    }
}

/// Whether a compound-file entry path names a section stream.
pub open spec fn is_section_path(p: Seq<char>) -> bool {
    has_prefix(p, "/BodyText/Section"@) || has_prefix(p, "/ViewText/Section"@)
}

/// The entries of `paths` that name section streams, in their order.
pub open spec fn section_entries(paths: Seq<String>) -> Seq<String>
    decreases paths.len(),
{
    if paths.len() == 0 {
        seq![]
    } else {
        let rest = section_entries(paths.drop_last());
        if is_section_path(paths.last()@) {
            rest.push(paths.last())
        } else {
            rest
        }
    }
}

/// The section streams among the entry paths of a compound file, in
/// lexicographic order.
pub fn section_paths(entries: &Vec<String>) -> (r: Vec<String>)
    ensures
        exists|p: Seq<int>| #[trigger] is_stable_sort(text_keys(section_entries(entries@)), text_keys(r@), p),
{
    let body = chars_of("/BodyText/Section");
    let view = chars_of("/ViewText/Section");
    let mut kept: Vec<String> = Vec::new();
    let mut i: usize = 0;
    while i < entries.len()
        invariant
            i <= entries.len(),
            body@ == "/BodyText/Section"@,
            view@ == "/ViewText/Section"@,
            kept@ == section_entries(entries@.take(i as int)),
        decreases entries.len() - i,
    {
        assert(entries@.take(i + 1).drop_last() =~= entries@.take(i as int));
        let path = chars_of(entries[i].as_str());
        if starts_with(&path, &body) || starts_with(&path, &view) {
            kept.push(entries[i].clone());
        }
        i = i + 1;
    }
    assert(entries@.take(entries@.len() as int) =~= entries@);
    sort_texts(kept)
}

/// The bytes of a section stream as read, inflated when compressed.
pub open spec fn section_data(raw: Seq<u8>, compressed: bool) -> Result<Seq<u8>, HwpFailure> {
    if compressed {
        inflated(raw)
    } else {
        Ok(raw)
    }
}

/// `prefix` put before the text of `r`.
pub open spec fn prepend_text(prefix: Seq<char>, r: Result<Seq<char>, HwpFailure>) -> Result<Seq<char>, HwpFailure> {
    match r {
        Ok(t) => Ok(prefix + t),
        Err(f) => Err(f),
    }
}

/// The text of the section streams, in order: each one's record text
/// followed by a line break; the first stream that could not be read or
/// inflated gives the error.
pub open spec fn sections_text(streams: Seq<Result<Vec<u8>, String>>, compressed: bool) -> Result<Seq<char>, HwpFailure>
    decreases streams.len(),
{
    if streams.len() == 0 {
        Ok(seq![])
    } else {
        match streams[0] {
            Err(e) => Err(HwpFailure::Stream(e@)),
            Ok(raw) => match section_data(raw@, compressed) {
                Err(f) => Err(f),
                Ok(d) => prepend_text(records_text(d).push('\n'), sections_text(streams.drop_first(), compressed)),
            },
        }
    }
}

/// The text of an HWP file, given what was read from its `FileHeader`
/// stream and from its section streams (in the order of [`section_paths`]).
pub open spec fn hwp_text(header: Seq<u8>, streams: Seq<Result<Vec<u8>, String>>) -> Result<Seq<char>, HwpFailure> {
    match header_compressed(header) {
        None => Err(HwpFailure::HeaderTooShort),
        Some(compressed) => if streams.len() == 0 {
            Err(HwpFailure::NoSections)
        } else {
            sections_text(streams, compressed)
        },
    }
}

/// The text of an HWP file from the bytes read from its `FileHeader` stream
/// and the contents (or read errors) of its section streams, in the order
/// of [`section_paths`].
pub fn extract_text(header: &[u8], sections: Vec<Result<Vec<u8>, String>>) -> (r: Result<String, HwpError>)
    ensures
        text_result(r) == hwp_text(header@, sections@),
{
    let compressed = match is_compressed(header) {
        Ok(c) => c,
        Err(e) => return Err(e),
    };
    if sections.len() == 0 {
        return Err(HwpError::NoSections);
    }
    let mut out = String::new();
    let mut i: usize = 0;
    assert(sections@.skip(0) =~= sections@);
    while i < sections.len()
        invariant
            i <= sections.len(),
            header_compressed(header@) == Some(compressed),
            sections@.len() > 0,
            sections_text(sections@, compressed) == prepend_text(out@, sections_text(sections@.skip(i as int), compressed)),
        decreases sections.len() - i,
    {
        let ghost rest = sections@.skip(i as int);
        assert(rest.drop_first() =~= sections@.skip(i + 1));
        match &sections[i] {
            Err(e) => {
                return Err(HwpError::Stream(e.clone()));
            },
            Ok(raw) => {
                let text = if compressed {
                    match inflate(raw.as_slice()) {
                        Ok(bytes) => parse_section_records(bytes.as_slice()),
                        Err(e) => {
                            return Err(e);
                        },
                    }
                } else {
                    parse_section_records(raw.as_slice())
                };
                let ghost before = out@;
                out.append(text.as_str());
                out.push('\n');
                assert(out@ =~= before + text@.push('\n'));
                proof {
                    match sections_text(sections@.skip(i + 1), compressed) {
                        Ok(t) => {
                            assert(before + (text@.push('\n') + t) =~= out@ + t);
                        },
                        Err(_) => {},
                    }
                }
            },
        }
        i = i + 1;
    }
    assert(sections@.skip(i as int) =~= Seq::<Result<Vec<u8>, String>>::empty());
    Ok(out)
}

/// `b` is a whole number of complete records.
pub open spec fn is_record_stream(b: Seq<u8>) -> bool
    decreases b.len(),
{
    if b.len() == 0 {
        true
    } else {
        match first_record(b) {
            None => false,
            Some((tag, start, size)) => is_record_stream(b.skip(start + size)),
        }
    }
}

/// The record reader is self-delimiting: after a whole number of complete
/// records, the text of what follows is read as if it stood alone.
pub proof fn lemma_records_concat(a: Seq<u8>, b: Seq<u8>)
    requires
        is_record_stream(a),
    ensures
        records_text(a + b) == records_text(a) + records_text(b),
    decreases a.len(),
{
    if a.len() == 0 {
        assert(a + b =~= b);
    } else {
        let (tag, start, size) = first_record(a).unwrap();
        let ab = a + b;
        assert(forall|i: int| 0 <= i < a.len() ==> ab[i] == a[i]);
        assert(first_record(ab) == first_record(a));
        assert(ab.skip(start + size) =~= a.skip(start + size) + b);
        assert(ab.subrange(start, start + size) =~= a.subrange(start, start + size));
        lemma_records_concat(a.skip(start + size), b);
    }
}

/// The four little-endian bytes of `x` (for `0 <= x < 2^32`).
pub open spec fn u32_le_bytes(x: int) -> Seq<u8> {
    seq![(x % 256) as u8, ((x / 256) % 256) as u8, ((x / 65536) % 256) as u8, (x / 16777216) as u8]
}

/// A record with tag `tag`, level 0 and data `data`, as a writer lays it
/// out: the size in the header when it is below `0xFFF`, otherwise `0xFFF`
/// there and the size in the 4 bytes after the header.
pub open spec fn encode_record(tag: int, data: Seq<u8>) -> Seq<u8> {
    if data.len() < 4095 {
        u32_le_bytes(tag + data.len() * 1048576) + data
    } else {
        u32_le_bytes(tag + 4095 * 1048576) + u32_le_bytes(data.len() as int) + data
    }
}

proof fn lemma_u32_le_bytes(x: u32)
    ensures
        u32_le(u32_le_bytes(x as int), 0) == x,
{
    assert((x % 256) + 256 * ((x / 256) % 256) + 65536 * ((x / 65536) % 256) + 16777216 * (x / 16777216) == x) by (bit_vector);
}

proof fn lemma_header_fields(tag: u32, size: u32)
    requires
        tag < 1024,
        size < 4096,
    ensures
        (tag + size * 1048576) < 0x1_0000_0000,
        (tag + size * 1048576) / 1048576 == size,
        (tag + size * 1048576) % 1024 == tag,
{
    assert((tag + size * 1048576) < 0x1_0000_0000) by (nonlinear_arith)
        requires
            tag < 1024,
            size < 4096,
    ;
    assert((tag + size * 1048576) / 1048576 == size && (tag + size * 1048576) % 1024 == tag) by (nonlinear_arith)
        requires
            tag < 1024,
            size < 4096,
    ;
}

/// A record reads back as what it was written from: a `PARA_TEXT` record
/// gives the text of its data and a line break, any other record nothing;
/// and it is a complete record.
pub proof fn lemma_record_roundtrip(tag: int, data: Seq<u8>)
    requires
        0 <= tag < 1024,
        data.len() < 0x1_0000_0000,
    ensures
        is_record_stream(encode_record(tag, data)),
        records_text(encode_record(tag, data)) == if tag == 67 {
            para_text(data).push('\n')
        } else {
            seq![]
        },
{
    let b = encode_record(tag, data);
    if data.len() < 4095 {
        let h = tag + data.len() * 1048576;
        lemma_header_fields(tag as u32, data.len() as u32);
        lemma_u32_le_bytes(h as u32);
        assert(u32_le(b, 0) == u32_le(u32_le_bytes(h), 0));
        assert(first_record(b) == Some((tag, 4int, data.len() as int)));
        assert(b.subrange(4, 4 + data.len() as int) =~= data);
        assert(b.skip(4 + data.len() as int) =~= Seq::<u8>::empty());
    } else {
        let h = tag + 4095 * 1048576;
        lemma_header_fields(tag as u32, 4095);
        lemma_u32_le_bytes(h as u32);
        lemma_u32_le_bytes(data.len() as u32);
        assert(u32_le(b, 0) == u32_le(u32_le_bytes(h), 0));
        assert(u32_le(b, 4) == u32_le(u32_le_bytes(data.len() as int), 0));
        assert(first_record(b) == Some((tag, 8int, data.len() as int)));
        assert(b.subrange(8, 8 + data.len() as int) =~= data);
        assert(b.skip(8 + data.len() as int) =~= Seq::<u8>::empty());
    }
    assert(records_text(Seq::<u8>::empty()) == Seq::<char>::empty());
    assert(is_record_stream(Seq::<u8>::empty()));
}

/// A character that paragraph text holds as itself: in the Basic
/// Multilingual Plane, and neither an inline control, a tab nor a line
/// break.
pub open spec fn is_plain_char(c: char) -> bool {
    (c as u32) < 0x10000 && !is_inline_control((c as u32) as int) && c != '\t' && c != '\n' && c != '\r'
}

/// The UTF-16LE bytes of a text whose characters are all in the Basic
/// Multilingual Plane.
pub open spec fn utf16le_of(t: Seq<char>) -> Seq<u8>
    decreases t.len(),
{
    if t.len() == 0 {
        seq![]
    } else {
        let c = (t[0] as u32) as int;
        seq![(c % 256) as u8, (c / 256) as u8] + utf16le_of(t.drop_first())
    }
}

/// Paragraph text written as UTF-16LE reads back as itself when it holds
/// only plain characters.
pub proof fn lemma_para_text_roundtrip(t: Seq<char>)
    requires
        forall|k: int| 0 <= k < t.len() ==> is_plain_char(#[trigger] t[k]),
    ensures
        para_text(utf16le_of(t)) == t,
    decreases t.len(),
{
    if t.len() == 0 {
        assert(utf16le_of(t) =~= Seq::<u8>::empty());
    } else {
        let d = utf16le_of(t);
        let c = (t[0] as u32) as int;
        assert(is_plain_char(t[0]));
        assert(d.len() >= 2);
        vstd::utf8::char_is_scalar(t[0]);
        assert(0 <= c < 0x10000);
        assert(c % 256 + 256 * (c / 256) == c && 0 <= c % 256 < 256 && 0 <= c / 256 < 256) by (nonlinear_arith)
            requires
                0 <= c < 0x10000,
        ;
        assert(d[0] == c % 256 && d[1] == c / 256);
        assert(u16_le(d, 0) == c);
        assert(d.skip(2) =~= utf16le_of(t.drop_first()));
        assert(!(0xD800 <= c <= 0xDFFF)) by {
            vstd::utf8::char_is_scalar(t[0]);
        }
        vstd::utf8::char_u32_cast(t[0], t[0] as u32);
        assert(((c as u32) as char) == t[0]);
        lemma_para_text_roundtrip(t.drop_first());
        assert(t =~= seq![t[0]] + t.drop_first());
    }
}

proof fn lemma_utf16le_len(t: Seq<char>)
    ensures
        utf16le_of(t).len() == 2 * t.len(),
    decreases t.len(),
{
    if t.len() > 0 {
        lemma_utf16le_len(t.drop_first());
    }
}

/// A section stream holding one `PARA_TEXT` record per paragraph, in order.
pub open spec fn paragraph_stream(paragraphs: Seq<Seq<char>>) -> Seq<u8>
    decreases paragraphs.len(),
{
    if paragraphs.len() == 0 {
        seq![]
    } else {
        encode_record(67, utf16le_of(paragraphs[0])) + paragraph_stream(paragraphs.drop_first())
    }
}

/// The paragraphs, each followed by a line break.
pub open spec fn paragraph_lines(paragraphs: Seq<Seq<char>>) -> Seq<char>
    decreases paragraphs.len(),
{
    if paragraphs.len() == 0 {
        seq![]
    } else {
        paragraphs[0].push('\n') + paragraph_lines(paragraphs.drop_first())
    }
}

/// What is written is read back: a section stream of `PARA_TEXT` records
/// for paragraphs of plain characters reads as those paragraphs, one per
/// line.
pub proof fn lemma_paragraphs_roundtrip(paragraphs: Seq<Seq<char>>)
    requires
        forall|i: int, k: int|
            0 <= i < paragraphs.len() && 0 <= k < paragraphs[i].len() ==> is_plain_char(
                #[trigger] paragraphs[i][k],
            ),
        forall|i: int| 0 <= i < paragraphs.len() ==> (#[trigger] paragraphs[i]).len() < 0x8000_0000,
    ensures
        records_text(paragraph_stream(paragraphs)) == paragraph_lines(paragraphs),
    decreases paragraphs.len(),
{
    if paragraphs.len() == 0 {
        assert(records_text(Seq::<u8>::empty()) == Seq::<char>::empty());
    } else {
        let p0 = paragraphs[0];
        let rest = paragraphs.drop_first();
        assert forall|k: int| 0 <= k < p0.len() implies is_plain_char(#[trigger] p0[k]) by {
            assert(is_plain_char(paragraphs[0][k]));
        }
        assert forall|i: int, k: int| 0 <= i < rest.len() && 0 <= k < rest[i].len() implies is_plain_char(
            #[trigger] rest[i][k],
        ) by {
            assert(is_plain_char(paragraphs[i + 1][k]));
        }
        assert forall|i: int| 0 <= i < rest.len() implies (#[trigger] rest[i]).len() < 0x8000_0000 by {
            assert(paragraphs[i + 1].len() < 0x8000_0000);
        }
        lemma_utf16le_len(p0);
        lemma_record_roundtrip(67, utf16le_of(p0));
        lemma_para_text_roundtrip(p0);
        lemma_records_concat(encode_record(67, utf16le_of(p0)), paragraph_stream(rest));
        lemma_paragraphs_roundtrip(rest);
    }
}

/// `packed` holds, stream by stream, the raw DEFLATE form of `plain`; read
/// errors stand at the same places with the same reasons.
pub open spec fn packs(packed: Seq<Result<Vec<u8>, String>>, plain: Seq<Result<Vec<u8>, String>>) -> bool {
    &&& packed.len() == plain.len()
    &&& forall|i: int|
        0 <= i < packed.len() ==> match (#[trigger] packed[i], plain[i]) {
            (Ok(p), Ok(d)) => raw_deflate_decoded(p@) == Ok::<Seq<u8>, Seq<char>>(d@),
            (Err(a), Err(b)) => a@ == b@,
            _ => false,
        }
}

/// Compression is transparent: a file whose header marks its sections as
/// compressed gives the same text (or error) as a file with uncompressed
/// sections whose streams are the inflated ones.
pub proof fn lemma_compression_transparent(
    compressed_header: Seq<u8>,
    plain_header: Seq<u8>,
    packed: Seq<Result<Vec<u8>, String>>,
    plain: Seq<Result<Vec<u8>, String>>,
)
    requires
        header_compressed(compressed_header) == Some(true),
        header_compressed(plain_header) == Some(false),
        packs(packed, plain),
    ensures
        hwp_text(compressed_header, packed) == hwp_text(plain_header, plain),
{
    lemma_sections_packed(packed, plain);
}

proof fn lemma_sections_packed(packed: Seq<Result<Vec<u8>, String>>, plain: Seq<Result<Vec<u8>, String>>)
    requires
        packs(packed, plain),
    ensures
        sections_text(packed, true) == sections_text(plain, false),
    decreases packed.len(),
{
    if packed.len() > 0 {
        assert(packs(packed.drop_first(), plain.drop_first())) by {
            assert forall|i: int| 0 <= i < packed.len() - 1 implies match (#[trigger] packed.drop_first()[i], plain.drop_first()[i]) {
                (Ok(p), Ok(d)) => raw_deflate_decoded(p@) == Ok::<Seq<u8>, Seq<char>>(d@),
                (Err(a), Err(b)) => a@ == b@,
                _ => false,
            } by {
                assert(packed.drop_first()[i] == packed[i + 1]);
                assert(plain.drop_first()[i] == plain[i + 1]);
            }
        }
        lemma_sections_packed(packed.drop_first(), plain.drop_first());
        assert(match (packed[0], plain[0]) {
            (Ok(p), Ok(d)) => raw_deflate_decoded(p@) == Ok::<Seq<u8>, Seq<char>>(d@),
            (Err(a), Err(b)) => a@ == b@,
            _ => false,
        });
    }
}

/// Reading more bytes never changes the text read so far: the text of `a`
/// is a prefix of the text of `a` followed by anything, because a record
/// that does not fit is dropped whole.
pub proof fn lemma_records_prefix(a: Seq<u8>, b: Seq<u8>)
    ensures
        records_text(a).len() <= records_text(a + b).len(),
        records_text(a + b).subrange(0, records_text(a).len() as int) == records_text(a),
    decreases a.len(),
{
    let ab = a + b;
    match first_record(a) {
        None => {
            assert(records_text(ab).subrange(0, 0) =~= records_text(a));
        },
        Some((tag, start, size)) => {
            assert(forall|i: int| 0 <= i < a.len() ==> ab[i] == a[i]);
            assert(first_record(ab) == first_record(a));
            assert(ab.skip(start + size) =~= a.skip(start + size) + b);
            assert(ab.subrange(start, start + size) =~= a.subrange(start, start + size));
            lemma_records_prefix(a.skip(start + size), b);
            let head = if tag == 67 {
                para_text(a.subrange(start, start + size)).push('\n')
            } else {
                seq![]
            };
            let ra = records_text(a.skip(start + size));
            let rab = records_text(ab.skip(start + size));
            assert(records_text(a) == head + ra);
            assert(records_text(ab) == head + rab);
            assert((head + rab).subrange(0, (head + ra).len() as int) =~= head + ra) by {
                assert(rab.subrange(0, ra.len() as int) == ra);
                assert forall|i: int| 0 <= i < (head + ra).len() implies (head + rab).subrange(
                    0,
                    (head + ra).len() as int,
                )[i] == (head + ra)[i] by {
                    if i >= head.len() {
                        assert(rab.subrange(0, ra.len() as int)[i - head.len()] == ra[i - head.len()]);
                    }
                }
            }
        },
    }
}

/// The compression flag is bit 0 of the property field at offset 36 of the
/// header, whatever its other bits: a header with a byte at offset 36 is
/// compressed exactly when that byte is odd (a property of `0x41`, say, is
/// compressed), and a header of exactly 36 bytes is not.
pub proof fn lemma_compressed_is_bit_zero(h: Seq<u8>)
    requires
        h.len() >= 36,
    ensures
        h.len() > 36 ==> header_compressed(h) == Some(h[36] % 2 == 1),
        h.len() == 36 ==> header_compressed(h) == Some(false),
{
    let a = header_byte(h, 36);
    let rest = header_byte(h, 37) + 256 * header_byte(h, 38) + 65536 * header_byte(h, 39);
    assert(a + 256 * header_byte(h, 37) + 65536 * header_byte(h, 38) + 16777216 * header_byte(h, 39)
        == a + 2 * (128 * rest));
    assert((a + 2 * (128 * rest)) % 2 == a % 2) by (nonlinear_arith);
}

/// An inline control (code units 1-8, 11, 12, 14-19, 21-24 and 28-31)
/// takes its unit and the 14 bytes after it, and gives no text: the text
/// of a paragraph that starts with one is the text of the rest.
pub proof fn lemma_inline_control_gives_no_text(c: u8, payload: Seq<u8>, rest: Seq<u8>)
    requires
        1 <= c < 9 || c == 11 || c == 12 || 14 <= c < 20 || 21 <= c < 25 || 28 <= c < 32,
        payload.len() == 14,
    ensures
        para_text(seq![c, 0u8] + payload + rest) == para_text(rest),
{
    let d = seq![c, 0u8] + payload + rest;
    assert(u16_le(d, 0) == c as int);
    assert(d.skip(16) =~= rest);
}

/// Any other code unit that is neither a surrogate nor a tab or line break
/// gives its own character, in order before the text of the rest.
pub proof fn lemma_plain_unit_gives_its_char(lo: u8, hi: u8, rest: Seq<u8>)
    requires
        32 <= lo + 256 * hi,
        !(0xD800 <= lo + 256 * hi <= 0xDFFF),
    ensures
        para_text(seq![lo, hi] + rest) == seq![((lo + 256 * hi) as u32) as char] + para_text(rest),
{
    let d = seq![lo, hi] + rest;
    assert(u16_le(d, 0) == lo + 256 * hi);
    assert(d.skip(2) =~= rest);
}

} // verus!
