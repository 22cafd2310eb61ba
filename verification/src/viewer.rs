//! The viewer's rules: which kind of document a file is, how plain text
//! files are decoded, which directory entries the sidebar shows and in what
//! order, and how the text of a converted document is wrapped for display.

use vstd::prelude::*;
use vstd::utf8::{valid_utf8, decode_utf8};

use crate::order::{SortKey, stable_sort, is_stable_sort, key_views, chars_lt, lemma_stable_sort_ordered};
use crate::text::{chars_of, concat, has_prefix, starts_with};

verus! {

/// The kinds of document the viewer opens.
#[derive(PartialEq, Eq, Structural, Clone, Copy, Debug)]
pub enum FileKind {
    Markdown,
    Html,
    Text,
    Docx,
    Hwp,
    Hwpx,
}

/// The name of a kind, as the front end knows it.
pub open spec fn kind_name(k: FileKind) -> Seq<char> {
    match k {
        FileKind::Markdown => "markdown"@,
        FileKind::Html => "html"@,
        FileKind::Text => "text"@,
        FileKind::Docx => "docx"@,
        FileKind::Hwp => "hwp"@,
        FileKind::Hwpx => "hwpx"@,
    }
}

impl FileKind {
    /// The name of this kind, as the front end knows it.
    pub fn name(&self) -> (r: &'static str)
        ensures
            r@ == kind_name(*self),
    {
        match self {
            FileKind::Markdown => "markdown",
            FileKind::Html => "html",
            FileKind::Text => "text",
            FileKind::Docx => "docx",
            FileKind::Hwp => "hwp",
            FileKind::Hwpx => "hwpx",
        }
    }
}

/// ASCII lowercase of one character.
pub open spec fn ascii_lower(c: char) -> char {
    if 'A' <= c <= 'Z' {
        ((c as u32) + 32) as char
    } else {
        c
    }
}

/// ASCII lowercase of a text; other characters are kept.
pub open spec fn ascii_lowercase(s: Seq<char>) -> Seq<char> {
    s.map_values(|c: char| ascii_lower(c))
}

/// The kind of document a file extension stands for, ignoring ASCII case.
pub open spec fn kind_for_extension(ext: Seq<char>) -> Option<FileKind> {
    let e = ascii_lowercase(ext);
    if e == "md"@ || e == "markdown"@ {
        Some(FileKind::Markdown)
    } else if e == "html"@ || e == "htm"@ {
        Some(FileKind::Html)
    } else if e == "txt"@ {
        Some(FileKind::Text)
    } else if e == "docx"@ {
        Some(FileKind::Docx)
    } else if e == "hwp"@ {
        Some(FileKind::Hwp)
    } else if e == "hwpx"@ {
        Some(FileKind::Hwpx)
    } else {
        None
    }
}

fn lower_char(c: char) -> (r: char)
    ensures
        r == ascii_lower(c),
{
    if 'A' <= c && c <= 'Z' {
        match char::from_u32(c as u32 + 32) {
            Some(l) => l,
            None => c,
        }
    } else {
        c
    }
}

fn lowered(s: &str) -> (r: Vec<char>)
    ensures
        r@ == ascii_lowercase(s@),
{
    let cs = chars_of(s);
    let mut r: Vec<char> = Vec::new();
    let mut i: usize = 0;
    while i < cs.len()
        invariant
            i <= cs.len(),
            r@ == ascii_lowercase(cs@.take(i as int)),
        decreases cs.len() - i,
    {
        r.push(lower_char(cs[i]));
        i = i + 1;
        assert(r@ =~= ascii_lowercase(cs@.take(i as int)));
    }
    assert(cs@.take(cs@.len() as int) =~= cs@);
    r
}

fn same_chars(a: &Vec<char>, b: &str) -> (r: bool)
    ensures
        r == (a@ == b@),
{
    let bs = chars_of(b);
    if a.len() != bs.len() {
        assert(a@.len() != bs@.len());
        return false;
    }
    let mut i: usize = 0;
    while i < a.len()
        invariant
            a@.len() == bs@.len(),
            bs@ == b@,
            i <= a.len(),
            forall|k: int| 0 <= k < i ==> a@[k] == bs@[k],
        decreases a.len() - i,
    {
        if a[i] != bs[i] {
            assert(a@[i as int] != bs@[i as int]);
            return false;
        }
        i = i + 1;
    }
    assert(a@ =~= bs@);
    true
}

/// The kind of document a file extension stands for, ignoring ASCII case
/// (`md` and `MD` are both Markdown).
pub fn kind_of_extension(ext: &str) -> (r: Option<FileKind>)
    ensures
        r == kind_for_extension(ext@),
{
    let e = lowered(ext);
    if same_chars(&e, "md") || same_chars(&e, "markdown") {
        Some(FileKind::Markdown)
    } else if same_chars(&e, "html") || same_chars(&e, "htm") {
        Some(FileKind::Html)
    } else if same_chars(&e, "txt") {
        Some(FileKind::Text)
    } else if same_chars(&e, "docx") {
        Some(FileKind::Docx)
    } else if same_chars(&e, "hwp") {
        Some(FileKind::Hwp)
    } else if same_chars(&e, "hwpx") {
        Some(FileKind::Hwpx)
    } else {
        None
    }
}

/// `ext` is a possible extension of `path`: it follows a `.` in the path
/// and holds no `.`.
pub open spec fn is_extension_of(path: Seq<char>, ext: Seq<char>) -> bool {
    &&& !ext.contains('.')
    &&& exists|k: int|
        1 <= k && k + ext.len() <= path.len() && path[k - 1] == '.' && #[trigger] path.subrange(
            k,
            k + ext.len(),
        ) == ext
}

/// The part of `s` after its last `c`, when it holds one.
pub open spec fn after_last(s: Seq<char>, c: char) -> Option<Seq<char>>
    decreases s.len(),
{
    if s.len() == 0 {
        None
    } else if s.last() == c {
        Some(seq![])
    } else {
        match after_last(s.drop_last(), c) {
            Some(rest) => Some(rest.push(s.last())),
            None => None,
        }
    }
}

/// The last component of a `/`-separated path.
pub open spec fn final_name(path: Seq<char>) -> Seq<char> {
    match after_last(path, '/') {
        Some(name) => name,
        None => path,
    }
}

/// A path that every platform splits the same way: no `\`, no `:`, not
/// starting with `//`, and ending in a file name other than `.` and `..`.
pub open spec fn is_plain_path(path: Seq<char>) -> bool {
    &&& !path.contains('\\')
    &&& !path.contains(':')
    &&& !has_prefix(path, "//"@)
    &&& final_name(path).len() > 0
    &&& final_name(path) != "."@
    &&& final_name(path) != ".."@
}

/// The extension of a file name: what follows its last `.`, when a `.`
/// stands after its first character.
pub open spec fn name_extension(name: Seq<char>) -> Option<Seq<char>> {
    if name.len() == 0 {
        None
    } else {
        after_last(name.drop_first(), '.')
    }
}

/// The extension of the file a plain path names.
pub open spec fn path_extension_of(path: Seq<char>) -> Option<Seq<char>> {
    name_extension(final_name(path))
}

/// The kind of document a plain path names, by its extension.
pub open spec fn kind_of_path(path: Seq<char>) -> Option<FileKind> {
    match path_extension_of(path) {
        Some(e) => kind_for_extension(e),
        None => None,
    }
}

/// The characters that separate path components on some platform.
pub open spec fn is_separator(c: char) -> bool {
    c == '/' || c == '\\'
}

/// The part of `s` after its last `/` or `\`, when it holds one.
pub open spec fn after_last_separator(s: Seq<char>) -> Option<Seq<char>>
    decreases s.len(),
{
    if s.len() == 0 {
        None
    } else if is_separator(s.last()) {
        Some(seq![])
    } else {
        match after_last_separator(s.drop_last()) {
            Some(rest) => Some(rest.push(s.last())),
            None => None,
        }
    }
}

/// The last component of a path split at every `/` and `\`.
pub open spec fn file_component(path: Seq<char>) -> Seq<char> {
    match after_last_separator(path) {
        Some(name) => name,
        None => path,
    }
}

/// `path` starts with a Windows verbatim drive prefix such as `\\?\C:\`.
pub open spec fn is_verbatim_disk(path: Seq<char>) -> bool {
    &&& path.len() >= 7
    &&& path[0] == '\\' && path[1] == '\\' && path[2] == '?' && path[3] == '\\'
    &&& ('A' <= path[4] <= 'Z' || 'a' <= path[4] <= 'z')
    &&& path[5] == ':' && path[6] == '\\'
}

/// How many `\` characters `s` holds.
pub open spec fn backslash_count(s: Seq<char>) -> nat
    decreases s.len(),
{
    if s.len() == 0 {
        0
    } else {
        backslash_count(s.drop_last()) + if s.last() == '\\' {
            1nat
        } else {
            0nat
        }
    }
}

/// `path` starts with a Windows drive prefix such as `C:`.
pub open spec fn starts_with_drive(path: Seq<char>) -> bool {
    path.len() >= 2 && ('A' <= path[0] <= 'Z' || 'a' <= path[0] <= 'z') && path[1] == ':'
}

/// A path whose file name every platform finds in its last component
/// (split at `/` and `\`): that component is not empty and is not `.` or
/// `..`; it is not the whole of a drive-relative path such as `C:a.md`; and
/// a path that starts with two separators either starts with a verbatim
/// drive prefix such as `\\?\C:\` or has at least four more `\` after them,
/// so that its last component lies past any Windows prefix (a verbatim UNC
/// prefix `\\?\UNC\server\share` spans three). Windows paths such as
/// `C:\Users\me\a.md` and `\\?\C:\docs\a.md` are portable, and so is a Unix
/// name such as `notes:v2.md`.
pub open spec fn is_portable_path(path: Seq<char>) -> bool {
    let n = file_component(path);
    &&& n.len() > 0
    &&& n != "."@
    &&& n != ".."@
    &&& !(after_last_separator(path) is None && starts_with_drive(path))
    &&& (path.len() >= 2 && is_separator(path[0]) && is_separator(path[1]) ==> is_verbatim_disk(path)
        || backslash_count(path.skip(2)) >= 4)
}

/// On a portable path, what the extension is cannot depend on the
/// platform: the last component has an extension, or it does not start
/// with `.`.
pub open spec fn fixes_extension(path: Seq<char>) -> bool {
    is_portable_path(path) && (name_extension(file_component(path)) is Some || !has_prefix(
        file_component(path),
        "."@,
    ))
}

/// The kind of document named by the last component of a path.
pub open spec fn kind_by_component(path: Seq<char>) -> Option<FileKind> {
    match name_extension(file_component(path)) {
        Some(e) => kind_for_extension(e),
        None => None,
    }
}

/// No extension, or one that runs across a separator.
pub open spec fn none_or_crosses_separator(ext: Option<Seq<char>>) -> bool {
    match ext {
        Some(e) => e.contains('\\') || e.contains('/'),
        None => true,
    }
}

/// An extension that holds a separator stands for no kind of document.
proof fn lemma_separator_is_no_kind(e: Seq<char>)
    requires
        e.contains('\\') || e.contains('/'),
    ensures
        kind_for_extension(e) is None,
{
    reveal_strlit("md");
    reveal_strlit("markdown");
    reveal_strlit("html");
    reveal_strlit("htm");
    reveal_strlit("txt");
    reveal_strlit("docx");
    reveal_strlit("hwp");
    reveal_strlit("hwpx");
    let k = choose|k: int| 0 <= k < e.len() && (e[k] == '\\' || e[k] == '/');
    let l = ascii_lowercase(e);
    assert(l[k] == e[k]);
    assert(l.contains(e[k]));
}

/// The extension of the file named by `path` (`std::path::Path::extension`,
/// taken as text when it is valid UTF-8). Which characters separate path
/// components and start prefixes depends on the platform, so the contract
/// claims what holds on every platform: the extension follows a `.` of the
/// path and holds no `.` (under a Windows verbatim prefix it may hold a
/// `/`); a path without `.` has none; and for a
/// plain path it is, as the documentation of `extension` and `file_name`
/// says, what follows the last `.` of the file name when that `.` is not
/// its first character. For a portable path (which takes in Windows paths)
/// it claims what holds on Unix and on Windows alike: when the last
/// component has a `.` after its first character, the extension is what
/// follows the last `.` of that component; when it has none and does not
/// start with `.`, there is no extension, or one that runs across a
/// separator (on Unix `\` is no separator; under a Windows verbatim prefix
/// `/` is none). Of other paths it claims nothing more.
#[verifier::external_body]
fn path_extension(path: &str) -> (r: Option<String>)
    ensures
        r matches Some(e) ==> is_extension_of(path@, e@),
        !path@.contains('.') ==> r is None,
        is_plain_path(path@) ==> opt_view(r) == path_extension_of(path@),
        is_portable_path(path@) && name_extension(file_component(path@)) is Some ==> opt_view(r)
            == name_extension(file_component(path@)),
        is_portable_path(path@) && name_extension(file_component(path@)) is None && !has_prefix(
            file_component(path@),
            "."@,
        ) ==> none_or_crosses_separator(opt_view(r)),
{
    match std::path::Path::new(path).extension() {
        Some(ext) => match ext.to_str() {
            Some(text) => Some(text.to_owned()),
            None => None,
        },
        None => None,
    }
}

/// The kind of document at `path`, by its file extension: exactly
/// `kind_of_path` for a plain path and `kind_by_component` for a path that
/// fixes its extension on every platform, Windows paths among them (see
/// [`is_possible_kind`]).
pub fn ext_kind(path: &str) -> (r: Option<FileKind>)
    ensures
        is_possible_kind(path@, r),
{
    match path_extension(path) {
        Some(e) => {
            let k = kind_of_extension(e.as_str());
            proof {
                if fixes_extension(path@) && name_extension(file_component(path@)) is None {
                    lemma_separator_is_no_kind(e@);
                }
            }
            k
        },
        None => None,
    }
}

/// What `String::from_utf8_lossy` gives for `bytes`: the characters they
/// encode, with each ill-formed part replaced by U+FFFD.
pub uninterp spec fn utf8_lossy_of(bytes: Seq<u8>) -> Seq<char>;

/// A UTF-16 high (leading) surrogate.
pub open spec fn is_high_surrogate(u: int) -> bool {
    0xD800 <= u <= 0xDBFF
}

/// A UTF-16 low (trailing) surrogate.
pub open spec fn is_low_surrogate(u: int) -> bool {
    0xDC00 <= u <= 0xDFFF
}

/// The text of UTF-16 code units: a high surrogate followed by a low one
/// is the supplementary character they encode, any other surrogate is
/// U+FFFD, and every other unit is the character with that code point.
pub open spec fn utf16_decode(units: Seq<u16>) -> Seq<char>
    decreases units.len(),
{
    if units.len() == 0 {
        seq![]
    } else {
        let u = units[0] as int;
        if is_high_surrogate(u) && units.len() >= 2 && is_low_surrogate(units[1] as int) {
            seq![((0x10000 + (u - 0xD800) * 1024 + (units[1] - 0xDC00)) as u32) as char] + utf16_decode(
                units.skip(2),
            )
        } else if 0xD800 <= u <= 0xDFFF {
            seq!['\u{FFFD}'] + utf16_decode(units.drop_first())
        } else {
            seq![(u as u32) as char] + utf16_decode(units.drop_first())
        }
    }
}

/// What `encoding_rs::EUC_KR.decode` gives for `bytes`: their text read as
/// EUC-KR (CP949), ill-formed parts replaced by U+FFFD; `decode` first looks
/// for a byte-order mark and, finding one, decodes by it instead.
pub uninterp spec fn euc_kr_decoded(bytes: Seq<u8>) -> Seq<char>;

/// `String::from_utf8_lossy`, as an owned string. Beyond naming the result,
/// the contract claims what the documentation says of well-formed input:
/// it is decoded as is.
#[verifier::external_body]
fn utf8_lossy(bytes: &[u8]) -> (r: String)
    ensures
        r@ == utf8_lossy_of(bytes@),
        valid_utf8(bytes@) ==> r@ == decode_utf8(bytes@),
{
    String::from_utf8_lossy(bytes).into_owned()
}

/// The text of UTF-16 code units, as `String::from_utf16_lossy` gives it:
/// surrogate pairs are decoded and every unpaired surrogate becomes U+FFFD.
pub fn decode_utf16_units(units: &[u16]) -> (r: String)
    ensures
        r@ == utf16_decode(units@),
{
    let mut out = String::new();
    let mut i: usize = 0;
    assert(units@.skip(0) =~= units@);
    while i < units.len()
        invariant
            i <= units.len(),
            utf16_decode(units@) == out@ + utf16_decode(units@.skip(i as int)),
        decreases units.len() - i,
    {
        let ghost rest = units@.skip(i as int);
        let ghost before = out@;
        let u = units[i];
        if 0xD800 <= u && u <= 0xDBFF && units.len() - i >= 2 && 0xDC00 <= units[i + 1] && units[i
            + 1] <= 0xDFFF {
            let low = units[i + 1];
            let c: u32 = 0x10000 + (u as u32 - 0xD800) * 1024 + (low as u32 - 0xDC00);
            match char::from_u32(c) {
                Some(ch) => out.push(ch),
                None => {},
            }
            assert(rest.skip(2) =~= units@.skip(i + 2));
            i = i + 2;
        } else if 0xD800 <= u && u <= 0xDFFF {
            out.push('\u{FFFD}');
            assert(rest.drop_first() =~= units@.skip(i + 1));
            i = i + 1;
        } else {
            match char::from_u32(u as u32) {
                Some(ch) => out.push(ch),
                None => {},
            }
            assert(rest.drop_first() =~= units@.skip(i + 1));
            i = i + 1;
        }
        assert(utf16_decode(rest) == (out@.subrange(before.len() as int, out@.len() as int)) + utf16_decode(units@.skip(i as int)));
        assert(out@ =~= before + out@.subrange(before.len() as int, out@.len() as int));
    }
    assert(units@.skip(i as int) =~= Seq::<u16>::empty());
    out
}

/// `encoding_rs::EUC_KR.decode`, keeping the text. Its contract names the
/// result; it requires a length for which the decoder's buffer size does not
/// overflow (the decoder panics on such an overflow).
#[verifier::external_body]
fn euc_kr_decode(bytes: &[u8]) -> (r: String)
    requires
        bytes@.len() <= usize::MAX / 4,
    ensures
        r@ == euc_kr_decoded(bytes@),
{
    let (text, _, _) = encoding_rs::EUC_KR.decode(bytes);
    text.into_owned()
}

/// The text of UTF-8 bytes read leniently: the characters they encode when
/// they are well-formed, otherwise what `String::from_utf8_lossy` gives.
pub open spec fn utf8_text(bytes: Seq<u8>) -> Seq<char> {
    if valid_utf8(bytes) {
        decode_utf8(bytes)
    } else {
        utf8_lossy_of(bytes)
    }
}

/// The UTF-16 code units of `b` read two bytes at a time, little-endian; an
/// odd last byte is left out.
pub open spec fn le_units(b: Seq<u8>) -> Seq<u16> {
    Seq::new(b.len() / 2, |k: int| (b[2 * k] + 256 * b[2 * k + 1]) as u16)
}

/// The UTF-16 code units of `b` read two bytes at a time, big-endian; an
/// odd last byte is left out.
pub open spec fn be_units(b: Seq<u8>) -> Seq<u16> {
    Seq::new(b.len() / 2, |k: int| (256 * b[2 * k] + b[2 * k + 1]) as u16)
}

/// The text of UTF-16LE bytes (no byte-order mark), unpaired surrogates
/// replaced by U+FFFD.
pub fn decode_utf16_le(bytes: &[u8]) -> (r: String)
    ensures
        r@ == utf16_decode(le_units(bytes@)),
{
    let mut units: Vec<u16> = Vec::with_capacity(bytes.len() / 2);
    let mut i: usize = 0;
    while i < bytes.len() && bytes.len() - i >= 2
        invariant
            i <= bytes.len(),
            i % 2 == 0,
            units@ =~= le_units(bytes@).take((i / 2) as int),
        decreases bytes.len() - i,
    {
        units.push((bytes[i] as u16) + (bytes[i + 1] as u16) * 256);
        i = i + 2;
    }
    assert(units@ =~= le_units(bytes@));
    decode_utf16_units(units.as_slice())
}

/// The text of UTF-16BE bytes (no byte-order mark), unpaired surrogates
/// replaced by U+FFFD.
pub fn decode_utf16_be(bytes: &[u8]) -> (r: String)
    ensures
        r@ == utf16_decode(be_units(bytes@)),
{
    let mut units: Vec<u16> = Vec::with_capacity(bytes.len() / 2);
    let mut i: usize = 0;
    while i < bytes.len() && bytes.len() - i >= 2
        invariant
            i <= bytes.len(),
            i % 2 == 0,
            units@ =~= be_units(bytes@).take((i / 2) as int),
        decreases bytes.len() - i,
    {
        units.push((bytes[i] as u16) * 256 + (bytes[i + 1] as u16));
        i = i + 2;
    }
    assert(units@ =~= be_units(bytes@));
    decode_utf16_units(units.as_slice())
}

/// The text of a plain-text file: by its byte-order mark UTF-8 or UTF-16
/// (little- or big-endian); without one UTF-8 when the bytes are
/// well-formed UTF-8, and EUC-KR (CP949) otherwise.
pub open spec fn decoded_text(b: Seq<u8>) -> Seq<char> {
    if b.len() >= 3 && b[0] == 0xEF && b[1] == 0xBB && b[2] == 0xBF {
        utf8_text(b.skip(3))
    } else if b.len() >= 2 && b[0] == 0xFF && b[1] == 0xFE {
        utf16_decode(le_units(b.skip(2)))
    } else if b.len() >= 2 && b[0] == 0xFE && b[1] == 0xFF {
        utf16_decode(be_units(b.skip(2)))
    } else if valid_utf8(b) {
        decode_utf8(b)
    } else {
        euc_kr_decoded(b)
    }
}

/// The bytes of a plain-text file are read as EUC-KR: they start with no
/// byte-order mark and are not well-formed UTF-8.
pub open spec fn reads_as_euc_kr(b: Seq<u8>) -> bool {
    &&& !(b.len() >= 3 && b[0] == 0xEF && b[1] == 0xBB && b[2] == 0xBF)
    &&& !(b.len() >= 2 && b[0] == 0xFF && b[1] == 0xFE)
    &&& !(b.len() >= 2 && b[0] == 0xFE && b[1] == 0xFF)
    &&& !valid_utf8(b)
}

/// Whether the bytes of a plain-text file are read as EUC-KR.
pub fn falls_back_to_euc_kr(bytes: &[u8]) -> (r: bool)
    ensures
        r == reads_as_euc_kr(bytes@),
{
    let n = bytes.len();
    if n >= 3 && bytes[0] == 0xEF && bytes[1] == 0xBB && bytes[2] == 0xBF {
        return false;
    }
    if n >= 2 && ((bytes[0] == 0xFF && bytes[1] == 0xFE) || (bytes[0] == 0xFE && bytes[1] == 0xFF)) {
        return false;
    }
    std::str::from_utf8(bytes).is_err()
}

/// The text of a plain-text file (Markdown, HTML or text). Text read as
/// EUC-KR must be short enough for the EUC-KR decoder's buffer size not to
/// overflow (it panics otherwise).
pub fn decode_text(bytes: &[u8]) -> (r: String)
    requires
        reads_as_euc_kr(bytes@) ==> bytes@.len() <= usize::MAX / 4,
    ensures
        r@ == decoded_text(bytes@),
{
    let n = bytes.len();
    if n >= 3 && bytes[0] == 0xEF && bytes[1] == 0xBB && bytes[2] == 0xBF {
        return utf8_lossy(&bytes[3..n]);
    }
    if n >= 2 && bytes[0] == 0xFF && bytes[1] == 0xFE {
        return decode_utf16_le(&bytes[2..n]);
    }
    if n >= 2 && bytes[0] == 0xFE && bytes[1] == 0xFF {
        return decode_utf16_be(&bytes[2..n]);
    }
    match std::str::from_utf8(bytes) {
        Ok(s) => s.to_owned(),
        Err(_) => euc_kr_decode(bytes),
    }
}

/// One item of a directory as read from the file system: its name (`None`
/// when it is not valid UTF-8), its path and whether it is a directory.
pub struct DirItem {
    pub name: Option<String>,
    pub path: String,
    pub is_dir: bool,
}

/// One entry of the sidebar.
pub struct Entry {
    pub name: String,
    pub path: String,
    pub is_dir: bool,
}

/// What `str::to_lowercase` gives for `s` (Unicode lowercase mapping).
pub uninterp spec fn unicode_lowercase(s: Seq<char>) -> Seq<char>;

/// `str::to_lowercase`; the contract names its result.
#[verifier::external_body]
fn lowercase(s: &str) -> (r: String)
    ensures
        r@ == unicode_lowercase(s@),
{
    s.to_lowercase()
}

/// Whether the sidebar shows an item whose file kind is `kind`: it has a
/// readable name that does not start with `.`, and it is a directory or a
/// document of a kind the viewer opens.
pub open spec fn is_shown(item: DirItem, kind: Option<FileKind>) -> bool {
    match item.name {
        None => false,
        Some(n) => !has_prefix(n@, "."@) && (item.is_dir || kind is Some),
    }
}

/// The entry for an item that has a name.
pub open spec fn entry_of(item: DirItem) -> Entry {
    Entry { name: item.name.unwrap(), path: item.path, is_dir: item.is_dir }
}

/// The entries for the shown items, in the order of the directory
/// (`kinds[k]` is the file kind of `items[k]`).
pub open spec fn shown_entries(items: Seq<DirItem>, kinds: Seq<Option<FileKind>>) -> Seq<Entry>
    decreases items.len(),
{
    if items.len() == 0 {
        seq![]
    } else {
        let rest = shown_entries(items.drop_last(), kinds);
        let k = items.len() - 1;
        if is_shown(items[k], kinds[k]) {
            rest.push(entry_of(items[k]))
        } else {
            rest
        }
    }
}

/// The sort key of an entry: directories first, then by lowercase name.
pub open spec fn entry_key(e: Entry) -> (u8, Seq<char>) {
    (if e.is_dir { 0u8 } else { 1u8 }, unicode_lowercase(e.name@))
}

/// The sort keys of a list of entries.
pub open spec fn entry_keys(es: Seq<Entry>) -> Seq<(u8, Seq<char>)> {
    es.map_values(|e: Entry| entry_key(e))
}

/// `r` is `shown` in sidebar order: directories first, then by lowercase
/// name, entries of equal keys in directory order.
pub open spec fn is_sidebar_order(shown: Seq<Entry>, r: Seq<Entry>) -> bool {
    exists|p: Seq<int>|
        {
            &&& #[trigger] is_stable_sort(entry_keys(shown), entry_keys(r), p)
            &&& forall|k: int| 0 <= k < r.len() ==> #[trigger] r[k] == shown[p[k]]
        }
}

/// The sidebar entries for the items of a directory, given the file kind
/// of each item: the shown items in sidebar order.
pub fn arrange_entries(items: &Vec<DirItem>, kinds: &Vec<Option<FileKind>>) -> (r: Vec<Entry>)
    requires
        items.len() == kinds.len(),
    ensures
        is_sidebar_order(shown_entries(items@, kinds@), r@),
{
    let mut kept: Vec<Entry> = Vec::new();
    let mut keys: Vec<SortKey> = Vec::new();
    let mut i: usize = 0;
    while i < items.len()
        invariant
            i <= items.len(),
            items.len() == kinds.len(),
            kept@ == shown_entries(items@.take(i as int), kinds@),
            keys@.len() == kept@.len(),
            forall|k: int| 0 <= k < kept@.len() ==> #[trigger] keys@[k]@ == entry_key(kept@[k]),
        decreases items.len() - i,
    {
        let ghost pre = items@.take(i + 1);
        assert(pre.drop_last() =~= items@.take(i as int));
        assert(pre[i as int] == items@[i as int]);
        let item = &items[i];
        match &item.name {
            None => {},
            Some(name) => {
                let name_chars = chars_of(name.as_str());
                let dot = chars_of(".");
                if !starts_with(&name_chars, &dot) && (item.is_dir || kinds[i].is_some()) {
                    let entry = Entry { name: name.clone(), path: item.path.clone(), is_dir: item.is_dir };
                    let lower = lowercase(name.as_str());
                    let rank: u8 = if item.is_dir { 0 } else { 1 };
                    keys.push(SortKey { rank, text: chars_of(lower.as_str()) });
                    kept.push(entry);
                }
            },
        }
        i = i + 1;
    }
    assert(items@.take(items@.len() as int) =~= items@);
    let ghost shown = kept@;
    assert(key_views(keys@) =~= entry_keys(kept@));
    let (sorted, sorted_keys) = stable_sort(kept, keys);
    proof {
        let p = choose|p: Seq<int>|
            {
                &&& #[trigger] is_stable_sort(key_views(keys@), key_views(sorted_keys@), p)
                &&& sorted@.len() == shown.len()
                &&& forall|k: int| 0 <= k < sorted@.len() ==> #[trigger] sorted@[k] == shown[p[k]]
            };
        assert forall|k: int| 0 <= k < sorted@.len() implies #[trigger] key_views(sorted_keys@)[k] == entry_keys(sorted@)[k] by {
            assert(key_views(sorted_keys@)[k] == key_views(keys@)[p[k]]);
        }
        assert(key_views(sorted_keys@) =~= entry_keys(sorted@));
        assert(is_stable_sort(entry_keys(shown), entry_keys(sorted@), p));
    }
    sorted
}

/// The sidebar entry for the root directory of drive `letter` on Windows:
/// named `X:`, with path `X:\`.
pub fn drive_entry(letter: char) -> (r: Entry)
    ensures
        r.name@ == seq![letter, ':'],
        r.path@ == seq![letter, ':', '\\'],
        r.is_dir,
{
    let mut name = String::new();
    name.push(letter);
    name.push(':');
    let mut path = name.clone();
    path.push('\\');
    Entry { name, path, is_dir: true }
}

/// The sidebar entry for the file-system root `/`.
pub fn root_entry() -> (r: Entry)
    ensures
        r.name@ == seq!['/'],
        r.path@ == seq!['/'],
        r.is_dir,
{
    let mut name = String::new();
    name.push('/');
    let path = name.clone();
    Entry { name, path, is_dir: true }
}

/// A kind that [`ext_kind`] may give for `path`.
pub open spec fn is_possible_kind(path: Seq<char>, kind: Option<FileKind>) -> bool {
    &&& (kind matches Some(k) ==> exists|e: Seq<char>| is_extension_of(path, e) && kind_for_extension(e) == Some(k))
    &&& (!path.contains('.') ==> kind is None)
    &&& (is_plain_path(path) ==> kind == kind_of_path(path))
    &&& (fixes_extension(path) ==> kind == kind_by_component(path))
}

/// `es` is the sidebar for `items`, each item's file kind being one that
/// [`ext_kind`] may give for its path.
pub open spec fn is_listing_of(items: Seq<DirItem>, es: Seq<Entry>) -> bool {
    exists|kinds: Seq<Option<FileKind>>|
        {
            &&& kinds.len() == items.len()
            &&& forall|k: int| 0 <= k < kinds.len() ==> is_possible_kind(#[trigger] items[k].path@, kinds[k])
            &&& #[trigger] is_sidebar_order(shown_entries(items, kinds), es)
        }
}

/// The error for a path that is not a directory.
pub open spec fn not_a_directory(path: Seq<char>) -> Seq<char> {
    "Not a directory: "@ + path
}

/// The sidebar entries of the directory `path`, given whether it is a
/// directory and its items as read (or why they could not be read).
pub fn list_dir(path: &str, is_dir: bool, listing: Result<Vec<DirItem>, String>) -> (r: Result<Vec<Entry>, String>)
    ensures
        !is_dir ==> (r matches Err(e) && e@ == not_a_directory(path@)),
        is_dir ==> match listing {
            Err(e) => r == Err::<Vec<Entry>, String>(e),
            Ok(items) => (r matches Ok(es) && is_listing_of(items@, es@)),
        },
{
    if !is_dir {
        return Err(concat("Not a directory: ", path));
    }
    let items = match listing {
        Ok(items) => items,
        Err(e) => {
            return Err(e);
        },
    };
    let mut kinds: Vec<Option<FileKind>> = Vec::new();
    let mut i: usize = 0;
    while i < items.len()
        invariant
            i <= items.len(),
            kinds@.len() == i,
            forall|k: int| 0 <= k < i ==> is_possible_kind(#[trigger] items@[k].path@, kinds@[k]),
        decreases items.len() - i,
    {
        kinds.push(ext_kind(items[i].path.as_str()));
        i = i + 1;
    }
    Ok(arrange_entries(&items, &kinds))
}

/// The error for a file the viewer does not open.
pub open spec fn unsupported_file(path: Seq<char>) -> Seq<char> {
    "Unsupported file: "@ + path
}

/// The kind of the document at `path`, or the error the viewer gives for a
/// file it does not open.
pub fn read_plan(path: &str) -> (r: Result<FileKind, String>)
    ensures
        r matches Ok(k) ==> is_possible_kind(path@, Some(k)),
        r matches Err(e) ==> e@ == unsupported_file(path@) && is_possible_kind(path@, None),
        !path@.contains('.') ==> r is Err,
{
    match ext_kind(path) {
        Some(k) => Ok(k),
        None => Err(concat("Unsupported file: ", path)),
    }
}

/// Whether the viewer reads a kind of document as bytes (rather than
/// having it converted to text first).
pub open spec fn is_read_as_bytes(k: FileKind) -> bool {
    k == FileKind::Markdown || k == FileKind::Html || k == FileKind::Text || k == FileKind::Docx
}

impl FileKind {
    /// Whether the viewer reads this kind of document as bytes (Markdown,
    /// HTML, text and DOCX) rather than having it converted to text first
    /// (HWP and HWPX).
    pub fn is_read_as_bytes(&self) -> (r: bool)
        ensures
            r == is_read_as_bytes(*self),
    {
        match self {
            FileKind::Markdown | FileKind::Html | FileKind::Text | FileKind::Docx => true,
            FileKind::Hwp | FileKind::Hwpx => false,
        }
    }
}

/// A document as handed to the front end.
pub struct OpenedFile {
    pub path: String,
    pub kind: FileKind,
    pub content: String,
}

/// The character of a 6-bit value in the standard Base64 alphabet
/// (`A-Z`, `a-z`, `0-9`, `+`, `/`).
pub open spec fn base64_char(v: int) -> char {
    if v < 26 {
        ((65 + v) as u32) as char
    } else if v < 52 {
        ((97 + v - 26) as u32) as char
    } else if v < 62 {
        ((48 + v - 52) as u32) as char
    } else if v == 62 {
        '+'
    } else {
        '/'
    }
}

/// Standard Base64 of `bytes` (RFC 4648, padded with `=`): each group of
/// three bytes gives four characters, a last group of one or two bytes
/// gives two or three characters and padding.
pub open spec fn base64_standard_of(bytes: Seq<u8>) -> Seq<char>
    decreases bytes.len(),
{
    let b0 = bytes[0] as int;
    let b1 = bytes[1] as int;
    let b2 = bytes[2] as int;
    if bytes.len() == 0 {
        seq![]
    } else if bytes.len() == 1 {
        seq![base64_char(b0 / 4), base64_char((b0 % 4) * 16), '=', '=']
    } else if bytes.len() == 2 {
        seq![
            base64_char(b0 / 4),
            base64_char((b0 % 4) * 16 + b1 / 16),
            base64_char((b1 % 16) * 4),
            '=',
        ]
    } else {
        seq![
            base64_char(b0 / 4),
            base64_char((b0 % 4) * 16 + b1 / 16),
            base64_char((b1 % 16) * 4 + b2 / 64),
            base64_char(b2 % 64),
        ] + base64_standard_of(bytes.skip(3))
    }
}

/// Standard, padded Base64 (`base64::Engine::encode` with the `STANDARD`
/// engine); the contract states it as `base64_standard_of`.
#[verifier::external_body]
fn base64_standard(bytes: &[u8]) -> (r: String)
    ensures
        r@ == base64_standard_of(bytes@),
{
    base64::Engine::encode(&base64::engine::general_purpose::STANDARD, bytes)
}

/// The content the front end gets for a document read as bytes: a DOCX
/// file as Base64, any other as decoded text.
pub open spec fn content_of_bytes(kind: FileKind, bytes: Seq<u8>) -> Seq<char> {
    if kind == FileKind::Docx {
        base64_standard_of(bytes)
    } else {
        decoded_text(bytes)
    }
}

/// The document at `path` of kind `kind`, read as `bytes`: a DOCX file is
/// handed over as Base64, a Markdown, HTML or text file as decoded text
/// (see [`decode_text`] for the length bound).
pub fn open_bytes(path: String, kind: FileKind, bytes: &[u8]) -> (r: OpenedFile)
    requires
        kind != FileKind::Docx && reads_as_euc_kr(bytes@) ==> bytes@.len() <= usize::MAX / 4,
    ensures
        r.path == path,
        r.kind == kind,
        r.content@ == content_of_bytes(kind, bytes@),
{
    let content = if kind == FileKind::Docx {
        base64_standard(bytes)
    } else {
        decode_text(bytes)
    };
    OpenedFile { path, kind, content }
}

/// The document at `path` of kind `kind`, already converted to `content`.
pub fn open_converted(path: String, kind: FileKind, content: String) -> (r: OpenedFile)
    ensures
        r.path == path,
        r.kind == kind,
        r.content == content,
{
    OpenedFile { path, kind, content }
}

/// `s` with `<` written as `&lt;` and `>` as `&gt;`.
pub open spec fn escape_angles(s: Seq<char>) -> Seq<char>
    decreases s.len(),
{
    if s.len() == 0 {
        seq![]
    } else {
        let c = s.last();
        escape_angles(s.drop_last()) + if c == '<' {
            "&lt;"@
        } else if c == '>' {
            "&gt;"@
        } else {
            seq![c]
        }
    }
}

/// `s` with `<` written as `&lt;` and `>` as `&gt;`.
pub fn escape_angle_brackets(s: &str) -> (r: String)
    ensures
        r@ == escape_angles(s@),
{
    let cs = chars_of(s);
    let mut r = String::new();
    let mut i: usize = 0;
    while i < cs.len()
        invariant
            i <= cs.len(),
            cs@ == s@,
            r@ == escape_angles(cs@.take(i as int)),
        decreases cs.len() - i,
    {
        let ghost pre = cs@.take(i + 1);
        assert(pre.drop_last() =~= cs@.take(i as int));
        let c = cs[i];
        if c == '<' {
            r.append("&lt;");
        } else if c == '>' {
            r.append("&gt;");
        } else {
            r.push(c);
        }
        i = i + 1;
    }
    assert(cs@.take(cs@.len() as int) =~= cs@);
    r
}

/// The HTML shown for what the HWPX converter printed: its `html` field
/// when it is a non-empty string, otherwise its `text` field (empty when
/// missing) escaped and wrapped in `<pre>`.
pub open spec fn converter_html(html: Option<Seq<char>>, text: Option<Seq<char>>) -> Seq<char> {
    let h = match html {
        Some(h) => h,
        None => seq![],
    };
    let t = match text {
        Some(t) => t,
        None => seq![],
    };
    if h.len() > 0 {
        h
    } else {
        "<pre>"@ + escape_angles(t) + "</pre>"@
    }
}

/// The views of an optional string.
pub open spec fn opt_view(s: Option<String>) -> Option<Seq<char>> {
    match s {
        Some(s) => Some(s@),
        None => None,
    }
}

/// The HTML shown for the HWPX converter's output, given its `html` and
/// `text` string fields (`None` when missing or not a string).
pub fn sidecar_content(html: Option<String>, text: Option<String>) -> (r: String)
    ensures
        r@ == converter_html(opt_view(html), opt_view(text)),
{
    if let Some(h) = html {
        if !h.as_str().is_empty() {
            return h;
        }
    }
    let t = match text {
        Some(t) => t,
        None => String::new(),
    };
    let mut r = "<pre>".to_owned();
    let escaped = escape_angle_brackets(t.as_str());
    r.append(escaped.as_str());
    r.append("</pre>");
    r
}

/// The first of `args[from..]` that does not start with `--`.
pub open spec fn first_path_arg(args: Seq<String>, from: int) -> Option<String>
    decreases args.len() - from,
{
    if from < 0 || from >= args.len() {
        None
    } else if !has_prefix(args[from]@, "--"@) {
        Some(args[from])
    } else {
        first_path_arg(args, from + 1)
    }
}

/// The path given on the command line: the first argument after the
/// program's name that does not start with `--`.
pub fn initial_path_arg(args: &Vec<String>) -> (r: Option<String>)
    ensures
        r == first_path_arg(args@, 1),
{
    let dashes = chars_of("--");
    let mut i: usize = 1;
    while i < args.len()
        invariant
            1 <= i,
            dashes@ == "--"@,
            first_path_arg(args@, 1) == first_path_arg(args@, i as int),
        decreases args.len() - i,
    {
        let arg = chars_of(args[i].as_str());
        if !starts_with(&arg, &dashes) {
            return Some(args[i].clone());
        }
        i = i + 1;
    }
    None
}

/// The Windows verbatim prefix `\\?\` that canonical paths carry there.
pub open spec fn verbatim_prefix() -> Seq<char> {
    seq!['\\', '\\', '?', '\\']
}

/// `path` without a leading `\\?\`.
pub open spec fn without_verbatim_prefix(path: Seq<char>) -> Seq<char> {
    if has_prefix(path, verbatim_prefix()) {
        path.skip(4)
    } else {
        path
    }
}

/// `path` without a leading `\\?\`, as shown to the user.
pub fn strip_verbatim_prefix(path: &str) -> (r: String)
    ensures
        r@ == without_verbatim_prefix(path@),
{
    let cs = chars_of(path);
    let mut prefix: Vec<char> = Vec::new();
    prefix.push('\\');
    prefix.push('\\');
    prefix.push('?');
    prefix.push('\\');
    assert(prefix@ =~= verbatim_prefix());
    let mut r = String::new();
    let start: usize = if starts_with(&cs, &prefix) { 4 } else { 0 };
    let mut i: usize = start;
    while i < cs.len()
        invariant
            start <= i <= cs.len(),
            start <= cs.len(),
            r@ == cs@.subrange(start as int, i as int),
        decreases cs.len() - i,
    {
        r.push(cs[i]);
        i = i + 1;
        assert(r@ =~= cs@.subrange(start as int, i as int));
    }
    assert(cs@.skip(start as int) =~= cs@.subrange(start as int, cs@.len() as int));
    assert(cs@.skip(0) =~= cs@);
    r
}

/// The file or directory the viewer opens at start.
pub struct InitialPath {
    pub path: String,
    pub is_dir: bool,
}

/// The start-up target for the canonical form of the path given on the
/// command line: a directory, or a file of a kind the viewer opens, shown
/// without the `\\?\` prefix.
pub fn initial_path(canonical: &str, is_dir: bool) -> (r: Option<InitialPath>)
    ensures
        is_dir ==> r is Some,
        !is_dir && !canonical@.contains('.') ==> r is None,
        r matches Some(ip) ==> ip.path@ == without_verbatim_prefix(canonical@) && ip.is_dir == is_dir,
        r matches Some(ip) && !is_dir ==> exists|k: FileKind| is_possible_kind(canonical@, Some(k)),
        r is None ==> !is_dir && is_possible_kind(canonical@, None),
{
    if !is_dir {
        match ext_kind(canonical) {
            Some(k) => {
                assert(is_possible_kind(canonical@, Some(k)));
            },
            None => {
                return None;
            },
        }
    }
    Some(InitialPath { path: strip_verbatim_prefix(canonical), is_dir })
}

proof fn lemma_ascii_lower_idempotent(c: char)
    ensures
        ascii_lower(ascii_lower(c)) == ascii_lower(c),
{
    if 'A' <= c <= 'Z' {
        let u = ((c as u32) + 32) as u32;
        vstd::utf8::char_u32_cast(ascii_lower(c), u);
        assert((u as char) as u32 == u);
        assert(!('A' <= ascii_lower(c) <= 'Z')) by {
            vstd::utf8::char_u32_cast('A', 65);
            vstd::utf8::char_u32_cast('Z', 90);
        }
    }
}

/// The kind of a file extension does not depend on ASCII case.
pub proof fn lemma_kind_ignores_case(ext: Seq<char>)
    ensures
        kind_for_extension(ascii_lowercase(ext)) == kind_for_extension(ext),
{
    assert forall|k: int| 0 <= k < ext.len() implies #[trigger] ascii_lowercase(ascii_lowercase(ext))[k]
        == ascii_lowercase(ext)[k] by {
        lemma_ascii_lower_idempotent(ext[k]);
    }
    assert(ascii_lowercase(ascii_lowercase(ext)) =~= ascii_lowercase(ext));
}

proof fn lemma_shown_entries_members(items: Seq<DirItem>, kinds: Seq<Option<FileKind>>)
    requires
        items.len() <= kinds.len(),
    ensures
        forall|m: int|
            #![trigger shown_entries(items, kinds)[m]]
            0 <= m < shown_entries(items, kinds).len() ==> exists|j: int|
                #![trigger items[j]]
                0 <= j < items.len() && is_shown(items[j], kinds[j]) && shown_entries(items, kinds)[m]
                    == entry_of(items[j]),
    decreases items.len(),
{
    if items.len() == 0 {
        assert(shown_entries(items, kinds).len() == 0);
    } else {
        let rest = items.drop_last();
        lemma_shown_entries_members(rest, kinds);
        let sh = shown_entries(items, kinds);
        let last = items.len() - 1;
        assert(rest =~= items.subrange(0, last));
        if is_shown(items[last], kinds[last]) {
            assert(sh == shown_entries(rest, kinds).push(entry_of(items[last])));
        } else {
            assert(sh == shown_entries(rest, kinds));
        }
        assert forall|m: int| #![trigger sh[m]] 0 <= m < sh.len() implies exists|j: int|
            #![trigger items[j]]
            0 <= j < items.len() && is_shown(items[j], kinds[j]) && sh[m] == entry_of(items[j]) by {
            if m < shown_entries(rest, kinds).len() {
                let j = choose|j: int|
                    #![trigger rest[j]]
                    0 <= j < rest.len() && is_shown(rest[j], kinds[j]) && shown_entries(rest, kinds)[m]
                        == entry_of(rest[j]);
                assert(items[j] == rest[j]);
            } else {
                let j = items.len() - 1;
                assert(sh[m] == entry_of(items[j]));
                assert(is_shown(items[j], kinds[j]));
            }
        }
    }
}

/// The sidebar a directory listing gives: directories come before files;
/// among directories, and among files, lowercase names are in
/// lexicographic order; and each entry is an item of the directory whose
/// name does not start with `.` and that is a directory or a document of a
/// kind the viewer opens.
pub proof fn lemma_sidebar(items: Seq<DirItem>, es: Seq<Entry>)
    requires
        is_listing_of(items, es),
    ensures
        forall|k: int, l: int| 0 <= k < l < es.len() && (#[trigger] es[l]).is_dir ==> (#[trigger] es[k]).is_dir,
        forall|k: int, l: int|
            0 <= k < l < es.len() && (#[trigger] es[k]).is_dir == (#[trigger] es[l]).is_dir ==> !chars_lt(
                unicode_lowercase(es[l].name@),
                unicode_lowercase(es[k].name@),
            ),
        forall|k: int|
            #![trigger es[k]]
            0 <= k < es.len() ==> exists|j: int|
                #![trigger items[j]]
                0 <= j < items.len() && items[j].name == Some(es[k].name) && items[j].path
                    == es[k].path && items[j].is_dir == es[k].is_dir && !has_prefix(es[k].name@, "."@)
                    && (es[k].is_dir || exists|kind: FileKind| is_possible_kind(items[j].path@, Some(kind))),
{
    let kinds = choose|kinds: Seq<Option<FileKind>>|
        {
            &&& kinds.len() == items.len()
            &&& forall|k: int| 0 <= k < kinds.len() ==> is_possible_kind(#[trigger] items[k].path@, kinds[k])
            &&& #[trigger] is_sidebar_order(shown_entries(items, kinds), es)
        };
    let shown = shown_entries(items, kinds);
    let p = choose|p: Seq<int>|
        {
            &&& #[trigger] is_stable_sort(entry_keys(shown), entry_keys(es), p)
            &&& forall|k: int| 0 <= k < es.len() ==> #[trigger] es[k] == shown[p[k]]
        };
    lemma_stable_sort_ordered(entry_keys(shown), entry_keys(es), p);
    assert forall|k: int, l: int| 0 <= k < l < es.len() && (#[trigger] es[l]).is_dir implies (#[trigger] es[k]).is_dir by {
        assert(!crate::order::key_lt(entry_keys(es)[l], entry_keys(es)[k]));
    }
    assert forall|k: int, l: int|
        0 <= k < l < es.len() && (#[trigger] es[k]).is_dir == (#[trigger] es[l]).is_dir implies !chars_lt(
        unicode_lowercase(es[l].name@),
        unicode_lowercase(es[k].name@),
    ) by {
        assert(!crate::order::key_lt(entry_keys(es)[l], entry_keys(es)[k]));
    }
    lemma_shown_entries_members(items, kinds);
    assert forall|k: int| #![trigger es[k]] 0 <= k < es.len() implies exists|j: int|
        #![trigger items[j]]
        0 <= j < items.len() && items[j].name == Some(es[k].name) && items[j].path == es[k].path
            && items[j].is_dir == es[k].is_dir && !has_prefix(es[k].name@, "."@) && (es[k].is_dir
            || exists|kind: FileKind| is_possible_kind(items[j].path@, Some(kind))) by {
        let m = p[k];
        assert(0 <= m < shown.len());
        let j = choose|j: int| #![trigger items[j]] 0 <= j < items.len() && is_shown(items[j], kinds[j]) && shown[m] == entry_of(items[j]);
        assert(is_possible_kind(items[j].path@, kinds[j]));
    }
}

/// The UTF-8 byte-order mark.
pub open spec fn utf8_bom() -> Seq<u8> {
    seq![0xEFu8, 0xBBu8, 0xBFu8]
}

/// A text file that is UTF-8 with a byte-order mark reads as its text.
pub proof fn lemma_decode_utf8_with_bom(text: Seq<char>)
    ensures
        decoded_text(utf8_bom() + vstd::utf8::encode_utf8(text)) == text,
{
    let e = vstd::utf8::encode_utf8(text);
    let b = utf8_bom() + e;
    assert(b.skip(3) =~= e);
    vstd::utf8::encode_utf8_valid_utf8(text);
    vstd::utf8::encode_utf8_decode_utf8(text);
}

/// A text file that is UTF-8 without a byte-order mark reads as its text,
/// when the text does not start with U+FEFF (whose encoding is the mark).
pub proof fn lemma_decode_utf8(text: Seq<char>)
    requires
        text.len() == 0 || text[0] != '\u{FEFF}',
    ensures
        decoded_text(vstd::utf8::encode_utf8(text)) == text,
{
    let e = vstd::utf8::encode_utf8(text);
    vstd::utf8::encode_utf8_valid_utf8(text);
    vstd::utf8::encode_utf8_decode_utf8(text);
    if e.len() > 0 {
        assert(valid_utf8(e));
        assert(vstd::utf8::valid_first_scalar(e));
        assert(e[0] < 0xFE);
        if e.len() >= 3 && e[0] == 0xEF && e[1] == 0xBB && e[2] == 0xBF {
            vstd::utf8::encode_utf8_first_scalar(text);
            assert(vstd::utf8::codepoint_width_3(0xEF, 0xBB, 0xBF) == 0xFEFF) by (bit_vector);
            assert(vstd::utf8::decode_first_scalar(e) == 0xFEFF);
            vstd::utf8::char_u32_cast(text[0], 0xFEFF);
            vstd::utf8::char_u32_cast('\u{FEFF}', 0xFEFF);
            assert(false);
        }
    }
}

/// The UTF-16LE bytes of `units`.
pub open spec fn le_bytes(units: Seq<u16>) -> Seq<u8> {
    Seq::new(2 * units.len(), |i: int| if i % 2 == 0 { (units[i / 2] % 256) as u8 } else { (units[i / 2] / 256) as u8 })
}

/// The text shown for a converter reply without HTML holds no `<` or `>`
/// of its own: the reply's text is escaped.
pub proof fn lemma_escape_angles(s: Seq<char>)
    ensures
        !escape_angles(s).contains('<'),
        !escape_angles(s).contains('>'),
    decreases s.len(),
{
    reveal_strlit("&lt;");
    reveal_strlit("&gt;");
    if s.len() > 0 {
        lemma_escape_angles(s.drop_last());
        let c = s.last();
        let tail = if c == '<' {
            "&lt;"@
        } else if c == '>' {
            "&gt;"@
        } else {
            seq![c]
        };
        let r = escape_angles(s);
        assert(r == escape_angles(s.drop_last()) + tail);
        assert forall|k: int| 0 <= k < r.len() implies r[k] != '<' && r[k] != '>' by {
            if k < escape_angles(s.drop_last()).len() {
                assert(r[k] == escape_angles(s.drop_last())[k]);
            } else {
                assert(r[k] == tail[k - escape_angles(s.drop_last()).len()]);
            }
        }
    }
}

/// The UTF-16 code units of a text.
pub open spec fn utf16_units(text: Seq<char>) -> Seq<u16>
    decreases text.len(),
{
    if text.len() == 0 {
        seq![]
    } else {
        let c = (text[0] as u32) as int;
        (if c < 0x10000 {
            seq![c as u16]
        } else {
            seq![(0xD800 + (c - 0x10000) / 1024) as u16, (0xDC00 + (c - 0x10000) % 1024) as u16]
        }) + utf16_units(text.drop_first())
    }
}

/// The UTF-16BE bytes of `units`.
pub open spec fn be_bytes(units: Seq<u16>) -> Seq<u8> {
    Seq::new(2 * units.len(), |i: int| if i % 2 == 0 { (units[i / 2] / 256) as u8 } else { (units[i / 2] % 256) as u8 })
}

/// Reading bytes as little- or big-endian units undoes writing them so.
pub proof fn lemma_units_bytes(units: Seq<u16>)
    ensures
        le_units(le_bytes(units)) == units,
        be_units(be_bytes(units)) == units,
{
    assert forall|k: int| 0 <= k < units.len() implies #[trigger] le_units(le_bytes(units))[k] == units[k]
        && be_units(be_bytes(units))[k] == units[k] by {
        let u = units[k];
        assert(le_bytes(units)[2 * k] == (u % 256) as u8);
        assert(le_bytes(units)[2 * k + 1] == (u / 256) as u8);
        assert(be_bytes(units)[2 * k] == (u / 256) as u8);
        assert(be_bytes(units)[2 * k + 1] == (u % 256) as u8);
        assert((u % 256) + 256 * (u / 256) == u) by (nonlinear_arith);
    }
    assert(le_units(le_bytes(units)) =~= units);
    assert(be_units(be_bytes(units)) =~= units);
}

/// Decoding UTF-16 undoes encoding it, supplementary characters included.
pub proof fn lemma_utf16_roundtrip(text: Seq<char>)
    ensures
        utf16_decode(utf16_units(text)) == text,
    decreases text.len(),
{
    if text.len() > 0 {
        let c = (text[0] as u32) as int;
        let rest = text.drop_first();
        let units = utf16_units(text);
        vstd::utf8::char_is_scalar(text[0]);
        vstd::utf8::char_u32_cast(text[0], text[0] as u32);
        lemma_utf16_roundtrip(rest);
        if c < 0x10000 {
            assert(units.drop_first() =~= utf16_units(rest));
            assert(units[0] as int == c);
        } else {
            let v = c - 0x10000;
            assert(0 <= v < 0x100000);
            assert(0 <= v / 1024 < 1024 && 0 <= v % 1024 < 1024 && 0x10000 + (v / 1024) * 1024 + v % 1024 == c) by (nonlinear_arith)
                requires
                    0 <= v < 0x100000,
                    v == c - 0x10000,
            ;
            assert(units.skip(2) =~= utf16_units(rest));
            assert(units[0] as int == 0xD800 + v / 1024);
            assert(units[1] as int == 0xDC00 + v % 1024);
        }
        assert(text =~= seq![text[0]] + rest);
    }
}

/// UTF-16LE without a byte-order mark reads back as the text written.
pub proof fn lemma_decode_utf16_le_roundtrip(text: Seq<char>)
    ensures
        utf16_decode(le_units(le_bytes(utf16_units(text)))) == text,
{
    lemma_units_bytes(utf16_units(text));
    lemma_utf16_roundtrip(text);
}

/// UTF-16BE without a byte-order mark reads back as the text written.
pub proof fn lemma_decode_utf16_be_roundtrip(text: Seq<char>)
    ensures
        utf16_decode(be_units(be_bytes(utf16_units(text)))) == text,
{
    lemma_units_bytes(utf16_units(text));
    lemma_utf16_roundtrip(text);
}

/// A text file that is UTF-16 with a byte-order mark, little- or
/// big-endian, reads as its text.
pub proof fn lemma_decode_utf16_with_bom(text: Seq<char>)
    ensures
        decoded_text(seq![0xFFu8, 0xFEu8] + le_bytes(utf16_units(text))) == text,
        decoded_text(seq![0xFEu8, 0xFFu8] + be_bytes(utf16_units(text))) == text,
{
    let le = seq![0xFFu8, 0xFEu8] + le_bytes(utf16_units(text));
    let be = seq![0xFEu8, 0xFFu8] + be_bytes(utf16_units(text));
    assert(le.skip(2) =~= le_bytes(utf16_units(text)));
    assert(be.skip(2) =~= be_bytes(utf16_units(text)));
    lemma_decode_utf16_le_roundtrip(text);
    lemma_decode_utf16_be_roundtrip(text);
}

/// What `serde_json::from_str::<serde_json::Value>` gives for `text`, taken
/// down to the `html` and `text` members of the document when they are
/// strings (`None` when missing or of another type), or the parse error in
/// words.
pub uninterp spec fn json_string_fields_of(text: Seq<char>) -> Result<(Option<Seq<char>>, Option<Seq<char>>), Seq<char>>;

/// The value of a result holding two optional strings, or a reason.
pub open spec fn fields_view(r: Result<(Option<String>, Option<String>), String>) -> Result<
    (Option<Seq<char>>, Option<Seq<char>>),
    Seq<char>,
> {
    match r {
        Ok((h, t)) => Ok((opt_view(h), opt_view(t))),
        Err(e) => Err(e@),
    }
}

/// Parses `text` with `serde_json::from_str` into a `serde_json::Value` and
/// takes its `html` and `text` members as strings (`Value::get`,
/// `Value::as_str`), or gives the parse error through its `Display`. The
/// contract names the outcome, a function of the text alone.
#[verifier::external_body]
fn json_string_fields(text: &str) -> (r: Result<(Option<String>, Option<String>), String>)
    ensures
        fields_view(r) == json_string_fields_of(text@),
{
    match serde_json::from_str::<serde_json::Value>(text) {
        Err(e) => Err(e.to_string()),
        Ok(v) => Ok((
            v.get("html").and_then(serde_json::Value::as_str).map(str::to_owned),
            v.get("text").and_then(serde_json::Value::as_str).map(str::to_owned),
        )),
    }
}

/// The text of bytes read as UTF-8, ill-formed parts replaced by U+FFFD.
pub fn utf8_lossy_text(bytes: &[u8]) -> (r: String)
    ensures
        r@ == utf8_text(bytes@),
{
    utf8_lossy(bytes)
}

/// What the viewer shows for the HWPX converter's run, given whether the
/// process succeeded, its exit code as text, and what it printed: on
/// failure the error `parser exit <code>: <stderr>`; otherwise the JSON it
/// printed is read, a parse error giving `parser JSON 디코드 실패: <reason>`,
/// and its `html` and `text` members giving the HTML.
pub open spec fn converter_reply_of(success: bool, exit: Seq<char>, stdout: Seq<u8>, stderr: Seq<u8>) -> Result<
    Seq<char>,
    Seq<char>,
> {
    if !success {
        Err("parser exit "@ + exit + ": "@ + utf8_text(stderr))
    } else {
        match json_string_fields_of(utf8_text(stdout)) {
            Err(m) => Err("parser JSON 디코드 실패: "@ + m),
            Ok((h, t)) => Ok(converter_html(h, t)),
        }
    }
}

/// The HTML (or the error) for the HWPX converter's run, given whether the
/// process succeeded, its exit code as text, and its standard output and
/// error streams.
pub fn converter_reply(success: bool, exit: &str, stdout: &[u8], stderr: &[u8]) -> (r: Result<String, String>)
    ensures
        crate::hwpx::text_or_reason(r) == converter_reply_of(success, exit@, stdout@, stderr@),
{
    if !success {
        let mut m = concat("parser exit ", exit);
        m.append(": ");
        let err = utf8_lossy_text(stderr);
        m.append(err.as_str());
        proof {
            assert(m@ =~= "parser exit "@ + exit@ + ": "@ + utf8_text(stderr@));
        }
        return Err(m);
    }
    let out = utf8_lossy_text(stdout);
    match json_string_fields(out.as_str()) {
        Err(e) => Err(concat("parser JSON 디코드 실패: ", e.as_str())),
        Ok((html, text)) => Ok(sidecar_content(html, text)),
    }
}

/// Only the extension matters, and not its ASCII case: two paths whose kind
/// is fixed on every platform, and whose extensions agree once lowercased,
/// have the same kind, whatever their directories and stems.
pub proof fn lemma_kind_by_extension_only(p1: Seq<char>, p2: Seq<char>)
    requires
        fixes_extension(p1),
        fixes_extension(p2),
        match (name_extension(file_component(p1)), name_extension(file_component(p2))) {
            (Some(e1), Some(e2)) => ascii_lowercase(e1) == ascii_lowercase(e2),
            (None, None) => true,
            _ => false,
        },
    ensures
        kind_by_component(p1) == kind_by_component(p2),
{
    match (name_extension(file_component(p1)), name_extension(file_component(p2))) {
        (Some(e1), Some(e2)) => {
            lemma_kind_ignores_case(e1);
            lemma_kind_ignores_case(e2);
        },
        _ => {},
    }
}

/// The parent of `path` (`std::path::Path::parent`, as text). Where the
/// components of a path split depends on the platform, so the contract
/// claims what holds on every platform: the parent is a leading part of the
/// path; an empty path and the root `/` have none; and a non-empty path
/// without `/`, `\` or `:` is a single component whose parent is empty.
#[verifier::external_body]
fn path_parent(path: &str) -> (r: Option<String>)
    ensures
        r matches Some(p) ==> has_prefix(path@, p@),
        path@.len() == 0 || path@ == seq!['/'] ==> r is None,
        path@.len() > 0 && !path@.contains('/') && !path@.contains('\\') && !path@.contains(':') ==> opt_view(r)
            == Some(Seq::<char>::empty()),
{
    match std::path::Path::new(path).parent() {
        Some(parent) => Some(parent.to_string_lossy().into_owned()),
        None => None,
    }
}

/// The directory that holds `path`, for the sidebar's "up" step: a leading
/// part of the path; none for an empty path or the root `/`; empty for a
/// single component without `/`, `\` or `:`.
pub fn parent_dir(path: &str) -> (r: Option<String>)
    ensures
        r matches Some(p) ==> has_prefix(path@, p@),
        path@.len() == 0 || path@ == seq!['/'] ==> r is None,
        path@.len() > 0 && !path@.contains('/') && !path@.contains('\\') && !path@.contains(':') ==> opt_view(r)
            == Some(Seq::<char>::empty()),
{
    path_parent(path)
}

/// Escaping works character by character: the escape of two texts side by
/// side is their escapes side by side.
pub proof fn lemma_escape_concat(a: Seq<char>, b: Seq<char>)
    ensures
        escape_angles(a + b) == escape_angles(a) + escape_angles(b),
    decreases b.len(),
{
    if b.len() == 0 {
        assert(a + b =~= a);
        assert(escape_angles(a) + escape_angles(b) =~= escape_angles(a));
    } else {
        lemma_escape_concat(a, b.drop_last());
        assert((a + b).drop_last() =~= a + b.drop_last());
        assert((a + b).last() == b.last());
    }
}

/// Escaping changes only `<` and `>`: each other character (line breaks
/// among them) stands for itself, so a text without `<` and `>` is its own
/// escape, and `<`, `>` become `&lt;`, `&gt;`.
pub proof fn lemma_escape_keeps_other_chars(s: Seq<char>, c: char)
    ensures
        c != '<' && c != '>' ==> escape_angles(seq![c]) == seq![c],
        escape_angles(seq!['<']) == "&lt;"@,
        escape_angles(seq!['>']) == "&gt;"@,
        !s.contains('<') && !s.contains('>') ==> escape_angles(s) == s,
    decreases s.len(),
{
    assert(seq![c].drop_last() =~= Seq::<char>::empty());
    assert(seq!['<'].drop_last() =~= Seq::<char>::empty());
    assert(seq!['>'].drop_last() =~= Seq::<char>::empty());
    assert(Seq::<char>::empty() + seq![c] =~= seq![c]);
    assert(Seq::<char>::empty() + "&lt;"@ =~= "&lt;"@);
    assert(Seq::<char>::empty() + "&gt;"@ =~= "&gt;"@);
    assert(escape_angles(Seq::<char>::empty()) == Seq::<char>::empty());
    assert(escape_angles(seq![c]) == escape_angles(Seq::<char>::empty()) + (if c == '<' {
        "&lt;"@
    } else if c == '>' {
        "&gt;"@
    } else {
        seq![c]
    }));
    assert(escape_angles(seq!['<']) == escape_angles(Seq::<char>::empty()) + "&lt;"@);
    assert(escape_angles(seq!['>']) == escape_angles(Seq::<char>::empty()) + "&gt;"@);
    if s.len() > 0 && !s.contains('<') && !s.contains('>') {
        let init = s.drop_last();
        assert(!init.contains('<') && !init.contains('>')) by {
            if init.contains('<') {
                let k = choose|k: int| 0 <= k < init.len() && init[k] == '<';
                assert(s[k] == '<');
            }
            if init.contains('>') {
                let k = choose|k: int| 0 <= k < init.len() && init[k] == '>';
                assert(s[k] == '>');
            }
        }
        lemma_escape_keeps_other_chars(init, c);
        assert(s.last() == s[s.len() - 1]);
        assert(init.push(s.last()) =~= s);
        assert(init + seq![s.last()] =~= s);
    }
}

/// A Markdown, HTML or text document is shown as its text: one stored as
/// UTF-8 without a byte-order mark opens as exactly the text it encodes;
/// only a DOCX document is handed over as Base64.
pub proof fn lemma_text_documents_open_as_text(kind: FileKind, text: Seq<char>, bytes: Seq<u8>)
    requires
        text.len() == 0 || text[0] != '\u{FEFF}',
    ensures
        kind != FileKind::Docx ==> content_of_bytes(kind, vstd::utf8::encode_utf8(text)) == text,
        kind != FileKind::Docx ==> content_of_bytes(kind, bytes) == decoded_text(bytes),
        content_of_bytes(FileKind::Docx, bytes) == base64_standard_of(bytes),
{
    lemma_decode_utf8(text);
}

} // verus!
