use mydoo_viewer::viewer::{
    converter_reply, decode_utf16_units, falls_back_to_euc_kr, parent_dir, utf8_lossy_text,
    decode_text, decode_utf16_be, decode_utf16_le, drive_entry, escape_angle_brackets, ext_kind,
    initial_path, initial_path_arg, kind_of_extension, list_dir, open_bytes, open_converted,
    read_plan, root_entry, sidecar_content, strip_verbatim_prefix, DirItem, Entry, FileKind,
};

fn item(name: &str, is_dir: bool) -> DirItem {
    DirItem { name: Some(name.to_string()), path: format!("/docs/{}", name), is_dir }
}

fn names(es: &[Entry]) -> Vec<&str> {
    es.iter().map(|e| e.name.as_str()).collect()
}

#[test]
fn kinds_of_supported_extensions() {
    assert_eq!(kind_of_extension("md"), Some(FileKind::Markdown));
    assert_eq!(kind_of_extension("markdown"), Some(FileKind::Markdown));
    assert_eq!(kind_of_extension("html"), Some(FileKind::Html));
    assert_eq!(kind_of_extension("htm"), Some(FileKind::Html));
    assert_eq!(kind_of_extension("txt"), Some(FileKind::Text));
    assert_eq!(kind_of_extension("docx"), Some(FileKind::Docx));
    assert_eq!(kind_of_extension("hwp"), Some(FileKind::Hwp));
    assert_eq!(kind_of_extension("hwpx"), Some(FileKind::Hwpx));
    assert_eq!(kind_of_extension("pdf"), None);
    assert_eq!(kind_of_extension(""), None);
    assert_eq!(kind_of_extension("mdx"), None);
}

#[test]
fn kind_ignores_ascii_case() {
    assert_eq!(kind_of_extension("MD"), Some(FileKind::Markdown));
    assert_eq!(kind_of_extension("HwPx"), Some(FileKind::Hwpx));
    assert_eq!(kind_of_extension("TXT"), kind_of_extension("txt"));
}

#[test]
fn kind_names() {
    let all = [
        (FileKind::Markdown, "markdown"),
        (FileKind::Html, "html"),
        (FileKind::Text, "text"),
        (FileKind::Docx, "docx"),
        (FileKind::Hwp, "hwp"),
        (FileKind::Hwpx, "hwpx"),
    ];
    for (k, n) in all {
        assert_eq!(k.name(), n);
        assert_eq!(k.is_read_as_bytes(), !matches!(k, FileKind::Hwp | FileKind::Hwpx));
    }
}

#[test]
fn ext_kind_of_paths() {
    assert_eq!(ext_kind("/home/u/notes/README.md"), Some(FileKind::Markdown));
    assert_eq!(ext_kind("report.final.HWP"), Some(FileKind::Hwp));
    assert_eq!(ext_kind("/home/u/Makefile"), None);
    assert_eq!(ext_kind("/home/u/.md"), None);
    assert_eq!(ext_kind("/home/u/archive.tar.gz"), None);
    assert_eq!(ext_kind(""), None);
    assert_eq!(ext_kind("notes.md/inner"), None);
    assert_eq!(ext_kind("/x/y.tar.MD"), Some(FileKind::Markdown));
    assert_eq!(ext_kind("/x/.hidden.txt"), Some(FileKind::Text));
    assert_eq!(ext_kind("/x/y.md."), None);
}

#[test]
fn decode_utf8_with_and_without_bom() {
    let mut bytes = vec![0xEF, 0xBB, 0xBF];
    bytes.extend_from_slice("# 제목".as_bytes());
    assert_eq!(decode_text(&bytes), "# 제목");
    assert_eq!(decode_text("plain ü".as_bytes()), "plain ü");
    assert_eq!(decode_text(&[]), "");
}

#[test]
fn decode_utf8_bom_with_bad_bytes_is_lossy() {
    assert_eq!(decode_text(&[0xEF, 0xBB, 0xBF, b'a', 0xFF]), "a\u{FFFD}");
}

#[test]
fn decode_utf16_with_bom() {
    let mut le = vec![0xFF, 0xFE];
    le.extend("한글 ok".encode_utf16().flat_map(|u| u.to_le_bytes()));
    assert_eq!(decode_text(&le), "한글 ok");
    let mut be = vec![0xFE, 0xFF];
    be.extend("한글 ok".encode_utf16().flat_map(|u| u.to_be_bytes()));
    assert_eq!(decode_text(&be), "한글 ok");
}

#[test]
fn decode_euc_kr_fallback() {
    assert_eq!(decode_text(&[0xC7, 0xD1, 0xB1, 0xDB]), "한글");
    assert_eq!(decode_text(&[b'a', 0xC7, 0xD1]), "a한");
}

#[test]
fn utf16_decoders() {
    assert_eq!(decode_utf16_le(&[0x41, 0x00, 0x42]), "A");
    assert_eq!(decode_utf16_be(&[0x00, 0x41, 0x00, 0x42]), "AB");
    assert_eq!(decode_utf16_le(&[0x00, 0xD8]), "\u{FFFD}");
    assert_eq!(decode_utf16_le(&[0x3D, 0xD8, 0x00, 0xDE]), "😀");
    assert_eq!(decode_utf16_be(&[]), "");
}

#[test]
fn list_dir_not_a_directory() {
    match list_dir("/etc/passwd", false, Ok(vec![])) {
        Err(e) => assert_eq!(e, "Not a directory: /etc/passwd"),
        Ok(_) => panic!("listed a file"),
    }
}

#[test]
fn list_dir_read_error_is_passed_on() {
    match list_dir("/x", true, Err("permission denied".to_string())) {
        Err(e) => assert_eq!(e, "permission denied"),
        Ok(_) => panic!("listed an unreadable directory"),
    }
}

#[test]
fn list_dir_filters_and_orders() {
    let items = vec![
        item("zeta.md", false),
        item("Notes", true),
        item(".git", true),
        item(".hidden.md", false),
        item("photo.png", false),
        item("alpha.MD", false),
        item("Beta.markdown", false),
        item("archive", true),
        item("paper.hwp", false),
        DirItem { name: None, path: "/docs/\u{FFFD}.md".to_string(), is_dir: false },
    ];
    let es = list_dir("/docs", true, Ok(items)).ok().unwrap();
    assert_eq!(names(&es), vec!["archive", "Notes", "alpha.MD", "Beta.markdown", "paper.hwp", "zeta.md"]);
    assert!(es[0].is_dir && es[1].is_dir && !es[2].is_dir);
    assert_eq!(es[2].path, "/docs/alpha.MD");
}

#[test]
fn list_dir_equal_lowercase_names_keep_directory_order() {
    let items = vec![item("B.md", false), item("b.md", false), item("a.md", false)];
    let es = list_dir("/docs", true, Ok(items)).ok().unwrap();
    assert_eq!(names(&es), vec!["a.md", "B.md", "b.md"]);
}

#[test]
fn list_dir_unicode_lowercase_order() {
    let items = vec![item("Éclair.md", false), item("été.md", false), item("zz.md", false)];
    let es = list_dir("/docs", true, Ok(items)).ok().unwrap();
    assert_eq!(names(&es), vec!["zz.md", "Éclair.md", "été.md"]);
}

#[test]
fn drive_and_root_entries() {
    let d = drive_entry('C');
    assert_eq!((d.name.as_str(), d.path.as_str(), d.is_dir), ("C:", "C:\\", true));
    let r = root_entry();
    assert_eq!((r.name.as_str(), r.path.as_str(), r.is_dir), ("/", "/", true));
}

#[test]
fn read_plan_kinds_and_unsupported() {
    assert_eq!(read_plan("/a/b.docx").ok(), Some(FileKind::Docx));
    assert_eq!(read_plan("/a/b.pdf").err(), Some("Unsupported file: /a/b.pdf".to_string()));
    assert_eq!(read_plan("noext").err(), Some("Unsupported file: noext".to_string()));
}

#[test]
fn open_bytes_docx_is_base64() {
    let f = open_bytes("/a/b.docx".to_string(), FileKind::Docx, b"hello");
    assert_eq!(f.content, "aGVsbG8=");
    assert_eq!(f.kind, FileKind::Docx);
    assert_eq!(f.path, "/a/b.docx");
    let f = open_bytes("/a/c.docx".to_string(), FileKind::Docx, &[]);
    assert_eq!(f.content, "");
}

#[test]
fn open_bytes_text_is_decoded() {
    let f = open_bytes("/a/b.md".to_string(), FileKind::Markdown, &[0xC7, 0xD1]);
    assert_eq!(f.content, "한");
    assert_eq!(f.kind, FileKind::Markdown);
}

#[test]
fn open_converted_keeps_content() {
    let f = open_converted("/a/b.hwp".to_string(), FileKind::Hwp, "본문\n".to_string());
    assert_eq!((f.path.as_str(), f.kind, f.content.as_str()), ("/a/b.hwp", FileKind::Hwp, "본문\n"));
}

#[test]
fn sidecar_prefers_html() {
    assert_eq!(sidecar_content(Some("<p>x</p>".to_string()), Some("t".to_string())), "<p>x</p>");
}

#[test]
fn sidecar_falls_back_to_escaped_text() {
    assert_eq!(
        sidecar_content(Some(String::new()), Some("a<b>&c".to_string())),
        "<pre>a&lt;b&gt;&c</pre>"
    );
    assert_eq!(sidecar_content(None, None), "<pre></pre>");
}

#[test]
fn escaping_leaves_no_angle_brackets() {
    let e = escape_angle_brackets("<<>>x<");
    assert_eq!(e, "&lt;&lt;&gt;&gt;x&lt;");
    assert!(!e.contains('<') && !e.contains('>'));
}

#[test]
fn initial_arg_skips_flags() {
    let args: Vec<String> = ["mdv", "--flag", "--x", "docs/a.md", "b.md"].iter().map(|s| s.to_string()).collect();
    assert_eq!(initial_path_arg(&args), Some("docs/a.md".to_string()));
    let args: Vec<String> = ["mdv", "--only"].iter().map(|s| s.to_string()).collect();
    assert_eq!(initial_path_arg(&args), None);
    let args: Vec<String> = ["--not-skipped-as-program"].iter().map(|s| s.to_string()).collect();
    assert_eq!(initial_path_arg(&args), None);
    assert_eq!(initial_path_arg(&vec![]), None);
}

#[test]
fn verbatim_prefix_is_stripped() {
    assert_eq!(strip_verbatim_prefix(r"\\?\C:\docs\a.md"), r"C:\docs\a.md");
    assert_eq!(strip_verbatim_prefix("/home/u/a.md"), "/home/u/a.md");
    assert_eq!(strip_verbatim_prefix(r"\\?"), r"\\?");
}

#[test]
fn initial_path_accepts_dirs_and_known_files() {
    let d = initial_path(r"\\?\C:\docs", true).unwrap();
    assert_eq!((d.path.as_str(), d.is_dir), (r"C:\docs", true));
    let f = initial_path("/home/u/a.hwpx", false).unwrap();
    assert_eq!((f.path.as_str(), f.is_dir), ("/home/u/a.hwpx", false));
    assert!(initial_path("/home/u/a.pdf", false).is_none());
}

#[test]
fn ext_kind_of_windows_paths() {
    assert_eq!(ext_kind(r"C:\Users\me\a.md"), Some(FileKind::Markdown));
    assert_eq!(ext_kind(r"\\?\C:\docs\Report.HWPX"), Some(FileKind::Hwpx));
    assert_eq!(ext_kind(r"C:\Users\me\notes.txt"), Some(FileKind::Text));
    assert_eq!(ext_kind(r"C:\Users\me.d\Makefile"), None);
}

#[test]
fn read_plan_of_windows_path() {
    assert_eq!(read_plan(r"C:\a\b.docx").ok(), Some(FileKind::Docx));
    assert_eq!(read_plan(r"C:\a\b.pdf").err(), Some(r"Unsupported file: C:\a\b.pdf".to_string()));
    let f = initial_path(r"\\?\C:\docs\a.md", false).unwrap();
    assert_eq!((f.path.as_str(), f.is_dir), (r"C:\docs\a.md", false));
}

#[test]
fn utf16_lone_high_surrogate_then_unit() {
    assert_eq!(decode_utf16_le(&[0x00, 0xD8, 0x41, 0x00]), "\u{FFFD}A");
    assert_eq!(decode_utf16_be(&[0xDC, 0x00, 0xD8, 0x3D, 0xDE, 0x00]), "\u{FFFD}😀");
}

#[test]
fn utf16_roundtrip_examples() {
    let s = "가😀 z\u{FFFF}";
    let le: Vec<u8> = s.encode_utf16().flat_map(|u| u.to_le_bytes()).collect();
    let be: Vec<u8> = s.encode_utf16().flat_map(|u| u.to_be_bytes()).collect();
    assert_eq!(decode_utf16_le(&le), s);
    assert_eq!(decode_utf16_be(&be), s);
}

#[test]
fn euc_kr_fallback_detection() {
    assert!(falls_back_to_euc_kr(&[0xC7, 0xD1]));
    assert!(!falls_back_to_euc_kr("한".as_bytes()));
    assert!(!falls_back_to_euc_kr(&[0xFF, 0xFE, 0x00, 0xD8]));
    assert!(!falls_back_to_euc_kr(&[]));
}

#[test]
fn lossy_utf8_text() {
    assert_eq!(utf8_lossy_text(&[b'o', b'k', 0xC3]), "ok\u{FFFD}");
}

#[test]
fn converter_reply_failure() {
    assert_eq!(
        converter_reply(false, "Some(2)", b"", b"boom"),
        Err("parser exit Some(2): boom".to_string())
    );
}

#[test]
fn converter_reply_bad_json() {
    match converter_reply(true, "Some(0)", b"not json", b"") {
        Err(m) => assert!(m.starts_with("parser JSON 디코드 실패: ")),
        Ok(h) => panic!("accepted: {}", h),
    }
}

#[test]
fn converter_reply_html_and_text() {
    assert_eq!(
        converter_reply(true, "Some(0)", br#"{"html":"<p>hi</p>","text":"hi"}"#, b""),
        Ok("<p>hi</p>".to_string())
    );
    assert_eq!(
        converter_reply(true, "Some(0)", br#"{"html":"","text":"a<b"}"#, b""),
        Ok("<pre>a&lt;b</pre>".to_string())
    );
    assert_eq!(
        converter_reply(true, "Some(0)", br#"{"html":5}"#, b""),
        Ok("<pre></pre>".to_string())
    );
    assert_eq!(converter_reply(true, "Some(0)", b"[1,2]", b""), Ok("<pre></pre>".to_string()));
}

#[test]
fn ext_kind_of_names_with_colons_and_unc_paths() {
    assert_eq!(ext_kind("notes:v2.md"), Some(FileKind::Markdown));
    assert_eq!(ext_kind("/home/u/a:b.txt"), Some(FileKind::Text));
    assert_eq!(ext_kind(r"\\srv\share\d\e\a.hwp"), Some(FileKind::Hwp));
    assert_eq!(ext_kind(r"\\?\C:\x.y/z"), None);
}

#[test]
fn utf16_units_decoding() {
    assert_eq!(decode_utf16_units(&[0x48, 0xD83D, 0xDE00, 0xDC00, 0xD800]), "H😀\u{FFFD}\u{FFFD}");
    assert_eq!(decode_utf16_units(&[]), "");
}

#[test]
fn parent_dirs() {
    assert_eq!(parent_dir("/home/u/a.md"), Some("/home/u".to_string()));
    assert_eq!(parent_dir("a.md"), Some(String::new()));
    assert_eq!(parent_dir("/"), None);
    assert_eq!(parent_dir(""), None);
    assert_eq!(parent_dir("/home"), Some("/".to_string()));
}
