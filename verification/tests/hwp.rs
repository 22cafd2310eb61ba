use std::io::Write;

use mydoo_viewer::hwp::{
    extract_para_text, extract_text, inflate, is_compressed, parse_section_records, section_paths,
    HwpError,
};

fn utf16le(s: &str) -> Vec<u8> {
    s.encode_utf16().flat_map(|u| u.to_le_bytes()).collect()
}

fn record(tag: u32, data: &[u8]) -> Vec<u8> {
    let mut out = Vec::new();
    if data.len() < 0xFFF {
        out.extend_from_slice(&(tag | ((data.len() as u32) << 20)).to_le_bytes());
    } else {
        out.extend_from_slice(&(tag | (0xFFF << 20)).to_le_bytes());
        out.extend_from_slice(&(data.len() as u32).to_le_bytes());
    }
    out.extend_from_slice(data);
    out
}

fn deflate(data: &[u8]) -> Vec<u8> {
    let mut enc = flate2::write::DeflateEncoder::new(Vec::new(), flate2::Compression::default());
    enc.write_all(data).unwrap();
    enc.finish().unwrap()
}

fn header(compressed: bool) -> Vec<u8> {
    let mut h = vec![0u8; 256];
    h[36] = if compressed { 1 } else { 0 };
    h
}

#[test]
fn para_text_plain_korean_and_ascii() {
    let mut out = String::from(">");
    extract_para_text(&utf16le("안녕 Hi"), &mut out);
    assert_eq!(out, ">안녕 Hi");
}

#[test]
fn para_text_tab_and_line_breaks() {
    let mut data = utf16le("a");
    data.extend_from_slice(&[9, 0, 10, 0, 13, 0]);
    data.extend_from_slice(&utf16le("b"));
    let mut out = String::new();
    extract_para_text(&data, &mut out);
    assert_eq!(out, "a\t\n\nb");
}

#[test]
fn para_text_skips_inline_control() {
    let mut data = vec![2u8, 0];
    data.extend_from_slice(&[0x41u8; 14]);
    data.extend_from_slice(&utf16le("X"));
    let mut out = String::new();
    extract_para_text(&data, &mut out);
    assert_eq!(out, "X");
}

#[test]
fn para_text_truncated_inline_control_ends_text() {
    let mut data = utf16le("A");
    data.extend_from_slice(&[11u8, 0, 0x41, 0]);
    let mut out = String::new();
    extract_para_text(&data, &mut out);
    assert_eq!(out, "A");
}

#[test]
fn para_text_keeps_units_outside_the_control_set() {
    let data = vec![0u8, 0, 20, 0, 27, 0];
    let mut out = String::new();
    extract_para_text(&data, &mut out);
    assert_eq!(out, "\u{0}\u{14}\u{1b}");
}

#[test]
fn para_text_drops_surrogates_and_odd_byte() {
    let mut data = vec![0x00u8, 0xD8];
    data.extend_from_slice(&utf16le("z"));
    data.push(0x41);
    let mut out = String::new();
    extract_para_text(&data, &mut out);
    assert_eq!(out, "z");
}

#[test]
fn records_only_para_text_is_read() {
    let mut bytes = record(66, &utf16le("header"));
    bytes.extend(record(67, &utf16le("첫 문단")));
    bytes.extend(record(68, &utf16le("shape")));
    bytes.extend(record(67, &utf16le("second")));
    assert_eq!(parse_section_records(&bytes), "첫 문단\nsecond\n");
}

#[test]
fn records_level_bits_are_ignored() {
    let data = utf16le("lvl");
    let h: u32 = 67 | (3 << 10) | ((data.len() as u32) << 20);
    let mut bytes = h.to_le_bytes().to_vec();
    bytes.extend_from_slice(&data);
    assert_eq!(parse_section_records(&bytes), "lvl\n");
}

#[test]
fn records_extended_size() {
    let text: String = std::iter::repeat('가').take(2100).collect();
    let bytes = record(67, &utf16le(&text));
    assert!(bytes.len() > 4095 + 8);
    assert_eq!(parse_section_records(&bytes), format!("{}\n", text));
}

#[test]
fn records_truncated_record_stops_reading() {
    let mut bytes = record(67, &utf16le("ok"));
    let mut cut = record(67, &utf16le("cut off"));
    cut.truncate(cut.len() - 1);
    bytes.extend(cut);
    assert_eq!(parse_section_records(&bytes), "ok\n");
    assert_eq!(parse_section_records(&[1, 2, 3]), "");
    assert_eq!(parse_section_records(&[]), "");
}

#[test]
fn records_empty_para_text_gives_line_break() {
    assert_eq!(parse_section_records(&record(67, &[])), "\n");
}

#[test]
fn records_concatenation_law_example() {
    let a = record(67, &utf16le("one"));
    let b = record(67, &utf16le("two"));
    let mut ab = a.clone();
    ab.extend_from_slice(&b);
    assert_eq!(
        parse_section_records(&ab),
        format!("{}{}", parse_section_records(&a), parse_section_records(&b))
    );
}

#[test]
fn paragraphs_roundtrip_example() {
    let paragraphs = ["제목", "", "본문 text"];
    let mut bytes = Vec::new();
    for p in paragraphs {
        bytes.extend(record(67, &utf16le(p)));
    }
    assert_eq!(parse_section_records(&bytes), "제목\n\n본문 text\n");
}

#[test]
fn header_compression_flag() {
    assert!(matches!(is_compressed(&[0u8; 35]), Err(HwpError::HeaderTooShort)));
    assert!(matches!(is_compressed(&[0xFFu8; 36]), Ok(false)));
    let mut h = vec![0u8; 40];
    h[36] = 1;
    assert!(matches!(is_compressed(&h), Ok(true)));
    h[36] = 2;
    h[37] = 1;
    assert!(matches!(is_compressed(&h), Ok(false)));
    assert!(matches!(is_compressed(&header(true)), Ok(true)));
}

#[test]
fn inflate_reverses_deflate() {
    let data = record(67, &utf16le("압축된 문단"));
    match inflate(&deflate(&data)) {
        Ok(out) => assert_eq!(out, data),
        Err(e) => panic!("{}", e.message()),
    }
}

#[test]
fn inflate_reports_corrupt_stream() {
    match inflate(&[0xFF, 0xFF, 0xFF]) {
        Err(HwpError::Inflate(m)) => {
            assert!(!m.is_empty());
            assert!(HwpError::Inflate(m.clone()).message().starts_with("hwp 압축 해제 실패: "));
        }
        _ => panic!("corrupt stream inflated"),
    }
}

#[test]
fn section_paths_filters_and_sorts() {
    let entries: Vec<String> = [
        "/BodyText/Section1",
        "/FileHeader",
        "/ViewText/Section0",
        "/BodyText/Section0",
        "/BinData/BIN0001.png",
        "/BodyText",
    ]
    .iter()
    .map(|s| s.to_string())
    .collect();
    assert_eq!(
        section_paths(&entries),
        vec!["/BodyText/Section0", "/BodyText/Section1", "/ViewText/Section0"]
    );
}

#[test]
fn extract_text_uncompressed_sections() {
    let s0 = record(67, &utf16le("하나"));
    let s1 = record(67, &utf16le("둘"));
    let out = extract_text(&header(false), vec![Ok(s0), Ok(s1)]);
    assert_eq!(out.ok(), Some("하나\n\n둘\n\n".to_string()));
}

#[test]
fn extract_text_compressed_sections() {
    let s0 = deflate(&record(67, &utf16le("compressed")));
    let out = extract_text(&header(true), vec![Ok(s0)]);
    assert_eq!(out.ok(), Some("compressed\n\n".to_string()));
}

#[test]
fn extract_text_errors() {
    assert!(matches!(extract_text(&[0u8; 10], vec![]), Err(HwpError::HeaderTooShort)));
    assert!(matches!(extract_text(&header(false), vec![]), Err(HwpError::NoSections)));
    let r = extract_text(&header(false), vec![Ok(vec![]), Err("read failed".to_string())]);
    assert!(matches!(r, Err(HwpError::Stream(ref m)) if m == "read failed"));
    let r = extract_text(&header(true), vec![Ok(vec![0xFF, 0xFF])]);
    assert!(matches!(r, Err(HwpError::Inflate(_))));
}

#[test]
fn error_messages() {
    assert_eq!(HwpError::HeaderTooShort.message(), "FileHeader 너무 짧음");
    assert_eq!(HwpError::NoSections.message(), "hwp 안에 Section 스트림이 없음");
    assert_eq!(HwpError::HeaderMissing("x".to_string()).message(), "FileHeader 누락: x");
    assert_eq!(HwpError::Stream("io".to_string()).message(), "io");
    assert_eq!(HwpError::Inflate("bad".to_string()).message(), "hwp 압축 해제 실패: bad");
}

#[test]
fn compression_is_transparent() {
    let streams = vec![record(67, &utf16le("가나다")), record(67, &utf16le("라마"))];
    let plain = extract_text(&header(false), streams.iter().cloned().map(Ok).collect());
    let packed = extract_text(&header(true), streams.iter().map(|s| Ok(deflate(s))).collect());
    assert_eq!(plain.ok(), packed.ok());
}

#[test]
fn records_prefix_law_example() {
    let a = record(67, &utf16le("kept"));
    let mut ab = a.clone();
    ab.extend(record(67, &utf16le("more")));
    let mut cut = a.clone();
    cut.extend_from_slice(&[0x43, 0x00]);
    assert!(parse_section_records(&ab).starts_with(&parse_section_records(&a)));
    assert_eq!(parse_section_records(&cut), parse_section_records(&a));
}
