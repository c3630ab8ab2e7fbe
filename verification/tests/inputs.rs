use tulya::cli::{parse_hex_string, resolve_input, Args, InputSource, SortMode};

fn args() -> Args {
    Args {
        source: None,
        target: None,
        source_hex: None,
        target_hex: None,
        source_file: None,
        target_file: None,
        version: "v1".to_string(),
        sort: SortMode::Label,
        debug: false,
        show_mapping: false,
        no_color: false,
        summary_only: false,
        quiet: false,
    }
}

#[test]
fn hex_words() {
    assert_eq!(parse_hex_string("48 65 6c 6c 6f"), b"Hello".to_vec());
}

#[test]
fn hex_skips_what_does_not_read() {
    assert_eq!(parse_hex_string("  0a\tFF\n+1 zz 100 - + 0x10 1G -0"), vec![0x0a, 0xff, 0x01]);
}

#[test]
fn hex_leading_zeros_and_case() {
    assert_eq!(parse_hex_string("000ff Ab aB"), vec![0xff, 0xab, 0xab]);
}

#[test]
fn hex_unicode_white_space() {
    assert_eq!(parse_hex_string("41\u{3000}42\u{00A0}43\u{2003}44"), vec![0x41, 0x42, 0x43, 0x44]);
}

#[test]
fn hex_empty() {
    assert!(parse_hex_string("").is_empty());
    assert!(parse_hex_string(" \n\t ").is_empty());
}

#[test]
fn input_priority() {
    let mut a = args();
    a.source_hex = Some("61 62".to_string());
    a.source_file = Some("ignored.bin".to_string());
    a.source = Some("zz".to_string());
    a.target_file = Some("target.bin".to_string());
    a.target = Some("t".to_string());
    let (s, t) = resolve_input(&a);
    match s {
        InputSource::Bytes(b) => assert_eq!(b, vec![0x61, 0x62]),
        InputSource::File(_) => panic!("hex comes first"),
    }
    match t {
        InputSource::File(p) => assert_eq!(p, "target.bin"),
        InputSource::Bytes(_) => panic!("a file comes before text"),
    }
}

#[test]
fn input_text_as_utf8() {
    let mut a = args();
    a.source = Some("héllo".to_string());
    a.target = Some("".to_string());
    let (s, t) = resolve_input(&a);
    match s {
        InputSource::Bytes(b) => assert_eq!(b, "héllo".as_bytes().to_vec()),
        InputSource::File(_) => panic!("text input"),
    }
    match t {
        InputSource::Bytes(b) => assert!(b.is_empty()),
        InputSource::File(_) => panic!("text input"),
    }
}

#[test]
fn hex_white_space_set() {
    assert_eq!(parse_hex_string("41\u{0085}42\u{1680}43\u{205F}44\u{000B}45"), vec![0x41, 0x42, 0x43, 0x44, 0x45]);
    // U+200B (zero width space) is not white space: "41\u{200B}42" is one word, not a byte.
    assert!(parse_hex_string("41\u{200B}42").is_empty());
}
