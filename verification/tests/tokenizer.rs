use adjmerge::tokenizer::{tokenize, Eol, Line};

fn contents(input: &[u8]) -> Vec<(&str, Eol)> {
    tokenize(input)
        .unwrap()
        .iter()
        .map(|l| (l.content, l.eol))
        .collect()
}

fn reconstruct(lines: &[Line]) -> String {
    let mut out = String::new();
    for line in lines {
        out.push_str(line.content);
        match line.eol {
            Eol::Lf => out.push('\n'),
            Eol::CrLf => out.push_str("\r\n"),
            Eol::Cr => out.push('\r'),
            Eol::Missing => {}
        }
    }
    out
}

#[test]
fn lf_and_crlf() {
    // the only two that matter in practice; bare \r is OS9 legacy
    assert_eq!(
        contents(b"hello\nworld\r\n"),
        vec![("hello", Eol::Lf), ("world", Eol::CrLf)]
    );
}

#[test]
fn empty_and_bare_newline() {
    assert_eq!(contents(b""), vec![]);
    assert_eq!(contents(b"\n"), vec![("", Eol::Lf)]);
}

#[test]
fn missing_trailing_newline() {
    // keep it as Eol::Missing so write-back preserves it byte-for-byte
    assert_eq!(
        contents(b"Aa\nBb"),
        vec![("Aa", Eol::Lf), ("Bb", Eol::Missing)]
    );
}

#[test]
fn cr_only_kept_for_split() {
    assert_eq!(
        contents(b"hello\rworld\r"),
        vec![("hello", Eol::Cr), ("world", Eol::Cr)]
    );
}

#[test]
fn non_utf8_returns_error() {
    let bad = vec![0xFF, 0xFE, b'\n'];
    assert!(tokenize(&bad).is_err());
    match tokenize(&bad) {
        Err(adjmerge::error::MergeError::Utf8 { position, .. }) => assert_eq!(position, 0),
        _ => panic!("expected a utf-8 error"),
    }
}

#[test]
fn utf16_bom_rejected() {
    // UTF-16 LE BOM (0xFF 0xFE) followed by ASCII encoded as UTF-16
    let utf16le = vec![0xFF, 0xFE, b'h', 0x00, b'i', 0x00];
    assert!(tokenize(&utf16le).is_err());
}

#[test]
fn iso_8859_1_rejected() {
    // "café" in ISO-8859-1: 0xE9 is é in Latin-1 but invalid UTF-8
    let latin1 = vec![b'c', b'a', b'f', 0xE9, b'\n'];
    assert!(tokenize(&latin1).is_err());
    match tokenize(&latin1) {
        Err(adjmerge::error::MergeError::Utf8 { position, .. }) => assert_eq!(position, 3),
        _ => panic!("expected a utf-8 error"),
    }
}

#[test]
fn utf8_with_accents_accepted() {
    // "café" properly encoded in UTF-8: é = 0xC3 0xA9
    let utf8 = "café\n".as_bytes();
    let lines = tokenize(utf8).unwrap();
    assert_eq!(lines[0].content, "café");
}

#[test]
fn utf8_multibyte_accepted() {
    // CJK, emoji — valid UTF-8, should tokenize fine
    let utf8 = "hello 世界\n🦀 rust\n".as_bytes();
    let lines = tokenize(utf8).unwrap();
    assert_eq!(lines.len(), 2);
    assert_eq!(lines[0].content, "hello 世界");
    assert_eq!(lines[1].content, "🦀 rust");
}

const SAMPLES: &[&str] = &[
    "",
    "a",
    "\n",
    "\r",
    "\r\n",
    "\n\r",
    "\r\r\n\n",
    "a\r\nb\rc\nd",
    "é\r世\n🦀",
    "line one\nline two\r\n\r\nlast",
    "trailing\r",
];

#[test]
fn roundtrip_on_samples() {
    for s in SAMPLES {
        let lines = tokenize(s.as_bytes()).unwrap();
        assert_eq!(reconstruct(&lines), *s);
    }
}

#[test]
fn no_newlines_in_content_on_samples() {
    for s in SAMPLES {
        for line in tokenize(s.as_bytes()).unwrap() {
            assert!(!line.content.contains('\n'));
            assert!(!line.content.contains('\r'));
        }
    }
}

#[test]
fn last_line_eol_on_samples() {
    for s in SAMPLES.iter().filter(|s| !s.is_empty()) {
        let lines = tokenize(s.as_bytes()).unwrap();
        let last = lines.last().unwrap();
        if s.ends_with('\n') || s.ends_with('\r') {
            assert_ne!(last.eol, Eol::Missing);
        } else {
            assert_eq!(last.eol, Eol::Missing);
        }
    }
}

#[test]
fn crlf_split_across_cr_and_lf_lines() {
    assert_eq!(
        contents(b"\n\r"),
        vec![("", Eol::Lf), ("", Eol::Cr)]
    );
    assert_eq!(
        contents(b"\r\r\n"),
        vec![("", Eol::Cr), ("", Eol::CrLf)]
    );
}

#[test]
fn utf8_error_reports_position() {
    match tokenize(b"ab\xffcd") {
        Err(adjmerge::error::MergeError::Utf8 { position, .. }) => assert_eq!(position, 2),
        _ => panic!("expected a utf-8 error"),
    }
}

#[test]
fn only_last_line_unterminated_and_crlf_is_one() {
    let lines = tokenize(b"a\r\n\rb\r\nc").unwrap();
    let eols: Vec<Eol> = lines.iter().map(|l| l.eol).collect();
    assert_eq!(eols, vec![Eol::CrLf, Eol::Cr, Eol::CrLf, Eol::Missing]);
    let texts: Vec<&str> = lines.iter().map(|l| l.content).collect();
    assert_eq!(texts, vec!["a", "", "b", "c"]);
}
