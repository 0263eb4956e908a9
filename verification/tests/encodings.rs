use ayame_core::detect::detect;
use ayame_core::eol::{detect_eol, detect_eol_for};
use ayame_core::walk::{iso2022jp_char_span, iso2022jp_col_offset};
use ayame_core::{Document, EditSession, Encoding, Eol, OpenOptions};

fn enc(e: Encoding, s: &str) -> Vec<u8> {
    e.encode_text(s).expect("representable")
}

fn open(bytes: &[u8]) -> Document<'_> {
    Document::open("x.txt".to_string(), bytes, &OpenOptions::default())
}

fn open_as(bytes: &[u8], enc: Encoding) -> Document<'_> {
    let opts = OpenOptions {
        encoding: Some(enc),
        ..Default::default()
    };
    Document::open("x.txt".to_string(), bytes, &opts)
}

#[test]
fn detects_ascii_and_utf8() {
    assert_eq!(detect(b"hello world\n", None), (Encoding::Utf8, 0));
    let (e, b) = detect("日本語のテキスト\n".as_bytes(), None);
    assert_eq!((e, b), (Encoding::Utf8, 0));
}

#[test]
fn detects_utf8_bom() {
    let mut v = vec![0xEF, 0xBB, 0xBF];
    v.extend_from_slice("あ\n".as_bytes());
    assert_eq!(detect(&v, None), (Encoding::Utf8, 3));
}

#[test]
fn detects_shift_jis() {
    let (cow, _, err) = encoding_rs::SHIFT_JIS.encode("日本語テキストのサンプルです。");
    assert!(!err);
    let (enc, bom) = detect(&cow, None);
    assert_eq!(bom, 0);
    assert_eq!(enc, Encoding::ShiftJis);
    assert_eq!(enc.decode_line(&cow), "日本語テキストのサンプルです。");
}

#[test]
fn detects_euc_jp() {
    let bytes = enc(Encoding::EucJp, "日本語テキストのサンプルです。これはテストです。");
    assert_eq!(detect(&bytes, None), (Encoding::EucJp, 0));
}

#[test]
fn decode_line_capped_cuts_on_a_utf8_char_boundary() {
    let s = "あ".repeat(10);
    let (text, truncated) = Encoding::Utf8.decode_line_capped(s.as_bytes(), 10);
    assert!(truncated);
    assert_eq!(text, "あああ", "the cut backs off a split character");
    let (full, truncated) = Encoding::Utf8.decode_line_capped(s.as_bytes(), 30);
    assert!(!truncated);
    assert_eq!(full, s);
}

#[test]
fn count_chars_matches_a_full_decode() {
    let utf8 = "abcあいうえおxyz日本語";
    assert_eq!(
        Encoding::Utf8.count_chars(utf8.as_bytes()),
        utf8.chars().count() as u64
    );
    let big = format!("{}終", "字".repeat(20_000));
    let (sjis, _, err) = encoding_rs::SHIFT_JIS.encode(&big);
    assert!(!err);
    assert_eq!(
        Encoding::ShiftJis.count_chars(&sjis),
        Encoding::ShiftJis.decode_line(&sjis).chars().count() as u64
    );
}

#[test]
fn detects_bomless_utf16_by_nul_parity() {
    let text = "hello utf-16 world without any byte order mark here\n".repeat(4);
    let le: Vec<u8> = text.encode_utf16().flat_map(|u| u.to_le_bytes()).collect();
    assert_eq!(detect(&le, None), (Encoding::Utf16Le, 0));
    let be: Vec<u8> = text.encode_utf16().flat_map(|u| u.to_be_bytes()).collect();
    assert_eq!(detect(&be, None), (Encoding::Utf16Be, 0));
    assert_eq!(detect(&[0u8; 64], None).0, Encoding::Utf8);
}

#[test]
fn detects_iso_2022_jp_but_not_terminal_escapes() {
    let (jis, _, err) = encoding_rs::ISO_2022_JP.encode("日本語のテスト\nplain ascii line\n");
    assert!(!err);
    assert_eq!(detect(&jis, None), (Encoding::Iso2022Jp, 0));
    let first = &jis[..jis.iter().position(|&b| b == b'\n').unwrap()];
    assert_eq!(Encoding::Iso2022Jp.decode_line(first), "日本語のテスト");
    let log = b"\x1b[31merror\x1b[0m done \x1b(B still ascii\n";
    assert_eq!(detect(log, None), (Encoding::Utf8, 0));
}

#[test]
fn iso2022jp_col_offset_walks_designation_escapes() {
    let (bytes, _, err) = encoding_rs::ISO_2022_JP.encode("AB日本C");
    assert!(!err);
    assert_eq!(Encoding::Iso2022Jp.decode_line(&bytes), "AB日本C");
    assert_eq!(iso2022jp_col_offset(&bytes, 0), Some(0));
    assert_eq!(iso2022jp_col_offset(&bytes, 1), Some(1));
    assert_eq!(iso2022jp_col_offset(&bytes, 2), Some(2));
    assert_eq!(iso2022jp_col_offset(&bytes, 4), Some(9));
    assert_eq!(iso2022jp_col_offset(&bytes, 5), Some(bytes.len()));
    assert_eq!(iso2022jp_col_offset(&bytes, 6), None);
    let (off, len) = iso2022jp_char_span(&bytes, 2, 2);
    assert_eq!(
        Encoding::Iso2022Jp.decode_line(&bytes[off..off + len]),
        "日本"
    );
}

#[test]
fn labels_round_trip_through_cli_parse() {
    for enc in [
        Encoding::Utf8,
        Encoding::ShiftJis,
        Encoding::EucJp,
        Encoding::Ascii,
    ] {
        assert_eq!(Encoding::parse(enc.label()), Some(enc));
    }
    for enc in [Encoding::Iso2022Jp, Encoding::Utf16Le, Encoding::Utf16Be] {
        assert_eq!(Encoding::parse(enc.label()), Some(enc));
    }
    assert_eq!(Encoding::parse("latin1"), None);
}

#[test]
fn eol_detection() {
    assert_eq!(detect_eol(b"a\nb\n"), Eol::Lf);
    assert_eq!(detect_eol(b"a\r\nb\r\n"), Eol::Crlf);
    assert_eq!(detect_eol(b"a\rb\r"), Eol::Cr);
    assert_eq!(detect_eol(b"a\r\nb\nc"), Eol::Mixed);
    assert_eq!(detect_eol(b"no newline"), Eol::Absent);
}

#[test]
fn wide_line_ends_are_told_from_characters() {
    let le = |s: &str| -> Vec<u8> { s.encode_utf16().flat_map(|u| u.to_le_bytes()).collect() };
    assert_eq!(detect_eol_for(&le("a\nb\n"), Encoding::Utf16Le), Eol::Lf);
    assert_eq!(detect_eol_for(&le("a\r\nb\r\n"), Encoding::Utf16Le), Eol::Crlf);
    assert_eq!(detect_eol_for(&le("a\rb"), Encoding::Utf16Le), Eol::Cr);
    assert_eq!(detect_eol_for(&le("\u{0A0D}\u{0D0A}"), Encoding::Utf16Le), Eol::Absent);
    assert_eq!(detect_eol_for(b"a\r\nb", Encoding::Utf8), Eol::Crlf);
}

#[test]
fn override_wins_but_keeps_bom() {
    let mut v = vec![0xEF, 0xBB, 0xBF];
    v.extend_from_slice(b"abc\n");
    assert_eq!(
        detect(&v, Some(Encoding::ShiftJis)),
        (Encoding::ShiftJis, 3)
    );
}

#[test]
fn malformed_bytes_are_shown_as_replacements() {
    assert_eq!(Encoding::Utf8.decode_line(b"a\xFFb"), "a\u{FFFD}b");
    assert_eq!(Encoding::Utf16Le.decode_line(&[0x00, 0xD8, b'a', 0]), "\u{FFFD}a");
}

#[test]
fn queries_are_encoded_like_texts() {
    assert_eq!(
        Encoding::ShiftJis.encode_query("日本"),
        Some(vec![0x93, 0xfa, 0x96, 0x7b])
    );
    assert_eq!(Encoding::ShiftJis.encode_query("😀"), None);
    assert_eq!(Encoding::Utf16Be.encode_query("a"), Some(vec![0, b'a']));
}

#[test]
fn encode_then_decode_is_lossless_for_representable_text() {
    let sample = "日本語ABC123 かな カナ 漢字";
    for e in [Encoding::Utf8, Encoding::ShiftJis, Encoding::EucJp] {
        let bytes = enc(e, sample);
        assert_eq!(e.decode_line(&bytes), sample, "{} round-trip", e.label());
    }
    for e in [Encoding::Utf16Le, Encoding::Utf16Be] {
        let bytes = enc(e, sample);
        assert_eq!(e.decode_line(&bytes), sample, "{} round-trip", e.label());
    }
    let ascii = "plain ascii 42";
    assert_eq!(
        Encoding::Ascii.decode_line(&enc(Encoding::Ascii, ascii)),
        ascii
    );
}

#[test]
fn untouched_save_preserves_euc_jp_bytes_verbatim() {
    let mut input = Vec::new();
    input.extend(enc(Encoding::EucJp, "日本語"));
    input.push(b'\n');
    input.extend(enc(Encoding::EucJp, "ひらがな"));
    input.push(b'\n');
    let doc = open_as(&input, Encoding::EucJp);
    assert_eq!(EditSession::default().write_stream(&doc).unwrap(), input);
}

#[test]
fn editing_one_line_leaves_neighbouring_shift_jis_bytes_byte_identical() {
    let l0 = enc(Encoding::ShiftJis, "日本語");
    let l2 = enc(Encoding::ShiftJis, "カタカナ");
    let mut input = Vec::new();
    input.extend(&l0);
    input.push(b'\n');
    input.extend(enc(Encoding::ShiftJis, "まんなか"));
    input.push(b'\n');
    input.extend(&l2);
    input.push(b'\n');

    let doc = open_as(&input, Encoding::ShiftJis);
    let mut edits = EditSession::default();
    edits.replace_line(&doc, 1, "REPLACED".to_string()).unwrap();

    let mut expected = Vec::new();
    expected.extend(&l0);
    expected.push(b'\n');
    expected.extend(b"REPLACED");
    expected.push(b'\n');
    expected.extend(&l2);
    expected.push(b'\n');
    assert_eq!(edits.write_stream(&doc).unwrap(), expected);
}

#[test]
fn utf16_le_document_with_bom_round_trips_byte_for_byte() {
    let mut input = Vec::new();
    input.extend(Encoding::Utf16Le.bom());
    input.extend(enc(Encoding::Utf16Le, "hello\nworld\n"));
    let doc = open(&input);
    assert_eq!(doc.encoding(), Encoding::Utf16Le, "detected as utf-16le");
    assert_eq!(EditSession::default().write_stream(&doc).unwrap(), input);
}

#[test]
fn unrepresentable_characters_are_rejected_by_the_encoder() {
    assert!(
        Encoding::ShiftJis.encode_text("😀").is_none(),
        "shift_jis cannot hold this emoji"
    );
    assert!(
        Encoding::EucJp.encode_text("😀").is_none(),
        "euc-jp cannot hold this emoji"
    );
    assert!(
        Encoding::Ascii.encode_text("日本語").is_some(),
        "ascii label encodes as utf-8 rather than rejecting"
    );
}

#[test]
fn convert_to_narrow_codec_aborts_and_leaves_no_output_when_unrepresentable() {
    let bytes = "ok line\n😀 emoji here\n".as_bytes();
    let doc = open(bytes);
    let edits = EditSession::default();
    let result = edits.save_converted(&doc, Encoding::ShiftJis, Eol::Lf, false);
    assert!(
        result.is_err(),
        "convert to shift_jis must fail on the emoji"
    );
}

#[test]
fn convert_utf8_to_shift_jis_matches_expected_bytes() {
    let bytes = "日本語\nABC\n".as_bytes();
    let doc = open(bytes);
    let edits = EditSession::default();
    let out = edits
        .save_converted(&doc, Encoding::ShiftJis, Eol::Lf, false)
        .unwrap();
    let mut expected = Vec::new();
    expected.extend(enc(Encoding::ShiftJis, "日本語"));
    expected.push(b'\n');
    expected.extend(b"ABC");
    expected.push(b'\n');
    assert_eq!(out, expected, "utf8 -> shift_jis convert");
}

#[test]
fn convert_can_add_a_utf8_bom_and_switch_eol() {
    let doc = open(b"a\nb\n");
    let edits = EditSession::default();
    let out = edits
        .save_converted(&doc, Encoding::Utf8, Eol::Crlf, true)
        .unwrap();
    assert_eq!(out, b"\xEF\xBB\xBFa\r\nb\r\n".to_vec());
}

#[test]
fn names_of_encodings_are_read_loosely() {
    for name in ["shift_jis", "Shift-JIS", "  SHIFT JIS\t", "shiftjis", "Sj-Is"] {
        assert_eq!(Encoding::parse(name), Some(Encoding::ShiftJis), "{name}");
    }
    assert_eq!(Encoding::parse("utf\t8"), None);
}

#[test]
fn a_text_has_one_line_ending_in_every_encoding() {
    for text in ["a\nb\n", "a\r\nb", "日\r本\r", "a\r\n\r", "\u{a0d}\u{d0a}", "😀\r\n\n", ""] {
        let want = detect_eol(text.as_bytes());
        for e in [Encoding::Utf16Le, Encoding::Utf16Be] {
            assert_eq!(detect_eol_for(&enc(e, text), e), want, "{text:?}");
        }
    }
}

#[test]
fn kana_and_ideographs_are_read_back_from_legacy_bytes() {
    for e in [Encoding::ShiftJis, Encoding::EucJp] {
        let mut kana: String = (0u8..128).map(char::from).collect();
        for (a, b) in [(0x3000, 0x3002), (0x3041, 0x3093), (0x30A1, 0x30F6), (0xFF61, 0xFF9F)] {
            kana.extend((a..=b).filter_map(char::from_u32));
        }
        assert_eq!(e.decode_line(&enc(e, &kana)), kana);
        let mut mapped = String::new();
        for c in (0x4E00..=0x9FA0).filter_map(char::from_u32) {
            if e.encode_text(&c.to_string()).is_some() {
                mapped.push(c);
            }
        }
        // The ideographs of the two levels, one on the row of symbols, and more.
        assert!(mapped.chars().count() > 2965 + 3390);
        assert_eq!(e.decode_line(&enc(e, &mapped)), mapped);
        // Others share their bytes with a character that looks like them.
        assert_eq!(e.decode_line(&enc(e, "\u{A5}\u{203E}")), "\\~");
    }
}
