use ayame_core::patterns::{is_word_byte, is_word_char};
use ayame_core::search::{find_next, find_prev, search, FindOptions, SearchOptions};
use ayame_core::{Document, Encoding, Error, LineIndex, OpenOptions};

fn fixture() -> (Vec<u8>, LineIndex) {
    let mut buf = Vec::new();
    for i in 0..200u64 {
        buf.extend_from_slice(format!("row {i}: value alpha beta\n").as_bytes());
    }
    let idx = LineIndex::build(&buf, 0, 16);
    (buf, idx)
}

#[test]
fn literal_search_maps_line_and_column() {
    let (buf, idx) = fixture();
    let len = buf.len() as u64;
    let opts = SearchOptions {
        query: "alpha".into(),
        max_hits: 1000,
        ..Default::default()
    };
    let res = search(&buf, 0, len, &idx, Encoding::Ascii, &opts).unwrap();
    assert_eq!(res.hits.len(), 200);
    // "row 0: value " is 13 chars, so column 13 on line 0.
    assert_eq!(res.hits[0].line, 0);
    assert_eq!(res.hits[0].column, 13);
}

#[test]
fn case_insensitive_and_regex() {
    let (buf, idx) = fixture();
    let len = buf.len() as u64;
    let ci = SearchOptions {
        query: "ALPHA".into(),
        case_sensitive: false,
        max_hits: 10,
        ..Default::default()
    };
    let res = search(&buf, 0, len, &idx, Encoding::Ascii, &ci).unwrap();
    assert_eq!(res.hits.len(), 10);
    assert!(res.truncated);

    let rx = SearchOptions {
        query: r"row \d+:".into(),
        regex: true,
        max_hits: 1000,
        ..Default::default()
    };
    let res = search(&buf, 0, len, &idx, Encoding::Ascii, &rx).unwrap();
    assert_eq!(res.hits.len(), 200);
}

#[test]
fn next_and_prev() {
    let (buf, idx) = fixture();
    let len = buf.len() as u64;
    let first = find_next(
        &buf,
        0,
        len,
        &idx,
        Encoding::Ascii,
        &FindOptions {
            query: "beta".into(),
            regex: false,
            case_sensitive: true,
            whole_word: false,
            byte: 0,
        },
    )
    .unwrap()
    .unwrap();
    assert_eq!(first.line, 0);
    let next = find_next(
        &buf,
        0,
        len,
        &idx,
        Encoding::Ascii,
        &FindOptions {
            query: "beta".into(),
            regex: false,
            case_sensitive: true,
            whole_word: false,
            byte: first.byte + 1,
        },
    )
    .unwrap()
    .unwrap();
    assert_eq!(next.line, 1);
    let prev = find_prev(
        &buf,
        0,
        &idx,
        Encoding::Ascii,
        &FindOptions {
            query: "beta".into(),
            regex: false,
            case_sensitive: true,
            whole_word: false,
            byte: next.byte,
        },
    )
    .unwrap()
    .unwrap();
    assert_eq!(prev.line, 0);
}

#[test]
fn prev_literal_search_walks_backward_by_chunks() {
    let mut buf = b"needle first\n".to_vec();
    for _ in 0..12 {
        buf.extend_from_slice(b"padding padding padding\n");
    }
    let second_start = buf.len() as u64;
    buf.extend_from_slice(b"needle second\n");
    let idx = LineIndex::build(&buf, 0, 4);

    let q = |byte| FindOptions {
        query: "needle".into(),
        regex: false,
        case_sensitive: true,
        whole_word: false,
        byte,
    };

    let last = find_prev(&buf, 0, &idx, Encoding::Ascii, &q(buf.len() as u64))
        .unwrap()
        .unwrap();
    assert_eq!(last.byte, second_start);

    let first = find_prev(&buf, 0, &idx, Encoding::Ascii, &q(last.byte))
        .unwrap()
        .unwrap();
    assert_eq!(first.line, 0);
}

#[test]
fn prev_literal_search_finds_match_crossing_chunk_boundary() {
    let needle = b"ABCDE";
    let mut buf = vec![b'x'; 67];
    let match_start = 32 - 1;
    buf[match_start..match_start + needle.len()].copy_from_slice(needle);
    let match_start = match_start as u64;
    let idx = LineIndex::build(&buf, 0, 4);

    let hit = find_prev(
        &buf,
        0,
        &idx,
        Encoding::Ascii,
        &FindOptions {
            query: "ABCDE".into(),
            regex: false,
            case_sensitive: true,
            whole_word: false,
            byte: buf.len() as u64,
        },
    )
    .unwrap()
    .unwrap();

    assert_eq!(hit.byte, match_start);
}

#[test]
fn whole_word_filters_substrings() {
    let buf = b"error\nterror\nerror_code\nerror!\n".to_vec();
    let idx = LineIndex::build(&buf, 0, 16);
    let len = buf.len() as u64;
    let opts = SearchOptions {
        query: "error".into(),
        whole_word: true,
        max_hits: 10,
        ..Default::default()
    };
    let res = search(&buf, 0, len, &idx, Encoding::Ascii, &opts).unwrap();
    assert_eq!(
        res.hits.iter().map(|h| h.line).collect::<Vec<_>>(),
        vec![0, 3]
    );
}

fn sjis(text: &str) -> Vec<u8> {
    let (cow, _, err) = encoding_rs::SHIFT_JIS.encode(text);
    assert!(!err, "fixture text must be representable in Shift_JIS");
    cow.into_owned()
}

fn euc_jp(text: &str) -> Vec<u8> {
    let (cow, _, err) = encoding_rs::EUC_JP.encode(text);
    assert!(!err, "fixture text must be representable in EUC-JP");
    cow.into_owned()
}

#[test]
fn shift_jis_literal_rejects_mid_character_match() {
    // "ソ" is 0x83 0x5C in Shift_JIS; its trail byte is ASCII '\'. A raw
    // byte scan for "\" must not report a hit inside the character.
    let mut buf = sjis("ソースコード\n");
    buf.extend_from_slice(b"path\\file\n");
    let idx = LineIndex::build(&buf, 0, 16);
    let len = buf.len() as u64;
    let opts = SearchOptions {
        query: "\\".into(),
        max_hits: 10,
        ..Default::default()
    };
    let res = search(&buf, 0, len, &idx, Encoding::ShiftJis, &opts).unwrap();
    assert_eq!(res.hits.len(), 1, "only the real backslash matches");
    assert_eq!(res.hits[0].line, 1);
    assert_eq!(res.hits[0].column, 4);
    assert_eq!(res.hits[0].byte, sjis("ソースコード\npath").len() as u64);
    assert_eq!(res.hits[0].byte_len, 1);

    // find_prev applies the same boundary validation.
    let prev = find_prev(
        &buf,
        0,
        &idx,
        Encoding::ShiftJis,
        &FindOptions {
            query: "\\".into(),
            regex: false,
            case_sensitive: true,
            whole_word: false,
            byte: len,
        },
    )
    .unwrap()
    .unwrap();
    assert_eq!(prev.line, 1);
}

#[test]
fn shift_jis_whole_word_uses_character_not_trail_byte_boundary() {
    // "ア" is 0x83 0x41 in Shift_JIS. The trail byte is ASCII 'A', but it
    // must not make the following ASCII word look like it has a word-byte
    // prefix.
    let buf = sjis("アword\n");
    let idx = LineIndex::build(&buf, 0, 16);
    let len = buf.len() as u64;
    let res = search(
        &buf,
        0,
        len,
        &idx,
        Encoding::ShiftJis,
        &SearchOptions {
            query: "word".into(),
            whole_word: true,
            max_hits: 10,
            ..Default::default()
        },
    )
    .unwrap();

    assert_eq!(res.hits.len(), 1);
    assert_eq!(res.hits[0].column, 1);
}

#[test]
fn shift_jis_case_insensitive_finds_japanese_text() {
    let buf = sjis("first line\n検索テスト abc\nlast\n");
    let idx = LineIndex::build(&buf, 0, 16);
    let len = buf.len() as u64;
    let opts = SearchOptions {
        query: "テスト".into(),
        case_sensitive: false,
        max_hits: 10,
        ..Default::default()
    };
    let res = search(&buf, 0, len, &idx, Encoding::ShiftJis, &opts).unwrap();
    assert_eq!(res.hits.len(), 1);
    let hit = res.hits[0];
    assert_eq!(hit.line, 1);
    assert_eq!(hit.column, 2); // decoded chars before the match: 検索
    assert_eq!(hit.byte, ("first line\n".len() + sjis("検索").len()) as u64);
    assert_eq!(hit.byte_len, sjis("テスト").len() as u64);

    // ASCII case folding still applies on the decoded path.
    let ci = SearchOptions {
        query: "ABC".into(),
        case_sensitive: false,
        max_hits: 10,
        ..Default::default()
    };
    let res = search(&buf, 0, len, &idx, Encoding::ShiftJis, &ci).unwrap();
    assert_eq!(res.hits.len(), 1);
    assert_eq!(res.hits[0].line, 1);
}

#[test]
fn shift_jis_regex_matches_decoded_text() {
    let buf = sjis("あいう\nエラー: 42\nエラー: xyz\n");
    let idx = LineIndex::build(&buf, 0, 16);
    let len = buf.len() as u64;
    let opts = SearchOptions {
        query: r"エラー: \d+".into(),
        regex: true,
        max_hits: 10,
        ..Default::default()
    };
    let res = search(&buf, 0, len, &idx, Encoding::ShiftJis, &opts).unwrap();
    assert_eq!(res.hits.len(), 1);
    assert_eq!(res.hits[0].line, 1);
    assert_eq!(res.hits[0].column, 0);
    assert_eq!(res.hits[0].byte, sjis("あいう\n").len() as u64);
    assert_eq!(res.hits[0].byte_len, sjis("エラー: 42").len() as u64);
}

#[test]
fn euc_jp_literal_and_decoded_search_paths_find_japanese_text() {
    let buf = euc_jp("first line\n検索テスト abc\nエラー: 42\nlast\n");
    let idx = LineIndex::build(&buf, 0, 16);
    let len = buf.len() as u64;

    let literal = SearchOptions {
        query: "検索".into(),
        max_hits: 10,
        ..Default::default()
    };
    let res = search(&buf, 0, len, &idx, Encoding::EucJp, &literal).unwrap();
    assert_eq!(res.hits.len(), 1);
    assert_eq!(res.hits[0].line, 1);
    assert_eq!(res.hits[0].byte, "first line\n".len() as u64);
    assert_eq!(res.hits[0].byte_len, euc_jp("検索").len() as u64);

    let ci = SearchOptions {
        query: "ABC".into(),
        case_sensitive: false,
        max_hits: 10,
        ..Default::default()
    };
    let res = search(&buf, 0, len, &idx, Encoding::EucJp, &ci).unwrap();
    assert_eq!(res.hits.len(), 1);
    assert_eq!(res.hits[0].line, 1);

    let rx = SearchOptions {
        query: r"エラー: \d+".into(),
        regex: true,
        max_hits: 10,
        ..Default::default()
    };
    let res = search(&buf, 0, len, &idx, Encoding::EucJp, &rx).unwrap();
    assert_eq!(res.hits.len(), 1);
    assert_eq!(res.hits[0].line, 2);
    assert_eq!(
        res.hits[0].byte,
        ("first line\n".len() + euc_jp("検索テスト abc\n").len()) as u64
    );
    assert_eq!(res.hits[0].byte_len, euc_jp("エラー: 42").len() as u64);
}

#[test]
fn shift_jis_find_next_and_prev_step_between_decoded_hits() {
    let buf = sjis("テスト\nほかの行\nテスト再び\n");
    let idx = LineIndex::build(&buf, 0, 16);
    let len = buf.len() as u64;
    let q = |byte: u64| FindOptions {
        query: "テスト".into(),
        regex: false,
        case_sensitive: false,
        whole_word: false,
        byte,
    };
    let first = find_next(&buf, 0, len, &idx, Encoding::ShiftJis, &q(0))
        .unwrap()
        .unwrap();
    assert_eq!(first.line, 0);
    let second = find_next(&buf, 0, len, &idx, Encoding::ShiftJis, &q(first.byte + 1))
        .unwrap()
        .unwrap();
    assert_eq!(second.line, 2);
    let prev = find_prev(&buf, 0, &idx, Encoding::ShiftJis, &q(second.byte))
        .unwrap()
        .unwrap();
    assert_eq!(prev.line, 0);
}

#[test]
fn euc_jp_find_prev_decoded_path_walks_backward_by_lines() {
    let buf = euc_jp("テスト\nほかの行\nテスト再び\n");
    let idx = LineIndex::build(&buf, 0, 16);
    let len = buf.len() as u64;
    let q = |byte: u64| FindOptions {
        query: "テスト".into(),
        regex: false,
        case_sensitive: false,
        whole_word: false,
        byte,
    };
    let last = find_prev(&buf, 0, &idx, Encoding::EucJp, &q(len))
        .unwrap()
        .unwrap();
    assert_eq!(last.line, 2);
    let prev = find_prev(&buf, 0, &idx, Encoding::EucJp, &q(last.byte))
        .unwrap()
        .unwrap();
    assert_eq!(prev.line, 0);
}

fn utf16le(s: &str) -> Vec<u8> {
    s.encode_utf16().flat_map(|u| u.to_le_bytes()).collect()
}

#[test]
fn utf16_literal_search_rejects_misaligned_hits() {
    let buf = utf16le("\u{4142}\u{3000}\n");
    let idx = LineIndex::build_utf16_le(&buf, 0, 16);
    let len = buf.len() as u64;
    let opts = SearchOptions {
        query: "A".into(),
        max_hits: 100,
        ..Default::default()
    };
    let res = search(&buf, 0, len, &idx, Encoding::Utf16Le, &opts).unwrap();
    assert_eq!(res.hits.len(), 0, "misaligned UTF-16 hit must be rejected");

    // A genuinely code-unit-aligned "A" is still found.
    let buf2 = utf16le("A\u{3000}\n");
    let idx2 = LineIndex::build_utf16_le(&buf2, 0, 16);
    let res2 = search(&buf2, 0, buf2.len() as u64, &idx2, Encoding::Utf16Le, &opts).unwrap();
    assert_eq!(res2.hits.len(), 1);
    assert_eq!((res2.hits[0].line, res2.hits[0].column), (0, 0));
}

#[test]
fn utf16_case_insensitive_and_regex_match_via_decode() {
    let buf = utf16le("abc\nX12Y\n");
    let idx = LineIndex::build_utf16_le(&buf, 0, 16);
    let len = buf.len() as u64;

    let ci = SearchOptions {
        query: "ABC".into(),
        case_sensitive: false,
        max_hits: 100,
        ..Default::default()
    };
    let res = search(&buf, 0, len, &idx, Encoding::Utf16Le, &ci).unwrap();
    assert_eq!(res.hits.len(), 1);
    let h = res.hits[0];
    assert_eq!((h.line, h.column, h.byte, h.byte_len), (0, 0, 0, 6));

    let rx = SearchOptions {
        query: r"\d+".into(),
        regex: true,
        max_hits: 100,
        ..Default::default()
    };
    let res = search(&buf, 0, len, &idx, Encoding::Utf16Le, &rx).unwrap();
    assert_eq!(res.hits.len(), 1);
    let h = res.hits[0];
    // Line 1 "X12Y": "12" starts at char 1 -> byte 2 within the line,
    // spans 2 chars -> 4 bytes.
    assert_eq!((h.line, h.column, h.byte_len), (1, 1, 4));
}

fn options(query: &str, regex: bool, case_sensitive: bool) -> SearchOptions {
    SearchOptions {
        query: query.to_string(),
        regex,
        case_sensitive,
        ..Default::default()
    }
}

#[test]
fn searches_say_why_they_fail() {
    let doc = Document::open("x".to_string(), b"abc\n", &OpenOptions::default());
    assert!(matches!(doc.search(&options("", false, true)), Err(Error::Search(_))));
    assert!(matches!(doc.search(&options("(", true, true)), Err(Error::Search(_))));
    let sjis_opts = OpenOptions {
        encoding: Some(Encoding::ShiftJis),
        ..Default::default()
    };
    let doc = Document::open("x".to_string(), b"abc\n", &sjis_opts);
    assert!(matches!(doc.search(&options("😀", false, true)), Err(Error::Search(_))));
}

#[test]
fn a_literal_is_no_pattern() {
    let doc = Document::open("x".to_string(), b"a.c\nabc\nA.C\n", &OpenOptions::default());
    let hits = doc.search(&options("a.c", false, false)).unwrap().hits;
    assert_eq!(hits.iter().map(|h| h.line).collect::<Vec<_>>(), vec![0, 2]);
    let hits = doc.search(&options("a.c", true, true)).unwrap().hits;
    assert_eq!(hits.iter().map(|h| h.line).collect::<Vec<_>>(), vec![0, 1]);
}

#[test]
fn a_search_can_start_further_on_and_stop_early() {
    let doc = Document::open("x".to_string(), b"aa aa aa\n", &OpenOptions::default());
    let mut opts = options("aa", false, true);
    opts.start_byte = 1;
    opts.max_hits = 1;
    let res = doc.search(&opts).unwrap();
    assert!(res.truncated);
    assert_eq!(res.hits[0].byte, 3);
    assert_eq!(res.hits[0].column, 3);
    let prev = doc.find_prev("aa", false, true, false, 6).unwrap().unwrap();
    assert_eq!(prev.byte, 3);
    assert_eq!(doc.find_prev("aa", false, true, false, 0).unwrap().is_none(), true);
}

#[test]
fn patterns_run_over_the_bytes_of_iso_2022_jp() {
    let bytes = Encoding::Iso2022Jp.encode_text("AB日本C\n").unwrap();
    let doc = Document::open("x".to_string(), &bytes, &OpenOptions::default());
    assert_eq!(doc.encoding(), Encoding::Iso2022Jp);
    assert!(doc.search(&options("日.C", true, true)).unwrap().hits.is_empty());
    let hits = doc.search(&options("日本", false, true)).unwrap().hits;
    assert_eq!((hits[0].line, hits[0].column), (0, 2));
    let hits = doc.search(&options("ab", false, false)).unwrap().hits;
    assert_eq!(hits.len(), 1);
    assert_eq!((hits[0].line, hits[0].column, hits[0].byte_len), (0, 0, 2));
}

#[test]
fn hits_come_in_order_and_do_not_overlap() {
    let text = "aaa bb\naa 日本aa\nbaaab\n";
    for e in [Encoding::Utf8, Encoding::ShiftJis, Encoding::EucJp, Encoding::Utf16Le] {
        let bytes = e.encode_text(text).unwrap();
        let open = OpenOptions {
            encoding: Some(e),
            ..Default::default()
        };
        let doc = Document::open("x".to_string(), &bytes, &open);
        for (query, regex, case) in [("aa", false, true), ("a+", true, true), ("AA", false, false)] {
            let all = doc.search(&options(query, regex, case)).unwrap();
            assert_eq!(all.hits.len(), 4, "{query} in {}", e.label());
            assert!(!all.truncated);
            for pair in all.hits.windows(2) {
                assert!(pair[0].byte + pair[0].byte_len <= pair[1].byte);
            }
            for h in &all.hits {
                assert!(h.byte_len > 0);
                assert_eq!(h.line, doc.index().line_of_byte(doc.buf(), h.byte));
            }
            let mut few = options(query, regex, case);
            few.start_byte = all.hits[1].byte;
            few.max_hits = 2;
            let some = doc.search(&few).unwrap();
            assert_eq!(some.hits, all.hits[1..3].to_vec());
            assert!(some.truncated);
        }
    }
}

#[test]
fn word_characters() {
    assert!(is_word_byte(b'_') && is_word_byte(b'7') && !is_word_byte(b'-'));
    assert!(is_word_char('_') && is_word_char('Z') && !is_word_char('!'));
}

#[test]
fn utf16_whole_words_are_told_by_units() {
    let buf = utf16le("xa a \u{6100}a\u{61} \u{6161}a\u{6161} a_\n");
    let idx = LineIndex::build_utf16_le(&buf, 0, 16);
    let opts = SearchOptions {
        query: "a".into(),
        whole_word: true,
        max_hits: 100,
        ..Default::default()
    };
    let res = search(&buf, 0, buf.len() as u64, &idx, Encoding::Utf16Le, &opts).unwrap();
    let columns: Vec<u64> = res.hits.iter().map(|h| h.column).collect();
    assert_eq!(columns, vec![3, 10]);
    let back = FindOptions {
        query: "a".into(),
        regex: false,
        case_sensitive: true,
        whole_word: true,
        byte: buf.len() as u64,
    };
    let prev = find_prev(&buf, 0, &idx, Encoding::Utf16Le, &back).unwrap().unwrap();
    assert_eq!(prev.column, 10);
}

#[test]
fn utf16_hits_are_not_hidden_by_misaligned_ones() {
    let buf = utf16le("\u{4142}\u{4141}\n");
    let idx = LineIndex::build_utf16_le(&buf, 0, 16);
    let opts = SearchOptions {
        query: "\u{4141}".into(),
        max_hits: 100,
        ..Default::default()
    };
    let res = search(&buf, 0, buf.len() as u64, &idx, Encoding::Utf16Le, &opts).unwrap();
    assert_eq!(res.hits.len(), 1);
    assert_eq!((res.hits[0].column, res.hits[0].byte, res.hits[0].byte_len), (1, 2, 2));
}
