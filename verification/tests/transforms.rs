use ayame_core::casing::{case_transform, case_transform_bytes, CaseMode};
use ayame_core::transform::{
    case_to_path, case_to_path_parallel, count_wave, ensure_new_target, grep_lines_to_path,
    grep_lines_to_path_parallel, next_wave, replace_to_path, replace_to_path_parallel,
    transform_started, transform_wave, CaseOptions, GrepLinesOptions, LineRule,
    ParallelReplaceOptions, ReplaceOptions, WAVE_LINES,
};
use ayame_core::{Document, Encoding, Error, OpenOptions};

fn doc_from(bytes: &[u8]) -> Document<'_> {
    Document::open("in.txt".to_string(), bytes, &OpenOptions::default())
}

fn doc_as(bytes: &[u8], enc: Encoding) -> Document<'_> {
    let opts = OpenOptions {
        encoding: Some(enc),
        ..OpenOptions::default()
    };
    Document::open("in.txt".to_string(), bytes, &opts)
}

fn replacing(find: &str, replacement: &str, regex: bool) -> ReplaceOptions {
    ReplaceOptions {
        find: find.into(),
        replacement: replacement.into(),
        regex,
        case_sensitive: true,
    }
}

const TWO_BY_ONE: ParallelReplaceOptions = ParallelReplaceOptions {
    jobs: 2,
    chunk_lines: 1,
};

#[test]
fn literal_replace_uses_streaming_raw_path_and_preserves_eol() {
    let doc = doc_from(b"foo\r\nbar foo\r\nbaz");
    let (out, res) = replace_to_path(&doc, "out", false, &replacing("foo", "qux", false)).unwrap();
    assert_eq!(res.changed_lines, 2);
    assert_eq!(res.replacements, 2);
    assert_eq!(out, b"qux\r\nbar qux\r\nbaz");
    assert_eq!((res.path.as_str(), res.bytes, res.lines), ("out", 17, 3));
}

#[test]
fn regex_replace_decodes_only_changed_lines() {
    let doc = doc_from(b"a1\nb22\nccc\n");
    let (out, res) = replace_to_path(&doc, "out", false, &replacing(r"\d+", "N", true)).unwrap();
    assert_eq!(res.changed_lines, 2);
    assert_eq!(res.replacements, 2);
    assert_eq!(out, b"aN\nbN\nccc\n");
}

#[test]
fn parallel_literal_replace_preserves_order_and_eol() {
    let doc = doc_from(b"foo\r\nkeep\r\nfoo foo\r\n");
    let opts = replacing("foo", "bar", false);
    let (out, res) = replace_to_path_parallel(&doc, "out", false, &opts, &TWO_BY_ONE).unwrap();
    assert_eq!(res.changed_lines, 2);
    assert_eq!(res.replacements, 3);
    assert_eq!(out, b"bar\r\nkeep\r\nbar bar\r\n");
}

#[test]
fn parallel_regex_replace_matches_streaming_replace() {
    let doc = doc_from(b"a1\nb22\nccc\n");
    let opts = replacing(r"\d+", "N", true);
    let (out, res) = replace_to_path_parallel(&doc, "out", false, &opts, &TWO_BY_ONE).unwrap();
    assert_eq!(res.changed_lines, 2);
    assert_eq!(res.replacements, 2);
    assert_eq!(out, b"aN\nbN\nccc\n");
}

#[test]
fn word_case_modes_rewrite_identifier_runs() {
    let convert = |text: &str, mode: CaseMode| {
        let (out, _) = case_transform_bytes(text.as_bytes(), false, mode);
        String::from_utf8(out).unwrap()
    };
    assert_eq!(
        convert("hello_world code", CaseMode::Camel),
        "helloWorld code"
    );
    assert_eq!(convert("helloWorld", CaseMode::Snake), "hello_world");
    assert_eq!(
        convert("HTTPServer v2Beta", CaseMode::Snake),
        "http_server v2_beta"
    );
    assert_eq!(convert("hello-world", CaseMode::Pascal), "HelloWorld");
    assert_eq!(convert("HelloWorld", CaseMode::Kebab), "hello-world");
    assert_eq!(convert("helloWorld", CaseMode::Constant), "HELLO_WORLD");
    assert_eq!(convert("foo--bar", CaseMode::Pascal), "Foo--Bar");
    assert_eq!(
        convert("日本語 snake_case です", CaseMode::Camel),
        "日本語 snakeCase です"
    );
}

#[test]
fn word_case_mode_streams_whole_file() {
    let doc = doc_from(b"user_name\nkeep me\nHTTPServer\n");
    let opts = CaseOptions {
        mode: CaseMode::Camel,
    };
    let (out, res) = case_to_path(&doc, "out", false, &opts).unwrap();
    assert_eq!(res.changed_lines, 2);
    assert_eq!(out, b"userName\nkeep me\nhttpServer\n");
}

#[test]
fn parallel_case_matches_streaming_case() {
    let doc = doc_from(b"foo_bar\nsecond_line\nthird one\n");
    let opts = CaseOptions {
        mode: CaseMode::Pascal,
    };
    let (out, res) = case_to_path_parallel(&doc, "out", false, &opts, &TWO_BY_ONE).unwrap();
    assert_eq!(res.changed_lines, 3);
    assert_eq!(out, b"FooBar\nSecondLine\nThird One\n");
}

#[test]
fn utf16_case_transform_leaves_cjk_units_alone() {
    let bytes = [0xFF, 0xFE, 0x61, 0x30, 0x61, 0x00, 0x0A, 0x00];
    let doc = doc_as(&bytes, Encoding::Utf16Le);
    let opts = CaseOptions {
        mode: CaseMode::Upper,
    };
    let (out, res) = case_to_path(&doc, "out", false, &opts).unwrap();
    assert_eq!(res.changed_lines, 1);
    assert_eq!(out, [0xFF, 0xFE, 0x61, 0x30, 0x41, 0x00, 0x0A, 0x00]);
}

#[test]
fn case_mode_parse_accepts_user_spellings() {
    assert!(matches!(CaseMode::parse("UPPER"), Some(CaseMode::Upper)));
    assert!(matches!(
        CaseMode::parse("camelCase"),
        Some(CaseMode::Camel)
    ));
    assert!(matches!(
        CaseMode::parse("snake_case"),
        Some(CaseMode::Snake)
    ));
    assert!(matches!(
        CaseMode::parse("kebab-case"),
        Some(CaseMode::Kebab)
    ));
    assert!(matches!(
        CaseMode::parse("constant"),
        Some(CaseMode::Constant)
    ));
    assert!(CaseMode::parse("bogus").is_none());
}

#[test]
fn case_transform_skips_shift_jis_trail_bytes() {
    let doc = doc_as(b"\x82\x60 abc\n", Encoding::ShiftJis);
    let opts = CaseOptions {
        mode: CaseMode::Upper,
    };
    let (out, res) = case_to_path(&doc, "out", false, &opts).unwrap();
    assert_eq!(res.changed_lines, 1);
    assert_eq!(out, b"\x82\x60 ABC\n");
}

#[test]
fn shift_jis_literal_replace_skips_trail_byte_matches() {
    let doc = doc_as(b"\x83\x5c path\\file\n", Encoding::ShiftJis);
    let (out, res) = replace_to_path(&doc, "out", false, &replacing("\\", "/", false)).unwrap();
    assert_eq!(res.changed_lines, 1);
    assert_eq!(res.replacements, 1);
    assert_eq!(out, b"\x83\x5c path/file\n");
}

// ---- on worker threads as in one ----

const INPUTS: &[(&[u8], &str)] = &[
    (b"banana\napple\ncherry\ndate\n", "lf"),
    (b"a1\r\nb22\r\nc333\r\n", "crlf"),
    (b"x\ny\r\nz\n", "mixed eol"),
    (b"no-trailing\nlast line", "no final newline"),
    (b"\xEF\xBB\xBFbom1\nbom2\nbom3\n", "utf8 bom"),
    (
        "\u{65e5}a\u{672c}b1\nc2\u{30ab}\u{30ca}\n".as_bytes(),
        "multibyte",
    ),
];

const PAR_VARIANTS: &[(usize, u64)] = &[(0, 1), (1, 1), (2, 1), (2, 1_000_000)];

fn replace_bytes(
    input: &[u8],
    opts: &ReplaceOptions,
    par: Option<ParallelReplaceOptions>,
) -> Vec<u8> {
    let doc = doc_from(input);
    match par {
        None => replace_to_path(&doc, "out", false, opts).unwrap().0,
        Some(p) => {
            replace_to_path_parallel(&doc, "out", false, opts, &p)
                .unwrap()
                .0
        }
    }
}

fn case_bytes(input: &[u8], opts: &CaseOptions, par: Option<ParallelReplaceOptions>) -> Vec<u8> {
    let doc = doc_from(input);
    match par {
        None => case_to_path(&doc, "out", false, opts).unwrap().0,
        Some(p) => {
            case_to_path_parallel(&doc, "out", false, opts, &p)
                .unwrap()
                .0
        }
    }
}

fn grep_bytes(
    input: &[u8],
    opts: &GrepLinesOptions,
    par: Option<ParallelReplaceOptions>,
) -> Vec<u8> {
    let doc = doc_from(input);
    match par {
        None => grep_lines_to_path(&doc, "out", false, opts).unwrap().0,
        Some(p) => {
            grep_lines_to_path_parallel(&doc, "out", false, opts, &p)
                .unwrap()
                .0
        }
    }
}

#[test]
fn parallel_replace_is_byte_identical_to_sequential() {
    let optsets = [replacing("a", "AA", false), replacing(r"\d+", "#", true)];
    for (input, label) in INPUTS {
        for opts in &optsets {
            let seq = replace_bytes(input, opts, None);
            for &(jobs, chunk_lines) in PAR_VARIANTS {
                let got = replace_bytes(
                    input,
                    opts,
                    Some(ParallelReplaceOptions { jobs, chunk_lines }),
                );
                assert_eq!(
                    got, seq,
                    "replace {label} regex={} jobs={jobs} chunk={chunk_lines}",
                    opts.regex
                );
            }
        }
    }
}

#[test]
fn parallel_case_is_byte_identical_to_sequential() {
    for mode in [
        CaseMode::Upper,
        CaseMode::Lower,
        CaseMode::Snake,
        CaseMode::Constant,
    ] {
        let opts = CaseOptions { mode };
        for (input, label) in INPUTS {
            let seq = case_bytes(input, &opts, None);
            for &(jobs, chunk_lines) in PAR_VARIANTS {
                let got = case_bytes(
                    input,
                    &opts,
                    Some(ParallelReplaceOptions { jobs, chunk_lines }),
                );
                assert_eq!(
                    got, seq,
                    "case {label} mode={mode:?} jobs={jobs} chunk={chunk_lines}"
                );
            }
        }
    }
}

#[test]
fn parallel_grep_is_byte_identical_to_sequential() {
    let optsets = [
        GrepLinesOptions {
            query: "a".to_string(),
            regex: false,
            case_sensitive: true,
            whole_word: false,
            overwrite: false,
        },
        GrepLinesOptions {
            query: r"\d".to_string(),
            regex: true,
            case_sensitive: false,
            whole_word: false,
            overwrite: false,
        },
    ];
    for (input, label) in INPUTS {
        for opts in &optsets {
            let seq = grep_bytes(input, opts, None);
            for &(jobs, chunk_lines) in PAR_VARIANTS {
                let got = grep_bytes(
                    input,
                    opts,
                    Some(ParallelReplaceOptions { jobs, chunk_lines }),
                );
                assert_eq!(
                    got, seq,
                    "grep {label} regex={} jobs={jobs} chunk={chunk_lines}",
                    opts.regex
                );
            }
        }
    }
}

#[test]
fn kept_lines_are_those_with_a_match() {
    let grep = |whole_word: bool| GrepLinesOptions {
        query: "err".to_string(),
        regex: false,
        case_sensitive: false,
        whole_word,
        overwrite: false,
    };
    let input = b"err\nterror\nfine\nERR!\n";
    assert_eq!(grep_bytes(input, &grep(false), None), b"err\nterror\nERR!\n");
    assert_eq!(grep_bytes(input, &grep(true), None), b"err\nERR!\n");
}

#[test]
fn transforms_say_why_they_fail() {
    let doc = doc_from(b"a\n");
    let taken = replace_to_path(&doc, "out", true, &replacing("a", "b", false)).unwrap_err();
    assert!(matches!(taken, Error::Conflict(_)));
    let empty = replace_to_path(&doc, "out", false, &replacing("", "b", false)).unwrap_err();
    assert_eq!(empty.message(), "invalid input: replace pattern must not be empty");
    let bad = replace_to_path(&doc, "out", false, &replacing("(", "b", true)).unwrap_err();
    assert!(matches!(bad, Error::InvalidInput(_)));
    let sjis = doc_as(b"a\n", Encoding::ShiftJis);
    let wide = replace_to_path(&sjis, "out", false, &replacing("a", "😀", false)).unwrap_err();
    assert!(matches!(wide, Error::InvalidInput(_)));
    assert!(ensure_new_target("out", false).is_ok());
}

#[test]
fn a_document_without_lines_keeps_its_mark() {
    let doc = doc_from(b"\xEF\xBB\xBF");
    let (out, res) = replace_to_path(&doc, "out", false, &replacing("a", "b", false)).unwrap();
    assert_eq!(out, b"\xEF\xBB\xBF");
    assert_eq!((res.lines, res.changed_lines, res.replacements), (0, 0, 0));
}

#[test]
fn case_is_converted_where_letters_are() {
    assert_eq!(
        case_transform("abc".as_bytes(), Encoding::Utf8, CaseMode::Upper).unwrap(),
        (b"ABC".to_vec(), true)
    );
    assert_eq!(
        case_transform(b"123", Encoding::Utf8, CaseMode::Lower).unwrap(),
        (b"123".to_vec(), false)
    );
}

#[test]
fn replacements_expand_groups() {
    let doc = doc_from(b"key=value\n");
    let opts = replacing(r"(\w+)=(\w+)", "$2=$1", true);
    let (out, _) = replace_to_path(&doc, "out", false, &opts).unwrap();
    assert_eq!(out, b"value=key\n");
}

#[test]
fn lines_are_transformed_some_after_the_other() {
    let doc = doc_from(b"a\nab\nb\naa");
    let opts = replacing("a", "xy", false);
    let (whole, want) = replace_to_path(&doc, "out", false, &opts).unwrap();
    let rule = LineRule::for_replace(doc.encoding(), &opts).unwrap();
    let mut res = transform_started(&doc, "out");
    let mut out = doc.prefix_bytes().to_vec();
    for (from, to) in [(0, 1), (1, 1), (1, 4)] {
        let part = transform_wave(&doc, &rule, &TWO_BY_ONE, from, to).unwrap();
        out.extend_from_slice(&part.bytes);
        count_wave(&mut res, &part);
    }
    assert_eq!(out, whole);
    assert_eq!((res.bytes, res.lines), (want.bytes, want.lines));
    assert_eq!((res.changed_lines, res.replacements), (3, 4));
    assert_eq!((next_wave(&doc, 0), next_wave(&doc, 4)), (4, 4));
    let long = vec![10; WAVE_LINES as usize + 3];
    let doc = doc_from(&long);
    assert_eq!(next_wave(&doc, 1), WAVE_LINES + 1);
    assert_eq!(next_wave(&doc, 3), WAVE_LINES + 3);
}

fn utf16(s: &str, le: bool) -> Vec<u8> {
    s.encode_utf16()
        .flat_map(|u| if le { u.to_le_bytes() } else { u.to_be_bytes() })
        .collect()
}

#[test]
fn utf16_literal_replace_leaves_units_between_alone() {
    // The bytes of "A" lie across U+4142 and U+3000; neither is "A".
    let bytes = utf16("\u{4142}\u{3000}\n", true);
    let doc = doc_as(&bytes, Encoding::Utf16Le);
    let opts = replacing("A", "B", false);
    let (out, res) = replace_to_path(&doc, "out", false, &opts).unwrap();
    assert_eq!((res.replacements, res.changed_lines), (0, 0));
    assert_eq!(out, bytes);
    let (out, res) = replace_to_path_parallel(&doc, "out", false, &opts, &TWO_BY_ONE).unwrap();
    assert_eq!((res.replacements, res.changed_lines), (0, 0));
    assert_eq!(out, bytes);
}

#[test]
fn utf16_literal_replace_works_on_units() {
    for (le, enc) in [(true, Encoding::Utf16Le), (false, Encoding::Utf16Be)] {
        // An occurrence that lies across two units hides none that overlaps it.
        let bytes = utf16("\u{4142}A\u{4141}\u{4100}A\nx\u{4141}\u{4141}\n", le);
        let doc = doc_as(&bytes, enc);
        let (out, res) = replace_to_path(&doc, "out", false, &replacing("A", "<\u{e9}>", false)).unwrap();
        assert_eq!((res.replacements, res.changed_lines), (2, 1));
        assert_eq!(
            out,
            utf16("\u{4142}<\u{e9}>\u{4141}\u{4100}<\u{e9}>\nx\u{4141}\u{4141}\n", le)
        );
        let (out, res) = replace_to_path(&doc, "out", false, &replacing("\u{4141}", "", false)).unwrap();
        assert_eq!((res.replacements, res.changed_lines), (3, 2));
        assert_eq!(out, utf16("\u{4142}A\u{4100}A\nx\n", le));
    }
}

#[test]
fn utf16_lines_are_kept_by_whole_words() {
    let bytes = utf16("xa\na b\n\u{6161}a\na_\n", true);
    let doc = doc_as(&bytes, Encoding::Utf16Le);
    let opts = GrepLinesOptions {
        query: "a".to_string(),
        regex: false,
        case_sensitive: true,
        whole_word: true,
        overwrite: false,
    };
    let (out, _) = grep_lines_to_path(&doc, "out", false, &opts).unwrap();
    assert_eq!(out, utf16("a b\n\u{6161}a\n", true));
}
