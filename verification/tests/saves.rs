use ayame_core::release::checksum_line;
use ayame_core::save::{converted_bom, SavePiece};
use ayame_core::session::check_save_target;
use ayame_core::split::{
    check_part, naming, part_bytes, part_file_name, part_width, split_by_lines, SplitResult,
};
use ayame_core::wal::BatchEdit;
use ayame_core::{Document, EditSession, Encoding, Eol, Error, OpenOptions};

fn open(bytes: &[u8]) -> Document<'_> {
    Document::open("input.log".to_string(), bytes, &OpenOptions::default())
}

fn open_as(bytes: &[u8], enc: Encoding) -> Document<'_> {
    let opts = OpenOptions {
        encoding: Some(enc),
        ..Default::default()
    };
    Document::open("input.log".to_string(), bytes, &opts)
}

fn assert_untouched_roundtrip(input: &[u8], label: &str) {
    let doc = open(input);
    let edits = EditSession::default();
    let got = edits.write_stream(&doc).unwrap();
    assert_eq!(got, input, "{label}");
    assert_eq!(
        checksum_line("roundtrip", &got),
        checksum_line("roundtrip", input),
        "{label}: checksum mismatch"
    );
}

#[test]
fn untouched_save_is_byte_identical_across_eol_and_bom() {
    assert_untouched_roundtrip(b"one\ntwo\nthree\n", "lf trailing newline");
    assert_untouched_roundtrip(b"one\ntwo\nthree", "lf no trailing newline");
    assert_untouched_roundtrip(b"one\r\ntwo\r\nthree\r\n", "crlf");
    assert_untouched_roundtrip(b"one\r\ntwo\r\nthree", "crlf no trailing newline");
    assert_untouched_roundtrip(b"a\nb\r\nc\nd\r\n", "mixed lf/crlf");
    assert_untouched_roundtrip(b"\xEF\xBB\xBFwith bom\nsecond\n", "utf-8 bom");
    assert_untouched_roundtrip(b"only one line no newline", "single line no newline");
    assert_untouched_roundtrip(b"\n", "single empty line");
    assert_untouched_roundtrip(b"\n\n\n", "blank lines");
    assert_untouched_roundtrip(b"", "empty file");
}

#[test]
fn untouched_save_preserves_shift_jis_bytes_verbatim() {
    let sjis = b"\x93\xfa\x96\x7b\x8c\xea\nascii tail\n";
    let doc = open_as(sjis, Encoding::ShiftJis);
    let edits = EditSession::default();
    assert_eq!(edits.write_stream(&doc).unwrap(), sjis.to_vec());
}

#[test]
fn edited_line_save_matches_expected_bytes_lf() {
    let doc = open(b"one\ntwo\nthree\n");
    let mut edits = EditSession::default();
    edits.replace_line(&doc, 1, "TWO".to_string()).unwrap();
    assert_eq!(edits.write_stream(&doc).unwrap(), b"one\nTWO\nthree\n");
}

#[test]
fn edited_line_save_preserves_crlf_on_the_replaced_line() {
    let doc = open(b"a\r\nb\r\nc\r\n");
    let mut edits = EditSession::default();
    edits.replace_line(&doc, 0, "AA".to_string()).unwrap();
    assert_eq!(edits.write_stream(&doc).unwrap(), b"AA\r\nb\r\nc\r\n");
}

#[test]
fn inserted_line_uses_the_documents_default_terminator() {
    let doc = open(b"one\ntwo\n");
    let mut edits = EditSession::default();
    edits
        .insert_line_before(&doc, 0, "zero".to_string())
        .unwrap();
    assert_eq!(edits.write_stream(&doc).unwrap(), b"zero\none\ntwo\n");
}

#[test]
fn edit_that_keeps_missing_final_newline_is_byte_exact() {
    let doc = open(b"first\nlast-no-nl");
    let mut edits = EditSession::default();
    edits.replace_line(&doc, 0, "FIRST".to_string()).unwrap();
    assert_eq!(edits.write_stream(&doc).unwrap(), b"FIRST\nlast-no-nl");
}

#[test]
fn save_to_path_refuses_to_clobber_an_existing_target() {
    assert!(check_save_target("exists.out", true, false).is_err());
    assert!(check_save_target("exists.out", true, true).is_ok());
    assert!(check_save_target("new.out", false, false).is_ok());
}

// ---- splitting ----

fn split(doc: &Document, per: u64, name: &str) -> (SplitResult, Vec<Vec<u8>>) {
    let res = split_by_lines(doc, per, name).unwrap();
    let parts = (1..=res.count).map(|p| part_bytes(doc, per, p).to_vec()).collect();
    (res, parts)
}

#[test]
fn refuses_zero_lines_per_file() {
    let doc = open(b"a\nb\n");
    assert!(split_by_lines(&doc, 0, "input.log").is_err());
}

#[test]
fn refuses_a_document_without_lines() {
    let doc = open(b"");
    let e = split_by_lines(&doc, 3, "input.log").unwrap_err();
    assert_eq!(e.message(), "unsupported: the file has no lines to split");
}

#[test]
fn exact_multiple_splits_evenly() {
    let doc = open(b"1\n2\n3\n4\n5\n6\n");
    let (res, parts) = split(&doc, 2, "input.log");
    assert_eq!(res.count, 3);
    assert_eq!(res.total_lines, 6);
    assert_eq!(res.files.len(), 3);
    assert_eq!(res.files[0], "input.part0001.log");
    assert_eq!(parts[0], b"1\n2\n");
    assert_eq!(parts[1], b"3\n4\n");
    assert_eq!(parts[2], b"5\n6\n");
}

#[test]
fn remainder_lands_in_a_shorter_last_part() {
    let doc = open(b"1\n2\n3\n4\n5\n");
    let (res, parts) = split(&doc, 2, "input.log");
    assert_eq!(res.count, 3);
    assert_eq!(parts[2], b"5\n");
    assert_eq!(parts.concat(), b"1\n2\n3\n4\n5\n");
}

#[test]
fn single_part_when_lines_cover_the_whole_file() {
    let input = b"a\nb\nc";
    let doc = open(input);
    let (res, parts) = split(&doc, 10, "input.log");
    assert_eq!(res.count, 1);
    assert_eq!(parts[0], input);
}

#[test]
fn crlf_terminators_are_preserved() {
    let input = b"one\r\ntwo\r\nthree\r\nfour";
    let doc = open(input);
    let (res, parts) = split(&doc, 3, "input.log");
    assert_eq!(res.count, 2);
    assert_eq!(parts[0], b"one\r\ntwo\r\nthree\r\n");
    assert_eq!(parts[1], b"four");
    assert_eq!(parts.concat(), input);
}

#[test]
fn shift_jis_bytes_are_copied_verbatim() {
    let input: &[u8] = b"\x82\xa0\x82\xa2\n\x82\xa4\x82\xa6\n\x82\xa9";
    let doc = open_as(input, Encoding::ShiftJis);
    let (res, parts) = split(&doc, 1, "input.log");
    assert_eq!(res.count, 3);
    assert_eq!(parts[0], b"\x82\xa0\x82\xa2\n");
    assert_eq!(parts.concat(), input);
}

#[test]
fn bom_goes_only_into_the_first_part() {
    let input = b"\xef\xbb\xbfalpha\nbeta\ngamma\n";
    let doc = open(input);
    let (res, parts) = split(&doc, 2, "input.log");
    assert_eq!(res.count, 2);
    assert!(parts[0].starts_with(b"\xef\xbb\xbf"), "part 1 keeps the BOM");
    assert!(
        !parts[1].starts_with(b"\xef\xbb\xbf"),
        "part 2 must not gain a BOM"
    );
    assert_eq!(parts.concat(), input);
}

#[test]
fn default_dir_is_next_to_the_source_and_name_can_be_overridden() {
    let doc = open(b"x\ny\n");
    let (res, _) = split(&doc, 1, "orig.csv");
    assert_eq!(res.count, 2);
    assert_eq!(res.files[0], "orig.part0001.csv");
}

#[test]
fn refuses_to_overwrite_and_cleans_up_created_parts() {
    assert!(check_part("out/input.part0001.log", false).is_ok());
    let err = check_part("out/input.part0002.log", true).unwrap_err();
    assert!(err.message().contains("already exists"));
    assert!(matches!(err, Error::Unsupported(_)));
}

#[test]
fn part_numbers_widen_past_four_digits() {
    assert_eq!(part_width(1), 4);
    assert_eq!(part_width(9_999), 4);
    assert_eq!(part_width(10_000), 5);
    assert_eq!(part_file_name("a", ".log", 7, 4), "a.part0007.log");
    assert_eq!(part_file_name("a", "", 12_345, 5), "a.part12345");
}

#[test]
fn names_fall_into_stem_and_extension() {
    assert_eq!(naming("a.tar.gz"), ("a.tar".to_string(), ".gz".to_string()));
    assert_eq!(naming(".hidden"), (".hidden".to_string(), String::new()));
    assert_eq!(naming("plain"), ("plain".to_string(), String::new()));
}

fn split_concat(input: &[u8], lines_per_file: u64) -> Vec<u8> {
    let doc = open(input);
    let (res, parts) = split(&doc, lines_per_file, "input.log");
    assert!(
        res.files.len() as u64 == res.count,
        "test inputs must stay under the reported-files cap"
    );
    parts.concat()
}

#[test]
fn split_parts_concatenate_back_to_the_source() {
    let cases: &[(&[u8], u64, &str)] = &[
        (b"a\nb\nc\nd\n", 2, "even division"),
        (b"a\nb\nc\nd\ne\n", 2, "with remainder"),
        (b"a\r\nb\r\nc\r\nd\r\n", 2, "crlf"),
        (b"\xEF\xBB\xBFa\nb\nc\nd\n", 2, "bom only in first part"),
        (b"a\nb\nc", 1, "no final newline"),
    ];
    for &(input, per, label) in cases {
        assert_eq!(split_concat(input, per), input, "split concat: {label}");
    }
}

#[test]
fn a_new_last_line_after_an_open_end_gets_a_terminator() {
    let doc = open(b"a\nb");
    let mut edits = EditSession::default();
    edits.delete_line(&doc, 1).unwrap();
    edits.insert_line_before(&doc, 1, "c".into()).unwrap();
    assert_eq!(edits.total_lines(&doc), 2);
    assert_eq!(edits.write_stream(&doc).unwrap(), b"a\nc\n");
}

#[test]
fn each_edit_leaves_the_bytes_of_other_lines_alone() {
    // Bytes that are no UTF-8, and mixed terminators.
    let doc = open(b"\xFFa\r\nb\n\xFFc\r\nd\n\xFFe");
    let mut edits = EditSession::default();
    edits.replace_range(&doc, 1, 0, 1, 1, "B\nX").unwrap();
    assert_eq!(edits.write_stream(&doc).unwrap(), b"\xFFa\r\nB\nX\n\xFFc\r\nd\n\xFFe");
    edits.delete_line(&doc, 4).unwrap();
    assert_eq!(edits.write_stream(&doc).unwrap(), b"\xFFa\r\nB\nX\n\xFFc\r\n\xFFe");
}

#[test]
fn untouched_lines_are_saved_without_a_copy() {
    let bytes = b"\xEF\xBB\xBFa\r\nb\nc\nd";
    let doc = open(bytes);
    let mut edits = EditSession::default();
    edits.replace_line(&doc, 1, "B".into()).unwrap();
    edits.insert_line_before(&doc, 4, "e".into()).unwrap();
    let pieces = edits.write_pieces(&doc).unwrap();
    let copied: usize = pieces
        .iter()
        .map(|p| match p {
            SavePiece::Copied(b) => b.len(),
            SavePiece::Written(_) => 0,
        })
        .sum();
    assert_eq!(copied, bytes.len() - 2, "all but the replaced line");
    let joined: Vec<u8> = pieces.iter().flat_map(|p| p.bytes().to_vec()).collect();
    assert_eq!(joined, edits.write_stream(&doc).unwrap());
    assert_eq!(joined, b"\xEF\xBB\xBFa\r\nB\nc\nd\ne\n");
}

#[test]
fn conversions_can_be_written_in_parts() {
    let doc = open("日\n本\nx".as_bytes());
    let mut edits = EditSession::default();
    edits.replace_line(&doc, 2, "語".into()).unwrap();
    let whole = edits.save_converted(&doc, Encoding::ShiftJis, Eol::Crlf, false).unwrap();
    let mut parts = converted_bom(Encoding::ShiftJis, false);
    for i in 0..3 {
        parts.extend(edits.convert_lines(&doc, Encoding::ShiftJis, Eol::Crlf, i, i + 1).unwrap());
    }
    assert_eq!(parts, whole);
    assert_eq!(converted_bom(Encoding::Utf8, true), b"\xEF\xBB\xBF");
    edits.replace_line(&doc, 1, "😀".into()).unwrap();
    assert!(edits.convert_lines(&doc, Encoding::ShiftJis, Eol::Crlf, 0, 1).is_ok());
    let e = edits.convert_lines(&doc, Encoding::ShiftJis, Eol::Crlf, 0, 3).unwrap_err();
    assert!(e.message().contains("line 2 has characters"), "{e:?}");
}

#[test]
fn a_batch_leaves_the_lines_around_its_edits_alone() {
    let doc = open(b"\xFFa\r\nb\n\xFFc\r\nd\n\xFFe\r\nf");
    let mut edits = EditSession::default();
    let batch = [
        BatchEdit {
            l0: 1,
            c0: 0,
            l1: 1,
            c1: 1,
            text: "B".into(),
        },
        BatchEdit {
            l0: 3,
            c0: 1,
            l1: 5,
            c1: 0,
            text: "X\nY".into(),
        },
    ];
    edits.replace_batch(&doc, &batch).unwrap();
    assert_eq!(edits.write_stream(&doc).unwrap(), b"\xFFa\r\nB\n\xFFc\r\ndX\nYf\n");
    assert!(edits.undo());
    assert_eq!(edits.write_stream(&doc).unwrap(), doc.buf());
}
