use ayame_core::wal::BatchEdit;
use ayame_core::{Document, EditSession, Encoding, Eol, Error, OpenOptions};

fn doc_from(bytes: &[u8]) -> Document<'_> {
    Document::open("doc.txt".to_string(), bytes, &OpenOptions::default())
}

fn doc_from_with_options<'a>(bytes: &'a [u8], opts: &OpenOptions) -> Document<'a> {
    Document::open("doc.txt".to_string(), bytes, opts)
}

fn view(session: &EditSession, doc: &Document) -> Vec<String> {
    let n = session.total_lines(doc);
    (0..n)
        .map(|i| session.line(doc, i).map(|l| l.text).unwrap_or_default())
        .collect()
}

#[test]
fn line_overlay_replaces_inserts_and_deletes() {
    let doc = doc_from(b"a\nb\nc\n");
    let mut edits = EditSession::default();
    edits.replace_line(&doc, 1, "B".into()).unwrap();
    edits.insert_line_before(&doc, 2, "x".into()).unwrap();
    edits.delete_line(&doc, 0).unwrap();
    let lines: Vec<_> = edits
        .lines(&doc, 0, 10)
        .into_iter()
        .map(|l| l.text)
        .collect();
    assert_eq!(lines, vec!["B", "x", "c"]);
    let st = edits.stats(&doc);
    assert_eq!(st.total_lines, 3);
    assert_eq!(st.replaced_lines, 1);
    assert_eq!(st.inserted_lines, 1);
    assert_eq!(st.deleted_lines, 1);
}

#[test]
fn save_converted_changes_encoding_and_eol() {
    // UTF-8 source with LF endings → Shift_JIS with CRLF endings.
    let doc = doc_from("あ\nいう\n".as_bytes());
    let edits = EditSession::default();
    let out = edits
        .save_converted(&doc, Encoding::ShiftJis, Eol::Crlf, false)
        .unwrap();
    let mut expect = Vec::new();
    expect.extend_from_slice(&Encoding::ShiftJis.encode_text("あ").unwrap());
    expect.extend_from_slice(b"\r\n");
    expect.extend_from_slice(&Encoding::ShiftJis.encode_text("いう").unwrap());
    expect.extend_from_slice(b"\r\n");
    assert_eq!(out, expect);
}

#[test]
fn save_converted_preserves_missing_final_newline() {
    let doc = doc_from(b"a\nb");
    let edits = EditSession::default();
    let out = edits
        .save_converted(&doc, Encoding::Utf8, Eol::Crlf, false)
        .unwrap();
    assert_eq!(out, b"a\r\nb");
}

#[test]
fn save_converted_applies_pending_edits() {
    let doc = doc_from(b"a\nb\nc\n");
    let mut edits = EditSession::default();
    edits.replace_line(&doc, 1, "B".into()).unwrap();
    let out = edits
        .save_converted(&doc, Encoding::Utf8, Eol::Lf, false)
        .unwrap();
    assert_eq!(out, b"a\nB\nc\n");
}

#[test]
fn save_converted_rejects_unrepresentable_chars() {
    // An emoji has no Shift_JIS mapping: the save must fail, not corrupt.
    let doc = doc_from("hi 😀\n".as_bytes());
    let edits = EditSession::default();
    assert!(edits
        .save_converted(&doc, Encoding::ShiftJis, Eol::Lf, false)
        .is_err());
}

#[test]
fn save_converted_prepends_utf8_bom_only_for_utf8() {
    let doc = doc_from(b"a\nb\n");
    let edits = EditSession::default();
    // UTF-8 target with the flag: a leading BOM precedes the content.
    let utf8 = edits
        .save_converted(&doc, Encoding::Utf8, Eol::Lf, true)
        .unwrap();
    assert_eq!(
        utf8,
        b"\xEF\xBB\xBFa\nb\n".to_vec()
    );
    // A UTF-8 BOM is meaningless for other encodings, so the flag is
    // ignored — no stray 0xEF 0xBB 0xBF is written.
    let sjis = edits
        .save_converted(&doc, Encoding::ShiftJis, Eol::Lf, true)
        .unwrap();
    assert_eq!(sjis, b"a\nb\n".to_vec());
}

#[test]
fn save_stream_preserves_untouched_bytes_and_crlf() {
    let doc = doc_from(b"a\r\nb\r\nc");
    let mut edits = EditSession::default();
    edits.replace_line(&doc, 1, "B".into()).unwrap();
    edits.insert_line_before(&doc, 3, "d".into()).unwrap();
    let (out, _) = edits.save_to_path(&doc, "out", false).unwrap();
    assert_eq!(out, b"a\r\nB\r\nc\r\nd\r\n");
}

#[test]
fn save_to_path_overwrite_replaces_existing_file() {
    let doc = doc_from(b"alpha\nbeta\n");
    let mut edits = EditSession::default();
    edits.replace_line(&doc, 1, "BETA".into()).unwrap();
    let (out, res) = edits.save_to_path_overwrite(&doc, "out").unwrap();
    assert_eq!(res.lines, 2);
    assert_eq!(out, b"alpha\nBETA\n");
}

#[test]
fn retyping_original_text_clears_the_overlay_but_not_dirtiness() {
    let doc = doc_from(b"a\nb\n");
    let mut edits = EditSession::default();
    edits.replace_line(&doc, 1, "B".into()).unwrap();
    assert!(edits.is_dirty());
    assert!(edits.has_edits());
    edits.replace_line(&doc, 1, "b".into()).unwrap();
    // The overlay collapsed (the text equals the original), but the
    // content generation moved twice: only undo — or a save — makes the
    // session clean again. Saving streams the original bytes.
    assert!(!edits.has_edits());
    assert!(edits.is_dirty());
    let (out, _) = edits.save_to_path(&doc, "out", false).unwrap();
    edits.mark_saved();
    assert!(!edits.is_dirty());
    assert_eq!(out, b"a\nb\n");
}

#[test]
fn mark_saved_keeps_history_and_dirtiness_survives_undo_redo() {
    let doc = doc_from(b"one\ntwo\n");
    let mut edits = EditSession::default();
    assert!(!edits.is_dirty(), "fresh session is clean");
    edits.replace_line(&doc, 0, "ONE".into()).unwrap();
    edits.replace_line(&doc, 1, "TWO".into()).unwrap();
    assert!(edits.is_dirty());

    // Save: clean, but the FULL history survives.
    edits.mark_saved();
    assert!(!edits.is_dirty());
    assert!(edits.can_undo(), "history survives the save");
    assert_eq!(texts(&edits, &doc), vec!["ONE", "TWO"]);

    // Undo crosses the save point: dirty again, view is the older text.
    assert!(edits.undo());
    assert!(edits.is_dirty());
    assert_eq!(texts(&edits, &doc), vec!["ONE", "two"]);

    // Redo returns to the EXACT saved content: clean again.
    assert!(edits.redo());
    assert!(!edits.is_dirty());
    assert_eq!(texts(&edits, &doc), vec!["ONE", "TWO"]);

    // A new edit after the save is dirty; undoing it is clean again.
    edits.replace_line(&doc, 0, "one!".into()).unwrap();
    assert!(edits.is_dirty());
    assert!(edits.undo());
    assert!(!edits.is_dirty());

    // Both original generations are still walkable.
    assert!(edits.undo());
    assert!(edits.undo());
    assert!(!edits.can_undo());
    assert_eq!(texts(&edits, &doc), vec!["one", "two"]);
    assert!(edits.is_dirty(), "as-opened content is not the saved one");
}

#[test]
fn undo_past_save_then_saving_again_reads_clean() {
    let doc = doc_from(b"x\n");
    let mut edits = EditSession::default();
    edits.replace_line(&doc, 0, "X".into()).unwrap();
    edits.mark_saved();
    assert!(edits.undo());
    assert!(edits.is_dirty());
    assert!(!edits.has_edits(), "overlay is empty, content still dirty");
    // Second save (of the undone content): clean at generation 0.
    edits.mark_saved();
    assert!(!edits.is_dirty());
    assert!(edits.can_redo(), "redo history survives too");
    assert!(edits.redo());
    assert!(edits.is_dirty(), "redo past the new save point is dirty");
}

#[test]
fn mark_saved_at_pins_the_snapshotted_generation() {
    let doc = doc_from(b"a\n");
    let mut edits = EditSession::default();
    edits.replace_line(&doc, 0, "b".into()).unwrap();
    let staged = edits.content_gen();
    // An edit slips in while the staged content is being written to disk.
    edits.replace_line(&doc, 0, "c".into()).unwrap();
    edits.mark_saved_at(staged);
    assert!(edits.is_dirty(), "the racing edit is not on disk");
    assert!(edits.undo());
    assert!(
        !edits.is_dirty(),
        "undo back to the staged content is clean"
    );
}

#[test]
fn clear_returns_to_opened_content_but_keeps_saved_marker() {
    let doc = doc_from(b"a\n");
    let mut edits = EditSession::default();
    edits.clear();
    assert!(!edits.is_dirty(), "clearing a fresh session stays clean");
    edits.replace_line(&doc, 0, "b".into()).unwrap();
    edits.mark_saved();
    edits.clear();
    assert!(!edits.has_edits());
    assert!(!edits.can_undo());
    assert!(
        edits.is_dirty(),
        "the disk holds the saved text, not the as-opened text"
    );
}

#[test]
fn undo_redo_restore_sparse_overlay() {
    let doc = doc_from(b"a\nb\nc\n");
    let mut edits = EditSession::default();
    edits.replace_line(&doc, 1, "B".into()).unwrap();
    edits.insert_line_before(&doc, 2, "x".into()).unwrap();

    let texts = |edits: &EditSession| -> Vec<String> {
        edits
            .lines(&doc, 0, 10)
            .into_iter()
            .map(|l| l.text)
            .collect()
    };

    assert_eq!(texts(&edits), vec!["a", "B", "x", "c"]);
    assert!(edits.can_undo());
    assert!(!edits.can_redo());

    assert!(edits.undo());
    assert_eq!(texts(&edits), vec!["a", "B", "c"]);
    assert!(edits.can_redo());

    assert!(edits.redo());
    assert_eq!(texts(&edits), vec!["a", "B", "x", "c"]);
}

#[test]
fn new_edit_after_undo_discards_redo() {
    let doc = doc_from(b"a\nb\nc\n");
    let mut edits = EditSession::default();
    edits.replace_line(&doc, 1, "B".into()).unwrap();
    edits.insert_line_before(&doc, 2, "x".into()).unwrap();
    assert!(edits.undo());
    assert!(edits.can_redo());

    edits.replace_line(&doc, 1, "bee".into()).unwrap();
    assert!(!edits.can_redo());
    let lines: Vec<_> = edits
        .lines(&doc, 0, 10)
        .into_iter()
        .map(|l| l.text)
        .collect();
    assert_eq!(lines, vec!["a", "bee", "c"]);
}

#[test]
fn empty_file_can_be_edited_and_saved() {
    let doc = doc_from(b"");
    let mut edits = EditSession::default();
    edits.insert_line_before(&doc, 0, "alpha".into()).unwrap();
    edits.insert_line_before(&doc, 1, "beta".into()).unwrap();
    let (out, _) = edits.save_to_path(&doc, "out", false).unwrap();
    assert_eq!(edits.stats(&doc).total_lines, 2);
    assert_eq!(out, b"alpha\nbeta\n");
}

fn texts(edits: &EditSession, doc: &Document) -> Vec<String> {
    edits
        .lines(doc, 0, 100)
        .into_iter()
        .map(|l| l.text)
        .collect()
}

#[test]
fn replace_range_typing_within_a_line_inserts_and_moves_caret() {
    let doc = doc_from(b"hello\nworld\n");
    let mut edits = EditSession::default();
    // Type "XY" between 'he' and 'llo' on line 0.
    let caret = edits.replace_range(&doc, 0, 2, 0, 2, "XY").unwrap();
    assert_eq!(texts(&edits, &doc), vec!["heXYllo", "world"]);
    assert_eq!(caret, (0, 4));
}

#[test]
fn replace_range_enter_splits_a_line_into_two() {
    let doc = doc_from(b"hello\n");
    let mut edits = EditSession::default();
    // Press Enter after "he": split into "he" and "llo".
    let caret = edits.replace_range(&doc, 0, 2, 0, 2, "\n").unwrap();
    assert_eq!(texts(&edits, &doc), vec!["he", "llo"]);
    assert_eq!(caret, (1, 0));
    assert_eq!(edits.stats(&doc).total_lines, 2);
}

#[test]
fn replace_range_backspace_merges_two_lines() {
    let doc = doc_from(b"foo\nbar\n");
    let mut edits = EditSession::default();
    // Backspace at start of line 1 joins it onto the end of line 0.
    let caret = edits.replace_range(&doc, 0, 3, 1, 0, "").unwrap();
    assert_eq!(texts(&edits, &doc), vec!["foobar"]);
    assert_eq!(caret, (0, 3));
    assert_eq!(edits.stats(&doc).total_lines, 1);
}

#[test]
fn replace_range_multi_line_selection_replaced_with_multi_line_text() {
    let doc = doc_from(b"aaa\nbbb\nccc\nddd\n");
    let mut edits = EditSession::default();
    // Select from (0,1) through (2,1) and replace with "X\nY\nZ".
    let caret = edits.replace_range(&doc, 0, 1, 2, 1, "X\nY\nZ").unwrap();
    assert_eq!(texts(&edits, &doc), vec!["aX", "Y", "Zcc", "ddd"]);
    assert_eq!(caret, (2, 1));
}

#[test]
fn replace_range_is_a_single_undo_unit() {
    let doc = doc_from(b"aaa\nbbb\nccc\n");
    let mut edits = EditSession::default();
    edits.replace_range(&doc, 0, 1, 2, 1, "X\nY\nZ").unwrap();
    assert_eq!(texts(&edits, &doc), vec!["aX", "Y", "Zcc"]);
    assert!(edits.undo());
    assert_eq!(texts(&edits, &doc), vec!["aaa", "bbb", "ccc"]);
    assert!(edits.redo());
    assert_eq!(texts(&edits, &doc), vec!["aX", "Y", "Zcc"]);
}

#[test]
fn replace_rect_is_a_single_undo_unit() {
    let doc = doc_from(b"abcd\nefgh\nijkl\n");
    let mut edits = EditSession::default();
    let caret = edits.replace_rect(&doc, 0, 2, 1, 3, "X").unwrap();
    assert_eq!(caret, (2, 2));
    assert_eq!(texts(&edits, &doc), vec!["aXd", "eXh", "iXl"]);
    assert!(edits.undo());
    assert_eq!(texts(&edits, &doc), vec!["abcd", "efgh", "ijkl"]);
    assert!(edits.redo());
    assert_eq!(texts(&edits, &doc), vec!["aXd", "eXh", "iXl"]);
}

#[test]
fn replace_rect_maps_multiline_text_by_row() {
    let doc = doc_from(b"abcd\nefgh\nijkl\n");
    let mut edits = EditSession::default();
    let caret = edits.replace_rect(&doc, 0, 2, 1, 3, "X\nYY\nZ").unwrap();
    assert_eq!(caret, (2, 2));
    assert_eq!(texts(&edits, &doc), vec!["aXd", "eYYh", "iZl"]);
    assert!(edits.undo());
    assert_eq!(texts(&edits, &doc), vec!["abcd", "efgh", "ijkl"]);
}

#[test]
fn replace_range_paste_multiline_into_a_caret() {
    let doc = doc_from(b"start\nend\n");
    let mut edits = EditSession::default();
    // Paste "one\ntwo\nthree" at (0,5) — the end of line 0.
    let caret = edits
        .replace_range(&doc, 0, 5, 0, 5, "one\ntwo\nthree")
        .unwrap();
    assert_eq!(texts(&edits, &doc), vec!["startone", "two", "three", "end"]);
    assert_eq!(caret, (2, 5));
}

#[test]
fn replace_range_counts_unicode_scalars_not_bytes() {
    let doc = doc_from("あいう\nかきく\n".as_bytes());
    let mut edits = EditSession::default();
    // Replace the middle char of line 0 ('い', chars 1..2) with "X".
    let caret = edits.replace_range(&doc, 0, 1, 0, 2, "X").unwrap();
    assert_eq!(texts(&edits, &doc), vec!["あXう", "かきく"]);
    assert_eq!(caret, (0, 2));
}

#[test]
fn replace_range_clamps_columns_past_line_end() {
    let doc = doc_from(b"hi\n");
    let mut edits = EditSession::default();
    // Columns beyond the line length clamp to the end.
    let caret = edits.replace_range(&doc, 0, 99, 0, 99, "!").unwrap();
    assert_eq!(texts(&edits, &doc), vec!["hi!"]);
    assert_eq!(caret, (0, 3));
}

#[test]
fn replace_range_rejects_out_of_range_lines() {
    let doc = doc_from(b"a\nb\n");
    let mut edits = EditSession::default();
    assert!(edits.replace_range(&doc, 1, 0, 5, 0, "x").is_err());
    assert!(edits.replace_range(&doc, 3, 0, 3, 0, "x").is_err());
}

#[test]
fn replace_range_can_seed_an_empty_document() {
    let doc = doc_from(b"");
    assert_eq!(doc.line_count(), 0);
    let mut edits = EditSession::default();
    // Typing into a 0-line file inserts the first line.
    let caret = edits.replace_range(&doc, 0, 0, 0, 0, "hi").unwrap();
    assert_eq!(texts(&edits, &doc), vec!["hi"]);
    assert_eq!(caret, (0, 2));
    // A multi-line paste into an empty doc seeds several lines.
    let doc2 = doc_from(b"");
    let mut e2 = EditSession::default();
    let caret2 = e2.replace_range(&doc2, 0, 0, 0, 0, "one\ntwo").unwrap();
    assert_eq!(texts(&e2, &doc2), vec!["one", "two"]);
    assert_eq!(caret2, (1, 3));
    // Any non-origin range on an empty doc is rejected.
    let doc3 = doc_from(b"");
    let mut e3 = EditSession::default();
    assert!(e3.replace_range(&doc3, 0, 0, 1, 0, "x").is_err());
}

fn batch_edit(l0: u64, c0: usize, l1: u64, c1: usize, text: &str) -> BatchEdit {
    BatchEdit {
        l0,
        c0,
        l1,
        c1,
        text: text.into(),
    }
}

#[test]
fn replace_batch_three_carets_is_one_undo_step() {
    let doc = doc_from(b"aaa\nbbb\nccc\n");
    let mut edits = EditSession::default();
    let rev0 = edits.revision();
    let carets = edits
        .replace_batch(
            &doc,
            &[
                batch_edit(0, 1, 0, 1, "X"),
                batch_edit(1, 2, 1, 2, "X"),
                batch_edit(2, 3, 2, 3, "X"),
            ],
        )
        .unwrap();
    assert_eq!(texts(&edits, &doc), vec!["aXaa", "bbXb", "cccX"]);
    assert_eq!(carets, vec![(0, 2), (1, 3), (2, 4)]);
    assert_eq!(edits.revision(), rev0 + 1, "one revision bump per batch");
    assert!(edits.undo());
    assert_eq!(texts(&edits, &doc), vec!["aaa", "bbb", "ccc"]);
    assert!(!edits.can_undo(), "one undo reverts the whole batch");
    assert!(edits.redo());
    assert_eq!(texts(&edits, &doc), vec!["aXaa", "bbXb", "cccX"]);
}

#[test]
fn replace_batch_same_line_carets_shift_later_columns() {
    let doc = doc_from(b"hello world\n");
    let mut edits = EditSession::default();
    // Request order is deliberately right-to-left: the returned carets
    // must map back by request index, with the right caret shifted by
    // the width the left insertion added earlier on the same line.
    let carets = edits
        .replace_batch(
            &doc,
            &[batch_edit(0, 11, 0, 11, "!"), batch_edit(0, 5, 0, 5, "XX")],
        )
        .unwrap();
    assert_eq!(texts(&edits, &doc), vec!["helloXX world!"]);
    assert_eq!(carets, vec![(0, 14), (0, 7)]);
    assert!(edits.undo());
    assert_eq!(texts(&edits, &doc), vec!["hello world"]);
}

#[test]
fn replace_batch_multiline_insert_shifts_lines_below() {
    let doc = doc_from(b"one\ntwo\n");
    let mut edits = EditSession::default();
    let carets = edits
        .replace_batch(
            &doc,
            &[batch_edit(0, 3, 0, 3, "A\nB"), batch_edit(1, 0, 1, 0, "C")],
        )
        .unwrap();
    assert_eq!(texts(&edits, &doc), vec!["oneA", "B", "Ctwo"]);
    // The caret below moved down by the line the first edit added.
    assert_eq!(carets, vec![(1, 1), (2, 1)]);
    assert!(edits.undo());
    assert_eq!(texts(&edits, &doc), vec!["one", "two"]);
}

#[test]
fn replace_batch_rejects_overlapping_or_invalid_ranges() {
    let doc = doc_from(b"abcdef\n");
    let mut edits = EditSession::default();
    let err = edits
        .replace_batch(
            &doc,
            &[batch_edit(0, 1, 0, 4, "x"), batch_edit(0, 3, 0, 5, "y")],
        )
        .unwrap_err();
    assert!(err.message().contains("overlap"), "err: {err:?}");
    assert!(
        !edits.is_dirty(),
        "a rejected batch must not touch the text"
    );
    assert!(!edits.can_undo());
    // Out-of-bounds ranges reuse the replace_range validation.
    assert!(edits
        .replace_batch(&doc, &[batch_edit(0, 0, 5, 0, "x")])
        .is_err());
}

#[test]
fn replace_batch_backspace_at_each_caret_is_one_undo_step() {
    let doc = doc_from(b"abc\ndef\nghi\n");
    let mut edits = EditSession::default();
    // Backspace at carets (0,2), (1,3), (2,1): each deletes the char
    // before its caret.
    let carets = edits
        .replace_batch(
            &doc,
            &[
                batch_edit(0, 1, 0, 2, ""),
                batch_edit(1, 2, 1, 3, ""),
                batch_edit(2, 0, 2, 1, ""),
            ],
        )
        .unwrap();
    assert_eq!(texts(&edits, &doc), vec!["ac", "de", "hi"]);
    assert_eq!(carets, vec![(0, 1), (1, 2), (2, 0)]);
    assert!(edits.undo());
    assert_eq!(texts(&edits, &doc), vec!["abc", "def", "ghi"]);
    assert!(!edits.can_undo());
}

#[test]
fn replace_batch_without_effect_records_nothing() {
    let doc = doc_from(b"a\n");
    let mut edits = EditSession::default();
    let rev = edits.revision();
    assert_eq!(edits.replace_batch(&doc, &[]).unwrap(), Vec::new());
    // Replacing a span with its own text is detected as a no-op, exactly
    // like the single-edit path: carets are still answered, but no undo
    // generation is pushed and the revision stays put.
    let carets = edits
        .replace_batch(&doc, &[batch_edit(0, 0, 0, 1, "a")])
        .unwrap();
    assert_eq!(carets, vec![(0, 1)]);
    assert_eq!(edits.revision(), rev);
    assert!(!edits.can_undo());
}

#[test]
fn save_copies_untouched_runs_between_sparse_edits() {
    // Large enough for real gaps between edits; CRLF everywhere and a
    // final line without a terminator.
    let mut data = Vec::new();
    for i in 0..500u64 {
        data.extend_from_slice(format!("line {i}\r\n").as_bytes());
    }
    data.extend_from_slice(b"tail-no-eol");
    let doc = doc_from(&data);
    let mut edits = EditSession::default();
    // Ordered so each logical line still equals its original line number.
    edits
        .insert_line_before(&doc, 200, "INSERTED".into())
        .unwrap();
    edits.replace_line(&doc, 10, "TEN".into()).unwrap();
    edits.delete_line(&doc, 100).unwrap();
    let (out, _) = edits.save_to_path(&doc, "out", false).unwrap();

    let mut expect = Vec::new();
    for i in 0..500u64 {
        if i == 100 {
            continue;
        }
        if i == 200 {
            expect.extend_from_slice(b"INSERTED\r\n");
        }
        if i == 10 {
            expect.extend_from_slice(b"TEN\r\n");
        } else {
            expect.extend_from_slice(format!("line {i}\r\n").as_bytes());
        }
    }
    expect.extend_from_slice(b"tail-no-eol");
    assert_eq!(out, expect);
}

#[test]
fn undo_redo_walk_multi_step_history() {
    let doc = doc_from(b"a\nb\n");
    let mut edits = EditSession::default();
    edits.insert_line_before(&doc, 1, "x".into()).unwrap(); // a x b
    edits.replace_line(&doc, 1, "y".into()).unwrap(); // a y b (edits the inserted line)
    edits.delete_line(&doc, 1).unwrap(); // a b
    edits.delete_line(&doc, 0).unwrap(); // b
    assert_eq!(texts(&edits, &doc), vec!["b"]);
    assert!(edits.undo());
    assert_eq!(texts(&edits, &doc), vec!["a", "b"]);
    assert!(edits.undo());
    assert_eq!(texts(&edits, &doc), vec!["a", "y", "b"]);
    assert!(edits.undo());
    assert_eq!(texts(&edits, &doc), vec!["a", "x", "b"]);
    assert!(edits.undo());
    assert_eq!(texts(&edits, &doc), vec!["a", "b"]);
    assert!(!edits.is_dirty());
    assert!(!edits.can_undo());
    // Walk the whole history forward again.
    assert!(edits.redo());
    assert!(edits.redo());
    assert!(edits.redo());
    assert!(edits.redo());
    assert_eq!(texts(&edits, &doc), vec!["b"]);
    assert!(!edits.can_redo());
}

#[test]
fn history_limit_keeps_last_256_generations() {
    let doc = doc_from(b"seed\n");
    let mut edits = EditSession::default();
    for k in 0..300u32 {
        edits.replace_line(&doc, 0, format!("v{k}")).unwrap();
    }
    let mut undone = 0;
    while edits.undo() {
        undone += 1;
    }
    assert_eq!(undone, 256);
    // 300 edits with 256 undoable generations lands on the state after
    // edit #43 (0-based), exactly like the old snapshot history did.
    assert_eq!(texts(&edits, &doc), vec!["v43"]);
    assert!(edits.is_dirty());
}

#[test]
fn undo_after_paste_and_edits_inside_pasted_block() {
    let doc = doc_from(b"top\nbottom\n");
    let mut edits = EditSession::default();
    // Paste three lines between top and bottom.
    edits
        .replace_range(&doc, 0, 3, 0, 3, "\np1\np2\np3")
        .unwrap();
    assert_eq!(texts(&edits, &doc), vec!["top", "p1", "p2", "p3", "bottom"]);
    // Type into the middle pasted line.
    edits.replace_range(&doc, 2, 2, 2, 2, "X").unwrap();
    assert_eq!(
        texts(&edits, &doc),
        vec!["top", "p1", "p2X", "p3", "bottom"]
    );
    assert!(edits.undo());
    assert_eq!(texts(&edits, &doc), vec!["top", "p1", "p2", "p3", "bottom"]);
    assert!(edits.undo());
    assert_eq!(texts(&edits, &doc), vec!["top", "bottom"]);
    assert!(edits.redo());
    assert!(edits.redo());
    assert_eq!(
        texts(&edits, &doc),
        vec!["top", "p1", "p2X", "p3", "bottom"]
    );
}

#[test]
fn shift_jis_edits_are_encoded_while_untouched_bytes_are_preserved() {
    let opts = OpenOptions {
        encoding: Some(Encoding::ShiftJis),
        ..OpenOptions::default()
    };
    let doc = doc_from_with_options(b"\x82\xa0\r\nraw\xff\r\n", &opts);
    let mut edits = EditSession::default();
    edits.replace_line(&doc, 0, "い".into()).unwrap();
    let (out, _) = edits.save_to_path(&doc, "out", false).unwrap();
    assert_eq!(out, b"\x82\xa2\r\nraw\xff\r\n");
}

fn line_chars(edits: &EditSession, doc: &Document, l: u64) -> Vec<char> {
    edits.line(doc, l).unwrap().text.chars().collect()
}

fn ins(l: u64, c: usize, text: &str) -> BatchEdit {
    BatchEdit {
        l0: l,
        c0: c,
        l1: l,
        c1: c,
        text: text.to_string(),
    }
}

#[test]
fn insert_lands_exactly_at_the_column_with_wide_chars_and_tabs() {
    // ASCII + Greek + tab + CJK on one line — a column is one char regardless
    // of how wide it renders.
    let doc = doc_from("abαβ\tγ日本xy\n".as_bytes());
    let mut edits = EditSession::default();
    let orig: Vec<char> = "abαβ\tγ日本xy".chars().collect();

    for &col in &[0usize, 1, 4, 5, 8, 10] {
        let mut e = edits.clone();
        let (cl, cc) = e.replace_range(&doc, 0, col, 0, col, "<>").unwrap();
        assert_eq!((cl, cc), (0, col + 2), "caret after insert at col {col}");
        let now = line_chars(&e, &doc, 0);
        assert_eq!(&now[..col], &orig[..col], "prefix changed at col {col}");
        assert_eq!(
            &now[col..col + 2],
            &['<', '>'],
            "marker misplaced at col {col}"
        );
        assert_eq!(&now[col + 2..], &orig[col..], "suffix changed at col {col}");
    }
    edits.replace_line(&doc, 0, "touched".to_string()).unwrap();
}

#[test]
fn column_past_end_of_line_clamps_to_the_end() {
    let doc = doc_from("short\n".as_bytes()); // 5 chars
    let mut edits = EditSession::default();
    let (cl, cc) = edits.replace_range(&doc, 0, 100, 0, 100, "!").unwrap();
    assert_eq!(edits.line(&doc, 0).unwrap().text, "short!");
    assert_eq!((cl, cc), (0, 6), "caret clamps to end + inserted length");
}

#[test]
fn range_replace_reports_both_endpoints_correctly() {
    let doc = doc_from("hello world\n".as_bytes());
    let mut edits = EditSession::default();
    // Replace chars [6,11) ("world") with "there".
    let (cl, cc) = edits.replace_range(&doc, 0, 6, 0, 11, "there").unwrap();
    assert_eq!(edits.line(&doc, 0).unwrap().text, "hello there");
    assert_eq!((cl, cc), (0, 11));
}

#[test]
fn multiline_insert_moves_the_caret_to_the_new_line_and_column() {
    let doc = doc_from("xyz\n".as_bytes());
    let mut edits = EditSession::default();
    let (cl, cc) = edits.replace_range(&doc, 0, 2, 0, 2, "A\nB").unwrap();
    assert_eq!(edits.line(&doc, 0).unwrap().text, "xyA");
    assert_eq!(edits.line(&doc, 1).unwrap().text, "Bz");
    assert_eq!((cl, cc), (1, 1), "caret lands after B on the new line");
}

#[test]
fn multi_cursor_on_distinct_lines_each_lands_at_its_own_coordinate() {
    let doc = doc_from("aaaa\nbbbb\ncccc\ndddd\n".as_bytes());
    let mut edits = EditSession::default();
    let batch = vec![ins(0, 1, "X"), ins(1, 2, "Y"), ins(3, 0, "Z")];
    let carets = edits.replace_batch(&doc, &batch).unwrap();
    assert_eq!(carets, vec![(0, 2), (1, 3), (3, 1)]);
    assert_eq!(edits.line(&doc, 0).unwrap().text, "aXaaa");
    assert_eq!(edits.line(&doc, 1).unwrap().text, "bbYbb");
    assert_eq!(edits.line(&doc, 2).unwrap().text, "cccc");
    assert_eq!(edits.line(&doc, 3).unwrap().text, "Zdddd");
}

#[test]
fn multi_cursor_on_one_line_places_every_marker_at_its_pre_batch_column() {
    // All columns are relative to the shared pre-batch view; the final content
    // proves each marker landed at its intended (shifted) position.
    let doc = doc_from("0123456789\n".as_bytes());
    let mut edits = EditSession::default();
    let batch = vec![ins(0, 2, "AA"), ins(0, 5, "B"), ins(0, 8, "CCC")];
    edits.replace_batch(&doc, &batch).unwrap();
    assert_eq!(edits.line(&doc, 0).unwrap().text, "01AA234B567CCC89");
}

#[test]
fn windowed_reads_after_scrolling_map_to_absolute_coordinates() {
    // 300 lines; each viewport ("scroll position") must report absolute line
    // numbers and content identical to the full view.
    let mut content = String::new();
    for i in 0..300 {
        content.push_str(&format!("L{i}:payload-{}\n", i * 7));
    }
    let doc = doc_from(content.as_bytes());
    let edits = EditSession::default();
    let full = view(&edits, &doc);

    for &(start, count) in &[(0u64, 20u64), (137, 25), (280, 20)] {
        let win = edits.lines(&doc, start, count);
        for (k, el) in win.iter().enumerate() {
            let abs = start + k as u64;
            assert_eq!(el.number, abs, "window[{k}] number at scroll {start}");
            assert_eq!(
                el.text, full[abs as usize],
                "window[{k}] text at scroll {start}"
            );
        }
    }
}

#[test]
fn edit_after_scrolling_lands_on_the_line_the_viewport_shows() {
    let mut content = String::new();
    for i in 0..300 {
        content.push_str(&format!("row{i}=value\n"));
    }
    let doc = doc_from(content.as_bytes());
    let mut edits = EditSession::default();

    // Scroll far down, then edit a line only visible after scrolling.
    let target = 211u64;
    let col = 3usize;
    let orig: Vec<char> = edits.line(&doc, target).unwrap().text.chars().collect();
    let (cl, cc) = edits
        .replace_range(&doc, target, col, target, col, "ZZ")
        .unwrap();
    assert_eq!((cl, cc), (target, col + 2));

    // Re-read a viewport around the target: the edit is exactly at (target,col).
    let win = edits.lines(&doc, 205, 12);
    let el = win.iter().find(|e| e.number == target).unwrap();
    let now: Vec<char> = el.text.chars().collect();
    assert_eq!(&now[..col], &orig[..col]);
    assert_eq!(&now[col..col + 2], &['Z', 'Z']);
    assert_eq!(&now[col + 2..], &orig[col..]);
}

#[test]
fn windows_stay_consistent_after_line_count_changes() {
    let mut content = String::new();
    for i in 0..120 {
        content.push_str(&format!("item-{i}\n"));
    }
    let doc = doc_from(content.as_bytes());
    let mut edits = EditSession::default();

    // Insert above the viewport (shifts every following line number by one) and
    // delete another line; windows must still report absolute numbers matching
    // the full view.
    edits
        .insert_line_before(&doc, 0, "NEW HEAD".to_string())
        .unwrap();
    edits.delete_line(&doc, 50).unwrap();

    let full = view(&edits, &doc);
    for &(start, count) in &[(0u64, 15u64), (40, 20), (100, 15)] {
        let win = edits.lines(&doc, start, count);
        for (k, el) in win.iter().enumerate() {
            let abs = start + k as u64;
            if (abs as usize) >= full.len() {
                break;
            }
            assert_eq!(el.number, abs, "post-edit window number");
            assert_eq!(el.text, full[abs as usize], "post-edit window text");
        }
    }
}

/// A small generator of reproducible numbers.
struct Rng(u64);

impl Rng {
    fn next_u64(&mut self) -> u64 {
        self.0 = self.0.wrapping_add(0x9E37_79B9_7F4A_7C15);
        let mut z = self.0;
        z = (z ^ (z >> 30)).wrapping_mul(0xBF58_476D_1CE4_E5B9);
        z = (z ^ (z >> 27)).wrapping_mul(0x94D0_49BB_1331_11EB);
        z ^ (z >> 31)
    }

    fn below(&mut self, n: u64) -> u64 {
        if n == 0 {
            0
        } else {
            self.next_u64() % n
        }
    }
}

/// The lines as a plain list, with every earlier list.
#[derive(Clone, Default)]
struct RefModel {
    lines: Vec<String>,
    undo: Vec<Vec<String>>,
    redo: Vec<Vec<String>>,
}

impl RefModel {
    fn from_doc(doc: &Document) -> Self {
        let n = doc.line_count();
        RefModel {
            lines: (0..n).map(|i| doc.line(i).unwrap()).collect(),
            undo: Vec::new(),
            redo: Vec::new(),
        }
    }

    fn record(&mut self) {
        self.undo.push(self.lines.clone());
        self.redo.clear();
    }

    fn replace_line(&mut self, i: usize, text: String) {
        self.record();
        self.lines[i] = text;
    }

    fn insert_before(&mut self, i: usize, text: String) {
        self.record();
        self.lines.insert(i, text);
    }

    fn delete_line(&mut self, i: usize) {
        self.record();
        self.lines.remove(i);
    }

    fn can_undo(&self) -> bool {
        !self.undo.is_empty()
    }

    fn can_redo(&self) -> bool {
        !self.redo.is_empty()
    }

    fn undo(&mut self) -> bool {
        match self.undo.pop() {
            Some(prev) => {
                self.redo.push(std::mem::replace(&mut self.lines, prev));
                true
            }
            None => false,
        }
    }

    fn redo(&mut self) -> bool {
        match self.redo.pop() {
            Some(next) => {
                self.undo.push(std::mem::replace(&mut self.lines, next));
                true
            }
            None => false,
        }
    }
}

fn reopen_lines(bytes: &[u8]) -> Vec<String> {
    let doc = doc_from(bytes);
    (0..doc.line_count()).map(|i| doc.line(i).unwrap()).collect()
}

const SEEDS: &[u64] = &[
    1,
    2,
    3,
    7,
    42,
    99,
    1234,
    65535,
    0xDEAD_BEEF,
    0x0BAD_F00D,
    111,
    222,
];

const STARTERS: &[&[u8]] = &[
    b"alpha\nbeta\ngamma\ndelta\n",
    b"single line no newline",
    b"a\r\nb\r\nc\r\n",
    b"one\ntwo\nthree",
    b"\n\n\n",
    b"x\n",
];

#[test]
fn overlay_matches_reference_model_under_random_edits() {
    for &start in STARTERS {
        for &seed in SEEDS {
            run_one(start, seed);
        }
    }
}

fn run_one(start: &[u8], seed: u64) {
    let doc = doc_from(start);
    let mut edits = EditSession::default();
    let mut model = RefModel::from_doc(&doc);
    let mut rng = Rng(seed);

    // Start already agreeing.
    assert_eq!(view(&edits, &doc), model.lines, "seed {seed}: initial view");

    for step in 0..60u64 {
        let total = model.lines.len() as u64;
        // Choose an op. When the doc is empty only insert / undo / redo apply.
        let choice = if total == 0 {
            match rng.below(3) {
                0 => 3, // insert
                1 => 4, // undo
                _ => 5, // redo
            }
        } else {
            rng.below(6)
        };

        match choice {
            0 => {
                // replace_line with guaranteed-different text
                let i = rng.below(total);
                let text = format!("R{seed}s{step}n{i}");
                assert_ne!(model.lines[i as usize], text);
                edits.replace_line(&doc, i, text.clone()).unwrap();
                model.replace_line(i as usize, text);
            }
            1 => {
                let i = rng.below(total + 1);
                let text = format!("I{seed}s{step}n{i}");
                edits.insert_line_before(&doc, i, text.clone()).unwrap();
                model.insert_before(i as usize, text);
            }
            2 => {
                let i = rng.below(total);
                edits.delete_line(&doc, i).unwrap();
                model.delete_line(i as usize);
            }
            3 => {
                let i = rng.below(total + 1);
                let text = format!("A{seed}s{step}");
                edits.insert_line_before(&doc, i, text.clone()).unwrap();
                model.insert_before(i as usize, text);
            }
            4 => {
                let want = model.can_undo();
                let got = edits.undo();
                assert_eq!(got, want, "seed {seed} step {step}: undo availability");
                if got {
                    assert!(model.undo());
                }
            }
            _ => {
                let want = model.can_redo();
                let got = edits.redo();
                assert_eq!(got, want, "seed {seed} step {step}: redo availability");
                if got {
                    assert!(model.redo());
                }
            }
        }

        assert_eq!(
            view(&edits, &doc),
            model.lines,
            "seed {seed} step {step}: view diverged after choice {choice}"
        );
        assert_eq!(
            edits.can_undo(),
            model.can_undo(),
            "seed {seed} step {step}: can_undo diverged"
        );
        assert_eq!(
            edits.can_redo(),
            model.can_redo(),
            "seed {seed} step {step}: can_redo diverged"
        );
    }

    // Saving the final overlay and reopening it must reproduce the exact view.
    let expected = view(&edits, &doc);
    let (out, _) = edits.save_to_path(&doc, "out", false).unwrap();
    assert_eq!(
        reopen_lines(&out),
        expected,
        "seed {seed}: save->reopen changed the content view"
    );
}

/// A focused, non-random check that undo fully rewinds to the pristine content
/// and redo replays it, byte-for-byte through a save round-trip.
#[test]
fn full_undo_returns_to_pristine_and_redo_replays() {
    let start = b"one\ntwo\nthree\n";
    let doc = doc_from(start);
    let mut edits = EditSession::default();

    edits.replace_line(&doc, 0, "ONE".to_string()).unwrap();
    edits
        .insert_line_before(&doc, 1, "1.5".to_string())
        .unwrap();
    edits.delete_line(&doc, 3).unwrap();

    let edited_view = view(&edits, &doc);
    assert_ne!(edited_view, pristine(&doc));

    while edits.undo() {}
    assert_eq!(
        view(&edits, &doc),
        pristine(&doc),
        "undo did not fully rewind"
    );

    // Redo everything back.
    while edits.redo() {}
    assert_eq!(view(&edits, &doc), edited_view, "redo did not replay");
}

fn pristine(doc: &Document) -> Vec<String> {
    reopen_lines(doc.buf())
}

#[test]
fn atomic_save_writes_a_complete_file_and_leaves_no_temp_residue() {
    let start = b"aaa\nbbb\nccc\n";
    let doc = doc_from(start);
    let mut live = EditSession::default();
    live.replace_line(&doc, 1, "BBB".to_string()).unwrap();
    let (bytes, res) = live.save_to_path(&doc, "saved.txt", false).unwrap();
    assert_eq!(bytes, b"aaa\nBBB\nccc\n", "saved file incomplete");
    assert_eq!(res.bytes, bytes.len() as u64, "reported byte count");
    assert_eq!(doc.buf(), start, "source file mutated by save-as");
}

#[test]
fn edits_out_of_range_and_saves_out_of_reach_say_so() {
    let doc = doc_from(b"a\n");
    let mut s = EditSession::default();
    assert!(s.replace_line(&doc, 1, "x".into()).is_err());
    assert!(s.delete_line(&doc, 1).is_err());
    assert!(s.insert_line_before(&doc, 2, "x".into()).is_err());
    assert!(s.replace_rect(&doc, 0, 4, 0, 0, "x").is_err());
    assert!(matches!(s.save_to_path(&doc, "out", true), Err(Error::Unsupported(_))));
    assert!(!s.is_dirty());
    let opts = OpenOptions {
        encoding: Some(Encoding::ShiftJis),
        ..Default::default()
    };
    let doc = doc_from_with_options(b"a\n", &opts);
    s.replace_line(&doc, 0, "😀".into()).unwrap();
    assert!(s.save_to_path(&doc, "out", false).is_err());
}

#[test]
fn lines_know_where_they_come_from() {
    let doc = doc_from(b"a\nb\n");
    let mut s = EditSession::default();
    s.insert_line_before(&doc, 1, "new".into()).unwrap();
    s.replace_line(&doc, 0, "A".into()).unwrap();
    let lines = s.lines(&doc, 0, 10);
    assert_eq!(lines.len(), 3);
    assert!(lines[0].edited && !lines[0].inserted);
    assert_eq!(lines[0].original_line, Some(0));
    assert!(lines[1].inserted);
    assert_eq!(lines[1].original_line, None);
    assert!(!lines[2].edited);
    assert_eq!(lines[2].original_line, Some(1));
    assert!(s.line(&doc, 3).is_none());
}

#[test]
fn a_clone_goes_its_own_way() {
    let doc = doc_from(b"a\n");
    let mut s = EditSession::default();
    s.replace_line(&doc, 0, "b".into()).unwrap();
    let mut c = s.clone();
    c.replace_line(&doc, 0, "c".into()).unwrap();
    assert_eq!(view(&s, &doc), vec!["b"]);
    assert_eq!(view(&c, &doc), vec!["c"]);
    assert!(c.undo() && c.undo());
    assert_eq!(view(&c, &doc), vec!["a"]);
}

#[test]
fn replace_batch_over_several_lines_without_effect_records_nothing() {
    let doc = doc_from(b"a\nb\n");
    let mut edits = EditSession::default();
    let carets = edits
        .replace_batch(&doc, &[batch_edit(0, 0, 1, 1, "a\nb")])
        .unwrap();
    assert_eq!(carets, vec![(1, 1)]);
    assert_eq!(edits.revision(), 0);
    assert!(!edits.can_undo() && !edits.is_dirty());
    assert_eq!(edits.write_stream(&doc).unwrap(), b"a\nb\n");
}

#[test]
fn replace_batch_whose_edits_cancel_out_records_nothing() {
    let doc = doc_from(b"aa\n");
    let mut edits = EditSession::default();
    let batch = [batch_edit(0, 0, 0, 1, ""), batch_edit(0, 2, 0, 2, "a")];
    let carets = edits.replace_batch(&doc, &batch).unwrap();
    assert_eq!(carets, vec![(0, 0), (0, 2)]);
    assert_eq!(edits.revision(), 0);
    assert!(!edits.can_undo() && !edits.is_dirty());
    // What there was to redo stays.
    edits.replace_line(&doc, 0, "b".into()).unwrap();
    assert!(edits.undo());
    edits.replace_batch(&doc, &batch).unwrap();
    assert!(edits.can_redo());
}

#[test]
fn replace_range_over_several_lines_without_effect_records_nothing() {
    let doc = doc_from(b"one\ntwo\nthree\n");
    let mut edits = EditSession::default();
    let caret = edits.replace_range(&doc, 0, 1, 2, 2, "ne\ntwo\nth").unwrap();
    assert_eq!(caret, (2, 2));
    assert_eq!(edits.revision(), 0);
    assert!(!edits.can_undo() && !edits.is_dirty());
}

#[test]
fn undo_and_redo_bring_back_the_saved_bytes() {
    let start = b"a\r\nb\nc";
    let doc = doc_from(start);
    let mut s = EditSession::default();
    s.replace_line(&doc, 0, "A".into()).unwrap();
    let one = s.write_stream(&doc).unwrap();
    assert_eq!(one, b"A\r\nb\nc");
    s.replace_range(&doc, 1, 0, 2, 1, "x\ny").unwrap();
    let two = s.write_stream(&doc).unwrap();
    s.replace_rect(&doc, 0, 1, 0, 1, "-").unwrap();
    let gen = s.content_gen();
    let three = s.write_stream(&doc).unwrap();
    let rev = s.revision();
    assert!(s.undo());
    assert_eq!(s.write_stream(&doc).unwrap(), two);
    assert_ne!(s.revision(), rev);
    assert!(s.undo());
    assert_eq!(s.write_stream(&doc).unwrap(), one);
    assert!(s.undo());
    assert_eq!(s.write_stream(&doc).unwrap(), start);
    assert!(!s.is_dirty() && !s.undo());
    assert!(s.redo() && s.redo() && s.redo());
    assert_eq!(s.write_stream(&doc).unwrap(), three);
    assert_eq!(s.content_gen(), gen);
    assert!(!s.redo());
}
