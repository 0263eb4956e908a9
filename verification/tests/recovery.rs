use ayame_core::recovery::{frame_log, inspect, replay, LogLine, RecoveryInfo};
use ayame_core::wal::{BatchEdit, Header, LoggedOp, Record, WalAction, WalWriter};
use ayame_core::{Document, EditSession, Error, OpenOptions};

fn doc_from(bytes: &[u8]) -> Document<'_> {
    Document::open("base.txt".to_string(), bytes, &OpenOptions::default())
}

fn header_of(doc: &Document) -> Header {
    Header::for_document(doc, doc.byte_len(), 1_700_000_000_000)
}

fn texts(s: &EditSession, doc: &Document) -> Vec<String> {
    s.lines(doc, 0, 1000).into_iter().map(|l| l.text).collect()
}

/// A log as its lines.
#[derive(Default)]
struct Log {
    lines: Vec<LogLine>,
}

impl Log {
    fn perform(&mut self, action: WalAction) {
        match action {
            WalAction::Append(op) => self.lines.push(LogLine::Entry(Record::Txn { op })),
            WalAction::Rewrite { header, overlay } => {
                self.lines.clear();
                self.lines.push(LogLine::Entry(Record::Header(header)));
                if let Some(overlay) = overlay {
                    self.lines.push(LogLine::Entry(Record::Snapshot { overlay }));
                }
            }
        }
    }

    fn follow(&mut self, session: &mut EditSession) {
        for action in session.take_wal_actions() {
            self.perform(action);
        }
    }
}

fn attach(doc: &Document, session: &mut EditSession) -> Log {
    let mut log = Log::default();
    let (writer, action) = WalWriter::create(header_of(doc));
    log.perform(action);
    session.set_wal(Some(writer));
    log
}

fn batch_edit(l0: u64, c0: usize, l1: u64, c1: usize, text: &str) -> BatchEdit {
    BatchEdit {
        l0,
        c0,
        l1,
        c1,
        text: text.into(),
    }
}

#[test]
fn round_trip_replays_mixed_ops_after_crash() {
    let base = b"alpha\nbravo\ncharlie\ndelta\n";
    let doc = doc_from(base);
    let mut live = EditSession::default();
    let mut log = attach(&doc, &mut live);

    live.replace_range(&doc, 0, 5, 0, 5, " one").unwrap();
    live.replace_range(&doc, 1, 0, 2, 0, "X\n").unwrap();
    live.replace_rect(&doc, 1, 3, 0, 0, "*").unwrap();
    live.replace_batch(
        &doc,
        &[batch_edit(2, 1, 2, 1, "!"), batch_edit(3, 1, 3, 1, "?")],
    )
    .unwrap();
    assert!(live.undo());
    assert!(live.redo());
    assert!(live.undo());
    let expected = texts(&live, &doc);
    assert_eq!(
        expected,
        vec!["alpha one", "*X", "*charlie", "*delta"],
        "sanity: the live view is what we think it is"
    );
    let expected_dirty = live.is_dirty();
    let expected_history = (live.can_undo(), live.can_redo());
    log.follow(&mut live);
    drop(live);

    let doc2 = doc_from(base);
    let current = header_of(&doc2);
    assert_eq!(
        inspect(&log.lines, &current),
        RecoveryInfo::Recoverable { transactions: 7 }
    );

    let mut recovered = EditSession::default();
    assert_eq!(replay(&log.lines, &doc2, &current, &mut recovered).unwrap(), 7);
    assert_eq!(texts(&recovered, &doc2), expected);
    assert_eq!(recovered.is_dirty(), expected_dirty);
    assert!(recovered.is_dirty());
    assert_eq!(
        (recovered.can_undo(), recovered.can_redo()),
        expected_history
    );
    assert!(recovered.undo());
    assert_eq!(
        texts(&recovered, &doc2),
        vec!["alpha one", "X", "charlie", "delta"]
    );
}

#[test]
fn snapshot_compaction_shrinks_log_and_replays() {
    let base = b"seed\nline\n";
    let doc = doc_from(base);
    let mut live = EditSession::default();
    let mut log = attach(&doc, &mut live);

    for k in 0..100u32 {
        live.replace_line(&doc, 0, format!("v{k}")).unwrap();
    }
    log.follow(&mut live);
    let before = log.lines.len();
    live.wal_compact();
    log.follow(&mut live);
    assert!(live.wal().is_some(), "compaction must not drop the writer");
    let after = log.lines.len();
    assert!(
        after < before,
        "snapshot must supersede the txn records ({after} !< {before})"
    );

    live.replace_range(&doc, 1, 0, 1, 0, "tail ").unwrap();
    live.replace_line(&doc, 0, "final".into()).unwrap();
    let expected = texts(&live, &doc);
    log.follow(&mut live);
    drop(live);

    let doc2 = doc_from(base);
    assert_eq!(
        inspect(&log.lines, &header_of(&doc2)),
        RecoveryInfo::Recoverable { transactions: 2 }
    );
    let mut recovered = EditSession::default();
    assert_eq!(
        replay(&log.lines, &doc2, &header_of(&doc2), &mut recovered).unwrap(),
        2
    );
    assert_eq!(texts(&recovered, &doc2), expected);
    assert!(recovered.is_dirty());
}

#[test]
fn reset_on_save_starts_clean_against_the_new_base() {
    let doc = doc_from(b"a\nb\n");
    let mut live = EditSession::default();
    let mut log = attach(&doc, &mut live);

    live.replace_range(&doc, 0, 0, 0, 1, "A").unwrap();
    let (saved, _) = live.save_to_path_overwrite(&doc, "base.txt").unwrap();
    live.mark_saved();
    log.follow(&mut live);
    let new_header = Header::for_file(
        "base.txt".to_string(),
        saved.len() as u64,
        1_700_000_000_001,
        doc.encoding().label(),
    );
    let mut writer = live.wal_detach().unwrap();
    log.perform(writer.reset(new_header.copy()));
    live.wal_restore(Some(writer));

    let doc2 = doc_from(&saved);
    assert_eq!(inspect(&log.lines, &new_header), RecoveryInfo::Clean);
    let mut recovered = EditSession::default();
    assert_eq!(replay(&log.lines, &doc2, &new_header, &mut recovered).unwrap(), 0);
    assert!(!recovered.is_dirty());
    assert_eq!(texts(&recovered, &doc2), vec!["A", "b"]);

    live.replace_range(&doc, 1, 0, 1, 1, "B").unwrap();
    let expected = texts(&live, &doc);
    log.follow(&mut live);
    drop(live);
    let doc3 = doc_from(&saved);
    let mut recovered = EditSession::default();
    assert_eq!(replay(&log.lines, &doc3, &new_header, &mut recovered).unwrap(), 1);
    assert_eq!(texts(&recovered, &doc3), expected);
    assert!(recovered.is_dirty());
}

#[test]
fn stale_log_is_reported_when_the_base_changed() {
    let doc = doc_from(b"a\nb\n");
    let mut live = EditSession::default();
    let mut log = attach(&doc, &mut live);
    live.replace_range(&doc, 0, 0, 0, 0, "x").unwrap();
    log.follow(&mut live);
    drop(live);

    let doc2 = doc_from(b"something else entirely\n");
    assert_eq!(inspect(&log.lines, &header_of(&doc2)), RecoveryInfo::Stale);
    let mut recovered = EditSession::default();
    let e = replay(&log.lines, &doc2, &header_of(&doc2), &mut recovered).unwrap_err();
    assert!(matches!(e, Error::Unsupported(_)));
}

#[test]
fn torn_tail_is_ignored() {
    let base = b"one\ntwo\n";
    let doc = doc_from(base);
    let mut live = EditSession::default();
    let mut log = attach(&doc, &mut live);
    live.replace_range(&doc, 0, 3, 0, 3, "!").unwrap();
    live.replace_range(&doc, 1, 0, 1, 0, "> ").unwrap();
    let expected = texts(&live, &doc);
    log.follow(&mut live);
    drop(live);

    log.lines.push(LogLine::Unreadable { complete: false });

    let doc2 = doc_from(base);
    assert_eq!(
        inspect(&log.lines, &header_of(&doc2)),
        RecoveryInfo::Recoverable { transactions: 2 }
    );
    let mut recovered = EditSession::default();
    assert_eq!(
        replay(&log.lines, &doc2, &header_of(&doc2), &mut recovered).unwrap(),
        2
    );
    assert_eq!(texts(&recovered, &doc2), expected);
    assert!(recovered.is_dirty());
}

#[test]
fn undo_across_a_compaction_snapshot_stays_replayable() {
    let base = b"base\n";
    let doc = doc_from(base);
    let mut live = EditSession::default();
    let mut log = attach(&doc, &mut live);
    live.replace_line(&doc, 0, "v1".into()).unwrap();
    live.replace_line(&doc, 0, "v2".into()).unwrap();
    live.wal_compact();
    assert!(live.undo());
    assert!(live.wal().is_some());
    let expected = texts(&live, &doc);
    assert_eq!(expected, vec!["v1"]);
    log.follow(&mut live);
    drop(live);

    let doc2 = doc_from(base);
    assert_eq!(
        inspect(&log.lines, &header_of(&doc2)),
        RecoveryInfo::Recoverable { transactions: 0 }
    );
    let mut recovered = EditSession::default();
    assert_eq!(
        replay(&log.lines, &doc2, &header_of(&doc2), &mut recovered).unwrap(),
        0
    );
    assert_eq!(texts(&recovered, &doc2), expected);
    assert!(recovered.is_dirty());
}

#[test]
fn clone_does_not_carry_the_wal_attachment() {
    let base = b"line\n";
    let doc = doc_from(base);
    let mut live = EditSession::default();
    let mut log = attach(&doc, &mut live);

    let mut snapshot = live.clone();
    assert!(snapshot.wal().is_none(), "clones must not double-log");
    assert!(live.wal().is_some());

    snapshot.replace_line(&doc, 0, "clone-edit".into()).unwrap();
    live.replace_line(&doc, 0, "live-edit".into()).unwrap();
    assert!(snapshot.take_wal_actions().is_empty());
    log.follow(&mut live);
    drop(live);

    let doc2 = doc_from(base);
    let mut recovered = EditSession::default();
    assert_eq!(
        replay(&log.lines, &doc2, &header_of(&doc2), &mut recovered).unwrap(),
        1
    );
    assert_eq!(texts(&recovered, &doc2), vec!["live-edit"]);
}

#[test]
fn no_op_edits_are_not_logged() {
    let doc = doc_from(b"aaa\n");
    let mut live = EditSession::default();
    let _log = attach(&doc, &mut live);
    live.replace_range(&doc, 0, 0, 0, 3, "aaa").unwrap();
    assert!(live.take_wal_actions().is_empty());
    assert!(!live.undo());
    assert!(live.take_wal_actions().is_empty());
}

#[test]
fn missing_or_empty_logs_read_as_clean() {
    let doc = doc_from(b"x\n");
    let expected = header_of(&doc);
    assert_eq!(inspect(&[], &expected), RecoveryInfo::Clean);
    let mut s = EditSession::default();
    assert_eq!(replay(&[], &doc, &expected, &mut s).unwrap(), 0);
    let garbage = [LogLine::Unreadable { complete: true }];
    assert_eq!(inspect(&garbage, &expected), RecoveryInfo::Invalid);
}

const START: &[u8] = b"line0\nline1\nline2\nline3\n";

fn build_logged_session() -> (Log, Vec<String>, bool) {
    let doc = doc_from(START);
    let mut live = EditSession::default();
    let mut log = attach(&doc, &mut live);
    live.replace_line(&doc, 1, "EDITED-1".to_string()).unwrap();
    live.insert_line_before(&doc, 0, "INSERTED".to_string())
        .unwrap();
    live.delete_line(&doc, 3).unwrap();
    live.replace_range(&doc, 0, 0, 0, 0, "X").unwrap();
    log.follow(&mut live);
    (log, texts(&live, &doc), live.is_dirty())
}

#[test]
fn replay_after_crash_restores_the_exact_view_and_dirtiness() {
    let (log, live_view, live_dirty) = build_logged_session();
    let doc2 = doc_from(START);
    let header = header_of(&doc2);
    assert!(matches!(
        inspect(&log.lines, &header),
        RecoveryInfo::Recoverable { .. }
    ));
    let mut recovered = EditSession::default();
    let applied = replay(&log.lines, &doc2, &header, &mut recovered).unwrap();
    assert!(applied >= 1, "replay applied nothing");
    assert_eq!(texts(&recovered, &doc2), live_view, "recovered view mismatch");
    assert_eq!(
        recovered.is_dirty(),
        live_dirty,
        "recovered dirtiness mismatch"
    );
}

#[test]
fn torn_trailing_record_is_ignored_and_committed_prefix_survives() {
    let (mut log, committed_view, _) = build_logged_session();
    log.lines.push(LogLine::Unreadable { complete: false });
    let doc2 = doc_from(START);
    let header = header_of(&doc2);
    assert!(matches!(
        inspect(&log.lines, &header),
        RecoveryInfo::Recoverable { .. }
    ));
    let mut recovered = EditSession::default();
    replay(&log.lines, &doc2, &header, &mut recovered).unwrap();
    assert_eq!(texts(&recovered, &doc2), committed_view);
}

#[test]
fn corruption_is_refused_and_the_base_file_is_left_intact() {
    let (mut log, _, _) = build_logged_session();
    log.lines.push(LogLine::Unreadable { complete: true });
    let doc2 = doc_from(START);
    let header = header_of(&doc2);
    assert_eq!(
        inspect(&log.lines, &header),
        RecoveryInfo::Invalid,
        "corruption must be reported as invalid"
    );
    let mut recovered = EditSession::default();
    let e = replay(&log.lines, &doc2, &header, &mut recovered).unwrap_err();
    assert!(matches!(e, Error::Corrupted(_)));
    assert_eq!(doc2.buf(), START);
}

#[test]
fn a_changed_base_marks_the_log_stale() {
    let (log, _, _) = build_logged_session();
    let doc3 = doc_from(b"a completely different base file\n");
    let header = header_of(&doc3);
    assert_eq!(
        inspect(&log.lines, &header),
        RecoveryInfo::Stale,
        "a changed base must read as stale, not applied blindly"
    );
    let mut recovered = EditSession::default();
    assert!(
        replay(&log.lines, &doc3, &header, &mut recovered).is_err(),
        "replay against a changed base must refuse"
    );
}

#[test]
fn logs_fall_into_lines() {
    let frames = frame_log(b"{\"header\":1}\n\n{\"txn\":2}\n{\"tx");
    let complete: Vec<bool> = frames.iter().map(|f| f.2).collect();
    assert_eq!(complete.last(), Some(&false));
    assert_eq!(frames[0], (0, 13, true));
    assert!(frame_log(b"").is_empty());
}

#[test]
fn a_log_that_cannot_be_written_is_given_up() {
    let doc = doc_from(b"a\n");
    let mut live = EditSession::default();
    let _log = attach(&doc, &mut live);
    live.wal_failed("disk full");
    assert!(live.wal().is_none());
    assert_eq!(live.take_wal_error().as_deref(), Some("crash log disabled: disk full"));
    assert_eq!(live.take_wal_error(), None);
}

#[test]
fn operations_can_be_made_from_log_entries() {
    let doc = doc_from(b"a\nb\n");
    let mut s = EditSession::default();
    s.apply(&doc, &LoggedOp::DeleteLine { line: 0 }).unwrap();
    s.apply(
        &doc,
        &LoggedOp::InsertLine {
            line: 1,
            text: "c".into(),
        },
    )
    .unwrap();
    assert_eq!(texts(&s, &doc), vec!["b", "c"]);
    s.apply(&doc, &LoggedOp::Undo).unwrap();
    assert_eq!(texts(&s, &doc), vec!["b"]);
    s.apply(&doc, &LoggedOp::Redo).unwrap();
    assert_eq!(texts(&s, &doc), vec!["b", "c"]);
    assert!(s.apply(&doc, &LoggedOp::DeleteLine { line: 9 }).is_err());
}

/// Saves the session and starts its log over for the file that was written.
fn save_and_reset(doc: &Document, live: &mut EditSession, log: &mut Log) -> (Vec<u8>, Header) {
    let (saved, _) = live.save_to_path_overwrite(doc, "base.txt").unwrap();
    log.follow(live);
    live.mark_saved();
    let header = Header::for_file(
        "base.txt".to_string(),
        saved.len() as u64,
        1_700_000_000_002,
        doc.encoding().label(),
    );
    let mut writer = live.wal_detach().unwrap();
    log.perform(writer.reset_for_save(header.copy(), doc, live));
    live.wal_restore(Some(writer));
    (saved, header)
}

fn recovered_texts(log: &Log, saved: &[u8], header: &Header) -> Vec<String> {
    let doc = doc_from(saved);
    let mut s = EditSession::default();
    replay(&log.lines, &doc, header, &mut s).unwrap();
    texts(&s, &doc)
}

#[test]
fn an_undo_past_a_save_is_recovered_over_the_saved_file() {
    let doc = doc_from(b"a\nb\nc\nd\n");
    let mut live = EditSession::default();
    let mut log = attach(&doc, &mut live);
    live.delete_line(&doc, 1).unwrap();
    live.insert_line_before(&doc, 0, "new".into()).unwrap();
    live.replace_line(&doc, 3, "D".into()).unwrap();
    assert_eq!(texts(&live, &doc), vec!["new", "a", "c", "D"]);
    let (saved, header) = save_and_reset(&doc, &mut live, &mut log);
    assert_eq!(saved, b"new\na\nc\nD\n");
    assert!(live.wal().unwrap().can_snapshot());
    for expected in [
        vec!["new", "a", "c", "d"],
        vec!["a", "c", "d"],
        vec!["a", "b", "c", "d"],
    ] {
        assert!(live.undo());
        log.follow(&mut live);
        assert_eq!(texts(&live, &doc), expected);
        assert_eq!(recovered_texts(&log, &saved, &header), expected);
    }
    assert!(live.wal().is_some());
    assert!(live.redo());
    live.replace_line(&doc, 0, "A".into()).unwrap();
    live.wal_compact();
    log.follow(&mut live);
    assert_eq!(recovered_texts(&log, &saved, &header), vec!["A", "c", "d"]);
}

#[test]
fn a_log_reset_without_a_capture_makes_no_snapshots() {
    let doc = doc_from(b"a\n");
    let mut live = EditSession::default();
    let mut log = attach(&doc, &mut live);
    live.replace_line(&doc, 0, "b".into()).unwrap();
    log.follow(&mut live);
    let mut writer = live.wal_detach().unwrap();
    log.perform(writer.reset(header_of(&doc)));
    assert!(!writer.can_snapshot());
    live.wal_restore(Some(writer));

    live.wal_compact();
    assert!(live.take_wal_actions().is_empty(), "compaction is skipped");
    assert!(live.wal().is_some());

    assert!(live.undo());
    log.follow(&mut live);
    assert_eq!(log.lines.len(), 1, "the log is left clean");
    assert!(live.wal().is_none());
    assert!(live
        .take_wal_error()
        .unwrap()
        .contains("reset without a session capture"));
}

#[test]
fn random_edits_after_a_save_are_recovered() {
    for seed in 1..40u64 {
        let mut x = seed.wrapping_mul(0x9E37_79B9_7F4A_7C15);
        let mut below = |n: u64| {
            x ^= x << 13;
            x ^= x >> 7;
            x ^= x << 17;
            x % n
        };
        let doc = doc_from(b"one\ntwo\nthree\nfour\nfive\n");
        let mut live = EditSession::default();
        let mut log = attach(&doc, &mut live);
        let mut edit = |live: &mut EditSession, step: u64| {
            let total = live.total_lines(&doc);
            match below(6) {
                0 if total > 0 => live
                    .replace_line(&doc, below(total), format!("R{step}"))
                    .unwrap(),
                1 if total > 0 => live.delete_line(&doc, below(total)).unwrap(),
                2 => {
                    live.undo();
                }
                3 => {
                    live.redo();
                }
                _ => live
                    .insert_line_before(&doc, below(total + 1), format!("I{step}"))
                    .unwrap(),
            }
        };
        for step in 0..12 {
            edit(&mut live, step);
        }
        let (saved, header) = save_and_reset(&doc, &mut live, &mut log);
        for step in 12..40 {
            edit(&mut live, step);
            if step % 7 == 0 {
                live.wal_compact();
            }
            log.follow(&mut live);
            assert_eq!(
                recovered_texts(&log, &saved, &header),
                texts(&live, &doc),
                "seed {seed} step {step}"
            );
        }
        assert!(live.wal().is_some());
    }
}

#[test]
fn a_log_that_was_never_compacted_repeats_the_session() {
    let doc = doc_from(b"one\ntwo\nthree\n");
    let mut live = EditSession::default();
    let mut log = attach(&doc, &mut live);
    live.replace_line(&doc, 0, "1".into()).unwrap();
    live.replace_line(&doc, 0, "1".into()).unwrap();
    live.delete_line(&doc, 1).unwrap();
    live.insert_line_before(&doc, 2, "four".into()).unwrap();
    assert!(live.undo() && live.undo() && live.redo());
    log.follow(&mut live);
    log.lines.push(LogLine::Unreadable { complete: false });
    let mut again = EditSession::default();
    let n = replay(&log.lines, &doc, &header_of(&doc), &mut again).unwrap();
    assert_eq!(n, 6, "one transaction for each change");
    assert_eq!(texts(&again, &doc), texts(&live, &doc));
    assert_eq!(again.is_dirty(), live.is_dirty());
    assert_eq!(again.write_stream(&doc).unwrap(), live.write_stream(&doc).unwrap());
    loop {
        assert_eq!(again.can_redo(), live.can_redo());
        if !live.redo() {
            break;
        }
        assert!(again.redo());
        assert_eq!(texts(&again, &doc), texts(&live, &doc));
    }
    loop {
        assert_eq!(again.can_undo(), live.can_undo());
        assert_eq!(again.is_dirty(), live.is_dirty());
        if !live.undo() {
            break;
        }
        assert!(again.undo());
        assert_eq!(texts(&again, &doc), texts(&live, &doc));
    }
    assert!(!again.is_dirty());
}

#[test]
fn a_log_repeats_a_run_of_any_calls() {
    let base = b"one\ntwo\nthree";
    let doc = doc_from(base);
    let mut live = EditSession::default();
    let mut log = attach(&doc, &mut live);
    // Calls that change nothing, or are refused, leave no trace.
    assert!(!live.undo());
    live.replace_line(&doc, 0, "one".into()).unwrap();
    assert!(live.replace_line(&doc, 9, "x".into()).is_err());
    live.replace_line(&doc, 0, "1".into()).unwrap();
    log.follow(&mut live);
    live.insert_line_before(&doc, 3, "four".into()).unwrap();
    live.delete_line(&doc, 1).unwrap();
    assert!(live.undo());
    log.follow(&mut live);
    assert!(live.undo());
    assert!(live.redo());
    assert!(live.redo());
    assert!(!live.redo());
    live.replace_range(&doc, 0, 0, 1, 0, "").unwrap();
    live.replace_batch(&doc, &[]).unwrap();
    assert!(live.undo());
    log.follow(&mut live);

    let current = header_of(&doc);
    for torn in [false, true] {
        if torn {
            log.lines.push(LogLine::Unreadable { complete: false });
        }
        let mut again = EditSession::default();
        assert_eq!(replay(&log.lines, &doc, &current, &mut again).unwrap(), 9);
        assert_eq!(texts(&again, &doc), texts(&live, &doc));
        assert_eq!(texts(&again, &doc), vec!["1", "three", "four"]);
        assert_eq!(again.is_dirty(), live.is_dirty());
        assert_eq!((again.can_undo(), again.can_redo()), (live.can_undo(), live.can_redo()));
        assert!(again.can_redo());
    }
}
