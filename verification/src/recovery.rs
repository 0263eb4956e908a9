//! Recovery after a crash: what a log holds, and how it is replayed.

use vstd::prelude::*;
use vstd::string::*;

use crate::document::Document;
use crate::error::{Error, ErrorView};
use crate::model::{pushed, step_fault, stepped, Model};
use crate::overlay::{
    block, fits, lemma_between, lemma_split, no_event, ordered_anchors, shown, upto, EventView,
};
use crate::rebase::{captured, moved_overlays_show_the_same};
use crate::session::{fresh, in_reach, op_in_reach, EditSession, JournalView};
use crate::text::same_text;
use crate::wal::{
    ActionView, Header, HeaderView, LoggedOpView, OverlaySnapshot, Record, RecordView,
    SnapshotView, WalView, HISTORY_LIMIT, WAL_VERSION,
};

verus! {

/// What was found at a log path.
#[derive(Clone, Copy, Debug, PartialEq, Eq, Structural)]
pub enum RecoveryInfo {
    /// No log, or nothing in it to replay.
    Clean,
    /// The log matches the file and holds unsaved edits. A snapshot alone is
    /// recovered with no transaction.
    Recoverable { transactions: usize },
    /// The log was recorded against another version of the file.
    Stale,
    /// The log cannot be used.
    Invalid,
}

/// One line of a log file, as it was read.
#[derive(Clone, Debug)]
pub enum LogLine {
    Entry(Record),
    /// Not a record; `complete` if a newline ends it.
    Unreadable { complete: bool },
}

#[verifier::ext_equal]
pub enum LogLineView {
    Entry(RecordView),
    Unreadable(bool),
}

impl View for LogLine {
    type V = LogLineView;

    open spec fn view(&self) -> LogLineView {
        match self {
            LogLine::Entry(r) => LogLineView::Entry(r@),
            LogLine::Unreadable { complete } => LogLineView::Unreadable(*complete),
        }
    }
}

/// The views of the lines of a log.
pub open spec fn log_view(v: Seq<LogLine>) -> Seq<LogLineView> {
    v.map_values(|x: LogLine| x@)
}

/// The lines of a log file: where each starts and ends, and whether a newline
/// ends it.
pub open spec fn framed(bytes: Seq<u8>, from: int) -> Seq<(int, int, bool)>
    decreases bytes.len() - from,
    via framed_decreases
{
    if from < 0 || from >= bytes.len() {
        Seq::empty()
    } else {
        let e = newline_from(bytes, from);
        if e < bytes.len() {
            seq![(from, e + 1, true)] + framed(bytes, e + 1)
        } else {
            seq![(from, e, false)]
        }
    }
}

#[via_fn]
proof fn framed_decreases(bytes: Seq<u8>, from: int) {
    if 0 <= from < bytes.len() {
        lemma_newline_from(bytes, from);
    }
}

proof fn lemma_newline_from(bytes: Seq<u8>, from: int)
    requires
        0 <= from <= bytes.len(),
    ensures
        from <= newline_from(bytes, from) <= bytes.len(),
    decreases bytes.len() - from,
{
    if from < bytes.len() && bytes[from] != 10 {
        lemma_newline_from(bytes, from + 1);
    }
}

/// The first newline at or after `from`; the end if there is none.
pub open spec fn newline_from(bytes: Seq<u8>, from: int) -> int
    decreases bytes.len() - from,
{
    if from < 0 || from >= bytes.len() {
        bytes.len() as int
    } else if bytes[from] == 10 {
        from
    } else {
        newline_from(bytes, from + 1)
    }
}

pub open spec fn frames_view(v: Seq<(usize, usize, bool)>) -> Seq<(int, int, bool)> {
    v.map_values(|f: (usize, usize, bool)| (f.0 as int, f.1 as int, f.2))
}

/// Cuts the bytes of a log file into lines.
pub fn frame_log(bytes: &[u8]) -> (v: Vec<(usize, usize, bool)>)
    ensures
        frames_view(v@) == framed(bytes@, 0),
{
    let mut v: Vec<(usize, usize, bool)> = Vec::new();
    let mut from: usize = 0;
    let mut at: usize = 0;
    let n = bytes.len();
    assert(frames_view(v@) + framed(bytes@, 0) =~= framed(bytes@, 0));
    while at < n
        invariant
            n == bytes@.len(),
            from <= at <= n,
            newline_from(bytes@, from as int) == newline_from(bytes@, at as int),
            frames_view(v@) + framed(bytes@, from as int) == framed(bytes@, 0),
        decreases n - at,
    {
        if bytes[at] == 10 {
            let ghost old_frames = frames_view(v@);
            v.push((from, at + 1, true));
            assert(frames_view(v@) =~= old_frames.push((from as int, at + 1, true)));
            assert(framed(bytes@, from as int) == seq![(from as int, at + 1, true)] + framed(
                bytes@,
                at + 1,
            ));
            assert(frames_view(v@) + framed(bytes@, at + 1) =~= old_frames + framed(
                bytes@,
                from as int,
            ));
            from = at + 1;
        }
        at = at + 1;
    }
    if from < n {
        let ghost old_frames = frames_view(v@);
        v.push((from, n, false));
        assert(frames_view(v@) =~= old_frames.push((from as int, n as int, false)));
        assert(framed(bytes@, from as int) =~= seq![(from as int, n as int, false)]);
    } else {
        assert(framed(bytes@, from as int) =~= Seq::empty());
    }
    assert(frames_view(v@) =~= framed(bytes@, 0));
    v
}

// ---- inspection --------------------------------------------------------------

pub open spec fn tallied(transactions: nat, effective: bool) -> RecoveryInfo {
    if transactions > 0 || effective {
        RecoveryInfo::Recoverable { transactions: transactions as usize }
    } else {
        RecoveryInfo::Clean
    }
}

/// What the lines of a log from `i` on hold, after the given transactions and
/// a snapshot that was effective or not.
pub open spec fn surveyed(
    lines: Seq<LogLineView>,
    i: int,
    transactions: nat,
    effective: bool,
) -> RecoveryInfo
    decreases lines.len() - i,
{
    if i < 0 || i >= lines.len() {
        tallied(transactions, effective)
    } else {
        match lines[i] {
            LogLineView::Entry(RecordView::Txn(_)) => surveyed(
                lines,
                i + 1,
                transactions + 1,
                effective,
            ),
            LogLineView::Entry(RecordView::Snapshot(s)) => surveyed(lines, i + 1, 0, s.effective()),
            // A line that is complete and yet no record is corruption.
            LogLineView::Unreadable(true) => RecoveryInfo::Invalid,
            // A header that is not the first line, or a line that was cut
            // short, ends what can be trusted.
            _ => tallied(transactions, effective),
        }
    }
}

/// What a log holds for the file that `expected` describes.
pub open spec fn inspected(lines: Seq<LogLineView>, expected: HeaderView) -> RecoveryInfo {
    if lines.len() == 0 {
        RecoveryInfo::Clean
    } else {
        match lines[0] {
            LogLineView::Entry(RecordView::Header(h)) => if h.version != WAL_VERSION {
                RecoveryInfo::Invalid
            } else if !h.same_base(expected) {
                RecoveryInfo::Stale
            } else {
                surveyed(lines, 1, 0, false)
            },
            _ => RecoveryInfo::Invalid,
        }
    }
}

/// Whether a log holds unsaved edits for a file.
pub fn inspect(lines: &[LogLine], expected: &Header) -> (info: RecoveryInfo)
    ensures
        info == inspected(log_view(lines@), expected@),
{
    let ghost lv = log_view(lines@);
    if lines.len() == 0 {
        return RecoveryInfo::Clean;
    }
    assert(lv[0] == lines@[0]@);
    match &lines[0] {
        LogLine::Entry(Record::Header(h)) => {
            if h.version != WAL_VERSION {
                return RecoveryInfo::Invalid;
            }
            if !h.matches_base(expected) {
                return RecoveryInfo::Stale;
            }
        },
        _ => {
            return RecoveryInfo::Invalid;
        },
    }
    let mut transactions: usize = 0;
    let mut effective = false;
    let mut i: usize = 1;
    while i < lines.len()
        invariant
            lv == log_view(lines@),
            1 <= i <= lines@.len(),
            transactions < i,
            surveyed(lv, 1, 0, false) == surveyed(lv, i as int, transactions as nat, effective),
            inspected(lv, expected@) == surveyed(lv, 1, 0, false),
        decreases lines.len() - i,
    {
        assert(lv[i as int] == lines@[i as int]@);
        match &lines[i] {
            LogLine::Entry(Record::Txn { .. }) => {
                transactions = transactions + 1;
            },
            LogLine::Entry(Record::Snapshot { overlay }) => {
                transactions = 0;
                effective = overlay.is_effective();
            },
            LogLine::Unreadable { complete } => {
                if *complete {
                    return RecoveryInfo::Invalid;
                }
                return if transactions > 0 || effective {
                    RecoveryInfo::Recoverable { transactions }
                } else {
                    RecoveryInfo::Clean
                };
            },
            LogLine::Entry(Record::Header(_)) => {
                return if transactions > 0 || effective {
                    RecoveryInfo::Recoverable { transactions }
                } else {
                    RecoveryInfo::Clean
                };
            },
        }
        i += 1;
    }
    if transactions > 0 || effective {
        RecoveryInfo::Recoverable { transactions }
    } else {
        RecoveryInfo::Clean
    }
}

// ---- replay ------------------------------------------------------------------

/// The model after an image of the overlay was restored.
pub open spec fn restored(m: Model, s: SnapshotView, l: Seq<Seq<char>>) -> Model {
    Model {
        lines: shown(s.events, l),
        undo: Seq::empty(),
        redo: Seq::empty(),
        revision: m.revision.wrapping_add(1),
        content_gen: if s.dirty { 1 } else { 0 },
        next_gen: 2,
        saved_gen: 0,
    }
}

pub open spec fn no_header() -> ErrorView {
    ErrorView::Unsupported("the crash log has no readable header"@)
}

pub open spec fn stale_log() -> ErrorView {
    ErrorView::Unsupported("the crash log does not match the file on disk (stale log)"@)
}

pub open spec fn corrupt_log() -> ErrorView {
    ErrorView::Corrupted("the crash log holds a line that is no record"@)
}

pub open spec fn misfit_snapshot() -> ErrorView {
    ErrorView::Corrupted("the crash log holds a snapshot of another document"@)
}

pub open spec fn oversized_step() -> ErrorView {
    ErrorView::Corrupted("the crash log holds an edit that is too large"@)
}

/// What replaying the lines of a log from `i` on does to a session: its model
/// after, and how many transactions were applied since the last snapshot, or
/// why it stopped.
pub open spec fn replayed(
    m: Model,
    l: Seq<Seq<char>>,
    lines: Seq<LogLineView>,
    i: int,
    count: nat,
) -> (Model, Result<nat, ErrorView>)
    decreases lines.len() - i,
{
    if i < 0 || i >= lines.len() {
        (m, Ok(count))
    } else {
        match lines[i] {
            LogLineView::Entry(RecordView::Txn(op)) => if m.next_gen == u64::MAX || !op_in_reach(
                m.lines.len(),
                op,
            ) {
                (m, Err(oversized_step()))
            } else {
                match stepped(m, op) {
                    Some(m2) => replayed(m2, l, lines, i + 1, count + 1),
                    None => (m, Err(step_fault(m, op))),
                }
            },
            LogLineView::Entry(RecordView::Snapshot(s)) => if fits(s.events, l) {
                replayed(restored(m, s, l), l, lines, i + 1, 0)
            } else {
                (m, Err(misfit_snapshot()))
            },
            LogLineView::Unreadable(true) => (m, Err(corrupt_log())),
            _ => (m, Ok(count)),
        }
    }
}

/// What replaying a log does, if it is one for the file that `current`
/// describes.
pub open spec fn replay_outcome(
    m: Model,
    l: Seq<Seq<char>>,
    lines: Seq<LogLineView>,
    current: HeaderView,
) -> (Model, Result<nat, ErrorView>) {
    if lines.len() == 0 {
        (m, Ok(0))
    } else {
        match lines[0] {
            LogLineView::Entry(RecordView::Header(h)) => if h.version != WAL_VERSION
                || !h.same_base(current) {
                (m, Err(stale_log()))
            } else {
                replayed(m, l, lines, 1, 0)
            },
            _ => (m, Err(no_header())),
        }
    }
}

/// Whether an image of an overlay is one over the lines of a document.
pub fn snapshot_fits(doc: &Document, snap: &OverlaySnapshot) -> (b: bool)
    requires
        doc.wf(),
    ensures
        b == fits(snap@.events, doc@.lines()),
{
    let ghost l = doc@.lines();
    let ghost m = snap@.events;
    let n = doc.line_count();
    if n == u64::MAX {
        return false;
    }
    let v = snap.events.anchors();
    // How many lines are shown before the anchor `at`.
    let mut total: u64 = 0;
    let mut at: u64 = 0;
    let mut i: usize = 0;
    while i < v.len()
        invariant
            doc.wf(),
            l == doc@.lines(),
            m == snap@.events,
            n == l.len(),
            n < u64::MAX,
            ordered_anchors(m, v@),
            i <= v@.len(),
            at <= n + 1,
            i > 0 ==> at == v@[i - 1] + 1,
            i == 0 ==> at == 0,
            total == upto(m, l, at as int).len(),
            forall|j: int|
                0 <= j < i ==> {
                    let a = #[trigger] v@[j];
                    &&& m[a] != no_event()
                    &&& a <= l.len()
                    &&& a == l.len() ==> m[a].replacement is None && !m[a].deleted
                    &&& a < l.len() ==> m[a].replacement != Some(l[a as int])
                    &&& m[a].deleted ==> m[a].replacement is None
                },
        decreases v.len() - i,
    {
        let a = v[i];
        assert(m.contains_key(a));
        if a > n {
            return false;
        }
        proof {
            if i > 0 {
                assert(v@[i - 1] < v@[i as int]);
            }
            lemma_between(m, v@, i as int, at as int, a as int);
            lemma_gap_len(m, l, at as int, a as int);
            lemma_upto_mono(m, l, a as int + 1);
        }
        let gap = a - at;
        let here = match total.checked_add(gap) {
            Some(t) => t,
            None => {
                proof {
                    lemma_upto_mono(m, l, a as int);
                }
                return false;
            },
        };
        let e = match snap.events.get(a) {
            Some(e) => e,
            None => {
                return false;
            },
        };
        assert(e@ == m[a]);
        assert(e.inserts@.len() == e@.inserts.len());
        if e.inserts.len() == 0 && e.replacement.is_none() && !e.deleted {
            assert(e@ =~= no_event());
            return false;
        }
        assert(e@ != no_event());
        if e.deleted && e.replacement.is_some() {
            return false;
        }
        if a == n {
            if e.deleted || e.replacement.is_some() {
                return false;
            }
        } else {
            if let Some(t) = &e.replacement {
                if let Some(own) = doc.line(a) {
                    if same_text(t.as_str(), own.as_str()) {
                        assert(m[a].replacement == Some(l[a as int]));
                        return false;
                    }
                    assert(l[a as int] == own@);
                }
            }
        }
        let own: u64 = if a < n && !e.deleted {
            1
        } else {
            0
        };
        assert(block(m, l, a as int).len() == e@.inserts.len() + own);
        assert(upto(m, l, a + 1).len() == here + e@.inserts.len() + own);
        let more = match (e.inserts.len() as u64).checked_add(own) {
            Some(x) => x,
            None => {
                return false;
            },
        };
        total = match here.checked_add(more) {
            Some(t) => t,
            None => {
                return false;
            },
        };
        at = a + 1;
        i += 1;
    }
    proof {
        lemma_between(m, v@, v@.len() as int, at as int, n + 1);
        lemma_gap_len(m, l, at as int, if at <= n { n as int } else { at as int });
        assert forall|a: u64| #[trigger] m.contains_key(a) implies {
            &&& m[a] != no_event()
            &&& a <= l.len()
            &&& a == l.len() ==> m[a].replacement is None && !m[a].deleted
            &&& a < l.len() ==> m[a].replacement != Some(l[a as int])
            &&& m[a].deleted ==> m[a].replacement is None
        } by {
            assert(v@.contains(a));
            let j = choose|j: int| 0 <= j < v@.len() && v@[j] == a;
            assert(m[v@[j]] != no_event());
        }
    }
    if at <= n {
        proof {
            assert(!m.contains_key(n));
            assert(block(m, l, n as int).len() == 0);
            assert(shown(m, l).len() == upto(m, l, n as int).len());
        }
        total.checked_add(n - at).is_some()
    } else {
        true
    }
}

proof fn lemma_gap_len(m: Map<u64, EventView>, l: Seq<Seq<char>>, a: int, b: int)
    requires
        0 <= a <= b,
        a < b ==> b <= l.len(),
        l.len() < u64::MAX,
        forall|k: u64| a <= k < b ==> !#[trigger] m.contains_key(k),
    ensures
        upto(m, l, b).len() == upto(m, l, a).len() + (b - a),
    decreases b - a,
{
    if a < b {
        lemma_gap_len(m, l, a, b - 1);
        assert(!m.contains_key((b - 1) as u64));
        assert(block(m, l, b - 1).len() == 1);
    }
}

proof fn lemma_upto_mono(m: Map<u64, EventView>, l: Seq<Seq<char>>, a: int)
    requires
        0 <= a <= l.len() + 1,
    ensures
        upto(m, l, a).len() <= shown(m, l).len(),
{
    lemma_split(m, l, a);
}

/// Replays a log into a session over the reopened base. A crash log that is
/// attached to the session is not written meanwhile. After an error the
/// session is to be discarded.
pub fn replay(lines: &[LogLine], doc: &Document, current: &Header, session: &mut EditSession) -> (r:
    Result<usize, Error>)
    requires
        doc.wf(),
        old(session).wf(doc@.lines()),
    ensures
        ({
            let l = doc@.lines();
            let out = replay_outcome(old(session).model(l), l, log_view(lines@), current@);
            &&& final(session).wf(l)
            &&& final(session).model(l) == out.0
            &&& final(session).journal().wal == old(session).journal().wal
            &&& final(session).journal().outbox == old(session).journal().outbox
            &&& match r {
                Ok(n) => out.1 == Ok::<nat, ErrorView>(n as nat),
                Err(e) => out.1 == Err::<nat, ErrorView>(e@),
            }
        }),
{
    let ghost l = doc@.lines();
    proof {
        session.lemma_wf(l);
    }
    let attached = session.wal_detach();
    let r = replay_lines(lines, doc, current, session);
    proof {
        session.lemma_wf(l);
    }
    session.wal_restore(attached);
    r
}

fn replay_lines(lines: &[LogLine], doc: &Document, current: &Header, session: &mut EditSession) -> (r:
    Result<usize, Error>)
    requires
        doc.wf(),
        old(session).wf(doc@.lines()),
        old(session).journal().wal is None,
    ensures
        ({
            let l = doc@.lines();
            let out = replay_outcome(old(session).model(l), l, log_view(lines@), current@);
            &&& final(session).wf(l)
            &&& final(session).model(l) == out.0
            &&& final(session).journal() == old(session).journal()
            &&& match r {
                Ok(n) => out.1 == Ok::<nat, ErrorView>(n as nat),
                Err(e) => out.1 == Err::<nat, ErrorView>(e@),
            }
        }),
{
    let ghost l = doc@.lines();
    let ghost lv = log_view(lines@);
    let ghost s0 = *session;
    let ghost out = replay_outcome(s0.model(l), l, lv, current@);
    if lines.len() == 0 {
        return Ok(0);
    }
    assert(lv[0] == lines@[0]@);
    match &lines[0] {
        LogLine::Entry(Record::Header(h)) => {
            if h.version != WAL_VERSION || !h.matches_base(current) {
                return Err(
                    Error::Unsupported(
                        "the crash log does not match the file on disk (stale log)".to_owned(),
                    ),
                );
            }
        },
        _ => {
            return Err(Error::Unsupported("the crash log has no readable header".to_owned()));
        },
    }
    let mut count: usize = 0;
    let mut i: usize = 1;
    while i < lines.len()
        invariant
            doc.wf(),
            l == doc@.lines(),
            lv == log_view(lines@),
            1 <= i <= lines@.len(),
            count < i,
            session.wf(l),
            session.journal() == s0.journal(),
            s0.journal().wal is None,
            s0 == *old(session),
            out == replay_outcome(s0.model(l), l, lv, current@),
            out == replayed(session.model(l), l, lv, i as int, count as nat),
        decreases lines.len() - i,
    {
        assert(lv[i as int] == lines@[i as int]@);
        let ghost m = session.model(l);
        match &lines[i] {
            LogLine::Entry(Record::Txn { op }) => {
                let total = session.total_lines(doc);
                if session.generations_over() || !in_reach(total, op) {
                    return Err(
                        Error::Corrupted("the crash log holds an edit that is too large".to_owned()),
                    );
                }
                match session.apply(doc, op) {
                    Ok(()) => {},
                    Err(e) => {
                        return Err(e);
                    },
                }
                assert(stepped(m, op@) == Some(session.model(l)));
                count = count + 1;
            },
            LogLine::Entry(Record::Snapshot { overlay }) => {
                if !snapshot_fits(doc, overlay) {
                    return Err(
                        Error::Corrupted(
                            "the crash log holds a snapshot of another document".to_owned(),
                        ),
                    );
                }
                proof {
                    session.lemma_wf(l);
                }
                session.restore_overlay(
                    OverlaySnapshot { events: overlay.events.copy(), dirty: overlay.dirty },
                );
                assert(session.wf(l));
                assert(session.model(l) == restored(m, overlay@, l));
                count = 0;
            },
            LogLine::Unreadable { complete } => {
                if *complete {
                    return Err(
                        Error::Corrupted("the crash log holds a line that is no record".to_owned()),
                    );
                }
                return Ok(count);
            },
            LogLine::Entry(Record::Header(_)) => {
                return Ok(count);
            },
        }
        i += 1;
    }
    Ok(count)
}

// ---- the log follows the session ---------------------------------------------

pub open spec fn entries_of(log: Seq<RecordView>) -> Seq<LogLineView> {
    log.map_values(|r: RecordView| LogLineView::Entry(r))
}

/// A log after something was done to it.
pub open spec fn written(log: Seq<RecordView>, a: ActionView) -> Seq<RecordView> {
    match a {
        ActionView::Append(op) => log.push(RecordView::Txn(op)),
        ActionView::Rewrite(h, None) => seq![RecordView::Header(h)],
        ActionView::Rewrite(h, Some(s)) => seq![RecordView::Header(h), RecordView::Snapshot(s)],
    }
}

/// Two contents are the same, and both or neither are the saved ones.
pub open spec fn same_content(
    a: (Seq<Seq<char>>, u64),
    b: (Seq<Seq<char>>, u64),
    a_saved: u64,
    b_saved: u64,
) -> bool {
    a.0 == b.0 && (a.1 == a_saved) == (b.1 == b_saved)
}

/// The top of a stack has the contents of another stack.
pub open spec fn top_agrees(
    whole: Seq<(Seq<Seq<char>>, u64)>,
    top: Seq<(Seq<Seq<char>>, u64)>,
    whole_saved: u64,
    top_saved: u64,
) -> bool {
    &&& top.len() <= whole.len() <= HISTORY_LIMIT
    &&& forall|i: int|
        0 <= i < top.len() ==> same_content(
            whole[whole.len() - top.len() + i],
            #[trigger] top[i],
            whole_saved,
            top_saved,
        )
}

/// A replayed session shows what the live one shows, is dirty where that one
/// is, and can undo and redo as far as the log reaches back.
pub open spec fn tracks(w: WalView, live: Model, rep: Model) -> bool {
    &&& rep.lines == live.lines
    &&& rep.dirty() == live.dirty()
    &&& rep.undo.len() == w.undo
    &&& rep.redo.len() == w.redo
    &&& top_agrees(live.undo, rep.undo, live.saved_gen, rep.saved_gen)
    &&& top_agrees(live.redo, rep.redo, live.saved_gen, rep.saved_gen)
    &&& live.saved_gen < live.next_gen
    &&& rep.saved_gen < rep.next_gen
    &&& 1 <= live.next_gen
    &&& rep.next_gen <= live.next_gen + 1
}

/// Replaying the log into a new session gives one that tracks the live one.
pub open spec fn mirrors(
    l: Seq<Seq<char>>,
    log: Seq<RecordView>,
    w: WalView,
    live: Model,
) -> bool {
    &&& log.len() > 0
    &&& log[0] == RecordView::Header(w.header)
    &&& forall|i: int| 1 <= i < log.len() ==> !(#[trigger] log[i] is Header)
    &&& {
        let out = replayed(fresh(l), l, entries_of(log), 1, 0);
        out.1 is Ok && tracks(w, live, out.0)
    }
}

proof fn lemma_replay_append(
    m: Model,
    l: Seq<Seq<char>>,
    log: Seq<RecordView>,
    op: LoggedOpView,
    i: int,
    count: nat,
)
    requires
        1 <= i <= log.len(),
        forall|j: int| 1 <= j < log.len() ==> !(#[trigger] log[j] is Header),
        replayed(m, l, entries_of(log), i, count).1 is Ok,
    ensures
        ({
            let out = replayed(m, l, entries_of(log), i, count);
            let more = entries_of(log.push(RecordView::Txn(op)));
            replayed(m, l, more, i, count) == replayed(
                out.0,
                l,
                more,
                log.len() as int,
                out.1->Ok_0,
            )
        }),
    decreases log.len() - i,
{
    let e = entries_of(log);
    let more = entries_of(log.push(RecordView::Txn(op)));
    if i < log.len() {
        assert(more[i] == e[i]);
        match log[i] {
            RecordView::Txn(o) => {
                assert(e[i] == LogLineView::Entry(RecordView::Txn(o)));
                if let Some(m2) = stepped(m, o) {
                    lemma_replay_append(m2, l, log, op, i + 1, count + 1);
                }
            },
            RecordView::Snapshot(s) => {
                assert(e[i] == LogLineView::Entry(RecordView::Snapshot(s)));
                lemma_replay_append(restored(m, s, l), l, log, op, i + 1, 0);
            },
            RecordView::Header(h) => {},
        }
    }
}

proof fn lemma_top_pushed(
    whole: Seq<(Seq<Seq<char>>, u64)>,
    top: Seq<(Seq<Seq<char>>, u64)>,
    a: (Seq<Seq<char>>, u64),
    b: (Seq<Seq<char>>, u64),
    ws: u64,
    ts: u64,
)
    requires
        top_agrees(whole, top, ws, ts),
        same_content(a, b, ws, ts),
    ensures
        top_agrees(pushed(whole, a), pushed(top, b), ws, ts),
        pushed(top, b).len() == if top.len() < HISTORY_LIMIT { top.len() + 1 } else { top.len() },
{
    let w2 = pushed(whole, a);
    let t2 = pushed(top, b);
    assert forall|i: int| 0 <= i < t2.len() implies same_content(
        w2[w2.len() - t2.len() + i],
        #[trigger] t2[i],
        ws,
        ts,
    ) by {
        if i < t2.len() - 1 {
            if top.len() == HISTORY_LIMIT {
                assert(t2[i] == top[i + 1]);
            } else {
                assert(t2[i] == top[i]);
            }
        }
    }
}

proof fn lemma_top_popped(
    whole: Seq<(Seq<Seq<char>>, u64)>,
    top: Seq<(Seq<Seq<char>>, u64)>,
    ws: u64,
    ts: u64,
)
    requires
        top_agrees(whole, top, ws, ts),
        top.len() > 0,
    ensures
        top_agrees(whole.drop_last(), top.drop_last(), ws, ts),
        same_content(whole.last(), top.last(), ws, ts),
{
    assert(same_content(whole[whole.len() - 1], top[top.len() - 1], ws, ts));
    let w2 = whole.drop_last();
    let t2 = top.drop_last();
    assert forall|i: int| 0 <= i < t2.len() implies same_content(
        w2[w2.len() - t2.len() + i],
        #[trigger] t2[i],
        ws,
        ts,
    ) by {
        assert(t2[i] == top[i]);
    }
}

/// A step that the log can replay keeps a replayed session on the track of the
/// live one.
proof fn lemma_step_tracks(w: WalView, live: Model, rep: Model, op: LoggedOpView)
    requires
        tracks(w, live, rep),
        w.can_replay(op),
        stepped(live, op) is Some,
        stepped(live, op) != Some(live),
        live.next_gen < u64::MAX - 1,
    ensures
        stepped(rep, op) is Some,
        tracks(w.logged(op), stepped(live, op)->Some_0, stepped(rep, op)->Some_0),
{
    let live2 = stepped(live, op)->Some_0;
    let rep2 = stepped(rep, op)->Some_0;
    match op {
        LoggedOpView::Undo => {
            lemma_top_popped(live.undo, rep.undo, live.saved_gen, rep.saved_gen);
            lemma_top_pushed(
                live.redo,
                rep.redo,
                (live.lines, live.content_gen),
                (rep.lines, rep.content_gen),
                live.saved_gen,
                rep.saved_gen,
            );
        },
        LoggedOpView::Redo => {
            lemma_top_popped(live.redo, rep.redo, live.saved_gen, rep.saved_gen);
            lemma_top_pushed(
                live.undo,
                rep.undo,
                (live.lines, live.content_gen),
                (rep.lines, rep.content_gen),
                live.saved_gen,
                rep.saved_gen,
            );
        },
        _ => {
            lemma_top_pushed(
                live.undo,
                rep.undo,
                (live.lines, live.content_gen),
                (rep.lines, rep.content_gen),
                live.saved_gen,
                rep.saved_gen,
            );
            assert(live2 == live.committed(live2.lines));
            assert(rep2 == rep.committed(live2.lines));
        },
    }
}

/// The log has a base with these lines, for a session over a document with
/// lines `l`: the document itself, or the file that a save wrote.
pub open spec fn based(w: WalView, l: Seq<Seq<char>>, base: Seq<Seq<char>>) -> bool {
    if w.same_base {
        base == l
    } else {
        match w.rebase {
            Some(c) => {
                &&& fits(c.overlay, l)
                &&& c == captured(c.overlay, l)
                &&& base == shown(c.overlay, l)
                &&& base.len() < u64::MAX
            },
            None => false,
        }
    }
}

/// A log that holds its header alone mirrors a session that shows the document
/// and has nothing to undo.
pub proof fn new_log_mirrors(l: Seq<Seq<char>>, header: HeaderView)
    ensures
        ({
            let w = WalView { header, undo: 0, redo: 0, same_base: true, rebase: None };
            &&& based(w, l, l)
            &&& mirrors(l, seq![RecordView::Header(header)], w, fresh(l))
        }),
{
}

/// After a save, a log that was started over for the file that was written
/// mirrors the session that was saved.
pub proof fn reset_log_mirrors(
    l: Seq<Seq<char>>,
    header: HeaderView,
    events: Map<u64, EventView>,
    live: Model,
)
    requires
        fits(events, l),
        shown(events, l) == live.lines,
        live.lines.len() < u64::MAX,
        live.undo.len() <= HISTORY_LIMIT,
        live.redo.len() <= HISTORY_LIMIT,
        live.next_gen >= 1,
        !live.dirty(),
        live.saved_gen < live.next_gen,
    ensures
        ({
            let w = WalView {
                header,
                undo: 0,
                redo: 0,
                same_base: false,
                rebase: Some(captured(events, l)),
            };
            &&& based(w, l, live.lines)
            &&& mirrors(live.lines, seq![RecordView::Header(header)], w, live)
        }),
{
}

/// Whatever a session commits, its log goes on mirroring it: replayed over its
/// base after a crash, it gives the lines that were shown, dirty where they
/// were, and undo and redo as far as the log reaches back.
pub proof fn log_follows_the_session(
    l: Seq<Seq<char>>,
    base: Seq<Seq<char>>,
    log: Seq<RecordView>,
    j: JournalView,
    live: Model,
    op: LoggedOpView,
    events: Map<u64, EventView>,
)
    requires
        j.wal is Some,
        based(j.wal->Some_0, l, base),
        mirrors(base, log, j.wal->Some_0, live),
        stepped(live, op) is Some,
        stepped(live, op) != Some(live),
        op_in_reach(live.lines.len(), op),
        live.undo.len() <= HISTORY_LIMIT,
        live.redo.len() <= HISTORY_LIMIT,
        live.next_gen < u64::MAX - 1,
        fits(events, l),
        shown(events, l) == stepped(live, op)->Some_0.lines,
    ensures
        ({
            let live2 = stepped(live, op)->Some_0;
            let j2 = j.committed(op, SnapshotView { events, dirty: live2.dirty() });
            &&& j2.wal is Some
            &&& j2.outbox.len() == j.outbox.len() + 1
            &&& j2.outbox.drop_last() == j.outbox
            &&& based(j2.wal->Some_0, l, base)
            &&& mirrors(base, written(log, j2.outbox.last()), j2.wal->Some_0, live2)
        }),
{
    let w = j.wal->Some_0;
    let live2 = stepped(live, op)->Some_0;
    let snap = SnapshotView { events, dirty: live2.dirty() };
    let j2 = j.committed(op, snap);
    let w2 = j2.wal->Some_0;
    let a = j2.outbox.last();
    let log2 = written(log, a);
    assert(j2.outbox.drop_last() =~= j.outbox);
    if w.can_replay(op) {
        let out = replayed(fresh(base), base, entries_of(log), 1, 0);
        lemma_replay_append(fresh(base), base, log, op, 1, 0);
        lemma_step_tracks(w, live, out.0, op);
        let n = log.len() as int;
        assert(entries_of(log2)[n] == LogLineView::Entry(RecordView::Txn(op)));
        let rep2 = stepped(out.0, op)->Some_0;
        assert(replayed(rep2, base, entries_of(log2), n + 1, out.1->Ok_0 + 1) == (
            rep2,
            Ok::<nat, ErrorView>(out.1->Ok_0 + 1),
        ));
        assert(log2[0] == log[0]);
    } else {
        lemma_snapshot_mirrors(l, base, w, live2, snap);
        match op {
            LoggedOpView::Undo => {},
            LoggedOpView::Redo => {},
            _ => {},
        }
    }
}

/// A log that is its header and a snapshot mirrors the session that the
/// snapshot is of.
proof fn lemma_snapshot_mirrors(
    l: Seq<Seq<char>>,
    base: Seq<Seq<char>>,
    w: WalView,
    live: Model,
    snap: SnapshotView,
)
    requires
        based(w, l, base),
        fits(snap.events, l),
        shown(snap.events, l) == live.lines,
        live.undo.len() <= HISTORY_LIMIT,
        live.redo.len() <= HISTORY_LIMIT,
        live.next_gen >= 1,
        live.saved_gen < live.next_gen,
        snap.dirty == live.dirty(),
    ensures
        w.expressed(snap) is Some,
        based(w.snapshotted(), l, base),
        mirrors(
            base,
            written(Seq::empty(), ActionView::Rewrite(w.header, w.expressed(snap))),
            w.snapshotted(),
            live,
        ),
{
    let x = w.expressed(snap)->Some_0;
    if !w.same_base {
        moved_overlays_show_the_same(w.rebase->Some_0.overlay, snap.events, l);
    }
    let log = seq![RecordView::Header(w.header), RecordView::Snapshot(x)];
    let e = entries_of(log);
    assert(e[1] == LogLineView::Entry(RecordView::Snapshot(x)));
    let rep = restored(fresh(base), x, base);
    assert(replayed(rep, base, e, 2, 0) == (rep, Ok::<nat, ErrorView>(0)));
}

/// Compacting a log keeps it mirroring the session.
pub proof fn compacted_logs_mirror(
    l: Seq<Seq<char>>,
    base: Seq<Seq<char>>,
    j: JournalView,
    live: Model,
    events: Map<u64, EventView>,
)
    requires
        j.wal is Some,
        based(j.wal->Some_0, l, base),
        fits(events, l),
        shown(events, l) == live.lines,
        live.undo.len() <= HISTORY_LIMIT,
        live.redo.len() <= HISTORY_LIMIT,
        live.next_gen >= 1,
        live.saved_gen < live.next_gen,
    ensures
        ({
            let j2 = j.shortened(SnapshotView { events, dirty: live.dirty() });
            &&& j2.wal is Some
            &&& j2.outbox.len() == j.outbox.len() + 1
            &&& based(j2.wal->Some_0, l, base)
            &&& mirrors(base, written(Seq::empty(), j2.outbox.last()), j2.wal->Some_0, live)
        }),
{
    lemma_snapshot_mirrors(
        l,
        base,
        j.wal->Some_0,
        live,
        SnapshotView { events, dirty: live.dirty() },
    );
}

// ---- logs that were never compacted ------------------------------------------

/// Replaying the log into a new session gives the live session itself: what it
/// shows, whether it is dirty, and all that it can undo and redo. There is a
/// transaction for each of its changes.
pub open spec fn repeats(
    l: Seq<Seq<char>>,
    log: Seq<RecordView>,
    w: WalView,
    live: Model,
) -> bool {
    &&& log.len() > 0
    &&& log[0] == RecordView::Header(w.header)
    &&& forall|i: int| 1 <= i < log.len() ==> !(#[trigger] log[i] is Header)
    &&& replayed(fresh(l), l, entries_of(log), 1, 0) == (
        live,
        Ok::<nat, ErrorView>((log.len() - 1) as nat),
    )
    &&& w.undo == live.undo.len() <= HISTORY_LIMIT
    &&& w.redo == live.redo.len() <= HISTORY_LIMIT
}

/// A log that holds its header alone repeats a new session.
pub proof fn new_log_repeats(l: Seq<Seq<char>>, header: HeaderView)
    ensures
        repeats(
            l,
            seq![RecordView::Header(header)],
            WalView { header, undo: 0, redo: 0, same_base: true, rebase: None },
            fresh(l),
        ),
{
}

/// A log from before the first change on, that no save and no compaction started
/// over, goes on repeating the session: each change appends one transaction, and
/// replaying all of them gives the same content, dirtiness, undo and redo.
pub proof fn log_repeats_the_session(
    l: Seq<Seq<char>>,
    log: Seq<RecordView>,
    j: JournalView,
    live: Model,
    op: LoggedOpView,
    snap: SnapshotView,
)
    requires
        j.wal is Some,
        repeats(l, log, j.wal->Some_0, live),
        stepped(live, op) is Some,
        stepped(live, op) != Some(live),
        op_in_reach(live.lines.len(), op),
        live.next_gen < u64::MAX,
    ensures
        ({
            let j2 = j.committed(op, snap);
            &&& j2.wal is Some
            &&& j2.outbox == j.outbox.push(ActionView::Append(op))
            &&& repeats(
                l,
                written(log, ActionView::Append(op)),
                j2.wal->Some_0,
                stepped(live, op)->Some_0,
            )
        }),
{
    let w = j.wal->Some_0;
    let live2 = stepped(live, op)->Some_0;
    let log2 = written(log, ActionView::Append(op));
    match op {
        LoggedOpView::Undo => {},
        LoggedOpView::Redo => {},
        _ => {
            assert(live2 == live.committed(live2.lines));
        },
    }
    assert(w.can_replay(op));
    lemma_replay_append(fresh(l), l, log, op, 1, 0);
    let n = log.len() as int;
    assert(entries_of(log2)[n] == LogLineView::Entry(RecordView::Txn(op)));
    assert(replayed(live2, l, entries_of(log2), n + 1, n as nat) == (
        live2,
        Ok::<nat, ErrorView>(n as nat),
    ));
    assert(log2[0] == log[0]);
}

proof fn lemma_torn_tail(m: Model, l: Seq<Seq<char>>, lines: Seq<LogLineView>, i: int, count: nat)
    requires
        0 <= i <= lines.len(),
    ensures
        replayed(m, l, lines.push(LogLineView::Unreadable(false)), i, count) == replayed(
            m,
            l,
            lines,
            i,
            count,
        ),
    decreases lines.len() - i,
{
    let more = lines.push(LogLineView::Unreadable(false));
    if i < lines.len() {
        assert(more[i] == lines[i]);
        match lines[i] {
            LogLineView::Entry(RecordView::Txn(op)) => {
                if let Some(m2) = stepped(m, op) {
                    lemma_torn_tail(m2, l, lines, i + 1, count + 1);
                }
            },
            LogLineView::Entry(RecordView::Snapshot(s)) => {
                lemma_torn_tail(restored(m, s, l), l, lines, i + 1, 0);
            },
            _ => {},
        }
    }
}

/// A last line that a crash cut short changes nothing of a replay.
pub proof fn a_torn_last_line_is_passed_over(
    m: Model,
    l: Seq<Seq<char>>,
    lines: Seq<LogLineView>,
    current: HeaderView,
)
    requires
        lines.len() > 0,
    ensures
        replay_outcome(m, l, lines.push(LogLineView::Unreadable(false)), current) == replay_outcome(
            m,
            l,
            lines,
            current,
        ),
{
    lemma_torn_tail(m, l, lines, 1, 0);
    assert(lines.push(LogLineView::Unreadable(false))[0] == lines[0]);
}

// ---- whole runs of calls -----------------------------------------------------

/// A call did something to its session.
pub open spec fn changed(l: Seq<Seq<char>>, c: (EditSession, LoggedOpView, EditSession)) -> bool {
    c.2.model(l) != c.0.model(l)
}

/// How many calls did something to the session.
pub open spec fn changes(l: Seq<Seq<char>>, calls: Seq<(EditSession, LoggedOpView, EditSession)>) -> nat
    decreases calls.len(),
{
    if calls.len() == 0 {
        0
    } else {
        changes(l, calls.drop_last()) + if changed(l, calls.last()) {
            1nat
        } else {
            0nat
        }
    }
}

/// The log after a run of calls: its header, and what each call that did
/// something hands over to be written.
pub open spec fn log_of(
    l: Seq<Seq<char>>,
    header: HeaderView,
    calls: Seq<(EditSession, LoggedOpView, EditSession)>,
) -> Seq<RecordView>
    decreases calls.len(),
{
    if calls.len() == 0 {
        seq![RecordView::Header(header)]
    } else {
        let log = log_of(l, header, calls.drop_last());
        if changed(l, calls.last()) {
            written(log, ActionView::Append(calls.last().1))
        } else {
            log
        }
    }
}

/// The session after a run of calls.
pub open spec fn live_after(
    l: Seq<Seq<char>>,
    calls: Seq<(EditSession, LoggedOpView, EditSession)>,
) -> Model {
    if calls.len() == 0 {
        fresh(l)
    } else {
        calls.last().2.model(l)
    }
}

/// The state of a log that holds its header alone.
pub open spec fn new_log(header: HeaderView) -> WalView {
    WalView { header, undo: 0, redo: 0, same_base: true, rebase: None }
}

/// The state of the log after a run of calls.
pub open spec fn log_state_after(
    header: HeaderView,
    calls: Seq<(EditSession, LoggedOpView, EditSession)>,
) -> Option<WalView> {
    if calls.len() == 0 {
        Some(new_log(header))
    } else {
        calls.last().2.journal().wal
    }
}

/// Edits, undos and redos, one after the other, on a new session with a new
/// log: the session before each call, the operation, and the session after it.
/// Between two calls nothing happens to the session but that what is to be
/// written may be taken from it.
pub open spec fn is_run(
    l: Seq<Seq<char>>,
    header: HeaderView,
    calls: Seq<(EditSession, LoggedOpView, EditSession)>,
) -> bool {
    forall|i: int|
        0 <= i < calls.len() ==> {
            let c = #[trigger] calls[i];
            &&& c.0.did(c.2, l, c.1)
            &&& c.0.model(l) == live_after(l, calls.take(i))
            &&& c.0.journal().wal == log_state_after(header, calls.take(i))
            &&& c.0.model(l).next_gen < u64::MAX
            &&& op_in_reach(c.0.model(l).lines.len(), c.1)
        }
}

proof fn lemma_run(
    l: Seq<Seq<char>>,
    header: HeaderView,
    calls: Seq<(EditSession, LoggedOpView, EditSession)>,
)
    requires
        is_run(l, header, calls),
    ensures
        log_state_after(header, calls) is Some,
        repeats(
            l,
            log_of(l, header, calls),
            log_state_after(header, calls)->Some_0,
            live_after(l, calls),
        ),
        log_state_after(header, calls)->Some_0.header == header,
        log_of(l, header, calls).len() == changes(l, calls) + 1,
        calls.len() > 0 ==> {
            let c = calls.last();
            c.2.journal().outbox == if changed(l, c) {
                c.0.journal().outbox.push(ActionView::Append(c.1))
            } else {
                c.0.journal().outbox
            }
        },
    decreases calls.len(),
{
    if calls.len() == 0 {
        new_log_repeats(l, header);
    } else {
        let before = calls.drop_last();
        let n = before.len() as int;
        assert(calls.take(n) =~= before);
        assert forall|i: int| 0 <= i < before.len() implies {
            let c = #[trigger] before[i];
            &&& c.0.did(c.2, l, c.1)
            &&& c.0.model(l) == live_after(l, before.take(i))
            &&& c.0.journal().wal == log_state_after(header, before.take(i))
            &&& c.0.model(l).next_gen < u64::MAX
            &&& op_in_reach(c.0.model(l).lines.len(), c.1)
        } by {
            assert(before[i] == calls[i]);
            assert(before.take(i) =~= calls.take(i));
        }
        lemma_run(l, header, before);
        let c = calls[n];
        let live = c.0.model(l);
        if changed(l, c) {
            log_repeats_the_session(
                l,
                log_of(l, header, before),
                c.0.journal(),
                live,
                c.1,
                c.2.snapshot_view(c.2.model(l).dirty()),
            );
        }
    }
}

/// A crash log repeats the session that wrote it. Let any edits, undos and redos
/// be made on a new session with a new log, and let the log be neither
/// compacted nor started over by a save. Each call that changes the session
/// hands over one transaction to be written, and no other call hands over
/// anything. Replaying the log into a new session over the same lines succeeds
/// with the number of calls that changed something, and the session is then
/// the live one: what it shows, whether it is dirty, what it can undo and redo.
/// A last line that a crash cut short changes none of this.
pub proof fn a_log_repeats_a_run(
    l: Seq<Seq<char>>,
    header: HeaderView,
    current: HeaderView,
    calls: Seq<(EditSession, LoggedOpView, EditSession)>,
)
    requires
        is_run(l, header, calls),
        header.version == WAL_VERSION,
        header.same_base(current),
    ensures
        ({
            let lines = entries_of(log_of(l, header, calls));
            let torn = lines.push(LogLineView::Unreadable(false));
            let out = (live_after(l, calls), Ok::<nat, ErrorView>(changes(l, calls)));
            &&& replay_outcome(fresh(l), l, lines, current) == out
            &&& replay_outcome(fresh(l), l, torn, current) == out
        }),
        forall|i: int|
            0 <= i < calls.len() ==> {
                let c = #[trigger] calls[i];
                c.2.journal().outbox == if changed(l, c) {
                    c.0.journal().outbox.push(ActionView::Append(c.1))
                } else {
                    c.0.journal().outbox
                }
            },
{
    lemma_run(l, header, calls);
    let log = log_of(l, header, calls);
    let lines = entries_of(log);
    assert(lines[0] == LogLineView::Entry(RecordView::Header(header)));
    a_torn_last_line_is_passed_over(fresh(l), l, lines, current);
    assert forall|i: int| 0 <= i < calls.len() implies {
        let c = #[trigger] calls[i];
        c.2.journal().outbox == if changed(l, c) {
            c.0.journal().outbox.push(ActionView::Append(c.1))
        } else {
            c.0.journal().outbox
        }
    } by {
        let part = calls.take(i + 1);
        assert forall|k: int| 0 <= k < part.len() implies {
            let c = #[trigger] part[k];
            &&& c.0.did(c.2, l, c.1)
            &&& c.0.model(l) == live_after(l, part.take(k))
            &&& c.0.journal().wal == log_state_after(header, part.take(k))
            &&& c.0.model(l).next_gen < u64::MAX
            &&& op_in_reach(c.0.model(l).lines.len(), c.1)
        } by {
            assert(part[k] == calls[k]);
            assert(part.take(k) =~= calls.take(k));
        }
        lemma_run(l, header, part);
        assert(part.last() == calls[i]);
    }
}

} // verus!
