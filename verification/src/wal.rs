//! The crash log: what is written so that unsaved edits survive a crash.
//!
//! A log starts with a header that names the base file. Then come committed
//! transactions, each as the call that made it, or a snapshot of the whole
//! overlay that supersedes what stands before it.

use vstd::prelude::*;
use vstd::string::*;

use crate::document::Document;
use crate::error::{Error, ErrorView};
use crate::overlay::{EventView, Overlay};
use crate::rebase::{captured, rebased, Capture, CaptureView};
use crate::session::EditSession;
use crate::text::same_text;

verus! {

/// Format version of the log. Logs of another version are never replayed.
pub const WAL_VERSION: u32 = 1;

/// How many undo generations are kept.
pub const HISTORY_LIMIT: usize = 256;

/// Identity of the base file that a log applies to.
#[derive(Clone, Debug)]
pub struct Header {
    pub version: u32,
    /// The path as it was opened; not part of the identity.
    pub path: String,
    pub base_len: u64,
    pub base_mtime_ms: u64,
    /// The label of the encoding.
    pub encoding: String,
}

#[verifier::ext_equal]
pub struct HeaderView {
    pub version: u32,
    pub path: Seq<char>,
    pub base_len: u64,
    pub base_mtime_ms: u64,
    pub encoding: Seq<char>,
}

impl View for Header {
    type V = HeaderView;

    open spec fn view(&self) -> HeaderView {
        HeaderView {
            version: self.version,
            path: self.path@,
            base_len: self.base_len,
            base_mtime_ms: self.base_mtime_ms,
            encoding: self.encoding@,
        }
    }
}

impl HeaderView {
    /// The two describe the same base: same length, time and encoding, however
    /// its path is spelled.
    pub open spec fn same_base(self, other: HeaderView) -> bool {
        &&& self.base_len == other.base_len
        &&& self.base_mtime_ms == other.base_mtime_ms
        &&& self.encoding == other.encoding
    }
}

impl Header {
    /// A copy.
    pub fn copy(&self) -> (h: Header)
        ensures
            h@ == self@,
    {
        Header {
            version: self.version,
            path: self.path.clone(),
            base_len: self.base_len,
            base_mtime_ms: self.base_mtime_ms,
            encoding: self.encoding.clone(),
        }
    }

    /// The header of a log for a file.
    pub fn for_file(path: String, base_len: u64, base_mtime_ms: u64, encoding: &str) -> (h: Header)
        ensures
            h@ == (HeaderView {
                version: WAL_VERSION,
                path: path@,
                base_len,
                base_mtime_ms,
                encoding: encoding@,
            }),
    {
        Header { version: WAL_VERSION, path, base_len, base_mtime_ms, encoding: encoding.to_owned() }
    }

    /// The header of a log for the file of a document, with its length and its
    /// time of change as it is on disk.
    pub fn for_document(doc: &Document, base_len: u64, base_mtime_ms: u64) -> (h: Header)
        requires
            doc.wf(),
        ensures
            h@ == (HeaderView {
                version: WAL_VERSION,
                path: doc@.path,
                base_len,
                base_mtime_ms,
                encoding: doc@.encoding.label_text(),
            }),
    {
        Header::for_file(doc.path().to_owned(), base_len, base_mtime_ms, doc.encoding().label())
    }

    /// Whether two headers describe the same base.
    pub fn matches_base(&self, other: &Header) -> (b: bool)
        ensures
            b == self@.same_base(other@),
    {
        self.base_len == other.base_len && self.base_mtime_ms == other.base_mtime_ms && same_text(
            self.encoding.as_str(),
            other.encoding.as_str(),
        )
    }
}

/// One caret's edit in a batch: the span from `(l0, c0)` to `(l1, c1)` is
/// replaced by `text`. Columns count characters.
#[derive(Clone, Debug)]
pub struct BatchEdit {
    pub l0: u64,
    pub c0: usize,
    pub l1: u64,
    pub c1: usize,
    pub text: String,
}

#[verifier::ext_equal]
pub struct BatchEditView {
    pub l0: nat,
    pub c0: nat,
    pub l1: nat,
    pub c1: nat,
    pub text: Seq<char>,
}

impl View for BatchEdit {
    type V = BatchEditView;

    open spec fn view(&self) -> BatchEditView {
        BatchEditView {
            l0: self.l0 as nat,
            c0: self.c0 as nat,
            l1: self.l1 as nat,
            c1: self.c1 as nat,
            text: self.text@,
        }
    }
}

/// The views of a list of batch edits.
pub open spec fn batch_view(v: Seq<BatchEdit>) -> Seq<BatchEditView> {
    v.map_values(|e: BatchEdit| e@)
}

/// Copies a list of batch edits.
pub fn copy_batch(v: &[BatchEdit]) -> (out: Vec<BatchEdit>)
    ensures
        batch_view(out@) == batch_view(v@),
{
    let mut out: Vec<BatchEdit> = Vec::new();
    let mut i: usize = 0;
    while i < v.len()
        invariant
            i <= v@.len(),
            out@.len() == i,
            forall|j: int| 0 <= j < i ==> (#[trigger] out@[j])@ == v@[j]@,
        decreases v.len() - i,
    {
        let e = &v[i];
        out.push(BatchEdit { l0: e.l0, c0: e.c0, l1: e.l1, c1: e.c1, text: e.text.clone() });
        i += 1;
    }
    assert(batch_view(out@) =~= batch_view(v@));
    out
}

/// One committed transaction, as the call that made it.
#[derive(Clone, Debug)]
pub enum LoggedOp {
    ReplaceRange { l0: u64, c0: usize, l1: u64, c1: usize, text: String },
    ReplaceRect { l0: u64, l1: u64, c0: usize, c1: usize, text: String },
    Batch { edits: Vec<BatchEdit> },
    ReplaceLine { line: u64, text: String },
    InsertLine { line: u64, text: String },
    DeleteLine { line: u64 },
    Undo,
    Redo,
}

#[verifier::ext_equal]
pub enum LoggedOpView {
    ReplaceRange { l0: nat, c0: nat, l1: nat, c1: nat, text: Seq<char> },
    ReplaceRect { l0: nat, l1: nat, c0: nat, c1: nat, text: Seq<char> },
    Batch { edits: Seq<BatchEditView> },
    ReplaceLine { line: nat, text: Seq<char> },
    InsertLine { line: nat, text: Seq<char> },
    DeleteLine { line: nat },
    Undo,
    Redo,
}

impl View for LoggedOp {
    type V = LoggedOpView;

    open spec fn view(&self) -> LoggedOpView {
        match self {
            LoggedOp::ReplaceRange { l0, c0, l1, c1, text } => LoggedOpView::ReplaceRange {
                l0: *l0 as nat,
                c0: *c0 as nat,
                l1: *l1 as nat,
                c1: *c1 as nat,
                text: text@,
            },
            LoggedOp::ReplaceRect { l0, l1, c0, c1, text } => LoggedOpView::ReplaceRect {
                l0: *l0 as nat,
                l1: *l1 as nat,
                c0: *c0 as nat,
                c1: *c1 as nat,
                text: text@,
            },
            LoggedOp::Batch { edits } => LoggedOpView::Batch { edits: batch_view(edits@) },
            LoggedOp::ReplaceLine { line, text } => LoggedOpView::ReplaceLine {
                line: *line as nat,
                text: text@,
            },
            LoggedOp::InsertLine { line, text } => LoggedOpView::InsertLine {
                line: *line as nat,
                text: text@,
            },
            LoggedOp::DeleteLine { line } => LoggedOpView::DeleteLine { line: *line as nat },
            LoggedOp::Undo => LoggedOpView::Undo,
            LoggedOp::Redo => LoggedOpView::Redo,
        }
    }
}

/// An image of the overlay, with whether its content differs from the last
/// save. The history is not part of it.
#[derive(Clone, Debug)]
pub struct OverlaySnapshot {
    pub events: Overlay,
    pub dirty: bool,
}

#[verifier::ext_equal]
pub struct SnapshotView {
    pub events: Map<u64, EventView>,
    pub dirty: bool,
}

impl View for OverlaySnapshot {
    type V = SnapshotView;

    open spec fn view(&self) -> SnapshotView {
        SnapshotView { events: self.events@, dirty: self.dirty }
    }
}

impl SnapshotView {
    pub open spec fn effective(self) -> bool {
        self.dirty || self.events != Map::<u64, EventView>::empty()
    }
}

impl OverlaySnapshot {
    /// Whether restoring the snapshot gives anything but a clean session.
    pub fn is_effective(&self) -> (b: bool)
        ensures
            b == self@.effective(),
    {
        self.dirty || !self.events.is_empty()
    }
}

/// One line of a log.
#[derive(Clone, Debug)]
pub enum Record {
    Header(Header),
    Txn { op: LoggedOp },
    Snapshot { overlay: OverlaySnapshot },
}

#[verifier::ext_equal]
pub enum RecordView {
    Header(HeaderView),
    Txn(LoggedOpView),
    Snapshot(SnapshotView),
}

impl View for Record {
    type V = RecordView;

    open spec fn view(&self) -> RecordView {
        match self {
            Record::Header(h) => RecordView::Header(h@),
            Record::Txn { op } => RecordView::Txn(op@),
            Record::Snapshot { overlay } => RecordView::Snapshot(overlay@),
        }
    }
}

/// What has to be done to the log file.
#[derive(Clone, Debug)]
pub enum WalAction {
    /// Append a transaction.
    Append(LoggedOp),
    /// Replace the whole log by a header and, if there is one, a snapshot.
    Rewrite { header: Header, overlay: Option<OverlaySnapshot> },
}

#[verifier::ext_equal]
pub enum ActionView {
    Append(LoggedOpView),
    Rewrite(HeaderView, Option<SnapshotView>),
}

pub open spec fn opt_snapshot(o: Option<OverlaySnapshot>) -> Option<SnapshotView> {
    match o {
        Some(s) => Some(s@),
        None => None,
    }
}

impl View for WalAction {
    type V = ActionView;

    open spec fn view(&self) -> ActionView {
        match self {
            WalAction::Append(op) => ActionView::Append(op@),
            WalAction::Rewrite { header, overlay } => ActionView::Rewrite(
                header@,
                opt_snapshot(*overlay),
            ),
        }
    }
}

/// The views of a list of actions.
pub open spec fn actions_view(v: Seq<WalAction>) -> Seq<ActionView> {
    v.map_values(|a: WalAction| a@)
}

/// The state of a log that is being written.
#[derive(Debug)]
pub struct WalWriter {
    header: Header,
    /// Undo and redo depths that a session replaying the log would have.
    replay_undo: usize,
    replay_redo: usize,
    /// Whether the header still describes the base that the overlay of the
    /// session refers to.
    same_base: bool,
    /// What a save left behind by which that overlay can be moved to the base
    /// of the header.
    rebase: Option<Capture>,
}

/// The state of a log as a mathematical value.
#[verifier::ext_equal]
pub struct WalView {
    pub header: HeaderView,
    pub undo: nat,
    pub redo: nat,
    pub same_base: bool,
    pub rebase: Option<CaptureView>,
}

pub open spec fn at_most(n: nat, limit: nat) -> nat {
    if n <= limit {
        n
    } else {
        limit
    }
}

/// What the log says when a snapshot cannot be expressed against its base.
pub open spec fn no_capture_text() -> Seq<char> {
    "the crash log was reset without a session capture; edits since the last save are not crash-protected — save the file to re-arm crash recovery"@
}

impl WalView {
    /// Replaying the operation reproduces what it did. Only undo and redo can
    /// reach into history that is older than the log.
    pub open spec fn can_replay(self, op: LoggedOpView) -> bool {
        match op {
            LoggedOpView::Undo => self.undo > 0,
            LoggedOpView::Redo => self.redo > 0,
            _ => true,
        }
    }

    /// The log after an operation was appended.
    pub open spec fn logged(self, op: LoggedOpView) -> WalView {
        match op {
            LoggedOpView::Undo => WalView {
                undo: if self.undo > 0 { (self.undo - 1) as nat } else { 0 },
                redo: at_most(self.redo + 1, HISTORY_LIMIT as nat),
                ..self
            },
            LoggedOpView::Redo => WalView {
                redo: if self.redo > 0 { (self.redo - 1) as nat } else { 0 },
                undo: at_most(self.undo + 1, HISTORY_LIMIT as nat),
                ..self
            },
            _ => WalView { undo: at_most(self.undo + 1, HISTORY_LIMIT as nat), redo: 0, ..self },
        }
    }

    /// A snapshot of the session's overlay, expressed against the base of the
    /// log; `None` where that cannot be.
    pub open spec fn expressed(self, snap: SnapshotView) -> Option<SnapshotView> {
        if self.same_base {
            Some(snap)
        } else {
            match self.rebase {
                Some(c) => Some(SnapshotView { events: rebased(c, snap.events), dirty: snap.dirty }),
                None => None,
            }
        }
    }

    /// Whether a snapshot can be expressed against the base of the log.
    pub open spec fn can_snapshot(self) -> bool {
        self.same_base || self.rebase is Some
    }

    /// The log after a snapshot.
    pub open spec fn snapshotted(self) -> WalView {
        WalView { undo: 0, redo: 0, ..self }
    }
}

impl View for WalWriter {
    type V = WalView;

    closed spec fn view(&self) -> WalView {
        WalView {
            header: self.header@,
            undo: self.replay_undo as nat,
            redo: self.replay_redo as nat,
            same_base: self.same_base,
            rebase: match self.rebase {
                Some(c) => Some(c@),
                None => None,
            },
        }
    }
}

impl WalWriter {
    pub closed spec fn wf(self) -> bool {
        &&& self.replay_undo <= HISTORY_LIMIT
        &&& self.replay_redo <= HISTORY_LIMIT
        &&& self.rebase matches Some(c) ==> c.wf()
    }

    /// Starts a log: the file is replaced by one that holds the header.
    pub fn create(header: Header) -> (r: (WalWriter, WalAction))
        ensures
            r.0.wf(),
            r.0@ == (WalView { header: header@, undo: 0, redo: 0, same_base: true, rebase: None }),
            r.1@ == ActionView::Rewrite(header@, None),
    {
        let action = WalAction::Rewrite { header: header.copy(), overlay: None };
        (
            WalWriter { header, replay_undo: 0, replay_redo: 0, same_base: true, rebase: None },
            action,
        )
    }

    /// Takes note of an appended transaction.
    pub fn log(&mut self, op: &LoggedOp)
        requires
            old(self).wf(),
        ensures
            final(self).wf(),
            final(self)@ == old(self)@.logged(op@),
    {
        match op {
            LoggedOp::Undo => {
                self.replay_undo = self.replay_undo.saturating_sub(1);
                self.replay_redo = if self.replay_redo < HISTORY_LIMIT {
                    self.replay_redo + 1
                } else {
                    HISTORY_LIMIT
                };
            },
            LoggedOp::Redo => {
                self.replay_redo = self.replay_redo.saturating_sub(1);
                self.replay_undo = if self.replay_undo < HISTORY_LIMIT {
                    self.replay_undo + 1
                } else {
                    HISTORY_LIMIT
                };
            },
            _ => {
                self.replay_undo = if self.replay_undo < HISTORY_LIMIT {
                    self.replay_undo + 1
                } else {
                    HISTORY_LIMIT
                };
                self.replay_redo = 0;
            },
        }
    }

    /// Whether replaying the operation would reproduce what it did.
    pub fn can_replay(&self, op: &LoggedOp) -> (b: bool)
        ensures
            b == self@.can_replay(op@),
    {
        match op {
            LoggedOp::Undo => self.replay_undo > 0,
            LoggedOp::Redo => self.replay_redo > 0,
            _ => true,
        }
    }

    /// Starts the log over for another base: what stood in it must never be
    /// replayed onto that base. No snapshot can be made against it; after a
    /// save, see [`WalWriter::reset_for_save`].
    pub fn reset(&mut self, header: Header) -> (action: WalAction)
        ensures
            final(self).wf(),
            final(self)@ == (WalView {
                header: header@,
                undo: 0,
                redo: 0,
                same_base: false,
                rebase: None,
            }),
            action@ == ActionView::Rewrite(header@, None),
    {
        let action = WalAction::Rewrite { header: header.copy(), overlay: None };
        self.header = header;
        self.replay_undo = 0;
        self.replay_redo = 0;
        self.same_base = false;
        self.rebase = None;
        action
    }

    /// Starts the log over for the file that a save of the session wrote. What
    /// the session shows then is captured, so that later snapshots can be
    /// expressed against that file.
    pub fn reset_for_save(&mut self, header: Header, doc: &Document, session: &EditSession) -> (action:
        WalAction)
        requires
            doc.wf(),
            session.wf(doc@.lines()),
        ensures
            final(self).wf(),
            final(self)@ == (WalView {
                header: header@,
                undo: 0,
                redo: 0,
                same_base: false,
                rebase: Some(captured(session.overlay_view(), doc@.lines())),
            }),
            action@ == ActionView::Rewrite(header@, None),
    {
        let action = self.reset(header);
        self.rebase = Some(session.rebase_source(doc));
        action
    }

    /// Whether a snapshot of the session's overlay can be expressed against
    /// the base of the log.
    pub fn can_snapshot(&self) -> (b: bool)
        ensures
            b == self@.can_snapshot(),
    {
        self.same_base || self.rebase.is_some()
    }

    /// Compacts the log to its header and one snapshot. Where the overlay
    /// cannot be expressed against the base, the log is left clean, so that
    /// recovery is off rather than wrong, and an error says so.
    pub fn snapshot(&mut self, overlay: OverlaySnapshot) -> (r: (WalAction, Result<(), Error>))
        requires
            old(self).wf(),
        ensures
            final(self).wf(),
            final(self)@ == old(self)@.snapshotted(),
            r.0@ == ActionView::Rewrite(old(self)@.header, old(self)@.expressed(overlay@)),
            match old(self)@.expressed(overlay@) {
                Some(_) => r.1 is Ok,
                None => r.1 is Err && r.1->Err_0@ == ErrorView::Unsupported(no_capture_text()),
            },
    {
        self.replay_undo = 0;
        self.replay_redo = 0;
        let header = self.header.copy();
        if self.same_base {
            return (WalAction::Rewrite { header, overlay: Some(overlay) }, Ok(()));
        }
        if let Some(c) = &self.rebase {
            let events = c.rebase(&overlay.events);
            let moved = OverlaySnapshot { events, dirty: overlay.dirty };
            (WalAction::Rewrite { header, overlay: Some(moved) }, Ok(()))
        } else {
            let text =
                "the crash log was reset without a session capture; edits since the last save are not crash-protected — save the file to re-arm crash recovery";
            (
                WalAction::Rewrite { header, overlay: None },
                Err(Error::Unsupported(text.to_owned())),
            )
        }
    }

    pub fn header(&self) -> (h: &Header)
        ensures
            h@ == self@.header,
    {
        &self.header
    }
}

} // verus!
