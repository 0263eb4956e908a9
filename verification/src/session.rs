//! Editing sessions: an overlay over a document, its history, and the crash
//! log that it feeds.

use vstd::prelude::*;
use vstd::string::*;

use crate::document::{terminator_in, DocView, Document};
use crate::edit::{
    apply_batch, apply_rect, batch_carets, delete_line_inner, err_rect_in_empty, err_rect_outside,
    insert_line_before_inner, order_of, plan_batch, replace_line_inner, replace_range_inner,
    same_origin, shown_text, shown_total, shows_same, spans_of,
};
use crate::effect::edited;
use crate::encoding::Encoding;
use crate::eol::Eol;
use crate::error::{Error, ErrorView};
use crate::index::window_len;
use crate::model::{
    batch_end, batch_fault, batched, clamped_spans, empty_document, indexes, least,
    line_beyond_end, line_out_of_range, piece_total, pushed, range_caret, range_outside,
    rect_caret, rect_in_empty, rect_outside, span_order, step_fault, stepped, Model,
};
use crate::overlay::{
    clean, deleted_upto, fits, inserted_upto, lemma_nothing_shown, lemma_refers, ops_view,
    opt_text, record_back, refers, replaced_upto, shown, unwound, EventView, LineRef, OpView,
    Overlay, UndoOp,
};
use crate::rebase::{captured, Capture};
use crate::save::{
    bom_image, cannot_encode, cannot_write_line, converted_bytes, converted_image, converted_part,
    ends_terminated, first_unwritable, joined, saved_image, stream_bytes, stream_pieces,
    unwritable_among, writable, SavePiece,
};
use crate::text::{lemma_pieces_nonempty, pieces, same_text, split_pieces, texts};
use crate::wal::{
    actions_view, batch_view, BatchEditView, copy_batch, no_capture_text, ActionView, BatchEdit, LoggedOp,
    LoggedOpView, OverlaySnapshot, SnapshotView, WalAction, WalView, WalWriter, HISTORY_LIMIT,
};

verus! {

/// A line as it is shown.
#[derive(Clone, Debug)]
pub struct EditLine {
    pub number: u64,
    pub text: String,
    /// Whether the line differs from the document.
    pub edited: bool,
    /// Whether the line is not in the document at all.
    pub inserted: bool,
    /// The line of the document that it stands for.
    pub original_line: Option<u64>,
}

/// Numbers about a session.
#[derive(Clone, Copy, Debug)]
pub struct EditStats {
    pub dirty: bool,
    pub revision: u64,
    pub total_lines: u64,
    pub inserted_lines: u64,
    pub replaced_lines: u64,
    pub deleted_lines: u64,
    pub can_undo: bool,
    pub can_redo: bool,
}

/// What a save did.
#[derive(Clone, Debug)]
pub struct SaveResult {
    pub path: String,
    pub bytes: u64,
    pub lines: u64,
}

pub open spec fn save_path_taken(path: Seq<char>) -> ErrorView {
    ErrorView::Unsupported("'"@ + path + "' already exists; choose another save path"@)
}

/// Whether a save may go to a path at which something exists already or not.
pub fn check_save_target(path: &str, taken: bool, overwrite: bool) -> (r: Result<(), Error>)
    ensures
        r is Ok <==> (!taken || overwrite),
        r matches Err(e) ==> e@ == save_path_taken(path@),
{
    if taken && !overwrite {
        return Err(
            Error::Unsupported(
                "'".to_owned().concat(path).concat("' already exists; choose another save path"),
            ),
        );
    }
    Ok(())
}

/// One generation of the history: the record that leads to another content,
/// and the generation of that content.
#[derive(Debug)]
pub struct HistoryEntry {
    ops: Vec<UndoOp>,
    gen: u64,
}

#[verifier::ext_equal]
pub struct EntryView {
    pub ops: Seq<OpView>,
    pub gen: u64,
}

impl View for HistoryEntry {
    type V = EntryView;

    closed spec fn view(&self) -> EntryView {
        EntryView { ops: ops_view(self.ops@), gen: self.gen }
    }
}

/// The views of a history stack.
pub open spec fn entries(v: Seq<HistoryEntry>) -> Seq<EntryView> {
    v.map_values(|e: HistoryEntry| e@)
}

/// The contents that a stack leads to from an overlay, the nearest last.
pub open spec fn contents(
    stack: Seq<EntryView>,
    m: Map<u64, EventView>,
    l: Seq<Seq<char>>,
) -> Seq<(Seq<Seq<char>>, u64)>
    decreases stack.len(),
{
    if stack.len() == 0 {
        Seq::empty()
    } else {
        let to = unwound(m, stack.last().ops);
        contents(stack.drop_last(), to, l).push((shown(to, l), stack.last().gen))
    }
}

/// Every overlay that a stack leads to is one over the document.
pub open spec fn leads_to_fits(
    stack: Seq<EntryView>,
    m: Map<u64, EventView>,
    l: Seq<Seq<char>>,
) -> bool
    decreases stack.len(),
{
    stack.len() > 0 ==> {
        let to = unwound(m, stack.last().ops);
        fits(to, l) && leads_to_fits(stack.drop_last(), to, l)
    }
}

/// The overlays that a stack leads to, the nearest last.
pub open spec fn trail(stack: Seq<EntryView>, m: Map<u64, EventView>) -> Seq<Map<u64, EventView>>
    decreases stack.len(),
{
    if stack.len() == 0 {
        Seq::empty()
    } else {
        let to = unwound(m, stack.last().ops);
        trail(stack.drop_last(), to).push(to)
    }
}

proof fn lemma_trail_len(stack: Seq<EntryView>, m: Map<u64, EventView>)
    ensures
        trail(stack, m).len() == stack.len(),
    decreases stack.len(),
{
    if stack.len() > 0 {
        lemma_trail_len(stack.drop_last(), unwound(m, stack.last().ops));
    }
}

proof fn lemma_trail_drop_first(stack: Seq<EntryView>, m: Map<u64, EventView>)
    requires
        stack.len() > 0,
    ensures
        trail(stack.drop_first(), m) == trail(stack, m).drop_first(),
    decreases stack.len(),
{
    let to = unwound(m, stack.last().ops);
    lemma_trail_len(stack, m);
    if stack.len() > 1 {
        lemma_trail_drop_first(stack.drop_last(), to);
        lemma_trail_len(stack.drop_last(), to);
        assert(stack.drop_first().drop_last() =~= stack.drop_last().drop_first());
        assert(stack.drop_first().last() == stack.last());
    }
    assert(trail(stack.drop_first(), m) =~= trail(stack, m).drop_first());
}

/// Pushing onto a bounded stack pushes onto its trail.
proof fn lemma_trail_pushed(stack: Seq<EntryView>, e: EntryView, m: Map<u64, EventView>)
    requires
        stack.len() <= HISTORY_LIMIT,
    ensures
        trail(pushed(stack, e), m) == pushed(trail(stack, unwound(m, e.ops)), unwound(m, e.ops)),
{
    let to = unwound(m, e.ops);
    lemma_trail_len(stack, to);
    if stack.len() == HISTORY_LIMIT {
        lemma_trail_drop_first(stack, to);
        assert(stack.drop_first().push(e).drop_last() =~= stack.drop_first());
    } else {
        assert(stack.push(e).drop_last() =~= stack);
    }
}

proof fn lemma_contents_push(
    stack: Seq<EntryView>,
    e: EntryView,
    m: Map<u64, EventView>,
    l: Seq<Seq<char>>,
)
    ensures
        contents(stack.push(e), m, l) == contents(stack, unwound(m, e.ops), l).push(
            (shown(unwound(m, e.ops), l), e.gen),
        ),
        leads_to_fits(stack.push(e), m, l) == (fits(unwound(m, e.ops), l) && leads_to_fits(
            stack,
            unwound(m, e.ops),
            l,
        )),
{
    assert(stack.push(e).drop_last() =~= stack);
}

proof fn lemma_contents_len(stack: Seq<EntryView>, m: Map<u64, EventView>, l: Seq<Seq<char>>)
    ensures
        contents(stack, m, l).len() == stack.len(),
    decreases stack.len(),
{
    if stack.len() > 0 {
        lemma_contents_len(stack.drop_last(), unwound(m, stack.last().ops), l);
    }
}

proof fn lemma_contents_drop_first(
    stack: Seq<EntryView>,
    m: Map<u64, EventView>,
    l: Seq<Seq<char>>,
)
    requires
        stack.len() > 0,
    ensures
        contents(stack.drop_first(), m, l) == contents(stack, m, l).drop_first(),
        leads_to_fits(stack, m, l) ==> leads_to_fits(stack.drop_first(), m, l),
    decreases stack.len(),
{
    let to = unwound(m, stack.last().ops);
    lemma_contents_len(stack, m, l);
    if stack.len() == 1 {
        assert(contents(stack.drop_first(), m, l) =~= contents(stack, m, l).drop_first());
    } else {
        lemma_contents_drop_first(stack.drop_last(), to, l);
        lemma_contents_len(stack.drop_last(), to, l);
        assert(stack.drop_first().drop_last() =~= stack.drop_last().drop_first());
        assert(stack.drop_first().last() == stack.last());
        assert(contents(stack.drop_first(), m, l) =~= contents(stack, m, l).drop_first());
    }
}

/// Pushing onto a bounded stack pushes onto the contents it leads to.
proof fn lemma_contents_pushed(
    stack: Seq<EntryView>,
    e: EntryView,
    m: Map<u64, EventView>,
    l: Seq<Seq<char>>,
)
    requires
        stack.len() <= HISTORY_LIMIT,
        fits(unwound(m, e.ops), l),
        leads_to_fits(stack, unwound(m, e.ops), l),
    ensures
        contents(pushed(stack, e), m, l) == pushed(
            contents(stack, unwound(m, e.ops), l),
            (shown(unwound(m, e.ops), l), e.gen),
        ),
        leads_to_fits(pushed(stack, e), m, l),
        pushed(stack, e).len() <= HISTORY_LIMIT,
{
    let to = unwound(m, e.ops);
    lemma_contents_len(stack, to, l);
    if stack.len() == HISTORY_LIMIT {
        lemma_contents_drop_first(stack, to, l);
        lemma_contents_push(stack.drop_first(), e, m, l);
    } else {
        lemma_contents_push(stack, e, m, l);
    }
}

fn push_history(stack: &mut Vec<HistoryEntry>, entry: HistoryEntry)
    requires
        old(stack)@.len() <= HISTORY_LIMIT,
    ensures
        entries(final(stack)@) == pushed(entries(old(stack)@), entry@),
        final(stack)@.len() <= HISTORY_LIMIT,
{
    let ghost s = entries(stack@);
    if stack.len() == HISTORY_LIMIT {
        let _oldest = stack.remove(0);
        assert(entries(stack@) =~= s.drop_first());
    }
    let ghost t = entries(stack@);
    stack.push(entry);
    assert(entries(stack@) =~= t.push(entry@));
}

/// What a session tells the crash log.
#[verifier::ext_equal]
pub struct JournalView {
    pub wal: Option<WalView>,
    pub error: Option<Seq<char>>,
    pub outbox: Seq<ActionView>,
}

impl JournalView {
    /// A committed transaction reaches the log: as the call that made it; or,
    /// where replaying that would not reproduce it, as a snapshot; or, where
    /// no snapshot can be made, not at all, and the log is given up.
    pub open spec fn committed(self, op: LoggedOpView, snap: SnapshotView) -> JournalView {
        match self.wal {
            None => self,
            Some(w) => if w.can_replay(op) {
                JournalView {
                    wal: Some(w.logged(op)),
                    outbox: self.outbox.push(ActionView::Append(op)),
                    ..self
                }
            } else {
                self.compacted(snap)
            },
        }
    }

    /// The log is compacted to a snapshot, or left alone where that cannot be.
    pub open spec fn shortened(self, snap: SnapshotView) -> JournalView {
        match self.wal {
            Some(w) => if w.can_snapshot() {
                self.compacted(snap)
            } else {
                self
            },
            None => self,
        }
    }

    /// The log is rewritten as a snapshot, or given up where that cannot be.
    pub open spec fn compacted(self, snap: SnapshotView) -> JournalView {
        match self.wal {
            None => self,
            Some(w) => match w.expressed(snap) {
                Some(x) => JournalView {
                    wal: Some(w.snapshotted()),
                    outbox: self.outbox.push(ActionView::Rewrite(w.header, Some(x))),
                    ..self
                },
                None => JournalView {
                    wal: None,
                    error: Some(
                        "crash log disabled: "@ + ErrorView::Unsupported(
                            no_capture_text(),
                        ).shown(),
                    ),
                    outbox: self.outbox.push(ActionView::Rewrite(w.header, None)),
                },
            },
        }
    }
}

/// An editing session over a document.
#[derive(Debug)]
pub struct EditSession {
    overlay: Overlay,
    undo: Vec<HistoryEntry>,
    redo: Vec<HistoryEntry>,
    revision: u64,
    content_gen: u64,
    next_gen: u64,
    saved_gen: u64,
    wal: Option<WalWriter>,
    wal_error: Option<String>,
    outbox: Vec<WalAction>,
}

impl Default for EditSession {
    fn default() -> (s: EditSession)
        ensures
            s.valid(),
            s.overlay_view() == Map::<u64, EventView>::empty(),
            s.undo_trail() == Seq::<Map<u64, EventView>>::empty(),
            s.redo_trail() == Seq::<Map<u64, EventView>>::empty(),
            s.journal() == (JournalView { wal: None, error: None, outbox: Seq::empty() }),
            forall|l: Seq<Seq<char>>|
                l.len() < u64::MAX ==> #[trigger] s.wf(l) && s.model(l) == fresh(l),
    {
        let s = EditSession {
            overlay: Overlay::new(),
            undo: Vec::new(),
            redo: Vec::new(),
            revision: 0,
            content_gen: 0,
            next_gen: 1,
            saved_gen: 0,
            wal: None,
            wal_error: None,
            outbox: Vec::new(),
        };
        proof {
            assert(actions_view(s.outbox@) =~= Seq::empty());
            assert forall|l: Seq<Seq<char>>| l.len() < u64::MAX implies #[trigger] s.wf(l)
                && s.model(l) == fresh(l) by {
                lemma_nothing_shown(l);
                assert(entries(s.undo@) =~= Seq::empty());
                assert(entries(s.redo@) =~= Seq::empty());
            }
        }
        s
    }
}

fn copy_op(op: &UndoOp) -> (c: UndoOp)
    ensures
        c@ == op@,
{
    match op {
        UndoOp::SetLineState { anchor, replacement, deleted } => {
            let copied = match replacement {
                Some(t) => Some(t.clone()),
                None => None,
            };
            UndoOp::SetLineState { anchor: *anchor, replacement: copied, deleted: *deleted }
        },
        UndoOp::SetInsert { anchor, index, text } => UndoOp::SetInsert {
            anchor: *anchor,
            index: *index,
            text: text.clone(),
        },
        UndoOp::InsertInsert { anchor, index, text } => UndoOp::InsertInsert {
            anchor: *anchor,
            index: *index,
            text: text.clone(),
        },
        UndoOp::RemoveInsert { anchor, index } => UndoOp::RemoveInsert {
            anchor: *anchor,
            index: *index,
        },
    }
}

fn copy_history(stack: &Vec<HistoryEntry>) -> (c: Vec<HistoryEntry>)
    ensures
        entries(c@) == entries(stack@),
{
    let mut c: Vec<HistoryEntry> = Vec::new();
    let mut i: usize = 0;
    while i < stack.len()
        invariant
            i <= stack@.len(),
            entries(c@) == entries(stack@).take(i as int),
        decreases stack.len() - i,
    {
        let e = &stack[i];
        let mut ops: Vec<UndoOp> = Vec::new();
        let mut j: usize = 0;
        while j < e.ops.len()
            invariant
                j <= e.ops@.len(),
                ops_view(ops@) == ops_view(e.ops@).take(j as int),
            decreases e.ops.len() - j,
        {
            let ghost before = ops_view(ops@);
            let op = copy_op(&e.ops[j]);
            ops.push(op);
            assert(ops_view(ops@) =~= before.push(op@));
            j += 1;
        }
        assert(ops_view(e.ops@).take(e.ops@.len() as int) =~= ops_view(e.ops@));
        let ghost before = entries(c@);
        let entry = HistoryEntry { ops, gen: e.gen };
        c.push(entry);
        assert(entries(c@) =~= before.push(entry@));
        i += 1;
    }
    assert(entries(stack@).take(stack@.len() as int) =~= entries(stack@));
    c
}

impl Clone for EditSession {
    /// A copy for reading, such as a save in the background. It has no crash
    /// log: only one session may feed it.
    fn clone(&self) -> (s: EditSession)
        ensures
            s.overlay_view() == self.overlay_view(),
            self.valid() ==> s.valid(),
            s.journal() == (JournalView { wal: None, error: None, outbox: Seq::empty() }),
            forall|l: Seq<Seq<char>>| self.wf(l) ==> #[trigger] s.wf(l),
            forall|l: Seq<Seq<char>>| #[trigger] s.model(l) == self.model(l),
    {
        let s = EditSession {
            overlay: self.overlay.copy(),
            undo: copy_history(&self.undo),
            redo: copy_history(&self.redo),
            revision: self.revision,
            content_gen: self.content_gen,
            next_gen: self.next_gen,
            saved_gen: self.saved_gen,
            wal: None,
            wal_error: None,
            outbox: Vec::new(),
        };
        proof {
            assert(actions_view(s.outbox@) =~= Seq::empty());
            assert(entries(s.undo@).len() == s.undo@.len());
            assert(entries(s.redo@).len() == s.redo@.len());
            assert(entries(self.undo@).len() == self.undo@.len());
            assert(entries(self.redo@).len() == self.redo@.len());
        }
        s
    }
}

/// The model of a session that has just begun.
pub open spec fn fresh(l: Seq<Seq<char>>) -> Model {
    Model {
        lines: l,
        undo: Seq::empty(),
        redo: Seq::empty(),
        revision: 0,
        content_gen: 0,
        next_gen: 1,
        saved_gen: 0,
    }
}

/// These lines are shown.
pub open spec fn were_shown(v: Seq<(u64, String)>, lines: Seq<Seq<char>>) -> bool {
    forall|i: int|
        0 <= i < v.len() ==> (#[trigger] v[i]).0 < lines.len() && v[i].1@ == lines[v[i].0 as int]
}

/// What is shown of a line, by where it comes from.
pub open spec fn shows(r: LineRef, x: EditLine) -> bool {
    match r {
        LineRef::Original(o) => !x.edited && !x.inserted && x.original_line == Some(o),
        LineRef::Replaced(o) => x.edited && !x.inserted && x.original_line == Some(o),
        LineRef::Inserted { .. } => x.edited && x.inserted && x.original_line is None,
    }
}

impl EditSession {
    /// The session is in order by itself.
    pub closed spec fn valid(self) -> bool {
        &&& clean(self.overlay@)
        &&& self.undo@.len() <= HISTORY_LIMIT
        &&& self.redo@.len() <= HISTORY_LIMIT
        &&& self.wal matches Some(w) ==> w.wf()
    }

    /// The session is one over these lines.
    pub closed spec fn wf(self, l: Seq<Seq<char>>) -> bool {
        &&& self.valid()
        &&& fits(self.overlay@, l)
        &&& leads_to_fits(entries(self.undo@), self.overlay@, l)
        &&& leads_to_fits(entries(self.redo@), self.overlay@, l)
    }

    /// The session as the reference model sees it.
    pub closed spec fn model(self, l: Seq<Seq<char>>) -> Model {
        Model {
            lines: shown(self.overlay@, l),
            undo: contents(entries(self.undo@), self.overlay@, l),
            redo: contents(entries(self.redo@), self.overlay@, l),
            revision: self.revision,
            content_gen: self.content_gen,
            next_gen: self.next_gen,
            saved_gen: self.saved_gen,
        }
    }

    pub closed spec fn overlay_view(self) -> Map<u64, EventView> {
        self.overlay@
    }

    /// The overlays that undo leads to, the nearest last.
    pub closed spec fn undo_trail(self) -> Seq<Map<u64, EventView>> {
        trail(entries(self.undo@), self.overlay@)
    }

    /// The overlays that redo leads to, the nearest last.
    pub closed spec fn redo_trail(self) -> Seq<Map<u64, EventView>> {
        trail(entries(self.redo@), self.overlay@)
    }

    /// The overlay is the same, and so are those that undo and redo lead to.
    pub open spec fn same_overlays(self, after: EditSession) -> bool {
        &&& after.overlay_view() == self.overlay_view()
        &&& after.undo_trail() == self.undo_trail()
        &&& after.redo_trail() == self.redo_trail()
    }

    /// What a call did to the overlay, from which a save is written: an edit
    /// makes its own differences and no others; undo and redo bring back the
    /// very overlay that was there.
    pub open spec fn overlays_did(
        self,
        after: EditSession,
        l: Seq<Seq<char>>,
        op: LoggedOpView,
    ) -> bool {
        let m = stepped(self.model(l), op);
        if m is None || m == Some(self.model(l)) {
            self.same_overlays(after)
        } else {
            match op {
                LoggedOpView::Undo => {
                    &&& after.overlay_view() == self.undo_trail().last()
                    &&& after.undo_trail() == self.undo_trail().drop_last()
                    &&& after.redo_trail() == pushed(self.redo_trail(), self.overlay_view())
                },
                LoggedOpView::Redo => {
                    &&& after.overlay_view() == self.redo_trail().last()
                    &&& after.redo_trail() == self.redo_trail().drop_last()
                    &&& after.undo_trail() == pushed(self.undo_trail(), self.overlay_view())
                },
                _ => {
                    &&& after.overlay_view() == edited(self.overlay_view(), l, op)
                    &&& after.undo_trail() == pushed(self.undo_trail(), self.overlay_view())
                    &&& after.redo_trail() == Seq::<Map<u64, EventView>>::empty()
                },
            }
        }
    }

    pub closed spec fn journal(self) -> JournalView {
        JournalView {
            wal: match self.wal {
                Some(w) => Some(w@),
                None => None,
            },
            error: opt_text(self.wal_error),
            outbox: actions_view(self.outbox@),
        }
    }

    /// An image of the overlay.
    pub open spec fn snapshot_view(self, dirty: bool) -> SnapshotView {
        SnapshotView { events: self.overlay_view(), dirty }
    }

    /// A call did to the session what its operation does to the model and to
    /// the overlay, and told the crash log if something changed.
    pub open spec fn did(self, after: EditSession, l: Seq<Seq<char>>, op: LoggedOpView) -> bool {
        self.overlays_did(after, l, op) && match stepped(self.model(l), op) {
            Some(m) => {
                &&& after.model(l) == m
                &&& after.journal() == if m == self.model(l) {
                    self.journal()
                } else {
                    self.journal().committed(op, after.snapshot_view(m.dirty()))
                }
            },
            None => after.model(l) == self.model(l) && after.journal() == self.journal(),
        }
    }

    /// The model after everything is discarded; it counts as a revision where
    /// there was something to discard.
    pub open spec fn cleared(self, l: Seq<Seq<char>>) -> Model {
        let m = self.model(l);
        let nothing = self.overlay_view() == Map::<u64, EventView>::empty() && m.undo.len() == 0
            && m.redo.len() == 0 && m.content_gen == 0;
        Model {
            lines: l,
            undo: Seq::empty(),
            redo: Seq::empty(),
            content_gen: 0,
            revision: if nothing {
                m.revision
            } else {
                m.revision.wrapping_add(1)
            },
            ..m
        }
    }

    pub proof fn lemma_wf(self, l: Seq<Seq<char>>)
        requires
            self.wf(l),
        ensures
            self.valid(),
            fits(self.overlay_view(), l),
            self.model(l).lines == shown(self.overlay_view(), l),
            self.model(l).lines.len() <= u64::MAX,
            self.model(l).undo.len() <= HISTORY_LIMIT,
            self.model(l).redo.len() <= HISTORY_LIMIT,
            self.undo_trail().len() == self.model(l).undo.len(),
            self.redo_trail().len() == self.model(l).redo.len(),
    {
        lemma_contents_len(entries(self.undo@), self.overlay@, l);
        lemma_contents_len(entries(self.redo@), self.overlay@, l);
        lemma_trail_len(entries(self.undo@), self.overlay@);
        lemma_trail_len(entries(self.redo@), self.overlay@);
    }

    // ---- dirtiness and history -------------------------------------------------

    /// Whether the content differs from the last save.
    pub fn is_dirty(&self) -> (b: bool)
        ensures
            forall|l: Seq<Seq<char>>| b == #[trigger] self.model(l).dirty(),
    {
        self.content_gen != self.saved_gen
    }

    /// Whether anything differs from the document.
    pub fn has_edits(&self) -> (b: bool)
        ensures
            b == (self.overlay_view() != Map::<u64, EventView>::empty()),
    {
        !self.overlay.is_empty()
    }

    pub fn revision(&self) -> (n: u64)
        ensures
            forall|l: Seq<Seq<char>>| n == (#[trigger] self.model(l)).revision,
    {
        self.revision
    }

    /// Identity of the content; undo and redo restore it.
    pub fn content_gen(&self) -> (n: u64)
        ensures
            forall|l: Seq<Seq<char>>| n == (#[trigger] self.model(l)).content_gen,
    {
        self.content_gen
    }

    /// Whether there is no generation left for another content.
    pub fn generations_over(&self) -> (b: bool)
        ensures
            forall|l: Seq<Seq<char>>| b == ((#[trigger] self.model(l)).next_gen == u64::MAX),
    {
        self.next_gen == u64::MAX
    }

    /// Records that the content has been written to disk. The history stays.
    pub fn mark_saved(&mut self)
        ensures
            old(self).same_overlays(*final(self)),
            final(self).journal() == old(self).journal(),
            old(self).valid() ==> final(self).valid(),
            forall|l: Seq<Seq<char>>| old(self).wf(l) ==> #[trigger] final(self).wf(l),
            forall|l: Seq<Seq<char>>| #[trigger]
                final(self).model(l) == (Model {
                    saved_gen: old(self).model(l).content_gen,
                    ..old(self).model(l)
                }),
    {
        self.saved_gen = self.content_gen;
    }

    /// Records that the content with the given generation is what reached the
    /// disk.
    pub fn mark_saved_at(&mut self, gen: u64)
        ensures
            old(self).same_overlays(*final(self)),
            final(self).journal() == old(self).journal(),
            old(self).valid() ==> final(self).valid(),
            forall|l: Seq<Seq<char>>| old(self).wf(l) ==> #[trigger] final(self).wf(l),
            forall|l: Seq<Seq<char>>| #[trigger]
                final(self).model(l) == (Model { saved_gen: gen, ..old(self).model(l) }),
    {
        self.saved_gen = gen;
    }

    pub fn can_undo(&self) -> (b: bool)
        ensures
            forall|l: Seq<Seq<char>>| b == ((#[trigger] self.model(l)).undo.len() > 0),
    {
        let b = self.undo.len() > 0;
        proof {
            assert forall|l: Seq<Seq<char>>| b == ((#[trigger] self.model(l)).undo.len() > 0) by {
                lemma_contents_len(entries(self.undo@), self.overlay@, l);
            }
        }
        b
    }

    pub fn can_redo(&self) -> (b: bool)
        ensures
            forall|l: Seq<Seq<char>>| b == ((#[trigger] self.model(l)).redo.len() > 0),
    {
        let b = self.redo.len() > 0;
        proof {
            assert forall|l: Seq<Seq<char>>| b == ((#[trigger] self.model(l)).redo.len() > 0) by {
                lemma_contents_len(entries(self.redo@), self.overlay@, l);
            }
        }
        b
    }

    /// Goes back to the content before the last change.
    pub fn undo(&mut self) -> (b: bool)
        requires
            old(self).valid(),
        ensures
            final(self).valid(),
            forall|l: Seq<Seq<char>>| #[trigger]
                old(self).wf(l) ==> {
                    &&& final(self).wf(l)
                    &&& b == (old(self).model(l).undo.len() > 0)
                    &&& old(self).did(*final(self), l, LoggedOpView::Undo)
                },
    {
        let ghost s0 = *self;
        let ghost m = self.overlay@;
        let ghost us = entries(self.undo@);
        let ghost rs = entries(self.redo@);
        let entry = match self.undo.pop() {
            Some(e) => e,
            None => {
                assert(us =~= Seq::empty());
                return false;
            },
        };
        assert(us.last() == entry@);
        assert(entries(self.undo@) =~= us.drop_last());
        let gen = entry.gen;
        let ghost ops = ops_view(entry.ops@);
        let inv = self.overlay.apply_record(entry.ops);
        proof {
            record_back(m, ops);
        }
        let back = HistoryEntry { ops: inv, gen: self.content_gen };
        let ghost bv = back@;
        push_history(&mut self.redo, back);
        self.content_gen = gen;
        self.revision = self.revision.wrapping_add(1);
        let ghost s1 = *self;
        proof {
            lemma_trail_pushed(rs, bv, self.overlay@);
            assert(s0.undo_trail().drop_last() =~= s1.undo_trail());
            assert forall|l: Seq<Seq<char>>| #[trigger] s0.wf(l) implies s1.wf(l) && s1.model(l)
                == s0.model(l).undone() && s0.model(l).undo.len() > 0 && s1.model(l) != s0.model(
                l,
            ) by {
                lemma_contents_push(us.drop_last(), us.last(), m, l);
                assert(us.drop_last().push(us.last()) =~= us);
                lemma_contents_pushed(rs, bv, self.overlay@, l);
                let c = contents(us.drop_last(), self.overlay@, l);
                assert(s0.model(l).undo.drop_last() =~= c);
                lemma_contents_len(us, m, l);
                lemma_contents_len(us.drop_last(), self.overlay@, l);
                assert(s1.model(l).undo.len() != s0.model(l).undo.len());
            }
        }
        self.wal_commit(LoggedOp::Undo);
        proof {
            assert forall|l: Seq<Seq<char>>| #[trigger] s0.wf(l) implies self.wf(l) && s0.did(
                *self,
                l,
                LoggedOpView::Undo,
            ) by {
                assert(s1.wf(l));
                assert(self.model(l) == s1.model(l));
                assert(stepped(s0.model(l), LoggedOpView::Undo) == Some(s1.model(l)));
            }
        }
        true
    }

    /// Goes back to the content before the last undo.
    pub fn redo(&mut self) -> (b: bool)
        requires
            old(self).valid(),
        ensures
            final(self).valid(),
            forall|l: Seq<Seq<char>>| #[trigger]
                old(self).wf(l) ==> {
                    &&& final(self).wf(l)
                    &&& b == (old(self).model(l).redo.len() > 0)
                    &&& old(self).did(*final(self), l, LoggedOpView::Redo)
                },
    {
        let ghost s0 = *self;
        let ghost m = self.overlay@;
        let ghost us = entries(self.undo@);
        let ghost rs = entries(self.redo@);
        let entry = match self.redo.pop() {
            Some(e) => e,
            None => {
                assert(rs =~= Seq::empty());
                return false;
            },
        };
        assert(rs.last() == entry@);
        assert(entries(self.redo@) =~= rs.drop_last());
        let gen = entry.gen;
        let ghost ops = ops_view(entry.ops@);
        let inv = self.overlay.apply_record(entry.ops);
        proof {
            record_back(m, ops);
        }
        let back = HistoryEntry { ops: inv, gen: self.content_gen };
        let ghost bv = back@;
        push_history(&mut self.undo, back);
        self.content_gen = gen;
        self.revision = self.revision.wrapping_add(1);
        let ghost s1 = *self;
        proof {
            lemma_trail_pushed(us, bv, self.overlay@);
            assert(s0.redo_trail().drop_last() =~= s1.redo_trail());
            assert forall|l: Seq<Seq<char>>| #[trigger] s0.wf(l) implies s1.wf(l) && s1.model(l)
                == s0.model(l).redone() && s0.model(l).redo.len() > 0 && s1.model(l) != s0.model(
                l,
            ) by {
                lemma_contents_push(rs.drop_last(), rs.last(), m, l);
                assert(rs.drop_last().push(rs.last()) =~= rs);
                lemma_contents_pushed(us, bv, self.overlay@, l);
                let c = contents(rs.drop_last(), self.overlay@, l);
                assert(s0.model(l).redo.drop_last() =~= c);
                lemma_contents_len(rs, m, l);
                lemma_contents_len(rs.drop_last(), self.overlay@, l);
                assert(s1.model(l).redo.len() != s0.model(l).redo.len());
            }
        }
        self.wal_commit(LoggedOp::Redo);
        proof {
            assert forall|l: Seq<Seq<char>>| #[trigger] s0.wf(l) implies self.wf(l) && s0.did(
                *self,
                l,
                LoggedOpView::Redo,
            ) by {
                assert(s1.wf(l));
                assert(self.model(l) == s1.model(l));
                assert(stepped(s0.model(l), LoggedOpView::Redo) == Some(s1.model(l)));
            }
        }
        true
    }

    /// Discards the overlay and the history: the content is that of the
    /// document again. What was saved last stays noted.
    pub fn clear(&mut self)
        requires
            old(self).valid(),
        ensures
            final(self).valid(),
            final(self).journal() == old(self).journal(),
            final(self).overlay_view() == Map::<u64, EventView>::empty(),
            final(self).undo_trail() == Seq::<Map<u64, EventView>>::empty(),
            final(self).redo_trail() == Seq::<Map<u64, EventView>>::empty(),
            forall|l: Seq<Seq<char>>|
                l.len() < u64::MAX ==> #[trigger] final(self).wf(l) && final(self).model(l)
                    == old(self).cleared(l),
    {
        let ghost s0 = *self;
        proof {
            assert forall|l: Seq<Seq<char>>| true implies #[trigger] contents(
                entries(s0.undo@),
                s0.overlay@,
                l,
            ).len() == s0.undo@.len() by {
                lemma_contents_len(entries(s0.undo@), s0.overlay@, l);
            }
            assert forall|l: Seq<Seq<char>>| true implies #[trigger] contents(
                entries(s0.redo@),
                s0.overlay@,
                l,
            ).len() == s0.redo@.len() by {
                lemma_contents_len(entries(s0.redo@), s0.overlay@, l);
            }
            assert forall|l: Seq<Seq<char>>| l.len() < u64::MAX implies fits(
                Map::<u64, EventView>::empty(),
                l,
            ) && #[trigger] shown(Map::<u64, EventView>::empty(), l) == l by {
                lemma_nothing_shown(l);
            }
        }
        if self.overlay.is_empty() && self.undo.len() == 0 && self.redo.len() == 0
            && self.content_gen == 0 {
            assert(entries(self.undo@) =~= Seq::empty());
            assert(entries(self.redo@) =~= Seq::empty());
            return;
        }
        self.overlay = Overlay::new();
        self.undo = Vec::new();
        self.redo = Vec::new();
        self.content_gen = 0;
        self.revision = self.revision.wrapping_add(1);
        assert(entries(self.undo@) =~= Seq::empty());
        assert(entries(self.redo@) =~= Seq::empty());
    }

    // ---- the crash log ---------------------------------------------------------

    /// Attaches a crash log, or detaches it. What is to be done to the log from
    /// here on is handed out by [`EditSession::take_wal_actions`].
    pub fn set_wal(&mut self, w: Option<WalWriter>)
        requires
            old(self).valid(),
            w matches Some(x) ==> x.wf(),
        ensures
            final(self).valid(),
            old(self).same_overlays(*final(self)),
            final(self).journal() == (JournalView {
                wal: match w {
                    Some(x) => Some(x@),
                    None => None,
                },
                error: None,
                outbox: old(self).journal().outbox,
            }),
            forall|l: Seq<Seq<char>>| old(self).wf(l) ==> #[trigger] final(self).wf(l),
            forall|l: Seq<Seq<char>>| #[trigger] final(self).model(l) == old(self).model(l),
    {
        self.wal = w;
        self.wal_error = None;
    }

    /// The attached crash log.
    pub fn wal(&self) -> (w: Option<&WalWriter>)
        ensures
            match w {
                Some(x) => self.journal().wal == Some(x@),
                None => self.journal().wal is None,
            },
    {
        self.wal.as_ref()
    }

    /// The attached crash log, taken off the session.
    pub fn wal_detach(&mut self) -> (w: Option<WalWriter>)
        requires
            old(self).valid(),
        ensures
            final(self).valid(),
            old(self).same_overlays(*final(self)),
            final(self).journal() == (JournalView { wal: None, ..old(self).journal() }),
            match w {
                Some(x) => old(self).journal().wal == Some(x@) && x.wf(),
                None => old(self).journal().wal is None,
            },
            forall|l: Seq<Seq<char>>| old(self).wf(l) ==> #[trigger] final(self).wf(l),
            forall|l: Seq<Seq<char>>| #[trigger] final(self).model(l) == old(self).model(l),
    {
        self.wal.take()
    }

    /// Puts a crash log back that was taken off.
    pub fn wal_restore(&mut self, w: Option<WalWriter>)
        requires
            old(self).valid(),
            w matches Some(x) ==> x.wf(),
        ensures
            final(self).valid(),
            old(self).same_overlays(*final(self)),
            final(self).journal() == (JournalView {
                wal: match w {
                    Some(x) => Some(x@),
                    None => None,
                },
                ..old(self).journal()
            }),
            forall|l: Seq<Seq<char>>| old(self).wf(l) ==> #[trigger] final(self).wf(l),
            forall|l: Seq<Seq<char>>| #[trigger] final(self).model(l) == old(self).model(l),
    {
        self.wal = w;
    }

    /// What has to be done to the log file, in order; handed out once.
    pub fn take_wal_actions(&mut self) -> (v: Vec<WalAction>)
        requires
            old(self).valid(),
        ensures
            final(self).valid(),
            old(self).same_overlays(*final(self)),
            actions_view(v@) == old(self).journal().outbox,
            final(self).journal() == (JournalView { outbox: Seq::empty(), ..old(self).journal() }),
            forall|l: Seq<Seq<char>>| old(self).wf(l) ==> #[trigger] final(self).wf(l),
            forall|l: Seq<Seq<char>>| #[trigger] final(self).model(l) == old(self).model(l),
    {
        let mut v: Vec<WalAction> = Vec::new();
        std::mem::swap(&mut v, &mut self.outbox);
        assert(actions_view(self.outbox@) =~= Seq::empty());
        v
    }

    /// Takes note that the log could not be written: it is given up, and the
    /// edit goes on without it.
    pub fn wal_failed(&mut self, message: &str)
        requires
            old(self).valid(),
        ensures
            final(self).valid(),
            old(self).same_overlays(*final(self)),
            final(self).journal() == (JournalView {
                wal: None,
                error: Some("crash log disabled: "@ + message@),
                outbox: Seq::empty(),
            }),
            forall|l: Seq<Seq<char>>| old(self).wf(l) ==> #[trigger] final(self).wf(l),
            forall|l: Seq<Seq<char>>| #[trigger] final(self).model(l) == old(self).model(l),
    {
        self.wal = None;
        self.wal_error = Some("crash log disabled: ".to_owned().concat(message));
        self.outbox = Vec::new();
        assert(actions_view(self.outbox@) =~= Seq::empty());
    }

    /// The first failure of the crash log, if there was one; handed out once.
    pub fn take_wal_error(&mut self) -> (e: Option<String>)
        requires
            old(self).valid(),
        ensures
            final(self).valid(),
            old(self).same_overlays(*final(self)),
            opt_text(e) == old(self).journal().error,
            final(self).journal() == (JournalView { error: None, ..old(self).journal() }),
            forall|l: Seq<Seq<char>>| old(self).wf(l) ==> #[trigger] final(self).wf(l),
            forall|l: Seq<Seq<char>>| #[trigger] final(self).model(l) == old(self).model(l),
    {
        self.wal_error.take()
    }

    /// An image of the overlay.
    pub fn overlay_snapshot(&self) -> (s: OverlaySnapshot)
        ensures
            forall|l: Seq<Seq<char>>|
                s@ == self.snapshot_view((#[trigger] self.model(l)).dirty()),
    {
        OverlaySnapshot { events: self.overlay.copy(), dirty: self.is_dirty() }
    }

    /// What a save of the session leaves behind, by which its overlay can be
    /// moved to the file that was written.
    pub fn rebase_source(&self, doc: &Document) -> (c: Capture)
        requires
            doc.wf(),
            self.wf(doc@.lines()),
        ensures
            c.wf(),
            c@ == captured(self.overlay_view(), doc@.lines()),
    {
        Capture::of(&self.overlay, doc)
    }

    /// Compacts the crash log to one snapshot, where one can be expressed
    /// against its base.
    pub fn wal_compact(&mut self)
        requires
            old(self).valid(),
        ensures
            final(self).valid(),
            old(self).same_overlays(*final(self)),
            forall|l: Seq<Seq<char>>| old(self).wf(l) ==> #[trigger] final(self).wf(l),
            forall|l: Seq<Seq<char>>|
                {
                    &&& #[trigger] final(self).model(l) == old(self).model(l)
                    &&& final(self).journal() == old(self).journal().shortened(
                        old(self).snapshot_view(old(self).model(l).dirty()),
                    )
                },
    {
        let ghost s0 = *self;
        let possible = match &self.wal {
            Some(w) => w.can_snapshot(),
            None => false,
        };
        assert(possible == (s0.journal().wal matches Some(w) && w.can_snapshot()));
        if !possible {
            return;
        }
        self.wal_snapshot();
        proof {
            assert forall|l: Seq<Seq<char>>|
                {
                    &&& #[trigger] self.model(l) == s0.model(l)
                    &&& self.journal() == s0.journal().shortened(
                        s0.snapshot_view(s0.model(l).dirty()),
                    )
                } by {
                let snap = s0.snapshot_view(s0.model(l).dirty());
                assert(self.model(l) == s0.model(l));
                assert(self.journal() == s0.journal().compacted(snap));
            }
        }
    }

    /// Rewrites the crash log as one snapshot, or gives it up.
    fn wal_snapshot(&mut self)
        requires
            old(self).valid(),
        ensures
            final(self).valid(),
            old(self).same_overlays(*final(self)),
            forall|l: Seq<Seq<char>>| old(self).wf(l) ==> #[trigger] final(self).wf(l),
            forall|l: Seq<Seq<char>>|
                {
                    &&& #[trigger] final(self).model(l) == old(self).model(l)
                    &&& final(self).journal() == old(self).journal().compacted(
                        old(self).snapshot_view(old(self).model(l).dirty()),
                    )
                },
    {
        let ghost s0 = *self;
        let snap = self.overlay_snapshot();
        let ghost sv = snap@;
        let ghost out = actions_view(self.outbox@);
        let taken = self.wal.take();
        if let Some(w0) = taken {
            let mut w = w0;
            let (action, result) = w.snapshot(snap);
            let ghost av = action@;
            self.outbox.push(action);
            assert(actions_view(self.outbox@) =~= out.push(av));
            match result {
                Ok(()) => {
                    self.wal = Some(w);
                },
                Err(e) => {
                    let text = e.message();
                    self.wal_error = Some("crash log disabled: ".to_owned().concat(text.as_str()));
                },
            }
        }
        proof {
            assert forall|l: Seq<Seq<char>>|
                {
                    &&& #[trigger] self.model(l) == s0.model(l)
                    &&& self.journal() == s0.journal().compacted(
                        s0.snapshot_view(s0.model(l).dirty()),
                    )
                } by {
                assert(sv == s0.snapshot_view(s0.model(l).dirty()));
            }
        }
    }

    /// Tells the crash log of a committed transaction.
    fn wal_commit(&mut self, op: LoggedOp)
        requires
            old(self).valid(),
        ensures
            final(self).valid(),
            old(self).same_overlays(*final(self)),
            forall|l: Seq<Seq<char>>| old(self).wf(l) ==> #[trigger] final(self).wf(l),
            forall|l: Seq<Seq<char>>|
                {
                    &&& #[trigger] final(self).model(l) == old(self).model(l)
                    &&& final(self).journal() == old(self).journal().committed(
                        op@,
                        old(self).snapshot_view(old(self).model(l).dirty()),
                    )
                },
    {
        let ghost out = actions_view(self.outbox@);
        let replayable = match &self.wal {
            None => {
                return;
            },
            Some(w) => w.can_replay(&op),
        };
        if !replayable {
            let ghost s0 = *self;
            self.wal_snapshot();
            proof {
                let w = s0.wal->Some_0;
                assert(s0.journal().wal == Some(w@));
                assert(!w@.can_replay(op@));
                assert forall|l: Seq<Seq<char>>|
                    {
                        &&& #[trigger] self.model(l) == s0.model(l)
                        &&& self.journal() == s0.journal().committed(
                            op@,
                            s0.snapshot_view(s0.model(l).dirty()),
                        )
                    } by {
                    assert(self.model(l) == s0.model(l));
                    let snap = s0.snapshot_view(s0.model(l).dirty());
                    assert(self.journal() == s0.journal().compacted(snap));
                    assert(s0.journal().committed(op@, snap) == s0.journal().compacted(snap));
                }
            }
            return;
        }
        let taken = self.wal.take();
        if let Some(w0) = taken {
            let mut w = w0;
            w.log(&op);
            self.wal = Some(w);
            let ghost ov = op@;
            self.outbox.push(WalAction::Append(op));
            assert(actions_view(self.outbox@) =~= out.push(ActionView::Append(ov)));
        }
    }

    /// Restores an image of the overlay, with an empty history, and dirtiness
    /// as it was noted.
    pub fn restore_overlay(&mut self, snap: OverlaySnapshot)
        requires
            old(self).valid(),
            clean(snap@.events),
        ensures
            final(self).valid(),
            final(self).journal() == old(self).journal(),
            final(self).overlay_view() == snap@.events,
            final(self).undo_trail() == Seq::<Map<u64, EventView>>::empty(),
            final(self).redo_trail() == Seq::<Map<u64, EventView>>::empty(),
            forall|l: Seq<Seq<char>>|
                fits(snap@.events, l) ==> {
                    &&& #[trigger] final(self).wf(l)
                    &&& final(self).model(l) == (Model {
                        lines: shown(snap@.events, l),
                        undo: Seq::empty(),
                        redo: Seq::empty(),
                        revision: old(self).model(l).revision.wrapping_add(1),
                        content_gen: if snap@.dirty { 1 } else { 0 },
                        next_gen: 2,
                        saved_gen: 0,
                    })
                },
    {
        self.overlay = snap.events;
        self.undo = Vec::new();
        self.redo = Vec::new();
        self.saved_gen = 0;
        self.content_gen = if snap.dirty { 1 } else { 0 };
        self.next_gen = 2;
        self.revision = self.revision.wrapping_add(1);
        assert(entries(self.undo@) =~= Seq::empty());
        assert(entries(self.redo@) =~= Seq::empty());
    }

    /// Commits a record as one undo generation; an empty one is no change.
    fn finish_change(&mut self, record: Vec<UndoOp>, Ghost(m0): Ghost<Map<u64, EventView>>, Ghost(
        l,
    ): Ghost<Seq<Seq<char>>>) -> (changed: bool)
        requires
            old(self).valid(),
            fits(old(self).overlay@, l),
            unwound(old(self).overlay@, ops_view(record@)) == m0,
            fits(m0, l),
            leads_to_fits(entries(old(self).undo@), m0, l),
            leads_to_fits(entries(old(self).redo@), m0, l),
            old(self).next_gen < u64::MAX,
        ensures
            changed == (record@.len() > 0),
            final(self).wf(l),
            final(self).overlay@ == old(self).overlay@,
            changed ==> final(self).undo_trail() == pushed(
                trail(entries(old(self).undo@), m0),
                m0,
            ),
            changed ==> final(self).redo_trail() == Seq::<Map<u64, EventView>>::empty(),
            !changed ==> *final(self) == *old(self),
            final(self).journal() == old(self).journal(),
            ({
                let before = Model {
                    lines: shown(m0, l),
                    undo: contents(entries(old(self).undo@), m0, l),
                    redo: contents(entries(old(self).redo@), m0, l),
                    revision: old(self).revision,
                    content_gen: old(self).content_gen,
                    next_gen: old(self).next_gen,
                    saved_gen: old(self).saved_gen,
                };
                final(self).model(l) == before.changed_to(
                    shown(old(self).overlay@, l),
                    changed,
                )
            }),
    {
        if record.len() == 0 {
            assert(ops_view(record@) =~= Seq::empty());
            return false;
        }
        let ghost us = entries(self.undo@);
        let entry = HistoryEntry { ops: record, gen: self.content_gen };
        let ghost ev = entry@;
        push_history(&mut self.undo, entry);
        proof {
            lemma_contents_pushed(us, ev, self.overlay@, l);
            lemma_trail_pushed(us, ev, self.overlay@);
        }
        self.redo = Vec::new();
        assert(entries(self.redo@) =~= Seq::empty());
        self.content_gen = self.next_gen;
        self.next_gen = self.next_gen + 1;
        self.revision = self.revision.wrapping_add(1);
        true
    }

    /// Commits a record, and tells the crash log which call made it.
    fn commit(&mut self, record: Vec<UndoOp>, op: LoggedOp, Ghost(s0): Ghost<EditSession>, Ghost(
        l,
    ): Ghost<Seq<Seq<char>>>)
        requires
            s0.wf(l),
            s0.next_gen < u64::MAX,
            *old(self) == (EditSession { overlay: old(self).overlay, ..s0 }),
            fits(old(self).overlay@, l),
            same_origin(s0.overlay@, Seq::empty(), old(self).overlay@, ops_view(record@)),
        ensures
            final(self).wf(l),
            final(self).model(l) == s0.model(l).changed_to(
                shown(old(self).overlay@, l),
                record@.len() > 0,
            ),
            record@.len() > 0 ==> final(self).model(l) != s0.model(l),
            record@.len() == 0 ==> s0.same_overlays(*final(self)),
            record@.len() > 0 ==> {
                &&& final(self).overlay_view() == old(self).overlay@
                &&& final(self).undo_trail() == pushed(s0.undo_trail(), s0.overlay_view())
                &&& final(self).redo_trail() == Seq::<Map<u64, EventView>>::empty()
            },
            final(self).journal() == if record@.len() > 0 {
                s0.journal().committed(
                    op@,
                    final(self).snapshot_view(final(self).model(l).dirty()),
                )
            } else {
                s0.journal()
            },
    {
        proof {
            assert(ops_view(Seq::<UndoOp>::empty()) =~= Seq::empty());
            assert(unwound(s0.overlay@, Seq::empty()) == s0.overlay@);
        }
        if self.finish_change(record, Ghost(s0.overlay@), Ghost(l)) {
            self.wal_commit(op);
        } else {
            assert(ops_view(record@) =~= Seq::empty());
        }
    }

    // ---- edits -----------------------------------------------------------------

    /// Replaces a line; a line that stays as it is is no change.
    pub fn replace_line(&mut self, doc: &Document, logical: u64, text: String) -> (r: Result<
        (),
        Error,
    >)
        requires
            doc.wf(),
            old(self).wf(doc@.lines()),
            old(self).model(doc@.lines()).next_gen < u64::MAX,
        ensures
            ({
                let l = doc@.lines();
                let op = LoggedOpView::ReplaceLine { line: logical as nat, text: text@ };
                &&& final(self).wf(l)
                &&& old(self).did(*final(self), l, op)
                &&& r is Ok <==> stepped(old(self).model(l), op) is Some
                &&& r matches Err(e) ==> e@ == line_out_of_range(logical as nat)
            }),
    {
        let ghost s0 = *self;
        let op = LoggedOp::ReplaceLine { line: logical, text: text.clone() };
        let mut record: Vec<UndoOp> = Vec::new();
        assert(ops_view(record@) =~= Seq::empty());
        match replace_line_inner(&mut self.overlay, doc, logical, text, &mut record) {
            Ok(()) => {},
            Err(e) => {
                return Err(e);
            },
        }
        self.commit(record, op, Ghost(s0), Ghost(doc@.lines()));
        Ok(())
    }

    /// Inserts a line before another; at the number of lines it is appended.
    pub fn insert_line_before(&mut self, doc: &Document, logical: u64, text: String) -> (r: Result<
        (),
        Error,
    >)
        requires
            doc.wf(),
            old(self).wf(doc@.lines()),
            old(self).model(doc@.lines()).next_gen < u64::MAX,
            old(self).model(doc@.lines()).lines.len() < u64::MAX,
        ensures
            ({
                let l = doc@.lines();
                let op = LoggedOpView::InsertLine { line: logical as nat, text: text@ };
                &&& final(self).wf(l)
                &&& old(self).did(*final(self), l, op)
                &&& r is Ok <==> stepped(old(self).model(l), op) is Some
                &&& r matches Err(e) ==> e@ == line_beyond_end(logical as nat)
            }),
    {
        let ghost s0 = *self;
        let op = LoggedOp::InsertLine { line: logical, text: text.clone() };
        let mut record: Vec<UndoOp> = Vec::new();
        assert(ops_view(record@) =~= Seq::empty());
        match insert_line_before_inner(&mut self.overlay, doc, logical, text, &mut record) {
            Ok(()) => {},
            Err(e) => {
                return Err(e);
            },
        }
        self.commit(record, op, Ghost(s0), Ghost(doc@.lines()));
        Ok(())
    }

    /// Deletes a line.
    pub fn delete_line(&mut self, doc: &Document, logical: u64) -> (r: Result<(), Error>)
        requires
            doc.wf(),
            old(self).wf(doc@.lines()),
            old(self).model(doc@.lines()).next_gen < u64::MAX,
        ensures
            ({
                let l = doc@.lines();
                let op = LoggedOpView::DeleteLine { line: logical as nat };
                &&& final(self).wf(l)
                &&& old(self).did(*final(self), l, op)
                &&& r is Ok <==> stepped(old(self).model(l), op) is Some
                &&& r matches Err(e) ==> e@ == line_out_of_range(logical as nat)
            }),
    {
        let ghost s0 = *self;
        let mut record: Vec<UndoOp> = Vec::new();
        assert(ops_view(record@) =~= Seq::empty());
        match delete_line_inner(&mut self.overlay, doc, logical, &mut record) {
            Ok(()) => {},
            Err(e) => {
                return Err(e);
            },
        }
        self.commit(
            record,
            LoggedOp::DeleteLine { line: logical },
            Ghost(s0),
            Ghost(doc@.lines()),
        );
        Ok(())
    }

    /// Replaces the span from `(l0, c0)` to `(l1, c1)` by a text, which may have
    /// several lines, as one undo step. Columns count characters. The caret
    /// behind the new text is returned.
    pub fn replace_range(
        &mut self,
        doc: &Document,
        l0: u64,
        c0: usize,
        l1: u64,
        c1: usize,
        text: &str,
    ) -> (r: Result<(u64, usize), Error>)
        requires
            doc.wf(),
            old(self).wf(doc@.lines()),
            old(self).model(doc@.lines()).next_gen < u64::MAX,
            old(self).model(doc@.lines()).lines.len() + pieces(text@).len() <= u64::MAX,
        ensures
            ({
                let l = doc@.lines();
                let before = old(self).model(l).lines;
                let op = LoggedOpView::ReplaceRange {
                    l0: l0 as nat,
                    c0: c0 as nat,
                    l1: l1 as nat,
                    c1: c1 as nat,
                    text: text@,
                };
                &&& final(self).wf(l)
                &&& old(self).did(*final(self), l, op)
                &&& match r {
                    Ok(caret) => {
                        &&& stepped(old(self).model(l), op) is Some
                        &&& (caret.0 as int, caret.1 as int) == range_caret(
                            before,
                            l0 as nat,
                            c0 as nat,
                            text@,
                        )
                    },
                    Err(e) => {
                        &&& stepped(old(self).model(l), op) is None
                        &&& e@ == if before.len() == 0 {
                            empty_document()
                        } else {
                            range_outside(l0 as nat, l1 as nat)
                        }
                    },
                }
            }),
    {
        let ghost s0 = *self;
        let op = LoggedOp::ReplaceRange { l0, c0, l1, c1, text: text.to_owned() };
        let mut record: Vec<UndoOp> = Vec::new();
        assert(ops_view(record@) =~= Seq::empty());
        let caret = match replace_range_inner(
            &mut self.overlay,
            doc,
            l0,
            c0,
            l1,
            c1,
            text,
            &mut record,
        ) {
            Ok(caret) => caret,
            Err(e) => {
                return Err(e);
            },
        };
        self.commit(record, op, Ghost(s0), Ghost(doc@.lines()));
        Ok(caret)
    }

    /// Makes several edits at once, as one undo step. Their positions all refer
    /// to the content before; they must not overlap. For each edit the caret
    /// behind its text is returned, as it stands once all edits are made.
    #[verifier::spinoff_prover]
    #[verifier::rlimit(100)]
    pub fn replace_batch(&mut self, doc: &Document, edits: &[BatchEdit]) -> (r: Result<
        Vec<(u64, usize)>,
        Error,
    >)
        requires
            doc.wf(),
            old(self).wf(doc@.lines()),
            old(self).model(doc@.lines()).next_gen < u64::MAX,
            old(self).model(doc@.lines()).lines.len() + piece_total(
                batch_view(edits@),
                indexes(edits@.len()),
            ) <= u64::MAX,
        ensures
            ({
                let l = doc@.lines();
                let op = LoggedOpView::Batch { edits: batch_view(edits@) };
                &&& final(self).wf(l)
                &&& old(self).did(*final(self), l, op)
                &&& match r {
                    Ok(carets) => {
                        &&& stepped(old(self).model(l), op) is Some
                        &&& batch_caret(old(self).model(l).lines, batch_view(edits@), carets@)
                    },
                    Err(e) => {
                        &&& stepped(old(self).model(l), op) is None
                        &&& batch_fault(old(self).model(l).lines, batch_view(edits@)) == Some(e@)
                    },
                }
            }),
    {
        let ghost s0 = *self;
        let ghost l = doc@.lines();
        let ghost lines = s0.model(l).lines;
        let ghost es = batch_view(edits@);
        if edits.len() == 0 {
            return Ok(Vec::new());
        }
        let total = shown_total(&self.overlay, doc);
        let (spans, order) = match plan_batch(&self.overlay, doc, edits) {
            Ok(plan) => plan,
            Err(e) => {
                return Err(e);
            },
        };
        let ghost sp = spans_of(spans@);
        let ghost o = order_of(order@);
        let op = LoggedOp::Batch { edits: copy_batch(edits) };
        let firsts = self.first_lines(doc, edits);
        let mut record: Vec<UndoOp> = Vec::new();
        let lo = apply_batch(&mut self.overlay, doc, edits, &spans, &order, &mut record);
        let ghost b = batched(lines, es, sp, o, 0);
        let record = self.drop_without_effect(
            doc,
            record,
            lo,
            total,
            &firsts,
            Ghost(s0.overlay@),
        );
        self.commit(record, op, Ghost(s0), Ghost(l));
        proof {
            assert(stepped(s0.model(l), LoggedOpView::Batch { edits: es }) == Some(
                s0.model(l).changed_to(b, b != lines),
            ));
        }
        let carets = batch_carets(edits, &spans, &order, total);
        proof {
            lemma_batch_caret(lines, es, order@, carets@);
        }
        Ok(carets)
    }

    /// The lines on which the edits of a batch start, as they are shown.
    fn first_lines(&self, doc: &Document, edits: &[BatchEdit]) -> (v: Vec<(u64, String)>)
        requires
            doc.wf(),
            fits(self.overlay@, doc@.lines()),
        ensures
            were_shown(v@, shown(self.overlay@, doc@.lines())),
    {
        let mut v: Vec<(u64, String)> = Vec::new();
        let mut i: usize = 0;
        while i < edits.len()
            invariant
                doc.wf(),
                fits(self.overlay@, doc@.lines()),
                were_shown(v@, shown(self.overlay@, doc@.lines())),
                i <= edits@.len(),
            decreases edits.len() - i,
        {
            let line = edits[i].l0;
            if let Some(t) = shown_text(&self.overlay, doc, line) {
                v.push((line, t));
            }
            i += 1;
        }
        v
    }

    /// Takes a change back that is under way if it has no visible effect; gives
    /// what is to be recorded of it. Lines that are known from before spare the
    /// comparison where they have changed.
    fn drop_without_effect(
        &mut self,
        doc: &Document,
        record: Vec<UndoOp>,
        lo: u64,
        total: u64,
        firsts: &Vec<(u64, String)>,
        Ghost(m0): Ghost<Map<u64, EventView>>,
    ) -> (kept: Vec<UndoOp>)
        requires
            doc.wf(),
            fits(old(self).overlay@, doc@.lines()),
            fits(m0, doc@.lines()),
            same_origin(m0, Seq::empty(), old(self).overlay@, ops_view(record@)),
            record@.len() == 0 ==> old(self).overlay@ == m0,
            total == shown(m0, doc@.lines()).len(),
            were_shown(firsts@, shown(m0, doc@.lines())),
            lo <= shown(m0, doc@.lines()).len(),
            lo <= shown(old(self).overlay@, doc@.lines()).len(),
            shown(m0, doc@.lines()).take(lo as int) == shown(
                old(self).overlay@,
                doc@.lines(),
            ).take(lo as int),
        ensures
            *final(self) == (EditSession { overlay: final(self).overlay, ..*old(self) }),
            same_origin(m0, Seq::empty(), final(self).overlay@, ops_view(kept@)),
            ({
                let same = shown(old(self).overlay@, doc@.lines()) == shown(m0, doc@.lines());
                &&& final(self).overlay@ == if same {
                    m0
                } else {
                    old(self).overlay@
                }
                &&& (kept@.len() > 0) == !same
            }),
    {
        let ghost l = doc@.lines();
        let ghost m1 = self.overlay@;
        let ghost ops = ops_view(record@);
        if record.len() == 0 {
            assert(ops =~= Seq::empty());
            return record;
        }
        if shown_total(&self.overlay, doc) != total {
            return record;
        }
        let mut i: usize = 0;
        while i < firsts.len()
            invariant
                doc.wf(),
                l == doc@.lines(),
                fits(self.overlay@, l),
                shown(self.overlay@, l).len() == shown(m0, l).len(),
                were_shown(firsts@, shown(m0, l)),
                record@.len() > 0,
                *self == *old(self),
                same_origin(m0, Seq::empty(), self.overlay@, ops_view(record@)),
                i <= firsts@.len(),
            decreases firsts.len() - i,
        {
            assert(firsts@[i as int].0 < shown(m0, l).len());
            if let Some(t) = shown_text(&self.overlay, doc, firsts[i].0) {
                if !same_text(t.as_str(), firsts[i].1.as_str()) {
                    return record;
                }
            }
            i += 1;
        }
        let after = self.overlay.copy();
        let back = self.overlay.apply_record(record);
        proof {
            assert(unwound(m0, Seq::empty()) == m0);
            record_back(m1, ops);
        }
        if shows_same(&self.overlay, &after, doc, lo) {
            let none: Vec<UndoOp> = Vec::new();
            assert(ops_view(none@) =~= Seq::empty());
            return none;
        }
        let ghost inv = ops_view(back@);
        let kept = self.overlay.apply_record(back);
        proof {
            record_back(m0, inv);
            if kept@.len() == 0 {
                assert(ops_view(kept@) =~= Seq::empty());
            }
        }
        kept
    }

    /// Replaces the same columns on every line from `l0` to `l1`, as one undo
    /// step. A text of several lines goes in row by row.
    pub fn replace_rect(
        &mut self,
        doc: &Document,
        l0: u64,
        l1: u64,
        c0: usize,
        c1: usize,
        text: &str,
    ) -> (r: Result<(u64, usize), Error>)
        requires
            doc.wf(),
            old(self).wf(doc@.lines()),
            old(self).model(doc@.lines()).next_gen < u64::MAX,
            least(c0 as int, c1 as int) + text@.len() <= usize::MAX,
        ensures
            ({
                let l = doc@.lines();
                let before = old(self).model(l).lines;
                let top = least(l0 as int, l1 as int) as nat;
                let bottom = if l0 <= l1 { l1 as nat } else { l0 as nat };
                let op = LoggedOpView::ReplaceRect {
                    l0: l0 as nat,
                    l1: l1 as nat,
                    c0: c0 as nat,
                    c1: c1 as nat,
                    text: text@,
                };
                &&& final(self).wf(l)
                &&& old(self).did(*final(self), l, op)
                &&& match r {
                    Ok(caret) => {
                        &&& stepped(old(self).model(l), op) is Some
                        &&& (caret.0 as int, caret.1 as int) == rect_caret(
                            top,
                            bottom,
                            least(c0 as int, c1 as int) as nat,
                            text@,
                        )
                    },
                    Err(e) => {
                        &&& stepped(old(self).model(l), op) is None
                        &&& e@ == if before.len() == 0 {
                            rect_in_empty()
                        } else {
                            rect_outside(top, bottom)
                        }
                    },
                }
            }),
    {
        let ghost s0 = *self;
        let ghost l = doc@.lines();
        let total = shown_total(&self.overlay, doc);
        if total == 0 {
            return Err(err_rect_in_empty());
        }
        let (top, bottom) = if l0 <= l1 {
            (l0, l1)
        } else {
            (l1, l0)
        };
        if bottom >= total {
            return Err(err_rect_outside(top, bottom));
        }
        let (left, right) = if c0 <= c1 {
            (c0, c1)
        } else {
            (c1, c0)
        };
        let mut record: Vec<UndoOp> = Vec::new();
        apply_rect(&mut self.overlay, doc, top, bottom, left, right, text, &mut record);
        let op = LoggedOp::ReplaceRect { l0, l1, c0, c1, text: text.to_owned() };
        self.commit(record, op, Ghost(s0), Ghost(l));
        let parts = split_pieces(text);
        let last = parts.len() - 1;
        let line: u64 = if parts.len() == 1 {
            bottom
        } else if (last as u64) <= bottom - top {
            top + last as u64
        } else {
            bottom
        };
        let row = line - top;
        let at: usize = if row < parts.len() as u64 {
            row as usize
        } else {
            0
        };
        let piece = parts[at].as_str();
        proof {
            assert(texts(parts@)[at as int] == piece@);
            lemma_pieces_len(text@, at as int);
        }
        Ok((line, left + piece.unicode_len()))
    }

    // ---- what is shown ---------------------------------------------------------

    /// Numbers about the session.
    pub fn stats(&self, doc: &Document) -> (s: EditStats)
        requires
            doc.wf(),
            self.wf(doc@.lines()),
        ensures
            ({
                let l = doc@.lines();
                let m = self.model(l);
                &&& s.dirty == m.dirty()
                &&& s.revision == m.revision
                &&& s.total_lines == m.lines.len()
                &&& s.inserted_lines == inserted_upto(self.overlay_view(), l.len() as int + 1)
                &&& s.replaced_lines == replaced_upto(self.overlay_view(), l.len() as int)
                &&& s.deleted_lines == deleted_upto(self.overlay_view(), l.len() as int)
                &&& s.can_undo == (m.undo.len() > 0)
                &&& s.can_redo == (m.redo.len() > 0)
            }),
    {
        let ghost l = doc@.lines();
        let n = doc.line_count();
        let (inserted_lines, replaced_lines, deleted_lines) = self.overlay.counts(n, Ghost(l));
        EditStats {
            dirty: self.is_dirty(),
            revision: self.revision,
            total_lines: shown_total(&self.overlay, doc),
            inserted_lines,
            replaced_lines,
            deleted_lines,
            can_undo: self.can_undo(),
            can_redo: self.can_redo(),
        }
    }

    /// The number of lines that are shown.
    pub fn total_lines(&self, doc: &Document) -> (n: u64)
        requires
            doc.wf(),
            self.wf(doc@.lines()),
        ensures
            n == self.model(doc@.lines()).lines.len(),
    {
        shown_total(&self.overlay, doc)
    }

    /// A line as it is shown, and where it comes from.
    pub fn line(&self, doc: &Document, logical: u64) -> (r: Option<EditLine>)
        requires
            doc.wf(),
            self.wf(doc@.lines()),
        ensures
            ({
                let l = doc@.lines();
                &&& r is Some <==> logical < self.model(l).lines.len()
                &&& r matches Some(x) ==> self.line_shown(l, logical as int, x)
            }),
    {
        let ghost l = doc@.lines();
        let at = match self.overlay.locate(logical, doc.line_count(), Ghost(l)) {
            Some(at) => at,
            None => {
                return None;
            },
        };
        proof {
            lemma_refers(self.overlay@, l, logical as int, at);
        }
        let text = match shown_text(&self.overlay, doc, logical) {
            Some(t) => t,
            None => {
                return None;
            },
        };
        let (edited, inserted, original_line) = match at {
            LineRef::Original(o) => (false, false, Some(o)),
            LineRef::Replaced(o) => (true, false, Some(o)),
            LineRef::Inserted { .. } => (true, true, None),
        };
        let x = EditLine { number: logical, text, edited, inserted, original_line };
        assert(refers(self.overlay_view(), l, logical as int, at) && shows(at, x));
        Some(x)
    }

    /// The line `x` is the one that is shown at `i`.
    pub open spec fn line_shown(self, l: Seq<Seq<char>>, i: int, x: EditLine) -> bool {
        &&& x.number == i
        &&& x.text@ == self.model(l).lines[i]
        &&& exists|at: LineRef| #[trigger] refers(self.overlay_view(), l, i, at) && shows(at, x)
    }

    /// Up to `count` lines from `start` on.
    pub fn lines(&self, doc: &Document, start: u64, count: u64) -> (v: Vec<EditLine>)
        requires
            doc.wf(),
            self.wf(doc@.lines()),
        ensures
            v@.len() == window_len(
                start as int,
                count as int,
                self.model(doc@.lines()).lines.len() as int,
            ),
            forall|i: int|
                0 <= i < v@.len() ==> self.line_shown(doc@.lines(), start + i, #[trigger] v@[i]),
    {
        let ghost l = doc@.lines();
        let total = self.total_lines(doc);
        let end0 = start.saturating_add(count);
        let end = if end0 <= total {
            end0
        } else {
            total
        };
        let mut out: Vec<EditLine> = Vec::new();
        let mut at: u64 = start;
        while at < end
            invariant
                doc.wf(),
                l == doc@.lines(),
                self.wf(l),
                end <= self.model(l).lines.len(),
                start <= at,
                start <= end ==> at <= end,
                start > end ==> at == start,
                out@.len() == at - start,
                forall|i: int|
                    0 <= i < out@.len() ==> self.line_shown(l, start + i, #[trigger] out@[i]),
            decreases end - at,
        {
            if let Some(x) = self.line(doc, at) {
                out.push(x);
            }
            at += 1;
        }
        out
    }

    // ---- saving ----------------------------------------------------------------

    /// The bytes that a save writes: those of the document, with the edited
    /// lines in its encoding among them.
    pub fn write_stream(&self, doc: &Document) -> (r: Result<Vec<u8>, Error>)
        requires
            doc.wf(),
            self.wf(doc@.lines()),
        ensures
            match r {
                Ok(bytes) => {
                    &&& writable(doc@.encoding, self.overlay_view())
                    &&& bytes@ == saved_image(doc@, self.overlay_view())
                },
                Err(e) => {
                    &&& !writable(doc@.encoding, self.overlay_view())
                    &&& e@ == cannot_encode(doc@.encoding)
                },
            },
    {
        stream_bytes(&self.overlay, doc)
    }

    /// What a save writes, as pieces: those of the document that are untouched,
    /// and the bytes of edited lines between them.
    pub fn write_pieces<'a>(&self, doc: &Document<'a>) -> (r: Result<Vec<SavePiece<'a>>, Error>)
        requires
            doc.wf(),
            self.wf(doc@.lines()),
        ensures
            match r {
                Ok(v) => {
                    &&& writable(doc@.encoding, self.overlay_view())
                    &&& joined(v@) == saved_image(doc@, self.overlay_view())
                },
                Err(e) => {
                    &&& !writable(doc@.encoding, self.overlay_view())
                    &&& e@ == cannot_encode(doc@.encoding)
                },
            },
    {
        stream_pieces(&self.overlay, doc)
    }

    /// The bytes that a converting save writes: every line that is shown, in
    /// another encoding and with another terminator. The last line gets a
    /// terminator if the document ends with one. Only UTF-8 gets a byte order
    /// mark.
    pub fn save_converted(&self, doc: &Document, enc: Encoding, eol: Eol, with_bom: bool) -> (r:
        Result<Vec<u8>, Error>)
        requires
            doc.wf(),
            self.wf(doc@.lines()),
        ensures
            ({
                let lines = self.model(doc@.lines()).lines;
                match r {
                    Ok(bytes) => {
                        &&& first_unwritable(enc, lines, 0) is None
                        &&& bytes@ == bom_image(enc, with_bom) + converted_image(
                            enc,
                            lines,
                            terminator_in(enc, eol),
                            ends_terminated(doc@),
                        )
                    },
                    Err(e) => {
                        &&& first_unwritable(enc, lines, 0) is Some
                        &&& e@ == cannot_write_line(
                            first_unwritable(enc, lines, 0)->Some_0 as nat,
                            enc,
                        )
                    },
                }
            }),
    {
        converted_bytes(&self.overlay, doc, enc, eol, with_bom)
    }

    /// The bytes that a converting save writes for the lines from `from` up to
    /// `to`, of those that are shown.
    pub fn convert_lines(&self, doc: &Document, enc: Encoding, eol: Eol, from: u64, to: u64) -> (r:
        Result<Vec<u8>, Error>)
        requires
            doc.wf(),
            self.wf(doc@.lines()),
            from <= to <= self.model(doc@.lines()).lines.len(),
        ensures
            ({
                let lines = self.model(doc@.lines()).lines;
                match r {
                    Ok(bytes) => {
                        &&& unwritable_among(enc, lines, from as int, to as int) is None
                        &&& bytes@ == converted_image(
                            enc,
                            lines.subrange(from as int, to as int),
                            terminator_in(enc, eol),
                            to < lines.len() || ends_terminated(doc@),
                        )
                    },
                    Err(e) => {
                        &&& unwritable_among(enc, lines, from as int, to as int) is Some
                        &&& e@ == cannot_write_line(
                            unwritable_among(enc, lines, from as int, to as int)->Some_0 as nat,
                            enc,
                        )
                    },
                }
            }),
    {
        converted_part(&self.overlay, doc, enc, eol, from, to)
    }

    /// What is reported of a save that wrote `bytes` bytes.
    pub fn save_result(&self, doc: &Document, path: &str, bytes: u64) -> (r: SaveResult)
        requires
            doc.wf(),
            self.wf(doc@.lines()),
        ensures
            r.path@ == path@,
            r.bytes == bytes,
            r.lines == self.model(doc@.lines()).lines.len(),
    {
        SaveResult { path: path.to_owned(), bytes, lines: self.total_lines(doc) }
    }

    /// What a save to a path writes, and what it says of that. Where something
    /// exists already, nothing is saved.
    pub fn save_to_path(&self, doc: &Document, target: &str, taken: bool) -> (r: Result<
        (Vec<u8>, SaveResult),
        Error,
    >)
        requires
            doc.wf(),
            self.wf(doc@.lines()),
        ensures
            if taken {
                r matches Err(e) && e@ == save_path_taken(target@)
            } else {
                self.saves(doc@, target@, r)
            },
    {
        match check_save_target(target, taken, false) {
            Ok(()) => self.save_to_path_overwrite(doc, target),
            Err(e) => Err(e),
        }
    }

    /// What a save to a path writes, whatever is there, and what it says of
    /// that.
    pub fn save_to_path_overwrite(&self, doc: &Document, target: &str) -> (r: Result<
        (Vec<u8>, SaveResult),
        Error,
    >)
        requires
            doc.wf(),
            self.wf(doc@.lines()),
        ensures
            self.saves(doc@, target@, r),
    {
        match self.write_stream(doc) {
            Ok(bytes) => {
                let res = self.save_result(doc, target, bytes.len() as u64);
                Ok((bytes, res))
            },
            Err(e) => Err(e),
        }
    }

    /// The outcome of a save.
    pub open spec fn saves(
        &self,
        doc: DocView,
        target: Seq<char>,
        r: Result<(Vec<u8>, SaveResult), Error>,
    ) -> bool {
        match r {
            Ok((bytes, res)) => {
                &&& writable(doc.encoding, self.overlay_view())
                &&& bytes@ == saved_image(doc, self.overlay_view())
                &&& res.path@ == target
                &&& res.bytes == bytes@.len()
                &&& res.lines == self.model(doc.lines()).lines.len()
            },
            Err(e) => {
                &&& !writable(doc.encoding, self.overlay_view())
                &&& e@ == cannot_encode(doc.encoding)
            },
        }
    }

    // ---- replay ----------------------------------------------------------------

    /// Makes the edit that a log entry records.
    pub fn apply(&mut self, doc: &Document, op: &LoggedOp) -> (r: Result<(), Error>)
        requires
            doc.wf(),
            old(self).wf(doc@.lines()),
            old(self).model(doc@.lines()).next_gen < u64::MAX,
            op_in_reach(old(self).model(doc@.lines()).lines.len(), op@),
        ensures
            final(self).wf(doc@.lines()),
            old(self).did(*final(self), doc@.lines(), op@),
            r is Ok <==> stepped(old(self).model(doc@.lines()), op@) is Some,
            r matches Err(e) ==> e@ == step_fault(old(self).model(doc@.lines()), op@),
    {
        match op {
            LoggedOp::ReplaceRange { l0, c0, l1, c1, text } => {
                match self.replace_range(doc, *l0, *c0, *l1, *c1, text.as_str()) {
                    Ok(_) => Ok(()),
                    Err(e) => Err(e),
                }
            },
            LoggedOp::ReplaceRect { l0, l1, c0, c1, text } => {
                match self.replace_rect(doc, *l0, *l1, *c0, *c1, text.as_str()) {
                    Ok(_) => Ok(()),
                    Err(e) => Err(e),
                }
            },
            LoggedOp::Batch { edits } => match self.replace_batch(doc, edits.as_slice()) {
                Ok(_) => Ok(()),
                Err(e) => Err(e),
            },
            LoggedOp::ReplaceLine { line, text } => self.replace_line(doc, *line, text.clone()),
            LoggedOp::InsertLine { line, text } => self.insert_line_before(doc, *line, text.clone()),
            LoggedOp::DeleteLine { line } => self.delete_line(doc, *line),
            LoggedOp::Undo => {
                let _moved = self.undo();
                Ok(())
            },
            LoggedOp::Redo => {
                let _moved = self.redo();
                Ok(())
            },
        }
    }
}

/// Whether an operation stays within what machine integers count.
pub fn in_reach(total: u64, op: &LoggedOp) -> (b: bool)
    ensures
        b == op_in_reach(total as nat, op@),
{
    match op {
        LoggedOp::ReplaceRange { text, .. } => {
            let parts = split_pieces(text.as_str());
            assert(texts(parts@).len() == parts@.len());
            parts.len() as u128 + total as u128 <= u64::MAX as u128
        },
        LoggedOp::ReplaceRect { c0, c1, text, .. } => {
            let left = if *c0 <= *c1 {
                *c0
            } else {
                *c1
            };
            left.checked_add(text.as_str().unicode_len()).is_some()
        },
        LoggedOp::Batch { edits } => {
            let ghost es = batch_view(edits@);
            let mut sum: u64 = total;
            let mut i: usize = 0;
            assert(indexes(0) =~= Seq::empty());
            while i < edits.len()
                invariant
                    i <= edits@.len(),
                    es == batch_view(edits@),
                    op@ == (LoggedOpView::Batch { edits: es }),
                    sum == total + piece_total(es, indexes(i as nat)),
                decreases edits.len() - i,
            {
                let parts = split_pieces(edits[i].text.as_str());
                let n = parts.len();
                proof {
                    assert(texts(parts@).len() == n);
                    assert(indexes(i as nat + 1).drop_last() =~= indexes(i as nat));
                    assert(indexes(i as nat + 1).last() == i);
                    assert(es[i as int].text == edits@[i as int].text@);
                }
                match sum.checked_add(n as u64) {
                    Some(s) => {
                        sum = s;
                    },
                    None => {
                        proof {
                            lemma_piece_total_grows(es, i as nat + 1, es.len());
                        }
                        return false;
                    },
                }
                i += 1;
            }
            true
        },
        LoggedOp::InsertLine { .. } => total < u64::MAX,
        _ => true,
    }
}

proof fn lemma_piece_total_grows(edits: Seq<BatchEditView>, i: nat, n: nat)
    requires
        i <= n,
    ensures
        piece_total(edits, indexes(i)) <= piece_total(edits, indexes(n)),
    decreases n,
{
    if i < n {
        lemma_piece_total_grows(edits, i, (n - 1) as nat);
        assert(indexes(n).drop_last() =~= indexes((n - 1) as nat));
    }
}

/// The carets after a batch: behind the text of each edit.
pub open spec fn batch_caret(
    lines: Seq<Seq<char>>,
    edits: Seq<BatchEditView>,
    carets: Seq<(u64, usize)>,
) -> bool {
    let spans = clamped_spans(lines, edits);
    let order = span_order(spans, edits.len());
    &&& carets.len() == edits.len()
    &&& forall|k: int|
        0 <= k < edits.len() ==> {
            let e = batch_end(edits, spans, order, k);
            let c = carets[#[trigger] order[k]];
            c.0 == e.0 && c.1 == least(e.1, usize::MAX as int)
        }
}

proof fn lemma_batch_caret(
    lines: Seq<Seq<char>>,
    edits: Seq<BatchEditView>,
    order: Seq<usize>,
    carets: Seq<(u64, usize)>,
)
    requires
        carets.len() == edits.len(),
        order_of(order) == span_order(clamped_spans(lines, edits), edits.len()),
        order.len() == edits.len(),
        forall|k: int|
            0 <= k < order.len() ==> {
                let e = batch_end(edits, clamped_spans(lines, edits), order_of(order), k);
                &&& carets[order[k] as int].0 == e.0
                &&& carets[#[trigger] order[k] as int].1 == least(e.1, usize::MAX as int)
            },
    ensures
        batch_caret(lines, edits, carets),
{
    let spans = clamped_spans(lines, edits);
    let o = span_order(spans, edits.len());
    assert forall|k: int| 0 <= k < edits.len() implies ({
        let e = batch_end(edits, spans, o, k);
        let c = carets[#[trigger] o[k]];
        c.0 == e.0 && c.1 == least(e.1, usize::MAX as int)
    }) by {
        assert(o[k] == order[k]);
    }
}

/// An operation stays within what machine integers count: the lines that it
/// adds, and the column at which it leaves the caret.
pub open spec fn op_in_reach(total: nat, op: LoggedOpView) -> bool {
    match op {
        LoggedOpView::ReplaceRange { text, .. } => total + pieces(text).len() <= u64::MAX,
        LoggedOpView::ReplaceRect { c0, c1, text, .. } => least(c0 as int, c1 as int) + text.len()
            <= usize::MAX,
        LoggedOpView::Batch { edits } => total + piece_total(edits, indexes(edits.len()))
            <= u64::MAX,
        LoggedOpView::InsertLine { .. } => total < u64::MAX,
        _ => true,
    }
}

proof fn lemma_pieces_len(s: Seq<char>, i: int)
    requires
        0 <= i < pieces(s).len(),
    ensures
        pieces(s)[i].len() <= s.len(),
    decreases s.len(),
{
    if s.len() > 0 {
        lemma_pieces_nonempty(s.drop_last());
        let p = pieces(s.drop_last());
        if i < p.len() {
            lemma_pieces_len(s.drop_last(), i);
        }
        assert(pieces(s)[i].len() <= s.len());
    }
}

} // verus!
