//! The reference model of an editing session: plain lines, with a history of
//! plain lines. What the session does to its overlay is stated in terms of
//! what the model does to its lines.

use vstd::prelude::*;

use crate::error::ErrorView;
use crate::text::{decimal_text, joined, pieces};
use crate::wal::{BatchEditView, LoggedOpView, HISTORY_LIMIT};

verus! {

/// A session as a mathematical value.
#[verifier::ext_equal]
pub struct Model {
    /// The lines as they are shown.
    pub lines: Seq<Seq<char>>,
    /// Earlier contents with their generations, the latest last.
    pub undo: Seq<(Seq<Seq<char>>, u64)>,
    /// Contents that were undone, with their generations, the latest last.
    pub redo: Seq<(Seq<Seq<char>>, u64)>,
    pub revision: u64,
    pub content_gen: u64,
    pub next_gen: u64,
    pub saved_gen: u64,
}

pub open spec fn least(a: int, b: int) -> int {
    if a <= b {
        a
    } else {
        b
    }
}

/// A bounded stack: the oldest entry makes room.
pub open spec fn pushed<T>(stack: Seq<T>, e: T) -> Seq<T> {
    if stack.len() == HISTORY_LIMIT {
        stack.drop_first().push(e)
    } else {
        stack.push(e)
    }
}

impl Model {
    /// A new content: one undo step, a fresh generation, nothing to redo.
    pub open spec fn committed(self, lines: Seq<Seq<char>>) -> Model {
        Model {
            lines,
            undo: pushed(self.undo, (self.lines, self.content_gen)),
            redo: Seq::empty(),
            revision: self.revision.wrapping_add(1),
            content_gen: self.next_gen,
            next_gen: (self.next_gen + 1) as u64,
            saved_gen: self.saved_gen,
        }
    }

    /// A new content if something changed; else nothing at all.
    pub open spec fn changed_to(self, lines: Seq<Seq<char>>, changed: bool) -> Model {
        if changed {
            self.committed(lines)
        } else {
            self
        }
    }

    /// The content before the last change.
    pub open spec fn undone(self) -> Model {
        if self.undo.len() == 0 {
            self
        } else {
            Model {
                lines: self.undo.last().0,
                undo: self.undo.drop_last(),
                redo: pushed(self.redo, (self.lines, self.content_gen)),
                revision: self.revision.wrapping_add(1),
                content_gen: self.undo.last().1,
                next_gen: self.next_gen,
                saved_gen: self.saved_gen,
            }
        }
    }

    /// The content before the last undo.
    pub open spec fn redone(self) -> Model {
        if self.redo.len() == 0 {
            self
        } else {
            Model {
                lines: self.redo.last().0,
                undo: pushed(self.undo, (self.lines, self.content_gen)),
                redo: self.redo.drop_last(),
                revision: self.revision.wrapping_add(1),
                content_gen: self.redo.last().1,
                next_gen: self.next_gen,
                saved_gen: self.saved_gen,
            }
        }
    }

    /// The content differs from the one that was saved last.
    pub open spec fn dirty(self) -> bool {
        self.content_gen != self.saved_gen
    }
}

// ---- edits on lines ----------------------------------------------------------

/// Text put between what stands before it and what stands after it, as lines.
pub open spec fn spliced(head: Seq<char>, text: Seq<char>, tail: Seq<char>) -> Seq<Seq<char>> {
    let p = pieces(text);
    if p.len() == 1 {
        seq![head + p[0] + tail]
    } else {
        seq![head + p[0]] + p.subrange(1, p.len() - 1) + seq![p.last() + tail]
    }
}

pub open spec fn head_of(line: Seq<char>, c: nat) -> Seq<char> {
    line.take(least(c as int, line.len() as int))
}

pub open spec fn tail_of(line: Seq<char>, c: nat) -> Seq<char> {
    line.skip(least(c as int, line.len() as int))
}

/// A span that can be replaced: it lies inside the document, or is the origin
/// of an empty one.
pub open spec fn range_ok(lines: Seq<Seq<char>>, l0: nat, c0: nat, l1: nat, c1: nat) -> bool {
    if lines.len() == 0 {
        l0 == 0 && c0 == 0 && l1 == 0 && c1 == 0
    } else {
        l0 <= l1 < lines.len()
    }
}

/// The lines after the span from `(l0, c0)` to `(l1, c1)` became `text`.
/// Columns past the end of a line mean its end.
pub open spec fn ranged(
    lines: Seq<Seq<char>>,
    l0: nat,
    c0: nat,
    l1: nat,
    c1: nat,
    text: Seq<char>,
) -> Seq<Seq<char>> {
    if lines.len() == 0 {
        pieces(text)
    } else {
        lines.take(l0 as int) + spliced(
            head_of(lines[l0 as int], c0),
            text,
            tail_of(lines[l1 as int], c1),
        ) + lines.skip(l1 as int + 1)
    }
}

/// Where the caret stands after a span was replaced: behind the new text.
pub open spec fn range_caret(
    lines: Seq<Seq<char>>,
    l0: nat,
    c0: nat,
    text: Seq<char>,
) -> (int, int) {
    let p = pieces(text);
    (
        l0 + p.len() - 1,
        if p.len() == 1 && lines.len() > 0 {
            head_of(lines[l0 as int], c0).len() + p[0].len() as int
        } else {
            p.last().len() as int
        },
    )
}

/// What a rectangle puts on its row `row`: the one piece of a text without
/// line feeds, or the piece of that row.
pub open spec fn rect_piece(text: Seq<char>, row: int) -> Seq<char> {
    let p = pieces(text);
    if p.len() == 1 {
        p[0]
    } else if row < p.len() {
        p[row]
    } else {
        Seq::empty()
    }
}

/// A line with columns `left` up to `right` replaced.
pub open spec fn rect_line(line: Seq<char>, left: nat, right: nat, piece: Seq<char>) -> Seq<char> {
    head_of(line, left) + piece + tail_of(line, right)
}

/// The lines after a column span was replaced on rows `top` to `bottom`.
pub open spec fn rectangled(
    lines: Seq<Seq<char>>,
    top: nat,
    bottom: nat,
    left: nat,
    right: nat,
    text: Seq<char>,
) -> Seq<Seq<char>> {
    Seq::new(
        lines.len(),
        |i: int|
            if top <= i <= bottom {
                rect_line(lines[i], left, right, rect_piece(text, i - top))
            } else {
                lines[i]
            },
    )
}

/// Where the caret stands after a rectangle was replaced.
pub open spec fn rect_caret(top: nat, bottom: nat, left: nat, text: Seq<char>) -> (int, int) {
    let p = pieces(text);
    let line = if p.len() == 1 {
        bottom as int
    } else {
        top + least(p.len() - 1, bottom - top)
    };
    let row = line - top;
    (line, left + (if row < p.len() { p[row].len() } else { p[0].len() }) as int)
}

// ---- several edits at once ---------------------------------------------------

/// A span in order: `(l0, c0)` and `(l1, c1)`.
pub type Span = (nat, nat, nat, nat);

pub open spec fn pos_before(a: (nat, nat), b: (nat, nat)) -> bool {
    a.0 < b.0 || (a.0 == b.0 && a.1 < b.1)
}

/// Spans are ordered by their start, then by their end.
pub open spec fn span_before(a: Span, b: Span) -> bool {
    ||| pos_before((a.0, a.1), (b.0, b.1))
    ||| (a.0, a.1) == (b.0, b.1) && pos_before((a.2, a.3), (b.2, b.3))
}

/// The span of an edit with its columns inside their lines.
pub open spec fn clamped_span(lines: Seq<Seq<char>>, e: BatchEditView) -> Span {
    if lines.len() == 0 {
        (0, 0, 0, 0)
    } else {
        (
            e.l0,
            least(e.c0 as int, lines[e.l0 as int].len() as int) as nat,
            e.l1,
            least(e.c1 as int, lines[e.l1 as int].len() as int) as nat,
        )
    }
}

/// The spans of all edits.
pub open spec fn clamped_spans(lines: Seq<Seq<char>>, edits: Seq<BatchEditView>) -> Seq<Span> {
    Seq::new(edits.len(), |i: int| clamped_span(lines, edits[i]))
}

/// What is wrong with an edit of a batch by itself, if anything.
pub open spec fn edit_fault(lines: Seq<Seq<char>>, e: BatchEditView) -> Option<ErrorView> {
    if lines.len() == 0 {
        if e.l0 != 0 || e.c0 != 0 || e.l1 != 0 || e.c1 != 0 {
            Some(empty_document())
        } else {
            None
        }
    } else if e.l0 > e.l1 || e.l1 >= lines.len() {
        Some(range_outside(e.l0, e.l1))
    } else {
        let s = clamped_span(lines, e);
        if e.l0 == e.l1 && s.1 > s.3 {
            Some(reversed_range(e.l0, e.c0, e.c1))
        } else {
            None
        }
    }
}

/// The position in `order` at which index `i` is put, looking from `j` on: the
/// first with a greater span.
pub open spec fn slot(order: Seq<int>, spans: Seq<Span>, i: int, j: int) -> int
    decreases order.len() - j,
{
    if j >= order.len() || j < 0 || span_before(spans[i], spans[order[j]]) {
        j
    } else {
        slot(order, spans, i, j + 1)
    }
}

/// The indexes of the first `n` spans in the order of their spans; equal spans
/// stay in the order of their indexes.
pub open spec fn span_order(spans: Seq<Span>, n: nat) -> Seq<int>
    decreases n,
{
    if n == 0 {
        Seq::empty()
    } else {
        let o = span_order(spans, (n - 1) as nat);
        o.insert(slot(o, spans, n - 1, 0), n - 1)
    }
}

/// The first place from `k` on at which an edit starts before the one before it
/// ends.
pub open spec fn overlap_from(spans: Seq<Span>, order: Seq<int>, k: int) -> Option<int>
    decreases order.len() - k,
{
    if k < 0 || k + 1 >= order.len() {
        None
    } else {
        let a = spans[order[k]];
        let b = spans[order[k + 1]];
        if pos_before((b.0, b.1), (a.2, a.3)) {
            Some(k + 1)
        } else {
            overlap_from(spans, order, k + 1)
        }
    }
}

/// What is wrong with a batch, if anything: the first edit that is wrong by
/// itself, or else the first two that overlap.
pub open spec fn batch_fault(lines: Seq<Seq<char>>, edits: Seq<BatchEditView>) -> Option<ErrorView> {
    match edit_fault_from(lines, edits, 0) {
        Some(e) => Some(e),
        None => {
            let spans = clamped_spans(lines, edits);
            let order = span_order(spans, edits.len());
            match overlap_from(spans, order, 0) {
                Some(k) => Some(edits_overlap(spans[order[k]].0)),
                None => None,
            }
        },
    }
}

pub open spec fn edit_fault_from(
    lines: Seq<Seq<char>>,
    edits: Seq<BatchEditView>,
    i: int,
) -> Option<ErrorView>
    decreases edits.len() - i,
{
    if i < 0 || i >= edits.len() {
        None
    } else if edit_fault(lines, edits[i]) is Some {
        edit_fault(lines, edits[i])
    } else {
        edit_fault_from(lines, edits, i + 1)
    }
}

/// The lines after the edits from place `k` of the order on were made, the last
/// one first.
pub open spec fn batched(
    lines: Seq<Seq<char>>,
    edits: Seq<BatchEditView>,
    spans: Seq<Span>,
    order: Seq<int>,
    k: int,
) -> Seq<Seq<char>>
    decreases order.len() - k,
{
    if k < 0 || k >= order.len() {
        lines
    } else {
        let s = spans[order[k]];
        ranged(
            batched(lines, edits, spans, order, k + 1),
            s.0,
            s.1,
            s.2,
            s.3,
            edits[order[k]].text,
        )
    }
}

/// By how many lines the edits before place `k` of the order move what comes
/// after them: lines added.
pub open spec fn lines_added(edits: Seq<BatchEditView>, order: Seq<int>, k: int) -> int
    decreases k,
{
    if k <= 0 {
        0
    } else {
        lines_added(edits, order, k - 1) + pieces(edits[order[k - 1]].text).len() - 1
    }
}

/// Lines removed by the edits before place `k` of the order.
pub open spec fn lines_removed(spans: Seq<Span>, order: Seq<int>, k: int) -> int
    decreases k,
{
    if k <= 0 {
        0
    } else {
        lines_removed(spans, order, k - 1) + spans[order[k - 1]].2 - spans[order[k - 1]].0
    }
}

/// Where the edit at place `k` of the order starts once all edits are made: the
/// edits before it move it by whole lines, and one that ends on its line moves
/// it along that line too.
pub open spec fn batch_start(
    edits: Seq<BatchEditView>,
    spans: Seq<Span>,
    order: Seq<int>,
    k: int,
) -> (int, int)
    decreases k, 0int,
{
    let s = spans[order[k]];
    (
        s.0 + lines_added(edits, order, k) - lines_removed(spans, order, k),
        if k > 0 && spans[order[k - 1]].2 == s.0 {
            batch_end(edits, spans, order, k - 1).1 + s.1 - spans[order[k - 1]].3
        } else {
            s.1 as int
        },
    )
}

/// Where the text of the edit at place `k` of the order ends.
pub open spec fn batch_end(
    edits: Seq<BatchEditView>,
    spans: Seq<Span>,
    order: Seq<int>,
    k: int,
) -> (int, int)
    decreases k, 1int,
{
    let p = pieces(edits[order[k]].text);
    let s = batch_start(edits, spans, order, k);
    (s.0 + p.len() - 1, if p.len() == 1 { s.1 + p[0].len() } else { p.last().len() as int })
}

// ---- messages ----------------------------------------------------------------

pub open spec fn line_out_of_range(line: nat) -> ErrorView {
    ErrorView::Unsupported("line "@ + decimal_text(line + 1) + " is out of range"@)
}

pub open spec fn line_beyond_end(line: nat) -> ErrorView {
    ErrorView::Unsupported("line "@ + decimal_text(line + 1) + " is beyond end of document"@)
}

pub open spec fn empty_document() -> ErrorView {
    ErrorView::Unsupported("the document is empty; only an insertion at line 1 is valid"@)
}

pub open spec fn range_outside(l0: nat, l1: nat) -> ErrorView {
    ErrorView::Unsupported(
        "range spans lines "@ + decimal_text(l0 + 1) + ".."@ + decimal_text(l1 + 1)
            + " outside the document"@,
    )
}

pub open spec fn reversed_range(line: nat, c0: nat, c1: nat) -> ErrorView {
    ErrorView::Unsupported(
        "range on line "@ + decimal_text(line + 1) + " is reversed (column "@ + decimal_text(c0 + 1)
            + " comes after "@ + decimal_text(c1 + 1) + ")"@,
    )
}

pub open spec fn edits_overlap(line: nat) -> ErrorView {
    ErrorView::Unsupported("batch edits overlap around line "@ + decimal_text(line + 1))
}

pub open spec fn rect_in_empty() -> ErrorView {
    ErrorView::Unsupported("rectangular selection is not valid in an empty document"@)
}

pub open spec fn rect_outside(top: nat, bottom: nat) -> ErrorView {
    ErrorView::Unsupported(
        "rectangle spans lines "@ + decimal_text(top + 1) + ".."@ + decimal_text(bottom + 1)
            + " outside the document"@,
    )
}

// ---- one call on the model ---------------------------------------------------

/// What a logged operation does to the model; `None` where it is refused.
pub open spec fn stepped(m: Model, op: LoggedOpView) -> Option<Model> {
    match op {
        LoggedOpView::ReplaceRange { l0, c0, l1, c1, text } => if range_ok(m.lines, l0, c0, l1, c1) {
            let now = ranged(m.lines, l0, c0, l1, c1, text);
            Some(m.changed_to(now, now != m.lines))
        } else {
            None
        },
        LoggedOpView::ReplaceRect { l0, l1, c0, c1, text } => {
            let top = least(l0 as int, l1 as int) as nat;
            let bottom = if l0 <= l1 { l1 } else { l0 };
            let left = least(c0 as int, c1 as int) as nat;
            let right = if c0 <= c1 { c1 } else { c0 };
            if bottom < m.lines.len() {
                let now = rectangled(m.lines, top, bottom, left, right, text);
                Some(m.changed_to(now, now != m.lines))
            } else {
                None
            }
        },
        LoggedOpView::Batch { edits } => if edits.len() == 0 {
            Some(m)
        } else if batch_fault(m.lines, edits) is Some {
            None
        } else {
            let spans = clamped_spans(m.lines, edits);
            let order = span_order(spans, edits.len());
            let now = batched(m.lines, edits, spans, order, 0);
            Some(m.changed_to(now, now != m.lines))
        },
        LoggedOpView::ReplaceLine { line, text } => if line < m.lines.len() {
            Some(m.changed_to(m.lines.update(line as int, text), m.lines[line as int] != text))
        } else {
            None
        },
        LoggedOpView::InsertLine { line, text } => if line <= m.lines.len() {
            Some(m.committed(m.lines.insert(line as int, text)))
        } else {
            None
        },
        LoggedOpView::DeleteLine { line } => if line < m.lines.len() {
            Some(m.committed(m.lines.remove(line as int)))
        } else {
            None
        },
        LoggedOpView::Undo => Some(m.undone()),
        LoggedOpView::Redo => Some(m.redone()),
    }
}

/// Why a logged operation is refused.
pub open spec fn step_fault(m: Model, op: LoggedOpView) -> ErrorView {
    match op {
        LoggedOpView::ReplaceRange { l0, l1, .. } => if m.lines.len() == 0 {
            empty_document()
        } else {
            range_outside(l0, l1)
        },
        LoggedOpView::ReplaceRect { l0, l1, .. } => if m.lines.len() == 0 {
            rect_in_empty()
        } else {
            rect_outside(least(l0 as int, l1 as int) as nat, if l0 <= l1 { l1 } else { l0 })
        },
        LoggedOpView::Batch { edits } => match batch_fault(m.lines, edits) {
            Some(e) => e,
            None => empty_document(),
        },
        LoggedOpView::InsertLine { line, .. } => line_beyond_end(line),
        LoggedOpView::ReplaceLine { line, .. } => line_out_of_range(line),
        LoggedOpView::DeleteLine { line } => line_out_of_range(line),
        _ => empty_document(),
    }
}

// ---- laws of the model -------------------------------------------------------

/// Undoing a change brings back the content and its generation, and redoing
/// brings the change back.
pub proof fn undo_takes_a_change_back(m: Model, lines: Seq<Seq<char>>)
    requires
        m.undo.len() <= HISTORY_LIMIT,
    ensures
        m.committed(lines).undone().lines == m.lines,
        m.committed(lines).undone().content_gen == m.content_gen,
        m.committed(lines).undone().saved_gen == m.saved_gen,
        m.undo.len() < HISTORY_LIMIT ==> m.committed(lines).undone().undo == m.undo,
        m.committed(lines).undone().redone().lines == lines,
        m.committed(lines).undone().redone().content_gen == m.committed(lines).content_gen,
        m.committed(lines).undone().redone().undo == m.committed(lines).undo,
        m.committed(lines).undone().redone().redo == m.committed(lines).redo,
{
    let c = m.committed(lines);
    let u = c.undone();
    assert(c.undo.last() == (m.lines, m.content_gen));
    if m.undo.len() < HISTORY_LIMIT {
        assert(c.undo.drop_last() =~= m.undo);
    } else {
        assert(c.undo.drop_last() =~= m.undo.drop_first());
    }
    assert(u.redo =~= seq![(lines, c.content_gen)]);
    let r = u.redone();
    assert(r.redo =~= Seq::empty());
    assert(r.undo =~= c.undo);
}

/// Undo, then redo, is where one was; redo, then undo, too, but for the
/// revision and for history that no longer fits.
pub proof fn redo_takes_an_undo_back(m: Model)
    requires
        m.undo.len() <= HISTORY_LIMIT,
        m.redo.len() < HISTORY_LIMIT,
    ensures
        m.undo.len() > 0 ==> m.undone().redone() == (Model {
            revision: m.undone().redone().revision,
            ..m
        }),
{
    if m.undo.len() > 0 {
        let u = m.undone();
        let r = u.redone();
        assert(u.redo.last() == (m.lines, m.content_gen));
        assert(u.redo.drop_last() =~= m.redo);
        assert(r.undo =~= m.undo.drop_last().push(m.undo.last()));
        assert(r.undo =~= m.undo);
    }
}

/// Saving makes a session clean; a change makes it dirty, and undoing the
/// change makes it clean again.
pub proof fn dirtiness_follows_the_content(m: Model, lines: Seq<Seq<char>>)
    requires
        m.undo.len() <= HISTORY_LIMIT,
        m.saved_gen == m.content_gen,
        m.saved_gen < m.next_gen < u64::MAX,
    ensures
        !m.dirty(),
        m.committed(lines).dirty(),
        !m.committed(lines).undone().dirty(),
        m.committed(lines).undone().redone().dirty(),
{
    undo_takes_a_change_back(m, lines);
}

/// The position of a line and column in the text of all lines.
pub open spec fn text_offset(lines: Seq<Seq<char>>, line: nat, col: nat) -> int
    decreases line,
{
    if line == 0 {
        col as int
    } else {
        joined(lines.take(line as int)).len() as int + 1 + col
    }
}

proof fn lemma_joined_concat(a: Seq<Seq<char>>, b: Seq<Seq<char>>)
    requires
        a.len() > 0,
        b.len() > 0,
    ensures
        joined(a + b) == joined(a).push('\n') + joined(b),
    decreases b.len(),
{
    if b.len() == 1 {
        assert((a + b).drop_last() =~= a);
        assert((a + b).last() == b[0]);
    } else {
        assert((a + b).drop_last() =~= a + b.drop_last());
        assert((a + b).last() == b.last());
        lemma_joined_concat(a, b.drop_last());
        assert(joined(a + b) =~= joined(a).push('\n') + joined(b));
    }
}

proof fn lemma_joined_first(head: Seq<char>, p: Seq<Seq<char>>)
    requires
        p.len() > 0,
    ensures
        joined(p.update(0, head + p[0])) == head + joined(p),
    decreases p.len(),
{
    let q = p.update(0, head + p[0]);
    if p.len() > 1 {
        assert(q.drop_last() =~= p.drop_last().update(0, head + p[0]));
        lemma_joined_first(head, p.drop_last());
        assert(joined(q) =~= head + joined(p));
    }
}

proof fn lemma_joined_last(p: Seq<Seq<char>>, tail: Seq<char>)
    requires
        p.len() > 0,
    ensures
        joined(p.update(p.len() - 1, p.last() + tail)) == joined(p) + tail,
{
    let q = p.update(p.len() - 1, p.last() + tail);
    if p.len() > 1 {
        assert(q.drop_last() =~= p.drop_last());
        assert(joined(q) =~= joined(p) + tail);
    }
}

proof fn lemma_joined_spliced(head: Seq<char>, text: Seq<char>, tail: Seq<char>)
    ensures
        joined(spliced(head, text, tail)) == head + text + tail,
        spliced(head, text, tail).len() == pieces(text).len(),
{
    let p = pieces(text);
    crate::text::lemma_pieces_nonempty(text);
    crate::text::split_then_join_is_identity(text);
    if p.len() == 1 {
        assert(joined(spliced(head, text, tail)) == head + p[0] + tail);
    } else {
        let q = p.update(0, head + p[0]);
        lemma_joined_first(head, p);
        assert(q.last() == p.last());
        lemma_joined_last(q, tail);
        assert(spliced(head, text, tail) =~= q.update(q.len() - 1, q.last() + tail));
    }
}

/// Replacing a span of lines is replacing a stretch of text: what stands
/// before the span and what stands after it stay as they are.
pub proof fn range_replaces_text(
    lines: Seq<Seq<char>>,
    l0: nat,
    c0: nat,
    l1: nat,
    c1: nat,
    text: Seq<char>,
)
    requires
        l0 <= l1 < lines.len(),
        c0 <= lines[l0 as int].len(),
        c1 <= lines[l1 as int].len(),
    ensures
        joined(ranged(lines, l0, c0, l1, c1, text)) == joined(lines).take(
            text_offset(lines, l0, c0),
        ) + text + joined(lines).skip(text_offset(lines, l1, c1)),
{
    let head = head_of(lines[l0 as int], c0);
    let tail = tail_of(lines[l1 as int], c1);
    let mid = spliced(head, text, tail);
    let all = joined(lines);
    let before = lines.take(l0 as int);
    let after = lines.skip(l1 as int + 1);
    lemma_joined_spliced(head, text, tail);
    crate::text::lemma_pieces_nonempty(text);
    // What stands before the span.
    let x = if l0 == 0 {
        Seq::empty()
    } else {
        joined(before).push('\n')
    };
    assert(all.take(text_offset(lines, l0, c0)) =~= x + head) by {
        lemma_cut(lines, l0, c0);
    }
    // What stands after it.
    let y = if after.len() == 0 {
        Seq::empty()
    } else {
        seq!['\n'] + joined(after)
    };
    assert(all.skip(text_offset(lines, l1, c1)) =~= tail + y) by {
        lemma_cut(lines, l1, c1);
    }
    let whole = ranged(lines, l0, c0, l1, c1, text);
    if l0 == 0 {
        assert(before + mid =~= mid);
    } else {
        lemma_joined_concat(before, mid);
    }
    assert(joined(before + mid) =~= x + head + text + tail);
    if after.len() == 0 {
        assert(before + mid + after =~= before + mid);
    } else {
        lemma_joined_concat(before + mid, after);
    }
    assert(joined(whole) =~= x + head + text + tail + y);
}

/// Text cut at a position: the lines before, the line, the lines after.
pub proof fn lemma_cut(lines: Seq<Seq<char>>, l: nat, c: nat)
    requires
        l < lines.len(),
        c <= lines[l as int].len(),
    ensures
        ({
            let x = if l == 0 {
                Seq::empty()
            } else {
                joined(lines.take(l as int)).push('\n')
            };
            let after = lines.skip(l as int + 1);
            let y = if after.len() == 0 {
                Seq::empty()
            } else {
                seq!['\n'] + joined(after)
            };
            &&& joined(lines) == x + lines[l as int] + y
            &&& x.len() + c == text_offset(lines, l, c)
        }),
{
    let before = lines.take(l as int);
    let one = seq![lines[l as int]];
    let after = lines.skip(l as int + 1);
    if l == 0 {
        assert(before + one =~= one);
    } else {
        lemma_joined_concat(before, one);
    }
    assert(before + one =~= lines.take(l as int + 1));
    if after.len() == 0 {
        assert(lines.take(l as int + 1) =~= lines);
    } else {
        lemma_joined_concat(lines.take(l as int + 1), after);
        assert(lines.take(l as int + 1) + after =~= lines);
    }
    let x = if l == 0 {
        Seq::empty()
    } else {
        joined(before).push('\n')
    };
    let y = if after.len() == 0 {
        Seq::empty()
    } else {
        seq!['\n'] + joined(after)
    };
    assert(joined(lines) =~= x + lines[l as int] + y);
}

/// Replacing a rectangle works on each of its rows by itself: what stands
/// before the left column and what stands after the right one stay, and between
/// them comes the text if it is one line, or else its line of that row, and
/// nothing where it has no such line. An empty text takes the columns out.
/// Corners can be given in any order, and no other line changes.
pub proof fn a_rectangle_replaces_columns(
    m: Model,
    l0: nat,
    l1: nat,
    c0: nat,
    c1: nat,
    text: Seq<char>,
)
    ensures
        ({
            let op = LoggedOpView::ReplaceRect { l0, l1, c0, c1, text };
            let n = m.lines.len();
            let (top, bottom) = if l0 <= l1 { (l0, l1) } else { (l1, l0) };
            let (left, right) = if c0 <= c1 { (c0, c1) } else { (c1, c0) };
            &&& stepped(m, op) is Some <==> l0 < n && l1 < n
            &&& l0 < n && l1 < n ==> {
                let now = stepped(m, op)->Some_0.lines;
                &&& now.len() == n
                &&& forall|i: int|
                    0 <= i < n ==> {
                        let line = m.lines[i];
                        let a = if left <= line.len() { left as int } else { line.len() as int };
                        let b = if right <= line.len() { right as int } else { line.len() as int };
                        let row = i - top;
                        let piece = if !text.contains('\n') {
                            text
                        } else if row < pieces(text).len() {
                            pieces(text)[row]
                        } else {
                            Seq::<char>::empty()
                        };
                        if top <= i <= bottom {
                            &&& #[trigger] now[i] == line.take(a) + piece + line.skip(b)
                            &&& now[i].len() == line.len() - (b - a) + piece.len()
                        } else {
                            now[i] == line
                        }
                    }
            }
        }),
{
    crate::text::lemma_pieces_nonempty(text);
    crate::text::texts_are_cut_at_line_feeds(text);
    let (top, bottom) = if l0 <= l1 { (l0, l1) } else { (l1, l0) };
    let (left, right) = if c0 <= c1 { (c0, c1) } else { (c1, c0) };
    if l0 < m.lines.len() && l1 < m.lines.len() {
        let now = rectangled(m.lines, top, bottom, left, right, text);
        assert(stepped(m, LoggedOpView::ReplaceRect { l0, l1, c0, c1, text })->Some_0.lines =~= now);
    }
}

/// What the other operations do to the lines: one line becomes another, comes
/// in or goes, and all others keep their text and their order.
pub proof fn lines_are_edited_one_by_one(m: Model, line: nat, text: Seq<char>)
    ensures
        ({
            let n = m.lines.len();
            let put = stepped(m, LoggedOpView::ReplaceLine { line, text });
            let add = stepped(m, LoggedOpView::InsertLine { line, text });
            let cut = stepped(m, LoggedOpView::DeleteLine { line });
            &&& put is Some <==> line < n
            &&& add is Some <==> line <= n
            &&& cut is Some <==> line < n
            &&& put matches Some(p) ==> {
                &&& p.lines.len() == n
                &&& p.lines[line as int] == text
                &&& forall|i: int| 0 <= i < n && i != line ==> #[trigger] p.lines[i] == m.lines[i]
            }
            &&& add matches Some(p) ==> {
                &&& p.lines.len() == n + 1
                &&& p.lines[line as int] == text
                &&& forall|i: int| 0 <= i < line ==> #[trigger] p.lines[i] == m.lines[i]
                &&& forall|i: int| line < i <= n ==> #[trigger] p.lines[i] == m.lines[i - 1]
            }
            &&& cut matches Some(p) ==> {
                &&& p.lines.len() == n - 1
                &&& forall|i: int| 0 <= i < line ==> #[trigger] p.lines[i] == m.lines[i]
                &&& forall|i: int| line <= i < n - 1 ==> #[trigger] p.lines[i] == m.lines[i + 1]
            }
        }),
{
}

/// Every operation that changes the lines can be undone, which brings the lines
/// back, and then redone; it leaves nothing else to redo. One that leaves the
/// lines as they are leaves no trace, but for lines that are put in or taken
/// out.
pub proof fn what_changes_can_be_undone(m: Model, op: LoggedOpView)
    requires
        m.undo.len() <= HISTORY_LIMIT,
        stepped(m, op) is Some,
        op !is Undo,
        op !is Redo,
    ensures
        ({
            let n = stepped(m, op)->Some_0;
            &&& n.lines != m.lines ==> n != m
            &&& n.lines == m.lines && op !is InsertLine && op !is DeleteLine ==> n == m
            &&& n != m ==> {
                let back = stepped(n, LoggedOpView::Undo);
                &&& n.undo.len() > 0
                &&& n.redo.len() == 0
                &&& n.content_gen == m.next_gen
                &&& back matches Some(b) && b.lines == m.lines && b.content_gen == m.content_gen
                    && b.redo.len() == 1 && {
                    let again = stepped(b, LoggedOpView::Redo);
                    again matches Some(r) && r.lines == n.lines && r.content_gen == n.content_gen
                        && r.redo.len() == 0
                }
            }
        }),
{
    let n = stepped(m, op)->Some_0;
    if n != m {
        assert(n == m.committed(n.lines));
        undo_takes_a_change_back(m, n.lines);
        let u = n.undone();
        assert(u.redo =~= seq![(n.lines, n.content_gen)]);
    }
}

/// As many changes can be undone as were made, one by one and in reverse, up to
/// the number that is remembered.
pub proof fn the_latest_changes_are_remembered(m: Model, lines: Seq<Seq<char>>)
    requires
        m.undo.len() <= HISTORY_LIMIT,
    ensures
        ({
            let c = m.committed(lines);
            &&& c.undo.len() == if m.undo.len() < 256 { m.undo.len() + 1 } else { 256 }
            &&& c.undo.last() == (m.lines, m.content_gen)
            &&& m.undo.len() < 256 ==> c.undo.drop_last() == m.undo
            &&& m.undo.len() == 256 ==> c.undo.drop_last() == m.undo.drop_first()
        }),
{
    let c = m.committed(lines);
    if m.undo.len() < HISTORY_LIMIT {
        assert(c.undo.drop_last() =~= m.undo);
    } else {
        assert(c.undo.drop_last() =~= m.undo.drop_first());
    }
}

// ---- facts about batches -----------------------------------------------------

/// The number of pieces of the texts of edits, one after the other.
pub open spec fn piece_total(edits: Seq<BatchEditView>, order: Seq<int>) -> nat
    decreases order.len(),
{
    if order.len() == 0 {
        0
    } else {
        piece_total(edits, order.drop_last()) + pieces(edits[order.last()].text).len()
    }
}

/// The indexes below `n` in their own order.
pub open spec fn indexes(n: nat) -> Seq<int> {
    Seq::new(n, |i: int| i)
}

proof fn lemma_piece_total_insert(edits: Seq<BatchEditView>, o: Seq<int>, i: int, x: int)
    requires
        0 <= i <= o.len(),
    ensures
        piece_total(edits, o.insert(i, x)) == piece_total(edits, o) + pieces(edits[x].text).len(),
    decreases o.len(),
{
    if i == o.len() {
        assert(o.insert(i, x).drop_last() =~= o);
        assert(o.insert(i, x).last() == x);
    } else {
        assert(o.insert(i, x).drop_last() =~= o.drop_last().insert(i, x));
        assert(o.insert(i, x).last() == o.last());
        lemma_piece_total_insert(edits, o.drop_last(), i, x);
    }
}

pub proof fn lemma_slot(order: Seq<int>, spans: Seq<Span>, i: int, j: int)
    requires
        0 <= j <= order.len(),
    ensures
        j <= slot(order, spans, i, j) <= order.len(),
    decreases order.len() - j,
{
    if j < order.len() && !span_before(spans[i], spans[order[j]]) {
        lemma_slot(order, spans, i, j + 1);
    }
}

/// Ordering the spans only reorders them.
pub proof fn lemma_order(edits: Seq<BatchEditView>, spans: Seq<Span>, n: nat)
    ensures
        span_order(spans, n).len() == n,
        span_order(spans, n).no_duplicates(),
        forall|k: int| 0 <= k < n ==> 0 <= #[trigger] span_order(spans, n)[k] < n,
        piece_total(edits, span_order(spans, n)) == piece_total(edits, indexes(n)),
    decreases n,
{
    if n > 0 {
        let h = (n - 1) as nat;
        lemma_order(edits, spans, h);
        let o = span_order(spans, h);
        lemma_slot(o, spans, n - 1, 0);
        let i = slot(o, spans, n - 1, 0);
        lemma_piece_total_insert(edits, o, i, n - 1);
        assert(indexes(n).drop_last() =~= indexes(h));
        let q = o.insert(i, n - 1);
        assert forall|k: int| 0 <= k < n implies 0 <= #[trigger] q[k] < n by {
            if k < i {
                assert(q[k] == o[k]);
            } else if k > i {
                assert(q[k] == o[k - 1]);
            }
        }
        assert forall|x: int, y: int| 0 <= x < n && 0 <= y < n && x != y implies q[x] != q[y] by {
            let ox = if x < i { x } else { x - 1 };
            let oy = if y < i { y } else { y - 1 };
            if x != i {
                assert(q[x] == o[ox]);
            }
            if y != i {
                assert(q[y] == o[oy]);
            }
            if x != i && y != i {
                assert(ox != oy);
                assert(o[ox] != o[oy]);
            }
        }
    }
}

/// Equal spans come in the order of their indexes.
pub proof fn equal_spans_keep_their_order(spans: Seq<Span>, n: nat)
    requires
        n <= spans.len(),
    ensures
        forall|x: int, y: int|
            0 <= x < y < n && spans[#[trigger] span_order(spans, n)[x]]
                == spans[#[trigger] span_order(spans, n)[y]] ==> span_order(spans, n)[x]
                < span_order(spans, n)[y],
    decreases n,
{
    if n > 0 {
        let h = (n - 1) as nat;
        equal_spans_keep_their_order(spans, h);
        spans_are_ordered(spans, h);
        lemma_order(Seq::empty(), spans, h);
        let o = span_order(spans, h);
        let i = slot(o, spans, n - 1, 0);
        lemma_slot(o, spans, n - 1, 0);
        lemma_slot_place(o, spans, n - 1, 0);
        let q = o.insert(i, n - 1);
        assert forall|x: int, y: int|
            0 <= x < y < n && spans[#[trigger] q[x]] == spans[#[trigger] q[y]] implies q[x] < q[y] by {
            if x == i {
                assert(q[y] == o[y - 1]);
                if y - 1 > i {
                    assert(!span_before(spans[o[y - 1]], spans[o[i]]));
                }
            } else if y == i {
                assert(q[x] == o[x]);
            } else {
                let ox = if x < i { x } else { x - 1 };
                let oy = if y < i { y } else { y - 1 };
                assert(q[x] == o[ox] && q[y] == o[oy]);
            }
        }
    }
}

/// The order is one: no span stands after a greater one.
pub proof fn spans_are_ordered(spans: Seq<Span>, n: nat)
    requires
        n <= spans.len(),
    ensures
        forall|x: int, y: int|
            0 <= x < y < n ==> !span_before(
                spans[#[trigger] span_order(spans, n)[y]],
                spans[#[trigger] span_order(spans, n)[x]],
            ),
    decreases n,
{
    if n > 0 {
        let h = (n - 1) as nat;
        spans_are_ordered(spans, h);
        lemma_order(Seq::empty(), spans, h);
        let o = span_order(spans, h);
        let i = slot(o, spans, n - 1, 0);
        lemma_slot(o, spans, n - 1, 0);
        lemma_slot_place(o, spans, n - 1, 0);
        let q = o.insert(i, n - 1);
        assert forall|x: int, y: int| 0 <= x < y < n implies !span_before(
            spans[#[trigger] q[y]],
            spans[#[trigger] q[x]],
        ) by {
            if x == i {
                // Everything behind the new span is at least the first greater one.
                assert(q[y] == o[y - 1]);
                if y - 1 > i {
                    assert(!span_before(spans[o[y - 1]], spans[o[i]]));
                }
            } else if y == i {
                assert(q[x] == o[x]);
            } else {
                let ox = if x < i { x } else { x - 1 };
                let oy = if y < i { y } else { y - 1 };
                assert(q[x] == o[ox] && q[y] == o[oy]);
            }
        }
    }
}

proof fn lemma_slot_place(order: Seq<int>, spans: Seq<Span>, i: int, j: int)
    requires
        0 <= j <= order.len(),
    ensures
        forall|k: int|
            j <= k < slot(order, spans, i, j) ==> !span_before(spans[i], spans[#[trigger] order[k]]),
        slot(order, spans, i, j) < order.len() ==> span_before(
            spans[i],
            spans[order[slot(order, spans, i, j)]],
        ),
    decreases order.len() - j,
{
    if j < order.len() && !span_before(spans[i], spans[order[j]]) {
        lemma_slot_place(order, spans, i, j + 1);
    }
}

/// Spans that lie one after the other.
pub open spec fn chained(spans: Seq<Span>, order: Seq<int>) -> bool {
    &&& forall|k: int|
        0 <= k && k + 1 < order.len() ==> !pos_before(
            (spans[order[k + 1]].0, spans[order[k + 1]].1),
            (spans[#[trigger] order[k]].2, spans[order[k]].3),
        )
    &&& forall|k: int|
        0 <= k < order.len() ==> !pos_before(
            (spans[#[trigger] order[k]].2, spans[order[k]].3),
            (spans[order[k]].0, spans[order[k]].1),
        )
}

pub proof fn lemma_no_overlap(spans: Seq<Span>, order: Seq<int>, k: int)
    requires
        0 <= k,
        overlap_from(spans, order, k) is None,
    ensures
        forall|j: int|
            k <= j && j + 1 < order.len() ==> !pos_before(
                (spans[order[j + 1]].0, spans[order[j + 1]].1),
                (spans[#[trigger] order[j]].2, spans[order[j]].3),
            ),
    decreases order.len() - k,
{
    if k + 1 < order.len() {
        lemma_no_overlap(spans, order, k + 1);
    }
}

/// What a batch leaves to be edited before place `k`: enough lines.
pub proof fn lemma_batched(
    lines: Seq<Seq<char>>,
    edits: Seq<BatchEditView>,
    spans: Seq<Span>,
    order: Seq<int>,
    k: int,
)
    requires
        0 <= k <= order.len(),
        chained(spans, order),
        forall|j: int|
            0 <= j < order.len() ==> {
                let s = spans[#[trigger] order[j]];
                if lines.len() == 0 {
                    s == (0nat, 0nat, 0nat, 0nat)
                } else {
                    s.0 <= s.2 < lines.len()
                }
            },
    ensures
        k < order.len() ==> batched(lines, edits, spans, order, k).len() > spans[order[k]].0,
        k > 0 ==> range_ok(
            batched(lines, edits, spans, order, k),
            spans[order[k - 1]].0,
            spans[order[k - 1]].1,
            spans[order[k - 1]].2,
            spans[order[k - 1]].3,
        ),
    decreases order.len() - k,
{
    if k < order.len() {
        lemma_batched(lines, edits, spans, order, k + 1);
        let now = batched(lines, edits, spans, order, k + 1);
        let s = spans[order[k]];
        let t = edits[order[k]].text;
        crate::text::lemma_pieces_nonempty(t);
        assert(ranged(now, s.0, s.1, s.2, s.3, t).len() > s.0) by {
            if now.len() > 0 {
                assert(spliced(head_of(now[s.0 as int], s.1), t, tail_of(now[s.2 as int], s.3)).len()
                    >= 1);
            }
        }
        if k > 0 {
            assert(!pos_before(
                (spans[order[k - 1 + 1]].0, spans[order[k - 1 + 1]].1),
                (spans[order[k - 1]].2, spans[order[k - 1]].3),
            ));
            assert(!pos_before(
                (spans[order[k - 1]].2, spans[order[k - 1]].3),
                (spans[order[k - 1]].0, spans[order[k - 1]].1),
            ));
        }
    } else if k > 0 {
        let s = spans[order[k - 1]];
        assert(batched(lines, edits, spans, order, k) == lines);
    }
}

pub proof fn lemma_ranged_len(
    lines: Seq<Seq<char>>,
    l0: nat,
    c0: nat,
    l1: nat,
    c1: nat,
    text: Seq<char>,
)
    requires
        range_ok(lines, l0, c0, l1, c1),
    ensures
        ranged(lines, l0, c0, l1, c1, text).len() <= lines.len() + pieces(text).len(),
{
    crate::text::lemma_pieces_nonempty(text);
    if lines.len() > 0 {
        let p = pieces(text);
        assert(spliced(head_of(lines[l0 as int], c0), text, tail_of(lines[l1 as int], c1)).len()
            == p.len());
    }
}

/// Edits that lie one after the other remove no line twice.
pub proof fn lemma_removed(spans: Seq<Span>, order: Seq<int>, k: int)
    requires
        0 <= k <= order.len(),
        chained(spans, order),
    ensures
        0 <= lines_removed(spans, order, k),
        k > 0 ==> lines_removed(spans, order, k) <= spans[order[k - 1]].2,
        k < order.len() ==> lines_removed(spans, order, k) <= spans[order[k]].0,
        k == 0 ==> lines_removed(spans, order, k) == 0,
    decreases k,
{
    if k > 0 {
        lemma_removed(spans, order, k - 1);
        assert(!pos_before(
            (spans[order[k - 1]].2, spans[order[k - 1]].3),
            (spans[order[k - 1]].0, spans[order[k - 1]].1),
        ));
        if k < order.len() {
            assert(!pos_before(
                (spans[order[k - 1 + 1]].0, spans[order[k - 1 + 1]].1),
                (spans[order[k - 1]].2, spans[order[k - 1]].3),
            ));
        }
    }
}

pub proof fn lemma_added(edits: Seq<BatchEditView>, order: Seq<int>, k: int)
    requires
        0 <= k <= order.len(),
    ensures
        0 <= lines_added(edits, order, k) <= piece_total(edits, order.take(k)),
        piece_total(edits, order.take(k)) <= piece_total(edits, order),
    decreases k,
{
    if k > 0 {
        lemma_added(edits, order, k - 1);
        crate::text::lemma_pieces_nonempty(edits[order[k - 1]].text);
        assert(order.take(k).drop_last() =~= order.take(k - 1));
    }
    lemma_piece_total_prefix(edits, order, k);
}

proof fn lemma_piece_total_prefix(edits: Seq<BatchEditView>, order: Seq<int>, k: int)
    requires
        0 <= k <= order.len(),
    ensures
        piece_total(edits, order.take(k)) <= piece_total(edits, order),
    decreases order.len(),
{
    if k == order.len() {
        assert(order.take(k) =~= order);
    } else {
        lemma_piece_total_prefix(edits, order.drop_last(), k);
        assert(order.drop_last().take(k) =~= order.take(k));
    }
}

} // verus!
