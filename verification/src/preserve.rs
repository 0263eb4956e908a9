//! What edits and undo do to the bytes that a save writes.

use vstd::prelude::*;

use crate::document::DocView;
use crate::effect::{
    accepts, edited, edits_stay_in_their_place, lemma_place, most_added, place_of, reach_of, same_outside,
    stands_within, with_insert, with_line, without_line,
};
use crate::kept::{edits_leave_other_lines_alone, gone, left_alone, line_at, span_of};
use crate::lines::lemma_start;
use crate::model::{pushed, stepped, undo_takes_a_change_back, Model};
use crate::overlay::{
    event_at, lemma_gap, lemma_nothing_shown, no_event, refers, shown, upto, EventView, LineRef,
};
use crate::save::{
    block_image, bytes_in, end_image, image_upto, lines_image, one_edit_changes_one_line,
    open_end, saved_image, untouched_lines_are_copied,
};
use crate::session::EditSession;
use crate::wal::LoggedOpView;

verus! {

/// What is written from anchor `c` on.
pub open spec fn image_from(doc: DocView, m: Map<u64, EventView>, c: int) -> Seq<u8>
    decreases doc.count() - c,
{
    if c >= doc.count() {
        end_image(doc, m)
    } else {
        block_image(doc, m, c) + image_from(doc, m, c + 1)
    }
}

/// A save can be cut at any anchor.
pub proof fn saves_are_cut_at_anchors(doc: DocView, m: Map<u64, EventView>, c: int)
    requires
        0 <= c <= doc.count(),
    ensures
        saved_image(doc, m) == doc.buf.take(doc.base) + image_upto(doc, m, c) + image_from(
            doc,
            m,
            c,
        ),
    decreases doc.count() - c,
{
    if c < doc.count() {
        saves_are_cut_at_anchors(doc, m, c + 1);
        assert(image_upto(doc, m, c + 1) == image_upto(doc, m, c) + block_image(doc, m, c));
        assert(doc.buf.take(doc.base) + image_upto(doc, m, c) + image_from(doc, m, c)
            =~= doc.buf.take(doc.base) + image_upto(doc, m, c + 1) + image_from(doc, m, c + 1));
    }
}

proof fn lemma_image_upto_is(
    doc: DocView,
    m: Map<u64, EventView>,
    n: Map<u64, EventView>,
    a: int,
    c: int,
)
    requires
        doc.count() < u64::MAX,
        c <= a <= doc.count(),
        forall|x: u64| x < a ==> #[trigger] event_at(m, x) == event_at(n, x),
    ensures
        image_upto(doc, m, c) == image_upto(doc, n, c),
    decreases c,
{
    if c > 0 {
        lemma_image_upto_is(doc, m, n, a, c - 1);
        assert(event_at(m, (c - 1) as u64) == event_at(n, (c - 1) as u64));
    }
}

proof fn lemma_image_from_is(
    doc: DocView,
    m: Map<u64, EventView>,
    n: Map<u64, EventView>,
    b: int,
    c: int,
)
    requires
        doc.count() < u64::MAX,
        0 <= b < c <= doc.count(),
        b + 1 < doc.count(),
        forall|x: u64| x > b ==> #[trigger] event_at(m, x) == event_at(n, x),
    ensures
        image_from(doc, m, c) == image_from(doc, n, c),
    decreases doc.count() - c,
{
    let k = doc.count();
    if c < k {
        lemma_image_from_is(doc, m, n, b, c + 1);
        assert(event_at(m, c as u64) == event_at(n, c as u64));
    } else {
        assert(event_at(m, k as u64) == event_at(n, k as u64));
        assert(event_at(m, (k - 1) as u64) == event_at(n, (k - 1) as u64));
    }
}

/// An edit leaves the bytes of all other lines alone, whatever they are and
/// however they end: what a save writes before the anchors at which the lines
/// stand that it works on, and what it writes after them, is what it would have
/// written without the edit.
pub proof fn edits_keep_other_bytes(
    doc: DocView,
    s: EditSession,
    after: EditSession,
    op: LoggedOpView,
    a: int,
    b: int,
)
    requires
        s.wf(doc.lines()),
        !(op is Undo) && !(op is Redo),
        s.did(after, doc.lines(), op),
        accepts(s.model(doc.lines()).lines, op),
        s.model(doc.lines()).lines.len() + most_added(op) <= usize::MAX,
        stands_within(
            s.overlay_view(),
            doc.lines(),
            reach_of(s.model(doc.lines()).lines, op).0,
            reach_of(s.model(doc.lines()).lines, op).1,
            a,
            b,
        ),
    ensures
        ({
            let (m, n) = (s.overlay_view(), after.overlay_view());
            &&& same_outside(m, n, a, b)
            &&& image_upto(doc, n, a) == image_upto(doc, m, a)
            &&& b + 1 < doc.count() ==> image_from(doc, n, b + 1) == image_from(doc, m, b + 1)
        }),
{
    let l = doc.lines();
    let (m, n) = (s.overlay_view(), after.overlay_view());
    s.lemma_wf(l);
    edits_stay_in_their_place(m, l, op, a, b);
    assert(same_outside(m, n, a, b));
    lemma_image_upto_is(doc, m, n, a, a);
    if b + 1 < doc.count() {
        lemma_image_from_is(doc, m, n, b, b + 1);
    }
}

/// What a save writes for original line `x` itself, after the lines that are
/// inserted before it.
pub open spec fn own_image(doc: DocView, m: Map<u64, EventView>, x: int) -> Seq<u8> {
    let e = event_at(m, x as u64);
    if e.deleted {
        Seq::empty()
    } else {
        match e.replacement {
            Some(t) => bytes_in(doc.encoding, t) + doc.term(x as nat),
            None => doc.span(x as nat, (x + 1) as nat),
        }
    }
}

/// An edit leaves the bytes of every original line alone that it does not
/// replace or delete: a save writes them as it would have, untouched if they
/// were, with the terminator of that line. The line stands where it stood, or
/// has moved with the lines behind the edit.
pub proof fn edits_keep_the_lines_around_them(
    doc: DocView,
    s: EditSession,
    after: EditSession,
    op: LoggedOpView,
    x: int,
)
    requires
        s.wf(doc.lines()),
        !(op is Undo) && !(op is Redo),
        s.did(after, doc.lines(), op),
        accepts(s.model(doc.lines()).lines, op),
        s.model(doc.lines()).lines.len() + most_added(op) <= usize::MAX,
        0 <= x < doc.count(),
        gone(s.overlay_view(), x) || line_at(s.overlay_view(), doc.lines(), x) < span_of(op).0
            || line_at(s.overlay_view(), doc.lines(), x) > span_of(op).1,
    ensures
        ({
            let (m, n) = (s.overlay_view(), after.overlay_view());
            &&& left_alone(m, n, doc.lines(), span_of(op).0, span_of(op).1, x)
            &&& own_image(doc, n, x) == own_image(doc, m, x)
            &&& block_image(doc, n, x) == lines_image(
                doc.encoding,
                event_at(n, x as u64).inserts,
                doc.new_term(),
            ) + own_image(doc, n, x)
        }),
{
    let l = doc.lines();
    let (m, n) = (s.overlay_view(), after.overlay_view());
    s.lemma_wf(l);
    edits_leave_other_lines_alone(m, l, op);
    let (p, q) = span_of(op);
    assert(left_alone(m, edited(m, l, op), l, p, q, x));
    assert(left_alone(m, m, l, p, q, x));
}

proof fn lemma_unedited(l: Seq<Seq<char>>, i: int)
    requires
        l.len() < u64::MAX,
        0 <= i < l.len(),
    ensures
        place_of(Map::<u64, EventView>::empty(), l, i) == LineRef::Original(i as u64),
        shown(Map::<u64, EventView>::empty(), l) == l,
{
    let m = Map::<u64, EventView>::empty();
    lemma_nothing_shown(l);
    lemma_gap(m, l, 0, i);
    assert(upto(m, l, i) =~= l.take(i));
    assert(refers(m, l, i, LineRef::Original(i as u64)));
    lemma_place(m, l, i, LineRef::Original(i as u64));
}

/// After one line of an unedited session was replaced, a save writes the
/// document with the bytes of the new text in the place of that line's, and its
/// own terminator behind them.
pub proof fn a_replaced_line_is_saved(
    doc: DocView,
    s: EditSession,
    after: EditSession,
    a: nat,
    text: Seq<char>,
)
    requires
        doc.valid(),
        s.wf(doc.lines()),
        s.overlay_view() == Map::<u64, EventView>::empty(),
        a < doc.count(),
        text != doc.text(a),
        s.did(after, doc.lines(), LoggedOpView::ReplaceLine { line: a, text }),
    ensures
        saved_image(doc, after.overlay_view()) == doc.buf.take(doc.start(a)) + bytes_in(
            doc.encoding,
            text,
        ) + doc.term(a) + doc.buf.skip(doc.start(a + 1)),
{
    let l = doc.lines();
    s.lemma_wf(l);
    let m = s.overlay_view();
    lemma_unedited(l, a as int);
    assert(l[a as int] == doc.text(a));
    let e = EventView { inserts: Seq::empty(), replacement: Some(text), deleted: false };
    assert(after.overlay_view() == with_line(m, l, a as int, text));
    assert(after.overlay_view() =~= Map::<u64, EventView>::empty().insert(a as u64, e));
    one_edit_changes_one_line(doc, a as u64, text);
}

/// After the last line of an unedited session was deleted and another was
/// appended, a save writes the lines before, and the new one with a terminator.
pub proof fn a_new_last_line_is_saved(
    doc: DocView,
    s: EditSession,
    deleted: EditSession,
    after: EditSession,
    text: Seq<char>,
)
    requires
        doc.valid(),
        s.wf(doc.lines()),
        deleted.wf(doc.lines()),
        s.overlay_view() == Map::<u64, EventView>::empty(),
        doc.count() > 0,
        s.did(
            deleted,
            doc.lines(),
            LoggedOpView::DeleteLine { line: (doc.count() - 1) as nat },
        ),
        deleted.did(
            after,
            doc.lines(),
            LoggedOpView::InsertLine { line: (doc.count() - 1) as nat, text },
        ),
    ensures
        saved_image(doc, after.overlay_view()) == doc.buf.take(doc.start((doc.count() - 1) as nat))
            + bytes_in(doc.encoding, text) + doc.new_term(),
        after.model(doc.lines()).lines == doc.lines().drop_last().push(text),
{
    let l = doc.lines();
    let n = doc.count();
    let last = (n - 1) as int;
    let m = s.overlay_view();
    s.lemma_wf(l);
    deleted.lemma_wf(l);
    lemma_unedited(l, last);
    let gone = EventView { inserts: Seq::empty(), replacement: None, deleted: true };
    let new = EventView { inserts: seq![text], replacement: None, deleted: false };
    let m1 = deleted.overlay_view();
    let m2 = after.overlay_view();
    assert(s.model(l).lines == l);
    assert(deleted.model(l).lines == l.remove(last));
    assert(deleted.model(l) != s.model(l)) by {
        assert(deleted.model(l).lines.len() != s.model(l).lines.len());
    }
    assert(m1 == without_line(m, l, last));
    assert(m1 =~= Map::<u64, EventView>::empty().insert(last as u64, gone));
    assert(shown(m1, l) == l.remove(last));
    assert(after.model(l).lines == l.remove(last).insert(last, text));
    assert(after.model(l) != deleted.model(l)) by {
        assert(after.model(l).lines.len() != deleted.model(l).lines.len());
    }
    assert(m2 == with_insert(m1, l, last, text));
    assert(event_at(m1, n as u64) == no_event());
    assert(no_event().inserts.insert(0, text) =~= seq![text]);
    assert(m2 =~= m1.insert(n as u64, new));
    assert(after.model(l).lines =~= l.drop_last().push(text));
    untouched_lines_are_copied(doc, m2, 0, last);
    lemma_start(doc.buf, doc.newline(), doc.base, last as nat);
    assert(event_at(m2, last as u64) == gone);
    assert(event_at(m2, n as u64) == new);
    assert(lines_image(doc.encoding, Seq::empty(), doc.new_term()) =~= Seq::empty());
    assert(block_image(doc, m2, last) =~= Seq::empty());
    assert(image_upto(doc, m2, n as int) == image_upto(doc, m2, last) + block_image(doc, m2, last));
    assert(!open_end(doc, m2));
    assert(new.inserts.drop_last() =~= Seq::empty());
    assert(lines_image(doc.encoding, new.inserts, doc.new_term()) =~= bytes_in(doc.encoding, text)
        + doc.new_term());
    assert(saved_image(doc, m2) =~= doc.buf.take(doc.start(last as nat)) + bytes_in(
        doc.encoding,
        text,
    ) + doc.new_term());
}

// ---- undo and redo -----------------------------------------------------------

/// An edit that changes something commits what it shows.
proof fn lemma_committed(m: Model, op: LoggedOpView)
    requires
        !(op is Undo) && !(op is Redo),
        stepped(m, op) is Some,
        stepped(m, op) != Some(m),
    ensures
        stepped(m, op) == Some(m.committed(stepped(m, op)->Some_0.lines)),
{
}

/// Undo takes an edit back and redo brings it back, down to the bytes that a
/// save writes: what is shown, its generation, whether it is dirty and the
/// overlay are what they were. Each step is a new revision.
pub proof fn undo_takes_an_edit_back(
    l: Seq<Seq<char>>,
    s: EditSession,
    e: EditSession,
    u: EditSession,
    r: EditSession,
    op: LoggedOpView,
)
    requires
        s.wf(l),
        e.wf(l),
        u.wf(l),
        !(op is Undo) && !(op is Redo),
        s.did(e, l, op),
        e.model(l).revision != s.model(l).revision,
        e.did(u, l, LoggedOpView::Undo),
        u.did(r, l, LoggedOpView::Redo),
    ensures
        e.model(l).undo.len() > 0,
        u.model(l).lines == s.model(l).lines,
        u.model(l).content_gen == s.model(l).content_gen,
        u.model(l).dirty() == s.model(l).dirty(),
        u.overlay_view() == s.overlay_view(),
        u.model(l).redo.len() > 0,
        u.model(l).revision != e.model(l).revision,
        r.model(l).lines == e.model(l).lines,
        r.model(l).content_gen == e.model(l).content_gen,
        r.model(l).dirty() == e.model(l).dirty(),
        r.overlay_view() == e.overlay_view(),
        r.model(l).revision != u.model(l).revision,
{
    s.lemma_wf(l);
    e.lemma_wf(l);
    u.lemma_wf(l);
    let m = s.model(l);
    lemma_committed(m, op);
    let lines = e.model(l).lines;
    undo_takes_a_change_back(m, lines);
    assert(e.undo_trail() == pushed(s.undo_trail(), s.overlay_view()));
    assert(e.undo_trail().last() == s.overlay_view());
    assert(e.redo_trail().len() == 0);
    assert(u.model(l) == e.model(l).undone());
    assert(u.model(l).revision != e.model(l).revision);
    assert(u.redo_trail() == pushed(e.redo_trail(), e.overlay_view()));
    assert(u.redo_trail().last() == e.overlay_view());
    assert(r.model(l) == u.model(l).redone());
    assert(r.model(l).revision != u.model(l).revision);
}

/// Where there is nothing to undo, undo changes nothing; the same of redo.
pub proof fn nothing_to_undo_is_no_change(l: Seq<Seq<char>>, s: EditSession, after: EditSession)
    requires
        s.wf(l),
    ensures
        s.model(l).undo.len() == 0 && s.did(after, l, LoggedOpView::Undo) ==> after.model(l)
            == s.model(l) && s.same_overlays(after) && after.journal() == s.journal(),
        s.model(l).redo.len() == 0 && s.did(after, l, LoggedOpView::Redo) ==> after.model(l)
            == s.model(l) && s.same_overlays(after) && after.journal() == s.journal(),
{
}

} // verus!
