//! The original lines that edits leave as they are, wherever these go.

use vstd::prelude::*;

use crate::effect::{
    accepts, bottom_of, edited, lemma_batch_spans, lemma_place_is, lemma_upto_grows,
    lemma_with_insert, lemma_with_inserts, lemma_with_line, lemma_with_range, lemma_with_spans,
    lemma_without_line, lemma_without_lines, most_added, place_of, slot_before, spans_between,
    top_of, with_insert, with_inserts, with_line, with_range, with_rows, with_spans, without_line,
    without_lines,
};
use crate::model::{
    chained, clamped_spans, head_of, least, piece_total, pos_before,
    range_ok, ranged, rectangled, span_order, spliced, tail_of, Span,
};
use crate::overlay::{
    block, event_at, fits, lemma_split, onward, put, shown, upto, EventView, LineRef,
};
use crate::text::{lemma_pieces_nonempty, pieces};
use crate::wal::{BatchEditView, LoggedOpView};

verus! {

/// Where original line `x` stands, if it is shown.
pub open spec fn line_at(m: Map<u64, EventView>, l: Seq<Seq<char>>, x: int) -> int {
    upto(m, l, x).len() + event_at(m, x as u64).inserts.len() as int
}

/// Original line `x` is not shown.
pub open spec fn gone(m: Map<u64, EventView>, x: int) -> bool {
    event_at(m, x as u64).deleted
}

/// Original line `x` is replaced or deleted alike in two overlays.
pub open spec fn same_line(m: Map<u64, EventView>, n: Map<u64, EventView>, x: int) -> bool {
    &&& event_at(m, x as u64).replacement == event_at(n, x as u64).replacement
    &&& event_at(m, x as u64).deleted == event_at(n, x as u64).deleted
}

/// How many more lines an overlay shows than another.
pub open spec fn grown(m: Map<u64, EventView>, n: Map<u64, EventView>, l: Seq<Seq<char>>) -> int {
    shown(n, l).len() - shown(m, l).len()
}

/// Original line `x` is left alone by an edit of the lines from `p` to `q`: it
/// stays away if it was, stays in its place if it stands before them, and goes
/// along with the lines after them if it is one of those.
pub open spec fn left_alone(
    m: Map<u64, EventView>,
    n: Map<u64, EventView>,
    l: Seq<Seq<char>>,
    p: int,
    q: int,
    x: int,
) -> bool {
    &&& gone(m, x) ==> same_line(m, n, x)
    &&& !gone(m, x) && line_at(m, l, x) < p ==> same_line(m, n, x) && line_at(n, l, x) == line_at(
        m,
        l,
        x,
    )
    &&& !gone(m, x) && line_at(m, l, x) > q ==> same_line(m, n, x) && line_at(n, l, x) == line_at(
        m,
        l,
        x,
    ) + grown(m, n, l)
}

/// All original lines but those that stand from `p` to `q` are left alone.
pub open spec fn leaves_others(
    m: Map<u64, EventView>,
    n: Map<u64, EventView>,
    l: Seq<Seq<char>>,
    p: int,
    q: int,
) -> bool {
    forall|x: int| 0 <= x < l.len() ==> #[trigger] left_alone(m, n, l, p, q, x)
}

/// The lines that an edit replaces or deletes, from the first to the second; an
/// edit that only inserts has none.
pub open spec fn span_of(op: LoggedOpView) -> (int, int) {
    match op {
        LoggedOpView::ReplaceLine { line, .. } => (line as int, line as int),
        LoggedOpView::InsertLine { line, .. } => (line as int, line - 1),
        LoggedOpView::DeleteLine { line } => (line as int, line as int),
        LoggedOpView::ReplaceRange { l0, l1, .. } => (l0 as int, l1 as int),
        LoggedOpView::ReplaceRect { l0, l1, .. } => (
            least(l0 as int, l1 as int),
            if l0 <= l1 {
                l1 as int
            } else {
                l0 as int
            },
        ),
        LoggedOpView::Batch { edits } => (top_of(edits), bottom_of(edits)),
        _ => (0, -1),
    }
}

// ---- one step ----------------------------------------------------------------

proof fn lemma_put_upto(m: Map<u64, EventView>, l: Seq<Seq<char>>, y: u64, e: EventView, x: int)
    requires
        l.len() < u64::MAX,
        y <= l.len(),
        0 <= x <= l.len() + 1,
    ensures
        x <= y ==> upto(put(m, y, e), l, x) == upto(m, l, x),
        x > y ==> upto(put(m, y, e), l, x).len() == upto(m, l, x).len() + block(
            put(m, y, e),
            l,
            y as int,
        ).len() - block(m, l, y as int).len(),
    decreases x,
{
    let n = put(m, y, e);
    if x > 0 {
        lemma_put_upto(m, l, y, e, x - 1);
        if x - 1 != y {
            assert(event_at(n, (x - 1) as u64) == event_at(m, (x - 1) as u64));
            assert(block(n, l, x - 1) == block(m, l, x - 1));
        }
    }
}

proof fn lemma_shown_len(m: Map<u64, EventView>, l: Seq<Seq<char>>)
    ensures
        shown(m, l).len() == upto(m, l, l.len() as int + 1).len(),
        upto(m, l, l.len() as int + 1).len() == upto(m, l, l.len() as int).len() + block(
            m,
            l,
            l.len() as int,
        ).len(),
{
    let n = l.len() as int + 1;
    lemma_split(m, l, n);
    assert(onward(m, l, n) =~= Seq::empty());
    assert(upto(m, l, n) == upto(m, l, n - 1) + block(m, l, n - 1));
}

/// An original line that is shown stands before those of later anchors.
proof fn lemma_line_in_block(m: Map<u64, EventView>, l: Seq<Seq<char>>, x: int)
    requires
        0 <= x < l.len(),
        !gone(m, x),
    ensures
        line_at(m, l, x) + 1 == upto(m, l, x + 1).len(),
{
    assert(upto(m, l, x + 1) == upto(m, l, x) + block(m, l, x));
}

proof fn lemma_leaves_line(m: Map<u64, EventView>, l: Seq<Seq<char>>, i: int, text: Seq<char>)
    requires
        fits(m, l),
        0 <= i < shown(m, l).len() <= usize::MAX,
    ensures
        leaves_others(m, with_line(m, l, i, text), l, i, i),
{
    let n = with_line(m, l, i, text);
    lemma_place_is(m, l, i);
    lemma_shown_len(m, l);
    lemma_shown_len(n, l);
    assert forall|x: int| 0 <= x < l.len() implies #[trigger] left_alone(m, n, l, i, i, x) by {
        if n != m {
            match place_of(m, l, i) {
                LineRef::Inserted { anchor, index } => {
                    let e = EventView {
                        inserts: event_at(m, anchor).inserts.update(index as int, text),
                        ..event_at(m, anchor)
                    };
                    assert(n == put(m, anchor, e));
                    lemma_put_upto(m, l, anchor, e, x);
                    lemma_put_upto(m, l, anchor, e, l.len() as int + 1);
                },
                LineRef::Original(o) => {
                    lemma_state_put(m, l, o, n, x);
                },
                LineRef::Replaced(o) => {
                    lemma_state_put(m, l, o, n, x);
                },
            }
        }
    }
}

/// Replacing a line that is shown keeps all positions.
proof fn lemma_state_put(m: Map<u64, EventView>, l: Seq<Seq<char>>, o: u64, n: Map<u64, EventView>, x: int)
    requires
        l.len() < u64::MAX,
        o < l.len(),
        0 <= x < l.len(),
        !event_at(m, o).deleted,
        exists|r: Option<Seq<char>>| n == put(
            m,
            o,
            (EventView { inserts: event_at(m, o).inserts, replacement: r, deleted: false }),
        ),
    ensures
        line_at(n, l, x) == line_at(m, l, x),
        shown(n, l).len() == shown(m, l).len(),
        x != o ==> same_line(m, n, x),
{
    let r = choose|r: Option<Seq<char>>| n == put(
        m,
        o,
        (EventView { inserts: event_at(m, o).inserts, replacement: r, deleted: false }),
    );
    let e = EventView { inserts: event_at(m, o).inserts, replacement: r, deleted: false };
    lemma_put_upto(m, l, o, e, x);
    lemma_put_upto(m, l, o, e, l.len() as int + 1);
    lemma_shown_len(m, l);
    lemma_shown_len(n, l);
}

proof fn lemma_leaves_insert(m: Map<u64, EventView>, l: Seq<Seq<char>>, i: int, text: Seq<char>)
    requires
        fits(m, l),
        0 <= i <= shown(m, l).len() < usize::MAX,
    ensures
        leaves_others(m, with_insert(m, l, i, text), l, i, i - 1),
{
    let n = with_insert(m, l, i, text);
    let (y, k) = slot_before(m, l, i);
    lemma_shown_len(m, l);
    lemma_shown_len(n, l);
    if i < shown(m, l).len() {
        lemma_place_is(m, l, i);
    }
    assert(y <= l.len() && k <= event_at(m, y).inserts.len());
    assert(i == upto(m, l, y as int).len() + k);
    let e = EventView {
        inserts: event_at(m, y).inserts.insert(k as int, text),
        ..event_at(m, y)
    };
    assert(n == put(m, y, e));
    lemma_put_upto(m, l, y, e, l.len() as int + 1);
    assert forall|x: int| 0 <= x < l.len() implies #[trigger] left_alone(m, n, l, i, i - 1, x) by {
        lemma_put_upto(m, l, y, e, x);
        if !gone(m, x) {
            lemma_line_in_block(m, l, x);
            if x < y {
                lemma_upto_grows(m, l, x + 1, y as int);
            } else if x > y {
                lemma_upto_grows(m, l, y as int, x);
            }
        }
    }
}

proof fn lemma_leaves_delete(m: Map<u64, EventView>, l: Seq<Seq<char>>, i: int)
    requires
        fits(m, l),
        0 <= i < shown(m, l).len() <= usize::MAX,
    ensures
        leaves_others(m, without_line(m, l, i), l, i, i),
{
    let n = without_line(m, l, i);
    lemma_place_is(m, l, i);
    lemma_shown_len(m, l);
    lemma_shown_len(n, l);
    let (y, e) = match place_of(m, l, i) {
        LineRef::Inserted { anchor, index } => (
            anchor,
            EventView {
                inserts: event_at(m, anchor).inserts.remove(index as int),
                ..event_at(m, anchor)
            },
        ),
        LineRef::Original(o) => (
            o,
            EventView { inserts: event_at(m, o).inserts, replacement: None, deleted: true },
        ),
        LineRef::Replaced(o) => (
            o,
            EventView { inserts: event_at(m, o).inserts, replacement: None, deleted: true },
        ),
    };
    assert(n == put(m, y, e));
    lemma_put_upto(m, l, y, e, l.len() as int + 1);
    assert forall|x: int| 0 <= x < l.len() implies #[trigger] left_alone(m, n, l, i, i, x) by {
        lemma_put_upto(m, l, y, e, x);
        if !gone(m, x) {
            lemma_line_in_block(m, l, x);
            if x < y {
                lemma_upto_grows(m, l, x + 1, y as int);
            } else if x > y {
                lemma_upto_grows(m, l, y as int, x);
            }
        }
    }
}

// ---- several steps -----------------------------------------------------------

/// One edit after another, both of the lines from `p` to `q`.
proof fn lemma_leaves_both(
    m: Map<u64, EventView>,
    n: Map<u64, EventView>,
    o: Map<u64, EventView>,
    l: Seq<Seq<char>>,
    s: (int, int),
    t: (int, int),
    p: int,
    q: int,
)
    requires
        leaves_others(m, n, l, s.0, s.1),
        leaves_others(n, o, l, t.0, t.1),
        p <= s.0 && s.1 <= q,
        p <= t.0 && t.1 <= q + grown(m, n, l),
    ensures
        leaves_others(m, o, l, p, q),
{
    assert forall|x: int| 0 <= x < l.len() implies #[trigger] left_alone(m, o, l, p, q, x) by {
        assert(left_alone(m, n, l, s.0, s.1, x));
        assert(left_alone(n, o, l, t.0, t.1, x));
    }
}

proof fn lemma_leaves_itself(m: Map<u64, EventView>, l: Seq<Seq<char>>, p: int, q: int)
    ensures
        leaves_others(m, m, l, p, q),
{
}

proof fn lemma_leaves_deletes(m: Map<u64, EventView>, l: Seq<Seq<char>>, from: int, to: int)
    requires
        fits(m, l),
        0 <= from <= to < shown(m, l).len() <= usize::MAX,
    ensures
        leaves_others(m, without_lines(m, l, from, to), l, from + 1, to),
    decreases to - from,
{
    if from < to {
        let n = without_line(m, l, to);
        lemma_leaves_delete(m, l, to);
        lemma_without_line(m, l, to, 0, l.len() as int);
        lemma_leaves_deletes(n, l, from, to - 1);
        lemma_leaves_both(
            m,
            n,
            without_lines(m, l, from, to),
            l,
            (to, to),
            (from + 1, to - 1),
            from + 1,
            to,
        );
    } else {
        lemma_leaves_itself(m, l, from + 1, to);
    }
}

proof fn lemma_leaves_inserts(
    m: Map<u64, EventView>,
    l: Seq<Seq<char>>,
    at: int,
    v: Seq<Seq<char>>,
    k: int,
)
    requires
        fits(m, l),
        0 <= k <= v.len(),
        shown(m, l).len() + v.len() - k <= usize::MAX,
        0 <= at,
        at + k <= shown(m, l).len(),
    ensures
        leaves_others(m, with_inserts(m, l, at, v, k), l, at + k, at + k - 1),
    decreases v.len() - k,
{
    if k < v.len() {
        let n = with_insert(m, l, at + k, v[k]);
        lemma_leaves_insert(m, l, at + k, v[k]);
        lemma_with_insert(m, l, at + k, v[k], 0, l.len() as int);
        lemma_leaves_inserts(n, l, at, v, k + 1);
        lemma_leaves_both(
            m,
            n,
            with_inserts(m, l, at, v, k),
            l,
            (at + k, at + k - 1),
            (at + k + 1, at + k),
            at + k,
            at + k - 1,
        );
    } else {
        lemma_leaves_itself(m, l, at + k, at + k - 1);
    }
}

proof fn lemma_leaves_range(m: Map<u64, EventView>, l: Seq<Seq<char>>, s: Span, text: Seq<char>)
    requires
        fits(m, l),
        range_ok(shown(m, l), s.0, s.1, s.2, s.3),
        shown(m, l).len() + pieces(text).len() <= usize::MAX,
    ensures
        leaves_others(
            m,
            with_range(m, l, s.0, s.1, s.2, s.3, text),
            l,
            s.0 as int,
            s.2 as int,
        ),
{
    let lines = shown(m, l);
    let r = with_range(m, l, s.0, s.1, s.2, s.3, text);
    let (p, q) = (s.0 as int, s.2 as int);
    let b = l.len() as int;
    lemma_pieces_nonempty(text);
    if ranged(lines, s.0, s.1, s.2, s.3, text) == lines {
        lemma_leaves_itself(m, l, p, q);
    } else if lines.len() == 0 {
        lemma_leaves_inserts(m, l, 0, pieces(text), 0);
        lemma_leaves_itself(m, l, 0, 0);
        lemma_leaves_both(m, m, r, l, (0, 0), (0, -1), 0, 0);
    } else {
        let new = spliced(head_of(lines[p], s.1), text, tail_of(lines[q], s.3));
        assert(new.len() == pieces(text).len());
        let m1 = with_line(m, l, p, new[0]);
        lemma_leaves_line(m, l, p, new[0]);
        lemma_with_line(m, l, p, new[0], 0, b);
        let m2 = without_lines(m1, l, p, q);
        lemma_leaves_deletes(m1, l, p, q);
        lemma_without_lines(m1, l, p, q, 0, b);
        lemma_leaves_both(m, m1, m2, l, (p, p), (p + 1, q), p, q);
        lemma_leaves_inserts(m2, l, p, new, 1);
        lemma_leaves_both(m, m2, r, l, (p, q), (p + 1, p), p, q);
    }
}

proof fn lemma_leaves_rows(
    m: Map<u64, EventView>,
    l: Seq<Seq<char>>,
    goal: Seq<Seq<char>>,
    i: int,
    bottom: int,
)
    requires
        fits(m, l),
        shown(m, l).len() <= usize::MAX,
        0 <= i <= bottom + 1,
        bottom < shown(m, l).len(),
    ensures
        leaves_others(m, with_rows(m, l, goal, i, bottom), l, i, bottom),
    decreases bottom - i + 1,
{
    if i <= bottom {
        let n = with_line(m, l, i, goal[i]);
        lemma_leaves_line(m, l, i, goal[i]);
        lemma_with_line(m, l, i, goal[i], 0, l.len() as int);
        lemma_leaves_rows(n, l, goal, i + 1, bottom);
        lemma_leaves_both(
            m,
            n,
            with_rows(m, l, goal, i, bottom),
            l,
            (i, i),
            (i + 1, bottom),
            i,
            bottom,
        );
    } else {
        lemma_leaves_itself(m, l, i, bottom);
    }
}

proof fn lemma_leaves_spans(
    m: Map<u64, EventView>,
    l: Seq<Seq<char>>,
    edits: Seq<BatchEditView>,
    spans: Seq<Span>,
    order: Seq<int>,
    k: int,
    lo: int,
    hi: int,
)
    requires
        fits(m, l),
        0 <= k < order.len(),
        chained(spans, order),
        0 <= lo <= hi,
        spans_between(shown(m, l), spans, order, lo, hi),
        shown(m, l).len() + piece_total(edits, order) <= usize::MAX,
        shown(m, l).len() > 0,
    ensures
        leaves_others(
            m,
            with_spans(m, l, edits, spans, order, k),
            l,
            spans[order[k]].0 as int,
            hi,
        ),
    decreases order.len() - k,
{
    let s = spans[order[k]];
    let t = edits[order[k]].text;
    let n = with_spans(m, l, edits, spans, order, k + 1);
    let r = with_spans(m, l, edits, spans, order, k);
    let b = l.len() as int;
    assert(lo <= s.0 <= s.2 <= hi < shown(m, l).len());
    lemma_with_spans(m, l, edits, spans, order, k + 1, lo, hi, 0, b);
    assert(order.take(k + 1).drop_last() =~= order.take(k));
    assert(order.take(k + 1).last() == order[k]);
    if k + 1 < order.len() {
        lemma_leaves_spans(m, l, edits, spans, order, k + 1, lo, hi);
        assert(!pos_before(
            (spans[order[k + 1]].0, spans[order[k + 1]].1),
            (spans[order[k]].2, spans[order[k]].3),
        ));
        assert(s.2 <= spans[order[k + 1]].0);
        lemma_leaves_range(n, l, s, t);
        lemma_leaves_both(
            m,
            n,
            r,
            l,
            (spans[order[k + 1]].0 as int, hi),
            (s.0 as int, s.2 as int),
            s.0 as int,
            hi,
        );
    } else {
        lemma_leaves_range(m, l, s, t);
        lemma_leaves_itself(m, l, s.0 as int, hi);
        lemma_leaves_both(
            m,
            m,
            r,
            l,
            (s.0 as int, hi),
            (s.0 as int, s.2 as int),
            s.0 as int,
            hi,
        );
    }
}

/// A batch where nothing is shown replaces and deletes no original line.
proof fn lemma_leaves_spans_in_empty(
    m: Map<u64, EventView>,
    l: Seq<Seq<char>>,
    edits: Seq<BatchEditView>,
    spans: Seq<Span>,
    order: Seq<int>,
    k: int,
    p: int,
    q: int,
)
    requires
        fits(m, l),
        0 <= k <= order.len(),
        chained(spans, order),
        spans_between(shown(m, l), spans, order, 0, 0),
        shown(m, l).len() + piece_total(edits, order) <= usize::MAX,
        shown(m, l).len() == 0,
    ensures
        leaves_others(m, with_spans(m, l, edits, spans, order, k), l, p, q),
    decreases order.len() - k,
{
    let r = with_spans(m, l, edits, spans, order, k);
    if k < order.len() {
        let n = with_spans(m, l, edits, spans, order, k + 1);
        lemma_leaves_spans_in_empty(m, l, edits, spans, order, k + 1, p, q);
        let b = l.len() as int;
        lemma_with_spans(m, l, edits, spans, order, k + 1, 0, 0, 0, b);
        assert(order.take(k + 1).drop_last() =~= order.take(k));
        assert(order.take(k + 1).last() == order[k]);
        let s = spans[order[k]];
        assert(s == (0nat, 0nat, 0nat, 0nat));
        lemma_leaves_range(n, l, s, edits[order[k]].text);
        assert forall|x: int| 0 <= x < l.len() implies #[trigger] left_alone(m, r, l, p, q, x) by {
            lemma_all_gone(m, l, x);
            assert(left_alone(m, n, l, p, q, x));
            assert(left_alone(n, r, l, 0, 0, x));
        }
    } else {
        lemma_leaves_itself(m, l, p, q);
    }
}

/// Where nothing is shown, no original line is.
proof fn lemma_all_gone(m: Map<u64, EventView>, l: Seq<Seq<char>>, x: int)
    requires
        0 <= x < l.len(),
        shown(m, l).len() == 0,
    ensures
        gone(m, x),
{
    lemma_shown_len(m, l);
    if !gone(m, x) {
        lemma_line_in_block(m, l, x);
        lemma_upto_grows(m, l, x + 1, l.len() as int + 1);
    }
}

/// An edit leaves all original lines alone but those that it replaces or
/// deletes: each is replaced or deleted only if it was before, stands where it
/// stood if it comes before the edit, and moves with the lines after it if it
/// comes after.
pub proof fn edits_leave_other_lines_alone(
    m: Map<u64, EventView>,
    l: Seq<Seq<char>>,
    op: LoggedOpView,
)
    requires
        fits(m, l),
        !(op is Undo) && !(op is Redo),
        accepts(shown(m, l), op),
        shown(m, l).len() + most_added(op) <= usize::MAX,
    ensures
        leaves_others(m, edited(m, l, op), l, span_of(op).0, span_of(op).1),
{
    let lines = shown(m, l);
    match op {
        LoggedOpView::ReplaceLine { line, text } => {
            lemma_leaves_line(m, l, line as int, text);
        },
        LoggedOpView::InsertLine { line, text } => {
            lemma_leaves_insert(m, l, line as int, text);
        },
        LoggedOpView::DeleteLine { line } => {
            lemma_leaves_delete(m, l, line as int);
        },
        LoggedOpView::ReplaceRange { l0, c0, l1, c1, text } => {
            lemma_leaves_range(m, l, (l0, c0, l1, c1), text);
        },
        LoggedOpView::ReplaceRect { l0, l1, c0, c1, text } => {
            let (top, bottom) = span_of(op);
            let left = least(c0 as int, c1 as int) as nat;
            let right = if c0 <= c1 {
                c1
            } else {
                c0
            };
            let goal = rectangled(lines, top as nat, bottom as nat, left, right, text);
            lemma_leaves_rows(m, l, goal, top, bottom);
        },
        LoggedOpView::Batch { edits } => {
            let (lo, hi) = span_of(op);
            lemma_leaves_itself(m, l, lo, hi);
            if edits.len() > 0 && edited(m, l, op) != m {
                let spans = clamped_spans(lines, edits);
                let order = span_order(spans, edits.len());
                lemma_batch_spans(lines, edits);
                if lines.len() == 0 {
                    lemma_leaves_spans_in_empty(m, l, edits, spans, order, 0, lo, hi);
                } else {
                    lemma_leaves_spans(m, l, edits, spans, order, 0, lo, hi);
                    let s = spans[order[0]];
                    lemma_leaves_both(
                        m,
                        m,
                        edited(m, l, op),
                        l,
                        (lo, hi),
                        (s.0 as int, hi),
                        lo,
                        hi,
                    );
                }
            }
        },
        _ => {},
    }
}

} // verus!
