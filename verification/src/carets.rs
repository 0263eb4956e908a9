//! What edits at one place or at several do to a text, and where they leave the
//! carets.

use vstd::prelude::*;

use crate::model::{
    batch_end, batch_start, batched, clamped_spans, edit_fault, edit_fault_from, lemma_order,
    lines_added, lines_removed, overlap_from, pos_before, range_caret, range_replaces_text, ranged,
    rect_caret, span_order, spliced, stepped, text_offset, Model, Span,
};
use crate::text::{joined, lemma_pieces_nonempty, pieces, texts_are_cut_at_line_feeds};
use crate::wal::{BatchEditView, LoggedOpView};

verus! {

/// A column inside a line: past its end means its end.
pub open spec fn inside(line: Seq<char>, c: nat) -> nat {
    if c <= line.len() {
        c
    } else {
        line.len()
    }
}

/// Replacing a span leaves the lines before it and after it as they are. The
/// new text comes between what stands before the span on its first line and
/// what stands after it on its last; each line feed in it makes a line. The
/// caret stands right behind it.
pub proof fn a_span_becomes_a_text(
    m: Model,
    l0: nat,
    c0: nat,
    l1: nat,
    c1: nat,
    text: Seq<char>,
)
    ensures
        ({
            let op = LoggedOpView::ReplaceRange { l0, c0, l1, c1, text };
            let n = m.lines.len();
            let p = pieces(text);
            let now = stepped(m, op)->Some_0.lines;
            let caret = range_caret(m.lines, l0, c0, text);
            &&& stepped(m, op) is Some <==> l0 <= l1 < n || (n == 0 && l0 == 0 && c0 == 0 && l1 == 0
                && c1 == 0)
            &&& stepped(m, op) is Some ==> caret.0 == l0 + p.len() - 1
            &&& stepped(m, op) is Some && n == 0 ==> now == p && caret.1 == p.last().len()
            &&& l0 <= l1 < n ==> {
                let head = m.lines[l0 as int].take(inside(m.lines[l0 as int], c0) as int);
                let tail = m.lines[l1 as int].skip(inside(m.lines[l1 as int], c1) as int);
                let last = l0 + p.len() - 1;
                &&& now.len() == n - (l1 - l0) + p.len() - 1
                &&& forall|i: int| 0 <= i < l0 ==> #[trigger] now[i] == m.lines[i]
                &&& forall|i: int|
                    last < i < now.len() ==> #[trigger] now[i] == m.lines[i - last + l1]
                &&& !text.contains('\n') ==> now[l0 as int] == head + text + tail
                &&& text.contains('\n') ==> {
                    &&& now[l0 as int] == head + p[0]
                    &&& now[last] == p.last() + tail
                    &&& forall|i: int| l0 < i < last ==> #[trigger] now[i] == p[i - l0]
                }
                &&& caret.1 + tail.len() == now[caret.0].len()
            }
        }),
{
    texts_are_cut_at_line_feeds(text);
    let p = pieces(text);
    if l0 <= l1 < m.lines.len() {
        let now = ranged(m.lines, l0, c0, l1, c1, text);
        let op = LoggedOpView::ReplaceRange { l0, c0, l1, c1, text };
        assert(stepped(m, op)->Some_0.lines == now);
        let head = m.lines[l0 as int].take(inside(m.lines[l0 as int], c0) as int);
        let tail = m.lines[l1 as int].skip(inside(m.lines[l1 as int], c1) as int);
        let mid = spliced(head, text, tail);
        assert(mid.len() == p.len());
        assert(now =~= m.lines.take(l0 as int) + mid + m.lines.skip(l1 as int + 1));
        assert forall|i: int| 0 <= i < mid.len() implies now[l0 + i] == #[trigger] mid[i] by {}
        assert(now[l0 as int] == mid[0]);
        let last = l0 + p.len() - 1;
        assert(now[last] == mid[p.len() - 1]);
        assert forall|i: int| l0 < i < last implies #[trigger] now[i] == p[i - l0] by {
            assert(now[i] == mid[i - l0]);
        }
        assert forall|i: int| last < i < now.len() implies #[trigger] now[i] == m.lines[i - last
            + l1] by {}
    }
}

/// After a rectangle was replaced the caret stands behind what came on its last
/// row; of a text of several lines, behind the last of them, or behind the one
/// on the last row if the text has more.
pub proof fn the_caret_follows_a_rectangle(top: nat, bottom: nat, left: nat, text: Seq<char>)
    requires
        top <= bottom,
    ensures
        ({
            let caret = rect_caret(top, bottom, left, text);
            let p = pieces(text);
            &&& top <= caret.0 <= bottom
            &&& !text.contains('\n') ==> caret == (bottom as int, left + text.len() as int)
            &&& text.contains('\n') && p.len() <= bottom - top + 1 ==> caret == (
                top + p.len() - 1,
                left + p.last().len() as int,
            )
            &&& text.contains('\n') && p.len() > bottom - top + 1 ==> caret == (
                bottom as int,
                left + p[bottom - top].len() as int,
            )
        }),
{
    texts_are_cut_at_line_feeds(text);
}

// ---- several edits -----------------------------------------------------------

/// Where an edit starts in the text of all lines.
pub open spec fn edit_from(lines: Seq<Seq<char>>, e: BatchEditView) -> int {
    if lines.len() == 0 {
        0
    } else {
        text_offset(lines, e.l0, inside(lines[e.l0 as int], e.c0))
    }
}

/// Where what an edit replaces ends.
pub open spec fn edit_to(lines: Seq<Seq<char>>, e: BatchEditView) -> int {
    if lines.len() == 0 {
        0
    } else {
        text_offset(lines, e.l1, inside(lines[e.l1 as int], e.c1))
    }
}

/// The text from `at` on, with the edits from place `k` of an order on made in
/// it.
pub open spec fn woven(
    lines: Seq<Seq<char>>,
    edits: Seq<BatchEditView>,
    order: Seq<int>,
    k: int,
    at: int,
) -> Seq<char>
    decreases order.len() - k,
{
    let all = joined(lines);
    if k < 0 || k >= order.len() {
        all.skip(at)
    } else {
        let e = edits[order[k]];
        all.subrange(at, edit_from(lines, e)) + e.text + woven(
            lines,
            edits,
            order,
            k + 1,
            edit_to(lines, e),
        )
    }
}

/// An order has each edit once, and each edit starts where the one before it
/// ends, or later.
pub open spec fn one_after_the_other(
    lines: Seq<Seq<char>>,
    edits: Seq<BatchEditView>,
    order: Seq<int>,
) -> bool {
    &&& order.len() == edits.len()
    &&& order.no_duplicates()
    &&& forall|k: int| 0 <= k < order.len() ==> 0 <= #[trigger] order[k] < edits.len()
    &&& forall|k: int|
        0 <= k < order.len() ==> 0 <= edit_from(lines, #[trigger] edits[order[k]]) <= edit_to(
            lines,
            edits[order[k]],
        ) <= joined(lines).len()
    &&& forall|j: int, k: int|
        0 <= j && k == j + 1 && k < order.len() ==> edit_to(lines, edits[#[trigger] order[j]])
            <= edit_from(lines, edits[#[trigger] order[k]])
}

proof fn lemma_offset(lines: Seq<Seq<char>>, l: nat, c: nat)
    requires
        l < lines.len(),
        c <= lines[l as int].len(),
    ensures
        0 <= text_offset(lines, l, c) <= joined(lines).len(),
        joined(lines).take(text_offset(lines, l, c)) == (if l == 0 {
            Seq::empty()
        } else {
            joined(lines.take(l as int)).push('\n')
        }) + lines[l as int].take(c as int),
{
    let x = if l == 0 {
        Seq::empty()
    } else {
        joined(lines.take(l as int)).push('\n')
    };
    crate::model::lemma_cut(lines, l, c);
    assert(joined(lines).take(text_offset(lines, l, c)) =~= x + lines[l as int].take(c as int));
}

proof fn lemma_offsets_ascend(lines: Seq<Seq<char>>, a: nat, c: nat, b: nat, d: nat)
    requires
        a < lines.len(),
        b < lines.len(),
        c <= lines[a as int].len(),
        d <= lines[b as int].len(),
        !pos_before((b, d), (a, c)),
    ensures
        text_offset(lines, a, c) <= text_offset(lines, b, d),
    decreases b - a,
{
    if a < b {
        lemma_offset(lines, a, lines[a as int].len());
        lemma_line_end(lines, a);
        if a + 1 < b {
            lemma_offsets_ascend(lines, a + 1, 0, b, d);
            lemma_offset(lines, a + 1, 0);
        }
    }
}

/// Behind a line and its line feed the next line starts.
proof fn lemma_line_end(lines: Seq<Seq<char>>, a: nat)
    requires
        a + 1 < lines.len(),
    ensures
        forall|c: nat|
            text_offset(lines, a, c) + lines[a as int].len() + 1 == text_offset(
                lines,
                a + 1,
                0,
            ) + c,
        forall|c: nat| #[trigger] text_offset(lines, a + 1, c) == text_offset(lines, a + 1, 0) + c,
{
    let t = lines.take(a as int + 1);
    assert(t.drop_last() =~= lines.take(a as int));
    assert(t.last() == lines[a as int]);
    if a == 0 {
        assert(t.len() == 1);
    }
}

/// Two lists of lines are the same before a position.
spec fn same_before(x: Seq<Seq<char>>, y: Seq<Seq<char>>, l: nat, c: nat) -> bool {
    &&& l < x.len()
    &&& l < y.len()
    &&& x.take(l as int) == y.take(l as int)
    &&& c <= x[l as int].len()
    &&& c <= y[l as int].len()
    &&& x[l as int].take(c as int) == y[l as int].take(c as int)
}

proof fn lemma_same_before(x: Seq<Seq<char>>, y: Seq<Seq<char>>, l: nat, c: nat, a: nat, d: nat)
    requires
        same_before(x, y, l, c),
        !pos_before((l, c), (a, d)),
        a < l ==> d <= y[a as int].len(),
    ensures
        same_before(x, y, a, d),
        text_offset(x, a, d) == text_offset(y, a, d),
{
    if a < l {
        assert(x.take(l as int)[a as int] == y.take(l as int)[a as int]);
    }
    assert(x.take(a as int) =~= x.take(l as int).take(a as int));
    assert(y.take(a as int) =~= y.take(l as int).take(a as int));
    if a < l {
        assert(x[a as int] == x.take(l as int)[a as int]);
        assert(y[a as int] == y.take(l as int)[a as int]);
    } else {
        assert(x[a as int].take(d as int) =~= x[l as int].take(c as int).take(d as int));
        assert(y[a as int].take(d as int) =~= y[l as int].take(c as int).take(d as int));
    }
}

/// The span of an edit in order, inside the lines.
spec fn span_fits(lines: Seq<Seq<char>>, s: Span) -> bool {
    &&& s.0 <= s.2 < lines.len()
    &&& s.1 <= lines[s.0 as int].len()
    &&& s.3 <= lines[s.2 as int].len()
    &&& !pos_before((s.2, s.3), (s.0, s.1))
}

proof fn lemma_batch(
    lines: Seq<Seq<char>>,
    edits: Seq<BatchEditView>,
    spans: Seq<Span>,
    order: Seq<int>,
    k: int,
)
    requires
        lines.len() > 0,
        0 <= k < order.len(),
        order.len() == edits.len(),
        spans == clamped_spans(lines, edits),
        forall|i: int| 0 <= i < order.len() ==> 0 <= #[trigger] order[i] < edits.len(),
        forall|i: int| 0 <= i < spans.len() ==> span_fits(lines, #[trigger] spans[i]),
        overlap_from(spans, order, k) is None,
    ensures
        same_before(
            batched(lines, edits, spans, order, k),
            lines,
            spans[order[k]].0,
            spans[order[k]].1,
        ),
        joined(batched(lines, edits, spans, order, k)) == joined(lines).take(
            edit_from(lines, edits[order[k]]),
        ) + woven(lines, edits, order, k, edit_from(lines, edits[order[k]])),
    decreases order.len() - k,
{
    let s = spans[order[k]];
    let e = edits[order[k]];
    assert(span_fits(lines, s));
    let later = batched(lines, edits, spans, order, k + 1);
    let now = batched(lines, edits, spans, order, k);
    let all = joined(lines);
    let (from, to) = (edit_from(lines, e), edit_to(lines, e));
    assert(from == text_offset(lines, s.0, s.1) && to == text_offset(lines, s.2, s.3));
    lemma_offset(lines, s.0, s.1);
    lemma_offset(lines, s.2, s.3);
    lemma_offsets_ascend(lines, s.0, s.1, s.2, s.3);
    if k + 1 < order.len() {
        lemma_batch(lines, edits, spans, order, k + 1);
        let t = spans[order[k + 1]];
        assert(span_fits(lines, t));
        lemma_same_before(later, lines, t.0, t.1, s.2, s.3);
        lemma_same_before(later, lines, s.2, s.3, s.0, s.1);
        lemma_offsets_ascend(lines, s.2, s.3, t.0, t.1);
        lemma_offset(lines, t.0, t.1);
        let next = edit_from(lines, edits[order[k + 1]]);
        assert(next == text_offset(lines, t.0, t.1));
        let w = woven(lines, edits, order, k + 1, next);
        assert(woven(lines, edits, order, k + 1, to) =~= all.subrange(to, next) + w) by {
            let e2 = edits[order[k + 1]];
            let r = woven(lines, edits, order, k + 2, edit_to(lines, e2));
            assert(w == all.subrange(next, next) + e2.text + r);
            assert(w =~= e2.text + r);
            assert(woven(lines, edits, order, k + 1, to) == all.subrange(to, next) + e2.text + r);
        }
        assert(joined(later) == all.take(next) + w);
        assert(joined(later).skip(to) =~= all.subrange(to, next) + w);
        assert(joined(later).take(from) =~= all.take(from));
    } else {
        assert(later == lines);
        assert(woven(lines, edits, order, k + 1, to) == all.skip(to));
    }
    range_replaces_text(later, s.0, s.1, s.2, s.3, e.text);
    assert(joined(now) == joined(later).take(from) + e.text + joined(later).skip(to));
    assert(woven(lines, edits, order, k, from) =~= e.text + woven(lines, edits, order, k + 1, to));
    assert(joined(now) =~= all.take(from) + woven(lines, edits, order, k, from));
    // What stands before the span is as it was.
    lemma_pieces_nonempty(e.text);
    let head = crate::model::head_of(later[s.0 as int], s.1);
    assert(now.take(s.0 as int) =~= lines.take(s.0 as int));
    let tail = crate::model::tail_of(later[s.2 as int], s.3);
    assert(now[s.0 as int] == spliced(head, e.text, tail)[0]);
    assert(head =~= lines[s.0 as int].take(s.1 as int));
    assert(now[s.0 as int].take(s.1 as int) =~= head);
}

proof fn lemma_no_overlap(spans: Seq<Span>, order: Seq<int>, from: int, k: int)
    requires
        0 <= from <= k,
        k + 1 < order.len(),
        overlap_from(spans, order, from) is None,
    ensures
        overlap_from(spans, order, k) is None,
        !pos_before(
            (spans[order[k + 1]].0, spans[order[k + 1]].1),
            (spans[order[k]].2, spans[order[k]].3),
        ),
    decreases k - from,
{
    if from < k {
        lemma_no_overlap(spans, order, from + 1, k);
    }
}

proof fn lemma_no_fault(lines: Seq<Seq<char>>, edits: Seq<BatchEditView>, from: int, i: int)
    requires
        0 <= from <= i < edits.len(),
        edit_fault_from(lines, edits, from) is None,
    ensures
        edit_fault(lines, edits[i]) is None,
    decreases i - from,
{
    if from < i {
        lemma_no_fault(lines, edits, from + 1, i);
    }
}

proof fn lemma_batch_empty(
    edits: Seq<BatchEditView>,
    spans: Seq<Span>,
    order: Seq<int>,
    k: int,
)
    requires
        0 <= k < order.len(),
        order.len() == edits.len(),
        forall|i: int| 0 <= i < order.len() ==> 0 <= #[trigger] order[i] < edits.len(),
        spans == clamped_spans(Seq::empty(), edits),
    ensures
        batched(Seq::empty(), edits, spans, order, k).len() > 0,
        joined(batched(Seq::empty(), edits, spans, order, k)) == woven(
            Seq::empty(),
            edits,
            order,
            k,
            0,
        ),
    decreases order.len() - k,
{
    let none = Seq::<Seq<char>>::empty();
    let e = edits[order[k]];
    let later = batched(none, edits, spans, order, k + 1);
    let s = spans[order[k]];
    assert(s == (0nat, 0nat, 0nat, 0nat));
    lemma_pieces_nonempty(e.text);
    let all = joined(none);
    assert(all.len() == 0);
    assert(all.subrange(0, 0) =~= Seq::<char>::empty());
    if k + 1 < order.len() {
        lemma_batch_empty(edits, spans, order, k + 1);
        range_replaces_text(later, 0, 0, 0, 0, e.text);
        assert(joined(later).take(0) =~= Seq::<char>::empty());
        assert(joined(later).skip(0) =~= joined(later));
    } else {
        assert(later == none);
        crate::text::split_then_join_is_identity(e.text);
        assert(all.skip(0) =~= Seq::<char>::empty());
    }
    assert(woven(none, edits, order, k, 0) =~= e.text + woven(none, edits, order, k + 1, 0));
}

/// An edit lies inside the lines, and does not go backwards; in a document
/// without lines it is at the origin.
pub open spec fn edit_fits(lines: Seq<Seq<char>>, e: BatchEditView) -> bool {
    if lines.len() == 0 {
        e.l0 == 0 && e.c0 == 0 && e.l1 == 0 && e.c1 == 0
    } else {
        &&& e.l0 <= e.l1 < lines.len()
        &&& e.l0 == e.l1 ==> inside(lines[e.l0 as int], e.c0) <= inside(lines[e.l1 as int], e.c1)
    }
}

/// Two edits replace the same stretch.
pub open spec fn same_stretch(
    lines: Seq<Seq<char>>,
    a: BatchEditView,
    b: BatchEditView,
) -> bool {
    lines.len() == 0 || (a.l0 == b.l0 && a.l1 == b.l1 && inside(lines[a.l0 as int], a.c0) == inside(
        lines[b.l0 as int],
        b.c0,
    ) && inside(lines[a.l1 as int], a.c1) == inside(lines[b.l1 as int], b.c1))
}

/// Several edits at once are made in the text as it was before: there is an
/// order in which each starts where the one before it ends, or later, and each
/// puts its text, an empty one too, in place of its own stretch. What lies
/// between the stretches stays. Edits at one place come in the order in which
/// they are given.
pub proof fn several_edits_are_made_at_once(m: Model, edits: Seq<BatchEditView>) -> (order: Seq<int>)
    requires
        stepped(m, LoggedOpView::Batch { edits }) is Some,
    ensures
        forall|i: int| 0 <= i < edits.len() ==> edit_fits(m.lines, #[trigger] edits[i]),
        one_after_the_other(m.lines, edits, order),
        forall|j: int, k: int|
            0 <= j < k < order.len() && same_stretch(
                m.lines,
                edits[#[trigger] order[j]],
                edits[#[trigger] order[k]],
            ) ==> order[j] < order[k],
        edits.len() > 0 ==> order == span_order(clamped_spans(m.lines, edits), edits.len()),
        edits.len() > 0 || m.lines.len() > 0 ==> joined(
            stepped(m, LoggedOpView::Batch { edits })->Some_0.lines,
        ) == woven(m.lines, edits, order, 0, 0),
        edits.len() == 0 ==> stepped(m, LoggedOpView::Batch { edits })->Some_0 == m,
{
    let lines = m.lines;
    if edits.len() == 0 {
        assert(joined(lines).skip(0) =~= joined(lines));
        Seq::empty()
    } else {
        let spans = clamped_spans(lines, edits);
        let order = span_order(spans, edits.len());
        lemma_order(edits, spans, edits.len());
        crate::model::equal_spans_keep_their_order(spans, edits.len());
        assert forall|i: int| 0 <= i < edits.len() implies edit_fits(lines, #[trigger] edits[i]) by {
            lemma_no_fault(lines, edits, 0, i);
        }
        assert forall|j: int, k: int|
            0 <= j < k < order.len() && same_stretch(
                m.lines,
                edits[#[trigger] order[j]],
                edits[#[trigger] order[k]],
            ) implies order[j] < order[k] by {
            assert(spans[order[j]] == spans[order[k]]);
        }
        if lines.len() == 0 {
            assert(lines =~= Seq::empty());
            lemma_batch_empty(edits, spans, order, 0);
        } else {
            assert forall|i: int| 0 <= i < spans.len() implies span_fits(
                lines,
                #[trigger] spans[i],
            ) by {
                assert(edit_fits(lines, edits[i]));
            }
            lemma_batch(lines, edits, spans, order, 0);
            assert forall|k: int| 0 <= k < order.len() implies 0 <= edit_from(
                lines,
                #[trigger] edits[order[k]],
            ) <= edit_to(lines, edits[order[k]]) <= joined(lines).len() by {
                let s = spans[order[k]];
                assert(span_fits(lines, s));
                lemma_offset(lines, s.0, s.1);
                lemma_offset(lines, s.2, s.3);
                lemma_offsets_ascend(lines, s.0, s.1, s.2, s.3);
            }
            assert forall|j: int, k: int| 0 <= j && k == j + 1 && k < order.len() implies edit_to(
                lines,
                edits[#[trigger] order[j]],
            ) <= edit_from(lines, edits[#[trigger] order[k]]) by {
                lemma_no_overlap(spans, order, 0, j);
                let (s, t) = (spans[order[j]], spans[order[k]]);
                assert(span_fits(lines, s) && span_fits(lines, t));
                lemma_offsets_ascend(lines, s.2, s.3, t.0, t.1);
            }
            let e = edits[order[0]];
            let from = edit_from(lines, e);
            assert(woven(lines, edits, order, 0, 0) =~= joined(lines).take(from) + woven(
                lines,
                edits,
                order,
                0,
                from,
            )) by {
                let r = woven(lines, edits, order, 1, edit_to(lines, e));
                assert(woven(lines, edits, order, 0, from) == joined(lines).subrange(from, from)
                    + e.text + r);
                assert(woven(lines, edits, order, 0, 0) == joined(lines).subrange(0, from) + e.text
                    + r);
            }
        }
        order
    }
}

proof fn lemma_fault_found(lines: Seq<Seq<char>>, edits: Seq<BatchEditView>, from: int)
    requires
        0 <= from,
        edit_fault_from(lines, edits, from) is Some,
    ensures
        exists|i: int| from <= i < edits.len() && edit_fault(lines, #[trigger] edits[i]) is Some,
    decreases edits.len() - from,
{
    if edit_fault(lines, edits[from]) is None {
        lemma_fault_found(lines, edits, from + 1);
    }
}

proof fn lemma_overlap_found(spans: Seq<Span>, order: Seq<int>, from: int)
    requires
        0 <= from,
        overlap_from(spans, order, from) is Some,
    ensures
        ({
            let k = overlap_from(spans, order, from)->Some_0;
            &&& 1 <= k < order.len()
            &&& pos_before(
                (spans[order[k]].0, spans[order[k]].1),
                (spans[order[k - 1]].2, spans[order[k - 1]].3),
            )
        }),
    decreases order.len() - from,
{
    let a = spans[order[from]];
    let b = spans[order[from + 1]];
    if !pos_before((b.0, b.1), (a.2, a.3)) {
        lemma_overlap_found(spans, order, from + 1);
    }
}

/// Several edits at once are refused only for an edit that does not lie inside
/// the lines, or for two that overlap: the one does not start before the
/// other, but before the other ends.
pub proof fn edits_are_refused_for_a_reason(m: Model, edits: Seq<BatchEditView>)
    requires
        stepped(m, LoggedOpView::Batch { edits }) is None,
    ensures
        (exists|i: int| 0 <= i < edits.len() && !edit_fits(m.lines, #[trigger] edits[i])) || (exists|
            i: int,
            j: int,
        |
            {
                let (a, b) = (#[trigger] edits[i], #[trigger] edits[j]);
                &&& 0 <= i < edits.len()
                &&& 0 <= j < edits.len()
                &&& i != j
                &&& m.lines.len() > 0
                &&& !pos_before(
                    (b.l0, inside(m.lines[b.l0 as int], b.c0)),
                    (a.l0, inside(m.lines[a.l0 as int], a.c0)),
                )
                &&& pos_before(
                    (b.l0, inside(m.lines[b.l0 as int], b.c0)),
                    (a.l1, inside(m.lines[a.l1 as int], a.c1)),
                )
            }),
{
    let lines = m.lines;
    if edit_fault_from(lines, edits, 0) is Some {
        lemma_fault_found(lines, edits, 0);
        let i = choose|i: int| 0 <= i < edits.len() && edit_fault(lines, #[trigger] edits[i]) is Some;
        assert(!edit_fits(lines, edits[i]));
    } else {
        let spans = clamped_spans(lines, edits);
        let order = span_order(spans, edits.len());
        lemma_order(edits, spans, edits.len());
        crate::model::spans_are_ordered(spans, edits.len());
        lemma_overlap_found(spans, order, 0);
        let k = overlap_from(spans, order, 0)->Some_0;
        let (i, j) = (order[k - 1], order[k]);
        assert(i != j);
        assert(!crate::model::span_before(spans[order[k]], spans[order[k - 1]]));
        let (a, b) = (edits[i], edits[j]);
        assert(spans[i] == crate::model::clamped_span(lines, a));
        assert(spans[j] == crate::model::clamped_span(lines, b));
    }
}

// ---- carets ------------------------------------------------------------------

/// Where a text ends: how many line feeds it has, and how many characters stand
/// behind the last of them.
pub open spec fn end_of(s: Seq<char>) -> (int, int) {
    (pieces(s).len() - 1, pieces(s).last().len() as int)
}

proof fn lemma_end_concat(a: Seq<char>, b: Seq<char>)
    ensures
        end_of(a + b) == (if end_of(b).0 == 0 {
            (end_of(a).0, end_of(a).1 + b.len())
        } else {
            (end_of(a).0 + end_of(b).0, end_of(b).1)
        }),
        end_of(b).0 >= 0,
        end_of(b).0 == 0 ==> end_of(b).1 == b.len(),
    decreases b.len(),
{
    lemma_pieces_nonempty(a);
    if b.len() == 0 {
        assert(a + b =~= a);
    } else {
        let c = b.drop_last();
        lemma_end_concat(a, c);
        lemma_pieces_nonempty(c);
        lemma_pieces_nonempty(a + c);
        assert((a + b).drop_last() =~= a + c);
        assert((a + b).last() == b.last());
    }
}

/// Lines hold no line feed.
pub open spec fn single_lines(lines: Seq<Seq<char>>) -> bool {
    forall|i: int| 0 <= i < lines.len() ==> !(#[trigger] lines[i]).contains('\n')
}

proof fn lemma_end_of_lines(lines: Seq<Seq<char>>)
    requires
        lines.len() > 0,
        single_lines(lines),
    ensures
        end_of(joined(lines)) == (lines.len() - 1, lines.last().len() as int),
    decreases lines.len(),
{
    texts_are_cut_at_line_feeds(lines.last());
    if lines.len() > 1 {
        let head = lines.drop_last();
        assert forall|i: int| 0 <= i < head.len() implies !(#[trigger] head[i]).contains('\n') by {
            assert(head[i] == lines[i]);
        }
        lemma_end_of_lines(head);
        let x = joined(head);
        assert(x.push('\n').drop_last() =~= x);
        lemma_end_concat(x.push('\n'), lines.last());
    }
}

proof fn lemma_end_at(lines: Seq<Seq<char>>, l: nat, c: nat)
    requires
        l < lines.len(),
        c <= lines[l as int].len(),
        single_lines(lines),
    ensures
        end_of(joined(lines).take(text_offset(lines, l, c))) == (l as int, c as int),
{
    lemma_offset(lines, l, c);
    let part = lines[l as int].take(c as int);
    if part.contains('\n') {
        let k = choose|k: int| 0 <= k < part.len() && part[k] == '\n';
        assert(lines[l as int][k] == '\n');
        assert(lines[l as int].contains('\n'));
    }
    texts_are_cut_at_line_feeds(part);
    if l == 0 {
        assert(Seq::<char>::empty() + part =~= part);
    } else {
        let head = lines.take(l as int);
        assert forall|i: int| 0 <= i < head.len() implies !(#[trigger] head[i]).contains('\n') by {
            assert(head[i] == lines[i]);
        }
        lemma_end_of_lines(head);
        let x = joined(head);
        assert(x.push('\n').drop_last() =~= x);
        lemma_end_concat(x.push('\n'), part);
    }
}

/// The new text up to the end of what the edit at place `k` of an order put in.
pub open spec fn text_behind(
    lines: Seq<Seq<char>>,
    edits: Seq<BatchEditView>,
    order: Seq<int>,
    k: int,
) -> Seq<char>
    decreases k,
{
    let e = edits[order[k]];
    if k <= 0 {
        joined(lines).take(edit_from(lines, e)) + e.text
    } else {
        text_behind(lines, edits, order, k - 1) + joined(lines).subrange(
            edit_to(lines, edits[order[k - 1]]),
            edit_from(lines, e),
        ) + e.text
    }
}

#[verifier::rlimit(60)]
proof fn lemma_caret(
    lines: Seq<Seq<char>>,
    edits: Seq<BatchEditView>,
    spans: Seq<Span>,
    order: Seq<int>,
    k: int,
)
    requires
        lines.len() > 0,
        single_lines(lines),
        0 <= k < order.len(),
        order.len() == edits.len(),
        spans == clamped_spans(lines, edits),
        forall|i: int| 0 <= i < order.len() ==> 0 <= #[trigger] order[i] < edits.len(),
        forall|i: int| 0 <= i < spans.len() ==> span_fits(lines, #[trigger] spans[i]),
        one_after_the_other(lines, edits, order),
    ensures
        end_of(text_behind(lines, edits, order, k)) == batch_end(edits, spans, order, k),
        woven(lines, edits, order, 0, 0) == text_behind(lines, edits, order, k) + woven(
            lines,
            edits,
            order,
            k + 1,
            edit_to(lines, edits[order[k]]),
        ),
    decreases k,
{
    let s = spans[order[k]];
    let e = edits[order[k]];
    assert(span_fits(lines, s));
    let all = joined(lines);
    let from = edit_from(lines, e);
    assert(from == text_offset(lines, s.0, s.1));
    lemma_offset(lines, s.0, s.1);
    lemma_end_at(lines, s.0, s.1);
    lemma_pieces_nonempty(e.text);
    texts_are_cut_at_line_feeds(e.text);
    if k == 0 {
        lemma_end_concat(all.take(from), e.text);
        assert(all.subrange(0, from) =~= all.take(from));
    } else {
        lemma_caret(lines, edits, spans, order, k - 1);
        let t = spans[order[k - 1]];
        assert(span_fits(lines, t));
        let to = edit_to(lines, edits[order[k - 1]]);
        assert(to == text_offset(lines, t.2, t.3));
        lemma_offset(lines, t.2, t.3);
        lemma_end_at(lines, t.2, t.3);
        assert(to <= from) by {
            assert(0 <= k - 1 && k == k - 1 + 1);
        }
        let gap = all.subrange(to, from);
        let before = text_behind(lines, edits, order, k - 1);
        assert(all.take(from) =~= all.take(to) + gap);
        lemma_end_concat(all.take(to), gap);
        lemma_end_concat(before, gap);
        lemma_end_concat(before + gap, e.text);
        let r = woven(lines, edits, order, k + 1, edit_to(lines, e));
        assert(woven(lines, edits, order, k, to) == gap + e.text + r);
        assert(before + (gap + e.text + r) =~= before + gap + e.text + r);
        assert(batch_start(edits, spans, order, k) == end_of(before + gap)) by {
            assert(lines_added(edits, order, k) == lines_added(edits, order, k - 1) + pieces(
                edits[order[k - 1]].text,
            ).len() - 1);
            assert(lines_removed(spans, order, k) == lines_removed(spans, order, k - 1) + t.2 - t.0);
        }
    }
}

/// Of several edits each leaves its caret right behind its own text: on the line
/// that the new text has reached there, and behind as many characters as stand
/// on that line before it.
pub proof fn carets_stand_behind_their_texts(m: Model, edits: Seq<BatchEditView>, k: int)
    requires
        m.lines.len() > 0,
        single_lines(m.lines),
        stepped(m, LoggedOpView::Batch { edits }) is Some,
        0 <= k < edits.len(),
    ensures
        ({
            let spans = clamped_spans(m.lines, edits);
            let order = span_order(spans, edits.len());
            let behind = text_behind(m.lines, edits, order, k);
            let now = joined(stepped(m, LoggedOpView::Batch { edits })->Some_0.lines);
            &&& behind.len() <= now.len()
            &&& now.take(behind.len() as int) == behind
            &&& edits[order[k]].text.len() <= behind.len()
            &&& behind.skip(behind.len() - edits[order[k]].text.len()) == edits[order[k]].text
            &&& batch_end(edits, spans, order, k) == end_of(behind)
        }),
{
    let lines = m.lines;
    let spans = clamped_spans(lines, edits);
    let order = several_edits_are_made_at_once(m, edits);
    assert forall|i: int| 0 <= i < spans.len() implies span_fits(lines, #[trigger] spans[i]) by {
        assert(edit_fits(lines, edits[i]));
    }
    lemma_caret(lines, edits, spans, order, k);
    let behind = text_behind(lines, edits, order, k);
    let now = joined(stepped(m, LoggedOpView::Batch { edits })->Some_0.lines);
    assert(now.take(behind.len() as int) =~= behind);
    assert(behind.skip(behind.len() - edits[order[k]].text.len()) =~= edits[order[k]].text);
}

} // verus!
