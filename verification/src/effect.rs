//! What edits make of an overlay: which original lines they replace or delete,
//! and where the lines go that they insert.

use vstd::prelude::*;

use crate::edit::{
    lemma_delete_line, lemma_insert, lemma_remove_insert, lemma_set_insert, lemma_set_line,
};
use crate::model::{
    batch_fault, chained, clamped_span, clamped_spans, edit_fault, edit_fault_from, head_of,
    indexes, least, lemma_no_overlap, lemma_order, lemma_ranged_len, piece_total, pos_before,
    range_ok, ranged, rectangled, span_order, spliced, tail_of, Span,
};
use crate::overlay::{
    applied, block, event_at, fits, lemma_split, onward, refers, shown, upto, EventView, LineRef,
    OpView,
};
use crate::text::{lemma_pieces_nonempty, pieces};
use crate::wal::{BatchEditView, LoggedOpView};

verus! {

// ---- places ------------------------------------------------------------------

/// The anchor that a reference names.
pub open spec fn anchor_of(r: LineRef) -> u64 {
    match r {
        LineRef::Original(o) => o,
        LineRef::Replaced(o) => o,
        LineRef::Inserted { anchor, .. } => anchor,
    }
}

/// Where the line at `i` comes from.
pub open spec fn place_of(m: Map<u64, EventView>, l: Seq<Seq<char>>, i: int) -> LineRef {
    choose|r: LineRef| refers(m, l, i, r)
}

/// What stands before a later anchor is longer.
pub proof fn lemma_upto_grows(m: Map<u64, EventView>, l: Seq<Seq<char>>, a: int, b: int)
    requires
        0 <= a <= b,
    ensures
        upto(m, l, a).len() <= upto(m, l, b).len(),
        a < b ==> upto(m, l, a).len() + block(m, l, a).len() <= upto(m, l, b).len(),
    decreases b - a,
{
    if a < b {
        lemma_upto_grows(m, l, a, b - 1);
        if a == b - 1 {
            assert(upto(m, l, b) == upto(m, l, a) + block(m, l, a));
        }
    }
}

/// A line that is shown stands at its anchor.
proof fn lemma_stands(m: Map<u64, EventView>, l: Seq<Seq<char>>, i: int, r: LineRef)
    requires
        refers(m, l, i, r),
    ensures
        ({
            let a = anchor_of(r) as int;
            &&& 0 <= a <= l.len()
            &&& upto(m, l, a).len() <= i < upto(m, l, a).len() + block(m, l, a).len()
        }),
{
    assert(anchor_of(r) as int as u64 == anchor_of(r));
}

/// A line that is shown comes from one place.
pub proof fn lemma_place(m: Map<u64, EventView>, l: Seq<Seq<char>>, i: int, r: LineRef)
    requires
        refers(m, l, i, r),
    ensures
        place_of(m, l, i) == r,
{
    let q = place_of(m, l, i);
    assert(refers(m, l, i, q));
    lemma_stands(m, l, i, r);
    lemma_stands(m, l, i, q);
    let (a, b) = (anchor_of(r) as int, anchor_of(q) as int);
    if a < b {
        lemma_upto_grows(m, l, a, b);
    } else if b < a {
        lemma_upto_grows(m, l, b, a);
    }
    assert(a == b);
    assert(anchor_of(r) == anchor_of(q));
}

// ---- single lines ------------------------------------------------------------

/// The overlay after the line at `i` became `text`: an original line is
/// replaced, or no longer so where it is what it was; an inserted one is
/// overwritten.
pub open spec fn with_line(
    m: Map<u64, EventView>,
    l: Seq<Seq<char>>,
    i: int,
    text: Seq<char>,
) -> Map<u64, EventView> {
    if shown(m, l)[i] == text {
        m
    } else {
        match place_of(m, l, i) {
            LineRef::Inserted { anchor, index } => applied(
                m,
                OpView::SetInsert { anchor, index: index as nat, text },
            ),
            r => applied(
                m,
                OpView::SetLineState {
                    anchor: anchor_of(r),
                    replacement: if text == l[anchor_of(r) as int] {
                        None
                    } else {
                        Some(text)
                    },
                    deleted: false,
                },
            ),
        }
    }
}

/// The anchor to which a line goes that is inserted before the line at `i`, and
/// its place among the lines that are inserted there: right before that line.
pub open spec fn slot_before(m: Map<u64, EventView>, l: Seq<Seq<char>>, i: int) -> (u64, nat) {
    if i >= shown(m, l).len() {
        (l.len() as u64, event_at(m, l.len() as u64).inserts.len())
    } else {
        match place_of(m, l, i) {
            LineRef::Inserted { anchor, index } => (anchor, index as nat),
            r => (anchor_of(r), event_at(m, anchor_of(r)).inserts.len()),
        }
    }
}

/// The overlay after a line was inserted before the line at `i`.
pub open spec fn with_insert(
    m: Map<u64, EventView>,
    l: Seq<Seq<char>>,
    i: int,
    text: Seq<char>,
) -> Map<u64, EventView> {
    let (anchor, index) = slot_before(m, l, i);
    applied(m, OpView::InsertInsert { anchor, index, text })
}

/// The overlay after the line at `i` was deleted.
pub open spec fn without_line(m: Map<u64, EventView>, l: Seq<Seq<char>>, i: int) -> Map<
    u64,
    EventView,
> {
    match place_of(m, l, i) {
        LineRef::Inserted { anchor, index } => applied(
            m,
            OpView::RemoveInsert { anchor, index: index as nat },
        ),
        r => applied(
            m,
            OpView::SetLineState { anchor: anchor_of(r), replacement: None, deleted: true },
        ),
    }
}

// ---- spans -------------------------------------------------------------------

/// The overlay after the lines from `to` down to the one after `from` were
/// deleted, the last one first.
pub open spec fn without_lines(
    m: Map<u64, EventView>,
    l: Seq<Seq<char>>,
    from: int,
    to: int,
) -> Map<u64, EventView>
    decreases to - from,
{
    if to <= from {
        m
    } else {
        without_lines(without_line(m, l, to), l, from, to - 1)
    }
}

/// The overlay after the lines of `v` from `k` on were inserted, each at its
/// place after `at`.
pub open spec fn with_inserts(
    m: Map<u64, EventView>,
    l: Seq<Seq<char>>,
    at: int,
    v: Seq<Seq<char>>,
    k: int,
) -> Map<u64, EventView>
    decreases v.len() - k,
{
    if k < 0 || k >= v.len() {
        m
    } else {
        with_inserts(with_insert(m, l, at + k, v[k]), l, at, v, k + 1)
    }
}

/// The overlay after the span from `(l0, c0)` to `(l1, c1)` became `text`: the
/// first line is replaced, the others are deleted, and what else the text has
/// is inserted after the first line. A span that stays as it is is left alone.
pub open spec fn with_range(
    m: Map<u64, EventView>,
    l: Seq<Seq<char>>,
    l0: nat,
    c0: nat,
    l1: nat,
    c1: nat,
    text: Seq<char>,
) -> Map<u64, EventView> {
    let lines = shown(m, l);
    if ranged(lines, l0, c0, l1, c1, text) == lines {
        m
    } else if lines.len() == 0 {
        with_inserts(m, l, 0, pieces(text), 0)
    } else {
        let new = spliced(head_of(lines[l0 as int], c0), text, tail_of(lines[l1 as int], c1));
        with_inserts(
            without_lines(with_line(m, l, l0 as int, new[0]), l, l0 as int, l1 as int),
            l,
            l0 as int,
            new,
            1,
        )
    }
}

/// The overlay after the lines from `i` to `bottom` became those of `goal`.
pub open spec fn with_rows(
    m: Map<u64, EventView>,
    l: Seq<Seq<char>>,
    goal: Seq<Seq<char>>,
    i: int,
    bottom: int,
) -> Map<u64, EventView>
    decreases bottom - i + 1,
{
    if i > bottom {
        m
    } else {
        with_rows(with_line(m, l, i, goal[i]), l, goal, i + 1, bottom)
    }
}

/// The overlay after the edits of a batch from place `k` of the order on were
/// made, the last one first.
pub open spec fn with_spans(
    m: Map<u64, EventView>,
    l: Seq<Seq<char>>,
    edits: Seq<BatchEditView>,
    spans: Seq<Span>,
    order: Seq<int>,
    k: int,
) -> Map<u64, EventView>
    decreases order.len() - k,
{
    if k < 0 || k >= order.len() {
        m
    } else {
        let s = spans[order[k]];
        with_range(
            with_spans(m, l, edits, spans, order, k + 1),
            l,
            s.0,
            s.1,
            s.2,
            s.3,
            edits[order[k]].text,
        )
    }
}

/// The overlay after a batch; one without visible effect leaves it alone.
pub open spec fn with_batch(m: Map<u64, EventView>, l: Seq<Seq<char>>, edits: Seq<BatchEditView>) -> Map<
    u64,
    EventView,
> {
    let lines = shown(m, l);
    let spans = clamped_spans(lines, edits);
    let after = with_spans(m, l, edits, spans, span_order(spans, edits.len()), 0);
    if shown(after, l) == lines {
        m
    } else {
        after
    }
}

/// What an edit that is not refused makes of an overlay. Undo and redo are not
/// edits.
pub open spec fn edited(m: Map<u64, EventView>, l: Seq<Seq<char>>, op: LoggedOpView) -> Map<
    u64,
    EventView,
> {
    match op {
        LoggedOpView::ReplaceLine { line, text } => with_line(m, l, line as int, text),
        LoggedOpView::InsertLine { line, text } => with_insert(m, l, line as int, text),
        LoggedOpView::DeleteLine { line } => without_line(m, l, line as int),
        LoggedOpView::ReplaceRange { l0, c0, l1, c1, text } => with_range(
            m,
            l,
            l0,
            c0,
            l1,
            c1,
            text,
        ),
        LoggedOpView::ReplaceRect { l0, l1, c0, c1, text } => {
            let top = least(l0 as int, l1 as int) as nat;
            let bottom = if l0 <= l1 {
                l1
            } else {
                l0
            };
            let left = least(c0 as int, c1 as int) as nat;
            let right = if c0 <= c1 {
                c1
            } else {
                c0
            };
            let goal = rectangled(shown(m, l), top, bottom, left, right, text);
            with_rows(m, l, goal, top as int, bottom as int)
        },
        LoggedOpView::Batch { edits } => if edits.len() == 0 {
            m
        } else {
            with_batch(m, l, edits)
        },
        _ => m,
    }
}

// ---- what edits leave alone --------------------------------------------------

/// Two overlays differ at the anchors from `a` to `b` at most.
pub open spec fn same_outside(m: Map<u64, EventView>, n: Map<u64, EventView>, a: int, b: int) -> bool {
    forall|x: u64| x < a || x > b ==> #[trigger] event_at(m, x) == event_at(n, x)
}

/// All lines from `p` to `q` stand at the anchors from `a` to `b`; `q` may be
/// the end where `b` is.
pub open spec fn stands_within(
    m: Map<u64, EventView>,
    l: Seq<Seq<char>>,
    p: int,
    q: int,
    a: int,
    b: int,
) -> bool {
    &&& 0 <= a <= b <= l.len()
    &&& upto(m, l, a).len() <= p
    &&& if b == l.len() {
        q <= shown(m, l).len()
    } else {
        q < upto(m, l, b + 1).len()
    }
}

/// The lines that an edit works on, and the one before which it inserts.
pub open spec fn reach_of(lines: Seq<Seq<char>>, op: LoggedOpView) -> (int, int) {
    match op {
        LoggedOpView::ReplaceLine { line, .. } => (line as int, line as int),
        LoggedOpView::InsertLine { line, .. } => (line as int, line as int),
        LoggedOpView::DeleteLine { line } => (line as int, line as int),
        LoggedOpView::ReplaceRange { l0, l1, .. } => if lines.len() == 0 {
            (0, 0)
        } else {
            (l0 as int, l1 as int + 1)
        },
        LoggedOpView::ReplaceRect { l0, l1, .. } => (
            least(l0 as int, l1 as int),
            if l0 <= l1 {
                l1 as int
            } else {
                l0 as int
            },
        ),
        LoggedOpView::Batch { edits } => if lines.len() == 0 {
            (0, 0)
        } else {
            (top_of(edits), bottom_of(edits) + 1)
        },
        _ => (0, 0),
    }
}

/// The first line that an edit of a batch starts on.
pub open spec fn top_of(edits: Seq<BatchEditView>) -> int
    decreases edits.len(),
{
    if edits.len() == 0 {
        0
    } else if edits.len() == 1 {
        edits[0].l0 as int
    } else {
        least(top_of(edits.drop_last()), edits.last().l0 as int)
    }
}

/// The last line that an edit of a batch ends on.
pub open spec fn bottom_of(edits: Seq<BatchEditView>) -> int
    decreases edits.len(),
{
    if edits.len() == 0 {
        0
    } else {
        let before = bottom_of(edits.drop_last());
        if edits.last().l1 > before {
            edits.last().l1 as int
        } else {
            before
        }
    }
}

proof fn lemma_top(edits: Seq<BatchEditView>, i: int)
    requires
        0 <= i < edits.len(),
    ensures
        top_of(edits) <= edits[i].l0,
        edits[i].l1 <= bottom_of(edits),
    decreases edits.len(),
{
    if i < edits.len() - 1 {
        lemma_top(edits.drop_last(), i);
        assert(edits.drop_last()[i] == edits[i]);
    }
}

proof fn lemma_top_is(edits: Seq<BatchEditView>)
    ensures
        0 <= top_of(edits),
    decreases edits.len(),
{
    if edits.len() > 1 {
        lemma_top_is(edits.drop_last());
    }
}

/// What stands before an interval of anchors and after it depends on what
/// differs there.
proof fn lemma_outside(
    m: Map<u64, EventView>,
    n: Map<u64, EventView>,
    l: Seq<Seq<char>>,
    a: int,
    b: int,
)
    requires
        l.len() < u64::MAX,
        0 <= a <= b <= l.len(),
        same_outside(m, n, a, b),
    ensures
        upto(n, l, a) == upto(m, l, a),
        onward(n, l, b + 1) == onward(m, l, b + 1),
        shown(m, l).len() == upto(m, l, b + 1).len() + onward(m, l, b + 1).len(),
        shown(n, l).len() == upto(n, l, b + 1).len() + onward(m, l, b + 1).len(),
{
    lemma_before_is(m, n, l, a, a);
    lemma_after_is(m, n, l, b, b + 1);
    lemma_split(m, l, b + 1);
    lemma_split(n, l, b + 1);
}

proof fn lemma_before_is(
    m: Map<u64, EventView>,
    n: Map<u64, EventView>,
    l: Seq<Seq<char>>,
    a: int,
    c: int,
)
    requires
        l.len() < u64::MAX,
        c <= a <= l.len(),
        forall|x: u64| x < a ==> #[trigger] event_at(m, x) == event_at(n, x),
    ensures
        upto(n, l, c) == upto(m, l, c),
    decreases c,
{
    if c > 0 {
        lemma_before_is(m, n, l, a, c - 1);
        assert(event_at(m, (c - 1) as u64) == event_at(n, (c - 1) as u64));
    }
}

proof fn lemma_after_is(
    m: Map<u64, EventView>,
    n: Map<u64, EventView>,
    l: Seq<Seq<char>>,
    b: int,
    c: int,
)
    requires
        l.len() < u64::MAX,
        0 <= b < c,
        forall|x: u64| x > b ==> #[trigger] event_at(m, x) == event_at(n, x),
    ensures
        onward(n, l, c) == onward(m, l, c),
    decreases l.len() + 1 - c,
{
    if c <= l.len() {
        lemma_after_is(m, n, l, b, c + 1);
        assert(event_at(m, c as u64) == event_at(n, c as u64));
    }
}

/// The anchor at which the line at `p` stands.
proof fn lemma_anchor_at(m: Map<u64, EventView>, l: Seq<Seq<char>>, p: int, c: int) -> (a: int)
    requires
        0 <= c,
        0 <= p < upto(m, l, c).len(),
    ensures
        0 <= a < c,
        upto(m, l, a).len() <= p < upto(m, l, a).len() + block(m, l, a).len(),
    decreases c,
{
    if upto(m, l, c - 1).len() <= p {
        assert(upto(m, l, c) == upto(m, l, c - 1) + block(m, l, c - 1));
        c - 1
    } else {
        lemma_anchor_at(m, l, p, c - 1)
    }
}

/// A line that is shown comes from somewhere.
pub proof fn lemma_place_is(m: Map<u64, EventView>, l: Seq<Seq<char>>, p: int)
    requires
        l.len() < u64::MAX,
        0 <= p < shown(m, l).len() <= usize::MAX,
    ensures
        refers(m, l, p, place_of(m, l, p)),
{
    let a = lemma_anchor_at(m, l, p, l.len() as int + 1);
    let o = a as u64;
    let e = event_at(m, o);
    let k = p - upto(m, l, a).len();
    if k < e.inserts.len() {
        assert(refers(m, l, p, LineRef::Inserted { anchor: o, index: k as usize }));
    } else if e.replacement is Some {
        assert(refers(m, l, p, LineRef::Replaced(o)));
    } else {
        assert(refers(m, l, p, LineRef::Original(o)));
    }
}

/// A line inside an interval of anchors comes from one of them.
proof fn lemma_within(m: Map<u64, EventView>, l: Seq<Seq<char>>, p: int, a: int, b: int)
    requires
        l.len() < u64::MAX,
        shown(m, l).len() <= usize::MAX,
        0 <= p < shown(m, l).len(),
        stands_within(m, l, p, p, a, b),
    ensures
        refers(m, l, p, place_of(m, l, p)),
        a <= anchor_of(place_of(m, l, p)) <= b,
{
    lemma_place_is(m, l, p);
    let r = place_of(m, l, p);
    let c = anchor_of(r) as int;
    lemma_stands(m, l, p, r);
    if c < a {
        lemma_upto_grows(m, l, c, a);
    }
    if c > b {
        lemma_upto_grows(m, l, b + 1, c);
    }
}

/// A step at one anchor leaves the others.
proof fn lemma_applied_outside(m: Map<u64, EventView>, op: OpView, a: int, b: int)
    requires
        match op {
            OpView::SetLineState { anchor, .. } => a <= anchor <= b,
            OpView::SetInsert { anchor, .. } => a <= anchor <= b,
            OpView::RemoveInsert { anchor, .. } => a <= anchor <= b,
            OpView::InsertInsert { anchor, .. } => a <= anchor <= b,
        },
    ensures
        same_outside(m, applied(m, op), a, b),
{
}

/// Replacing a line inside an interval of anchors.
pub proof fn lemma_with_line(m: Map<u64, EventView>, l: Seq<Seq<char>>, i: int, text: Seq<char>, a: int, b: int)
    requires
        fits(m, l),
        shown(m, l).len() <= usize::MAX,
        0 <= i < shown(m, l).len(),
        stands_within(m, l, i, i, a, b),
    ensures
        ({
            let n = with_line(m, l, i, text);
            &&& fits(n, l)
            &&& shown(n, l) == shown(m, l).update(i, text)
            &&& same_outside(m, n, a, b)
        }),
{
    lemma_within(m, l, i, a, b);
    if shown(m, l)[i] == text {
        assert(shown(m, l).update(i, text) =~= shown(m, l));
    } else {
        match place_of(m, l, i) {
            LineRef::Inserted { anchor, index } => {
                lemma_set_insert(m, l, anchor, index, i, text);
                lemma_applied_outside(
                    m,
                    OpView::SetInsert { anchor, index: index as nat, text },
                    a,
                    b,
                );
            },
            r => {
                let o = anchor_of(r);
                let replacement = if text == l[o as int] {
                    None
                } else {
                    Some(text)
                };
                lemma_set_line(m, l, o, i, replacement, text);
                lemma_applied_outside(
                    m,
                    OpView::SetLineState { anchor: o, replacement, deleted: false },
                    a,
                    b,
                );
            },
        }
    }
}

/// Deleting a line inside an interval of anchors.
pub proof fn lemma_without_line(m: Map<u64, EventView>, l: Seq<Seq<char>>, i: int, a: int, b: int)
    requires
        fits(m, l),
        shown(m, l).len() <= usize::MAX,
        0 <= i < shown(m, l).len(),
        stands_within(m, l, i, i, a, b),
    ensures
        ({
            let n = without_line(m, l, i);
            &&& fits(n, l)
            &&& shown(n, l) == shown(m, l).remove(i)
            &&& same_outside(m, n, a, b)
        }),
{
    lemma_within(m, l, i, a, b);
    match place_of(m, l, i) {
        LineRef::Inserted { anchor, index } => {
            lemma_remove_insert(m, l, anchor, index, i);
            lemma_applied_outside(m, OpView::RemoveInsert { anchor, index: index as nat }, a, b);
        },
        r => {
            let o = anchor_of(r);
            lemma_delete_line(m, l, o, i);
            lemma_applied_outside(
                m,
                OpView::SetLineState { anchor: o, replacement: None, deleted: true },
                a,
                b,
            );
        },
    }
}

/// Inserting a line inside an interval of anchors.
pub proof fn lemma_with_insert(
    m: Map<u64, EventView>,
    l: Seq<Seq<char>>,
    i: int,
    text: Seq<char>,
    a: int,
    b: int,
)
    requires
        fits(m, l),
        shown(m, l).len() < usize::MAX,
        0 <= i <= shown(m, l).len(),
        stands_within(m, l, i, i, a, b),
    ensures
        ({
            let n = with_insert(m, l, i, text);
            &&& fits(n, l)
            &&& shown(n, l) == shown(m, l).insert(i, text)
            &&& same_outside(m, n, a, b)
        }),
{
    let (anchor, index) = slot_before(m, l, i);
    if i < shown(m, l).len() {
        lemma_within(m, l, i, a, b);
    } else {
        let n = l.len() as int;
        lemma_split(m, l, n);
        assert(onward(m, l, n + 1) =~= Seq::empty());
        assert(block(m, l, n) =~= event_at(m, n as u64).inserts);
        if b < n {
            lemma_upto_grows(m, l, b + 1, n + 1);
        }
    }
    lemma_insert(m, l, anchor, index, text);
    lemma_applied_outside(m, OpView::InsertInsert { anchor, index, text }, a, b);
}

/// An interval of anchors stays one of the same lines while lines are changed
/// in it.
proof fn lemma_stays_within(
    m: Map<u64, EventView>,
    n: Map<u64, EventView>,
    l: Seq<Seq<char>>,
    p: int,
    q: int,
    a: int,
    b: int,
)
    requires
        l.len() < u64::MAX,
        same_outside(m, n, a, b),
        stands_within(m, l, p, q, a, b),
    ensures
        stands_within(n, l, p, q + shown(n, l).len() - shown(m, l).len(), a, b),
{
    lemma_outside(m, n, l, a, b);
}

pub proof fn lemma_without_lines(
    m: Map<u64, EventView>,
    l: Seq<Seq<char>>,
    from: int,
    to: int,
    a: int,
    b: int,
)
    requires
        fits(m, l),
        shown(m, l).len() <= usize::MAX,
        0 <= from <= to < shown(m, l).len(),
        stands_within(m, l, from, to, a, b),
    ensures
        ({
            let n = without_lines(m, l, from, to);
            &&& fits(n, l)
            &&& shown(n, l).len() == shown(m, l).len() - (to - from)
            &&& same_outside(m, n, a, b)
        }),
    decreases to - from,
{
    if from < to {
        lemma_without_line(m, l, to, a, b);
        let n = without_line(m, l, to);
        lemma_stays_within(m, n, l, from, to, a, b);
        lemma_without_lines(n, l, from, to - 1, a, b);
        let r = without_lines(m, l, from, to);
        assert forall|x: u64| x < a || x > b implies #[trigger] event_at(m, x) == event_at(r, x) by {
            assert(event_at(m, x) == event_at(n, x));
        }
    }
}

pub proof fn lemma_with_inserts(
    m: Map<u64, EventView>,
    l: Seq<Seq<char>>,
    at: int,
    v: Seq<Seq<char>>,
    k: int,
    a: int,
    b: int,
)
    requires
        fits(m, l),
        0 <= k <= v.len(),
        shown(m, l).len() + v.len() - k <= usize::MAX,
        0 <= at,
        at + k <= shown(m, l).len(),
        stands_within(m, l, at, at + k, a, b),
    ensures
        ({
            let n = with_inserts(m, l, at, v, k);
            &&& fits(n, l)
            &&& shown(n, l).len() == shown(m, l).len() + v.len() - k
            &&& same_outside(m, n, a, b)
        }),
    decreases v.len() - k,
{
    if k < v.len() {
        assert(stands_within(m, l, at + k, at + k, a, b));
        lemma_with_insert(m, l, at + k, v[k], a, b);
        let n = with_insert(m, l, at + k, v[k]);
        lemma_stays_within(m, n, l, at, at + k, a, b);
        lemma_with_inserts(n, l, at, v, k + 1, a, b);
        let r = with_inserts(m, l, at, v, k);
        assert forall|x: u64| x < a || x > b implies #[trigger] event_at(m, x) == event_at(r, x) by {
            assert(event_at(m, x) == event_at(n, x));
        }
    }
}

pub proof fn lemma_with_range(
    m: Map<u64, EventView>,
    l: Seq<Seq<char>>,
    s: Span,
    text: Seq<char>,
    a: int,
    b: int,
)
    requires
        fits(m, l),
        range_ok(shown(m, l), s.0, s.1, s.2, s.3),
        shown(m, l).len() + pieces(text).len() <= usize::MAX,
        if shown(m, l).len() == 0 {
            stands_within(m, l, 0, 0, a, b)
        } else {
            stands_within(m, l, s.0 as int, s.2 as int + 1, a, b)
        },
    ensures
        ({
            let n = with_range(m, l, s.0, s.1, s.2, s.3, text);
            &&& fits(n, l)
            &&& shown(n, l).len() == ranged(shown(m, l), s.0, s.1, s.2, s.3, text).len()
            &&& same_outside(m, n, a, b)
        }),
{
    let lines = shown(m, l);
    let n = with_range(m, l, s.0, s.1, s.2, s.3, text);
    lemma_pieces_nonempty(text);
    if ranged(lines, s.0, s.1, s.2, s.3, text) == lines {
    } else if lines.len() == 0 {
        lemma_with_inserts(m, l, 0, pieces(text), 0, a, b);
    } else {
        let new = spliced(head_of(lines[s.0 as int], s.1), text, tail_of(lines[s.2 as int], s.3));
        assert(new.len() == pieces(text).len());
        let m1 = with_line(m, l, s.0 as int, new[0]);
        lemma_with_line(m, l, s.0 as int, new[0], a, b);
        lemma_stays_within(m, m1, l, s.0 as int, s.2 as int + 1, a, b);
        let m2 = without_lines(m1, l, s.0 as int, s.2 as int);
        lemma_without_lines(m1, l, s.0 as int, s.2 as int, a, b);
        lemma_stays_within(m1, m2, l, s.0 as int, s.2 as int + 1, a, b);
        lemma_with_inserts(m2, l, s.0 as int, new, 1, a, b);
        assert forall|x: u64| x < a || x > b implies #[trigger] event_at(m, x) == event_at(n, x) by {
            assert(event_at(m, x) == event_at(m1, x));
            assert(event_at(m1, x) == event_at(m2, x));
        }
    }
}

proof fn lemma_with_rows(
    m: Map<u64, EventView>,
    l: Seq<Seq<char>>,
    goal: Seq<Seq<char>>,
    i: int,
    bottom: int,
    a: int,
    b: int,
)
    requires
        fits(m, l),
        shown(m, l).len() <= usize::MAX,
        0 <= i <= bottom + 1,
        bottom < shown(m, l).len(),
        stands_within(m, l, i, bottom, a, b),
    ensures
        same_outside(m, with_rows(m, l, goal, i, bottom), a, b),
    decreases bottom - i + 1,
{
    if i <= bottom {
        lemma_with_line(m, l, i, goal[i], a, b);
        let n = with_line(m, l, i, goal[i]);
        lemma_stays_within(m, n, l, i, bottom, a, b);
        lemma_with_rows(n, l, goal, i + 1, bottom, a, b);
        let r = with_rows(m, l, goal, i, bottom);
        assert forall|x: u64| x < a || x > b implies #[trigger] event_at(m, x) == event_at(r, x) by {
            assert(event_at(m, x) == event_at(n, x));
        }
    }
}

/// The spans of a batch lie inside the lines, between `lo` and `hi`.
pub open spec fn spans_between(
    lines: Seq<Seq<char>>,
    spans: Seq<Span>,
    order: Seq<int>,
    lo: int,
    hi: int,
) -> bool {
    forall|j: int|
        0 <= j < order.len() ==> {
            let s = spans[#[trigger] order[j]];
            if lines.len() == 0 {
                s == (0nat, 0nat, 0nat, 0nat)
            } else {
                lo <= s.0 <= s.2 <= hi < lines.len()
            }
        }
}

pub proof fn lemma_with_spans(
    m: Map<u64, EventView>,
    l: Seq<Seq<char>>,
    edits: Seq<BatchEditView>,
    spans: Seq<Span>,
    order: Seq<int>,
    k: int,
    lo: int,
    hi: int,
    a: int,
    b: int,
)
    requires
        fits(m, l),
        0 <= k <= order.len(),
        chained(spans, order),
        spans_between(shown(m, l), spans, order, lo, hi),
        shown(m, l).len() + piece_total(edits, order) <= usize::MAX,
        if shown(m, l).len() == 0 {
            stands_within(m, l, 0, 0, a, b)
        } else {
            stands_within(m, l, lo, hi + 1, a, b)
        },
    ensures
        ({
            let n = with_spans(m, l, edits, spans, order, k);
            &&& fits(n, l)
            &&& same_outside(m, n, a, b)
            &&& shown(n, l).len() + piece_total(edits, order.take(k)) <= usize::MAX
            &&& shown(m, l).len() > 0 && k < order.len() ==> shown(n, l).len() >= shown(m, l).len()
                - hi + spans[order[k]].0
            &&& k == order.len() ==> n == m
        }),
    decreases order.len() - k,
{
    let lines = shown(m, l);
    if k == order.len() {
        assert(order.take(k) =~= order);
    } else {
        lemma_with_spans(m, l, edits, spans, order, k + 1, lo, hi, a, b);
        let n = with_spans(m, l, edits, spans, order, k + 1);
        let s = spans[order[k]];
        let t = edits[order[k]].text;
        assert(order.take(k + 1).drop_last() =~= order.take(k));
        assert(order.take(k + 1).last() == order[k]);
        lemma_stays_within(m, n, l, if lines.len() == 0 { 0 } else { lo }, if lines.len() == 0 {
            0
        } else {
            hi + 1
        }, a, b);
        lemma_pieces_nonempty(t);
        if lines.len() > 0 {
            if k + 1 < order.len() {
                assert(!pos_before(
                    (spans[order[k + 1]].0, spans[order[k + 1]].1),
                    (spans[order[k]].2, spans[order[k]].3),
                ));
            }
            assert(shown(n, l).len() >= lines.len() - hi + s.2);
        }
        let r = with_spans(m, l, edits, spans, order, k);
        lemma_with_range(n, l, s, t, a, b);
        lemma_ranged_len(shown(n, l), s.0, s.1, s.2, s.3, t);
        if shown(n, l).len() > 0 {
            let x = shown(n, l);
            assert(ranged(x, s.0, s.1, s.2, s.3, t).len() == s.0 + pieces(t).len() + x.len() - s.2
                - 1) by {
                assert(spliced(head_of(x[s.0 as int], s.1), t, tail_of(x[s.2 as int], s.3)).len()
                    == pieces(t).len());
            }
        }
        assert forall|x: u64| x < a || x > b implies #[trigger] event_at(m, x) == event_at(r, x) by {
            assert(event_at(m, x) == event_at(n, x));
        }
    }
}

/// How many lines an edit adds at most.
pub open spec fn most_added(op: LoggedOpView) -> nat {
    match op {
        LoggedOpView::InsertLine { .. } => 1,
        LoggedOpView::ReplaceRange { text, .. } => pieces(text).len(),
        LoggedOpView::Batch { edits } => piece_total(edits, indexes(edits.len())),
        _ => 0,
    }
}

/// An edit changes an overlay at no anchors but those at which the lines stand
/// that it works on: what differs elsewhere stays as it is, and where nothing
/// differs, nothing will.
pub proof fn edits_stay_in_their_place(
    m: Map<u64, EventView>,
    l: Seq<Seq<char>>,
    op: LoggedOpView,
    a: int,
    b: int,
)
    requires
        fits(m, l),
        !(op is Undo) && !(op is Redo),
        accepts(shown(m, l), op),
        shown(m, l).len() + most_added(op) <= usize::MAX,
        stands_within(
            m,
            l,
            reach_of(shown(m, l), op).0,
            reach_of(shown(m, l), op).1,
            a,
            b,
        ),
    ensures
        same_outside(m, edited(m, l, op), a, b),
{
    let lines = shown(m, l);
    match op {
        LoggedOpView::ReplaceLine { line, text } => {
            lemma_with_line(m, l, line as int, text, a, b);
        },
        LoggedOpView::InsertLine { line, text } => {
            lemma_with_insert(m, l, line as int, text, a, b);
        },
        LoggedOpView::DeleteLine { line } => {
            lemma_without_line(m, l, line as int, a, b);
        },
        LoggedOpView::ReplaceRange { l0, c0, l1, c1, text } => {
            lemma_with_range(m, l, (l0, c0, l1, c1), text, a, b);
        },
        LoggedOpView::ReplaceRect { l0, l1, c0, c1, text } => {
            let (top, bottom) = reach_of(lines, op);
            let left = least(c0 as int, c1 as int) as nat;
            let right = if c0 <= c1 {
                c1
            } else {
                c0
            };
            let goal = rectangled(lines, top as nat, bottom as nat, left, right, text);
            lemma_with_rows(m, l, goal, top, bottom, a, b);
        },
        LoggedOpView::Batch { edits } => {
            if edits.len() > 0 {
                lemma_batch_outside(m, l, edits, a, b);
            }
        },
        _ => {},
    }
}

proof fn lemma_batch_outside(
    m: Map<u64, EventView>,
    l: Seq<Seq<char>>,
    edits: Seq<BatchEditView>,
    a: int,
    b: int,
)
    requires
        fits(m, l),
        edits.len() > 0,
        batch_fault(shown(m, l), edits) is None,
        shown(m, l).len() + piece_total(edits, indexes(edits.len())) <= usize::MAX,
        if shown(m, l).len() == 0 {
            stands_within(m, l, 0, 0, a, b)
        } else {
            stands_within(m, l, top_of(edits), bottom_of(edits) + 1, a, b)
        },
    ensures
        same_outside(m, with_batch(m, l, edits), a, b),
{
    let lines = shown(m, l);
    let spans = clamped_spans(lines, edits);
    let order = span_order(spans, edits.len());
    lemma_batch_spans(lines, edits);
    lemma_with_spans(m, l, edits, spans, order, 0, top_of(edits), bottom_of(edits), a, b);
}

/// The spans of a batch that is not refused, in the order in which they stand.
pub proof fn lemma_batch_spans(lines: Seq<Seq<char>>, edits: Seq<BatchEditView>)
    requires
        edits.len() > 0,
        batch_fault(lines, edits) is None,
    ensures
        ({
            let spans = clamped_spans(lines, edits);
            let order = span_order(spans, edits.len());
            &&& order.len() == edits.len()
            &&& chained(spans, order)
            &&& 0 <= top_of(edits) <= bottom_of(edits)
            &&& spans_between(lines, spans, order, top_of(edits), bottom_of(edits))
            &&& piece_total(edits, order) == piece_total(edits, indexes(edits.len()))
        }),
{
    let spans = clamped_spans(lines, edits);
    let order = span_order(spans, edits.len());
    let (lo, hi) = (top_of(edits), bottom_of(edits));
    lemma_order(edits, spans, edits.len());
    lemma_no_overlap(spans, order, 0);
    assert forall|k: int| 0 <= k < edits.len() implies edit_fault(
        lines,
        #[trigger] edits[k],
    ) is None by {
        lemma_no_fault(lines, edits, 0, k);
    }
    assert(hi < lines.len() || lines.len() == 0) by {
        if lines.len() > 0 {
            lemma_bottom(edits, lines.len());
        }
    }
    assert forall|j: int| 0 <= j < order.len() implies {
        let s = spans[#[trigger] order[j]];
        &&& if lines.len() == 0 {
            s == (0nat, 0nat, 0nat, 0nat)
        } else {
            lo <= s.0 <= s.2 <= hi < lines.len()
        }
        &&& !pos_before((s.2, s.3), (s.0, s.1))
    } by {
        let k = order[j];
        assert(0 <= k < edits.len());
        assert(edit_fault(lines, edits[k]) is None);
        assert(spans[k] == clamped_span(lines, edits[k]));
        lemma_top(edits, k);
    }
    assert(chained(spans, order));
    lemma_top(edits, 0);
    lemma_top_is(edits);
    assert(edit_fault(lines, edits[0]) is None);
}

proof fn lemma_no_fault(lines: Seq<Seq<char>>, edits: Seq<BatchEditView>, i: int, k: int)
    requires
        0 <= i <= k < edits.len(),
        edit_fault_from(lines, edits, i) is None,
    ensures
        edit_fault(lines, edits[k]) is None,
    decreases k - i,
{
    if i < k {
        lemma_no_fault(lines, edits, i + 1, k);
    }
}

proof fn lemma_bottom(edits: Seq<BatchEditView>, n: nat)
    requires
        n > 0,
        forall|k: int| 0 <= k < edits.len() ==> (#[trigger] edits[k]).l1 < n,
    ensures
        bottom_of(edits) < n,
    decreases edits.len(),
{
    if edits.len() > 0 {
        let before = edits.drop_last();
        assert forall|k: int| 0 <= k < before.len() implies (#[trigger] before[k]).l1 < n by {
            assert(before[k] == edits[k]);
        }
        lemma_bottom(before, n);
        assert(edits[edits.len() - 1].l1 < n);
    }
}

/// An edit is one of these lines.
pub open spec fn accepts(lines: Seq<Seq<char>>, op: LoggedOpView) -> bool {
    match op {
        LoggedOpView::ReplaceLine { line, .. } => line < lines.len(),
        LoggedOpView::InsertLine { line, .. } => line <= lines.len(),
        LoggedOpView::DeleteLine { line } => line < lines.len(),
        LoggedOpView::ReplaceRange { l0, c0, l1, c1, .. } => range_ok(lines, l0, c0, l1, c1),
        LoggedOpView::ReplaceRect { l0, l1, .. } => l0 < lines.len() && l1 < lines.len(),
        LoggedOpView::Batch { edits } => edits.len() == 0 || batch_fault(lines, edits) is None,
        _ => true,
    }
}

} // verus!
