//! Editing sessions: an overlay over a document, with its history.

use vstd::prelude::*;
use vstd::string::*;

use crate::document::Document;
use crate::effect::{
    lemma_place, slot_before, with_insert, with_inserts, with_line, with_range, with_rows, with_spans,
    without_line, without_lines,
};
use crate::error::Error;
use crate::model::{
    batch_end, batch_fault, batch_start, batched, chained, clamped_span, clamped_spans, edit_fault,
    edit_fault_from, edits_overlap, empty_document, head_of, indexes, least, lemma_added,
    lemma_batched, lemma_no_overlap, lemma_order, lemma_ranged_len, lemma_removed, line_beyond_end,
    line_out_of_range, piece_total, lines_added, lines_removed, overlap_from, pos_before,
    range_caret, range_ok, range_outside, ranged, rect_in_empty, rect_outside,
    rect_piece, rectangled, reversed_range, slot, span_before, span_order, spliced, tail_of, Span,
};
use crate::overlay::{
    applied, block, clean, event_at, fits, lemma_put_shown, lemma_refers, lemma_split, onward,
    ops_view, opt_text, put, refers, shown, step_back, unwound, upto, EventView, LineRef, OpView,
    Overlay, UndoOp,
};
use crate::text::{decimal, decimal_text, pieces, same_text, split_pieces, texts};
use crate::wal::{batch_view, BatchEdit};

verus! {

// ---- messages ----------------------------------------------------------------

fn numbered(before: &str, n: u128, after: &str) -> (s: String)
    ensures
        s@ == before@ + decimal_text(n as nat) + after@,
{
    let d = decimal(n);
    before.to_owned().concat(d.as_str()).concat(after)
}

pub(crate) fn err_out_of_range(line: u64) -> (e: Error)
    ensures
        e@ == line_out_of_range(line as nat),
{
    Error::Unsupported(numbered("line ", line as u128 + 1, " is out of range"))
}

fn err_beyond_end(line: u64) -> (e: Error)
    ensures
        e@ == line_beyond_end(line as nat),
{
    Error::Unsupported(numbered("line ", line as u128 + 1, " is beyond end of document"))
}

fn err_empty_document() -> (e: Error)
    ensures
        e@ == empty_document(),
{
    Error::Unsupported("the document is empty; only an insertion at line 1 is valid".to_owned())
}

fn err_range_outside(l0: u64, l1: u64) -> (e: Error)
    ensures
        e@ == range_outside(l0 as nat, l1 as nat),
{
    let a = numbered("range spans lines ", l0 as u128 + 1, "..");
    let d = decimal(l1 as u128 + 1);
    Error::Unsupported(a.concat(d.as_str()).concat(" outside the document"))
}

fn err_reversed(line: u64, c0: usize, c1: usize) -> (e: Error)
    ensures
        e@ == reversed_range(line as nat, c0 as nat, c1 as nat),
{
    let a = numbered("range on line ", line as u128 + 1, " is reversed (column ");
    let x = decimal(c0 as u128 + 1);
    let y = decimal(c1 as u128 + 1);
    Error::Unsupported(
        a.concat(x.as_str()).concat(" comes after ").concat(y.as_str()).concat(")"),
    )
}

fn err_overlap(line: u64) -> (e: Error)
    ensures
        e@ == edits_overlap(line as nat),
{
    let d = decimal(line as u128 + 1);
    Error::Unsupported("batch edits overlap around line ".to_owned().concat(d.as_str()))
}

pub(crate) fn err_rect_in_empty() -> (e: Error)
    ensures
        e@ == rect_in_empty(),
{
    Error::Unsupported("rectangular selection is not valid in an empty document".to_owned())
}

pub(crate) fn err_rect_outside(top: u64, bottom: u64) -> (e: Error)
    ensures
        e@ == rect_outside(top as nat, bottom as nat),
{
    let a = numbered("rectangle spans lines ", top as u128 + 1, "..");
    let d = decimal(bottom as u128 + 1);
    Error::Unsupported(a.concat(d.as_str()).concat(" outside the document"))
}

// ---- steps on the overlay, and what they do to the lines -----------------------

/// What a recorded change keeps: unwinding the record leads to the same place.
pub open spec fn same_origin(
    m0: Map<u64, EventView>,
    r0: Seq<OpView>,
    m1: Map<u64, EventView>,
    r1: Seq<OpView>,
) -> bool {
    &&& unwound(m1, r1) == unwound(m0, r0)
    &&& r1.len() >= r0.len()
}

/// Applies a step, and records the step that takes it back.
fn record_step(overlay: &mut Overlay, op: UndoOp, record: &mut Vec<UndoOp>)
    requires
        clean(old(overlay)@),
    ensures
        final(overlay)@ == applied(old(overlay)@, op@),
        clean(final(overlay)@),
        same_origin(
            old(overlay)@,
            ops_view(old(record)@),
            final(overlay)@,
            ops_view(final(record)@),
        ),
        final(record)@.len() == old(record)@.len() + 1,
{
    let ghost m = overlay@;
    let ghost r = ops_view(record@);
    proof {
        step_back(m, op@);
    }
    let inv = overlay.apply_op(op);
    record.push(inv);
    proof {
        let r1 = ops_view(record@);
        assert(r1 =~= r.push(inv@));
        assert(r1.last() == inv@);
        assert(r1.drop_last() =~= r);
    }
}

pub proof fn lemma_set_line(
    m: Map<u64, EventView>,
    l: Seq<Seq<char>>,
    o: u64,
    logical: int,
    replacement: Option<Seq<char>>,
    text: Seq<char>,
)
    requires
        fits(m, l),
        refers(m, l, logical, LineRef::Original(o)) || refers(m, l, logical, LineRef::Replaced(o)),
        replacement == (if text == l[o as int] { None } else { Some(text) }),
    ensures
        ({
            let n = applied(
                m,
                OpView::SetLineState { anchor: o, replacement, deleted: false },
            );
            &&& fits(n, l)
            &&& shown(n, l) == shown(m, l).update(logical, text)
            &&& 0 <= logical < shown(m, l).len()
        }),
{
    let e = event_at(m, o);
    let e1 = EventView { inserts: e.inserts, replacement, deleted: false };
    let n = put(m, o, e1);
    lemma_put_shown(m, l, o, e1);
    assert(o as int as u64 == o);
    assert(block(n, l, o as int) =~= e.inserts + seq![text]);
    assert(block(m, l, o as int).len() == e.inserts.len() + 1);
    assert(shown(n, l) =~= shown(m, l).update(logical, text));
    step_back(m, OpView::SetLineState { anchor: o, replacement, deleted: false });
}

pub proof fn lemma_set_insert(
    m: Map<u64, EventView>,
    l: Seq<Seq<char>>,
    anchor: u64,
    index: usize,
    logical: int,
    text: Seq<char>,
)
    requires
        fits(m, l),
        refers(m, l, logical, LineRef::Inserted { anchor, index }),
    ensures
        ({
            let n = applied(m, OpView::SetInsert { anchor, index: index as nat, text });
            &&& fits(n, l)
            &&& shown(n, l) == shown(m, l).update(logical, text)
            &&& 0 <= logical < shown(m, l).len()
        }),
{
    let e = event_at(m, anchor);
    let e1 = EventView { inserts: e.inserts.update(index as int, text), ..e };
    let n = put(m, anchor, e1);
    lemma_put_shown(m, l, anchor, e1);
    assert(anchor as int as u64 == anchor);
    assert(shown(n, l) =~= shown(m, l).update(logical, text));
    step_back(m, OpView::SetInsert { anchor, index: index as nat, text });
}

pub proof fn lemma_insert(
    m: Map<u64, EventView>,
    l: Seq<Seq<char>>,
    anchor: u64,
    index: nat,
    text: Seq<char>,
)
    requires
        fits(m, l),
        anchor <= l.len(),
        index <= event_at(m, anchor).inserts.len(),
        shown(m, l).len() < u64::MAX,
    ensures
        ({
            let n = applied(m, OpView::InsertInsert { anchor, index, text });
            let at = upto(m, l, anchor as int).len() + index;
            &&& fits(n, l)
            &&& 0 <= at <= shown(m, l).len()
            &&& shown(n, l) == shown(m, l).insert(at as int, text)
        }),
{
    let e = event_at(m, anchor);
    let e1 = EventView { inserts: e.inserts.insert(index as int, text), ..e };
    let n = put(m, anchor, e1);
    let at = (upto(m, l, anchor as int).len() + index) as int;
    lemma_put_shown(m, l, anchor, e1);
    assert(anchor as int as u64 == anchor);
    assert(e1.inserts.len() > 0);
    assert(shown(n, l) =~= shown(m, l).insert(at, text));
    step_back(m, OpView::InsertInsert { anchor, index, text });
}

pub proof fn lemma_delete_line(m: Map<u64, EventView>, l: Seq<Seq<char>>, o: u64, logical: int)
    requires
        fits(m, l),
        refers(m, l, logical, LineRef::Original(o)) || refers(m, l, logical, LineRef::Replaced(o)),
    ensures
        ({
            let n = applied(
                m,
                OpView::SetLineState { anchor: o, replacement: None, deleted: true },
            );
            &&& fits(n, l)
            &&& 0 <= logical < shown(m, l).len()
            &&& shown(n, l) == shown(m, l).remove(logical)
        }),
{
    let e = event_at(m, o);
    let e1 = EventView { inserts: e.inserts, replacement: None, deleted: true };
    let n = put(m, o, e1);
    lemma_put_shown(m, l, o, e1);
    assert(o as int as u64 == o);
    assert(block(n, l, o as int) =~= e.inserts);
    assert(block(m, l, o as int).len() == e.inserts.len() + 1);
    assert(shown(n, l) =~= shown(m, l).remove(logical));
    step_back(m, OpView::SetLineState { anchor: o, replacement: None, deleted: true });
}

pub proof fn lemma_remove_insert(
    m: Map<u64, EventView>,
    l: Seq<Seq<char>>,
    anchor: u64,
    index: usize,
    logical: int,
)
    requires
        fits(m, l),
        refers(m, l, logical, LineRef::Inserted { anchor, index }),
    ensures
        ({
            let n = applied(m, OpView::RemoveInsert { anchor, index: index as nat });
            &&& fits(n, l)
            &&& 0 <= logical < shown(m, l).len()
            &&& shown(n, l) == shown(m, l).remove(logical)
        }),
{
    let e = event_at(m, anchor);
    let e1 = EventView { inserts: e.inserts.remove(index as int), ..e };
    let n = put(m, anchor, e1);
    lemma_put_shown(m, l, anchor, e1);
    assert(anchor as int as u64 == anchor);
    assert(shown(n, l) =~= shown(m, l).remove(logical));
    step_back(m, OpView::RemoveInsert { anchor, index: index as nat });
}

// ---- edits on the overlay ------------------------------------------------------

/// The text of a line that is shown.
pub(crate) fn shown_text(overlay: &Overlay, doc: &Document, logical: u64) -> (r: Option<String>)
    requires
        doc.wf(),
        fits(overlay@, doc@.lines()),
    ensures
        r is Some <==> logical < shown(overlay@, doc@.lines()).len(),
        r matches Some(t) ==> t@ == shown(overlay@, doc@.lines())[logical as int],
{
    let ghost l = doc@.lines();
    let at = overlay.locate(logical, doc.line_count(), Ghost(l));
    match at {
        None => None,
        Some(r) => {
            proof {
                lemma_refers(overlay@, l, logical as int, r);
            }
            match r {
                LineRef::Original(o) => doc.line(o),
                LineRef::Replaced(o) => match overlay.get(o) {
                    Some(e) => {
                        assert(e@ == event_at(overlay@, o));
                        match &e.replacement {
                            Some(t) => Some(t.clone()),
                            None => None,
                        }
                    },
                    None => None,
                },
                LineRef::Inserted { anchor, index } => match overlay.get(anchor) {
                    Some(e) => {
                        assert(e@ == event_at(overlay@, anchor));
                        assert(e@.inserts.len() == e.inserts@.len());
                        Some(e.inserts[index].clone())
                    },
                    None => None,
                },
            }
        },
    }
}

/// How many lines are shown.
pub(crate) fn shown_total(overlay: &Overlay, doc: &Document) -> (n: u64)
    requires
        doc.wf(),
        fits(overlay@, doc@.lines()),
    ensures
        n == shown(overlay@, doc@.lines()).len(),
{
    let total = doc.line_count();
    let (inserted, _replaced, deleted) = overlay.counts(total, Ghost(doc@.lines()));
    (total - deleted) + inserted
}

/// Replaces a line, recording how to take it back.
pub(crate) fn replace_line_inner(
    overlay: &mut Overlay,
    doc: &Document,
    logical: u64,
    text: String,
    record: &mut Vec<UndoOp>,
) -> (r: Result<(), Error>)
    requires
        doc.wf(),
        fits(old(overlay)@, doc@.lines()),
    ensures
        ({
            let l = doc@.lines();
            let before = shown(old(overlay)@, l);
            &&& fits(final(overlay)@, l)
            &&& same_origin(
                old(overlay)@,
                ops_view(old(record)@),
                final(overlay)@,
                ops_view(final(record)@),
            )
            &&& r is Ok <==> logical < before.len()
            &&& r is Ok ==> shown(final(overlay)@, l) == before.update(logical as int, text@)
            &&& r is Ok ==> final(overlay)@ == with_line(
                old(overlay)@,
                l,
                logical as int,
                text@,
            )
            &&& r is Ok ==> (final(record)@.len() > old(record)@.len()) == (before[logical as int]
                != text@)
            &&& r is Err ==> *final(overlay) == *old(overlay) && *final(record) == *old(record)
            &&& r is Err ==> r->Err_0@ == line_out_of_range(logical as nat)
        }),
{
    let ghost l = doc@.lines();
    let ghost m = overlay@;
    let at = overlay.locate(logical, doc.line_count(), Ghost(l));
    match at {
        None => Err(err_out_of_range(logical)),
        Some(r) => {
            proof {
                lemma_refers(m, l, logical as int, r);
                lemma_place(m, l, logical as int, r);
            }
            match r {
                LineRef::Original(orig) | LineRef::Replaced(orig) => {
                    let current = match shown_text(overlay, doc, logical) {
                        Some(t) => t,
                        None => {
                            return Err(err_out_of_range(logical));
                        },
                    };
                    if same_text(current.as_str(), text.as_str()) {
                        assert(shown(m, l) =~= shown(m, l).update(logical as int, text@));
                        return Ok(());
                    }
                    let original = match doc.line(orig) {
                        Some(t) => t,
                        None => {
                            return Err(err_out_of_range(logical));
                        },
                    };
                    let ghost t = text@;
                    let replacement = if same_text(original.as_str(), text.as_str()) {
                        None
                    } else {
                        Some(text)
                    };
                    proof {
                        lemma_set_line(m, l, orig, logical as int, opt_text(replacement), t);
                    }
                    record_step(
                        overlay,
                        UndoOp::SetLineState { anchor: orig, replacement, deleted: false },
                        record,
                    );
                    Ok(())
                },
                LineRef::Inserted { anchor, index } => {
                    let current = match shown_text(overlay, doc, logical) {
                        Some(t) => t,
                        None => {
                            return Err(err_out_of_range(logical));
                        },
                    };
                    if same_text(current.as_str(), text.as_str()) {
                        assert(shown(m, l) =~= shown(m, l).update(logical as int, text@));
                        return Ok(());
                    }
                    proof {
                        lemma_set_insert(m, l, anchor, index, logical as int, text@);
                    }
                    record_step(overlay, UndoOp::SetInsert { anchor, index, text }, record);
                    Ok(())
                },
            }
        },
    }
}

/// Inserts a line, recording how to take it back.
pub(crate) fn insert_line_before_inner(
    overlay: &mut Overlay,
    doc: &Document,
    logical: u64,
    text: String,
    record: &mut Vec<UndoOp>,
) -> (r: Result<(), Error>)
    requires
        doc.wf(),
        fits(old(overlay)@, doc@.lines()),
        shown(old(overlay)@, doc@.lines()).len() < u64::MAX,
    ensures
        ({
            let l = doc@.lines();
            let before = shown(old(overlay)@, l);
            &&& fits(final(overlay)@, l)
            &&& same_origin(
                old(overlay)@,
                ops_view(old(record)@),
                final(overlay)@,
                ops_view(final(record)@),
            )
            &&& r is Ok <==> logical <= before.len()
            &&& r is Ok ==> shown(final(overlay)@, l) == before.insert(logical as int, text@)
            &&& r is Ok ==> final(overlay)@ == with_insert(
                old(overlay)@,
                l,
                logical as int,
                text@,
            )
            &&& r is Ok ==> final(record)@.len() > old(record)@.len()
            &&& r is Err ==> *final(overlay) == *old(overlay) && *final(record) == *old(record)
            &&& r is Err ==> r->Err_0@ == line_beyond_end(logical as nat)
        }),
{
    let ghost l = doc@.lines();
    let ghost m = overlay@;
    let total = shown_total(overlay, doc);
    if logical > total {
        return Err(err_beyond_end(logical));
    }
    let n = doc.line_count();
    let (anchor, index): (u64, usize) = if logical == total {
        let index = match overlay.get(n) {
            Some(e) => {
                assert(e@ == event_at(m, n));
                assert(e@.inserts.len() == e.inserts@.len());
                e.inserts.len()
            },
            None => 0,
        };
        proof {
            lemma_split(m, l, n as int);
            assert(onward(m, l, n + 1) =~= Seq::empty());
            assert(block(m, l, n as int) =~= event_at(m, n).inserts);
            assert(upto(m, l, n as int).len() + index == total);
        }
        (n, index)
    } else {
        let at = overlay.locate(logical, n, Ghost(l));
        proof {
            if let Some(r) = at {
                lemma_place(m, l, logical as int, r);
            }
        }
        match at {
            Some(LineRef::Original(orig)) => {
                let index = match overlay.get(orig) {
                    Some(e) => {
                        assert(e@ == event_at(m, orig));
                        assert(e@.inserts.len() == e.inserts@.len());
                        e.inserts.len()
                    },
                    None => 0,
                };
                (orig, index)
            },
            Some(LineRef::Replaced(orig)) => {
                let index = match overlay.get(orig) {
                    Some(e) => {
                        assert(e@ == event_at(m, orig));
                        assert(e@.inserts.len() == e.inserts@.len());
                        e.inserts.len()
                    },
                    None => 0,
                };
                (orig, index)
            },
            Some(LineRef::Inserted { anchor, index }) => (anchor, index),
            None => (n, 0),
        }
    };
    proof {
        lemma_insert(m, l, anchor, index as nat, text@);
        assert(slot_before(m, l, logical as int) == (anchor, index as nat));
    }
    record_step(overlay, UndoOp::InsertInsert { anchor, index, text }, record);
    Ok(())
}

/// Deletes a line, recording how to take it back.
pub(crate) fn delete_line_inner(
    overlay: &mut Overlay,
    doc: &Document,
    logical: u64,
    record: &mut Vec<UndoOp>,
) -> (r: Result<(), Error>)
    requires
        doc.wf(),
        fits(old(overlay)@, doc@.lines()),
    ensures
        ({
            let l = doc@.lines();
            let before = shown(old(overlay)@, l);
            &&& fits(final(overlay)@, l)
            &&& same_origin(
                old(overlay)@,
                ops_view(old(record)@),
                final(overlay)@,
                ops_view(final(record)@),
            )
            &&& r is Ok <==> logical < before.len()
            &&& r is Ok ==> shown(final(overlay)@, l) == before.remove(logical as int)
            &&& r is Ok ==> final(overlay)@ == without_line(old(overlay)@, l, logical as int)
            &&& r is Ok ==> final(record)@.len() > old(record)@.len()
            &&& r is Err ==> *final(overlay) == *old(overlay) && *final(record) == *old(record)
            &&& r is Err ==> r->Err_0@ == line_out_of_range(logical as nat)
        }),
{
    let ghost l = doc@.lines();
    let ghost m = overlay@;
    let at = overlay.locate(logical, doc.line_count(), Ghost(l));
    proof {
        if let Some(r) = at {
            lemma_place(m, l, logical as int, r);
        }
    }
    match at {
        None => Err(err_out_of_range(logical)),
        Some(LineRef::Inserted { anchor, index }) => {
            proof {
                lemma_remove_insert(m, l, anchor, index, logical as int);
            }
            record_step(overlay, UndoOp::RemoveInsert { anchor, index }, record);
            Ok(())
        },
        Some(LineRef::Original(orig)) => {
            proof {
                lemma_delete_line(m, l, orig, logical as int);
            }
            record_step(
                overlay,
                UndoOp::SetLineState { anchor: orig, replacement: None, deleted: true },
                record,
            );
            Ok(())
        },
        Some(LineRef::Replaced(orig)) => {
            proof {
                lemma_delete_line(m, l, orig, logical as int);
            }
            record_step(
                overlay,
                UndoOp::SetLineState { anchor: orig, replacement: None, deleted: true },
                record,
            );
            Ok(())
        },
    }
}

/// Replaces a span, recording how to take it back; gives the caret behind the
/// new text.
#[verifier::rlimit(60)]
#[verifier::spinoff_prover]
pub(crate) fn replace_range_inner(
    overlay: &mut Overlay,
    doc: &Document,
    l0: u64,
    c0: usize,
    l1: u64,
    c1: usize,
    text: &str,
    record: &mut Vec<UndoOp>,
) -> (r: Result<(u64, usize), Error>)
    requires
        doc.wf(),
        fits(old(overlay)@, doc@.lines()),
        shown(old(overlay)@, doc@.lines()).len() + pieces(text@).len() <= u64::MAX,
    ensures
        ({
            let l = doc@.lines();
            let before = shown(old(overlay)@, l);
            let ok = range_ok(before, l0 as nat, c0 as nat, l1 as nat, c1 as nat);
            &&& fits(final(overlay)@, l)
            &&& same_origin(
                old(overlay)@,
                ops_view(old(record)@),
                final(overlay)@,
                ops_view(final(record)@),
            )
            &&& r is Ok <==> ok
            &&& r matches Ok(caret) ==> {
                &&& shown(final(overlay)@, l) == ranged(
                    before,
                    l0 as nat,
                    c0 as nat,
                    l1 as nat,
                    c1 as nat,
                    text@,
                )
                &&& final(overlay)@ == with_range(
                    old(overlay)@,
                    l,
                    l0 as nat,
                    c0 as nat,
                    l1 as nat,
                    c1 as nat,
                    text@,
                )
                &&& (final(record)@.len() > old(record)@.len()) == (shown(final(overlay)@, l)
                    != before)
                &&& (caret.0 as int, caret.1 as int) == range_caret(
                    before,
                    l0 as nat,
                    c0 as nat,
                    text@,
                )
            }
            &&& r is Err ==> *final(overlay) == *old(overlay) && *final(record) == *old(record)
            &&& r is Err ==> r->Err_0@ == (if before.len() == 0 {
                empty_document()
            } else {
                range_outside(l0 as nat, l1 as nat)
            })
        }),
{
    let ghost l = doc@.lines();
    let ghost m = overlay@;
    let ghost rec = ops_view(record@);
    let ghost before = shown(m, l);
    let total = shown_total(overlay, doc);
    let mut parts = split_pieces(text);
    let n = parts.len();
    let ghost p = pieces(text@);
    assert(texts(parts@) == p);
    assert(parts@.len() == p.len());
    if total == 0 {
        if l0 != 0 || c0 != 0 || l1 != 0 || c1 != 0 {
            return Err(err_empty_document());
        }
        let mut k: usize = 0;
        assert(shown(overlay@, l) =~= p.take(0));
        while k < n
            invariant
                doc.wf(),
                l == doc@.lines(),
                fits(overlay@, l),
                with_inserts(overlay@, l, 0, p, k as int) == with_inserts(m, l, 0, p, 0),
                same_origin(m, rec, overlay@, ops_view(record@)),
                k <= n,
                n == parts@.len(),
                n == p.len(),
                n <= u64::MAX,
                texts(parts@) == p,
                shown(overlay@, l) == p.take(k as int),
                record@.len() >= rec.len() + k,
            decreases n - k,
        {
            let part = parts[k].clone();
            assert(texts(parts@)[k as int] == part@);
            let _done = insert_line_before_inner(overlay, doc, k as u64, part, record);
            assert(p.take(k as int).insert(k as int, p[k as int]) =~= p.take(k + 1));
            k += 1;
        }
        assert(p.take(n as int) =~= p);
        let last = n - 1;
        let col = parts[last].as_str().unicode_len();
        assert(texts(parts@)[last as int] == p.last());
        return Ok((last as u64, col));
    }
    if l0 > l1 || l1 >= total {
        return Err(err_range_outside(l0, l1));
    }
    let first = match shown_text(overlay, doc, l0) {
        Some(t) => t,
        None => {
            return Err(err_range_outside(l0, l1));
        },
    };
    let last = match shown_text(overlay, doc, l1) {
        Some(t) => t,
        None => {
            return Err(err_range_outside(l0, l1));
        },
    };
    let first_len = first.as_str().unicode_len();
    let last_len = last.as_str().unicode_len();
    let a = if c0 <= first_len {
        c0
    } else {
        first_len
    };
    let b = if c1 <= last_len {
        c1
    } else {
        last_len
    };
    let head = first.as_str().substring_char(0, a);
    let tail = last.as_str().substring_char(b, last_len);
    assert(head@ =~= head_of(before[l0 as int], c0 as nat));
    assert(tail@ =~= tail_of(before[l1 as int], c1 as nat));
    let ghost sp = spliced(head@, text@, tail@);
    // The new lines.
    let li = n - 1;
    assert(parts@[0]@ == texts(parts@)[0]);
    assert(parts@[li as int]@ == texts(parts@)[li as int]);
    let piece_len = parts[li].as_str().unicode_len();
    let caret_col = if n == 1 {
        let joined_len = head.to_owned().concat(parts[0].as_str());
        joined_len.as_str().unicode_len()
    } else {
        piece_len
    };
    let new_first = head.to_owned().concat(parts[0].as_str());
    parts.set(0, new_first);
    let new_last = parts[li].clone().concat(tail);
    parts.set(li, new_last);
    assert(texts(parts@) =~= sp) by {
        if n == 1 {
            assert(texts(parts@)[0] =~= head@ + p[0] + tail@);
        } else {
            assert forall|i: int| 0 <= i < n implies #[trigger] texts(parts@)[i] == sp[i] by {
                if i > 0 && i < n - 1 {
                    assert(texts(parts@)[i] == p[i]);
                }
            }
        }
    }
    let ghost goal = ranged(before, l0 as nat, c0 as nat, l1 as nat, c1 as nat, text@);
    assert(goal == before.take(l0 as int) + sp + before.skip(l1 as int + 1));
    if spans_same(overlay, doc, l0, l1, &parts) {
        assert(goal =~= before) by {
            assert forall|i: int| 0 <= i < before.len() implies #[trigger] goal[i] == before[i] by {
                if l0 <= i <= l1 {
                    assert(goal[i] == sp[i - l0]);
                    assert(before[l0 + (i - l0)] == sp[i - l0]);
                }
            }
        }
        return Ok((l0 + (n as u64 - 1), caret_col));
    }
    assert(goal != before) by {
        if goal == before {
            assert(goal.len() == before.len());
            assert forall|i: int| 0 <= i < sp.len() implies #[trigger] sp[i] == before[l0 + i] by {
                assert(goal[l0 + i] == sp[i]);
            }
        }
    }
    // Replace the first line, delete the others, insert the rest.
    let p0 = parts[0].clone();
    assert(p0@ == texts(parts@)[0]);
    let _done = replace_line_inner(overlay, doc, l0, p0, record);
    let ghost m1 = overlay@;
    let ghost base = before.update(l0 as int, sp[0]);
    let ghost changed0 = record@.len() > rec.len();
    let mut j: u64 = l1;
    assert(base =~= base.take(l1 as int + 1) + before.skip(l1 as int + 1));
    while j > l0
        invariant
            doc.wf(),
            l == doc@.lines(),
            fits(overlay@, l),
            without_lines(overlay@, l, l0 as int, j as int) == without_lines(
                m1,
                l,
                l0 as int,
                l1 as int,
            ),
            same_origin(m, rec, overlay@, ops_view(record@)),
            l0 <= j <= l1 < before.len(),
            base.len() == before.len(),
            shown(overlay@, l) == base.take(j as int + 1) + before.skip(l1 as int + 1),
            j == l1 ==> (record@.len() > rec.len()) == changed0,
            j < l1 ==> record@.len() > rec.len(),
        decreases j - l0,
    {
        let ghost now = shown(overlay@, l);
        let _d = delete_line_inner(overlay, doc, j, record);
        assert(now.remove(j as int) =~= base.take(j as int) + before.skip(l1 as int + 1));
        j -= 1;
    }
    let ghost m2 = overlay@;
    let ghost kept = before.take(l0 as int);
    let ghost rest = before.skip(l1 as int + 1);
    assert(base.take(l0 as int + 1) + rest =~= kept + sp.take(1) + rest);
    let mut k: usize = 1;
    while k < n
        invariant
            doc.wf(),
            l == doc@.lines(),
            fits(overlay@, l),
            with_inserts(overlay@, l, l0 as int, sp, k as int) == with_inserts(
                m2,
                l,
                l0 as int,
                sp,
                1,
            ),
            same_origin(m, rec, overlay@, ops_view(record@)),
            1 <= k <= n,
            n == parts@.len(),
            n == sp.len(),
            texts(parts@) == sp,
            kept.len() == l0,
            l0 < before.len(),
            rest.len() < before.len() - l0,
            before.len() + n <= u64::MAX,
            shown(overlay@, l) == kept + sp.take(k as int) + rest,
            k == 1 ==> (record@.len() > rec.len()) == (changed0 || l1 > l0),
            k > 1 ==> record@.len() > rec.len(),
        decreases n - k,
    {
        let part = parts[k].clone();
        assert(texts(parts@)[k as int] == part@);
        let ghost now = shown(overlay@, l);
        let _i = insert_line_before_inner(overlay, doc, l0 + k as u64, part, record);
        assert(now.insert(l0 + k, sp[k as int]) =~= kept + sp.take(k + 1) + rest);
        k += 1;
    }
    assert(sp.take(n as int) =~= sp);
    proof {
        assert(shown(overlay@, l) == goal);
        assert(goal[l0 as int] == sp[0]);
        assert(m2 == without_lines(with_line(m, l, l0 as int, sp[0]), l, l0 as int, l1 as int));
        if l0 == l1 && n == 1 && !changed0 {
            assert(goal =~= before);
        }
    }
    Ok((l0 + (n as u64 - 1), caret_col))
}

/// Whether the lines from `l0` to `l1` are these.
fn spans_same(overlay: &Overlay, doc: &Document, l0: u64, l1: u64, parts: &Vec<String>) -> (b: bool)
    requires
        doc.wf(),
        fits(overlay@, doc@.lines()),
        l0 <= l1 < shown(overlay@, doc@.lines()).len(),
    ensures
        ({
            let lines = shown(overlay@, doc@.lines());
            b == (parts@.len() == l1 - l0 + 1 && forall|i: int|
                0 <= i < parts@.len() ==> #[trigger] texts(parts@)[i] == lines[l0 + i])
        }),
{
    let ghost lines = shown(overlay@, doc@.lines());
    if parts.len() as u64 != l1 - l0 + 1 {
        return false;
    }
    let mut i: usize = 0;
    while i < parts.len()
        invariant
            doc.wf(),
            fits(overlay@, doc@.lines()),
            lines == shown(overlay@, doc@.lines()),
            l0 <= l1 < lines.len(),
            parts@.len() == l1 - l0 + 1,
            i <= parts@.len(),
            forall|j: int| 0 <= j < i ==> #[trigger] texts(parts@)[j] == lines[l0 + j],
        decreases parts.len() - i,
    {
        assert(texts(parts@)[i as int] == parts@[i as int]@);
        match shown_text(overlay, doc, l0 + i as u64) {
            Some(t) => {
                if !same_text(t.as_str(), parts[i].as_str()) {
                    return false;
                }
            },
            None => {
                return false;
            },
        }
        i += 1;
    }
    true
}

// ---- batches -------------------------------------------------------------------

/// A span in machine integers.
pub type RawSpan = (u64, usize, u64, usize);

pub open spec fn span_of(t: RawSpan) -> Span {
    (t.0 as nat, t.1 as nat, t.2 as nat, t.3 as nat)
}

pub open spec fn spans_of(v: Seq<RawSpan>) -> Seq<Span> {
    v.map_values(|t: RawSpan| span_of(t))
}

pub open spec fn order_of(v: Seq<usize>) -> Seq<int> {
    v.map_values(|i: usize| i as int)
}

/// Checks every edit of a batch by itself, and puts its columns inside their
/// lines.
fn clamp_edits(overlay: &Overlay, doc: &Document, edits: &[BatchEdit]) -> (r: Result<
    Vec<RawSpan>,
    Error,
>)
    requires
        doc.wf(),
        fits(overlay@, doc@.lines()),
    ensures
        ({
            let lines = shown(overlay@, doc@.lines());
            let fault = edit_fault_from(lines, batch_view(edits@), 0);
            match r {
                Ok(v) => fault is None && spans_of(v@) == clamped_spans(lines, batch_view(edits@)),
                Err(e) => fault == Some(e@),
            }
        }),
        r matches Ok(v) ==> forall|i: int|
            0 <= i < edits@.len() ==> edit_fault(
                shown(overlay@, doc@.lines()),
                #[trigger] batch_view(edits@)[i],
            ) is None,
{
    let ghost lines = shown(overlay@, doc@.lines());
    let ghost es = batch_view(edits@);
    let total = shown_total(overlay, doc);
    let mut v: Vec<RawSpan> = Vec::new();
    let mut i: usize = 0;
    while i < edits.len()
        invariant
            doc.wf(),
            fits(overlay@, doc@.lines()),
            lines == shown(overlay@, doc@.lines()),
            es == batch_view(edits@),
            total == lines.len(),
            i <= edits@.len(),
            v@.len() == i,
            edit_fault_from(lines, es, 0) == edit_fault_from(lines, es, i as int),
            forall|j: int| 0 <= j < i ==> edit_fault(lines, #[trigger] es[j]) is None,
            forall|j: int| 0 <= j < i ==> span_of(#[trigger] v@[j]) == clamped_span(lines, es[j]),
        decreases edits.len() - i,
    {
        let e = &edits[i];
        assert(es[i as int] == e@);
        if total == 0 {
            if e.l0 != 0 || e.c0 != 0 || e.l1 != 0 || e.c1 != 0 {
                return Err(err_empty_document());
            }
            v.push((0, 0, 0, 0));
        } else {
            if e.l0 > e.l1 || e.l1 >= total {
                return Err(err_range_outside(e.l0, e.l1));
            }
            let (first_len, last_len) = match (
                shown_text(overlay, doc, e.l0),
                shown_text(overlay, doc, e.l1),
            ) {
                (Some(a), Some(b)) => (a.as_str().unicode_len(), b.as_str().unicode_len()),
                _ => {
                    return Err(err_range_outside(e.l0, e.l1));
                },
            };
            let c0 = if e.c0 <= first_len {
                e.c0
            } else {
                first_len
            };
            let c1 = if e.c1 <= last_len {
                e.c1
            } else {
                last_len
            };
            if e.l0 == e.l1 && c0 > c1 {
                return Err(err_reversed(e.l0, e.c0, e.c1));
            }
            v.push((e.l0, c0, e.l1, c1));
        }
        i += 1;
    }
    assert(spans_of(v@) =~= clamped_spans(lines, es));
    Ok(v)
}

fn raw_span_before(a: &RawSpan, b: &RawSpan) -> (r: bool)
    ensures
        r == span_before(span_of(*a), span_of(*b)),
{
    if a.0 != b.0 {
        a.0 < b.0
    } else if a.1 != b.1 {
        a.1 < b.1
    } else if a.2 != b.2 {
        a.2 < b.2
    } else {
        a.3 < b.3
    }
}

/// Orders spans by insertion, so that equal spans keep their order.
fn order_spans(spans: &Vec<RawSpan>) -> (order: Vec<usize>)
    ensures
        order_of(order@) == span_order(spans_of(spans@), spans@.len()),
{
    let ghost sp = spans_of(spans@);
    let mut order: Vec<usize> = Vec::new();
    let mut i: usize = 0;
    assert(order_of(order@) =~= span_order(sp, 0));
    while i < spans.len()
        invariant
            i <= spans@.len(),
            sp == spans_of(spans@),
            order@.len() == i,
            order_of(order@) == span_order(sp, i as nat),
        decreases spans.len() - i,
    {
        let ghost o = order_of(order@);
        proof {
            lemma_order(Seq::empty(), sp, i as nat);
            assert forall|k: int| 0 <= k < order@.len() implies #[trigger] order@[k]
                < spans@.len() by {
                assert(o[k] == order@[k]);
            }
        }
        let mut j: usize = 0;
        while j < order.len() && !raw_span_before(&spans[i], &spans[order[j]])
            invariant
                i < spans@.len(),
                sp == spans_of(spans@),
                order@.len() == i,
                o == order_of(order@),
                forall|k: int| 0 <= k < i ==> 0 <= #[trigger] o[k] < i,
                j <= order@.len(),
                slot(o, sp, i as int, 0) == slot(o, sp, i as int, j as int),
                forall|k: int| 0 <= k < order@.len() ==> #[trigger] order@[k] < spans@.len(),
            decreases order.len() - j,
        {
            assert(o[j as int] == order@[j as int]);
            j += 1;
        }
        proof {
            if j < order@.len() {
                assert(o[j as int] == order@[j as int]);
            }
        }
        order.insert(j, i);
        assert(order_of(order@) =~= o.insert(j as int, i as int));
        i += 1;
    }
    order
}

/// Looks for two spans that overlap.
fn find_overlap(spans: &Vec<RawSpan>, order: &Vec<usize>) -> (r: Option<usize>)
    requires
        forall|k: int| 0 <= k < order@.len() ==> #[trigger] order@[k] < spans@.len(),
    ensures
        match r {
            Some(k) => overlap_from(spans_of(spans@), order_of(order@), 0) == Some(k as int) && k
                < order@.len(),
            None => overlap_from(spans_of(spans@), order_of(order@), 0) is None,
        },
{
    let ghost sp = spans_of(spans@);
    let ghost o = order_of(order@);
    let n = order.len();
    let mut k: usize = 0;
    while k < n && k + 1 < n
        invariant
            sp == spans_of(spans@),
            o == order_of(order@),
            n == order@.len(),
            k <= n,
            forall|j: int| 0 <= j < order@.len() ==> #[trigger] order@[j] < spans@.len(),
            overlap_from(sp, o, 0) == overlap_from(sp, o, k as int),
        decreases order@.len() - k,
    {
        let a = spans[order[k]];
        let b = spans[order[k + 1]];
        assert(sp[o[k as int]] == span_of(a));
        assert(sp[o[k + 1]] == span_of(b));
        if b.0 < a.2 || (b.0 == a.2 && b.1 < a.3) {
            return Some(k + 1);
        }
        k += 1;
    }
    None
}

/// Applies the edits of a batch, the last one first, as one record. The lines
/// before the one that is returned stay as they are.
pub(crate) fn apply_batch(
    overlay: &mut Overlay,
    doc: &Document,
    edits: &[BatchEdit],
    spans: &Vec<RawSpan>,
    order: &Vec<usize>,
    record: &mut Vec<UndoOp>,
) -> (lo: u64)
    requires
        doc.wf(),
        fits(old(overlay)@, doc@.lines()),
        old(record)@.len() == 0,
        order@.len() == edits@.len(),
        spans@.len() == edits@.len(),
        forall|k: int| 0 <= k < order@.len() ==> #[trigger] order@[k] < edits@.len(),
        chained(spans_of(spans@), order_of(order@)),
        forall|j: int|
            0 <= j < order@.len() ==> {
                let s = spans_of(spans@)[#[trigger] order_of(order@)[j]];
                if shown(old(overlay)@, doc@.lines()).len() == 0 {
                    s == (0nat, 0nat, 0nat, 0nat)
                } else {
                    s.0 <= s.2 < shown(old(overlay)@, doc@.lines()).len()
                }
            },
        shown(old(overlay)@, doc@.lines()).len() + piece_total(
            batch_view(edits@),
            order_of(order@),
        ) <= u64::MAX,
    ensures
        ({
            let l = doc@.lines();
            let before = shown(old(overlay)@, l);
            let b = batched(
                before,
                batch_view(edits@),
                spans_of(spans@),
                order_of(order@),
                0,
            );
            &&& fits(final(overlay)@, l)
            &&& same_origin(
                old(overlay)@,
                Seq::empty(),
                final(overlay)@,
                ops_view(final(record)@),
            )
            &&& shown(final(overlay)@, l) == b
            &&& final(overlay)@ == with_spans(
                old(overlay)@,
                l,
                batch_view(edits@),
                spans_of(spans@),
                order_of(order@),
                0,
            )
            &&& final(record)@.len() == 0 ==> final(overlay)@ == old(overlay)@
            &&& lo <= before.len() && lo <= b.len()
            &&& b.take(lo as int) == before.take(lo as int)
        }),
{
    let ghost l = doc@.lines();
    let ghost m = overlay@;
    let ghost lines = shown(m, l);
    let ghost es = batch_view(edits@);
    let ghost sp = spans_of(spans@);
    let ghost o = order_of(order@);
    let n = order.len();
    let mut k: usize = n;
    let mut lo: u64 = shown_total(overlay, doc);
    assert(ops_view(record@) =~= Seq::empty());
    assert(o.take(n as int) =~= o);
    while k > 0
        invariant
            doc.wf(),
            l == doc@.lines(),
            lines == shown(m, l),
            es == batch_view(edits@),
            sp == spans_of(spans@),
            o == order_of(order@),
            n == order@.len(),
            order@.len() == edits@.len(),
            spans@.len() == edits@.len(),
            forall|k: int| 0 <= k < order@.len() ==> #[trigger] order@[k] < edits@.len(),
            chained(sp, o),
            forall|j: int|
                0 <= j < o.len() ==> {
                    let s = sp[#[trigger] o[j]];
                    if lines.len() == 0 {
                        s == (0nat, 0nat, 0nat, 0nat)
                    } else {
                        s.0 <= s.2 < lines.len()
                    }
                },
            k <= n,
            fits(overlay@, l),
            same_origin(m, Seq::empty(), overlay@, ops_view(record@)),
            shown(overlay@, l) == batched(lines, es, sp, o, k as int),
            overlay@ == with_spans(m, l, es, sp, o, k as int),
            record@.len() == 0 ==> overlay@ == m,
            lo <= lines.len() && lo <= shown(overlay@, l).len(),
            shown(overlay@, l).take(lo as int) == lines.take(lo as int),
            shown(overlay@, l).len() + piece_total(es, o.take(k as int)) <= u64::MAX,
        decreases k,
    {
        let i = order[k - 1];
        let s = spans[i];
        proof {
            assert(o[k - 1] == i);
            assert(sp[i as int] == span_of(s));
            assert(es[i as int] == edits@[i as int]@);
            lemma_batched(lines, es, sp, o, k as int);
            assert(o.take(k as int).drop_last() =~= o.take(k - 1));
            lemma_ranged_len(
                shown(overlay@, l),
                s.0 as nat,
                s.1 as nat,
                s.2 as nat,
                s.3 as nat,
                edits@[i as int].text@,
            );
        }
        let had = record.len();
        let ghost was = shown(overlay@, l);
        match replace_range_inner(
            overlay,
            doc,
            s.0,
            s.1,
            s.2,
            s.3,
            edits[i].text.as_str(),
            record,
        ) {
            Ok(_caret) => {},
            Err(_e) => {
                assert(false);
            },
        }
        if record.len() > had && s.0 < lo {
            lo = s.0;
        }
        proof {
            let now = shown(overlay@, l);
            if now != was {
                if was.len() == 0 {
                    assert(lo == 0);
                    assert(now.take(0) =~= lines.take(0));
                } else {
                    assert(now.take(s.0 as int) =~= was.take(s.0 as int));
                    assert(now.take(lo as int) =~= was.take(s.0 as int).take(lo as int));
                    assert(was.take(lo as int) =~= lines.take(lo as int)) by {
                        assert(was.take(lo as int) =~= was.take(lo as int));
                    }
                }
            }
        }
        k -= 1;
    }
    lo
}

/// Whether two overlays show the same lines, where they do so before `lo`.
pub(crate) fn shows_same(a: &Overlay, b: &Overlay, doc: &Document, lo: u64) -> (same: bool)
    requires
        doc.wf(),
        fits(a@, doc@.lines()),
        fits(b@, doc@.lines()),
        lo <= shown(a@, doc@.lines()).len(),
        lo <= shown(b@, doc@.lines()).len(),
        shown(a@, doc@.lines()).take(lo as int) == shown(b@, doc@.lines()).take(lo as int),
    ensures
        same == (shown(a@, doc@.lines()) == shown(b@, doc@.lines())),
{
    let ghost x = shown(a@, doc@.lines());
    let ghost y = shown(b@, doc@.lines());
    let n = shown_total(a, doc);
    if n != shown_total(b, doc) {
        return false;
    }
    proof {
        assert forall|j: int| 0 <= j < lo implies #[trigger] x[j] == y[j] by {
            assert(x.take(lo as int)[j] == y.take(lo as int)[j]);
        }
    }
    let mut i: u64 = lo;
    while i < n
        invariant
            doc.wf(),
            fits(a@, doc@.lines()),
            fits(b@, doc@.lines()),
            x == shown(a@, doc@.lines()),
            y == shown(b@, doc@.lines()),
            n == x.len(),
            n == y.len(),
            i <= n,
            forall|j: int| 0 <= j < i ==> #[trigger] x[j] == y[j],
        decreases n - i,
    {
        match (shown_text(a, doc, i), shown_text(b, doc, i)) {
            (Some(s), Some(t)) => {
                if !same_text(s.as_str(), t.as_str()) {
                    return false;
                }
            },
            _ => {
                return false;
            },
        }
        i += 1;
    }
    assert(x =~= y);
    true
}

/// Where every edit of a batch left its caret.
pub(crate) fn batch_carets(edits: &[BatchEdit], spans: &Vec<RawSpan>, order: &Vec<usize>, total: u64) -> (r: Vec<
    (u64, usize),
>)
    requires
        order@.len() == edits@.len(),
        spans@.len() == edits@.len(),
        forall|k: int| 0 <= k < order@.len() ==> #[trigger] order@[k] < edits@.len(),
        order_of(order@).no_duplicates(),
        chained(spans_of(spans@), order_of(order@)),
        forall|k: int|
            0 <= k < spans@.len() ==> (#[trigger] spans@[k]).0 <= total && spans@[k].2 <= total,
        total + piece_total(batch_view(edits@), order_of(order@)) <= u64::MAX,
    ensures
        r@.len() == edits@.len(),
        forall|k: int|
            0 <= k < order@.len() ==> {
                let e = batch_end(
                    batch_view(edits@),
                    spans_of(spans@),
                    order_of(order@),
                    k,
                );
                &&& r@[order@[k] as int].0 == e.0
                &&& r@[#[trigger] order@[k] as int].1 == least(e.1, usize::MAX as int)
            },
{
    let ghost es = batch_view(edits@);
    let ghost sp = spans_of(spans@);
    let ghost o = order_of(order@);
    let n = edits.len();
    let mut r: Vec<(u64, usize)> = Vec::new();
    while r.len() < n
        invariant
            r@.len() <= n,
        decreases n - r@.len(),
    {
        r.push((0, 0));
    }
    let mut added: u64 = 0;
    let mut removed: u64 = 0;
    let mut prev_line: u64 = 0;
    let mut prev_col: usize = 0;
    let mut end_col: usize = 0;
    let mut k: usize = 0;
    while k < n
        invariant
            es == batch_view(edits@),
            sp == spans_of(spans@),
            o == order_of(order@),
            n == edits@.len(),
            order@.len() == edits@.len(),
            spans@.len() == edits@.len(),
            forall|k: int| 0 <= k < order@.len() ==> #[trigger] order@[k] < edits@.len(),
            o.no_duplicates(),
            chained(sp, o),
            forall|k: int|
                0 <= k < spans@.len() ==> (#[trigger] spans@[k]).0 <= total && spans@[k].2 <= total,
            total + piece_total(es, o) <= u64::MAX,
            k <= n,
            r@.len() == n,
            added == lines_added(es, o, k as int),
            removed == lines_removed(sp, o, k as int),
            k > 0 ==> {
                &&& prev_line == sp[o[k - 1]].2
                &&& prev_col == sp[o[k - 1]].3
                &&& end_col == least(batch_end(es, sp, o, k - 1).1, usize::MAX as int)
            },
            forall|j: int|
                0 <= j < k ==> {
                    let e = batch_end(es, sp, o, j);
                    &&& r@[order@[j] as int].0 == e.0
                    &&& r@[#[trigger] order@[j] as int].1 == least(e.1, usize::MAX as int)
                },
            forall|j: int| 0 <= j < k ==> batch_end(es, sp, o, j).1 >= 0,
        decreases n - k,
    {
        let i = order[k];
        let s = spans[i];
        let parts = split_pieces(edits[i].text.as_str());
        let np = parts.len() as u64;
        proof {
            assert(o[k as int] == i);
            assert(sp[i as int] == span_of(s));
            assert(es[i as int] == edits@[i as int]@);
            assert(texts(parts@).len() == parts@.len());
            lemma_removed(sp, o, k as int);
            lemma_removed(sp, o, k + 1);
            lemma_added(es, o, k as int);
            lemma_added(es, o, k + 1);
            if k > 0 {
                assert(!pos_before(
                    (sp[o[k - 1 + 1]].0, sp[o[k - 1 + 1]].1),
                    (sp[o[k - 1]].2, sp[o[k - 1]].3),
                ));
            }
        }
        let start_line: u64 = (s.0 - removed) + added;
        let start_col: usize = if k > 0 && prev_line == s.0 {
            end_col.saturating_add(s.1 - prev_col)
        } else {
            s.1
        };
        assert(start_col == least(batch_start(es, sp, o, k as int).1, usize::MAX as int));
        let last = parts.len() - 1;
        let piece_len = parts[last].as_str().unicode_len();
        assert(texts(parts@)[last as int] == parts@[last as int]@);
        let col: usize = if parts.len() == 1 {
            start_col.saturating_add(piece_len)
        } else {
            piece_len
        };
        let line: u64 = start_line + (np - 1);
        let ghost r0 = r@;
        r.set(i, (line, col));
        assert forall|j: int| 0 <= j < k + 1 implies {
            let e = batch_end(es, sp, o, j);
            &&& r@[order@[j] as int].0 == e.0
            &&& r@[#[trigger] order@[j] as int].1 == least(e.1, usize::MAX as int)
        } by {
            if j < k {
                assert(o[j] != o[k as int]);
                assert(r@[order@[j] as int] == r0[order@[j] as int]);
            }
        }
        added = added + (np - 1);
        proof {
            assert(!pos_before((sp[o[k as int]].2, sp[o[k as int]].3), (sp[o[k as int]].0, sp[o[k as int]].1)));
        }
        removed = removed + (s.2 - s.0);
        prev_line = s.2;
        prev_col = s.3;
        end_col = col;
        k += 1;
    }
    r
}

/// Checks a batch, and finds the spans of its edits and their order.
pub(crate) fn plan_batch(overlay: &Overlay, doc: &Document, edits: &[BatchEdit]) -> (r: Result<
    (Vec<RawSpan>, Vec<usize>),
    Error,
>)
    requires
        doc.wf(),
        fits(overlay@, doc@.lines()),
        edits@.len() > 0,
    ensures
        ({
            let lines = shown(overlay@, doc@.lines());
            let es = batch_view(edits@);
            let fault = batch_fault(lines, es);
            match r {
                Ok((spans, order)) => {
                    let sp = spans_of(spans@);
                    let o = order_of(order@);
                    &&& fault is None
                    &&& sp == clamped_spans(lines, es)
                    &&& o == span_order(sp, es.len())
                    &&& spans@.len() == edits@.len()
                    &&& order@.len() == edits@.len()
                    &&& forall|k: int| 0 <= k < order@.len() ==> #[trigger] order@[k] < edits@.len()
                    &&& o.no_duplicates()
                    &&& chained(sp, o)
                    &&& forall|j: int|
                        0 <= j < order@.len() ==> {
                            let s = sp[#[trigger] o[j]];
                            if lines.len() == 0 {
                                s == (0nat, 0nat, 0nat, 0nat)
                            } else {
                                s.0 <= s.2 < lines.len()
                            }
                        }
                    &&& forall|k: int|
                        0 <= k < spans@.len() ==> (#[trigger] spans@[k]).0 <= lines.len()
                            && spans@[k].2 <= lines.len()
                    &&& piece_total(es, o) == piece_total(es, indexes(es.len()))
                },
                Err(e) => fault == Some(e@),
            }
        }),
{
    let ghost lines = shown(overlay@, doc@.lines());
    let ghost es = batch_view(edits@);
    let spans = match clamp_edits(overlay, doc, edits) {
        Ok(v) => v,
        Err(e) => {
            return Err(e);
        },
    };
    let ghost sp = spans_of(spans@);
    assert(sp.len() == es.len());
    let order = order_spans(&spans);
    let ghost o = order_of(order@);
    proof {
        lemma_order(es, sp, es.len());
        assert(o == span_order(sp, es.len()));
        assert forall|k: int| 0 <= k < order@.len() implies #[trigger] order@[k]
            < edits@.len() by {
            assert(o[k] == order@[k]);
        }
    }
    match find_overlap(&spans, &order) {
        Some(k) => {
            let line = spans[order[k]].0;
            assert(o[k as int] == order@[k as int]);
            assert(sp[o[k as int]] == span_of(spans@[order@[k as int] as int]));
            return Err(err_overlap(line));
        },
        None => {},
    }
    proof {
        lemma_no_overlap(sp, o, 0);
        assert forall|k: int| 0 <= k < edits@.len() implies {
            let s = #[trigger] sp[k];
            &&& if lines.len() == 0 {
                s == (0nat, 0nat, 0nat, 0nat)
            } else {
                s.0 <= s.2 < lines.len()
            }
            &&& !pos_before((s.2, s.3), (s.0, s.1))
        } by {
            assert(edit_fault(lines, es[k]) is None);
            assert(sp[k] == clamped_span(lines, es[k]));
        }
        assert(chained(sp, o));
        assert forall|k: int| 0 <= k < spans@.len() implies (#[trigger] spans@[k]).0 <= lines.len()
            && spans@[k].2 <= lines.len() by {
            assert(sp[k] == span_of(spans@[k]));
        }
    }
    Ok((spans, order))
}

/// Replaces the columns from `left` to `right` on the lines from `top` to
/// `bottom`, row by row.
pub(crate) fn apply_rect(
    overlay: &mut Overlay,
    doc: &Document,
    top: u64,
    bottom: u64,
    left: usize,
    right: usize,
    text: &str,
    record: &mut Vec<UndoOp>,
)
    requires
        doc.wf(),
        fits(old(overlay)@, doc@.lines()),
        old(record)@.len() == 0,
        top <= bottom < shown(old(overlay)@, doc@.lines()).len(),
    ensures
        ({
            let l = doc@.lines();
            let before = shown(old(overlay)@, l);
            let now = rectangled(
                before,
                top as nat,
                bottom as nat,
                left as nat,
                right as nat,
                text@,
            );
            &&& fits(final(overlay)@, l)
            &&& same_origin(
                old(overlay)@,
                Seq::empty(),
                final(overlay)@,
                ops_view(final(record)@),
            )
            &&& shown(final(overlay)@, l) == now
            &&& final(overlay)@ == with_rows(old(overlay)@, l, now, top as int, bottom as int)
            &&& (final(record)@.len() > 0) == (now != before)
        }),
{
    let ghost l = doc@.lines();
    let ghost m = overlay@;
    let ghost before = shown(m, l);
    let parts = split_pieces(text);
    let ghost goal = rectangled(
        before,
        top as nat,
        bottom as nat,
        left as nat,
        right as nat,
        text@,
    );
    let mut line: u64 = top;
    assert(ops_view(record@) =~= Seq::empty());
    while line <= bottom
        invariant
            doc.wf(),
            l == doc@.lines(),
            before == shown(m, l),
            top <= line <= bottom + 1,
            bottom < before.len(),
            before.len() <= u64::MAX,
            texts(parts@) == pieces(text@),
            parts@.len() >= 1,
            goal == rectangled(
                before,
                top as nat,
                bottom as nat,
                left as nat,
                right as nat,
                text@,
            ),
            fits(overlay@, l),
            with_rows(overlay@, l, goal, line as int, bottom as int) == with_rows(
                m,
                l,
                goal,
                top as int,
                bottom as int,
            ),
            same_origin(m, Seq::empty(), overlay@, ops_view(record@)),
            shown(overlay@, l).len() == before.len(),
            forall|i: int|
                0 <= i < before.len() ==> #[trigger] shown(overlay@, l)[i] == if i < line {
                    goal[i]
                } else {
                    before[i]
                },
            (record@.len() > 0) == (shown(overlay@, l) != before),
        decreases bottom + 1 - line,
    {
        let row = line - top;
        let empty = "";
        proof {
            reveal_strlit("");
        }
        let piece: &str = if parts.len() == 1 {
            parts[0].as_str()
        } else if row < parts.len() as u64 {
            parts[row as usize].as_str()
        } else {
            empty
        };
        assert(piece@ == rect_piece(text@, row as int)) by {
            if parts@.len() == 1 {
                assert(texts(parts@)[0] == parts@[0]@);
            } else if row < parts@.len() {
                assert(texts(parts@)[row as int] == parts@[row as int]@);
            } else {
                assert(piece@ =~= Seq::empty());
            }
        }
        if let Some(current) = shown_text(overlay, doc, line) {
            let len = current.as_str().unicode_len();
            let start = if left <= len {
                left
            } else {
                len
            };
            let end = if right <= len {
                right
            } else {
                len
            };
            let head = current.as_str().substring_char(0, start);
            let tail = current.as_str().substring_char(end, len);
            let fresh = head.to_owned().concat(piece).concat(tail);
            let ghost cur = shown(overlay@, l);
            assert(fresh@ =~= goal[line as int]);
            let r = replace_line_inner(overlay, doc, line, fresh, record);
            assert(r is Ok);
            let ghost now = shown(overlay@, l);
            assert(now == cur.update(line as int, goal[line as int]));
            proof {
                if cur != before {
                    assert(exists|i: int| 0 <= i < before.len() && cur[i] != before[i]) by {
                        if forall|i: int| 0 <= i < before.len() ==> cur[i] == before[i] {
                            assert(cur =~= before);
                        }
                    }
                    let i = choose|i: int| 0 <= i < before.len() && cur[i] != before[i];
                    assert(now[i] != before[i]);
                } else {
                    if goal[line as int] == before[line as int] {
                        assert(now =~= before);
                    } else {
                        assert(now[line as int] != before[line as int]);
                    }
                }
            }
        }
        line = line + 1;
    }
    assert(shown(overlay@, l) =~= goal);
}

} // verus!
