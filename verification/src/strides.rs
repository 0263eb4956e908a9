//! Where characters start in Shift_JIS and EUC-JP, and which matches are whole
//! words there.

use vstd::prelude::*;

use crate::encoding::Encoding;
use crate::finds::word_stands;
use crate::search::Source;
use crate::walk::{boundary_at_or_after, char_before, step};

verus! {

/// In Shift_JIS and EUC-JP a character has one byte, but for a lead byte with
/// the trail bytes that belong to it. No ASCII byte leads.
pub proof fn characters_have_their_bytes(raw: Seq<u8>, i: int)
    requires
        0 <= i < raw.len(),
    ensures
        ({
            let b = raw[i];
            let one = i + 1 < raw.len();
            let sjis = one && (0x81 <= b <= 0x9F || 0xE0 <= b <= 0xFC) && (0x40 <= raw[i + 1] <= 0x7E
                || 0x80 <= raw[i + 1] <= 0xFC);
            let kana = one && b == 0x8E && 0xA1 <= raw[i + 1] <= 0xDF;
            let three = i + 2 < raw.len() && b == 0x8F && 0xA1 <= raw[i + 1] <= 0xFE && 0xA1
                <= raw[i + 2] <= 0xFE;
            let two = one && 0xA1 <= b <= 0xFE && 0xA1 <= raw[i + 1] <= 0xFE;
            &&& step(Encoding::ShiftJis, raw, i) == if sjis { 2nat } else { 1nat }
            &&& step(Encoding::EucJp, raw, i) == if three {
                3nat
            } else if kana || two {
                2nat
            } else {
                1nat
            }
            &&& forall|enc: Encoding| b < 0x80 ==> #[trigger] step(enc, raw, i) == 1
        }),
{
}

/// A character starts at a place, walking from the start of a line.
pub open spec fn starts(enc: Encoding, raw: Seq<u8>, from: int, p: int) -> bool {
    boundary_at_or_after(enc, raw, from, p) == p
}

pub proof fn lemma_walk(enc: Encoding, raw: Seq<u8>, from: int, at: int, p: int)
    requires
        0 <= from <= at <= raw.len(),
        at <= p,
        starts(enc, raw, from, at),
    ensures
        boundary_at_or_after(enc, raw, from, p) == boundary_at_or_after(enc, raw, at, p),
    decreases raw.len() - from,
{
    if from < at {
        let next = from + step(enc, raw, from);
        assert(boundary_at_or_after(enc, raw, from, at) == boundary_at_or_after(enc, raw, next, at));
        lemma_not_past(enc, raw, next, at);
        lemma_walk(enc, raw, next, at, p);
    }
}

proof fn lemma_not_past(enc: Encoding, raw: Seq<u8>, from: int, p: int)
    requires
        0 <= from,
    ensures
        from <= boundary_at_or_after(enc, raw, from, p),
    decreases raw.len() - from,
{
    if from < p && from < raw.len() {
        lemma_not_past(enc, raw, from + step(enc, raw, from), p);
    }
}

/// Characters come one after the other: one starts where the line starts, the
/// next where the one before it ends, and none inside another.
pub proof fn characters_come_one_after_the_other(
    enc: Encoding,
    raw: Seq<u8>,
    from: int,
    p: int,
    q: int,
)
    requires
        0 <= from <= p < raw.len(),
        starts(enc, raw, from, p),
        p < q,
    ensures
        starts(enc, raw, from, from),
        q == p + step(enc, raw, p) ==> starts(enc, raw, from, q),
        q < p + step(enc, raw, p) ==> !starts(enc, raw, from, q),
{
    lemma_walk(enc, raw, from, p, q);
    let next = p + step(enc, raw, p);
    assert(boundary_at_or_after(enc, raw, p, q) == boundary_at_or_after(enc, raw, next, q));
    lemma_not_past(enc, raw, next, q);
}

pub proof fn lemma_char_before(
    enc: Encoding,
    raw: Seq<u8>,
    from: int,
    target: int,
    prev: Option<int>,
) -> (q: int)
    requires
        0 <= from < target <= raw.len(),
        starts(enc, raw, from, target),
    ensures
        char_before(enc, raw, from, target, prev) == Some(q),
        from <= q < target,
        starts(enc, raw, from, q),
        q + step(enc, raw, q) == target,
    decreases raw.len() - from,
{
    let next = from + step(enc, raw, from);
    lemma_not_past(enc, raw, next, target);
    if next == target {
        assert(char_before(enc, raw, next, target, Some(from)) == Some(from));
        from
    } else {
        let q = lemma_char_before(enc, raw, next, target, Some(from));
        assert(boundary_at_or_after(enc, raw, from, q) == boundary_at_or_after(enc, raw, next, q));
        q
    }
}

/// In Shift_JIS and EUC-JP a match is a whole word if no letter, digit or
/// underscore stands right before it or right after it on its line. Such a byte
/// counts only where it is a character by itself, not where it is the end of
/// one.
pub proof fn whole_words_among_characters(src: Source, abs: int)
    requires
        src.encoding == Encoding::ShiftJis || src.encoding == Encoding::EucJp,
        src.line_of(abs) < src.count(),
        0 <= src.text_span(src.line_of(abs)).0 <= abs <= src.text_span(src.line_of(abs)).1
            <= src.buf.len(),
    ensures
        ({
            let (ls, end) = src.text_span(src.line_of(abs));
            let here = starts(src.encoding, src.buf, ls, abs);
            &&& (src.neighbor(abs, true) matches Some(b) && crate::patterns::word_byte(b)) <==> here
                && abs < end && word_stands(src.buf, abs)
            &&& (src.neighbor(abs, false) matches Some(b) && crate::patterns::word_byte(b)) <==> here
                && ls < abs && starts(src.encoding, src.buf, ls, abs - 1) && word_stands(
                src.buf,
                abs - 1,
            )
        }),
{
    let (ls, end) = src.text_span(src.line_of(abs));
    let (enc, buf) = (src.encoding, src.buf);
    if starts(enc, buf, ls, abs) && ls < abs {
        let q = lemma_char_before(enc, buf, ls, abs, None);
        characters_have_their_bytes(buf, q);
        if q < abs - 1 {
            characters_come_one_after_the_other(enc, buf, ls, q, abs - 1);
        }
    }
}

} // verus!
