//! Where texts are found and replaced in every encoding, and what stands in
//! the place of what was there.

use vstd::prelude::*;
use vstd::utf8::*;

use crate::bytes::occurs_at;
use crate::document::DocView;
use crate::encoding::{decoded, encoded, text_units, units_bytes, utf16_round_trip, Encoding};
use crate::error::ErrorView;
use crate::fields::{csv_fields, field_at, field_text, text_key, FieldSpec};
use crate::finds::{
    word_char_stands, word_stands, word_unit_stands, words_are_letters_digits_and_underscores,
};
use crate::grep::preview;
use crate::lines::{
    lemma_count, lemma_feeds, lemma_lf, lemma_start, lf_from, newlines, unit_is, Newline,
};
use crate::patterns::{
    byte_matches, char_index, escaped, lemma_char_index, planned, regex_replaced, text_matches,
    word_char, PlanView,
};
use crate::reading::{lines_are_texts_and_terminators, texts_are_written_unit_by_unit};
use crate::records::occurrences;
use crate::save::{converted_image, ends_terminated, first_unwritable, lines_image};
use crate::search::{
    all_hits, decoded_span, lemma_next_at, literal_hits, literal_hits_are_matches, next_at,
    stride_at, stride_of, Source,
};
use crate::strides::{
    characters_come_one_after_the_other, characters_have_their_bytes, lemma_char_before, lemma_walk,
    starts, whole_words_among_characters,
};
use crate::transform::{
    document_out, kept_document, line_accepts, line_matches, line_out, literal_in_line,
    raw_replaced, replaced_document, replaces_at, span_counts, text_span_counts, GrepLinesOptions,
    LineOut, ReplaceOptions, RuleView,
};
use crate::walk::{after_chars, jis_column, legacy, step};

verus! {

// ---- replacing ---------------------------------------------------------------

/// A needle stands at a place of a line and counts there: in UTF-16 only where
/// a unit starts, in Shift_JIS and EUC-JP only where a character starts.
pub open spec fn counts_at(enc: Encoding, raw: Seq<u8>, needle: Seq<u8>, q: int) -> bool {
    &&& 0 <= q
    &&& q + needle.len() <= raw.len()
    &&& raw.subrange(q, q + needle.len()) == needle
    &&& enc == Encoding::Utf16Le || enc == Encoding::Utf16Be ==> q % 2 == 0
    &&& enc == Encoding::ShiftJis || enc == Encoding::EucJp ==> starts(enc, raw, 0, q)
}

/// A line from `pos` on, with the `n` bytes at each place replaced.
pub open spec fn put_at(raw: Seq<u8>, at: Seq<int>, n: int, replacement: Seq<u8>, pos: int) -> Seq<
    u8,
>
    decreases at.len(),
{
    if at.len() == 0 {
        raw.skip(pos)
    } else {
        raw.subrange(pos, at[0]) + replacement + put_at(
            raw,
            at.drop_first(),
            n,
            replacement,
            at[0] + n,
        )
    }
}

/// The places of a line from `pos` on at which a needle is replaced: it counts
/// at each, they come in order and apart, and it counts at no other place but
/// inside one of them.
#[verifier::opaque]
pub open spec fn places_of(
    enc: Encoding,
    raw: Seq<u8>,
    needle: Seq<u8>,
    pos: int,
    at: Seq<int>,
) -> bool {
    &&& forall|i: int|
        0 <= i < at.len() ==> pos <= #[trigger] at[i] && counts_at(enc, raw, needle, at[i])
    &&& forall|i: int, j: int|
        0 <= i < j < at.len() ==> #[trigger] at[i] + needle.len() <= #[trigger] at[j]
    &&& forall|q: int|
        pos <= q && #[trigger] counts_at(enc, raw, needle, q) ==> within_one(at, needle.len() as int, q)
}

/// A place is one of those of a needle of `n` bytes, or inside one.
pub open spec fn within_one(at: Seq<int>, n: int, q: int) -> bool {
    exists|i: int| 0 <= i < at.len() && #[trigger] at[i] <= q < at[i] + n
}

/// A place before the others.
proof fn lemma_one_more(
    enc: Encoding,
    raw: Seq<u8>,
    needle: Seq<u8>,
    pos: int,
    p: int,
    tail: Seq<int>,
)
    requires
        needle.len() > 0,
        0 <= pos <= p,
        counts_at(enc, raw, needle, p),
        forall|q: int| pos <= q < p ==> !#[trigger] counts_at(enc, raw, needle, q),
        places_of(enc, raw, needle, p + needle.len(), tail),
    ensures
        places_of(enc, raw, needle, pos, seq![p] + tail),
{
    reveal(places_of);
    let n = needle.len() as int;
    let at = seq![p] + tail;
    assert forall|i: int| 0 <= i < at.len() implies pos <= #[trigger] at[i] && counts_at(
        enc,
        raw,
        needle,
        at[i],
    ) by {
        if i > 0 {
            assert(at[i] == tail[i - 1]);
        }
    }
    assert forall|i: int, j: int| 0 <= i < j < at.len() implies #[trigger] at[i] + n
        <= #[trigger] at[j] by {
        assert(at[j] == tail[j - 1]);
        if i > 0 {
            assert(at[i] == tail[i - 1]);
        }
    }
    assert forall|q: int| pos <= q && #[trigger] counts_at(enc, raw, needle, q) implies within_one(
        at,
        n,
        q,
    ) by {
        if q >= p + n {
            assert(within_one(tail, n, q));
            let i = choose|i: int| 0 <= i < tail.len() && #[trigger] tail[i] <= q < tail[i] + n;
            assert(at[i + 1] <= q < at[i + 1] + n);
        } else {
            assert(at[0] <= q < at[0] + n);
        }
    }
}

/// Places before which nothing counts.
proof fn lemma_none_before(
    enc: Encoding,
    raw: Seq<u8>,
    needle: Seq<u8>,
    pos: int,
    next: int,
    at: Seq<int>,
)
    requires
        0 <= pos <= next,
        forall|q: int| pos <= q < next ==> !#[trigger] counts_at(enc, raw, needle, q),
        places_of(enc, raw, needle, next, at),
    ensures
        places_of(enc, raw, needle, pos, at),
        at.len() > 0 ==> next <= at[0] <= raw.len(),
{
    reveal(places_of);
    if at.len() > 0 {
        assert(counts_at(enc, raw, needle, at[0]));
    }
}

proof fn lemma_replaced_here(
    enc: Encoding,
    raw: Seq<u8>,
    needle: Seq<u8>,
    replacement: Seq<u8>,
    pos: int,
    p: int,
    tail: Seq<int>,
)
    requires
        needle.len() > 0,
        0 <= pos <= raw.len(),
        next_at(raw, needle, pos) == Some(p),
        replaces_at(enc, raw, p),
        raw_replaced(enc, raw, needle, replacement, p + needle.len()) == (
            put_at(raw, tail, needle.len() as int, replacement, p + needle.len()),
            tail.len(),
        ),
    ensures
        raw_replaced(enc, raw, needle, replacement, pos) == (
            put_at(raw, seq![p] + tail, needle.len() as int, replacement, pos),
            (seq![p] + tail).len(),
        ),
{
    let at = seq![p] + tail;
    assert(at.drop_first() =~= tail);
    assert(at[0] == p);
    assert(put_at(raw, at, needle.len() as int, replacement, pos) == raw.subrange(pos, p)
        + replacement + put_at(raw, tail, needle.len() as int, replacement, p + needle.len()));
    lemma_next_at(raw, needle, pos);
    assert(p + needle.len() <= raw.len());
    let r = raw_replaced(enc, raw, needle, replacement, pos);
    let rest = raw_replaced(enc, raw, needle, replacement, p + needle.len());
    assert(r == (raw.subrange(pos, p) + replacement + rest.0, rest.1 + 1));
    assert(at.len() == tail.len() + 1);
}

proof fn lemma_replaced_later(
    enc: Encoding,
    raw: Seq<u8>,
    needle: Seq<u8>,
    replacement: Seq<u8>,
    pos: int,
    p: int,
    tail: Seq<int>,
)
    requires
        needle.len() > 0,
        0 <= pos <= p < raw.len(),
        next_at(raw, needle, pos) == Some(p),
        !replaces_at(enc, raw, p),
        tail.len() > 0 ==> p < tail[0] <= raw.len(),
        raw_replaced(enc, raw, needle, replacement, p + 1) == (
            put_at(raw, tail, needle.len() as int, replacement, p + 1),
            tail.len(),
        ),
    ensures
        raw_replaced(enc, raw, needle, replacement, pos) == (
            put_at(raw, tail, needle.len() as int, replacement, pos),
            tail.len(),
        ),
{
    lemma_put_back(raw, tail, needle.len() as int, replacement, pos, p + 1);
}

proof fn lemma_places(
    enc: Encoding,
    raw: Seq<u8>,
    needle: Seq<u8>,
    replacement: Seq<u8>,
    pos: int,
) -> (at: Seq<int>)
    requires
        needle.len() > 0,
        0 <= pos <= raw.len(),
    ensures
        places_of(enc, raw, needle, pos, at),
        raw_replaced(enc, raw, needle, replacement, pos) == (
            put_at(raw, at, needle.len() as int, replacement, pos),
            at.len(),
        ),
    decreases raw.len() - pos,
{
    let n = needle.len() as int;
    lemma_next_at(raw, needle, pos);
    match next_at(raw, needle, pos) {
        None => {
            assert forall|q: int| pos <= q implies !#[trigger] counts_at(enc, raw, needle, q) by {
                assert(!occurs_at(raw, needle, q));
            }
            reveal(places_of);
            Seq::empty()
        },
        Some(p) => {
            assert(occurs_at(raw, needle, p));
            assert(p < raw.len());
            assert forall|q: int| pos <= q < p implies !#[trigger] counts_at(enc, raw, needle, q) by {
                assert(!occurs_at(raw, needle, q));
            }
            assert(counts_at(enc, raw, needle, p) == replaces_at(enc, raw, p));
            if counts_at(enc, raw, needle, p) {
                let tail = lemma_places(enc, raw, needle, replacement, p + n);
                lemma_one_more(enc, raw, needle, pos, p, tail);
                lemma_replaced_here(enc, raw, needle, replacement, pos, p, tail);
                seq![p] + tail
            } else {
                let tail = lemma_places(enc, raw, needle, replacement, p + 1);
                lemma_none_before(enc, raw, needle, pos, p + 1, tail);
                lemma_replaced_later(enc, raw, needle, replacement, pos, p, tail);
                tail
            }
        },
    }
}

proof fn lemma_put_back(
    raw: Seq<u8>,
    at: Seq<int>,
    n: int,
    replacement: Seq<u8>,
    pos: int,
    next: int,
)
    requires
        0 <= pos <= next <= raw.len(),
        at.len() > 0 ==> next <= at[0] <= raw.len(),
    ensures
        put_at(raw, at, n, replacement, pos) == raw.subrange(pos, next) + put_at(
            raw,
            at,
            n,
            replacement,
            next,
        ),
{
    if at.len() == 0 {
        assert(raw.skip(pos) =~= raw.subrange(pos, next) + raw.skip(next));
    } else {
        assert(raw.subrange(pos, at[0]) =~= raw.subrange(pos, next) + raw.subrange(next, at[0]));
        let rest = put_at(raw, at.drop_first(), n, replacement, at[0] + n);
        assert(raw.subrange(pos, at[0]) + replacement + rest =~= raw.subrange(pos, next) + (
        raw.subrange(next, at[0]) + replacement + rest));
    }
}

/// In every encoding a replacement stands in the place of each occurrence that
/// counts, from the left, an empty one too; the bytes between them stay, and so
/// does the terminator. The places are counted, and the line changed where
/// there is one.
pub proof fn replacements_stand_in_the_places(
    enc: Encoding,
    raw: Seq<u8>,
    needle: Seq<u8>,
    replacement: Seq<u8>,
    term: Seq<u8>,
) -> (at: Seq<int>)
    requires
        needle.len() > 0,
    ensures
        places_of(enc, raw, needle, 0, at),
        line_out(enc, RuleView::Literal(needle, replacement), raw, term) == Ok::<LineOut, ErrorView>(
            LineOut {
                bytes: put_at(raw, at, needle.len() as int, replacement, 0) + term,
                changed: at.len() > 0,
                count: at.len(),
            },
        ),
{
    lemma_places(enc, raw, needle, replacement, 0)
}

/// Replacing one text by another replaces the bytes of the one, in the encoding
/// of the document, by those of the other.
pub proof fn texts_are_replaced_in_their_encoding(
    doc: DocView,
    target: Seq<char>,
    taken: bool,
    opts: ReplaceOptions,
)
    requires
        !opts.regex,
        opts.case_sensitive,
        !taken,
        opts.find@.len() > 0,
        encoded(doc.encoding, opts.find@) is Some,
        encoded(doc.encoding, opts.replacement@) is Some,
    ensures
        replaced_document(doc, target, taken, opts) == document_out(
            doc,
            RuleView::Literal(
                encoded(doc.encoding, opts.find@)->Some_0,
                encoded(doc.encoding, opts.replacement@)->Some_0,
            ),
        ),
{
}

/// A line without a match of a pattern stays as it is; one with matches becomes
/// what the engine makes of its text, in the encoding of the document, and is
/// refused where that cannot be written.
pub proof fn patterns_are_replaced_in_texts(
    enc: Encoding,
    p: Seq<char>,
    insensitive: bool,
    replacement: Seq<char>,
    raw: Seq<u8>,
    term: Seq<u8>,
)
    ensures
        ({
            let r = line_out(enc, RuleView::Regex(p, insensitive, replacement), raw, term);
            let t = decoded(enc, raw);
            let n = text_matches(p, insensitive, t).len();
            let made = encoded(enc, regex_replaced(p, insensitive, t, replacement));
            &&& n == 0 ==> r is Ok && r->Ok_0.bytes == raw + term && !r->Ok_0.changed
                && r->Ok_0.count == 0
            &&& n > 0 && made is Some ==> r is Ok && r->Ok_0.bytes == made->Some_0 + term
                && r->Ok_0.changed && r->Ok_0.count == n
            &&& n > 0 && made is None ==> r is Err
        }),
{
}

// ---- keeping -----------------------------------------------------------------

/// A needle stands at a place of a line as a query is looked for: it counts
/// there, and of whole words no letter, digit or underscore stands beside it as
/// a character by itself.
pub open spec fn sought_at(
    enc: Encoding,
    raw: Seq<u8>,
    needle: Seq<u8>,
    ww: bool,
    q: int,
) -> bool {
    let end = q + needle.len();
    &&& counts_at(enc, raw, needle, q)
    &&& ww ==> if enc == Encoding::Utf16Le || enc == Encoding::Utf16Be {
        !word_unit_stands(enc, raw, q - 2) && !word_unit_stands(enc, raw, end)
    } else if enc == Encoding::ShiftJis || enc == Encoding::EucJp {
        !(starts(enc, raw, 0, q - 1) && word_stands(raw, q - 1)) && !(starts(enc, raw, 0, end)
            && word_stands(raw, end))
    } else {
        !word_stands(raw, q - 1) && !word_stands(raw, end)
    }
}

proof fn lemma_sought(enc: Encoding, raw: Seq<u8>, needle: Seq<u8>, ww: bool, q: int)
    requires
        occurs_at(raw, needle, q),
        needle.len() > 0,
    ensures
        line_accepts(enc, raw, ww, q, needle.len() as int) <==> sought_at(enc, raw, needle, ww, q),
{
    let end = q + needle.len();
    if legacy(enc) && starts(enc, raw, 0, q) && ww {
        lemma_walk(enc, raw, 0, q, end);
        if q > 0 {
            let c = lemma_char_before(enc, raw, 0, q, None);
            characters_have_their_bytes(raw, c);
            if c < q - 1 {
                characters_come_one_after_the_other(enc, raw, 0, c, q - 1);
            }
        }
    }
}

proof fn lemma_line_found(
    enc: Encoding,
    raw: Seq<u8>,
    needle: Seq<u8>,
    ww: bool,
    from: int,
    q: int,
)
    requires
        0 <= from <= q,
        needle.len() > 0,
        sought_at(enc, raw, needle, ww, q),
        forall|r: int|
            from <= r < q < r + needle.len() && #[trigger] occurs_at(raw, needle, r) ==> enc.wide()
                && r % 2 != 0,
    ensures
        literal_in_line(enc, raw, needle, ww, from),
    decreases raw.len() + 1 - from,
{
    lemma_next_at(raw, needle, from);
    assert(occurs_at(raw, needle, q));
    let p = next_at(raw, needle, from)->Some_0;
    if p == q {
        lemma_sought(enc, raw, needle, ww, q);
    } else {
        let next = p + stride_at(enc, needle, p);
        assert(next <= q) by {
            if p + needle.len() > q {
                assert(enc.wide() && p % 2 != 0);
            }
        }
        lemma_line_found(enc, raw, needle, ww, next, q);
    }
}

proof fn lemma_line_holds(enc: Encoding, raw: Seq<u8>, needle: Seq<u8>, ww: bool, from: int) -> (q:
    int)
    requires
        0 <= from,
        needle.len() > 0,
        literal_in_line(enc, raw, needle, ww, from),
    ensures
        sought_at(enc, raw, needle, ww, q),
    decreases raw.len() + 1 - from,
{
    lemma_next_at(raw, needle, from);
    let p = next_at(raw, needle, from)->Some_0;
    if line_accepts(enc, raw, ww, p, needle.len() as int) {
        lemma_sought(enc, raw, needle, ww, p);
        p
    } else {
        lemma_line_holds(enc, raw, needle, ww, p + stride_at(enc, needle, p))
    }
}

/// In every encoding a line is kept where the query stands in it and no
/// occurrence overlaps that one from before; a line that is kept holds the
/// query, and one that is not goes with its terminator.
pub proof fn lines_that_hold_the_query_are_kept(
    enc: Encoding,
    raw: Seq<u8>,
    needle: Seq<u8>,
    ww: bool,
    term: Seq<u8>,
    q: int,
)
    requires
        needle.len() > 0,
    ensures
        ({
            let r = line_out(enc, RuleView::Keep(PlanView::Literal(needle), ww), raw, term);
            &&& r is Ok
            &&& r->Ok_0.changed ==> r->Ok_0.bytes == raw + term
            &&& !r->Ok_0.changed ==> r->Ok_0.bytes.len() == 0
            &&& r->Ok_0.changed ==> exists|p: int| #[trigger] sought_at(enc, raw, needle, ww, p)
            &&& 0 <= q && sought_at(enc, raw, needle, ww, q) && (forall|r: int|
                0 <= r < q < r + needle.len() && #[trigger] occurs_at(raw, needle, r) ==> enc.wide()
                    && r % 2 != 0) ==> r->Ok_0.changed
        }),
{
    if literal_in_line(enc, raw, needle, ww, 0) {
        let p = lemma_line_holds(enc, raw, needle, ww, 0);
        assert(sought_at(enc, raw, needle, ww, p));
    }
    if 0 <= q && sought_at(enc, raw, needle, ww, q) && (forall|r: int|
        0 <= r < q < r + needle.len() && #[trigger] occurs_at(raw, needle, r) ==> enc.wide() && r % 2
            != 0) {
        lemma_line_found(enc, raw, needle, ww, 0, q);
    }
}

/// A match of a pattern on bytes keeps a line: it is not empty, and of whole
/// words no letter, digit or underscore stands beside it.
pub open spec fn keeps(raw: Seq<u8>, ww: bool, m: (int, int)) -> bool {
    m.0 < m.1 && (ww ==> !word_stands(raw, m.0 - 1) && !word_stands(raw, m.1))
}

/// A match on the text of a line keeps it in the same way.
pub open spec fn text_keeps(t: Seq<char>, ww: bool, m: (int, int)) -> bool {
    m.0 < m.1 && (ww ==> !word_char_stands(t, char_index(t, m.0) - 1) && !word_char_stands(
        t,
        char_index(t, m.1) as int,
    ))
}

proof fn lemma_bytes_match(enc: Encoding, raw: Seq<u8>, plan: PlanView, ww: bool)
    requires
        plan is Bytes,
        ({
            let ms = byte_matches(plan->Bytes_0, plan->Bytes_1, raw);
            forall|k: int|
                0 <= k < ms.len() ==> 0 <= (#[trigger] ms[k]).0 <= ms[k].1 <= raw.len()
        }),
    ensures
        ({
            let ms = byte_matches(plan->Bytes_0, plan->Bytes_1, raw);
            line_matches(enc, raw, plan, ww) <==> exists|k: int|
                0 <= k < ms.len() && keeps(raw, ww, #[trigger] ms[k])
        }),
{
    let ms = byte_matches(plan->Bytes_0, plan->Bytes_1, raw);
    assert forall|k: int| 0 <= k < ms.len() implies span_counts(raw, ww, #[trigger] ms[k]) == keeps(
        raw,
        ww,
        ms[k],
    ) by {}
    if line_matches(enc, raw, plan, ww) {
        let k = choose|k: int| 0 <= k < ms.len() && span_counts(raw, ww, #[trigger] ms[k]);
        assert(keeps(raw, ww, ms[k]));
    }
    if exists|k: int| 0 <= k < ms.len() && keeps(raw, ww, #[trigger] ms[k]) {
        let k = choose|k: int| 0 <= k < ms.len() && keeps(raw, ww, #[trigger] ms[k]);
        assert(span_counts(raw, ww, ms[k]));
    }
}

proof fn lemma_text_match(enc: Encoding, raw: Seq<u8>, plan: PlanView, ww: bool)
    requires
        plan is DecodeLine,
    ensures
        ({
            let t = decoded(enc, raw);
            let ms = text_matches(plan->DecodeLine_0, plan->DecodeLine_1, t);
            line_matches(enc, raw, plan, ww) <==> exists|k: int|
                0 <= k < ms.len() && text_keeps(t, ww, #[trigger] ms[k])
        }),
{
    let t = decoded(enc, raw);
    let ms = text_matches(plan->DecodeLine_0, plan->DecodeLine_1, t);
    assert forall|k: int| 0 <= k < ms.len() implies text_span_counts(t, ww, #[trigger] ms[k])
        == text_keeps(t, ww, ms[k]) by {
        let m = ms[k];
        if m.0 < m.1 {
            lemma_char_index(t, m.0, m.1);
        }
        assert forall|i: int| 0 <= i < t.len() implies word_char(t[i])
            == #[trigger] word_char_stands(t, i) by {
            words_are_letters_digits_and_underscores(0, t[i]);
        }
        let (a, b) = (char_index(t, m.0) as int, char_index(t, m.1) as int);
        if a > 0 && a <= t.len() {
            assert(word_char(t[a - 1]) == word_char_stands(t, a - 1));
        }
        if b < t.len() {
            assert(word_char(t[b]) == word_char_stands(t, b));
        }
    }
    if line_matches(enc, raw, plan, ww) {
        let k = choose|k: int| 0 <= k < ms.len() && text_span_counts(t, ww, #[trigger] ms[k]);
        assert(text_keeps(t, ww, ms[k]));
    }
    if exists|k: int| 0 <= k < ms.len() && text_keeps(t, ww, #[trigger] ms[k]) {
        let k = choose|k: int| 0 <= k < ms.len() && text_keeps(t, ww, #[trigger] ms[k]);
        assert(text_span_counts(t, ww, ms[k]));
    }
}

/// A line with a match of a pattern is kept, and no other.
pub proof fn lines_with_a_match_are_kept(
    enc: Encoding,
    raw: Seq<u8>,
    p: Seq<char>,
    insensitive: bool,
    ww: bool,
    term: Seq<u8>,
)
    requires
        forall|k: int|
            0 <= k < byte_matches(p, insensitive, raw).len() ==> 0 <= (#[trigger] byte_matches(
                p,
                insensitive,
                raw,
            )[k]).0 <= byte_matches(p, insensitive, raw)[k].1 <= raw.len(),
    ensures
        ({
            let r = line_out(enc, RuleView::Keep(PlanView::Bytes(p, insensitive), ww), raw, term);
            let ms = byte_matches(p, insensitive, raw);
            &&& r is Ok
            &&& r->Ok_0.changed <==> exists|k: int|
                0 <= k < ms.len() && keeps(raw, ww, #[trigger] ms[k])
            &&& r->Ok_0.changed ==> r->Ok_0.bytes == raw + term
            &&& !r->Ok_0.changed ==> r->Ok_0.bytes.len() == 0
        }),
        ({
            let r = line_out(
                enc,
                RuleView::Keep(PlanView::DecodeLine(p, insensitive), ww),
                raw,
                term,
            );
            let t = decoded(enc, raw);
            let ms = text_matches(p, insensitive, t);
            &&& r is Ok
            &&& r->Ok_0.changed <==> exists|k: int|
                0 <= k < ms.len() && text_keeps(t, ww, #[trigger] ms[k])
            &&& r->Ok_0.changed ==> r->Ok_0.bytes == raw + term
            &&& !r->Ok_0.changed ==> r->Ok_0.bytes.len() == 0
        }),
{
    lemma_bytes_match(enc, raw, PlanView::Bytes(p, insensitive), ww);
    lemma_text_match(enc, raw, PlanView::DecodeLine(p, insensitive), ww);
}

/// A pattern that is replaced is the query itself, or the query with what is
/// special in it escaped; it minds the case where that is asked for.
pub proof fn patterns_are_replaced_in_every_line(
    doc: DocView,
    target: Seq<char>,
    taken: bool,
    opts: ReplaceOptions,
)
    requires
        opts.regex || !opts.case_sensitive,
        !taken,
        opts.find@.len() > 0,
        planned(doc.encoding, opts.find@, opts.regex, opts.case_sensitive) is Ok,
    ensures
        opts.regex ==> replaced_document(doc, target, taken, opts) == document_out(
            doc,
            RuleView::Regex(opts.find@, !opts.case_sensitive, opts.replacement@),
        ),
        !opts.regex ==> replaced_document(doc, target, taken, opts) == document_out(
            doc,
            RuleView::Regex(escaped(opts.find@), !opts.case_sensitive, opts.replacement@),
        ),
{
}

/// Lines are kept by the query in the encoding of the document, or by a
/// pattern, on bytes or on texts as the encoding asks for.
pub proof fn lines_are_kept_by_the_query(
    doc: DocView,
    target: Seq<char>,
    taken: bool,
    opts: GrepLinesOptions,
)
    requires
        !taken || opts.overwrite,
        planned(doc.encoding, opts.query@, opts.regex, opts.case_sensitive) is Ok,
    ensures
        ({
            let r = kept_document(doc, target, taken, opts);
            let pattern = if opts.regex { opts.query@ } else { escaped(opts.query@) };
            let texts = doc.encoding == Encoding::ShiftJis || doc.encoding == Encoding::EucJp
                || doc.encoding == Encoding::Utf16Le || doc.encoding == Encoding::Utf16Be;
            let ww = opts.whole_word;
            &&& !opts.regex && opts.case_sensitive ==> encoded(doc.encoding, opts.query@) is Some
                && r == document_out(
                doc,
                RuleView::Keep(
                    PlanView::Literal(encoded(doc.encoding, opts.query@)->Some_0),
                    ww,
                ),
            )
            &&& (opts.regex || !opts.case_sensitive) && texts ==> r == document_out(
                doc,
                RuleView::Keep(PlanView::DecodeLine(pattern, !opts.case_sensitive), ww),
            )
            &&& (opts.regex || !opts.case_sensitive) && !texts ==> r == document_out(
                doc,
                RuleView::Keep(PlanView::Bytes(pattern, !opts.case_sensitive), ww),
            )
        }),
{
}

// ---- finding -----------------------------------------------------------------

proof fn lemma_found(src: Source, needle: Seq<u8>, ww: bool, from: int, q: int)
    requires
        0 <= from <= q,
        needle.len() > 0,
        !src.encoding.wide(),
        occurs_at(src.buf, needle, q),
        src.accepts(ww, q, needle.len() as int),
        forall|r: int|
            from <= r < q < r + needle.len() ==> !#[trigger] occurs_at(src.buf, needle, r),
    ensures
        exists|i: int|
            0 <= i < literal_hits(src, needle, ww, from).len() && (#[trigger] literal_hits(
                src,
                needle,
                ww,
                from,
            )[i]).byte == q,
    decreases src.buf.len() + 1 - from,
{
    lemma_next_at(src.buf, needle, from);
    let p = next_at(src.buf, needle, from)->Some_0;
    let hits = literal_hits(src, needle, ww, from);
    let rest = literal_hits(src, needle, ww, p + stride_of(needle));
    if p == q {
        assert(hits =~= seq![src.hit(p, needle.len() as int)] + rest);
        assert(hits[0].byte == q);
    } else {
        assert(p + needle.len() <= q);
        lemma_found(src, needle, ww, p + stride_of(needle), q);
        let i = choose|i: int| 0 <= i < rest.len() && (#[trigger] rest[i]).byte == q;
        if src.accepts(ww, p, needle.len() as int) {
            assert(hits =~= seq![src.hit(p, needle.len() as int)] + rest);
            assert(hits[i + 1].byte == q);
        } else {
            assert(hits =~= rest);
            assert(hits[i].byte == q);
        }
    }
}

/// A letter, a digit or an underscore stands right before a place of a line, as
/// a character by itself.
pub open spec fn word_before(src: Source, abs: int) -> bool {
    let ls = src.text_span(src.line_of(abs)).0;
    ls < abs && starts(src.encoding, src.buf, ls, abs - 1) && word_stands(src.buf, abs - 1)
}

/// One stands right behind it.
pub open spec fn word_behind(src: Source, abs: int) -> bool {
    let (ls, end) = src.text_span(src.line_of(abs));
    starts(src.encoding, src.buf, ls, abs) && abs < end && word_stands(src.buf, abs)
}

/// A place lies on the text of its line.
pub open spec fn on_text(src: Source, abs: int) -> bool {
    let (ls, end) = src.text_span(src.line_of(abs));
    src.line_of(abs) < src.count() && 0 <= ls <= abs <= end <= src.buf.len()
}

/// An occurrence in Shift_JIS or EUC-JP that a search is to find: it starts
/// where a character starts, and of whole words no letter, digit or underscore
/// stands beside it.
pub open spec fn wanted_here(src: Source, needle: Seq<u8>, ww: bool, q: int) -> bool {
    let end = q + needle.len();
    &&& 0 <= q
    &&& end <= src.buf.len()
    &&& src.buf.subrange(q, end) == needle
    &&& starts(src.encoding, src.buf, src.start(src.line_of(q)), q)
    &&& ww ==> !word_before(src, q) && !word_behind(src, end)
}

proof fn lemma_accepts(src: Source, needle: Seq<u8>, ww: bool, q: int)
    requires
        src.encoding == Encoding::ShiftJis || src.encoding == Encoding::EucJp,
        occurs_at(src.buf, needle, q),
        on_text(src, q),
        ww ==> on_text(src, q + needle.len()),
    ensures
        src.accepts(ww, q, needle.len() as int) <==> wanted_here(src, needle, ww, q),
{
    if ww {
        whole_words_among_characters(src, q);
        whole_words_among_characters(src, q + needle.len());
        let ls = src.text_span(src.line_of(q)).0;
        assert(ls == src.start(src.line_of(q)));
    }
}

/// A search in Shift_JIS or EUC-JP finds a text wherever it stands as
/// characters, and nothing else; an occurrence that an earlier one overlaps is
/// passed over.
pub proof fn a_text_is_found_among_characters(
    src: Source,
    query: Seq<char>,
    ww: bool,
    from: int,
    q: int,
    i: int,
)
    requires
        src.encoding == Encoding::ShiftJis || src.encoding == Encoding::EucJp,
        planned(src.encoding, query, false, true) is Ok,
        encoded(src.encoding, query) is Some,
        encoded(src.encoding, query)->Some_0.len() > 0,
        0 <= from,
    ensures
        ({
            let needle = encoded(src.encoding, query)->Some_0;
            let hits = all_hits(src, planned(src.encoding, query, false, true)->Ok_0, ww, from);
            &&& 0 <= i < hits.len() && on_text(src, hits[i].byte) && (ww ==> on_text(
                src,
                hits[i].byte + needle.len(),
            )) ==> from <= hits[i].byte && hits[i].byte_len == needle.len() && wanted_here(
                src,
                needle,
                ww,
                hits[i].byte,
            )
            &&& from <= q && on_text(src, q) && (ww ==> on_text(src, q + needle.len()))
                && wanted_here(src, needle, ww, q) && (forall|r: int|
                from <= r < q < r + needle.len() ==> !#[trigger] occurs_at(src.buf, needle, r))
                ==> exists|k: int| 0 <= k < hits.len() && (#[trigger] hits[k]).byte == q
        }),
{
    let needle = encoded(src.encoding, query)->Some_0;
    let hits = literal_hits(src, needle, ww, from);
    literal_hits_are_matches(src, needle, ww, from);
    assert(all_hits(src, planned(src.encoding, query, false, true)->Ok_0, ww, from) == hits);
    if 0 <= i < hits.len() && on_text(src, hits[i].byte) && (ww ==> on_text(
        src,
        hits[i].byte + needle.len(),
    )) {
        assert(occurs_at(src.buf, needle, hits[i].byte));
        assert(hits[i] == src.hit(hits[i].byte, needle.len() as int));
        lemma_accepts(src, needle, ww, hits[i].byte);
    }
    if from <= q && on_text(src, q) && (ww ==> on_text(src, q + needle.len())) && wanted_here(
        src,
        needle,
        ww,
        q,
    ) && (forall|r: int|
        from <= r < q < r + needle.len() ==> !#[trigger] occurs_at(src.buf, needle, r)) {
        assert(occurs_at(src.buf, needle, q));
        lemma_accepts(src, needle, ww, q);
        lemma_found(src, needle, ww, from, q);
    }
}

// ---- columns of ISO-2022-JP --------------------------------------------------

/// Without escapes a character of ISO-2022-JP is a byte.
pub proof fn plain_jis_columns_are_bytes(raw: Seq<u8>, off: int, col: nat)
    requires
        0 <= off <= raw.len(),
        forall|i: int| 0 <= i < raw.len() ==> #[trigger] raw[i] != 0x1B,
    ensures
        jis_column(raw, off, false, col) == if off + col <= raw.len() {
            Some(off + col)
        } else {
            None
        },
    decreases raw.len() - off,
{
    if off < raw.len() && col > 0 {
        assert(raw[off] != 0x1B);
        plain_jis_columns_are_bytes(raw, off + 1, (col - 1) as nat);
    }
}

/// Behind an escape to JIS X 0208 a character has two bytes.
pub proof fn double_jis_columns_are_pairs(raw: Seq<u8>, off: int, col: nat)
    requires
        0 <= off,
        off + 2 * col <= raw.len(),
        forall|i: int| off <= i < off + 2 * col ==> #[trigger] raw[i] != 0x1B,
    ensures
        jis_column(raw, off, true, col) == Some(off + 2 * col),
        off >= 3 && raw[off - 3] == 0x1B && raw[off - 2] == 0x24 && (raw[off - 1] == 0x42 || raw[off
            - 1] == 0x40) && col > 0 ==> jis_column(raw, off - 3, false, col) == Some(off + 2 * col),
    decreases col,
{
    if col > 0 {
        assert(raw[off] != 0x1B);
        double_jis_columns_are_pairs(raw, off + 2, (col - 1) as nat);
    }
}

// ---- fields and previews -----------------------------------------------------

/// Where fields may be quoted, column 1 is the first field of the record, and
/// so on; column 0 is the whole record, and a column that it does not have is
/// empty.
pub proof fn quoted_columns_are_counted_from_one(raw: Seq<u8>, c: usize, spec: FieldSpec)
    requires
        spec.csv,
    ensures
        ({
            let f = csv_fields(raw, spec.delimiter, spec.quote);
            &&& field_at(raw, None, spec) == raw
            &&& field_at(raw, Some(0usize), spec) == raw
            &&& 1 <= c <= f.len() ==> field_at(raw, Some(c), spec) == f[c - 1]
            &&& c > f.len() && c > 0 ==> field_at(raw, Some(c), spec).len() == 0
        }),
{
}

/// The fields of a record in UTF-16 are those of its text.
pub proof fn wide_fields_are_those_of_the_text(
    t: Seq<char>,
    le: bool,
    col: Option<usize>,
    spec: FieldSpec,
)
    ensures
        ({
            let enc = if le { Encoding::Utf16Le } else { Encoding::Utf16Be };
            field_text(enc, units_bytes(text_units(t), le), col, spec) == decoded(
                Encoding::Utf8,
                field_at(encode_utf8(t), col, spec),
            )
        }),
{
    utf16_round_trip(t, le);
}

/// A text with other characters than ASCII is ordered by its normalized form.
pub proof fn other_texts_are_ordered_when_normalized(t: Seq<char>, i: int)
    requires
        0 <= i < t.len(),
        t[i] as u32 > 127,
    ensures
        text_key(t) == encode_utf8(crate::fields::nfc_text(t)),
{
}

/// A match is shown with the text of its line, up to a number of characters.
pub proof fn short_lines_are_shown_whole(src: Source, line: nat)
    requires
        0 <= src.base <= src.buf.len(),
        line < src.count(),
        src.raw(line).len() <= 2048,
    ensures
        preview(src, line).len() <= 400,
        decoded(src.encoding, src.raw(line)).len() <= 400 ==> preview(src, line) == decoded(
            src.encoding,
            src.raw(line),
        ),
        forall|i: int|
            0 <= i < preview(src, line).len() ==> #[trigger] preview(src, line)[i] == decoded(
                src.encoding,
                src.raw(line),
            )[i],
        decoded(src.encoding, src.raw(line)).len() >= 400 ==> preview(src, line).len() == 400,
{
    let (s, e) = src.text_span(line);
    lemma_start(src.buf, src.newline, src.base, line);
    lemma_lf(src.buf, src.newline, s);
    let t = decoded(src.encoding, src.raw(line));
    assert(t.take(t.len() as int) =~= t);
}

// ---- where hits stand, and how files end -------------------------------------

proof fn lemma_occurrences_add(a: Seq<u8>, b: Seq<u8>, x: u8)
    ensures
        occurrences(a + b, x) == occurrences(a, x) + occurrences(b, x),
    decreases b.len(),
{
    if b.len() == 0 {
        assert(a + b =~= a);
    } else {
        lemma_occurrences_add(a, b.drop_last(), x);
        assert((a + b).drop_last() =~= a + b.drop_last());
    }
}

proof fn lemma_no_occurrence(s: Seq<u8>, x: u8)
    requires
        forall|i: int| 0 <= i < s.len() ==> #[trigger] s[i] != x,
    ensures
        occurrences(s, x) == 0,
    decreases s.len(),
{
    if s.len() > 0 {
        let r = s.drop_last();
        assert forall|i: int| 0 <= i < r.len() implies #[trigger] r[i] != x by {
            assert(s[i] != x);
        }
        lemma_no_occurrence(r, x);
        assert(s[s.len() - 1] != x);
    }
}

proof fn lemma_feeds_before(s: Seq<u8>, p: int, b: int)
    requires
        0 <= p <= b <= s.len(),
    ensures
        newlines(s, Newline::Byte, p, b) == occurrences(s.subrange(p, b), 10),
    decreases s.len() - p,
{
    let k = Newline::Byte;
    lemma_lf(s, k, p);
    lemma_feeds(s, k, p);
    let e = lf_from(s, k, p);
    let stop = if e < b { e } else { b };
    let free = s.subrange(p, stop);
    assert forall|i: int| 0 <= i < free.len() implies #[trigger] free[i] != 10 by {
        assert((p + i - p) % k.width() == 0);
        assert(!unit_is(s, k, p + i, 10));
        assert(free[i] == s[p + i]);
    }
    lemma_no_occurrence(free, 10);
    if e < b {
        lemma_feeds_before(s, e + 1, b);
        let one = seq![10u8];
        assert(unit_is(s, k, e, 10));
        assert(s.subrange(p, b) =~= free + (one + s.subrange(e + 1, b)));
        lemma_occurrences_add(free, one + s.subrange(e + 1, b), 10);
        lemma_occurrences_add(one, s.subrange(e + 1, b), 10);
        assert(one.drop_last() =~= Seq::<u8>::empty());
        assert(occurrences(one, 10) == 1) by {
            reveal_with_fuel(occurrences, 2);
        }
    } else {
        assert(s.subrange(p, b) == free);
    }
}

/// A hit is on the line whose number is the number of line feeds before it.
pub proof fn hits_are_on_their_lines(src: Source, s: int, len: int)
    requires
        src.newline == Newline::Byte,
        0 <= src.base <= s <= src.buf.len(),
    ensures
        src.hit(s, len).line == occurrences(src.buf.subrange(src.base, s), 10),
{
    lemma_feeds_before(src.buf, src.base, s);
}

/// The column of a hit is the number of characters before it on its line.
pub proof fn columns_count_the_text_before(src: Source, s: int, len: int, t: Seq<char>)
    requires
        src.line_of(s) < src.count(),
        src.encoding == Encoding::Utf8 ==> src.buf.subrange(src.start(src.line_of(s)), s)
            == encode_utf8(t),
        src.encoding == Encoding::Utf16Le ==> src.buf.subrange(src.start(src.line_of(s)), s)
            == units_bytes(text_units(t), true),
        src.encoding == Encoding::Utf16Be ==> src.buf.subrange(src.start(src.line_of(s)), s)
            == units_bytes(text_units(t), false),
        src.encoding == Encoding::Utf8 || src.encoding == Encoding::Utf16Le || src.encoding
            == Encoding::Utf16Be,
    ensures
        src.hit(s, len).column == t.len(),
{
    encode_utf8_valid_utf8(t);
    encode_utf8_decode_utf8(t);
    utf16_round_trip(t, true);
    utf16_round_trip(t, false);
}

/// A document ends with a terminator where its last byte is LF or CR.
pub proof fn files_end_with_a_terminator(doc: DocView)
    requires
        doc.valid(),
        !doc.encoding.wide(),
        doc.base < doc.buf.len(),
    ensures
        ends_terminated(doc) <==> doc.buf.last() == 10 || doc.buf.last() == 13,
{
    let k = doc.newline();
    let n = doc.count();
    lemma_lf(doc.buf, k, doc.base);
    assert(n > 0);
    let i = (n - 1) as nat;
    lines_are_texts_and_terminators(doc, i);
    lemma_count(doc.buf, k, doc.base, n);
    lemma_count(doc.buf, k, doc.base, i);
    let (a, b) = (doc.start(i), doc.start(n));
    lemma_start(doc.buf, k, doc.base, i);
    lemma_start(doc.buf, k, doc.base, n);
    lemma_lf(doc.buf, k, a);
    assert(b == doc.buf.len());
    assert(a < b);
    let whole = doc.raw(i) + doc.term(i);
    assert(whole == doc.buf.subrange(a, b));
    assert(whole.last() == doc.buf.last());
    if doc.term(i).len() > 0 {
        assert(whole.last() == doc.term(i).last());
        assert(seq![10u8].last() == 10 && seq![13u8].last() == 13 && seq![13u8, 10].last() == 10);
    } else {
        assert(whole =~= doc.raw(i));
        if doc.buf.last() == 10 {
            assert(doc.raw(i)[doc.raw(i).len() - 1] == 10);
            assert(doc.raw(i).contains(10));
        }
    }
}

/// A converted line is its text in the encoding, with the terminator behind it,
/// but for the last one of a file that did not end with one.
pub proof fn converted_files_end_as_before(enc: Encoding, t: Seq<char>, term: Seq<u8>)
    requires
        encoded(enc, t) is Some,
    ensures
        converted_image(enc, seq![t], term, true) == encoded(enc, t)->Some_0 + term,
        converted_image(enc, seq![t], term, false) == encoded(enc, t)->Some_0,
        converted_image(enc, Seq::empty(), term, true).len() == 0,
        converted_image(enc, Seq::empty(), term, false).len() == 0,
{
    let b = encoded(enc, t)->Some_0;
    let none = Seq::<u8>::empty();
    assert(seq![t].drop_last() =~= Seq::<Seq<char>>::empty());
    reveal_with_fuel(lines_image, 2);
    assert(none + b + term =~= b + term);
    assert(none + b =~= b);
}

/// A conversion is refused for the first line that the encoding cannot write.
pub proof fn the_first_unwritable_line_is_named(enc: Encoding, lines: Seq<Seq<char>>, i: int)
    requires
        0 <= i <= lines.len(),
    ensures
        match first_unwritable(enc, lines, i) {
            Some(k) => i <= k < lines.len() && encoded(enc, lines[k]) is None && forall|j: int|
                i <= j < k ==> encoded(enc, #[trigger] lines[j]) is Some,
            None => forall|j: int|
                i <= j < lines.len() ==> encoded(enc, #[trigger] lines[j]) is Some,
        },
    decreases lines.len() - i,
{
    if i < lines.len() && encoded(enc, lines[i]) is Some {
        the_first_unwritable_line_is_named(enc, lines, i + 1);
    }
}

// ---- the bytes of a match ----------------------------------------------------

/// The bytes of a match on the text of a line in UTF-16 are those of the
/// matched characters.
pub proof fn wide_matches_hold_their_characters(t: Seq<char>, le: bool, cs: int, ce: int)
    requires
        0 <= cs <= ce <= t.len(),
    ensures
        ({
            let enc = if le { Encoding::Utf16Le } else { Encoding::Utf16Be };
            let raw = units_bytes(text_units(t), le);
            let (at, n) = decoded_span(enc, raw, t, cs, ce);
            &&& 0 <= at
            &&& at + n <= raw.len()
            &&& raw.subrange(at, at + n) == units_bytes(text_units(t.subrange(cs, ce)), le)
            &&& raw.take(at) == units_bytes(text_units(t.take(cs)), le)
        }),
{
    let (a, b, c) = (t.take(cs), t.subrange(cs, ce), t.skip(ce));
    texts_are_written_unit_by_unit(a, b);
    texts_are_written_unit_by_unit(a + b, c);
    assert(t =~= a + b + c);
    let (ua, ub, u) = (text_units(a), text_units(b), text_units(t));
    let raw = units_bytes(u, le);
    let at = 2 * ua.len() as int;
    let n = 2 * ub.len() as int;
    assert(raw.subrange(at, at + n) =~= units_bytes(ub, le)) by {
        assert forall|i: int| 0 <= i < n implies raw.subrange(at, at + n)[i] == units_bytes(
            ub,
            le,
        )[i] by {
            assert((at + i) / 2 == ua.len() + i / 2 && (at + i) % 2 == i % 2);
            assert(u[ua.len() + i / 2] == ub[i / 2]);
        }
    }
    assert(raw.take(at) =~= units_bytes(ua, le)) by {
        assert forall|i: int| 0 <= i < at implies raw.take(at)[i] == units_bytes(ua, le)[i] by {
            assert(u[i / 2] == ua[i / 2]);
        }
    }
}

proof fn lemma_walks_add(enc: Encoding, raw: Seq<u8>, from: int, a: nat, b: nat)
    ensures
        after_chars(enc, raw, after_chars(enc, raw, from, a), b) == after_chars(
            enc,
            raw,
            from,
            a + b,
        ),
    decreases a,
{
    if a > 0 && from < raw.len() {
        lemma_walks_add(enc, raw, from + step(enc, raw, from), (a - 1) as nat, b);
    }
}

/// The bytes of a match on the text of a line in Shift_JIS or EUC-JP go from
/// the place of its first character to that of the character behind it.
pub proof fn matches_go_from_character_to_character(
    enc: Encoding,
    raw: Seq<u8>,
    t: Seq<char>,
    cs: nat,
    ce: nat,
)
    requires
        enc == Encoding::ShiftJis || enc == Encoding::EucJp,
        cs <= ce,
    ensures
        ({
            let (at, n) = decoded_span(enc, raw, t, cs as int, ce as int);
            &&& at == after_chars(enc, raw, 0, cs)
            &&& at + n == after_chars(enc, raw, 0, ce)
        }),
{
    lemma_walks_add(enc, raw, 0, cs, (ce - cs) as nat);
}

} // verus!
