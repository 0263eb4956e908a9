//! What becomes of a document whose lines are transformed.

use vstd::prelude::*;
use vstd::utf8::*;

use crate::bytes::occurs_at;
use crate::casing::{cased, every_letter_changes_its_case, second_byte, CaseMode};
use crate::document::DocView;
use crate::encoding::Encoding;
use crate::error::ErrorView;
use crate::finds::{plain, wanted};
use crate::patterns::PlanView;
use crate::search::{lemma_next_at, next_at, stride_of};
use crate::transform::{
    cased_document, document_out, kept_document, line_accepts, line_out, literal_in_line,
    raw_replaced, replaced_document, run_out, CaseOptions, GrepLinesOptions, LineOut,
    ReplaceOptions, RuleView,
};

verus! {

// ---- all lines ---------------------------------------------------------------

/// Parts, one after the other.
pub open spec fn laid(parts: Seq<Seq<u8>>) -> Seq<u8>
    decreases parts.len(),
{
    if parts.len() == 0 {
        Seq::empty()
    } else {
        laid(parts.drop_last()) + parts.last()
    }
}

/// How many hold.
pub open spec fn holding(s: Seq<bool>) -> nat
    decreases s.len(),
{
    if s.len() == 0 {
        0
    } else {
        holding(s.drop_last()) + if s.last() { 1nat } else { 0nat }
    }
}

/// The sum of numbers.
pub open spec fn added(s: Seq<nat>) -> nat
    decreases s.len(),
{
    if s.len() == 0 {
        0
    } else {
        added(s.drop_last()) + s.last()
    }
}

/// What a rule makes of a line of a document.
pub open spec fn line_of_doc(doc: DocView, rule: RuleView, i: int) -> Result<LineOut, ErrorView> {
    line_out(doc.encoding, rule, doc.raw(i as nat), doc.term(i as nat))
}

proof fn lemma_run(doc: DocView, rule: RuleView, n: int)
    requires
        0 <= n,
    ensures
        match run_out(doc, rule, 0, n) {
            Ok(r) => {
                &&& forall|i: int| 0 <= i < n ==> #[trigger] line_of_doc(doc, rule, i) is Ok
                &&& r.bytes == laid(
                    Seq::new(n as nat, |i: int| line_of_doc(doc, rule, i)->Ok_0.bytes),
                )
                &&& r.changed == holding(
                    Seq::new(n as nat, |i: int| line_of_doc(doc, rule, i)->Ok_0.changed),
                )
                &&& r.count == added(
                    Seq::new(n as nat, |i: int| line_of_doc(doc, rule, i)->Ok_0.count),
                )
            },
            Err(e) => exists|i: int|
                {
                    &&& 0 <= i < n
                    &&& #[trigger] line_of_doc(doc, rule, i) == Err::<LineOut, ErrorView>(e)
                    &&& forall|j: int| 0 <= j < i ==> #[trigger] line_of_doc(doc, rule, j) is Ok
                },
        },
    decreases n,
{
    if n > 0 {
        lemma_run(doc, rule, n - 1);
        let x = line_of_doc(doc, rule, n - 1);
        match run_out(doc, rule, 0, n - 1) {
            Ok(r) => match x {
                Ok(y) => {
                    let a = Seq::new(n as nat, |i: int| line_of_doc(doc, rule, i)->Ok_0.bytes);
                    let b = Seq::new(n as nat, |i: int| line_of_doc(doc, rule, i)->Ok_0.changed);
                    let c = Seq::new(n as nat, |i: int| line_of_doc(doc, rule, i)->Ok_0.count);
                    assert(a.drop_last() =~= Seq::new(
                        (n - 1) as nat,
                        |i: int| line_of_doc(doc, rule, i)->Ok_0.bytes,
                    ));
                    assert(b.drop_last() =~= Seq::new(
                        (n - 1) as nat,
                        |i: int| line_of_doc(doc, rule, i)->Ok_0.changed,
                    ));
                    assert(c.drop_last() =~= Seq::new(
                        (n - 1) as nat,
                        |i: int| line_of_doc(doc, rule, i)->Ok_0.count,
                    ));
                    assert(a.last() == y.bytes && b.last() == y.changed && c.last() == y.count);
                },
                Err(e) => {
                    assert(line_of_doc(doc, rule, n - 1) == Err::<LineOut, ErrorView>(e));
                },
            },
            Err(e) => {},
        }
    } else {
        assert(Seq::new(0, |i: int| line_of_doc(doc, rule, i)->Ok_0.bytes) =~= Seq::empty());
        assert(Seq::new(0, |i: int| line_of_doc(doc, rule, i)->Ok_0.changed) =~= Seq::empty());
        assert(Seq::new(0, |i: int| line_of_doc(doc, rule, i)->Ok_0.count) =~= Seq::empty());
    }
}

/// A document is transformed line by line, in order, behind what stands before
/// its first line. Lines that changed and replacements are counted over all
/// lines. Where a line cannot be transformed, nothing comes out but the fault
/// of the first such line.
pub proof fn documents_are_transformed_line_by_line(doc: DocView, rule: RuleView)
    ensures
        match document_out(doc, rule) {
            Ok(r) => {
                let n = doc.count();
                &&& forall|i: int| 0 <= i < n ==> #[trigger] line_of_doc(doc, rule, i) is Ok
                &&& r.bytes == doc.buf.take(doc.base) + laid(
                    Seq::new(n, |i: int| line_of_doc(doc, rule, i)->Ok_0.bytes),
                )
                &&& r.changed == holding(
                    Seq::new(n, |i: int| line_of_doc(doc, rule, i)->Ok_0.changed),
                )
                &&& r.count == added(Seq::new(n, |i: int| line_of_doc(doc, rule, i)->Ok_0.count))
            },
            Err(e) => exists|i: int|
                {
                    &&& 0 <= i < doc.count()
                    &&& #[trigger] line_of_doc(doc, rule, i) == Err::<LineOut, ErrorView>(e)
                    &&& forall|j: int| 0 <= j < i ==> #[trigger] line_of_doc(doc, rule, j) is Ok
                },
        },
{
    lemma_run(doc, rule, doc.count() as int);
}

// ---- replacing ---------------------------------------------------------------

/// Parts with a separator between each two.
pub open spec fn glued(parts: Seq<Seq<u8>>, sep: Seq<u8>) -> Seq<u8>
    decreases parts.len(),
{
    if parts.len() == 0 {
        Seq::empty()
    } else if parts.len() == 1 {
        parts[0]
    } else {
        parts[0] + sep + glued(parts.drop_first(), sep)
    }
}

/// Bytes do not hold a needle.
pub open spec fn free_of(part: Seq<u8>, needle: Seq<u8>) -> bool {
    forall|k: int| !#[trigger] occurs_at(part, needle, k)
}

/// In bytes with a needle behind them, the needle does not start earlier.
pub open spec fn up_to(part: Seq<u8>, needle: Seq<u8>) -> bool {
    forall|k: int| k < part.len() ==> !#[trigger] occurs_at(part + needle, needle, k)
}

/// Bytes are cut at the occurrences of a needle, from the left: the parts with
/// the needle between them are the bytes, no part holds the needle, and none
/// holds the start of one that ends in the needle behind it.
pub open spec fn cut_at(raw: Seq<u8>, needle: Seq<u8>, parts: Seq<Seq<u8>>) -> bool {
    &&& parts.len() > 0
    &&& glued(parts, needle) == raw
    &&& forall|i: int| 0 <= i < parts.len() - 1 ==> up_to(#[trigger] parts[i], needle)
    &&& forall|i: int| 0 <= i < parts.len() ==> free_of(#[trigger] parts[i], needle)
}

proof fn lemma_shifted(raw: Seq<u8>, needle: Seq<u8>, a: int, b: int, k: int)
    requires
        0 <= a <= b <= raw.len(),
        occurs_at(raw.subrange(a, b), needle, k),
    ensures
        occurs_at(raw, needle, a + k),
{
    let part = raw.subrange(a, b);
    assert(raw.subrange(a + k, a + k + needle.len()) =~= part.subrange(k, k + needle.len()));
}

proof fn lemma_up_to(raw: Seq<u8>, needle: Seq<u8>, pos: int, p: int)
    requires
        0 <= pos <= p,
        needle.len() > 0,
        occurs_at(raw, needle, p),
        forall|k: int| pos <= k < p ==> !#[trigger] occurs_at(raw, needle, k),
    ensures
        up_to(raw.subrange(pos, p), needle),
        free_of(raw.subrange(pos, p), needle),
{
    let head = raw.subrange(pos, p);
    let end = p + needle.len();
    assert(head + needle =~= raw.subrange(pos, end)) by {
        assert(raw.subrange(p, end) == needle);
        assert(raw.subrange(pos, end) =~= head + raw.subrange(p, end));
    }
    assert forall|k: int| k < head.len() implies !#[trigger] occurs_at(head + needle, needle, k) by {
        if occurs_at(head + needle, needle, k) {
            lemma_shifted(raw, needle, pos, end, k);
        }
    }
    assert forall|k: int| !#[trigger] occurs_at(head, needle, k) by {
        if occurs_at(head, needle, k) {
            lemma_shifted(raw, needle, pos, p, k);
        }
    }
}

proof fn lemma_rest_free(raw: Seq<u8>, needle: Seq<u8>, pos: int)
    requires
        0 <= pos <= raw.len(),
        forall|k: int| pos <= k ==> !#[trigger] occurs_at(raw, needle, k),
    ensures
        free_of(raw.skip(pos), needle),
{
    assert(raw.skip(pos) =~= raw.subrange(pos, raw.len() as int));
    assert forall|k: int| !#[trigger] occurs_at(raw.skip(pos), needle, k) by {
        if occurs_at(raw.skip(pos), needle, k) {
            lemma_shifted(raw, needle, pos, raw.len() as int, k);
        }
    }
}

proof fn lemma_cut(
    enc: Encoding,
    raw: Seq<u8>,
    needle: Seq<u8>,
    replacement: Seq<u8>,
    pos: int,
) -> (parts: Seq<Seq<u8>>)
    requires
        plain(enc),
        needle.len() > 0,
        0 <= pos <= raw.len(),
    ensures
        cut_at(raw.skip(pos), needle, parts),
        raw_replaced(enc, raw, needle, replacement, pos).0 == glued(parts, replacement),
        raw_replaced(enc, raw, needle, replacement, pos).1 == parts.len() - 1,
    decreases raw.len() - pos,
{
    lemma_next_at(raw, needle, pos);
    let rest = raw.skip(pos);
    match next_at(raw, needle, pos) {
        None => {
            lemma_rest_free(raw, needle, pos);
            seq![rest]
        },
        Some(p) => {
            let next = p + needle.len();
            let tail = lemma_cut(enc, raw, needle, replacement, next);
            let head = raw.subrange(pos, p);
            let parts = seq![head] + tail;
            lemma_up_to(raw, needle, pos, p);
            assert(parts.drop_first() =~= tail);
            assert(raw.subrange(p, next) == needle);
            assert(rest =~= head + needle + raw.skip(next));
            assert forall|i: int| 0 <= i < parts.len() - 1 implies up_to(
                #[trigger] parts[i],
                needle,
            ) by {
                if i > 0 {
                    assert(parts[i] == tail[i - 1]);
                }
            }
            assert forall|i: int| 0 <= i < parts.len() implies free_of(
                #[trigger] parts[i],
                needle,
            ) by {
                if i > 0 {
                    assert(parts[i] == tail[i - 1]);
                }
            }
            assert(glued(parts, needle) == head + needle + glued(tail, needle));
            assert(glued(parts, replacement) == head + replacement + glued(tail, replacement));
            parts
        },
    }
}

/// Replacing bytes in a line cuts the line at their occurrences, from the left,
/// and puts the replacement between the parts, an empty one too. There is one
/// replacement between each two parts, and the line changed where there is one.
/// The terminator stays.
pub proof fn a_replacement_stands_between_the_parts(
    enc: Encoding,
    raw: Seq<u8>,
    needle: Seq<u8>,
    replacement: Seq<u8>,
    term: Seq<u8>,
) -> (parts: Seq<Seq<u8>>)
    requires
        plain(enc),
        needle.len() > 0,
    ensures
        cut_at(raw, needle, parts),
        line_out(enc, RuleView::Literal(needle, replacement), raw, term) == Ok::<LineOut, ErrorView>(
            LineOut {
                bytes: glued(parts, replacement) + term,
                changed: parts.len() > 1,
                count: (parts.len() - 1) as nat,
            },
        ),
{
    let parts = lemma_cut(enc, raw, needle, replacement, 0);
    assert(raw.skip(0) =~= raw);
    parts
}

/// Replacing one text by another in a document in UTF-8 or ASCII replaces the
/// bytes of the one by those of the other in every line; only an empty text
/// cannot be replaced, and nothing is written where a file stands.
pub proof fn texts_are_replaced_by_texts(
    doc: DocView,
    target: Seq<char>,
    taken: bool,
    opts: ReplaceOptions,
)
    requires
        doc.encoding == Encoding::Utf8 || doc.encoding == Encoding::Ascii,
        !opts.regex,
        opts.case_sensitive,
    ensures
        replaced_document(doc, target, taken, opts) is Ok <==> !taken && opts.find@.len() > 0,
        !taken && opts.find@.len() > 0 ==> replaced_document(doc, target, taken, opts)
            == document_out(
            doc,
            RuleView::Literal(encode_utf8(opts.find@), encode_utf8(opts.replacement@)),
        ),
{
    let rule = RuleView::Literal(encode_utf8(opts.find@), encode_utf8(opts.replacement@));
    lemma_run(doc, rule, doc.count() as int);
}

// ---- cases -------------------------------------------------------------------

/// In upper case every small ASCII letter of a line is a capital, in lower case
/// every capital a small letter, and nothing else changes: not the other bytes,
/// nor two-byte characters of Shift_JIS, nor the terminator. A line changed
/// exactly where it held such a letter.
pub proof fn lines_change_their_case(enc: Encoding, raw: Seq<u8>, term: Seq<u8>, mode: CaseMode)
    requires
        !enc.wide(),
        mode == CaseMode::Upper || mode == CaseMode::Lower,
    ensures
        ({
            let r = line_out(enc, RuleView::Case(mode), raw, term);
            let out = r->Ok_0.bytes;
            &&& r is Ok
            &&& r->Ok_0.count == 0
            &&& out.len() == raw.len() + term.len()
            &&& out.skip(raw.len() as int) == term
            &&& forall|j: int|
                0 <= j < raw.len() ==> ({
                    let double = enc == Encoding::ShiftJis && (second_byte(raw, j) || second_byte(
                        raw,
                        j + 1,
                    ));
                    if !double && mode == CaseMode::Upper && 97 <= raw[j] <= 122 {
                        #[trigger] out[j] == raw[j] - 32
                    } else if !double && mode == CaseMode::Lower && 65 <= raw[j] <= 90 {
                        out[j] == raw[j] + 32
                    } else {
                        out[j] == raw[j]
                    }
                })
            &&& r->Ok_0.changed <==> out.take(raw.len() as int) != raw
        }),
{
    let sjis = enc == Encoding::ShiftJis;
    every_letter_changes_its_case(raw, sjis);
    let b = cased(raw, sjis, mode);
    let out = line_out(enc, RuleView::Case(mode), raw, term)->Ok_0.bytes;
    assert(out == b + term);
    assert(out.skip(raw.len() as int) =~= term);
    assert(out.take(raw.len() as int) =~= b);
    assert forall|j: int| 0 <= j < raw.len() implies #[trigger] out[j] == b[j] by {}
}

// ---- keeping lines -----------------------------------------------------------

proof fn lemma_line_complete(
    enc: Encoding,
    raw: Seq<u8>,
    needle: Seq<u8>,
    ww: bool,
    from: int,
    q: int,
)
    requires
        plain(enc),
        needle.len() > 0,
        0 <= from <= q,
        wanted(raw, needle, ww, q),
        forall|r: int| from <= r < q < r + needle.len() ==> !#[trigger] occurs_at(raw, needle, r),
    ensures
        literal_in_line(enc, raw, needle, ww, from),
    decreases raw.len() + 1 - from,
{
    lemma_next_at(raw, needle, from);
    assert(occurs_at(raw, needle, q));
    let p = next_at(raw, needle, from)->Some_0;
    if p == q {
        assert(line_accepts(enc, raw, ww, p, needle.len() as int));
    } else {
        assert(p + needle.len() <= q);
        lemma_line_complete(enc, raw, needle, ww, p + stride_of(needle), q);
    }
}

proof fn lemma_line_sound(enc: Encoding, raw: Seq<u8>, needle: Seq<u8>, ww: bool, from: int)
    requires
        plain(enc),
        needle.len() > 0,
        0 <= from,
        literal_in_line(enc, raw, needle, ww, from),
    ensures
        exists|q: int| #[trigger] wanted(raw, needle, ww, q),
    decreases raw.len() + 1 - from,
{
    lemma_next_at(raw, needle, from);
    let p = next_at(raw, needle, from)->Some_0;
    if line_accepts(enc, raw, ww, p, needle.len() as int) {
        assert(wanted(raw, needle, ww, p));
    } else {
        lemma_line_sound(enc, raw, needle, ww, p + stride_of(needle));
    }
}

/// Keeping the lines with a text keeps a line, whole and with its terminator, if
/// it holds the text, and drops it, terminator and all, if it does not. Of
/// whole words an occurrence counts that has no letter, digit or underscore
/// right before it or right after it; one that an earlier occurrence overlaps
/// is not looked at.
pub proof fn lines_with_a_text_are_kept(
    enc: Encoding,
    raw: Seq<u8>,
    needle: Seq<u8>,
    ww: bool,
    term: Seq<u8>,
)
    requires
        plain(enc),
        needle.len() > 0,
    ensures
        ({
            let r = line_out(enc, RuleView::Keep(PlanView::Literal(needle), ww), raw, term);
            &&& r is Ok
            &&& r->Ok_0.count == 0
            &&& r->Ok_0.changed ==> r->Ok_0.bytes == raw + term
            &&& !r->Ok_0.changed ==> r->Ok_0.bytes.len() == 0
            &&& r->Ok_0.changed ==> exists|q: int| #[trigger] wanted(raw, needle, ww, q)
            &&& !ww && (exists|q: int| #[trigger] wanted(raw, needle, ww, q)) ==> r->Ok_0.changed
            &&& forall|q: int|
                #[trigger] wanted(raw, needle, ww, q) && (forall|p: int|
                    p < q < p + needle.len() ==> !#[trigger] occurs_at(raw, needle, p))
                    ==> r->Ok_0.changed
        }),
{
    let hit = literal_in_line(enc, raw, needle, ww, 0);
    if hit {
        lemma_line_sound(enc, raw, needle, ww, 0);
    }
    assert forall|q: int|
        #[trigger] wanted(raw, needle, ww, q) && (forall|p: int|
            p < q < p + needle.len() ==> !#[trigger] occurs_at(raw, needle, p)) implies hit by {
        lemma_line_complete(enc, raw, needle, ww, 0, q);
    }
    if !ww && exists|q: int| #[trigger] wanted(raw, needle, ww, q) {
        let q = choose|q: int| #[trigger] wanted(raw, needle, ww, q);
        lemma_next_at(raw, needle, 0);
        assert(occurs_at(raw, needle, q));
        let p = next_at(raw, needle, 0)->Some_0;
        assert(line_accepts(enc, raw, ww, p, needle.len() as int));
    }
}

/// The lines that are kept of a document in UTF-8 or ASCII are those with the
/// bytes of the query. A file that is there is written over only if that is
/// asked for.
pub proof fn queries_are_looked_for_in_every_line(
    doc: DocView,
    target: Seq<char>,
    taken: bool,
    opts: GrepLinesOptions,
)
    requires
        doc.encoding == Encoding::Utf8 || doc.encoding == Encoding::Ascii,
        !opts.regex,
        opts.case_sensitive,
    ensures
        ({
            let r = kept_document(doc, target, taken, opts);
            let rule = RuleView::Keep(PlanView::Literal(encode_utf8(opts.query@)), opts.whole_word);
            &&& r is Ok <==> (!taken || opts.overwrite) && opts.query@.len() > 0
            &&& r is Ok ==> r == document_out(doc, rule)
        }),
{
    let rule = RuleView::Keep(PlanView::Literal(encode_utf8(opts.query@)), opts.whole_word);
    lemma_run(doc, rule, doc.count() as int);
}

/// A conversion of a document to a case is refused only where a file stands, or
/// for a line that cannot be converted.
pub proof fn cases_are_changed_in_every_line(
    doc: DocView,
    target: Seq<char>,
    taken: bool,
    opts: CaseOptions,
)
    ensures
        taken ==> cased_document(doc, target, taken, opts) is Err,
        !taken ==> cased_document(doc, target, taken, opts) == document_out(
            doc,
            RuleView::Case(opts.mode),
        ),
        !taken && !doc.encoding.wide() ==> cased_document(doc, target, taken, opts) is Ok,
{
    lemma_run(doc, RuleView::Case(opts.mode), doc.count() as int);
}

} // verus!
