//! What was saved reads back as what was shown.

use vstd::prelude::*;
use vstd::utf8::*;

use crate::document::{terminator_in, DocView};
use crate::encoding::{
    char_units, decoded, text_units, unit_bytes, units_bytes, utf16_round_trip, Encoding,
};
use crate::eol::Eol;
use crate::lines::{
    lemma_count, lemma_lf, lemma_lf_is, lemma_lf_none, lemma_start, lf_from, line_bytes,
    line_count, line_start, raw_end, text_end, unit_is, Newline,
};
use crate::overlay::{block, event_at, fits, shown, upto, EventView};
use crate::save::{
    block_image, bytes_in, converted_image, image_upto, lines_image, open_end, saved_image,
};
use crate::text::lemma_scalar_bytes;

verus! {

/// A unit of a newline's width with an ASCII character.
pub open spec fn unit(k: Newline, v: u8) -> Seq<u8> {
    match k {
        Newline::Byte => seq![v],
        Newline::Le => seq![v, 0],
        Newline::Be => seq![0, v],
    }
}

/// No line feed stands among the units of a line.
pub open spec fn no_feed(k: Newline, t: Seq<u8>) -> bool {
    forall|j: int| 0 <= j && j % k.width() == 0 ==> !#[trigger] unit_is(t, k, j, 10)
}

/// The last unit is a carriage return.
pub open spec fn ends_cr(k: Newline, t: Seq<u8>) -> bool {
    t.len() >= k.width() && t.len() as int % k.width() == 0 && unit_is(t, k, t.len() - k.width(), 13)
}

/// A text and a terminator that are read as a line of that text, with more
/// lines after it unless it is the `last`.
pub open spec fn record_ok(k: Newline, r: (Seq<u8>, Seq<u8>), last: bool) -> bool {
    let (t, term) = r;
    let w = k.width();
    &&& no_feed(k, t)
    &&& {
        ||| t.len() as int % w == 0 && term == unit(k, 10) && !ends_cr(k, t)
        ||| t.len() as int % w == 0 && term == unit(k, 13) + unit(k, 10)
        ||| last && term.len() == 0 && t.len() > 0 && !ends_cr(k, t)
        ||| last && term == unit(k, 13) && t.len() as int % w == 0
    }
}

/// Texts and terminators, one after the other.
pub open spec fn glued(r: Seq<(Seq<u8>, Seq<u8>)>) -> Seq<u8>
    decreases r.len(),
{
    if r.len() == 0 {
        Seq::empty()
    } else {
        glued(r.drop_last()) + r.last().0 + r.last().1
    }
}

pub open spec fn records_ok(k: Newline, r: Seq<(Seq<u8>, Seq<u8>)>) -> bool {
    forall|i: int| 0 <= i < r.len() ==> record_ok(k, #[trigger] r[i], i == r.len() - 1)
}

proof fn lemma_unit(s: Seq<u8>, k: Newline, p: int, v: u8)
    requires
        0 <= p,
        p + k.width() <= s.len(),
    ensures
        unit_is(s, k, p, v) <==> s.subrange(p, p + k.width()) == unit(k, v),
{
    let a = s.subrange(p, p + k.width());
    if unit_is(s, k, p, v) {
        assert(a =~= unit(k, v));
    }
    if a == unit(k, v) {
        assert(a[0] == s[p]);
        if k != Newline::Byte {
            assert(a[1] == s[p + 1]);
        }
    }
}

/// A record inside a buffer is a line of it.
proof fn lemma_record(s: Seq<u8>, k: Newline, p: int, r: (Seq<u8>, Seq<u8>), last: bool)
    requires
        0 <= p,
        p + r.0.len() + r.1.len() <= s.len(),
        s.subrange(p, p + r.0.len() + r.1.len()) == r.0 + r.1,
        record_ok(k, r, last),
        last ==> p + r.0.len() + r.1.len() == s.len(),
    ensures
        text_end(s, k, p) == p + r.0.len(),
        raw_end(s, k, p) == p + r.0.len() + r.1.len(),
        p < s.len(),
{
    let (t, term) = r;
    let w = k.width();
    let n = t.len() as int;
    let x = t + term;
    assert forall|j: int| 0 <= j < x.len() implies s[p + j] == x[j] by {
        assert(s.subrange(p, p + x.len())[j] == x[j]);
    }
    assert forall|j: int| p <= j && j + w <= p + n && (j - p) % w == 0 implies !#[trigger] unit_is(
        s,
        k,
        j,
        10,
    ) by {
        assert(!unit_is(t, k, j - p, 10));
        assert(s[j] == x[j - p]);
        if k != Newline::Byte {
            assert(s[j + 1] == x[j - p + 1]);
        }
    }
    if term == unit(k, 10) {
        assert(s[p + n] == x[n]);
        if k != Newline::Byte {
            assert(s[p + n + 1] == x[n + 1]);
        }
        assert(unit_is(s, k, p + n, 10));
        lemma_lf_is(s, k, p, p + n);
        if n >= w {
            assert(s[p + n - w] == x[n - w]);
            if k != Newline::Byte {
                assert(s[p + n - w + 1] == x[n - w + 1]);
            }
            assert(unit_is(s, k, p + n - w, 13) == unit_is(t, k, n - w, 13));
        }
    } else if term == unit(k, 13) + unit(k, 10) {
        assert(s[p + n] == x[n]);
        assert(s[p + n + w] == x[n + w]);
        if k != Newline::Byte {
            assert(s[p + n + 1] == x[n + 1]);
            assert(s[p + n + w + 1] == x[n + w + 1]);
        }
        assert(unit_is(s, k, p + n, 13));
        assert(!unit_is(s, k, p + n, 10));
        assert(unit_is(s, k, p + n + w, 10));
        assert((p + n + w - p) % w == 0);
        assert forall|j: int| p <= j < p + n + w && (j - p) % w == 0 implies !#[trigger] unit_is(
            s,
            k,
            j,
            10,
        ) by {
            if j + w > p + n {
                assert(j == p + n);
            }
        }
        lemma_lf_is(s, k, p, p + n + w);
    } else if term.len() == 0 {
        assert forall|j: int| p <= j && (j - p) % w == 0 implies !#[trigger] unit_is(
            s,
            k,
            j,
            10,
        ) by {}
        lemma_lf_none(s, k, p);
        if n >= w && n % w == 0 {
            assert(s[p + n - w] == x[n - w]);
            if k != Newline::Byte {
                assert(s[p + n - w + 1] == x[n - w + 1]);
            }
            assert(unit_is(s, k, p + n - w, 13) == unit_is(t, k, n - w, 13));
        }
    } else {
        assert(term == unit(k, 13));
        assert(s[p + n] == x[n]);
        if k != Newline::Byte {
            assert(s[p + n + 1] == x[n + 1]);
        }
        assert(unit_is(s, k, p + n, 13));
        assert forall|j: int| p <= j && (j - p) % w == 0 implies !#[trigger] unit_is(
            s,
            k,
            j,
            10,
        ) by {
            if p + n < j + w && j + w <= s.len() {
                assert(j == p + n);
            }
        }
        lemma_lf_none(s, k, p);
        assert((p + n + w - p) % w == 0);
    }
}

proof fn lemma_glued_take(r: Seq<(Seq<u8>, Seq<u8>)>, i: int)
    requires
        0 <= i <= r.len(),
    ensures
        glued(r).len() >= glued(r.take(i)).len(),
        glued(r).take(glued(r.take(i)).len() as int) == glued(r.take(i)),
    decreases r.len(),
{
    if i == r.len() {
        assert(r.take(i) =~= r);
        assert(glued(r).take(glued(r).len() as int) =~= glued(r));
    } else {
        lemma_glued_take(r.drop_last(), i);
        assert(r.drop_last().take(i) =~= r.take(i));
        assert(glued(r).take(glued(r.take(i)).len() as int) =~= glued(r.drop_last()).take(
            glued(r.take(i)).len() as int,
        ));
    }
}

proof fn lemma_glued_start(pre: Seq<u8>, k: Newline, r: Seq<(Seq<u8>, Seq<u8>)>, i: int)
    requires
        records_ok(k, r),
        0 <= i <= r.len(),
    ensures
        ({
            let s = pre + glued(r);
            &&& line_start(s, k, pre.len() as int, i as nat) == pre.len() + glued(r.take(i)).len()
            &&& i < r.len() ==> {
                &&& line_bytes(s, k, pre.len() as int, i as nat) == r[i].0
                &&& line_start(s, k, pre.len() as int, i as nat) < s.len()
            }
        }),
    decreases i,
{
    let s = pre + glued(r);
    let p = pre.len() + glued(r.take(i)).len() as int;
    if i > 0 {
        lemma_glued_start(pre, k, r, i - 1);
        lemma_in_place(pre, k, r, i - 1);
        assert(r.take(i).drop_last() =~= r.take(i - 1));
    } else {
        assert(r.take(0) =~= Seq::empty());
    }
    if i < r.len() {
        lemma_in_place(pre, k, r, i);
        assert(s.subrange(p, p + r[i].0.len()) =~= r[i].0) by {
            let whole = s.subrange(p, p + r[i].0.len() + r[i].1.len());
            assert(whole == r[i].0 + r[i].1);
            assert(s.subrange(p, p + r[i].0.len()) =~= whole.take(r[i].0.len() as int));
            assert((r[i].0 + r[i].1).take(r[i].0.len() as int) =~= r[i].0);
        }
    }
}

/// Record `i` stands behind the records before it.
proof fn lemma_in_place(pre: Seq<u8>, k: Newline, r: Seq<(Seq<u8>, Seq<u8>)>, i: int)
    requires
        records_ok(k, r),
        0 <= i < r.len(),
    ensures
        ({
            let s = pre + glued(r);
            let p = pre.len() + glued(r.take(i)).len() as int;
            &&& p + r[i].0.len() + r[i].1.len() <= s.len()
            &&& s.subrange(p, p + r[i].0.len() + r[i].1.len()) == r[i].0 + r[i].1
            &&& text_end(s, k, p) == p + r[i].0.len()
            &&& raw_end(s, k, p) == p + r[i].0.len() + r[i].1.len()
            &&& p < s.len()
        }),
{
    let s = pre + glued(r);
    let p = pre.len() + glued(r.take(i)).len() as int;
    let a = glued(r.take(i)).len() as int;
    let b = glued(r.take(i + 1)).len() as int;
    lemma_glued_take(r, i + 1);
    assert(r.take(i + 1).drop_last() =~= r.take(i));
    assert(r.take(i + 1).last() == r[i]);
    assert(glued(r.take(i + 1)) == glued(r.take(i)) + r[i].0 + r[i].1);
    assert(b == a + r[i].0.len() + r[i].1.len());
    assert(s.subrange(p, p + r[i].0.len() + r[i].1.len()) =~= glued(r).take(b).subrange(a, b));
    assert(glued(r.take(i + 1)).subrange(a, b) =~= r[i].0 + r[i].1);
    if i == r.len() - 1 {
        assert(r.take(i + 1) =~= r);
    }
    lemma_record(s, k, p, r[i], i == r.len() - 1);
}

/// Lines that are written one after the other, each with a terminator that
/// ends it, are read back as these lines.
pub proof fn written_lines_read_back(pre: Seq<u8>, k: Newline, r: Seq<(Seq<u8>, Seq<u8>)>)
    requires
        records_ok(k, r),
    ensures
        line_count(pre + glued(r), k, pre.len() as int) == r.len(),
        forall|i: int|
            0 <= i < r.len() ==> line_bytes(pre + glued(r), k, pre.len() as int, i as nat) == (
            #[trigger] r[i]).0,
{
    let s = pre + glued(r);
    let base = pre.len() as int;
    lemma_glued_start(pre, k, r, r.len() as int);
    assert(r.take(r.len() as int) =~= r);
    lemma_count(s, k, base, r.len());
    if r.len() > 0 {
        lemma_glued_start(pre, k, r, r.len() - 1);
        lemma_count(s, k, base, (r.len() - 1) as nat);
    }
    assert forall|i: int| 0 <= i < r.len() implies line_bytes(s, k, base, i as nat) == (
    #[trigger] r[i]).0 by {
        lemma_glued_start(pre, k, r, i);
    }
}

// ---- the records of a save ---------------------------------------------------

/// New lines, each with its terminator.
pub open spec fn new_records(enc: Encoding, lines: Seq<Seq<char>>, term: Seq<u8>) -> Seq<
    (Seq<u8>, Seq<u8>),
> {
    Seq::new(lines.len(), |i: int| (bytes_in(enc, lines[i]), term))
}

pub open spec fn block_records(doc: DocView, m: Map<u64, EventView>, a: int) -> Seq<
    (Seq<u8>, Seq<u8>),
> {
    let e = event_at(m, a as u64);
    new_records(doc.encoding, e.inserts, doc.new_term()) + if e.deleted {
        Seq::empty()
    } else {
        seq![
            (
                match e.replacement {
                    Some(t) => bytes_in(doc.encoding, t),
                    None => doc.raw(a as nat),
                },
                doc.term(a as nat),
            ),
        ]
    }
}

pub open spec fn records_upto(doc: DocView, m: Map<u64, EventView>, a: int) -> Seq<
    (Seq<u8>, Seq<u8>),
>
    decreases a,
{
    if a <= 0 {
        Seq::empty()
    } else {
        records_upto(doc, m, a - 1) + block_records(doc, m, a - 1)
    }
}

proof fn lemma_glued_concat(a: Seq<(Seq<u8>, Seq<u8>)>, b: Seq<(Seq<u8>, Seq<u8>)>)
    ensures
        glued(a + b) == glued(a) + glued(b),
    decreases b.len(),
{
    if b.len() == 0 {
        assert(a + b =~= a);
        assert(glued(a) + glued(b) =~= glued(a));
    } else {
        lemma_glued_concat(a, b.drop_last());
        assert((a + b).drop_last() =~= a + b.drop_last());
        assert(glued(a + b) =~= glued(a) + glued(b));
    }
}

proof fn lemma_new_records(enc: Encoding, lines: Seq<Seq<char>>, term: Seq<u8>)
    ensures
        glued(new_records(enc, lines, term)) == lines_image(enc, lines, term),
    decreases lines.len(),
{
    let r = new_records(enc, lines, term);
    if lines.len() > 0 {
        lemma_new_records(enc, lines.drop_last(), term);
        assert(r.drop_last() =~= new_records(enc, lines.drop_last(), term));
    }
}

proof fn lemma_image_records(doc: DocView, m: Map<u64, EventView>, a: int)
    requires
        doc.valid(),
        0 <= a <= doc.count(),
    ensures
        image_upto(doc, m, a) == glued(records_upto(doc, m, a)),
    decreases a,
{
    if a > 0 {
        lemma_image_records(doc, m, a - 1);
        let e = event_at(m, (a - 1) as u64);
        let news = new_records(doc.encoding, e.inserts, doc.new_term());
        let own = block_records(doc, m, a - 1).skip(news.len() as int);
        lemma_new_records(doc.encoding, e.inserts, doc.new_term());
        assert(block_records(doc, m, a - 1) =~= news + own);
        lemma_glued_concat(news, own);
        lemma_glued_concat(records_upto(doc, m, a - 1), block_records(doc, m, a - 1));
        let (s, k, base) = (doc.buf, doc.newline(), doc.base);
        let p = doc.start((a - 1) as nat);
        lemma_start(s, k, base, (a - 1) as nat);
        lemma_lf(s, k, p);
        assert(doc.raw((a - 1) as nat) + doc.term((a - 1) as nat) =~= doc.span(
            (a - 1) as nat,
            a as nat,
        ));
        if e.deleted {
            assert(own =~= Seq::empty());
            assert(glued(own) =~= Seq::empty());
        } else {
            assert(own.drop_last() =~= Seq::empty());
            assert(own.last() == block_records(doc, m, a - 1).last());
            assert(glued(own.drop_last()) =~= Seq::empty());
            assert(glued(own) =~= own.last().0 + own.last().1);
        }
        assert(block_image(doc, m, a - 1) =~= glued(block_records(doc, m, a - 1)));
    }
}

/// A line of a document, as a record.
proof fn lemma_doc_record(doc: DocView, i: nat)
    requires
        doc.valid(),
        i < doc.count(),
    ensures
        record_ok(doc.newline(), (doc.raw(i), doc.term(i)), i == doc.count() - 1),
        i < doc.count() - 1 ==> fed(doc.newline(), doc.term(i)),
        doc.term(i) == unit(doc.newline(), 10) || doc.term(i) == unit(doc.newline(), 13) + unit(
            doc.newline(),
            10,
        ) || (i == doc.count() - 1 && (doc.term(i).len() == 0 || doc.term(i) == unit(
            doc.newline(),
            13,
        ))),
{
    let (s, k, base) = (doc.buf, doc.newline(), doc.base);
    let w = k.width();
    let p = doc.start(i);
    lemma_start(s, k, base, i);
    lemma_count(s, k, base, i);
    lemma_count(s, k, base, i + 1);
    lemma_lf(s, k, p);
    let t = doc.raw(i);
    let term = doc.term(i);
    let e = lf_from(s, k, p);
    assert forall|j: int| 0 <= j && j % w == 0 implies !#[trigger] unit_is(t, k, j, 10) by {
        if unit_is(t, k, j, 10) {
            lemma_lf_first(s, k, p, p + j);
        }
    }
    let cut = text_end(s, k, p);
    if e < s.len() {
        lemma_unit(s, k, e, 10);
        if cut < e {
            lemma_unit(s, k, cut, 13);
            assert(term =~= s.subrange(cut, cut + w) + s.subrange(e, e + w));
        } else {
            assert(term =~= s.subrange(e, e + w));
            if ends_cr(k, t) {
                assert(unit_is(s, k, e - w, 13));
            }
        }
    } else {
        assert(raw_end(s, k, p) == s.len());
        if cut < e {
            lemma_unit(s, k, cut, 13);
            assert(term =~= s.subrange(cut, cut + w));
        } else {
            assert(term =~= Seq::empty());
            if ends_cr(k, t) {
                assert(unit_is(s, k, e - w, 13));
            }
        }
    }
}

/// A terminator that ends a line in the middle of a buffer.
pub open spec fn fed(k: Newline, term: Seq<u8>) -> bool {
    term == unit(k, 10) || term == unit(k, 13) + unit(k, 10)
}

proof fn lemma_lf_first(s: Seq<u8>, k: Newline, p: int, q: int)
    requires
        0 <= p <= q,
        (q - p) % k.width() == 0,
        unit_is(s, k, q, 10),
    ensures
        lf_from(s, k, p) <= q,
    decreases q - p,
{
    if !unit_is(s, k, p, 10) {
        if q == p {
        } else {
            let w = k.width();
            assert(q - p >= w) by {
                if w == 2 && q - p == 1 {
                    assert((q - p) % 2 == 1);
                }
            }
            assert((q - (p + w)) % w == 0);
            lemma_lf_first(s, k, p + w, q);
        }
    }
}

// ---- the law -----------------------------------------------------------------

/// A text that is written as a line is read back as that text.
pub open spec fn reads_back(enc: Encoding, t: Seq<char>) -> bool {
    let k = Newline::of(enc);
    let b = bytes_in(enc, t);
    &&& decoded(enc, b) == t
    &&& no_feed(k, b)
    &&& !ends_cr(k, b)
    &&& b.len() as int % k.width() == 0
}

/// All the edited text of an event is read back.
pub open spec fn event_reads_back(enc: Encoding, e: EventView) -> bool {
    &&& forall|i: int| 0 <= i < e.inserts.len() ==> reads_back(enc, #[trigger] e.inserts[i])
    &&& e.replacement is Some ==> reads_back(enc, e.replacement->Some_0)
}

/// The end of the document takes what the overlay does there: appended lines
/// follow a line whose units are whole, and an unterminated last line does not
/// become empty.
pub open spec fn end_holds(doc: DocView, m: Map<u64, EventView>) -> bool {
    let n = doc.count();
    let term = doc.term((n - 1) as nat);
    let last = event_at(m, (n - 1) as u64);
    n > 0 ==> if event_at(m, n as u64).inserts.len() > 0 {
        if term.len() == 0 {
            !last.deleted && last.replacement is None ==> doc.raw((n - 1) as nat).len() as int
                % doc.newline().width() == 0
        } else {
            fed(doc.newline(), term) || last.deleted
        }
    } else {
        term.len() == 0 && last.replacement is Some && !last.deleted ==> bytes_in(
            doc.encoding,
            last.replacement->Some_0,
        ).len() > 0
    }
}

pub open spec fn some_inserted(m: Map<u64, EventView>) -> bool {
    exists|a: u64| #[trigger] m.contains_key(a) && m[a].inserts.len() > 0
}

proof fn lemma_records_upto(doc: DocView, m: Map<u64, EventView>, a: int)
    requires
        doc.valid(),
        fits(m, doc.lines()),
        forall|x: u64| #[trigger] m.contains_key(x) ==> event_reads_back(doc.encoding, m[x]),
        some_inserted(m) ==> doc.eol != Eol::Cr,
        0 <= a <= doc.count(),
    ensures
        ({
            let r = records_upto(doc, m, a);
            let t = upto(m, doc.lines(), a);
            let k = doc.newline();
            &&& r.len() == t.len()
            &&& forall|i: int| 0 <= i < r.len() ==> decoded(doc.encoding, (#[trigger] r[i]).0) == t[i]
            &&& forall|i: int| 0 <= i < r.len() ==> no_feed(k, (#[trigger] r[i]).0)
            &&& forall|i: int|
                0 <= i < r.len() && (a < doc.count() || i < r.len() - 1 || event_at(
                    m,
                    (doc.count() - 1) as u64,
                ).deleted) ==> record_ok(k, #[trigger] r[i], false)
        }),
    decreases a,
{
    let k = doc.newline();
    if a > 0 {
        lemma_records_upto(doc, m, a - 1);
        lemma_new_term(doc.encoding, doc.eol);
        lemma_doc_record(doc, (a - 1) as nat);
        let e = event_at(m, (a - 1) as u64);
        let l = doc.lines();
        let b = block_records(doc, m, a - 1);
        let t = block(m, l, a - 1);
        assert(b.len() == t.len());
        if m.contains_key((a - 1) as u64) {
            assert(event_reads_back(doc.encoding, e));
            if e.inserts.len() > 0 {
                assert(some_inserted(m));
            }
        }
        let last = a == doc.count();
        assert forall|i: int| 0 <= i < b.len() implies decoded(
            doc.encoding,
            (#[trigger] b[i]).0,
        ) == t[i] && no_feed(k, b[i].0) && (i < e.inserts.len() || !last ==> record_ok(
            k,
            b[i],
            false,
        )) by {
            if i < e.inserts.len() {
                assert(b[i] == (bytes_in(doc.encoding, e.inserts[i]), doc.new_term()));
                assert(t[i] == e.inserts[i]);
                assert(reads_back(doc.encoding, e.inserts[i]));
            } else {
                assert(l[a - 1] == doc.text((a - 1) as nat));
            }
        }
        let r0 = records_upto(doc, m, a - 1);
        let r = records_upto(doc, m, a);
        assert forall|i: int| 0 <= i < r.len() implies #[trigger] r[i] == if i < r0.len() {
            r0[i]
        } else {
            b[i - r0.len()]
        } by {}
    }
}

proof fn lemma_new_term(enc: Encoding, eol: Eol)
    ensures
        eol != Eol::Cr ==> fed(Newline::of(enc), terminator_in(enc, eol)),
{
    let k = Newline::of(enc);
    let t = terminator_in(enc, eol);
    if eol == Eol::Crlf {
        assert(t =~= unit(k, 13) + unit(k, 10));
    } else if eol != Eol::Cr {
        assert(t =~= unit(k, 10));
    }
}

/// The records of a whole save: an unterminated last line gets a terminator
/// where lines follow it.
pub open spec fn all_records(doc: DocView, m: Map<u64, EventView>) -> Seq<(Seq<u8>, Seq<u8>)> {
    let n = doc.count();
    let r = records_upto(doc, m, n as int);
    let inserts = event_at(m, n as u64).inserts;
    let gap = inserts.len() > 0 && open_end(doc, m);
    (if gap {
        r.drop_last().push((r.last().0, doc.new_term()))
    } else {
        r
    }) + new_records(doc.encoding, inserts, doc.new_term())
}

proof fn lemma_last_record(doc: DocView, m: Map<u64, EventView>)
    requires
        doc.valid(),
        doc.count() > 0,
        !event_at(m, (doc.count() - 1) as u64).deleted,
    ensures
        ({
            let r = records_upto(doc, m, doc.count() as int);
            let e = event_at(m, (doc.count() - 1) as u64);
            &&& r.len() > 0
            &&& r.last().1 == doc.term((doc.count() - 1) as nat)
            &&& r.last().0 == match e.replacement {
                Some(t) => bytes_in(doc.encoding, t),
                None => doc.raw((doc.count() - 1) as nat),
            }
        }),
{
    let n = doc.count() as int;
    let b = block_records(doc, m, n - 1);
    let e = event_at(m, (n - 1) as u64);
    assert(b.len() == e.inserts.len() + 1);
    assert(records_upto(doc, m, n).last() == b.last());
}

proof fn lemma_all_records(doc: DocView, m: Map<u64, EventView>)
    requires
        doc.valid(),
        end_holds(doc, m),
    ensures
        saved_image(doc, m) == doc.buf.take(doc.base) + glued(all_records(doc, m)),
{
    let n = doc.count();
    let r0 = records_upto(doc, m, n as int);
    let e = event_at(m, n as u64);
    let news = new_records(doc.encoding, e.inserts, doc.new_term());
    let gap = e.inserts.len() > 0 && open_end(doc, m);
    lemma_image_records(doc, m, n as int);
    lemma_new_records(doc.encoding, e.inserts, doc.new_term());
    let r1 = if gap {
        r0.drop_last().push((r0.last().0, doc.new_term()))
    } else {
        r0
    };
    lemma_glued_concat(r1, news);
    if gap {
        lemma_last_record(doc, m);
        assert(r1.drop_last() =~= r0.drop_last());
        assert(glued(r1) =~= glued(r0) + doc.new_term());
    }
    assert(saved_image(doc, m) =~= doc.buf.take(doc.base) + glued(all_records(doc, m)));
}

proof fn lemma_units_differ(k: Newline)
    ensures
        unit(k, 10) != unit(k, 13),
        unit(k, 10).len() == k.width(),
        unit(k, 13).len() == k.width(),
        (unit(k, 13) + unit(k, 10)).len() == 2 * k.width(),
{
    if unit(k, 10) == unit(k, 13) {
        assert(unit(k, 10)[0] == unit(k, 13)[0]);
        if k != Newline::Byte {
            assert(unit(k, 10)[1] == unit(k, 13)[1]);
        }
    }
}

proof fn lemma_all_records_ok(doc: DocView, m: Map<u64, EventView>)
    requires
        doc.valid(),
        fits(m, doc.lines()),
        forall|a: u64| #[trigger] m.contains_key(a) ==> event_reads_back(doc.encoding, m[a]),
        some_inserted(m) ==> doc.eol != Eol::Cr,
        end_holds(doc, m),
    ensures
        records_ok(doc.newline(), all_records(doc, m)),
        all_records(doc, m).len() == shown(m, doc.lines()).len(),
        forall|i: int|
            0 <= i < all_records(doc, m).len() ==> decoded(
                doc.encoding,
                (#[trigger] all_records(doc, m)[i]).0,
            ) == shown(m, doc.lines())[i],
{
    let enc = doc.encoding;
    let k = doc.newline();
    let l = doc.lines();
    let n = doc.count();
    let r0 = records_upto(doc, m, n as int);
    let e = event_at(m, n as u64);
    let ev = event_at(m, (n - 1) as u64);
    let r = all_records(doc, m);
    let news = new_records(enc, e.inserts, doc.new_term());
    lemma_records_upto(doc, m, n as int);
    lemma_new_term(enc, doc.eol);
    lemma_units_differ(k);
    assert(block(m, l, n as int) =~= e.inserts);
    assert(shown(m, l) =~= upto(m, l, n as int) + e.inserts);
    if e.inserts.len() > 0 {
        assert(m.contains_key(n as u64));
        assert(some_inserted(m));
        assert(event_reads_back(enc, e));
    }
    let gap = e.inserts.len() > 0 && open_end(doc, m);
    if n > 0 {
        lemma_doc_record(doc, (n - 1) as nat);
        if !ev.deleted {
            lemma_last_record(doc, m);
            if m.contains_key((n - 1) as u64) {
                assert(event_reads_back(enc, ev));
            }
        }
    }
    assert forall|i: int| 0 <= i < r.len() implies decoded(enc, (#[trigger] r[i]).0) == shown(
        m,
        l,
    )[i] && record_ok(k, r[i], i == r.len() - 1) by {
        if i < r0.len() - 1 {
            assert(r[i] == r0[i]);
        } else if i == r0.len() - 1 {
            assert(r[i].0 == r0[i].0);
            if gap {
                assert(r[i] == (r0.last().0, doc.new_term()));
                assert(record_ok(k, r[i], false));
            } else {
                assert(r[i] == r0[i]);
                if ev.deleted {
                    assert(record_ok(k, r[i], false));
                } else if e.inserts.len() > 0 {
                    assert(fed(k, doc.term((n - 1) as nat)));
                    assert(record_ok(k, r[i], false));
                } else {
                    assert(record_ok(k, r[i], true));
                }
            }
        } else {
            assert(r[i] == news[i - r0.len()]);
            assert(reads_back(enc, e.inserts[i - r0.len()]));
        }
    }
}

/// What a save writes is read back, in the same encoding, as the lines that
/// were shown.
pub proof fn saved_lines_read_back(doc: DocView, m: Map<u64, EventView>)
    requires
        doc.valid(),
        fits(m, doc.lines()),
        forall|a: u64| #[trigger] m.contains_key(a) ==> event_reads_back(doc.encoding, m[a]),
        some_inserted(m) ==> doc.eol != Eol::Cr,
        end_holds(doc, m),
    ensures
        (DocView { buf: saved_image(doc, m), ..doc }).lines() == shown(m, doc.lines()),
{
    let r = all_records(doc, m);
    let pre = doc.buf.take(doc.base);
    lemma_all_records(doc, m);
    lemma_all_records_ok(doc, m);
    written_lines_read_back(pre, doc.newline(), r);
    let d2 = DocView { buf: saved_image(doc, m), ..doc };
    assert forall|i: int| 0 <= i < r.len() implies #[trigger] d2.lines()[i] == shown(
        m,
        doc.lines(),
    )[i] by {
        assert(d2.raw(i as nat) == r[i].0);
    }
    assert(d2.lines() =~= shown(m, doc.lines()));
}

/// A converting save is read back, in its encoding, as the lines that were
/// shown, unless the last line is empty and gets no terminator.
pub proof fn converted_lines_read_back(
    pre: Seq<u8>,
    enc: Encoding,
    lines: Seq<Seq<char>>,
    eol: Eol,
    closed: bool,
)
    requires
        eol != Eol::Cr,
        forall|i: int| 0 <= i < lines.len() ==> reads_back(enc, #[trigger] lines[i]),
        !closed && lines.len() > 0 ==> bytes_in(enc, lines.last()).len() > 0,
    ensures
        ({
            let buf = pre + converted_image(enc, lines, terminator_in(enc, eol), closed);
            let k = Newline::of(enc);
            &&& line_count(buf, k, pre.len() as int) == lines.len()
            &&& forall|i: int|
                0 <= i < lines.len() ==> decoded(
                    enc,
                    line_bytes(buf, k, pre.len() as int, i as nat),
                ) == #[trigger] lines[i]
        }),
{
    let k = Newline::of(enc);
    let term = terminator_in(enc, eol);
    lemma_new_term(enc, eol);
    lemma_units_differ(k);
    let whole = new_records(enc, lines, term);
    let r = if closed || lines.len() == 0 {
        whole
    } else {
        new_records(enc, lines.drop_last(), term).push((bytes_in(enc, lines.last()), Seq::empty()))
    };
    lemma_new_records(enc, lines, term);
    if !closed && lines.len() > 0 {
        lemma_new_records(enc, lines.drop_last(), term);
        assert(r.drop_last() =~= new_records(enc, lines.drop_last(), term));
    }
    assert(glued(r) =~= converted_image(enc, lines, term, closed));
    assert forall|i: int| 0 <= i < r.len() implies record_ok(k, #[trigger] r[i], i == r.len() - 1)
        && r[i].0 == bytes_in(enc, lines[i]) by {
        assert(reads_back(enc, lines[i]));
        if !closed && i == r.len() - 1 {
            assert(r[i] == (bytes_in(enc, lines.last()), Seq::<u8>::empty()));
        } else {
            assert(r[i] == (bytes_in(enc, lines[i]), term));
        }
    }
    written_lines_read_back(pre, k, r);
    assert forall|i: int| 0 <= i < lines.len() implies decoded(
        enc,
        line_bytes(pre + glued(r), k, pre.len() as int, i as nat),
    ) == #[trigger] lines[i] by {
        assert(r[i].0 == bytes_in(enc, lines[i]));
        assert(reads_back(enc, lines[i]));
    }
}

// ---- texts that are read back ------------------------------------------------

proof fn lemma_utf8_bytes(t: Seq<char>, v: u8)
    requires
        v < 0x80,
        forall|i: int| 0 <= i < t.len() ==> #[trigger] t[i] as u32 != v,
    ensures
        forall|j: int| 0 <= j < encode_utf8(t).len() ==> #[trigger] encode_utf8(t)[j] != v,
    decreases t.len(),
{
    if t.len() > 0 {
        lemma_utf8_bytes(t.drop_first(), v);
        let u = t[0] as u32;
        lemma_scalar_bytes(u, v);
        assert forall|j: int| 0 <= j < encode_utf8(t).len() implies #[trigger] encode_utf8(t)[j]
            != v by {
            let n = encode_scalar(u).len();
            if j < n {
                assert(encode_utf8(t)[j] == encode_scalar(u)[j]);
            } else {
                assert(encode_utf8(t)[j] == encode_utf8(t.drop_first())[j - n]);
            }
        }
    }
}

proof fn lemma_utf8_last(t: Seq<char>, v: u8)
    requires
        v < 0x80,
        t.len() > 0,
        t.last() as u32 != v,
    ensures
        encode_utf8(t).len() > 0,
        encode_utf8(t).last() != v,
    decreases t.len(),
{
    let n = encode_scalar(t[0] as u32);
    if t.len() == 1 {
        lemma_scalar_bytes(t[0] as u32, v);
        assert(t.drop_first() =~= Seq::empty());
        assert(encode_utf8(t) =~= n);
    } else {
        lemma_utf8_last(t.drop_first(), v);
        assert(t.drop_first().last() == t.last());
        assert(encode_utf8(t).last() == encode_utf8(t.drop_first()).last());
    }
}

proof fn lemma_char_value(c: char, d: char)
    ensures
        c as u32 == d as u32 ==> c == d,
{
    if c as u32 == d as u32 {
        char_u32_cast(c, c as u32);
        char_u32_cast(d, c as u32);
    }
}

proof fn lemma_units(t: Seq<char>, v: u16)
    requires
        v < 0xD800,
    ensures
        (forall|i: int| 0 <= i < t.len() ==> #[trigger] t[i] as u32 != v) ==> (forall|j: int|
            0 <= j < text_units(t).len() ==> #[trigger] text_units(t)[j] != v),
        t.len() > 0 ==> text_units(t).len() > 0,
        t.len() > 0 && t.last() as u32 != v ==> text_units(t).last() != v,
    decreases t.len(),
{
    if t.len() > 0 {
        let c = t[0];
        let rest = t.drop_first();
        lemma_units(rest, v);
        assert(text_units(t) == char_units(c) + text_units(rest));
        assert(char_units(c).len() >= 1);
        char_is_scalar(c);
        if t.len() == 1 {
            assert(rest =~= Seq::empty());
            assert(text_units(rest) =~= Seq::empty());
            assert(text_units(t) =~= char_units(c));
        } else {
            assert(rest.last() == t.last());
        }
        if forall|i: int| 0 <= i < t.len() ==> #[trigger] t[i] as u32 != v {
            assert forall|i: int| 0 <= i < rest.len() implies #[trigger] rest[i] as u32 != v by {
                assert(rest[i] == t[i + 1]);
            }
            assert(c == t[0]);
            assert forall|j: int| 0 <= j < text_units(t).len() implies #[trigger] text_units(t)[j]
                != v by {
                let n = char_units(c).len();
                if j >= n {
                    assert(text_units(t)[j] == text_units(rest)[j - n]);
                } else {
                    assert(text_units(t)[j] == char_units(c)[j]);
                }
            }
        }
    }
}

/// In UTF-8, ASCII and UTF-16 every text without a line feed, and without a
/// carriage return at its end, is read back as it was written.
pub proof fn plain_text_reads_back(enc: Encoding, t: Seq<char>)
    requires
        enc == Encoding::Utf8 || enc == Encoding::Ascii || enc == Encoding::Utf16Le || enc
            == Encoding::Utf16Be,
        !t.contains('\n'),
        t.len() > 0 ==> t.last() != '\r',
    ensures
        reads_back(enc, t),
{
    let k = Newline::of(enc);
    let b = bytes_in(enc, t);
    assert forall|i: int| 0 <= i < t.len() implies #[trigger] t[i] as u32 != 10 by {
        assert(t.contains(t[i]));
        lemma_char_value(t[i], '\n');
    }
    if t.len() > 0 {
        lemma_char_value(t.last(), '\r');
    }
    if k == Newline::Byte {
        encode_utf8_valid_utf8(t);
        encode_utf8_decode_utf8(t);
        lemma_utf8_bytes(t, 10);
        if t.len() > 0 {
            lemma_utf8_last(t, 13);
        }
    } else {
        let le = k == Newline::Le;
        let u = text_units(t);
        utf16_round_trip(t, le);
        lemma_units(t, 10);
        lemma_units(t, 13);
        assert(b == units_bytes(u, le));
        assert forall|j: int, v: u8| 0 <= j && j % 2 == 0 && #[trigger] unit_is(
            b,
            k,
            j,
            v,
        ) implies u[j / 2] == v by {
            let x = u[j / 2];
            assert((j + 1) / 2 == j / 2 && (j + 1) % 2 == 1);
            assert(b[j] == unit_bytes(x, le)[0]);
            assert(b[j + 1] == unit_bytes(x, le)[1]);
            assert(x == 256 * (x / 256) + x % 256);
        }
        if ends_cr(k, b) {
            assert((b.len() - 2) / 2 == u.len() - 1);
        }
    }
}

} // verus!
