//! What a save writes: the bytes of the document around the bytes of what was
//! edited, or every line anew in another encoding.

use vstd::prelude::*;
use vstd::string::*;

use crate::bytes::extend;
use crate::document::{terminator_bytes, terminator_in, DocView, Document};
use crate::edit::{shown_text, shown_total};
use crate::encoding::{encoded, Encoding};
use crate::eol::Eol;
use crate::error::{Error, ErrorView};
use crate::lines::{lemma_count, lemma_start, lemma_start_order};
use crate::overlay::{
    event_at, fits, lemma_between, no_event, ordered_anchors, shown, EditEvent, EventView, Overlay,
};
use crate::text::{decimal, decimal_text, texts};

verus! {

/// The bytes of a text, where the encoding has them.
pub open spec fn bytes_in(enc: Encoding, text: Seq<char>) -> Seq<u8> {
    match encoded(enc, text) {
        Some(b) => b,
        None => Seq::empty(),
    }
}

/// The bytes of lines that all get the same terminator.
pub open spec fn lines_image(enc: Encoding, lines: Seq<Seq<char>>, term: Seq<u8>) -> Seq<u8>
    decreases lines.len(),
{
    if lines.len() == 0 {
        Seq::empty()
    } else {
        lines_image(enc, lines.drop_last(), term) + bytes_in(enc, lines.last()) + term
    }
}

/// What is written for an anchor that has a line: the inserted lines, then the
/// line itself, untouched or replaced with its own terminator.
pub open spec fn event_image(doc: DocView, e: EventView, a: int) -> Seq<u8> {
    lines_image(doc.encoding, e.inserts, doc.new_term()) + if e.deleted {
        Seq::empty()
    } else {
        match e.replacement {
            Some(t) => bytes_in(doc.encoding, t) + doc.term(a as nat),
            None => doc.span(a as nat, (a + 1) as nat),
        }
    }
}

pub open spec fn block_image(doc: DocView, m: Map<u64, EventView>, a: int) -> Seq<u8> {
    event_image(doc, event_at(m, a as u64), a)
}

/// What is written for the anchors before `a`.
pub open spec fn image_upto(doc: DocView, m: Map<u64, EventView>, a: int) -> Seq<u8>
    decreases a,
{
    if a <= 0 {
        Seq::empty()
    } else {
        image_upto(doc, m, a - 1) + block_image(doc, m, a - 1)
    }
}

/// The last line of the document is still there and has no terminator.
pub open spec fn open_end(doc: DocView, m: Map<u64, EventView>) -> bool {
    let n = doc.count();
    n > 0 && doc.term((n - 1) as nat).len() == 0 && !event_at(m, (n - 1) as u64).deleted
}

/// What is written for the lines that are appended: they start on a line of
/// their own.
pub open spec fn end_image(doc: DocView, m: Map<u64, EventView>) -> Seq<u8> {
    let n = doc.count();
    let e = event_at(m, n as u64);
    let gap = if e.inserts.len() > 0 && open_end(doc, m) {
        doc.new_term()
    } else {
        Seq::empty()
    };
    gap + lines_image(doc.encoding, e.inserts, doc.new_term())
}

/// What a save writes.
pub open spec fn saved_image(doc: DocView, m: Map<u64, EventView>) -> Seq<u8> {
    doc.buf.take(doc.base) + image_upto(doc, m, doc.count() as int) + end_image(doc, m)
}

/// Whether all the text of an event can be written.
pub open spec fn event_writable(enc: Encoding, e: EventView) -> bool {
    &&& forall|i: int|
        0 <= i < e.inserts.len() ==> encoded(enc, #[trigger] e.inserts[i]) is Some
    &&& e.replacement is Some && !e.deleted ==> encoded(enc, e.replacement->Some_0) is Some
}

/// Whether all the edited text can be written.
pub open spec fn writable(enc: Encoding, m: Map<u64, EventView>) -> bool {
    forall|a: u64| #[trigger] m.contains_key(a) ==> event_writable(enc, m[a])
}

pub open spec fn cannot_encode(enc: Encoding) -> ErrorView {
    ErrorView::Unsupported("edited text cannot be encoded as "@ + enc.label_text())
}

fn err_cannot_encode(enc: Encoding) -> (e: Error)
    ensures
        e@ == cannot_encode(enc),
{
    Error::Unsupported("edited text cannot be encoded as ".to_owned().concat(enc.label()))
}

proof fn lemma_image_gap(doc: DocView, m: Map<u64, EventView>, a: int, b: int)
    requires
        doc.valid(),
        0 <= a <= b <= doc.count(),
        doc.count() < u64::MAX,
        forall|k: u64| a <= k < b ==> !#[trigger] m.contains_key(k),
    ensures
        image_upto(doc, m, b) == image_upto(doc, m, a) + doc.span(a as nat, b as nat),
    decreases b - a,
{
    let (s, k, p) = (doc.buf, doc.newline(), doc.base);
    lemma_start(s, k, p, a as nat);
    lemma_start(s, k, p, b as nat);
    if a == b {
        assert(doc.span(a as nat, b as nat) =~= Seq::empty());
        assert(image_upto(doc, m, a) + Seq::<u8>::empty() =~= image_upto(doc, m, a));
    } else {
        lemma_image_gap(doc, m, a, b - 1);
        assert(!m.contains_key((b - 1) as u64));
        lemma_start(s, k, p, (b - 1) as nat);
        lemma_start_order(s, k, p, a as nat, (b - 1) as nat);
        lemma_start_order(s, k, p, (b - 1) as nat, b as nat);
        assert(lines_image(doc.encoding, Seq::empty(), doc.new_term()) =~= Seq::empty());
        assert(block_image(doc, m, b - 1) =~= doc.span((b - 1) as nat, b as nat));
        assert(doc.span(a as nat, (b - 1) as nat) + doc.span((b - 1) as nat, b as nat)
            =~= doc.span(a as nat, b as nat));
        assert(image_upto(doc, m, b) =~= image_upto(doc, m, a) + doc.span(a as nat, b as nat));
    }
}

/// Saving without edits writes the buffer as it is.
pub proof fn untouched_save_is_identical(doc: DocView)
    requires
        doc.valid(),
        doc.count() < u64::MAX,
    ensures
        saved_image(doc, Map::empty()) == doc.buf,
        writable(doc.encoding, Map::empty()),
{
    let m = Map::<u64, EventView>::empty();
    let n = doc.count();
    lemma_image_gap(doc, m, 0, n as int);
    lemma_count(doc.buf, doc.newline(), doc.base, n);
    lemma_start(doc.buf, doc.newline(), doc.base, n);
    assert(event_at(m, n as u64) == no_event());
    assert(lines_image(doc.encoding, Seq::empty(), doc.new_term()) =~= Seq::empty());
    assert(saved_image(doc, m) =~= doc.buf);
}

/// Between what was written for two anchors, a save copies the lines at which
/// nothing differs byte for byte.
pub proof fn untouched_lines_are_copied(doc: DocView, m: Map<u64, EventView>, a: int, b: int)
    requires
        doc.valid(),
        doc.count() < u64::MAX,
        0 <= a <= b <= doc.count(),
        forall|k: u64| a <= k < b ==> !#[trigger] m.contains_key(k),
    ensures
        image_upto(doc, m, b) == image_upto(doc, m, a) + doc.span(a as nat, b as nat),
{
    lemma_image_gap(doc, m, a, b);
}

/// Replacing one line changes the bytes of that line alone: what stands before
/// it, its terminator, and what follows are those of the document.
pub proof fn one_edit_changes_one_line(doc: DocView, a: u64, text: Seq<char>)
    requires
        doc.valid(),
        doc.count() < u64::MAX,
        a < doc.count(),
    ensures
        ({
            let e = EventView { inserts: Seq::empty(), replacement: Some(text), deleted: false };
            let n = doc.count();
            saved_image(doc, Map::empty().insert(a, e)) == doc.buf.take(doc.start(a as nat))
                + bytes_in(doc.encoding, text) + doc.term(a as nat) + doc.buf.skip(
                doc.start(a as nat + 1),
            )
        }),
{
    let e = EventView { inserts: Seq::empty(), replacement: Some(text), deleted: false };
    let m = Map::<u64, EventView>::empty().insert(a, e);
    let n = doc.count();
    let (s, k, p) = (doc.buf, doc.newline(), doc.base);
    lemma_image_gap(doc, m, 0, a as int);
    lemma_image_gap(doc, m, a + 1, n as int);
    lemma_count(s, k, p, n);
    lemma_start(s, k, p, a as nat);
    lemma_start(s, k, p, a as nat + 1);
    lemma_start(s, k, p, n);
    lemma_start_order(s, k, p, 0, a as nat);
    lemma_start_order(s, k, p, a as nat + 1, n);
    assert(event_at(m, a) == e);
    assert(event_at(m, n as u64) == no_event());
    assert(lines_image(doc.encoding, Seq::empty(), doc.new_term()) =~= Seq::empty());
    assert(block_image(doc, m, a as int) =~= bytes_in(doc.encoding, text) + doc.term(a as nat));
    assert(image_upto(doc, m, a + 1) == image_upto(doc, m, a as int) + block_image(
        doc,
        m,
        a as int,
    ));
    assert(saved_image(doc, m) =~= doc.buf.take(doc.start(a as nat)) + bytes_in(doc.encoding, text)
        + doc.term(a as nat) + doc.buf.skip(doc.start(a as nat + 1)));
}

/// Appends the bytes of a text and a terminator.
fn push_line(out: &mut Vec<u8>, enc: Encoding, text: &str, term: &[u8]) -> (ok: bool)
    ensures
        ok == (encoded(enc, text@) is Some),
        ok ==> final(out)@ == old(out)@ + bytes_in(enc, text@) + term@,
{
    match enc.encode_text(text) {
        Some(b) => {
            extend(out, b.as_slice());
            extend(out, term);
            true
        },
        None => false,
    }
}

fn push_lines(out: &mut Vec<u8>, enc: Encoding, lines: &Vec<String>, term: &[u8]) -> (ok: bool)
    ensures
        ok == (forall|i: int|
            0 <= i < lines@.len() ==> encoded(enc, #[trigger] texts(lines@)[i]) is Some),
        ok ==> final(out)@ == old(out)@ + lines_image(enc, texts(lines@), term@),
{
    let ghost o = out@;
    let ghost t = texts(lines@);
    let mut i: usize = 0;
    assert(o + lines_image(enc, t.take(0), term@) =~= o);
    while i < lines.len()
        invariant
            i <= lines@.len(),
            t == texts(lines@),
            out@ == o + lines_image(enc, t.take(i as int), term@),
            forall|j: int| 0 <= j < i ==> encoded(enc, #[trigger] t[j]) is Some,
        decreases lines.len() - i,
    {
        assert(t[i as int] == lines@[i as int]@);
        if !push_line(out, enc, lines[i].as_str(), term) {
            return false;
        }
        assert(t.take(i + 1).drop_last() =~= t.take(i as int));
        assert(out@ =~= o + lines_image(enc, t.take(i + 1), term@));
        i += 1;
    }
    assert(t.take(t.len() as int) =~= t);
    true
}

/// Appends what is written for an anchor that has a line.
fn push_event(out: &mut Vec<u8>, doc: &Document, e: &EditEvent, a: u64, term: &[u8]) -> (ok: bool)
    requires
        doc.wf(),
        a < doc@.count(),
        term@ == doc@.new_term(),
    ensures
        ok == event_writable(doc@.encoding, e@),
        ok ==> final(out)@ == old(out)@ + event_image(doc@, e@, a as int),
{
    let ghost o = out@;
    let ghost d = doc@;
    let enc = doc.encoding();
    proof {
        doc.lemma_wf();
    }
    if !push_lines(out, enc, &e.inserts, term) {
        return false;
    }
    let ghost head = lines_image(enc, e@.inserts, term@);
    if e.deleted {
        assert(out@ =~= o + (head + Seq::<u8>::empty()));
        return true;
    }
    match &e.replacement {
        Some(t) => {
            if let Some(own) = doc.line_terminator(a) {
                if !push_line(out, enc, t.as_str(), own) {
                    return false;
                }
                assert(out@ =~= o + (head + (bytes_in(enc, t@) + own@)));
            }
        },
        None => {
            if let Some(b) = doc.raw_lines_span(a, a + 1) {
                extend(out, b);
                assert(out@ =~= o + (head + b@));
            }
        },
    }
    true
}

/// A part of what a save writes.
#[derive(Debug)]
pub enum SavePiece<'a> {
    /// Bytes of the document, untouched.
    Copied(&'a [u8]),
    /// Bytes of edited lines.
    Written(Vec<u8>),
}

impl<'a> SavePiece<'a> {
    pub open spec fn spec_bytes(self) -> Seq<u8> {
        match self {
            SavePiece::Copied(b) => b@,
            SavePiece::Written(b) => b@,
        }
    }

    pub fn bytes(&self) -> (b: &[u8])
        ensures
            b@ == self.spec_bytes(),
    {
        match self {
            SavePiece::Copied(b) => b,
            SavePiece::Written(b) => b.as_slice(),
        }
    }
}

/// The bytes of pieces, one after the other.
pub open spec fn joined(v: Seq<SavePiece>) -> Seq<u8>
    decreases v.len(),
{
    if v.len() == 0 {
        Seq::empty()
    } else {
        joined(v.drop_last()) + v.last().spec_bytes()
    }
}

fn push_piece<'a>(out: &mut Vec<SavePiece<'a>>, p: SavePiece<'a>)
    ensures
        joined(final(out)@) == joined(old(out)@) + p.spec_bytes(),
{
    let ghost before = out@;
    out.push(p);
    assert(out@.drop_last() =~= before);
}

/// What a save writes, piece by piece. Runs of untouched lines are pieces of the
/// document itself, so that only edited lines take memory.
pub(crate) fn stream_pieces<'a>(overlay: &Overlay, doc: &Document<'a>) -> (r: Result<
    Vec<SavePiece<'a>>,
    Error,
>)
    requires
        doc.wf(),
        fits(overlay@, doc@.lines()),
    ensures
        match r {
            Ok(v) => writable(doc@.encoding, overlay@) && joined(v@) == saved_image(
                doc@,
                overlay@,
            ),
            Err(e) => !writable(doc@.encoding, overlay@) && e@ == cannot_encode(doc@.encoding),
        },
{
    let ghost d = doc@;
    let ghost m = overlay@;
    let enc = doc.encoding();
    let n = doc.line_count();
    let term = doc.default_terminator();
    let v = overlay.anchors();
    let mut out: Vec<SavePiece<'a>> = Vec::new();
    push_piece(&mut out, SavePiece::Copied(doc.prefix_bytes()));
    let ghost pre = d.buf.take(d.base);
    let mut next: u64 = 0;
    let mut i: usize = 0;
    proof {
        doc.lemma_wf();
        assert(joined(out@) =~= pre + image_upto(d, m, 0));
    }
    while i < v.len() && v[i] < n
        invariant
            doc.wf(),
            d == doc@,
            d.valid(),
            m == overlay@,
            enc == d.encoding,
            n == d.count(),
            n < u64::MAX,
            term@ == d.new_term(),
            fits(m, d.lines()),
            ordered_anchors(m, v@),
            i <= v@.len(),
            next <= n,
            i > 0 ==> next == v@[i - 1] + 1,
            i == 0 ==> next == 0,
            joined(out@) == pre + image_upto(d, m, next as int),
            forall|j: int| 0 <= j < i ==> event_writable(enc, m[#[trigger] v@[j]]),
        decreases v.len() - i,
    {
        let a = v[i];
        proof {
            assert(m.contains_key(a));
            if i > 0 {
                assert(v@[i - 1] < v@[i as int]);
            }
            lemma_between(m, v@, i as int, next as int, a as int);
            lemma_image_gap(d, m, next as int, a as int);
        }
        if let Some(b) = doc.raw_lines_span(next, a) {
            push_piece(&mut out, SavePiece::Copied(b));
        }
        assert(joined(out@) =~= pre + image_upto(d, m, a as int));
        if let Some(e) = overlay.get(a) {
            assert(e@ == event_at(m, a));
            let mut bytes: Vec<u8> = Vec::new();
            if !push_event(&mut bytes, doc, e, a, term.as_slice()) {
                return Err(err_cannot_encode(enc));
            }
            assert(bytes@ =~= block_image(d, m, a as int));
            push_piece(&mut out, SavePiece::Written(bytes));
            assert(joined(out@) =~= pre + (image_upto(d, m, a as int) + block_image(
                d,
                m,
                a as int,
            )));
        }
        next = a + 1;
        i += 1;
    }
    proof {
        lemma_between(m, v@, i as int, next as int, n as int);
        lemma_image_gap(d, m, next as int, n as int);
    }
    if let Some(b) = doc.raw_lines_span(next, n) {
        push_piece(&mut out, SavePiece::Copied(b));
    }
    assert(joined(out@) =~= pre + image_upto(d, m, n as int));
    assert(lines_image(enc, Seq::empty(), d.new_term()) =~= Seq::empty());
    if let Some(e) = overlay.get(n) {
        assert(e@ == event_at(m, n));
        assert(e.inserts@.len() == e@.inserts.len());
        let open = if n > 0 {
            let gone = match overlay.get(n - 1) {
                Some(l) => {
                    assert(l@ == event_at(m, (n - 1) as u64));
                    l.deleted
                },
                None => false,
            };
            match doc.line_terminator(n - 1) {
                Some(t) => t.len() == 0 && !gone,
                None => !gone,
            }
        } else {
            false
        };
        assert(open == open_end(d, m));
        let mut bytes: Vec<u8> = Vec::new();
        if e.inserts.len() > 0 && open {
            extend(&mut bytes, term.as_slice());
        }
        if !push_lines(&mut bytes, enc, &e.inserts, term.as_slice()) {
            assert(m.contains_key(n));
            assert(!event_writable(enc, m[n]));
            return Err(err_cannot_encode(enc));
        }
        push_piece(&mut out, SavePiece::Written(bytes));
        assert(m.contains_key(n));
        assert(event_writable(enc, m[n]));
    }
    proof {
        assert(joined(out@) =~= saved_image(d, m));
        assert forall|a: u64| #[trigger] m.contains_key(a) implies event_writable(enc, m[a]) by {
            let j = choose|j: int| 0 <= j < v@.len() && v@[j] == a;
            assert(v@.contains(a));
            if j >= i {
                if j > i {
                    assert(v@[i as int] < v@[j]);
                }
                assert(a == n);
            }
        }
    }
    Ok(out)
}

/// The bytes that a save writes.
pub(crate) fn stream_bytes(overlay: &Overlay, doc: &Document) -> (r: Result<Vec<u8>, Error>)
    requires
        doc.wf(),
        fits(overlay@, doc@.lines()),
    ensures
        match r {
            Ok(bytes) => writable(doc@.encoding, overlay@) && bytes@ == saved_image(
                doc@,
                overlay@,
            ),
            Err(e) => !writable(doc@.encoding, overlay@) && e@ == cannot_encode(doc@.encoding),
        },
{
    let v = match stream_pieces(overlay, doc) {
        Ok(v) => v,
        Err(e) => {
            return Err(e);
        },
    };
    let mut out: Vec<u8> = Vec::new();
    let mut i: usize = 0;
    assert(out@ =~= joined(v@.take(0)));
    while i < v.len()
        invariant
            i <= v@.len(),
            out@ == joined(v@.take(i as int)),
        decreases v.len() - i,
    {
        extend(&mut out, v[i].bytes());
        assert(v@.take(i + 1).drop_last() =~= v@.take(i as int));
        i += 1;
    }
    assert(v@.take(v@.len() as int) =~= v@);
    Ok(out)
}

// ---- saving in another encoding ----------------------------------------------

/// The first line from `i` on that an encoding cannot write.
pub open spec fn first_unwritable(enc: Encoding, lines: Seq<Seq<char>>, i: int) -> Option<int>
    decreases lines.len() - i,
{
    if i < 0 || i >= lines.len() {
        None
    } else if encoded(enc, lines[i]) is None {
        Some(i)
    } else {
        first_unwritable(enc, lines, i + 1)
    }
}

/// The document ends with a line terminator.
pub open spec fn ends_terminated(doc: DocView) -> bool {
    doc.count() > 0 && doc.term((doc.count() - 1) as nat).len() > 0
}

/// The bytes of lines, the last with a terminator only if `closed` holds.
pub open spec fn converted_image(
    enc: Encoding,
    lines: Seq<Seq<char>>,
    term: Seq<u8>,
    closed: bool,
) -> Seq<u8> {
    if closed || lines.len() == 0 {
        lines_image(enc, lines, term)
    } else {
        lines_image(enc, lines.drop_last(), term) + bytes_in(enc, lines.last())
    }
}

/// The byte order mark that a converting save writes.
pub open spec fn bom_image(enc: Encoding, with_bom: bool) -> Seq<u8> {
    if with_bom && enc == Encoding::Utf8 {
        seq![0xEFu8, 0xBBu8, 0xBFu8]
    } else {
        Seq::empty()
    }
}

pub open spec fn cannot_write_line(line: nat, enc: Encoding) -> ErrorView {
    ErrorView::Unsupported(
        "line "@ + decimal_text(line + 1) + " has characters that cannot be written as "@
            + enc.label_text(),
    )
}

/// The first line from `from` up to `to` that an encoding cannot write.
pub open spec fn unwritable_among(enc: Encoding, lines: Seq<Seq<char>>, from: int, to: int) -> Option<
    int,
> {
    first_unwritable(enc, lines.take(to), from)
}

proof fn lemma_lines_concat(enc: Encoding, a: Seq<Seq<char>>, b: Seq<Seq<char>>, term: Seq<u8>)
    ensures
        lines_image(enc, a + b, term) == lines_image(enc, a, term) + lines_image(enc, b, term),
    decreases b.len(),
{
    if b.len() == 0 {
        assert(a + b =~= a);
        assert(lines_image(enc, a, term) + lines_image(enc, b, term) =~= lines_image(enc, a, term));
    } else {
        assert((a + b).drop_last() =~= a + b.drop_last());
        lemma_lines_concat(enc, a, b.drop_last(), term);
        assert(lines_image(enc, a + b, term) =~= lines_image(enc, a, term) + lines_image(
            enc,
            b,
            term,
        ));
    }
}

/// A converting save can be cut between any two lines.
pub proof fn conversions_are_cut_between_lines(
    enc: Encoding,
    a: Seq<Seq<char>>,
    b: Seq<Seq<char>>,
    term: Seq<u8>,
    closed: bool,
)
    requires
        b.len() > 0,
    ensures
        converted_image(enc, a + b, term, closed) == converted_image(enc, a, term, true)
            + converted_image(enc, b, term, closed),
{
    if closed {
        lemma_lines_concat(enc, a, b, term);
    } else {
        assert((a + b).drop_last() =~= a + b.drop_last());
        lemma_lines_concat(enc, a, b.drop_last(), term);
        assert(converted_image(enc, a + b, term, closed) =~= converted_image(enc, a, term, true)
            + converted_image(enc, b, term, closed));
    }
}

/// What a converting save writes before the lines.
pub fn converted_bom(enc: Encoding, with_bom: bool) -> (b: Vec<u8>)
    ensures
        b@ == bom_image(enc, with_bom),
{
    let mut out: Vec<u8> = Vec::new();
    if with_bom && enc == Encoding::Utf8 {
        out.push(0xEF);
        out.push(0xBB);
        out.push(0xBF);
    }
    assert(out@ =~= bom_image(enc, with_bom));
    out
}

/// The bytes that a converting save writes for some of the lines that are shown.
pub(crate) fn converted_part(
    overlay: &Overlay,
    doc: &Document,
    enc: Encoding,
    eol: Eol,
    from: u64,
    to: u64,
) -> (r: Result<Vec<u8>, Error>)
    requires
        doc.wf(),
        fits(overlay@, doc@.lines()),
        from <= to <= shown(overlay@, doc@.lines()).len(),
    ensures
        ({
            let lines = shown(overlay@, doc@.lines());
            match r {
                Ok(bytes) => {
                    &&& unwritable_among(enc, lines, from as int, to as int) is None
                    &&& bytes@ == converted_image(
                        enc,
                        lines.subrange(from as int, to as int),
                        terminator_in(enc, eol),
                        to < lines.len() || ends_terminated(doc@),
                    )
                },
                Err(e) => {
                    &&& unwritable_among(enc, lines, from as int, to as int) is Some
                    &&& e@ == cannot_write_line(
                        unwritable_among(enc, lines, from as int, to as int)->Some_0 as nat,
                        enc,
                    )
                },
            }
        }),
{
    let ghost lines = shown(overlay@, doc@.lines());
    let ghost upto = lines.take(to as int);
    let mut out: Vec<u8> = Vec::new();
    let term = terminator_bytes(enc, eol);
    let total = shown_total(overlay, doc);
    let n = doc.line_count();
    let closed = if n == 0 {
        false
    } else {
        match doc.line_terminator(n - 1) {
            Some(t) => t.len() > 0,
            None => false,
        }
    };
    let mut i: u64 = from;
    let ghost none = lines.subrange(from as int, from as int);
    assert(none.len() == 0);
    assert(out@ =~= converted_image(enc, none, term@, true));
    while i < to
        invariant
            doc.wf(),
            fits(overlay@, doc@.lines()),
            lines == shown(overlay@, doc@.lines()),
            upto == lines.take(to as int),
            total == lines.len(),
            from <= i <= to <= total,
            term@ == terminator_in(enc, eol),
            closed == ends_terminated(doc@),
            first_unwritable(enc, upto, from as int) == first_unwritable(enc, upto, i as int),
            out@ == converted_image(
                enc,
                lines.subrange(from as int, i as int),
                term@,
                i < total || closed,
            ),
        decreases to - i,
    {
        let text = match shown_text(overlay, doc, i) {
            Some(t) => t,
            None => String::new(),
        };
        assert(upto[i as int] == lines[i as int]);
        let bytes = match enc.encode_text(text.as_str()) {
            Some(b) => b,
            None => {
                let s = "line ".to_owned().concat(decimal(i as u128 + 1).as_str()).concat(
                    " has characters that cannot be written as ",
                ).concat(enc.label());
                return Err(Error::Unsupported(s));
            },
        };
        extend(&mut out, bytes.as_slice());
        proof {
            let t = lines.subrange(from as int, i + 1);
            assert(t.drop_last() =~= lines.subrange(from as int, i as int));
            assert(t.last() == lines[i as int]);
        }
        if i + 1 < total || closed {
            extend(&mut out, term.as_slice());
        }
        assert(out@ =~= converted_image(
            enc,
            lines.subrange(from as int, i + 1),
            term@,
            i + 1 < total || closed,
        ));
        i += 1;
    }
    Ok(out)
}

/// The bytes that a converting save writes.
pub(crate) fn converted_bytes(
    overlay: &Overlay,
    doc: &Document,
    enc: Encoding,
    eol: Eol,
    with_bom: bool,
) -> (r: Result<Vec<u8>, Error>)
    requires
        doc.wf(),
        fits(overlay@, doc@.lines()),
    ensures
        ({
            let lines = shown(overlay@, doc@.lines());
            match r {
                Ok(bytes) => {
                    &&& first_unwritable(enc, lines, 0) is None
                    &&& bytes@ == bom_image(enc, with_bom) + converted_image(
                        enc,
                        lines,
                        terminator_in(enc, eol),
                        ends_terminated(doc@),
                    )
                },
                Err(e) => {
                    &&& first_unwritable(enc, lines, 0) is Some
                    &&& e@ == cannot_write_line(
                        first_unwritable(enc, lines, 0)->Some_0 as nat,
                        enc,
                    )
                },
            }
        }),
{
    let ghost lines = shown(overlay@, doc@.lines());
    let total = shown_total(overlay, doc);
    proof {
        assert(lines.take(total as int) =~= lines);
        assert(lines.subrange(0, total as int) =~= lines);
    }
    match converted_part(overlay, doc, enc, eol, 0, total) {
        Ok(part) => {
            let mut out = converted_bom(enc, with_bom);
            extend(&mut out, part.as_slice());
            Ok(out)
        },
        Err(e) => Err(e),
    }
}

} // verus!
