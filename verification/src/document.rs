//! A document: an immutable buffer with its encoding and its line index.

use vstd::prelude::*;
use vstd::string::*;

use crate::bytes::extend;
use crate::detect::{detect, detected};
use crate::encoding::{codec_size, decoded, encoded, units_bytes, Encoding};
use crate::eol::{code_units, detect_eol_for, sniffed, units_eol, Eol};
use crate::error::{Error, ErrorView};
use crate::index::{clamped, window_len, LineIndex, DEFAULT_STRIDE};
use crate::lines::{
    lemma_count, lemma_start, lemma_start_order, line_bytes, line_count, line_span, line_start,
    line_term, Newline,
};
use crate::walk::{column_offset, iso2022jp_col_offset, jis_column, legacy, legacy_col_offset};
use crate::patterns::planned;
use crate::search::{
    self, all_hits, answered, first_hit, hits_view, in_order, opt_hit, prev_found, FindOptions,
    SearchHit, SearchOptions, SearchResult, Source,
};

verus! {

/// How to open a document.
#[derive(Clone, Debug)]
pub struct OpenOptions {
    /// The encoding, instead of the one that is detected.
    pub encoding: Option<Encoding>,
    /// Lines per checkpoint of the index.
    pub stride: Option<u64>,
    /// Where indexes of large files are kept between sessions.
    pub cache_dir: Option<String>,
}

impl Default for OpenOptions {
    fn default() -> (o: OpenOptions)
        ensures
            o.encoding is None,
            o.stride is None,
            o.cache_dir is None,
    {
        OpenOptions { encoding: None, stride: None, cache_dir: None }
    }
}

/// A line with its number.
#[derive(Clone, Debug)]
pub struct Line {
    pub number: u64,
    pub text: String,
}

/// What is known about an open document.
#[derive(Clone, Debug)]
pub struct FileStat {
    pub path: String,
    pub bytes: u64,
    pub lines: u64,
    pub encoding: Encoding,
    pub eol: Eol,
    pub bom_bytes: u64,
    pub stride: u64,
    pub checkpoints: usize,
    pub index_bytes: usize,
    pub index_ms: u128,
    /// Whether the index was kept from an earlier session.
    pub from_cache: bool,
}

/// What polling a document for appended data found.
#[derive(Clone, Copy, Debug, PartialEq, Eq, Structural)]
pub enum TailRefresh {
    /// The length is the same.
    Unchanged,
    /// Bytes were appended and are now part of the document.
    Grew,
    /// The file shrank, or was empty when it was opened: it has to be opened
    /// anew.
    Reindex,
}

/// A document over a buffer that somebody else holds.
pub struct Document<'a> {
    path: String,
    buf: &'a [u8],
    base: u64,
    encoding: Encoding,
    eol: Eol,
    index: LineIndex,
    index_ms: u128,
    from_cache: bool,
}

/// A document as a mathematical value.
pub struct DocView {
    pub path: Seq<char>,
    pub buf: Seq<u8>,
    pub base: int,
    pub encoding: Encoding,
    pub eol: Eol,
}

impl DocView {
    pub open spec fn newline(self) -> Newline {
        Newline::of(self.encoding)
    }

    /// The number of lines.
    pub open spec fn count(self) -> nat {
        line_count(self.buf, self.newline(), self.base)
    }

    /// The offset at which line `i` starts.
    pub open spec fn start(self, i: nat) -> int {
        line_start(self.buf, self.newline(), self.base, i)
    }

    /// The raw text of line `i`.
    pub open spec fn raw(self, i: nat) -> Seq<u8> {
        line_bytes(self.buf, self.newline(), self.base, i)
    }

    /// The terminator of line `i`.
    pub open spec fn term(self, i: nat) -> Seq<u8> {
        line_term(self.buf, self.newline(), self.base, i)
    }

    /// The text of line `i`.
    pub open spec fn text(self, i: nat) -> Seq<char> {
        decoded(self.encoding, self.raw(i))
    }

    /// The texts of all lines.
    pub open spec fn lines(self) -> Seq<Seq<char>> {
        Seq::new(self.count(), |i: int| self.text(i as nat))
    }

    /// The bytes of lines `i` up to `j`, terminators included.
    pub open spec fn span(self, i: nat, j: nat) -> Seq<u8> {
        self.buf.subrange(self.start(i), self.start(j))
    }

    /// The terminator that new lines get, in the encoding of the document.
    pub open spec fn new_term(self) -> Seq<u8> {
        terminator_in(self.encoding, self.eol)
    }

    /// What is searched.
    pub open spec fn source(self) -> Source {
        Source {
            buf: self.buf,
            base: self.base,
            newline: self.newline(),
            encoding: self.encoding,
        }
    }

    pub open spec fn valid(self) -> bool {
        &&& 0 <= self.base <= self.buf.len()
        &&& codec_size(self.buf.len())
    }
}

/// A line ending in an encoding.
pub open spec fn terminator_in(enc: Encoding, eol: Eol) -> Seq<u8> {
    match enc {
        Encoding::Utf16Le => units_bytes(eol.terminator().map_values(|b: u8| b as u16), true),
        Encoding::Utf16Be => units_bytes(eol.terminator().map_values(|b: u8| b as u16), false),
        _ => eol.terminator(),
    }
}

/// Writes a line ending in an encoding.
pub fn terminator_bytes(enc: Encoding, eol: Eol) -> (out: Vec<u8>)
    ensures
        out@ == terminator_in(enc, eol),
{
    let t = eol.bytes();
    let mut out: Vec<u8> = Vec::new();
    if !enc.is_wide() {
        extend(&mut out, t);
        assert(out@ =~= t@);
        return out;
    }
    let le = matches!(enc, Encoding::Utf16Le);
    let ghost units = t@.map_values(|b: u8| b as u16);
    let mut i: usize = 0;
    while i < t.len()
        invariant
            i <= t@.len(),
            units == t@.map_values(|b: u8| b as u16),
            out@ == units_bytes(units.take(i as int), le),
        decreases t.len() - i,
    {
        let ghost before = units.take(i as int);
        let b = t[i];
        if le {
            out.push(b);
            out.push(0);
        } else {
            out.push(0);
            out.push(b);
        }
        proof {
            let now = units.take(i + 1);
            let u = units[i as int];
            assert(u % 256 == b && u / 256 == 0);
            assert forall|j: int| 0 <= j < out@.len() implies out@[j] == #[trigger] units_bytes(
                now,
                le,
            )[j] by {
                if j < 2 * i {
                    assert(now[j / 2] == before[j / 2]);
                    assert(out@[j] == units_bytes(before, le)[j]);
                } else {
                    assert(j / 2 == i);
                    assert(now[j / 2] == u);
                }
            }
            assert(out@ =~= units_bytes(now, le));
        }
        i += 1;
    }
    assert(units.take(t@.len() as int) =~= units);
    out
}

/// The document that a buffer is opened as.
pub open spec fn opened(path: Seq<char>, buf: Seq<u8>, forced: Option<Encoding>) -> DocView {
    let (encoding, base) = detected(buf, forced);
    DocView {
        path,
        buf,
        base: base as int,
        encoding,
        eol: units_eol(code_units(encoding, sniffed(buf.skip(base as int)))),
    }
}

/// The offset of character column `col` in a raw line.
pub open spec fn column_byte(enc: Encoding, raw: Seq<u8>, col: nat) -> Option<int> {
    if legacy(enc) {
        column_offset(enc, raw, 0, col)
    } else if enc == Encoding::Iso2022Jp {
        jis_column(raw, 0, false, col)
    } else {
        let text = decoded(enc, raw);
        match encoded(enc, text.take(if col <= text.len() { col as int } else { text.len() as int })) {
            Some(bytes) => Some(bytes.len() as int),
            None => None,
        }
    }
}

impl<'a> View for Document<'a> {
    type V = DocView;

    closed spec fn view(&self) -> DocView {
        DocView {
            path: self.path@,
            buf: self.buf@,
            base: self.base as int,
            encoding: self.encoding,
            eol: self.eol,
        }
    }
}

impl<'a> Document<'a> {
    /// The index is one of the buffer.
    pub closed spec fn wf(&self) -> bool {
        &&& self.index.describes(self.buf@)
        &&& self.index.spec_base() == self.base
        &&& self.index.spec_newline() == Newline::of(self.encoding)
        &&& self@.valid()
    }

    /// The index is one that this document can have.
    pub closed spec fn spec_index(&self) -> LineIndex {
        self.index
    }

    pub closed spec fn spec_from_cache(&self) -> bool {
        self.from_cache
    }

    pub closed spec fn spec_index_ms(&self) -> u128 {
        self.index_ms
    }

    pub proof fn lemma_wf(&self)
        requires
            self.wf(),
        ensures
            self@.valid(),
            self@.count() <= u64::MAX,
            self@.buf.len() <= u64::MAX,
            self.spec_index().describes(self@.buf),
            self.spec_index().spec_line_count() == self@.count(),
            self.spec_index().spec_newline() == self@.newline(),
            self.spec_index().spec_base() == self@.base,
    {
        self.index.lemma_describes(self.buf@);
    }

    /// Opens a document over a buffer: its encoding and line ending are
    /// detected, and its lines are indexed.
    pub fn open(path: String, buf: &'a [u8], opts: &OpenOptions) -> (doc: Document<'a>)
        requires
            codec_size(buf@.len()),
        ensures
            doc.wf(),
            doc@ == opened(path@, buf@, opts.encoding),
            !doc.spec_from_cache(),
    {
        let (encoding, bom) = detect(buf, opts.encoding);
        let content = &buf[bom..buf.len()];
        assert(content@ =~= buf@.skip(bom as int));
        let eol = detect_eol_for(content, encoding);
        let stride: u64 = match opts.stride {
            Some(n) => n,
            None => DEFAULT_STRIDE,
        };
        let index = LineIndex::build_for(buf, bom as u64, stride, Newline::for_encoding(encoding));
        Document {
            path,
            buf,
            base: bom as u64,
            encoding,
            eol,
            index,
            index_ms: 0,
            from_cache: false,
        }
    }

    /// Opens a document with an index that was kept from an earlier session,
    /// unless the index is one of a buffer of another shape; then the lines
    /// are indexed anew.
    pub fn open_with_index(path: String, buf: &'a [u8], opts: &OpenOptions, kept: LineIndex) -> (doc:
        Document<'a>)
        requires
            codec_size(buf@.len()),
            kept.spec_len() == buf@.len() ==> kept.describes(buf@),
        ensures
            doc.wf(),
            doc@ == opened(path@, buf@, opts.encoding),
            doc.spec_from_cache() == (kept.spec_len() == buf@.len() && kept.spec_base()
                == opened(path@, buf@, opts.encoding).base && kept.spec_newline() == opened(
                path@,
                buf@,
                opts.encoding,
            ).newline()),
    {
        let (encoding, bom) = detect(buf, opts.encoding);
        if kept.source_len() == buf.len() as u64 && kept.base() == bom as u64 && kept.newline()
            == Newline::for_encoding(encoding) {
            let content = &buf[bom..buf.len()];
            assert(content@ =~= buf@.skip(bom as int));
            let eol = detect_eol_for(content, encoding);
            Document {
                path,
                buf,
                base: bom as u64,
                encoding,
                eol,
                index: kept,
                index_ms: 0,
                from_cache: true,
            }
        } else {
            Document::open(path, buf, opts)
        }
    }

    /// Records how long indexing took.
    pub fn set_index_ms(&mut self, ms: u128)
        requires
            old(self).wf(),
        ensures
            final(self).wf(),
            final(self)@ == old(self)@,
            final(self).spec_index() == old(self).spec_index(),
            final(self).spec_from_cache() == old(self).spec_from_cache(),
            final(self).spec_index_ms() == ms,
    {
        self.index_ms = ms;
    }

    pub fn buf(&self) -> (b: &'a [u8])
        ensures
            b@ == self@.buf,
    {
        self.buf
    }

    pub fn index(&self) -> (i: &LineIndex)
        ensures
            *i == self.spec_index(),
    {
        &self.index
    }

    pub fn base(&self) -> (n: u64)
        ensures
            n == self@.base,
    {
        self.base
    }

    pub fn line_count(&self) -> (n: u64)
        requires
            self.wf(),
        ensures
            n == self@.count(),
    {
        proof {
            self.lemma_wf();
        }
        self.index.line_count()
    }

    pub fn byte_len(&self) -> (n: u64)
        ensures
            n == self@.buf.len(),
    {
        self.buf.len() as u64
    }

    pub fn encoding(&self) -> (e: Encoding)
        ensures
            e == self@.encoding,
    {
        self.encoding
    }

    pub fn eol(&self) -> (e: Eol)
        ensures
            e == self@.eol,
    {
        self.eol
    }

    /// Whether the index was kept from an earlier session.
    pub fn from_cache(&self) -> (b: bool)
        ensures
            b == self.spec_from_cache(),
    {
        self.from_cache
    }

    /// The path that the document was opened from.
    pub fn path(&self) -> (p: &str)
        ensures
            p@ == self@.path,
    {
        self.path.as_str()
    }

    pub fn stat(&self) -> (st: FileStat)
        requires
            self.wf(),
        ensures
            st.path@ == self@.path,
            st.bytes == self@.buf.len(),
            st.lines == self@.count(),
            st.encoding == self@.encoding,
            st.eol == self@.eol,
            st.bom_bytes == self@.base,
            st.stride == self.spec_index().spec_stride(),
            st.checkpoints == self.spec_index().spec_checkpoints().len(),
            st.checkpoints * 16 <= usize::MAX ==> st.index_bytes == st.checkpoints * 16,
            st.index_ms == self.spec_index_ms(),
            st.from_cache == self.spec_from_cache(),
    {
        FileStat {
            path: self.path.clone(),
            bytes: self.buf.len() as u64,
            lines: self.line_count(),
            encoding: self.encoding,
            eol: self.eol,
            bom_bytes: self.base,
            stride: self.index.stride(),
            checkpoints: self.index.checkpoint_count(),
            index_bytes: self.index.memory_bytes(),
            index_ms: self.index_ms,
            from_cache: self.from_cache,
        }
    }

    /// Takes in a longer version of the buffer, of which the document is the
    /// start: only what was appended is indexed.
    pub fn refresh_tail(&mut self, new_buf: &'a [u8]) -> (r: TailRefresh)
        requires
            old(self).wf(),
            codec_size(new_buf@.len()),
            new_buf@.len() > old(self)@.buf.len() ==> new_buf@.take(old(self)@.buf.len() as int)
                == old(self)@.buf,
        ensures
            final(self).wf(),
            r == (if new_buf@.len() == old(self)@.buf.len() {
                TailRefresh::Unchanged
            } else if new_buf@.len() < old(self)@.buf.len() || old(self)@.buf.len() == 0 {
                TailRefresh::Reindex
            } else {
                TailRefresh::Grew
            }),
            r != TailRefresh::Grew ==> *final(self) == *old(self),
            r == TailRefresh::Grew ==> final(self)@ == (DocView {
                buf: new_buf@,
                ..old(self)@
            }),
    {
        let new_len = new_buf.len();
        let old_buf = self.buf;
        if new_len == old_buf.len() {
            return TailRefresh::Unchanged;
        }
        if new_len < old_buf.len() || old_buf.len() == 0 {
            return TailRefresh::Reindex;
        }
        self.index.extend_tail(old_buf, new_buf);
        self.buf = new_buf;
        TailRefresh::Grew
    }

    /// The bytes before the content: a byte-order mark, if there is one.
    pub fn prefix_bytes(&self) -> (b: &'a [u8])
        requires
            self.wf(),
        ensures
            b@ == self@.buf.take(self@.base),
    {
        let len = self.buf.len();
        let b = &self.buf[0..self.base as usize];
        assert(b@ =~= self@.buf.take(self@.base));
        b
    }

    /// The text of line `i`, without its terminator.
    pub fn line(&self, i: u64) -> (r: Option<String>)
        requires
            self.wf(),
        ensures
            r is Some <==> i < self@.count(),
            r matches Some(t) ==> t@ == self@.text(i as nat),
    {
        proof {
            self.lemma_wf();
        }
        match self.raw_line(i) {
            Some(raw) => Some(self.encoding.decode_line(raw)),
            None => None,
        }
    }

    /// The raw text of line `i`, without its terminator.
    pub fn raw_line(&self, i: u64) -> (r: Option<&'a [u8]>)
        requires
            self.wf(),
        ensures
            r is Some <==> i < self@.count(),
            r matches Some(b) ==> b@ == self@.raw(i as nat) && codec_size(b@.len()),
    {
        proof {
            self.lemma_wf();
        }
        let len = self.buf.len();
        match self.index.line_range(self.buf, i) {
            Some((s, e)) => Some(&self.buf[s as usize..e as usize]),
            None => None,
        }
    }

    /// Up to `count` lines from `start` on.
    pub fn lines(&self, start: u64, count: u64) -> (out: Vec<Line>)
        requires
            self.wf(),
        ensures
            out@.len() == window_len(start as int, count as int, self@.count() as int),
            forall|j: int|
                0 <= j < out@.len() ==> (#[trigger] out@[j]).number == start + j && out@[j].text@
                    == self@.text((start + j) as nat),
    {
        proof {
            self.lemma_wf();
        }
        let len = self.buf.len();
        let ranges = self.index.line_ranges(self.buf, start, count);
        let mut out: Vec<Line> = Vec::new();
        let mut j: usize = 0;
        while j < ranges.len()
            invariant
                j <= ranges@.len(),
                out@.len() == j,
                len == self.buf@.len(),
                self.wf(),
                self@.valid(),
                forall|i: int|
                    0 <= i < ranges@.len() ==> {
                        let span = line_span(
                            self.buf@,
                            self.index.spec_newline(),
                            self.index.spec_base() as int,
                            (start + i) as nat,
                        );
                        &&& (#[trigger] ranges@[i]).0 == start + i
                        &&& ranges@[i].1 == span.0
                        &&& ranges@[i].2 == span.1
                        &&& ranges@[i].1 <= ranges@[i].2 <= len
                    },
                forall|i: int|
                    0 <= i < j ==> (#[trigger] out@[i]).number == start + i && out@[i].text@
                        == self@.text((start + i) as nat),
            decreases ranges.len() - j,
        {
            let (number, s, e) = ranges[j];
            let raw = &self.buf[s as usize..e as usize];
            assert(raw@ == self@.raw((start + j) as nat));
            let text = self.encoding.decode_line(raw);
            out.push(Line { number, text });
            j += 1;
        }
        out
    }

    /// The first `n` lines.
    pub fn head(&self, n: u64) -> (out: Vec<Line>)
        requires
            self.wf(),
        ensures
            out@.len() == window_len(0, n as int, self@.count() as int),
            forall|j: int|
                0 <= j < out@.len() ==> (#[trigger] out@[j]).number == j && out@[j].text@
                    == self@.text(j as nat),
    {
        self.lines(0, n)
    }

    /// The last `n` lines.
    pub fn tail(&self, n: u64) -> (out: Vec<Line>)
        requires
            self.wf(),
        ensures
            out@.len() == if n as int <= self@.count() { n as int } else { self@.count() as int },
            forall|j: int|
                0 <= j < out@.len() ==> (#[trigger] out@[j]).number == self@.count() - out@.len()
                    + j && out@[j].text@ == self@.text((self@.count() - out@.len() + j) as nat),
    {
        let total = self.line_count();
        let start = if n <= total {
            total - n
        } else {
            0
        };
        self.lines(start, n)
    }

    /// The offset at which line `i` starts.
    pub fn line_start_byte(&self, i: u64) -> (r: Option<u64>)
        requires
            self.wf(),
        ensures
            r is Some <==> i < self@.count(),
            r matches Some(b) ==> b == self@.start(i as nat),
    {
        proof {
            self.lemma_wf();
        }
        match self.index.line_range(self.buf, i) {
            Some((s, _e)) => Some(s),
            None => None,
        }
    }

    /// The offset of character column `col` on line `i`.
    pub fn line_col_byte(&self, i: u64, col: u64) -> (r: Option<u64>)
        requires
            self.wf(),
        ensures
            r is Some <==> i < self@.count() && column_byte(
                self@.encoding,
                self@.raw(i as nat),
                col as nat,
            ) is Some && self@.start(i as nat) + column_byte(
                self@.encoding,
                self@.raw(i as nat),
                col as nat,
            )->0 <= u64::MAX,
            r matches Some(b) ==> b == self@.start(i as nat) + column_byte(
                self@.encoding,
                self@.raw(i as nat),
                col as nat,
            )->0,
    {
        proof {
            self.lemma_wf();
        }
        let start = match self.line_start_byte(i) {
            Some(s) => s,
            None => {
                return None;
            },
        };
        let raw = match self.raw_line(i) {
            Some(raw) => raw,
            None => {
                return None;
            },
        };
        match self.encoding {
            Encoding::ShiftJis | Encoding::EucJp => {
                match legacy_col_offset(self.encoding, raw, col) {
                    Some(off) => start.checked_add(off as u64),
                    None => None,
                }
            },
            Encoding::Iso2022Jp => {
                match iso2022jp_col_offset(raw, col) {
                    Some(off) => start.checked_add(off as u64),
                    None => None,
                }
            },
            _ => {
                let text = self.encoding.decode_line(raw);
                let n = text.as_str().unicode_len();
                let take: usize = if col <= n as u64 {
                    col as usize
                } else {
                    n
                };
                let prefix = text.as_str().substring_char(0, take);
                assert(prefix@ =~= text@.take(take as int));
                match self.encoding.encode_query(prefix) {
                    Some(bytes) => start.checked_add(bytes.len() as u64),
                    None => None,
                }
            },
        }
    }

    /// The raw texts of up to `count` lines from `start` on, with their
    /// numbers.
    pub fn raw_line_ranges(&self, start: u64, count: u64) -> (out: Vec<(u64, &'a [u8])>)
        requires
            self.wf(),
        ensures
            out@.len() == window_len(start as int, count as int, self@.count() as int),
            forall|j: int|
                0 <= j < out@.len() ==> (#[trigger] out@[j]).0 == start + j && out@[j].1@
                    == self@.raw((start + j) as nat),
    {
        let all = self.raw_line_ranges_with_terminator(start, count);
        let mut out: Vec<(u64, &'a [u8])> = Vec::new();
        let mut j: usize = 0;
        while j < all.len()
            invariant
                j <= all@.len(),
                out@.len() == j,
                forall|i: int| 0 <= i < j ==> #[trigger] out@[i] == (all@[i].0, all@[i].1),
            decreases all.len() - j,
        {
            out.push((all[j].0, all[j].1));
            j += 1;
        }
        out
    }

    /// The raw texts and terminators of up to `count` lines from `start` on,
    /// with their numbers.
    pub fn raw_line_ranges_with_terminator(&self, start: u64, count: u64) -> (out: Vec<
        (u64, &'a [u8], &'a [u8]),
    >)
        requires
            self.wf(),
        ensures
            out@.len() == window_len(start as int, count as int, self@.count() as int),
            forall|j: int|
                0 <= j < out@.len() ==> (#[trigger] out@[j]).0 == start + j && out@[j].1@
                    == self@.raw((start + j) as nat) && out@[j].2@ == self@.term(
                    (start + j) as nat,
                ),
    {
        proof {
            self.lemma_wf();
        }
        let len = self.buf.len();
        let ranges = self.index.line_ranges_with_terminator(self.buf, start, count);
        let mut out: Vec<(u64, &'a [u8], &'a [u8])> = Vec::new();
        let mut j: usize = 0;
        while j < ranges.len()
            invariant
                j <= ranges@.len(),
                out@.len() == j,
                len == self.buf@.len(),
                self.wf(),
                forall|i: int|
                    0 <= i < ranges@.len() ==> {
                        &&& (#[trigger] ranges@[i]).0 == start + i
                        &&& (
                            ranges@[i].1 as int,
                            ranges@[i].2 as int,
                            ranges@[i].3 as int,
                        ) == line_span(
                            self.buf@,
                            self.index.spec_newline(),
                            self.index.spec_base() as int,
                            (start + i) as nat,
                        )
                        &&& ranges@[i].1 <= ranges@[i].2 <= ranges@[i].3 <= len
                    },
                forall|i: int|
                    0 <= i < j ==> (#[trigger] out@[i]).0 == start + i && out@[i].1@ == self@.raw(
                        (start + i) as nat,
                    ) && out@[i].2@ == self@.term((start + i) as nat),
            decreases ranges.len() - j,
        {
            let (number, s, t, e) = ranges[j];
            let raw = &self.buf[s as usize..t as usize];
            let term = &self.buf[t as usize..e as usize];
            out.push((number, raw, term));
            j += 1;
        }
        out
    }

    /// The raw bytes of line `i`, its terminator included.
    pub fn raw_line_with_terminator(&self, i: u64) -> (r: Option<&'a [u8]>)
        requires
            self.wf(),
        ensures
            r is Some <==> i < self@.count(),
            r matches Some(b) ==> b@ == self@.span(i as nat, (i + 1) as nat) && b@ == self@.raw(
                i as nat,
            ) + self@.term(i as nat),
    {
        proof {
            self.lemma_wf();
        }
        let len = self.buf.len();
        match self.index.line_range_with_terminator(self.buf, i) {
            Some((s, _t, e)) => {
                let b = &self.buf[s as usize..e as usize];
                assert(b@ =~= self@.raw(i as nat) + self@.term(i as nat));
                Some(b)
            },
            None => None,
        }
    }

    /// The raw bytes of lines `start` up to `end`, terminators included;
    /// `None` if there are not so many lines.
    pub fn raw_lines_span(&self, start: u64, end: u64) -> (r: Option<&'a [u8]>)
        requires
            self.wf(),
        ensures
            r is Some <==> start <= end <= self@.count(),
            r matches Some(b) ==> b@ == self@.span(start as nat, end as nat),
    {
        proof {
            self.lemma_wf();
        }
        let len = self.buf.len();
        let total = self.line_count();
        if start > end || end > total {
            return None;
        }
        proof {
            lemma_start(self@.buf, self@.newline(), self@.base, start as nat);
            lemma_start(self@.buf, self@.newline(), self@.base, end as nat);
            lemma_start_order(
                self@.buf,
                self@.newline(),
                self@.base,
                start as nat,
                end as nat,
            );
        }
        if start == end {
            let b = &self.buf[0..0];
            assert(b@ =~= self@.span(start as nat, end as nat));
            return Some(b);
        }
        let s = match self.index.line_range(self.buf, start) {
            Some((s, _e)) => s,
            None => {
                return None;
            },
        };
        let e = if end == total {
            proof {
                lemma_count(self@.buf, self@.newline(), self@.base, end as nat);
            }
            len as u64
        } else {
            match self.index.line_range(self.buf, end) {
                Some((e, _)) => e,
                None => {
                    return None;
                },
            }
        };
        Some(&self.buf[s as usize..e as usize])
    }

    /// The bytes of a range of the buffer; `None` if it is out of bounds.
    pub fn raw_byte_range(&self, start: u64, end: u64) -> (r: Option<&'a [u8]>)
        ensures
            r is Some <==> start <= end <= self@.buf.len(),
            r matches Some(b) ==> b@ == self@.buf.subrange(start as int, end as int),
    {
        let len = self.buf.len();
        if start <= end && end <= len as u64 {
            Some(&self.buf[start as usize..end as usize])
        } else {
            None
        }
    }

    /// The terminator of line `i`: empty if the last line has none.
    pub fn line_terminator(&self, i: u64) -> (r: Option<&'a [u8]>)
        requires
            self.wf(),
        ensures
            r is Some <==> i < self@.count(),
            r matches Some(b) ==> b@ == self@.term(i as nat),
    {
        proof {
            self.lemma_wf();
        }
        let len = self.buf.len();
        match self.index.line_range_with_terminator(self.buf, i) {
            Some((_s, t, e)) => Some(&self.buf[t as usize..e as usize]),
            None => None,
        }
    }

    /// The terminator that new lines get.
    pub fn default_terminator(&self) -> (b: Vec<u8>)
        ensures
            b@ == self@.new_term(),
    {
        terminator_bytes(self.encoding, self.eol)
    }
}

impl<'a> Document<'a> {
    /// Searches the document.
    pub fn search(&self, opts: &SearchOptions) -> (r: Result<SearchResult, Error>)
        requires
            self.wf(),
        ensures
            ({
                let d = self@;
                let from = clamped(opts.start_byte as int, d.base, d.buf.len() as int);
                match planned(d.encoding, opts.query@, opts.regex, opts.case_sensitive) {
                    Ok(plan) => r matches Ok(res) && answered(
                        res,
                        all_hits(d.source(), plan, opts.whole_word, from),
                        opts.max_hits as nat,
                    ) && in_order(d.source(), plan, from, hits_view(res.hits@)),
                    Err(e) => r matches Err(x) && x@ == ErrorView::Search(e),
                }
            }),
    {
        search::search(
            self.buf,
            self.base,
            self.buf.len() as u64,
            &self.index,
            self.encoding,
            opts,
        )
    }

    /// The first match at or after a byte.
    pub fn find_next(
        &self,
        query: &str,
        regex: bool,
        case_sensitive: bool,
        whole_word: bool,
        from_byte: u64,
    ) -> (r: Result<Option<SearchHit>, Error>)
        requires
            self.wf(),
        ensures
            ({
                let d = self@;
                let from = clamped(from_byte as int, d.base, d.buf.len() as int);
                match planned(d.encoding, query@, regex, case_sensitive) {
                    Ok(plan) => r matches Ok(h) && opt_hit(h) == first_hit(
                        all_hits(d.source(), plan, whole_word, from),
                    ),
                    Err(e) => r matches Err(x) && x@ == ErrorView::Search(e),
                }
            }),
    {
        let opts = FindOptions {
            query: query.to_owned(),
            regex,
            case_sensitive,
            whole_word,
            byte: from_byte,
        };
        search::find_next(
            self.buf,
            self.base,
            self.buf.len() as u64,
            &self.index,
            self.encoding,
            &opts,
        )
    }

    /// The last match that ends at or before a byte.
    pub fn find_prev(
        &self,
        query: &str,
        regex: bool,
        case_sensitive: bool,
        whole_word: bool,
        before_byte: u64,
    ) -> (r: Result<Option<SearchHit>, Error>)
        requires
            self.wf(),
        ensures
            ({
                let d = self@;
                let before = clamped(before_byte as int, d.base, d.buf.len() as int);
                match planned(d.encoding, query@, regex, case_sensitive) {
                    Ok(plan) => r matches Ok(h) && prev_found(
                        d.source(),
                        plan,
                        whole_word,
                        before,
                        opt_hit(h),
                    ),
                    Err(e) => r matches Err(x) && x@ == ErrorView::Search(e),
                }
            }),
    {
        let opts = FindOptions {
            query: query.to_owned(),
            regex,
            case_sensitive,
            whole_word,
            byte: before_byte,
        };
        search::find_prev(self.buf, self.base, &self.index, self.encoding, &opts)
    }
}

} // verus!
