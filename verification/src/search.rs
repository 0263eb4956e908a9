//! Search: matches in a buffer, with the line and the character column at
//! which each stands.

use vstd::prelude::*;
use vstd::string::*;
use vstd::utf8::*;

use crate::bytes::{occurs_at, rfind_bytes};
use crate::encoding::{
    char_units, codec_size, decoded, high_surrogate, low_surrogate, text_units, units_of, utf16_text,
    Encoding,
};
use crate::error::{Error, ErrorView};
use crate::index::{clamped, window_len, LineIndex};
use crate::lines::{
    lemma_count, lemma_lf, lemma_newlines, lemma_start, lemma_start_add, lemma_start_order, lf_from, line_count,
    line_span, line_start, newlines, raw_end,
    Newline,
};
use crate::markers::first_of;
use crate::patterns::{
    bytes_regex_find, byte_matches, char_index, count_before, decoded_by_line, find_from, first_at, is_whole_word,
    is_whole_word_text, is_whole_word_units, is_word_byte, lemma_char_index, planned, spans_apart, spans_inside, spans_view,
    text_matches, text_regex_find, whole_word, whole_word_text, whole_word_units, word_byte, MatchPlan, PlanView,
};
use crate::text::chars_of;
use crate::walk::{
    after_chars, boundary_at_or_after, char_before, is_legacy_multibyte, iso2022jp_char_span,
    jis_column_or_end, legacy, legacy_char_span, step, walk_to,
};

verus! {

/// What to search for, and how.
#[derive(Clone, Debug)]
pub struct SearchOptions {
    pub query: String,
    pub regex: bool,
    pub case_sensitive: bool,
    pub whole_word: bool,
    /// The offset from which on to search.
    pub start_byte: u64,
    /// How many hits to return at most.
    pub max_hits: usize,
}

impl Default for SearchOptions {
    fn default() -> (o: SearchOptions)
        ensures
            o.query@ == Seq::<char>::empty(),
            !o.regex && o.case_sensitive && !o.whole_word,
            o.start_byte == 0,
            o.max_hits == 1000,
    {
        let query = String::new();
        assert(query@ =~= Seq::<char>::empty());
        SearchOptions {
            query,
            regex: false,
            case_sensitive: true,
            whole_word: false,
            start_byte: 0,
            max_hits: 1000,
        }
    }
}

/// A match.
#[derive(Clone, Copy, Debug, PartialEq, Eq, Structural)]
pub struct SearchHit {
    pub line: u64,
    /// The character column, not the byte column.
    pub column: u64,
    pub byte: u64,
    pub byte_len: u64,
}

/// The matches that a search returns.
#[derive(Clone, Debug)]
pub struct SearchResult {
    pub hits: Vec<SearchHit>,
    /// Whether there are more than were asked for.
    pub truncated: bool,
}

/// What to look for next or before.
#[derive(Clone, Debug)]
pub struct FindOptions {
    pub query: String,
    pub regex: bool,
    pub case_sensitive: bool,
    pub whole_word: bool,
    /// The offset at or after which, or before which, to look.
    pub byte: u64,
}

/// A match as a mathematical value.
#[verifier::ext_equal]
pub struct HitView {
    pub line: int,
    pub column: int,
    pub byte: int,
    pub byte_len: int,
}

impl View for SearchHit {
    type V = HitView;

    open spec fn view(&self) -> HitView {
        HitView {
            line: self.line as int,
            column: self.column as int,
            byte: self.byte as int,
            byte_len: self.byte_len as int,
        }
    }
}

pub open spec fn hits_view(v: Seq<SearchHit>) -> Seq<HitView> {
    v.map_values(|h: SearchHit| h@)
}

// ---- what is searched --------------------------------------------------------

/// A buffer with its lines and its encoding.
pub struct Source {
    pub buf: Seq<u8>,
    pub base: int,
    pub newline: Newline,
    pub encoding: Encoding,
}

impl Source {
    pub open spec fn count(self) -> nat {
        line_count(self.buf, self.newline, self.base)
    }

    pub open spec fn start(self, line: nat) -> int {
        line_start(self.buf, self.newline, self.base, line)
    }

    /// The line of a byte.
    pub open spec fn line_of(self, b: int) -> nat {
        newlines(self.buf, self.newline, self.base, clamped(b, self.base, self.buf.len() as int))
    }

    /// Where the text of a line starts and ends.
    pub open spec fn text_span(self, line: nat) -> (int, int) {
        let s = line_span(self.buf, self.newline, self.base, line);
        (s.0, s.1)
    }

    pub open spec fn raw(self, line: nat) -> Seq<u8> {
        let s = self.text_span(line);
        self.buf.subrange(s.0, s.1)
    }

    /// A match of `len` bytes at `s`: its column counts the characters before
    /// it on its line.
    pub open spec fn hit(self, s: int, len: int) -> HitView {
        let line = self.line_of(s);
        let from = if line < self.count() { self.start(line) } else { s };
        HitView {
            line: line as int,
            column: decoded(self.encoding, self.buf.subrange(from, s)).len() as int,
            byte: s,
            byte_len: len,
        }
    }

    /// In encodings whose trail bytes look like other characters, a match must
    /// start where a character starts.
    pub open spec fn on_boundary(self, s: int) -> bool {
        let line = self.line_of(s);
        line < self.count() ==> boundary_at_or_after(self.encoding, self.buf, self.start(line), s)
            == s
    }

    /// The first byte of the character before or at `abs` on its line.
    pub open spec fn neighbor(self, abs: int, after: bool) -> Option<u8> {
        let line = self.line_of(abs);
        if line >= self.count() {
            None
        } else {
            let (ls, end) = self.text_span(line);
            let to = if abs <= end { abs } else { end };
            let p = boundary_at_or_after(self.encoding, self.buf, ls, to);
            if p != abs {
                None
            } else if after {
                if p < end {
                    Some(self.buf[p])
                } else {
                    None
                }
            } else {
                match char_before(self.encoding, self.buf, ls, to, None) {
                    Some(i) => Some(self.buf[i]),
                    None => None,
                }
            }
        }
    }

    /// A match of bytes is a whole word.
    pub open spec fn whole_word_at(self, s: int, len: int) -> bool {
        if legacy(self.encoding) {
            &&& !(self.neighbor(s, false) matches Some(b) && word_byte(b))
            &&& !(self.neighbor(s + len, true) matches Some(b) && word_byte(b))
        } else if self.encoding.wide() {
            whole_word_units(self.encoding, self.buf, s, len)
        } else {
            whole_word(self.buf, s, len)
        }
    }

    /// An occurrence of a literal query counts as a match.
    pub open spec fn accepts(self, ww: bool, s: int, len: int) -> bool {
        &&& self.encoding.wide() ==> s % 2 == 0
        &&& legacy(self.encoding) ==> self.on_boundary(s)
        &&& ww ==> self.whole_word_at(s, len)
    }
}

/// The first occurrence of a needle at or after `from`.
pub open spec fn next_at(buf: Seq<u8>, needle: Seq<u8>, from: int) -> Option<int>
    decreases buf.len() + 1 - from,
{
    if from < 0 || from > buf.len() {
        None
    } else if occurs_at(buf, needle, from) {
        Some(from)
    } else {
        next_at(buf, needle, from + 1)
    }
}

pub proof fn lemma_next_at(buf: Seq<u8>, needle: Seq<u8>, from: int)
    requires
        0 <= from,
    ensures
        match next_at(buf, needle, from) {
            Some(p) => first_at(buf, needle, from, p) && p <= buf.len(),
            None => forall|j: int| from <= j ==> !#[trigger] occurs_at(buf, needle, j),
        },
    decreases buf.len() + 1 - from,
{
    if from <= buf.len() && !occurs_at(buf, needle, from) {
        lemma_next_at(buf, needle, from + 1);
    }
}

pub proof fn lemma_next_is(buf: Seq<u8>, needle: Seq<u8>, from: int, p: int)
    requires
        0 <= from,
        first_at(buf, needle, from, p),
    ensures
        next_at(buf, needle, from) == Some(p),
{
    lemma_next_at(buf, needle, from);
}

/// How far a search goes on after an occurrence.
pub open spec fn stride_of(needle: Seq<u8>) -> int {
    if needle.len() == 0 {
        1
    } else {
        needle.len() as int
    }
}

/// How far a search goes on after an occurrence at `p`. One that lies between
/// two UTF-16 units is none of the text, and hides none that overlaps it.
pub open spec fn stride_at(enc: Encoding, needle: Seq<u8>, p: int) -> int {
    if enc.wide() && p % 2 != 0 {
        1
    } else {
        stride_of(needle)
    }
}

/// The matches of a literal query from `from` on. Occurrences do not overlap.
pub open spec fn literal_hits(src: Source, needle: Seq<u8>, ww: bool, from: int) -> Seq<HitView>
    decreases src.buf.len() + 1 - from,
    when 0 <= from
    via literal_hits_decreases
{
    match next_at(src.buf, needle, from) {
        None => Seq::empty(),
        Some(p) => (if src.accepts(ww, p, needle.len() as int) {
            seq![src.hit(p, needle.len() as int)]
        } else {
            Seq::empty()
        }) + literal_hits(src, needle, ww, p + stride_at(src.encoding, needle, p)),
    }
}

#[via_fn]
proof fn literal_hits_decreases(src: Source, needle: Seq<u8>, ww: bool, from: int) {
    lemma_next_at(src.buf, needle, from);
}

/// A match of a regex on bytes counts: it is not empty, and a whole word if
/// that is asked for.
pub open spec fn regex_accepts(src: Source, ww: bool, from: int, m: (int, int)) -> bool {
    &&& m.1 != m.0
    &&& ww ==> whole_word(src.buf, from + m.0, m.1 - m.0)
}

/// The matches of a regex on the bytes from `from` on that count.
pub open spec fn regex_hits(src: Source, ww: bool, from: int, ms: Seq<(int, int)>) -> Seq<HitView>
    decreases ms.len(),
{
    if ms.len() == 0 {
        Seq::empty()
    } else {
        let m = ms.last();
        let before = regex_hits(src, ww, from, ms.drop_last());
        if regex_accepts(src, ww, from, m) {
            before.push(src.hit(from + m.0, m.1 - m.0))
        } else {
            before
        }
    }
}

/// The bytes, offset and length, of the characters from `cs` up to `ce` of a
/// line.
pub open spec fn decoded_span(
    enc: Encoding,
    raw: Seq<u8>,
    text: Seq<char>,
    cs: int,
    ce: int,
) -> (int, int) {
    if enc.wide() {
        (
            2 * text_units(text.take(cs)).len() as int,
            2 * text_units(text.subrange(cs, ce)).len() as int,
        )
    } else if enc == Encoding::Iso2022Jp {
        let a = jis_column_or_end(raw, cs as nat);
        let b = jis_column_or_end(raw, ce as nat);
        (a, if b >= a { b - a } else { 0 })
    } else {
        let a = after_chars(enc, raw, 0, cs as nat);
        (a, after_chars(enc, raw, a, (ce - cs) as nat) - a)
    }
}

/// The match of a regex on the text of a line, if it counts.
pub open spec fn text_hit(src: Source, ww: bool, line: nat, m: (int, int)) -> Option<HitView> {
    let raw = src.raw(line);
    let text = decoded(src.encoding, raw);
    let cs = char_index(text, m.0) as int;
    let ce = char_index(text, m.1) as int;
    let span = decoded_span(src.encoding, raw, text, cs, ce);
    if m.1 == m.0 || (ww && !whole_word_text(text, cs, ce)) || span.1 == 0 {
        None
    } else {
        Some(
            HitView {
                line: line as int,
                column: cs,
                byte: src.start(line) + span.0,
                byte_len: span.1,
            },
        )
    }
}

pub open spec fn text_hits(src: Source, ww: bool, line: nat, ms: Seq<(int, int)>) -> Seq<HitView>
    decreases ms.len(),
{
    if ms.len() == 0 {
        Seq::empty()
    } else {
        let before = text_hits(src, ww, line, ms.drop_last());
        match text_hit(src, ww, line, ms.last()) {
            Some(h) => before.push(h),
            None => before,
        }
    }
}

/// The matches on the text of one line.
pub open spec fn line_hits(
    src: Source,
    pattern: Seq<char>,
    insensitive: bool,
    ww: bool,
    line: nat,
) -> Seq<HitView> {
    text_hits(
        src,
        ww,
        line,
        text_matches(pattern, insensitive, decoded(src.encoding, src.raw(line))),
    )
}

/// The matches on the texts of the lines from `from` up to `to`.
pub open spec fn lines_hits(
    src: Source,
    pattern: Seq<char>,
    insensitive: bool,
    ww: bool,
    from: int,
    to: int,
) -> Seq<HitView>
    decreases to - from,
{
    if from >= to {
        Seq::empty()
    } else {
        lines_hits(src, pattern, insensitive, ww, from, to - 1) + line_hits(
            src,
            pattern,
            insensitive,
            ww,
            (to - 1) as nat,
        )
    }
}

/// Those of the matches that start at or after `lo` and end at or before `hi`.
pub open spec fn hits_within(hits: Seq<HitView>, lo: int, hi: int) -> Seq<HitView>
    decreases hits.len(),
{
    if hits.len() == 0 {
        Seq::empty()
    } else {
        let before = hits_within(hits.drop_last(), lo, hi);
        let h = hits.last();
        if lo <= h.byte && h.byte + h.byte_len <= hi {
            before.push(h)
        } else {
            before
        }
    }
}

/// All matches of a plan from `from` on.
pub open spec fn all_hits(src: Source, plan: PlanView, ww: bool, from: int) -> Seq<HitView> {
    match plan {
        PlanView::Literal(needle) => literal_hits(src, needle, ww, from),
        PlanView::Bytes(pattern, insensitive) => regex_hits(
            src,
            ww,
            from,
            byte_matches(pattern, insensitive, src.buf.skip(from)),
        ),
        PlanView::DecodeLine(pattern, insensitive) => hits_within(
            lines_hits(src, pattern, insensitive, ww, src.line_of(from) as int, src.count() as int),
            from,
            src.buf.len() as int,
        ),
    }
}

// ---- hits in order -----------------------------------------------------------

/// A hit is not empty; one of a literal query is as long as the query.
pub open spec fn sized(plan: PlanView, h: HitView) -> bool {
    &&& h.byte_len > 0
    &&& plan matches PlanView::Literal(needle) ==> h.byte_len == needle.len()
}

/// Hits at or after `from`, inside the buffer, each on the line of its first
/// byte, in the order of their bytes and without overlap.
pub open spec fn in_order(src: Source, plan: PlanView, from: int, hits: Seq<HitView>) -> bool {
    &&& forall|i: int|
        0 <= i < hits.len() ==> {
            let h = #[trigger] hits[i];
            &&& from <= h.byte
            &&& h.byte + h.byte_len <= src.buf.len()
            &&& h.line == src.line_of(h.byte)
            &&& sized(plan, h)
        }
    &&& forall|i: int, j: int|
        0 <= i < j < hits.len() ==> (#[trigger] hits[i]).byte + hits[i].byte_len <= (
        #[trigger] hits[j]).byte
}

/// Spans inside `e` bytes, each after the ones before it.
pub open spec fn ordered(ms: Seq<(int, int)>, e: int) -> bool {
    &&& forall|i: int| 0 <= i < ms.len() ==> 0 <= (#[trigger] ms[i]).0 <= ms[i].1 <= e
    &&& forall|i: int, j: int|
        0 <= i < j < ms.len() ==> (#[trigger] ms[i]).1 <= (#[trigger] ms[j]).0
}

proof fn lemma_ordered(v: Seq<(usize, usize)>, n: nat)
    requires
        spans_inside(v, n),
        spans_apart(v),
    ensures
        ordered(spans_view(v), n as int),
{
    let ms = spans_view(v);
    assert forall|i: int| 0 <= i < ms.len() implies 0 <= (#[trigger] ms[i]).0 <= ms[i].1 <= n by {
        assert(v[i].0 <= v[i].1 <= n);
    }
    assert forall|i: int, j: int| 0 <= i < j < ms.len() implies (#[trigger] ms[i]).1 <= (
    #[trigger] ms[j]).0 by {
        assert(v[i].1 <= v[j].0);
    }
}

/// Matches of a regex on bytes that come one after the other give hits that do.
proof fn lemma_regex_in_order(
    src: Source,
    plan: PlanView,
    ww: bool,
    from: int,
    ms: Seq<(int, int)>,
    e: int,
)
    requires
        !(plan is Literal),
        ordered(ms, e),
        from + e <= src.buf.len(),
    ensures
        in_order(src, plan, from, regex_hits(src, ww, from, ms)),
        forall|i: int|
            0 <= i < regex_hits(src, ww, from, ms).len() ==> (#[trigger] regex_hits(
                src,
                ww,
                from,
                ms,
            )[i]).byte + regex_hits(src, ww, from, ms)[i].byte_len <= from + e,
    decreases ms.len(),
{
    if ms.len() > 0 {
        let m = ms.last();
        let head = ms.drop_last();
        assert(0 <= m.0 <= m.1 <= e);
        assert forall|i: int| 0 <= i < head.len() implies 0 <= (#[trigger] head[i]).0 <= head[i].1
            <= m.0 by {
            assert(ms[i].1 <= ms[ms.len() - 1].0);
        }
        lemma_regex_in_order(src, plan, ww, from, head, m.0);
        let before = regex_hits(src, ww, from, head);
        let all = regex_hits(src, ww, from, ms);
        assert forall|i: int| 0 <= i < all.len() implies {
            let h = #[trigger] all[i];
            &&& from <= h.byte
            &&& h.byte + h.byte_len <= from + e
            &&& h.line == src.line_of(h.byte)
            &&& sized(plan, h)
        } by {
            if i < before.len() {
                assert(all[i] == before[i]);
            }
        }
        assert forall|i: int, j: int| 0 <= i < j < all.len() implies (#[trigger] all[i]).byte
            + all[i].byte_len <= (#[trigger] all[j]).byte by {
            assert(all[i] == before[i]);
            if j < before.len() {
                assert(all[j] == before[j]);
            }
        }
    }
}

/// Where character `c` of a line starts among its bytes.
spec fn offset_of(enc: Encoding, raw: Seq<u8>, text: Seq<char>, c: int) -> int {
    if enc.wide() {
        2 * text_units(text.take(c)).len() as int
    } else {
        after_chars(enc, raw, 0, c as nat)
    }
}

proof fn lemma_after_chars(enc: Encoding, raw: Seq<u8>, from: int, n: nat, m: nat)
    requires
        0 <= from <= raw.len(),
    ensures
        from <= after_chars(enc, raw, from, n) <= raw.len(),
        after_chars(enc, raw, from, n + m) == after_chars(
            enc,
            raw,
            after_chars(enc, raw, from, n),
            m,
        ),
    decreases n,
{
    if n > 0 && from < raw.len() {
        lemma_after_chars(enc, raw, from + step(enc, raw, from), (n - 1) as nat, m);
    } else if n > 0 {
        assert(after_chars(enc, raw, from, n) == from);
        assert(after_chars(enc, raw, from, m) == from);
    }
}

proof fn lemma_span_of(enc: Encoding, raw: Seq<u8>, text: Seq<char>, a: int, b: int)
    requires
        decoded_by_line(enc),
        text == decoded(enc, raw),
        0 <= a <= b <= text.len(),
    ensures
        0 <= offset_of(enc, raw, text, a) <= offset_of(enc, raw, text, b) <= raw.len(),
        decoded_span(enc, raw, text, a, b) == (
            offset_of(enc, raw, text, a),
            offset_of(enc, raw, text, b) - offset_of(enc, raw, text, a),
        ),
{
    if enc.wide() {
        lemma_units_kept(units_of(raw, enc == Encoding::Utf16Le));
        lemma_units_concat(text.take(a), text.subrange(a, b));
        assert(text.take(a) + text.subrange(a, b) =~= text.take(b));
        lemma_units_concat(text.take(b), text.skip(b));
        assert(text.take(b) + text.skip(b) =~= text);
    } else {
        lemma_after_chars(enc, raw, 0, a as nat, (b - a) as nat);
        lemma_after_chars(enc, raw, 0, b as nat, 0);
        lemma_after_chars(enc, raw, after_chars(enc, raw, 0, a as nat), (b - a) as nat, 0);
    }
}

/// A byte of the text of a line is on that line.
proof fn lemma_on_line(src: Source, line: nat, b: int)
    requires
        0 <= src.base <= src.buf.len(),
        line < src.count(),
        src.text_span(line).0 <= b < src.text_span(line).1,
    ensures
        src.line_of(b) == line,
        src.text_span(line).1 <= src.start(line + 1) <= src.buf.len(),
{
    lemma_count(src.buf, src.newline, src.base, line);
    lemma_start(src.buf, src.newline, src.base, line);
    lemma_newlines(src.buf, src.newline, src.base, line, b);
    lemma_lf(src.buf, src.newline, src.start(line));
}

/// Matches of a regex on the text of a line that come one after the other give
/// hits on that line that do.
proof fn lemma_text_in_order(
    src: Source,
    plan: PlanView,
    ww: bool,
    line: nat,
    ms: Seq<(int, int)>,
    e: int,
)
    requires
        !(plan is Literal),
        decoded_by_line(src.encoding),
        0 <= src.base <= src.buf.len(),
        line < src.count(),
        ordered(ms, e),
    ensures
        in_order(src, plan, src.start(line), text_hits(src, ww, line, ms)),
        ({
            let text = decoded(src.encoding, src.raw(line));
            let end = src.start(line) + offset_of(
                src.encoding,
                src.raw(line),
                text,
                char_index(text, e) as int,
            );
            &&& end <= src.start(line + 1) <= src.buf.len()
            &&& forall|i: int|
                0 <= i < text_hits(src, ww, line, ms).len() ==> (#[trigger] text_hits(
                    src,
                    ww,
                    line,
                    ms,
                )[i]).byte + text_hits(src, ww, line, ms)[i].byte_len <= end
        }),
    decreases ms.len(),
{
    let enc = src.encoding;
    let raw = src.raw(line);
    let text = decoded(enc, raw);
    lemma_char_index(text, e, e);
    lemma_span_of(enc, raw, text, 0, char_index(text, e) as int);
    lemma_count(src.buf, src.newline, src.base, line);
    lemma_start(src.buf, src.newline, src.base, line);
    lemma_lf(src.buf, src.newline, src.start(line));
    let s = src.start(line);
    if ms.len() > 0 {
        let m = ms.last();
        let head = ms.drop_last();
        assert(0 <= m.0 <= m.1 <= e);
        assert forall|i: int| 0 <= i < head.len() implies 0 <= (#[trigger] head[i]).0 <= head[i].1
            <= m.0 by {
            assert(ms[i].1 <= ms[ms.len() - 1].0);
        }
        lemma_text_in_order(src, plan, ww, line, head, m.0);
        let cs = char_index(text, m.0) as int;
        let ce = char_index(text, m.1) as int;
        lemma_char_index(text, m.0, m.1);
        lemma_char_index(text, m.1, e);
        lemma_span_of(enc, raw, text, cs, ce);
        lemma_span_of(enc, raw, text, ce, char_index(text, e) as int);
        let before = text_hits(src, ww, line, head);
        let all = text_hits(src, ww, line, ms);
        if let Some(h) = text_hit(src, ww, line, m) {
            lemma_on_line(src, line, h.byte);
        }
        assert forall|i: int| 0 <= i < all.len() implies {
            let h = #[trigger] all[i];
            &&& s <= h.byte
            &&& h.byte + h.byte_len <= s + offset_of(enc, raw, text, char_index(text, e) as int)
            &&& h.line == src.line_of(h.byte)
            &&& sized(plan, h)
        } by {
            if i < before.len() {
                assert(all[i] == before[i]);
            }
        }
        assert forall|i: int, j: int| 0 <= i < j < all.len() implies (#[trigger] all[i]).byte
            + all[i].byte_len <= (#[trigger] all[j]).byte by {
            assert(all[i] == before[i]);
            if j < before.len() {
                assert(all[j] == before[j]);
            }
        }
    }
}

/// The first of hits in order are in order.
proof fn lemma_in_order_prefix(
    src: Source,
    plan: PlanView,
    from: int,
    all: Seq<HitView>,
    some: Seq<HitView>,
    max: nat,
)
    requires
        in_order(src, plan, from, all),
        some == first_of(all, max),
    ensures
        in_order(src, plan, from, some),
{
    assert forall|i: int| 0 <= i < some.len() implies #[trigger] some[i] == all[i] by {}
    assert forall|i: int| 0 <= i < some.len() implies {
        let h = #[trigger] some[i];
        &&& from <= h.byte
        &&& h.byte + h.byte_len <= src.buf.len()
        &&& h.line == src.line_of(h.byte)
        &&& sized(plan, h)
    } by {
        assert(some[i] == all[i]);
    }
    assert forall|i: int, j: int| 0 <= i < j < some.len() implies (#[trigger] some[i]).byte
        + some[i].byte_len <= (#[trigger] some[j]).byte by {
        assert(some[i] == all[i] && some[j] == all[j]);
    }
}

/// Hits in order, and later ones in order, are in order together.
proof fn lemma_in_order_concat(
    src: Source,
    plan: PlanView,
    from: int,
    at: int,
    a: Seq<HitView>,
    b: Seq<HitView>,
)
    requires
        from <= at,
        in_order(src, plan, from, a),
        in_order(src, plan, at, b),
        forall|i: int| 0 <= i < a.len() ==> (#[trigger] a[i]).byte + a[i].byte_len <= at,
    ensures
        in_order(src, plan, from, a + b),
{
    let c = a + b;
    assert forall|i: int| 0 <= i < c.len() implies {
        let h = #[trigger] c[i];
        &&& from <= h.byte
        &&& h.byte + h.byte_len <= src.buf.len()
        &&& h.line == src.line_of(h.byte)
        &&& sized(plan, h)
    } by {
        if i < a.len() {
            assert(c[i] == a[i]);
        } else {
            assert(c[i] == b[i - a.len()]);
        }
    }
    assert forall|i: int, j: int| 0 <= i < j < c.len() implies (#[trigger] c[i]).byte
        + c[i].byte_len <= (#[trigger] c[j]).byte by {
        if j < a.len() {
            assert(c[i] == a[i] && c[j] == a[j]);
        } else if i < a.len() {
            assert(c[i] == a[i] && c[j] == b[j - a.len()]);
        } else {
            assert(c[i] == b[i - a.len()] && c[j] == b[j - a.len()]);
        }
    }
}

// ---- lines of bytes ----------------------------------------------------------

proof fn lemma_line_of(s: Seq<u8>, k: Newline, p: int, b: int)
    requires
        0 <= p <= b <= s.len(),
    ensures
        line_start(s, k, p, newlines(s, k, p, b)) <= b,
        b < s.len() ==> newlines(s, k, p, b) < line_count(s, k, p),
    decreases s.len() - p,
{
    lemma_lf(s, k, p);
    if p < s.len() && lf_from(s, k, p) < s.len() && raw_end(s, k, p) <= b {
        let q = raw_end(s, k, p);
        lemma_line_of(s, k, q, b);
        let n = newlines(s, k, q, b);
        lemma_start_add(s, k, p, 1, n);
        assert(line_start(s, k, p, 1) == q) by {
            assert(line_start(s, k, p, 0) == p);
        }
    } else {
        assert(line_start(s, k, p, 0) == p);
    }
}

/// The index is one of the source.
pub open spec fn indexes_source(index: LineIndex, src: Source) -> bool {
    &&& index.describes(src.buf)
    &&& index.spec_base() == src.base
    &&& index.spec_newline() == src.newline
    &&& src.base <= src.buf.len()
    &&& codec_size(src.buf.len())
}

fn hit_at(
    buf: &[u8],
    index: &LineIndex,
    enc: Encoding,
    abs: usize,
    mlen: usize,
    Ghost(src): Ghost<Source>,
) -> (h: SearchHit)
    requires
        indexes_source(*index, src),
        src.buf == buf@,
        src.encoding == enc,
        src.base <= abs <= buf@.len(),
    ensures
        h@ == src.hit(abs as int, mlen as int),
{
    let byte = abs as u64;
    let line = index.line_of_byte(buf, byte);
    proof {
        index.lemma_describes(buf@);
        lemma_line_of(buf@, src.newline, src.base, abs as int);
    }
    let from: usize = match index.line_range(buf, line) {
        Some((a, _)) => a as usize,
        None => abs,
    };
    let head = vstd::slice::slice_subrange(buf, from, abs);
    let column = enc.count_chars(head);
    SearchHit { line, column: column as u64, byte, byte_len: mlen as u64 }
}

fn is_on_boundary(
    buf: &[u8],
    index: &LineIndex,
    enc: Encoding,
    abs: usize,
    Ghost(src): Ghost<Source>,
) -> (b: bool)
    requires
        indexes_source(*index, src),
        src.buf == buf@,
        src.encoding == enc,
        src.base <= abs <= buf@.len(),
    ensures
        b == src.on_boundary(abs as int),
{
    let line = index.line_of_byte(buf, abs as u64);
    proof {
        index.lemma_describes(buf@);
    }
    match index.line_range(buf, line) {
        Some((a, _)) => walk_to(enc, buf, a as usize, abs).0 == abs,
        None => true,
    }
}

fn neighbor_byte(
    buf: &[u8],
    index: &LineIndex,
    enc: Encoding,
    abs: usize,
    after: bool,
    Ghost(src): Ghost<Source>,
) -> (r: Option<u8>)
    requires
        indexes_source(*index, src),
        src.buf == buf@,
        src.encoding == enc,
        src.base <= abs <= buf@.len(),
    ensures
        r == src.neighbor(abs as int, after),
{
    let line = index.line_of_byte(buf, abs as u64);
    proof {
        index.lemma_describes(buf@);
    }
    let (ls, end) = match index.line_range(buf, line) {
        Some((a, b)) => (a as usize, b as usize),
        None => {
            return None;
        },
    };
    let to = if abs <= end {
        abs
    } else {
        end
    };
    let (p, prev) = walk_to(enc, buf, ls, to);
    if p != abs {
        return None;
    }
    if after {
        if p < end {
            Some(buf[p])
        } else {
            None
        }
    } else {
        match prev {
            Some(i) => Some(buf[i]),
            None => None,
        }
    }
}

fn is_whole_word_at(
    buf: &[u8],
    index: &LineIndex,
    enc: Encoding,
    s: usize,
    len: usize,
    Ghost(src): Ghost<Source>,
) -> (b: bool)
    requires
        indexes_source(*index, src),
        src.buf == buf@,
        src.encoding == enc,
        src.base <= s,
        s + len <= buf@.len(),
    ensures
        b == src.whole_word_at(s as int, len as int),
{
    let n = buf.len();
    if enc.is_wide() {
        return is_whole_word_units(enc, buf, s, len);
    }
    if !is_legacy_multibyte(enc) {
        return is_whole_word(buf, s, len);
    }
    let before = match neighbor_byte(buf, index, enc, s, false, Ghost(src)) {
        Some(b) => is_word_byte(b),
        None => false,
    };
    let after = match neighbor_byte(buf, index, enc, s + len, true, Ghost(src)) {
        Some(b) => is_word_byte(b),
        None => false,
    };
    !before && !after
}

fn is_accepted(
    buf: &[u8],
    index: &LineIndex,
    enc: Encoding,
    ww: bool,
    s: usize,
    len: usize,
    Ghost(src): Ghost<Source>,
) -> (b: bool)
    requires
        indexes_source(*index, src),
        src.buf == buf@,
        src.encoding == enc,
        src.base <= s,
        s + len <= buf@.len(),
    ensures
        b == src.accepts(ww, s as int, len as int),
{
    if enc.is_wide() && s % 2 != 0 {
        return false;
    }
    if is_legacy_multibyte(enc) && !is_on_boundary(buf, index, enc, s, Ghost(src)) {
        return false;
    }
    !ww || is_whole_word_at(buf, index, enc, s, len, Ghost(src))
}

/// The hits that are returned of all there are.
pub open spec fn answered(r: SearchResult, all: Seq<HitView>, max: nat) -> bool {
    &&& hits_view(r.hits@) == first_of(all, max)
    &&& r.truncated == (all.len() > max)
}

fn search_literal(
    buf: &[u8],
    index: &LineIndex,
    enc: Encoding,
    needle: &[u8],
    ww: bool,
    start: usize,
    max: usize,
    Ghost(src): Ghost<Source>,
) -> (r: SearchResult)
    requires
        indexes_source(*index, src),
        src.buf == buf@,
        src.encoding == enc,
        src.base <= start <= buf@.len(),
        needle@.len() > 0,
    ensures
        answered(r, literal_hits(src, needle@, ww, start as int), max as nat),
        in_order(src, PlanView::Literal(needle@), start as int, hits_view(r.hits@)),
{
    let ghost all = literal_hits(src, needle@, ww, start as int);
    let mut hits: Vec<SearchHit> = Vec::new();
    let n = buf.len();
    let mut from: usize = start;
    let mut over = false;
    assert(hits_view(hits@) + all =~= all);
    while from <= n && !over
        invariant
            indexes_source(*index, src),
            src.buf == buf@,
            src.encoding == enc,
            n == buf@.len(),
            src.base <= from,
            0 <= src.base,
            from <= n + stride_of(needle@),
            codec_size(n as nat),
            hits@.len() <= max,
            !over ==> all == hits_view(hits@) + literal_hits(src, needle@, ww, from as int),
            over ==> hits@.len() == max && all.len() > max && hits_view(hits@) == all.take(
                max as int,
            ),
        decreases n + 1 - from, (if over { 0int } else { 1int }),
    {
        let found = find_from(buf, needle, from);
        proof {
            lemma_next_at(buf@, needle@, from as int);
        }
        match found {
            Some(p) => {
                proof {
                    lemma_next_is(buf@, needle@, from as int, p as int);
                }
                let ghost rest = literal_hits(
                    src,
                    needle@,
                    ww,
                    p + stride_at(enc, needle@, p as int),
                );
                if is_accepted(buf, index, enc, ww, p, needle.len(), Ghost(src)) {
                    let ghost h = src.hit(p as int, needle@.len() as int);
                    assert(literal_hits(src, needle@, ww, from as int) == seq![h] + rest);
                    if hits.len() >= max {
                        over = true;
                        assert(hits_view(hits@) =~= all.take(max as int));
                    } else {
                        let ghost before = hits_view(hits@);
                        hits.push(hit_at(buf, index, enc, p, needle.len(), Ghost(src)));
                        assert(hits_view(hits@) =~= before.push(h));
                        assert(all =~= hits_view(hits@) + rest);
                    }
                } else {
                    assert(literal_hits(src, needle@, ww, from as int) =~= rest);
                }
                from = if needle.len() == 0 || (enc.is_wide() && p % 2 != 0) {
                    p + 1
                } else {
                    p + needle.len()
                };
            },
            None => {
                assert(literal_hits(src, needle@, ww, from as int) =~= Seq::empty());
                assert(all =~= hits_view(hits@));
                assert(all =~= hits_view(hits@) + literal_hits(src, needle@, ww, n + 1));
                from = n + 1;
            },
        }
    }
    proof {
        if !over {
            assert(next_at(buf@, needle@, from as int) is None);
            assert(literal_hits(src, needle@, ww, from as int) =~= Seq::empty());
            assert(all =~= hits_view(hits@));
            assert(all.len() == hits@.len());
            assert(all.take(all.len() as int) =~= all);
        }
        let plan = PlanView::Literal(needle@);
        literal_hits_are_matches(src, needle@, ww, start as int);
        assert(in_order(src, plan, start as int, all));
        lemma_in_order_prefix(src, plan, start as int, all, hits_view(hits@), max as nat);
    }
    SearchResult { hits, truncated: over }
}

// ---- a regex on bytes --------------------------------------------------------

proof fn lemma_regex_prefix(src: Source, ww: bool, from: int, ms: Seq<(int, int)>, k: int)
    requires
        0 <= k <= ms.len(),
    ensures
        regex_hits(src, ww, from, ms.take(k)).len() <= regex_hits(src, ww, from, ms).len(),
        regex_hits(src, ww, from, ms).take(regex_hits(src, ww, from, ms.take(k)).len() as int)
            == regex_hits(src, ww, from, ms.take(k)),
    decreases ms.len(),
{
    if k == ms.len() {
        assert(ms.take(k) =~= ms);
        let h = regex_hits(src, ww, from, ms);
        assert(h.take(h.len() as int) =~= h);
    } else {
        lemma_regex_prefix(src, ww, from, ms.drop_last(), k);
        assert(ms.drop_last().take(k) =~= ms.take(k));
        let n = regex_hits(src, ww, from, ms.take(k)).len() as int;
        assert(regex_hits(src, ww, from, ms).take(n) =~= regex_hits(
            src,
            ww,
            from,
            ms.drop_last(),
        ).take(n));
    }
}

/// Those matches of a regex that count, one more than `max` at most.
fn sift_spans(
    buf: &[u8],
    index: &LineIndex,
    enc: Encoding,
    ww: bool,
    from: usize,
    spans: &Vec<(usize, usize)>,
    max: usize,
    Ghost(src): Ghost<Source>,
) -> (r: SearchResult)
    requires
        indexes_source(*index, src),
        src.buf == buf@,
        src.encoding == enc,
        src.base <= from <= buf@.len(),
        spans_inside(spans@, (buf@.len() - from) as nat),
        spans_apart(spans@),
    ensures
        answered(r, regex_hits(src, ww, from as int, spans_view(spans@)), max as nat),
        forall|plan: PlanView|
            !(plan is Literal) ==> #[trigger] in_order(
                src,
                plan,
                from as int,
                hits_view(r.hits@),
            ),
{
    let ghost ms = spans_view(spans@);
    let ghost all = regex_hits(src, ww, from as int, ms);
    let n = buf.len();
    proof {
        lemma_ordered(spans@, (n - from) as nat);
        assert forall|plan: PlanView, some: Seq<HitView>|
            !(plan is Literal) && some == first_of(all, max as nat) implies #[trigger] in_order(
            src,
            plan,
            from as int,
            some,
        ) by {
            lemma_regex_in_order(src, plan, ww, from as int, ms, n - from);
            lemma_in_order_prefix(src, plan, from as int, all, some, max as nat);
        }
    }
    let mut hits: Vec<SearchHit> = Vec::new();
    let mut i: usize = 0;
    assert(hits_view(hits@) =~= regex_hits(src, ww, from as int, ms.take(0)));
    while i < spans.len()
        invariant
            indexes_source(*index, src),
            src.buf == buf@,
            src.encoding == enc,
            n == buf@.len(),
            src.base <= from <= n,
            spans_inside(spans@, (n - from) as nat),
            ms == spans_view(spans@),
            all == regex_hits(src, ww, from as int, ms),
            forall|plan: PlanView, some: Seq<HitView>|
                !(plan is Literal) && some == first_of(all, max as nat) ==> #[trigger] in_order(
                    src,
                    plan,
                    from as int,
                    some,
                ),
            i <= spans@.len(),
            hits@.len() <= max,
            hits_view(hits@) == regex_hits(src, ww, from as int, ms.take(i as int)),
        decreases spans.len() - i,
    {
        let (a, b) = spans[i];
        assert(spans@[i as int].0 <= spans@[i as int].1 <= n - from);
        assert(ms[i as int] == (a as int, b as int));
        let ghost t = ms.take(i + 1);
        assert(t.drop_last() =~= ms.take(i as int));
        assert(t.last() == ms[i as int]);
        if b != a && (!ww || is_whole_word(buf, from + a, b - a)) {
            let ghost before = hits_view(hits@);
            let h = hit_at(buf, index, enc, from + a, b - a, Ghost(src));
            if hits.len() >= max {
                proof {
                    lemma_regex_prefix(src, ww, from as int, ms, i + 1);
                    let upto = regex_hits(src, ww, from as int, t);
                    assert(upto == before.push(h@));
                    assert(all.take(upto.len() as int) == upto);
                    assert(all.take(max as int) =~= upto.take(max as int));
                    assert(upto.take(max as int) =~= before);
                }
                return SearchResult { hits, truncated: true };
            }
            hits.push(h);
            assert(hits_view(hits@) =~= before.push(h@));
        }
        i += 1;
    }
    assert(ms.take(ms.len() as int) =~= ms);
    assert(all.take(all.len() as int) =~= all);
    SearchResult { hits, truncated: false }
}

/// The first matches of a regex in bytes.
fn find_spans(pattern: &str, insensitive: bool, hay: &[u8], limit: usize) -> (v: Vec<
    (usize, usize),
>)
    requires
        PlanView::Bytes(pattern@, insensitive).runs(),
    ensures
        spans_view(v@) == first_of(byte_matches(pattern@, insensitive, hay@), limit as nat),
        spans_inside(v@, hay@.len()),
        spans_apart(v@),
        v@.len() <= hay@.len() + 1,
{
    let mut hays: Vec<&[u8]> = Vec::new();
    hays.push(hay);
    let mut found = bytes_regex_find(pattern, insensitive, &hays, limit);
    assert(spans_inside(found@[0]@, hays@[0]@.len()));
    match found.pop() {
        Some(v) => v,
        None => Vec::new(),
    }
}

fn search_bytes(
    buf: &[u8],
    index: &LineIndex,
    enc: Encoding,
    pattern: &str,
    insensitive: bool,
    ww: bool,
    start: usize,
    max: usize,
    Ghost(src): Ghost<Source>,
) -> (r: SearchResult)
    requires
        indexes_source(*index, src),
        src.buf == buf@,
        src.encoding == enc,
        src.base <= start <= buf@.len(),
        PlanView::Bytes(pattern@, insensitive).runs(),
    ensures
        answered(
            r,
            all_hits(src, PlanView::Bytes(pattern@, insensitive), ww, start as int),
            max as nat,
        ),
        in_order(
            src,
            PlanView::Bytes(pattern@, insensitive),
            start as int,
            hits_view(r.hits@),
        ),
{
    let hay = vstd::slice::slice_subrange(buf, start, buf.len());
    assert(hay@ =~= src.buf.skip(start as int));
    let ghost ms = byte_matches(pattern@, insensitive, hay@);
    let ghost all = regex_hits(src, ww, start as int, ms);
    // Matches do not overlap, so there is at most one more than there are bytes.
    let most: usize = hay.len() + 2;
    // Ask for more and more until enough of them count, or there are no more.
    let mut limit: usize = if max < most {
        max + 1
    } else {
        most
    };
    loop
        invariant
            indexes_source(*index, src),
            src.buf == buf@,
            src.encoding == enc,
            src.base <= start <= buf@.len(),
            PlanView::Bytes(pattern@, insensitive).runs(),
            hay@ == buf@.skip(start as int),
            hay@.len() == buf@.len() - start,
            ms == byte_matches(pattern@, insensitive, hay@),
            all == regex_hits(src, ww, start as int, ms),
            all == all_hits(src, PlanView::Bytes(pattern@, insensitive), ww, start as int),
            most == hay@.len() + 2,
            1 <= limit <= most,
            codec_size(buf@.len()),
        decreases most - limit,
    {
        let spans = find_spans(pattern, insensitive, hay, limit);
        let r = sift_spans(buf, index, enc, ww, start, &spans, max, Ghost(src));
        let ghost part = spans_view(spans@);
        if spans.len() < limit {
            assert(part == ms);
            return r;
        }
        if r.truncated {
            proof {
                assert(part == ms.take(limit as int));
                lemma_regex_prefix(src, ww, start as int, ms, limit as int);
                let some = regex_hits(src, ww, start as int, part);
                assert(all.take(max as int) =~= some.take(max as int));
            }
            return r;
        }
        limit = if limit <= most / 2 {
            limit * 2
        } else if limit < most {
            most
        } else {
            // Not reached: there are fewer matches than `most`.
            return r;
        };
    }
}

// ---- a regex on decoded lines ------------------------------------------------

proof fn lemma_units_concat(a: Seq<char>, b: Seq<char>)
    ensures
        text_units(a + b) == text_units(a) + text_units(b),
    decreases a.len(),
{
    if a.len() == 0 {
        assert(a + b =~= b);
        assert(text_units(a) + text_units(b) =~= text_units(b));
    } else {
        lemma_units_concat(a.drop_first(), b);
        assert((a + b).drop_first() =~= a.drop_first() + b);
        assert(text_units(a + b) =~= text_units(a) + text_units(b));
    }
}

proof fn lemma_units_kept(u: Seq<u16>)
    ensures
        text_units(utf16_text(u)).len() == u.len(),
    decreases u.len(),
{
    if u.len() > 0 {
        let t = utf16_text(u);
        if high_surrogate(u[0]) && u.len() >= 2 && low_surrogate(u[1]) {
            lemma_units_kept(u.skip(2));
            let v: int = 0x10000 + (u[0] - 0xD800) * 0x400 + (u[1] - 0xDC00);
            lemma_scalar_value(v);
            assert(t.drop_first() =~= utf16_text(u.skip(2)));
            assert(char_units(t[0]).len() == 2);
        } else {
            lemma_units_kept(u.skip(1));
            assert(t.drop_first() =~= utf16_text(u.skip(1)));
            if !(high_surrogate(u[0]) || low_surrogate(u[0])) {
                lemma_scalar_value(u[0] as int);
            }
            assert(char_units(t[0]).len() == 1);
        }
    }
}

proof fn lemma_scalar_value(v: int)
    requires
        0 <= v < 0xD800 || 0xE000 <= v < 0x110000,
    ensures
        (v as char) as u32 == v,
{
    let u = v as u32;
    assert(is_scalar(u));
}

/// The number of UTF-16 units of the characters from `a` up to `b`.
fn units_between(chars: &Vec<char>, a: usize, b: usize, Ghost(bound): Ghost<nat>) -> (n: usize)
    requires
        a <= b <= chars@.len(),
        text_units(chars@).len() <= bound <= usize::MAX,
    ensures
        n == text_units(chars@.subrange(a as int, b as int)).len(),
        n <= bound,
{
    let mut n: usize = 0;
    let mut i: usize = a;
    assert(chars@.subrange(a as int, a as int) =~= Seq::empty());
    while i < b
        invariant
            a <= i <= b <= chars@.len(),
            text_units(chars@).len() <= bound <= usize::MAX,
            n == text_units(chars@.subrange(a as int, i as int)).len(),
        decreases b - i,
    {
        let w: usize = if (chars[i] as u32) < 0x10000 {
            1
        } else {
            2
        };
        proof {
            let c = seq![chars@[i as int]];
            let s = chars@.subrange(a as int, i as int);
            lemma_units_concat(s, c);
            assert(chars@.subrange(a as int, i + 1) =~= s + c);
            assert(c.drop_first() =~= Seq::empty());
            assert(text_units(c.drop_first()) =~= Seq::empty());
            assert(text_units(c).len() == w);
            lemma_units_part(chars@, a as int, i + 1);
        }
        n += w;
        i += 1;
    }
    proof {
        lemma_units_part(chars@, a as int, b as int);
    }
    n
}

proof fn lemma_units_part(t: Seq<char>, a: int, b: int)
    requires
        0 <= a <= b <= t.len(),
    ensures
        text_units(t.take(a)).len() + text_units(t.subrange(a, b)).len() <= text_units(t).len(),
{
    lemma_units_concat(t.take(a), t.subrange(a, b));
    lemma_units_concat(t.take(b), t.skip(b));
    assert(t.take(a) + t.subrange(a, b) =~= t.take(b));
    assert(t.take(b) + t.skip(b) =~= t);
}

/// Finds the bytes of the characters from `cs` up to `ce` of a line.
fn span_of_chars(
    enc: Encoding,
    raw: &[u8],
    chars: &Vec<char>,
    cs: usize,
    ce: usize,
) -> (r: (usize, usize))
    requires
        chars@ == decoded(enc, raw@),
        cs <= ce <= chars@.len(),
    ensures
        (r.0 as int, r.1 as int) == decoded_span(enc, raw@, chars@, cs as int, ce as int),
        r.0 + r.1 <= raw@.len(),
{
    if enc.is_wide() {
        let ghost le = enc == Encoding::Utf16Le;
        proof {
            lemma_units_kept(units_of(raw@, le));
            lemma_units_part(chars@, cs as int, ce as int);
            assert(chars@.subrange(0, cs as int) =~= chars@.take(cs as int));
        }
        let len = raw.len();
        let ghost bound = text_units(chars@).len();
        let a = units_between(chars, 0, cs, Ghost(bound));
        let n = units_between(chars, cs, ce, Ghost(bound));
        (2 * a, 2 * n)
    } else if enc == Encoding::Iso2022Jp {
        iso2022jp_char_span(raw, cs, ce - cs)
    } else {
        legacy_char_span(enc, raw, cs, ce - cs)
    }
}

/// The matches on the text of one line that count.
fn sift_line(
    buf: &[u8],
    enc: Encoding,
    ww: bool,
    range: (u64, u64, u64),
    text: &String,
    spans: &Vec<(usize, usize)>,
    Ghost(src): Ghost<Source>,
) -> (v: Vec<SearchHit>)
    requires
        src.buf == buf@,
        src.encoding == enc,
        range.1 <= range.2 <= buf@.len(),
        (range.1 as int, range.2 as int) == src.text_span(range.0 as nat),
        text@ == decoded(enc, src.raw(range.0 as nat)),
        spans_inside(spans@, encode_utf8(text@).len()),
        spans_apart(spans@),
        decoded_by_line(enc),
        0 <= src.base <= buf@.len(),
        range.0 < src.count(),
    ensures
        hits_view(v@) == text_hits(src, ww, range.0 as nat, spans_view(spans@)),
        forall|plan: PlanView|
            !(plan is Literal) ==> #[trigger] in_order(
                src,
                plan,
                src.start(range.0 as nat),
                hits_view(v@),
            ),
        forall|i: int|
            0 <= i < v@.len() ==> (#[trigger] v@[i]).byte + v@[i].byte_len <= src.start(
                (range.0 + 1) as nat,
            ),
        src.start((range.0 + 1) as nat) <= buf@.len(),
{
    let (line, ls, le) = range;
    let n = buf.len();
    let raw = vstd::slice::slice_subrange(buf, ls as usize, le as usize);
    assert(raw@ == src.raw(line as nat));
    let chars = chars_of(text.as_str());
    let ghost ms = spans_view(spans@);
    let mut v: Vec<SearchHit> = Vec::new();
    let mut i: usize = 0;
    assert(hits_view(v@) =~= text_hits(src, ww, line as nat, ms.take(0)));
    while i < spans.len()
        invariant
            src.buf == buf@,
            src.encoding == enc,
            n == buf@.len(),
            ls <= le <= n,
            (ls as int, le as int) == src.text_span(line as nat),
            raw@ == src.raw(line as nat),
            raw@.len() == le - ls,
            chars@ == decoded(enc, raw@),
            spans_inside(spans@, encode_utf8(chars@).len()),
            ms == spans_view(spans@),
            i <= spans@.len(),
            hits_view(v@) == text_hits(src, ww, line as nat, ms.take(i as int)),
            forall|j: int|
                0 <= j < v@.len() ==> (#[trigger] v@[j]).byte + v@[j].byte_len <= n,
        decreases spans.len() - i,
    {
        let (a, b) = spans[i];
        assert(spans@[i as int].0 <= spans@[i as int].1);
        let ghost t = ms.take(i + 1);
        assert(t.drop_last() =~= ms.take(i as int));
        assert(t.last() == (a as int, b as int));
        let cs = count_before(&chars, a);
        let ce = count_before(&chars, b);
        proof {
            lemma_char_index(chars@, a as int, b as int);
        }
        let (off, len) = span_of_chars(enc, raw, &chars, cs, ce);
        if a != b && (!ww || is_whole_word_text(&chars, cs, ce)) && len != 0 {
            let h = SearchHit {
                line,
                column: cs as u64,
                byte: ls + off as u64,
                byte_len: len as u64,
            };
            let ghost before = hits_view(v@);
            v.push(h);
            assert(hits_view(v@) =~= before.push(h@));
            assert(text_hit(src, ww, line as nat, t.last()) == Some(h@));
        } else {
            assert(text_hit(src, ww, line as nat, t.last()) is None);
        }
        i += 1;
    }
    assert(ms.take(ms.len() as int) =~= ms);
    proof {
        lemma_ordered(spans@, encode_utf8(text@).len());
        let e = encode_utf8(text@).len() as int;
        assert forall|plan: PlanView| !(plan is Literal) implies #[trigger] in_order(
            src,
            plan,
            src.start(line as nat),
            hits_view(v@),
        ) by {
            lemma_text_in_order(src, plan, ww, line as nat, ms, e);
        }
        lemma_text_in_order(src, PlanView::Bytes(text@, ww), ww, line as nat, ms, e);
        assert forall|i: int| 0 <= i < v@.len() implies (#[trigger] v@[i]).byte + v@[i].byte_len
            <= src.start((line + 1) as nat) by {
            assert(v@[i]@ == text_hits(src, ww, line as nat, ms)[i]);
        }
    }
    v
}

proof fn lemma_lines_hits_split(
    src: Source,
    pattern: Seq<char>,
    insensitive: bool,
    ww: bool,
    a: int,
    b: int,
    c: int,
)
    requires
        a <= b <= c,
    ensures
        lines_hits(src, pattern, insensitive, ww, a, c) == lines_hits(
            src,
            pattern,
            insensitive,
            ww,
            a,
            b,
        ) + lines_hits(src, pattern, insensitive, ww, b, c),
    decreases c - b,
{
    let whole = lines_hits(src, pattern, insensitive, ww, a, c);
    let left = lines_hits(src, pattern, insensitive, ww, a, b);
    if b == c {
        assert(whole =~= left + lines_hits(src, pattern, insensitive, ww, b, c));
    } else {
        lemma_lines_hits_split(src, pattern, insensitive, ww, a, b, c - 1);
        assert(whole =~= left + lines_hits(src, pattern, insensitive, ww, b, c));
    }
}

proof fn lemma_within_concat(a: Seq<HitView>, b: Seq<HitView>, lo: int, hi: int)
    ensures
        hits_within(a + b, lo, hi) == hits_within(a, lo, hi) + hits_within(b, lo, hi),
    decreases b.len(),
{
    if b.len() == 0 {
        assert(a + b =~= a);
        assert(hits_within(a, lo, hi) + hits_within(b, lo, hi) =~= hits_within(a, lo, hi));
    } else {
        lemma_within_concat(a, b.drop_last(), lo, hi);
        assert((a + b).drop_last() =~= a + b.drop_last());
        assert(hits_within(a + b, lo, hi) =~= hits_within(a, lo, hi) + hits_within(b, lo, hi));
    }
}

/// How many lines are decoded at a time.
pub const LINE_BATCH: u64 = 1024;

/// The matches on some lines from `from` on.
fn batch_hits(
    buf: &[u8],
    index: &LineIndex,
    enc: Encoding,
    pattern: &str,
    insensitive: bool,
    ww: bool,
    from: u64,
    count: u64,
    Ghost(src): Ghost<Source>,
) -> (v: Vec<SearchHit>)
    requires
        indexes_source(*index, src),
        src.buf == buf@,
        src.encoding == enc,
        PlanView::DecodeLine(pattern@, insensitive).runs(),
        decoded_by_line(enc),
    ensures
        hits_view(v@) == lines_hits(
            src,
            pattern@,
            insensitive,
            ww,
            from as int,
            from + window_len(from as int, count as int, src.count() as int),
        ),
        in_order(
            src,
            PlanView::DecodeLine(pattern@, insensitive),
            src.start(from as nat),
            hits_view(v@),
        ),
        forall|i: int|
            0 <= i < v@.len() ==> (#[trigger] v@[i]).byte + v@[i].byte_len <= src.start(
                (from + window_len(from as int, count as int, src.count() as int)) as nat,
            ),
        forall|i: int|
            0 <= i < v@.len() ==> (#[trigger] v@[i]).byte + v@[i].byte_len <= buf@.len(),
{
    let ghost plan = PlanView::DecodeLine(pattern@, insensitive);
    let ranges = index.line_ranges(buf, from, count);
    proof {
        index.lemma_describes(buf@);
    }
    let mut texts: Vec<String> = Vec::new();
    let mut i: usize = 0;
    while i < ranges.len()
        invariant
            src.buf == buf@,
            src.encoding == enc,
            codec_size(buf@.len()),
            i <= ranges@.len(),
            texts@.len() == i,
            forall|j: int|
                0 <= j < ranges@.len() ==> {
                    &&& (#[trigger] ranges@[j]).0 == from + j
                    &&& ranges@[j].1 <= ranges@[j].2 <= buf@.len()
                    &&& (ranges@[j].1 as int, ranges@[j].2 as int) == src.text_span(
                        (from + j) as nat,
                    )
                },
            forall|j: int|
                0 <= j < i ==> (#[trigger] texts@[j])@ == decoded(enc, src.raw((from + j) as nat)),
        decreases ranges.len() - i,
    {
        let r = ranges[i];
        let n = buf.len();
        assert(ranges@[i as int].0 == from + i);
        let raw = vstd::slice::slice_subrange(buf, r.1 as usize, r.2 as usize);
        assert(raw@ == src.raw((from + i) as nat));
        texts.push(enc.decode_line(raw));
        i += 1;
    }
    let found = text_regex_find(pattern, insensitive, &texts);
    let mut out: Vec<SearchHit> = Vec::new();
    let mut k: usize = 0;
    assert(hits_view(out@) =~= lines_hits(
        src,
        pattern@,
        insensitive,
        ww,
        from as int,
        from as int,
    ));
    while k < ranges.len()
        invariant
            src.buf == buf@,
            src.encoding == enc,
            0 <= src.base <= buf@.len(),
            decoded_by_line(enc),
            plan is DecodeLine,
            from + ranges@.len() <= src.count() || ranges@.len() == 0,
            src.count() <= u64::MAX,
            in_order(src, plan, src.start(from as nat), hits_view(out@)),
            forall|x: int|
                0 <= x < out@.len() ==> (#[trigger] out@[x]).byte + out@[x].byte_len
                    <= src.start((from + k) as nat),
            k <= ranges@.len(),
            texts@.len() == ranges@.len(),
            found@.len() == ranges@.len(),
            forall|j: int|
                0 <= j < ranges@.len() ==> {
                    &&& (#[trigger] ranges@[j]).0 == from + j
                    &&& ranges@[j].1 <= ranges@[j].2 <= buf@.len()
                    &&& (ranges@[j].1 as int, ranges@[j].2 as int) == src.text_span(
                        (from + j) as nat,
                    )
                },
            forall|j: int|
                0 <= j < texts@.len() ==> (#[trigger] texts@[j])@ == decoded(
                    enc,
                    src.raw((from + j) as nat),
                ),
            forall|j: int|
                0 <= j < found@.len() ==> {
                    &&& spans_view((#[trigger] found@[j])@) == text_matches(
                        pattern@,
                        insensitive,
                        texts@[j]@,
                    )
                    &&& spans_inside(found@[j]@, encode_utf8(texts@[j]@).len())
                    &&& spans_apart(found@[j]@)
                },
            hits_view(out@) == lines_hits(
                src,
                pattern@,
                insensitive,
                ww,
                from as int,
                from + k,
            ),
            forall|j: int|
                0 <= j < out@.len() ==> (#[trigger] out@[j]).byte + out@[j].byte_len <= buf@.len(),
        decreases ranges.len() - k,
    {
        let ghost line = (from + k) as nat;
        assert(ranges@[k as int].0 == from + k);
        assert(spans_view(found@[k as int]@) == text_matches(
            pattern@,
            insensitive,
            texts@[k as int]@,
        ));
        let some = sift_line(buf, enc, ww, ranges[k], &texts[k], &found[k], Ghost(src));
        let ghost before = hits_view(out@);
        let ghost had = out@;
        proof {
            lemma_start_order(src.buf, src.newline, src.base, from as nat, (from + k) as nat);
            lemma_start_order(
                src.buf,
                src.newline,
                src.base,
                (from + k) as nat,
                (from + k + 1) as nat,
            );
            assert forall|x: int| 0 <= x < before.len() implies (#[trigger] before[x]).byte
                + before[x].byte_len <= src.start((from + k) as nat) by {
                assert(before[x] == had[x]@);
            }
            lemma_in_order_concat(
                src,
                plan,
                src.start(from as nat),
                src.start((from + k) as nat),
                before,
                hits_view(some@),
            );
        }
        let mut j: usize = 0;
        while j < some.len()
            invariant
                j <= some@.len(),
                forall|x: int|
                    0 <= x < out@.len() ==> (#[trigger] out@[x]).byte + out@[x].byte_len
                        <= src.start((from + k + 1) as nat),
                forall|x: int|
                    0 <= x < some@.len() ==> (#[trigger] some@[x]).byte + some@[x].byte_len
                        <= src.start((from + k + 1) as nat),
                hits_view(out@) == before + hits_view(some@).take(j as int),
                forall|x: int|
                    0 <= x < out@.len() ==> (#[trigger] out@[x]).byte + out@[x].byte_len
                        <= buf@.len(),
                forall|x: int|
                    0 <= x < some@.len() ==> (#[trigger] some@[x]).byte + some@[x].byte_len
                        <= buf@.len(),
            decreases some.len() - j,
        {
            let h = some[j];
            let ghost prev = hits_view(out@);
            out.push(h);
            assert(hits_view(out@) =~= prev.push(h@));
            assert(hits_view(some@).take(j + 1) =~= hits_view(some@).take(j as int).push(h@));
            assert(hits_view(out@) =~= before + hits_view(some@).take(j + 1));
            j += 1;
        }
        assert(hits_view(some@).take(some@.len() as int) =~= hits_view(some@));
        assert(hits_view(some@) == line_hits(src, pattern@, insensitive, ww, line));
        k += 1;
        assert(hits_view(out@) == lines_hits(
            src,
            pattern@,
            insensitive,
            ww,
            from as int,
            from + k,
        ));
    }
    out
}

fn search_decoded(
    buf: &[u8],
    index: &LineIndex,
    enc: Encoding,
    pattern: &str,
    insensitive: bool,
    ww: bool,
    start: usize,
    max: usize,
    Ghost(src): Ghost<Source>,
) -> (r: SearchResult)
    requires
        indexes_source(*index, src),
        src.buf == buf@,
        src.encoding == enc,
        src.base <= start <= buf@.len(),
        PlanView::DecodeLine(pattern@, insensitive).runs(),
        decoded_by_line(enc),
    ensures
        answered(
            r,
            all_hits(src, PlanView::DecodeLine(pattern@, insensitive), ww, start as int),
            max as nat,
        ),
        in_order(
            src,
            PlanView::DecodeLine(pattern@, insensitive),
            start as int,
            hits_view(r.hits@),
        ),
{
    let ghost plan = PlanView::DecodeLine(pattern@, insensitive);
    let n = buf.len();
    let first = index.line_of_byte(buf, start as u64);
    proof {
        index.lemma_describes(buf@);
    }
    let total = index.line_count();
    let ghost (lo, hi) = (start as int, n as int);
    let ghost whole = lines_hits(
        src,
        pattern@,
        insensitive,
        ww,
        first as int,
        total as int,
    );
    let ghost all = hits_within(whole, lo, hi);
    let mut hits: Vec<SearchHit> = Vec::new();
    let mut line: u64 = first;
    assert(lines_hits(src, pattern@, insensitive, ww, first as int, first as int) =~= Seq::empty());
    assert(hits_view(hits@) =~= Seq::empty());
    while line < total
        invariant
            indexes_source(*index, src),
            src.buf == buf@,
            src.encoding == enc,
            PlanView::DecodeLine(pattern@, insensitive).runs(),
            decoded_by_line(enc),
            plan == PlanView::DecodeLine(pattern@, insensitive),
            in_order(src, plan, lo, hits_view(hits@)),
            forall|x: int|
                0 <= x < hits@.len() ==> (#[trigger] hits@[x]).byte + hits@[x].byte_len
                    <= src.start(line as nat),
            first <= line <= total,
            total == src.count(),
            n == buf@.len(),
            lo == start,
            hi == n,
            whole == lines_hits(src, pattern@, insensitive, ww, first as int, total as int),
            all == hits_within(whole, lo, hi),
            all == all_hits(src, PlanView::DecodeLine(pattern@, insensitive), ww, start as int),
            hits@.len() <= max,
            hits_view(hits@) == hits_within(
                lines_hits(src, pattern@, insensitive, ww, first as int, line as int),
                lo,
                hi,
            ),
        decreases total - line,
    {
        let some = batch_hits(
            buf,
            index,
            enc,
            pattern,
            insensitive,
            ww,
            line,
            LINE_BATCH,
            Ghost(src),
        );
        let next = if total - line <= LINE_BATCH {
            total
        } else {
            line + LINE_BATCH
        };
        let ghost done = lines_hits(src, pattern@, insensitive, ww, first as int, line as int);
        let ghost sv = hits_view(some@);
        proof {
            lemma_lines_hits_split(
                src,
                pattern@,
                insensitive,
                ww,
                first as int,
                line as int,
                next as int,
            );
            lemma_lines_hits_split(
                src,
                pattern@,
                insensitive,
                ww,
                first as int,
                next as int,
                total as int,
            );
        }
        let mut j: usize = 0;
        assert(done + sv.take(0) =~= done);
        proof {
            assert(next == line + window_len(line as int, LINE_BATCH as int, total as int));
            lemma_start_order(src.buf, src.newline, src.base, line as nat, next as nat);
            assert forall|x: int, y: int| 0 <= x < hits@.len() && 0 <= y < some@.len() implies (
            #[trigger] hits@[x]).byte + hits@[x].byte_len <= (#[trigger] some@[y]).byte by {
                assert(some@[y]@ == sv[y]);
            }
        }
        while j < some.len()
            invariant
                j <= some@.len(),
                plan == PlanView::DecodeLine(pattern@, insensitive),
                in_order(src, plan, src.start(line as nat), sv),
                in_order(src, plan, lo, hits_view(hits@)),
                forall|x: int, y: int|
                    0 <= x < hits@.len() && j <= y < some@.len() ==> (#[trigger] hits@[x]).byte
                        + hits@[x].byte_len <= (#[trigger] some@[y]).byte,
                forall|x: int|
                    0 <= x < hits@.len() ==> (#[trigger] hits@[x]).byte + hits@[x].byte_len
                        <= src.start(next as nat),
                forall|x: int|
                    0 <= x < some@.len() ==> (#[trigger] some@[x]).byte + some@[x].byte_len
                        <= src.start(next as nat),
                n == buf@.len(),
                lo == start,
                hi == n,
                sv == hits_view(some@),
                all == hits_within(whole, lo, hi),
                all == all_hits(
                    src,
                    PlanView::DecodeLine(pattern@, insensitive),
                    ww,
                    start as int,
                ),
                done + sv + lines_hits(
                    src,
                    pattern@,
                    insensitive,
                    ww,
                    next as int,
                    total as int,
                ) == whole,
                hits@.len() <= max,
                hits_view(hits@) == hits_within(done + sv.take(j as int), lo, hi),
                forall|x: int|
                    0 <= x < some@.len() ==> (#[trigger] some@[x]).byte + some@[x].byte_len <= n,
            decreases some.len() - j,
        {
            let h = some[j];
            let ghost now = done + sv.take(j + 1);
            proof {
                assert(now.drop_last() =~= done + sv.take(j as int));
                assert(now.last() == h@);
            }
            if h.byte >= start as u64 {
                let ghost before = hits_view(hits@);
                if hits.len() >= max {
                    proof {
                        let rest = sv.skip(j + 1) + lines_hits(
                            src,
                            pattern@,
                            insensitive,
                            ww,
                            next as int,
                            total as int,
                        );
                        assert(whole =~= now + rest);
                        lemma_within_concat(now, rest, lo, hi);
                        assert(hits_within(now, lo, hi) == before.push(h@));
                        assert(all.take(max as int) =~= before);
                    }
                    return SearchResult { hits, truncated: true };
                }
                proof {
                    assert(sv[j as int] == h@);
                    assert(in_order(src, plan, h.byte as int, seq![h@]));
                    assert forall|x: int| 0 <= x < before.len() implies (#[trigger] before[x]).byte
                        + before[x].byte_len <= h.byte by {
                        assert(before[x] == hits@[x]@);
                        assert(hits@[x].byte + hits@[x].byte_len <= some@[j as int].byte);
                    }
                    lemma_in_order_concat(src, plan, lo, h.byte as int, before, seq![h@]);
                }
                let ghost had = hits@;
                hits.push(h);
                assert(hits_view(hits@) =~= before.push(h@));
                assert(before + seq![h@] =~= before.push(h@));
                assert forall|x: int, y: int|
                    0 <= x < hits@.len() && j + 1 <= y < some@.len() implies (
                #[trigger] hits@[x]).byte + hits@[x].byte_len <= (#[trigger] some@[y]).byte by {
                    if x < had.len() {
                        assert(hits@[x] == had[x]);
                    } else {
                        assert(sv[j as int] == h@ && sv[y] == some@[y]@);
                    }
                }
            }
            j += 1;
        }
        assert(sv.take(sv.len() as int) =~= sv);
        line = next;
    }
    assert(all.take(all.len() as int) =~= all);
    SearchResult { hits, truncated: false }
}

// ---- search ------------------------------------------------------------------

/// Searches a buffer from `opts.start_byte` on, and returns up to
/// `opts.max_hits` matches, in the order of their bytes and without overlap.
pub fn search(
    buf: &[u8],
    base: u64,
    len: u64,
    index: &LineIndex,
    enc: Encoding,
    opts: &SearchOptions,
) -> (r: Result<SearchResult, Error>)
    requires
        len == buf@.len(),
        base <= len,
        index.describes(buf@),
        index.spec_base() == base,
        codec_size(buf@.len()),
    ensures
        ({
            let src = Source {
                buf: buf@,
                base: base as int,
                newline: index.spec_newline(),
                encoding: enc,
            };
            let from = clamped(opts.start_byte as int, base as int, len as int);
            match planned(enc, opts.query@, opts.regex, opts.case_sensitive) {
                Ok(plan) => r matches Ok(res) && answered(
                    res,
                    all_hits(src, plan, opts.whole_word, from),
                    opts.max_hits as nat,
                ) && in_order(src, plan, from, hits_view(res.hits@)),
                Err(e) => r matches Err(x) && x@ == ErrorView::Search(e),
            }
        }),
{
    let ghost src = Source {
        buf: buf@,
        base: base as int,
        newline: index.spec_newline(),
        encoding: enc,
    };
    let plan = match MatchPlan::for_search(
        enc,
        opts.query.as_str(),
        opts.regex,
        opts.case_sensitive,
    ) {
        Ok(p) => p,
        Err(e) => {
            return Err(e);
        },
    };
    Ok(search_plan(buf, base, index, enc, &plan, opts.whole_word, opts.start_byte, opts.max_hits, Ghost(src)))
}

/// Searches a buffer by a plan.
fn search_plan(
    buf: &[u8],
    base: u64,
    index: &LineIndex,
    enc: Encoding,
    plan: &MatchPlan,
    ww: bool,
    start_byte: u64,
    max: usize,
    Ghost(src): Ghost<Source>,
) -> (r: SearchResult)
    requires
        indexes_source(*index, src),
        src.buf == buf@,
        src.encoding == enc,
        src.base == base,
        plan@.runs(),
        plan@ is DecodeLine ==> decoded_by_line(enc),
    ensures
        answered(
            r,
            all_hits(
                src,
                plan@,
                ww,
                clamped(start_byte as int, base as int, buf@.len() as int),
            ),
            max as nat,
        ),
        in_order(
            src,
            plan@,
            clamped(start_byte as int, base as int, buf@.len() as int),
            hits_view(r.hits@),
        ),
{
    let n = buf.len();
    let start: usize = if start_byte < base {
        base as usize
    } else if start_byte > n as u64 {
        n
    } else {
        start_byte as usize
    };
    match plan {
        MatchPlan::Literal { needle } => search_literal(
            buf,
            index,
            enc,
            needle.as_slice(),
            ww,
            start,
            max,
            Ghost(src),
        ),
        MatchPlan::Bytes { pattern, insensitive } => search_bytes(
            buf,
            index,
            enc,
            pattern.as_str(),
            *insensitive,
            ww,
            start,
            max,
            Ghost(src),
        ),
        MatchPlan::DecodeLine { pattern, insensitive } => search_decoded(
            buf,
            index,
            enc,
            pattern.as_str(),
            *insensitive,
            ww,
            start,
            max,
            Ghost(src),
        ),
    }
}

/// The first match, if there is one.
pub open spec fn first_hit(all: Seq<HitView>) -> Option<HitView> {
    if all.len() > 0 {
        Some(all[0])
    } else {
        None
    }
}

/// The last match, if there is one.
pub open spec fn last_hit(all: Seq<HitView>) -> Option<HitView> {
    if all.len() > 0 {
        Some(all.last())
    } else {
        None
    }
}

pub open spec fn opt_hit(h: Option<SearchHit>) -> Option<HitView> {
    match h {
        Some(x) => Some(x@),
        None => None,
    }
}

/// The first match at or after `opts.byte`.
pub fn find_next(
    buf: &[u8],
    base: u64,
    len: u64,
    index: &LineIndex,
    enc: Encoding,
    opts: &FindOptions,
) -> (r: Result<Option<SearchHit>, Error>)
    requires
        len == buf@.len(),
        base <= len,
        index.describes(buf@),
        index.spec_base() == base,
        codec_size(buf@.len()),
    ensures
        ({
            let src = Source {
                buf: buf@,
                base: base as int,
                newline: index.spec_newline(),
                encoding: enc,
            };
            let from = clamped(opts.byte as int, base as int, len as int);
            match planned(enc, opts.query@, opts.regex, opts.case_sensitive) {
                Ok(plan) => r matches Ok(h) && opt_hit(h) == first_hit(
                    all_hits(src, plan, opts.whole_word, from),
                ),
                Err(e) => r matches Err(x) && x@ == ErrorView::Search(e),
            }
        }),
{
    let ghost src = Source {
        buf: buf@,
        base: base as int,
        newline: index.spec_newline(),
        encoding: enc,
    };
    let plan = match MatchPlan::for_search(
        enc,
        opts.query.as_str(),
        opts.regex,
        opts.case_sensitive,
    ) {
        Ok(p) => p,
        Err(e) => {
            return Err(e);
        },
    };
    let res = search_plan(buf, base, index, enc, &plan, opts.whole_word, opts.byte, 1, Ghost(src));
    assert(hits_view(res.hits@).len() == res.hits@.len());
    if res.hits.len() > 0 {
        assert(hits_view(res.hits@)[0] == res.hits@[0]@);
        Ok(Some(res.hits[0]))
    } else {
        Ok(None)
    }
}

// ---- the match before --------------------------------------------------------

/// A literal query matches at `p`, inside the bytes from the base up to
/// `before`.
pub open spec fn literal_before(
    src: Source,
    needle: Seq<u8>,
    ww: bool,
    before: int,
    p: int,
) -> bool {
    &&& src.base <= p
    &&& p + needle.len() <= before
    &&& occurs_at(src.buf, needle, p)
    &&& src.accepts(ww, p, needle.len() as int)
}

/// What is found before `before`: the last match that ends there or earlier.
pub open spec fn prev_found(
    src: Source,
    plan: PlanView,
    ww: bool,
    before: int,
    r: Option<HitView>,
) -> bool {
    if before <= src.base {
        r is None
    } else {
        match plan {
            PlanView::Literal(needle) => match r {
                Some(h) => {
                    &&& literal_before(src, needle, ww, before, h.byte)
                    &&& h == src.hit(h.byte, needle.len() as int)
                    &&& forall|q: int|
                        q > h.byte ==> !#[trigger] literal_before(src, needle, ww, before, q)
                },
                None => forall|q: int| !#[trigger] literal_before(src, needle, ww, before, q),
            },
            PlanView::Bytes(pattern, insensitive) => r == last_hit(
                regex_hits(
                    src,
                    ww,
                    src.base,
                    byte_matches(pattern, insensitive, src.buf.subrange(src.base, before)),
                ),
            ),
            PlanView::DecodeLine(pattern, insensitive) => r == last_hit(
                hits_within(
                    lines_hits(
                        src,
                        pattern,
                        insensitive,
                        ww,
                        0,
                        if src.line_of(before) < src.count() {
                            src.line_of(before) as int + 1
                        } else {
                            src.count() as int
                        },
                    ),
                    src.base,
                    before,
                ),
            ),
        }
    }
}

fn prev_literal(
    buf: &[u8],
    index: &LineIndex,
    enc: Encoding,
    needle: &[u8],
    ww: bool,
    base: usize,
    before: usize,
    Ghost(src): Ghost<Source>,
) -> (r: Option<SearchHit>)
    requires
        indexes_source(*index, src),
        src.buf == buf@,
        src.encoding == enc,
        src.base == base,
        base < before <= buf@.len(),
    ensures
        prev_found(src, PlanView::Literal(needle@), ww, before as int, opt_hit(r)),
{
    let n = needle.len();
    let mut end: usize = before;
    loop
        invariant
            indexes_source(*index, src),
            src.buf == buf@,
            src.encoding == enc,
            src.base == base,
            n == needle@.len(),
            base <= end <= before <= buf@.len(),
            base < before,
            forall|q: int|
                q + n > end ==> !#[trigger] literal_before(src, needle@, ww, before as int, q),
        decreases end,
    {
        let hay = vstd::slice::slice_subrange(buf, base, end);
        proof {
            assert forall|q: int| base <= q && q + n <= end implies #[trigger] occurs_at(
                buf@,
                needle@,
                q,
            ) == occurs_at(hay@, needle@, q - base) by {
                assert(hay@.subrange(q - base, q - base + n) =~= buf@.subrange(q, q + n));
            }
        }
        match rfind_bytes(hay, needle) {
            None => {
                proof {
                    assert forall|q: int| !#[trigger] literal_before(
                        src,
                        needle@,
                        ww,
                        before as int,
                        q,
                    ) by {
                        if literal_before(src, needle@, ww, before as int, q) && q + n <= end {
                            assert(occurs_at(hay@, needle@, q - base));
                        }
                    }
                }
                return None;
            },
            Some(i) => {
                let p = base + i;
                assert(occurs_at(buf@, needle@, p as int));
                if is_accepted(buf, index, enc, ww, p, n, Ghost(src)) {
                    proof {
                        assert forall|q: int| q > p implies !#[trigger] literal_before(
                            src,
                            needle@,
                            ww,
                            before as int,
                            q,
                        ) by {
                            if literal_before(src, needle@, ww, before as int, q) && q + n <= end {
                                assert(occurs_at(hay@, needle@, q - base));
                            }
                        }
                    }
                    return Some(hit_at(buf, index, enc, p, n, Ghost(src)));
                }
                proof {
                    assert forall|q: int| q >= p implies !#[trigger] literal_before(
                        src,
                        needle@,
                        ww,
                        before as int,
                        q,
                    ) by {
                        if literal_before(src, needle@, ww, before as int, q) && q + n <= end
                            && q > p {
                            assert(occurs_at(hay@, needle@, q - base));
                        }
                    }
                }
                if p == base {
                    return None;
                }
                end = p + n - 1;
                proof {
                    assert forall|q: int| q + n > end implies !#[trigger] literal_before(
                        src,
                        needle@,
                        ww,
                        before as int,
                        q,
                    ) by {
                        assert(q >= p);
                    }
                }
            },
        }
    }
}

fn prev_bytes(
    buf: &[u8],
    index: &LineIndex,
    enc: Encoding,
    pattern: &str,
    insensitive: bool,
    ww: bool,
    base: usize,
    before: usize,
    Ghost(src): Ghost<Source>,
) -> (r: Option<SearchHit>)
    requires
        indexes_source(*index, src),
        src.buf == buf@,
        src.encoding == enc,
        src.base == base,
        base < before <= buf@.len(),
        PlanView::Bytes(pattern@, insensitive).runs(),
    ensures
        prev_found(src, PlanView::Bytes(pattern@, insensitive), ww, before as int, opt_hit(r)),
{
    let hay = vstd::slice::slice_subrange(buf, base, before);
    let n = buf.len();
    let ghost ms = byte_matches(pattern@, insensitive, hay@);
    // Matches do not overlap, so there is at most one more than there are bytes.
    let spans = find_spans(pattern, insensitive, hay, hay.len() + 2);
    assert(spans_view(spans@) == ms);
    let mut k: usize = spans.len();
    assert(ms.take(k as int) =~= ms);
    while k > 0
        invariant
            indexes_source(*index, src),
            src.buf == buf@,
            src.encoding == enc,
            src.base == base,
            n == buf@.len(),
            base < before <= n,
            k <= spans@.len(),
            spans_view(spans@) == ms,
            spans_inside(spans@, (before - base) as nat),
            last_hit(regex_hits(src, ww, base as int, ms)) == last_hit(
                regex_hits(src, ww, base as int, ms.take(k as int)),
            ),
            ms == byte_matches(pattern@, insensitive, buf@.subrange(base as int, before as int)),
        decreases k,
    {
        let (a, b) = spans[k - 1];
        proof {
            assert(spans@[k - 1].0 <= spans@[k - 1].1 <= before - base);
            let t = ms.take(k as int);
            assert(t.last() == (a as int, b as int));
            assert(t.drop_last() =~= ms.take(k - 1));
        }
        if b != a && (!ww || is_whole_word(buf, base + a, b - a)) {
            return Some(hit_at(buf, index, enc, base + a, b - a, Ghost(src)));
        }
        k -= 1;
    }
    assert(ms.take(0) =~= Seq::empty());
    None
}

fn prev_decoded(
    buf: &[u8],
    index: &LineIndex,
    enc: Encoding,
    pattern: &str,
    insensitive: bool,
    ww: bool,
    base: usize,
    before: usize,
    Ghost(src): Ghost<Source>,
) -> (r: Option<SearchHit>)
    requires
        indexes_source(*index, src),
        src.buf == buf@,
        src.encoding == enc,
        src.base == base,
        base < before <= buf@.len(),
        PlanView::DecodeLine(pattern@, insensitive).runs(),
        decoded_by_line(enc),
    ensures
        prev_found(src, PlanView::DecodeLine(pattern@, insensitive), ww, before as int, opt_hit(r)),
{
    let n = buf.len();
    let total = index.line_count();
    let at = index.line_of_byte(buf, before as u64);
    proof {
        index.lemma_describes(buf@);
    }
    let top = if at < total {
        at + 1
    } else {
        total
    };
    let ghost (lo, hi) = (base as int, before as int);
    let ghost whole = lines_hits(src, pattern@, insensitive, ww, 0, top as int);
    let mut end: u64 = top;
    while end > 0
        invariant
            indexes_source(*index, src),
            src.buf == buf@,
            src.encoding == enc,
            n == buf@.len(),
            base < before <= n,
            lo == base,
            hi == before,
            src.base == base,
            PlanView::DecodeLine(pattern@, insensitive).runs(),
            decoded_by_line(enc),
            total == src.count(),
            end <= top <= total,
            top == if src.line_of(hi) < src.count() {
                src.line_of(hi) as int + 1
            } else {
                src.count() as int
            },
            whole == lines_hits(src, pattern@, insensitive, ww, 0, top as int),
            last_hit(hits_within(whole, lo, hi)) == last_hit(
                hits_within(
                    lines_hits(src, pattern@, insensitive, ww, 0, end as int),
                    lo,
                    hi,
                ),
            ),
        decreases end,
    {
        let from = if end <= LINE_BATCH {
            0
        } else {
            end - LINE_BATCH
        };
        let some = batch_hits(
            buf,
            index,
            enc,
            pattern,
            insensitive,
            ww,
            from,
            end - from,
            Ghost(src),
        );
        let ghost sv = hits_view(some@);
        let ghost head = lines_hits(src, pattern@, insensitive, ww, 0, from as int);
        proof {
            lemma_lines_hits_split(src, pattern@, insensitive, ww, 0, from as int, end as int);
        }
        let mut k: usize = some.len();
        assert(sv.take(sv.len() as int) =~= sv);
        while k > 0
            invariant
                k <= some@.len(),
                sv == hits_view(some@),
                n == buf@.len(),
                base < before <= n,
                lo == base,
                hi == before,
                src.base == base,
                top == if src.line_of(hi) < src.count() {
                    src.line_of(hi) as int + 1
                } else {
                    src.count() as int
                },
                whole == lines_hits(src, pattern@, insensitive, ww, 0, top as int),
                last_hit(hits_within(whole, lo, hi)) == last_hit(
                    hits_within(head + sv.take(k as int), lo, hi),
                ),
                forall|x: int|
                    0 <= x < some@.len() ==> (#[trigger] some@[x]).byte + some@[x].byte_len <= n,
            decreases k,
        {
            let h = some[k - 1];
            proof {
                let now = head + sv.take(k as int);
                assert(now.last() == h@);
                assert(now.drop_last() =~= head + sv.take(k - 1));
                assert(some@[k - 1].byte + some@[k - 1].byte_len <= n);
            }
            if h.byte >= base as u64 && h.byte + h.byte_len <= before as u64 {
                return Some(h);
            }
            k -= 1;
        }
        assert(head + sv.take(0) =~= head);
        end = from;
    }
    None
}

/// The last match that ends at or before `opts.byte`. An occurrence that does
/// not count hides none that overlaps it.
pub fn find_prev(
    buf: &[u8],
    base: u64,
    index: &LineIndex,
    enc: Encoding,
    opts: &FindOptions,
) -> (r: Result<Option<SearchHit>, Error>)
    requires
        base <= buf@.len(),
        index.describes(buf@),
        index.spec_base() == base,
        codec_size(buf@.len()),
    ensures
        ({
            let src = Source {
                buf: buf@,
                base: base as int,
                newline: index.spec_newline(),
                encoding: enc,
            };
            let before = clamped(opts.byte as int, base as int, buf@.len() as int);
            match planned(enc, opts.query@, opts.regex, opts.case_sensitive) {
                Ok(plan) => r matches Ok(h) && prev_found(
                    src,
                    plan,
                    opts.whole_word,
                    before,
                    opt_hit(h),
                ),
                Err(e) => r matches Err(x) && x@ == ErrorView::Search(e),
            }
        }),
{
    let ghost src = Source {
        buf: buf@,
        base: base as int,
        newline: index.spec_newline(),
        encoding: enc,
    };
    let plan = match MatchPlan::for_search(
        enc,
        opts.query.as_str(),
        opts.regex,
        opts.case_sensitive,
    ) {
        Ok(p) => p,
        Err(e) => {
            return Err(e);
        },
    };
    let n = buf.len();
    if opts.byte <= base {
        return Ok(None);
    }
    let before: usize = if opts.byte > n as u64 {
        n
    } else {
        opts.byte as usize
    };
    let b = base as usize;
    if before <= b {
        return Ok(None);
    }
    let ww = opts.whole_word;
    Ok(
        match &plan {
            MatchPlan::Literal { needle } => prev_literal(
                buf,
                index,
                enc,
                needle.as_slice(),
                ww,
                b,
                before,
                Ghost(src),
            ),
            MatchPlan::Bytes { pattern, insensitive } => prev_bytes(
                buf,
                index,
                enc,
                pattern.as_str(),
                *insensitive,
                ww,
                b,
                before,
                Ghost(src),
            ),
            MatchPlan::DecodeLine { pattern, insensitive } => prev_decoded(
                buf,
                index,
                enc,
                pattern.as_str(),
                *insensitive,
                ww,
                b,
                before,
                Ghost(src),
            ),
        },
    )
}

/// The hits of a literal query hold it, count as matches, lie in the order of
/// their bytes and do not overlap.
pub proof fn literal_hits_are_matches(src: Source, needle: Seq<u8>, ww: bool, from: int)
    requires
        0 <= from,
    ensures
        ({
            let hits = literal_hits(src, needle, ww, from);
            &&& forall|i: int|
                0 <= i < hits.len() ==> {
                    let h = #[trigger] hits[i];
                    &&& from <= h.byte
                    &&& occurs_at(src.buf, needle, h.byte)
                    &&& src.accepts(ww, h.byte, needle.len() as int)
                    &&& h == src.hit(h.byte, needle.len() as int)
                }
            &&& forall|i: int, j: int|
                0 <= i < j < hits.len() ==> (#[trigger] hits[i]).byte + stride_of(needle) <= (
                #[trigger] hits[j]).byte
        }),
    decreases src.buf.len() + 1 - from,
{
    lemma_next_at(src.buf, needle, from);
    match next_at(src.buf, needle, from) {
        None => {},
        Some(p) => {
            let next = p + stride_at(src.encoding, needle, p);
            let rest = literal_hits(src, needle, ww, next);
            literal_hits_are_matches(src, needle, ww, next);
            let hits = literal_hits(src, needle, ww, from);
            if src.accepts(ww, p, needle.len() as int) {
                assert(hits =~= seq![src.hit(p, needle.len() as int)] + rest);
                assert forall|i: int| 0 <= i < hits.len() implies {
                    let h = #[trigger] hits[i];
                    &&& from <= h.byte
                    &&& occurs_at(src.buf, needle, h.byte)
                    &&& src.accepts(ww, h.byte, needle.len() as int)
                    &&& h == src.hit(h.byte, needle.len() as int)
                } by {
                    if i > 0 {
                        assert(hits[i] == rest[i - 1]);
                    }
                }
                assert forall|i: int, j: int| 0 <= i < j < hits.len() implies (
                #[trigger] hits[i]).byte + stride_of(needle) <= (#[trigger] hits[j]).byte by {
                    assert(hits[j] == rest[j - 1]);
                    if i > 0 {
                        assert(hits[i] == rest[i - 1]);
                    }
                }
            } else {
                assert(hits =~= rest);
            }
        },
    }
}

/// A search that was cut short returns as many hits as were asked for; one that
/// was not has them all, and asking for more gives no others.
pub proof fn searches_are_complete_unless_cut_short(
    all: Seq<HitView>,
    r: SearchResult,
    max: nat,
    more: SearchResult,
    larger: nat,
)
    requires
        answered(r, all, max),
        answered(more, all, larger),
        max <= larger,
    ensures
        r.hits@.len() <= max,
        r.truncated ==> r.hits@.len() == max,
        !r.truncated ==> hits_view(r.hits@) == all && hits_view(more.hits@) == hits_view(r.hits@)
            && !more.truncated,
{
    assert(hits_view(r.hits@).len() == r.hits@.len());
    assert(all.take(all.len() as int) =~= all);
}

} // verus!
