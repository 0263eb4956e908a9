//! What a search finds, and what it does not.

use vstd::prelude::*;
use vstd::utf8::*;

use crate::bytes::occurs_at;
use crate::encoding::{
    decoded, lemma_text_has_bytes, text_units, unit_of, units_bytes, Encoding,
};
use crate::patterns::{
    byte_matches, char_index, escaped, planned, text_matches, word_byte, word_char, word_unit,
};
use crate::search::{
    all_hits, decoded_span, hits_within, lemma_next_at, lines_hits, literal_hits,
    literal_hits_are_matches, next_at, regex_accepts, regex_hits, stride_at, stride_of, text_hit,
    text_hits, HitView, Source,
};

verus! {

// ---- words -------------------------------------------------------------------

/// Words are made of ASCII letters of either case, ASCII digits and the
/// underscore, whether they are read as bytes or as characters. Switching the
/// case of a letter makes no difference.
pub proof fn words_are_letters_digits_and_underscores(b: u8, c: char)
    ensures
        word_byte(b) <==> ('a' <= b as char <= 'z' || 'A' <= b as char <= 'Z' || '0' <= b as char
            <= '9' || b as char == '_'),
        word_char(c) <==> ('a' <= c <= 'z' || 'A' <= c <= 'Z' || '0' <= c <= '9' || c == '_'),
        c as u32 == b ==> word_byte(b) == word_char(c),
        65 <= b <= 90 ==> word_byte((b + 32) as u8) && word_byte(b),
        b >= 128 ==> !word_byte(b),
{
}

/// A letter, a digit or an underscore stands at a place.
pub open spec fn word_stands(buf: Seq<u8>, i: int) -> bool {
    0 <= i < buf.len() && ({
        let b = buf[i];
        97 <= b <= 122 || 65 <= b <= 90 || 48 <= b <= 57 || b == 95
    })
}

/// The encodings in which a byte of a query is looked for wherever it stands.
pub open spec fn plain(enc: Encoding) -> bool {
    enc == Encoding::Utf8 || enc == Encoding::Ascii || enc == Encoding::Iso2022Jp
}

/// An occurrence that a search for bytes is to find.
pub open spec fn wanted(buf: Seq<u8>, needle: Seq<u8>, ww: bool, q: int) -> bool {
    &&& 0 <= q
    &&& q + needle.len() <= buf.len()
    &&& buf.subrange(q, q + needle.len()) == needle
    &&& ww ==> !word_stands(buf, q - 1) && !word_stands(buf, q + needle.len())
}

proof fn lemma_hits_complete(src: Source, needle: Seq<u8>, ww: bool, from: int, q: int)
    requires
        0 <= from <= q,
        needle.len() > 0,
        plain(src.encoding),
        wanted(src.buf, needle, ww, q),
        forall|r: int|
            from <= r < q < r + needle.len() ==> !#[trigger] occurs_at(src.buf, needle, r),
    ensures
        exists|i: int|
            0 <= i < literal_hits(src, needle, ww, from).len() && (#[trigger] literal_hits(
                src,
                needle,
                ww,
                from,
            )[i]).byte == q,
    decreases src.buf.len() + 1 - from,
{
    lemma_next_at(src.buf, needle, from);
    assert(occurs_at(src.buf, needle, q));
    let p = next_at(src.buf, needle, from)->Some_0;
    let hits = literal_hits(src, needle, ww, from);
    let rest = literal_hits(src, needle, ww, p + stride_of(needle));
    if p == q {
        assert(src.accepts(ww, q, needle.len() as int));
        assert(hits =~= seq![src.hit(p, needle.len() as int)] + rest);
        assert(hits[0].byte == q);
    } else {
        assert(p + needle.len() <= q);
        lemma_hits_complete(src, needle, ww, p + stride_of(needle), q);
        let i = choose|i: int| 0 <= i < rest.len() && (#[trigger] rest[i]).byte == q;
        if src.accepts(ww, p, needle.len() as int) {
            assert(hits =~= seq![src.hit(p, needle.len() as int)] + rest);
            assert(hits[i + 1].byte == q);
        } else {
            assert(hits =~= rest);
            assert(hits[i].byte == q);
        }
    }
}

proof fn lemma_hits_cover(src: Source, needle: Seq<u8>, from: int, q: int)
    requires
        0 <= from <= q,
        needle.len() > 0,
        plain(src.encoding),
        occurs_at(src.buf, needle, q),
    ensures
        exists|i: int|
            0 <= i < literal_hits(src, needle, false, from).len() && (#[trigger] literal_hits(
                src,
                needle,
                false,
                from,
            )[i]).byte <= q < literal_hits(src, needle, false, from)[i].byte + needle.len(),
    decreases src.buf.len() + 1 - from,
{
    lemma_next_at(src.buf, needle, from);
    let p = next_at(src.buf, needle, from)->Some_0;
    let hits = literal_hits(src, needle, false, from);
    let rest = literal_hits(src, needle, false, p + stride_of(needle));
    assert(src.accepts(false, p, needle.len() as int));
    assert(hits =~= seq![src.hit(p, needle.len() as int)] + rest);
    if q < p + needle.len() {
        assert(hits[0].byte <= q < hits[0].byte + needle.len());
    } else {
        lemma_hits_cover(src, needle, p + stride_of(needle), q);
        let i = choose|i: int|
            0 <= i < rest.len() && (#[trigger] rest[i]).byte <= q < rest[i].byte + needle.len();
        assert(hits[i + 1] == rest[i]);
    }
}

/// A search for a text in UTF-8 or ASCII finds it wherever its bytes stand, and
/// nothing else: each hit holds the query, and hits come in order and apart.
/// Of whole words there is no letter, digit or underscore right before a hit or
/// right after it. Every occurrence is found, or overlaps one that is; of whole
/// words every one that no earlier occurrence overlaps.
pub proof fn a_text_is_found_wherever_it_stands(src: Source, query: Seq<char>, ww: bool, from: int)
    requires
        src.encoding == Encoding::Utf8 || src.encoding == Encoding::Ascii,
        query.len() > 0,
        0 <= from,
    ensures
        ({
            let plan = planned(src.encoding, query, false, true);
            let needle = encode_utf8(query);
            let hits = all_hits(src, plan->Ok_0, ww, from);
            &&& plan is Ok
            &&& forall|i: int|
                0 <= i < hits.len() ==> {
                    let h = #[trigger] hits[i];
                    &&& from <= h.byte
                    &&& h.byte_len == needle.len()
                    &&& wanted(src.buf, needle, ww, h.byte)
                }
            &&& forall|i: int, j: int|
                0 <= i < j < hits.len() ==> (#[trigger] hits[i]).byte + needle.len() <= (
                #[trigger] hits[j]).byte
            &&& forall|q: int|
                from <= q && #[trigger] wanted(src.buf, needle, ww, q) && (forall|r: int|
                    from <= r < q < r + needle.len() ==> !#[trigger] wanted(
                        src.buf,
                        needle,
                        false,
                        r,
                    )) ==> exists|i: int| 0 <= i < hits.len() && (#[trigger] hits[i]).byte == q
            &&& !ww ==> forall|q: int|
                from <= q && #[trigger] wanted(src.buf, needle, ww, q) ==> exists|i: int|
                    0 <= i < hits.len() && (#[trigger] hits[i]).byte <= q < hits[i].byte
                        + needle.len()
        }),
{
    let needle = encode_utf8(query);
    let hits = literal_hits(src, needle, ww, from);
    assert(needle.len() > 0);
    literal_hits_are_matches(src, needle, ww, from);
    assert(all_hits(src, planned(src.encoding, query, false, true)->Ok_0, ww, from) == hits);
    assert forall|i: int| 0 <= i < hits.len() implies {
        let h = #[trigger] hits[i];
        &&& from <= h.byte
        &&& h.byte_len == needle.len()
        &&& wanted(src.buf, needle, ww, h.byte)
    } by {
        assert(occurs_at(src.buf, needle, hits[i].byte));
        assert(hits[i] == src.hit(hits[i].byte, needle.len() as int));
        assert(src.accepts(ww, hits[i].byte, needle.len() as int));
    }
    assert forall|q: int|
        from <= q && #[trigger] wanted(src.buf, needle, ww, q) && (forall|r: int|
            from <= r < q < r + needle.len() ==> !#[trigger] wanted(
                src.buf,
                needle,
                false,
                r,
            )) implies exists|i: int| 0 <= i < hits.len() && (#[trigger] hits[i]).byte == q by {
        assert forall|r: int| from <= r < q < r + needle.len() implies !#[trigger] occurs_at(
            src.buf,
            needle,
            r,
        ) by {
            assert(!wanted(src.buf, needle, false, r));
        }
        lemma_hits_complete(src, needle, ww, from, q);
    }
    if !ww {
        assert forall|q: int| from <= q && #[trigger] wanted(src.buf, needle, ww, q) implies exists|
            i: int,
        |
            0 <= i < hits.len() && (#[trigger] hits[i]).byte <= q < hits[i].byte + needle.len() by {
            lemma_hits_cover(src, needle, from, q);
        }
    }
}

// ---- UTF-16 ------------------------------------------------------------------

/// An ASCII letter, a digit or an underscore stands at a place as a unit.
pub open spec fn word_unit_stands(enc: Encoding, buf: Seq<u8>, i: int) -> bool {
    0 <= i && i + 1 < buf.len() && if enc == Encoding::Utf16Le {
        word_stands(buf, i) && buf[i + 1] == 0
    } else {
        word_stands(buf, i + 1) && buf[i] == 0
    }
}

/// An occurrence that a search in UTF-16 is to find: whole units.
pub open spec fn wanted_units(
    enc: Encoding,
    buf: Seq<u8>,
    needle: Seq<u8>,
    ww: bool,
    q: int,
) -> bool {
    &&& 0 <= q
    &&& q % 2 == 0
    &&& q + needle.len() <= buf.len()
    &&& buf.subrange(q, q + needle.len()) == needle
    &&& ww ==> !word_unit_stands(enc, buf, q - 2) && !word_unit_stands(enc, buf, q + needle.len())
}

proof fn lemma_wide_accepts(src: Source, needle: Seq<u8>, ww: bool, q: int)
    requires
        src.encoding.wide(),
        occurs_at(src.buf, needle, q),
    ensures
        src.accepts(ww, q, needle.len() as int) <==> wanted_units(
            src.encoding,
            src.buf,
            needle,
            ww,
            q,
        ),
{
    let (enc, buf) = (src.encoding, src.buf);
    let len = needle.len() as int;
    assert forall|i: int| 0 <= i && i + 1 < buf.len() implies word_unit(enc, buf, i)
        == #[trigger] word_unit_stands(enc, buf, i) by {
        let (a, b) = (buf[i], buf[i + 1]);
        if enc == Encoding::Utf16Le {
            assert(unit_of(a, b, true) == a + 256 * b);
        } else {
            assert(unit_of(a, b, false) == 256 * a + b);
        }
    }
    if q >= 2 {
        assert(word_unit(enc, buf, q - 2) == word_unit_stands(enc, buf, q - 2));
    }
    if q + len + 2 <= buf.len() {
        assert(word_unit(enc, buf, q + len) == word_unit_stands(enc, buf, q + len));
    }
}

proof fn lemma_wide_complete(src: Source, needle: Seq<u8>, ww: bool, from: int, q: int)
    requires
        0 <= from <= q,
        needle.len() > 0,
        src.encoding.wide(),
        wanted_units(src.encoding, src.buf, needle, ww, q),
        forall|r: int|
            from <= r < q < r + needle.len() && r % 2 == 0 ==> !#[trigger] occurs_at(
                src.buf,
                needle,
                r,
            ),
    ensures
        exists|i: int|
            0 <= i < literal_hits(src, needle, ww, from).len() && (#[trigger] literal_hits(
                src,
                needle,
                ww,
                from,
            )[i]).byte == q,
    decreases src.buf.len() + 1 - from,
{
    lemma_next_at(src.buf, needle, from);
    assert(occurs_at(src.buf, needle, q));
    let p = next_at(src.buf, needle, from)->Some_0;
    let next = p + stride_at(src.encoding, needle, p);
    let hits = literal_hits(src, needle, ww, from);
    let rest = literal_hits(src, needle, ww, next);
    if p == q {
        lemma_wide_accepts(src, needle, ww, q);
        assert(hits =~= seq![src.hit(p, needle.len() as int)] + rest);
        assert(hits[0].byte == q);
    } else {
        assert(next <= q);
        lemma_wide_complete(src, needle, ww, next, q);
        let i = choose|i: int| 0 <= i < rest.len() && (#[trigger] rest[i]).byte == q;
        if src.accepts(ww, p, needle.len() as int) {
            assert(hits =~= seq![src.hit(p, needle.len() as int)] + rest);
            assert(hits[i + 1].byte == q);
        } else {
            assert(hits =~= rest);
            assert(hits[i].byte == q);
        }
    }
}

/// A search for a text in UTF-16 finds it wherever its units stand, and nothing
/// else. Of whole words no letter, digit or underscore stands right before a
/// hit or right after it. Every occurrence is found that no earlier one
/// overlaps; bytes that lie across units are none.
pub proof fn a_text_is_found_among_units(src: Source, query: Seq<char>, ww: bool, from: int)
    requires
        src.encoding.wide(),
        query.len() > 0,
        0 <= from,
    ensures
        ({
            let plan = planned(src.encoding, query, false, true);
            let needle = units_bytes(text_units(query), src.encoding == Encoding::Utf16Le);
            let hits = all_hits(src, plan->Ok_0, ww, from);
            &&& plan is Ok
            &&& forall|i: int|
                0 <= i < hits.len() ==> {
                    let h = #[trigger] hits[i];
                    &&& from <= h.byte
                    &&& h.byte_len == needle.len()
                    &&& wanted_units(src.encoding, src.buf, needle, ww, h.byte)
                }
            &&& forall|i: int, j: int|
                0 <= i < j < hits.len() ==> (#[trigger] hits[i]).byte + needle.len() <= (
                #[trigger] hits[j]).byte
            &&& forall|q: int|
                from <= q && #[trigger] wanted_units(src.encoding, src.buf, needle, ww, q) && (
                forall|r: int|
                    from <= r < q < r + needle.len() ==> !#[trigger] wanted_units(
                        src.encoding,
                        src.buf,
                        needle,
                        false,
                        r,
                    )) ==> exists|i: int| 0 <= i < hits.len() && (#[trigger] hits[i]).byte == q
        }),
{
    let enc = src.encoding;
    let needle = units_bytes(text_units(query), enc == Encoding::Utf16Le);
    let hits = literal_hits(src, needle, ww, from);
    lemma_text_has_bytes(query);
    assert(needle.len() > 0);
    literal_hits_are_matches(src, needle, ww, from);
    assert(all_hits(src, planned(enc, query, false, true)->Ok_0, ww, from) == hits);
    assert forall|i: int| 0 <= i < hits.len() implies {
        let h = #[trigger] hits[i];
        &&& from <= h.byte
        &&& h.byte_len == needle.len()
        &&& wanted_units(enc, src.buf, needle, ww, h.byte)
    } by {
        assert(hits[i] == src.hit(hits[i].byte, needle.len() as int));
        lemma_wide_accepts(src, needle, ww, hits[i].byte);
    }
    assert forall|q: int|
        from <= q && #[trigger] wanted_units(enc, src.buf, needle, ww, q) && (forall|r: int|
            from <= r < q < r + needle.len() ==> !#[trigger] wanted_units(
                enc,
                src.buf,
                needle,
                false,
                r,
            )) implies exists|i: int| 0 <= i < hits.len() && (#[trigger] hits[i]).byte == q by {
        assert forall|r: int| from <= r < q < r + needle.len() && r % 2 == 0 implies !#[trigger] occurs_at(
            src.buf,
            needle,
            r,
        ) by {
            assert(!wanted_units(enc, src.buf, needle, false, r));
        }
        lemma_wide_complete(src, needle, ww, from, q);
    }
}

// ---- matches of patterns -----------------------------------------------------

/// A match of a pattern on bytes that counts: not empty, and of whole words
/// without a letter, digit or underscore right before it or right after it.
pub open spec fn counts(src: Source, ww: bool, from: int, m: (int, int)) -> bool {
    &&& m.0 != m.1
    &&& ww ==> !word_stands(src.buf, from + m.0 - 1) && !word_stands(src.buf, from + m.1)
}

/// A hit is the match of a pattern on the bytes from `from` on.
pub open spec fn is_match(h: HitView, from: int, m: (int, int)) -> bool {
    h.byte == from + m.0 && h.byte_len == m.1 - m.0
}

/// A hit is a match that counts.
pub open spec fn matched(
    src: Source,
    ww: bool,
    from: int,
    ms: Seq<(int, int)>,
    h: HitView,
) -> bool {
    exists|k: int|
        0 <= k < ms.len() && counts(src, ww, from, ms[k]) && #[trigger] is_match(h, from, ms[k])
}

/// Hits are the matches that count, all of them and no others.
pub open spec fn hits_are(
    src: Source,
    ww: bool,
    from: int,
    ms: Seq<(int, int)>,
    hits: Seq<HitView>,
) -> bool {
    &&& forall|i: int| 0 <= i < hits.len() ==> matched(src, ww, from, ms, #[trigger] hits[i])
    &&& forall|k: int|
        0 <= k < ms.len() && counts(src, ww, from, #[trigger] ms[k]) ==> exists|i: int|
            0 <= i < hits.len() && #[trigger] is_match(hits[i], from, ms[k])
}

proof fn lemma_regex_hits(src: Source, ww: bool, from: int, ms: Seq<(int, int)>)
    requires
        0 <= from,
        forall|k: int| 0 <= k < ms.len() ==> 0 <= (#[trigger] ms[k]).0 <= ms[k].1 <= src.buf.len()
            - from,
    ensures
        hits_are(src, ww, from, ms, regex_hits(src, ww, from, ms)),
    decreases ms.len(),
{
    let hits = regex_hits(src, ww, from, ms);
    if ms.len() > 0 {
        let head = ms.drop_last();
        assert forall|k: int| 0 <= k < head.len() implies 0 <= (#[trigger] head[k]).0 <= head[k].1
            <= src.buf.len() - from by {
            assert(head[k] == ms[k]);
        }
        lemma_regex_hits(src, ww, from, head);
        let before = regex_hits(src, ww, from, head);
        let n = head.len() as int;
        let m = ms[n];
        assert(0 <= m.0 <= m.1 <= src.buf.len() - from);
        assert(regex_accepts(src, ww, from, m) == counts(src, ww, from, m));
        assert forall|i: int| 0 <= i < hits.len() implies matched(
            src,
            ww,
            from,
            ms,
            #[trigger] hits[i],
        ) by {
            if i < before.len() {
                assert(hits[i] == before[i]);
                let k = choose|k: int|
                    0 <= k < head.len() && counts(src, ww, from, head[k]) && #[trigger] is_match(
                        before[i],
                        from,
                        head[k],
                    );
                assert(ms[k] == head[k]);
                assert(is_match(hits[i], from, ms[k]));
            } else {
                assert(is_match(hits[i], from, ms[n]));
            }
        }
        assert forall|k: int| 0 <= k < ms.len() && counts(src, ww, from, #[trigger] ms[k]) implies exists|
            i: int,
        |
            0 <= i < hits.len() && #[trigger] is_match(hits[i], from, ms[k]) by {
            if k < n {
                assert(head[k] == ms[k]);
                let i = choose|i: int|
                    0 <= i < before.len() && #[trigger] is_match(before[i], from, head[k]);
                assert(hits[i] == before[i]);
                assert(is_match(hits[i], from, ms[k]));
            } else {
                assert(is_match(hits[before.len() as int], from, ms[k]));
            }
        }
    }
}

/// A search with a pattern on bytes finds the matches that count, and no
/// others. The pattern is the query itself, or its characters taken literally
/// where it is no pattern, and case is disregarded unless it counts.
pub proof fn a_pattern_is_found_wherever_it_matches(
    src: Source,
    query: Seq<char>,
    regex: bool,
    case_sensitive: bool,
    ww: bool,
    from: int,
    ms: Seq<(int, int)>,
)
    requires
        src.encoding == Encoding::Utf8 || src.encoding == Encoding::Ascii,
        regex || !case_sensitive,
        planned(src.encoding, query, regex, case_sensitive) is Ok,
        0 <= from <= src.buf.len(),
        regex ==> ms == byte_matches(query, !case_sensitive, src.buf.skip(from)),
        !regex ==> ms == byte_matches(escaped(query), true, src.buf.skip(from)),
        forall|k: int| 0 <= k < ms.len() ==> 0 <= (#[trigger] ms[k]).0 <= ms[k].1 <= src.buf.len()
            - from,
    ensures
        hits_are(
            src,
            ww,
            from,
            ms,
            all_hits(src, planned(src.encoding, query, regex, case_sensitive)->Ok_0, ww, from),
        ),
{
    lemma_regex_hits(src, ww, from, ms);
}

// ---- matches on the texts of lines -------------------------------------------

/// A letter, a digit or an underscore stands at a place of a text.
pub open spec fn word_char_stands(t: Seq<char>, i: int) -> bool {
    0 <= i < t.len() && ('a' <= t[i] <= 'z' || 'A' <= t[i] <= 'Z' || '0' <= t[i] <= '9' || t[i]
        == '_')
}

/// The place of a byte of a text in UTF-8 is the number of characters before
/// it.
pub proof fn bytes_are_counted_as_characters(t: Seq<char>, n: int)
    requires
        0 <= n <= t.len(),
    ensures
        char_index(t, encode_utf8(t.take(n)).len() as int) == n,
    decreases n,
{
    if n > 0 {
        let r = t.drop_first();
        bytes_are_counted_as_characters(r, n - 1);
        assert(t.take(n).drop_first() =~= r.take(n - 1));
        assert(t.take(n)[0] == t[0]);
    } else {
        assert(t.take(0) =~= Seq::<char>::empty());
    }
}

/// A match on the text of a line gives a hit: it is not empty, takes bytes, and
/// of whole words no letter, digit or underscore stands right before it or
/// right after it. The hit is on that line, at the column of its first
/// character.
pub open spec fn is_text_match(
    src: Source,
    ww: bool,
    line: nat,
    m: (int, int),
    h: HitView,
) -> bool {
    let raw = src.raw(line);
    let t = decoded(src.encoding, raw);
    let (a, b) = (char_index(t, m.0) as int, char_index(t, m.1) as int);
    let span = decoded_span(src.encoding, raw, t, a, b);
    &&& m.0 != m.1
    &&& ww ==> !word_char_stands(t, a - 1) && !word_char_stands(t, b)
    &&& h.line == line
    &&& h.column == a
    &&& h.byte == src.start(line) + span.0
    &&& h.byte_len == span.1
    &&& span.1 != 0
}

/// A hit comes from one of the matches on the text of a line.
pub open spec fn among_matches(
    src: Source,
    ww: bool,
    line: nat,
    ms: Seq<(int, int)>,
    h: HitView,
) -> bool {
    exists|k: int| 0 <= k < ms.len() && #[trigger] is_text_match(src, ww, line, ms[k], h)
}

/// A hit comes from a match on the text of its line.
pub open spec fn from_text(
    src: Source,
    pattern: Seq<char>,
    insensitive: bool,
    ww: bool,
    h: HitView,
) -> bool {
    let line = h.line as nat;
    let ms = text_matches(pattern, insensitive, decoded(src.encoding, src.raw(line)));
    &&& h.line >= 0
    &&& among_matches(src, ww, line, ms, h)
}

proof fn lemma_text_hit(src: Source, ww: bool, line: nat, m: (int, int), h: HitView)
    requires
        m.0 <= m.1,
    ensures
        text_hit(src, ww, line, m) == Some(h) <==> is_text_match(src, ww, line, m, h),
{
    let raw = src.raw(line);
    let t = decoded(src.encoding, raw);
    crate::patterns::lemma_char_index(t, m.0, m.1);
    let (a, b) = (char_index(t, m.0) as int, char_index(t, m.1) as int);
    assert forall|i: int| 0 <= i < t.len() implies word_char(t[i]) == #[trigger] word_char_stands(
        t,
        i,
    ) by {
        words_are_letters_digits_and_underscores(0, t[i]);
    }
    if a > 0 {
        assert(word_char(t[a - 1]) == word_char_stands(t, a - 1));
    }
    if b < t.len() {
        assert(word_char(t[b]) == word_char_stands(t, b));
    }
}

proof fn lemma_text_hits(src: Source, ww: bool, line: nat, ms: Seq<(int, int)>)
    requires
        forall|k: int| 0 <= k < ms.len() ==> (#[trigger] ms[k]).0 <= ms[k].1,
    ensures
        ({
            let hits = text_hits(src, ww, line, ms);
            &&& forall|i: int|
                0 <= i < hits.len() ==> among_matches(src, ww, line, ms, #[trigger] hits[i])
            &&& forall|k: int, h: HitView|
                0 <= k < ms.len() && #[trigger] is_text_match(src, ww, line, ms[k], h)
                    ==> hits.contains(h)
        }),
    decreases ms.len(),
{
    let hits = text_hits(src, ww, line, ms);
    if ms.len() > 0 {
        let head = ms.drop_last();
        assert forall|k: int| 0 <= k < head.len() implies (#[trigger] head[k]).0 <= head[k].1 by {
            assert(head[k] == ms[k]);
        }
        lemma_text_hits(src, ww, line, head);
        let before = text_hits(src, ww, line, head);
        let n = head.len() as int;
        let got = text_hit(src, ww, line, ms[n]);
        assert forall|i: int| 0 <= i < hits.len() implies among_matches(
            src,
            ww,
            line,
            ms,
            #[trigger] hits[i],
        ) by {
            if i < before.len() {
                assert(among_matches(src, ww, line, head, before[i]));
                assert(hits[i] == before[i]);
                let k = choose|k: int|
                    0 <= k < head.len() && #[trigger] is_text_match(
                        src,
                        ww,
                        line,
                        head[k],
                        before[i],
                    );
                assert(ms[k] == head[k]);
                assert(is_text_match(src, ww, line, ms[k], hits[i]));
            } else {
                lemma_text_hit(src, ww, line, ms[n], hits[i]);
                assert(is_text_match(src, ww, line, ms[n], hits[i]));
            }
        }
        assert forall|k: int, h: HitView|
            0 <= k < ms.len() && #[trigger] is_text_match(src, ww, line, ms[k], h) implies hits.contains(
            h,
        ) by {
            if k < n {
                assert(head[k] == ms[k]);
                assert(is_text_match(src, ww, line, head[k], h));
                assert(before.contains(h));
                let i = choose|i: int| 0 <= i < before.len() && before[i] == h;
                assert(hits[i] == h);
            } else {
                lemma_text_hit(src, ww, line, ms[n], h);
                assert(hits[before.len() as int] == h);
            }
        }
    }
}

/// The engine gives the matches on a line's text as spans.
pub open spec fn spans_on(src: Source, pattern: Seq<char>, insensitive: bool, line: nat) -> bool {
    let ms = text_matches(pattern, insensitive, decoded(src.encoding, src.raw(line)));
    forall|k: int| 0 <= k < ms.len() ==> (#[trigger] ms[k]).0 <= ms[k].1
}

proof fn lemma_lines_hits(
    src: Source,
    pattern: Seq<char>,
    insensitive: bool,
    ww: bool,
    from: int,
    to: int,
)
    requires
        0 <= from,
        forall|line: nat| from <= line < to ==> #[trigger] spans_on(src, pattern, insensitive, line),
    ensures
        ({
            let hits = lines_hits(src, pattern, insensitive, ww, from, to);
            forall|h: HitView| #[trigger]
                hits.contains(h) <==> from <= h.line < to && from_text(
                    src,
                    pattern,
                    insensitive,
                    ww,
                    h,
                )
        }),
    decreases to - from,
{
    let hits = lines_hits(src, pattern, insensitive, ww, from, to);
    if from < to {
        lemma_lines_hits(src, pattern, insensitive, ww, from, to - 1);
        let before = lines_hits(src, pattern, insensitive, ww, from, to - 1);
        let line = (to - 1) as nat;
        let ms = text_matches(pattern, insensitive, decoded(src.encoding, src.raw(line)));
        let own = text_hits(src, ww, line, ms);
        assert(spans_on(src, pattern, insensitive, line));
        lemma_text_hits(src, ww, line, ms);
        assert(hits =~= before + own);
        assert forall|h: HitView| #[trigger] hits.contains(h) <==> from <= h.line < to && from_text(
            src,
            pattern,
            insensitive,
            ww,
            h,
        ) by {
            if hits.contains(h) {
                let i = choose|i: int| 0 <= i < hits.len() && hits[i] == h;
                if i < before.len() {
                    assert(before[i] == h);
                    assert(before.contains(h));
                } else {
                    let j = i - before.len();
                    assert(own[j] == h);
                    let k = choose|k: int|
                        0 <= k < ms.len() && #[trigger] is_text_match(src, ww, line, ms[k], own[j]);
                    assert(is_text_match(src, ww, line, ms[k], h));
                    assert(h.line as nat == line);
                }
            }
            if from <= h.line < to && from_text(src, pattern, insensitive, ww, h) {
                if h.line < to - 1 {
                    assert(before.contains(h));
                    let i = choose|i: int| 0 <= i < before.len() && before[i] == h;
                    assert(hits[i] == h);
                } else {
                    let k = choose|k: int|
                        0 <= k < ms.len() && #[trigger] is_text_match(src, ww, line, ms[k], h);
                    assert(own.contains(h));
                    let i = choose|i: int| 0 <= i < own.len() && own[i] == h;
                    assert(hits[before.len() + i] == h);
                }
            }
        }
    }
}

proof fn lemma_hits_within(hits: Seq<HitView>, lo: int, hi: int)
    ensures
        forall|h: HitView| #[trigger]
            hits_within(hits, lo, hi).contains(h) <==> hits.contains(h) && lo <= h.byte && h.byte
                + h.byte_len <= hi,
    decreases hits.len(),
{
    let out = hits_within(hits, lo, hi);
    if hits.len() > 0 {
        let head = hits.drop_last();
        lemma_hits_within(head, lo, hi);
        let before = hits_within(head, lo, hi);
        let last = hits.last();
        assert forall|h: HitView| #[trigger] out.contains(h) <==> hits.contains(h) && lo <= h.byte
            && h.byte + h.byte_len <= hi by {
            if out.contains(h) {
                let i = choose|i: int| 0 <= i < out.len() && out[i] == h;
                if i < before.len() {
                    assert(before[i] == h);
                    assert(before.contains(h));
                    let j = choose|j: int| 0 <= j < head.len() && head[j] == h;
                    assert(hits[j] == h);
                } else {
                    assert(hits[hits.len() - 1] == h);
                }
            }
            if hits.contains(h) && lo <= h.byte && h.byte + h.byte_len <= hi {
                let j = choose|j: int| 0 <= j < hits.len() && hits[j] == h;
                if j < head.len() {
                    assert(head[j] == h);
                    assert(head.contains(h));
                    assert(before.contains(h));
                    let i = choose|i: int| 0 <= i < before.len() && before[i] == h;
                    assert(out[i] == h);
                } else {
                    assert(out[before.len() as int] == h);
                }
            }
        }
    }
}

/// A search with a pattern in Shift_JIS, EUC-JP and UTF-16 finds the matches on
/// the texts of the lines, from the line of `from` on and as far as they start
/// there or later and end in the buffer: all that count, and no others.
pub proof fn a_pattern_is_found_on_every_line(
    src: Source,
    query: Seq<char>,
    regex: bool,
    insensitive: bool,
    ww: bool,
    from: int,
    pattern: Seq<char>,
)
    requires
        src.encoding == Encoding::ShiftJis || src.encoding == Encoding::EucJp
            || src.encoding.wide(),
        regex || insensitive,
        planned(src.encoding, query, regex, !insensitive) is Ok,
        pattern == if regex { query } else { escaped(query) },
        forall|line: nat|
            line < src.count() ==> #[trigger] spans_on(src, pattern, insensitive, line),
    ensures
        ({
            let hits = all_hits(
                src,
                planned(src.encoding, query, regex, !insensitive)->Ok_0,
                ww,
                from,
            );
            forall|h: HitView| #[trigger]
                hits.contains(h) <==> {
                    &&& src.line_of(from) <= h.line < src.count()
                    &&& from_text(src, pattern, insensitive, ww, h)
                    &&& from <= h.byte
                    &&& h.byte + h.byte_len <= src.buf.len()
                }
        }),
{
    let first = src.line_of(from) as int;
    let n = src.count() as int;
    lemma_lines_hits(src, pattern, insensitive, ww, first, n);
    lemma_hits_within(
        lines_hits(src, pattern, insensitive, ww, first, n),
        from,
        src.buf.len() as int,
    );
}

// ---- where hits stand --------------------------------------------------------

/// A hit in plain ASCII stands at the column that is as many bytes behind the
/// start of its line.
pub proof fn columns_count_characters(src: Source, s: int, len: int)
    requires
        src.encoding == Encoding::Utf8 || src.encoding == Encoding::Ascii,
        src.line_of(s) < src.count(),
        0 <= src.start(src.line_of(s)) <= s <= src.buf.len(),
        forall|i: int|
            src.start(src.line_of(s)) <= i < s ==> (#[trigger] src.buf[i]) < 0x80,
    ensures
        src.hit(s, len).line == src.line_of(s),
        src.hit(s, len).column == s - src.start(src.line_of(s)),
        src.hit(s, len).byte == s,
        src.hit(s, len).byte_len == len,
{
    let from = src.start(src.line_of(s));
    let part = src.buf.subrange(from, s);
    let t = Seq::new(part.len(), |i: int| part[i] as char);
    assert(is_ascii_chars(t)) by {
        assert forall|i: int| 0 <= i < t.len() implies '\0' <= #[trigger] t[i] <= '\u{7f}' by {
            assert(src.buf[from + i] < 0x80);
            assert(part[i] == src.buf[from + i]);
        }
    }
    is_ascii_chars_encode_utf8(t);
    assert(encode_utf8(t) =~= part) by {
        assert forall|i: int| 0 <= i < t.len() implies encode_utf8(t)[i] == part[i] by {
            assert(src.buf[from + i] < 0x80);
            assert(part[i] == src.buf[from + i]);
            assert(t[i] as u8 == part[i]);
        }
    }
    encode_utf8_valid_utf8(t);
    encode_utf8_decode_utf8(t);
}

} // verus!
