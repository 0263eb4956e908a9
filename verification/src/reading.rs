//! How buffers are read: by their marks, their line endings, their fields and
//! their records.

use crate::detect::{bomless_utf16, jis_opening_at, nuls, SNIFF};
use crate::document::{opened, DocView};
use crate::encoding::{char_units, encoded, text_units, units_bytes, utf16_text, Encoding};
use crate::eol::{
    code_units, eol_named, has_crlf, has_lone_cr, has_lone_lf, sniffed, units_eol, Eol, EOL_SNIFF,
};
use crate::fields::{field_at, field_source, split_fields, FieldSpec};
use crate::lines::{lemma_feeds, lemma_lf, lemma_start, lf_from, line_span, unit_is, Newline};
use crate::records::{occurrences, MAX_RECORD_BYTES, MAX_RECORD_LINES};
use crate::text::{is_white, trim_end, trim_start, trimmed};
use vstd::prelude::*;
use vstd::utf8::valid_utf8;

verus! {

// ---- marks and encodings -----------------------------------------------------

/// A byte-order mark says how a buffer is read, and is not part of its lines;
/// an encoding that is forced goes before it, and the mark is left out still.
pub proof fn marks_announce_encodings(path: Seq<char>, rest: Seq<u8>, forced: Encoding)
    ensures
        ({
            let utf8 = seq![0xEFu8, 0xBB, 0xBF] + rest;
            let doc = opened(path, utf8, None);
            &&& doc.encoding == Encoding::Utf8
            &&& doc.base == 3
            &&& doc.buf == utf8
            &&& opened(path, utf8, Some(forced)).encoding == forced
            &&& opened(path, utf8, Some(forced)).base == 3
        }),
        ({
            let le = seq![0xFFu8, 0xFE] + rest;
            let doc = opened(path, le, None);
            &&& doc.encoding == Encoding::Utf16Le
            &&& doc.base == 2
            &&& doc.buf == le
            &&& opened(path, le, Some(forced)).encoding == forced
            &&& opened(path, le, Some(forced)).base == 2
        }),
        ({
            let be = seq![0xFEu8, 0xFF] + rest;
            let doc = opened(path, be, None);
            &&& doc.encoding == Encoding::Utf16Be
            &&& doc.base == 2
            &&& doc.buf == be
            &&& opened(path, be, Some(forced)).encoding == forced
            &&& opened(path, be, Some(forced)).base == 2
        }),
{
}

/// A buffer that starts with no byte-order mark is read from its first byte.
pub open spec fn unmarked(buf: Seq<u8>) -> bool {
    &&& !(buf.len() >= 3 && buf[0] == 0xEF && buf[1] == 0xBB && buf[2] == 0xBF)
    &&& !(buf.len() >= 2 && buf[0] == 0xFF && buf[1] == 0xFE)
    &&& !(buf.len() >= 2 && buf[0] == 0xFE && buf[1] == 0xFF)
}

proof fn lemma_no_nuls(p: Seq<u8>, parity: int)
    requires
        forall|i: int| 0 <= i < p.len() ==> #[trigger] p[i] != 0,
    ensures
        nuls(p, parity) == 0,
    decreases p.len(),
{
    if p.len() > 0 {
        assert(p.last() == p[p.len() - 1]);
        assert forall|i: int| 0 <= i < p.drop_last().len() implies #[trigger] p.drop_last()[i]
            != 0 by {
            assert(p[i] != 0);
        }
        lemma_no_nuls(p.drop_last(), parity);
    }
}

/// A buffer without a mark and without NULs is UTF-8 where it can be read as
/// such and no escape to JIS X 0208 stands in it, and ISO-2022-JP where one
/// does; what is forced goes before that.
pub proof fn buffers_are_known_by_their_bytes(path: Seq<char>, buf: Seq<u8>, forced: Encoding)
    requires
        unmarked(buf),
        buf.len() <= SNIFF,
        forall|i: int| 0 <= i < buf.len() ==> #[trigger] buf[i] != 0,
    ensures
        opened(path, buf, None).base == 0,
        opened(path, buf, Some(forced)).base == 0,
        opened(path, buf, Some(forced)).encoding == forced,
        (exists|i: int|
            0 <= i && i + 2 < buf.len() && #[trigger] buf[i] == 0x1B && buf[i + 1] == 0x24 && (
            buf[i + 2] == 0x42 || buf[i + 2] == 0x40)) ==> opened(path, buf, None).encoding
            == Encoding::Iso2022Jp,
        (forall|i: int|
            !(0 <= i && i + 2 < buf.len() && #[trigger] buf[i] == 0x1B && buf[i + 1] == 0x24 && (
            buf[i + 2] == 0x42 || buf[i + 2] == 0x40))) && valid_utf8(buf) ==> opened(
            path,
            buf,
            None,
        ).encoding == Encoding::Utf8,
{
    lemma_no_nuls(buf, 0);
    lemma_no_nuls(buf, 1);
    if buf.len() >= 16 {
        assert((buf.len() / 2) * 3 / 10 >= 2);
    }
    assert(bomless_utf16(buf) is None);
    if exists|i: int|
        0 <= i && i + 2 < buf.len() && #[trigger] buf[i] == 0x1B && buf[i + 1] == 0x24 && (buf[i
            + 2] == 0x42 || buf[i + 2] == 0x40) {
        let i = choose|i: int|
            0 <= i && i + 2 < buf.len() && #[trigger] buf[i] == 0x1B && buf[i + 1] == 0x24 && (buf[i
                + 2] == 0x42 || buf[i + 2] == 0x40);
        assert(jis_opening_at(buf, i));
    } else {
        assert forall|i: int| !jis_opening_at(buf, i) by {
            if jis_opening_at(buf, i) {
                assert(buf[i] == 0x1B);
            }
        }
    }
}

proof fn lemma_wide_nuls(u: Seq<u16>, le: bool, n: int)
    requires
        forall|i: int| 0 <= i < u.len() ==> 0 < #[trigger] u[i] < 0x80,
        0 <= n <= u.len(),
    ensures
        nuls(units_bytes(u, le).take(2 * n), if le { 1 } else { 0 }) == n,
        nuls(units_bytes(u, le).take(2 * n), if le { 0 } else { 1 }) == 0,
    decreases n,
{
    let b = units_bytes(u, le);
    if n > 0 {
        let m = n - 1;
        lemma_wide_nuls(u, le, m);
        let two = b.take(2 * n);
        let one = two.drop_last();
        assert(one.drop_last() =~= b.take(2 * m));
        assert(u[m] > 0 && u[m] < 0x80);
        assert(u[m] % 256 == u[m]);
        assert(u[m] / 256 == 0);
        assert(two.last() == b[2 * m + 1]);
        assert(one.last() == b[2 * m]);
        assert((2 * m + 1) / 2 == m && (2 * m + 1) % 2 == 1);
        assert((2 * m) / 2 == m && (2 * m) % 2 == 0);
        assert(b[2 * m + 1] == if le { 0 } else { u[m] as u8 });
        assert(b[2 * m] == if le { u[m] as u8 } else { 0 });
        reveal_with_fuel(nuls, 3);
    } else {
        assert(b.take(0) =~= Seq::<u8>::empty());
    }
}

/// Plain ASCII in UTF-16 is known without a mark, from eight characters on.
pub proof fn plain_utf16_is_known(path: Seq<char>, u: Seq<u16>, le: bool)
    requires
        8 <= u.len(),
        2 * u.len() <= SNIFF,
        forall|i: int| 0 <= i < u.len() ==> 0 < #[trigger] u[i] < 0x80,
    ensures
        opened(path, units_bytes(u, le), None).encoding == if le {
            Encoding::Utf16Le
        } else {
            Encoding::Utf16Be
        },
        opened(path, units_bytes(u, le), None).base == 0,
{
    let b = units_bytes(u, le);
    lemma_wide_nuls(u, le, u.len() as int);
    assert(b.take(2 * (u.len() as int)) =~= b);
    assert(u[0] < 0x80);
    assert(u[0] % 256 == u[0] && u[0] / 256 == 0);
    assert(0int / 2 == 0 && 1int / 2 == 0);
    assert(b[0] == if le { u[0] as u8 } else { 0 });
    assert(b[1] == if le { 0 } else { u[0] as u8 });
    assert(u.len() * 3 / 10 <= u.len());
    assert(u.len() * 3 / 10 >= 2);
    assert(u.len() / 20 < u.len() * 3 / 10);
}

// ---- UTF-16 ------------------------------------------------------------------

/// A character up to U+FFFF is one unit of UTF-16, with its low byte first in
/// the little-endian form and its high byte first in the other. A character
/// above is two: its bits above the lowest ten follow 0xD800, and the lowest
/// ten follow 0xDC00.
pub proof fn characters_have_their_units(c: char)
    ensures
        ({
            let n = c as int;
            let le = encoded(Encoding::Utf16Le, seq![c]);
            let be = encoded(Encoding::Utf16Be, seq![c]);
            &&& n < 0x10000 ==> le == Some(seq![(n % 256) as u8, (n / 256) as u8])
            &&& n < 0x10000 ==> be == Some(seq![(n / 256) as u8, (n % 256) as u8])
            &&& n >= 0x10000 ==> {
                let hi = 0xD800 + (n - 0x10000) / 0x400;
                let lo = 0xDC00 + (n - 0x10000) % 0x400;
                &&& le == Some(
                    seq![(hi % 256) as u8, (hi / 256) as u8, (lo % 256) as u8, (lo / 256) as u8],
                )
                &&& be == Some(
                    seq![(hi / 256) as u8, (hi % 256) as u8, (lo / 256) as u8, (lo % 256) as u8],
                )
            }
        }),
{
    let t = seq![c];
    reveal_with_fuel(text_units, 2);
    assert(t.drop_first() =~= Seq::<char>::empty());
    let u = text_units(t);
    assert(u =~= char_units(c));
    let n = c as int;
    assert(0int / 2 == 0 && 1int / 2 == 0 && 2int / 2 == 1 && 3int / 2 == 1);
    let (le, be) = (units_bytes(u, true), units_bytes(u, false));
    if n < 0x10000 {
        assert(u.len() == 1 && u[0] == n);
        assert(le =~= seq![(n % 256) as u8, (n / 256) as u8]);
        assert(be =~= seq![(n / 256) as u8, (n % 256) as u8]);
    } else {
        let hi = 0xD800 + (n - 0x10000) / 0x400;
        let lo = 0xDC00 + (n - 0x10000) % 0x400;
        assert(n <= 0x10FFFF);
        assert(u.len() == 2 && u[0] == hi && u[1] == lo);
        assert(le =~= seq![(hi % 256) as u8, (hi / 256) as u8, (lo % 256) as u8, (lo / 256) as u8]);
        assert(be =~= seq![(hi / 256) as u8, (hi % 256) as u8, (lo / 256) as u8, (lo % 256) as u8]);
    }
}

/// The units of a text are those of its parts, one after the other.
pub proof fn texts_are_written_unit_by_unit(a: Seq<char>, b: Seq<char>)
    ensures
        text_units(a + b) == text_units(a) + text_units(b),
    decreases a.len(),
{
    if a.len() == 0 {
        assert(a + b =~= b);
        assert(text_units(a) + text_units(b) =~= text_units(b));
    } else {
        texts_are_written_unit_by_unit(a.drop_first(), b);
        assert((a + b).drop_first() =~= a.drop_first() + b);
        assert(text_units(a + b) =~= text_units(a) + text_units(b));
    }
}

/// Half of a pair that stands alone is read as U+FFFD, and what follows it as
/// if it were not there.
pub proof fn lone_halves_are_replaced(u: u16, rest: Seq<u16>)
    requires
        0xD800 <= u <= 0xDFFF,
        u >= 0xDC00 || rest.len() == 0 || rest[0] < 0xDC00 || rest[0] > 0xDFFF,
    ensures
        utf16_text(seq![u] + rest) == seq!['\u{FFFD}'] + utf16_text(rest),
{
    assert((seq![u] + rest).skip(1) =~= rest);
    if rest.len() > 0 {
        assert((seq![u] + rest)[1] == rest[0]);
    }
}

// ---- line endings ------------------------------------------------------------

/// The style of a buffer of bytes: none without CR and LF, LF without CR, CR
/// without LF, CRLF where the two always stand together, and mixed otherwise.
pub proof fn styles_are_what_occurs(enc: Encoding, s: Seq<u8>)
    requires
        !enc.wide(),
        s.len() <= EOL_SNIFF,
    ensures
        ({
            let eol = units_eol(code_units(enc, sniffed(s)));
            let lf = s.contains(10);
            let cr = s.contains(13);
            let together = forall|i: int|
                0 <= i < s.len() ==> (#[trigger] s[i] == 13 ==> i + 1 < s.len() && s[i + 1] == 10)
                    && (s[i] == 10 ==> i > 0 && s[i - 1] == 13);
            &&& eol == Eol::Absent <==> !lf && !cr
            &&& eol == Eol::Lf <==> lf && !cr
            &&& eol == Eol::Cr <==> cr && !lf
            &&& eol == Eol::Crlf <==> lf && cr && together
            &&& eol == Eol::Mixed <==> lf && cr && !together
        }),
{
    let u = code_units(enc, s);
    assert(u.len() == s.len());
    assert(forall|i: int| 0 <= i < s.len() ==> #[trigger] u[i] == s[i]);
    if s.contains(10) {
        let i = choose|i: int| 0 <= i < s.len() && s[i] == 10;
        assert(u[i] == 10);
        if i > 0 && s[i - 1] == 13 {
            assert(u[i - 1] == 13);
            assert(has_crlf(u));
        } else {
            if i > 0 {
                assert(u[i - 1] == s[i - 1]);
            }
            assert(has_lone_lf(u));
        }
    }
    if s.contains(13) {
        let i = choose|i: int| 0 <= i < s.len() && s[i] == 13;
        assert(u[i] == 13);
        if i + 1 < s.len() && s[i + 1] == 10 {
            assert(u[i + 1] == 10);
            assert(has_crlf(u));
        } else {
            if i + 1 < s.len() {
                assert(u[i + 1] == s[i + 1]);
            }
            assert(has_lone_cr(u));
        }
    }
    if has_crlf(u) {
        let i = choose|i: int| 0 <= i && i + 1 < u.len() && #[trigger] u[i] == 13 && u[i + 1] == 10;
        assert(s[i] == 13);
        assert(s[i + 1] == u[i + 1]);
        assert(s.contains(13));
        assert(s.contains(10));
    }
    if has_lone_lf(u) {
        let i = choose|i: int|
            0 <= i < u.len() && #[trigger] u[i] == 10 && !(i > 0 && u[i - 1] == 13);
        assert(s[i] == 10);
        assert(s.contains(10));
        if i > 0 {
            assert(u[i - 1] == s[i - 1]);
        }
    }
    if has_lone_cr(u) {
        let i = choose|i: int|
            0 <= i < u.len() && #[trigger] u[i] == 13 && !(i + 1 < u.len() && u[i + 1] == 10);
        assert(s[i] == 13);
        assert(s.contains(13));
        if i + 1 < u.len() {
            assert(u[i + 1] == s[i + 1]);
        }
    }
    if !has_lone_lf(u) && !has_lone_cr(u) {
        assert forall|i: int| 0 <= i < s.len() implies (#[trigger] s[i] == 13 ==> i + 1 < s.len()
            && s[i + 1] == 10) && (s[i] == 10 ==> i > 0 && s[i - 1] == 13) by {
            assert(u[i] == s[i]);
            if s[i] == 13 && i + 1 < s.len() {
                assert(u[i + 1] == s[i + 1]);
            }
            if s[i] == 10 && i > 0 {
                assert(u[i - 1] == s[i - 1]);
            }
        }
    }
}

/// New lines end as the document's lines do: with CRLF or CR where that is its
/// style, and with LF otherwise.
pub proof fn new_lines_end_as_the_others(doc: DocView)
    ensures
        !doc.encoding.wide() ==> doc.new_term() == if doc.eol == Eol::Crlf {
            seq![13u8, 10]
        } else if doc.eol == Eol::Cr {
            seq![13u8]
        } else {
            seq![10u8]
        },
        doc.encoding == Encoding::Utf16Le ==> doc.new_term() == if doc.eol == Eol::Crlf {
            seq![13u8, 0, 10, 0]
        } else if doc.eol == Eol::Cr {
            seq![13u8, 0]
        } else {
            seq![10u8, 0]
        },
        doc.encoding == Encoding::Utf16Be ==> doc.new_term() == if doc.eol == Eol::Crlf {
            seq![0u8, 13, 0, 10]
        } else if doc.eol == Eol::Cr {
            seq![0u8, 13]
        } else {
            seq![0u8, 10]
        },
{
    let t = doc.eol.terminator().map_values(|b: u8| b as u16);
    assert(10u16 % 256 == 10 && 13u16 % 256 == 13 && 10u16 / 256 == 0 && 13u16 / 256 == 0);
    if doc.encoding.wide() {
        let le = doc.encoding == Encoding::Utf16Le;
        let b = units_bytes(t, le);
        assert(forall|i: int| 0 <= i < t.len() ==> #[trigger] t[i] == doc.eol.terminator()[i]);
        assert(b.len() == 2 * t.len());
        assert(t[0] == doc.eol.terminator()[0]);
        assert(0int / 2 == 0 && 1int / 2 == 0 && 2int / 2 == 1 && 3int / 2 == 1);
        if t.len() == 2 {
            assert(t[1] == doc.eol.terminator()[1]);
        }
        assert(doc.new_term() == b);
    }
}

/// A line ending is known by the names that users give it.
pub proof fn endings_are_named(key: Seq<char>)
    ensures
        eol_named(key) == Some(Eol::Lf) <==> key == seq!['l', 'f'] || key == seq!['n'] || key
            == seq!['u', 'n', 'i', 'x'],
        eol_named(key) == Some(Eol::Crlf) <==> key == seq!['c', 'r', 'l', 'f'] || key == seq![
            'r',
            'n',
        ] || key == seq!['d', 'o', 's'] || key == seq!['w', 'i', 'n', 'd', 'o', 'w', 's'],
        eol_named(key) == Some(Eol::Cr) <==> key == seq!['c', 'r'] || key == seq!['r'] || key
            == seq!['m', 'a', 'c'],
        eol_named(key) is Some ==> eol_named(key) == Some(Eol::Lf) || eol_named(key) == Some(
            Eol::Crlf,
        ) || eol_named(key) == Some(Eol::Cr),
{
    reveal_strlit("lf");
    reveal_strlit("n");
    reveal_strlit("unix");
    reveal_strlit("crlf");
    reveal_strlit("rn");
    reveal_strlit("dos");
    reveal_strlit("windows");
    reveal_strlit("cr");
    reveal_strlit("r");
    reveal_strlit("mac");
    assert("lf"@ =~= seq!['l', 'f']);
    assert("n"@ =~= seq!['n']);
    assert("unix"@ =~= seq!['u', 'n', 'i', 'x']);
    assert("crlf"@ =~= seq!['c', 'r', 'l', 'f']);
    assert("rn"@ =~= seq!['r', 'n']);
    assert("dos"@ =~= seq!['d', 'o', 's']);
    assert("windows"@ =~= seq!['w', 'i', 'n', 'd', 'o', 'w', 's']);
    assert("cr"@ =~= seq!['c', 'r']);
    assert("r"@ =~= seq!['r']);
    assert("mac"@ =~= seq!['m', 'a', 'c']);
    assert(seq!['r', 'n'][0] == 'r' && seq!['l', 'f'][0] == 'l' && seq!['c', 'r'][0] == 'c');
    assert(seq!['n'][0] == 'n' && seq!['r'][0] == 'r');
    assert(seq!['d', 'o', 's'][0] == 'd' && seq!['m', 'a', 'c'][0] == 'm');
    assert(seq!['u', 'n', 'i', 'x'][0] == 'u' && seq!['c', 'r', 'l', 'f'][0] == 'c');
}

/// A line of bytes is its text and its terminator: LF, CRLF, or at the end of
/// the buffer a CR or nothing. No LF stands in the text, and the text keeps no
/// CR at its end that could belong to the terminator.
pub proof fn lines_are_texts_and_terminators(doc: DocView, i: nat)
    requires
        doc.valid(),
        !doc.encoding.wide(),
        i < doc.count(),
    ensures
        doc.raw(i) + doc.term(i) == doc.buf.subrange(doc.start(i), doc.start(i + 1)),
        !doc.raw(i).contains(10),
        ({
            let t = doc.term(i);
            ||| t == seq![10u8]
            ||| t == seq![13u8, 10]
            ||| t == seq![13u8] && doc.start(i + 1) == doc.buf.len()
            ||| t.len() == 0 && doc.start(i + 1) == doc.buf.len()
        }),
        doc.term(i) == seq![10u8] || doc.term(i).len() == 0 ==> doc.raw(i).len() == 0
            || doc.raw(i).last() != 13,
{
    let k = doc.newline();
    let a = doc.start(i);
    lemma_start(doc.buf, k, doc.base, i);
    lemma_lf(doc.buf, k, a);
    let (x, b, c) = line_span(doc.buf, k, doc.base, i);
    doc.lemma_bounds(i);
    assert(doc.raw(i) + doc.term(i) =~= doc.buf.subrange(a, c));
    let e = lf_from(doc.buf, k, a);
    let t = doc.term(i);
    assert(k == Newline::Byte);
    assert forall|j: int| 0 <= j < doc.raw(i).len() implies doc.raw(i)[j] != 10 by {
        assert(doc.raw(i)[j] == doc.buf[a + j]);
        lemma_feeds(doc.buf, k, a);
        assert((a + j - a) % k.width() == 0);
        if doc.buf[a + j] == 10 {
            assert(unit_is(doc.buf, k, a + j, 10));
        }
    }
    assert((e - a) % 1 == 0);
    if e < doc.buf.len() {
        assert(unit_is(doc.buf, k, e, 10));
        if b == e {
            assert(t =~= seq![10u8]);
        } else {
            assert(t =~= seq![13u8, 10]);
        }
    } else {
        if b == e {
            assert(t.len() == 0);
        } else {
            assert(t =~= seq![13u8]);
        }
    }
    if b == e && b > a {
        assert(doc.raw(i).last() == doc.buf[b - 1]);
        assert(!unit_is(doc.buf, k, e - 1, 13));
    }
    if b != e {
        assert(t[0] == 13);
        assert(seq![10u8][0] == 10);
    }
}

/// A line of UTF-16 is its text and its terminator in the same way; a byte that
/// is left over at the end of the buffer belongs to the text.
pub proof fn wide_lines_are_texts_and_terminators(doc: DocView, i: nat, j: int)
    requires
        doc.valid(),
        doc.encoding.wide(),
        i < doc.count(),
    ensures
        doc.raw(i) + doc.term(i) == doc.buf.subrange(doc.start(i), doc.start(i + 1)),
        0 <= j && 2 * j + 1 < doc.raw(i).len() ==> if doc.encoding == Encoding::Utf16Le {
            !(doc.raw(i)[2 * j] == 10 && doc.raw(i)[2 * j + 1] == 0)
        } else {
            !(doc.raw(i)[2 * j] == 0 && doc.raw(i)[2 * j + 1] == 10)
        },
        doc.encoding == Encoding::Utf16Le ==> {
            let t = doc.term(i);
            ||| t == seq![10u8, 0]
            ||| t == seq![13u8, 0, 10, 0]
            ||| t == seq![13u8, 0] && doc.start(i + 1) == doc.buf.len()
            ||| t.len() == 0 && doc.start(i + 1) == doc.buf.len()
        },
        doc.encoding == Encoding::Utf16Be ==> {
            let t = doc.term(i);
            ||| t == seq![0u8, 10]
            ||| t == seq![0u8, 13, 0, 10]
            ||| t == seq![0u8, 13] && doc.start(i + 1) == doc.buf.len()
            ||| t.len() == 0 && doc.start(i + 1) == doc.buf.len()
        },
{
    let k = doc.newline();
    let a = doc.start(i);
    lemma_start(doc.buf, k, doc.base, i);
    lemma_lf(doc.buf, k, a);
    lemma_feeds(doc.buf, k, a);
    let (x, b, c) = line_span(doc.buf, k, doc.base, i);
    doc.lemma_bounds(i);
    assert(doc.raw(i) + doc.term(i) =~= doc.buf.subrange(a, c));
    let e = lf_from(doc.buf, k, a);
    let t = doc.term(i);
    assert(k.width() == 2);
    if 0 <= j && 2 * j + 1 < doc.raw(i).len() {
        assert((a + 2 * j - a) % 2 == 0);
        assert(!unit_is(doc.buf, k, a + 2 * j, 10));
        assert(doc.raw(i)[2 * j] == doc.buf[a + 2 * j]);
        assert(doc.raw(i)[2 * j + 1] == doc.buf[a + 2 * j + 1]);
    }
    let le = doc.encoding == Encoding::Utf16Le;
    if e < doc.buf.len() {
        assert(unit_is(doc.buf, k, e, 10));
        if b == e {
            if le {
                assert(t =~= seq![10u8, 0]);
            } else {
                assert(t =~= seq![0u8, 10]);
            }
        } else {
            if le {
                assert(t =~= seq![13u8, 0, 10, 0]);
            } else {
                assert(t =~= seq![0u8, 13, 0, 10]);
            }
        }
    } else {
        if b != e {
            if le {
                assert(t =~= seq![13u8, 0]);
            } else {
                assert(t =~= seq![0u8, 13]);
            }
        }
    }
}

// ---- fields ------------------------------------------------------------------

/// Texts with a byte between them.
pub open spec fn joined_by(parts: Seq<Seq<u8>>, d: u8) -> Seq<u8>
    decreases parts.len(),
{
    if parts.len() == 0 {
        Seq::empty()
    } else if parts.len() == 1 {
        parts[0]
    } else {
        joined_by(parts.drop_last(), d).push(d) + parts.last()
    }
}

/// The fields of a record are what stands between its delimiters: together,
/// with the delimiter between them, they are the record, and none holds it.
pub proof fn fields_stand_between_delimiters(raw: Seq<u8>, d: u8)
    ensures
        ({
            let f = split_fields(raw, d);
            &&& f.len() >= 1
            &&& joined_by(f, d) == raw
            &&& forall|i: int| 0 <= i < f.len() ==> !(#[trigger] f[i]).contains(d)
        }),
    decreases raw.len(),
{
    let f = split_fields(raw, d);
    if raw.len() > 0 {
        let r = raw.drop_last();
        fields_stand_between_delimiters(r, d);
        let p = split_fields(r, d);
        if raw.last() == d {
            assert(f.drop_last() =~= p);
            assert(joined_by(f, d) =~= raw);
            assert forall|i: int| 0 <= i < f.len() implies !(#[trigger] f[i]).contains(d) by {
                if i < p.len() {
                    assert(f[i] == p[i]);
                }
            }
        } else {
            let n = p.len() - 1;
            assert(f.drop_last() =~= p.drop_last());
            assert(f.last() == p.last().push(raw.last()));
            assert(f.len() == p.len());
            if n == 0 {
                assert(joined_by(p, d) == p[0]);
            } else {
                assert(joined_by(f, d) =~= joined_by(p, d).push(raw.last()));
            }
            assert(joined_by(f, d) =~= raw);
            assert forall|i: int| 0 <= i < f.len() implies !(#[trigger] f[i]).contains(d) by {
                if i < n {
                    assert(f[i] == p[i]);
                } else {
                    assert(!p[n].contains(d));
                    assert forall|j: int| 0 <= j < f[i].len() implies f[i][j] != d by {
                        if j < p[n].len() {
                            assert(f[i][j] == p[n][j]);
                            if p[n][j] == d {
                                assert(p[n].contains(d));
                            }
                        }
                    }
                }
            }
        }
    } else {
        assert(joined_by(f, d) =~= raw);
    }
}

/// Without quoting, column 1 is the first field of a record, and so on: there
/// are as many fields before it as delimiters. No column and column 0 stand for
/// the whole record, and a column that the record does not have is empty.
pub proof fn columns_are_counted_from_one(raw: Seq<u8>, c: usize, spec: FieldSpec)
    requires
        !spec.csv,
    ensures
        field_at(raw, None, spec) == raw,
        c == 0 ==> field_at(raw, Some(c), spec) == raw,
        c > 0 && c - 1 > occurrences(raw, spec.delimiter) ==> field_at(raw, Some(c), spec).len()
            == 0,
        c > 0 && c - 1 <= occurrences(raw, spec.delimiter) ==> exists|a: int, b: int|
            0 <= a <= b <= raw.len() && field_at(raw, Some(c), spec) == #[trigger] raw.subrange(a, b)
                && (a == 0 || raw[a - 1] == spec.delimiter) && (b == raw.len() || raw[b]
                == spec.delimiter) && !raw.subrange(a, b).contains(spec.delimiter) && occurrences(
                raw.take(a),
                spec.delimiter,
            ) == c - 1,
{
    if c > 0 {
        lemma_field_at(raw, spec.delimiter, c as nat);
    }
}

/// Where a field stands.
spec fn field_stands(raw: Seq<u8>, d: u8, c: nat, a: int, b: int) -> bool {
    &&& 0 <= a <= b <= raw.len()
    &&& a == 0 || raw[a - 1] == d
    &&& b == raw.len() || raw[b] == d
    &&& !raw.subrange(a, b).contains(d)
    &&& occurrences(raw.take(a), d) == c - 1
}

proof fn lemma_field_at(raw: Seq<u8>, d: u8, c: nat)
    requires
        c > 0,
    ensures
        split_fields(raw, d).len() == occurrences(raw, d) + 1,
        c <= split_fields(raw, d).len() ==> exists|a: int, b: int|
            split_fields(raw, d)[c - 1] == #[trigger] raw.subrange(a, b) && field_stands(
                raw,
                d,
                c,
                a,
                b,
            ),
    decreases raw.len(),
{
    let f = split_fields(raw, d);
    let n = raw.len() as int;
    if raw.len() == 0 {
        if c <= f.len() {
            assert(f[0] =~= raw.subrange(0, 0));
            assert(raw.take(0) =~= Seq::<u8>::empty());
            assert(field_stands(raw, d, c, 0, 0));
        }
    } else {
        let r = raw.drop_last();
        lemma_field_at(r, d, c);
        let p = split_fields(r, d);
        if c <= f.len() {
            if c <= p.len() {
                let (a, b) = choose|a: int, b: int|
                    p[c - 1] == #[trigger] r.subrange(a, b) && field_stands(r, d, c, a, b);
                assert(r.take(a) =~= raw.take(a));
                assert(r.subrange(a, b) =~= raw.subrange(a, b));
                if b < r.len() || raw.last() == d {
                    lemma_field_order(r, d, c, a, b);
                    assert(f[c - 1] == p[c - 1]) by {
                        if raw.last() != d && c == p.len() {
                            assert(b == r.len());
                        }
                    }
                    assert(field_stands(raw, d, c, a, b));
                    assert(f[c - 1] == raw.subrange(a, b));
                } else {
                    lemma_field_order(r, d, c, a, b);
                    assert(c == p.len());
                    assert(f[c - 1] =~= raw.subrange(a, n));
                    let sub = raw.subrange(a, n);
                    assert forall|j: int| 0 <= j < sub.len() implies sub[j] != d by {
                        if j < n - 1 - a {
                            assert(sub[j] == r.subrange(a, b)[j]);
                            if sub[j] == d {
                                assert(r.subrange(a, b).contains(d));
                            }
                        }
                    }
                    assert(field_stands(raw, d, c, a, n));
                }
            } else {
                assert(raw.last() == d);
                assert(f[c - 1] =~= raw.subrange(n, n));
                assert(raw.take(n) =~= raw);
                assert(field_stands(raw, d, c, n, n));
            }
        }
    }
}

/// The last field reaches to the end, and no other does.
proof fn lemma_field_order(raw: Seq<u8>, d: u8, c: nat, a: int, b: int)
    requires
        field_stands(raw, d, c, a, b),
    ensures
        b == raw.len() <==> c == occurrences(raw, d) + 1,
{
    lemma_free(raw, d, a, b);
    assert(raw.take(raw.len() as int) =~= raw);
    if b < raw.len() {
        lemma_more(raw, d, b + 1, raw.len() as int);
        assert(raw.take(b + 1).drop_last() =~= raw.take(b));
    }
}

proof fn lemma_free(raw: Seq<u8>, d: u8, a: int, b: int)
    requires
        0 <= a <= b <= raw.len(),
        !raw.subrange(a, b).contains(d),
    ensures
        occurrences(raw.take(b), d) == occurrences(raw.take(a), d),
    decreases b - a,
{
    if a < b {
        let less = raw.subrange(a, b - 1);
        assert forall|j: int| 0 <= j < less.len() implies less[j] != d by {
            assert(raw.subrange(a, b)[j] == less[j]);
            if less[j] == d {
                assert(raw.subrange(a, b).contains(d));
            }
        }
        lemma_free(raw, d, a, b - 1);
        assert(raw.take(b).drop_last() =~= raw.take(b - 1));
        assert(raw.subrange(a, b)[b - 1 - a] == raw[b - 1]);
        if raw[b - 1] == d {
            assert(raw.subrange(a, b).contains(d));
        }
    }
}

proof fn lemma_more(raw: Seq<u8>, d: u8, a: int, b: int)
    requires
        0 <= a <= b <= raw.len(),
    ensures
        occurrences(raw.take(a), d) <= occurrences(raw.take(b), d),
    decreases b - a,
{
    if a < b {
        lemma_more(raw, d, a, b - 1);
        assert(raw.take(b).drop_last() =~= raw.take(b - 1));
    }
}

// ---- records -----------------------------------------------------------------

/// How many quotes stand in lines `first` up to `past`.
pub open spec fn quotes_in(doc: DocView, quote: u8, first: nat, past: nat) -> nat
    decreases past,
{
    if past <= first {
        0
    } else {
        quotes_in(doc, quote, first, (past - 1) as nat) + occurrences(
            field_source(doc.encoding, doc.raw((past - 1) as nat)),
            quote,
        )
    }
}

proof fn lemma_record_quotes(doc: DocView, quote: u8, first: nat, k: nat)
    requires
        first < k < doc.count(),
        quotes_in(doc, quote, first, k) % 2 == 1,
        forall|j: nat| first < j <= k ==> #[trigger] quotes_in(doc, quote, first, j) % 2 == 1,
    ensures
        ({
            let last = doc.record_last(quote, first, k);
            &&& forall|j: nat|
                first < j <= last ==> #[trigger] quotes_in(doc, quote, first, j) % 2 == 1
            &&& quotes_in(doc, quote, first, last + 1) % 2 == 0 || last + 1 == doc.count() || last
                - first + 1 >= MAX_RECORD_LINES || doc.bounds(last).2 - doc.bounds(first).0
                >= MAX_RECORD_BYTES
        }),
    decreases doc.count() - k,
{
    let here = occurrences(field_source(doc.encoding, doc.raw(k)), quote);
    assert(quotes_in(doc, quote, first, k + 1) == quotes_in(doc, quote, first, k) + here);
    if !(k + 1 >= doc.count() || doc.quotes_odd(quote, k) || k - first + 1 >= MAX_RECORD_LINES
        || doc.bounds(k).2 - doc.bounds(first).0 >= MAX_RECORD_BYTES) {
        assert forall|j: nat| first < j <= k + 1 implies #[trigger] quotes_in(doc, quote, first, j)
            % 2 == 1 by {}
        lemma_record_quotes(doc, quote, first, k + 1);
    }
}

/// A record goes on as long as a quote is open: after each of its lines but the
/// last the number of quotes so far is odd, and after its last line it is even,
/// unless the document ends there or the record has grown too large. Without
/// quoting every line is a record.
pub proof fn records_end_with_their_quotes(doc: DocView, spec: FieldSpec, first: nat)
    requires
        first < doc.count(),
    ensures
        ({
            let last = doc.last_line(spec, first);
            &&& first <= last < doc.count()
            &&& !spec.csv ==> last == first
            &&& spec.csv ==> forall|j: nat|
                first < j <= last ==> #[trigger] quotes_in(doc, spec.quote, first, j) % 2 == 1
            &&& spec.csv ==> quotes_in(doc, spec.quote, first, last + 1) % 2 == 0 || last + 1
                == doc.count() || last - first + 1 >= MAX_RECORD_LINES || doc.bounds(last).2
                - doc.bounds(first).0 >= MAX_RECORD_BYTES
            &&& doc.record(spec, first).0 == doc.start(first)
            &&& doc.record(spec, first).2 == doc.start(last + 1)
        }),
{
    let q = spec.quote;
    let last = doc.last_line(spec, first);
    doc.lemma_last_line(spec, first);
    reveal_with_fuel(quotes_in, 2);
    assert(quotes_in(doc, q, first, first) == 0);
    assert(quotes_in(doc, q, first, first + 1) == occurrences(
        field_source(doc.encoding, doc.raw(first)),
        q,
    ));
    if spec.csv && doc.quotes_odd(q, first) && first + 1 < doc.count() {
        assert forall|j: nat| first < j <= first + 1 implies #[trigger] quotes_in(doc, q, first, j)
            % 2 == 1 by {
            assert(j == first + 1);
        }
        lemma_record_quotes(doc, q, first, first + 1);
    }
}

// ---- numbers -----------------------------------------------------------------

proof fn lemma_trim_start(s: Seq<char>) -> (a: int)
    ensures
        0 <= a <= s.len(),
        trim_start(s) == s.skip(a),
        forall|i: int| 0 <= i < a ==> is_white(#[trigger] s[i]),
        a < s.len() ==> !is_white(s[a]),
    decreases s.len(),
{
    if s.len() > 0 && is_white(s[0]) {
        let r = s.drop_first();
        let a = lemma_trim_start(r);
        assert(r.skip(a) =~= s.skip(a + 1));
        assert forall|i: int| 0 <= i < a + 1 implies is_white(#[trigger] s[i]) by {
            if i > 0 {
                assert(s[i] == r[i - 1]);
            }
        }
        if a < r.len() {
            assert(s[a + 1] == r[a]);
        }
        a + 1
    } else {
        assert(s.skip(0) =~= s);
        0
    }
}

proof fn lemma_trim_end(s: Seq<char>) -> (b: int)
    ensures
        0 <= b <= s.len(),
        trim_end(s) == s.take(b),
        forall|i: int| b <= i < s.len() ==> is_white(#[trigger] s[i]),
        b > 0 ==> !is_white(s[b - 1]),
    decreases s.len(),
{
    if s.len() > 0 && is_white(s.last()) {
        let r = s.drop_last();
        let b = lemma_trim_end(r);
        assert(r.take(b) =~= s.take(b));
        assert forall|i: int| b <= i < s.len() implies is_white(#[trigger] s[i]) by {
            if i < r.len() {
                assert(s[i] == r[i]);
            }
        }
        if b > 0 {
            assert(s[b - 1] == r[b - 1]);
        }
        b
    } else {
        assert(s.take(s.len() as int) =~= s);
        s.len() as int
    }
}

/// Trimming takes white space away at the two ends, all of it, and nothing
/// else.
pub proof fn trimming_takes_white_space_away(s: Seq<char>)
    ensures
        exists|a: int, b: int|
            0 <= a <= b <= s.len() && trimmed(s) == #[trigger] s.subrange(a, b) && (forall|i: int|
                (0 <= i < a || b <= i < s.len()) ==> is_white(#[trigger] s[i])) && (a < b
                ==> !is_white(s[a]) && !is_white(s[b - 1])),
{
    let a = lemma_trim_start(s);
    let r = s.skip(a);
    let b = lemma_trim_end(r);
    assert(r.take(b) =~= s.subrange(a, a + b));
    assert forall|i: int| (0 <= i < a || a + b <= i < s.len()) implies is_white(#[trigger] s[i]) by {
        if i >= a + b {
            assert(s[i] == r[i - a]);
        }
    }
    if b > 0 {
        assert(s[a + b - 1] == r[b - 1]);
        assert(a < s.len());
    }
    assert(trimmed(s) == s.subrange(a, a + b));
}

/// ASCII white space is the space and the controls from tab to carriage return.
pub proof fn ascii_white_space(c: char)
    requires
        c as u32 <= 0x7F,
    ensures
        is_white(c) <==> c == ' ' || c == '\t' || c == '\n' || c == '\u{b}' || c == '\u{c}' || c
            == '\r',
{
}

} // verus!
