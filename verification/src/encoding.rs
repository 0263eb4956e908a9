//! Encodings and line endings: how bytes become text and back, and how both
//! are recognised in a buffer.

use vstd::prelude::*;
use vstd::string::*;
use vstd::utf8::*;

use crate::text::{
    chars_of, is_white, lower, lower_char, push_char, same_text, trim_bounds, trim_end, trim_start,
    trimmed,
};

verus! {

/// The encodings that documents can have.
///
/// UTF-8, Shift_JIS, EUC-JP, ISO-2022-JP and ASCII end their lines with a
/// single LF byte; UTF-16 ends them with an aligned 16-bit LF unit.
#[derive(Clone, Copy, Debug, PartialEq, Eq, Structural)]
pub enum Encoding {
    Utf8,
    ShiftJis,
    EucJp,
    /// 7-bit ASCII, decoded as the subset of UTF-8 that it is.
    Ascii,
    /// Stateful 7-bit JIS; every line starts in ASCII designation.
    Iso2022Jp,
    Utf16Le,
    Utf16Be,
}

/// The text of bytes that are not well-formed UTF-8, with replacement
/// characters for what is malformed.
pub uninterp spec fn lossy_text(bytes: Seq<u8>) -> Seq<char>;

/// The text of bytes in UTF-8.
pub open spec fn utf8_text(bytes: Seq<u8>) -> Seq<char> {
    if valid_utf8(bytes) {
        decode_utf8(bytes)
    } else {
        lossy_text(bytes)
    }
}

/// The text of bytes in Shift_JIS.
pub uninterp spec fn shift_jis_text(bytes: Seq<u8>) -> Seq<char>;

/// The text of bytes in EUC-JP.
pub uninterp spec fn euc_jp_text(bytes: Seq<u8>) -> Seq<char>;

/// The text of bytes in ISO-2022-JP.
pub uninterp spec fn iso_2022_jp_text(bytes: Seq<u8>) -> Seq<char>;

/// The Shift_JIS bytes of a text, and whether some character has none.
pub uninterp spec fn shift_jis_bytes(text: Seq<char>) -> (Seq<u8>, bool);

/// The EUC-JP bytes of a text, and whether some character has none.
pub uninterp spec fn euc_jp_bytes(text: Seq<char>) -> (Seq<u8>, bool);

/// The ISO-2022-JP bytes of a text, and whether some character has none.
pub uninterp spec fn iso_2022_jp_bytes(text: Seq<char>) -> (Seq<u8>, bool);

/// The name of the encoding that a detector guesses for a stream that starts
/// with the given bytes, and is over after them if `last` holds.
pub uninterp spec fn guessed_name(bytes: Seq<u8>, last: bool) -> Seq<char>;

/// Sizes for which a codec can work out the size of its output buffer.
pub open spec fn codec_size(n: nat) -> bool {
    n <= usize::MAX / 16
}

/// Sizes for which the UTF-8 decoder can work out the size of its output buffer.
pub open spec fn utf8_size(n: nat) -> bool {
    n <= usize::MAX / 8
}

/// `encoding_rs::Encoding::decode_without_bom_handling` on `UTF_8`: well-formed
/// UTF-8 becomes the text it encodes; the text of other bytes is a function of
/// them.
#[verifier::external_body]
fn rs_decode_utf8(bytes: &[u8]) -> (text: String)
    requires
        utf8_size(bytes@.len()),
    ensures
        valid_utf8(bytes@) ==> text@ == decode_utf8(bytes@),
        !valid_utf8(bytes@) ==> text@ == lossy_text(bytes@),
{
    encoding_rs::UTF_8.decode_without_bom_handling(bytes).0.into_owned()
}

/// `encoding_rs::Encoding::decode_without_bom_handling` on `SHIFT_JIS`. Its
/// result is a function of the bytes.
#[verifier::external_body]
fn rs_decode_shift_jis(bytes: &[u8]) -> (text: String)
    requires
        codec_size(bytes@.len()),
    ensures
        text@ == shift_jis_text(bytes@),
{
    encoding_rs::SHIFT_JIS.decode_without_bom_handling(bytes).0.into_owned()
}

/// `encoding_rs::Encoding::decode_without_bom_handling` on `EUC_JP`. Its
/// result is a function of the bytes.
#[verifier::external_body]
fn rs_decode_euc_jp(bytes: &[u8]) -> (text: String)
    requires
        codec_size(bytes@.len()),
    ensures
        text@ == euc_jp_text(bytes@),
{
    encoding_rs::EUC_JP.decode_without_bom_handling(bytes).0.into_owned()
}

/// `encoding_rs::Encoding::decode_without_bom_handling` on `ISO_2022_JP`. Its
/// result is a function of the bytes.
#[verifier::external_body]
fn rs_decode_iso_2022_jp(bytes: &[u8]) -> (text: String)
    requires
        codec_size(bytes@.len()),
    ensures
        text@ == iso_2022_jp_text(bytes@),
{
    encoding_rs::ISO_2022_JP.decode_without_bom_handling(bytes).0.into_owned()
}

/// ASCII, the first three ideographic marks, hiragana, katakana and half-width
/// katakana.
pub open spec fn kana_or_ascii(c: char) -> bool {
    let u = c as u32;
    u < 0x80 || 0x3000 <= u <= 0x3002 || 0x3041 <= u <= 0x3093 || 0x30A1 <= u <= 0x30F6 || 0xFF61
        <= u <= 0xFF9F
}

pub open spec fn ideograph(c: char) -> bool {
    0x4E00 <= c as u32 <= 0x9FA0
}

/// A text for which Shift_JIS and EUC-JP have bytes.
pub open spec fn kana_text(t: Seq<char>) -> bool {
    forall|i: int| 0 <= i < t.len() ==> kana_or_ascii(#[trigger] t[i])
}

/// A text whose Shift_JIS or EUC-JP, where it has one, is read back as the same
/// text. Some other characters share their bytes with a character that looks
/// like them.
pub open spec fn japanese_text(t: Seq<char>) -> bool {
    forall|i: int| 0 <= i < t.len() ==> kana_or_ascii(#[trigger] t[i]) || ideograph(t[i])
}

/// `encoding_rs::Encoding::encode` on `SHIFT_JIS`: the bytes, and whether a
/// character had none. Both are functions of the text, and a text that is not
/// empty has bytes. Kana and ASCII have bytes, and
/// `decode_without_bom_handling` gives a text of them and of ideographs back.
/// It is left unsaid which ideographs have bytes: a table says so.
#[verifier::external_body]
fn rs_encode_shift_jis(text: &str) -> (r: (Vec<u8>, bool))
    requires
        codec_size(text.spec_bytes().len()),
    ensures
        (r.0@, r.1) == shift_jis_bytes(text@),
        text@.len() > 0 ==> r.0@.len() > 0,
        kana_text(text@) ==> !r.1,
        japanese_text(text@) && !r.1 ==> shift_jis_text(r.0@) == text@,
{
    let (bytes, _used, unmappable) = encoding_rs::SHIFT_JIS.encode(text);
    (bytes.into_owned(), unmappable)
}

/// `encoding_rs::Encoding::encode` on `EUC_JP`: the bytes, and whether a
/// character had none. Both are functions of the text, and a text that is not
/// empty has bytes. Kana and ASCII have bytes, and
/// `decode_without_bom_handling` gives a text of them and of ideographs back.
/// It is left unsaid which ideographs have bytes: a table says so.
#[verifier::external_body]
fn rs_encode_euc_jp(text: &str) -> (r: (Vec<u8>, bool))
    requires
        codec_size(text.spec_bytes().len()),
    ensures
        (r.0@, r.1) == euc_jp_bytes(text@),
        text@.len() > 0 ==> r.0@.len() > 0,
        kana_text(text@) ==> !r.1,
        japanese_text(text@) && !r.1 ==> euc_jp_text(r.0@) == text@,
{
    let (bytes, _used, unmappable) = encoding_rs::EUC_JP.encode(text);
    (bytes.into_owned(), unmappable)
}

/// `encoding_rs::Encoding::encode` on `ISO_2022_JP`: the bytes, and whether a
/// character had none. Both are functions of the text, and a text that is not
/// empty has bytes.
#[verifier::external_body]
fn rs_encode_iso_2022_jp(text: &str) -> (r: (Vec<u8>, bool))
    requires
        codec_size(text.spec_bytes().len()),
    ensures
        (r.0@, r.1) == iso_2022_jp_bytes(text@),
        text@.len() > 0 ==> r.0@.len() > 0,
{
    let (bytes, _used, unmappable) = encoding_rs::ISO_2022_JP.encode(text);
    (bytes.into_owned(), unmappable)
}

/// `chardetng::EncodingDetector`, fed once and asked for its guess with UTF-8
/// allowed and no domain given: the name of the encoding it settles on.
#[verifier::external_body]
pub(crate) fn chardetng_guess(bytes: &[u8], last: bool) -> (name: &'static str)
    ensures
        name@ == guessed_name(bytes@, last),
{
    let mut detector = chardetng::EncodingDetector::new();
    detector.feed(bytes, last);
    detector.guess(None, true).name()
}

/// `std::str::from_utf8`, asked only whether it succeeds.
#[verifier::external_body]
pub(crate) fn is_utf8(bytes: &[u8]) -> (b: bool)
    ensures
        b == valid_utf8(bytes@),
{
    std::str::from_utf8(bytes).is_ok()
}

/// `char::from_u32` on a Unicode scalar value.
#[verifier::external_body]
fn scalar_char(u: u32) -> (c: char)
    requires
        is_scalar(u),
    ensures
        c == u as char,
{
    char::from_u32(u).unwrap()
}

// ---- UTF-16 ------------------------------------------------------------------

/// The 16-bit unit that two bytes form.
pub open spec fn unit_of(a: u8, b: u8, le: bool) -> u16 {
    if le {
        (a + 256 * b) as u16
    } else {
        (256 * a + b) as u16
    }
}

/// The 16-bit units of a byte sequence; an odd last byte is not part of one.
pub open spec fn units_of(bytes: Seq<u8>, le: bool) -> Seq<u16> {
    Seq::new(bytes.len() / 2, |i: int| unit_of(bytes[2 * i], bytes[2 * i + 1], le))
}

pub open spec fn high_surrogate(u: u16) -> bool {
    0xD800 <= u <= 0xDBFF
}

pub open spec fn low_surrogate(u: u16) -> bool {
    0xDC00 <= u <= 0xDFFF
}

/// The character that a surrogate pair stands for.
pub open spec fn paired(hi: u16, lo: u16) -> char {
    (0x10000 + (hi - 0xD800) * 0x400 + (lo - 0xDC00)) as char
}

/// The text of UTF-16 units; a surrogate without its partner becomes U+FFFD.
pub open spec fn utf16_text(u: Seq<u16>) -> Seq<char>
    decreases u.len(),
{
    if u.len() == 0 {
        Seq::empty()
    } else if high_surrogate(u[0]) && u.len() >= 2 && low_surrogate(u[1]) {
        seq![paired(u[0], u[1])] + utf16_text(u.skip(2))
    } else if high_surrogate(u[0]) || low_surrogate(u[0]) {
        seq!['\u{FFFD}'] + utf16_text(u.skip(1))
    } else {
        seq![u[0] as char] + utf16_text(u.skip(1))
    }
}

/// A text from UTF-16 takes three bytes of UTF-8 for each unit at most.
pub proof fn lemma_utf16_text_size(u: Seq<u16>)
    ensures
        encode_utf8(utf16_text(u)).len() <= 3 * u.len(),
    decreases u.len(),
{
    let t = utf16_text(u);
    if u.len() > 0 {
        let step: int = if high_surrogate(u[0]) && u.len() >= 2 && low_surrogate(u[1]) {
            2
        } else {
            1
        };
        lemma_utf16_text_size(u.skip(step));
        assert(t.drop_first() =~= utf16_text(u.skip(step)));
    }
}

/// The UTF-16 units of a character.
pub open spec fn char_units(c: char) -> Seq<u16> {
    if (c as u32) < 0x10000 {
        seq![c as u32 as u16]
    } else {
        seq![
            (0xD800 + (c as u32 - 0x10000) / 0x400) as u16,
            (0xDC00 + (c as u32 - 0x10000) % 0x400) as u16,
        ]
    }
}

/// The UTF-16 units of a text.
pub open spec fn text_units(s: Seq<char>) -> Seq<u16>
    decreases s.len(),
{
    if s.len() == 0 {
        Seq::empty()
    } else {
        char_units(s[0]) + text_units(s.drop_first())
    }
}

/// The two bytes of a 16-bit unit.
pub open spec fn unit_bytes(u: u16, le: bool) -> Seq<u8> {
    if le {
        seq![(u % 256) as u8, (u / 256) as u8]
    } else {
        seq![(u / 256) as u8, (u % 256) as u8]
    }
}

/// The bytes of 16-bit units.
pub open spec fn units_bytes(u: Seq<u16>, le: bool) -> Seq<u8> {
    Seq::new(2 * u.len(), |i: int| unit_bytes(u[i / 2], le)[i % 2])
}

pub(crate) fn read_unit(a: u8, b: u8, le: bool) -> (u: u16)
    ensures
        u == unit_of(a, b, le),
{
    if le {
        a as u16 + 256 * (b as u16)
    } else {
        256 * (a as u16) + b as u16
    }
}

fn decode_utf16_line(bytes: &[u8], le: bool) -> (text: String)
    ensures
        text@ == utf16_text(units_of(bytes@, le)),
{
    let mut text = String::new();
    let n: usize = bytes.len() / 2;
    let mut i: usize = 0;
    let ghost u = units_of(bytes@, le);
    assert(u.skip(0) =~= u);
    assert(text@ + utf16_text(u) =~= utf16_text(u));
    while i < n
        invariant
            i <= n,
            n == bytes@.len() / 2,
            2 * n <= bytes.len(),
            u == units_of(bytes@, le),
            text@ + utf16_text(u.skip(i as int)) == utf16_text(u),
        decreases n - i,
    {
        let ghost rest = u.skip(i as int);
        let ghost before = text@;
        let a = read_unit(bytes[2 * i], bytes[2 * i + 1], le);
        assert(rest.len() == n - i);
        assert(rest[0] == a);
        assert(rest.skip(1) =~= u.skip(i + 1));
        if 0xD800 <= a && a <= 0xDFFF {
            if a <= 0xDBFF && i + 1 < n {
                let b = read_unit(bytes[2 * i + 2], bytes[2 * i + 3], le);
                assert(rest[1] == b);
                assert(rest.skip(2) =~= u.skip(i + 2));
                if 0xDC00 <= b && b <= 0xDFFF {
                    let v: u32 = 0x10000 + (a as u32 - 0xD800) * 0x400 + (b as u32 - 0xDC00);
                    push_char(&mut text, scalar_char(v));
                    assert(text@ + utf16_text(u.skip(i + 2)) =~= before + utf16_text(rest));
                    i += 2;
                    continue;
                }
            }
            push_char(&mut text, '\u{FFFD}');
            assert(text@ + utf16_text(u.skip(i + 1)) =~= before + utf16_text(rest));
            i += 1;
        } else {
            push_char(&mut text, scalar_char(a as u32));
            assert(a as u32 as char == a as char);
            assert(text@ + utf16_text(u.skip(i + 1)) =~= before + utf16_text(rest));
            i += 1;
        }
    }
    assert(u.skip(n as int) =~= Seq::empty());
    assert(text@ + utf16_text(u.skip(n as int)) =~= text@);
    text
}

fn push_unit(out: &mut Vec<u8>, u: u16, le: bool, Ghost(units): Ghost<Seq<u16>>)
    requires
        old(out)@ == units_bytes(units, le),
    ensures
        final(out)@ == units_bytes(units.push(u), le),
{
    let lo = (u % 256) as u8;
    let hi = (u / 256) as u8;
    if le {
        out.push(lo);
        out.push(hi);
    } else {
        out.push(hi);
        out.push(lo);
    }
    proof {
        let all = units.push(u);
        let n = units.len() as int;
        assert forall|i: int| 0 <= i < 2 * n + 2 implies out@[i] == #[trigger] units_bytes(all, le)[i] by {
            if i < 2 * n {
                assert(i / 2 < n);
                assert(all[i / 2] == units[i / 2]);
                assert(out@[i] == units_bytes(units, le)[i]);
            } else {
                assert(i / 2 == n);
            }
        }
        assert(out@ =~= units_bytes(all, le));
    }
}

fn encode_utf16_text(text: &str, le: bool) -> (out: Vec<u8>)
    ensures
        out@ == units_bytes(text_units(text@), le),
{
    let chars = chars_of(text);
    let mut out: Vec<u8> = Vec::new();
    let mut i: usize = 0;
    let ghost mut done: Seq<u16> = Seq::empty();
    assert(out@ =~= units_bytes(done, le));
    assert(chars@.skip(0) =~= chars@);
    assert(done + text_units(chars@) =~= text_units(chars@));
    while i < chars.len()
        invariant
            i <= chars@.len(),
            out@ == units_bytes(done, le),
            done + text_units(chars@.skip(i as int)) == text_units(chars@),
        decreases chars.len() - i,
    {
        let c = chars[i];
        let ghost rest = chars@.skip(i as int);
        let ghost before = done;
        assert(rest[0] == c);
        assert(rest.drop_first() =~= chars@.skip(i + 1));
        let v = c as u32;
        if v < 0x10000 {
            push_unit(&mut out, v as u16, le, Ghost(done));
            proof {
                done = done.push(v as u16);
            }
        } else {
            let hi: u16 = (0xD800 + (v - 0x10000) / 0x400) as u16;
            let lo: u16 = (0xDC00 + (v - 0x10000) % 0x400) as u16;
            push_unit(&mut out, hi, le, Ghost(done));
            push_unit(&mut out, lo, le, Ghost(done.push(hi)));
            proof {
                done = done.push(hi).push(lo);
            }
        }
        assert(done =~= before + char_units(c));
        assert(done + text_units(chars@.skip(i + 1)) =~= before + text_units(rest));
        i += 1;
    }
    assert(chars@.skip(chars@.len() as int) =~= Seq::empty());
    assert(done + text_units(Seq::empty()) =~= done);
    out
}

/// What UTF-16 writes, UTF-16 reads back.
pub proof fn utf16_round_trip(s: Seq<char>, le: bool)
    ensures
        utf16_text(units_of(units_bytes(text_units(s), le), le)) == s,
{
    lemma_units_of_bytes(text_units(s), le);
    lemma_utf16_units_round_trip(s);
}

/// Units that are written as bytes are read back from them.
pub proof fn lemma_units_of_bytes(u: Seq<u16>, le: bool)
    ensures
        units_of(units_bytes(u, le), le) == u,
{
    let b = units_bytes(u, le);
    assert forall|i: int| 0 <= i < u.len() implies #[trigger] units_of(b, le)[i] == u[i] by {
        assert((2 * i) / 2 == i && (2 * i) % 2 == 0);
        assert((2 * i + 1) / 2 == i && (2 * i + 1) % 2 == 1);
        let x = u[i];
        assert(x % 256 + 256 * (x / 256) == x);
    }
    assert(units_of(b, le) =~= u);
}

proof fn lemma_utf16_units_round_trip(s: Seq<char>)
    ensures
        utf16_text(text_units(s)) == s,
    decreases s.len(),
{
    if s.len() > 0 {
        let c = s[0];
        let rest = s.drop_first();
        lemma_utf16_units_round_trip(rest);
        let u = text_units(s);
        let v = c as u32;
        char_is_scalar(c);
        if v < 0x10000 {
            assert(u.skip(1) =~= text_units(rest));
            assert(u[0] == v);
            char_u32_cast(c, v);
            assert(u[0] as char == c);
            assert(utf16_text(u) =~= seq![c] + rest);
        } else {
            assert(u.skip(2) =~= text_units(rest));
            assert(0x10000 + (u[0] - 0xD800) * 0x400 + (u[1] - 0xDC00) == v);
            char_u32_cast(c, v);
            assert(paired(u[0], u[1]) == c);
            assert(utf16_text(u) =~= seq![c] + rest);
        }
        assert(seq![c] + rest =~= s);
    }
}

// ---- encodings ---------------------------------------------------------------

/// The text of a line's bytes.
pub open spec fn decoded(enc: Encoding, bytes: Seq<u8>) -> Seq<char> {
    match enc {
        Encoding::Utf8 | Encoding::Ascii => utf8_text(bytes),
        Encoding::ShiftJis => shift_jis_text(bytes),
        Encoding::EucJp => euc_jp_text(bytes),
        Encoding::Iso2022Jp => iso_2022_jp_text(bytes),
        Encoding::Utf16Le => utf16_text(units_of(bytes, true)),
        Encoding::Utf16Be => utf16_text(units_of(bytes, false)),
    }
}

/// The bytes that a codec gave, unless a character had none or the text is too
/// long for the codec.
pub open spec fn mappable(text: Seq<char>, r: (Seq<u8>, bool)) -> Option<Seq<u8>> {
    if codec_size(encode_utf8(text).len()) && !r.1 {
        Some(r.0)
    } else {
        None
    }
}

/// The bytes of a text, if the encoding has bytes for it.
pub open spec fn encoded(enc: Encoding, text: Seq<char>) -> Option<Seq<u8>> {
    match enc {
        Encoding::Utf8 | Encoding::Ascii => Some(encode_utf8(text)),
        Encoding::ShiftJis => mappable(text, shift_jis_bytes(text)),
        Encoding::EucJp => mappable(text, euc_jp_bytes(text)),
        Encoding::Iso2022Jp => mappable(text, iso_2022_jp_bytes(text)),
        Encoding::Utf16Le => Some(units_bytes(text_units(text), true)),
        Encoding::Utf16Be => Some(units_bytes(text_units(text), false)),
    }
}

/// The view of an optional byte vector.
pub open spec fn opt_bytes(v: Option<Vec<u8>>) -> Option<Seq<u8>> {
    match v {
        Some(b) => Some(b@),
        None => None,
    }
}

/// The longest prefix of at most `n` bytes that does not end inside a UTF-8
/// sequence.
pub open spec fn utf8_cut(bytes: Seq<u8>, n: nat) -> nat
    decreases n,
{
    if n > 0 && n < bytes.len() && is_continuation_byte(bytes[n as int]) {
        utf8_cut(bytes, (n - 1) as nat)
    } else {
        n
    }
}

/// How many bytes of a line are decoded when at most `max` may be.
pub open spec fn capped_len(enc: Encoding, bytes: Seq<u8>, max: nat) -> nat {
    if bytes.len() <= max {
        bytes.len()
    } else {
        match enc {
            Encoding::Utf16Le | Encoding::Utf16Be => (max - max % 2) as nat,
            Encoding::Utf8 | Encoding::Ascii => utf8_cut(bytes, max),
            Encoding::ShiftJis | Encoding::EucJp | Encoding::Iso2022Jp => max,
        }
    }
}

/// A name without separators and white space around it, in small letters.
pub open spec fn name_key(s: Seq<char>) -> Seq<char> {
    without_separators(trimmed(s))
}

pub open spec fn is_separator(c: char) -> bool {
    c == '-' || c == '_' || c == ' '
}

pub open spec fn without_separators(s: Seq<char>) -> Seq<char>
    decreases s.len(),
{
    if s.len() == 0 {
        Seq::empty()
    } else if is_separator(s.last()) {
        without_separators(s.drop_last())
    } else {
        without_separators(s.drop_last()).push(lower_char(s.last()))
    }
}

pub(crate) fn normalized_name(name: &str) -> (key: String)
    ensures
        key@ == name_key(name@),
{
    let chars = chars_of(name);
    let (a, b) = trim_bounds(&chars);
    let ghost t = chars@.subrange(a as int, b as int);
    let mut key = String::new();
    let mut i: usize = a;
    assert(t.take(0) =~= Seq::empty());
    while i < b
        invariant
            a <= i <= b <= chars@.len(),
            t == chars@.subrange(a as int, b as int),
            key@ == without_separators(t.take(i - a)),
        decreases b - i,
    {
        let c = chars[i];
        assert(t.take(i + 1 - a).drop_last() =~= t.take(i - a));
        assert(t.take(i + 1 - a).last() == c);
        if !(c == '-' || c == '_' || c == ' ') {
            push_char(&mut key, lower(c));
        }
        i += 1;
    }
    assert(t.take(b - a) =~= t);
    key
}

/// The encoding with a given normalised name.
pub open spec fn encoding_named(key: Seq<char>) -> Option<Encoding> {
    if key == "utf8"@ {
        Some(Encoding::Utf8)
    } else if key == "ascii"@ || key == "usascii"@ {
        Some(Encoding::Ascii)
    } else if key == "shiftjis"@ || key == "sjis"@ || key == "cp932"@ || key == "windows31j"@
        || key == "ms932"@ {
        Some(Encoding::ShiftJis)
    } else if key == "eucjp"@ || key == "euc"@ {
        Some(Encoding::EucJp)
    } else if key == "iso2022jp"@ || key == "iso2022"@ || key == "jis"@ {
        Some(Encoding::Iso2022Jp)
    } else if key == "utf16"@ || key == "utf16le"@ {
        Some(Encoding::Utf16Le)
    } else if key == "utf16be"@ {
        Some(Encoding::Utf16Be)
    } else {
        None
    }
}

impl Encoding {
    pub open spec fn label_text(self) -> Seq<char> {
        match self {
            Encoding::Utf8 => "UTF-8"@,
            Encoding::ShiftJis => "Shift_JIS"@,
            Encoding::EucJp => "EUC-JP"@,
            Encoding::Ascii => "ASCII"@,
            Encoding::Iso2022Jp => "ISO-2022-JP"@,
            Encoding::Utf16Le => "UTF-16LE"@,
            Encoding::Utf16Be => "UTF-16BE"@,
        }
    }

    pub open spec fn wide(self) -> bool {
        self == Encoding::Utf16Le || self == Encoding::Utf16Be
    }

    /// The byte-order mark of the encoding, if it has one.
    pub open spec fn bom_bytes(self) -> Seq<u8> {
        match self {
            Encoding::Utf8 => seq![0xEF, 0xBB, 0xBF],
            Encoding::Utf16Le => seq![0xFF, 0xFE],
            Encoding::Utf16Be => seq![0xFE, 0xFF],
            _ => Seq::empty(),
        }
    }

    pub fn label(self) -> (s: &'static str)
        ensures
            s@ == self.label_text(),
    {
        match self {
            Encoding::Utf8 => "UTF-8",
            Encoding::ShiftJis => "Shift_JIS",
            Encoding::EucJp => "EUC-JP",
            Encoding::Ascii => "ASCII",
            Encoding::Iso2022Jp => "ISO-2022-JP",
            Encoding::Utf16Le => "UTF-16LE",
            Encoding::Utf16Be => "UTF-16BE",
        }
    }

    /// Whether line feeds are aligned 16-bit units.
    pub fn is_wide(self) -> (b: bool)
        ensures
            b == self.wide(),
    {
        matches!(self, Encoding::Utf16Le | Encoding::Utf16Be)
    }

    /// Sizes that can be decoded.
    pub open spec fn sized(self, n: nat) -> bool {
        match self {
            Encoding::Utf8 | Encoding::Ascii => utf8_size(n),
            _ => codec_size(n),
        }
    }

    /// Decodes the bytes of a line, with replacement characters for what is
    /// malformed.
    pub fn decode_line(self, bytes: &[u8]) -> (text: String)
        requires
            self.sized(bytes@.len()),
        ensures
            text@ == decoded(self, bytes@),
    {
        match self {
            Encoding::Utf8 | Encoding::Ascii => rs_decode_utf8(bytes),
            Encoding::ShiftJis => rs_decode_shift_jis(bytes),
            Encoding::EucJp => rs_decode_euc_jp(bytes),
            Encoding::Iso2022Jp => rs_decode_iso_2022_jp(bytes),
            Encoding::Utf16Le => decode_utf16_line(bytes, true),
            Encoding::Utf16Be => decode_utf16_line(bytes, false),
        }
    }

    /// Decodes at most `max_bytes` of a line, and says whether it was cut
    /// short. The cut falls between characters in UTF-8 and between units in
    /// UTF-16.
    pub fn decode_line_capped(self, bytes: &[u8], max_bytes: usize) -> (r: (String, bool))
        requires
            codec_size(bytes@.len()),
        ensures
            r.1 == (bytes@.len() > max_bytes),
            r.0@ == decoded(self, bytes@.take(capped_len(self, bytes@, max_bytes as nat) as int)),
    {
        if bytes.len() <= max_bytes {
            assert(bytes@.take(bytes@.len() as int) =~= bytes@);
            return (self.decode_line(bytes), false);
        }
        let mut cut = max_bytes;
        match self {
            Encoding::Utf16Le | Encoding::Utf16Be => {
                cut = cut - cut % 2;
            },
            Encoding::Utf8 | Encoding::Ascii => {
                while cut > 0 && 0x80 <= bytes[cut] && bytes[cut] <= 0xBF
                    invariant
                        cut <= max_bytes < bytes@.len(),
                        utf8_cut(bytes@, cut as nat) == utf8_cut(bytes@, max_bytes as nat),
                    decreases cut,
                {
                    cut -= 1;
                }
            },
            Encoding::ShiftJis | Encoding::EucJp | Encoding::Iso2022Jp => {},
        }
        assert(bytes@.subrange(0, cut as int) =~= bytes@.take(cut as int));
        (self.decode_line(&bytes[0..cut]), true)
    }

    /// The number of characters that a line decodes to.
    pub fn count_chars(self, bytes: &[u8]) -> (n: u64)
        requires
            codec_size(bytes@.len()),
        ensures
            n == decoded(self, bytes@).len(),
    {
        let text = self.decode_line(bytes);
        text.as_str().unicode_len() as u64
    }

    /// Texts that are known to have bytes in this encoding.
    pub open spec fn takes(self, t: Seq<char>) -> bool {
        match self {
            Encoding::ShiftJis | Encoding::EucJp => kana_text(t) && codec_size(
                encode_utf8(t).len(),
            ),
            Encoding::Iso2022Jp => false,
            _ => true,
        }
    }

    /// Texts that are known to come back from their bytes in this encoding.
    pub open spec fn reads_back(self, t: Seq<char>) -> bool {
        match self {
            Encoding::ShiftJis | Encoding::EucJp => japanese_text(t),
            Encoding::Iso2022Jp => false,
            _ => true,
        }
    }

    /// Encodes a query into bytes that can be searched for; `None` if some
    /// character has no bytes in this encoding.
    pub fn encode_query(self, q: &str) -> (r: Option<Vec<u8>>)
        ensures
            opt_bytes(r) == encoded(self, q@),
            q@.len() > 0 && r is Some ==> r->Some_0@.len() > 0,
            self.takes(q@) ==> r is Some,
            self.reads_back(q@) && r is Some ==> decoded(self, r->Some_0@) == q@,
    {
        proof {
            lemma_text_has_bytes(q@);
            if self == Encoding::Utf8 || self == Encoding::Ascii || self.wide() {
                encoded_text_is_read_back(self, q@);
            }
        }
        match self {
            Encoding::Utf8 | Encoding::Ascii => {
                return Some(q.as_bytes_vec());
            },
            Encoding::Utf16Le => {
                return Some(encode_utf16_text(q, true));
            },
            Encoding::Utf16Be => {
                return Some(encode_utf16_text(q, false));
            },
            _ => {},
        }
        if q.as_bytes().len() > usize::MAX / 16 {
            return None;
        }
        let (bytes, unmappable) = match self {
            Encoding::ShiftJis => rs_encode_shift_jis(q),
            Encoding::EucJp => rs_encode_euc_jp(q),
            _ => rs_encode_iso_2022_jp(q),
        };
        if unmappable {
            None
        } else {
            Some(bytes)
        }
    }

    /// Encodes edited text into bytes; `None` if some character has none. A line
    /// with these bytes is read back as the same text.
    pub fn encode_text(self, text: &str) -> (r: Option<Vec<u8>>)
        ensures
            opt_bytes(r) == encoded(self, text@),
            self.takes(text@) ==> r is Some,
            self.reads_back(text@) && r is Some ==> decoded(self, r->Some_0@) == text@,
    {
        self.encode_query(text)
    }

    /// The encoding that a user names.
    pub fn parse(name: &str) -> (r: Option<Encoding>)
        ensures
            r == encoding_named(name_key(name@)),
    {
        let key = normalized_name(name);
        let n = key.as_str();
        if same_text(n, "utf8") {
            Some(Encoding::Utf8)
        } else if same_text(n, "ascii") || same_text(n, "usascii") {
            Some(Encoding::Ascii)
        } else if same_text(n, "shiftjis") || same_text(n, "sjis") || same_text(n, "cp932")
            || same_text(n, "windows31j") || same_text(n, "ms932") {
            Some(Encoding::ShiftJis)
        } else if same_text(n, "eucjp") || same_text(n, "euc") {
            Some(Encoding::EucJp)
        } else if same_text(n, "iso2022jp") || same_text(n, "iso2022") || same_text(n, "jis") {
            Some(Encoding::Iso2022Jp)
        } else if same_text(n, "utf16") || same_text(n, "utf16le") {
            Some(Encoding::Utf16Le)
        } else if same_text(n, "utf16be") {
            Some(Encoding::Utf16Be)
        } else {
            None
        }
    }

    pub fn bom(self) -> (b: &'static [u8])
        ensures
            b@ == self.bom_bytes(),
    {
        match self {
            Encoding::Utf8 => &[0xEF, 0xBB, 0xBF],
            Encoding::Utf16Le => &[0xFF, 0xFE],
            Encoding::Utf16Be => &[0xFE, 0xFF],
            _ => &[],
        }
    }
}

/// The key of a label is that of its letters and digits.
proof fn lemma_label_key(e: Encoding)
    ensures
        name_key(e.label_text()) == match e {
            Encoding::Utf8 => "utf8"@,
            Encoding::ShiftJis => "shiftjis"@,
            Encoding::EucJp => "eucjp"@,
            Encoding::Ascii => "ascii"@,
            Encoding::Iso2022Jp => "iso2022jp"@,
            Encoding::Utf16Le => "utf16le"@,
            Encoding::Utf16Be => "utf16be"@,
        },
{
    reveal_with_fuel(without_separators, 13);
    let t = e.label_text();
    match e {
        Encoding::Utf8 => {
            reveal_strlit("UTF-8");
            reveal_strlit("utf8");
            assert(trimmed(t) == t);
            assert(without_separators(t) =~= "utf8"@);
        },
        Encoding::ShiftJis => {
            reveal_strlit("Shift_JIS");
            reveal_strlit("shiftjis");
            assert(trimmed(t) == t);
            assert(without_separators(t) =~= "shiftjis"@);
        },
        Encoding::EucJp => {
            reveal_strlit("EUC-JP");
            reveal_strlit("eucjp");
            assert(trimmed(t) == t);
            assert(without_separators(t) =~= "eucjp"@);
        },
        Encoding::Ascii => {
            reveal_strlit("ASCII");
            reveal_strlit("ascii");
            assert(trimmed(t) == t);
            assert(without_separators(t) =~= "ascii"@);
        },
        Encoding::Iso2022Jp => {
            reveal_strlit("ISO-2022-JP");
            reveal_strlit("iso2022jp");
            assert(trimmed(t) == t);
            assert(without_separators(t) =~= "iso2022jp"@);
        },
        Encoding::Utf16Le => {
            reveal_strlit("UTF-16LE");
            reveal_strlit("utf16le");
            assert(trimmed(t) == t);
            assert(without_separators(t) =~= "utf16le"@);
        },
        Encoding::Utf16Be => {
            reveal_strlit("UTF-16BE");
            reveal_strlit("utf16be");
            assert(trimmed(t) == t);
            assert(without_separators(t) =~= "utf16be"@);
        },
    }
}

/// An encoding is found again by its label.
pub proof fn labels_are_read_back(e: Encoding)
    ensures
        encoding_named(name_key(e.label_text())) == Some(e),
{
    lemma_label_key(e);
    let key = name_key(e.label_text());
    match e {
        Encoding::Utf8 => {
            assert(key == "utf8"@);
        },
        Encoding::ShiftJis => {
            assert(key == "shiftjis"@);
            reveal_strlit("shiftjis");
            reveal_strlit("utf8");
            assert(key != "utf8"@);
            reveal_strlit("ascii");
            assert(key != "ascii"@);
            reveal_strlit("usascii");
            assert(key != "usascii"@);
        },
        Encoding::EucJp => {
            assert(key == "eucjp"@);
            reveal_strlit("eucjp");
            reveal_strlit("utf8");
            assert(key != "utf8"@);
            reveal_strlit("ascii");
            assert("eucjp"@[0] != "ascii"@[0]);
            assert(key != "ascii"@);
            reveal_strlit("usascii");
            assert(key != "usascii"@);
            reveal_strlit("shiftjis");
            assert(key != "shiftjis"@);
            reveal_strlit("sjis");
            assert(key != "sjis"@);
            reveal_strlit("cp932");
            assert("eucjp"@[0] != "cp932"@[0]);
            assert(key != "cp932"@);
            reveal_strlit("windows31j");
            assert(key != "windows31j"@);
            reveal_strlit("ms932");
            assert("eucjp"@[0] != "ms932"@[0]);
            assert(key != "ms932"@);
        },
        Encoding::Ascii => {
            assert(key == "ascii"@);
            reveal_strlit("ascii");
            reveal_strlit("utf8");
            assert(key != "utf8"@);
        },
        Encoding::Iso2022Jp => {
            assert(key == "iso2022jp"@);
            reveal_strlit("iso2022jp");
            reveal_strlit("utf8");
            assert(key != "utf8"@);
            reveal_strlit("ascii");
            assert(key != "ascii"@);
            reveal_strlit("usascii");
            assert(key != "usascii"@);
            reveal_strlit("shiftjis");
            assert(key != "shiftjis"@);
            reveal_strlit("sjis");
            assert(key != "sjis"@);
            reveal_strlit("cp932");
            assert(key != "cp932"@);
            reveal_strlit("windows31j");
            assert(key != "windows31j"@);
            reveal_strlit("ms932");
            assert(key != "ms932"@);
            reveal_strlit("eucjp");
            assert(key != "eucjp"@);
            reveal_strlit("euc");
            assert(key != "euc"@);
        },
        Encoding::Utf16Le => {
            assert(key == "utf16le"@);
            reveal_strlit("utf16le");
            reveal_strlit("utf8");
            assert(key != "utf8"@);
            reveal_strlit("ascii");
            assert(key != "ascii"@);
            reveal_strlit("usascii");
            assert("utf16le"@[1] != "usascii"@[1]);
            assert(key != "usascii"@);
            reveal_strlit("shiftjis");
            assert(key != "shiftjis"@);
            reveal_strlit("sjis");
            assert(key != "sjis"@);
            reveal_strlit("cp932");
            assert(key != "cp932"@);
            reveal_strlit("windows31j");
            assert(key != "windows31j"@);
            reveal_strlit("ms932");
            assert(key != "ms932"@);
            reveal_strlit("eucjp");
            assert(key != "eucjp"@);
            reveal_strlit("euc");
            assert(key != "euc"@);
            reveal_strlit("iso2022jp");
            assert(key != "iso2022jp"@);
            reveal_strlit("iso2022");
            assert("utf16le"@[0] != "iso2022"@[0]);
            assert(key != "iso2022"@);
            reveal_strlit("jis");
            assert(key != "jis"@);
            reveal_strlit("utf16");
            assert(key != "utf16"@);
        },
        Encoding::Utf16Be => {
            assert(key == "utf16be"@);
            reveal_strlit("utf16be");
            reveal_strlit("utf8");
            assert(key != "utf8"@);
            reveal_strlit("ascii");
            assert(key != "ascii"@);
            reveal_strlit("usascii");
            assert("utf16be"@[1] != "usascii"@[1]);
            assert(key != "usascii"@);
            reveal_strlit("shiftjis");
            assert(key != "shiftjis"@);
            reveal_strlit("sjis");
            assert(key != "sjis"@);
            reveal_strlit("cp932");
            assert(key != "cp932"@);
            reveal_strlit("windows31j");
            assert(key != "windows31j"@);
            reveal_strlit("ms932");
            assert(key != "ms932"@);
            reveal_strlit("eucjp");
            assert(key != "eucjp"@);
            reveal_strlit("euc");
            assert(key != "euc"@);
            reveal_strlit("iso2022jp");
            assert(key != "iso2022jp"@);
            reveal_strlit("iso2022");
            assert("utf16be"@[0] != "iso2022"@[0]);
            assert(key != "iso2022"@);
            reveal_strlit("jis");
            assert(key != "jis"@);
            reveal_strlit("utf16");
            assert(key != "utf16"@);
            reveal_strlit("utf16le");
            assert("utf16be"@[5] != "utf16le"@[5]);
            assert(key != "utf16le"@);
        },
    }
}

/// A text that is not empty has bytes in UTF-8 and units in UTF-16.
pub proof fn lemma_text_has_bytes(t: Seq<char>)
    ensures
        t.len() > 0 ==> encode_utf8(t).len() > 0 && text_units(t).len() > 0,
{
    if t.len() > 0 {
        encode_utf8_decode_utf8(t);
        encode_utf8_valid_utf8(t);
        assert(text_units(t) == char_units(t[0]) + text_units(t.drop_first()));
    }
}

// ---- texts and names that are read back --------------------------------------

/// In UTF-8, ASCII and UTF-16 every text can be encoded, and decoding its bytes
/// gives it back.
pub proof fn encoded_text_is_read_back(enc: Encoding, t: Seq<char>)
    requires
        enc == Encoding::Utf8 || enc == Encoding::Ascii || enc.wide(),
    ensures
        encoded(enc, t) matches Some(b) && decoded(enc, b) == t,
{
    if enc.wide() {
        utf16_round_trip(t, enc == Encoding::Utf16Le);
    } else {
        encode_utf8_valid_utf8(t);
        encode_utf8_decode_utf8(t);
    }
}

proof fn lemma_separators_concat(a: Seq<char>, b: Seq<char>)
    ensures
        without_separators(a + b) == without_separators(a) + without_separators(b),
    decreases b.len(),
{
    if b.len() == 0 {
        assert(a + b =~= a);
        assert(without_separators(a) + without_separators(b) =~= without_separators(a));
    } else {
        assert((a + b).drop_last() =~= a + b.drop_last());
        lemma_separators_concat(a, b.drop_last());
        assert(without_separators(a + b) =~= without_separators(a) + without_separators(b));
    }
}

proof fn lemma_lower_keeps(c: char)
    ensures
        lower_char(lower_char(c)) == lower_char(c),
        is_white(lower_char(c)) == is_white(c),
        is_separator(lower_char(c)) == is_separator(c),
{
}

spec fn lowered(s: Seq<char>) -> Seq<char> {
    s.map_values(|c: char| lower_char(c))
}

proof fn lemma_trim_lowered(s: Seq<char>)
    ensures
        trim_start(lowered(s)) == lowered(trim_start(s)),
        trim_end(lowered(s)) == lowered(trim_end(s)),
    decreases s.len(),
{
    if s.len() > 0 {
        lemma_lower_keeps(s[0]);
        lemma_lower_keeps(s.last());
        assert(lowered(s).drop_first() =~= lowered(s.drop_first()));
        assert(lowered(s).drop_last() =~= lowered(s.drop_last()));
        lemma_trim_lowered(s.drop_first());
        lemma_trim_lowered(s.drop_last());
    }
}

proof fn lemma_separators_lowered(s: Seq<char>)
    ensures
        without_separators(lowered(s)) == without_separators(s),
    decreases s.len(),
{
    if s.len() > 0 {
        lemma_lower_keeps(s.last());
        assert(lowered(s).drop_last() =~= lowered(s.drop_last()));
        lemma_separators_lowered(s.drop_last());
    }
}

/// Names that differ in the case of ASCII letters only have one key, and so name
/// one encoding.
pub proof fn names_are_read_in_any_case(a: Seq<char>, b: Seq<char>)
    requires
        a.map_values(|c: char| lower_char(c)) == b.map_values(|c: char| lower_char(c)),
    ensures
        name_key(a) == name_key(b),
        encoding_named(name_key(a)) == encoding_named(name_key(b)),
{
    lemma_trim_lowered(a);
    lemma_trim_lowered(trim_start(a));
    lemma_separators_lowered(trimmed(a));
    lemma_trim_lowered(b);
    lemma_trim_lowered(trim_start(b));
    lemma_separators_lowered(trimmed(b));
    assert(lowered(a) == lowered(b));
}

proof fn lemma_trim_start_white(a: Seq<char>, s: Seq<char>)
    requires
        forall|i: int| 0 <= i < a.len() ==> is_white(#[trigger] a[i]),
    ensures
        trim_start(a + s) == trim_start(s),
    decreases a.len(),
{
    if a.len() > 0 {
        let rest = a.drop_first();
        assert forall|i: int| 0 <= i < rest.len() implies is_white(#[trigger] rest[i]) by {
            assert(rest[i] == a[i + 1]);
        }
        assert((a + s)[0] == a[0]);
        assert((a + s).drop_first() =~= rest + s);
        lemma_trim_start_white(rest, s);
    } else {
        assert(a + s =~= s);
    }
}

proof fn lemma_trim_end_white(s: Seq<char>, b: Seq<char>)
    requires
        forall|i: int| 0 <= i < b.len() ==> is_white(#[trigger] b[i]),
    ensures
        trim_end(s + b) == trim_end(s),
    decreases b.len(),
{
    if b.len() > 0 {
        let rest = b.drop_last();
        assert forall|i: int| 0 <= i < rest.len() implies is_white(#[trigger] rest[i]) by {
            assert(rest[i] == b[i]);
        }
        assert((s + b).last() == b.last());
        assert((s + b).drop_last() =~= s + rest);
        lemma_trim_end_white(s, rest);
    } else {
        assert(s + b =~= s);
    }
}

proof fn lemma_trim_start_before(s: Seq<char>, b: Seq<char>)
    requires
        forall|i: int| 0 <= i < b.len() ==> is_white(#[trigger] b[i]),
    ensures
        trim_end(trim_start(s + b)) == trim_end(trim_start(s)),
    decreases s.len(),
{
    if s.len() == 0 {
        let none = Seq::<char>::empty();
        assert(s + b =~= b + none);
        lemma_trim_start_white(b, none);
        assert(trim_start(none) =~= s);
    } else if is_white(s[0]) {
        assert((s + b)[0] == s[0]);
        assert((s + b).drop_first() =~= s.drop_first() + b);
        lemma_trim_start_before(s.drop_first(), b);
    } else {
        assert((s + b)[0] == s[0]);
        lemma_trim_end_white(s, b);
    }
}

/// White space around a name does not matter.
pub proof fn names_are_read_with_space_around(a: Seq<char>, s: Seq<char>, b: Seq<char>)
    requires
        forall|i: int| 0 <= i < a.len() ==> is_white(#[trigger] a[i]),
        forall|i: int| 0 <= i < b.len() ==> is_white(#[trigger] b[i]),
    ensures
        name_key(a + s + b) == name_key(s),
        encoding_named(name_key(a + s + b)) == encoding_named(name_key(s)),
{
    assert(a + s + b =~= a + (s + b));
    lemma_trim_start_white(a, s + b);
    lemma_trim_start_before(s, b);
}

/// A name whose only white space is the blank.
pub open spec fn blanks_only(s: Seq<char>) -> bool {
    forall|i: int| 0 <= i < s.len() && is_white(#[trigger] s[i]) ==> s[i] == ' '
}

proof fn lemma_blanks_trimmed(s: Seq<char>)
    requires
        blanks_only(s),
    ensures
        without_separators(trim_start(s)) == without_separators(s),
        without_separators(trim_end(s)) == without_separators(s),
        blanks_only(trim_start(s)),
    decreases s.len(),
{
    if s.len() > 0 {
        let (first, last) = (s.drop_first(), s.drop_last());
        assert forall|i: int| 0 <= i < first.len() && is_white(#[trigger] first[i]) implies first[i]
            == ' ' by {
            assert(first[i] == s[i + 1]);
        }
        assert forall|i: int| 0 <= i < last.len() && is_white(#[trigger] last[i]) implies last[i]
            == ' ' by {
            assert(last[i] == s[i]);
        }
        lemma_blanks_trimmed(first);
        lemma_blanks_trimmed(last);
        assert(s =~= seq![s[0]] + first);
        lemma_separators_concat(seq![s[0]], first);
        lemma_separator_alone(s[0]);
        if is_white(s[0]) {
            assert(without_separators(seq![s[0]]) + without_separators(first)
                =~= without_separators(first));
        }
    }
}

proof fn lemma_separator_alone(c: char)
    ensures
        is_separator(c) ==> without_separators(seq![c]) == Seq::<char>::empty(),
{
    reveal_with_fuel(without_separators, 2);
    assert(seq![c].last() == c);
    assert(seq![c].drop_last() =~= Seq::empty());
}

/// Separators do not matter, wherever they stand in a name.
pub proof fn names_are_read_with_any_separators(a: Seq<char>, c: char, b: Seq<char>)
    requires
        is_separator(c),
        blanks_only(a),
        blanks_only(b),
    ensures
        name_key(a + seq![c] + b) == name_key(a + b),
        encoding_named(name_key(a + seq![c] + b)) == encoding_named(name_key(a + b)),
{
    let s = a + seq![c] + b;
    let t = a + b;
    assert forall|i: int| 0 <= i < s.len() && is_white(#[trigger] s[i]) implies s[i] == ' ' by {
        if i < a.len() {
            assert(s[i] == a[i]);
        } else if i > a.len() {
            assert(s[i] == b[i - a.len() - 1]);
        }
    }
    assert forall|i: int| 0 <= i < t.len() && is_white(#[trigger] t[i]) implies t[i] == ' ' by {
        if i < a.len() {
            assert(t[i] == a[i]);
        } else {
            assert(t[i] == b[i - a.len()]);
        }
    }
    lemma_blanks_trimmed(s);
    lemma_blanks_trimmed(trim_start(s));
    lemma_blanks_trimmed(t);
    lemma_blanks_trimmed(trim_start(t));
    lemma_separators_concat(a + seq![c], b);
    lemma_separators_concat(a, seq![c]);
    lemma_separators_concat(a, b);
    lemma_separator_alone(c);
    assert(without_separators(a) + without_separators(seq![c]) =~= without_separators(a));
}

} // verus!
