//! How identifiers change from one naming style to another.

use vstd::prelude::*;
use vstd::utf8::*;

use crate::casing::{
    case_line, cased, every_letter_changes_its_case, mode_named, restyled, run_end, worded,
    CaseMode,
};
use crate::encoding::{decoded, encoded_text_is_read_back, Encoding};
use crate::text::lemma_scalar_bytes;

verus! {

pub open spec fn small(b: u8) -> bool {
    97 <= b <= 122
}

pub open spec fn capital(b: u8) -> bool {
    65 <= b <= 90
}

pub open spec fn numeral(b: u8) -> bool {
    48 <= b <= 57
}

/// An underscore or a hyphen.
pub open spec fn joint(b: u8) -> bool {
    b == 95 || b == 45
}

/// A byte of an identifier.
pub open spec fn part_of_name(b: u8) -> bool {
    small(b) || capital(b) || numeral(b) || joint(b)
}

/// A letter without its case.
pub open spec fn folded(b: u8) -> u8 {
    if capital(b) {
        (b + 32) as u8
    } else {
        b
    }
}

/// The letters and all other bytes but underscores and hyphens, without case.
pub open spec fn essence(s: Seq<u8>) -> Seq<u8>
    decreases s.len(),
{
    if s.len() == 0 {
        Seq::empty()
    } else if joint(s.last()) {
        essence(s.drop_last())
    } else {
        essence(s.drop_last()).push(folded(s.last()))
    }
}

proof fn lemma_essence_concat(a: Seq<u8>, b: Seq<u8>)
    ensures
        essence(a + b) == essence(a) + essence(b),
    decreases b.len(),
{
    if b.len() == 0 {
        assert(a + b =~= a);
        assert(essence(a) + essence(b) =~= essence(a));
    } else {
        assert((a + b).drop_last() =~= a + b.drop_last());
        lemma_essence_concat(a, b.drop_last());
        assert(essence(a + b) =~= essence(a) + essence(b));
    }
}

proof fn lemma_essence_push(s: Seq<u8>, b: u8)
    ensures
        essence(s.push(b)) == if joint(b) {
            essence(s)
        } else {
            essence(s).push(folded(b))
        },
{
    assert(s.push(b).drop_last() =~= s);
}

/// A word starts at a place of an identifier: at its first byte, behind an
/// underscore or a hyphen, at a capital behind a small letter or a numeral, and
/// at the last of several capitals before a small letter.
pub open spec fn begins(run: Seq<u8>, k: int) -> bool {
    &&& 0 <= k < run.len()
    &&& !joint(run[k])
    &&& k > 0 && !joint(run[k - 1]) ==> capital(run[k]) && (small(run[k - 1]) || numeral(
        run[k - 1],
    ) || (capital(run[k - 1]) && k + 1 < run.len() && small(run[k + 1])))
}

/// An identifier changes its style byte by byte. Underscores and hyphens go;
/// letters and numerals stay, in their order, and only their case changes.
/// Where a word begins, but at the start, an underscore comes in snake and
/// constant case and a hyphen in kebab case. In camel and Pascal case a word
/// begins with a capital, but for the first in camel case; in constant case all
/// letters are capitals, and all other letters are small.
pub proof fn names_change_byte_by_byte(run: Seq<u8>, mode: CaseMode, k: int)
    requires
        mode != CaseMode::Upper,
        mode != CaseMode::Lower,
        0 <= k < run.len(),
    ensures
        ({
            let before = restyled(run, mode, k);
            let now = restyled(run, mode, k + 1);
            let c = now.last();
            let mark = begins(run, k) && k > 0 && mode != CaseMode::Camel && mode
                != CaseMode::Pascal;
            let big = mode == CaseMode::Constant || (begins(run, k) && (mode == CaseMode::Pascal || (
            mode == CaseMode::Camel && k > 0)));
            &&& restyled(run, mode, 0).len() == 0
            &&& joint(run[k]) ==> now == before
            &&& !joint(run[k]) ==> {
                &&& folded(c) == folded(run[k])
                &&& big ==> !small(c)
                &&& !big ==> !capital(c)
                &&& !mark ==> now == before.push(c)
                &&& mark && mode != CaseMode::Kebab ==> now == before.push(95).push(c)
                &&& mark && mode == CaseMode::Kebab ==> now == before.push(45).push(c)
            }
        }),
{
    let before = restyled(run, mode, k);
    let now = restyled(run, mode, k + 1);
    assert(now =~= before + crate::casing::styled(run, mode, k));
    assert(begins(run, k) == crate::casing::word_starts(run, k));
    if !joint(run[k]) {
        let s = crate::casing::styled(run, mode, k);
        if s.len() == 1 {
            assert(now =~= before.push(s[0]));
        } else {
            assert(now =~= before.push(s[0]).push(s[1]));
        }
    }
}

proof fn lemma_restyled_essence(run: Seq<u8>, mode: CaseMode, n: int)
    requires
        mode != CaseMode::Upper,
        mode != CaseMode::Lower,
        0 <= n <= run.len(),
    ensures
        essence(restyled(run, mode, n)) == essence(run.take(n)),
    decreases n,
{
    if n > 0 {
        lemma_restyled_essence(run, mode, n - 1);
        names_change_byte_by_byte(run, mode, n - 1);
        let before = restyled(run, mode, n - 1);
        let now = restyled(run, mode, n);
        let t = run.take(n);
        assert(t.drop_last() =~= run.take(n - 1));
        assert(t.last() == run[n - 1]);
        if !joint(run[n - 1]) {
            let c = now.last();
            lemma_essence_push(before, c);
            lemma_essence_push(before, 95u8);
            lemma_essence_push(before, 45u8);
            lemma_essence_push(before.push(95u8), c);
            lemma_essence_push(before.push(45u8), c);
        }
    } else {
        assert(run.take(0) =~= Seq::<u8>::empty());
        assert(restyled(run, mode, 0) =~= Seq::<u8>::empty());
    }
}

proof fn lemma_run_end(raw: Seq<u8>, j: int)
    requires
        0 <= j <= raw.len(),
    ensures
        j <= run_end(raw, j) <= raw.len(),
    decreases raw.len() - j,
{
    if j < raw.len() {
        lemma_run_end(raw, j + 1);
    }
}

proof fn lemma_worded_essence(raw: Seq<u8>, mode: CaseMode, i: int)
    requires
        mode != CaseMode::Upper,
        mode != CaseMode::Lower,
        0 <= i <= raw.len(),
    ensures
        essence(worded(raw, false, mode, i)) == essence(raw.skip(i)),
    decreases raw.len() - i,
{
    if i < raw.len() {
        if small(raw[i]) || capital(raw[i]) || numeral(raw[i]) {
            let e = run_end(raw, i);
            lemma_run_end(raw, i + 1);
            let run = raw.subrange(i, e);
            lemma_restyled_essence(run, mode, e - i);
            assert(run.take(e - i) =~= run);
            lemma_worded_essence(raw, mode, e);
            lemma_essence_concat(restyled(run, mode, e - i), worded(raw, false, mode, e));
            lemma_essence_concat(run, raw.skip(e));
            assert(raw.skip(i) =~= run + raw.skip(e));
        } else {
            lemma_worded_essence(raw, mode, i + 1);
            lemma_essence_concat(seq![raw[i]], worded(raw, false, mode, i + 1));
            lemma_essence_concat(seq![raw[i]], raw.skip(i + 1));
            assert(raw.skip(i) =~= seq![raw[i]] + raw.skip(i + 1));
        }
    } else {
        assert(raw.skip(i) =~= Seq::<u8>::empty());
        assert(worded(raw, false, mode, i) =~= Seq::<u8>::empty());
    }
}

/// No style loses a letter or any other byte, or changes their order: but for
/// underscores, hyphens and the case of letters a line stays as it is.
pub proof fn styles_keep_the_letters(raw: Seq<u8>, mode: CaseMode)
    requires
        mode != CaseMode::Upper,
        mode != CaseMode::Lower,
    ensures
        essence(cased(raw, false, mode)) == essence(raw),
{
    lemma_worded_essence(raw, mode, 0);
    assert(raw.skip(0) =~= raw);
}

/// Bytes that are one identifier: letters and numerals, with single underscores
/// or hyphens between them.
pub open spec fn one_name(run: Seq<u8>) -> bool {
    &&& run.len() > 0
    &&& !joint(run[0])
    &&& !joint(run.last())
    &&& forall|k: int| 0 <= k < run.len() ==> part_of_name(#[trigger] run[k])
    &&& forall|k: int| 0 < k < run.len() && joint(#[trigger] run[k]) ==> !joint(run[k - 1])
}

proof fn lemma_one_name(run: Seq<u8>, j: int)
    requires
        one_name(run),
        0 <= j <= run.len(),
    ensures
        run_end(run, j) == run.len(),
    decreases run.len() - j,
{
    if j < run.len() {
        lemma_one_name(run, j + 1);
        assert(part_of_name(run[j]));
        if joint(run[j]) {
            assert(j + 1 < run.len());
            assert(part_of_name(run[j + 1]));
            assert(!joint(run[j + 1]));
        }
    }
}

/// A line that is one identifier changes its style as a whole.
pub proof fn a_name_is_restyled_as_a_whole(run: Seq<u8>, sjis: bool, mode: CaseMode)
    requires
        one_name(run),
        mode != CaseMode::Upper,
        mode != CaseMode::Lower,
    ensures
        cased(run, sjis, mode) == restyled(run, mode, run.len() as int),
{
    lemma_one_name(run, 0);
    assert(part_of_name(run[0]));
    assert(run.subrange(0, run.len() as int) =~= run);
    assert(worded(run, sjis, mode, run.len() as int) =~= Seq::<u8>::empty());
    assert(cased(run, sjis, mode) =~= restyled(run, mode, run.len() as int));
}

proof fn lemma_run_end_left(x: Seq<u8>, b: u8, y: Seq<u8>, j: int)
    requires
        !part_of_name(b),
        0 <= j <= x.len(),
    ensures
        run_end(x + seq![b] + y, j) == run_end(x, j),
    decreases x.len() - j,
{
    let raw = x + seq![b] + y;
    assert(raw[x.len() as int] == b);
    if j < x.len() {
        lemma_run_end_left(x, b, y, j + 1);
        assert(raw[j] == x[j]);
        if j + 1 < x.len() {
            assert(raw[j + 1] == x[j + 1]);
        }
    }
}

proof fn lemma_run_end_right(x: Seq<u8>, y: Seq<u8>, j: int)
    requires
        0 <= j <= y.len(),
    ensures
        run_end(x + y, x.len() + j) == x.len() + run_end(y, j),
    decreases y.len() - j,
{
    if j < y.len() {
        lemma_run_end_right(x, y, j + 1);
        assert((x + y)[x.len() + j] == y[j]);
        if j + 1 < y.len() {
            assert((x + y)[x.len() + j + 1] == y[j + 1]);
        }
    }
}

proof fn lemma_worded_right(x: Seq<u8>, y: Seq<u8>, mode: CaseMode, i: int)
    requires
        0 <= i <= y.len(),
    ensures
        worded(x + y, false, mode, x.len() + i) == worded(y, false, mode, i),
    decreases y.len() - i,
{
    let raw = x + y;
    if i < y.len() {
        assert(raw[x.len() + i] == y[i]);
        if small(y[i]) || capital(y[i]) || numeral(y[i]) {
            let e = run_end(y, i);
            lemma_run_end(y, i + 1);
            lemma_run_end_right(x, y, i);
            assert(raw.subrange(x.len() + i, x.len() + e) =~= y.subrange(i, e));
            lemma_worded_right(x, y, mode, e);
        } else {
            lemma_worded_right(x, y, mode, i + 1);
        }
    }
}

proof fn lemma_worded_left(x: Seq<u8>, b: u8, y: Seq<u8>, mode: CaseMode, i: int)
    requires
        !part_of_name(b),
        0 <= i <= x.len(),
    ensures
        worded(x + seq![b] + y, false, mode, i) == worded(x, false, mode, i) + seq![b] + worded(
            y,
            false,
            mode,
            0,
        ),
    decreases x.len() - i,
{
    let raw = x + seq![b] + y;
    let rest = worded(y, false, mode, 0);
    if i < x.len() {
        assert(raw[i] == x[i]);
        if small(x[i]) || capital(x[i]) || numeral(x[i]) {
            let e = run_end(x, i);
            lemma_run_end(x, i + 1);
            lemma_run_end_left(x, b, y, i);
            assert(raw.subrange(i, e) =~= x.subrange(i, e));
            lemma_worded_left(x, b, y, mode, e);
            let r = restyled(x.subrange(i, e), mode, e - i);
            assert(r + (worded(x, false, mode, e) + seq![b] + rest) =~= r + worded(
                x,
                false,
                mode,
                e,
            ) + seq![b] + rest);
        } else {
            lemma_worded_left(x, b, y, mode, i + 1);
            assert(seq![x[i]] + (worded(x, false, mode, i + 1) + seq![b] + rest) =~= seq![x[i]]
                + worded(x, false, mode, i + 1) + seq![b] + rest);
        }
    } else {
        assert(raw[i] == b);
        lemma_worded_right(x + seq![b], y, mode, 0);
        assert(worded(x, false, mode, i) =~= Seq::<u8>::empty());
        assert(seq![b] + rest =~= worded(x, false, mode, i) + seq![b] + rest);
    }
}

/// Identifiers change one by one: what stands on one side of a byte that is no
/// part of a name changes as if it stood alone, and the byte stays.
pub proof fn names_change_one_by_one(x: Seq<u8>, b: u8, y: Seq<u8>, mode: CaseMode)
    requires
        !part_of_name(b),
        mode != CaseMode::Upper,
        mode != CaseMode::Lower,
    ensures
        cased(x + seq![b] + y, false, mode) == cased(x, false, mode) + seq![b] + cased(
            y,
            false,
            mode,
        ),
{
    lemma_worded_left(x, b, y, mode, 0);
}

// ---- two-byte characters -----------------------------------------------------

proof fn lemma_worded_double_right(x: Seq<u8>, y: Seq<u8>, mode: CaseMode, i: int)
    requires
        0 <= i <= y.len(),
    ensures
        worded(x + y, true, mode, x.len() + i) == worded(y, true, mode, i),
    decreases y.len() - i,
{
    let raw = x + y;
    if i < y.len() {
        assert(raw[x.len() + i] == y[i]);
        if crate::casing::is_lead(y[i]) && i + 1 < y.len() {
            assert(raw[x.len() + i + 1] == y[i + 1]);
            lemma_worded_double_right(x, y, mode, i + 2);
        } else if small(y[i]) || capital(y[i]) || numeral(y[i]) {
            let e = run_end(y, i);
            lemma_run_end(y, i + 1);
            lemma_run_end_right(x, y, i);
            assert(raw.subrange(x.len() + i, x.len() + e) =~= y.subrange(i, e));
            lemma_worded_double_right(x, y, mode, e);
        } else {
            lemma_worded_double_right(x, y, mode, i + 1);
        }
    }
}

proof fn lemma_worded_double(
    x: Seq<u8>,
    b: u8,
    t: u8,
    y: Seq<u8>,
    mode: CaseMode,
    i: int,
)
    requires
        0x81 <= b <= 0x9f || 0xe0 <= b <= 0xfc,
        forall|k: int| 0 <= k < x.len() ==> #[trigger] x[k] < 0x80,
        0 <= i <= x.len(),
    ensures
        worded(x + seq![b] + (seq![t] + y), true, mode, i) == worded(x, true, mode, i) + seq![b, t]
            + worded(y, true, mode, 0),
    decreases x.len() - i,
{
    let more = seq![t] + y;
    let raw = x + seq![b] + more;
    let rest = worded(y, true, mode, 0);
    let pair = seq![b, t];
    if i < x.len() {
        assert(raw[i] == x[i]);
        if small(x[i]) || capital(x[i]) || numeral(x[i]) {
            let e = run_end(x, i);
            lemma_run_end(x, i + 1);
            lemma_run_end_left(x, b, more, i);
            assert(raw.subrange(i, e) =~= x.subrange(i, e));
            lemma_worded_double(x, b, t, y, mode, e);
            let r = restyled(x.subrange(i, e), mode, e - i);
            assert(r + (worded(x, true, mode, e) + pair + rest) =~= r + worded(x, true, mode, e)
                + pair + rest);
        } else {
            lemma_worded_double(x, b, t, y, mode, i + 1);
            assert(seq![x[i]] + (worded(x, true, mode, i + 1) + pair + rest) =~= seq![x[i]]
                + worded(x, true, mode, i + 1) + pair + rest);
        }
    } else {
        assert(raw[i] == b && raw[i + 1] == t);
        assert(raw =~= (x + pair) + y);
        lemma_worded_double_right(x + pair, y, mode, 0);
        assert(worded(x, true, mode, i) =~= Seq::<u8>::empty());
        assert(pair + rest =~= worded(x, true, mode, i) + pair + rest);
    }
}

/// In Shift_JIS a two-byte character stays as it is, though its second byte may
/// look like a letter, and names on both sides of it change each by itself.
pub proof fn names_change_between_two_byte_characters(
    x: Seq<u8>,
    b: u8,
    t: u8,
    y: Seq<u8>,
    mode: CaseMode,
)
    requires
        0x81 <= b <= 0x9f || 0xe0 <= b <= 0xfc,
        forall|k: int| 0 <= k < x.len() ==> #[trigger] x[k] < 0x80,
        mode != CaseMode::Upper,
        mode != CaseMode::Lower,
    ensures
        cased(x + seq![b, t] + y, true, mode) == cased(x, true, mode) + seq![b, t] + cased(
            y,
            true,
            mode,
        ),
{
    lemma_worded_double(x, b, t, y, mode, 0);
    assert(x + seq![b] + (seq![t] + y) =~= x + seq![b, t] + y);
}

// ---- texts in UTF-16 ---------------------------------------------------------

/// A character in upper or lower case, as far as it is an ASCII letter.
pub open spec fn cased_char(c: char, upper: bool) -> char {
    if upper && 'a' <= c <= 'z' {
        (c as u32 - 32) as char
    } else if !upper && 'A' <= c <= 'Z' {
        (c as u32 + 32) as char
    } else {
        c
    }
}

pub open spec fn cased_text(t: Seq<char>, upper: bool) -> Seq<char> {
    t.map_values(|c: char| cased_char(c, upper))
}

proof fn lemma_ascii_scalar(c: char)
    requires
        (c as u32) < 128,
    ensures
        encode_scalar(c as u32) == seq![c as u8],
{
    let t = seq![c];
    assert(is_ascii_chars(t)) by {
        assert forall|i: int| 0 <= i < t.len() implies '\0' <= #[trigger] t[i] <= '\u{7f}' by {
            assert(t[i] == c);
        }
    }
    is_ascii_chars_encode_utf8(t);
    assert(t.drop_first() =~= Seq::<char>::empty());
    assert(encode_utf8(t) =~= encode_scalar(c as u32));
    assert(encode_utf8(t)[0] == c as u8) by {
        assert(t[0] == c);
    }
    assert(encode_scalar(c as u32) =~= seq![c as u8]);
}

proof fn lemma_cased_text(t: Seq<char>, upper: bool)
    ensures
        ({
            let u = encode_utf8(t);
            let v = encode_utf8(cased_text(t, upper));
            &&& u.len() == v.len()
            &&& forall|j: int|
                0 <= j < u.len() ==> (#[trigger] v[j]) == if upper && 97 <= u[j] <= 122 {
                    u[j] - 32
                } else if !upper && 65 <= u[j] <= 90 {
                    u[j] + 32
                } else {
                    u[j] as int
                }
        }),
    decreases t.len(),
{
    let u = encode_utf8(t);
    let s = cased_text(t, upper);
    let v = encode_utf8(s);
    if t.len() > 0 {
        let r = t.drop_first();
        lemma_cased_text(r, upper);
        assert(s.drop_first() =~= cased_text(r, upper));
        let c = t[0];
        let d = cased_char(c, upper);
        assert(s[0] == d);
        let x = encode_scalar(c as u32);
        let y = encode_scalar(d as u32);
        if (c as u32) < 128 {
            lemma_ascii_scalar(c);
            lemma_ascii_scalar(d);
        } else {
            assert(d == c);
            assert forall|j: int| 0 <= j < x.len() implies !(65 <= #[trigger] x[j] <= 90) && !(97
                <= x[j] <= 122) by {
                let b = x[j];
                if b < 0x80 {
                    lemma_scalar_bytes(c as u32, b);
                }
            }
        }
        assert(x.len() == y.len());
        let (ru, rv) = (encode_utf8(r), encode_utf8(s.drop_first()));
        assert forall|j: int| 0 <= j < u.len() implies (#[trigger] v[j]) == if upper && 97 <= u[j]
            <= 122 {
            u[j] - 32
        } else if !upper && 65 <= u[j] <= 90 {
            u[j] + 32
        } else {
            u[j] as int
        } by {
            if j < x.len() {
                assert(u[j] == x[j] && v[j] == y[j]);
            } else {
                assert(u[j] == ru[j - x.len()] && v[j] == rv[j - x.len()]);
            }
        }
    }
}

/// A line in UTF-16 changes its case as a text: each small ASCII letter becomes
/// a capital, or each capital a small letter, and all other characters stay.
pub proof fn wide_lines_change_their_case(enc: Encoding, raw: Seq<u8>, upper: bool)
    requires
        enc.wide(),
    ensures
        ({
            let mode = if upper { CaseMode::Upper } else { CaseMode::Lower };
            let r = case_line(enc, raw, mode);
            let t = decoded(enc, raw);
            &&& r is Ok
            &&& decoded(enc, r->Ok_0.0) == cased_text(t, upper)
            &&& r->Ok_0.1 <==> cased_text(t, upper) != t
            &&& !r->Ok_0.1 ==> r->Ok_0.0 == raw
        }),
{
    let mode = if upper { CaseMode::Upper } else { CaseMode::Lower };
    let t = decoded(enc, raw);
    let s = cased_text(t, upper);
    let u = encode_utf8(t);
    let out = cased(u, false, mode);
    lemma_cased_text(t, upper);
    every_letter_changes_its_case(u, false);
    assert(out =~= encode_utf8(s));
    encode_utf8_decode_utf8(t);
    encode_utf8_decode_utf8(s);
    encode_utf8_valid_utf8(s);
    encoded_text_is_read_back(enc, s);
    if out == u {
        assert(decode_utf8(out) == s);
        assert(s == t);
    }
}

/// A line in UTF-16 changes its style as the same text does in UTF-8.
pub proof fn wide_lines_change_as_texts_do(
    enc: Encoding,
    raw: Seq<u8>,
    mode: CaseMode,
    v: Seq<char>,
)
    requires
        enc.wide(),
        case_line(Encoding::Utf8, encode_utf8(decoded(enc, raw)), mode)->Ok_0.0 == encode_utf8(v),
    ensures
        ({
            let r = case_line(enc, raw, mode);
            &&& r is Ok
            &&& decoded(enc, r->Ok_0.0) == v
            &&& r->Ok_0.1 <==> v != decoded(enc, raw)
            &&& !r->Ok_0.1 ==> r->Ok_0.0 == raw
        }),
{
    let t = decoded(enc, raw);
    encode_utf8_decode_utf8(t);
    encode_utf8_decode_utf8(v);
    encode_utf8_valid_utf8(v);
    encoded_text_is_read_back(enc, v);
}

/// A case is known by its name.
pub proof fn cases_are_named(k: Seq<char>)
    ensures
        k == seq!['u', 'p', 'p', 'e', 'r'] ==> mode_named(k) == Some(CaseMode::Upper),
        k == seq!['l', 'o', 'w', 'e', 'r'] ==> mode_named(k) == Some(CaseMode::Lower),
        k == seq!['c', 'a', 'm', 'e', 'l'] ==> mode_named(k) == Some(CaseMode::Camel),
        k == seq!['p', 'a', 's', 'c', 'a', 'l'] ==> mode_named(k) == Some(CaseMode::Pascal),
        k == seq!['s', 'n', 'a', 'k', 'e'] ==> mode_named(k) == Some(CaseMode::Snake),
        k == seq!['k', 'e', 'b', 'a', 'b'] ==> mode_named(k) == Some(CaseMode::Kebab),
        k == seq!['c', 'o', 'n', 's', 't', 'a', 'n', 't'] ==> mode_named(k) == Some(
            CaseMode::Constant,
        ),
        k.len() == 0 ==> mode_named(k) is None,
{
    reveal_strlit("upper");
    reveal_strlit("uppercase");
    reveal_strlit("up");
    reveal_strlit("lower");
    reveal_strlit("lowercase");
    reveal_strlit("down");
    reveal_strlit("camel");
    reveal_strlit("camelcase");
    reveal_strlit("pascal");
    reveal_strlit("pascalcase");
    reveal_strlit("snake");
    reveal_strlit("snakecase");
    reveal_strlit("snake_case");
    reveal_strlit("kebab");
    reveal_strlit("kebabcase");
    reveal_strlit("kebab-case");
    reveal_strlit("constant");
    reveal_strlit("constantcase");
    reveal_strlit("constant_case");
    reveal_strlit("upper_snake");
    reveal_strlit("screaming_snake");
    assert("upper"@ =~= seq!['u', 'p', 'p', 'e', 'r']);
    assert("lower"@ =~= seq!['l', 'o', 'w', 'e', 'r']);
    assert("camel"@ =~= seq!['c', 'a', 'm', 'e', 'l']);
    assert("pascal"@ =~= seq!['p', 'a', 's', 'c', 'a', 'l']);
    assert("snake"@ =~= seq!['s', 'n', 'a', 'k', 'e']);
    assert("kebab"@ =~= seq!['k', 'e', 'b', 'a', 'b']);
    assert("constant"@ =~= seq!['c', 'o', 'n', 's', 't', 'a', 'n', 't']);
    assert("upper"@[0] == 'u' && "lower"@[0] == 'l' && "camel"@[0] == 'c' && "snake"@[0] == 's'
        && "kebab"@[0] == 'k');
    assert("up"@.len() == 2 && "down"@.len() == 4 && "uppercase"@.len() == 9 && "lowercase"@.len()
        == 9 && "camelcase"@.len() == 9 && "snakecase"@.len() == 9 && "kebabcase"@.len() == 9);
    assert("pascalcase"@.len() == 10 && "snake_case"@.len() == 10 && "kebab-case"@.len() == 10);
}

} // verus!
