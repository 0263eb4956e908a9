//! Case conversion of lines: letters to upper or lower case, and identifiers
//! from one naming style to another.

use vstd::prelude::*;
use vstd::string::*;
use vstd::utf8::*;

use crate::bytes::{extend, same_bytes};
use crate::encoding::{codec_size, decoded, encoded, is_utf8, Encoding};
use crate::error::{Error, ErrorView};
use crate::text::{
    chars_of, lower, lower_char, push_char, same_text, string_from_utf8, trim_bounds, trimmed,
};

verus! {

#[derive(Clone, Copy, Debug, PartialEq, Eq, Structural)]
pub enum CaseMode {
    Upper,
    Lower,
    Camel,
    Pascal,
    Snake,
    Kebab,
    /// Upper-case words with underscores between them.
    Constant,
}

/// A name without white space around it, in lower case.
pub open spec fn mode_key(s: Seq<char>) -> Seq<char> {
    trimmed(s).map_values(|c: char| lower_char(c))
}

/// The mode that a key names.
pub open spec fn mode_named(k: Seq<char>) -> Option<CaseMode> {
    if k == "upper"@ || k == "uppercase"@ || k == "up"@ {
        Some(CaseMode::Upper)
    } else if k == "lower"@ || k == "lowercase"@ || k == "down"@ {
        Some(CaseMode::Lower)
    } else if k == "camel"@ || k == "camelcase"@ {
        Some(CaseMode::Camel)
    } else if k == "pascal"@ || k == "pascalcase"@ {
        Some(CaseMode::Pascal)
    } else if k == "snake"@ || k == "snakecase"@ || k == "snake_case"@ {
        Some(CaseMode::Snake)
    } else if k == "kebab"@ || k == "kebabcase"@ || k == "kebab-case"@ {
        Some(CaseMode::Kebab)
    } else if k == "constant"@ || k == "constantcase"@ || k == "constant_case"@ || k
        == "upper_snake"@ || k == "screaming_snake"@ {
        Some(CaseMode::Constant)
    } else {
        None
    }
}

impl CaseMode {
    /// The mode that a user names.
    pub fn parse(s: &str) -> (r: Option<CaseMode>)
        ensures
            r == mode_named(mode_key(s@)),
    {
        let chars = chars_of(s);
        let (a, b) = trim_bounds(chars.as_slice());
        let mut key = String::new();
        let mut i: usize = a;
        assert(key@ =~= chars@.subrange(a as int, a as int).map_values(|c: char| lower_char(c)));
        while i < b
            invariant
                a <= i <= b <= chars@.len(),
                key@ == chars@.subrange(a as int, i as int).map_values(|c: char| lower_char(c)),
            decreases b - i,
        {
            push_char(&mut key, lower(chars[i]));
            assert(key@ =~= chars@.subrange(a as int, i + 1).map_values(
                |c: char| lower_char(c),
            ));
            i += 1;
        }
        let k = key.as_str();
        if same_text(k, "upper") || same_text(k, "uppercase") || same_text(k, "up") {
            Some(CaseMode::Upper)
        } else if same_text(k, "lower") || same_text(k, "lowercase") || same_text(k, "down") {
            Some(CaseMode::Lower)
        } else if same_text(k, "camel") || same_text(k, "camelcase") {
            Some(CaseMode::Camel)
        } else if same_text(k, "pascal") || same_text(k, "pascalcase") {
            Some(CaseMode::Pascal)
        } else if same_text(k, "snake") || same_text(k, "snakecase") || same_text(k, "snake_case") {
            Some(CaseMode::Snake)
        } else if same_text(k, "kebab") || same_text(k, "kebabcase") || same_text(k, "kebab-case") {
            Some(CaseMode::Kebab)
        } else if same_text(k, "constant") || same_text(k, "constantcase") || same_text(
            k,
            "constant_case",
        ) || same_text(k, "upper_snake") || same_text(k, "screaming_snake") {
            Some(CaseMode::Constant)
        } else {
            None
        }
    }
}

// ---- letters -----------------------------------------------------------------

pub open spec fn is_upper(b: u8) -> bool {
    65 <= b <= 90
}

pub open spec fn is_lower(b: u8) -> bool {
    97 <= b <= 122
}

pub open spec fn is_digit(b: u8) -> bool {
    48 <= b <= 57
}

pub open spec fn is_alnum(b: u8) -> bool {
    is_upper(b) || is_lower(b) || is_digit(b)
}

pub open spec fn is_separator(b: u8) -> bool {
    b == 95 || b == 45
}

pub open spec fn uppered(b: u8) -> u8 {
    if is_lower(b) {
        (b - 32) as u8
    } else {
        b
    }
}

pub open spec fn lowered(b: u8) -> u8 {
    if is_upper(b) {
        (b + 32) as u8
    } else {
        b
    }
}

fn upper_byte(b: u8) -> (c: u8)
    ensures
        c == uppered(b),
{
    if 97 <= b && b <= 122 {
        b - 32
    } else {
        b
    }
}

fn lower_byte(b: u8) -> (c: u8)
    ensures
        c == lowered(b),
{
    if 65 <= b && b <= 90 {
        b + 32
    } else {
        b
    }
}

fn alnum(b: u8) -> (r: bool)
    ensures
        r == is_alnum(b),
{
    (65 <= b && b <= 90) || (97 <= b && b <= 122) || (48 <= b && b <= 57)
}

/// A byte that starts a two-byte character in Shift_JIS; the byte after it
/// may look like a letter.
pub open spec fn is_lead(b: u8) -> bool {
    0x81 <= b <= 0x9f || 0xe0 <= b <= 0xfc
}

fn lead(b: u8) -> (r: bool)
    ensures
        r == is_lead(b),
{
    (0x81 <= b && b <= 0x9f) || (0xe0 <= b && b <= 0xfc)
}

/// Bytes with their letters in upper or lower case, from `i` on.
pub open spec fn lettered(raw: Seq<u8>, sjis: bool, upper: bool, i: int) -> Seq<u8>
    decreases raw.len() - i,
{
    if i < 0 || i >= raw.len() {
        Seq::empty()
    } else if sjis && is_lead(raw[i]) && i + 1 < raw.len() {
        seq![raw[i], raw[i + 1]] + lettered(raw, sjis, upper, i + 2)
    } else {
        seq![if upper { uppered(raw[i]) } else { lowered(raw[i]) }] + lettered(
            raw,
            sjis,
            upper,
            i + 1,
        )
    }
}

// ---- identifiers -------------------------------------------------------------

/// The end of the identifier that goes on at `j`: letters and digits, with
/// single separators between them.
pub open spec fn run_end(raw: Seq<u8>, j: int) -> int
    decreases raw.len() - j,
{
    if j < 0 || j >= raw.len() {
        j
    } else if is_alnum(raw[j]) || (j + 1 < raw.len() && is_separator(raw[j]) && is_alnum(
        raw[j + 1],
    )) {
        run_end(raw, j + 1)
    } else {
        j
    }
}

/// A word starts at `k` inside an identifier: after a lower-case letter or a
/// digit, or as the last capital of several before a lower-case letter.
pub open spec fn hump_at(run: Seq<u8>, k: int) -> bool {
    let prev = run[k - 1];
    let c = run[k];
    ||| (is_lower(prev) || is_digit(prev)) && is_upper(c)
    ||| is_upper(prev) && is_upper(c) && k + 1 < run.len() && is_lower(run[k + 1])
}

pub open spec fn word_starts(run: Seq<u8>, k: int) -> bool {
    !is_separator(run[k]) && (k == 0 || is_separator(run[k - 1]) || hump_at(run, k))
}

/// What byte `k` of an identifier becomes: separators go, the first letter of
/// each word and the others follow the style.
pub open spec fn styled(run: Seq<u8>, mode: CaseMode, k: int) -> Seq<u8> {
    let c = run[k];
    if is_separator(c) {
        Seq::empty()
    } else if word_starts(run, k) {
        match mode {
            CaseMode::Camel => seq![if k == 0 { lowered(c) } else { uppered(c) }],
            CaseMode::Pascal => seq![uppered(c)],
            CaseMode::Snake => if k == 0 { seq![lowered(c)] } else { seq![95u8, lowered(c)] },
            CaseMode::Kebab => if k == 0 { seq![lowered(c)] } else { seq![45u8, lowered(c)] },
            _ => if k == 0 { seq![uppered(c)] } else { seq![95u8, uppered(c)] },
        }
    } else if mode == CaseMode::Constant {
        seq![uppered(c)]
    } else {
        seq![lowered(c)]
    }
}

/// The first `n` bytes of an identifier in a style.
pub open spec fn restyled(run: Seq<u8>, mode: CaseMode, n: int) -> Seq<u8>
    decreases n,
{
    if n <= 0 {
        Seq::empty()
    } else {
        restyled(run, mode, n - 1) + styled(run, mode, n - 1)
    }
}

/// Bytes with their identifiers in a style, from `i` on.
pub open spec fn worded(raw: Seq<u8>, sjis: bool, mode: CaseMode, i: int) -> Seq<u8>
    decreases raw.len() - i,
    via worded_decreases
{
    if i < 0 || i >= raw.len() {
        Seq::empty()
    } else if sjis && is_lead(raw[i]) && i + 1 < raw.len() {
        seq![raw[i], raw[i + 1]] + worded(raw, sjis, mode, i + 2)
    } else if is_alnum(raw[i]) {
        let e = run_end(raw, i);
        restyled(raw.subrange(i, e), mode, e - i) + worded(raw, sjis, mode, e)
    } else {
        seq![raw[i]] + worded(raw, sjis, mode, i + 1)
    }
}

#[via_fn]
proof fn worded_decreases(raw: Seq<u8>, sjis: bool, mode: CaseMode, i: int) {
    if 0 <= i < raw.len() && is_alnum(raw[i]) {
        lemma_run_end(raw, i + 1);
    }
}

proof fn lemma_run_end(raw: Seq<u8>, j: int)
    requires
        0 <= j <= raw.len(),
    ensures
        j <= run_end(raw, j) <= raw.len(),
    decreases raw.len() - j,
{
    if j < raw.len() {
        lemma_run_end(raw, j + 1);
    }
}

fn identifier_run_end(raw: &[u8], start: usize) -> (e: usize)
    requires
        start < raw@.len(),
    ensures
        e == run_end(raw@, start as int),
        start <= e <= raw@.len(),
{
    let mut j: usize = start;
    while j < raw.len() && (alnum(raw[j]) || (j + 1 < raw.len() && (raw[j] == 95 || raw[j] == 45)
        && alnum(raw[j + 1])))
        invariant
            start <= j <= raw@.len(),
            run_end(raw@, start as int) == run_end(raw@, j as int),
        decreases raw.len() - j,
    {
        j += 1;
    }
    j
}

fn push_converted_run(run: &[u8], mode: CaseMode, out: &mut Vec<u8>)
    ensures
        final(out)@ == old(out)@ + restyled(run@, mode, run@.len() as int),
{
    let ghost o = out@;
    let mut k: usize = 0;
    assert(o + restyled(run@, mode, 0) =~= o);
    while k < run.len()
        invariant
            k <= run@.len(),
            out@ == o + restyled(run@, mode, k as int),
        decreases run.len() - k,
    {
        let c = run[k];
        let ghost before = out@;
        if c != 95 && c != 45 {
            let starts = if k == 0 {
                true
            } else {
                let prev = run[k - 1];
                let prev_upper = 65 <= prev && prev <= 90;
                let prev_small = (97 <= prev && prev <= 122) || (48 <= prev && prev <= 57);
                let c_upper = 65 <= c && c <= 90;
                prev == 95 || prev == 45 || (prev_small && c_upper) || (prev_upper && c_upper && k
                    + 1 < run.len() && 97 <= run[k + 1] && run[k + 1] <= 122)
            };
            assert(starts == word_starts(run@, k as int));
            if starts {
                match mode {
                    CaseMode::Camel => {
                        out.push(
                            if k == 0 {
                                lower_byte(c)
                            } else {
                                upper_byte(c)
                            },
                        );
                    },
                    CaseMode::Pascal => {
                        out.push(upper_byte(c));
                    },
                    CaseMode::Snake => {
                        if k > 0 {
                            out.push(95);
                        }
                        out.push(lower_byte(c));
                    },
                    CaseMode::Kebab => {
                        if k > 0 {
                            out.push(45);
                        }
                        out.push(lower_byte(c));
                    },
                    _ => {
                        if k > 0 {
                            out.push(95);
                        }
                        out.push(upper_byte(c));
                    },
                }
            } else if mode == CaseMode::Constant {
                out.push(upper_byte(c));
            } else {
                out.push(lower_byte(c));
            }
        }
        assert(out@ =~= before + styled(run@, mode, k as int));
        assert(out@ =~= o + restyled(run@, mode, k + 1));
        k += 1;
    }
}

// ---- lines -------------------------------------------------------------------

/// Bytes in a case.
pub open spec fn cased(raw: Seq<u8>, sjis: bool, mode: CaseMode) -> Seq<u8> {
    match mode {
        CaseMode::Upper => lettered(raw, sjis, true, 0),
        CaseMode::Lower => lettered(raw, sjis, false, 0),
        _ => worded(raw, sjis, mode, 0),
    }
}

/// Puts bytes into a case; whether anything changed. Bytes above ASCII stay as
/// they are, and so does, in Shift_JIS, the byte after a lead byte. Bytes of
/// JIS X 0208 text in ISO-2022-JP are in the range of ASCII and are taken for
/// letters.
pub fn case_transform_bytes(raw: &[u8], sjis: bool, mode: CaseMode) -> (r: (Vec<u8>, bool))
    ensures
        r.0@ == cased(raw@, sjis, mode),
        r.1 == (r.0@ != raw@),
{
    let mut out: Vec<u8> = Vec::new();
    let mut i: usize = 0;
    let n = raw.len();
    let letters = mode == CaseMode::Upper || mode == CaseMode::Lower;
    let upper = mode == CaseMode::Upper;
    assert(out@ + cased(raw@, sjis, mode) =~= cased(raw@, sjis, mode));
    while i < n
        invariant
            n == raw@.len(),
            i <= n,
            letters == (mode == CaseMode::Upper || mode == CaseMode::Lower),
            upper == (mode == CaseMode::Upper),
            cased(raw@, sjis, mode) == out@ + if letters {
                lettered(raw@, sjis, upper, i as int)
            } else {
                worded(raw@, sjis, mode, i as int)
            },
        decreases n - i,
    {
        let b = raw[i];
        let ghost before = out@;
        let ghost rest = if letters {
            lettered(raw@, sjis, upper, i as int)
        } else {
            worded(raw@, sjis, mode, i as int)
        };
        if sjis && lead(b) && i + 1 < n {
            out.push(b);
            out.push(raw[i + 1]);
            i += 2;
        } else if letters {
            out.push(
                if upper {
                    upper_byte(b)
                } else {
                    lower_byte(b)
                },
            );
            i += 1;
        } else if alnum(b) {
            let e = identifier_run_end(raw, i);
            proof {
                lemma_run_end(raw@, i + 1);
            }
            let run = vstd::slice::slice_subrange(raw, i, e);
            push_converted_run(run, mode, &mut out);
            i = e;
        } else {
            out.push(b);
            i += 1;
        }
        proof {
            let now = if letters {
                lettered(raw@, sjis, upper, i as int)
            } else {
                worded(raw@, sjis, mode, i as int)
            };
            assert(before + rest =~= out@ + now);
        }
    }
    assert(out@ =~= cased(raw@, sjis, mode));
    let same = same_bytes(out.as_slice(), raw);
    (out, !same)
}

pub open spec fn invalid_result() -> ErrorView {
    ErrorView::InvalidInput("case transform produced invalid UTF-8"@)
}

pub open spec fn unencodable_result(enc: Encoding) -> ErrorView {
    ErrorView::InvalidInput("case transform result cannot be encoded as "@ + enc.label_text())
}

/// A line in a case: its bytes, and whether they differ. UTF-16 has no bytes
/// that stand for letters alone, so its text is converted.
pub open spec fn case_line(enc: Encoding, raw: Seq<u8>, mode: CaseMode) -> Result<
    (Seq<u8>, bool),
    ErrorView,
> {
    if enc.wide() {
        let text = encode_utf8(decoded(enc, raw));
        let out = cased(text, false, mode);
        if out == text {
            Ok((raw, false))
        } else if !valid_utf8(out) {
            Err(invalid_result())
        } else {
            match encoded(enc, decode_utf8(out)) {
                Some(b) => Ok((b, true)),
                None => Err(unencodable_result(enc)),
            }
        }
    } else {
        let out = cased(raw, enc == Encoding::ShiftJis, mode);
        Ok((out, out != raw))
    }
}

/// Puts a line into a case.
pub fn case_transform(raw: &[u8], enc: Encoding, mode: CaseMode) -> (r: Result<
    (Vec<u8>, bool),
    Error,
>)
    requires
        codec_size(raw@.len()),
    ensures
        match r {
            Ok((b, changed)) => case_line(enc, raw@, mode) == Ok::<(Seq<u8>, bool), ErrorView>(
                (b@, changed),
            ),
            Err(e) => case_line(enc, raw@, mode) == Err::<(Seq<u8>, bool), ErrorView>(e@),
        },
{
    if enc.is_wide() {
        let text = enc.decode_line(raw);
        let bytes = text.as_str().as_bytes();
        let (out, changed) = case_transform_bytes(bytes, false, mode);
        if !changed {
            let mut same: Vec<u8> = Vec::new();
            extend(&mut same, raw);
            assert(same@ =~= raw@);
            return Ok((same, false));
        }
        if !is_utf8(out.as_slice()) {
            return Err(Error::InvalidInput("case transform produced invalid UTF-8".to_owned()));
        }
        let converted = string_from_utf8(out);
        return match enc.encode_text(converted.as_str()) {
            Some(b) => Ok((b, true)),
            None => Err(
                Error::InvalidInput(
                    "case transform result cannot be encoded as ".to_owned().concat(enc.label()),
                ),
            ),
        };
    }
    Ok(case_transform_bytes(raw, enc == Encoding::ShiftJis, mode))
}

proof fn lemma_lettered(raw: Seq<u8>, sjis: bool, upper: bool, i: int)
    requires
        0 <= i <= raw.len(),
    ensures
        lettered(raw, sjis, upper, i).len() == raw.len() - i,
    decreases raw.len() - i,
{
    if i < raw.len() {
        if sjis && is_lead(raw[i]) && i + 1 < raw.len() {
            lemma_lettered(raw, sjis, upper, i + 2);
        } else {
            lemma_lettered(raw, sjis, upper, i + 1);
        }
    }
}

/// Upper and lower case keep the length of a line, and every byte that is no
/// letter.
pub proof fn letters_keep_their_places(raw: Seq<u8>, sjis: bool, upper: bool)
    ensures
        lettered(raw, sjis, upper, 0).len() == raw.len(),
        forall|j: int|
            0 <= j < raw.len() && !is_upper(raw[j]) && !is_lower(raw[j]) ==> #[trigger] lettered(
                raw,
                sjis,
                upper,
                0,
            )[j] == raw[j],
{
    lemma_lettered(raw, sjis, upper, 0);
    lemma_letters_kept(raw, sjis, upper, 0);
}

proof fn lemma_letters_kept(raw: Seq<u8>, sjis: bool, upper: bool, i: int)
    requires
        0 <= i <= raw.len(),
    ensures
        forall|j: int|
            i <= j < raw.len() && !is_upper(raw[j]) && !is_lower(raw[j]) ==> lettered(
                raw,
                sjis,
                upper,
                i,
            )[j - i] == #[trigger] raw[j],
    decreases raw.len() - i,
{
    if i < raw.len() {
        let whole = lettered(raw, sjis, upper, i);
        let step: int = if sjis && is_lead(raw[i]) && i + 1 < raw.len() { 2 } else { 1 };
        lemma_letters_kept(raw, sjis, upper, i + step);
        let rest = lettered(raw, sjis, upper, i + step);
        lemma_lettered(raw, sjis, upper, i + step);
        assert forall|j: int| i <= j < raw.len() && !is_upper(raw[j]) && !is_lower(raw[j]) implies
            whole[j - i] == #[trigger] raw[j] by {
            if j >= i + step {
                assert(whole[j - i] == rest[j - i - step]);
            }
        }
    }
}

/// A byte is the second of a two-byte character: the one before it is a lead
/// byte, and not itself a second byte.
pub open spec fn second_byte(raw: Seq<u8>, j: int) -> bool
    decreases j,
{
    0 < j < raw.len() && (0x81 <= raw[j - 1] <= 0x9f || 0xe0 <= raw[j - 1] <= 0xfc)
        && !second_byte(raw, j - 1)
}

proof fn lemma_letter_at(raw: Seq<u8>, sjis: bool, upper: bool, i: int, j: int)
    requires
        0 <= i <= j < raw.len(),
        sjis ==> !second_byte(raw, i),
    ensures
        ({
            let out = lettered(raw, sjis, upper, i)[j - i];
            if sjis && (second_byte(raw, j) || second_byte(raw, j + 1)) {
                out == raw[j]
            } else if upper && 97 <= raw[j] <= 122 {
                out == raw[j] - 32
            } else if !upper && 65 <= raw[j] <= 90 {
                out == raw[j] + 32
            } else {
                out == raw[j]
            }
        }),
    decreases raw.len() - i,
{
    let step: int = if sjis && is_lead(raw[i]) && i + 1 < raw.len() { 2 } else { 1 };
    let rest = lettered(raw, sjis, upper, i + step);
    if j >= i + step {
        lemma_lettered(raw, sjis, upper, i + step);
        reveal_with_fuel(second_byte, 3);
        lemma_letter_at(raw, sjis, upper, i + step, j);
        assert(lettered(raw, sjis, upper, i)[j - i] == rest[j - i - step]);
    }
}

/// Upper case makes every small ASCII letter a capital, and lower case every
/// capital a small letter, at its place; all other bytes stay. In Shift_JIS
/// both bytes of a two-byte character stay. So no capital is left in lower case
/// and no small letter in upper case.
pub proof fn every_letter_changes_its_case(raw: Seq<u8>, sjis: bool)
    ensures
        ({
            let up = cased(raw, sjis, CaseMode::Upper);
            let low = cased(raw, sjis, CaseMode::Lower);
            &&& up.len() == raw.len()
            &&& low.len() == raw.len()
            &&& forall|j: int|
                0 <= j < raw.len() ==> #[trigger] up[j] == if 97 <= raw[j] <= 122 && !(sjis && (
                second_byte(raw, j) || second_byte(raw, j + 1))) {
                    raw[j] - 32
                } else {
                    raw[j] as int
                }
            &&& forall|j: int|
                0 <= j < raw.len() ==> #[trigger] low[j] == if 65 <= raw[j] <= 90 && !(sjis && (
                second_byte(raw, j) || second_byte(raw, j + 1))) {
                    raw[j] + 32
                } else {
                    raw[j] as int
                }
        }),
{
    lemma_lettered(raw, sjis, true, 0);
    lemma_lettered(raw, sjis, false, 0);
    let up = cased(raw, sjis, CaseMode::Upper);
    let low = cased(raw, sjis, CaseMode::Lower);
    assert forall|j: int| 0 <= j < raw.len() implies #[trigger] up[j] == if 97 <= raw[j] <= 122 && !(
    sjis && (second_byte(raw, j) || second_byte(raw, j + 1))) {
        raw[j] - 32
    } else {
        raw[j] as int
    } by {
        lemma_letter_at(raw, sjis, true, 0, j);
    }
    assert forall|j: int| 0 <= j < raw.len() implies #[trigger] low[j] == if 65 <= raw[j] <= 90 && !(
    sjis && (second_byte(raw, j) || second_byte(raw, j + 1))) {
        raw[j] + 32
    } else {
        raw[j] as int
    } by {
        lemma_letter_at(raw, sjis, false, 0, j);
    }
}

} // verus!
