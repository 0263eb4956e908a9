//! Transforms of whole documents, line by line: case conversion, replacement,
//! and keeping the lines that match. Lines do not depend on each other, so
//! that runs of lines can be transformed on worker threads.

use rayon::prelude::{IntoParallelRefIterator, ParallelIterator};

use vstd::prelude::*;
use vstd::string::*;
use vstd::utf8::*;

use crate::bytes::{extend, occurs_at};
use crate::casing::{case_line, case_transform, CaseMode};
use crate::document::{DocView, Document};
use crate::encoding::{codec_size, decoded, encoded, unit_of, units_of, Encoding};
use crate::error::{Error, ErrorView};
use crate::lines::{lemma_lf, lemma_start};
use crate::patterns::{
    byte_matches, bytes_regex_find, char_index, count_before, find_from, is_whole_word,
    is_whole_word_text, is_whole_word_units, is_word_byte, lemma_char_index, planned, regex_replaced, spans_inside,
    spans_view, text_matches, text_regex_find, text_regex_replace, whole_word, whole_word_text, whole_word_units,
    word_byte, MatchPlan, PlanView,
};
use crate::search::{lemma_next_at, lemma_next_is, next_at, stride_at};
use crate::sort::{add_capped, word64};
use crate::text::chars_of;
use crate::walk::{
    boundary_at_or_after, char_before, is_legacy_char_boundary_in_line, is_legacy_multibyte, legacy,
    walk_to,
};

verus! {

/// How many lines are handled at a time.
pub const BATCH: u64 = 8192;

/// How many lines a run has that a worker takes, unless another number is
/// given.
pub const DEFAULT_PARALLEL_REPLACE_CHUNK_LINES: u64 = 4_000_000;

#[derive(Clone, Debug)]
pub struct CaseOptions {
    pub mode: CaseMode,
}

#[derive(Clone, Debug)]
pub struct ReplaceOptions {
    pub find: String,
    pub replacement: String,
    pub regex: bool,
    pub case_sensitive: bool,
}

#[derive(Clone, Debug)]
pub struct GrepLinesOptions {
    pub query: String,
    pub regex: bool,
    pub case_sensitive: bool,
    pub whole_word: bool,
    pub overwrite: bool,
}

#[derive(Clone, Debug)]
pub struct ParallelReplaceOptions {
    /// Worker threads; 1 means none, 0 means as many as there are.
    pub jobs: usize,
    /// Lines of a run.
    pub chunk_lines: u64,
}

impl Default for ParallelReplaceOptions {
    fn default() -> (o: ParallelReplaceOptions)
        ensures
            o.jobs == 0,
            o.chunk_lines == DEFAULT_PARALLEL_REPLACE_CHUNK_LINES,
    {
        ParallelReplaceOptions { jobs: 0, chunk_lines: DEFAULT_PARALLEL_REPLACE_CHUNK_LINES }
    }
}

/// What is done to every line.
#[derive(Clone, Debug)]
pub enum LineRule {
    Case { mode: CaseMode },
    /// Bytes are replaced by bytes.
    Literal { needle: Vec<u8>, replacement: Vec<u8> },
    /// The matches of a regex on the text of the line are replaced.
    Regex { pattern: String, insensitive: bool, with: String },
    /// Lines without a match go.
    Keep { plan: MatchPlan, whole_word: bool },
}

#[verifier::ext_equal]
pub enum RuleView {
    Case(CaseMode),
    Literal(Seq<u8>, Seq<u8>),
    Regex(Seq<char>, bool, Seq<char>),
    Keep(PlanView, bool),
}

impl View for LineRule {
    type V = RuleView;

    open spec fn view(&self) -> RuleView {
        match self {
            LineRule::Case { mode } => RuleView::Case(*mode),
            LineRule::Literal { needle, replacement } => RuleView::Literal(needle@, replacement@),
            LineRule::Regex { pattern, insensitive, with } => RuleView::Regex(
                pattern@,
                *insensitive,
                with@,
            ),
            LineRule::Keep { plan, whole_word } => RuleView::Keep(plan@, *whole_word),
        }
    }
}

impl RuleView {
    /// The engine takes the pattern.
    pub open spec fn runs(self) -> bool {
        match self {
            RuleView::Regex(p, i, _) => PlanView::DecodeLine(p, i).runs(),
            RuleView::Keep(plan, _) => plan.runs(),
            _ => true,
        }
    }
}

// ---- one line ----------------------------------------------------------------

/// An occurrence in a line is replaced: in UTF-16 only where a code unit starts,
/// and in encodings whose trail bytes look like other characters only where a
/// character starts.
pub open spec fn replaces_at(enc: Encoding, raw: Seq<u8>, p: int) -> bool {
    &&& enc.wide() ==> p % 2 == 0
    &&& legacy(enc) ==> boundary_at_or_after(enc, raw, 0, p) == p
}

/// A line from `pos` on with its occurrences of a needle replaced, and how many
/// there were.
pub open spec fn raw_replaced(
    enc: Encoding,
    raw: Seq<u8>,
    needle: Seq<u8>,
    replacement: Seq<u8>,
    pos: int,
) -> (Seq<u8>, nat)
    decreases raw.len() + 1 - pos,
    when 0 <= pos <= raw.len()
    via raw_replaced_decreases
{
    match next_at(raw, needle, pos) {
        Some(p) if needle.len() > 0 => if replaces_at(enc, raw, p) {
            let rest = raw_replaced(enc, raw, needle, replacement, p + needle.len());
            (raw.subrange(pos, p) + replacement + rest.0, rest.1 + 1)
        } else {
            let rest = raw_replaced(enc, raw, needle, replacement, p + 1);
            (raw.subrange(pos, p + 1) + rest.0, rest.1)
        },
        _ => (raw.skip(pos), 0),
    }
}

#[via_fn]
proof fn raw_replaced_decreases(
    enc: Encoding,
    raw: Seq<u8>,
    needle: Seq<u8>,
    replacement: Seq<u8>,
    pos: int,
) {
    lemma_next_at(raw, needle, pos);
}

fn write_raw_replaced(enc: Encoding, raw: &[u8], needle: &[u8], replacement: &[u8]) -> (r: (
    Vec<u8>,
    u64,
))
    ensures
        (r.0@, r.1 as nat) == raw_replaced(enc, raw@, needle@, replacement@, 0),
{
    let ghost all = raw_replaced(enc, raw@, needle@, replacement@, 0);
    let validate = is_legacy_multibyte(enc);
    let wide = enc.is_wide();
    let n = raw.len();
    let mut out: Vec<u8> = Vec::new();
    let mut count: u64 = 0;
    let mut pos: usize = 0;
    let mut more = needle.len() > 0;
    assert(out@ + all.0 =~= all.0);
    while more
        invariant
            n == raw@.len(),
            pos <= n,
            more ==> needle@.len() > 0,
            validate == legacy(enc),
            wide == enc.wide(),
            count <= pos,
            ({
                let rest = raw_replaced(enc, raw@, needle@, replacement@, pos as int);
                &&& all.0 == out@ + rest.0
                &&& all.1 == count + rest.1
                &&& !more ==> rest == (raw@.skip(pos as int), 0nat)
            }),
        decreases (if more { n + 1 - pos } else { 0 }),
    {
        let ghost before = out@;
        match find_from(raw, needle, pos) {
            Some(p) => {
                proof {
                    lemma_next_is(raw@, needle@, pos as int, p as int);
                }
                if (wide && p % 2 != 0) || (validate && !is_legacy_char_boundary_in_line(enc, raw, p)) {
                    extend(&mut out, vstd::slice::slice_subrange(raw, pos, p + 1));
                    let ghost rest = raw_replaced(enc, raw@, needle@, replacement@, p + 1);
                    assert(before + (raw@.subrange(pos as int, p + 1) + rest.0) =~= out@ + rest.0);
                    pos = p + 1;
                } else {
                    extend(&mut out, vstd::slice::slice_subrange(raw, pos, p));
                    extend(&mut out, replacement);
                    let ghost rest = raw_replaced(
                        enc,
                        raw@,
                        needle@,
                        replacement@,
                        p + needle@.len(),
                    );
                    assert(before + (raw@.subrange(pos as int, p as int) + replacement@ + rest.0)
                        =~= out@ + rest.0);
                    pos = p + needle.len();
                    count += 1;
                }
            },
            None => {
                proof {
                    lemma_next_at(raw@, needle@, pos as int);
                }
                more = false;
            },
        }
    }
    extend(&mut out, vstd::slice::slice_subrange(raw, pos, n));
    assert(raw@.skip(pos as int) =~= raw@.subrange(pos as int, n as int));
    assert(out@ =~= all.0);
    (out, count)
}

/// Units from `i` on with the runs that equal a needle replaced, and how many
/// there were.
pub open spec fn units_replaced(
    units: Seq<u16>,
    needle: Seq<u16>,
    replacement: Seq<u16>,
    i: int,
) -> (Seq<u16>, nat)
    decreases units.len() - i,
{
    if i < 0 || needle.len() == 0 || i + needle.len() > units.len() {
        (units.skip(i), 0)
    } else if units.subrange(i, i + needle.len()) == needle {
        let rest = units_replaced(units, needle, replacement, i + needle.len());
        (replacement + rest.0, rest.1 + 1)
    } else {
        let rest = units_replaced(units, needle, replacement, i + 1);
        (seq![units[i]] + rest.0, rest.1)
    }
}

/// Equal units are equal bytes.
proof fn lemma_units_occur(raw: Seq<u8>, needle: Seq<u8>, le: bool, i: int)
    requires
        0 <= i,
        needle.len() % 2 == 0,
        2 * i + needle.len() <= raw.len(),
    ensures
        occurs_at(raw, needle, 2 * i) <==> units_of(raw, le).subrange(
            i,
            i + needle.len() / 2,
        ) == units_of(needle, le),
{
    let part = units_of(raw, le).subrange(i, i + needle.len() / 2);
    let want = units_of(needle, le);
    if part == want {
        assert forall|k: int| 0 <= k < needle.len() implies raw[2 * i + k] == #[trigger] needle[k] by {
            let j = k / 2;
            assert(part[j] == want[j]);
            assert(part[j] == unit_of(raw[2 * (i + j)], raw[2 * (i + j) + 1], le));
            assert(want[j] == unit_of(needle[2 * j], needle[2 * j + 1], le));
        }
        assert(raw.subrange(2 * i, 2 * i + needle.len()) =~= needle);
    }
    if occurs_at(raw, needle, 2 * i) {
        assert forall|j: int| 0 <= j < want.len() implies #[trigger] part[j] == want[j] by {
            assert(raw.subrange(2 * i, 2 * i + needle.len())[2 * j] == needle[2 * j]);
            assert(raw.subrange(2 * i, 2 * i + needle.len())[2 * j + 1] == needle[2 * j + 1]);
        }
        assert(part =~= want);
    }
}

/// Where no unit starts an occurrence, the unit stays.
proof fn lemma_unit_stays(
    enc: Encoding,
    raw: Seq<u8>,
    needle: Seq<u8>,
    replacement: Seq<u8>,
    pos: int,
)
    requires
        enc.wide(),
        needle.len() > 0,
        0 <= pos,
        pos % 2 == 0,
        pos + 2 <= raw.len(),
        !occurs_at(raw, needle, pos),
    ensures
        ({
            let rest = raw_replaced(enc, raw, needle, replacement, pos + 2);
            raw_replaced(enc, raw, needle, replacement, pos) == (
                raw.subrange(pos, pos + 2) + rest.0,
                rest.1,
            )
        }),
{
    lemma_next_at(raw, needle, pos);
    let rest = raw_replaced(enc, raw, needle, replacement, pos + 2);
    let all = raw_replaced(enc, raw, needle, replacement, pos);
    match next_at(raw, needle, pos) {
        None => {
            lemma_next_at(raw, needle, pos + 2);
            assert(next_at(raw, needle, pos + 2) is None);
            assert(raw.skip(pos) =~= raw.subrange(pos, pos + 2) + raw.skip(pos + 2));
        },
        Some(p) => {
            if p > pos + 1 {
                lemma_next_is(raw, needle, pos + 2, p);
                let to = if replaces_at(enc, raw, p) { p } else { p + 1 };
                assert(raw.subrange(pos, to) =~= raw.subrange(pos, pos + 2) + raw.subrange(
                    pos + 2,
                    to,
                ));
                assert(all.0 =~= raw.subrange(pos, pos + 2) + rest.0);
            }
        },
    }
}

/// In UTF-16 a replacement works on units: what is replaced are the runs of
/// units that equal those of the needle, and no unit is taken apart.
pub proof fn replacement_in_utf16_is_by_units(
    enc: Encoding,
    raw: Seq<u8>,
    needle: Seq<u8>,
    replacement: Seq<u8>,
    i: int,
)
    requires
        enc.wide(),
        needle.len() % 2 == 0,
        replacement.len() % 2 == 0,
        0 <= 2 * i <= raw.len(),
    ensures
        ({
            let le = enc == Encoding::Utf16Le;
            let bytes = raw_replaced(enc, raw, needle, replacement, 2 * i);
            let units = units_replaced(
                units_of(raw, le),
                units_of(needle, le),
                units_of(replacement, le),
                i,
            );
            units_of(bytes.0, le) == units.0 && bytes.1 == units.1
        }),
    decreases raw.len() - 2 * i,
{
    let le = enc == Encoding::Utf16Le;
    let (u, n, r) = (units_of(raw, le), units_of(needle, le), units_of(replacement, le));
    let pos = 2 * i;
    let bytes = raw_replaced(enc, raw, needle, replacement, pos);
    let units = units_replaced(u, n, r, i);
    lemma_next_at(raw, needle, pos);
    if needle.len() == 0 || pos + needle.len() > raw.len() {
        assert(bytes == (raw.skip(pos), 0nat));
        assert(units == (u.skip(i), 0nat));
        assert(units_of(raw.skip(pos), le) =~= u.skip(i));
    } else {
        lemma_units_occur(raw, needle, le, i);
        if occurs_at(raw, needle, pos) {
            lemma_next_is(raw, needle, pos, pos);
            let next = i + n.len();
            replacement_in_utf16_is_by_units(enc, raw, needle, replacement, next);
            let rest = raw_replaced(enc, raw, needle, replacement, pos + needle.len());
            assert(bytes.0 =~= replacement + rest.0);
            assert(units_of(replacement + rest.0, le) =~= r + units_of(rest.0, le));
        } else {
            lemma_unit_stays(enc, raw, needle, replacement, pos);
            replacement_in_utf16_is_by_units(enc, raw, needle, replacement, i + 1);
            let rest = raw_replaced(enc, raw, needle, replacement, pos + 2);
            let head = raw.subrange(pos, pos + 2);
            assert(units_of(head + rest.0, le) =~= seq![u[i]] + units_of(rest.0, le));
        }
    }
}

/// The first byte of the character that ends where an occurrence starts.
pub open spec fn line_before(enc: Encoding, raw: Seq<u8>, s: int) -> Option<u8> {
    if boundary_at_or_after(enc, raw, 0, s) == s {
        match char_before(enc, raw, 0, s, None) {
            Some(i) => Some(raw[i]),
            None => None,
        }
    } else {
        None
    }
}

/// The byte at which an occurrence ends, if a character does.
pub open spec fn line_after(enc: Encoding, raw: Seq<u8>, s: int, e: int) -> Option<u8> {
    if boundary_at_or_after(enc, raw, s, e) == e && e < raw.len() {
        Some(raw[e])
    } else {
        None
    }
}

/// An occurrence of a literal query in a line counts as a match.
pub open spec fn line_accepts(enc: Encoding, raw: Seq<u8>, ww: bool, s: int, len: int) -> bool {
    &&& enc.wide() ==> s % 2 == 0
    &&& legacy(enc) ==> boundary_at_or_after(enc, raw, 0, s) == s
    &&& ww ==> if legacy(enc) {
        &&& !(line_before(enc, raw, s) matches Some(b) && word_byte(b))
        &&& !(line_after(enc, raw, s, s + len) matches Some(b) && word_byte(b))
    } else if enc.wide() {
        whole_word_units(enc, raw, s, len)
    } else {
        whole_word(raw, s, len)
    }
}

/// A literal query matches in a line from `from` on.
pub open spec fn literal_in_line(
    enc: Encoding,
    raw: Seq<u8>,
    needle: Seq<u8>,
    ww: bool,
    from: int,
) -> bool
    decreases raw.len() + 1 - from,
    when 0 <= from
    via literal_in_line_decreases
{
    match next_at(raw, needle, from) {
        None => false,
        Some(p) => line_accepts(enc, raw, ww, p, needle.len() as int) || literal_in_line(
            enc,
            raw,
            needle,
            ww,
            p + stride_at(enc, needle, p),
        ),
    }
}

#[via_fn]
proof fn literal_in_line_decreases(
    enc: Encoding,
    raw: Seq<u8>,
    needle: Seq<u8>,
    ww: bool,
    from: int,
) {
    lemma_next_at(raw, needle, from);
}

/// A line matches a plan.
pub open spec fn line_matches(enc: Encoding, raw: Seq<u8>, plan: PlanView, ww: bool) -> bool {
    match plan {
        PlanView::Literal(needle) => literal_in_line(enc, raw, needle, ww, 0),
        PlanView::Bytes(p, i) => {
            let ms = byte_matches(p, i, raw);
            exists|k: int|
                0 <= k < ms.len() && span_counts(raw, ww, #[trigger] ms[k])
        },
        PlanView::DecodeLine(p, i) => {
            let text = decoded(enc, raw);
            let ms = text_matches(p, i, text);
            exists|k: int|
                0 <= k < ms.len() && text_span_counts(text, ww, #[trigger] ms[k])
        },
    }
}

/// A match of a regex on bytes counts.
pub open spec fn span_counts(raw: Seq<u8>, ww: bool, m: (int, int)) -> bool {
    m.1 > m.0 && (ww ==> whole_word(raw, m.0, m.1 - m.0))
}

/// A match of a regex on a text counts.
pub open spec fn text_span_counts(text: Seq<char>, ww: bool, m: (int, int)) -> bool {
    m.1 > m.0 && (ww ==> whole_word_text(
        text,
        char_index(text, m.0) as int,
        char_index(text, m.1) as int,
    ))
}

fn is_line_accepted(enc: Encoding, raw: &[u8], ww: bool, s: usize, len: usize) -> (b: bool)
    requires
        s + len <= raw@.len(),
    ensures
        b == line_accepts(enc, raw@, ww, s as int, len as int),
{
    let n = raw.len();
    if enc.is_wide() && s % 2 != 0 {
        return false;
    }
    let walks = is_legacy_multibyte(enc);
    if walks && !is_legacy_char_boundary_in_line(enc, raw, s) {
        return false;
    }
    if !ww {
        return true;
    }
    if enc.is_wide() {
        return is_whole_word_units(enc, raw, s, len);
    }
    if !walks {
        return is_whole_word(raw, s, len);
    }
    let (p, prev) = walk_to(enc, raw, 0, s);
    let before = match prev {
        Some(i) => p == s && is_word_byte(raw[i]),
        None => false,
    };
    let (q, _) = walk_to(enc, raw, s, s + len);
    let after = q == s + len && q < n && is_word_byte(raw[q]);
    !before && !after
}

fn literal_has_match(enc: Encoding, raw: &[u8], needle: &[u8], ww: bool) -> (b: bool)
    ensures
        b == literal_in_line(enc, raw@, needle@, ww, 0),
{
    let n = raw.len();
    let mut from: usize = 0;
    while from <= n
        invariant
            n == raw@.len(),
            literal_in_line(enc, raw@, needle@, ww, 0) == literal_in_line(
                enc,
                raw@,
                needle@,
                ww,
                from as int,
            ),
        decreases n + 1 - from,
    {
        match find_from(raw, needle, from) {
            Some(p) => {
                proof {
                    lemma_next_is(raw@, needle@, from as int, p as int);
                }
                if is_line_accepted(enc, raw, ww, p, needle.len()) {
                    return true;
                }
                if needle.len() == 0 {
                    if p == n {
                        assert(next_at(raw@, needle@, p + 1) is None);
                        assert(!literal_in_line(enc, raw@, needle@, ww, p + 1));
                        return false;
                    }
                    from = p + 1;
                } else if enc.is_wide() && p % 2 != 0 {
                    from = p + 1;
                } else {
                    from = p + needle.len();
                }
            },
            None => {
                proof {
                    lemma_next_at(raw@, needle@, from as int);
                }
                return false;
            },
        }
    }
    false
}

/// Whether one of the matches of a regex on bytes counts.
fn any_span_counts(raw: &[u8], ww: bool, spans: &Vec<(usize, usize)>) -> (b: bool)
    requires
        spans_inside(spans@, raw@.len()),
    ensures
        b == (exists|k: int|
            0 <= k < spans@.len() && span_counts(raw@, ww, #[trigger] spans_view(spans@)[k])),
{
    let n = raw.len();
    let mut i: usize = 0;
    while i < spans.len()
        invariant
            n == raw@.len(),
            i <= spans@.len(),
            spans_inside(spans@, raw@.len()),
            forall|k: int|
                0 <= k < i ==> !span_counts(raw@, ww, #[trigger] spans_view(spans@)[k]),
        decreases spans.len() - i,
    {
        let (a, b) = spans[i];
        assert(spans@[i as int].0 <= spans@[i as int].1 <= n);
        assert(spans_view(spans@)[i as int] == (a as int, b as int));
        if b > a && (!ww || is_whole_word(raw, a, b - a)) {
            return true;
        }
        i += 1;
    }
    false
}

/// Whether one of the matches of a regex on a text counts.
fn any_text_span_counts(text: &String, ww: bool, spans: &Vec<(usize, usize)>) -> (b: bool)
    requires
        spans_inside(spans@, encode_utf8(text@).len()),
    ensures
        b == (exists|k: int|
            0 <= k < spans@.len() && text_span_counts(text@, ww, #[trigger] spans_view(spans@)[k])),
{
    let chars = chars_of(text.as_str());
    let mut i: usize = 0;
    while i < spans.len()
        invariant
            i <= spans@.len(),
            chars@ == text@,
            spans_inside(spans@, encode_utf8(text@).len()),
            forall|k: int|
                0 <= k < i ==> !text_span_counts(text@, ww, #[trigger] spans_view(spans@)[k]),
        decreases spans.len() - i,
    {
        let (a, b) = spans[i];
        assert(spans@[i as int].0 <= spans@[i as int].1);
        assert(spans_view(spans@)[i as int] == (a as int, b as int));
        proof {
            lemma_char_index(text@, a as int, b as int);
        }
        if b > a {
            if !ww {
                return true;
            }
            let cs = count_before(&chars, a);
            let ce = count_before(&chars, b);
            if is_whole_word_text(&chars, cs, ce) {
                return true;
            }
        }
        i += 1;
    }
    false
}

// ---- what a rule makes of a line ---------------------------------------------

/// What becomes of a line: its bytes, whether it changed, and how many
/// replacements were made.
pub struct LineOut {
    pub bytes: Seq<u8>,
    pub changed: bool,
    pub count: nat,
}

pub open spec fn unencodable_replacement(enc: Encoding) -> ErrorView {
    ErrorView::InvalidInput("replacement result cannot be encoded as "@ + enc.label_text())
}

/// What a rule makes of a line and its terminator. Only a rule that keeps the
/// matching lines touches terminators: those of the other lines go with them.
pub open spec fn line_out(enc: Encoding, rule: RuleView, raw: Seq<u8>, term: Seq<u8>) -> Result<
    LineOut,
    ErrorView,
> {
    match rule {
        RuleView::Case(mode) => match case_line(enc, raw, mode) {
            Ok((b, changed)) => Ok(LineOut { bytes: b + term, changed, count: 0 }),
            Err(e) => Err(e),
        },
        RuleView::Literal(needle, replacement) => {
            let (b, n) = raw_replaced(enc, raw, needle, replacement, 0);
            Ok(LineOut { bytes: b + term, changed: n > 0, count: n })
        },
        RuleView::Regex(p, i, replacement) => {
            let text = decoded(enc, raw);
            let n = text_matches(p, i, text).len();
            if n == 0 {
                Ok(LineOut { bytes: raw + term, changed: false, count: 0 })
            } else {
                match encoded(enc, regex_replaced(p, i, text, replacement)) {
                    Some(b) => Ok(LineOut { bytes: b + term, changed: true, count: n }),
                    None => Err(unencodable_replacement(enc)),
                }
            }
        },
        RuleView::Keep(plan, ww) => if line_matches(enc, raw, plan, ww) {
            Ok(LineOut { bytes: raw + term, changed: true, count: 0 })
        } else {
            Ok(LineOut { bytes: Seq::empty(), changed: false, count: 0 })
        },
    }
}

/// What was made of several lines.
#[verifier::ext_equal]
pub struct RunOut {
    pub bytes: Seq<u8>,
    pub changed: nat,
    pub count: nat,
}

impl RunOut {
    pub open spec fn then_line(self, x: LineOut) -> RunOut {
        RunOut {
            bytes: self.bytes + x.bytes,
            changed: self.changed + if x.changed { 1nat } else { 0nat },
            count: self.count + x.count,
        }
    }

    pub open spec fn then_run(self, x: RunOut) -> RunOut {
        RunOut {
            bytes: self.bytes + x.bytes,
            changed: self.changed + x.changed,
            count: self.count + x.count,
        }
    }
}

pub open spec fn nothing_out() -> RunOut {
    RunOut { bytes: Seq::empty(), changed: 0, count: 0 }
}

/// What a rule makes of the lines from `from` up to `to`; the fault of the
/// first line that it cannot transform.
pub open spec fn run_out(doc: DocView, rule: RuleView, from: int, to: int) -> Result<
    RunOut,
    ErrorView,
>
    decreases to - from,
{
    if from >= to {
        Ok(nothing_out())
    } else {
        match run_out(doc, rule, from, to - 1) {
            Err(e) => Err(e),
            Ok(o) => match line_out(
                doc.encoding,
                rule,
                doc.raw((to - 1) as nat),
                doc.term((to - 1) as nat),
            ) {
                Err(e) => Err(e),
                Ok(x) => Ok(o.then_line(x)),
            },
        }
    }
}

/// One run after the other.
pub open spec fn run_after(a: Result<RunOut, ErrorView>, b: Result<RunOut, ErrorView>) -> Result<
    RunOut,
    ErrorView,
> {
    match a {
        Err(e) => Err(e),
        Ok(x) => match b {
            Err(e) => Err(e),
            Ok(y) => Ok(x.then_run(y)),
        },
    }
}

/// Runs of lines can be transformed apart: put one after the other, they are
/// what the whole becomes.
pub proof fn runs_are_independent(doc: DocView, rule: RuleView, a: int, b: int, c: int)
    requires
        a <= b <= c,
    ensures
        run_out(doc, rule, a, c) == run_after(
            run_out(doc, rule, a, b),
            run_out(doc, rule, b, c),
        ),
    decreases c - b,
{
    if b == c {
        if let Ok(x) = run_out(doc, rule, a, b) {
            assert(x.then_run(nothing_out()) =~= x);
        }
    } else {
        runs_are_independent(doc, rule, a, b, c - 1);
        if let Ok(x) = run_out(doc, rule, a, b) {
            if let Ok(y) = run_out(doc, rule, b, c - 1) {
                if let Ok(z) = line_out(
                    doc.encoding,
                    rule,
                    doc.raw((c - 1) as nat),
                    doc.term((c - 1) as nat),
                ) {
                    assert(x.then_run(y).then_line(z) =~= x.then_run(y.then_line(z)));
                }
            }
        }
    }
}

// ---- runs --------------------------------------------------------------------

/// What was made of some lines.
#[derive(Debug)]
pub struct Transformed {
    pub bytes: Vec<u8>,
    pub changed_lines: u64,
    /// How many replacements were made, as far as they can be counted.
    pub replacements: u64,
}

/// A number as far as 64 bits count.
pub open spec fn counted(n: nat) -> u64 {
    if n <= u64::MAX {
        n as u64
    } else {
        u64::MAX
    }
}

pub open spec fn is_run(t: Transformed, r: RunOut) -> bool {
    &&& t.bytes@ == r.bytes
    &&& t.changed_lines == r.changed
    &&& t.replacements == counted(r.count)
}

/// A result is the one that was to be.
pub open spec fn is_outcome(r: Result<Transformed, Error>, want: Result<RunOut, ErrorView>) -> bool {
    match r {
        Ok(t) => want is Ok && is_run(t, want->Ok_0),
        Err(e) => want is Err && want->Err_0 == e@,
    }
}

/// One line, as it comes out.
struct LineDone {
    bytes: Vec<u8>,
    changed: bool,
    count: u64,
}

spec fn is_line(x: LineDone, want: LineOut) -> bool {
    &&& x.bytes@ == want.bytes
    &&& x.changed == want.changed
    &&& x.count == counted(want.count)
}

/// What the regex engine says of the lines of a batch, as far as the rule asks
/// it.
struct Answers {
    texts: Vec<String>,
    found: Vec<Vec<(usize, usize)>>,
    replaced: Vec<String>,
}

/// The answers are those for lines from `from` on.
spec fn answers(a: Answers, doc: DocView, rule: RuleView, from: int, n: int) -> bool {
    match rule {
        RuleView::Regex(p, i, replacement) => {
            &&& a.found@.len() == n
            &&& a.replaced@.len() == n
            &&& forall|j: int|
                0 <= j < n ==> spans_view((#[trigger] a.found@[j])@) == text_matches(
                    p,
                    i,
                    doc.text((from + j) as nat),
                )
            &&& forall|j: int|
                0 <= j < n ==> (#[trigger] a.replaced@[j])@ == regex_replaced(
                    p,
                    i,
                    doc.text((from + j) as nat),
                    replacement,
                )
        },
        RuleView::Keep(PlanView::Bytes(p, i), _) => {
            &&& a.found@.len() == n
            &&& forall|j: int|
                0 <= j < n ==> {
                    &&& spans_view((#[trigger] a.found@[j])@) == byte_matches(
                        p,
                        i,
                        doc.raw((from + j) as nat),
                    )
                    &&& spans_inside(a.found@[j]@, doc.raw((from + j) as nat).len())
                }
        },
        RuleView::Keep(PlanView::DecodeLine(p, i), _) => {
            &&& a.texts@.len() == n
            &&& a.found@.len() == n
            &&& forall|j: int|
                0 <= j < n ==> (#[trigger] a.texts@[j])@ == doc.text((from + j) as nat)
            &&& forall|j: int|
                0 <= j < n ==> {
                    &&& spans_view((#[trigger] a.found@[j])@) == text_matches(
                        p,
                        i,
                        doc.text((from + j) as nat),
                    )
                    &&& spans_inside(
                        a.found@[j]@,
                        encode_utf8(doc.text((from + j) as nat)).len(),
                    )
                }
        },
        _ => true,
    }
}

proof fn lemma_raw_size(doc: DocView, i: nat)
    requires
        doc.valid(),
    ensures
        codec_size(doc.raw(i).len()),
        doc.raw(i).len() <= doc.buf.len(),
{
    lemma_start(doc.buf, doc.newline(), doc.base, i);
    lemma_lf(doc.buf, doc.newline(), doc.start(i));
}

/// Asks the regex engine what the rule needs of the lines of a batch.
fn ask<'a>(doc: &Document<'a>, rule: &LineRule, batch: &Vec<(u64, &'a [u8], &'a [u8])>, Ghost(
    from,
): Ghost<int>) -> (a: Answers)
    requires
        doc.wf(),
        rule@.runs(),
        forall|j: int|
            0 <= j < batch@.len() ==> (#[trigger] batch@[j]).1@ == doc@.raw((from + j) as nat),
    ensures
        answers(a, doc@, rule@, from, batch@.len() as int),
{
    proof {
        doc.lemma_wf();
    }
    let enc = doc.encoding();
    let needs_texts = match rule {
        LineRule::Regex { .. } => true,
        LineRule::Keep { plan: MatchPlan::DecodeLine { .. }, .. } => true,
        _ => false,
    };
    let mut texts: Vec<String> = Vec::new();
    if needs_texts {
        let mut i: usize = 0;
        while i < batch.len()
            invariant
                i <= batch@.len(),
                enc == doc@.encoding,
                doc@.valid(),
                texts@.len() == i,
                forall|j: int|
                    0 <= j < batch@.len() ==> (#[trigger] batch@[j]).1@ == doc@.raw(
                        (from + j) as nat,
                    ),
                forall|j: int|
                    0 <= j < i ==> (#[trigger] texts@[j])@ == doc@.text((from + j) as nat),
            decreases batch.len() - i,
        {
            let raw = batch[i].1;
            proof {
                assert(batch@[i as int].1@ == doc@.raw((from + i) as nat));
                lemma_raw_size(doc@, (from + i) as nat);
            }
            texts.push(enc.decode_line(raw));
            i += 1;
        }
    }
    match rule {
        LineRule::Regex { pattern, insensitive, with } => {
            let found = text_regex_find(pattern.as_str(), *insensitive, &texts);
            let replaced = text_regex_replace(
                pattern.as_str(),
                *insensitive,
                &texts,
                with.as_str(),
            );
            assert forall|j: int| 0 <= j < texts@.len() implies spans_view(
                (#[trigger] found@[j])@,
            ) == text_matches(pattern@, *insensitive, doc@.text((from + j) as nat)) by {
                assert(texts@[j]@ == doc@.text((from + j) as nat));
            }
            assert forall|j: int| 0 <= j < texts@.len() implies (#[trigger] replaced@[j])@
                == regex_replaced(
                pattern@,
                *insensitive,
                doc@.text((from + j) as nat),
                with@,
            ) by {
                assert(texts@[j]@ == doc@.text((from + j) as nat));
            }
            Answers { texts, found, replaced }
        },
        LineRule::Keep { plan: MatchPlan::DecodeLine { pattern, insensitive }, .. } => {
            let found = text_regex_find(pattern.as_str(), *insensitive, &texts);
            assert forall|j: int| 0 <= j < texts@.len() implies {
                &&& spans_view((#[trigger] found@[j])@) == text_matches(
                    pattern@,
                    *insensitive,
                    doc@.text((from + j) as nat),
                )
                &&& spans_inside(found@[j]@, encode_utf8(doc@.text((from + j) as nat)).len())
            } by {
                assert(texts@[j]@ == doc@.text((from + j) as nat));
            }
            Answers { texts, found, replaced: Vec::new() }
        },
        LineRule::Keep { plan: MatchPlan::Bytes { pattern, insensitive }, .. } => {
            let mut hays: Vec<&[u8]> = Vec::new();
            let mut i: usize = 0;
            while i < batch.len()
                invariant
                    i <= batch@.len(),
                    hays@.len() == i,
                    forall|j: int|
                        0 <= j < batch@.len() ==> (#[trigger] batch@[j]).1@ == doc@.raw(
                            (from + j) as nat,
                        ),
                    forall|j: int|
                        0 <= j < i ==> (#[trigger] hays@[j])@ == doc@.raw((from + j) as nat),
                decreases batch.len() - i,
            {
                hays.push(batch[i].1);
                i += 1;
            }
            let n = doc.buf().len();
            let found = bytes_regex_find(pattern.as_str(), *insensitive, &hays, n + 2);
            assert forall|j: int| 0 <= j < hays@.len() implies {
                &&& spans_view((#[trigger] found@[j])@) == byte_matches(
                    pattern@,
                    *insensitive,
                    doc@.raw((from + j) as nat),
                )
                &&& spans_inside(found@[j]@, doc@.raw((from + j) as nat).len())
            } by {
                assert(hays@[j]@ == doc@.raw((from + j) as nat));
                lemma_raw_size(doc@, (from + j) as nat);
                assert(found@[j]@.len() <= n + 1);
            }
            Answers { texts, found, replaced: Vec::new() }
        },
        _ => Answers { texts, found: Vec::new(), replaced: Vec::new() },
    }
}

/// Applies a rule to line `k` of a batch.
fn apply_line(
    doc: &Document,
    rule: &LineRule,
    raw: &[u8],
    term: &[u8],
    a: &Answers,
    k: usize,
    Ghost(from): Ghost<int>,
    Ghost(n): Ghost<int>,
) -> (r: Result<LineDone, Error>)
    requires
        doc.wf(),
        0 <= k < n,
        raw@ == doc@.raw((from + k) as nat),
        term@ == doc@.term((from + k) as nat),
        answers(*a, doc@, rule@, from, n),
    ensures
        match r {
            Ok(x) => line_out(doc@.encoding, rule@, raw@, term@) is Ok && is_line(
                x,
                line_out(doc@.encoding, rule@, raw@, term@)->Ok_0,
            ),
            Err(e) => line_out(doc@.encoding, rule@, raw@, term@) == Err::<LineOut, ErrorView>(e@),
        },
{
    let enc = doc.encoding();
    proof {
        doc.lemma_wf();
        lemma_raw_size(doc@, (from + k) as nat);
    }
    match rule {
        LineRule::Case { mode } => {
            match case_transform(raw, enc, *mode) {
                Ok((b, changed)) => {
                    let mut bytes = b;
                    extend(&mut bytes, term);
                    Ok(LineDone { bytes, changed, count: 0 })
                },
                Err(e) => Err(e),
            }
        },
        LineRule::Literal { needle, replacement } => {
            let (b, count) = write_raw_replaced(
                enc,
                raw,
                needle.as_slice(),
                replacement.as_slice(),
            );
            let mut bytes = b;
            extend(&mut bytes, term);
            Ok(LineDone { bytes, changed: count > 0, count })
        },
        LineRule::Regex { pattern, insensitive, with } => {
            let ghost text = doc@.text((from + k) as nat);
            let count = a.found[k].len();
            assert(spans_view(a.found@[k as int]@) == text_matches(pattern@, *insensitive, text));
            assert(spans_view(a.found@[k as int]@).len() == count);
            if count == 0 {
                let mut bytes: Vec<u8> = Vec::new();
                extend(&mut bytes, raw);
                extend(&mut bytes, term);
                assert(bytes@ =~= raw@ + term@);
                return Ok(LineDone { bytes, changed: false, count: 0 });
            }
            assert(a.replaced@[k as int]@ == regex_replaced(
                pattern@,
                *insensitive,
                text,
                with@,
            ));
            match enc.encode_text(a.replaced[k].as_str()) {
                Some(b) => {
                    let mut bytes = b;
                    extend(&mut bytes, term);
                    Ok(LineDone { bytes, changed: true, count: count as u64 })
                },
                None => Err(
                    Error::InvalidInput(
                        "replacement result cannot be encoded as ".to_owned().concat(enc.label()),
                    ),
                ),
            }
        },
        LineRule::Keep { plan, whole_word } => {
            let hit = match plan {
                MatchPlan::Literal { needle } => literal_has_match(
                    enc,
                    raw,
                    needle.as_slice(),
                    *whole_word,
                ),
                MatchPlan::Bytes { pattern, insensitive } => {
                    assert(spans_view(a.found@[k as int]@) == byte_matches(
                        pattern@,
                        *insensitive,
                        raw@,
                    ));
                    any_span_counts(raw, *whole_word, &a.found[k])
                },
                MatchPlan::DecodeLine { pattern, insensitive } => {
                    assert(a.texts@[k as int]@ == doc@.text((from + k) as nat));
                    assert(spans_view(a.found@[k as int]@) == text_matches(
                        pattern@,
                        *insensitive,
                        doc@.text((from + k) as nat),
                    ));
                    any_text_span_counts(&a.texts[k], *whole_word, &a.found[k])
                },
            };
            assert(hit == line_matches(enc, raw@, plan@, *whole_word));
            let mut bytes: Vec<u8> = Vec::new();
            if hit {
                extend(&mut bytes, raw);
                extend(&mut bytes, term);
                assert(bytes@ =~= raw@ + term@);
            } else {
                assert(bytes@ =~= Seq::empty());
            }
            Ok(LineDone { bytes, changed: hit, count: 0 })
        },
    }
}

/// Applies a rule to the lines from `start` on, `count` at most.
pub fn transform_run(doc: &Document, rule: &LineRule, start: u64, count: u64) -> (r: Result<
    Transformed,
    Error,
>)
    requires
        doc.wf(),
        rule@.runs(),
        start + count <= doc@.count(),
    ensures
        is_outcome(r, run_out(doc@, rule@, start as int, start + count)),
{
    proof {
        doc.lemma_wf();
    }
    let end = start + count;
    let ghost d = doc@;
    let ghost rv = rule@;
    let mut out = Transformed { bytes: Vec::new(), changed_lines: 0, replacements: 0 };
    let mut at: u64 = start;
    assert(out.bytes@ =~= nothing_out().bytes);
    while at < end
        invariant
            doc.wf(),
            rule@.runs(),
            d == doc@,
            rv == rule@,
            start <= at <= end <= d.count(),
            d.count() <= u64::MAX,
            end == start + count,
            out.changed_lines <= at - start,
            run_out(d, rv, start as int, at as int) is Ok,
            is_run(out, run_out(d, rv, start as int, at as int)->Ok_0),
        decreases end - at,
    {
        let want = if end - at <= BATCH {
            end - at
        } else {
            BATCH
        };
        let batch = doc.raw_line_ranges_with_terminator(at, want);
        let ghost n = batch@.len() as int;
        assert(n == want);
        let a = ask(doc, rule, &batch, Ghost(at as int));
        let mut k: usize = 0;
        while k < batch.len()
            invariant
                doc.wf(),
                d == doc@,
                rv == rule@,
                n == batch@.len(),
                k <= n,
                n == want,
                start <= at,
                at + n <= end <= d.count(),
                d.count() <= u64::MAX,
                end == start + count,
                answers(a, d, rv, at as int, n),
                forall|j: int|
                    0 <= j < n ==> (#[trigger] batch@[j]).1@ == d.raw((at + j) as nat)
                        && batch@[j].2@ == d.term((at + j) as nat),
                out.changed_lines <= at + k - start,
                run_out(d, rv, start as int, at + k) is Ok,
                is_run(out, run_out(d, rv, start as int, at + k)->Ok_0),
            decreases n - k,
        {
            let raw = batch[k].1;
            let term = batch[k].2;
            assert(batch@[k as int].1@ == d.raw((at + k) as nat));
            let ghost before = run_out(d, rv, start as int, at + k)->Ok_0;
            let ghost line = line_out(d.encoding, rv, raw@, term@);
            assert(run_out(d, rv, start as int, at + k + 1) == match line {
                Err(e) => Err::<RunOut, ErrorView>(e),
                Ok(x) => Ok::<RunOut, ErrorView>(before.then_line(x)),
            });
            match apply_line(doc, rule, raw, term, &a, k, Ghost(at as int), Ghost(n)) {
                Ok(x) => {
                    extend(&mut out.bytes, x.bytes.as_slice());
                    if x.changed {
                        out.changed_lines = out.changed_lines + 1;
                    }
                    out.replacements = out.replacements.saturating_add(x.count);
                },
                Err(e) => {
                    proof {
                        runs_are_independent(d, rv, start as int, at + k + 1, end as int);
                    }
                    return Err(e);
                },
            }
            k += 1;
        }
        at = at + want;
    }
    Ok(out)
}

/// `rayon`'s `par_iter().map(..).collect()`: the runs are transformed on worker
/// threads, and the results come in the order of the runs.
#[verifier::external_body]
fn transform_runs(doc: &Document, rule: &LineRule, runs: &Vec<(u64, u64)>) -> (r: Vec<
    Result<Transformed, Error>,
>)
    requires
        doc.wf(),
        rule@.runs(),
        forall|i: int|
            0 <= i < runs@.len() ==> (#[trigger] runs@[i]).0 + runs@[i].1 <= doc@.count(),
    ensures
        r@.len() == runs@.len(),
        forall|i: int|
            0 <= i < r@.len() ==> is_outcome(
                #[trigger] r@[i],
                run_out(doc@, rule@, runs@[i].0 as int, runs@[i].0 + runs@[i].1),
            ),
{
    runs.par_iter().map(|run| transform_run(doc, rule, run.0, run.1)).collect()
}

/// Runs that cover the lines from `from` up to `total`, one after the other.
pub open spec fn covers(runs: Seq<(u64, u64)>, from: int, total: int) -> bool
    decreases runs.len(),
{
    if runs.len() == 0 {
        total == from
    } else {
        let r = runs.last();
        r.1 > 0 && r.0 + r.1 == total && covers(runs.drop_last(), from, r.0 as int)
    }
}

/// Cuts the lines from `from` up to `total` into runs.
fn cut_runs(from: u64, total: u64, chunk_lines: u64) -> (runs: Vec<(u64, u64)>)
    requires
        chunk_lines > 0,
        from <= total,
    ensures
        covers(runs@, from as int, total as int),
        forall|i: int| 0 <= i < runs@.len() ==> (#[trigger] runs@[i]).0 + runs@[i].1 <= total,
{
    let mut runs: Vec<(u64, u64)> = Vec::new();
    let mut start: u64 = from;
    while start < total
        invariant
            start <= total,
            chunk_lines > 0,
            covers(runs@, from as int, start as int),
            forall|i: int| 0 <= i < runs@.len() ==> (#[trigger] runs@[i]).0 + runs@[i].1 <= total,
        decreases total - start,
    {
        let left = total - start;
        let count = if chunk_lines <= left {
            chunk_lines
        } else {
            left
        };
        let ghost before = runs@;
        runs.push((start, count));
        assert(runs@.drop_last() =~= before);
        start = start + count;
    }
    runs
}

/// The bytes of the transformed document: those before its content, then what
/// its lines became.
pub open spec fn document_out(doc: DocView, rule: RuleView) -> Result<RunOut, ErrorView> {
    match run_out(doc, rule, 0, doc.count() as int) {
        Ok(r) => Ok(RunOut { bytes: doc.buf.take(doc.base) + r.bytes, ..r }),
        Err(e) => Err(e),
    }
}

/// Applies a rule to all lines, one after the other.
pub fn transform_document(doc: &Document, rule: &LineRule) -> (r: Result<Transformed, Error>)
    requires
        doc.wf(),
        rule@.runs(),
    ensures
        is_outcome(r, document_out(doc@, rule@)),
{
    let n = doc.line_count();
    match transform_run(doc, rule, 0, n) {
        Ok(t) => {
            let mut bytes: Vec<u8> = Vec::new();
            extend(&mut bytes, doc.prefix_bytes());
            extend(&mut bytes, t.bytes.as_slice());
            assert(bytes@ =~= doc@.buf.take(doc@.base) + t.bytes@);
            Ok(Transformed { bytes, ..t })
        },
        Err(e) => Err(e),
    }
}

/// How many lines are transformed before what came of them is handed on.
pub const WAVE_LINES: u64 = 1048576;

/// How many lines a worker takes at most.
pub const RUN_LINES: u64 = 16384;

/// Where the lines end that are transformed together with line `from`.
pub fn next_wave(doc: &Document, from: u64) -> (to: u64)
    requires
        doc.wf(),
        from <= doc@.count(),
    ensures
        to == if doc@.count() - from <= WAVE_LINES {
            doc@.count() as int
        } else {
            from + WAVE_LINES
        },
{
    let total = doc.line_count();
    if total - from <= WAVE_LINES {
        total
    } else {
        from + WAVE_LINES
    }
}

/// Applies a rule to the lines from `from` up to `to`, in runs that worker
/// threads take. What comes out does not depend on how the lines are cut into
/// runs, nor on the number of threads.
pub fn transform_wave(
    doc: &Document,
    rule: &LineRule,
    parallel: &ParallelReplaceOptions,
    from: u64,
    to: u64,
) -> (r: Result<Transformed, Error>)
    requires
        doc.wf(),
        rule@.runs(),
        from <= to <= doc@.count(),
    ensures
        is_outcome(r, run_out(doc@, rule@, from as int, to as int)),
{
    proof {
        doc.lemma_wf();
    }
    if parallel.jobs == 1 {
        return transform_run(doc, rule, from, to - from);
    }
    let run_lines = if parallel.chunk_lines == 0 {
        1
    } else if parallel.chunk_lines > RUN_LINES {
        RUN_LINES
    } else {
        parallel.chunk_lines
    };
    let runs = cut_runs(from, to, run_lines);
    let done = transform_runs(doc, rule, &runs);
    let ghost d = doc@;
    let ghost rv = rule@;
    let ghost (lo, hi) = (from as int, to as int);
    let mut bytes: Vec<u8> = Vec::new();
    let mut changed_lines: u64 = 0;
    let mut replacements: u64 = 0;
    let mut i: usize = 0;
    let ghost mut at: int = lo;
    proof {
        lemma_covers_take(runs@, lo, hi, 0);
        assert(runs@.take(0) =~= Seq::empty());
        assert(bytes@ =~= nothing_out().bytes);
    }
    while i < done.len()
        invariant
            doc.wf(),
            d == doc@,
            rv == rule@,
            lo == from,
            hi == to,
            0 <= lo <= hi <= d.count(),
            d.count() <= u64::MAX,
            done@.len() == runs@.len(),
            i <= runs@.len(),
            covers(runs@, lo, hi),
            covers(runs@.take(i as int), lo, at),
            lo <= at <= hi,
            forall|j: int|
                0 <= j < done@.len() ==> is_outcome(
                    #[trigger] done@[j],
                    run_out(d, rv, runs@[j].0 as int, runs@[j].0 + runs@[j].1),
                ),
            run_out(d, rv, lo, at) is Ok,
            ({
                let r = run_out(d, rv, lo, at)->Ok_0;
                &&& bytes@ == r.bytes
                &&& changed_lines == r.changed
                &&& replacements == counted(r.count)
                &&& r.changed <= at - lo
            }),
        decreases done.len() - i,
    {
        let ghost run = runs@[i as int];
        let ghost next = run.0 + run.1;
        let ghost before = run_out(d, rv, lo, at)->Ok_0;
        proof {
            lemma_covers_take(runs@, lo, hi, i + 1);
            assert(runs@.take(i + 1).drop_last() =~= runs@.take(i as int));
            assert(runs@.take(i + 1).last() == run);
            lemma_covers_unique(runs@.take(i as int), lo, run.0 as int, at);
            runs_are_independent(d, rv, lo, at, next);
            runs_are_independent(d, rv, lo, next, hi);
            assert(is_outcome(done@[i as int], run_out(d, rv, at, next)));
            lemma_changed(d, rv, at, next);
        }
        match &done[i] {
            Ok(t) => {
                extend(&mut bytes, t.bytes.as_slice());
                assert(bytes@ =~= before.bytes + t.bytes@);
                changed_lines = changed_lines + t.changed_lines;
                replacements = replacements.saturating_add(t.replacements);
                proof {
                    at = next;
                }
            },
            Err(e) => {
                return Err(e.copy());
            },
        }
        i += 1;
    }
    proof {
        assert(runs@.take(runs@.len() as int) =~= runs@);
        lemma_covers_unique(runs@, lo, hi, at);
    }
    Ok(Transformed { bytes, changed_lines, replacements })
}

/// Applies a rule to all lines, on worker threads, some lines after the other.
pub fn transform_document_parallel(
    doc: &Document,
    rule: &LineRule,
    parallel: &ParallelReplaceOptions,
) -> (r: Result<Transformed, Error>)
    requires
        doc.wf(),
        rule@.runs(),
    ensures
        is_outcome(r, document_out(doc@, rule@)),
{
    if parallel.jobs == 1 {
        return transform_document(doc, rule);
    }
    proof {
        doc.lemma_wf();
    }
    let total = doc.line_count();
    let ghost d = doc@;
    let ghost rv = rule@;
    let mut bytes: Vec<u8> = Vec::new();
    extend(&mut bytes, doc.prefix_bytes());
    let ghost pre = d.buf.take(d.base);
    let mut changed_lines: u64 = 0;
    let mut replacements: u64 = 0;
    let mut at: u64 = 0;
    assert(bytes@ =~= pre + nothing_out().bytes);
    while at < total
        invariant
            doc.wf(),
            rule@.runs(),
            d == doc@,
            rv == rule@,
            pre == d.buf.take(d.base),
            total == d.count(),
            at <= total,
            run_out(d, rv, 0, at as int) is Ok,
            ({
                let r = run_out(d, rv, 0, at as int)->Ok_0;
                &&& bytes@ == pre + r.bytes
                &&& changed_lines == r.changed
                &&& replacements == counted(r.count)
                &&& r.changed <= at
            }),
        decreases total - at,
    {
        let next = next_wave(doc, at);
        let ghost before = run_out(d, rv, 0, at as int)->Ok_0;
        proof {
            runs_are_independent(d, rv, 0, at as int, next as int);
            runs_are_independent(d, rv, 0, next as int, total as int);
            lemma_changed(d, rv, at as int, next as int);
        }
        match transform_wave(doc, rule, parallel, at, next) {
            Ok(t) => {
                extend(&mut bytes, t.bytes.as_slice());
                assert(bytes@ =~= pre + (before.bytes + t.bytes@));
                changed_lines = changed_lines + t.changed_lines;
                replacements = replacements.saturating_add(t.replacements);
            },
            Err(e) => {
                return Err(e);
            },
        }
        at = next;
    }
    Ok(Transformed { bytes, changed_lines, replacements })
}

proof fn lemma_covers_take(runs: Seq<(u64, u64)>, from: int, total: int, i: int)
    requires
        covers(runs, from, total),
        0 <= i <= runs.len(),
    ensures
        i == 0 ==> covers(runs.take(i), from, from),
        i > 0 ==> covers(runs.take(i), from, runs[i - 1].0 + runs[i - 1].1),
        i > 0 ==> from <= runs[i - 1].0 + runs[i - 1].1 <= total,
        from <= total,
    decreases runs.len(),
{
    if runs.len() > 0 {
        lemma_covers_take(
            runs.drop_last(),
            from,
            runs.last().0 as int,
            if i == runs.len() {
                i - 1
            } else {
                i
            },
        );
    }
    if i == runs.len() {
        assert(runs.take(i) =~= runs);
    } else {
        assert(runs.drop_last().take(i) =~= runs.take(i));
        if i > 0 {
            assert(runs.drop_last()[i - 1] == runs[i - 1]);
        }
    }
}

proof fn lemma_covers_unique(runs: Seq<(u64, u64)>, from: int, a: int, b: int)
    requires
        covers(runs, from, a),
        covers(runs, from, b),
    ensures
        a == b,
{
}

proof fn lemma_changed(doc: DocView, rule: RuleView, a: int, b: int)
    requires
        a <= b,
    ensures
        run_out(doc, rule, a, b) matches Ok(r) ==> r.changed <= b - a,
    decreases b - a,
{
    if a < b {
        lemma_changed(doc, rule, a, b - 1);
    }
}

// ---- rules -------------------------------------------------------------------

pub open spec fn empty_pattern() -> ErrorView {
    ErrorView::InvalidInput("replace pattern must not be empty"@)
}

pub open spec fn unencodable_text(enc: Encoding) -> ErrorView {
    ErrorView::InvalidInput("replacement cannot be encoded as "@ + enc.label_text())
}

/// The rule of a replacement, or why there is none.
pub open spec fn replace_rule(
    enc: Encoding,
    find: Seq<char>,
    replacement: Seq<char>,
    regex: bool,
    case_sensitive: bool,
) -> Result<RuleView, ErrorView> {
    if find.len() == 0 {
        Err(empty_pattern())
    } else {
        match planned(enc, find, regex, case_sensitive) {
            Err(e) => Err(ErrorView::InvalidInput(e)),
            Ok(PlanView::Literal(needle)) => match encoded(enc, replacement) {
                Some(b) => Ok(RuleView::Literal(needle, b)),
                None => Err(unencodable_text(enc)),
            },
            Ok(PlanView::Bytes(p, i)) => Ok(RuleView::Regex(p, i, replacement)),
            Ok(PlanView::DecodeLine(p, i)) => Ok(RuleView::Regex(p, i, replacement)),
        }
    }
}

impl LineRule {
    /// The rule of a replacement.
    pub fn for_replace(enc: Encoding, opts: &ReplaceOptions) -> (r: Result<LineRule, Error>)
        ensures
            ({
                let want = replace_rule(
                    enc,
                    opts.find@,
                    opts.replacement@,
                    opts.regex,
                    opts.case_sensitive,
                );
                match r {
                    Ok(rule) => want == Ok::<RuleView, ErrorView>(rule@) && rule@.runs(),
                    Err(e) => want == Err::<RuleView, ErrorView>(e@),
                }
            }),
    {
        if opts.find.as_str().unicode_len() == 0 {
            return Err(Error::InvalidInput("replace pattern must not be empty".to_owned()));
        }
        let plan = match MatchPlan::for_replace(
            enc,
            opts.find.as_str(),
            opts.regex,
            opts.case_sensitive,
        ) {
            Ok(p) => p,
            Err(e) => {
                return Err(e);
            },
        };
        match plan {
            MatchPlan::Literal { needle } => match enc.encode_text(opts.replacement.as_str()) {
                Some(replacement) => Ok(LineRule::Literal { needle, replacement }),
                None => Err(
                    Error::InvalidInput(
                        "replacement cannot be encoded as ".to_owned().concat(enc.label()),
                    ),
                ),
            },
            MatchPlan::Bytes { pattern, insensitive } => Ok(
                LineRule::Regex { pattern, insensitive, with: opts.replacement.clone() },
            ),
            MatchPlan::DecodeLine { pattern, insensitive } => Ok(
                LineRule::Regex { pattern, insensitive, with: opts.replacement.clone() },
            ),
        }
    }

    /// The rule that keeps the lines with a match.
    pub fn for_grep(enc: Encoding, opts: &GrepLinesOptions) -> (r: Result<LineRule, Error>)
        ensures
            ({
                let want = planned(enc, opts.query@, opts.regex, opts.case_sensitive);
                match r {
                    Ok(rule) => want is Ok && rule@ == RuleView::Keep(want->Ok_0, opts.whole_word)
                        && rule@.runs(),
                    Err(e) => want is Err && e@ == ErrorView::Search(want->Err_0),
                }
            }),
    {
        match MatchPlan::for_search(enc, opts.query.as_str(), opts.regex, opts.case_sensitive) {
            Ok(plan) => Ok(LineRule::Keep { plan, whole_word: opts.whole_word }),
            Err(e) => Err(e),
        }
    }

    /// The rule of a case conversion.
    pub fn for_case(opts: &CaseOptions) -> (rule: LineRule)
        ensures
            rule@ == RuleView::Case(opts.mode),
    {
        LineRule::Case { mode: opts.mode }
    }
}

pub open spec fn output_taken(path: Seq<char>) -> ErrorView {
    ErrorView::Conflict("'"@ + path + "' already exists; choose another output path"@)
}

/// A transform never writes over what is there.
pub fn ensure_new_target(path: &str, taken: bool) -> (r: Result<(), Error>)
    ensures
        r is Ok <==> !taken,
        r matches Err(e) ==> e@ == output_taken(path@),
{
    if taken {
        return Err(
            Error::Conflict(
                "'".to_owned().concat(path).concat("' already exists; choose another output path"),
            ),
        );
    }
    Ok(())
}

// ---- new files ---------------------------------------------------------------

/// What a transform did.
#[derive(Clone, Debug)]
pub struct TransformResult {
    pub path: String,
    pub bytes: u64,
    pub lines: u64,
    pub changed_lines: u64,
    pub replacements: u64,
}

/// What a transform writes to a new file, and what it says of that.
pub open spec fn is_written(
    r: Result<(Vec<u8>, TransformResult), Error>,
    target: Seq<char>,
    lines: nat,
    want: Result<RunOut, ErrorView>,
) -> bool {
    match r {
        Ok((bytes, res)) => {
            &&& want is Ok
            &&& bytes@ == want->Ok_0.bytes
            &&& res.path@ == target
            &&& res.bytes == bytes@.len()
            &&& res.lines == lines
            &&& res.changed_lines == want->Ok_0.changed
            &&& res.replacements == counted(want->Ok_0.count)
        },
        Err(e) => want is Err && want->Err_0 == e@,
    }
}

fn written(t: Transformed, target: &str, lines: u64) -> (r: (Vec<u8>, TransformResult))
    ensures
        r.0@ == t.bytes@,
        r.1.path@ == target@,
        r.1.bytes == t.bytes@.len(),
        r.1.lines == lines,
        r.1.changed_lines == t.changed_lines,
        r.1.replacements == t.replacements,
{
    let res = TransformResult {
        path: target.to_owned(),
        bytes: t.bytes.len() as u64,
        lines,
        changed_lines: t.changed_lines,
        replacements: t.replacements,
    };
    (t.bytes, res)
}

/// What is reported of a transform before its lines were written.
pub fn transform_started(doc: &Document, target: &str) -> (r: TransformResult)
    requires
        doc.wf(),
    ensures
        r.path@ == target@,
        r.bytes == doc@.base,
        r.lines == doc@.count(),
        r.changed_lines == 0,
        r.replacements == 0,
{
    proof {
        doc.lemma_wf();
    }
    let bytes = doc.prefix_bytes().len() as u64;
    let lines = doc.line_count();
    TransformResult { path: target.to_owned(), bytes, lines, changed_lines: 0, replacements: 0 }
}

/// Counts what some lines became.
pub fn count_wave(r: &mut TransformResult, t: &Transformed)
    ensures
        final(r).path == old(r).path,
        final(r).lines == old(r).lines,
        final(r).bytes == word64(old(r).bytes as nat + t.bytes@.len()),
        final(r).changed_lines == word64((old(r).changed_lines + t.changed_lines) as nat),
        final(r).replacements == word64((old(r).replacements + t.replacements) as nat),
{
    r.bytes = add_capped(r.bytes, t.bytes.len() as u64);
    r.changed_lines = add_capped(r.changed_lines, t.changed_lines);
    r.replacements = add_capped(r.replacements, t.replacements);
}

/// A document with its matches replaced, or why there is none.
pub open spec fn replaced_document(
    doc: DocView,
    target: Seq<char>,
    taken: bool,
    opts: ReplaceOptions,
) -> Result<RunOut, ErrorView> {
    if taken {
        Err(output_taken(target))
    } else {
        match replace_rule(
            doc.encoding,
            opts.find@,
            opts.replacement@,
            opts.regex,
            opts.case_sensitive,
        ) {
            Ok(rule) => document_out(doc, rule),
            Err(e) => Err(e),
        }
    }
}

/// A document in another case, or why there is none.
pub open spec fn cased_document(
    doc: DocView,
    target: Seq<char>,
    taken: bool,
    opts: CaseOptions,
) -> Result<RunOut, ErrorView> {
    if taken {
        Err(output_taken(target))
    } else {
        document_out(doc, RuleView::Case(opts.mode))
    }
}

/// The lines of a document that have a match, or why there are none.
pub open spec fn kept_document(
    doc: DocView,
    target: Seq<char>,
    taken: bool,
    opts: GrepLinesOptions,
) -> Result<RunOut, ErrorView> {
    if taken && !opts.overwrite {
        Err(output_taken(target))
    } else {
        match planned(doc.encoding, opts.query@, opts.regex, opts.case_sensitive) {
            Ok(plan) => document_out(doc, RuleView::Keep(plan, opts.whole_word)),
            Err(e) => Err(ErrorView::Search(e)),
        }
    }
}

/// Replaces the matches in all lines. What is written to the target is returned.
pub fn replace_to_path(
    doc: &Document,
    target: &str,
    taken: bool,
    opts: &ReplaceOptions,
) -> (r: Result<(Vec<u8>, TransformResult), Error>)
    requires
        doc.wf(),
    ensures
        is_written(r, target@, doc@.count(), replaced_document(doc@, target@, taken, *opts)),
{
    match ensure_new_target(target, taken) {
        Ok(()) => {},
        Err(e) => {
            return Err(e);
        },
    }
    let rule = match LineRule::for_replace(doc.encoding(), opts) {
        Ok(rule) => rule,
        Err(e) => {
            return Err(e);
        },
    };
    match transform_document(doc, &rule) {
        Ok(t) => Ok(written(t, target, doc.line_count())),
        Err(e) => Err(e),
    }
}

/// The same, on worker threads.
pub fn replace_to_path_parallel(
    doc: &Document,
    target: &str,
    taken: bool,
    opts: &ReplaceOptions,
    parallel: &ParallelReplaceOptions,
) -> (r: Result<(Vec<u8>, TransformResult), Error>)
    requires
        doc.wf(),
    ensures
        is_written(r, target@, doc@.count(), replaced_document(doc@, target@, taken, *opts)),
{
    match ensure_new_target(target, taken) {
        Ok(()) => {},
        Err(e) => {
            return Err(e);
        },
    }
    let rule = match LineRule::for_replace(doc.encoding(), opts) {
        Ok(rule) => rule,
        Err(e) => {
            return Err(e);
        },
    };
    match transform_document_parallel(doc, &rule, parallel) {
        Ok(t) => Ok(written(t, target, doc.line_count())),
        Err(e) => Err(e),
    }
}

/// Converts all lines to another case.
pub fn case_to_path(
    doc: &Document,
    target: &str,
    taken: bool,
    opts: &CaseOptions,
) -> (r: Result<(Vec<u8>, TransformResult), Error>)
    requires
        doc.wf(),
    ensures
        is_written(r, target@, doc@.count(), cased_document(doc@, target@, taken, *opts)),
{
    match ensure_new_target(target, taken) {
        Ok(()) => {},
        Err(e) => {
            return Err(e);
        },
    }
    let rule = LineRule::for_case(opts);
    match transform_document(doc, &rule) {
        Ok(t) => Ok(written(t, target, doc.line_count())),
        Err(e) => Err(e),
    }
}

/// The same, on worker threads.
pub fn case_to_path_parallel(
    doc: &Document,
    target: &str,
    taken: bool,
    opts: &CaseOptions,
    parallel: &ParallelReplaceOptions,
) -> (r: Result<(Vec<u8>, TransformResult), Error>)
    requires
        doc.wf(),
    ensures
        is_written(r, target@, doc@.count(), cased_document(doc@, target@, taken, *opts)),
{
    match ensure_new_target(target, taken) {
        Ok(()) => {},
        Err(e) => {
            return Err(e);
        },
    }
    let rule = LineRule::for_case(opts);
    match transform_document_parallel(doc, &rule, parallel) {
        Ok(t) => Ok(written(t, target, doc.line_count())),
        Err(e) => Err(e),
    }
}

/// Keeps the lines that have a match.
pub fn grep_lines_to_path(
    doc: &Document,
    target: &str,
    taken: bool,
    opts: &GrepLinesOptions,
) -> (r: Result<(Vec<u8>, TransformResult), Error>)
    requires
        doc.wf(),
    ensures
        is_written(r, target@, doc@.count(), kept_document(doc@, target@, taken, *opts)),
{
    match ensure_new_target(target, taken && !opts.overwrite) {
        Ok(()) => {},
        Err(e) => {
            return Err(e);
        },
    }
    let rule = match LineRule::for_grep(doc.encoding(), opts) {
        Ok(rule) => rule,
        Err(e) => {
            return Err(e);
        },
    };
    match transform_document(doc, &rule) {
        Ok(t) => Ok(written(t, target, doc.line_count())),
        Err(e) => Err(e),
    }
}

/// The same, on worker threads.
pub fn grep_lines_to_path_parallel(
    doc: &Document,
    target: &str,
    taken: bool,
    opts: &GrepLinesOptions,
    parallel: &ParallelReplaceOptions,
) -> (r: Result<(Vec<u8>, TransformResult), Error>)
    requires
        doc.wf(),
    ensures
        is_written(r, target@, doc@.count(), kept_document(doc@, target@, taken, *opts)),
{
    match ensure_new_target(target, taken && !opts.overwrite) {
        Ok(()) => {},
        Err(e) => {
            return Err(e);
        },
    }
    let rule = match LineRule::for_grep(doc.encoding(), opts) {
        Ok(rule) => rule,
        Err(e) => {
            return Err(e);
        },
    };
    match transform_document_parallel(doc, &rule, parallel) {
        Ok(t) => Ok(written(t, target, doc.line_count())),
        Err(e) => Err(e),
    }
}

} // verus!
