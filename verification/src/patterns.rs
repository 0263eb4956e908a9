//! Queries and how they are matched: as bytes, by a regex on bytes, or by a
//! regex on the decoded text of each line.

use vstd::prelude::*;
use vstd::string::*;
use vstd::utf8::*;

use crate::bytes::{find_bytes, occurs_at};
use crate::encoding::{encoded, read_unit, unit_of, Encoding};
use crate::error::{Error, ErrorView};
use crate::markers::first_of;
use crate::overlay::opt_text;
use crate::walk::{is_legacy_multibyte, legacy};

verus! {

// ---- the regex engine --------------------------------------------------------

/// A query with its special characters escaped.
pub uninterp spec fn escaped(query: Seq<char>) -> Seq<char>;

/// What is wrong with a pattern for texts, if anything.
pub uninterp spec fn text_regex_fault(pattern: Seq<char>, insensitive: bool) -> Option<Seq<char>>;

/// What is wrong with a pattern for bytes, if anything.
pub uninterp spec fn bytes_regex_fault(pattern: Seq<char>, insensitive: bool) -> Option<Seq<char>>;

/// The matches of a pattern in bytes, as offsets.
pub uninterp spec fn byte_matches(
    pattern: Seq<char>,
    insensitive: bool,
    hay: Seq<u8>,
) -> Seq<(int, int)>;

/// The matches of a pattern in a text, as offsets into its UTF-8 form.
pub uninterp spec fn text_matches(
    pattern: Seq<char>,
    insensitive: bool,
    text: Seq<char>,
) -> Seq<(int, int)>;

/// The views of spans.
pub open spec fn spans_view(v: Seq<(usize, usize)>) -> Seq<(int, int)> {
    v.map_values(|s: (usize, usize)| (s.0 as int, s.1 as int))
}

/// Spans that lie inside `n` bytes.
pub open spec fn spans_inside(v: Seq<(usize, usize)>, n: nat) -> bool {
    forall|i: int| 0 <= i < v.len() ==> (#[trigger] v[i]).0 <= v[i].1 <= n
}

/// Spans of which each starts at or after the end of the ones before it.
pub open spec fn spans_apart(v: Seq<(usize, usize)>) -> bool {
    forall|i: int, j: int| 0 <= i < j < v.len() ==> (#[trigger] v[i]).1 <= (#[trigger] v[j]).0
}

/// `regex::escape`: its result is a function of the query.
#[verifier::external_body]
fn regex_escape(query: &str) -> (s: String)
    ensures
        s@ == escaped(query@),
{
    regex::escape(query)
}

/// `regex::RegexBuilder::build`: the message of the error, if the pattern is
/// refused, is a function of the pattern and the flag. A pattern that is too
/// large when compiled is refused; its size is counted in machine words of the
/// target that the crate is built for.
#[verifier::external_body]
fn text_regex_error(pattern: &str, insensitive: bool) -> (r: Option<String>)
    ensures
        opt_text(r) == text_regex_fault(pattern@, insensitive),
{
    match regex::RegexBuilder::new(pattern).case_insensitive(insensitive).build() {
        Ok(_) => None,
        Err(e) => Some(e.to_string()),
    }
}

/// `regex::bytes::RegexBuilder::build`: the message of the error, if the
/// pattern is refused, is a function of the pattern and the flag, with the same
/// limit on its size.
#[verifier::external_body]
fn bytes_regex_error(pattern: &str, insensitive: bool) -> (r: Option<String>)
    ensures
        opt_text(r) == bytes_regex_fault(pattern@, insensitive),
{
    match regex::bytes::RegexBuilder::new(pattern).case_insensitive(insensitive).build() {
        Ok(_) => None,
        Err(e) => Some(e.to_string()),
    }
}

/// `regex::bytes::Regex::find_iter` on each of several byte sequences, up to a
/// number of matches: they are a function of pattern, flag and bytes, lie
/// inside the bytes, and come one after the other without overlap, so that
/// there is at most one more of them than there are bytes.
#[verifier::external_body]
pub(crate) fn bytes_regex_find(
    pattern: &str,
    insensitive: bool,
    hays: &Vec<&[u8]>,
    limit: usize,
) -> (v: Vec<Vec<(usize, usize)>>)
    requires
        bytes_regex_fault(pattern@, insensitive) is None,
    ensures
        v@.len() == hays@.len(),
        forall|i: int|
            0 <= i < v@.len() ==> {
                &&& spans_view((#[trigger] v@[i])@) == first_of(
                    byte_matches(pattern@, insensitive, hays@[i]@),
                    limit as nat,
                )
                &&& spans_inside(v@[i]@, hays@[i]@.len())
                &&& spans_apart(v@[i]@)
                &&& v@[i]@.len() <= hays@[i]@.len() + 1
            },
{
    let re = regex::bytes::RegexBuilder::new(pattern).case_insensitive(insensitive).build().unwrap();
    let one = |h: &&[u8]| re.find_iter(h).take(limit).map(|m| (m.start(), m.end())).collect();
    hays.iter().map(one).collect()
}

/// `regex::Regex::find_iter` on each of several texts: the matches are a
/// function of pattern, flag and text, lie inside the UTF-8 form of the text,
/// and come one after the other without overlap.
#[verifier::external_body]
pub(crate) fn text_regex_find(
    pattern: &str,
    insensitive: bool,
    texts: &Vec<String>,
) -> (v: Vec<Vec<(usize, usize)>>)
    requires
        text_regex_fault(pattern@, insensitive) is None,
    ensures
        v@.len() == texts@.len(),
        forall|i: int|
            0 <= i < v@.len() ==> {
                &&& spans_view((#[trigger] v@[i])@) == text_matches(
                    pattern@,
                    insensitive,
                    texts@[i]@,
                )
                &&& spans_inside(v@[i]@, encode_utf8(texts@[i]@).len())
                &&& spans_apart(v@[i]@)
            },
{
    let re = regex::RegexBuilder::new(pattern).case_insensitive(insensitive).build().unwrap();
    texts.iter().map(|t| re.find_iter(t).map(|m| (m.start(), m.end())).collect()).collect()
}

/// A text with the matches of a pattern replaced; the replacement may refer to
/// groups of the pattern.
pub uninterp spec fn regex_replaced(
    pattern: Seq<char>,
    insensitive: bool,
    text: Seq<char>,
    replacement: Seq<char>,
) -> Seq<char>;

/// `regex::Regex::replace_all` on each of several texts: the result is a
/// function of pattern, flag, text and replacement.
#[verifier::external_body]
pub(crate) fn text_regex_replace(
    pattern: &str,
    insensitive: bool,
    texts: &Vec<String>,
    replacement: &str,
) -> (v: Vec<String>)
    requires
        text_regex_fault(pattern@, insensitive) is None,
    ensures
        v@.len() == texts@.len(),
        forall|i: int|
            0 <= i < v@.len() ==> (#[trigger] v@[i])@ == regex_replaced(
                pattern@,
                insensitive,
                texts@[i]@,
                replacement@,
            ),
{
    let re = regex::RegexBuilder::new(pattern).case_insensitive(insensitive).build().unwrap();
    texts.iter().map(|t| re.replace_all(t, replacement).into_owned()).collect()
}

// ---- plans -------------------------------------------------------------------

/// How a query is matched.
#[derive(Clone, Debug)]
pub enum MatchPlan {
    /// The bytes of the query are looked for.
    Literal { needle: Vec<u8> },
    /// A regex runs over the bytes.
    Bytes { pattern: String, insensitive: bool },
    /// A regex runs over the decoded text of each line.
    DecodeLine { pattern: String, insensitive: bool },
}

#[verifier::ext_equal]
pub enum PlanView {
    Literal(Seq<u8>),
    Bytes(Seq<char>, bool),
    DecodeLine(Seq<char>, bool),
}

impl View for MatchPlan {
    type V = PlanView;

    open spec fn view(&self) -> PlanView {
        match self {
            MatchPlan::Literal { needle } => PlanView::Literal(needle@),
            MatchPlan::Bytes { pattern, insensitive } => PlanView::Bytes(pattern@, *insensitive),
            MatchPlan::DecodeLine { pattern, insensitive } => PlanView::DecodeLine(
                pattern@,
                *insensitive,
            ),
        }
    }
}

impl PlanView {
    /// There is something to look for: bytes, or a pattern that the engine takes.
    pub open spec fn runs(self) -> bool {
        match self {
            PlanView::Literal(needle) => needle.len() > 0,
            PlanView::Bytes(p, i) => bytes_regex_fault(p, i) is None && text_regex_fault(p, i) is None,
            PlanView::DecodeLine(p, i) => text_regex_fault(p, i) is None,
        }
    }
}

/// Encodings whose text a regex on bytes would miss: it takes bytes for UTF-8.
pub open spec fn decoded_by_line(enc: Encoding) -> bool {
    legacy(enc) || enc.wide()
}

pub open spec fn pattern_of(query: Seq<char>, regex: bool) -> Seq<char> {
    if regex {
        query
    } else {
        escaped(query)
    }
}

/// The plan for a query, or the message that refuses it.
pub open spec fn planned(enc: Encoding, query: Seq<char>, regex: bool, case_sensitive: bool) -> Result<
    PlanView,
    Seq<char>,
> {
    let pattern = pattern_of(query, regex);
    let bytes_fault = bytes_regex_fault(pattern, !case_sensitive);
    let text_fault = text_regex_fault(pattern, !case_sensitive);
    if query.len() == 0 {
        Err("empty query"@)
    } else if !regex && case_sensitive {
        match encoded(enc, query) {
            Some(needle) => Ok(PlanView::Literal(needle)),
            None => Err("query not representable in file encoding"@),
        }
    } else if decoded_by_line(enc) {
        match text_fault {
            Some(e) => Err("invalid regex: "@ + e),
            None => Ok(PlanView::DecodeLine(pattern, !case_sensitive)),
        }
    } else {
        match bytes_fault {
            Some(e) => Err("invalid regex: "@ + e),
            None => match text_fault {
                Some(e) => Err("invalid regex: "@ + e),
                None => Ok(PlanView::Bytes(pattern, !case_sensitive)),
            },
        }
    }
}

impl MatchPlan {
    /// The plan for a query; the message where it is refused.
    fn build(enc: Encoding, query: &str, regex: bool, case_sensitive: bool) -> (r: Result<
        MatchPlan,
        String,
    >)
        ensures
            match r {
                Ok(p) => planned(enc, query@, regex, case_sensitive) == Ok::<PlanView, Seq<char>>(p@)
                    && p@.runs(),
                Err(e) => planned(enc, query@, regex, case_sensitive) == Err::<
                    PlanView,
                    Seq<char>,
                >(e@),
            },
    {
        if query.unicode_len() == 0 {
            return Err("empty query".to_owned());
        }
        if !regex && case_sensitive {
            return match enc.encode_query(query) {
                Some(needle) => Ok(MatchPlan::Literal { needle }),
                None => Err("query not representable in file encoding".to_owned()),
            };
        }
        let pattern = if regex {
            query.to_owned()
        } else {
            regex_escape(query)
        };
        if is_legacy_multibyte(enc) || enc.is_wide() {
            return match text_regex_error(pattern.as_str(), !case_sensitive) {
                Some(e) => Err("invalid regex: ".to_owned().concat(e.as_str())),
                None => Ok(MatchPlan::DecodeLine { pattern, insensitive: !case_sensitive }),
            };
        }
        match bytes_regex_error(pattern.as_str(), !case_sensitive) {
            Some(e) => Err("invalid regex: ".to_owned().concat(e.as_str())),
            None => match text_regex_error(pattern.as_str(), !case_sensitive) {
                Some(e) => Err("invalid regex: ".to_owned().concat(e.as_str())),
                None => Ok(MatchPlan::Bytes { pattern, insensitive: !case_sensitive }),
            },
        }
    }

    /// The plan of a search.
    pub fn for_search(enc: Encoding, query: &str, regex: bool, case_sensitive: bool) -> (r: Result<
        MatchPlan,
        Error,
    >)
        ensures
            match r {
                Ok(p) => planned(enc, query@, regex, case_sensitive) == Ok::<PlanView, Seq<char>>(p@)
                    && p@.runs(),
                Err(e) => planned(enc, query@, regex, case_sensitive) is Err && e@
                    == ErrorView::Search(
                    planned(enc, query@, regex, case_sensitive)->Err_0,
                ),
            },
    {
        match MatchPlan::build(enc, query, regex, case_sensitive) {
            Ok(p) => Ok(p),
            Err(e) => Err(Error::Search(e)),
        }
    }

    /// The plan of a replacement.
    pub fn for_replace(enc: Encoding, query: &str, regex: bool, case_sensitive: bool) -> (r: Result<
        MatchPlan,
        Error,
    >)
        ensures
            match r {
                Ok(p) => planned(enc, query@, regex, case_sensitive) == Ok::<PlanView, Seq<char>>(p@)
                    && p@.runs(),
                Err(e) => planned(enc, query@, regex, case_sensitive) is Err && e@
                    == ErrorView::InvalidInput(
                    planned(enc, query@, regex, case_sensitive)->Err_0,
                ),
            },
    {
        match MatchPlan::build(enc, query, regex, case_sensitive) {
            Ok(p) => Ok(p),
            Err(e) => Err(Error::InvalidInput(e)),
        }
    }
}

// ---- words -------------------------------------------------------------------

pub open spec fn word_byte(b: u8) -> bool {
    48 <= b <= 57 || 65 <= b <= 90 || 97 <= b <= 122 || b == 95
}

pub open spec fn word_char(c: char) -> bool {
    let u = c as u32;
    48 <= u <= 57 || 65 <= u <= 90 || 97 <= u <= 122 || u == 95
}

pub fn is_word_byte(b: u8) -> (w: bool)
    ensures
        w == word_byte(b),
{
    (48 <= b && b <= 57) || (65 <= b && b <= 90) || (97 <= b && b <= 122) || b == 95
}

pub fn is_word_char(c: char) -> (w: bool)
    ensures
        w == word_char(c),
{
    let u = c as u32;
    (48 <= u && u <= 57) || (65 <= u && u <= 90) || (97 <= u && u <= 122) || u == 95
}

/// No word byte stands next to a span of bytes.
pub open spec fn whole_word(buf: Seq<u8>, start: int, len: int) -> bool {
    &&& !(0 < start <= buf.len() && word_byte(buf[start - 1]))
    &&& !(start + len < buf.len() && word_byte(buf[start + len]))
}

pub(crate) fn is_whole_word(buf: &[u8], start: usize, len: usize) -> (b: bool)
    requires
        start + len <= buf@.len(),
    ensures
        b == whole_word(buf@, start as int, len as int),
{
    let n = buf.len();
    !(start > 0 && is_word_byte(buf[start - 1])) && !(start + len < n && is_word_byte(
        buf[start + len],
    ))
}

/// The UTF-16 unit at an offset stands for a word character.
pub open spec fn word_unit(enc: Encoding, buf: Seq<u8>, at: int) -> bool {
    let u = unit_of(buf[at], buf[at + 1], enc == Encoding::Utf16Le);
    u < 128 && word_byte(u as u8)
}

/// No unit of a word character stands next to a span of UTF-16 units.
pub open spec fn whole_word_units(enc: Encoding, buf: Seq<u8>, start: int, len: int) -> bool {
    &&& !(2 <= start <= buf.len() && word_unit(enc, buf, start - 2))
    &&& !(start + len + 2 <= buf.len() && word_unit(enc, buf, start + len))
}

fn is_word_unit(enc: Encoding, buf: &[u8], at: usize) -> (b: bool)
    requires
        at + 2 <= buf@.len(),
    ensures
        b == word_unit(enc, buf@, at as int),
{
    let le = match enc {
        Encoding::Utf16Le => true,
        _ => false,
    };
    let u = read_unit(buf[at], buf[at + 1], le);
    u < 128 && is_word_byte(u as u8)
}

pub(crate) fn is_whole_word_units(enc: Encoding, buf: &[u8], start: usize, len: usize) -> (b: bool)
    requires
        start + len <= buf@.len(),
    ensures
        b == whole_word_units(enc, buf@, start as int, len as int),
{
    let n = buf.len();
    !(start >= 2 && is_word_unit(enc, buf, start - 2)) && !(n - (start + len) >= 2 && is_word_unit(
        enc,
        buf,
        start + len,
    ))
}

/// No word character stands next to the characters from `cs` up to `ce`.
pub open spec fn whole_word_text(text: Seq<char>, cs: int, ce: int) -> bool {
    &&& !(0 < cs <= text.len() && word_char(text[cs - 1]))
    &&& !(ce < text.len() && word_char(text[ce]))
}

pub(crate) fn is_whole_word_text(chars: &Vec<char>, cs: usize, ce: usize) -> (b: bool)
    requires
        cs <= ce <= chars@.len(),
    ensures
        b == whole_word_text(chars@, cs as int, ce as int),
{
    !(cs > 0 && is_word_char(chars[cs - 1])) && !(ce < chars.len() && is_word_char(chars[ce]))
}

// ---- characters and their bytes ----------------------------------------------

/// The number of bytes of a character in UTF-8.
pub open spec fn utf8_width(c: char) -> int {
    encode_scalar(c as u32).len() as int
}

/// How many characters of a text lie before byte `b` of its UTF-8 form.
pub open spec fn char_index(text: Seq<char>, b: int) -> nat
    decreases text.len(),
{
    if b <= 0 || text.len() == 0 {
        0
    } else {
        1 + char_index(text.drop_first(), b - utf8_width(text[0]))
    }
}

pub(crate) fn width_of(c: char) -> (w: usize)
    ensures
        w == utf8_width(c),
        1 <= w <= 4,
{
    let u = c as u32;
    if u <= 0x7F {
        1
    } else if u <= 0x7FF {
        2
    } else if u <= 0xFFFF {
        3
    } else {
        4
    }
}

pub proof fn lemma_char_index(text: Seq<char>, a: int, b: int)
    requires
        a <= b,
    ensures
        char_index(text, a) <= char_index(text, b) <= text.len(),
    decreases text.len(),
{
    if b > 0 && text.len() > 0 {
        let w = utf8_width(text[0]);
        lemma_char_index(text.drop_first(), a - w, b - w);
    }
}

/// Finds how many characters lie before a byte.
pub(crate) fn count_before(chars: &Vec<char>, b: usize) -> (n: usize)
    ensures
        n == char_index(chars@, b as int),
        n <= chars@.len(),
{
    let mut n: usize = 0;
    let mut left: usize = b;
    assert(chars@.skip(0) =~= chars@);
    while left > 0 && n < chars.len()
        invariant
            n <= chars@.len(),
            char_index(chars@, b as int) == n + char_index(chars@.skip(n as int), left as int),
        decreases chars.len() - n,
    {
        let w = width_of(chars[n]);
        assert(chars@.skip(n as int).drop_first() =~= chars@.skip(n + 1));
        if w >= left {
            assert(char_index(chars@.skip(n + 1), left - w) == 0);
            left = 0;
        } else {
            left -= w;
        }
        n += 1;
        assert(char_index(chars@.skip(n as int), 0) == 0);
    }
    n
}

// ---- occurrences of bytes ----------------------------------------------------

/// The first occurrence of a needle at or after `from` is at `p`.
pub open spec fn first_at(buf: Seq<u8>, needle: Seq<u8>, from: int, p: int) -> bool {
    &&& from <= p
    &&& occurs_at(buf, needle, p)
    &&& forall|j: int| from <= j < p ==> !#[trigger] occurs_at(buf, needle, j)
}

/// Finds the first occurrence of a needle at or after `from`.
pub(crate) fn find_from(buf: &[u8], needle: &[u8], from: usize) -> (r: Option<usize>)
    requires
        from <= buf@.len(),
    ensures
        match r {
            Some(p) => first_at(buf@, needle@, from as int, p as int),
            None => forall|j: int| from <= j ==> !#[trigger] occurs_at(buf@, needle@, j),
        },
{
    let hay = vstd::slice::slice_subrange(buf, from, buf.len());
    let r = find_bytes(hay, needle);
    proof {
        assert forall|j: int| from <= j implies #[trigger] occurs_at(buf@, needle@, j) == occurs_at(
            hay@,
            needle@,
            j - from,
        ) by {
            if j + needle@.len() <= buf@.len() {
                assert(hay@.subrange(j - from, j - from + needle@.len()) =~= buf@.subrange(
                    j,
                    j + needle@.len(),
                ));
            }
        }
    }
    match r {
        Some(p) => {
            assert(occurs_at(buf@, needle@, p + from));
            Some(p + from)
        },
        None => None,
    }
}

} // verus!
