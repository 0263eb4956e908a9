//! Search in many files: which names are looked at, what is found in one file,
//! and when to stop.

use vstd::prelude::*;
use vstd::string::*;
use vstd::utf8::*;

use crate::bytes::extend;
use crate::detect::{detect, detected};
use crate::encoding::{codec_size, decoded, Encoding};
use crate::error::{Error, ErrorView};
use crate::fields::{key_less, keys_are_ordered};
use crate::index::{LineIndex, DEFAULT_STRIDE};
use crate::lines::Newline;
use crate::markers::first_of;
use crate::patterns::planned;
use crate::runs::{
    in_order, rec_less, rec_view, records_are_ordered, recs_view, sort_records, Rec,
};
use crate::search::{all_hits, hits_view, search, HitView, SearchOptions, Source};
use crate::text::{chars_of, lower, lower_char, push_char, texts, trim_bounds, trimmed};

verus! {

/// How many bytes of a line are decoded for a preview.
pub const PREVIEW_MAX_BYTES: usize = 2048;

/// How many characters a preview has at most.
pub const PREVIEW_MAX_CHARS: usize = 400;

/// How many bytes are looked at to tell binary files.
pub const BINARY_PROBE: usize = 8192;

/// What to look for in files, and how far to go.
#[derive(Clone, Debug)]
pub struct GrepOptions {
    pub query: String,
    pub regex: bool,
    pub case_sensitive: bool,
    pub whole_word: bool,
    /// Patterns for file names, with commas or spaces between them; all files
    /// if there is none.
    pub glob: String,
    pub max_hits: usize,
    pub max_per_file: usize,
    pub max_files: usize,
    /// Larger files are skipped.
    pub max_file_bytes: u64,
}

impl Default for GrepOptions {
    fn default() -> (o: GrepOptions)
        ensures
            o.query@ == Seq::<char>::empty(),
            !o.regex && o.case_sensitive && !o.whole_word,
            o.glob@ == Seq::<char>::empty(),
            o.max_hits == 2000,
            o.max_per_file == 200,
            o.max_files == 50_000,
            o.max_file_bytes == 536_870_912,
    {
        let query = String::new();
        let glob = String::new();
        assert(query@ =~= Seq::<char>::empty());
        assert(glob@ =~= Seq::<char>::empty());
        GrepOptions {
            query,
            regex: false,
            case_sensitive: true,
            whole_word: false,
            glob,
            max_hits: 2000,
            max_per_file: 200,
            max_files: 50_000,
            max_file_bytes: 536_870_912,
        }
    }
}

/// A match in a file.
#[derive(Clone, Debug)]
pub struct GrepHit {
    pub path: String,
    pub line: u64,
    pub col: u64,
    /// The text of the line, cut if it is long.
    pub text: String,
}

/// The matches in all files.
#[derive(Clone, Debug)]
pub struct GrepResult {
    pub hits: Vec<GrepHit>,
    /// Whether there may be more matches.
    pub truncated: bool,
    /// How many files were searched.
    pub files_scanned: u64,
    /// Whether there may be more files.
    pub files_truncated: bool,
}

// ---- names -------------------------------------------------------------------

/// A byte of a name matches a byte of a pattern that is no star.
pub open spec fn byte_matches_glob(p: u8, b: u8) -> bool {
    p == 63 || p == b
}

/// A name matches a pattern from the given positions on: a star matches any
/// run of bytes, a question mark any one byte.
pub open spec fn globbed(pat: Seq<u8>, name: Seq<u8>, i: int, j: int) -> bool
    decreases pat.len() - i, name.len() - j,
{
    if i < 0 || j < 0 || j > name.len() || i > pat.len() {
        false
    } else if i == pat.len() {
        j == name.len()
    } else if pat[i] == 42 {
        globbed(pat, name, i + 1, j) || (j < name.len() && globbed(pat, name, i, j + 1))
    } else {
        j < name.len() && byte_matches_glob(pat[i], name[j]) && globbed(pat, name, i + 1, j + 1)
    }
}

/// A name matches the rest of a pattern at `j` or later.
pub open spec fn globbed_from(pat: Seq<u8>, name: Seq<u8>, i: int, j: int) -> bool
    decreases name.len() + 1 - j,
{
    j <= name.len() && (globbed(pat, name, i, j) || globbed_from(pat, name, i, j + 1))
}

/// A star matches if what follows it matches somewhere.
proof fn lemma_star(pat: Seq<u8>, name: Seq<u8>, i: int, j: int)
    requires
        0 <= i < pat.len(),
        pat[i] == 42,
        0 <= j <= name.len(),
    ensures
        globbed(pat, name, i, j) == globbed_from(pat, name, i + 1, j),
    decreases name.len() - j,
{
    if j < name.len() {
        lemma_star(pat, name, i, j + 1);
    } else {
        assert(!globbed_from(pat, name, i + 1, j + 1));
    }
}

/// A match that goes through a part without stars goes on after it.
proof fn lemma_through(pat: Seq<u8>, name: Seq<u8>, i: int, p: int, k: int)
    requires
        0 <= i <= p <= pat.len(),
        0 <= k <= name.len(),
        forall|x: int| i <= x < p ==> pat[x] != 42,
        globbed(pat, name, i, k),
    ensures
        k + (p - i) <= name.len(),
        globbed(pat, name, p, k + (p - i)),
    decreases p - i,
{
    if i < p {
        lemma_through(pat, name, i + 1, p, k + 1);
    }
}

proof fn lemma_from_later(pat: Seq<u8>, name: Seq<u8>, i: int, a: int, b: int)
    requires
        a <= b,
        globbed_from(pat, name, i, b),
    ensures
        globbed_from(pat, name, i, a),
    decreases b - a,
{
    if a < b {
        lemma_from_later(pat, name, i, a + 1, b);
    }
}

/// What a star at `i - 1` could take from `m` on, a star at `p` could take too.
proof fn lemma_later_star(pat: Seq<u8>, name: Seq<u8>, i: int, p: int, m: int)
    requires
        0 <= i <= p < pat.len(),
        0 <= m,
        forall|x: int| i <= x < p ==> pat[x] != 42,
        pat[p] == 42,
        globbed_from(pat, name, i, m),
    ensures
        globbed_from(pat, name, p + 1, m + (p - i)),
    decreases name.len() + 1 - m,
{
    if globbed(pat, name, i, m) {
        lemma_through(pat, name, i, p, m);
        lemma_star(pat, name, p, m + (p - i));
    } else {
        lemma_later_star(pat, name, i, p, m + 1);
        lemma_from_later(pat, name, p + 1, m + (p - i), m + 1 + (p - i));
    }
}

/// A part without stars that does not fit any more matches nowhere.
proof fn lemma_too_late(pat: Seq<u8>, name: Seq<u8>, i: int, p: int, m: int)
    requires
        0 <= i <= p <= pat.len(),
        0 <= m,
        forall|x: int| i <= x < p ==> pat[x] != 42,
        m + (p - i) > name.len(),
    ensures
        !globbed_from(pat, name, i, m),
    decreases name.len() + 1 - m,
{
    if m <= name.len() {
        if globbed(pat, name, i, m) {
            lemma_through(pat, name, i, p, m);
        }
        lemma_too_late(pat, name, i, p, m + 1);
    }
}

/// What is left to try: the match goes on from here, or the last star takes
/// more.
spec fn still_open(pat: Seq<u8>, name: Seq<u8>, p: int, n: int, star: Option<usize>, mark: int) -> bool {
    globbed(pat, name, p, n) || match star {
        Some(sp) => globbed_from(pat, name, sp + 1, mark + 1),
        None => false,
    }
}

/// Whether a name matches a pattern. The last star gives way byte by byte, so
/// that no pattern takes more than quadratic time.
pub fn glob_match(pat: &[u8], name: &[u8]) -> (b: bool)
    ensures
        b == globbed(pat@, name@, 0, 0),
{
    let mut p: usize = 0;
    let mut n: usize = 0;
    let mut star: Option<usize> = None;
    let mut mark: usize = 0;
    let plen = pat.len();
    let nlen = name.len();
    while n < nlen
        invariant
            plen == pat@.len(),
            nlen == name@.len(),
            p <= plen,
            n <= nlen,
            match star {
                Some(sp) => {
                    &&& sp < p
                    &&& pat@[sp as int] == 42
                    &&& mark <= n
                    &&& n - mark == p - (sp + 1)
                    &&& forall|x: int| sp + 1 <= x < p ==> pat@[x] != 42
                },
                None => mark == 0,
            },
            globbed(pat@, name@, 0, 0) == still_open(
                pat@,
                name@,
                p as int,
                n as int,
                star,
                mark as int,
            ),
        decreases nlen - mark, plen - p,
    {
        if p < plen && pat[p] == 42 {
            proof {
                lemma_star(pat@, name@, p as int, n as int);
                if let Some(sp) = star {
                    if globbed_from(pat@, name@, sp + 1, mark + 1) {
                        lemma_later_star(pat@, name@, sp + 1, p as int, mark + 1);
                        lemma_from_later(pat@, name@, p + 1, n as int, n + 1);
                    }
                }
            }
            star = Some(p);
            mark = n;
            p += 1;
        } else if p < plen && (pat[p] == 63 || pat[p] == name[n]) {
            p += 1;
            n += 1;
        } else {
            match star {
                Some(sp) => {
                    assert(!globbed(pat@, name@, p as int, n as int));
                    p = sp + 1;
                    mark += 1;
                    n = mark;
                },
                None => {
                    return false;
                },
            }
        }
    }
    proof {
        // The name is over: a star before cannot take more.
        if let Some(sp) = star {
            lemma_too_late(pat@, name@, sp + 1, p as int, mark + 1);
        }
    }
    while p < plen && pat[p] == 42
        invariant
            plen == pat@.len(),
            nlen == name@.len(),
            n == nlen,
            p <= plen,
            globbed(pat@, name@, 0, 0) == globbed(pat@, name@, p as int, n as int),
        decreases plen - p,
    {
        p += 1;
    }
    p == plen
}

// ---- patterns ----------------------------------------------------------------

pub open spec fn glob_separator(c: char) -> bool {
    c == ',' || c == ' ' || c == '\t'
}

/// What stands between separators.
pub open spec fn glob_pieces(s: Seq<char>) -> Seq<Seq<char>>
    decreases s.len(),
{
    if s.len() == 0 {
        seq![Seq::<char>::empty()]
    } else {
        let p = glob_pieces(s.drop_last());
        if glob_separator(s.last()) {
            p.push(Seq::<char>::empty())
        } else {
            p.drop_last().push(p.last().push(s.last()))
        }
    }
}

/// A pattern of a filter: in lower case, without white space around it.
pub open spec fn glob_of(piece: Seq<char>) -> Seq<char> {
    trimmed(piece).map_values(|c: char| lower_char(c))
}

/// The patterns among pieces: nothing is no pattern.
pub open spec fn globs_among(p: Seq<Seq<char>>) -> Seq<Seq<char>>
    decreases p.len(),
{
    if p.len() == 0 {
        Seq::empty()
    } else if glob_of(p.last()).len() == 0 {
        globs_among(p.drop_last())
    } else {
        globs_among(p.drop_last()).push(glob_of(p.last()))
    }
}

/// The patterns of a filter.
pub open spec fn globs_of(filter: Seq<char>) -> Seq<Seq<char>> {
    globs_among(glob_pieces(filter))
}

/// A text in lower case.
fn lowered_text(v: &[char]) -> (s: String)
    ensures
        s@ == v@.map_values(|c: char| lower_char(c)),
{
    let mut s = String::new();
    let mut i: usize = 0;
    assert(s@ =~= v@.take(0).map_values(|c: char| lower_char(c)));
    while i < v.len()
        invariant
            i <= v@.len(),
            s@ == v@.take(i as int).map_values(|c: char| lower_char(c)),
        decreases v.len() - i,
    {
        push_char(&mut s, lower(v[i]));
        assert(s@ =~= v@.take(i + 1).map_values(|c: char| lower_char(c)));
        i += 1;
    }
    assert(v@.take(v@.len() as int) =~= v@);
    s
}

/// Adds the pattern of a piece, if it is one.
fn push_glob(out: &mut Vec<String>, piece: &[char])
    ensures
        texts(final(out)@) == if glob_of(piece@).len() == 0 {
            texts(old(out)@)
        } else {
            texts(old(out)@).push(glob_of(piece@))
        },
{
    let ghost before = texts(out@);
    let (a, b) = trim_bounds(piece);
    if a < b {
        let word = lowered_text(vstd::slice::slice_subrange(piece, a, b));
        assert(word@ == glob_of(piece@));
        out.push(word);
        assert(texts(out@) =~= before.push(word@));
    }
}

/// Splits a filter into patterns.
pub fn parse_globs(filter: &str) -> (out: Vec<String>)
    ensures
        texts(out@) == globs_of(filter@),
{
    let chars = chars_of(filter);
    let n = chars.len();
    let mut out: Vec<String> = Vec::new();
    let mut start: usize = 0;
    let mut i: usize = 0;
    proof {
        assert(chars@.take(0) =~= Seq::<char>::empty());
        let p = glob_pieces(chars@.take(0));
        assert(p.drop_last() =~= Seq::<Seq<char>>::empty());
        assert(texts(out@) =~= globs_among(p.drop_last()));
        assert(chars@.subrange(0, 0) =~= Seq::<char>::empty());
    }
    while i < n
        invariant
            n == chars@.len(),
            start <= i <= n,
            glob_pieces(chars@.take(i as int)).len() > 0,
            glob_pieces(chars@.take(i as int)).last() == chars@.subrange(start as int, i as int),
            texts(out@) == globs_among(glob_pieces(chars@.take(i as int)).drop_last()),
        decreases n - i,
    {
        let c = chars[i];
        let ghost p = glob_pieces(chars@.take(i as int));
        proof {
            assert(chars@.take(i + 1).drop_last() =~= chars@.take(i as int));
            assert(chars@.take(i + 1).last() == c);
            assert(p.drop_last().push(p.last()) =~= p);
        }
        if c == ',' || c == ' ' || c == '\t' {
            push_glob(&mut out, vstd::slice::slice_subrange(chars.as_slice(), start, i));
            start = i + 1;
            proof {
                let q = p.push(Seq::<char>::empty());
                assert(glob_pieces(chars@.take(i + 1)) == q);
                assert(q.drop_last() =~= p);
                assert(chars@.subrange(i + 1, i + 1) =~= Seq::<char>::empty());
            }
        } else {
            proof {
                let q = p.drop_last().push(p.last().push(c));
                assert(glob_pieces(chars@.take(i + 1)) == q);
                assert(q.drop_last() =~= p.drop_last());
                assert(chars@.subrange(start as int, i + 1) =~= chars@.subrange(
                    start as int,
                    i as int,
                ).push(c));
            }
        }
        i += 1;
    }
    assert(chars@.take(n as int) =~= chars@);
    push_glob(&mut out, vstd::slice::slice_subrange(chars.as_slice(), start, n));
    proof {
        let p = glob_pieces(chars@);
        assert(p.drop_last().push(p.last()) =~= p);
    }
    out
}

/// A file name passes a filter: there is no pattern, or one matches.
pub open spec fn name_passes(globs: Seq<Seq<char>>, name: Seq<char>) -> bool {
    let low = encode_utf8(name.map_values(|c: char| lower_char(c)));
    globs.len() == 0 || exists|i: int|
        0 <= i < globs.len() && globbed(encode_utf8(#[trigger] globs[i]), low, 0, 0)
}

/// Whether a file name passes a filter.
pub fn globs_match(globs: &Vec<String>, name: &str) -> (b: bool)
    ensures
        b == name_passes(texts(globs@), name@),
{
    if globs.len() == 0 {
        return true;
    }
    let chars = chars_of(name);
    let low = lowered_text(chars.as_slice());
    let bytes = low.as_str().as_bytes();
    let mut i: usize = 0;
    while i < globs.len()
        invariant
            i <= globs@.len(),
            globs@.len() > 0,
            bytes@ == encode_utf8(name@.map_values(|c: char| lower_char(c))),
            forall|j: int|
                0 <= j < i ==> !globbed(
                    encode_utf8(#[trigger] texts(globs@)[j]),
                    bytes@,
                    0,
                    0,
                ),
        decreases globs.len() - i,
    {
        let g = globs[i].as_str();
        assert(texts(globs@)[i as int] == g@);
        if glob_match(g.as_bytes(), bytes) {
            return true;
        }
        i += 1;
    }
    false
}

// ---- one file ----------------------------------------------------------------

/// A file looks binary: a zero byte stands near its start.
pub open spec fn binary(buf: Seq<u8>) -> bool {
    exists|i: int| 0 <= i < buf.len() && i < BINARY_PROBE && #[trigger] buf[i] == 0
}

pub fn looks_binary(buf: &[u8]) -> (b: bool)
    ensures
        b == binary(buf@),
{
    let n = if buf.len() <= BINARY_PROBE {
        buf.len()
    } else {
        BINARY_PROBE
    };
    match crate::bytes::find_byte(0, vstd::slice::slice_subrange(buf, 0, n)) {
        Some(i) => {
            assert(buf@[i as int] == 0);
            true
        },
        None => {
            let ghost head = buf@.subrange(0, n as int);
            assert forall|i: int| 0 <= i < buf@.len() && i < BINARY_PROBE implies #[trigger] buf@[i]
                != 0 by {
                assert(head[i] == buf@[i]);
            }
            false
        },
    }
}

/// The text of a line as it is shown with a match.
pub open spec fn preview(src: Source, line: nat) -> Seq<char> {
    if line >= src.count() {
        Seq::empty()
    } else {
        let (s, e) = src.text_span(line);
        let end = if e <= s + PREVIEW_MAX_BYTES { e } else { s + PREVIEW_MAX_BYTES };
        first_of(decoded(src.encoding, src.buf.subrange(s, end)), PREVIEW_MAX_CHARS as nat)
    }
}

fn line_preview(buf: &[u8], index: &LineIndex, enc: Encoding, line: u64, Ghost(src): Ghost<Source>) -> (t:
    String)
    requires
        index.describes(buf@),
        index.spec_base() == src.base,
        index.spec_newline() == src.newline,
        src.base <= buf@.len(),
        src.buf == buf@,
        src.encoding == enc,
        codec_size(buf@.len()),
    ensures
        t@ == preview(src, line as nat),
{
    proof {
        index.lemma_describes(buf@);
    }
    let len = buf.len();
    match index.line_range(buf, line) {
        None => {
            let t = String::new();
            assert(t@ =~= Seq::<char>::empty());
            t
        },
        Some((s, e)) => {
            let s = s as usize;
            let e = e as usize;
            let end = if e - s <= PREVIEW_MAX_BYTES {
                e
            } else {
                s + PREVIEW_MAX_BYTES
            };
            let text = enc.decode_line(vstd::slice::slice_subrange(buf, s, end));
            if text.as_str().unicode_len() > PREVIEW_MAX_CHARS {
                let head = text.as_str().substring_char(0, PREVIEW_MAX_CHARS).to_owned();
                assert(head@ =~= first_of(text@, PREVIEW_MAX_CHARS as nat));
                head
            } else {
                text
            }
        },
    }
}

/// The lines of a file that is searched, by bytes.
pub open spec fn grep_source(buf: Seq<u8>) -> Source {
    let (enc, base) = detected(buf, None);
    Source { buf, base: base as int, newline: Newline::Byte, encoding: enc }
}

/// A file is searched at all.
pub open spec fn searched(buf: Seq<u8>, max_file_bytes: nat, max_hits: nat) -> bool {
    max_hits > 0 && 0 < buf.len() <= max_file_bytes && !binary(buf) && !detected(buf, None).0.wide()
}

/// The hits of a file are those of a search, each with a preview.
pub open spec fn file_hits(hits: Seq<GrepHit>, path: Seq<char>, src: Source, all: Seq<HitView>, max: nat) -> bool {
    let some = first_of(all, max);
    &&& hits.len() == some.len()
    &&& forall|i: int|
        0 <= i < hits.len() ==> {
            let h = #[trigger] hits[i];
            &&& h.path@ == path
            &&& h.line == some[i].line
            &&& h.col == some[i].column
            &&& h.text@ == preview(src, h.line as nat)
        }
}

/// Searches one file; nothing is found in one that is empty, too large, binary
/// or in UTF-16.
pub fn grep_file(path: &str, buf: &[u8], opts: &GrepOptions, max_hits: usize) -> (r: Result<
    Vec<GrepHit>,
    Error,
>)
    requires
        codec_size(buf@.len()),
    ensures
        ({
            let src = grep_source(buf@);
            if !searched(buf@, opts.max_file_bytes as nat, max_hits as nat) {
                r matches Ok(v) && v@.len() == 0
            } else {
                match planned(src.encoding, opts.query@, opts.regex, opts.case_sensitive) {
                    Ok(plan) => r matches Ok(v) && file_hits(
                        v@,
                        path@,
                        src,
                        all_hits(src, plan, opts.whole_word, src.base),
                        max_hits as nat,
                    ),
                    Err(e) => r matches Err(x) && x@ == ErrorView::Search(e),
                }
            }
        }),
{
    let mut out: Vec<GrepHit> = Vec::new();
    let len = buf.len();
    if max_hits == 0 || len == 0 || len as u64 > opts.max_file_bytes || looks_binary(buf) {
        return Ok(out);
    }
    let (enc, base) = detect(buf, None);
    if enc.is_wide() {
        return Ok(out);
    }
    let ghost src = grep_source(buf@);
    let index = LineIndex::build(buf, base as u64, DEFAULT_STRIDE);
    let sopts = SearchOptions {
        query: opts.query.clone(),
        regex: opts.regex,
        case_sensitive: opts.case_sensitive,
        whole_word: opts.whole_word,
        start_byte: base as u64,
        max_hits,
    };
    let res = match search(buf, base as u64, len as u64, &index, enc, &sopts) {
        Ok(res) => res,
        Err(e) => {
            return Err(e);
        },
    };
    let ghost some = hits_view(res.hits@);
    let mut i: usize = 0;
    while i < res.hits.len()
        invariant
            i <= res.hits@.len(),
            some == hits_view(res.hits@),
            index.describes(buf@),
            index.spec_base() == src.base,
            index.spec_newline() == src.newline,
            src.base <= buf@.len(),
            src.buf == buf@,
            src.encoding == enc,
            codec_size(buf@.len()),
            out@.len() == i,
            forall|j: int|
                0 <= j < out@.len() ==> {
                    let h = #[trigger] out@[j];
                    &&& h.path@ == path@
                    &&& h.line == some[j].line
                    &&& h.col == some[j].column
                    &&& h.text@ == preview(src, h.line as nat)
                },
        decreases res.hits.len() - i,
    {
        let hit = res.hits[i];
        assert(some[i as int] == hit@);
        let text = line_preview(buf, &index, enc, hit.line, Ghost(src));
        out.push(GrepHit { path: path.to_owned(), line: hit.line, col: hit.column, text });
        i += 1;
    }
    Ok(out)
}

// ---- the walk ----------------------------------------------------------------

/// Whether a directory entry is looked at: not one that starts with a dot.
pub fn is_visible(name: &str) -> (b: bool)
    ensures
        b == !(name@.len() > 0 && name@[0] == '.'),
{
    let chars = chars_of(name);
    !(chars.len() > 0 && chars[0] == '.')
}

/// What a directory entry is.
#[derive(Clone, Copy, Debug, PartialEq, Eq, Structural)]
pub enum EntryKind {
    File,
    Folder,
    /// A link, which is not followed, or anything else.
    Other,
}

/// An entry of a directory.
#[derive(Clone, Debug)]
pub struct Entry {
    pub name: String,
    pub path: String,
    pub kind: EntryKind,
}

#[verifier::ext_equal]
pub struct EntryView {
    pub name: Seq<char>,
    pub path: Seq<char>,
    pub kind: EntryKind,
}

impl View for Entry {
    type V = EntryView;

    open spec fn view(&self) -> EntryView {
        EntryView { name: self.name@, path: self.path@, kind: self.kind }
    }
}

pub open spec fn entries_view(v: Seq<Entry>) -> Seq<EntryView> {
    v.map_values(|e: Entry| e@)
}

/// An entry is looked at: as a file that passes the filter, or as a folder.
pub open spec fn looked_at(e: EntryView, files: bool, globs: Seq<Seq<char>>) -> bool {
    &&& !(e.name.len() > 0 && e.name[0] == '.')
    &&& if files {
        e.kind == EntryKind::File && name_passes(globs, e.name)
    } else {
        e.kind == EntryKind::Folder
    }
}

/// One entry comes before another: by its name, and then by where it stands.
pub open spec fn entry_less(v: Seq<EntryView>, i: int, j: int) -> bool {
    let (a, b) = (encode_utf8(v[i].name), encode_utf8(v[j].name));
    if a == b {
        i < j
    } else {
        key_less(a, b)
    }
}

/// The entries that are looked at, each once, in order.
pub open spec fn in_name_order(
    order: Seq<int>,
    v: Seq<EntryView>,
    files: bool,
    globs: Seq<Seq<char>>,
) -> bool {
    &&& forall|i: int|
        0 <= i < order.len() ==> 0 <= #[trigger] order[i] < v.len() && looked_at(
            v[order[i]],
            files,
            globs,
        )
    &&& forall|k: int|
        0 <= k < v.len() && looked_at(#[trigger] v[k], files, globs) ==> order.contains(k)
    &&& forall|i: int, j: int|
        0 <= i < j < order.len() ==> entry_less(v, #[trigger] order[i], #[trigger] order[j])
}

/// The paths of the entries that are looked at, in the order of their names.
pub open spec fn listed(
    paths: Seq<Seq<char>>,
    v: Seq<EntryView>,
    files: bool,
    globs: Seq<Seq<char>>,
) -> bool {
    exists|order: Seq<int>| #[trigger]
        in_name_order(order, v, files, globs) && paths == order.map_values(|k: int| v[k].path)
}

/// Picks the entries that are looked at.
fn pick(entries: &Vec<Entry>, files: bool, globs: &Vec<String>) -> (paths: Vec<String>)
    ensures
        listed(texts(paths@), entries_view(entries@), files, texts(globs@)),
{
    let ghost v = entries_view(entries@);
    let ghost g = texts(globs@);
    let mut recs: Vec<(Vec<u8>, u64)> = Vec::new();
    let mut i: usize = 0;
    while i < entries.len()
        invariant
            i <= entries@.len(),
            v == entries_view(entries@),
            g == texts(globs@),
            forall|r: int|
                0 <= r < recs@.len() ==> {
                    let k = (#[trigger] recs@[r]).1 as int;
                    k < i && looked_at(v[k], files, g) && recs@[r].0@ == encode_utf8(v[k].name)
                },
            forall|r: int, q: int|
                0 <= r < q < recs@.len() ==> (#[trigger] recs@[r]).1 < (#[trigger] recs@[q]).1,
            forall|k: int|
                0 <= k < i && looked_at(#[trigger] v[k], files, g) ==> exists|r: int|
                    0 <= r < recs@.len() && (#[trigger] recs@[r]).1 == k,
        decreases entries.len() - i,
    {
        let e = &entries[i];
        assert(v[i as int] == e@);
        let fits = is_visible(e.name.as_str()) && if files {
            e.kind == EntryKind::File && globs_match(globs, e.name.as_str())
        } else {
            e.kind == EntryKind::Folder
        };
        let ghost before = recs@;
        if fits {
            let mut key: Vec<u8> = Vec::new();
            extend(&mut key, e.name.as_str().as_bytes());
            assert(key@ =~= encode_utf8(e.name@));
            recs.push((key, i as u64));
        }
        proof {
            assert forall|k: int|
                0 <= k < i + 1 && looked_at(#[trigger] v[k], files, g) implies exists|r: int|
                0 <= r < recs@.len() && (#[trigger] recs@[r]).1 == k by {
                if k < i {
                    let r = choose|r: int| 0 <= r < before.len() && (#[trigger] before[r]).1 == k;
                    assert(recs@[r] == before[r]);
                } else {
                    assert(recs@[recs@.len() - 1].1 == k);
                }
            }
        }
        i += 1;
    }
    let ghost unsorted = recs_view(recs@);
    let ghost given = recs@;
    sort_records(&mut recs, false);
    let ghost s = recs_view(recs@);
    let ghost order = s.map_values(|r: Rec| r.1 as int);
    proof {
        assert forall|k: int| 0 <= k < v.len() && looked_at(#[trigger] v[k], files, g) implies exists|
            r: int,
        |
            0 <= r < unsorted.len() && (#[trigger] unsorted[r]).1 == k by {
            let r = choose|r: int| 0 <= r < given.len() && (#[trigger] given[r]).1 == k;
            assert(unsorted[r] == rec_view(given[r]));
        }
        lemma_order(v, files, g, unsorted, s);
    }
    let n = entries.len();
    let mut paths: Vec<String> = Vec::new();
    let mut j: usize = 0;
    while j < recs.len()
        invariant
            j <= recs@.len(),
            n == entries@.len(),
            v == entries_view(entries@),
            s == recs_view(recs@),
            order == s.map_values(|r: Rec| r.1 as int),
            in_name_order(order, v, files, g),
            paths@.len() == j,
            forall|i: int| 0 <= i < j ==> (#[trigger] paths@[i])@ == v[order[i]].path,
        decreases recs.len() - j,
    {
        assert(s[j as int] == rec_view(recs@[j as int]));
        assert(order[j as int] == recs@[j as int].1);
        assert(0 <= order[j as int] < n);
        let k = recs[j].1 as usize;
        assert(v[k as int] == entries@[k as int]@);
        paths.push(entries[k].path.clone());
        j += 1;
    }
    assert(texts(paths@) =~= order.map_values(|k: int| v[k].path));
    paths
}

/// Sorted records of entries are the entries in order.
proof fn lemma_order(
    v: Seq<EntryView>,
    files: bool,
    globs: Seq<Seq<char>>,
    given: Seq<Rec>,
    s: Seq<Rec>,
)
    requires
        v.len() <= u64::MAX,
        in_order(s, false),
        s.to_multiset() == given.to_multiset(),
        forall|r: int|
            0 <= r < given.len() ==> {
                let k = (#[trigger] given[r]).1 as int;
                k < v.len() && looked_at(v[k], files, globs) && given[r].0 == encode_utf8(v[k].name)
            },
        forall|r: int, q: int|
            0 <= r < q < given.len() ==> (#[trigger] given[r]).1 < (#[trigger] given[q]).1,
        forall|k: int|
            0 <= k < v.len() && looked_at(#[trigger] v[k], files, globs) ==> exists|r: int|
                0 <= r < given.len() && (#[trigger] given[r]).1 == k,
    ensures
        in_name_order(s.map_values(|r: Rec| r.1 as int), v, files, globs),
{
    broadcast use vstd::seq_lib::group_to_multiset_ensures;

    let order = s.map_values(|r: Rec| r.1 as int);
    assert forall|i: int| 0 <= i < s.len() implies given.contains(#[trigger] s[i]) by {
        assert(s.contains(s[i]));
        assert(given.to_multiset().count(s[i]) > 0);
    }
    assert forall|i: int| 0 <= i < order.len() implies 0 <= #[trigger] order[i] < v.len()
        && looked_at(v[order[i]], files, globs) by {
        let r = choose|r: int| 0 <= r < given.len() && given[r] == s[i];
        assert(given.contains(s[i]));
    }
    assert forall|k: int| 0 <= k < v.len() && looked_at(#[trigger] v[k], files, globs) implies
        order.contains(k) by {
        let r = choose|r: int| 0 <= r < given.len() && (#[trigger] given[r]).1 == k;
        assert(given.contains(given[r]));
        assert(s.to_multiset().count(given[r]) > 0);
        assert(s.contains(given[r]));
        let i = choose|i: int| 0 <= i < s.len() && s[i] == given[r];
        assert(order[i] == k);
    }
    assert(given.no_duplicates()) by {
        assert forall|i: int, j: int| 0 <= i < given.len() && 0 <= j < given.len() && i != j implies
            given[i] != given[j] by {
            if i < j {
                assert(given[i].1 < given[j].1);
            } else {
                assert(given[j].1 < given[i].1);
            }
        }
    }
    given.lemma_multiset_has_no_duplicates();
    assert(s.no_duplicates()) by {
        assert forall|x: Rec| s.to_multiset().contains(x) implies s.to_multiset().count(x)
            == 1 by {
            assert(given.to_multiset().contains(x));
        }
        s.lemma_multiset_has_no_duplicates_conv();
    }
    assert forall|i: int, j: int| 0 <= i < j < order.len() implies entry_less(
        v,
        #[trigger] order[i],
        #[trigger] order[j],
    ) by {
        let (a, b) = (s[i], s[j]);
        assert(given.contains(a) && given.contains(b));
        let r = choose|r: int| 0 <= r < given.len() && given[r] == a;
        let q = choose|q: int| 0 <= q < given.len() && given[q] == b;
        assert(a != b);
        assert(!rec_less(s[j], s[i], false));
        records_are_ordered(a, b, a, false);
        assert(rec_less(a, b, false));
    }
}

/// What to do next in a search in many files.
#[derive(Clone, Debug)]
pub enum WalkStep {
    /// List this folder.
    List(String),
    /// Search this file, for so many hits at most.
    Search { path: String, max_hits: usize },
    /// Stop: all was seen, or enough.
    Done,
}

/// A search in many files that is under way.
#[derive(Debug)]
pub struct GrepWalk {
    globs: Vec<String>,
    max_hits: usize,
    max_per_file: usize,
    max_files: usize,
    /// What is still to be searched and listed, the next one last.
    files: Vec<String>,
    folders: Vec<String>,
    over: bool,
    result: GrepResult,
}

pub open spec fn empty_query() -> ErrorView {
    ErrorView::Search("empty query"@)
}

/// A search in many files as a mathematical value.
#[verifier::ext_equal]
pub struct WalkView {
    pub globs: Seq<Seq<char>>,
    pub max_hits: nat,
    pub max_per_file: nat,
    pub max_files: nat,
    /// What is still to be searched and listed, the next one first.
    pub files: Seq<Seq<char>>,
    pub folders: Seq<Seq<char>>,
    /// Enough was seen.
    pub over: bool,
    pub hits: Seq<GrepHit>,
    pub scanned: nat,
    /// The search stopped for its hits, or for its files.
    pub truncated: bool,
    pub files_truncated: bool,
}

impl View for GrepWalk {
    type V = WalkView;

    closed spec fn view(&self) -> WalkView {
        WalkView {
            globs: texts(self.globs@),
            max_hits: self.max_hits as nat,
            max_per_file: self.max_per_file as nat,
            max_files: self.max_files as nat,
            files: texts(self.files@).reverse(),
            folders: texts(self.folders@).reverse(),
            over: self.over,
            hits: self.result.hits@,
            scanned: self.result.files_scanned as nat,
            truncated: self.result.truncated,
            files_truncated: self.result.files_truncated,
        }
    }
}

impl WalkView {
    /// How many hits may still be found in one file.
    pub open spec fn allowance(self) -> nat {
        let left = (self.max_hits - self.hits.len()) as nat;
        if left <= self.max_per_file {
            left
        } else {
            self.max_per_file
        }
    }

    pub open spec fn valid(self) -> bool {
        self.hits.len() <= self.max_hits
    }
}

proof fn lemma_reverse_pop(s: Seq<Seq<char>>)
    requires
        s.len() > 0,
    ensures
        s.reverse()[0] == s.last(),
        s.drop_last().reverse() == s.reverse().skip(1),
{
    assert(s.drop_last().reverse() =~= s.reverse().skip(1));
}

/// Appends paths in reverse.
fn push_reversed(to: &mut Vec<String>, paths: Vec<String>)
    ensures
        texts(final(to)@).reverse() == texts(paths@) + texts(old(to)@).reverse(),
{
    let ghost all = texts(paths@);
    let ghost below = texts(to@).reverse();
    let mut rest = paths;
    assert(all.skip(all.len() as int) + below =~= below);
    while rest.len() > 0
        invariant
            texts(rest@) == all.take(rest@.len() as int),
            rest@.len() <= all.len(),
            texts(to@).reverse() == all.skip(rest@.len() as int) + below,
        decreases rest.len(),
    {
        let ghost n = rest@.len();
        let ghost before = texts(to@);
        let ghost r0 = rest@;
        if let Some(x) = rest.pop() {
            to.push(x);
            proof {
                assert(texts(r0)[n - 1] == x@);
                assert(texts(rest@) =~= all.take(n - 1));
                assert(texts(to@) =~= before.push(x@));
                assert(before.push(x@).reverse() =~= seq![x@] + before.reverse());
                assert(seq![x@] + all.skip(n as int) =~= all.skip(n - 1));
                assert(texts(to@).reverse() =~= all.skip(n - 1) + below);
            }
        }
    }
    assert(all.skip(0) =~= all);
}

impl GrepWalk {
    /// Starts a search below a folder.
    pub fn new(root: &str, opts: &GrepOptions) -> (r: Result<GrepWalk, Error>)
        ensures
            match r {
                Ok(w) => {
                    &&& opts.query@.len() > 0
                    &&& w@.valid()
                    &&& w@ == (WalkView {
                        globs: globs_of(opts.glob@),
                        max_hits: opts.max_hits as nat,
                        max_per_file: opts.max_per_file as nat,
                        max_files: opts.max_files as nat,
                        files: Seq::empty(),
                        folders: seq![root@],
                        over: false,
                        hits: Seq::empty(),
                        scanned: 0,
                        truncated: false,
                        files_truncated: false,
                    })
                },
                Err(e) => opts.query@.len() == 0 && e@ == empty_query(),
            },
    {
        if opts.query.as_str().unicode_len() == 0 {
            return Err(Error::Search("empty query".to_owned()));
        }
        let mut folders: Vec<String> = Vec::new();
        folders.push(root.to_owned());
        let w = GrepWalk {
            globs: parse_globs(opts.glob.as_str()),
            max_hits: opts.max_hits,
            max_per_file: opts.max_per_file,
            max_files: opts.max_files,
            files: Vec::new(),
            folders,
            over: false,
            result: GrepResult {
                hits: Vec::new(),
                truncated: false,
                files_scanned: 0,
                files_truncated: false,
            },
        };
        assert(w@.files =~= Seq::empty());
        assert(w@.folders =~= seq![root@]);
        Ok(w)
    }

    /// What to do next: the files of a folder are searched before the folders
    /// in it are listed.
    pub fn step(&mut self) -> (s: WalkStep)
        requires
            old(self)@.valid(),
        ensures
            ({
                let w = old(self)@;
                if w.over || (w.files.len() == 0 && w.folders.len() == 0) {
                    s is Done && final(self)@ == w
                } else if w.files.len() > 0 {
                    if w.scanned >= w.max_files {
                        &&& s is Done
                        &&& final(self)@ == (WalkView { over: true, files_truncated: true, ..w })
                    } else {
                        &&& s matches WalkStep::Search { path, max_hits } && path@ == w.files[0]
                            && max_hits == w.allowance()
                        &&& final(self)@ == (WalkView {
                            files: w.files.skip(1),
                            scanned: w.scanned + 1,
                            ..w
                        })
                    }
                } else {
                    &&& s matches WalkStep::List(path) && path@ == w.folders[0]
                    &&& final(self)@ == (WalkView { folders: w.folders.skip(1), ..w })
                }
            }),
    {
        let ghost f = texts(self.files@);
        let ghost d = texts(self.folders@);
        if self.over {
            return WalkStep::Done;
        }
        if self.files.len() > 0 {
            if self.result.files_scanned >= self.max_files as u64 {
                self.over = true;
                self.result.files_truncated = true;
                return WalkStep::Done;
            }
            proof {
                lemma_reverse_pop(f);
            }
            if let Some(path) = self.files.pop() {
                assert(texts(self.files@) =~= f.drop_last());
                self.result.files_scanned = self.result.files_scanned + 1;
                let left = self.max_hits - self.result.hits.len();
                let max_hits = if left <= self.max_per_file {
                    left
                } else {
                    self.max_per_file
                };
                return WalkStep::Search { path, max_hits };
            }
        }
        if self.folders.len() > 0 {
            proof {
                lemma_reverse_pop(d);
            }
            if let Some(path) = self.folders.pop() {
                assert(texts(self.folders@) =~= d.drop_last());
                return WalkStep::List(path);
            }
        }
        WalkStep::Done
    }

    /// Takes the entries of a folder: what is visible is looked at in the order
    /// of the names, and before everything that was found earlier.
    pub fn list(&mut self, entries: &Vec<Entry>)
        requires
            old(self)@.valid(),
        ensures
            ({
                let w = old(self)@;
                let v = entries_view(entries@);
                exists|files: Seq<Seq<char>>, folders: Seq<Seq<char>>|
                    {
                        &&& #[trigger] listed(files, v, true, w.globs)
                        &&& #[trigger] listed(folders, v, false, w.globs)
                        &&& final(self)@ == (WalkView {
                            files: files + w.files,
                            folders: folders + w.folders,
                            ..w
                        })
                    }
            }),
    {
        let ghost w = self@;
        let files = pick(entries, true, &self.globs);
        let folders = pick(entries, false, &self.globs);
        let ghost (a, b) = (texts(files@), texts(folders@));
        push_reversed(&mut self.files, files);
        push_reversed(&mut self.folders, folders);
        assert(self@ == (WalkView { files: a + w.files, folders: b + w.folders, ..w }));
    }

    /// Takes the hits of a file; enough of them end the search.
    pub fn found(&mut self, hits: Vec<GrepHit>)
        requires
            old(self)@.valid(),
            old(self)@.hits.len() + hits@.len() <= old(self)@.max_hits,
        ensures
            ({
                let w = old(self)@;
                let all = w.hits + hits@;
                let full = all.len() >= w.max_hits;
                &&& final(self)@.valid()
                &&& final(self)@ == (WalkView {
                    hits: all,
                    over: w.over || full,
                    truncated: w.truncated || full,
                    ..w
                })
            }),
    {
        let mut new = hits;
        self.result.hits.append(&mut new);
        if self.result.hits.len() >= self.max_hits {
            self.result.truncated = true;
            self.over = true;
        }
    }

    /// What was found.
    pub fn finish(self) -> (r: GrepResult)
        ensures
            r.hits@ == self@.hits,
            r.files_scanned == self@.scanned,
            r.truncated == self@.truncated,
            r.files_truncated == self@.files_truncated,
    {
        self.result
    }
}

/// The order in which entries are looked at is the only one.
pub proof fn one_order_of_names(
    a: Seq<Seq<char>>,
    b: Seq<Seq<char>>,
    v: Seq<EntryView>,
    files: bool,
    globs: Seq<Seq<char>>,
)
    requires
        listed(a, v, files, globs),
        listed(b, v, files, globs),
    ensures
        a == b,
{
    let x = choose|x: Seq<int>| #[trigger]
        in_name_order(x, v, files, globs) && a == x.map_values(|k: int| v[k].path);
    let y = choose|y: Seq<int>| #[trigger]
        in_name_order(y, v, files, globs) && b == y.map_values(|k: int| v[k].path);
    lemma_agree(x, y, v, files, globs, x.len() as int);
    lemma_agree(y, x, v, files, globs, y.len() as int);
    assert(x =~= y);
}

/// Up to any place, one order agrees with another.
proof fn lemma_agree(
    x: Seq<int>,
    y: Seq<int>,
    v: Seq<EntryView>,
    files: bool,
    globs: Seq<Seq<char>>,
    n: int,
)
    requires
        in_name_order(x, v, files, globs),
        in_name_order(y, v, files, globs),
        0 <= n <= x.len(),
    ensures
        n <= y.len(),
        forall|i: int| 0 <= i < n ==> #[trigger] x[i] == y[i],
    decreases n,
{
    if n > 0 {
        lemma_agree(x, y, v, files, globs, n - 1);
        let k = x[n - 1];
        assert(looked_at(v[k], files, globs));
        assert(y.contains(k));
        let p = choose|p: int| 0 <= p < y.len() && y[p] == k;
        if p < n - 1 {
            assert(x[p] == y[p]);
            assert(entry_less(v, x[p], x[n - 1]));
            lemma_entry_less(v, k, k);
        }
        if p > n - 1 {
            let h = y[n - 1];
            assert(entry_less(v, y[n - 1], y[p]));
            assert(looked_at(v[h], files, globs));
            assert(x.contains(h));
            let q = choose|q: int| 0 <= q < x.len() && x[q] == h;
            if q < n - 1 {
                assert(x[q] == y[q]);
                assert(entry_less(v, y[q], y[n - 1]));
                lemma_entry_less(v, h, h);
            } else if q == n - 1 {
                lemma_entry_less(v, k, k);
            } else {
                assert(entry_less(v, x[n - 1], x[q]));
                lemma_entry_less(v, k, h);
            }
        }
    }
}

proof fn lemma_entry_less(v: Seq<EntryView>, i: int, j: int)
    ensures
        !entry_less(v, i, i),
        entry_less(v, i, j) ==> !entry_less(v, j, i),
{
    let (a, b) = (encode_utf8(v[i].name), encode_utf8(v[j].name));
    keys_are_ordered(a, b, a);
}

} // verus!
