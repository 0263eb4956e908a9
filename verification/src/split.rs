//! Splitting a document into parts of a number of lines each. Parts hold the
//! bytes of the document as they are, so that the parts one after the other
//! are the document.

use vstd::prelude::*;
use vstd::string::*;

use crate::document::{DocView, Document};
use crate::error::{Error, ErrorView};
use crate::lines::{lemma_count, lemma_start, lemma_start_order};
use crate::text::{chars_of, decimal, decimal_text, push_char, string_of, texts};

verus! {

/// How many names of parts are reported at most.
pub const SPLIT_RESULT_MAX_FILES: usize = 50;

/// How to split.
#[derive(Clone, Debug)]
pub struct SplitOptions {
    /// Where parts are written; beside the document if `None`.
    pub dir: Option<String>,
    /// The name from which the names of the parts are made; that of the
    /// document if `None`.
    pub file_name: Option<String>,
}

impl Default for SplitOptions {
    fn default() -> (o: SplitOptions)
        ensures
            o.dir is None,
            o.file_name is None,
    {
        SplitOptions { dir: None, file_name: None }
    }
}

/// What a split did.
#[derive(Clone, Debug)]
pub struct SplitResult {
    /// The names of the first parts.
    pub files: Vec<String>,
    /// How many parts there are.
    pub count: u64,
    pub total_lines: u64,
}

// ---- names -------------------------------------------------------------------

/// How many digits part numbers have at least.
pub open spec fn width_for(count: nat) -> nat {
    if decimal_text(count).len() > 4 {
        decimal_text(count).len()
    } else {
        4
    }
}

pub fn part_width(count: u64) -> (w: usize)
    ensures
        w == width_for(count as nat),
{
    let n = decimal(count as u128).as_str().unicode_len();
    if n > 4 {
        n
    } else {
        4
    }
}

/// A text with zeros before it, up to a width.
pub open spec fn zero_padded(s: Seq<char>, width: nat) -> Seq<char> {
    if s.len() >= width {
        s
    } else {
        Seq::new((width - s.len()) as nat, |i: int| '0') + s
    }
}

/// The name of a part.
pub open spec fn part_name(stem: Seq<char>, ext: Seq<char>, part: nat, width: nat) -> Seq<char> {
    stem + ".part"@ + zero_padded(decimal_text(part), width) + ext
}

pub fn part_file_name(stem: &str, ext: &str, part: u64, width: usize) -> (s: String)
    ensures
        s@ == part_name(stem@, ext@, part as nat, width as nat),
{
    let number = decimal(part as u128);
    let n = number.as_str().unicode_len();
    let mut pad = String::new();
    let mut i: usize = n;
    assert(pad@ =~= Seq::new(0, |i: int| '0'));
    while i < width
        invariant
            n <= i,
            n <= width ==> i <= width,
            n > width ==> i == n,
            pad@ == Seq::new((i - n) as nat, |i: int| '0'),
        decreases width - i,
    {
        push_char(&mut pad, '0');
        assert(pad@ =~= Seq::new((i + 1 - n) as nat, |i: int| '0'));
        i += 1;
    }
    let padded = pad.concat(number.as_str());
    assert(padded@ =~= zero_padded(number@, width as nat));
    stem.to_owned().concat(".part").concat(padded.as_str()).concat(ext)
}

/// The position of the last dot, if there is one.
pub open spec fn last_dot(s: Seq<char>) -> Option<int>
    decreases s.len(),
{
    if s.len() == 0 {
        None
    } else if s.last() == '.' {
        Some(s.len() - 1)
    } else {
        last_dot(s.drop_last())
    }
}

/// A file name, cut before the dot of its extension. A name that only starts
/// with a dot has no extension; one that is no name is called `output`.
pub open spec fn stem_and_extension(name: Seq<char>) -> (Seq<char>, Seq<char>) {
    if name.len() == 0 || name == ".."@ {
        ("output"@, Seq::empty())
    } else {
        match last_dot(name) {
            Some(i) if i > 0 => (name.take(i), name.skip(i)),
            _ => (name, Seq::empty()),
        }
    }
}

/// Cuts a file name before the dot of its extension.
pub fn naming(name: &str) -> (r: (String, String))
    ensures
        (r.0@, r.1@) == stem_and_extension(name@),
{
    let chars = chars_of(name);
    let n = chars.len();
    proof {
        reveal_strlit("..");
    }
    if n == 0 || (n == 2 && chars[0] == '.' && chars[1] == '.') {
        proof {
            if n == 2 {
                assert(name@ =~= ".."@);
            }
        }
        let ext = String::new();
        assert(ext@ =~= Seq::<char>::empty());
        return ("output".to_owned(), ext);
    }
    assert(name@ != ".."@) by {
        if name@ == ".."@ {
            assert(chars@[0] == '.' && chars@[1] == '.');
        }
    }
    let mut i: usize = n;
    assert(chars@.take(n as int) =~= chars@);
    while i > 0 && chars[i - 1] != '.'
        invariant
            i <= n,
            n == chars@.len(),
            last_dot(chars@) == last_dot(chars@.take(i as int)),
        decreases i,
    {
        assert(chars@.take(i as int).drop_last() =~= chars@.take(i - 1));
        i -= 1;
    }
    proof {
        if i > 0 {
            assert(chars@.take(i as int).last() == chars@[i - 1]);
        }
    }
    if i > 1 {
        let stem = vstd::slice::slice_subrange(chars.as_slice(), 0, i - 1);
        let ext = vstd::slice::slice_subrange(chars.as_slice(), i - 1, n);
        assert(stem@ =~= chars@.take(i - 1));
        assert(ext@ =~= chars@.skip(i - 1));
        return (string_of(stem), string_of(ext));
    }
    let ext = String::new();
    assert(ext@ =~= Seq::<char>::empty());
    (name.to_owned(), ext)
}

// ---- parts -------------------------------------------------------------------

/// How many parts there are.
pub open spec fn part_count(total: nat, per: nat) -> nat {
    if per == 0 {
        0
    } else {
        ((total + per - 1) / per as int) as nat
    }
}

/// The line at which a part starts; parts are counted from 1.
pub open spec fn part_start(total: nat, per: nat, part: nat) -> nat {
    let at = (part - 1) * per;
    if at <= total {
        at as nat
    } else {
        total
    }
}

/// The bytes of a part: the first also has those before the content.
pub open spec fn part_image(doc: DocView, per: nat, part: nat) -> Seq<u8> {
    let n = doc.count();
    (if part == 1 {
        doc.buf.take(doc.base)
    } else {
        Seq::empty()
    }) + doc.span(part_start(n, per, part), part_start(n, per, part + 1))
}

/// The first parts, one after the other.
pub open spec fn parts_upto(doc: DocView, per: nat, k: nat) -> Seq<u8>
    decreases k,
{
    if k == 0 {
        Seq::empty()
    } else {
        parts_upto(doc, per, (k - 1) as nat) + part_image(doc, per, k)
    }
}

proof fn lemma_part_start(total: nat, per: nat, part: nat)
    requires
        per > 0,
        part >= 1,
    ensures
        part_start(total, per, part) <= part_start(total, per, part + 1) <= total,
        part_start(total, per, 1) == 0,
        part_start(total, per, part_count(total, per) + 1) == total,
        part <= part_count(total, per) ==> part_start(total, per, part) < total,
        part < part_count(total, per) ==> part_start(total, per, part + 1) == part * per,
{
    assert((part + 1 - 1) * per == (part - 1) * per + per) by (nonlinear_arith);
    assert((1 - 1) * per == 0) by (nonlinear_arith);
    let c = part_count(total, per);
    assert(c * per >= total && (c > 0 ==> (c - 1) * per < total)) by (nonlinear_arith)
        requires
            per > 0,
            c == (total + per - 1) / per as int,
    ;
    assert((c + 1 - 1) * per == c * per) by (nonlinear_arith);
    if part <= c {
        assert((part - 1) * per <= (c - 1) * per) by (nonlinear_arith)
            requires
                part <= c,
                per > 0,
        ;
    }
    if part < c {
        assert(part * per <= (c - 1) * per) by (nonlinear_arith)
            requires
                part < c,
                per > 0,
        ;
    }
}

/// The parts, one after the other, are the document.
pub proof fn parts_make_the_document(doc: DocView, per: nat)
    requires
        doc.valid(),
        per > 0,
        doc.count() > 0,
    ensures
        parts_upto(doc, per, part_count(doc.count(), per)) == doc.buf,
{
    let n = doc.count();
    let c = part_count(n, per);
    lemma_part_start(n, per, 1);
    assert(c >= 1) by (nonlinear_arith)
        requires
            n > 0,
            per > 0,
            c == (n + per - 1) / per as int,
    ;
    lemma_parts_upto(doc, per, c);
    lemma_count(doc.buf, doc.newline(), doc.base, n);
    lemma_start(doc.buf, doc.newline(), doc.base, n);
    assert(doc.buf.take(doc.start(n)) =~= doc.buf);
}

proof fn lemma_parts_upto(doc: DocView, per: nat, k: nat)
    requires
        doc.valid(),
        per > 0,
        k >= 1,
    ensures
        parts_upto(doc, per, k) == doc.buf.take(doc.start(part_start(doc.count(), per, k + 1))),
    decreases k,
{
    let n = doc.count();
    let (a, b) = (part_start(n, per, k), part_start(n, per, k + 1));
    lemma_part_start(n, per, k);
    lemma_start(doc.buf, doc.newline(), doc.base, a);
    lemma_start(doc.buf, doc.newline(), doc.base, b);
    lemma_start_order(doc.buf, doc.newline(), doc.base, a, b);
    if k == 1 {
        assert(parts_upto(doc, per, 0) =~= Seq::<u8>::empty());
        assert(doc.start(0) == doc.base);
        assert(parts_upto(doc, per, 1) =~= doc.buf.take(doc.start(b)));
    } else {
        lemma_parts_upto(doc, per, (k - 1) as nat);
        assert(parts_upto(doc, per, k) =~= doc.buf.take(doc.start(b)));
    }
}

pub open spec fn no_lines_per_file() -> ErrorView {
    ErrorView::Unsupported("split requires at least 1 line per file"@)
}

pub open spec fn nothing_to_split() -> ErrorView {
    ErrorView::Unsupported("the file has no lines to split"@)
}

pub open spec fn part_taken(path: Seq<char>) -> ErrorView {
    ErrorView::Unsupported("'"@ + path + "' already exists; choose another output directory"@)
}

/// A split never writes over what is there.
pub fn check_part(path: &str, taken: bool) -> (r: Result<(), Error>)
    ensures
        r is Ok <==> !taken,
        r matches Err(e) ==> e@ == part_taken(path@),
{
    if taken {
        return Err(
            Error::Unsupported(
                "'".to_owned().concat(path).concat(
                    "' already exists; choose another output directory",
                ),
            ),
        );
    }
    Ok(())
}

/// The bytes of a part, in the buffer of the document.
pub fn part_bytes<'a>(doc: &Document<'a>, lines_per_file: u64, part: u64) -> (out: &'a [u8])
    requires
        doc.wf(),
        lines_per_file > 0,
        1 <= part <= part_count(doc@.count(), lines_per_file as nat),
    ensures
        out@ == part_image(doc@, lines_per_file as nat, part as nat),
{
    let ghost per = lines_per_file as nat;
    let total = doc.line_count();
    proof {
        doc.lemma_wf();
        lemma_part_start(total as nat, per, part as nat);
        assert((part - 1) * per >= 0) by (nonlinear_arith)
            requires
                part >= 1,
                per > 0,
        ;
    }
    let start = (part - 1) * lines_per_file;
    let end = if total - start <= lines_per_file {
        total
    } else {
        start + lines_per_file
    };
    assert((part + 1 - 1) * per == (part - 1) * per + per) by (nonlinear_arith);
    let buf = doc.buf();
    let prefix = doc.prefix_bytes();
    match doc.raw_lines_span(start, end) {
        Some(span) => {
            if part == 1 {
                proof {
                    lemma_start(doc@.buf, doc@.newline(), doc@.base, end as nat);
                    let n = prefix@.len() + span@.len();
                    assert(buf@.subrange(0, n as int) =~= prefix@ + span@);
                }
                vstd::slice::slice_subrange(buf, 0, prefix.len() + span.len())
            } else {
                assert(span@ =~= part_image(doc@, per, part as nat));
                span
            }
        },
        None => prefix,
    }
}

/// The names of the first parts.
pub open spec fn first_names(stem: Seq<char>, ext: Seq<char>, count: nat) -> Seq<Seq<char>> {
    Seq::new(
        if count <= SPLIT_RESULT_MAX_FILES { count } else { SPLIT_RESULT_MAX_FILES as nat },
        |i: int| part_name(stem, ext, (i + 1) as nat, width_for(count)),
    )
}

/// Plans a split: how many parts there are, and what the first are called.
pub fn split_by_lines(doc: &Document, lines_per_file: u64, name: &str) -> (r: Result<
    SplitResult,
    Error,
>)
    requires
        doc.wf(),
    ensures
        ({
            let n = doc@.count();
            let count = part_count(n, lines_per_file as nat);
            let (stem, ext) = stem_and_extension(name@);
            if lines_per_file == 0 {
                r matches Err(e) && e@ == no_lines_per_file()
            } else if n == 0 {
                r matches Err(e) && e@ == nothing_to_split()
            } else {
                r matches Ok(s) && s.count == count && s.total_lines == n && texts(s.files@)
                    == first_names(stem, ext, count)
            }
        }),
{
    if lines_per_file == 0 {
        return Err(Error::Unsupported("split requires at least 1 line per file".to_owned()));
    }
    let total = doc.line_count();
    if total == 0 {
        return Err(Error::Unsupported("the file has no lines to split".to_owned()));
    }
    let whole = total / lines_per_file;
    let ghost per = lines_per_file as nat;
    let rest = total % lines_per_file;
    proof {
        let c = part_count(total as nat, per);
        assert(whole <= total) by (nonlinear_arith)
            requires
                whole == total / lines_per_file,
                lines_per_file > 0,
        ;
        assert(c == if rest == 0 { whole as int } else { whole + 1 }) by (nonlinear_arith)
            requires
                lines_per_file > 0,
                c == (total + lines_per_file - 1) / lines_per_file as int,
                whole == total / lines_per_file,
                rest == total % lines_per_file,
        ;
        assert(rest != 0 ==> whole < total) by (nonlinear_arith)
            requires
                whole == total / lines_per_file,
                rest == total % lines_per_file,
                lines_per_file > 0,
        ;
    }
    let count = if rest == 0 {
        whole
    } else {
        whole + 1
    };
    let width = part_width(count);
    let (stem, ext) = naming(name);
    let shown: u64 = if count <= SPLIT_RESULT_MAX_FILES as u64 {
        count
    } else {
        SPLIT_RESULT_MAX_FILES as u64
    };
    let ghost want = first_names(stem@, ext@, count as nat);
    let mut files: Vec<String> = Vec::new();
    let mut part: u64 = 0;
    assert(texts(files@) =~= want.take(0));
    while part < shown
        invariant
            part <= shown,
            shown <= count,
            shown == want.len(),
            width == width_for(count as nat),
            want == first_names(stem@, ext@, count as nat),
            texts(files@) == want.take(part as int),
        decreases shown - part,
    {
        let ghost before = texts(files@);
        let file = part_file_name(stem.as_str(), ext.as_str(), part + 1, width);
        assert(file@ == want[part as int]);
        files.push(file);
        assert(texts(files@) =~= before.push(file@));
        assert(want.take(part + 1) =~= want.take(part as int).push(want[part as int]));
        part += 1;
    }
    assert(want.take(want.len() as int) =~= want);
    Ok(SplitResult { files, count, total_lines: total })
}

} // verus!
