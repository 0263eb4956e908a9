//! Line endings.

use vstd::prelude::*;
use vstd::string::*;
use vstd::utf8::*;

use crate::encoding::{
    char_units, lemma_units_of_bytes, name_key, normalized_name, read_unit, text_units, units_bytes,
    units_of, Encoding,
};
use crate::text::{lemma_scalar_bytes, same_text};

verus! {

/// Styles of line endings.
#[derive(Clone, Copy, Debug, PartialEq, Eq, Structural)]
pub enum Eol {
    Lf,
    Crlf,
    Cr,
    /// More than one of the others.
    Mixed,
    /// No line terminator at all.
    Absent,
}

/// How much of a buffer is looked at.
pub const EOL_SNIFF: usize = 65536;

/// Some unit is CR followed by LF.
pub open spec fn has_crlf(u: Seq<u16>) -> bool {
    exists|i: int| 0 <= i && i + 1 < u.len() && #[trigger] u[i] == 13 && u[i + 1] == 10
}

/// Some LF does not follow a CR.
pub open spec fn has_lone_lf(u: Seq<u16>) -> bool {
    exists|i: int|
        0 <= i < u.len() && #[trigger] u[i] == 10 && !(i > 0 && u[i - 1] == 13)
}

/// Some CR is not followed by LF.
pub open spec fn has_lone_cr(u: Seq<u16>) -> bool {
    exists|i: int|
        0 <= i < u.len() && #[trigger] u[i] == 13 && !(i + 1 < u.len() && u[i + 1] == 10)
}

/// The style, given which of the three terminators occur.
pub open spec fn style(crlf: bool, lf: bool, cr: bool) -> Eol {
    if !crlf && !lf && !cr {
        Eol::Absent
    } else if crlf && !lf && !cr {
        Eol::Crlf
    } else if lf && !crlf && !cr {
        Eol::Lf
    } else if cr && !crlf && !lf {
        Eol::Cr
    } else {
        Eol::Mixed
    }
}

/// The style of a sequence of code units.
pub open spec fn units_eol(u: Seq<u16>) -> Eol {
    style(has_crlf(u), has_lone_lf(u), has_lone_cr(u))
}

/// The first bytes of a buffer.
pub open spec fn sniffed(content: Seq<u8>) -> Seq<u8> {
    if content.len() <= EOL_SNIFF {
        content
    } else {
        content.take(EOL_SNIFF as int)
    }
}

/// The code units of bytes in an encoding.
pub open spec fn code_units(enc: Encoding, bytes: Seq<u8>) -> Seq<u16> {
    match enc {
        Encoding::Utf16Le => units_of(bytes, true),
        Encoding::Utf16Be => units_of(bytes, false),
        _ => bytes.map_values(|b: u8| b as u16),
    }
}

/// The line ending with a given normalised name.
pub open spec fn eol_named(key: Seq<char>) -> Option<Eol> {
    if key == "lf"@ || key == "n"@ || key == "unix"@ {
        Some(Eol::Lf)
    } else if key == "crlf"@ || key == "rn"@ || key == "dos"@ || key == "windows"@ {
        Some(Eol::Crlf)
    } else if key == "cr"@ || key == "r"@ || key == "mac"@ {
        Some(Eol::Cr)
    } else {
        None
    }
}

impl Eol {
    pub open spec fn label_text(self) -> Seq<char> {
        match self {
            Eol::Lf => "LF"@,
            Eol::Crlf => "CRLF"@,
            Eol::Cr => "CR"@,
            Eol::Mixed => "Mixed"@,
            Eol::Absent => "None"@,
        }
    }

    /// The terminator that new lines get.
    pub open spec fn terminator(self) -> Seq<u8> {
        match self {
            Eol::Crlf => seq![13, 10],
            Eol::Cr => seq![13],
            _ => seq![10],
        }
    }

    pub fn label(self) -> (s: &'static str)
        ensures
            s@ == self.label_text(),
    {
        match self {
            Eol::Lf => "LF",
            Eol::Crlf => "CRLF",
            Eol::Cr => "CR",
            Eol::Mixed => "Mixed",
            Eol::Absent => "None",
        }
    }

    /// The terminator that new lines get; files without one style use LF.
    pub fn bytes(self) -> (b: &'static [u8])
        ensures
            b@ == self.terminator(),
    {
        match self {
            Eol::Crlf => &[13, 10],
            Eol::Cr => &[13],
            _ => &[10],
        }
    }

    /// The line ending that a user names.
    pub fn parse(name: &str) -> (r: Option<Eol>)
        ensures
            r == eol_named(name_key(name@)),
    {
        let key = normalized_name(name);
        let n = key.as_str();
        if same_text(n, "lf") || same_text(n, "n") || same_text(n, "unix") {
            Some(Eol::Lf)
        } else if same_text(n, "crlf") || same_text(n, "rn") || same_text(n, "dos") || same_text(
            n,
            "windows",
        ) {
            Some(Eol::Crlf)
        } else if same_text(n, "cr") || same_text(n, "r") || same_text(n, "mac") {
            Some(Eol::Cr)
        } else {
            None
        }
    }
}

/// The line ending of a byte-oriented buffer, judged by its first bytes.
pub fn detect_eol(content: &[u8]) -> (eol: Eol)
    ensures
        eol == units_eol(code_units(Encoding::Utf8, sniffed(content@))),
{
    detect_eol_for(content, Encoding::Utf8)
}

/// The line ending of a buffer, judged by its first bytes.
pub fn detect_eol_for(content: &[u8], enc: Encoding) -> (eol: Eol)
    ensures
        eol == units_eol(code_units(enc, sniffed(content@))),
{
    let p: &[u8] = if content.len() <= EOL_SNIFF {
        content
    } else {
        &content[0..EOL_SNIFF]
    };
    proof {
        if content@.len() > EOL_SNIFF {
            assert(p@ =~= content@.take(EOL_SNIFF as int));
        }
    }
    let width: usize = if enc.is_wide() { 2 } else { 1 };
    let n: usize = p.len() / width;
    let ghost u = code_units(enc, p@);
    assert(u.len() == n);
    let mut crlf = false;
    let mut lf = false;
    let mut cr = false;
    let mut prev_cr = false;
    let mut i: usize = 0;
    while i < n
        invariant
            i <= n,
            n == u.len(),
            width == if enc.wide() { 2int } else { 1 },
            n * width <= p@.len(),
            p@.len() <= EOL_SNIFF,
            u == code_units(enc, p@),
            prev_cr == (i > 0 && u[i - 1] == 13),
            crlf == exists|k: int| 0 <= k && k + 1 < i && #[trigger] u[k] == 13 && u[k + 1] == 10,
            lf == exists|k: int|
                0 <= k < i && #[trigger] u[k] == 10 && !(k > 0 && u[k - 1] == 13),
            cr == exists|k: int|
                0 <= k && k + 1 < i && #[trigger] u[k] == 13 && u[k + 1] != 10,
        decreases n - i,
    {
        let unit: u16 = match enc {
            Encoding::Utf16Le => read_unit(p[2 * i], p[2 * i + 1], true),
            Encoding::Utf16Be => read_unit(p[2 * i], p[2 * i + 1], false),
            _ => p[i] as u16,
        };
        assert(u[i as int] == unit);
        if unit == 10 {
            if prev_cr {
                crlf = true;
                assert(u[i - 1] == 13 && u[i - 1 + 1] == 10);
            } else {
                lf = true;
                assert(u[i as int] == 10);
            }
        } else if prev_cr {
            cr = true;
            assert(u[i - 1] == 13 && u[i - 1 + 1] != 10);
        }
        prev_cr = unit == 13;
        i += 1;
    }
    if prev_cr {
        cr = true;
        assert(u[n - 1] == 13);
    }
    proof {
        assert(crlf == has_crlf(u));
        assert(lf == has_lone_lf(u));
        if has_lone_cr(u) {
            let k = choose|k: int|
                0 <= k < u.len() && #[trigger] u[k] == 13 && !(k + 1 < u.len() && u[k + 1] == 10);
            assert(u[k] == 13);
        }
        assert(cr == has_lone_cr(u));
    }
    if crlf {
        if lf || cr {
            Eol::Mixed
        } else {
            Eol::Crlf
        }
    } else if lf {
        if cr {
            Eol::Mixed
        } else {
            Eol::Lf
        }
    } else if cr {
        Eol::Cr
    } else {
        Eol::Absent
    }
}

// ---- one text in two encodings -----------------------------------------------

/// Some CR is followed by a unit other than LF.
spec fn has_passed_cr(u: Seq<u16>) -> bool {
    exists|i: int| 0 <= i && i + 1 < u.len() && #[trigger] u[i] == 13 && u[i + 1] != 10
}

spec fn ends_in_cr(u: Seq<u16>) -> bool {
    u.len() > 0 && u.last() == 13
}

/// What decides the style of units, and how it goes on.
spec fn marks(u: Seq<u16>) -> (bool, bool, bool, bool) {
    (has_crlf(u), has_lone_lf(u), has_passed_cr(u), ends_in_cr(u))
}

proof fn lemma_style_of_marks(u: Seq<u16>)
    ensures
        units_eol(u) == style(marks(u).0, marks(u).1, marks(u).2 || marks(u).3),
{
    if has_lone_cr(u) {
        let i = choose|i: int|
            0 <= i < u.len() && #[trigger] u[i] == 13 && !(i + 1 < u.len() && u[i + 1] == 10);
        assert(u[i] == 13);
    }
    if has_passed_cr(u) {
        let i = choose|i: int|
            0 <= i && i + 1 < u.len() && #[trigger] u[i] == 13 && u[i + 1] != 10;
        assert(u[i] == 13);
    }
    if ends_in_cr(u) {
        assert(u[u.len() - 1] == 13);
    }
}

proof fn lemma_marks_push(u: Seq<u16>, x: u16)
    ensures
        marks(u.push(x)) == {
            let (crlf, lf, passed, end) = marks(u);
            if x == 10 {
                (crlf || end, lf || !end, passed, false)
            } else if x == 13 {
                (crlf, lf, passed || end, true)
            } else {
                (crlf, lf, passed || end, false)
            }
        },
{
    let v = u.push(x);
    let n = u.len() as int;
    assert forall|i: int| 0 <= i < n implies #[trigger] v[i] == u[i] by {}
    if has_crlf(u) {
        let i = choose|i: int| 0 <= i && i + 1 < u.len() && #[trigger] u[i] == 13 && u[i + 1] == 10;
        assert(v[i] == 13 && v[i + 1] == 10);
    }
    if has_crlf(v) {
        let i = choose|i: int| 0 <= i && i + 1 < v.len() && #[trigger] v[i] == 13 && v[i + 1] == 10;
        assert(u[i] == 13);
    }
    if has_lone_lf(u) {
        let i = choose|i: int|
            0 <= i < u.len() && #[trigger] u[i] == 10 && !(i > 0 && u[i - 1] == 13);
        assert(v[i] == 10);
    }
    if has_lone_lf(v) {
        let i = choose|i: int|
            0 <= i < v.len() && #[trigger] v[i] == 10 && !(i > 0 && v[i - 1] == 13);
        if i < n {
            assert(u[i] == 10);
        }
    }
    if has_passed_cr(u) {
        let i = choose|i: int|
            0 <= i && i + 1 < u.len() && #[trigger] u[i] == 13 && u[i + 1] != 10;
        assert(v[i] == 13 && v[i + 1] != 10);
    }
    if has_passed_cr(v) {
        let i = choose|i: int|
            0 <= i && i + 1 < v.len() && #[trigger] v[i] == 13 && v[i + 1] != 10;
        assert(u[i] == 13);
    }
    if n > 0 {
        assert(v[n - 1] == u[n - 1]);
        assert(v[n - 1 + 1] == x);
    }
    assert(v[n] == x);
}

/// Units other than CR and LF, at least one.
spec fn plain(b: Seq<u16>) -> bool {
    b.len() > 0 && forall|i: int| 0 <= i < b.len() ==> #[trigger] b[i] != 10 && b[i] != 13
}

proof fn lemma_marks_plain(u: Seq<u16>, b: Seq<u16>)
    requires
        plain(b),
    ensures
        marks(u + b) == (marks(u).0, marks(u).1, marks(u).2 || marks(u).3, false),
    decreases b.len(),
{
    let c = b.drop_last();
    assert(u + b =~= (u + c).push(b.last()));
    assert(b[b.len() - 1] != 10 && b[b.len() - 1] != 13);
    if c.len() > 0 {
        assert forall|i: int| 0 <= i < c.len() implies #[trigger] c[i] != 10 && c[i] != 13 by {
            assert(c[i] == b[i]);
        }
        lemma_marks_plain(u, c);
    } else {
        assert(u + c =~= u);
    }
    lemma_marks_push(u + c, b.last());
}

spec fn wide_bytes(b: Seq<u8>) -> Seq<u16> {
    b.map_values(|x: u8| x as u16)
}

proof fn lemma_marks_char(u: Seq<u16>, v: Seq<u16>, c: char)
    requires
        marks(u) == marks(v),
    ensures
        marks(u + wide_bytes(encode_scalar(c as u32))) == marks(v + char_units(c)),
{
    let x = c as u32;
    let b = wide_bytes(encode_scalar(x));
    let w = char_units(c);
    char_is_scalar(c);
    if x == 10 || x == 13 {
        assert(x & 0x7F == x) by (bit_vector)
            requires
                x == 10 || x == 13,
        ;
        assert(encode_scalar(x) =~= seq![x as u8]);
        assert(u + b =~= u.push(x as u16));
        assert(v + w =~= v.push(x as u16));
        lemma_marks_push(u, x as u16);
        lemma_marks_push(v, x as u16);
    } else {
        lemma_scalar_bytes(x, 10);
        lemma_scalar_bytes(x, 13);
        assert forall|i: int| 0 <= i < b.len() implies #[trigger] b[i] != 10 && b[i] != 13 by {
            assert(b[i] == encode_scalar(x)[i] as u16);
        }
        assert(plain(w));
        lemma_marks_plain(u, b);
        lemma_marks_plain(v, w);
    }
}

proof fn lemma_marks_text(u: Seq<u16>, v: Seq<u16>, t: Seq<char>)
    requires
        marks(u) == marks(v),
    ensures
        marks(u + wide_bytes(encode_utf8(t))) == marks(v + text_units(t)),
    decreases t.len(),
{
    if t.len() == 0 {
        assert(u + wide_bytes(encode_utf8(t)) =~= u);
        assert(v + text_units(t) =~= v);
    } else {
        let c = t[0];
        let rest = t.drop_first();
        lemma_marks_char(u, v, c);
        let a = wide_bytes(encode_scalar(c as u32));
        lemma_marks_text(u + a, v + char_units(c), rest);
        assert(u + wide_bytes(encode_utf8(t)) =~= u + a + wide_bytes(encode_utf8(rest)));
        assert(v + text_units(t) =~= v + char_units(c) + text_units(rest));
    }
}

/// A text has one style of line endings in UTF-8 and in UTF-16, as far as both
/// forms are looked at as a whole.
pub proof fn a_text_has_one_style(t: Seq<char>, le: bool)
    requires
        encode_utf8(t).len() <= EOL_SNIFF,
        units_bytes(text_units(t), le).len() <= EOL_SNIFF,
    ensures
        ({
            let enc = if le { Encoding::Utf16Le } else { Encoding::Utf16Be };
            let wide = units_bytes(text_units(t), le);
            units_eol(code_units(enc, sniffed(wide))) == units_eol(
                code_units(Encoding::Utf8, sniffed(encode_utf8(t))),
            )
        }),
{
    let none = Seq::<u16>::empty();
    lemma_units_of_bytes(text_units(t), le);
    lemma_marks_text(none, none, t);
    let a = wide_bytes(encode_utf8(t));
    let b = text_units(t);
    assert(none + a =~= a);
    assert(none + b =~= b);
    assert(code_units(Encoding::Utf8, encode_utf8(t)) =~= a);
    lemma_style_of_marks(a);
    lemma_style_of_marks(b);
}

} // verus!
