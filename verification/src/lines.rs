//! What the lines of a buffer are.
//!
//! A line runs from its start to the next line feed, which belongs to it; the
//! last line may do without. A carriage return before the end of the line is
//! part of its terminator. Everything that resolves lines is stated in terms
//! of these definitions, whatever shortcuts it takes.

use vstd::prelude::*;

use crate::bytes::find_byte;
use crate::encoding::Encoding;

verus! {

/// How line feeds look in a buffer.
#[derive(Clone, Copy, Debug, PartialEq, Eq, Structural)]
pub enum Newline {
    /// One byte.
    Byte,
    /// An aligned 16-bit little-endian unit.
    Le,
    /// An aligned 16-bit big-endian unit.
    Be,
}

impl Newline {
    pub open spec fn width(self) -> int {
        match self {
            Newline::Byte => 1,
            _ => 2,
        }
    }

    pub open spec fn of(enc: Encoding) -> Newline {
        match enc {
            Encoding::Utf16Le => Newline::Le,
            Encoding::Utf16Be => Newline::Be,
            _ => Newline::Byte,
        }
    }

    pub fn for_encoding(enc: Encoding) -> (k: Newline)
        ensures
            k == Newline::of(enc),
    {
        match enc {
            Encoding::Utf16Le => Newline::Le,
            Encoding::Utf16Be => Newline::Be,
            _ => Newline::Byte,
        }
    }

    pub(crate) fn unit_width(self) -> (w: usize)
        ensures
            w == self.width(),
    {
        match self {
            Newline::Byte => 1,
            _ => 2,
        }
    }
}

/// Whether the unit at `p` is the ASCII character `v`.
pub open spec fn unit_is(s: Seq<u8>, k: Newline, p: int, v: u8) -> bool {
    match k {
        Newline::Byte => 0 <= p < s.len() && s[p] == v,
        Newline::Le => 0 <= p && p + 1 < s.len() && s[p] == v && s[p + 1] == 0,
        Newline::Be => 0 <= p && p + 1 < s.len() && s[p] == 0 && s[p + 1] == v,
    }
}

/// The position of the first line feed at or after `p`; the end of the buffer
/// if there is none.
pub open spec fn lf_from(s: Seq<u8>, k: Newline, p: int) -> int
    decreases s.len() - p,
{
    if p < 0 || p + k.width() > s.len() {
        s.len() as int
    } else if unit_is(s, k, p, 10) {
        p
    } else {
        lf_from(s, k, p + k.width())
    }
}

/// The end of the line that starts at `p`, its terminator included.
pub open spec fn raw_end(s: Seq<u8>, k: Newline, p: int) -> int {
    let e = lf_from(s, k, p);
    if e < s.len() {
        e + k.width()
    } else {
        s.len() as int
    }
}

/// The end of the line that starts at `p`, without its terminator.
pub open spec fn text_end(s: Seq<u8>, k: Newline, p: int) -> int {
    let e = lf_from(s, k, p);
    if e - k.width() >= p && (e - p) % k.width() == 0 && unit_is(s, k, e - k.width(), 13) {
        e - k.width()
    } else {
        e
    }
}

/// The number of lines from `p`, a line start, to the end of the buffer.
pub open spec fn line_count(s: Seq<u8>, k: Newline, p: int) -> nat
    decreases s.len() - p,
    when 0 <= p
    via line_count_decreases
{
    if p >= s.len() {
        0
    } else {
        1 + line_count(s, k, raw_end(s, k, p))
    }
}

#[via_fn]
proof fn line_count_decreases(s: Seq<u8>, k: Newline, p: int) {
    lemma_lf(s, k, p);
}

/// The start of line `i`, counted from the line that starts at `p`; the end
/// of the buffer if there are not so many lines.
pub open spec fn line_start(s: Seq<u8>, k: Newline, p: int, i: nat) -> int
    decreases i,
{
    if i == 0 {
        p
    } else {
        raw_end(s, k, line_start(s, k, p, (i - 1) as nat))
    }
}

/// The number of line feeds that are over at `b`, counted from the line start
/// `p`.
pub open spec fn newlines(s: Seq<u8>, k: Newline, p: int, b: int) -> nat
    decreases s.len() - p,
    when 0 <= p
    via newlines_decreases
{
    if p < s.len() && lf_from(s, k, p) < s.len() && raw_end(s, k, p) <= b {
        1 + newlines(s, k, raw_end(s, k, p), b)
    } else {
        0
    }
}

#[via_fn]
proof fn newlines_decreases(s: Seq<u8>, k: Newline, p: int, b: int) {
    lemma_lf(s, k, p);
}

/// Start of line `i` of a buffer whose content begins at `base`, end of its
/// text, and end of its terminator.
pub open spec fn line_span(s: Seq<u8>, k: Newline, base: int, i: nat) -> (int, int, int) {
    let p = line_start(s, k, base, i);
    (p, text_end(s, k, p), raw_end(s, k, p))
}

/// The bytes of line `i`, without its terminator.
pub open spec fn line_bytes(s: Seq<u8>, k: Newline, base: int, i: nat) -> Seq<u8> {
    let (a, b, _) = line_span(s, k, base, i);
    s.subrange(a, b)
}

/// The terminator of line `i`.
pub open spec fn line_term(s: Seq<u8>, k: Newline, base: int, i: nat) -> Seq<u8> {
    let (_, b, c) = line_span(s, k, base, i);
    s.subrange(b, c)
}

// ---- facts -------------------------------------------------------------------

pub proof fn lemma_lf(s: Seq<u8>, k: Newline, p: int)
    requires
        0 <= p,
    ensures
        p <= s.len() ==> p <= lf_from(s, k, p) <= s.len(),
        p <= s.len() ==> p <= text_end(s, k, p) <= raw_end(s, k, p) <= s.len(),
        p < s.len() ==> p < raw_end(s, k, p) <= s.len(),
        p >= s.len() ==> raw_end(s, k, p) == s.len(),
        lf_from(s, k, p) < s.len() ==> {
            &&& unit_is(s, k, lf_from(s, k, p), 10)
            &&& (lf_from(s, k, p) - p) % k.width() == 0
            &&& lf_from(s, k, p) + k.width() <= s.len()
        },
    decreases s.len() - p,
{
    if p + k.width() > s.len() {
    } else if unit_is(s, k, p, 10) {
    } else {
        lemma_lf(s, k, p + k.width());
    }
}

/// A line feed with none before it is the first.
pub proof fn lemma_lf_is(s: Seq<u8>, k: Newline, p: int, q: int)
    requires
        0 <= p <= q,
        (q - p) % k.width() == 0,
        unit_is(s, k, q, 10),
        forall|j: int|
            p <= j < q && (j - p) % k.width() == 0 ==> !#[trigger] unit_is(s, k, j, 10),
    ensures
        lf_from(s, k, p) == q,
    decreases q - p,
{
    if p < q {
        assert(!unit_is(s, k, p, 10));
        assert forall|j: int|
            p + k.width() <= j < q && (j - (p + k.width())) % k.width() == 0 implies !#[trigger] unit_is(
            s,
            k,
            j,
            10,
        ) by {
            assert((j - p) % k.width() == 0);
        }
        assert((q - (p + k.width())) % k.width() == 0);
        assert(p + k.width() <= q);
        lemma_lf_is(s, k, p + k.width(), q);
    }
}

pub proof fn lemma_lf_none(s: Seq<u8>, k: Newline, p: int)
    requires
        0 <= p,
        forall|j: int| p <= j && (j - p) % k.width() == 0 ==> !#[trigger] unit_is(s, k, j, 10),
    ensures
        lf_from(s, k, p) == s.len(),
    decreases s.len() - p,
{
    if p + k.width() <= s.len() {
        assert(!unit_is(s, k, p, 10));
        assert forall|j: int|
            p + k.width() <= j && (j - (p + k.width())) % k.width() == 0 implies !#[trigger] unit_is(
            s,
            k,
            j,
            10,
        ) by {
            assert((j - p) % k.width() == 0);
        }
        lemma_lf_none(s, k, p + k.width());
    }
}

/// No line feed stands between a position and the first line feed after it.
pub proof fn lemma_lf_same(s: Seq<u8>, k: Newline, p: int, q: int)
    requires
        0 <= p <= q <= lf_from(s, k, p),
        (q - p) % k.width() == 0,
        p <= s.len(),
    ensures
        lf_from(s, k, q) == lf_from(s, k, p),
    decreases q - p,
{
    if p < q {
        if p + k.width() > s.len() {
        } else {
            assert(!unit_is(s, k, p, 10));
            lemma_lf_same(s, k, p + k.width(), q);
        }
    }
}

pub proof fn lemma_start(s: Seq<u8>, k: Newline, p: int, i: nat)
    requires
        0 <= p <= s.len(),
    ensures
        p <= line_start(s, k, p, i) <= s.len(),
        i > 0 && p < s.len() ==> p < line_start(s, k, p, i),
    decreases i,
{
    if i > 0 {
        lemma_start(s, k, p, (i - 1) as nat);
        lemma_lf(s, k, line_start(s, k, p, (i - 1) as nat));
    }
}

pub proof fn lemma_start_add(s: Seq<u8>, k: Newline, p: int, i: nat, j: nat)
    ensures
        line_start(s, k, p, i + j) == line_start(s, k, line_start(s, k, p, i), j),
    decreases j,
{
    if j > 0 {
        lemma_start_add(s, k, p, i, (j - 1) as nat);
    }
}

/// Line starts come in order.
pub proof fn lemma_start_order(s: Seq<u8>, k: Newline, p: int, i: nat, j: nat)
    requires
        0 <= p <= s.len(),
        i <= j,
    ensures
        line_start(s, k, p, i) <= line_start(s, k, p, j),
        i < j && line_start(s, k, p, i) < s.len() ==> line_start(s, k, p, i) < line_start(
            s,
            k,
            p,
            j,
        ),
{
    lemma_start(s, k, p, i);
    lemma_start_add(s, k, p, i, (j - i) as nat);
    lemma_start(s, k, line_start(s, k, p, i), (j - i) as nat);
}

/// There is a line `i` exactly if its start lies inside the buffer.
pub proof fn lemma_count(s: Seq<u8>, k: Newline, p: int, i: nat)
    requires
        0 <= p <= s.len(),
    ensures
        i < line_count(s, k, p) <==> line_start(s, k, p, i) < s.len(),
        i <= line_count(s, k, p) ==> line_count(s, k, p) == i + line_count(
            s,
            k,
            line_start(s, k, p, i),
        ),
        line_count(s, k, p) <= s.len() - p,
    decreases s.len() - p,
{
    lemma_lf(s, k, p);
    if p < s.len() {
        let q = raw_end(s, k, p);
        if i > 0 {
            lemma_count(s, k, q, (i - 1) as nat);
            lemma_start_add(s, k, p, 1, (i - 1) as nat);
            assert(line_start(s, k, p, 1) == q) by {
                reveal_with_fuel(line_start, 2);
            }
        } else {
            lemma_count(s, k, q, 0);
        }
    } else {
        lemma_start(s, k, p, i);
    }
}

/// Line feeds before a line start, and those after it.
pub proof fn lemma_newlines(s: Seq<u8>, k: Newline, p: int, i: nat, b: int)
    requires
        0 <= p <= s.len(),
        line_start(s, k, p, i) < s.len(),
        line_start(s, k, p, i) <= b,
    ensures
        newlines(s, k, p, b) == i + newlines(s, k, line_start(s, k, p, i), b),
    decreases i,
{
    if i > 0 {
        let h = (i - 1) as nat;
        lemma_start_order(s, k, p, h, i);
        lemma_start(s, k, p, h);
        lemma_newlines(s, k, p, h, b);
        lemma_lf(s, k, line_start(s, k, p, h));
    }
}

/// The line that contains a line start is the line that starts there.
pub proof fn line_of_its_start(s: Seq<u8>, k: Newline, base: int, i: nat)
    requires
        0 <= base <= s.len(),
        i < line_count(s, k, base),
    ensures
        newlines(s, k, base, line_start(s, k, base, i)) == i,
{
    let q = line_start(s, k, base, i);
    lemma_count(s, k, base, i);
    lemma_start(s, k, base, i);
    lemma_newlines(s, k, base, i, q);
    lemma_lf(s, k, q);
}

/// The raw bytes of lines `i` up to `j`, one after the other.
pub open spec fn raw_lines(s: Seq<u8>, k: Newline, base: int, i: nat, j: nat) -> Seq<u8>
    decreases j - i,
{
    if i >= j {
        Seq::empty()
    } else {
        raw_lines(s, k, base, i, (j - 1) as nat) + line_bytes(s, k, base, (j - 1) as nat)
            + line_term(s, k, base, (j - 1) as nat)
    }
}

/// Lines are contiguous: their texts and terminators, one after the other, are
/// the bytes from the start of the first to the start of the one after the
/// last.
pub proof fn lines_are_contiguous(s: Seq<u8>, k: Newline, base: int, i: nat, j: nat)
    requires
        0 <= base <= s.len(),
        i <= j,
    ensures
        raw_lines(s, k, base, i, j) == s.subrange(
            line_start(s, k, base, i),
            line_start(s, k, base, j),
        ),
    decreases j - i,
{
    lemma_start(s, k, base, i);
    if i < j {
        let h = (j - 1) as nat;
        lines_are_contiguous(s, k, base, i, h);
        lemma_start(s, k, base, h);
        lemma_start_order(s, k, base, i, h);
        lemma_lf(s, k, line_start(s, k, base, h));
        assert(raw_lines(s, k, base, i, j) =~= s.subrange(
            line_start(s, k, base, i),
            line_start(s, k, base, j),
        ));
    } else {
        assert(raw_lines(s, k, base, i, j) =~= s.subrange(
            line_start(s, k, base, i),
            line_start(s, k, base, j),
        ));
    }
}

/// The lines of a buffer make up its whole content.
pub proof fn lines_cover_the_content(s: Seq<u8>, k: Newline, base: int)
    requires
        0 <= base <= s.len(),
    ensures
        raw_lines(s, k, base, 0, line_count(s, k, base)) == s.subrange(base, s.len() as int),
{
    let n = line_count(s, k, base);
    lines_are_contiguous(s, k, base, 0, n);
    lemma_count(s, k, base, n);
    lemma_start(s, k, base, n);
}

/// The number of line feeds at or after `p`, unit by unit.
pub open spec fn feeds_from(s: Seq<u8>, k: Newline, p: int) -> nat
    decreases s.len() - p,
{
    if p < 0 || p + k.width() > s.len() {
        0
    } else if unit_is(s, k, p, 10) {
        1 + feeds_from(s, k, p + k.width())
    } else {
        feeds_from(s, k, p + k.width())
    }
}

/// What starts at `p` does not end with a line feed.
pub open spec fn ends_open(s: Seq<u8>, k: Newline, p: int) -> bool {
    p < s.len() && !((s.len() - p) % k.width() == 0 && unit_is(s, k, s.len() - k.width(), 10))
}

pub proof fn lemma_feeds(s: Seq<u8>, k: Newline, p: int)
    requires
        0 <= p <= s.len(),
    ensures
        feeds_from(s, k, p) == if lf_from(s, k, p) < s.len() {
            1 + feeds_from(s, k, raw_end(s, k, p))
        } else {
            0
        },
        forall|j: int|
            p <= j < lf_from(s, k, p) && (j - p) % k.width() == 0 ==> !#[trigger] unit_is(
                s,
                k,
                j,
                10,
            ),
    decreases s.len() - p,
{
    let w = k.width();
    if p + w <= s.len() && !unit_is(s, k, p, 10) {
        lemma_feeds(s, k, p + w);
        assert forall|j: int| p <= j < lf_from(s, k, p) && (j - p) % w == 0 implies !#[trigger] unit_is(
            s,
            k,
            j,
            10,
        ) by {
            if j > p {
                assert(j >= p + w && (j - (p + w)) % w == 0);
            }
        }
    }
}

/// There are as many lines as line feeds, and one more where the content does
/// not end with one.
pub proof fn lines_are_counted_by_their_feeds(s: Seq<u8>, k: Newline, base: int)
    requires
        0 <= base <= s.len(),
    ensures
        line_count(s, k, base) == feeds_from(s, k, base) + if ends_open(s, k, base) {
            1nat
        } else {
            0
        },
    decreases s.len() - base,
{
    let w = k.width();
    lemma_lf(s, k, base);
    lemma_feeds(s, k, base);
    if base < s.len() {
        let e = lf_from(s, k, base);
        let q = raw_end(s, k, base);
        lines_are_counted_by_their_feeds(s, k, q);
        if e < s.len() {
            assert((q - base) % w == 0);
            assert((s.len() - q) % w == (s.len() - base) % w);
        } else if !ends_open(s, k, base) {
            let j = s.len() - w;
            assert((j - base) % w == 0);
            assert(j >= base);
            assert(unit_is(s, k, j, 10));
        }
    }
}

/// A line ends behind the first line feed at or after its start, or with the
/// buffer if there is none.
pub proof fn lines_end_at_line_feeds(s: Seq<u8>, k: Newline, base: int, i: nat)
    requires
        0 <= base <= s.len(),
        i < line_count(s, k, base),
    ensures
        ({
            let (a, _, c) = line_span(s, k, base, i);
            &&& a < c
            &&& c == line_start(s, k, base, i + 1)
            &&& c == s.len() || (unit_is(s, k, c - k.width(), 10) && (c - a) % k.width() == 0)
            &&& forall|j: int|
                a <= j < c - k.width() && (j - a) % k.width() == 0 ==> !#[trigger] unit_is(
                    s,
                    k,
                    j,
                    10,
                )
        }),
{
    let a = line_start(s, k, base, i);
    lemma_count(s, k, base, i);
    lemma_start(s, k, base, i);
    lemma_lf(s, k, a);
    lemma_feeds(s, k, a);
}

/// The first line end at or after an aligned position is a line start.
pub proof fn lemma_snap(s: Seq<u8>, k: Newline, base: int, p: int) -> (n: nat)
    requires
        0 <= base <= p <= s.len(),
        (p - base) % k.width() == 0,
    ensures
        line_start(s, k, base, n) == raw_end(s, k, p),
    decreases s.len() - base,
{
    lemma_lf(s, k, base);
    let q = raw_end(s, k, base);
    if base >= s.len() {
        assert(line_start(s, k, base, 0) == base);
        0
    } else if p <= lf_from(s, k, base) {
        lemma_lf_same(s, k, base, p);
        assert(line_start(s, k, base, 1) == q) by {
            reveal_with_fuel(line_start, 2);
        }
        1
    } else {
        assert(q <= p);
        assert((p - q) % k.width() == 0);
        let n = lemma_snap(s, k, q, p);
        lemma_start_add(s, k, base, 1, n);
        assert(line_start(s, k, base, 1) == q) by {
            reveal_with_fuel(line_start, 2);
        }
        1 + n
    }
}

/// A buffer that grows at its end keeps the lines that were complete.
pub proof fn lemma_prefix_lf(s: Seq<u8>, t: Seq<u8>, k: Newline, p: int)
    requires
        0 <= p,
        s.len() <= t.len(),
        t.take(s.len() as int) == s,
        lf_from(s, k, p) < s.len(),
    ensures
        lf_from(t, k, p) == lf_from(s, k, p),
    decreases s.len() - p,
{
    if p + k.width() <= s.len() {
        assert(forall|j: int| 0 <= j < s.len() ==> t[j] == s[j]) by {
            assert(forall|j: int| 0 <= j < s.len() ==> t.take(s.len() as int)[j] == s[j]);
        }
        if !unit_is(s, k, p, 10) {
            lemma_prefix_lf(s, t, k, p + k.width());
        }
    }
}

pub proof fn lemma_prefix_start(s: Seq<u8>, t: Seq<u8>, k: Newline, p: int, i: nat)
    requires
        0 <= p <= s.len(),
        s.len() <= t.len(),
        t.take(s.len() as int) == s,
        line_start(s, k, p, i) < s.len(),
    ensures
        line_start(t, k, p, i) == line_start(s, k, p, i),
    decreases i,
{
    if i > 0 {
        let h = (i - 1) as nat;
        lemma_start_order(s, k, p, h, i);
        lemma_start(s, k, p, h);
        lemma_prefix_start(s, t, k, p, h);
        lemma_prefix_lf(s, t, k, line_start(s, k, p, h));
    }
}

// ---- finding line feeds ------------------------------------------------------

/// Finds the first line feed at or after `from`.
pub(crate) fn find_lf(buf: &[u8], k: Newline, from: usize) -> (r: usize)
    requires
        from <= buf@.len(),
    ensures
        r == lf_from(buf@, k, from as int),
        from <= r <= buf@.len(),
{
    proof {
        lemma_lf(buf@, k, from as int);
    }
    match k {
        Newline::Byte => {
            let rest = &buf[from..buf.len()];
            match find_byte(10, rest) {
                Some(i) => {
                    assert forall|j: int| from <= j < from + i implies !#[trigger] unit_is(
                        buf@,
                        k,
                        j,
                        10,
                    ) by {
                        assert(rest@[j - from] != 10);
                    }
                    proof {
                        lemma_lf_is(buf@, k, from as int, from + i);
                    }
                    from + i
                },
                None => {
                    assert forall|j: int| from <= j implies !#[trigger] unit_is(buf@, k, j, 10) by {
                        if j < buf@.len() {
                            assert(rest@[j - from] != 10);
                        }
                    }
                    proof {
                        lemma_lf_none(buf@, k, from as int);
                    }
                    buf.len()
                },
            }
        },
        _ => {
            let mut p = from;
            let le = matches!(k, Newline::Le);
            while buf.len() - p >= 2
                invariant
                    from <= p <= buf@.len(),
                    k.width() == 2,
                    le == (k == Newline::Le),
                    lf_from(buf@, k, p as int) == lf_from(buf@, k, from as int),
                decreases buf.len() - p,
            {
                let a = buf[p];
                let b = buf[p + 1];
                if (le && a == 10 && b == 0) || (!le && a == 0 && b == 10) {
                    return p;
                }
                p += 2;
            }
            buf.len()
        },
    }
}

/// The end of the line that starts at `from`: without its terminator, and with
/// it.
pub(crate) fn line_ends(buf: &[u8], k: Newline, from: usize) -> (r: (usize, usize))
    requires
        from <= buf@.len(),
    ensures
        r.0 == text_end(buf@, k, from as int),
        r.1 == raw_end(buf@, k, from as int),
        from <= r.0 <= r.1 <= buf@.len(),
        from < buf@.len() ==> from < r.1,
{
    proof {
        lemma_lf(buf@, k, from as int);
    }
    let e = find_lf(buf, k, from);
    let w = k.unit_width();
    let next = if e < buf.len() {
        e + w
    } else {
        e
    };
    let mut end = e;
    if e - from >= w && (e - from) % w == 0 {
        let cr = match k {
            Newline::Byte => buf[e - 1] == 13,
            Newline::Le => buf[e - 2] == 13 && buf[e - 1] == 0,
            Newline::Be => buf[e - 2] == 0 && buf[e - 1] == 13,
        };
        if cr {
            end = e - w;
        }
    }
    (end, next)
}

} // verus!
