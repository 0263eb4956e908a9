//! Walking over the characters of a line in its raw bytes.

use vstd::prelude::*;

use crate::encoding::Encoding;

verus! {

/// Encodings in which the second byte of a character can look like ASCII.
pub open spec fn legacy(enc: Encoding) -> bool {
    enc == Encoding::ShiftJis || enc == Encoding::EucJp
}

pub(crate) fn is_legacy_multibyte(enc: Encoding) -> (b: bool)
    ensures
        b == legacy(enc),
{
    matches!(enc, Encoding::ShiftJis | Encoding::EucJp)
}

pub open spec fn between(b: u8, lo: int, hi: int) -> bool {
    lo <= b <= hi
}

/// The number of bytes of the character that starts at `i`: a lead byte with a
/// fitting trail is one character of two bytes, or three in EUC-JP after 0x8F;
/// every other byte stands alone.
pub open spec fn step(enc: Encoding, raw: Seq<u8>, i: int) -> nat {
    let b = raw[i];
    let has1 = i + 1 < raw.len();
    let has2 = i + 2 < raw.len();
    match enc {
        Encoding::ShiftJis => if (between(b, 0x81, 0x9F) || between(b, 0xE0, 0xFC)) && has1 && (
        between(raw[i + 1], 0x40, 0x7E) || between(raw[i + 1], 0x80, 0xFC)) {
            2
        } else {
            1
        },
        Encoding::EucJp => if b == 0x8E && has1 && between(raw[i + 1], 0xA1, 0xDF) {
            2
        } else if b == 0x8F && has2 && between(raw[i + 1], 0xA1, 0xFE) && between(
            raw[i + 2],
            0xA1,
            0xFE,
        ) {
            3
        } else if between(b, 0xA1, 0xFE) && has1 && between(raw[i + 1], 0xA1, 0xFE) {
            2
        } else {
            1
        },
        _ => 1,
    }
}

pub(crate) fn legacy_step(enc: Encoding, raw: &[u8], i: usize) -> (n: usize)
    requires
        i < raw@.len(),
    ensures
        n == step(enc, raw@, i as int),
        1 <= n,
        i + n <= raw@.len(),
{
    let b = raw[i];
    let left = raw.len() - i;
    match enc {
        Encoding::ShiftJis => {
            if ((0x81 <= b && b <= 0x9F) || (0xE0 <= b && b <= 0xFC)) && left > 1 && ((0x40
                <= raw[i + 1] && raw[i + 1] <= 0x7E) || (0x80 <= raw[i + 1] && raw[i + 1]
                <= 0xFC)) {
                2
            } else {
                1
            }
        },
        Encoding::EucJp => {
            if b == 0x8E && left > 1 && 0xA1 <= raw[i + 1] && raw[i + 1] <= 0xDF {
                2
            } else if b == 0x8F && left > 2 && 0xA1 <= raw[i + 1] && raw[i + 1] <= 0xFE && 0xA1
                <= raw[i + 2] && raw[i + 2] <= 0xFE {
                3
            } else if 0xA1 <= b && b <= 0xFE && left > 1 && 0xA1 <= raw[i + 1] && raw[i + 1]
                <= 0xFE {
                2
            } else {
                1
            }
        },
        _ => 1,
    }
}

/// Where a walk of `n` characters from `from` ends: at the end of the line at
/// the latest.
pub open spec fn after_chars(enc: Encoding, raw: Seq<u8>, from: int, n: nat) -> int
    decreases n,
{
    if n == 0 || from >= raw.len() {
        from
    } else {
        after_chars(enc, raw, from + step(enc, raw, from), (n - 1) as nat)
    }
}

/// The first character boundary at or after `target`, walking from `from`.
pub open spec fn boundary_at_or_after(enc: Encoding, raw: Seq<u8>, from: int, target: int) -> int
    decreases raw.len() - from,
{
    if from >= target || from >= raw.len() || from < 0 {
        from
    } else {
        boundary_at_or_after(enc, raw, from + step(enc, raw, from), target)
    }
}

/// The start of the character that ends at the first boundary at or after
/// `target`; `None` if no character lies in between.
pub open spec fn char_before(
    enc: Encoding,
    raw: Seq<u8>,
    from: int,
    target: int,
    prev: Option<int>,
) -> Option<int>
    decreases raw.len() - from,
{
    if from >= target || from >= raw.len() || from < 0 {
        prev
    } else {
        char_before(enc, raw, from + step(enc, raw, from), target, Some(from))
    }
}

/// Whether a position is a character boundary of the line.
pub(crate) fn is_legacy_char_boundary_in_line(enc: Encoding, raw: &[u8], abs: usize) -> (b: bool)
    ensures
        b == (boundary_at_or_after(enc, raw@, 0, abs as int) == abs),
{
    walk_to(enc, raw, 0, abs).0 == abs
}

/// Walks character by character until `target` is reached or passed; gives
/// the boundary, and the start of the last character walked over.
pub(crate) fn walk_to(enc: Encoding, raw: &[u8], from: usize, target: usize) -> (r: (
    usize,
    Option<usize>,
))
    requires
        from <= raw@.len(),
    ensures
        r.0 == boundary_at_or_after(enc, raw@, from as int, target as int),
        from <= r.0 <= raw@.len(),
        match r.1 {
            Some(i) => char_before(enc, raw@, from as int, target as int, None) == Some(i as int)
                && from <= i < raw@.len(),
            None => char_before(enc, raw@, from as int, target as int, None) is None,
        },
{
    let mut p = from;
    let mut prev: Option<usize> = None;
    while p < target && p < raw.len()
        invariant
            from <= p <= raw@.len(),
            prev matches Some(i) ==> from <= i < raw@.len(),
            boundary_at_or_after(enc, raw@, from as int, target as int) == boundary_at_or_after(
                enc,
                raw@,
                p as int,
                target as int,
            ),
            char_before(enc, raw@, from as int, target as int, None) == char_before(
                enc,
                raw@,
                p as int,
                target as int,
                match prev {
                    Some(i) => Some(i as int),
                    None => None,
                },
            ),
        decreases raw.len() - p,
    {
        prev = Some(p);
        p += legacy_step(enc, raw, p);
    }
    (p, prev)
}

/// The raw span of `char_len` characters from character `char_start` on.
pub(crate) fn legacy_char_span(
    enc: Encoding,
    raw: &[u8],
    char_start: usize,
    char_len: usize,
) -> (r: (usize, usize))
    ensures
        r.0 == after_chars(enc, raw@, 0, char_start as nat),
        r.0 + r.1 == after_chars(enc, raw@, r.0 as int, char_len as nat),
        r.0 + r.1 <= raw@.len(),
{
    let off = walk_chars(enc, raw, 0, char_start);
    let end = walk_chars(enc, raw, off, char_len);
    (off, end - off)
}

/// Walks over `n` characters, or to the end of the line if that comes first.
pub(crate) fn walk_chars(enc: Encoding, raw: &[u8], from: usize, n: usize) -> (r: usize)
    requires
        from <= raw@.len(),
    ensures
        r == after_chars(enc, raw@, from as int, n as nat),
        from <= r <= raw@.len(),
{
    let mut off = from;
    let mut left = n;
    while left > 0 && off < raw.len()
        invariant
            from <= off <= raw@.len(),
            left <= n,
            after_chars(enc, raw@, from as int, n as nat) == after_chars(
                enc,
                raw@,
                off as int,
                left as nat,
            ),
        decreases left,
    {
        off += legacy_step(enc, raw, off);
        left -= 1;
    }
    off
}

/// The offset of character column `col` in a line, walking from `from`;
/// `None` if the line is shorter.
pub open spec fn column_offset(enc: Encoding, raw: Seq<u8>, from: int, col: nat) -> Option<int>
    decreases col,
{
    if col == 0 {
        Some(from)
    } else if from >= raw.len() {
        None
    } else {
        column_offset(enc, raw, from + step(enc, raw, from), (col - 1) as nat)
    }
}

/// The offset of character column `col` in a raw line.
pub(crate) fn legacy_col_offset(enc: Encoding, raw: &[u8], col: u64) -> (r: Option<usize>)
    ensures
        match r {
            Some(off) => column_offset(enc, raw@, 0, col as nat) == Some(off as int) && off
                <= raw@.len(),
            None => column_offset(enc, raw@, 0, col as nat) is None,
        },
{
    let mut off: usize = 0;
    let mut left: u64 = col;
    while left > 0
        invariant
            off <= raw@.len(),
            left <= col,
            column_offset(enc, raw@, 0, col as nat) == column_offset(
                enc,
                raw@,
                off as int,
                left as nat,
            ),
        decreases left,
    {
        if off >= raw.len() {
            return None;
        }
        off += legacy_step(enc, raw, off);
        left -= 1;
    }
    Some(off)
}

// ---- ISO-2022-JP -------------------------------------------------------------

/// One step of a walk over an ISO-2022-JP line: how many bytes it takes,
/// whether two-byte mode holds after it, and how many characters it makes.
/// Designation escapes make none; a malformed escape makes one.
pub open spec fn jis_step(raw: Seq<u8>, off: int, double: bool) -> (nat, bool, nat) {
    let has2 = off + 2 < raw.len();
    if raw[off] == 0x1B {
        if has2 && raw[off + 1] == 0x24 && (raw[off + 2] == 0x42 || raw[off + 2] == 0x40) {
            (3, true, 0)
        } else if has2 && raw[off + 1] == 0x28 && (raw[off + 2] == 0x42 || raw[off + 2] == 0x4A
            || raw[off + 2] == 0x49) {
            (3, false, 0)
        } else if has2 && raw[off + 1] == 0x24 && raw[off + 2] == 0x28 && off + 3 < raw.len()
            && raw[off + 3] == 0x44 {
            (4, true, 0)
        } else {
            (1, double, 1)
        }
    } else if double && off + 1 < raw.len() {
        (2, double, 1)
    } else {
        (1, double, 1)
    }
}

/// The offset at which `col` more characters have been made.
pub open spec fn jis_column(raw: Seq<u8>, off: int, double: bool, col: nat) -> Option<int>
    decreases raw.len() - off,
{
    if off >= raw.len() || off < 0 {
        if col == 0 {
            Some(off)
        } else {
            None
        }
    } else if col == 0 {
        Some(off)
    } else {
        let (n, d, made) = jis_step(raw, off, double);
        jis_column(raw, off + n, d, (col - made) as nat)
    }
}

/// The offset of character column `col` in a raw ISO-2022-JP line.
pub fn iso2022jp_col_offset(raw: &[u8], col: u64) -> (r: Option<usize>)
    ensures
        match r {
            Some(off) => jis_column(raw@, 0, false, col as nat) == Some(off as int) && off
                <= raw@.len(),
            None => jis_column(raw@, 0, false, col as nat) is None,
        },
{
    let mut double = false;
    let mut off: usize = 0;
    let mut left: u64 = col;
    while off < raw.len()
        invariant
            off <= raw@.len(),
            left <= col,
            jis_column(raw@, 0, false, col as nat) == jis_column(
                raw@,
                off as int,
                double,
                left as nat,
            ),
        decreases raw.len() - off,
    {
        if left == 0 {
            return Some(off);
        }
        let rest = raw.len() - off;
        if raw[off] == 0x1B {
            if rest > 2 && raw[off + 1] == 0x24 && (raw[off + 2] == 0x42 || raw[off + 2] == 0x40) {
                double = true;
                off += 3;
            } else if rest > 2 && raw[off + 1] == 0x28 && (raw[off + 2] == 0x42 || raw[off + 2]
                == 0x4A || raw[off + 2] == 0x49) {
                double = false;
                off += 3;
            } else if rest > 3 && raw[off + 1] == 0x24 && raw[off + 2] == 0x28 && raw[off + 3]
                == 0x44 {
                double = true;
                off += 4;
            } else {
                left -= 1;
                off += 1;
            }
        } else {
            left -= 1;
            if double && rest > 1 {
                off += 2;
            } else {
                off += 1;
            }
        }
    }
    if left == 0 {
        Some(off)
    } else {
        None
    }
}

/// The offset of a column, or the end of a line that is too short for it.
pub open spec fn jis_column_or_end(raw: Seq<u8>, col: nat) -> int {
    match jis_column(raw, 0, false, col) {
        Some(off) => off,
        None => raw.len() as int,
    }
}

/// The raw span of `char_len` characters from character `char_start` on in an
/// ISO-2022-JP line.
pub fn iso2022jp_char_span(raw: &[u8], char_start: usize, char_len: usize) -> (r: (usize, usize))
    requires
        char_start + char_len <= u64::MAX,
    ensures
        r.0 == jis_column_or_end(raw@, char_start as nat),
        r.1 == (if jis_column_or_end(raw@, (char_start + char_len) as nat) >= r.0 {
            jis_column_or_end(raw@, (char_start + char_len) as nat) - r.0
        } else {
            0
        }),
        r.0 + r.1 <= raw@.len(),
{
    let start = match iso2022jp_col_offset(raw, char_start as u64) {
        Some(off) => off,
        None => raw.len(),
    };
    let end = match iso2022jp_col_offset(raw, char_start as u64 + char_len as u64) {
        Some(off) => off,
        None => raw.len(),
    };
    if end >= start {
        (start, end - start)
    } else {
        (start, 0)
    }
}

} // verus!
