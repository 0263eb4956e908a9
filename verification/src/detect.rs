//! Recognising the encoding of a buffer.

use vstd::prelude::*;
use vstd::string::*;
use vstd::utf8::*;

use crate::bytes::find_byte;
use crate::encoding::{chardetng_guess, guessed_name, is_utf8, Encoding};
use crate::text::same_text;

verus! {

/// How much of a buffer is looked at.
pub const SNIFF: usize = 262144;

/// The length of a leading byte-order mark, and the encoding it announces.
pub open spec fn bom_of(buf: Seq<u8>) -> (nat, Option<Encoding>) {
    if buf.len() >= 3 && buf[0] == 0xEF && buf[1] == 0xBB && buf[2] == 0xBF {
        (3, Some(Encoding::Utf8))
    } else if buf.len() >= 2 && buf[0] == 0xFF && buf[1] == 0xFE {
        (2, Some(Encoding::Utf16Le))
    } else if buf.len() >= 2 && buf[0] == 0xFE && buf[1] == 0xFF {
        (2, Some(Encoding::Utf16Be))
    } else {
        (0, None)
    }
}

/// Length in bytes of a leading byte-order mark, and the encoding it announces.
pub fn bom_len(buf: &[u8]) -> (r: (usize, Option<Encoding>))
    ensures
        (r.0 as nat, r.1) == bom_of(buf@),
        r.0 <= buf@.len(),
{
    if buf.len() >= 3 && buf[0] == 0xEF && buf[1] == 0xBB && buf[2] == 0xBF {
        (3, Some(Encoding::Utf8))
    } else if buf.len() >= 2 && buf[0] == 0xFF && buf[1] == 0xFE {
        (2, Some(Encoding::Utf16Le))
    } else if buf.len() >= 2 && buf[0] == 0xFE && buf[1] == 0xFF {
        (2, Some(Encoding::Utf16Be))
    } else {
        (0, None)
    }
}

/// The number of NUL bytes at positions of the given parity.
pub open spec fn nuls(p: Seq<u8>, parity: int) -> nat
    decreases p.len(),
{
    if p.len() == 0 {
        0
    } else {
        nuls(p.drop_last(), parity) + if p.last() == 0 && (p.len() - 1) % 2 == parity {
            1nat
        } else {
            0
        }
    }
}

/// UTF-16 without a byte-order mark: NULs stand almost exclusively on one
/// parity, as they do where most characters are ASCII.
pub open spec fn bomless_utf16(p: Seq<u8>) -> Option<Encoding> {
    let units = p.len() / 2;
    let dominant = (units * 3) / 10;
    let noise = units / 20;
    if p.len() < 16 {
        None
    } else if nuls(p, 1) >= dominant && nuls(p, 0) <= noise {
        Some(Encoding::Utf16Le)
    } else if nuls(p, 0) >= dominant && nuls(p, 1) <= noise {
        Some(Encoding::Utf16Be)
    } else {
        None
    }
}

fn detect_bomless_utf16(prefix: &[u8]) -> (r: Option<Encoding>)
    requires
        prefix@.len() <= SNIFF,
    ensures
        r == bomless_utf16(prefix@),
{
    if prefix.len() < 16 {
        return None;
    }
    let mut even_nul: usize = 0;
    let mut odd_nul: usize = 0;
    let mut i: usize = 0;
    while i < prefix.len()
        invariant
            i <= prefix@.len() <= SNIFF,
            even_nul <= i,
            odd_nul <= i,
            even_nul == nuls(prefix@.take(i as int), 0),
            odd_nul == nuls(prefix@.take(i as int), 1),
        decreases prefix.len() - i,
    {
        assert(prefix@.take(i + 1).drop_last() =~= prefix@.take(i as int));
        if prefix[i] == 0 {
            if i % 2 == 0 {
                even_nul += 1;
            } else {
                odd_nul += 1;
            }
        }
        i += 1;
    }
    assert(prefix@.take(prefix@.len() as int) =~= prefix@);
    let units: usize = prefix.len() / 2;
    let dominant: usize = (units * 3) / 10;
    let noise: usize = units / 20;
    if odd_nul >= dominant && even_nul <= noise {
        return Some(Encoding::Utf16Le);
    }
    if even_nul >= dominant && odd_nul <= noise {
        return Some(Encoding::Utf16Be);
    }
    None
}

/// An escape that opens JIS X 0208 stands at `i`.
pub open spec fn jis_opening_at(p: Seq<u8>, i: int) -> bool {
    &&& 0 <= i
    &&& i + 2 < p.len()
    &&& p[i] == 0x1B
    &&& p[i + 1] == 0x24
    &&& (p[i + 2] == 0x42 || p[i + 2] == 0x40)
}

/// ISO-2022-JP is known by an escape that opens JIS X 0208. Escapes that return
/// to ASCII do not count: terminal logs hold them too.
fn looks_iso_2022_jp(prefix: &[u8]) -> (b: bool)
    ensures
        b == exists|i: int| jis_opening_at(prefix@, i),
{
    let mut at: usize = 0;
    while at < prefix.len()
        invariant
            at <= prefix@.len(),
            forall|i: int| 0 <= i < at ==> !jis_opening_at(prefix@, i),
        decreases prefix.len() - at,
    {
        let rest = &prefix[at..prefix.len()];
        match find_byte(0x1B, rest) {
            Some(rel) => {
                let i = at + rel;
                assert forall|j: int| at <= j < i implies !jis_opening_at(prefix@, j) by {
                    assert(rest@[j - at] != 0x1B);
                }
                if prefix.len() - i > 2 && prefix[i + 1] == 0x24 && (prefix[i + 2] == 0x42
                    || prefix[i + 2] == 0x40) {
                    assert(jis_opening_at(prefix@, i as int));
                    return true;
                }
                at = i + 1;
            },
            None => {
                assert forall|j: int| at <= j implies !jis_opening_at(prefix@, j) by {
                    if jis_opening_at(prefix@, j) {
                        assert(rest@[j - at] != 0x1B);
                    }
                }
                return false;
            },
        }
    }
    false
}

/// The encoding that a detector's name stands for; UTF-8 where it names one
/// that documents cannot have.
pub open spec fn detector_encoding(name: Seq<char>) -> Encoding {
    if name == "Shift_JIS"@ {
        Encoding::ShiftJis
    } else if name == "EUC-JP"@ {
        Encoding::EucJp
    } else if name == "ISO-2022-JP"@ {
        Encoding::Iso2022Jp
    } else if name == "UTF-16LE"@ {
        Encoding::Utf16Le
    } else if name == "UTF-16BE"@ {
        Encoding::Utf16Be
    } else {
        Encoding::Utf8
    }
}

/// The encoding that a detector's name stands for.
pub fn encoding_of_detector(name: &str) -> (enc: Encoding)
    ensures
        enc == detector_encoding(name@),
{
    if same_text(name, "Shift_JIS") {
        Encoding::ShiftJis
    } else if same_text(name, "EUC-JP") {
        Encoding::EucJp
    } else if same_text(name, "ISO-2022-JP") {
        Encoding::Iso2022Jp
    } else if same_text(name, "UTF-16LE") {
        Encoding::Utf16Le
    } else if same_text(name, "UTF-16BE") {
        Encoding::Utf16Be
    } else {
        Encoding::Utf8
    }
}

/// The start of a buffer that is looked at.
pub open spec fn prefix_of(buf: Seq<u8>) -> Seq<u8> {
    if buf.len() <= SNIFF {
        buf
    } else {
        buf.take(SNIFF as int)
    }
}

/// The encoding of a buffer without a byte-order mark, judged by its start.
pub open spec fn sniffed_encoding(buf: Seq<u8>) -> Encoding {
    let p = prefix_of(buf);
    if p.len() == 0 {
        Encoding::Utf8
    } else if bomless_utf16(p) is Some {
        bomless_utf16(p)->0
    } else if exists|i: int| jis_opening_at(p, i) {
        Encoding::Iso2022Jp
    } else if valid_utf8(p) {
        Encoding::Utf8
    } else {
        detector_encoding(guessed_name(p, buf.len() <= SNIFF))
    }
}

/// The encoding of a buffer and the length of its byte-order mark. What the
/// caller forces goes before the mark, and the mark before a guess.
pub open spec fn detected(buf: Seq<u8>, forced: Option<Encoding>) -> (Encoding, nat) {
    let (bom, announced) = bom_of(buf);
    match (forced, announced) {
        (Some(e), _) => (e, bom),
        (None, Some(e)) => (e, bom),
        (None, None) => (sniffed_encoding(buf), 0),
    }
}

/// Detects the encoding of a buffer and the length of its byte-order mark.
pub fn detect(buf: &[u8], override_enc: Option<Encoding>) -> (r: (Encoding, usize))
    ensures
        (r.0, r.1 as nat) == detected(buf@, override_enc),
        r.1 <= buf@.len(),
        r.1 <= 3,
{
    let (bom, announced) = bom_len(buf);
    if let Some(forced) = override_enc {
        return (forced, bom);
    }
    if let Some(e) = announced {
        return (e, bom);
    }
    let prefix: &[u8] = if buf.len() <= SNIFF {
        buf
    } else {
        &buf[0..SNIFF]
    };
    assert(prefix@ =~= prefix_of(buf@));
    if prefix.len() == 0 {
        return (Encoding::Utf8, 0);
    }
    if let Some(wide) = detect_bomless_utf16(prefix) {
        return (wide, 0);
    }
    if looks_iso_2022_jp(prefix) {
        return (Encoding::Iso2022Jp, 0);
    }
    if is_utf8(prefix) {
        return (Encoding::Utf8, 0);
    }
    let name = chardetng_guess(prefix, buf.len() <= SNIFF);
    (encoding_of_detector(name), 0)
}

} // verus!
