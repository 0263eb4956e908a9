//! Names and frames of the files that are kept beside a document: the cached
//! line index and the crash log.

use vstd::prelude::*;
use vstd::string::*;

use crate::bytes::extend;
use crate::text::{decimal, decimal_text, push_char};

verus! {

/// The seeds of the two halves of a key.
pub const SEED_A: u64 = 0xcbf29ce484222325;

pub const SEED_B: u64 = 0x84222325cbf29ce4;

/// FNV-1a over bytes, from a seed.
pub open spec fn fnv(bytes: Seq<u8>, seed: u64) -> u64
    decreases bytes.len(),
{
    if bytes.len() == 0 {
        seed
    } else {
        (fnv(bytes.drop_last(), seed) ^ (bytes.last() as u64)).wrapping_mul(0x100000001b3)
    }
}

/// Computes FNV-1a.
pub fn fnv1a(bytes: &[u8], seed: u64) -> (h: u64)
    ensures
        h == fnv(bytes@, seed),
{
    let mut h = seed;
    let mut i: usize = 0;
    while i < bytes.len()
        invariant
            i <= bytes@.len(),
            h == fnv(bytes@.take(i as int), seed),
        decreases bytes.len() - i,
    {
        assert(bytes@.take(i + 1).drop_last() =~= bytes@.take(i as int));
        h = (h ^ (bytes[i] as u64)).wrapping_mul(0x100000001b3);
        i += 1;
    }
    assert(bytes@.take(bytes@.len() as int) =~= bytes@);
    h
}

pub open spec fn hex_digit(d: nat) -> char {
    if d < 10 {
        (48 + d) as char
    } else {
        (87 + d) as char
    }
}

/// A number in lower-case hexadecimal, with `width` digits.
pub open spec fn hex_text(n: nat, width: nat) -> Seq<char>
    decreases width,
{
    if width == 0 {
        Seq::empty()
    } else {
        hex_text(n / 16, (width - 1) as nat).push(hex_digit(n % 16))
    }
}

fn hex(n: u64, width: u8) -> (s: String)
    ensures
        s@ == hex_text(n as nat, width as nat),
    decreases width,
{
    if width == 0 {
        let s = String::new();
        assert(s@ =~= Seq::empty());
        s
    } else {
        let mut s = hex(n / 16, width - 1);
        let d: u8 = (n % 16) as u8;
        let c = if d < 10 {
            (48 + d) as char
        } else {
            (87 + d) as char
        };
        push_char(&mut s, c);
        s
    }
}

/// The two hashes of a text, in hexadecimal.
pub open spec fn hashed_name(bytes: Seq<u8>) -> Seq<char> {
    hex_text(fnv(bytes, SEED_A) as nat, 16) + hex_text(fnv(bytes, SEED_B) as nat, 16)
}

fn hashed(text: &str) -> (s: String)
    ensures
        s@ == hashed_name(text.spec_bytes()),
{
    let b = text.as_bytes();
    hex(fnv1a(b, SEED_A), 16).concat(hex(fnv1a(b, SEED_B), 16).as_str())
}

/// The name of the crash log of the file with a canonical path.
pub fn wal_file_name(canonical: &str) -> (s: String)
    ensures
        s@ == hashed_name(canonical.spec_bytes()) + ".wal"@,
{
    hashed(canonical).concat(".wal")
}

/// The name under which a log is set aside while another takes its place.
pub fn aside_name(name: &str) -> (s: String)
    ensures
        s@ == name@ + ".old"@,
{
    name.to_owned().concat(".old")
}

/// What identifies a version of a file, and the index made of it.
pub open spec fn key_text(
    canonical: Seq<char>,
    len: u64,
    mtime: (u64, u32),
    stride: u64,
) -> Seq<char> {
    canonical + "|"@ + decimal_text(len as nat) + "|"@ + decimal_text(mtime.0 as nat) + "|"@
        + decimal_text(mtime.1 as nat) + "|"@ + decimal_text(stride as nat)
}

/// The key of a cached index: two hashes over canonical path, size, time and
/// stride.
pub fn key(canonical: &str, len: u64, mtime: (u64, u32), stride: u64) -> (s: String)
    ensures
        s@ == hashed_name(
            vstd::utf8::encode_utf8(key_text(canonical@, len, mtime, stride)),
        ),
{
    let text = canonical.to_owned().concat("|").concat(decimal(len as u128).as_str()).concat(
        "|",
    ).concat(decimal(mtime.0 as u128).as_str()).concat("|").concat(
        decimal(mtime.1 as u128).as_str(),
    ).concat("|").concat(decimal(stride as u128).as_str());
    hashed(text.as_str())
}

// ---- the frame of a cached index ---------------------------------------------

/// The eight bytes that a cached index starts with.
pub open spec fn wrap_magic() -> Seq<u8> {
    seq![0x41, 0x59, 0x43, 0x41, 0x43, 0x48, 0x45, 0x32]
}

pub const WRAP_LEN: usize = 28;

/// A number in `width` bytes, the lowest first.
pub open spec fn le_bytes(n: nat, width: nat) -> Seq<u8>
    decreases width,
{
    if width == 0 {
        Seq::empty()
    } else {
        seq![(n % 256) as u8] + le_bytes(n / 256, (width - 1) as nat)
    }
}

/// The number that bytes stand for, the lowest first.
pub open spec fn le_value(b: Seq<u8>) -> nat
    decreases b.len(),
{
    if b.len() == 0 {
        0
    } else {
        b[0] as nat + 256 * le_value(b.drop_first())
    }
}

pub open spec fn pow256(width: nat) -> nat
    decreases width,
{
    if width == 0 {
        1
    } else {
        256 * pow256((width - 1) as nat)
    }
}

/// Writing a number in bytes and reading it back gives the number.
pub proof fn le_round_trip(n: nat, width: nat)
    requires
        n < pow256(width),
    ensures
        le_value(le_bytes(n, width)) == n,
        le_bytes(n, width).len() == width,
    decreases width,
{
    if width > 0 {
        let w = (width - 1) as nat;
        assert(n / 256 < pow256(w)) by (nonlinear_arith)
            requires
                n < 256 * pow256(w),
        ;
        le_round_trip(n / 256, w);
        assert(le_bytes(n, width).drop_first() =~= le_bytes(n / 256, w));
    }
}

pub proof fn lemma_le_len(n: nat, width: nat)
    ensures
        le_bytes(n, width).len() == width,
    decreases width,
{
    if width > 0 {
        lemma_le_len(n / 256, (width - 1) as nat);
    }
}

pub proof fn lemma_pow256()
    ensures
        pow256(4) == 0x1_0000_0000,
        pow256(8) == 0x1_0000_0000_0000_0000,
{
    reveal_with_fuel(pow256, 9);
}

/// Appends a number in `width` bytes, the lowest first.
pub(crate) fn push_le(out: &mut Vec<u8>, n: u64, width: u8)
    ensures
        final(out)@ == old(out)@ + le_bytes(n as nat, width as nat),
    decreases width,
{
    let ghost o = out@;
    if width > 0 {
        out.push((n % 256) as u8);
        push_le(out, n / 256, width - 1);
    }
    assert(out@ =~= o + le_bytes(n as nat, width as nat));
}

/// Reads a number of `width` bytes, the lowest first.
pub(crate) fn read_le(b: &[u8], at: usize, width: usize) -> (n: u64)
    requires
        width <= 8,
        at + width <= b@.len(),
    ensures
        n == le_value(b@.subrange(at as int, at + width)),
        n < pow256(width as nat),
    decreases width,
{
    if width == 0 {
        return 0;
    }
    let len = b.len();
    assert(at < len);
    let rest = read_le(b, at + 1, width - 1);
    proof {
        reveal_with_fuel(pow256, 9);
        let s = b@.subrange(at as int, at + width);
        assert(s.drop_first() =~= b@.subrange(at + 1, at + width));
        assert(rest < 0x100_0000_0000_0000);
    }
    (b[at] as u64) + 256 * rest
}

/// What is stored for an index: magic, size and time of the source, index.
pub open spec fn wrapped(len: u64, mtime: (u64, u32), payload: Seq<u8>) -> Seq<u8> {
    wrap_magic() + le_bytes(len as nat, 8) + le_bytes(mtime.0 as nat, 8) + le_bytes(
        mtime.1 as nat,
        4,
    ) + payload
}

/// Frames an index for the cache.
pub fn wrap(len: u64, mtime: (u64, u32), payload: &[u8]) -> (out: Vec<u8>)
    ensures
        out@ == wrapped(len, mtime, payload@),
{
    let mut out: Vec<u8> = vec![0x41, 0x59, 0x43, 0x41, 0x43, 0x48, 0x45, 0x32];
    assert(out@ =~= wrap_magic());
    push_le(&mut out, len, 8);
    push_le(&mut out, mtime.0, 8);
    push_le(&mut out, mtime.1 as u64, 4);
    extend(&mut out, payload);
    out
}

/// What a stored frame holds for a version of a file: nothing if it is one of
/// another version.
pub open spec fn unwrapped(buf: Seq<u8>, len: u64, mtime: (u64, u32)) -> Option<Seq<u8>> {
    if buf.len() >= WRAP_LEN && buf.take(8) == wrap_magic() && le_value(buf.subrange(8, 16)) == len
        && le_value(buf.subrange(16, 24)) == mtime.0 && le_value(buf.subrange(24, 28)) == mtime.1 {
        Some(buf.skip(WRAP_LEN as int))
    } else {
        None
    }
}

/// Checks a stored frame against the source, and gives the index in it.
pub fn unwrap_frame(buf: &[u8], len: u64, mtime: (u64, u32)) -> (r: Option<&[u8]>)
    ensures
        match r {
            Some(p) => unwrapped(buf@, len, mtime) == Some(p@),
            None => unwrapped(buf@, len, mtime) is None,
        },
{
    if buf.len() < WRAP_LEN {
        return None;
    }
    let ok = buf[0] == 0x41 && buf[1] == 0x59 && buf[2] == 0x43 && buf[3] == 0x41 && buf[4] == 0x43
        && buf[5] == 0x48 && buf[6] == 0x45 && buf[7] == 0x32;
    proof {
        if ok {
            assert(buf@.take(8) =~= wrap_magic());
        } else if buf@.take(8) == wrap_magic() {
            assert forall|i: int| 0 <= i < 8 implies buf@[i] == wrap_magic()[i] by {
                assert(buf@.take(8)[i] == wrap_magic()[i]);
            }
            assert(buf@[0] == 0x41 && buf@[1] == 0x59 && buf@[2] == 0x43 && buf@[3] == 0x41
                && buf@[4] == 0x43 && buf@[5] == 0x48 && buf@[6] == 0x45 && buf@[7] == 0x32);
        }
    }
    if !ok || read_le(buf, 8, 8) != len || read_le(buf, 16, 8) != mtime.0 || read_le(buf, 24, 4)
        != mtime.1 as u64 {
        return None;
    }
    let rest = vstd::slice::slice_subrange(buf, WRAP_LEN, buf.len());
    assert(rest@ =~= buf@.skip(WRAP_LEN as int));
    Some(rest)
}

/// A stored index is found again for the version of the file that it was
/// stored for, and for no other.
pub proof fn frames_are_found_again(
    len: u64,
    mtime: (u64, u32),
    payload: Seq<u8>,
    len2: u64,
    mtime2: (u64, u32),
)
    ensures
        unwrapped(wrapped(len, mtime, payload), len2, mtime2) == if len == len2 && mtime == mtime2 {
            Some(payload)
        } else {
            None
        },
{
    let a = le_bytes(len as nat, 8);
    let b = le_bytes(mtime.0 as nat, 8);
    let c = le_bytes(mtime.1 as nat, 4);
    let buf = wrapped(len, mtime, payload);
    lemma_pow256();
    le_round_trip(len as nat, 8);
    le_round_trip(mtime.0 as nat, 8);
    le_round_trip(mtime.1 as nat, 4);
    assert(buf.take(8) =~= wrap_magic());
    assert(buf.subrange(8, 16) =~= a);
    assert(buf.subrange(16, 24) =~= b);
    assert(buf.subrange(24, 28) =~= c);
    assert(buf.skip(WRAP_LEN as int) =~= payload);
}

} // verus!
