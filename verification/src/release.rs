//! What a release decides: options, versions, release notes, names, checksums
//! and signatures.

use ed25519_dalek::Signer;
use sha2::Digest;

use vstd::prelude::*;
use vstd::string::*;
use vstd::utf8::*;

use crate::cache::hex_digit;
use crate::text::{
    chars_of, decimal, decimal_text, find_text, first_from, is_at, is_white, pieces, push_char,
    same_text, split_pieces, stands_at, string_of, texts, trim_bounds, trim_start, trimmed, white,
};

verus! {

// ---- options -----------------------------------------------------------------

/// The options of a release.
#[derive(Debug)]
pub struct Opts {
    pub bump: Option<String>,
    pub yes: bool,
    pub dry_run: bool,
    pub skip_gate: bool,
}

#[verifier::ext_equal]
pub struct OptsView {
    pub bump: Option<Seq<char>>,
    pub yes: bool,
    pub dry_run: bool,
    pub skip_gate: bool,
}

impl View for Opts {
    type V = OptsView;

    open spec fn view(&self) -> OptsView {
        OptsView {
            bump: crate::overlay::opt_text(self.bump),
            yes: self.yes,
            dry_run: self.dry_run,
            skip_gate: self.skip_gate,
        }
    }
}

/// The options that arguments from `i` on give, or why they give none.
pub open spec fn opts_of(args: Seq<Seq<char>>, i: int, o: OptsView) -> Result<OptsView, Seq<char>>
    decreases args.len() - i,
{
    if i < 0 || i >= args.len() {
        Ok(o)
    } else if args[i] == "--bump"@ {
        if i + 1 >= args.len() {
            Err("--bump needs an argument (patch|minor|major|X.Y.Z)"@)
        } else {
            opts_of(args, i + 2, OptsView { bump: Some(args[i + 1]), ..o })
        }
    } else if args[i] == "--yes"@ {
        opts_of(args, i + 1, OptsView { yes: true, ..o })
    } else if args[i] == "--dry-run"@ {
        opts_of(args, i + 1, OptsView { dry_run: true, ..o })
    } else if args[i] == "--skip-gate"@ {
        opts_of(args, i + 1, OptsView { skip_gate: true, ..o })
    } else {
        Err("unknown option: "@ + args[i])
    }
}

pub open spec fn no_opts() -> OptsView {
    OptsView { bump: None, yes: false, dry_run: false, skip_gate: false }
}

/// Reads the options of a release.
pub fn parse_opts(args: &Vec<String>) -> (r: Result<Opts, String>)
    ensures
        match r {
            Ok(o) => opts_of(texts(args@), 0, no_opts()) == Ok::<OptsView, Seq<char>>(o@),
            Err(e) => opts_of(texts(args@), 0, no_opts()) == Err::<OptsView, Seq<char>>(e@),
        },
{
    let ghost a = texts(args@);
    let mut o = Opts { bump: None, yes: false, dry_run: false, skip_gate: false };
    let mut i: usize = 0;
    while i < args.len()
        invariant
            a == texts(args@),
            i <= args@.len(),
            opts_of(a, 0, no_opts()) == opts_of(a, i as int, o@),
        decreases args.len() - i,
    {
        let arg = args[i].as_str();
        assert(a[i as int] == arg@);
        if same_text(arg, "--bump") {
            if i + 1 >= args.len() {
                return Err("--bump needs an argument (patch|minor|major|X.Y.Z)".to_owned());
            }
            let value = args[i + 1].clone();
            assert(a[i + 1] == value@);
            o = Opts { bump: Some(value), ..o };
            i += 2;
        } else if same_text(arg, "--yes") {
            o.yes = true;
            i += 1;
        } else if same_text(arg, "--dry-run") {
            o.dry_run = true;
            i += 1;
        } else if same_text(arg, "--skip-gate") {
            o.skip_gate = true;
            i += 1;
        } else {
            return Err("unknown option: ".to_owned().concat(arg));
        }
    }
    Ok(o)
}

// ---- versions ----------------------------------------------------------------

/// The pieces of a text between dots.
pub open spec fn dotted(s: Seq<char>) -> Seq<Seq<char>>
    decreases s.len(),
{
    if s.len() == 0 {
        seq![Seq::<char>::empty()]
    } else {
        let p = dotted(s.drop_last());
        if s.last() == '.' {
            p.push(Seq::<char>::empty())
        } else {
            p.drop_last().push(p.last().push(s.last()))
        }
    }
}

fn split_dots(s: &str) -> (v: Vec<String>)
    ensures
        texts(v@) == dotted(s@),
        v@.len() >= 1,
{
    let chars = chars_of(s);
    let mut v: Vec<String> = Vec::new();
    let mut cur = String::new();
    let mut i: usize = 0;
    assert(texts(v@).push(cur@) =~= dotted(chars@.take(0)));
    while i < chars.len()
        invariant
            i <= chars@.len(),
            texts(v@).push(cur@) == dotted(chars@.take(i as int)),
        decreases chars.len() - i,
    {
        let ghost p = texts(v@).push(cur@);
        proof {
            assert(chars@.take(i + 1).drop_last() =~= chars@.take(i as int));
            assert(chars@.take(i + 1).last() == chars@[i as int]);
        }
        if chars[i] == '.' {
            let ghost before = texts(v@);
            let ghost c = cur@;
            v.push(cur);
            assert(texts(v@) =~= before.push(c));
            cur = String::new();
            assert(texts(v@).push(cur@) =~= p.push(Seq::<char>::empty()));
        } else {
            let ghost c = cur@;
            push_char(&mut cur, chars[i]);
            assert(texts(v@).push(cur@) =~= p.drop_last().push(p.last().push(chars@[i as int])));
        }
        i += 1;
    }
    assert(chars@.take(chars@.len() as int) =~= chars@);
    let ghost before = texts(v@);
    let ghost c = cur@;
    v.push(cur);
    assert(texts(v@) =~= before.push(c));
    v
}

pub open spec fn is_digit(c: char) -> bool {
    48 <= c as u32 <= 57
}

/// The number that decimal digits stand for; `None` if there is anything else,
/// or nothing.
pub open spec fn digits_value(s: Seq<char>) -> Option<nat>
    decreases s.len(),
{
    if s.len() == 0 || !is_digit(s.last()) {
        None
    } else {
        let d = (s.last() as u32 - 48) as nat;
        if s.len() == 1 {
            Some(d)
        } else {
            match digits_value(s.drop_last()) {
                Some(n) => Some(10 * n + d),
                None => None,
            }
        }
    }
}

/// A text without a plus sign before it.
pub open spec fn without_plus(s: Seq<char>) -> Seq<char> {
    if s.len() > 0 && s[0] == '+' {
        s.drop_first()
    } else {
        s
    }
}

/// The number that a text stands for, if it fits in 64 bits.
pub open spec fn number_of(s: Seq<char>) -> Option<u64> {
    match digits_value(without_plus(s)) {
        Some(n) => if n <= u64::MAX { Some(n as u64) } else { None },
        None => None,
    }
}

proof fn lemma_digits_grow(s: Seq<char>, i: int)
    requires
        0 < i <= s.len(),
        digits_value(s) is Some,
    ensures
        digits_value(s.take(i)) is Some,
        digits_value(s.take(i))->Some_0 <= digits_value(s)->Some_0,
    decreases s.len(),
{
    if i == s.len() {
        assert(s.take(i) =~= s);
    } else {
        lemma_digits_grow(s.drop_last(), i);
        assert(s.drop_last().take(i) =~= s.take(i));
    }
}

/// Reads decimal digits from a position on.
fn read_digits(chars: &[char], from: usize) -> (r: Option<u64>)
    requires
        from <= chars@.len(),
    ensures
        match r {
            Some(n) => digits_value(chars@.skip(from as int)) == Some(n as nat),
            None => digits_value(chars@.skip(from as int)) matches Some(n) ==> n > u64::MAX,
        },
{
    let ghost s = chars@.skip(from as int);
    let n = chars.len();
    if from >= n {
        return None;
    }
    let mut value: u64 = 0;
    let mut i: usize = from;
    while i < n
        invariant
            n == chars@.len(),
            from <= i <= n,
            from < n,
            s == chars@.skip(from as int),
            i > from ==> digits_value(s.take(i - from)) == Some(value as nat),
            i == from ==> value == 0,
        decreases n - i,
    {
        let c = chars[i];
        let u = c as u32;
        let ghost k = i - from;
        proof {
            let t = s.take(k + 1);
            assert(t.last() == c);
            assert(t.drop_last() =~= s.take(k));
        }
        if u < 48 || u > 57 {
            proof {
                if digits_value(s) is Some {
                    lemma_digits_grow(s, k + 1);
                }
            }
            return None;
        }
        let d = (u - 48) as u64;
        if value > (u64::MAX - d) / 10 {
            proof {
                if digits_value(s) is Some {
                    lemma_digits_grow(s, k + 1);
                }
            }
            return None;
        }
        value = 10 * value + d;
        i += 1;
    }
    assert(s.take(s.len() as int) =~= s);
    Some(value)
}

/// Reads a number.
pub fn read_number(s: &str) -> (r: Option<u64>)
    ensures
        r == number_of(s@),
{
    let chars = chars_of(s);
    let from: usize = if chars.len() > 0 && chars[0] == '+' {
        1
    } else {
        0
    };
    assert(chars@.skip(from as int) =~= without_plus(s@));
    read_digits(chars.as_slice(), from)
}

/// The three numbers of a version.
pub open spec fn version_of(s: Seq<char>) -> Option<(u64, u64, u64)> {
    let p = dotted(s);
    if p.len() != 3 {
        None
    } else {
        match (number_of(p[0]), number_of(p[1]), number_of(p[2])) {
            (Some(a), Some(b), Some(c)) => Some((a, b, c)),
            _ => None,
        }
    }
}

/// Some part between dots is no number.
pub open spec fn some_part_bad(p: Seq<Seq<char>>) -> bool {
    exists|i: int| 0 <= i < p.len() && number_of(#[trigger] p[i]) is None
}

pub open spec fn version_text(a: nat, b: nat, c: nat) -> Seq<char> {
    decimal_text(a) + "."@ + decimal_text(b) + "."@ + decimal_text(c)
}

/// The number that is raised has room.
pub open spec fn can_bump(current: Seq<char>, how: Seq<char>) -> bool {
    match version_of(current) {
        Some((a, b, c)) => {
            &&& how == "patch"@ ==> c < u64::MAX
            &&& how == "minor"@ ==> b < u64::MAX
            &&& how == "major"@ ==> a < u64::MAX
        },
        None => true,
    }
}

/// The next version, or why there is none.
pub open spec fn bump_of(current: Seq<char>, how: Seq<char>) -> Result<Seq<char>, Seq<char>> {
    match version_of(current) {
        None => if some_part_bad(dotted(current)) {
            Err("current version is not X.Y.Z"@)
        } else {
            Err("current version is not X.Y.Z: "@ + current)
        },
        Some((a, b, c)) => if how == "patch"@ {
            Ok(version_text(a as nat, b as nat, c as nat + 1))
        } else if how == "minor"@ {
            Ok(version_text(a as nat, b as nat + 1, 0))
        } else if how == "major"@ {
            Ok(version_text(a as nat + 1, 0, 0))
        } else if dotted(how).len() == 3 {
            Ok(how)
        } else {
            Err("--bump must be patch, minor, major, or X.Y.Z"@)
        },
    }
}

fn version_string(a: u64, b: u64, c: u64) -> (s: String)
    ensures
        s@ == version_text(a as nat, b as nat, c as nat),
{
    decimal(a as u128).concat(".").concat(decimal(b as u128).as_str()).concat(".").concat(
        decimal(c as u128).as_str(),
    )
}

/// Reads the three numbers of a version; the message where it is none.
fn version_numbers(current: &str) -> (r: Result<(u64, u64, u64), String>)
    ensures
        match r {
            Ok(v) => version_of(current@) == Some(v),
            Err(e) => version_of(current@) is None && e@ == if some_part_bad(dotted(current@)) {
                "current version is not X.Y.Z"@
            } else {
                "current version is not X.Y.Z: "@ + current@
            },
        },
{
    let parts = split_dots(current);
    let ghost p = dotted(current@);
    let mut numbers: Vec<u64> = Vec::new();
    let mut i: usize = 0;
    while i < parts.len()
        invariant
            i <= parts@.len(),
            p == texts(parts@),
            p == dotted(current@),
            numbers@.len() == i,
            forall|j: int| 0 <= j < i ==> number_of(#[trigger] p[j]) == Some(numbers@[j]),
        decreases parts.len() - i,
    {
        assert(p[i as int] == parts@[i as int]@);
        match read_number(parts[i].as_str()) {
            Some(n) => {
                numbers.push(n);
            },
            None => {
                assert(number_of(p[i as int]) is None);
                assert(some_part_bad(p));
                return Err("current version is not X.Y.Z".to_owned());
            },
        }
        i += 1;
    }
    assert(!some_part_bad(p));
    if numbers.len() != 3 {
        return Err("current version is not X.Y.Z: ".to_owned().concat(current));
    }
    let (a, b, c) = (numbers[0], numbers[1], numbers[2]);
    assert(number_of(p[0]) == Some(a) && number_of(p[1]) == Some(b) && number_of(p[2]) == Some(c));
    Ok((a, b, c))
}

/// Whether the number of a version that is to be raised has room.
pub fn has_room(current: &str, how: &str) -> (b: bool)
    ensures
        b == can_bump(current@, how@),
{
    match version_numbers(current) {
        Ok((a, b, c)) => !(same_text(how, "patch") && c == u64::MAX) && !(same_text(how, "minor")
            && b == u64::MAX) && !(same_text(how, "major") && a == u64::MAX),
        Err(_) => true,
    }
}

/// Finds the next version.
pub fn bumped(current: &str, how: &str) -> (r: Result<String, String>)
    requires
        can_bump(current@, how@),
    ensures
        match r {
            Ok(v) => bump_of(current@, how@) == Ok::<Seq<char>, Seq<char>>(v@),
            Err(e) => bump_of(current@, how@) == Err::<Seq<char>, Seq<char>>(e@),
        },
{
    let (a, b, c) = match version_numbers(current) {
        Ok(v) => v,
        Err(e) => {
            return Err(e);
        },
    };
    if same_text(how, "patch") {
        Ok(version_string(a, b, c + 1))
    } else if same_text(how, "minor") {
        Ok(version_string(a, b + 1, 0))
    } else if same_text(how, "major") {
        Ok(version_string(a + 1, 0, 0))
    } else {
        let parts = split_dots(how);
        assert(texts(parts@).len() == parts@.len());
        if parts.len() == 3 {
            Ok(how.to_owned())
        } else {
            Err("--bump must be patch, minor, major, or X.Y.Z".to_owned())
        }
    }
}

// ---- hexadecimal -------------------------------------------------------------

/// Bytes in lower-case hexadecimal.
pub open spec fn hexed(bytes: Seq<u8>) -> Seq<char>
    decreases bytes.len(),
{
    if bytes.len() == 0 {
        Seq::empty()
    } else {
        hexed(bytes.drop_last()) + seq![
            hex_digit(bytes.last() as nat / 16),
            hex_digit(bytes.last() as nat % 16),
        ]
    }
}

fn hex_char(d: u8) -> (c: char)
    requires
        d < 16,
    ensures
        c == hex_digit(d as nat),
{
    if d < 10 {
        (48 + d) as char
    } else {
        (87 + d) as char
    }
}

/// Writes bytes in hexadecimal.
pub fn hex(bytes: &[u8]) -> (s: String)
    ensures
        s@ == hexed(bytes@),
{
    let mut s = String::new();
    let mut i: usize = 0;
    assert(s@ =~= hexed(bytes@.take(0)));
    while i < bytes.len()
        invariant
            i <= bytes@.len(),
            s@ == hexed(bytes@.take(i as int)),
        decreases bytes.len() - i,
    {
        let b = bytes[i];
        assert(bytes@.take(i + 1).drop_last() =~= bytes@.take(i as int));
        let ghost before = s@;
        push_char(&mut s, hex_char(b / 16));
        push_char(&mut s, hex_char(b % 16));
        assert(s@ =~= before + seq![hex_digit(b as nat / 16), hex_digit(b as nat % 16)]);
        i += 1;
    }
    assert(bytes@.take(bytes@.len() as int) =~= bytes@);
    s
}

/// The value of a hexadecimal digit.
pub open spec fn hex_value(b: u8) -> Option<nat> {
    if 48 <= b <= 57 {
        Some((b - 48) as nat)
    } else if 97 <= b <= 102 {
        Some((b - 87) as nat)
    } else if 65 <= b <= 70 {
        Some((b - 55) as nat)
    } else {
        None
    }
}

/// The byte that two digits stand for.
pub open spec fn pair_value(a: u8, b: u8) -> Option<u8> {
    match (hex_value(a), hex_value(b)) {
        (Some(x), Some(y)) => Some((16 * x + y) as u8),
        _ => None,
    }
}

/// The bytes that hexadecimal text stands for.
pub open spec fn unhexed(t: Seq<u8>) -> Option<Seq<u8>>
    decreases t.len(),
{
    if t.len() == 0 {
        Some(Seq::empty())
    } else if t.len() == 1 {
        None
    } else {
        match (unhexed(t.take(t.len() - 2)), pair_value(t[t.len() - 2], t[t.len() - 1])) {
            (Some(s), Some(b)) => Some(s.push(b)),
            _ => None,
        }
    }
}

fn digit_value(b: u8) -> (r: Option<u8>)
    ensures
        match r {
            Some(v) => hex_value(b) == Some(v as nat) && v < 16,
            None => hex_value(b) is None,
        },
{
    if 48 <= b && b <= 57 {
        Some(b - 48)
    } else if 97 <= b && b <= 102 {
        Some(b - 87)
    } else if 65 <= b && b <= 70 {
        Some(b - 55)
    } else {
        None
    }
}

proof fn lemma_unhex_prefix(t: Seq<u8>, n: int)
    requires
        0 <= n <= t.len(),
        n % 2 == t.len() as int % 2,
        unhexed(t.take(n)) is None,
    ensures
        unhexed(t) is None,
    decreases t.len() - n,
{
    if n == t.len() {
        assert(t.take(n) =~= t);
    } else {
        assert(t.take(n + 2).take(n) =~= t.take(n));
        lemma_unhex_prefix(t, n + 2);
    }
}

/// Reads bytes in hexadecimal.
pub fn unhex(text: &str) -> (r: Option<Vec<u8>>)
    ensures
        match r {
            Some(v) => unhexed(text.spec_bytes()) == Some(v@),
            None => unhexed(text.spec_bytes()) is None,
        },
{
    let t = text.as_bytes();
    let n = t.len();
    let ghost ts = text.spec_bytes();
    if n % 2 != 0 {
        proof {
            assert(ts.take(1).len() == 1);
            lemma_unhex_prefix(ts, 1);
        }
        return None;
    }
    let mut out: Vec<u8> = Vec::new();
    let mut i: usize = 0;
    assert(ts.take(0) =~= Seq::<u8>::empty());
    assert(out@ =~= Seq::<u8>::empty());
    while i < n
        invariant
            t@ == ts,
            ts == text.spec_bytes(),
            n == ts.len(),
            n % 2 == 0,
            i % 2 == 0,
            i <= n,
            unhexed(ts.take(i as int)) == Some(out@),
        decreases n - i,
    {
        let ghost part = ts.take(i + 2);
        proof {
            assert(part.take(part.len() - 2) =~= ts.take(i as int));
        }
        match (digit_value(t[i]), digit_value(t[i + 1])) {
            (Some(x), Some(y)) => {
                out.push(16 * x + y);
            },
            _ => {
                proof {
                    assert(unhexed(part) is None);
                    lemma_unhex_prefix(ts, i + 2);
                }
                return None;
            },
        }
        i += 2;
    }
    assert(ts.take(n as int) =~= ts);
    Some(out)
}

proof fn lemma_digit_value(d: nat)
    requires
        d < 16,
    ensures
        (hex_digit(d) as u32) < 128,
        hex_value(hex_digit(d) as u32 as u8) == Some(d),
{
}

proof fn lemma_hexed_len(b: Seq<u8>)
    ensures
        hexed(b).len() == 2 * b.len(),
        is_ascii_chars(hexed(b)),
    decreases b.len(),
{
    if b.len() > 0 {
        lemma_hexed_len(b.drop_last());
        lemma_digit_value(b.last() as nat / 16);
        lemma_digit_value(b.last() as nat % 16);
        let s = hexed(b.drop_last());
        let t = hexed(b);
        is_ascii_chars_nat_bound(s);
        assert(is_ascii_chars(t)) by {
            assert forall|i: int| 0 <= i < t.len() implies (#[trigger] t[i] as nat) < 128 by {
                if i < s.len() {
                    assert(t[i] == s[i]);
                }
            }
        }
    }
}

/// Bytes that are written in hexadecimal are read back as they were.
pub proof fn hex_is_read_back(b: Seq<u8>)
    ensures
        unhexed(encode_utf8(hexed(b))) == Some(b),
    decreases b.len(),
{
    lemma_hexed_len(b);
    is_ascii_chars_encode_utf8(hexed(b));
    let t = encode_utf8(hexed(b));
    if b.len() > 0 {
        let c = b.drop_last();
        hex_is_read_back(c);
        lemma_hexed_len(c);
        is_ascii_chars_encode_utf8(hexed(c));
        let u = encode_utf8(hexed(c));
        assert(t.take(t.len() - 2) =~= u) by {
            assert forall|i: int| 0 <= i < u.len() implies t[i] == u[i] by {
                assert(hexed(b)[i] == hexed(c)[i]);
            }
        }
        let x = b.last() as nat;
        lemma_digit_value(x / 16);
        lemma_digit_value(x % 16);
        assert(hexed(b)[t.len() - 2] == hex_digit(x / 16));
        assert(hexed(b)[t.len() - 1] == hex_digit(x % 16));
        assert(c.push(b.last()) =~= b);
    }
}

/// A byte with capital digits made small.
pub open spec fn lower_digit(b: u8) -> u8 {
    if 65 <= b <= 70 {
        (b + 32) as u8
    } else {
        b
    }
}

pub open spec fn hex_digits(t: Seq<u8>) -> bool {
    forall|i: int| 0 <= i < t.len() ==> hex_value(#[trigger] t[i]) is Some
}

/// Text is read as hexadecimal where its length is even and it holds digits
/// only. It is half as long as bytes, and writing those gives it back in small
/// digits.
pub proof fn hex_that_is_read_is_written_back(t: Seq<u8>)
    ensures
        unhexed(t) is Some <==> t.len() % 2 == 0 && hex_digits(t),
        unhexed(t) matches Some(b) ==> b.len() == t.len() / 2 && encode_utf8(hexed(b))
            == Seq::new(t.len(), |i: int| lower_digit(t[i])),
    decreases t.len(),
{
    if t.len() == 0 {
        lemma_hexed_len(Seq::empty());
        is_ascii_chars_encode_utf8(hexed(Seq::empty()));
        assert(encode_utf8(hexed(Seq::empty())) =~= Seq::new(t.len(), |i: int| lower_digit(t[i])));
    } else if t.len() > 1 {
        let n = t.len() - 2;
        let head = t.take(n);
        hex_that_is_read_is_written_back(head);
        if hex_digits(t) {
            assert forall|i: int| 0 <= i < n implies hex_value(#[trigger] head[i]) is Some by {
                assert(hex_value(t[i]) is Some);
            }
        }
        if unhexed(t) is Some {
            let b = unhexed(t)->Some_0;
            let c = unhexed(head)->Some_0;
            assert(b.drop_last() =~= c);
            assert forall|i: int| 0 <= i < t.len() implies hex_value(#[trigger] t[i]) is Some by {
                if i < n {
                    assert(hex_value(head[i]) is Some);
                }
            }
            lemma_hexed_len(b);
            is_ascii_chars_encode_utf8(hexed(b));
            lemma_hexed_len(c);
            is_ascii_chars_encode_utf8(hexed(c));
            let (x, y) = (hex_value(t[n])->Some_0, hex_value(t[n + 1])->Some_0);
            assert(b.last() == 16 * x + y);
            assert(b.last() as nat / 16 == x && b.last() as nat % 16 == y);
            let small = Seq::new(t.len(), |i: int| lower_digit(t[i]));
            let u = encode_utf8(hexed(b));
            assert forall|i: int| 0 <= i < t.len() implies u[i] == small[i] by {
                if i < n {
                    assert(hexed(b)[i] == hexed(c)[i]);
                    assert(encode_utf8(hexed(c))[i] == lower_digit(head[i]));
                } else {
                    assert(hexed(b)[n] == hex_digit(x));
                    assert(hexed(b)[n + 1] == hex_digit(y));
                }
            }
            assert(u =~= small);
        }
    }
}

// ---- release notes -----------------------------------------------------------

pub open spec fn heading() -> Seq<char> {
    "## Unreleased"@
}

/// Where the heading of the unreleased notes starts and ends, and where the
/// notes end: before the next heading.
pub open spec fn section_of(text: Seq<char>) -> Option<(int, int, int)> {
    match first_from(text, heading(), 0) {
        None => None,
        Some(start) => {
            let after = start + heading().len();
            let end = match first_from(text, "\n## "@, after) {
                Some(e) => e,
                None => text.len() as int,
            };
            Some((start, after, end))
        },
    }
}

fn find_section(chars: &Vec<char>) -> (r: Option<(usize, usize, usize)>)
    ensures
        match r {
            Some((a, b, c)) => section_of(chars@) == Some((a as int, b as int, c as int)) && a <= b
                <= c <= chars@.len(),
            None => section_of(chars@) is None,
        },
{
    let mark = chars_of("## Unreleased");
    let next = chars_of("\n## ");
    let n = chars.len();
    match find_text(chars.as_slice(), mark.as_slice(), 0) {
        None => None,
        Some(start) => {
            let after = start + mark.len();
            let end = match find_text(chars.as_slice(), next.as_slice(), after) {
                Some(e) => e,
                None => chars.len(),
            };
            Some((start, after, end))
        },
    }
}

pub open spec fn no_section() -> Seq<char> {
    "CHANGELOG.md has no `## Unreleased` section to stamp"@
}

/// The heading of the unreleased notes, and the notes.
pub fn unreleased_section(text: &str) -> (r: Result<(String, String), String>)
    ensures
        match (r, section_of(text@)) {
            (Ok((h, body)), Some((a, b, c))) => h@ == text@.subrange(a, b) && body@
                == text@.subrange(b, c),
            (Err(e), None) => e@ == no_section(),
            _ => false,
        },
{
    let chars = chars_of(text);
    match find_section(&chars) {
        Some((a, b, c)) => {
            let h = vstd::slice::slice_subrange(chars.as_slice(), a, b);
            let body = vstd::slice::slice_subrange(chars.as_slice(), b, c);
            Ok((string_of(h), string_of(body)))
        },
        None => Err("CHANGELOG.md has no `## Unreleased` section to stamp".to_owned()),
    }
}

/// A line is an entry: a dash and a space, after white space.
pub open spec fn is_entry(line: Seq<char>) -> bool {
    stands_at(trim_start(line), "- "@, 0)
}

/// Notes have an entry.
pub open spec fn has_entry(body: Seq<char>) -> bool {
    exists|i: int| 0 <= i < pieces(body).len() && is_entry(#[trigger] pieces(body)[i])
}

fn line_is_entry(line: &str) -> (b: bool)
    ensures
        b == is_entry(line@),
{
    let chars = chars_of(line);
    let dash = chars_of("- ");
    let n = chars.len();
    let mut a: usize = 0;
    assert(chars@.skip(0) =~= chars@);
    while a < n && white(chars[a])
        invariant
            n == chars@.len(),
            a <= n,
            trim_start(chars@) == trim_start(chars@.skip(a as int)),
        decreases n - a,
    {
        assert(chars@.skip(a as int).drop_first() =~= chars@.skip(a + 1));
        a += 1;
    }
    let rest = vstd::slice::slice_subrange(chars.as_slice(), a, n);
    assert(rest@ =~= chars@.skip(a as int));
    assert(trim_start(chars@) == rest@);
    is_at(rest, dash.as_slice(), 0)
}

fn body_has_entry(body: &str) -> (b: bool)
    ensures
        b == has_entry(body@),
{
    let lines = split_pieces(body);
    let mut i: usize = 0;
    while i < lines.len()
        invariant
            i <= lines@.len(),
            texts(lines@) == pieces(body@),
            forall|j: int| 0 <= j < i ==> !is_entry(#[trigger] pieces(body@)[j]),
        decreases lines.len() - i,
    {
        assert(texts(lines@)[i as int] == lines@[i as int]@);
        if line_is_entry(lines[i].as_str()) {
            return true;
        }
        i += 1;
    }
    false
}

pub open spec fn no_entries(version: Seq<char>) -> Seq<char> {
    "CHANGELOG.md has no entries under `## Unreleased` — write the release notes before tagging v"@
        + version
}

/// The notes with the heading of a version in place of that of what is not
/// released, or why there are none.
pub open spec fn stamped(text: Seq<char>, version: Seq<char>, date: Seq<char>) -> Result<
    Seq<char>,
    Seq<char>,
> {
    match section_of(text) {
        None => Err(no_section()),
        Some((a, b, c)) => if !has_entry(text.subrange(b, c)) {
            Err(no_entries(version))
        } else {
            Ok(text.take(a) + "## v"@ + version + " - "@ + date + text.skip(b))
        },
    }
}

/// Gives the unreleased notes the heading of a version.
pub fn stamp_changelog(text: &str, version: &str, date: &str) -> (r: Result<String, String>)
    ensures
        match r {
            Ok(t) => stamped(text@, version@, date@) == Ok::<Seq<char>, Seq<char>>(t@),
            Err(e) => stamped(text@, version@, date@) == Err::<Seq<char>, Seq<char>>(e@),
        },
{
    let chars = chars_of(text);
    let (a, b, c) = match find_section(&chars) {
        Some(x) => x,
        None => {
            return Err("CHANGELOG.md has no `## Unreleased` section to stamp".to_owned());
        },
    };
    let body = string_of(vstd::slice::slice_subrange(chars.as_slice(), b, c));
    if !body_has_entry(body.as_str()) {
        return Err(
            "CHANGELOG.md has no entries under `## Unreleased` — write the release notes before tagging v".to_owned().concat(
                version,
            ),
        );
    }
    let head = string_of(vstd::slice::slice_subrange(chars.as_slice(), 0, a));
    let tail = string_of(vstd::slice::slice_subrange(chars.as_slice(), b, chars.len()));
    assert(head@ =~= text@.take(a as int));
    assert(tail@ =~= text@.skip(b as int));
    Ok(head.concat("## v").concat(version).concat(" - ").concat(date).concat(tail.as_str()))
}

// ---- moments -----------------------------------------------------------------

/// Where the last word of a text starts, if it does not end with white space.
pub open spec fn word_start(t: Seq<char>) -> int
    decreases t.len(),
{
    if t.len() == 0 || is_white(t.last()) {
        t.len() as int
    } else {
        word_start(t.drop_last())
    }
}

/// Where a text ends without the white space after it.
pub open spec fn words_end(t: Seq<char>) -> int
    decreases t.len(),
{
    if t.len() > 0 && is_white(t.last()) {
        words_end(t.drop_last())
    } else {
        t.len() as int
    }
}

/// The number of a text with a sign or without, if it fits in 64 bits.
pub open spec fn signed_of(s: Seq<char>) -> Option<i64> {
    if s.len() > 0 && s[0] == '-' {
        match digits_value(s.drop_first()) {
            Some(n) => if n <= 9_223_372_036_854_775_808 { Some((-(n as int)) as i64) } else { None },
            None => None,
        }
    } else {
        match digits_value(without_plus(s)) {
            Some(n) => if n <= i64::MAX { Some(n as i64) } else { None },
            None => None,
        }
    }
}

/// An offset from UTC in seconds: a sign, two digits of hours, two of minutes.
pub open spec fn offset_of(s: Seq<char>) -> Option<i64> {
    if s.len() == 5 && (s[0] == '+' || s[0] == '-') && is_digit(s[1]) && is_digit(s[2]) && is_digit(
        s[3],
    ) && is_digit(s[4]) {
        let hours = 10 * (s[1] as u32 - 48) + (s[2] as u32 - 48);
        let minutes = 10 * (s[3] as u32 - 48) + (s[4] as u32 - 48);
        let seconds = hours * 3600 + minutes * 60;
        Some((if s[0] == '+' { seconds } else { -seconds }) as i64)
    } else {
        None
    }
}

/// The moment at the end of an identity line: seconds, and the offset from UTC.
pub open spec fn ident_of(s: Seq<char>) -> Option<(i64, i64)> {
    let t = s.take(words_end(s));
    let a = word_start(t);
    let u = t.take(a).take(words_end(t.take(a)));
    let b = word_start(u);
    match (signed_of(u.skip(b)), offset_of(t.skip(a))) {
        (Some(epoch), Some(offset)) => Some((epoch, offset)),
        _ => None,
    }
}

fn end_of_words(chars: &[char]) -> (n: usize)
    ensures
        n == words_end(chars@),
        n <= chars@.len(),
{
    let mut n: usize = chars.len();
    assert(chars@.take(n as int) =~= chars@);
    while n > 0 && white(chars[n - 1])
        invariant
            n <= chars@.len(),
            words_end(chars@) == words_end(chars@.take(n as int)),
        decreases n,
    {
        assert(chars@.take(n as int).drop_last() =~= chars@.take(n - 1));
        n -= 1;
    }
    n
}

fn start_of_word(chars: &[char]) -> (n: usize)
    ensures
        n == word_start(chars@),
        n <= chars@.len(),
{
    let mut n: usize = chars.len();
    assert(chars@.take(n as int) =~= chars@);
    while n > 0 && !white(chars[n - 1])
        invariant
            n <= chars@.len(),
            word_start(chars@) == word_start(chars@.take(n as int)),
        decreases n,
    {
        assert(chars@.take(n as int).drop_last() =~= chars@.take(n - 1));
        n -= 1;
    }
    n
}

fn read_signed(chars: &[char]) -> (r: Option<i64>)
    ensures
        r == signed_of(chars@),
{
    if chars.len() > 0 && chars[0] == '-' {
        assert(chars@.skip(1) =~= chars@.drop_first());
        return match read_digits(chars, 1) {
            Some(n) => if n == 9_223_372_036_854_775_808 {
                Some(i64::MIN)
            } else if n < 9_223_372_036_854_775_808 {
                Some(-(n as i64))
            } else {
                None
            },
            None => None,
        };
    }
    let from: usize = if chars.len() > 0 && chars[0] == '+' {
        1
    } else {
        0
    };
    assert(chars@.skip(from as int) =~= without_plus(chars@));
    match read_digits(chars, from) {
        Some(n) => if n <= 9_223_372_036_854_775_807 {
            Some(n as i64)
        } else {
            None
        },
        None => None,
    }
}

fn read_offset(s: &[char]) -> (r: Option<i64>)
    ensures
        r == offset_of(s@),
{
    if s.len() != 5 || (s[0] != '+' && s[0] != '-') {
        return None;
    }
    let (a, b, c, d) = (s[1] as u32, s[2] as u32, s[3] as u32, s[4] as u32);
    if a < 48 || a > 57 || b < 48 || b > 57 || c < 48 || c > 57 || d < 48 || d > 57 {
        return None;
    }
    let hours: i64 = 10 * ((a - 48) as i64) + (b - 48) as i64;
    let minutes: i64 = 10 * ((c - 48) as i64) + (d - 48) as i64;
    let seconds = hours * 3600 + minutes * 60;
    Some(
        if s[0] == '+' {
            seconds
        } else {
            -seconds
        },
    )
}

/// Reads the moment at the end of an identity line.
pub fn ident_timestamp(ident: &str) -> (r: Option<(i64, i64)>)
    ensures
        r == ident_of(ident@),
{
    let chars = chars_of(ident);
    let n = end_of_words(chars.as_slice());
    let t = vstd::slice::slice_subrange(chars.as_slice(), 0, n);
    assert(t@ =~= ident@.take(words_end(ident@)));
    let a = start_of_word(t);
    let before = vstd::slice::slice_subrange(t, 0, a);
    assert(before@ =~= t@.take(a as int));
    let m = end_of_words(before);
    let u = vstd::slice::slice_subrange(before, 0, m);
    assert(u@ =~= before@.take(m as int));
    let b = start_of_word(u);
    let epoch = vstd::slice::slice_subrange(u, b, m);
    let offset = vstd::slice::slice_subrange(t, a, n);
    assert(epoch@ =~= u@.skip(b as int));
    assert(offset@ =~= t@.skip(a as int));
    match (read_signed(epoch), read_offset(offset)) {
        (Some(e), Some(o)) => Some((e, o)),
        _ => None,
    }
}

// ---- checksums and signatures ------------------------------------------------

/// The SHA-256 digest of bytes.
pub uninterp spec fn sha256_of(bytes: Seq<u8>) -> Seq<u8>;

/// The public key that belongs to an Ed25519 seed.
pub uninterp spec fn public_key_of(seed: Seq<u8>) -> Seq<u8>;

/// The Ed25519 signature of a message with the key of a seed.
pub uninterp spec fn signature_of(seed: Seq<u8>, message: Seq<u8>) -> Seq<u8>;

/// `sha2::Sha256::digest`: 32 bytes, a function of the bytes.
#[verifier::external_body]
fn sha256(bytes: &[u8]) -> (d: Vec<u8>)
    ensures
        d@ == sha256_of(bytes@),
        d@.len() == 32,
{
    sha2::Sha256::digest(bytes).to_vec()
}

/// `ed25519_dalek::SigningKey::verifying_key`: 32 bytes, a function of the
/// seed.
#[verifier::external_body]
fn ed25519_public(seed: &[u8; 32]) -> (k: Vec<u8>)
    ensures
        k@ == public_key_of(seed@),
        k@.len() == 32,
{
    ed25519_dalek::SigningKey::from_bytes(seed).verifying_key().as_bytes().to_vec()
}

/// `ed25519_dalek::SigningKey::sign`: 64 bytes, a function of seed and message.
#[verifier::external_body]
fn ed25519_sign(seed: &[u8; 32], message: &[u8]) -> (s: Vec<u8>)
    ensures
        s@ == signature_of(seed@, message@),
        s@.len() == 64,
{
    ed25519_dalek::SigningKey::from_bytes(seed).sign(message).to_bytes().to_vec()
}

/// The line of a checksum file.
pub fn checksum_line(name: &str, bytes: &[u8]) -> (s: String)
    ensures
        s@ == hexed(sha256_of(bytes@)) + "  "@ + name@ + "\n"@,
{
    hex(sha256(bytes).as_slice()).concat("  ").concat(name).concat("\n")
}

/// The seed that a text in hexadecimal holds, without white space around it.
pub open spec fn seed_of(key: Seq<char>) -> Option<Seq<u8>> {
    match unhexed(encode_utf8(trimmed(key))) {
        Some(b) => if b.len() == 32 { Some(b) } else { None },
        None => None,
    }
}

pub open spec fn bad_seed() -> Seq<char> {
    "AYAME_UPDATE_SIGNING_KEY must be 64 hex characters (32 bytes) — regenerate it with `cargo xtask keygen`"@
}

/// Reads a signing seed.
pub fn read_seed(key: &str) -> (r: Result<[u8; 32], String>)
    ensures
        match (r, seed_of(key@)) {
            (Ok(s), Some(b)) => s@ == b,
            (Err(e), None) => e@ == bad_seed(),
            _ => false,
        },
{
    let chars = chars_of(key);
    let (a, b) = trim_bounds(chars.as_slice());
    let text = string_of(vstd::slice::slice_subrange(chars.as_slice(), a, b));
    if let Some(v) = unhex(text.as_str()) {
        if v.len() == 32 {
            let mut seed = [0u8;32];
            let mut i: usize = 0;
            while i < 32
                invariant
                    i <= 32,
                    v@.len() == 32,
                    forall|j: int| 0 <= j < i ==> seed@[j] == v@[j],
                decreases 32 - i,
            {
                seed[i] = v[i];
                i += 1;
            }
            assert(seed@ =~= v@);
            return Ok(seed);
        }
    }
    Err(
        "AYAME_UPDATE_SIGNING_KEY must be 64 hex characters (32 bytes) — regenerate it with `cargo xtask keygen`".to_owned(),
    )
}

/// The public key of a seed, in hexadecimal.
pub fn public_hex(seed: &[u8; 32]) -> (s: String)
    ensures
        s@ == hexed(public_key_of(seed@)),
{
    hex(ed25519_public(seed).as_slice())
}

/// The line of a signature file.
pub fn signature_line(seed: &[u8; 32], message: &[u8]) -> (s: String)
    ensures
        s@ == hexed(signature_of(seed@, message@)) + "\n"@,
{
    hex(ed25519_sign(seed, message).as_slice()).concat("\n")
}

pub open spec fn key_mismatch(expected: Seq<char>, actual: Seq<char>) -> Seq<char> {
    "AYAME_UPDATE_SIGNING_KEY does not match AYAME_UPDATE_PUBKEY\n  built against: "@ + expected
        + "\n  signing key is: "@ + actual
}

/// A release must be signed with the key that was built into it, where that is
/// known.
pub fn check_key(expected: &str, actual: &str) -> (r: Result<(), String>)
    ensures
        ({
            let want = trimmed(expected@);
            match r {
                Ok(()) => want.len() == 0 || want == actual@,
                Err(e) => want.len() > 0 && want != actual@ && e@ == key_mismatch(want, actual@),
            }
        }),
{
    let chars = chars_of(expected);
    let (a, b) = trim_bounds(chars.as_slice());
    let want = string_of(vstd::slice::slice_subrange(chars.as_slice(), a, b));
    if a < b && !same_text(want.as_str(), actual) {
        return Err(
            "AYAME_UPDATE_SIGNING_KEY does not match AYAME_UPDATE_PUBKEY\n  built against: ".to_owned().concat(
                want.as_str(),
            ).concat("\n  signing key is: ").concat(actual),
        );
    }
    Ok(())
}

// ---- what other tools report -------------------------------------------------

/// The objects of an array in JSON, each with the text under one key and the
/// number under another, as far as they are there; an error that says whether
/// it is JSON at all.
pub uninterp spec fn json_rows(
    json: Seq<char>,
    text_key: Seq<char>,
    number_key: Seq<char>,
) -> Result<Seq<(Option<Seq<char>>, Option<u64>)>, bool>;

/// The text under a key of an object in JSON; `None` if it is no JSON.
pub uninterp spec fn json_text_at(json: Seq<char>, key: Seq<char>) -> Option<Option<Seq<char>>>;

/// The text under three keys, one in the other, in TOML; `None` if it is no
/// TOML.
pub uninterp spec fn toml_text_at(
    toml: Seq<char>,
    outer: Seq<char>,
    inner: Seq<char>,
    key: Seq<char>,
) -> Option<Option<Seq<char>>>;

/// TOML with another text under three keys, one in the other.
pub uninterp spec fn toml_with_text(
    toml: Seq<char>,
    outer: Seq<char>,
    inner: Seq<char>,
    key: Seq<char>,
    text: Seq<char>,
) -> Seq<char>;

/// The runs in a list in JSON, each with its commit and its number.
pub open spec fn listed_runs(json: Seq<char>) -> Result<
    Seq<(Option<Seq<char>>, Option<u64>)>,
    bool,
> {
    json_rows(json, "headSha"@, "databaseId"@)
}

/// The version of the packages of a workspace, in its manifest; `None` if it is
/// no TOML.
pub open spec fn manifest_version(toml: Seq<char>) -> Option<Option<Seq<char>>> {
    toml_text_at(toml, "workspace"@, "package"@, "version"@)
}

/// A manifest with another version of the packages of the workspace.
pub open spec fn manifest_with_version(toml: Seq<char>, version: Seq<char>) -> Seq<char> {
    toml_with_text(toml, "workspace"@, "package"@, "version"@, version)
}

pub open spec fn run_view(r: (Option<String>, Option<u64>)) -> (Option<Seq<char>>, Option<u64>) {
    (crate::overlay::opt_text(r.0), r.1)
}

pub open spec fn runs_view(v: Seq<(Option<String>, Option<u64>)>) -> Seq<
    (Option<Seq<char>>, Option<u64>),
> {
    v.map_values(|r: (Option<String>, Option<u64>)| run_view(r))
}

/// `serde_json::from_str` to a value, taken as an array of objects: the text
/// and the number under two keys of each, which are a function of the text and
/// the keys.
#[verifier::external_body]
fn read_json_rows(json: &str, text_key: &str, number_key: &str) -> (r: Result<
    Vec<(Option<String>, Option<u64>)>,
    bool,
>)
    ensures
        match r {
            Ok(v) => json_rows(json@, text_key@, number_key@) == Ok::<
                Seq<(Option<Seq<char>>, Option<u64>)>,
                bool,
            >(runs_view(v@)),
            Err(b) => json_rows(json@, text_key@, number_key@) == Err::<
                Seq<(Option<Seq<char>>, Option<u64>)>,
                bool,
            >(b),
        },
{
    let value: serde_json::Value = serde_json::from_str(json).map_err(|_| false)?;
    let rows = value.as_array().ok_or(true)?;
    let one = |r: &serde_json::Value| {
        let text = r.get(text_key).and_then(|v| v.as_str()).map(str::to_owned);
        (text, r.get(number_key).and_then(|v| v.as_u64()))
    };
    Ok(rows.iter().map(one).collect())
}

pub open spec fn opt_opt(o: Option<Option<String>>) -> Option<Option<Seq<char>>> {
    match o {
        Some(x) => Some(crate::overlay::opt_text(x)),
        None => None,
    }
}

/// `serde_json::from_str` to a value, and the text under one of its keys: a
/// function of text and key.
#[verifier::external_body]
fn json_field(json: &str, key: &str) -> (r: Option<Option<String>>)
    ensures
        opt_opt(r) == json_text_at(json@, key@),
{
    let value: serde_json::Value = serde_json::from_str(json).ok()?;
    Some(value.get(key).and_then(|v| v.as_str()).map(str::to_owned))
}

/// `toml_edit::DocumentMut`, parsed from a text, and the text under three keys,
/// one in the other: a function of the text and the keys.
#[verifier::external_body]
fn read_toml_text(toml: &str, outer: &str, inner: &str, key: &str) -> (r: Option<Option<String>>)
    ensures
        opt_opt(r) == toml_text_at(toml@, outer@, inner@, key@),
{
    let doc = toml.parse::<toml_edit::DocumentMut>().ok()?;
    let item = doc.get(outer).and_then(|w| w.get(inner)).and_then(|p| p.get(key));
    Some(item.and_then(|v| v.as_str()).map(str::to_owned))
}

/// `toml_edit::DocumentMut`, parsed from a text in which there is a text under
/// three keys, one in the other, with another text in its place, and written
/// again: a function of the texts and the keys.
#[verifier::external_body]
fn write_toml_text(toml: &str, outer: &str, inner: &str, key: &str, text: &str) -> (s: String)
    requires
        toml_text_at(toml@, outer@, inner@, key@) matches Some(Some(_)),
    ensures
        s@ == toml_with_text(toml@, outer@, inner@, key@, text@),
{
    let mut doc = toml.parse::<toml_edit::DocumentMut>().unwrap();
    doc[outer][inner][key] = toml_edit::value(text);
    doc.to_string()
}

/// The first run of a commit that has a number, from `i` on.
pub open spec fn run_of(
    runs: Seq<(Option<Seq<char>>, Option<u64>)>,
    commit: Seq<char>,
    i: int,
) -> Option<u64>
    decreases runs.len() - i,
{
    if i < 0 || i >= runs.len() {
        None
    } else if runs[i].0 == Some(commit) && runs[i].1 is Some {
        runs[i].1
    } else {
        run_of(runs, commit, i + 1)
    }
}

/// Picks the run of a commit.
pub fn pick_run(runs: &Vec<(Option<String>, Option<u64>)>, commit: &str) -> (r: Option<u64>)
    ensures
        r == run_of(runs_view(runs@), commit@, 0),
{
    let ghost v = runs_view(runs@);
    let mut i: usize = 0;
    while i < runs.len()
        invariant
            i <= runs@.len(),
            v == runs_view(runs@),
            run_of(v, commit@, 0) == run_of(v, commit@, i as int),
        decreases runs.len() - i,
    {
        assert(v[i as int] == run_view(runs@[i as int]));
        if let Some(sha) = &runs[i].0 {
            if same_text(sha.as_str(), commit) {
                if let Some(id) = runs[i].1 {
                    return Some(id);
                }
            }
        }
        i += 1;
    }
    None
}

/// The number of the run of a commit, in a list in JSON.
pub fn release_run_id(json: &str, commit: &str) -> (r: Result<Option<u64>, String>)
    ensures
        match listed_runs(json@) {
            Ok(runs) => r matches Ok(id) && id == run_of(runs, commit@, 0),
            Err(parsed) => r matches Err(e) && e@ == if parsed {
                "`gh run list` did not return a JSON array"@
            } else {
                "parsing `gh run list` JSON"@
            },
        },
{
    match read_json_rows(json, "headSha", "databaseId") {
        Ok(runs) => Ok(pick_run(&runs, commit)),
        Err(parsed) => if parsed {
            Err("`gh run list` did not return a JSON array".to_owned())
        } else {
            Err("parsing `gh run list` JSON".to_owned())
        },
    }
}

/// The directory that builds go to, in the metadata of a build.
pub fn target_directory_from_metadata(metadata: &str) -> (r: Result<String, String>)
    ensures
        match json_text_at(metadata@, "target_directory"@) {
            Some(Some(t)) => r matches Ok(d) && d@ == t,
            Some(None) => r matches Err(e) && e@
                == "cargo metadata has no string target_directory"@,
            None => r matches Err(e) && e@ == "parsing cargo metadata JSON"@,
        },
{
    match json_field(metadata, "target_directory") {
        Some(Some(t)) => Ok(t),
        Some(None) => Err("cargo metadata has no string target_directory".to_owned()),
        None => Err("parsing cargo metadata JSON".to_owned()),
    }
}

pub open spec fn no_version() -> Seq<char> {
    "workspace.package.version not found in Cargo.toml"@
}

/// The version of the packages of a workspace.
pub fn workspace_version(manifest: &str) -> (r: Result<String, String>)
    ensures
        match manifest_version(manifest@) {
            Some(Some(v)) => r matches Ok(s) && s@ == v,
            Some(None) => r matches Err(e) && e@ == no_version(),
            None => r matches Err(e) && e@ == "parsing Cargo.toml"@,
        },
{
    match read_toml_text(manifest, "workspace", "package", "version") {
        Some(Some(v)) => Ok(v),
        Some(None) => Err("workspace.package.version not found in Cargo.toml".to_owned()),
        None => Err("parsing Cargo.toml".to_owned()),
    }
}

/// The manifest with another version; `None` if it has that version already.
pub fn set_workspace_version(manifest: &str, next: &str) -> (r: Result<Option<String>, String>)
    ensures
        match manifest_version(manifest@) {
            Some(Some(v)) => if v == next@ {
                r == Ok::<Option<String>, String>(None)
            } else {
                r matches Ok(Some(s)) && s@ == manifest_with_version(manifest@, next@)
            },
            Some(None) => r matches Err(e) && e@ == no_version(),
            None => r matches Err(e) && e@ == "parsing Cargo.toml"@,
        },
{
    match workspace_version(manifest) {
        Ok(v) => {
            if same_text(v.as_str(), next) {
                return Ok(None);
            }
            Ok(Some(write_toml_text(manifest, "workspace", "package", "version", next)))
        },
        Err(e) => Err(e),
    }
}

// ---- checks before a release ----------------------------------------------------------------

/// A step of these checks.
#[derive(Debug)]
pub enum GateStep {
    Say(String),
    /// A command with its arguments, with spaces between them.
    Run(String),
}

#[verifier::ext_equal]
pub enum StepView {
    Say(Seq<char>),
    Run(Seq<char>),
}

impl View for GateStep {
    type V = StepView;

    open spec fn view(&self) -> StepView {
        match self {
            GateStep::Say(s) => StepView::Say(s@),
            GateStep::Run(s) => StepView::Run(s@),
        }
    }
}

pub open spec fn steps_view(v: Seq<GateStep>) -> Seq<StepView> {
    v.map_values(|s: GateStep| s@)
}

pub open spec fn gate_checks() -> Seq<StepView> {
    seq![
        StepView::Say("gate: fmt / clippy / test"@),
        StepView::Run("cargo fmt --all --check"@),
        StepView::Run("cargo clippy --all-targets --locked -- -D warnings"@),
        StepView::Run("cargo clippy --all-targets --locked --features ayame-cli/gui -- -D warnings"@),
        StepView::Run("cargo test --locked"@),
        StepView::Say("gate: type bindings drift"@),
        StepView::Run("cargo run --locked -p ayame-cli --features typegen -- typegen --check"@),
    ]
}

pub open spec fn gate_frontend(npm: bool) -> Seq<StepView> {
    if npm {
        seq![
            StepView::Say("gate: frontend (tsc / vitest / oxfmt / oxlint)"@),
            StepView::Run("npm ci --prefix crates/ayame-cli/web"@),
            StepView::Run("npm run typecheck --prefix crates/ayame-cli/web"@),
            StepView::Run("npm test --prefix crates/ayame-cli/web"@),
            StepView::Run("npm run fmt:check --prefix crates/ayame-cli/web"@),
            StepView::Run("npm run lint --prefix crates/ayame-cli/web"@),
        ]
    } else {
        seq![
            StepView::Say("gate: frontend SKIPPED (npm not available) — CI still enforces it"@),
        ]
    }
}

pub open spec fn gate_builds(crash_script: bool, bash: bool) -> Seq<StepView> {
    seq![
        StepView::Say("gate: release builds"@),
        StepView::Run("cargo build --release --locked"@),
        StepView::Run("cargo build --release --locked --features ayame-cli/gui"@),
    ] + if crash_script && bash {
        seq![
            StepView::Say("gate: crash isolation"@),
            StepView::Run("bash scripts/crash-isolation-test.sh"@),
        ]
    } else if crash_script {
        seq![StepView::Say("gate: crash isolation SKIPPED (bash not available)"@)]
    } else {
        Seq::empty()
    }
}

fn say(v: &mut Vec<GateStep>, text: &str)
    ensures
        steps_view(final(v)@) == steps_view(old(v)@).push(StepView::Say(text@)),
{
    let ghost before = steps_view(v@);
    v.push(GateStep::Say(text.to_owned()));
    assert(steps_view(v@) =~= before.push(StepView::Say(text@)));
}

fn run(v: &mut Vec<GateStep>, text: &str)
    ensures
        steps_view(final(v)@) == steps_view(old(v)@).push(StepView::Run(text@)),
{
    let ghost before = steps_view(v@);
    v.push(GateStep::Run(text.to_owned()));
    assert(steps_view(v@) =~= before.push(StepView::Run(text@)));
}

/// What is checked before a release, by which tools there are: the checks of
/// the code always, those of the frontend and of crash isolation where they
/// can run.
pub fn release_gate(npm: bool, crash_script: bool, bash: bool) -> (v: Vec<GateStep>)
    ensures
        steps_view(v@) == gate_checks() + gate_frontend(npm) + gate_builds(crash_script, bash),
{
    let mut v: Vec<GateStep> = Vec::new();
    assert(steps_view(v@) =~= Seq::<StepView>::empty());
    say(&mut v, "gate: fmt / clippy / test");
    run(&mut v, "cargo fmt --all --check");
    run(&mut v, "cargo clippy --all-targets --locked -- -D warnings");
    run(
        &mut v,
        "cargo clippy --all-targets --locked --features ayame-cli/gui -- -D warnings",
    );
    run(&mut v, "cargo test --locked");
    say(&mut v, "gate: type bindings drift");
    run(&mut v, "cargo run --locked -p ayame-cli --features typegen -- typegen --check");
    assert(steps_view(v@) =~= gate_checks());
    if npm {
        say(&mut v, "gate: frontend (tsc / vitest / oxfmt / oxlint)");
        run(&mut v, "npm ci --prefix crates/ayame-cli/web");
        run(&mut v, "npm run typecheck --prefix crates/ayame-cli/web");
        run(&mut v, "npm test --prefix crates/ayame-cli/web");
        run(&mut v, "npm run fmt:check --prefix crates/ayame-cli/web");
        run(&mut v, "npm run lint --prefix crates/ayame-cli/web");
    } else {
        say(&mut v, "gate: frontend SKIPPED (npm not available) — CI still enforces it");
    }
    assert(steps_view(v@) =~= gate_checks() + gate_frontend(npm));
    say(&mut v, "gate: release builds");
    run(&mut v, "cargo build --release --locked");
    run(&mut v, "cargo build --release --locked --features ayame-cli/gui");
    if crash_script && bash {
        say(&mut v, "gate: crash isolation");
        run(&mut v, "bash scripts/crash-isolation-test.sh");
    } else if crash_script {
        say(&mut v, "gate: crash isolation SKIPPED (bash not available)");
    }
    assert(steps_view(v@) =~= gate_checks() + gate_frontend(npm) + gate_builds(crash_script, bash));
    v
}

// ---- the release -------------------------------------------------------------

/// Why a release cannot start, if it cannot: it is not on the main branch and
/// that was not confirmed, there are changes, or the branch is behind.
pub open spec fn preflight_fault(
    branch: Seq<char>,
    yes: bool,
    clean: bool,
    behind: Option<Seq<char>>,
) -> Option<Seq<char>> {
    if branch != "main"@ && !yes {
        Some(
            "not on main (on '"@ + branch + "'); pass --yes to release from a branch"@,
        )
    } else if !clean {
        Some("working tree is not clean — commit or stash first"@)
    } else {
        match behind {
            Some(n) => if n != "0"@ {
                Some(
                    "HEAD is "@ + n + " commit(s) behind origin/"@ + branch + " — pull first"@,
                )
            } else {
                None
            },
            None => None,
        }
    }
}

/// Whether a release can start. How far the branch is behind is known only if
/// there is one upstream.
pub fn release_preflight(branch: &str, yes: bool, clean: bool, behind: Option<&str>) -> (r: Result<
    (),
    String,
>)
    ensures
        ({
            let n = match behind {
                Some(s) => Some(s@),
                None => None,
            };
            match r {
                Ok(()) => preflight_fault(branch@, yes, clean, n) is None,
                Err(e) => preflight_fault(branch@, yes, clean, n) == Some(e@),
            }
        }),
{
    if !same_text(branch, "main") && !yes {
        return Err(
            "not on main (on '".to_owned().concat(branch).concat(
                "'); pass --yes to release from a branch",
            ),
        );
    }
    if !clean {
        return Err("working tree is not clean — commit or stash first".to_owned());
    }
    if let Some(n) = behind {
        if !same_text(n, "0") {
            return Err(
                "HEAD is ".to_owned().concat(n).concat(" commit(s) behind origin/").concat(
                    branch,
                ).concat(" — pull first"),
            );
        }
    }
    Ok(())
}

/// The tag of a version.
pub fn tag_of(version: &str) -> (s: String)
    ensures
        s@ == "v"@ + version@,
{
    "v".to_owned().concat(version)
}

/// An artifact reports the version that it was built as.
pub fn check_artifact(got: &str, version: &str) -> (r: Result<(), String>)
    ensures
        match r {
            Ok(()) => got@ == "ayame "@ + version@,
            Err(e) => got@ != "ayame "@ + version@ && e@ == "artifact reports '"@ + got@
                + "', expected 'ayame "@ + version@ + "'"@,
        },
{
    let want = "ayame ".to_owned().concat(version);
    if same_text(got, want.as_str()) {
        return Ok(());
    }
    Err(
        "artifact reports '".to_owned().concat(got).concat("', expected 'ayame ").concat(
            version,
        ).concat("'"),
    )
}

/// An answer that agrees.
pub fn is_yes(answer: &str) -> (b: bool)
    ensures
        b == (trimmed(answer@) == "y"@ || trimmed(answer@) == "Y"@),
{
    let chars = chars_of(answer);
    let (a, b) = trim_bounds(chars.as_slice());
    let text = string_of(vstd::slice::slice_subrange(chars.as_slice(), a, b));
    same_text(text.as_str(), "y") || same_text(text.as_str(), "Y")
}

/// The name of the artifact of a version for a host.
pub fn artifact_name(version: &str, host: &str) -> (s: String)
    ensures
        s@ == "ayame-v"@ + version@ + "-"@ + host@ + if first_from(host@, "windows"@, 0) is Some {
            ".exe"@
        } else {
            ""@
        },
{
    let chars = chars_of(host);
    let mark = chars_of("windows");
    let ext = match find_text(chars.as_slice(), mark.as_slice(), 0) {
        Some(_) => ".exe",
        None => "",
    };
    "ayame-v".to_owned().concat(version).concat("-").concat(host).concat(ext)
}

/// Line `i` of a text: a piece between line feeds, without the carriage return
/// before the line feed.
pub open spec fn line_of(text: Seq<char>, i: int) -> Seq<char> {
    let p = pieces(text)[i];
    if i + 1 < pieces(text).len() && p.len() > 0 && p.last() == '\r' {
        p.drop_last()
    } else {
        p
    }
}

/// What the first line from `i` on says of the host.
pub open spec fn host_from(text: Seq<char>, i: int) -> Option<Seq<char>>
    decreases pieces(text).len() - i,
{
    if i < 0 || i >= pieces(text).len() {
        None
    } else if stands_at(line_of(text, i), "host: "@, 0) {
        Some(line_of(text, i).skip(6))
    } else {
        host_from(text, i + 1)
    }
}

/// The host in what the compiler says of its version.
pub fn host_triple(text: &str) -> (r: Result<String, String>)
    ensures
        match host_from(text@, 0) {
            Some(h) => r matches Ok(s) && s@ == h,
            None => r matches Err(e) && e@ == "could not read host triple from rustc -vV"@,
        },
{
    let lines = split_pieces(text);
    let n = lines.len();
    let mark = chars_of("host: ");
    proof {
        reveal_strlit("host: ");
    }
    let mut i: usize = 0;
    while i < n
        invariant
            i <= n,
            n == lines@.len(),
            texts(lines@) == pieces(text@),
            mark@ == "host: "@,
            mark@.len() == 6,
            host_from(text@, 0) == host_from(text@, i as int),
        decreases n - i,
    {
        assert(texts(lines@)[i as int] == lines@[i as int]@);
        let chars = chars_of(lines[i].as_str());
        let mut end: usize = chars.len();
        if i + 1 < n && end > 0 && chars[end - 1] == '\r' {
            end -= 1;
        }
        let line = vstd::slice::slice_subrange(chars.as_slice(), 0, end);
        assert(line@ =~= line_of(text@, i as int));
        if is_at(line, mark.as_slice(), 0) {
            let host = vstd::slice::slice_subrange(line, 6, end);
            assert(host@ =~= line@.skip(6));
            return Ok(string_of(host));
        }
        i += 1;
    }
    Err("could not read host triple from rustc -vV".to_owned())
}

/// The flags of a build with its run-time library linked in.
pub open spec fn static_flags(flags: Seq<char>) -> Seq<char> {
    flags + if flags.len() > 0 {
        " "@
    } else {
        ""@
    } + "-C target-feature=+crt-static"@
}

/// The flags to set for a host, if others than are set: on Windows the run-time
/// library is linked in.
pub fn build_flags(host: &str, flags: &str) -> (r: Option<String>)
    ensures
        if first_from(host@, "windows-msvc"@, 0) is Some && first_from(
            flags@,
            "target-feature=+crt-static"@,
            0,
        ) is None {
            r matches Some(s) && s@ == static_flags(flags@)
        } else {
            r is None
        },
{
    let h = chars_of(host);
    let f = chars_of(flags);
    let msvc = chars_of("windows-msvc");
    let fixed = chars_of("target-feature=+crt-static");
    if find_text(h.as_slice(), msvc.as_slice(), 0).is_none() {
        return None;
    }
    if find_text(f.as_slice(), fixed.as_slice(), 0).is_some() {
        return None;
    }
    let gap = if f.len() > 0 {
        " "
    } else {
        ""
    };
    Some(flags.to_owned().concat(gap).concat("-C target-feature=+crt-static"))
}

/// What follows a look for the run of a release.
#[derive(Debug)]
pub enum PollStep {
    Found(String),
    /// Look again, after a pause.
    Pause,
    GiveUp(String),
}

/// The step after look number `attempt`, counted from 0, of `attempts`: the run
/// where it is there; another look while one is left.
pub fn after_poll(found: Option<u64>, commit: &str, attempt: usize, attempts: usize) -> (r: PollStep)
    requires
        attempt < attempts,
    ensures
        match found {
            Some(id) => r matches PollStep::Found(s) && s@ == decimal_text(id as nat),
            None => if attempt + 1 < attempts {
                r is Pause
            } else {
                r matches PollStep::GiveUp(e) && e@ == "Release workflow for commit "@ + commit@
                    + " did not appear after "@ + decimal_text(attempts as nat) + " polls"@
            },
        },
{
    if let Some(id) = found {
        return PollStep::Found(decimal(id as u128));
    }
    if attempt + 1 < attempts {
        return PollStep::Pause;
    }
    PollStep::GiveUp(
        "Release workflow for commit ".to_owned().concat(commit).concat(
            " did not appear after ",
        ).concat(decimal(attempts as u128).as_str()).concat(" polls"),
    )
}

} // verus!
