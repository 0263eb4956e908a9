//! Helpers on text: characters, words and decimal numbers.

use vstd::prelude::*;
use vstd::string::*;
use vstd::utf8::*;

verus! {

/// `String::push`: the string grows by the one character.
#[verifier::external_body]
pub(crate) fn push_char(s: &mut String, c: char)
    ensures
        final(s)@ == old(s)@.push(c),
{
    s.push(c);
}

/// `String::from_utf8`: well-formed UTF-8 becomes the text that it encodes.
#[verifier::external_body]
pub(crate) fn string_from_utf8(bytes: Vec<u8>) -> (s: String)
    requires
        valid_utf8(bytes@),
    ensures
        s@ == decode_utf8(bytes@),
{
    String::from_utf8(bytes).unwrap()
}

/// The characters of a text, in order.
pub fn chars_of(s: &str) -> (v: Vec<char>)
    ensures
        v@ == s@,
{
    let mut v: Vec<char> = Vec::new();
    for c in it: s.chars()
        invariant
            v@ == it.seq().take(it.index()),
            it.seq() == s@,
    {
        v.push(c);
        assert(it.seq().take(it.index() + 1) =~= it.seq().take(it.index()).push(c));
    }
    assert(s@.take(s@.len() as int) =~= s@);
    v
}

/// The text made of the given characters.
pub fn string_of(chars: &[char]) -> (s: String)
    ensures
        s@ == chars@,
{
    let mut s = String::new();
    let mut i: usize = 0;
    while i < chars.len()
        invariant
            i <= chars.len(),
            s@ == chars@.take(i as int),
        decreases chars.len() - i,
    {
        push_char(&mut s, chars[i]);
        assert(chars@.take(i + 1) =~= chars@.take(i as int).push(chars@[i as int]));
        i += 1;
    }
    assert(chars@.take(chars@.len() as int) =~= chars@);
    s
}

/// Whether two texts hold the same characters.
pub fn same_text(a: &str, b: &str) -> (same: bool)
    ensures
        same == (a@ == b@),
{
    let ab = a.as_bytes();
    let bb = b.as_bytes();
    proof {
        encode_utf8_decode_utf8(a@);
        encode_utf8_decode_utf8(b@);
    }
    if ab.len() != bb.len() {
        return false;
    }
    let mut i: usize = 0;
    while i < ab.len()
        invariant
            i <= ab.len(),
            ab.len() == bb.len(),
            ab@ == a.spec_bytes(),
            bb@ == b.spec_bytes(),
            forall|j: int| 0 <= j < i ==> ab@[j] == bb@[j],
        decreases ab.len() - i,
    {
        if ab[i] != bb[i] {
            return false;
        }
        i += 1;
    }
    assert(ab@ =~= bb@);
    true
}

/// The decimal digit of a number below ten.
pub open spec fn digit_char(d: nat) -> char {
    (48 + d) as char
}

/// A number in decimal, without leading zeros.
pub open spec fn decimal_text(n: nat) -> Seq<char>
    decreases n,
{
    if n < 10 {
        seq![digit_char(n)]
    } else {
        decimal_text(n / 10).push(digit_char(n % 10))
    }
}

/// Writes a number in decimal.
pub fn decimal(n: u128) -> (s: String)
    ensures
        s@ == decimal_text(n as nat),
    decreases n,
{
    let digit: u8 = 48 + (n % 10) as u8;
    let c = digit as char;
    if n < 10 {
        let mut s = String::new();
        push_char(&mut s, c);
        assert(s@ =~= decimal_text(n as nat));
        s
    } else {
        let mut s = decimal(n / 10);
        push_char(&mut s, c);
        s
    }
}

/// The pieces of a text between its line feeds; one more than there are line
/// feeds, so never none.
pub open spec fn pieces(s: Seq<char>) -> Seq<Seq<char>>
    decreases s.len(),
{
    if s.len() == 0 {
        seq![Seq::<char>::empty()]
    } else {
        let p = pieces(s.drop_last());
        if s.last() == '\n' {
            p.push(Seq::<char>::empty())
        } else {
            p.drop_last().push(p.last().push(s.last()))
        }
    }
}

/// Where a piece starts in the text: behind the pieces before it and their line
/// feeds.
pub open spec fn piece_start(p: Seq<Seq<char>>, i: int) -> int
    decreases i,
{
    if i <= 0 {
        0
    } else {
        piece_start(p, i - 1) + p[i - 1].len() + 1
    }
}

/// A piece stands in the text where it should, behind a line feed unless it is
/// the first, and holds no line feed.
pub open spec fn piece_stands(s: Seq<char>, p: Seq<Seq<char>>, i: int) -> bool {
    let a = piece_start(p, i);
    &&& 0 <= a
    &&& a + p[i].len() <= s.len()
    &&& forall|k: int| 0 <= k < p[i].len() ==> #[trigger] p[i][k] == s[a + k] && p[i][k] != '\n'
    &&& i > 0 ==> s[a - 1] == '\n'
}

/// A text is cut at its line feeds and nowhere else: the pieces stand in it one
/// after the other, with a line feed between each two, and hold none. So a text
/// without line feeds is its only piece.
pub proof fn texts_are_cut_at_line_feeds(s: Seq<char>)
    ensures
        ({
            let p = pieces(s);
            &&& p.len() > 0
            &&& !s.contains('\n') <==> p.len() == 1
            &&& !s.contains('\n') ==> p == seq![s]
            &&& piece_start(p, p.len() - 1) + p.last().len() == s.len()
            &&& forall|i: int| 0 <= i < p.len() ==> #[trigger] piece_stands(s, p, i)
        }),
{
    lemma_pieces_stand(s);
    let p = pieces(s);
    if p.len() == 1 {
        assert(piece_stands(s, p, 0));
        assert(p[0] =~= s);
        assert(p =~= seq![s]);
        if s.contains('\n') {
            let k = choose|k: int| 0 <= k < s.len() && s[k] == '\n';
            assert(p[0][k] == s[k]);
        }
    } else {
        assert(piece_stands(s, p, 1));
        let a = piece_start(p, 1);
        lemma_piece_start(p, p, 1);
        assert(s[a - 1] == '\n');
        assert(s.contains('\n'));
    }
}

proof fn lemma_pieces_stand(s: Seq<char>)
    ensures
        pieces(s).len() > 0,
        piece_start(pieces(s), pieces(s).len() - 1) + pieces(s).last().len() == s.len(),
        forall|i: int| 0 <= i < pieces(s).len() ==> #[trigger] piece_stands(s, pieces(s), i),
    decreases s.len(),
{
    let p = pieces(s);
    if s.len() > 0 {
        let t = s.drop_last();
        let q = pieces(t);
        lemma_pieces_stand(t);
        let n = q.len() as int;
        let c = s.last();
        assert forall|i: int| 0 <= i < p.len() implies #[trigger] piece_stands(s, p, i) by {
            if i < n {
                lemma_piece_start(p, q, i);
                assert(piece_stands(t, q, i));
                let a = piece_start(q, i);
                assert forall|k: int| 0 <= k < p[i].len() implies #[trigger] p[i][k] == s[a + k]
                    && p[i][k] != '\n' by {
                    if k < q[i].len() {
                        assert(q[i][k] == t[a + k]);
                    }
                }
            } else {
                lemma_piece_start(p, q, n - 1);
                assert(piece_stands(t, q, n - 1));
                assert(p[n - 1] == q[n - 1]);
                assert(piece_start(p, n) == piece_start(p, n - 1) + p[n - 1].len() + 1);
                assert(piece_start(p, n) == s.len());
                assert(c == '\n');
            }
        }
        lemma_piece_start(p, q, n - 1);
    }
}

proof fn lemma_piece_start(p: Seq<Seq<char>>, q: Seq<Seq<char>>, i: int)
    requires
        0 <= i,
        forall|k: int| 0 <= k < i ==> p[k] == q[k],
    ensures
        piece_start(p, i) == piece_start(q, i),
        piece_start(p, i) >= i,
    decreases i,
{
    if i > 0 {
        lemma_piece_start(p, q, i - 1);
        assert(p[i - 1] == q[i - 1]);
    }
}

/// The views of a list of strings.
pub open spec fn texts(v: Seq<String>) -> Seq<Seq<char>> {
    v.map_values(|s: String| s@)
}

pub proof fn lemma_pieces_nonempty(s: Seq<char>)
    ensures
        pieces(s).len() >= 1,
    decreases s.len(),
{
    if s.len() > 0 {
        lemma_pieces_nonempty(s.drop_last());
    }
}

/// Splits a text at its line feeds.
pub fn split_pieces(s: &str) -> (parts: Vec<String>)
    ensures
        texts(parts@) == pieces(s@),
        parts@.len() >= 1,
{
    let chars = chars_of(s);
    let mut parts: Vec<String> = Vec::new();
    let mut cur = String::new();
    let mut i: usize = 0;
    assert(texts(parts@).push(cur@) =~= pieces(chars@.take(0)));
    while i < chars.len()
        invariant
            i <= chars.len(),
            texts(parts@).push(cur@) == pieces(chars@.take(i as int)),
        decreases chars.len() - i,
    {
        let c = chars[i];
        let ghost before = chars@.take(i as int);
        let ghost after = chars@.take(i + 1);
        assert(after.drop_last() =~= before);
        assert(after.last() == c);
        if c == '\n' {
            let done = cur;
            cur = String::new();
            parts.push(done);
            assert(texts(parts@).push(cur@) =~= pieces(before).push(Seq::<char>::empty()));
        } else {
            push_char(&mut cur, c);
            assert(texts(parts@).push(cur@) =~= pieces(before).drop_last().push(
                pieces(before).last().push(c),
            ));
        }
        i += 1;
    }
    assert(chars@.take(chars@.len() as int) =~= s@);
    let ghost p = texts(parts@);
    let ghost c = cur@;
    parts.push(cur);
    assert(texts(parts@) =~= p.push(c));
    parts
}

/// Text joined with line feeds.
pub open spec fn joined(p: Seq<Seq<char>>) -> Seq<char>
    decreases p.len(),
{
    if p.len() == 0 {
        Seq::empty()
    } else if p.len() == 1 {
        p[0]
    } else {
        joined(p.drop_last()).push('\n') + p.last()
    }
}

/// Splitting loses nothing: the pieces, joined with line feeds, are the text.
pub proof fn split_then_join_is_identity(s: Seq<char>)
    ensures
        joined(pieces(s)) == s,
    decreases s.len(),
{
    if s.len() == 0 {
        assert(pieces(s)[0] =~= s);
    } else {
        let t = s.drop_last();
        let p = pieces(t);
        split_then_join_is_identity(t);
        lemma_pieces_nonempty(t);
        if s.last() == '\n' {
            let q = p.push(Seq::<char>::empty());
            assert(q.drop_last() =~= p);
            assert(joined(q) =~= s);
        } else {
            let q = p.drop_last().push(p.last().push(s.last()));
            assert(q.drop_last() =~= p.drop_last());
            assert(joined(q) =~= joined(p).push(s.last()));
            assert(joined(q) =~= s);
        }
    }
}

/// The characters with the `White_Space` property.
pub open spec fn is_white(c: char) -> bool {
    ||| 9 <= c as u32 <= 13
    ||| c as u32 == 32
    ||| c as u32 == 0x85
    ||| c as u32 == 0xA0
    ||| c as u32 == 0x1680
    ||| 0x2000 <= c as u32 <= 0x200A
    ||| c as u32 == 0x2028
    ||| c as u32 == 0x2029
    ||| c as u32 == 0x202F
    ||| c as u32 == 0x205F
    ||| c as u32 == 0x3000
}

pub fn white(c: char) -> (w: bool)
    ensures
        w == is_white(c),
{
    let u = c as u32;
    (9 <= u && u <= 13) || u == 32 || u == 0x85 || u == 0xA0 || u == 0x1680 || (0x2000 <= u && u
        <= 0x200A) || u == 0x2028 || u == 0x2029 || u == 0x202F || u == 0x205F || u == 0x3000
}

/// A text without the white space at its start.
pub open spec fn trim_start(s: Seq<char>) -> Seq<char>
    decreases s.len(),
{
    if s.len() > 0 && is_white(s[0]) {
        trim_start(s.drop_first())
    } else {
        s
    }
}

/// A text without the white space at its end.
pub open spec fn trim_end(s: Seq<char>) -> Seq<char>
    decreases s.len(),
{
    if s.len() > 0 && is_white(s.last()) {
        trim_end(s.drop_last())
    } else {
        s
    }
}

/// A text without the white space at either end.
pub open spec fn trimmed(s: Seq<char>) -> Seq<char> {
    trim_end(trim_start(s))
}

/// The bounds of the text that is left when the white space at both ends goes.
pub fn trim_bounds(v: &[char]) -> (r: (usize, usize))
    ensures
        r.0 <= r.1 <= v@.len(),
        v@.subrange(r.0 as int, r.1 as int) == trimmed(v@),
{
    let mut a: usize = 0;
    assert(v@.subrange(0, v@.len() as int) =~= v@);
    while a < v.len() && white(v[a])
        invariant
            a <= v@.len(),
            trim_start(v@) == trim_start(v@.subrange(a as int, v@.len() as int)),
        decreases v.len() - a,
    {
        assert(v@.subrange(a as int, v@.len() as int).drop_first() =~= v@.subrange(
            a + 1,
            v@.len() as int,
        ));
        a += 1;
    }
    let ghost s = v@.subrange(a as int, v@.len() as int);
    assert(trim_start(v@) == s);
    let mut b: usize = v.len();
    while b > a && white(v[b - 1])
        invariant
            a <= b <= v@.len(),
            trim_end(s) == trim_end(v@.subrange(a as int, b as int)),
        decreases b,
    {
        assert(v@.subrange(a as int, b as int).drop_last() =~= v@.subrange(a as int, b - 1));
        b -= 1;
    }
    (a, b)
}

/// An ASCII capital as a small letter; any other character as it is.
pub open spec fn lower_char(c: char) -> char {
    if 65 <= c as u32 <= 90 {
        (c as u32 + 32) as char
    } else {
        c
    }
}

pub fn lower(c: char) -> (r: char)
    ensures
        r == lower_char(c),
{
    let u = c as u32;
    if 65 <= u && u <= 90 {
        let b: u8 = (u as u8) + 32;
        b as char
    } else {
        c
    }
}

/// A text stands in another at a position.
pub open spec fn stands_at(hay: Seq<char>, needle: Seq<char>, i: int) -> bool {
    0 <= i && i + needle.len() <= hay.len() && hay.subrange(i, i + needle.len()) == needle
}

/// The first position from `i` on at which a text stands in another.
pub open spec fn first_from(hay: Seq<char>, needle: Seq<char>, i: int) -> Option<int>
    decreases hay.len() - i,
{
    if i < 0 || i > hay.len() {
        None
    } else if stands_at(hay, needle, i) {
        Some(i)
    } else if i == hay.len() {
        None
    } else {
        first_from(hay, needle, i + 1)
    }
}

pub fn is_at(hay: &[char], needle: &[char], i: usize) -> (b: bool)
    ensures
        b == stands_at(hay@, needle@, i as int),
{
    let n = needle.len();
    let h = hay.len();
    if i > h || h - i < n {
        return false;
    }
    let mut j: usize = 0;
    while j < n
        invariant
            n == needle@.len(),
            h == hay@.len(),
            i + n <= hay@.len(),
            j <= n,
            forall|k: int| 0 <= k < j ==> hay@[i + k] == needle@[k],
        decreases n - j,
    {
        if hay[i + j] != needle[j] {
            proof {
                let part = hay@.subrange(i as int, i + n);
                assert(part[j as int] == hay@[i + j]);
            }
            return false;
        }
        j += 1;
    }
    assert(hay@.subrange(i as int, i + n) =~= needle@);
    true
}

/// Finds the first position from `from` on at which a text stands in another.
pub fn find_text(hay: &[char], needle: &[char], from: usize) -> (r: Option<usize>)
    requires
        from <= hay@.len(),
    ensures
        match r {
            Some(i) => first_from(hay@, needle@, from as int) == Some(i as int) && from <= i && i
                + needle@.len() <= hay@.len(),
            None => first_from(hay@, needle@, from as int) is None,
        },
{
    let mut i: usize = from;
    while i < hay.len()
        invariant
            from <= i <= hay@.len(),
            first_from(hay@, needle@, from as int) == first_from(hay@, needle@, i as int),
        decreases hay.len() - i,
    {
        if is_at(hay, needle, i) {
            return Some(i);
        }
        i += 1;
    }
    if is_at(hay, needle, i) {
        Some(i)
    } else {
        None
    }
}

/// A character that is not the ASCII character `v` has no byte `v` in UTF-8.
pub proof fn lemma_scalar_bytes(u: u32, v: u8)
    requires
        v < 0x80,
        u != v,
    ensures
        forall|j: int| 0 <= j < encode_scalar(u).len() ==> #[trigger] encode_scalar(u)[j] != v,
        encode_scalar(u).len() > 0,
{
    if has_width_1_encoding(u) {
        assert((u & 0x7F) as u8 == u) by (bit_vector)
            requires
                u <= 0x7F,
        ;
    }
    assert(0xC0u8 | ((u >> 6) & 0x1F) as u8 >= 0x80) by (bit_vector);
    assert(0xE0u8 | ((u >> 12) & 0x0F) as u8 >= 0x80) by (bit_vector);
    assert(0xF0u8 | ((u >> 18) & 0x7) as u8 >= 0x80) by (bit_vector);
    assert(0x80u8 | (u & 0x3F) as u8 >= 0x80) by (bit_vector);
    assert(0x80u8 | ((u >> 6) & 0x3F) as u8 >= 0x80) by (bit_vector);
    assert(0x80u8 | ((u >> 12) & 0x3F) as u8 >= 0x80) by (bit_vector);
}

} // verus!
