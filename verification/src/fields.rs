//! Fields of records, and the keys by which records are ordered.

use unicode_normalization::UnicodeNormalization;

use vstd::prelude::*;
use vstd::string::*;
use vstd::utf8::*;

use crate::bytes::extend;
use crate::encoding::{codec_size, decoded, lemma_utf16_text_size, units_of, Encoding};
use crate::text::{chars_of, string_of, trim_bounds, trimmed};

verus! {

/// How a field is found in a record.
#[derive(Clone, Copy, Debug)]
pub struct FieldSpec {
    /// What stands between fields.
    pub delimiter: u8,
    /// What quotes a field, where `csv` holds.
    pub quote: u8,
    /// Whether fields may be quoted. Unquoted splitting is faster.
    pub csv: bool,
}

impl Default for FieldSpec {
    fn default() -> (s: FieldSpec)
        ensures
            s == (FieldSpec { delimiter: 44, quote: 34, csv: false }),
    {
        FieldSpec { delimiter: 44, quote: 34, csv: false }
    }
}

// ---- fields ------------------------------------------------------------------

/// The fields of a record, split at every delimiter.
pub open spec fn split_fields(raw: Seq<u8>, delim: u8) -> Seq<Seq<u8>>
    decreases raw.len(),
{
    if raw.len() == 0 {
        seq![Seq::<u8>::empty()]
    } else {
        let p = split_fields(raw.drop_last(), delim);
        if raw.last() == delim {
            p.push(Seq::<u8>::empty())
        } else {
            p.drop_last().push(p.last().push(raw.last()))
        }
    }
}

/// The field with a number, counted from 1: the whole record for 0, nothing if
/// there are not so many.
pub open spec fn nth_of(raw: Seq<u8>, fields: Seq<Seq<u8>>, col: nat) -> Seq<u8> {
    if col == 0 {
        raw
    } else if col <= fields.len() {
        fields[col - 1]
    } else {
        Seq::empty()
    }
}

proof fn lemma_split_nonempty(raw: Seq<u8>, delim: u8)
    ensures
        split_fields(raw, delim).len() > 0,
    decreases raw.len(),
{
    if raw.len() > 0 {
        lemma_split_nonempty(raw.drop_last(), delim);
    }
}

proof fn lemma_split_grows(raw: Seq<u8>, delim: u8, i: int)
    requires
        0 <= i <= raw.len(),
    ensures
        split_fields(raw.take(i), delim).len() <= split_fields(raw, delim).len(),
        forall|k: int|
            0 <= k < split_fields(raw.take(i), delim).len() - 1 ==> split_fields(raw, delim)[k]
                == #[trigger] split_fields(raw.take(i), delim)[k],
    decreases raw.len(),
{
    if i < raw.len() {
        lemma_split_grows(raw.drop_last(), delim, i);
        lemma_split_nonempty(raw.drop_last(), delim);
        assert(raw.drop_last().take(i) =~= raw.take(i));
    } else {
        assert(raw.take(i) =~= raw);
    }
}

/// The field with a number, where every delimiter splits.
pub fn nth_field(raw: &[u8], delim: u8, col: usize) -> (f: &[u8])
    ensures
        f@ == nth_of(raw@, split_fields(raw@, delim), col as nat),
        f@.len() <= raw@.len(),
{
    if col == 0 {
        return raw;
    }
    let n = raw.len();
    let mut idx: usize = 1;
    let mut start: usize = 0;
    let mut i: usize = 0;
    assert(raw@.take(0) =~= Seq::<u8>::empty());
    assert(split_fields(raw@.take(0), delim) =~= seq![raw@.subrange(0, 0)]);
    while i < n
        invariant
            n == raw@.len(),
            start <= i <= n,
            1 <= idx <= col,
            idx <= i + 1,
            split_fields(raw@.take(i as int), delim).len() == idx,
            split_fields(raw@.take(i as int), delim).last() == raw@.subrange(
                start as int,
                i as int,
            ),
        decreases n - i,
    {
        let ghost now = split_fields(raw@.take(i as int), delim);
        proof {
            assert(raw@.take(i + 1).drop_last() =~= raw@.take(i as int));
            assert(raw@.take(i + 1).last() == raw@[i as int]);
        }
        if raw[i] == delim {
            if idx == col {
                proof {
                    lemma_split_grows(raw@, delim, i + 1);
                    let more = split_fields(raw@.take(i + 1), delim);
                    assert(more[idx - 1] == now[idx - 1]);
                }
                return vstd::slice::slice_subrange(raw, start, i);
            }
            idx += 1;
            start = i + 1;
            assert(raw@.subrange(start as int, i + 1) =~= Seq::<u8>::empty());
        } else {
            assert(raw@.subrange(start as int, i + 1) =~= raw@.subrange(
                start as int,
                i as int,
            ).push(raw@[i as int]));
        }
        i += 1;
    }
    assert(raw@.take(n as int) =~= raw@);
    if idx == col {
        vstd::slice::slice_subrange(raw, start, n)
    } else {
        let none = vstd::slice::slice_subrange(raw, n, n);
        assert(none@ =~= Seq::<u8>::empty());
        none
    }
}

/// The fields of the first record of CSV data, without their quotes.
pub uninterp spec fn csv_fields(record: Seq<u8>, delimiter: u8, quote: u8) -> Seq<Seq<u8>>;

/// Bytes, cut at ends.
pub open spec fn cut_at(out: Seq<u8>, ends: Seq<usize>) -> Seq<Seq<u8>> {
    Seq::new(
        ends.len(),
        |i: int| out.subrange(if i == 0 { 0 } else { ends[i - 1] as int }, ends[i] as int),
    )
}

/// Ends that follow each other inside `n` bytes.
pub open spec fn ends_inside(ends: Seq<usize>, n: nat) -> bool {
    forall|i: int|
        0 <= i < ends.len() ==> (if i == 0 { 0 } else { ends[i - 1] as int }) <= (
        #[trigger] ends[i]) <= n
}

/// `csv_core::Reader::read_record`, on a record and then on the end of the
/// input: the fields are a function of record, delimiter and quote. They come
/// as one run of bytes, no longer than the record, with the end of each field.
#[verifier::external_body]
fn csv_read_record(record: &[u8], delimiter: u8, quote: u8) -> (r: (Vec<u8>, Vec<usize>))
    ensures
        cut_at(r.0@, r.1@) == csv_fields(record@, delimiter, quote),
        ends_inside(r.1@, r.0@.len()),
        r.0@.len() <= record@.len(),
{
    let mut rdr = csv_core::ReaderBuilder::new().delimiter(delimiter).quote(quote).build();
    let mut out = vec![0u8; record.len() + 1];
    let mut ends = vec![0usize; record.len() + 2];
    let (res, _, nout, nend) = rdr.read_record(record, &mut out, &mut ends);
    let last = match res {
        csv_core::ReadRecordResult::InputEmpty => {
            rdr.read_record(&[], &mut out[nout..], &mut ends[nend..]).3
        }
        _ => 0,
    };
    out.truncate(nout);
    ends.truncate(nend + last);
    (out, ends)
}

/// The field with a number, where fields may be quoted.
pub fn csv_nth_field(raw: &[u8], delimiter: u8, quote: u8, col: usize) -> (f: Vec<u8>)
    ensures
        f@ == nth_of(raw@, csv_fields(raw@, delimiter, quote), col as nat),
        f@.len() <= raw@.len(),
{
    let mut f: Vec<u8> = Vec::new();
    if col == 0 {
        extend(&mut f, raw);
        assert(f@ =~= raw@);
        return f;
    }
    let (out, ends) = csv_read_record(raw, delimiter, quote);
    field_of(&out, &ends, col)
}

/// The field with a number among fields that were cut.
pub fn field_of(out: &Vec<u8>, ends: &Vec<usize>, col: usize) -> (f: Vec<u8>)
    requires
        col > 0,
        ends_inside(ends@, out@.len()),
    ensures
        f@ == if col <= ends@.len() {
            cut_at(out@, ends@)[col - 1]
        } else {
            Seq::<u8>::empty()
        },
        f@.len() <= out@.len(),
{
    let mut f: Vec<u8> = Vec::new();
    if col > ends.len() {
        assert(f@ =~= Seq::<u8>::empty());
        return f;
    }
    let from = if col == 1 {
        0
    } else {
        ends[col - 2]
    };
    let to = ends[col - 1];
    assert((if col - 1 == 0 { 0 } else { ends@[col - 2] as int }) <= ends@[col - 1] <= out@.len());
    extend(&mut f, vstd::slice::slice_subrange(out.as_slice(), from, to));
    assert(f@ =~= cut_at(out@, ends@)[col - 1]);
    f
}

/// The field of a record: the record itself if no column is asked for.
pub open spec fn field_at(raw: Seq<u8>, col: Option<usize>, spec: FieldSpec) -> Seq<u8> {
    match col {
        None => raw,
        Some(c) => if spec.csv {
            nth_of(raw, csv_fields(raw, spec.delimiter, spec.quote), c as nat)
        } else {
            nth_of(raw, split_fields(raw, spec.delimiter), c as nat)
        },
    }
}

/// Finds the field of a record.
pub fn field_bytes(raw: &[u8], col: Option<usize>, spec: &FieldSpec) -> (f: Vec<u8>)
    ensures
        f@ == field_at(raw@, col, *spec),
        f@.len() <= raw@.len(),
{
    let mut f: Vec<u8> = Vec::new();
    match col {
        None => {
            extend(&mut f, raw);
        },
        Some(c) => {
            if spec.csv {
                return csv_nth_field(raw, spec.delimiter, spec.quote, c);
            }
            extend(&mut f, nth_field(raw, spec.delimiter, c));
        },
    }
    assert(f@ =~= field_at(raw@, col, *spec));
    f
}

/// The bytes of a record among which delimiters and quotes are looked for. A
/// byte of UTF-16 is only half of a unit, so there it is the text's UTF-8.
pub open spec fn field_source(enc: Encoding, raw: Seq<u8>) -> Seq<u8> {
    if enc.wide() {
        encode_utf8(decoded(enc, raw))
    } else {
        raw
    }
}

/// The encoding of these bytes.
pub open spec fn source_encoding(enc: Encoding) -> Encoding {
    if enc.wide() {
        Encoding::Utf8
    } else {
        enc
    }
}

/// The text of the field of a record.
pub open spec fn field_text(
    enc: Encoding,
    raw: Seq<u8>,
    col: Option<usize>,
    spec: FieldSpec,
) -> Seq<char> {
    decoded(source_encoding(enc), field_at(field_source(enc, raw), col, spec))
}

/// The UTF-8 of a record in UTF-16.
pub(crate) fn wide_source(raw: &[u8], enc: Encoding) -> (v: Vec<u8>)
    requires
        enc.wide(),
        codec_size(raw@.len()),
    ensures
        v@ == field_source(enc, raw@),
        Encoding::Utf8.sized(v@.len()),
{
    proof {
        lemma_utf16_text_size(units_of(raw@, enc == Encoding::Utf16Le));
    }
    let text = enc.decode_line(raw);
    text.as_str().as_bytes_vec()
}

/// Finds the field of a record: its bytes, and their encoding.
pub fn find_field(raw: &[u8], enc: Encoding, col: Option<usize>, spec: &FieldSpec) -> (r: (
    Vec<u8>,
    Encoding,
))
    requires
        codec_size(raw@.len()),
    ensures
        r.0@ == field_at(field_source(enc, raw@), col, *spec),
        r.1 == source_encoding(enc),
        decoded(r.1, r.0@) == field_text(enc, raw@, col, *spec),
        r.1.sized(r.0@.len()),
{
    if enc.is_wide() {
        let source = wide_source(raw, enc);
        return (field_bytes(source.as_slice(), col, spec), Encoding::Utf8);
    }
    (field_bytes(raw, col, spec), enc)
}

/// Without a column the text of the field is that of the whole record.
pub proof fn a_record_is_one_field(enc: Encoding, raw: Seq<u8>, spec: FieldSpec)
    ensures
        field_text(enc, raw, None, spec) == decoded(enc, raw),
{
    if enc.wide() {
        encode_utf8_valid_utf8(decoded(enc, raw));
        encode_utf8_decode_utf8(decoded(enc, raw));
    }
}

// ---- texts as keys -----------------------------------------------------------

/// A text in Unicode normalization form C.
pub uninterp spec fn nfc_text(text: Seq<char>) -> Seq<char>;

/// `unicode_normalization`'s `nfc`, collected: a function of the text.
#[verifier::external_body]
fn nfc_of(text: &str) -> (s: String)
    ensures
        s@ == nfc_text(text@),
{
    text.nfc().collect::<String>()
}

pub open spec fn all_ascii(text: Seq<char>) -> bool {
    forall|i: int| 0 <= i < text.len() ==> (#[trigger] text[i] as u32) < 128
}

/// The key of a text: the UTF-8 of its normalized form, which orders keys as
/// their code points are ordered.
pub open spec fn text_key(text: Seq<char>) -> Seq<u8> {
    if all_ascii(text) {
        encode_utf8(text)
    } else {
        encode_utf8(nfc_text(text))
    }
}

fn is_all_ascii(chars: &Vec<char>) -> (b: bool)
    ensures
        b == all_ascii(chars@),
{
    let mut i: usize = 0;
    while i < chars.len()
        invariant
            i <= chars@.len(),
            forall|j: int| 0 <= j < i ==> (#[trigger] chars@[j] as u32) < 128,
        decreases chars.len() - i,
    {
        if (chars[i] as u32) >= 128 {
            return false;
        }
        i += 1;
    }
    true
}

/// The key of the text of a field.
pub fn normalized_text_key(field: &[u8], enc: Encoding) -> (k: Vec<u8>)
    requires
        enc.sized(field@.len()),
    ensures
        k@ == text_key(decoded(enc, field@)),
{
    let text = enc.decode_line(field);
    let chars = chars_of(text.as_str());
    if is_all_ascii(&chars) {
        text.as_str().as_bytes_vec()
    } else {
        nfc_of(text.as_str()).as_str().as_bytes_vec()
    }
}

/// The text of a field that is to be read as a number.
pub fn numeric_text(field: &[u8], enc: Encoding) -> (s: String)
    requires
        enc.sized(field@.len()),
    ensures
        s@ == trimmed(decoded(enc, field@)),
{
    let text = enc.decode_line(field);
    let chars = chars_of(text.as_str());
    let (a, b) = trim_bounds(chars.as_slice());
    string_of(vstd::slice::slice_subrange(chars.as_slice(), a, b))
}

// ---- the order of keys -------------------------------------------------------

/// Bytes are ordered by the first that differs; a prefix comes first.
pub open spec fn key_less(a: Seq<u8>, b: Seq<u8>) -> bool
    decreases a.len(),
{
    if b.len() == 0 {
        false
    } else if a.len() == 0 {
        true
    } else if a[0] != b[0] {
        a[0] < b[0]
    } else {
        key_less(a.drop_first(), b.drop_first())
    }
}

/// Whether one key comes before another.
pub fn key_before(a: &[u8], b: &[u8]) -> (r: bool)
    ensures
        r == key_less(a@, b@),
{
    let mut i: usize = 0;
    assert(a@.skip(0) =~= a@);
    assert(b@.skip(0) =~= b@);
    while i < a.len() && i < b.len()
        invariant
            i <= a@.len(),
            i <= b@.len(),
            key_less(a@, b@) == key_less(a@.skip(i as int), b@.skip(i as int)),
        decreases a.len() - i,
    {
        if a[i] != b[i] {
            return a[i] < b[i];
        }
        assert(a@.skip(i as int).drop_first() =~= a@.skip(i + 1));
        assert(b@.skip(i as int).drop_first() =~= b@.skip(i + 1));
        i += 1;
    }
    i < b.len()
}

/// Keys are ordered totally: of two different keys one comes before the other,
/// and not the other way round; and the order is transitive.
pub proof fn keys_are_ordered(a: Seq<u8>, b: Seq<u8>, c: Seq<u8>)
    ensures
        !key_less(a, a),
        key_less(a, b) ==> !key_less(b, a),
        !key_less(a, b) && !key_less(b, a) ==> a == b,
        key_less(a, b) && key_less(b, c) ==> key_less(a, c),
    decreases a.len() + b.len() + c.len(),
{
    if a.len() > 0 && b.len() > 0 && c.len() > 0 {
        keys_are_ordered(a.drop_first(), b.drop_first(), c.drop_first());
    } else if a.len() > 0 && b.len() > 0 {
        keys_are_ordered(a.drop_first(), b.drop_first(), c);
    } else if a.len() > 0 {
        keys_are_ordered(a.drop_first(), b, c);
    }
    if !key_less(a, b) && !key_less(b, a) {
        if a.len() > 0 && b.len() > 0 {
            assert(a =~= seq![a[0]] + a.drop_first());
            assert(b =~= seq![b[0]] + b.drop_first());
        } else {
            assert(a =~= b);
        }
    }
}

// ---- numbers as keys ---------------------------------------------------------

pub const SIGN_BIT: u64 = 0x8000_0000_0000_0000;

/// The bits of a 64-bit float, as a number that is ordered as the floats are.
pub open spec fn order_value(bits: u64) -> u64 {
    if bits & SIGN_BIT != 0 {
        !bits
    } else {
        bits ^ SIGN_BIT
    }
}

/// Floats by their bits: negative ones first, the larger the magnitude the
/// earlier; then the others by magnitude.
pub open spec fn float_less(a: u64, b: u64) -> bool {
    let (na, nb) = (a >= SIGN_BIT, b >= SIGN_BIT);
    if na != nb {
        na
    } else if na {
        a > b
    } else {
        a < b
    }
}

/// Whether one float is before another, by their bits.
pub fn float_before(a: u64, b: u64) -> (r: bool)
    ensures
        r == float_less(a, b),
{
    let (na, nb) = (a >= SIGN_BIT, b >= SIGN_BIT);
    if na != nb {
        na
    } else if na {
        a > b
    } else {
        a < b
    }
}

/// A number in `width` bytes, the highest first.
pub open spec fn be_bytes(n: nat, width: nat) -> Seq<u8>
    decreases width,
{
    if width == 0 {
        Seq::empty()
    } else {
        be_bytes(n / 256, (width - 1) as nat).push((n % 256) as u8)
    }
}

/// The key of a float, by its bits.
pub open spec fn float_key(bits: u64) -> Seq<u8> {
    be_bytes(order_value(bits) as nat, 8)
}

fn push_be(out: &mut Vec<u8>, n: u64, width: u8)
    ensures
        final(out)@ == old(out)@ + be_bytes(n as nat, width as nat),
    decreases width,
{
    let ghost o = out@;
    if width > 0 {
        push_be(out, n / 256, width - 1);
        out.push((n % 256) as u8);
    }
    assert(out@ =~= o + be_bytes(n as nat, width as nat));
}

/// The key of a float, by its bits.
pub fn f64_order_key(bits: u64) -> (k: Vec<u8>)
    ensures
        k@ == float_key(bits),
{
    let value = if bits & SIGN_BIT != 0 {
        !bits
    } else {
        bits ^ SIGN_BIT
    };
    let mut k: Vec<u8> = Vec::new();
    push_be(&mut k, value, 8);
    assert(k@ =~= float_key(bits));
    k
}

proof fn lemma_be_len(n: nat, width: nat)
    ensures
        be_bytes(n, width).len() == width,
    decreases width,
{
    if width > 0 {
        lemma_be_len(n / 256, (width - 1) as nat);
    }
}

proof fn lemma_less_push(a: Seq<u8>, b: Seq<u8>, x: u8, y: u8)
    requires
        a.len() == b.len(),
    ensures
        key_less(a.push(x), b.push(y)) == (key_less(a, b) || (a == b && x < y)),
    decreases a.len(),
{
    if a.len() == 0 {
        assert(a =~= b);
        let none = Seq::<u8>::empty();
        assert(a.push(x).drop_first() =~= none);
        assert(b.push(y).drop_first() =~= none);
        assert(!key_less(none, none));
        assert(a.push(x)[0] == x && b.push(y)[0] == y);
        assert(key_less(a.push(x), b.push(y)) == (x < y));
    } else {
        assert(a.push(x)[0] == a[0] && b.push(y)[0] == b[0]);
        lemma_less_push(a.drop_first(), b.drop_first(), x, y);
        assert(a.push(x).drop_first() =~= a.drop_first().push(x));
        assert(b.push(y).drop_first() =~= b.drop_first().push(y));
        assert(a =~= seq![a[0]] + a.drop_first());
        assert(b =~= seq![b[0]] + b.drop_first());
    }
}

proof fn lemma_be_order(a: nat, b: nat, width: nat)
    requires
        a < crate::cache::pow256(width),
        b < crate::cache::pow256(width),
    ensures
        key_less(be_bytes(a, width), be_bytes(b, width)) == (a < b),
        be_bytes(a, width) == be_bytes(b, width) ==> a == b,
    decreases width,
{
    if width > 0 {
        let w = (width - 1) as nat;
        let p = crate::cache::pow256(w);
        assert(a / 256 < p && b / 256 < p) by (nonlinear_arith)
            requires
                a < 256 * p,
                b < 256 * p,
        ;
        lemma_be_order(a / 256, b / 256, w);
        lemma_be_len(a / 256, w);
        lemma_be_len(b / 256, w);
        let (x, y) = ((a % 256) as u8, (b % 256) as u8);
        let (s, t) = (be_bytes(a / 256, w), be_bytes(b / 256, w));
        lemma_less_push(s, t, x, y);
        if s.push(x) == t.push(y) {
            assert(s.push(x).last() == t.push(y).last());
            assert(s.push(x).drop_last() =~= s);
            assert(t.push(y).drop_last() =~= t);
        }
    }
}

/// The keys of floats are ordered as the floats are.
pub proof fn float_keys_are_ordered(a: u64, b: u64)
    ensures
        key_less(float_key(a), float_key(b)) == float_less(a, b),
        float_key(a) == float_key(b) ==> a == b,
{
    crate::cache::lemma_pow256();
    lemma_be_order(order_value(a) as nat, order_value(b) as nat, 8);
    assert(order_value(a) < order_value(b) <==> float_less(a, b)) by {
        let s = SIGN_BIT;
        assert(a & 0x8000_0000_0000_0000u64 != 0 <==> a >= 0x8000_0000_0000_0000u64) by (bit_vector);
        assert(b & 0x8000_0000_0000_0000u64 != 0 <==> b >= 0x8000_0000_0000_0000u64) by (bit_vector);
        assert(!a < !b <==> a > b) by (bit_vector);
        assert(a < 0x8000_0000_0000_0000u64 && b < 0x8000_0000_0000_0000u64 ==> ((a
            ^ 0x8000_0000_0000_0000u64) < (b ^ 0x8000_0000_0000_0000u64) <==> a < b))
            by (bit_vector);
        assert(a >= 0x8000_0000_0000_0000u64 && b < 0x8000_0000_0000_0000u64 ==> !a < (b
            ^ 0x8000_0000_0000_0000u64)) by (bit_vector);
        assert(b >= 0x8000_0000_0000_0000u64 && a < 0x8000_0000_0000_0000u64 ==> !((a
            ^ 0x8000_0000_0000_0000u64) < !b)) by (bit_vector);
    }
    assert(order_value(a) == order_value(b) ==> a == b) by {
        assert(a & 0x8000_0000_0000_0000u64 != 0 <==> a >= 0x8000_0000_0000_0000u64) by (bit_vector);
        assert(b & 0x8000_0000_0000_0000u64 != 0 <==> b >= 0x8000_0000_0000_0000u64) by (bit_vector);
        assert(!a == !b ==> a == b) by (bit_vector);
        assert((a ^ 0x8000_0000_0000_0000u64) == (b ^ 0x8000_0000_0000_0000u64) ==> a == b)
            by (bit_vector);
        assert(a >= 0x8000_0000_0000_0000u64 && b < 0x8000_0000_0000_0000u64 ==> !a != (b
            ^ 0x8000_0000_0000_0000u64)) by (bit_vector);
        assert(b >= 0x8000_0000_0000_0000u64 && a < 0x8000_0000_0000_0000u64 ==> !b != (a
            ^ 0x8000_0000_0000_0000u64)) by (bit_vector);
    }
}

// ---- several columns as one key ----------------------------------------------

/// A component with its zero bytes escaped.
pub open spec fn escaped_bytes(c: Seq<u8>) -> Seq<u8>
    decreases c.len(),
{
    if c.len() == 0 {
        Seq::empty()
    } else if c[0] == 0 {
        seq![0u8, 0xffu8] + escaped_bytes(c.drop_first())
    } else {
        seq![c[0]] + escaped_bytes(c.drop_first())
    }
}

/// Components as one key: each escaped, and ended by two zero bytes.
pub open spec fn tuple_key(parts: Seq<Seq<u8>>) -> Seq<u8>
    decreases parts.len(),
{
    if parts.len() == 0 {
        Seq::empty()
    } else {
        escaped_bytes(parts[0]) + seq![0u8, 0u8] + tuple_key(parts.drop_first())
    }
}

/// Components are ordered by the first that differs.
pub open spec fn parts_less(a: Seq<Seq<u8>>, b: Seq<Seq<u8>>) -> bool
    decreases a.len(),
{
    if a.len() == 0 || b.len() == 0 {
        false
    } else if a[0] != b[0] {
        key_less(a[0], b[0])
    } else {
        parts_less(a.drop_first(), b.drop_first())
    }
}

proof fn lemma_less_prefix(p: Seq<u8>, a: Seq<u8>, b: Seq<u8>)
    ensures
        key_less(p + a, p + b) == key_less(a, b),
    decreases p.len(),
{
    if p.len() == 0 {
        assert(p + a =~= a);
        assert(p + b =~= b);
    } else {
        lemma_less_prefix(p.drop_first(), a, b);
        assert((p + a).drop_first() =~= p.drop_first() + a);
        assert((p + b).drop_first() =~= p.drop_first() + b);
    }
}

proof fn lemma_component_order(c: Seq<u8>, d: Seq<u8>, r: Seq<u8>, s: Seq<u8>)
    requires
        c != d,
    ensures
        key_less(escaped_bytes(c) + seq![0u8, 0u8] + r, escaped_bytes(d) + seq![0u8, 0u8] + s)
            == key_less(c, d),
    decreases c.len(),
{
    let x = escaped_bytes(c) + seq![0u8, 0u8] + r;
    let y = escaped_bytes(d) + seq![0u8, 0u8] + s;
    if c.len() == 0 {
        assert(x =~= seq![0u8, 0u8] + r);
        assert(d.len() > 0) by {
            if d.len() == 0 {
                assert(c =~= d);
            }
        }
        if d[0] == 0 {
            assert(y =~= seq![0u8] + (seq![0xffu8] + escaped_bytes(d.drop_first()) + seq![0u8, 0u8]
                + s));
            assert(x.drop_first() =~= seq![0u8] + r);
            assert(y.drop_first() =~= seq![0xffu8] + escaped_bytes(d.drop_first()) + seq![0u8, 0u8]
                + s);
            assert(x.drop_first()[0] == 0 && y.drop_first()[0] == 0xff);
            assert(key_less(x.drop_first(), y.drop_first()));
            assert(x[0] == y[0]);
        } else {
            assert(y[0] == d[0]);
        }
    } else if d.len() == 0 {
        assert(y =~= seq![0u8, 0u8] + s);
        if c[0] == 0 {
            assert(x.drop_first()[0] == 0xff);
            assert(y.drop_first()[0] == 0);
            assert(!key_less(x.drop_first(), y.drop_first()));
            assert(x[0] == y[0]);
        } else {
            assert(x[0] == c[0]);
        }
    } else {
        let (c2, d2) = (c.drop_first(), d.drop_first());
        let hx = if c[0] == 0 { seq![0u8, 0xffu8] } else { seq![c[0]] };
        let hy = if d[0] == 0 { seq![0u8, 0xffu8] } else { seq![d[0]] };
        let tx = escaped_bytes(c2) + seq![0u8, 0u8] + r;
        let ty = escaped_bytes(d2) + seq![0u8, 0u8] + s;
        assert(x =~= hx + tx);
        assert(y =~= hy + ty);
        if c[0] == d[0] {
            assert(c2 != d2) by {
                if c2 == d2 {
                    assert(c =~= seq![c[0]] + c2);
                    assert(d =~= seq![d[0]] + d2);
                }
            }
            lemma_component_order(c2, d2, r, s);
            assert(hx =~= hy);
            lemma_less_prefix(hx, tx, ty);
        } else {
            assert(x[0] == c[0]);
            assert(y[0] == d[0]);
        }
    }
}

/// Keys of several columns are ordered as their components are: by the first
/// column that differs.
pub proof fn tuple_keys_are_ordered(a: Seq<Seq<u8>>, b: Seq<Seq<u8>>)
    requires
        a.len() == b.len(),
    ensures
        key_less(tuple_key(a), tuple_key(b)) == parts_less(a, b),
    decreases a.len(),
{
    if a.len() > 0 {
        let (r, s) = (tuple_key(a.drop_first()), tuple_key(b.drop_first()));
        if a[0] == b[0] {
            tuple_keys_are_ordered(a.drop_first(), b.drop_first());
            lemma_less_prefix(escaped_bytes(a[0]) + seq![0u8, 0u8], r, s);
        } else {
            lemma_component_order(a[0], b[0], r, s);
        }
    }
}

/// Appends a component to a key of several columns.
pub(crate) fn push_component(out: &mut Vec<u8>, c: &[u8])
    ensures
        final(out)@ == old(out)@ + escaped_bytes(c@) + seq![0u8, 0u8],
{
    let ghost o = out@;
    let mut i: usize = 0;
    assert(c@.skip(0) =~= c@);
    while i < c.len()
        invariant
            i <= c@.len(),
            o + escaped_bytes(c@) == out@ + escaped_bytes(c@.skip(i as int)),
        decreases c.len() - i,
    {
        let ghost before = out@;
        let ghost rest = escaped_bytes(c@.skip(i + 1));
        assert(c@.skip(i as int).drop_first() =~= c@.skip(i + 1));
        if c[i] == 0 {
            out.push(0);
            out.push(0xff);
            assert(before + (seq![0u8, 0xffu8] + rest) =~= out@ + rest);
        } else {
            out.push(c[i]);
            assert(before + (seq![c@[i as int]] + rest) =~= out@ + rest);
        }
        i += 1;
    }
    assert(escaped_bytes(c@.skip(c@.len() as int)) =~= Seq::<u8>::empty());
    assert(out@ =~= o + escaped_bytes(c@));
    out.push(0);
    out.push(0);
    assert(out@ =~= o + escaped_bytes(c@) + seq![0u8, 0u8]);
}

} // verus!
