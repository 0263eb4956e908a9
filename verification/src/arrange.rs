//! In which order lines come out, column by column.

use vstd::prelude::*;
use vstd::utf8::*;

use crate::document::DocView;
use crate::fields::{
    all_ascii, field_text, float_key,
    float_keys_are_ordered, float_less, key_less, keys_are_ordered,
    parts_less, text_key, tuple_key, tuple_keys_are_ordered,
};
use crate::runs::rec_less;
use crate::sort::{is_ordering, key_parts, key_width, lemma_onto, line_keys, SortOptions};

verus! {

/// Bytes are compared one by one: the first that differ decide, and what ends
/// first comes first.
pub proof fn the_first_bytes_that_differ_decide(a: Seq<u8>, b: Seq<u8>)
    ensures
        key_less(a, b) <==> exists|k: int|
            {
                &&& 0 <= k <= a.len()
                &&& k < b.len()
                &&& #[trigger] a.take(k) == b.take(k)
                &&& k < a.len() ==> a[k] < b[k]
            },
    decreases a.len(),
{
    if b.len() > 0 {
        if a.len() == 0 {
            assert(a.take(0) =~= b.take(0));
        } else if a[0] != b[0] {
            assert(a.take(0) =~= b.take(0));
            if a[0] > b[0] {
                assert forall|k: int|
                    0 <= k <= a.len() && k < b.len() && #[trigger] a.take(k) == b.take(k)
                        implies k < a.len() && a[k] > b[k] by {
                    if k > 0 {
                        assert(a.take(k)[0] == b.take(k)[0]);
                    }
                }
            }
        } else {
            let (c, d) = (a.drop_first(), b.drop_first());
            the_first_bytes_that_differ_decide(c, d);
            if key_less(c, d) {
                let k = choose|k: int|
                    {
                        &&& 0 <= k <= c.len()
                        &&& k < d.len()
                        &&& #[trigger] c.take(k) == d.take(k)
                        &&& k < c.len() ==> c[k] < d[k]
                    };
                assert(a.take(k + 1) =~= seq![a[0]] + c.take(k));
                assert(b.take(k + 1) =~= seq![b[0]] + d.take(k));
            }
            if exists|k: int|
                {
                    &&& 0 <= k <= a.len()
                    &&& k < b.len()
                    &&& #[trigger] a.take(k) == b.take(k)
                    &&& k < a.len() ==> a[k] < b[k]
                } {
                let k = choose|k: int|
                    {
                        &&& 0 <= k <= a.len()
                        &&& k < b.len()
                        &&& #[trigger] a.take(k) == b.take(k)
                        &&& k < a.len() ==> a[k] < b[k]
                    };
                assert(k > 0);
                assert(c.take(k - 1) =~= a.take(k).drop_first());
                assert(d.take(k - 1) =~= b.take(k).drop_first());
            }
        }
    }
}

/// The column of a key component.
pub open spec fn key_column_at(opts: SortOptions, c: int) -> Option<usize> {
    if opts.key_columns@.len() == 0 {
        opts.key_column
    } else {
        Some(opts.key_columns@[c])
    }
}

/// One line comes before another in a column.
pub open spec fn column_less(
    doc: DocView,
    opts: SortOptions,
    numbers: Seq<Vec<u64>>,
    i: int,
    j: int,
    c: int,
) -> bool {
    if opts.numeric {
        float_less(numbers[i]@[c], numbers[j]@[c])
    } else {
        key_less(column_text(doc, opts, i, c), column_text(doc, opts, j, c))
    }
}

/// Two lines have the same in a column.
pub open spec fn column_same(
    doc: DocView,
    opts: SortOptions,
    numbers: Seq<Vec<u64>>,
    i: int,
    j: int,
    c: int,
) -> bool {
    if opts.numeric {
        numbers[i]@[c] == numbers[j]@[c]
    } else {
        column_text(doc, opts, i, c) == column_text(doc, opts, j, c)
    }
}

/// The text of a line in a column, as bytes that are ordered as texts are.
pub open spec fn column_text(doc: DocView, opts: SortOptions, i: int, c: int) -> Seq<u8> {
    text_key(field_text(doc.encoding, doc.raw(i as nat), key_column_at(opts, c), opts.fields))
}

proof fn lemma_parts_less(a: Seq<Seq<u8>>, b: Seq<Seq<u8>>)
    requires
        a.len() == b.len(),
    ensures
        parts_less(a, b) <==> exists|c: int|
            {
                &&& 0 <= c < a.len()
                &&& key_less(#[trigger] a[c], b[c])
                &&& forall|d: int| 0 <= d < c ==> #[trigger] a[d] == b[d]
            },
    decreases a.len(),
{
    if a.len() > 0 {
        if a[0] != b[0] {
            if key_less(a[0], b[0]) {
                assert(forall|d: int| 0 <= d < 0 ==> #[trigger] a[d] == b[d]);
            }
        } else {
            keys_are_ordered(a[0], a[0], a[0]);
            let (x, y) = (a.drop_first(), b.drop_first());
            lemma_parts_less(x, y);
            if parts_less(x, y) {
                let c = choose|c: int|
                    {
                        &&& 0 <= c < x.len()
                        &&& key_less(#[trigger] x[c], y[c])
                        &&& forall|d: int| 0 <= d < c ==> #[trigger] x[d] == y[d]
                    };
                assert(a[c + 1] == x[c] && b[c + 1] == y[c]);
                assert forall|d: int| 0 <= d < c + 1 implies #[trigger] a[d] == b[d] by {
                    if d > 0 {
                        assert(x[d - 1] == y[d - 1]);
                    }
                }
            }
            if exists|c: int|
                {
                    &&& 0 <= c < a.len()
                    &&& key_less(#[trigger] a[c], b[c])
                    &&& forall|d: int| 0 <= d < c ==> #[trigger] a[d] == b[d]
                } {
                let c = choose|c: int|
                    {
                        &&& 0 <= c < a.len()
                        &&& key_less(#[trigger] a[c], b[c])
                        &&& forall|d: int| 0 <= d < c ==> #[trigger] a[d] == b[d]
                    };
                assert(c > 0);
                assert(x[c - 1] == a[c] && y[c - 1] == b[c]);
                assert forall|d: int| 0 <= d < c - 1 implies #[trigger] x[d] == y[d] by {
                    assert(a[d + 1] == b[d + 1]);
                }
            }
        }
    }
}

proof fn lemma_parts_same(a: Seq<Seq<u8>>, b: Seq<Seq<u8>>)
    requires
        a.len() == b.len(),
        tuple_key(a) == tuple_key(b),
    ensures
        a == b,
{
    tuple_keys_are_ordered(a, b);
    tuple_keys_are_ordered(b, a);
    keys_are_ordered(tuple_key(a), tuple_key(b), tuple_key(a));
    lemma_parts_less(a, b);
    lemma_parts_less(b, a);
    if a != b {
        let c = lemma_first_difference(a, b, 0);
        keys_are_ordered(a[c], b[c], a[c]);
        assert(key_less(a[c], b[c]) || key_less(b[c], a[c]));
        assert(parts_less(a, b) || parts_less(b, a));
    }
}

proof fn lemma_first_difference(a: Seq<Seq<u8>>, b: Seq<Seq<u8>>, from: int) -> (c: int)
    requires
        a.len() == b.len(),
        0 <= from <= a.len(),
        a != b,
        forall|d: int| 0 <= d < from ==> #[trigger] a[d] == b[d],
    ensures
        from <= c < a.len(),
        a[c] != b[c],
        forall|d: int| 0 <= d < c ==> #[trigger] a[d] == b[d],
    decreases a.len() - from,
{
    if from == a.len() {
        assert(a =~= b);
        from
    } else if a[from] != b[from] {
        from
    } else {
        lemma_first_difference(a, b, from + 1)
    }
}

/// Lines are ordered by all of their key columns: the first column in which two
/// lines differ decides, by its numbers where the keys are numbers and by its
/// texts where they are not. Two lines have the same key only where they agree
/// in every key column.
pub proof fn the_first_columns_that_differ_decide(
    doc: DocView,
    opts: SortOptions,
    numbers: Seq<Vec<u64>>,
    i: int,
    j: int,
)
    requires
        0 <= i < doc.count(),
        0 <= j < doc.count(),
        opts.numeric ==> numbers.len() == doc.count(),
        opts.numeric ==> numbers[i]@.len() >= key_width(opts),
        opts.numeric ==> numbers[j]@.len() >= key_width(opts),
    ensures
        ({
            let keys = line_keys(doc, opts, numbers);
            let width = if opts.key_columns@.len() == 0 { 1 } else { opts.key_columns@.len() };
            &&& keys.len() == doc.count()
            &&& key_less(keys[i], keys[j]) <==> exists|c: int|
                {
                    &&& 0 <= c < width
                    &&& #[trigger] column_less(doc, opts, numbers, i, j, c)
                    &&& forall|d: int|
                        0 <= d < c ==> #[trigger] column_same(doc, opts, numbers, i, j, d)
                }
            &&& keys[i] == keys[j] <==> forall|c: int|
                0 <= c < width ==> #[trigger] column_same(doc, opts, numbers, i, j, c)
        }),
{
    let keys = line_keys(doc, opts, numbers);
    if opts.numeric {
        assert forall|c: int| 0 <= c < key_width(opts) implies {
            let (a, b) = (numbers[i]@[c], numbers[j]@[c]);
            &&& key_less(#[trigger] float_key(numbers[i]@[c]), float_key(b)) == float_less(a, b)
            &&& float_key(a) == float_key(b) ==> a == b
        } by {
            float_keys_are_ordered(numbers[i]@[c], numbers[j]@[c]);
        }
    }
    if opts.key_columns@.len() == 0 {
        if opts.numeric {
            float_keys_are_ordered(numbers[i]@[0], numbers[j]@[0]);
        }
        assert(key_less(keys[i], keys[j]) == column_less(doc, opts, numbers, i, j, 0));
        assert((keys[i] == keys[j]) == column_same(doc, opts, numbers, i, j, 0));
    } else {
        let cols = opts.key_columns@;
        let none = Seq::<u64>::empty();
        let bits_i = if opts.numeric { numbers[i]@ } else { none };
        let bits_j = if opts.numeric { numbers[j]@ } else { none };
        let (x, y) = (
            key_parts(
                doc.raw(i as nat),
                doc.encoding,
                cols,
                opts.fields,
                opts.numeric,
                bits_i,
            ),
            key_parts(
                doc.raw(j as nat),
                doc.encoding,
                cols,
                opts.fields,
                opts.numeric,
                bits_j,
            ),
        );
        assert(keys[i] == tuple_key(x));
        assert(keys[j] == tuple_key(y));
        tuple_keys_are_ordered(x, y);
        lemma_parts_less(x, y);
        assert forall|c: int| 0 <= c < cols.len() implies key_less(#[trigger] x[c], y[c])
            == column_less(doc, opts, numbers, i, j, c) && (x[c] == y[c]) == column_same(
            doc,
            opts,
            numbers,
            i,
            j,
            c,
        ) by {
            if opts.numeric {
                float_keys_are_ordered(numbers[i]@[c], numbers[j]@[c]);
            }
        }
        if key_less(keys[i], keys[j]) {
            let c = choose|c: int|
                {
                    &&& 0 <= c < x.len()
                    &&& key_less(#[trigger] x[c], y[c])
                    &&& forall|d: int| 0 <= d < c ==> #[trigger] x[d] == y[d]
                };
            assert(column_less(doc, opts, numbers, i, j, c));
            assert forall|d: int| 0 <= d < c implies #[trigger] column_same(
                doc,
                opts,
                numbers,
                i,
                j,
                d,
            ) by {
                assert(x[d] == y[d]);
            }
        }
        if exists|c: int|
            {
                &&& 0 <= c < cols.len()
                &&& #[trigger] column_less(doc, opts, numbers, i, j, c)
                &&& forall|d: int| 0 <= d < c ==> #[trigger] column_same(doc, opts, numbers, i, j, d)
            } {
            let c = choose|c: int|
                {
                    &&& 0 <= c < cols.len()
                    &&& #[trigger] column_less(doc, opts, numbers, i, j, c)
                    &&& forall|d: int|
                        0 <= d < c ==> #[trigger] column_same(doc, opts, numbers, i, j, d)
                };
            assert(key_less(x[c], y[c]));
            assert forall|d: int| 0 <= d < c implies #[trigger] x[d] == y[d] by {
                assert(column_same(doc, opts, numbers, i, j, d));
            }
        }
        if keys[i] == keys[j] {
            lemma_parts_same(x, y);
            assert forall|c: int| 0 <= c < cols.len() implies #[trigger] column_same(
                doc,
                opts,
                numbers,
                i,
                j,
                c,
            ) by {
                assert(x[c] == y[c]);
            }
        }
        if forall|c: int|
            0 <= c < cols.len() ==> #[trigger] column_same(doc, opts, numbers, i, j, c) {
            assert forall|c: int| 0 <= c < x.len() implies x[c] == y[c] by {
                assert(column_same(doc, opts, numbers, i, j, c));
            }
            assert(x =~= y);
        }
    }
}

/// A sort puts every line in one place, and no line before one that is to come
/// earlier: smaller keys first, or greater ones if the order is reversed, and
/// of lines with equal keys always the one that stands first in the document.
pub proof fn every_line_comes_in_its_place(order: Seq<u64>, keys: Seq<Seq<u8>>, reverse: bool)
    requires
        is_ordering(order, keys, reverse),
        keys.len() <= u64::MAX,
    ensures
        order.len() == keys.len(),
        forall|x: u64| x < keys.len() ==> #[trigger] order.contains(x),
        forall|i: int, j: int|
            0 <= i < j < order.len() ==> {
                let (a, b) = (#[trigger] order[i], #[trigger] order[j]);
                &&& a != b
                &&& keys[a as int] == keys[b as int] ==> a < b
                &&& !reverse ==> !key_less(keys[b as int], keys[a as int])
                &&& reverse ==> !key_less(keys[a as int], keys[b as int])
            },
{
    assert forall|x: u64| x < keys.len() implies #[trigger] order.contains(x) by {
        lemma_onto(order, keys, reverse, x);
    }
    assert forall|i: int, j: int| 0 <= i < j < order.len() implies {
        let (a, b) = (#[trigger] order[i], #[trigger] order[j]);
        &&& a != b
        &&& keys[a as int] == keys[b as int] ==> a < b
        &&& !reverse ==> !key_less(keys[b as int], keys[a as int])
        &&& reverse ==> !key_less(keys[a as int], keys[b as int])
    } by {
        let (a, b) = (order[i], order[j]);
        keys_are_ordered(keys[a as int], keys[b as int], keys[a as int]);
        assert(rec_less((keys[a as int], a), (keys[b as int], b), reverse));
    }
}

/// The key of a text of ASCII is its bytes, so such texts are ordered as their
/// characters are.
pub proof fn ascii_texts_are_their_own_keys(t: Seq<char>)
    requires
        is_ascii_chars(t),
    ensures
        text_key(t).len() == t.len(),
        forall|i: int| 0 <= i < t.len() ==> #[trigger] text_key(t)[i] == t[i] as u8,
{
    lemma_ascii_bytes(t);
    assert(all_ascii(t)) by {
        assert forall|i: int| 0 <= i < t.len() implies (#[trigger] t[i] as u32) < 128 by {
            let c = t[i];
            assert('\0' <= c <= '\u{7f}');
        }
    }
}

pub proof fn lemma_ascii_bytes(t: Seq<char>)
    requires
        is_ascii_chars(t),
    ensures
        encode_utf8(t).len() == t.len(),
        forall|i: int| 0 <= i < t.len() ==> #[trigger] encode_utf8(t)[i] == t[i] as u8,
{
    is_ascii_chars_encode_utf8(t);
}

} // verus!
