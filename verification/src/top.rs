//! The first rows by a key, without sorting all of them.

use vstd::prelude::*;

use crate::bytes::same_bytes;
use crate::document::{DocView, Document};
use crate::fields::{key_before, key_less, keys_are_ordered, FieldSpec};
use crate::records::RecordReader;
use crate::runs::{
    in_order, rec_before, rec_less, rec_view, records_are_ordered, recs_view, Rec,
};
use crate::sort::{comparable, comparable_key};

verus! {

/// How to select rows.
#[derive(Clone, Debug)]
pub struct TopOptions {
    pub key_column: Option<usize>,
    pub fields: FieldSpec,
    pub numeric: bool,
    /// Whether the largest keys are wanted, or the smallest.
    pub largest: bool,
    pub n: usize,
}

impl Default for TopOptions {
    fn default() -> (o: TopOptions)
        ensures
            o.key_column is None,
            o.fields == (FieldSpec { delimiter: 44, quote: 34, csv: false }),
            !o.numeric && o.largest,
            o.n == 10,
    {
        TopOptions {
            key_column: None,
            fields: FieldSpec { delimiter: 44, quote: 34, csv: false },
            numeric: false,
            largest: true,
            n: 10,
        }
    }
}

/// A row that was selected: the number of its record, and where it stands. A
/// record may be several lines.
#[derive(Clone, Copy, Debug, PartialEq, Eq, Structural)]
pub struct TopRow {
    pub record: u64,
    pub start: u64,
    pub raw_end: u64,
}

// ---- which rows stay ---------------------------------------------------------

/// One key is wanted more than another.
pub open spec fn better(a: Seq<u8>, b: Seq<u8>, largest: bool) -> bool {
    if largest {
        key_less(b, a)
    } else {
        key_less(a, b)
    }
}

/// Where a record belongs among rows in display order, looking from `j` on.
pub open spec fn place(s: Seq<Rec>, x: Rec, largest: bool, j: int) -> int
    decreases s.len() - j,
{
    if j < 0 || j >= s.len() || rec_less(x, s[j], largest) {
        j
    } else {
        place(s, x, largest, j + 1)
    }
}

/// The first row, from `j` on, whose key is that of the last row.
pub open spec fn first_worst(s: Seq<Rec>, j: int) -> int
    decreases s.len() - j,
{
    if j < 0 || j + 1 >= s.len() || s[j].0 == s.last().0 {
        j
    } else {
        first_worst(s, j + 1)
    }
}

/// Which row makes room for a better one: of those with the worst key the
/// first if the largest keys are wanted, else the last.
pub open spec fn victim(s: Seq<Rec>, largest: bool) -> int {
    if largest {
        first_worst(s, 0)
    } else {
        s.len() - 1
    }
}

/// The rows that stay, in display order, after one more record was seen.
pub open spec fn kept_with(s: Seq<Rec>, x: Rec, n: nat, largest: bool) -> Seq<Rec> {
    if n == 0 {
        s
    } else if s.len() < n {
        s.insert(place(s, x, largest, 0), x)
    } else if better(x.0, s.last().0, largest) {
        let t = s.remove(victim(s, largest));
        t.insert(place(t, x, largest, 0), x)
    } else {
        s
    }
}

/// The rows that stay of some records, in display order.
pub open spec fn kept(recs: Seq<Rec>, n: nat, largest: bool) -> Seq<Rec>
    decreases recs.len(),
{
    if recs.len() == 0 {
        Seq::empty()
    } else {
        kept_with(kept(recs.drop_last(), n, largest), recs.last(), n, largest)
    }
}

proof fn lemma_place(s: Seq<Rec>, x: Rec, largest: bool, j: int)
    requires
        0 <= j <= s.len(),
    ensures
        j <= place(s, x, largest, j) <= s.len(),
        forall|i: int|
            j <= i < place(s, x, largest, j) ==> !rec_less(x, #[trigger] s[i], largest),
        place(s, x, largest, j) < s.len() ==> rec_less(x, s[place(s, x, largest, j)], largest),
    decreases s.len() - j,
{
    if j < s.len() && !rec_less(x, s[j], largest) {
        lemma_place(s, x, largest, j + 1);
    }
}

proof fn lemma_first_worst(s: Seq<Rec>, j: int)
    requires
        0 <= j < s.len(),
    ensures
        j <= first_worst(s, j) < s.len(),
        s[first_worst(s, j)].0 == s.last().0,
    decreases s.len() - j,
{
    if j + 1 < s.len() && s[j].0 != s.last().0 {
        lemma_first_worst(s, j + 1);
    }
}

proof fn lemma_insert_order(s: Seq<Rec>, x: Rec, largest: bool)
    requires
        in_order(s, largest),
    ensures
        in_order(s.insert(place(s, x, largest, 0), x), largest),
{
    let p = place(s, x, largest, 0);
    lemma_place(s, x, largest, 0);
    let t = s.insert(p, x);
    assert forall|i: int, j: int| 0 <= i < j < t.len() implies !rec_less(
        #[trigger] t[j],
        #[trigger] t[i],
        largest,
    ) by {
        if j == p {
            assert(t[i] == s[i]);
        } else if i == p {
            assert(t[j] == s[j - 1]);
            records_are_ordered(x, s[p], x, largest);
            if j - 1 > p {
                assert(!rec_less(s[j - 1], s[p], largest));
                records_are_ordered(s[j - 1], x, s[p], largest);
            }
        } else {
            let a = if i < p { i } else { i - 1 };
            let b = if j < p { j } else { j - 1 };
            assert(t[i] == s[a] && t[j] == s[b]);
        }
    }
}

/// No row has a worse key than the last.
proof fn lemma_last_worst(s: Seq<Rec>, largest: bool, i: int)
    requires
        in_order(s, largest),
        0 <= i < s.len(),
    ensures
        !better(s.last().0, s[i].0, largest),
{
    let l = s.len() - 1;
    if i < l {
        assert(!rec_less(s[l], s[i], largest));
    }
    keys_are_ordered(s[l].0, s[i].0, s[l].0);
}

spec fn stays_best(recs: Seq<Rec>, s: Seq<Rec>, n: nat, largest: bool) -> bool {
    &&& in_order(s, largest)
    &&& s.len() == if n <= recs.len() { n } else { recs.len() }
    &&& forall|i: int| 0 <= i < s.len() ==> recs.contains(#[trigger] s[i])
    &&& forall|x: Rec, i: int|
        #[trigger] recs.contains(x) && !s.contains(x) && 0 <= i < s.len() ==> !better(
            x.0,
            (#[trigger] s[i]).0,
            largest,
        )
    &&& recs.len() <= n ==> forall|x: Rec| recs.contains(x) ==> #[trigger] s.contains(x)
}

proof fn lemma_insert_contains(s: Seq<Rec>, p: int, x: Rec)
    requires
        0 <= p <= s.len(),
    ensures
        forall|y: Rec| #[trigger] s.insert(p, x).contains(y) <==> s.contains(y) || y == x,
{
    let t = s.insert(p, x);
    assert forall|y: Rec| #[trigger] t.contains(y) <==> s.contains(y) || y == x by {
        if s.contains(y) {
            let i = choose|i: int| 0 <= i < s.len() && s[i] == y;
            assert(t[if i < p { i } else { i + 1 }] == y);
        }
        assert(t[p] == x);
        if t.contains(y) {
            let i = choose|i: int| 0 <= i < t.len() && t[i] == y;
            if i != p {
                assert(s[if i < p { i } else { i - 1 }] == y);
            }
        }
    }
}

/// What is no better than something is no better than what that is no better
/// than.
proof fn lemma_no_better(a: Seq<u8>, b: Seq<u8>, c: Seq<u8>, largest: bool)
    requires
        !better(a, b, largest),
        !better(b, c, largest),
    ensures
        !better(a, c, largest),
{
    keys_are_ordered(a, b, c);
    keys_are_ordered(c, b, a);
    keys_are_ordered(b, a, c);
    keys_are_ordered(b, c, a);
    keys_are_ordered(a, c, b);
    keys_are_ordered(c, a, b);
}

proof fn lemma_push_contains(recs: Seq<Rec>, x: Rec)
    ensures
        forall|y: Rec| #[trigger] recs.push(x).contains(y) <==> recs.contains(y) || y == x,
{
    let more = recs.push(x);
    assert forall|y: Rec| #[trigger] more.contains(y) <==> recs.contains(y) || y == x by {
        if recs.contains(y) {
            let i = choose|i: int| 0 <= i < recs.len() && recs[i] == y;
            assert(more[i] == y);
        }
        assert(more[recs.len() as int] == x);
        if more.contains(y) {
            let i = choose|i: int| 0 <= i < more.len() && more[i] == y;
            if i < recs.len() {
                assert(recs[i] == y);
            }
        }
    }
}

proof fn lemma_kept_more(recs: Seq<Rec>, s: Seq<Rec>, x: Rec, n: nat, largest: bool)
    requires
        n > 0,
        stays_best(recs, s, n, largest),
        s.len() < n,
    ensures
        stays_best(recs.push(x), kept_with(s, x, n, largest), n, largest),
{
    let more = recs.push(x);
    let now = kept_with(s, x, n, largest);
    lemma_push_contains(recs, x);
    lemma_insert_order(s, x, largest);
    lemma_place(s, x, largest, 0);
    lemma_insert_contains(s, place(s, x, largest, 0), x);
    assert forall|i: int| 0 <= i < now.len() implies more.contains(#[trigger] now[i]) by {
        assert(now.contains(now[i]));
        if now[i] != x {
            let j = choose|j: int| 0 <= j < s.len() && s[j] == now[i];
            assert(recs.contains(s[j]));
        }
    }
    assert forall|y: Rec| more.contains(y) implies #[trigger] now.contains(y) by {
        if y != x {
            assert(recs.contains(y));
            assert(s.contains(y));
        }
    }
}

proof fn lemma_kept_same(recs: Seq<Rec>, s: Seq<Rec>, x: Rec, n: nat, largest: bool)
    requires
        n > 0,
        stays_best(recs, s, n, largest),
        s.len() >= n,
        !better(x.0, s.last().0, largest),
    ensures
        stays_best(recs.push(x), kept_with(s, x, n, largest), n, largest),
{
    let more = recs.push(x);
    lemma_push_contains(recs, x);
    assert forall|y: Rec, i: int|
        #[trigger] more.contains(y) && !s.contains(y) && 0 <= i < s.len() implies !better(
        y.0,
        (#[trigger] s[i]).0,
        largest,
    ) by {
        if y == x {
            lemma_last_worst(s, largest, i);
            lemma_no_better(x.0, s.last().0, s[i].0, largest);
        } else {
            assert(recs.contains(y));
        }
    }
    assert forall|i: int| 0 <= i < s.len() implies more.contains(#[trigger] s[i]) by {
        assert(recs.contains(s[i]));
    }
}

/// Without one of its rows a list stays in order.
proof fn lemma_remove_order(s: Seq<Rec>, v: int, largest: bool)
    requires
        in_order(s, largest),
        0 <= v < s.len(),
    ensures
        in_order(s.remove(v), largest),
{
    let t = s.remove(v);
    assert forall|i: int, j: int| 0 <= i < j < t.len() implies !rec_less(
        #[trigger] t[j],
        #[trigger] t[i],
        largest,
    ) by {
        let a = if i < v { i } else { i + 1 };
        let b = if j < v { j } else { j + 1 };
        assert(t[i] == s[a] && t[j] == s[b]);
    }
}

/// What a list with one row in the place of another holds.
proof fn lemma_swap_contains(s: Seq<Rec>, v: int, p: int, x: Rec)
    requires
        0 <= v < s.len(),
        0 <= p <= s.len() - 1,
    ensures
        ({
            let now = s.remove(v).insert(p, x);
            &&& now.contains(x)
            &&& forall|y: Rec| #[trigger] now.contains(y) ==> y == x || s.contains(y)
            &&& forall|y: Rec| s.contains(y) && y != s[v] ==> #[trigger] now.contains(y)
        }),
{
    let t = s.remove(v);
    let now = t.insert(p, x);
    lemma_insert_contains(t, p, x);
    assert forall|y: Rec| #[trigger] now.contains(y) implies y == x || s.contains(y) by {
        if y != x {
            let j = choose|j: int| 0 <= j < t.len() && t[j] == y;
            assert(s[if j < v { j } else { j + 1 }] == y);
        }
    }
    assert forall|y: Rec| s.contains(y) && y != s[v] implies #[trigger] now.contains(y) by {
        let k = choose|k: int| 0 <= k < s.len() && s[k] == y;
        assert(t[if k < v { k } else { k - 1 }] == y);
    }
}

/// What is no better than the worst row is no better than any.
proof fn lemma_below_all(s: Seq<Rec>, y: Rec, z: Rec, largest: bool)
    requires
        in_order(s, largest),
        s.len() > 0,
        !better(y.0, s.last().0, largest),
        s.contains(z) || better(z.0, s.last().0, largest),
    ensures
        !better(y.0, z.0, largest),
{
    let worst = s.last().0;
    if s.contains(z) {
        let k = choose|k: int| 0 <= k < s.len() && s[k] == z;
        lemma_last_worst(s, largest, k);
    } else {
        keys_are_ordered(worst, z.0, worst);
        keys_are_ordered(z.0, worst, z.0);
    }
    lemma_no_better(y.0, worst, z.0, largest);
}

/// What is left out is no better than the worst row that was there.
proof fn lemma_left_out(recs: Seq<Rec>, s: Seq<Rec>, y: Rec, n: nat, largest: bool)
    requires
        stays_best(recs, s, n, largest),
        s.len() > 0,
        recs.contains(y),
        !s.contains(y) || y.0 == s.last().0,
    ensures
        !better(y.0, s.last().0, largest),
{
    if s.contains(y) {
        keys_are_ordered(y.0, y.0, y.0);
    } else {
        assert(!better(y.0, s[s.len() - 1].0, largest));
    }
}

proof fn lemma_kept_swap(recs: Seq<Rec>, s: Seq<Rec>, x: Rec, n: nat, largest: bool)
    requires
        n > 0,
        stays_best(recs, s, n, largest),
        s.len() >= n,
        better(x.0, s.last().0, largest),
    ensures
        stays_best(recs.push(x), kept_with(s, x, n, largest), n, largest),
{
    let more = recs.push(x);
    let now = kept_with(s, x, n, largest);
    lemma_push_contains(recs, x);
    let v = victim(s, largest);
    if largest {
        lemma_first_worst(s, 0);
    }
    assert(s[v].0 == s.last().0);
    let t = s.remove(v);
    lemma_remove_order(s, v, largest);
    lemma_insert_order(t, x, largest);
    lemma_place(t, x, largest, 0);
    lemma_swap_contains(s, v, place(t, x, largest, 0), x);
    assert forall|i: int| 0 <= i < now.len() implies more.contains(#[trigger] now[i]) by {
        assert(now.contains(now[i]));
        if now[i] != x {
            let k = choose|k: int| 0 <= k < s.len() && s[k] == now[i];
            assert(recs.contains(s[k]));
        }
    }
    assert forall|y: Rec, i: int|
        #[trigger] more.contains(y) && !now.contains(y) && 0 <= i < now.len() implies !better(
        y.0,
        (#[trigger] now[i]).0,
        largest,
    ) by {
        assert(now.contains(now[i]));
        lemma_left_out(recs, s, y, n, largest);
        lemma_below_all(s, y, now[i], largest);
    }
    assert(now.len() == s.len());
    assert(recs.len() >= n);
}

proof fn lemma_kept_with(recs: Seq<Rec>, s: Seq<Rec>, x: Rec, n: nat, largest: bool)
    requires
        n > 0,
        stays_best(recs, s, n, largest),
    ensures
        stays_best(recs.push(x), kept_with(s, x, n, largest), n, largest),
{
    if s.len() < n {
        lemma_kept_more(recs, s, x, n, largest);
    } else if better(x.0, s.last().0, largest) {
        lemma_kept_swap(recs, s, x, n, largest);
    } else {
        lemma_kept_same(recs, s, x, n, largest);
    }
}

/// The rows that stay are the best: they are in display order, as many as were
/// asked for if there are so many, and none that was left out has a better key
/// than one that stays.
pub proof fn the_best_rows_stay(recs: Seq<Rec>, n: nat, largest: bool)
    requires
        n > 0,
    ensures
        ({
            let s = kept(recs, n, largest);
            &&& in_order(s, largest)
            &&& s.len() == if n <= recs.len() { n } else { recs.len() }
            &&& forall|i: int| 0 <= i < s.len() ==> recs.contains(#[trigger] s[i])
            &&& forall|x: Rec, i: int|
                #[trigger] recs.contains(x) && !s.contains(x) && 0 <= i < s.len() ==> !better(
                    x.0,
                    (#[trigger] s[i]).0,
                    largest,
                )
        }),
{
    lemma_kept(recs, n, largest);
}

proof fn lemma_kept(recs: Seq<Rec>, n: nat, largest: bool)
    requires
        n > 0,
    ensures
        stays_best(recs, kept(recs, n, largest), n, largest),
    decreases recs.len(),
{
    if recs.len() > 0 {
        let before = recs.drop_last();
        lemma_kept(before, n, largest);
        lemma_kept_with(before, kept(before, n, largest), recs.last(), n, largest);
        assert(before.push(recs.last()) =~= recs);
    }
}

// ---- rows of a document ------------------------------------------------------

/// The keys of records, with their numbers.
pub open spec fn record_keys(doc: DocView, opts: TopOptions, numbers: Seq<u64>) -> Seq<Rec> {
    let r = doc.records(opts.fields, 0);
    Seq::new(
        r.len(),
        |i: int|
            (
                comparable(
                    doc.buf.subrange(r[i].0, r[i].1),
                    doc.encoding,
                    opts.key_column,
                    opts.fields,
                    opts.numeric,
                    numbers[i],
                ),
                i as u64,
            ),
    )
}

fn find_place(s: &Vec<(Vec<u8>, u64)>, x: &(Vec<u8>, u64), largest: bool) -> (p: usize)
    ensures
        p == place(recs_view(s@), rec_view(*x), largest, 0),
        p <= s@.len(),
{
    let ghost sv = recs_view(s@);
    let mut j: usize = 0;
    while j < s.len()
        invariant
            j <= s@.len(),
            sv == recs_view(s@),
            place(sv, rec_view(*x), largest, 0) == place(sv, rec_view(*x), largest, j as int),
        decreases s.len() - j,
    {
        assert(sv[j as int] == rec_view(s@[j as int]));
        if rec_before(x, &s[j], largest) {
            return j;
        }
        j += 1;
    }
    j
}

fn find_victim(s: &Vec<(Vec<u8>, u64)>, largest: bool) -> (v: usize)
    requires
        s@.len() > 0,
    ensures
        v == victim(recs_view(s@), largest),
        v < s@.len(),
{
    let ghost sv = recs_view(s@);
    let last = s.len() - 1;
    if !largest {
        return last;
    }
    let mut j: usize = 0;
    assert(sv.last() == rec_view(s@[last as int]));
    while j < last
        invariant
            largest,
            j <= last,
            last == s@.len() - 1,
            sv == recs_view(s@),
            sv.last() == rec_view(s@[last as int]),
            first_worst(sv, 0) == first_worst(sv, j as int),
        decreases last - j,
    {
        assert(sv[j as int] == rec_view(s@[j as int]));
        if same_bytes(s[j].0.as_slice(), s[last].0.as_slice()) {
            return j;
        }
        j += 1;
    }
    j
}

/// Takes one more record into account: the rows stay beside their keys.
fn keep(
    s: &mut Vec<(Vec<u8>, u64)>,
    rows: &mut Vec<TopRow>,
    x: (Vec<u8>, u64),
    row: TopRow,
    n: usize,
    largest: bool,
)
    requires
        n > 0,
        old(rows)@.len() == old(s)@.len(),
        row.record == x.1,
        forall|i: int| 0 <= i < old(s)@.len() ==> (#[trigger] old(rows)@[i]).record == old(s)@[i].1,
    ensures
        recs_view(final(s)@) == kept_with(recs_view(old(s)@), rec_view(x), n as nat, largest),
        final(rows)@.len() == final(s)@.len(),
        forall|i: int|
            0 <= i < final(s)@.len() ==> (#[trigger] final(rows)@[i]).record == final(s)@[i].1,
        forall|i: int|
            0 <= i < final(rows)@.len() ==> #[trigger] final(rows)@[i] == row || old(rows)@.contains(
                final(rows)@[i],
            ),
{
    let ghost before = recs_view(s@);
    let ghost rows0 = rows@;
    let ghost xv = rec_view(x);
    if s.len() < n {
        let p = find_place(s, &x, largest);
        s.insert(p, x);
        rows.insert(p, row);
        assert(recs_view(s@) =~= before.insert(p as int, xv));
        proof {
            assert forall|i: int| 0 <= i < rows@.len() implies #[trigger] rows@[i] == row
                || rows0.contains(rows@[i]) by {
                if i != p {
                    let j = if i < p { i } else { i - 1 };
                    assert(rows@[i] == rows0[j]);
                }
            }
        }
        return;
    }
    let last = s.len() - 1;
    assert(before.last() == rec_view(s@[last as int]));
    let improves = if largest {
        key_before(s[last].0.as_slice(), x.0.as_slice())
    } else {
        key_before(x.0.as_slice(), s[last].0.as_slice())
    };
    if improves {
        let v = find_victim(s, largest);
        let _gone = s.remove(v);
        let _row = rows.remove(v);
        let ghost rows1 = rows@;
        let ghost t = before.remove(v as int);
        assert(recs_view(s@) =~= t);
        let p = find_place(s, &x, largest);
        s.insert(p, x);
        rows.insert(p, row);
        assert(recs_view(s@) =~= t.insert(p as int, xv));
        proof {
            assert forall|i: int| 0 <= i < rows@.len() implies #[trigger] rows@[i] == row
                || rows0.contains(rows@[i]) by {
                if i != p {
                    let j = if i < p { i } else { i - 1 };
                    assert(rows@[i] == rows1[j]);
                    let k = if j < v { j } else { j + 1 };
                    assert(rows1[j] == rows0[k]);
                }
            }
        }
    } else {
        assert forall|i: int| 0 <= i < rows@.len() implies #[trigger] rows@[i] == row
            || rows0.contains(rows@[i]) by {
            assert(rows0.contains(rows0[i]));
        }
    }
}

/// A row is that of its record.
pub open spec fn row_of(all: Seq<(int, int, int)>, row: TopRow) -> bool {
    &&& row.record < all.len()
    &&& row.start == all[row.record as int].0
    &&& row.raw_end == all[row.record as int].2
}

/// The rows with the best keys, the best first. The numbers are the bits of the
/// numbers in the key column of each record, where the keys are numbers.
pub fn top_n(doc: &Document, opts: &TopOptions, numbers: &Vec<u64>) -> (rows: Vec<TopRow>)
    requires
        doc.wf(),
        opts.numeric ==> numbers@.len() == doc@.records(opts.fields, 0).len(),
    ensures
        ({
            let r = doc@.records(opts.fields, 0);
            let s = kept(record_keys(doc@, *opts, numbers@), opts.n as nat, opts.largest);
            if opts.n == 0 {
                rows@.len() == 0
            } else {
                &&& rows@.len() == s.len()
                &&& forall|i: int|
                    0 <= i < rows@.len() ==> (#[trigger] rows@[i]).record == s[i].1 && row_of(
                        r,
                        rows@[i],
                    )
            }
        }),
{
    let mut rows: Vec<TopRow> = Vec::new();
    if opts.n == 0 {
        return rows;
    }
    let ghost d = doc@;
    let ghost all = d.records(opts.fields, 0);
    let ghost recs = record_keys(d, *opts, numbers@);
    proof {
        doc.lemma_wf();
    }
    let enc = doc.encoding();
    let buf = doc.buf();
    let mut reader = RecordReader::new(doc);
    let mut best: Vec<(Vec<u8>, u64)> = Vec::new();
    let mut k: u64 = 0;
    let mut more = true;
    proof {
        assert(recs.take(0) =~= Seq::<Rec>::empty());
        assert(recs_view(best@) =~= Seq::<Rec>::empty());
        assert(all.skip(0) =~= all);
    }
    while more
        invariant
            doc.wf(),
            d == doc@,
            d.valid(),
            d.count() <= u64::MAX,
            enc == d.encoding,
            buf@ == d.buf,
            all == d.records(opts.fields, 0),
            recs == record_keys(d, *opts, numbers@),
            opts.numeric ==> numbers@.len() == all.len(),
            opts.n > 0,
            reader.wf(d),
            reader.at() <= d.count(),
            k <= reader.at(),
            k <= all.len(),
            d.records(opts.fields, reader.at()) == all.skip(k as int),
            !more ==> k == all.len(),
            recs_view(best@) == kept(recs.take(k as int), opts.n as nat, opts.largest),
            rows@.len() == best@.len(),
            forall|i: int| 0 <= i < best@.len() ==> (#[trigger] rows@[i]).record == best@[i].1,
            forall|i: int| 0 <= i < rows@.len() ==> row_of(all, #[trigger] rows@[i]),
        decreases d.count() - reader.at(), (if more { 1int } else { 0int }),
    {
        match reader.next(doc, &opts.fields) {
            Some(span) => {
                proof {
                    let rest = all.skip(k as int);
                    assert(rest.len() > 0);
                    assert(rest[0] == all[k as int]);
                    assert(rest.drop_first() =~= all.skip(k + 1));
                }
                let len = buf.len();
                let raw = vstd::slice::slice_subrange(
                    buf,
                    span.start as usize,
                    span.text_end as usize,
                );
                let bits = if opts.numeric {
                    let count = numbers.len();
                    numbers[k as usize]
                } else {
                    0
                };
                let key = comparable_key(
                    raw,
                    enc,
                    opts.key_column,
                    &opts.fields,
                    opts.numeric,
                    bits,
                );
                proof {
                    assert(recs[k as int] == (key@, k));
                    let t = recs.take(k + 1);
                    assert(t.drop_last() =~= recs.take(k as int));
                    assert(t.last() == recs[k as int]);
                }
                let row = TopRow { record: k, start: span.start, raw_end: span.raw_end };
                let ghost rows0 = rows@;
                keep(&mut best, &mut rows, (key, k), row, opts.n, opts.largest);
                proof {
                    assert forall|i: int| 0 <= i < rows@.len() implies row_of(
                        all,
                        #[trigger] rows@[i],
                    ) by {
                        if rows@[i] != row {
                            let j = choose|j: int| 0 <= j < rows0.len() && rows0[j] == rows@[i];
                            assert(row_of(all, rows0[j]));
                        }
                    }
                }
                k = k + 1;
            },
            None => {
                assert(all.skip(k as int).len() == 0);
                more = false;
            },
        }
    }
    proof {
        assert(recs.take(recs.len() as int) =~= recs);
        let s = recs_view(best@);
        assert forall|i: int| 0 <= i < rows@.len() implies (#[trigger] rows@[i]).record
            == s[i].1 by {
            assert(s[i] == rec_view(best@[i]));
        }
    }
    rows
}

} // verus!
