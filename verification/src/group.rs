//! Groups of records by a key: how many there are of each, and which numbers
//! they hold.

use vstd::prelude::*;
use vstd::string::*;

use crate::bytes::{extend, same_bytes};
use crate::document::{DocView, Document};
use crate::fields::{
    field_text, find_field, float_before, float_less, key_before, key_less, keys_are_ordered, normalized_text_key, text_key,
    FieldSpec,
};
use crate::records::RecordReader;
use crate::sort::{add_capped, word64, DEFAULT_BUDGET_BYTES};
use crate::sums::{finite, rounded_sum, ExactSum, FRACTION};

verus! {

/// The memory that a group counts for, beside its key.
pub const GROUP_OVERHEAD: usize = 408;

/// How many bytes a group would take on disk besides its key: the length of the key,
/// two counts, two extremes, and the terms of a sum with their number.
pub const GROUP_RECORD: u64 = 357;

/// How to group.
#[derive(Clone, Debug)]
pub struct GroupOptions {
    /// The number of the field to group by, from 1; the whole record if `None`.
    pub key_column: Option<usize>,
    /// The number of the field that holds a number.
    pub value_column: Option<usize>,
    pub fields: FieldSpec,
    /// How much memory the groups that are being collected may use before they
    /// are put aside.
    pub budget_bytes: usize,
    /// Where groups would be spilled; nothing is written there.
    pub spill_dir: String,
}

impl Default for GroupOptions {
    fn default() -> (o: GroupOptions)
        ensures
            o.key_column is None,
            o.value_column is None,
            o.fields == (FieldSpec { delimiter: 44, quote: 34, csv: false }),
            o.budget_bytes == DEFAULT_BUDGET_BYTES,
            o.spill_dir@ == "ayame-group"@,
    {
        GroupOptions {
            key_column: None,
            value_column: None,
            fields: FieldSpec { delimiter: 44, quote: 34, csv: false },
            budget_bytes: DEFAULT_BUDGET_BYTES,
            spill_dir: "ayame-group".to_owned(),
        }
    }
}

/// What is kept of the numbers of a group, whatever their number: how many
/// there are, their sum, and the least and the greatest of them.
pub struct Numbers {
    count: u64,
    sum: ExactSum,
    least: Option<u64>,
    greatest: Option<u64>,
    seen: Ghost<Seq<u64>>,
}

pub open spec fn all_finite(values: Seq<u64>) -> bool {
    forall|i: int| 0 <= i < values.len() ==> finite(#[trigger] values[i])
}

/// No value comes before (after, for `most`) this one, which is one of them.
pub open spec fn is_extreme(values: Seq<u64>, r: Option<u64>, most: bool) -> bool {
    match r {
        Some(m) => {
            &&& values.contains(m)
            &&& forall|i: int|
                0 <= i < values.len() ==> !if most {
                    float_less(m, #[trigger] values[i])
                } else {
                    float_less(values[i], m)
                }
        },
        None => values.len() == 0,
    }
}

impl Numbers {
    /// The numbers, in the order of their records.
    pub closed spec fn values(self) -> Seq<u64> {
        self.seen@
    }

    #[verifier::type_invariant]
    spec fn inv(self) -> bool {
        &&& self.count == self.seen@.len()
        &&& self.sum.wf()
        &&& all_finite(self.seen@) ==> self.sum.sums(self.seen@)
        &&& is_extreme(self.seen@, self.least, false)
        &&& is_extreme(self.seen@, self.greatest, true)
    }

    pub fn new() -> (n: Numbers)
        ensures
            n.values() == Seq::<u64>::empty(),
    {
        Numbers {
            count: 0,
            sum: ExactSum::new(),
            least: None,
            greatest: None,
            seen: Ghost(Seq::empty()),
        }
    }

    pub fn copy(&self) -> (n: Numbers)
        ensures
            n.values() == self.values(),
    {
        proof {
            use_type_invariant(self);
        }
        Numbers {
            count: self.count,
            sum: self.sum.copy(),
            least: self.least,
            greatest: self.greatest,
            seen: Ghost(self.seen@),
        }
    }

    /// One number more.
    pub fn with(self, bits: u64) -> (n: Numbers)
        requires
            self.values().len() < u64::MAX,
        ensures
            n.values() == self.values().push(bits),
    {
        let ghost before = self.seen@;
        let ghost after = before.push(bits);
        proof {
            use_type_invariant(&self);
            lemma_finite_push(before, bits);
            lemma_extreme_push(before, self.least, bits, false);
            lemma_extreme_push(before, self.greatest, bits, true);
        }
        let count = self.count + 1;
        let least = further(self.least, bits, false);
        let greatest = further(self.greatest, bits, true);
        let mut sum = self.sum;
        if (bits / FRACTION) % 2048 < 2047 {
            sum.add(bits);
            assert(all_finite(after) ==> sum.sums(after));
        }
        Numbers { count, sum, least, greatest, seen: Ghost(after) }
    }

    /// The numbers of two parts of a group.
    pub fn joined(self, other: &Numbers) -> (n: Numbers)
        requires
            self.values().len() + other.values().len() <= u64::MAX,
        ensures
            n.values() == self.values() + other.values(),
    {
        let ghost (a, b) = (self.seen@, other.seen@);
        proof {
            use_type_invariant(&self);
            use_type_invariant(other);
            lemma_finite_concat(a, b);
            lemma_extreme_concat(a, self.least, b, other.least, false);
            lemma_extreme_concat(a, self.greatest, b, other.greatest, true);
        }
        let count = self.count + other.count;
        let least = match other.least {
            Some(x) => further(self.least, x, false),
            None => self.least,
        };
        let greatest = match other.greatest {
            Some(x) => further(self.greatest, x, true),
            None => self.greatest,
        };
        let mut sum = self.sum;
        sum.combine(&other.sum);
        Numbers { count, sum, least, greatest, seen: Ghost(a + b) }
    }
}

/// The one of two that is less, or greater for `most`.
spec fn further_of(r: Option<u64>, x: u64, most: bool) -> Option<u64> {
    match r {
        None => Some(x),
        Some(m) => if if most {
            float_less(m, x)
        } else {
            float_less(x, m)
        } {
            Some(x)
        } else {
            Some(m)
        },
    }
}

fn further(r: Option<u64>, x: u64, most: bool) -> (f: Option<u64>)
    ensures
        f == further_of(r, x, most),
{
    match r {
        None => Some(x),
        Some(m) => {
            let over = if most {
                float_before(m, x)
            } else {
                float_before(x, m)
            };
            if over {
                Some(x)
            } else {
                Some(m)
            }
        },
    }
}

proof fn lemma_finite_push(a: Seq<u64>, x: u64)
    ensures
        all_finite(a.push(x)) <==> all_finite(a) && finite(x),
{
    lemma_finite_concat(a, seq![x]);
    assert(a.push(x) =~= a + seq![x]);
    assert(seq![x][0] == x);
}

proof fn lemma_finite_concat(a: Seq<u64>, b: Seq<u64>)
    ensures
        all_finite(a + b) <==> all_finite(a) && all_finite(b),
{
    let c = a + b;
    if all_finite(c) {
        assert forall|i: int| 0 <= i < a.len() implies finite(#[trigger] a[i]) by {
            assert(c[i] == a[i]);
        }
        assert forall|i: int| 0 <= i < b.len() implies finite(#[trigger] b[i]) by {
            assert(c[a.len() + i] == b[i]);
        }
    }
}

proof fn lemma_extreme_push(a: Seq<u64>, r: Option<u64>, x: u64, most: bool)
    requires
        is_extreme(a, r, most),
    ensures
        is_extreme(a.push(x), further_of(r, x, most), most),
{
    assert(a.push(x) =~= a + seq![x]);
    assert(seq![x][0] == x);
    assert(is_extreme(seq![x], Some(x), most));
    lemma_extreme_concat(a, r, seq![x], Some(x), most);
}

proof fn lemma_extreme_concat(
    a: Seq<u64>,
    r: Option<u64>,
    b: Seq<u64>,
    s: Option<u64>,
    most: bool,
)
    requires
        is_extreme(a, r, most),
        is_extreme(b, s, most),
    ensures
        is_extreme(
            a + b,
            match s {
                Some(x) => further_of(r, x, most),
                None => r,
            },
            most,
        ),
{
    let c = a + b;
    if s is None {
        assert(c =~= a);
    } else if r is None {
        assert(c =~= b);
    } else {
        let (m, x) = (r->Some_0, s->Some_0);
        let i = choose|i: int| 0 <= i < a.len() && a[i] == m;
        let j = choose|j: int| 0 <= j < b.len() && b[j] == x;
        assert(c[i] == m && c[a.len() + j] == x);
        let f = further_of(r, x, most)->Some_0;
        assert(c.contains(f));
        assert forall|k: int| 0 <= k < c.len() implies !if most {
            float_less(f, #[trigger] c[k])
        } else {
            float_less(c[k], f)
        } by {
            if k < a.len() {
                assert(c[k] == a[k]);
            } else {
                assert(c[k] == b[k - a.len()]);
            }
        }
    }
}

/// A group: its key, how many records it has, and what is kept of the numbers
/// in them.
pub struct GroupRow {
    pub key: Vec<u8>,
    pub count: u64,
    pub numbers: Numbers,
}

#[verifier::ext_equal]
pub struct RowView {
    pub key: Seq<u8>,
    pub count: nat,
    pub values: Seq<u64>,
}

impl View for GroupRow {
    type V = RowView;

    open spec fn view(&self) -> RowView {
        RowView { key: self.key@, count: self.count as nat, values: self.numbers.values() }
    }
}

impl GroupRow {
    /// How many records of the group hold a number.
    pub fn numeric_count(&self) -> (n: u64)
        ensures
            n == self@.values.len(),
    {
        proof {
            use_type_invariant(&self.numbers);
        }
        self.numbers.count
    }

    /// The numbers of the group are finite.
    pub open spec fn counts(&self) -> bool {
        all_finite(self@.values)
    }

    /// The bits of the sum of the numbers, rounded once.
    pub fn sum(&self) -> (bits: u64)
        requires
            self.counts(),
        ensures
            bits == rounded_sum(self@.values),
    {
        proof {
            use_type_invariant(&self.numbers);
        }
        self.numbers.sum.value()
    }

    /// The bits of the least of the numbers.
    pub fn min(&self) -> (r: Option<u64>)
        ensures
            match r {
                Some(m) => {
                    &&& self@.values.contains(m)
                    &&& forall|i: int|
                        0 <= i < self@.values.len() ==> !float_less(#[trigger] self@.values[i], m)
                },
                None => self@.values.len() == 0,
            },
    {
        proof {
            use_type_invariant(&self.numbers);
        }
        self.numbers.least
    }

    /// The bits of the greatest of the numbers.
    pub fn max(&self) -> (r: Option<u64>)
        ensures
            match r {
                Some(m) => {
                    &&& self@.values.contains(m)
                    &&& forall|i: int|
                        0 <= i < self@.values.len() ==> !float_less(m, #[trigger] self@.values[i])
                },
                None => self@.values.len() == 0,
            },
    {
        proof {
            use_type_invariant(&self.numbers);
        }
        self.numbers.greatest
    }
}

pub open spec fn rows_view(v: Seq<GroupRow>) -> Seq<RowView> {
    v.map_values(|r: GroupRow| r@)
}

/// Numbers about a grouping. The groups that are put aside stay in memory and
/// nothing is written to disk: `runs` and `spill_bytes` say what a spill of
/// them would come to.
#[derive(Clone, Copy, Debug, PartialEq, Eq, Structural)]
pub struct GroupStats {
    pub groups: u64,
    /// How many runs the groups would make that were put aside.
    pub runs: usize,
    /// How many bytes these runs would take.
    pub spill_bytes: u64,
}

/// The bits of a number that counts: not of one that is infinite or none.
pub fn finite_bits(parsed: Option<u64>) -> (r: Option<u64>)
    ensures
        r == match parsed {
            Some(b) => if finite(b) {
                Some(b)
            } else {
                None
            },
            None => None,
        },
{
    match parsed {
        Some(b) => if (b / FRACTION) % 2048 < 2047 {
            Some(b)
        } else {
            None
        },
        None => None,
    }
}

// ---- what groups are ---------------------------------------------------------

/// How many of the records from `a` up to `b` have a key.
pub open spec fn count_in(keys: Seq<Seq<u8>>, k: Seq<u8>, a: int, b: int) -> nat
    decreases b - a,
{
    if a >= b {
        0
    } else {
        count_in(keys, k, a, b - 1) + if keys[b - 1] == k { 1nat } else { 0nat }
    }
}

/// The numbers in those of the records from `a` up to `b` that have a key.
pub open spec fn values_in(
    keys: Seq<Seq<u8>>,
    vals: Seq<Option<u64>>,
    k: Seq<u8>,
    a: int,
    b: int,
) -> Seq<u64>
    decreases b - a,
{
    if a >= b {
        Seq::empty()
    } else {
        let before = values_in(keys, vals, k, a, b - 1);
        match vals[b - 1] {
            Some(v) if keys[b - 1] == k => before.push(v),
            _ => before,
        }
    }
}

pub open spec fn ascending(rows: Seq<RowView>) -> bool {
    forall|i: int, j: int|
        0 <= i < j < rows.len() ==> key_less((#[trigger] rows[i]).key, (#[trigger] rows[j]).key)
}

pub open spec fn has_key(rows: Seq<RowView>, k: Seq<u8>) -> bool {
    exists|i: int| 0 <= i < rows.len() && (#[trigger] rows[i]).key == k
}

/// The groups of the records from `a` up to `b`, in the order of their keys.
pub open spec fn groups_of(
    rows: Seq<RowView>,
    keys: Seq<Seq<u8>>,
    vals: Seq<Option<u64>>,
    a: int,
    b: int,
) -> bool {
    &&& ascending(rows)
    &&& forall|i: int|
        0 <= i < rows.len() ==> {
            let r = #[trigger] rows[i];
            &&& r.count == count_in(keys, r.key, a, b)
            &&& r.count > 0
            &&& r.values == values_in(keys, vals, r.key, a, b)
        }
    &&& forall|i: int| a <= i < b ==> has_key(rows, #[trigger] keys[i])
}

proof fn lemma_count_positive(keys: Seq<Seq<u8>>, k: Seq<u8>, a: int, b: int)
    requires
        a <= b,
    ensures
        count_in(keys, k, a, b) <= b - a,
        count_in(keys, k, a, b) > 0 <==> exists|i: int| a <= i < b && #[trigger] keys[i] == k,
        count_in(keys, k, a, b) == 0 ==> forall|vals: Seq<Option<u64>>|
            #[trigger] values_in(keys, vals, k, a, b) == Seq::<u64>::empty(),
    decreases b - a,
{
    if a < b {
        lemma_count_positive(keys, k, a, b - 1);
        if keys[b - 1] == k {
            assert(a <= b - 1 < b && keys[b - 1] == k);
        } else if count_in(keys, k, a, b - 1) > 0 {
            let i = choose|i: int| a <= i < b - 1 && #[trigger] keys[i] == k;
            assert(a <= i < b && keys[i] == k);
        }
        if count_in(keys, k, a, b) == 0 {
            assert forall|vals: Seq<Option<u64>>| #[trigger] values_in(keys, vals, k, a, b)
                == Seq::<u64>::empty() by {
                assert(values_in(keys, vals, k, a, b - 1) == Seq::<u64>::empty());
            }
        }
    }
}

/// No more records hold a number than there are.
proof fn lemma_fewer_values(
    keys: Seq<Seq<u8>>,
    vals: Seq<Option<u64>>,
    k: Seq<u8>,
    a: int,
    b: int,
)
    requires
        a <= b,
    ensures
        values_in(keys, vals, k, a, b).len() <= count_in(keys, k, a, b),
    decreases b - a,
{
    if a < b {
        lemma_fewer_values(keys, vals, k, a, b - 1);
    }
}

proof fn lemma_split_counts(
    keys: Seq<Seq<u8>>,
    vals: Seq<Option<u64>>,
    k: Seq<u8>,
    a: int,
    b: int,
    c: int,
)
    requires
        a <= b <= c,
    ensures
        count_in(keys, k, a, c) == count_in(keys, k, a, b) + count_in(keys, k, b, c),
        values_in(keys, vals, k, a, c) == values_in(keys, vals, k, a, b) + values_in(
            keys,
            vals,
            k,
            b,
            c,
        ),
    decreases c - b,
{
    let whole = values_in(keys, vals, k, a, c);
    let left = values_in(keys, vals, k, a, b);
    if b == c {
        assert(whole =~= left + values_in(keys, vals, k, b, c));
    } else {
        lemma_split_counts(keys, vals, k, a, b, c - 1);
        assert(whole =~= left + values_in(keys, vals, k, b, c));
    }
}

/// The number of records in all groups.
pub open spec fn grouped_records(rows: Seq<RowView>) -> nat
    decreases rows.len(),
{
    if rows.len() == 0 {
        0
    } else {
        grouped_records(rows.drop_last()) + rows.last().count
    }
}

/// How many of the records from `a` up to `c` have the key of some group.
spec fn records_with_keys(rows: Seq<RowView>, keys: Seq<Seq<u8>>, a: int, c: int) -> nat
    decreases rows.len(),
{
    if rows.len() == 0 {
        0
    } else {
        records_with_keys(rows.drop_last(), keys, a, c) + count_in(keys, rows.last().key, a, c)
    }
}

proof fn lemma_one_more_record(rows: Seq<RowView>, keys: Seq<Seq<u8>>, a: int, c: int)
    requires
        a < c,
        ascending(rows),
    ensures
        records_with_keys(rows, keys, a, c) == records_with_keys(rows, keys, a, c - 1) + if has_key(
            rows,
            keys[c - 1],
        ) {
            1nat
        } else {
            0
        },
    decreases rows.len(),
{
    if rows.len() > 0 {
        let head = rows.drop_last();
        let k = keys[c - 1];
        let n = rows.len() - 1;
        assert forall|i: int, j: int| 0 <= i < j < head.len() implies key_less(
            (#[trigger] head[i]).key,
            (#[trigger] head[j]).key,
        ) by {
            assert(key_less(rows[i].key, rows[j].key));
        }
        lemma_one_more_record(head, keys, a, c);
        if has_key(head, k) {
            let i = choose|i: int| 0 <= i < head.len() && (#[trigger] head[i]).key == k;
            assert(rows[i].key == k);
            assert(key_less(rows[i].key, rows[n].key));
            keys_are_ordered(k, k, k);
        }
        if has_key(rows, k) {
            let i = choose|i: int| 0 <= i < rows.len() && (#[trigger] rows[i]).key == k;
            if i < n {
                assert(head[i].key == k);
            }
        }
        if rows[n].key == k {
            assert(has_key(rows, k));
        }
    }
}

proof fn lemma_all_records(rows: Seq<RowView>, keys: Seq<Seq<u8>>, a: int, c: int)
    requires
        a <= c,
        ascending(rows),
        forall|i: int| a <= i < c ==> has_key(rows, #[trigger] keys[i]),
    ensures
        records_with_keys(rows, keys, a, c) == c - a,
    decreases c - a,
{
    if a < c {
        lemma_all_records(rows, keys, a, c - 1);
        lemma_one_more_record(rows, keys, a, c);
        assert(has_key(rows, keys[c - 1]));
    } else {
        lemma_no_records(rows, keys, a);
    }
}

proof fn lemma_no_records(rows: Seq<RowView>, keys: Seq<Seq<u8>>, a: int)
    ensures
        records_with_keys(rows, keys, a, a) == 0,
    decreases rows.len(),
{
    if rows.len() > 0 {
        lemma_no_records(rows.drop_last(), keys, a);
    }
}

proof fn lemma_counts_of(rows: Seq<RowView>, keys: Seq<Seq<u8>>, a: int, b: int)
    requires
        forall|i: int|
            0 <= i < rows.len() ==> (#[trigger] rows[i]).count == count_in(keys, rows[i].key, a, b),
    ensures
        grouped_records(rows) == records_with_keys(rows, keys, a, b),
    decreases rows.len(),
{
    if rows.len() > 0 {
        let head = rows.drop_last();
        assert forall|i: int| 0 <= i < head.len() implies (#[trigger] head[i]).count == count_in(
            keys,
            head[i].key,
            a,
            b,
        ) by {
            assert(head[i] == rows[i]);
        }
        lemma_counts_of(head, keys, a, b);
        assert(rows[rows.len() - 1].count == count_in(keys, rows[rows.len() - 1].key, a, b));
    }
}

/// Every record is in one group: the counts of all groups add up to the number
/// of records.
pub proof fn counts_add_up(
    rows: Seq<RowView>,
    keys: Seq<Seq<u8>>,
    vals: Seq<Option<u64>>,
    a: int,
    b: int,
)
    requires
        a <= b,
        groups_of(rows, keys, vals, a, b),
    ensures
        grouped_records(rows) == b - a,
{
    lemma_counts_of(rows, keys, a, b);
    lemma_all_records(rows, keys, a, b);
}

/// There is one way to group records: whatever was spilled, the same groups
/// come out.
pub proof fn the_groups_are_unique(
    x: Seq<RowView>,
    y: Seq<RowView>,
    keys: Seq<Seq<u8>>,
    vals: Seq<Option<u64>>,
    a: int,
    b: int,
)
    requires
        a <= b,
        groups_of(x, keys, vals, a, b),
        groups_of(y, keys, vals, a, b),
    ensures
        x == y,
{
    lemma_same_groups(x, y, keys, vals, a, b, 0);
    assert(x =~= y);
}

proof fn lemma_same_groups(
    x: Seq<RowView>,
    y: Seq<RowView>,
    keys: Seq<Seq<u8>>,
    vals: Seq<Option<u64>>,
    a: int,
    b: int,
    n: int,
)
    requires
        a <= b,
        groups_of(x, keys, vals, a, b),
        groups_of(y, keys, vals, a, b),
        0 <= n,
        n <= x.len() || n <= y.len(),
        forall|i: int| 0 <= i < n && i < x.len() && i < y.len() ==> x[i] == y[i],
        n <= x.len() && n <= y.len(),
    ensures
        x.len() == y.len(),
        forall|i: int| 0 <= i < x.len() ==> x[i] == y[i],
    decreases x.len() + y.len() - n,
{
    if n < x.len() {
        // The next key of one is a key of the other, and not one of those before.
        let kx = x[n].key;
        lemma_count_positive(keys, kx, a, b);
        let i = choose|i: int| a <= i < b && #[trigger] keys[i] == kx;
        assert(has_key(y, keys[i]));
        let j = choose|j: int| 0 <= j < y.len() && (#[trigger] y[j]).key == kx;
        if j < n {
            assert(x[j] == y[j]);
            assert(key_less(x[j].key, x[n].key));
            keys_are_ordered(kx, kx, kx);
        }
        assert(n < y.len());
        let ky = y[n].key;
        lemma_count_positive(keys, ky, a, b);
        let p = choose|p: int| a <= p < b && #[trigger] keys[p] == ky;
        assert(has_key(x, keys[p]));
        let q = choose|q: int| 0 <= q < x.len() && (#[trigger] x[q]).key == ky;
        if q < n {
            assert(x[q] == y[q]);
            assert(key_less(y[q].key, y[n].key));
            keys_are_ordered(ky, ky, ky);
        }
        if j > n {
            assert(key_less(y[n].key, y[j].key));
        }
        if q > n {
            assert(key_less(x[n].key, x[q].key));
        }
        keys_are_ordered(kx, ky, kx);
        assert(kx == ky);
        assert(x[n] =~= y[n]);
        lemma_same_groups(x, y, keys, vals, a, b, n + 1);
    } else if n < y.len() {
        let ky = y[n].key;
        lemma_count_positive(keys, ky, a, b);
        let p = choose|p: int| a <= p < b && #[trigger] keys[p] == ky;
        assert(has_key(x, keys[p]));
        let q = choose|q: int| 0 <= q < x.len() && (#[trigger] x[q]).key == ky;
        assert(x[q] == y[q]);
        assert(key_less(y[q].key, y[n].key));
        keys_are_ordered(ky, ky, ky);
    }
}

// ---- adding a record ---------------------------------------------------------

fn copy_row(r: &GroupRow) -> (c: GroupRow)
    ensures
        c@ == r@,
{
    let mut key: Vec<u8> = Vec::new();
    extend(&mut key, r.key.as_slice());
    assert(key@ =~= r.key@);
    GroupRow { key, count: r.count, numbers: r.numbers.copy() }
}

/// Where the groups begin whose keys are not below a key.
fn find_group(rows: &Vec<GroupRow>, key: &[u8]) -> (p: usize)
    requires
        ascending(rows_view(rows@)),
    ensures
        p <= rows@.len(),
        forall|i: int| 0 <= i < p ==> key_less((#[trigger] rows_view(rows@)[i]).key, key@),
        forall|i: int|
            p <= i < rows@.len() ==> !key_less((#[trigger] rows_view(rows@)[i]).key, key@),
{
    let ghost v = rows_view(rows@);
    let mut lo: usize = 0;
    let mut hi: usize = rows.len();
    while lo < hi
        invariant
            v == rows_view(rows@),
            ascending(v),
            lo <= hi <= rows@.len(),
            forall|i: int| 0 <= i < lo ==> key_less((#[trigger] v[i]).key, key@),
            forall|i: int| hi <= i < v.len() ==> !key_less((#[trigger] v[i]).key, key@),
        decreases hi - lo,
    {
        let mid = lo + (hi - lo) / 2;
        assert(v[mid as int] == rows@[mid as int]@);
        if key_before(rows[mid].key.as_slice(), key) {
            assert forall|i: int| 0 <= i < mid + 1 implies key_less(
                (#[trigger] v[i]).key,
                key@,
            ) by {
                if i < mid {
                    assert(key_less(v[i].key, v[mid as int].key));
                    keys_are_ordered(v[i].key, v[mid as int].key, key@);
                }
            }
            lo = mid + 1;
        } else {
            assert forall|i: int| mid <= i < v.len() implies !key_less(
                (#[trigger] v[i]).key,
                key@,
            ) by {
                if i > mid {
                    assert(key_less(v[mid as int].key, v[i].key));
                    keys_are_ordered(v[mid as int].key, v[i].key, key@);
                }
            }
            hi = mid;
        }
    }
    lo
}

/// The groups with one more record of a group that there is.
proof fn lemma_grown(
    rows: Seq<RowView>,
    now: Seq<RowView>,
    keys: Seq<Seq<u8>>,
    vals: Seq<Option<u64>>,
    a: int,
    b: int,
    p: int,
)
    requires
        a <= b,
        groups_of(rows, keys, vals, a, b),
        0 <= p < rows.len(),
        rows[p].key == keys[b],
        now == rows.update(
            p,
            RowView {
                key: rows[p].key,
                count: rows[p].count + 1,
                values: match vals[b] {
                    Some(v) => rows[p].values.push(v),
                    None => rows[p].values,
                },
            },
        ),
    ensures
        groups_of(now, keys, vals, a, b + 1),
{
    assert forall|i: int, j: int| 0 <= i < j < now.len() implies key_less(
        (#[trigger] now[i]).key,
        (#[trigger] now[j]).key,
    ) by {
        assert(now[i].key == rows[i].key && now[j].key == rows[j].key);
    }
    assert forall|i: int| 0 <= i < now.len() implies {
        let r = #[trigger] now[i];
        &&& r.count == count_in(keys, r.key, a, b + 1)
        &&& r.count > 0
        &&& r.values == values_in(keys, vals, r.key, a, b + 1)
    } by {
        assert(now[i].key == rows[i].key);
        if i != p {
            keys_are_ordered(rows[i].key, rows[p].key, rows[i].key);
            if i < p {
                assert(key_less(rows[i].key, rows[p].key));
            } else {
                assert(key_less(rows[p].key, rows[i].key));
            }
            keys_are_ordered(rows[p].key, rows[p].key, rows[p].key);
        }
    }
    assert forall|i: int| a <= i < b + 1 implies has_key(now, #[trigger] keys[i]) by {
        if i < b {
            assert(has_key(rows, keys[i]));
            let j = choose|j: int| 0 <= j < rows.len() && (#[trigger] rows[j]).key == keys[i];
            assert(now[j].key == keys[i]);
        } else {
            assert(now[p].key == keys[b]);
        }
    }
}

/// The groups with one record of a group that there was not.
proof fn lemma_joined(
    rows: Seq<RowView>,
    now: Seq<RowView>,
    keys: Seq<Seq<u8>>,
    vals: Seq<Option<u64>>,
    a: int,
    b: int,
    p: int,
)
    requires
        a <= b,
        groups_of(rows, keys, vals, a, b),
        0 <= p <= rows.len(),
        forall|i: int| 0 <= i < p ==> key_less((#[trigger] rows[i]).key, keys[b]),
        forall|i: int|
            p <= i < rows.len() ==> !key_less((#[trigger] rows[i]).key, keys[b]) && rows[i].key
                != keys[b],
        now == rows.insert(
            p,
            RowView {
                key: keys[b],
                count: 1,
                values: match vals[b] {
                    Some(v) => seq![v],
                    None => Seq::empty(),
                },
            },
        ),
    ensures
        groups_of(now, keys, vals, a, b + 1),
        !has_key(rows, keys[b]),
{
    let k = keys[b];
    assert(!has_key(rows, k)) by {
        if has_key(rows, k) {
            let i = choose|i: int| 0 <= i < rows.len() && (#[trigger] rows[i]).key == k;
            keys_are_ordered(k, k, k);
        }
    }
    assert(count_in(keys, k, a, b) == 0) by {
        lemma_count_positive(keys, k, a, b);
        if count_in(keys, k, a, b) > 0 {
            let i = choose|i: int| a <= i < b && #[trigger] keys[i] == k;
            assert(has_key(rows, keys[i]));
        }
    }
    lemma_count_positive(keys, k, a, b);
    assert(values_in(keys, vals, k, a, b) =~= Seq::<u64>::empty());
    assert(now[p].values =~= values_in(keys, vals, k, a, b + 1));
    assert forall|i: int, j: int| 0 <= i < j < now.len() implies key_less(
        (#[trigger] now[i]).key,
        (#[trigger] now[j]).key,
    ) by {
        let x = if i < p { i } else { i - 1 };
        let y = if j < p { j } else { j - 1 };
        if i == p {
            assert(now[j] == rows[y]);
            keys_are_ordered(rows[y].key, k, k);
        } else if j == p {
            assert(now[i] == rows[i]);
        } else {
            assert(now[i] == rows[x] && now[j] == rows[y]);
        }
    }
    assert forall|i: int| 0 <= i < now.len() implies {
        let r = #[trigger] now[i];
        &&& r.count == count_in(keys, r.key, a, b + 1)
        &&& r.count > 0
        &&& r.values == values_in(keys, vals, r.key, a, b + 1)
    } by {
        if i != p {
            let x = if i < p { i } else { i - 1 };
            assert(now[i] == rows[x]);
            assert(rows[x].key != k);
        }
    }
    assert forall|i: int| a <= i < b + 1 implies has_key(now, #[trigger] keys[i]) by {
        if i < b {
            assert(has_key(rows, keys[i]));
            let j = choose|j: int| 0 <= j < rows.len() && (#[trigger] rows[j]).key == keys[i];
            assert(now[if j < p { j } else { j + 1 }].key == keys[i]);
        } else {
            assert(now[p].key == keys[b]);
        }
    }
}

/// Adds a record to the groups; whether its group is new.
fn add_record(
    rows: &mut Vec<GroupRow>,
    key: Vec<u8>,
    value: Option<u64>,
    Ghost(keys): Ghost<Seq<Seq<u8>>>,
    Ghost(vals): Ghost<Seq<Option<u64>>>,
    Ghost(a): Ghost<int>,
    Ghost(b): Ghost<int>,
) -> (fresh: bool)
    requires
        groups_of(rows_view(old(rows)@), keys, vals, a, b),
        a <= b,
        b - a < u64::MAX,
        keys[b] == key@,
        vals[b] == value,
    ensures
        groups_of(rows_view(final(rows)@), keys, vals, a, b + 1),
        fresh == !has_key(rows_view(old(rows)@), key@),
{
    let ghost v = rows_view(rows@);
    let p = find_group(rows, key.as_slice());
    let n = rows.len();
    proof {
        lemma_count_positive(keys, key@, a, b);
    }
    if p < n && same_bytes(rows[p].key.as_slice(), key.as_slice()) {
        assert(v[p as int] == rows@[p as int]@);
        let row = copy_row(&rows[p]);
        proof {
            lemma_count_positive(keys, v[p as int].key, a, b);
            lemma_fewer_values(keys, vals, v[p as int].key, a, b);
        }
        let numbers = match value {
            Some(x) => row.numbers.with(x),
            None => row.numbers,
        };
        let row = GroupRow { key: row.key, count: row.count + 1, numbers };
        let ghost rv = row@;
        rows.set(p, row);
        proof {
            let now = rows_view(rows@);
            assert(now =~= v.update(p as int, rv));
            lemma_grown(v, now, keys, vals, a, b, p as int);
        }
        return false;
    }
    let numbers = match value {
        Some(x) => Numbers::new().with(x),
        None => Numbers::new(),
    };
    proof {
        assert forall|i: int| p <= i < v.len() implies !key_less(
            (#[trigger] v[i]).key,
            key@,
        ) && v[i].key != key@ by {
            assert(v[p as int] == rows@[p as int]@);
            if i > p {
                assert(key_less(v[p as int].key, v[i].key));
                keys_are_ordered(v[p as int].key, v[i].key, key@);
            }
        }
    }
    let row = GroupRow { key, count: 1, numbers };
    let ghost rv = row@;
    rows.insert(p, row);
    proof {
        let now = rows_view(rows@);
        assert(now =~= v.insert(p as int, rv));
        assert(rv.values =~= match value {
            Some(x) => seq![x],
            None => Seq::<u64>::empty(),
        });
        lemma_joined(v, now, keys, vals, a, b, p as int);
    }
    true
}

// ---- putting spilled groups together -----------------------------------------

/// What comes next of two lists of groups: the lower key, and what both have of
/// it.
spec fn partial(
    out: Seq<RowView>,
    x: Seq<RowView>,
    y: Seq<RowView>,
    i: int,
    j: int,
) -> bool {
    &&& 0 <= i <= x.len()
    &&& 0 <= j <= y.len()
    &&& ascending(out)
    &&& forall|k: int, m: int|
        0 <= k < out.len() && i <= m < x.len() ==> key_less(
            (#[trigger] out[k]).key,
            (#[trigger] x[m]).key,
        )
    &&& forall|k: int, m: int|
        0 <= k < out.len() && j <= m < y.len() ==> key_less(
            (#[trigger] out[k]).key,
            (#[trigger] y[m]).key,
        )
    &&& forall|m: int| 0 <= m < i ==> has_key(out, (#[trigger] x[m]).key)
    &&& forall|m: int| 0 <= m < j ==> has_key(out, (#[trigger] y[m]).key)
}

proof fn lemma_pushed(out: Seq<RowView>, r: RowView)
    ensures
        forall|k: Seq<u8>| has_key(out, k) ==> #[trigger] has_key(out.push(r), k),
        has_key(out.push(r), r.key),
{
    let now = out.push(r);
    assert forall|k: Seq<u8>| has_key(out, k) implies #[trigger] has_key(now, k) by {
        let i = choose|i: int| 0 <= i < out.len() && (#[trigger] out[i]).key == k;
        assert(now[i].key == k);
    }
    assert(now[out.len() as int].key == r.key);
}

/// A key that a list of groups does not have, nobody has.
proof fn lemma_absent(
    rows: Seq<RowView>,
    keys: Seq<Seq<u8>>,
    vals: Seq<Option<u64>>,
    a: int,
    b: int,
    k: Seq<u8>,
)
    requires
        a <= b,
        groups_of(rows, keys, vals, a, b),
        !has_key(rows, k),
    ensures
        count_in(keys, k, a, b) == 0,
        values_in(keys, vals, k, a, b) == Seq::<u64>::empty(),
{
    lemma_count_positive(keys, k, a, b);
    if count_in(keys, k, a, b) > 0 {
        let i = choose|i: int| a <= i < b && #[trigger] keys[i] == k;
        assert(has_key(rows, keys[i]));
    }
}

spec fn right_rows(
    out: Seq<RowView>,
    keys: Seq<Seq<u8>>,
    vals: Seq<Option<u64>>,
    a: int,
    c: int,
) -> bool {
    forall|i: int|
        0 <= i < out.len() ==> {
            let r = #[trigger] out[i];
            &&& r.count == count_in(keys, r.key, a, c)
            &&& r.count > 0
            &&& r.values == values_in(keys, vals, r.key, a, c)
        }
}

/// Puts the groups of records together with those of the records after them.
#[verifier::rlimit(100)]
fn merge_rows(
    x: &Vec<GroupRow>,
    y: &Vec<GroupRow>,
    Ghost(keys): Ghost<Seq<Seq<u8>>>,
    Ghost(vals): Ghost<Seq<Option<u64>>>,
    Ghost(a): Ghost<int>,
    Ghost(b): Ghost<int>,
    Ghost(c): Ghost<int>,
) -> (out: Vec<GroupRow>)
    requires
        a <= b <= c,
        c - a <= u64::MAX,
        groups_of(rows_view(x@), keys, vals, a, b),
        groups_of(rows_view(y@), keys, vals, b, c),
    ensures
        groups_of(rows_view(out@), keys, vals, a, c),
{
    let ghost xv = rows_view(x@);
    let ghost yv = rows_view(y@);
    let mut out: Vec<GroupRow> = Vec::new();
    let mut i: usize = 0;
    let mut j: usize = 0;
    assert(rows_view(out@) =~= Seq::<RowView>::empty());
    while i < x.len() || j < y.len()
        invariant
            a <= b <= c,
            c - a <= u64::MAX,
            xv == rows_view(x@),
            yv == rows_view(y@),
            groups_of(xv, keys, vals, a, b),
            groups_of(yv, keys, vals, b, c),
            i <= x@.len(),
            j <= y@.len(),
            partial(rows_view(out@), xv, yv, i as int, j as int),
            right_rows(rows_view(out@), keys, vals, a, c),
        decreases x.len() - i + y.len() - j,
    {
        let ghost o = rows_view(out@);
        let take_x = j >= y.len() || (i < x.len() && !key_before(
            y[j].key.as_slice(),
            x[i].key.as_slice(),
        ));
        let take_y = i >= x.len() || (j < y.len() && !key_before(
            x[i].key.as_slice(),
            y[j].key.as_slice(),
        ));
        proof {
            if i < x@.len() && j < y@.len() {
                keys_are_ordered(x@[i as int].key@, y@[j as int].key@, x@[i as int].key@);
            }
        }
        let row = if take_x && take_y {
            proof {
                assert(xv[i as int] == x@[i as int]@);
                assert(yv[j as int] == y@[j as int]@);
                let (kx, ky) = (xv[i as int].key, yv[j as int].key);
                keys_are_ordered(kx, ky, kx);
                lemma_split_counts(keys, vals, kx, a, b, c);
                lemma_count_positive(keys, kx, a, c);
                lemma_fewer_values(keys, vals, kx, a, c);
            }
            let row = copy_row(&x[i]);
            let numbers = row.numbers.joined(&y[j].numbers);
            GroupRow { key: row.key, count: row.count + y[j].count, numbers }
        } else if take_x {
            proof {
                assert(xv[i as int] == x@[i as int]@);
                let kx = xv[i as int].key;
                assert(!has_key(yv, kx)) by {
                    if has_key(yv, kx) {
                        let m = choose|m: int| 0 <= m < yv.len() && (#[trigger] yv[m]).key == kx;
                        keys_are_ordered(kx, kx, kx);
                        if m < j {
                            assert(has_key(o, yv[m].key));
                            let k = choose|k: int| 0 <= k < o.len() && (#[trigger] o[k]).key == kx;
                            assert(key_less(o[k].key, xv[i as int].key));
                        } else {
                            assert(yv[j as int] == y@[j as int]@);
                            if m > j {
                                assert(key_less(yv[j as int].key, yv[m].key));
                                keys_are_ordered(kx, yv[j as int].key, kx);
                            }
                        }
                    }
                }
                lemma_absent(yv, keys, vals, b, c, kx);
                lemma_split_counts(keys, vals, kx, a, b, c);
                assert(xv[i as int].values + Seq::<u64>::empty() =~= xv[i as int].values);
            }
            copy_row(&x[i])
        } else {
            proof {
                assert(yv[j as int] == y@[j as int]@);
                let ky = yv[j as int].key;
                assert(!has_key(xv, ky)) by {
                    if has_key(xv, ky) {
                        let m = choose|m: int| 0 <= m < xv.len() && (#[trigger] xv[m]).key == ky;
                        keys_are_ordered(ky, ky, ky);
                        if m < i {
                            assert(has_key(o, xv[m].key));
                            let k = choose|k: int| 0 <= k < o.len() && (#[trigger] o[k]).key == ky;
                            assert(key_less(o[k].key, yv[j as int].key));
                        } else {
                            assert(xv[i as int] == x@[i as int]@);
                            if m > i {
                                assert(key_less(xv[i as int].key, xv[m].key));
                                keys_are_ordered(ky, xv[i as int].key, ky);
                            }
                        }
                    }
                }
                lemma_absent(xv, keys, vals, a, b, ky);
                lemma_split_counts(keys, vals, ky, a, b, c);
                assert(Seq::<u64>::empty() + yv[j as int].values =~= yv[j as int].values);
            }
            copy_row(&y[j])
        };
        let ghost r = row@;
        out.push(row);
        proof {
            let now = rows_view(out@);
            assert(now =~= o.push(r));
            lemma_pushed(o, r);
            lemma_partial(o, xv, yv, i as int, j as int, r, take_x, take_y);
        }
        if take_x && take_y {
            i += 1;
            j += 1;
        } else if take_x {
            i += 1;
        } else {
            j += 1;
        }
    }
    proof {
        let o = rows_view(out@);
        assert forall|k: int| a <= k < c implies has_key(o, #[trigger] keys[k]) by {
            if k < b {
                assert(has_key(xv, keys[k]));
                let m = choose|m: int| 0 <= m < xv.len() && (#[trigger] xv[m]).key == keys[k];
                assert(has_key(o, xv[m].key));
            } else {
                assert(has_key(yv, keys[k]));
                let m = choose|m: int| 0 <= m < yv.len() && (#[trigger] yv[m]).key == keys[k];
                assert(has_key(o, yv[m].key));
            }
        }
    }
    out
}

proof fn lemma_partial(
    o: Seq<RowView>,
    x: Seq<RowView>,
    y: Seq<RowView>,
    i: int,
    j: int,
    r: RowView,
    take_x: bool,
    take_y: bool,
)
    requires
        partial(o, x, y, i, j),
        ascending(x),
        ascending(y),
        take_x || take_y,
        take_x ==> i < x.len() && x[i].key == r.key,
        take_y ==> j < y.len() && y[j].key == r.key,
        !take_x && i < x.len() ==> key_less(r.key, x[i].key),
        !take_y && j < y.len() ==> key_less(r.key, y[j].key),
    ensures
        partial(
            o.push(r),
            x,
            y,
            if take_x { i + 1 } else { i },
            if take_y { j + 1 } else { j },
        ),
{
    let now = o.push(r);
    let i2 = if take_x { i + 1 } else { i };
    let j2 = if take_y { j + 1 } else { j };
    lemma_pushed(o, r);
    assert forall|k: int, m: int| 0 <= k < m < now.len() implies key_less(
        (#[trigger] now[k]).key,
        (#[trigger] now[m]).key,
    ) by {
        if m == o.len() {
            assert(now[k] == o[k]);
            if take_x {
                assert(key_less(o[k].key, x[i].key));
            } else {
                assert(key_less(o[k].key, y[j].key));
            }
        } else {
            assert(now[k] == o[k] && now[m] == o[m]);
        }
    }
    assert forall|k: int, m: int| 0 <= k < now.len() && i2 <= m < x.len() implies key_less(
        (#[trigger] now[k]).key,
        (#[trigger] x[m]).key,
    ) by {
        if k < o.len() {
            assert(now[k] == o[k]);
        } else if m > i {
            assert(key_less(x[i].key, x[m].key));
            keys_are_ordered(r.key, x[i].key, x[m].key);
        }
    }
    assert forall|k: int, m: int| 0 <= k < now.len() && j2 <= m < y.len() implies key_less(
        (#[trigger] now[k]).key,
        (#[trigger] y[m]).key,
    ) by {
        if k < o.len() {
            assert(now[k] == o[k]);
        } else if m > j {
            assert(key_less(y[j].key, y[m].key));
            keys_are_ordered(r.key, y[j].key, y[m].key);
        }
    }
    assert forall|m: int| 0 <= m < i2 implies has_key(now, (#[trigger] x[m]).key) by {
        if m < i {
            assert(has_key(o, x[m].key));
        }
    }
    assert forall|m: int| 0 <= m < j2 implies has_key(now, (#[trigger] y[m]).key) by {
        if m < j {
            assert(has_key(o, y[m].key));
        }
    }
}

// ---- grouping a document -----------------------------------------------------

/// The keys of all records.
pub open spec fn group_keys(doc: DocView, opts: GroupOptions) -> Seq<Seq<u8>> {
    let r = doc.records(opts.fields, 0);
    Seq::new(
        r.len(),
        |i: int|
            text_key(
                field_text(
                    doc.encoding,
                    doc.buf.subrange(r[i].0, r[i].1),
                    opts.key_column,
                    opts.fields,
                ),
            ),
    )
}

/// The numbers in all records, where a column for them is given.
pub open spec fn group_values(n: nat, opts: GroupOptions, values: Seq<Option<u64>>) -> Seq<
    Option<u64>,
> {
    if opts.value_column is Some {
        values
    } else {
        Seq::new(n, |i: int| None)
    }
}

/// How many times groups are put aside, from record `i` on: whenever a new key
/// uses up the budget, and once more at the end if anything was.
pub open spec fn spills(
    keys: Seq<Seq<u8>>,
    budget: nat,
    i: int,
    used: nat,
    seen: Set<Seq<u8>>,
    before: nat,
) -> nat
    decreases keys.len() - i,
{
    if i < 0 || i >= keys.len() {
        if before > 0 && !seen.is_empty() {
            before + 1
        } else {
            before
        }
    } else if seen.contains(keys[i]) {
        spills(keys, budget, i + 1, used, seen, before)
    } else {
        let now = used + keys[i].len() + GROUP_OVERHEAD as nat;
        if now >= budget {
            spills(keys, budget, i + 1, 0, Set::empty(), before + 1)
        } else {
            spills(keys, budget, i + 1, now, seen.insert(keys[i]), before)
        }
    }
}

/// How many bytes the groups would take on disk that are put aside, from record
/// `i` on: those of all groups since the last time, whenever that happens.
pub open spec fn bytes_spilled(
    keys: Seq<Seq<u8>>,
    budget: nat,
    i: int,
    used: nat,
    seen: Set<Seq<u8>>,
    pending: nat,
    before: nat,
) -> nat
    decreases keys.len() - i,
{
    if i < 0 || i >= keys.len() {
        if before > 0 {
            before + pending
        } else {
            0
        }
    } else if seen.contains(keys[i]) {
        bytes_spilled(keys, budget, i + 1, used, seen, pending, before)
    } else {
        let now = used + keys[i].len() + GROUP_OVERHEAD as nat;
        let bytes = pending + keys[i].len() + GROUP_RECORD as nat;
        if now >= budget {
            bytes_spilled(keys, budget, i + 1, 0, Set::empty(), 0, before + bytes)
        } else {
            bytes_spilled(keys, budget, i + 1, now, seen.insert(keys[i]), bytes, before)
        }
    }
}

/// The keys of groups.
pub open spec fn keys_among(rows: Seq<RowView>) -> Set<Seq<u8>> {
    Set::new(|k: Seq<u8>| has_key(rows, k))
}

/// A number as far as a machine word counts.
pub open spec fn word(n: nat) -> usize {
    if n <= usize::MAX {
        n as usize
    } else {
        usize::MAX
    }
}

/// Groups the records of a document by a key. The values are the bits of the
/// numbers in the value column of each record, where there are any. Groups that
/// use up the budget are put aside, in memory, and put together at the end: the
/// budget bounds what is collected at a time, not all that is kept.
#[verifier::rlimit(100)]
pub fn group(doc: &Document, opts: &GroupOptions, values: &Vec<Option<u64>>) -> (r: (
    Vec<GroupRow>,
    GroupStats,
))
    requires
        doc.wf(),
        opts.value_column is Some ==> values@.len() == doc@.records(opts.fields, 0).len(),
    ensures
        ({
            let keys = group_keys(doc@, *opts);
            let vals = group_values(keys.len(), *opts, values@);
            &&& groups_of(rows_view(r.0@), keys, vals, 0, keys.len() as int)
            &&& r.1.groups == r.0@.len()
            &&& r.1.runs == word(
                spills(keys, opts.budget_bytes as nat, 0, 0, Set::empty(), 0),
            )
            &&& r.1.spill_bytes == word64(
                bytes_spilled(keys, opts.budget_bytes as nat, 0, 0, Set::empty(), 0, 0),
            )
        }),
{
    let ghost d = doc@;
    let ghost all = d.records(opts.fields, 0);
    let ghost keys = group_keys(d, *opts);
    let ghost vals = group_values(keys.len(), *opts, values@);
    let ghost budget = opts.budget_bytes as nat;
    let ghost total = spills(keys, budget, 0, 0, Set::empty(), 0);
    let ghost volume = bytes_spilled(keys, budget, 0, 0, Set::empty(), 0, 0);
    proof {
        doc.lemma_wf();
        assert(all.skip(0) =~= all);
    }
    let enc = doc.encoding();
    let buf = doc.buf();
    let mut reader = RecordReader::new(doc);
    // What was put aside, and what is being collected.
    let mut aside: Vec<GroupRow> = Vec::new();
    let mut rows: Vec<GroupRow> = Vec::new();
    let mut runs: usize = 0;
    let ghost mut runs_nat: nat = 0;
    let mut used: usize = 0;
    let ghost mut used_nat: nat = 0;
    let mut pending: u64 = 0;
    let ghost mut pending_nat: nat = 0;
    let mut bytes: u64 = 0;
    let ghost mut bytes_nat: nat = 0;
    let ghost mut from: int = 0;
    let mut k: u64 = 0;
    let mut more = true;
    proof {
        assert(rows_view(rows@) =~= Seq::<RowView>::empty());
        assert(rows_view(aside@) =~= Seq::<RowView>::empty());
        assert(keys_among(rows_view(rows@)) =~= Set::empty());
    }
    while more
        invariant
            doc.wf(),
            d == doc@,
            d.valid(),
            d.count() <= u64::MAX,
            enc == d.encoding,
            buf@ == d.buf,
            all == d.records(opts.fields, 0),
            keys == group_keys(d, *opts),
            vals == group_values(keys.len(), *opts, values@),
            budget == opts.budget_bytes,
            total == spills(keys, budget, 0, 0, Set::empty(), 0),
            volume == bytes_spilled(keys, budget, 0, 0, Set::empty(), 0, 0),
            pending == word64(pending_nat),
            bytes == word64(bytes_nat),
            runs_nat == 0 <==> bytes_nat == 0,
            pending_nat == 0 <==> keys_among(rows_view(rows@)) == Set::<Seq<u8>>::empty(),
            volume == bytes_spilled(
                keys,
                budget,
                k as int,
                used_nat,
                keys_among(rows_view(rows@)),
                pending_nat,
                bytes_nat,
            ),
            opts.value_column is Some ==> values@.len() == all.len(),
            reader.wf(d),
            reader.at() <= d.count(),
            k <= reader.at(),
            k <= all.len(),
            d.records(opts.fields, reader.at()) == all.skip(k as int),
            !more ==> k == all.len(),
            0 <= from <= k,
            groups_of(rows_view(aside@), keys, vals, 0, from),
            groups_of(rows_view(rows@), keys, vals, from, k as int),
            runs == word(runs_nat),
            used == word(used_nat),
            runs_nat == 0 ==> from == 0,
            total == spills(
                keys,
                budget,
                k as int,
                used_nat,
                keys_among(rows_view(rows@)),
                runs_nat,
            ),
        decreases d.count() - reader.at(), (if more { 1int } else { 0int }),
    {
        match reader.next(doc, &opts.fields) {
            Some(span) => {
                proof {
                    let rest = all.skip(k as int);
                    assert(rest.len() > 0);
                    assert(rest[0] == all[k as int]);
                    assert(rest.drop_first() =~= all.skip(k + 1));
                }
                let len = buf.len();
                let raw = vstd::slice::slice_subrange(
                    buf,
                    span.start as usize,
                    span.text_end as usize,
                );
                let (field, field_enc) = find_field(raw, enc, opts.key_column, &opts.fields);
                let key = normalized_text_key(field.as_slice(), field_enc);
                let key_len = key.len();
                let value = if opts.value_column.is_some() {
                    let count = values.len();
                    values[k as usize]
                } else {
                    None
                };
                assert(keys[k as int] == key@);
                assert(vals[k as int] == value);
                let ghost before = rows_view(rows@);
                let ghost kk = key@;
                let fresh = add_record(
                    &mut rows,
                    key,
                    value,
                    Ghost(keys),
                    Ghost(vals),
                    Ghost(from),
                    Ghost(k as int),
                );
                let ghost now = rows_view(rows@);
                proof {
                    lemma_keys_grow(before, now, keys, vals, from, k as int);
                    let seen = keys_among(before);
                    assert(seen.contains(kk) == has_key(before, kk));
                    if !fresh {
                        assert(keys_among(now) =~= seen);
                    }
                    assert(total == if !fresh {
                        spills(keys, budget, k + 1, used_nat, seen, runs_nat)
                    } else if used_nat + kk.len() + GROUP_OVERHEAD >= budget {
                        spills(keys, budget, k + 1, 0, Set::empty(), runs_nat + 1)
                    } else {
                        spills(
                            keys,
                            budget,
                            k + 1,
                            (used_nat + kk.len() + GROUP_OVERHEAD) as nat,
                            keys_among(now),
                            runs_nat,
                        )
                    });
                    assert(volume == if !fresh {
                        bytes_spilled(keys, budget, k + 1, used_nat, seen, pending_nat, bytes_nat)
                    } else if used_nat + kk.len() + GROUP_OVERHEAD >= budget {
                        bytes_spilled(
                            keys,
                            budget,
                            k + 1,
                            0,
                            Set::empty(),
                            0,
                            (bytes_nat + pending_nat + kk.len() + GROUP_RECORD) as nat,
                        )
                    } else {
                        bytes_spilled(
                            keys,
                            budget,
                            k + 1,
                            (used_nat + kk.len() + GROUP_OVERHEAD) as nat,
                            keys_among(now),
                            (pending_nat + kk.len() + GROUP_RECORD) as nat,
                            bytes_nat,
                        )
                    });
                    assert(keys_among(now).contains(kk));
                }
                if fresh {
                    used = used.saturating_add(key_len).saturating_add(GROUP_OVERHEAD);
                    pending = add_capped(add_capped(pending, key_len as u64), GROUP_RECORD);
                    proof {
                        pending_nat = pending_nat + kk.len() + GROUP_RECORD as nat;
                        used_nat = used_nat + kk.len() + GROUP_OVERHEAD as nat;
                    }
                    if used >= opts.budget_bytes {
                        aside = merge_rows(
                            &aside,
                            &rows,
                            Ghost(keys),
                            Ghost(vals),
                            Ghost(0),
                            Ghost(from),
                            Ghost(k + 1),
                        );
                        rows = Vec::new();
                        runs = runs.saturating_add(1);
                        used = 0;
                        bytes = add_capped(bytes, pending);
                        pending = 0;
                        proof {
                            bytes_nat = bytes_nat + pending_nat;
                            pending_nat = 0;
                            used_nat = 0;
                            runs_nat = runs_nat + 1;
                            from = k + 1;
                            assert(rows_view(rows@) =~= Seq::<RowView>::empty());
                            assert(keys_among(rows_view(rows@)) =~= Set::empty());
                        }
                    }
                }
                k = k + 1;
            },
            None => {
                assert(all.skip(k as int).len() == 0);
                more = false;
            },
        }
    }
    if runs == 0 {
        assert(runs_nat == 0);
        let groups = rows.len() as u64;
        return (rows, GroupStats { groups, runs: 0, spill_bytes: 0 });
    }
    proof {
        assert(runs_nat > 0);
        if rows@.len() == 0 {
            assert(keys_among(rows_view(rows@)) =~= Set::empty());
        } else {
            assert(has_key(rows_view(rows@), rows_view(rows@)[0].key));
            assert(keys_among(rows_view(rows@)).contains(rows_view(rows@)[0].key));
        }
    }
    if rows.len() > 0 {
        runs = runs.saturating_add(1);
    }
    let out = merge_rows(
        &aside,
        &rows,
        Ghost(keys),
        Ghost(vals),
        Ghost(0),
        Ghost(from),
        Ghost(k as int),
    );
    let groups = out.len() as u64;
    (out, GroupStats { groups, runs, spill_bytes: add_capped(bytes, pending) })
}

/// The keys of groups after a record was added.
proof fn lemma_keys_grow(
    before: Seq<RowView>,
    now: Seq<RowView>,
    keys: Seq<Seq<u8>>,
    vals: Seq<Option<u64>>,
    a: int,
    b: int,
)
    requires
        a <= b,
        groups_of(before, keys, vals, a, b),
        groups_of(now, keys, vals, a, b + 1),
    ensures
        keys_among(now) == keys_among(before).insert(keys[b]),
{
    assert forall|k: Seq<u8>| keys_among(now).contains(k) <==> keys_among(before).insert(
        keys[b],
    ).contains(k) by {
        lemma_count_positive(keys, k, a, b);
        lemma_count_positive(keys, k, a, b + 1);
        if has_key(now, k) {
            let i = choose|i: int| 0 <= i < now.len() && (#[trigger] now[i]).key == k;
            assert(now[i].count > 0);
            let p = choose|p: int| a <= p < b + 1 && #[trigger] keys[p] == k;
            if p < b {
                assert(has_key(before, keys[p]));
            }
        }
        if has_key(before, k) {
            let i = choose|i: int| 0 <= i < before.len() && (#[trigger] before[i]).key == k;
            assert(before[i].count > 0);
            let p = choose|p: int| a <= p < b && #[trigger] keys[p] == k;
            assert(has_key(now, keys[p]));
        }
        assert(has_key(now, keys[b]));
    }
    assert(keys_among(now) =~= keys_among(before).insert(keys[b]));
}

} // verus!
