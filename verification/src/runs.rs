//! Sorted runs: how records of a key and a number are written, sorted and
//! merged.

use std::cmp::Ordering;

use rayon::slice::ParallelSliceMut;

use vstd::multiset::Multiset;
use vstd::prelude::*;
use vstd::string::*;

use crate::bytes::{extend, same_bytes};
use crate::cache::{
    le_bytes, le_round_trip, le_value, lemma_le_len, lemma_pow256, push_le, read_le,
};
use crate::error::{Error, ErrorView};
use crate::fields::{key_before, key_less, keys_are_ordered};

verus! {

/// How many runs are merged at once.
pub const MERGE_FAN_IN: usize = 64;

/// A record: a key, and the number of what has it.
pub type Rec = (Seq<u8>, u64);

pub open spec fn rec_view(r: (Vec<u8>, u64)) -> Rec {
    (r.0@, r.1)
}

pub open spec fn recs_view(v: Seq<(Vec<u8>, u64)>) -> Seq<Rec> {
    v.map_values(|r: (Vec<u8>, u64)| rec_view(r))
}

/// One record comes before another: by key, in either direction; of equal keys
/// the one with the lower number.
pub open spec fn rec_less(a: Rec, b: Rec, reverse: bool) -> bool {
    if a.0 == b.0 {
        a.1 < b.1
    } else if reverse {
        key_less(b.0, a.0)
    } else {
        key_less(a.0, b.0)
    }
}

/// No record comes before an earlier one.
pub open spec fn in_order(s: Seq<Rec>, reverse: bool) -> bool {
    forall|i: int, j: int|
        0 <= i < j < s.len() ==> !rec_less(#[trigger] s[j], #[trigger] s[i], reverse)
}

/// Records are ordered totally.
pub proof fn records_are_ordered(a: Rec, b: Rec, c: Rec, reverse: bool)
    ensures
        !rec_less(a, a, reverse),
        rec_less(a, b, reverse) ==> !rec_less(b, a, reverse),
        !rec_less(a, b, reverse) && !rec_less(b, a, reverse) ==> a == b,
        rec_less(a, b, reverse) && rec_less(b, c, reverse) ==> rec_less(a, c, reverse),
{
    keys_are_ordered(a.0, b.0, c.0);
    keys_are_ordered(b.0, a.0, c.0);
    keys_are_ordered(c.0, b.0, a.0);
}

/// Whether one record comes before another.
pub fn rec_before(a: &(Vec<u8>, u64), b: &(Vec<u8>, u64), reverse: bool) -> (r: bool)
    ensures
        r == rec_less(rec_view(*a), rec_view(*b), reverse),
{
    if same_bytes(a.0.as_slice(), b.0.as_slice()) {
        a.1 < b.1
    } else if reverse {
        key_before(b.0.as_slice(), a.0.as_slice())
    } else {
        key_before(a.0.as_slice(), b.0.as_slice())
    }
}

/// The order of two records.
pub fn rec_order(a: &(Vec<u8>, u64), b: &(Vec<u8>, u64), reverse: bool) -> (o: Ordering)
    ensures
        o == if rec_less(rec_view(*a), rec_view(*b), reverse) {
            Ordering::Less
        } else if rec_less(rec_view(*b), rec_view(*a), reverse) {
            Ordering::Greater
        } else {
            Ordering::Equal
        },
{
    if rec_before(a, b, reverse) {
        Ordering::Less
    } else if rec_before(b, a, reverse) {
        Ordering::Greater
    } else {
        Ordering::Equal
    }
}

/// `rayon`'s `par_sort_unstable_by`, with the order of records: the same
/// records, in order.
#[verifier::external_body]
pub(crate) fn sort_records(v: &mut Vec<(Vec<u8>, u64)>, reverse: bool)
    ensures
        in_order(recs_view(final(v)@), reverse),
        recs_view(final(v)@).to_multiset() == recs_view(old(v)@).to_multiset(),
{
    v.par_sort_unstable_by(|a, b| rec_order(a, b, reverse));
}

// ---- how runs are written ----------------------------------------------------

/// A record as it is written: the length of its key, its key, its number.
pub open spec fn rec_bytes(r: Rec) -> Seq<u8> {
    le_bytes(r.0.len(), 4) + r.0 + le_bytes(r.1 as nat, 8)
}

/// A run as it is written.
pub open spec fn run_bytes(s: Seq<Rec>) -> Seq<u8>
    decreases s.len(),
{
    if s.len() == 0 {
        Seq::empty()
    } else {
        rec_bytes(s[0]) + run_bytes(s.drop_first())
    }
}

/// What stands at a position of a run.
pub enum Frame {
    End,
    /// A record, and where it ends.
    Whole(Rec, int),
    /// Not a whole record.
    Torn,
}

pub open spec fn frame_at(bytes: Seq<u8>, pos: int) -> Frame {
    if pos >= bytes.len() {
        Frame::End
    } else if pos + 4 > bytes.len() {
        Frame::Torn
    } else {
        let n = le_value(bytes.subrange(pos, pos + 4));
        if pos + 4 + n + 8 > bytes.len() {
            Frame::Torn
        } else {
            Frame::Whole(
                (
                    bytes.subrange(pos + 4, pos + 4 + n),
                    le_value(bytes.subrange(pos + 4 + n, pos + 4 + n + 8)) as u64,
                ),
                pos + 4 + n + 8,
            )
        }
    }
}

/// The records of a run from a position on, and whether it ends with a whole
/// record.
pub open spec fn frames(bytes: Seq<u8>, pos: int) -> (Seq<Rec>, bool)
    decreases bytes.len() - pos,
{
    match frame_at(bytes, pos) {
        Frame::End => (Seq::empty(), true),
        Frame::Torn => (Seq::empty(), false),
        Frame::Whole(r, next) => if next <= pos {
            (Seq::empty(), false)
        } else {
            let rest = frames(bytes, next);
            (seq![r] + rest.0, rest.1)
        },
    }
}

proof fn lemma_frame(pre: Seq<u8>, r: Rec, rest: Seq<u8>)
    requires
        r.0.len() <= u32::MAX,
    ensures
        frame_at(pre + rec_bytes(r) + rest, pre.len() as int) == Frame::Whole(
            r,
            (pre + rec_bytes(r)).len() as int,
        ),
{
    let b = pre + rec_bytes(r) + rest;
    let p = pre.len() as int;
    let n = r.0.len();
    lemma_pow256();
    le_round_trip(n, 4);
    le_round_trip(r.1 as nat, 8);
    assert(b.subrange(p, p + 4) =~= le_bytes(n, 4));
    assert(b.subrange(p + 4, p + 4 + n) =~= r.0);
    assert(b.subrange(p + 4 + n, p + 4 + n + 8) =~= le_bytes(r.1 as nat, 8));
}

/// What was written as a run is read back as it was.
pub proof fn runs_are_read_back(pre: Seq<u8>, s: Seq<Rec>)
    requires
        forall|i: int| 0 <= i < s.len() ==> (#[trigger] s[i]).0.len() <= u32::MAX,
    ensures
        frames(pre + run_bytes(s), pre.len() as int) == (s, true),
    decreases s.len(),
{
    if s.len() == 0 {
        assert(pre + run_bytes(s) =~= pre);
    } else {
        let r = s[0];
        let rest = s.drop_first();
        lemma_frame(pre, r, run_bytes(rest));
        let next = pre + rec_bytes(r);
        assert(pre + run_bytes(s) =~= next + run_bytes(rest));
        assert forall|i: int| 0 <= i < rest.len() implies (#[trigger] rest[i]).0.len()
            <= u32::MAX by {
            assert(rest[i] == s[i + 1]);
        }
        runs_are_read_back(next, rest);
        lemma_le_len(r.0.len(), 4);
        lemma_le_len(r.1 as nat, 8);
        assert(seq![r] + rest =~= s);
    }
}

pub proof fn lemma_run_push(s: Seq<Rec>, r: Rec)
    ensures
        run_bytes(s.push(r)) == run_bytes(s) + rec_bytes(r),
    decreases s.len(),
{
    if s.len() == 0 {
        assert(s.push(r).drop_first() =~= Seq::<Rec>::empty());
        assert(run_bytes(s.push(r).drop_first()) =~= Seq::<u8>::empty());
        assert(run_bytes(s.push(r)) =~= run_bytes(s) + rec_bytes(r));
    } else {
        lemma_run_push(s.drop_first(), r);
        assert(s.push(r).drop_first() =~= s.drop_first().push(r));
        assert(run_bytes(s.push(r)) =~= run_bytes(s) + rec_bytes(r));
    }
}

/// Appends a record to a run.
pub fn push_rec(out: &mut Vec<u8>, key: &[u8], number: u64)
    requires
        key@.len() <= u32::MAX,
    ensures
        final(out)@ == old(out)@ + rec_bytes((key@, number)),
{
    let ghost o = out@;
    push_le(out, key.len() as u64, 4);
    extend(out, key);
    push_le(out, number, 8);
    assert(out@ =~= o + rec_bytes((key@, number)));
}

/// A run that holds the given records, in order.
pub open spec fn is_run_of(bytes: Seq<u8>, recs: Multiset<Rec>, reverse: bool) -> bool {
    let (s, whole) = frames(bytes, 0);
    &&& whole
    &&& bytes == run_bytes(s)
    &&& in_order(s, reverse)
    &&& s.to_multiset() == recs
}

/// Sorts records and writes them as a run.
pub fn write_run(records: Vec<(Vec<u8>, u64)>, reverse: bool) -> (r: Vec<u8>)
    requires
        forall|i: int| 0 <= i < records@.len() ==> (#[trigger] records@[i]).0@.len() <= u32::MAX,
    ensures
        is_run_of(r@, recs_view(records@).to_multiset(), reverse),
{
    let ghost before = recs_view(records@);
    let mut v = records;
    sort_records(&mut v, reverse);
    let ghost s = recs_view(v@);
    proof {
        broadcast use vstd::seq_lib::group_to_multiset_ensures;

        assert(s.len() == before.len()) by {
            assert(s.to_multiset().len() == before.to_multiset().len());
        }
        assert forall|i: int| 0 <= i < s.len() implies (#[trigger] s[i]).0.len() <= u32::MAX by {
            assert(s.to_multiset().count(s[i]) > 0);
            assert(before.to_multiset().count(s[i]) > 0);
            assert(before.contains(s[i]));
            let j = choose|j: int| 0 <= j < before.len() && before[j] == s[i];
            assert(before[j] == rec_view(records@[j]));
        }
    }
    let mut out: Vec<u8> = Vec::new();
    let mut i: usize = 0;
    assert(out@ =~= run_bytes(s.take(0)));
    while i < v.len()
        invariant
            i <= v@.len(),
            s == recs_view(v@),
            forall|j: int| 0 <= j < s.len() ==> (#[trigger] s[j]).0.len() <= u32::MAX,
            out@ == run_bytes(s.take(i as int)),
        decreases v.len() - i,
    {
        assert(s[i as int] == rec_view(v@[i as int]));
        push_rec(&mut out, v[i].0.as_slice(), v[i].1);
        proof {
            lemma_run_push(s.take(i as int), s[i as int]);
            assert(s.take(i + 1) =~= s.take(i as int).push(s[i as int]));
        }
        i += 1;
    }
    assert(s.take(s.len() as int) =~= s);
    proof {
        runs_are_read_back(Seq::empty(), s);
        assert(Seq::<u8>::empty() + run_bytes(s) =~= out@);
    }
    out
}

pub open spec fn torn_record() -> ErrorView {
    ErrorView::Corrupted("truncated spill record"@)
}

/// Reads the record at a position of a run, and where it ends; `None` at the
/// end of the run.
pub fn read_rec(bytes: &[u8], pos: usize) -> (r: Result<Option<((Vec<u8>, u64), usize)>, Error>)
    ensures
        match r {
            Ok(None) => frame_at(bytes@, pos as int) is End,
            Ok(Some((x, next))) => frame_at(bytes@, pos as int) == Frame::Whole(
                rec_view(x),
                next as int,
            ) && pos < next <= bytes@.len(),
            Err(e) => frame_at(bytes@, pos as int) is Torn && e@ == torn_record(),
        },
{
    let len = bytes.len();
    if pos >= len {
        return Ok(None);
    }
    if len - pos < 4 {
        return Err(Error::Corrupted("truncated spill record".to_owned()));
    }
    proof {
        lemma_pow256();
    }
    let n = read_le(bytes, pos, 4) as usize;
    let left = len - pos - 4;
    if left < n || left - n < 8 {
        return Err(Error::Corrupted("truncated spill record".to_owned()));
    }
    let mut key: Vec<u8> = Vec::new();
    extend(&mut key, vstd::slice::slice_subrange(bytes, pos + 4, pos + 4 + n));
    let number = read_le(bytes, pos + 4 + n, 8);
    assert(key@ =~= bytes@.subrange(pos + 4, pos + 4 + n));
    Ok(Some(((key, number), pos + 4 + n + 8)))
}

// ---- merging -----------------------------------------------------------------

/// The records that are left of a run, and whether it ends with a whole one.
#[verifier::ext_equal]
pub struct RunView {
    pub recs: Seq<Rec>,
    pub whole: bool,
}

impl RunView {
    pub open spec fn dropped(self) -> RunView {
        RunView { recs: self.recs.drop_first(), whole: self.whole }
    }
}

/// Which of the first `n` runs has the least record at its head; of equal ones
/// the first.
pub open spec fn least(m: Seq<RunView>, n: int, reverse: bool) -> Option<int>
    decreases n,
{
    if n <= 0 {
        None
    } else {
        let b = least(m, n - 1, reverse);
        if m[n - 1].recs.len() == 0 {
            b
        } else {
            match b {
                None => Some(n - 1),
                Some(j) => if rec_less(m[n - 1].recs[0], m[j].recs[0], reverse) {
                    Some(n - 1)
                } else {
                    b
                },
            }
        }
    }
}

/// How many records are left in the first `n` runs.
pub open spec fn left_in(m: Seq<RunView>, n: int) -> nat
    decreases n,
{
    if n <= 0 {
        0
    } else {
        left_in(m, n - 1) + m[n - 1].recs.len()
    }
}

/// The records that are left in the first `n` runs, whatever their order.
pub open spec fn pool(m: Seq<RunView>, n: int) -> Multiset<Rec>
    decreases n,
{
    if n <= 0 {
        Multiset::empty()
    } else {
        pool(m, n - 1).add(m[n - 1].recs.to_multiset())
    }
}

/// The runs merged: always the least head comes next.
pub open spec fn merged(m: Seq<RunView>, reverse: bool) -> Seq<Rec>
    decreases left_in(m, m.len() as int),
    via merged_decreases
{
    match least(m, m.len() as int, reverse) {
        None => Seq::empty(),
        Some(r) => seq![m[r].recs[0]] + merged(m.update(r, m[r].dropped()), reverse),
    }
}

#[via_fn]
proof fn merged_decreases(m: Seq<RunView>, reverse: bool) {
    lemma_least(m, m.len() as int, reverse);
    if let Some(r) = least(m, m.len() as int, reverse) {
        lemma_left_update(m, m.len() as int, r);
    }
}

pub proof fn lemma_least(m: Seq<RunView>, n: int, reverse: bool)
    requires
        0 <= n <= m.len(),
    ensures
        match least(m, n, reverse) {
            None => forall|i: int| 0 <= i < n ==> (#[trigger] m[i]).recs.len() == 0,
            Some(r) => {
                &&& 0 <= r < n
                &&& m[r].recs.len() > 0
                &&& forall|i: int|
                    0 <= i < n && (#[trigger] m[i]).recs.len() > 0 ==> !rec_less(
                        m[i].recs[0],
                        m[r].recs[0],
                        reverse,
                    )
            },
        },
    decreases n,
{
    if n > 0 {
        lemma_least(m, n - 1, reverse);
        if m[n - 1].recs.len() > 0 {
            if let Some(j) = least(m, n - 1, reverse) {
                let (x, y) = (m[n - 1].recs[0], m[j].recs[0]);
                records_are_ordered(x, y, x, reverse);
                assert forall|i: int| 0 <= i < n && (#[trigger] m[i]).recs.len() > 0 implies
                    !rec_less(
                    m[i].recs[0],
                    m[least(m, n, reverse)->Some_0].recs[0],
                    reverse,
                ) by {
                    if i < n - 1 && rec_less(x, y, reverse) {
                        records_are_ordered(m[i].recs[0], x, y, reverse);
                    }
                    records_are_ordered(x, x, x, reverse);
                }
            } else {
                records_are_ordered(m[n - 1].recs[0], m[n - 1].recs[0], m[n - 1].recs[0], reverse);
            }
        }
    }
}

proof fn lemma_left_update(m: Seq<RunView>, n: int, r: int)
    requires
        0 <= n <= m.len(),
        0 <= r < m.len(),
        m[r].recs.len() > 0,
    ensures
        left_in(m.update(r, m[r].dropped()), n) == if r < n {
            left_in(m, n) - 1
        } else {
            left_in(m, n) as int
        },
    decreases n,
{
    if n > 0 {
        lemma_left_update(m, n - 1, r);
    }
}

proof fn lemma_multiset_first(s: Seq<Rec>)
    requires
        s.len() > 0,
    ensures
        s.to_multiset() == s.drop_first().to_multiset().insert(s[0]),
    decreases s.len(),
{
    broadcast use vstd::seq_lib::group_to_multiset_ensures;

    assert(s.remove(0) =~= s.drop_first());
    vstd::seq_lib::to_multiset_remove(s, 0);
    assert(s.to_multiset().count(s[0]) > 0) by {
        assert(s.contains(s[0]));
    }
    assert(s.to_multiset() =~= s.to_multiset().remove(s[0]).insert(s[0]));
}

proof fn lemma_pool_update(m: Seq<RunView>, n: int, r: int)
    requires
        0 <= n <= m.len(),
        0 <= r < m.len(),
        m[r].recs.len() > 0,
    ensures
        r < n ==> pool(m, n) == pool(m.update(r, m[r].dropped()), n).insert(m[r].recs[0]),
        r >= n ==> pool(m, n) == pool(m.update(r, m[r].dropped()), n),
    decreases n,
{
    if n > 0 {
        lemma_pool_update(m, n - 1, r);
        lemma_multiset_first(m[r].recs);
        let m2 = m.update(r, m[r].dropped());
        if r == n - 1 {
            assert(pool(m, n) =~= pool(m2, n).insert(m[r].recs[0]));
        } else if r < n - 1 {
            assert(m2[n - 1] == m[n - 1]);
            assert(pool(m, n) =~= pool(m2, n).insert(m[r].recs[0]));
        } else {
            assert(m2[n - 1] == m[n - 1]);
        }
    }
}

pub proof fn lemma_pool_contains(m: Seq<RunView>, n: int, x: Rec)
    requires
        0 <= n <= m.len(),
        pool(m, n).count(x) > 0,
    ensures
        exists|i: int| 0 <= i < n && (#[trigger] m[i]).recs.contains(x),
    decreases n,
{
    broadcast use vstd::seq_lib::group_to_multiset_ensures;

    if n > 0 {
        if m[n - 1].recs.to_multiset().count(x) > 0 {
            assert(m[n - 1].recs.contains(x));
        } else {
            lemma_pool_contains(m, n - 1, x);
            let i = choose|i: int| 0 <= i < n - 1 && (#[trigger] m[i]).recs.contains(x);
            assert(m[i].recs.contains(x));
        }
    }
}

/// Merging runs that are in order gives all their records, in order.
pub proof fn merging_keeps_all_in_order(m: Seq<RunView>, reverse: bool)
    requires
        forall|i: int| 0 <= i < m.len() ==> in_order((#[trigger] m[i]).recs, reverse),
    ensures
        in_order(merged(m, reverse), reverse),
        merged(m, reverse).to_multiset() == pool(m, m.len() as int),
        merged(m, reverse).len() == left_in(m, m.len() as int),
    decreases left_in(m, m.len() as int),
{
    broadcast use vstd::seq_lib::group_to_multiset_ensures;

    let n = m.len() as int;
    lemma_least(m, n, reverse);
    match least(m, n, reverse) {
        None => {
            lemma_pool_empty(m, n);
            assert(merged(m, reverse) =~= Seq::<Rec>::empty());
            assert(merged(m, reverse).to_multiset() =~= Multiset::empty());
        },
        Some(r) => {
            let h = m[r].recs[0];
            let m2 = m.update(r, m[r].dropped());
            lemma_left_update(m, n, r);
            lemma_pool_update(m, n, r);
            assert forall|i: int| 0 <= i < m2.len() implies in_order(
                (#[trigger] m2[i]).recs,
                reverse,
            ) by {
                assert(in_order(m[i].recs, reverse));
                if i == r {
                    let (s, t) = (m[r].recs, m2[r].recs);
                    assert forall|a: int, b: int| 0 <= a < b < t.len() implies !rec_less(
                        #[trigger] t[b],
                        #[trigger] t[a],
                        reverse,
                    ) by {
                        assert(t[a] == s[a + 1] && t[b] == s[b + 1]);
                    }
                }
            }
            merging_keeps_all_in_order(m2, reverse);
            let rest = merged(m2, reverse);
            let all = merged(m, reverse);
            assert(all == seq![h] + rest);
            assert(all.drop_first() =~= rest);
            lemma_multiset_first(all);
            assert forall|a: int, b: int| 0 <= a < b < all.len() implies !rec_less(
                #[trigger] all[b],
                #[trigger] all[a],
                reverse,
            ) by {
                assert(all[b] == rest[b - 1]);
                if a == 0 {
                    let x = rest[b - 1];
                    assert(rest.contains(x));
                    assert(pool(m2, n).count(x) > 0);
                    lemma_pool_contains(m2, n, x);
                    let i = choose|i: int| 0 <= i < n && (#[trigger] m2[i]).recs.contains(x);
                    let k = choose|k: int| 0 <= k < m2[i].recs.len() && m2[i].recs[k] == x;
                    let (s, j) = if i == r { (m[i].recs, k + 1) } else { (m[i].recs, k) };
                    assert(s[j] == x);
                    assert(in_order(s, reverse));
                    if j > 0 {
                        assert(!rec_less(s[j], s[0], reverse));
                    } else {
                        records_are_ordered(x, x, x, reverse);
                    }
                    assert(!rec_less(m[i].recs[0], h, reverse));
                    records_are_ordered(x, h, s[0], reverse);
                    records_are_ordered(s[0], x, h, reverse);
                    records_are_ordered(x, s[0], h, reverse);
                    records_are_ordered(h, s[0], x, reverse);
                } else {
                    assert(all[a] == rest[a - 1]);
                }
            }
        },
    }
}

proof fn lemma_pool_empty(m: Seq<RunView>, n: int)
    requires
        0 <= n <= m.len(),
        forall|i: int| 0 <= i < n ==> (#[trigger] m[i]).recs.len() == 0,
    ensures
        pool(m, n) == Multiset::<Rec>::empty(),
        left_in(m, n) == 0,
    decreases n,
{
    broadcast use vstd::seq_lib::group_to_multiset_ensures;

    if n > 0 {
        lemma_pool_empty(m, n - 1);
        assert(m[n - 1].recs =~= Seq::<Rec>::empty());
        assert(pool(m, n) =~= Multiset::<Rec>::empty());
    }
}

fn copy_rec(r: &(Vec<u8>, u64)) -> (c: (Vec<u8>, u64))
    ensures
        rec_view(c) == rec_view(*r),
{
    let mut key: Vec<u8> = Vec::new();
    extend(&mut key, r.0.as_slice());
    assert(key@ =~= r.0@);
    (key, r.1)
}

/// Merges runs, one record at a time.
#[derive(Debug)]
pub struct Merger<'a> {
    runs: Vec<&'a [u8]>,
    heads: Vec<Option<(Vec<u8>, u64)>>,
    pos: Vec<usize>,
    reverse: bool,
}

impl<'a> Merger<'a> {
    pub closed spec fn wf(&self) -> bool {
        &&& self.heads@.len() == self.runs@.len()
        &&& self.pos@.len() == self.runs@.len()
    }

    closed spec fn run(&self, i: int) -> RunView {
        match self.heads@[i] {
            None => RunView { recs: Seq::empty(), whole: true },
            Some(h) => {
                let f = frames(self.runs@[i]@, self.pos@[i] as int);
                RunView { recs: seq![rec_view(h)] + f.0, whole: f.1 }
            },
        }
    }

    /// What is left of each run.
    pub closed spec fn left(&self) -> Seq<RunView> {
        Seq::new(self.runs@.len(), |i: int| self.run(i))
    }

    pub closed spec fn reversed(&self) -> bool {
        self.reverse
    }

    /// Starts to merge runs. An error says that one does not start with a whole
    /// record.
    pub fn new(runs: Vec<&'a [u8]>, reverse: bool) -> (r: Result<Merger<'a>, Error>)
        ensures
            match r {
                Ok(m) => {
                    &&& m.wf()
                    &&& m.reversed() == reverse
                    &&& m.left().len() == runs@.len()
                    &&& forall|i: int|
                        0 <= i < runs@.len() ==> {
                            let f = frames(runs@[i]@, 0);
                            #[trigger] m.left()[i] == (RunView { recs: f.0, whole: f.1 })
                        }
                },
                Err(e) => {
                    &&& e@ == torn_record()
                    &&& exists|i: int| 0 <= i < runs@.len() && #[trigger] frame_at(runs@[i]@, 0) is Torn
                },
            },
    {
        let mut heads: Vec<Option<(Vec<u8>, u64)>> = Vec::new();
        let mut pos: Vec<usize> = Vec::new();
        let mut i: usize = 0;
        while i < runs.len()
            invariant
                i <= runs@.len(),
                heads@.len() == i,
                pos@.len() == i,
                forall|j: int|
                    0 <= j < i ==> match #[trigger] heads@[j] {
                        None => frame_at(runs@[j]@, 0) is End,
                        Some(h) => frame_at(runs@[j]@, 0) == Frame::Whole(
                            rec_view(h),
                            pos@[j] as int,
                        ) && pos@[j] > 0,
                    },
            decreases runs.len() - i,
        {
            match read_rec(runs[i], 0) {
                Ok(Some((x, next))) => {
                    heads.push(Some(x));
                    pos.push(next);
                },
                Ok(None) => {
                    heads.push(None);
                    pos.push(0);
                },
                Err(e) => {
                    assert(frame_at(runs@[i as int]@, 0) is Torn);
                    return Err(e);
                },
            }
            i += 1;
        }
        let m = Merger { runs, heads, pos, reverse };
        proof {
            assert forall|j: int| 0 <= j < runs@.len() implies ({
                let f = frames(runs@[j]@, 0);
                #[trigger] m.left()[j] == (RunView { recs: f.0, whole: f.1 })
            }) by {
                assert(m.left()[j] == m.run(j));
                match heads@[j] {
                    None => {},
                    Some(h) => {},
                }
            }
        }
        Ok(m)
    }

    /// The next record, if there is one. An error says that the run it comes
    /// from goes on with something that is no whole record.
    pub fn next(&mut self) -> (r: Result<Option<(Vec<u8>, u64)>, Error>)
        requires
            old(self).wf(),
        ensures
            ({
                let m = old(self).left();
                match least(m, m.len() as int, old(self).reversed()) {
                    None => r == Ok::<Option<(Vec<u8>, u64)>, Error>(None) && final(self).left()
                        == m && final(self).wf() && final(self).reversed() == old(
                        self,
                    ).reversed(),
                    Some(k) => if m[k].recs.len() == 1 && !m[k].whole {
                        r matches Err(e) && e@ == torn_record()
                    } else {
                        &&& r matches Ok(Some(x)) && rec_view(x) == m[k].recs[0]
                        &&& final(self).left() == m.update(k, m[k].dropped())
                        &&& final(self).wf()
                        &&& final(self).reversed() == old(self).reversed()
                    },
                }
            }),
    {
        let ghost s0 = *self;
        let ghost m = self.left();
        let n = self.runs.len();
        let mut best: Option<usize> = None;
        let mut i: usize = 0;
        while i < n
            invariant
                self.wf(),
                *self == s0,
                m == self.left(),
                n == self.runs@.len(),
                i <= n,
                match best {
                    None => least(m, i as int, self.reverse) is None,
                    Some(b) => least(m, i as int, self.reverse) == Some(b as int) && b < i
                        && self.heads@[b as int] is Some,
                },
            decreases n - i,
        {
            assert(m[i as int] == self.run(i as int));
            if let Some(h) = &self.heads[i] {
                assert(m[i as int].recs[0] == rec_view(*h));
                best = match best {
                    None => Some(i),
                    Some(b) => {
                        assert(m[b as int] == self.run(b as int));
                        match &self.heads[b] {
                            Some(g) => {
                                assert(m[b as int].recs[0] == rec_view(*g));
                                if rec_before(h, g, self.reverse) {
                                    Some(i)
                                } else {
                                    Some(b)
                                }
                            },
                            None => Some(b),
                        }
                    },
                };
            }
            i += 1;
        }
        let k = match best {
            Some(k) => k,
            None => {
                return Ok(None);
            },
        };
        assert(m[k as int] == self.run(k as int));
        let out = match &self.heads[k] {
            Some(h) => copy_rec(h),
            None => {
                return Ok(None);
            },
        };
        let ghost run = self.runs@[k as int]@;
        let ghost p = self.pos@[k as int] as int;
        match read_rec(self.runs[k], self.pos[k]) {
            Ok(Some((x, next))) => {
                self.heads.set(k, Some(x));
                self.pos.set(k, next);
            },
            Ok(None) => {
                self.heads.set(k, None);
            },
            Err(e) => {
                assert(frames(run, p) == (Seq::<Rec>::empty(), false));
                return Err(e);
            },
        }
        proof {
            let want = m.update(k as int, m[k as int].dropped());
            assert forall|j: int| 0 <= j < n implies self.run(j) == #[trigger] want[j] by {
                if j != k {
                    assert(m[j] == s0.run(j));
                } else {
                    let f = frames(run, p);
                    assert(m[j].dropped().recs =~= f.0);
                }
            }
            assert(self.left() =~= want);
        }
        Ok(Some(out))
    }
}

} // verus!
