//! Sorting the lines of a document: keys, runs that stay within a budget, and
//! the order that comes out of merging them.

use vstd::multiset::Multiset;
use vstd::prelude::*;
use vstd::string::*;

use crate::cache::{le_value, lemma_pow256};
use crate::document::{DocView, Document};
use crate::encoding::{codec_size, Encoding};
use crate::error::{Error, ErrorView};
use crate::fields::{
    escaped_bytes, f64_order_key, field_text, find_field, float_key, normalized_text_key,
    numeric_text, push_component, text_key, tuple_key, FieldSpec,
};
use crate::lines::{lemma_count, lemma_lf, lemma_start};
use crate::runs::{
    frames, in_order, is_run_of, least, merged, merging_keeps_all_in_order, pool, push_rec,
    rec_less, rec_view, records_are_ordered, recs_view, run_bytes, runs_are_read_back, write_run,
    Merger, Rec, RunView, MERGE_FAN_IN,
};
use crate::text::trimmed;

verus! {

/// The memory that an operation may use before it spills, in bytes, unless
/// another number is given.
pub const DEFAULT_BUDGET_BYTES: usize = 268_435_456;

/// How lines are fetched and how often progress is noted.
pub const SORT_BATCH: u64 = 8192;

/// How to sort.
#[derive(Clone, Debug)]
pub struct SortOptions {
    /// The number of the field to sort by, from 1; the whole line if `None`.
    pub key_column: Option<usize>,
    /// The numbers of several fields to sort by, the most important first. If
    /// there are any, `key_column` is not used.
    pub key_columns: Vec<usize>,
    pub fields: FieldSpec,
    /// Whether the keys are numbers.
    pub numeric: bool,
    /// Whether the order is descending.
    pub reverse: bool,
    /// How much memory keys may use before they are written as a run.
    pub budget_bytes: usize,
    /// Where runs are written.
    pub spill_dir: String,
}

impl Default for SortOptions {
    fn default() -> (o: SortOptions)
        ensures
            o.key_column is None,
            o.key_columns@.len() == 0,
            o.fields == (FieldSpec { delimiter: 44, quote: 34, csv: false }),
            !o.numeric && !o.reverse,
            o.budget_bytes == DEFAULT_BUDGET_BYTES,
            o.spill_dir@ == "ayame-sort"@,
    {
        SortOptions {
            key_column: None,
            key_columns: Vec::new(),
            fields: FieldSpec { delimiter: 44, quote: 34, csv: false },
            numeric: false,
            reverse: false,
            budget_bytes: DEFAULT_BUDGET_BYTES,
            spill_dir: "ayame-sort".to_owned(),
        }
    }
}

// ---- keys --------------------------------------------------------------------

/// The bits of negative infinity: what is no number is sorted as that.
pub const NEG_INFINITY_BITS: u64 = 0xFFF0_0000_0000_0000;

pub open spec fn is_nan_bits(bits: u64) -> bool {
    bits & 0x7FFF_FFFF_FFFF_FFFF > 0x7FF0_0000_0000_0000
}

/// The bits by which a number is sorted that was read or not.
pub fn ordering_bits(parsed: Option<u64>) -> (bits: u64)
    ensures
        bits == match parsed {
            Some(b) => if is_nan_bits(b) { NEG_INFINITY_BITS } else { b },
            None => NEG_INFINITY_BITS,
        },
{
    match parsed {
        Some(b) => if b & 0x7FFF_FFFF_FFFF_FFFF > 0x7FF0_0000_0000_0000 {
            NEG_INFINITY_BITS
        } else {
            b
        },
        None => NEG_INFINITY_BITS,
    }
}

/// The key of a field: the order of keys is the order of the numbers, or of
/// the code points of the normalized texts.
pub open spec fn comparable(
    raw: Seq<u8>,
    enc: Encoding,
    col: Option<usize>,
    spec: FieldSpec,
    numeric: bool,
    bits: u64,
) -> Seq<u8> {
    if numeric {
        float_key(bits)
    } else {
        text_key(field_text(enc, raw, col, spec))
    }
}

/// Builds the key of a field. The bits are those of the number in it, if the
/// keys are numbers.
pub fn comparable_key(
    raw: &[u8],
    enc: Encoding,
    col: Option<usize>,
    spec: &FieldSpec,
    numeric: bool,
    bits: u64,
) -> (k: Vec<u8>)
    requires
        codec_size(raw@.len()),
    ensures
        k@ == comparable(raw@, enc, col, *spec, numeric, bits),
{
    if numeric {
        f64_order_key(bits)
    } else {
        let (field, field_enc) = find_field(raw, enc, col, spec);
        normalized_text_key(field.as_slice(), field_enc)
    }
}

/// The keys of several columns.
pub open spec fn key_parts(
    raw: Seq<u8>,
    enc: Encoding,
    columns: Seq<usize>,
    spec: FieldSpec,
    numeric: bool,
    bits: Seq<u64>,
) -> Seq<Seq<u8>> {
    Seq::new(
        columns.len(),
        |j: int| comparable(raw, enc, Some(columns[j]), spec, numeric, bits[j]),
    )
}

/// The key of a line.
pub open spec fn sort_key_of(raw: Seq<u8>, enc: Encoding, opts: SortOptions, bits: Seq<u64>) -> Seq<
    u8,
> {
    if opts.key_columns@.len() == 0 {
        comparable(raw, enc, opts.key_column, opts.fields, opts.numeric, bits[0])
    } else {
        tuple_key(key_parts(raw, enc, opts.key_columns@, opts.fields, opts.numeric, bits))
    }
}

/// How many numbers the key of a line is made of.
pub open spec fn key_width(opts: SortOptions) -> nat {
    if opts.key_columns@.len() == 0 {
        1
    } else {
        opts.key_columns@.len()
    }
}

proof fn lemma_tuple_push(parts: Seq<Seq<u8>>, c: Seq<u8>)
    ensures
        tuple_key(parts.push(c)) == tuple_key(parts) + escaped_bytes(c) + seq![0u8, 0u8],
    decreases parts.len(),
{
    if parts.len() == 0 {
        assert(parts.push(c).drop_first() =~= Seq::<Seq<u8>>::empty());
        assert(tuple_key(parts.push(c).drop_first()) =~= Seq::<u8>::empty());
        assert(tuple_key(parts.push(c)) =~= tuple_key(parts) + escaped_bytes(c) + seq![0u8, 0u8]);
    } else {
        lemma_tuple_push(parts.drop_first(), c);
        assert(parts.push(c).drop_first() =~= parts.drop_first().push(c));
        assert(tuple_key(parts.push(c)) =~= tuple_key(parts) + escaped_bytes(c) + seq![0u8, 0u8]);
    }
}

/// Builds the key of a line. The bits are those of the numbers in its key
/// columns, if the keys are numbers.
pub fn sort_key(raw: &[u8], enc: Encoding, opts: &SortOptions, bits: &Vec<u64>) -> (k: Vec<u8>)
    requires
        codec_size(raw@.len()),
        opts.numeric ==> bits@.len() >= key_width(*opts),
    ensures
        opts.numeric ==> k@ == sort_key_of(raw@, enc, *opts, bits@),
        !opts.numeric ==> forall|b: Seq<u64>| k@ == #[trigger] sort_key_of(raw@, enc, *opts, b),
{
    if opts.key_columns.len() == 0 {
        let b = if opts.numeric {
            bits[0]
        } else {
            0
        };
        return comparable_key(raw, enc, opts.key_column, &opts.fields, opts.numeric, b);
    }
    let ghost cols = opts.key_columns@;
    let ghost used = if opts.numeric { bits@ } else { Seq::new(cols.len(), |j: int| 0u64) };
    let ghost parts = key_parts(raw@, enc, cols, opts.fields, opts.numeric, used);
    let mut out: Vec<u8> = Vec::new();
    let mut j: usize = 0;
    assert(out@ =~= tuple_key(parts.take(0)));
    while j < opts.key_columns.len()
        invariant
            codec_size(raw@.len()),
            cols == opts.key_columns@,
            opts.numeric ==> bits@.len() >= cols.len() && used == bits@,
            !opts.numeric ==> used == Seq::new(cols.len(), |j: int| 0u64),
            parts == key_parts(raw@, enc, cols, opts.fields, opts.numeric, used),
            j <= cols.len(),
            out@ == tuple_key(parts.take(j as int)),
        decreases opts.key_columns.len() - j,
    {
        let b = if opts.numeric {
            bits[j]
        } else {
            0
        };
        let c = comparable_key(
            raw,
            enc,
            Some(opts.key_columns[j]),
            &opts.fields,
            opts.numeric,
            b,
        );
        assert(c@ == parts[j as int]);
        push_component(&mut out, c.as_slice());
        proof {
            lemma_tuple_push(parts.take(j as int), c@);
            assert(parts.take(j + 1) =~= parts.take(j as int).push(c@));
        }
        j += 1;
    }
    proof {
        assert(parts.take(parts.len() as int) =~= parts);
        if !opts.numeric {
            assert forall|b: Seq<u64>| out@ == #[trigger] sort_key_of(raw@, enc, *opts, b) by {
                assert(key_parts(raw@, enc, cols, opts.fields, false, b) =~= parts);
            }
        }
    }
    out
}

/// The texts of the key columns of a line, to be read as numbers.
pub fn numeric_texts(raw: &[u8], enc: Encoding, opts: &SortOptions) -> (v: Vec<String>)
    requires
        codec_size(raw@.len()),
    ensures
        v@.len() == key_width(*opts),
        opts.key_columns@.len() == 0 ==> v@[0]@ == trimmed(
            field_text(enc, raw@, opts.key_column, opts.fields),
        ),
        opts.key_columns@.len() > 0 ==> forall|j: int|
            0 <= j < v@.len() ==> (#[trigger] v@[j])@ == trimmed(
                field_text(enc, raw@, Some(opts.key_columns@[j]), opts.fields),
            ),
{
    let mut v: Vec<String> = Vec::new();
    if opts.key_columns.len() == 0 {
        let (field, field_enc) = find_field(raw, enc, opts.key_column, &opts.fields);
        v.push(numeric_text(field.as_slice(), field_enc));
        return v;
    }
    let mut j: usize = 0;
    while j < opts.key_columns.len()
        invariant
            codec_size(raw@.len()),
            j <= opts.key_columns@.len(),
            v@.len() == j,
            forall|i: int|
                0 <= i < j ==> (#[trigger] v@[i])@ == trimmed(
                    field_text(enc, raw@, Some(opts.key_columns@[i]), opts.fields),
                ),
        decreases opts.key_columns.len() - j,
    {
        let (field, field_enc) = find_field(raw, enc, Some(opts.key_columns[j]), &opts.fields);
        v.push(numeric_text(field.as_slice(), field_enc));
        j += 1;
    }
    v
}

// ---- runs within a budget ----------------------------------------------------

/// The memory that a buffered record counts for.
pub open spec fn charge(key_len: nat) -> nat {
    key_len + 40
}

pub open spec fn charges(s: Seq<Rec>) -> nat
    decreases s.len(),
{
    if s.len() == 0 {
        0
    } else {
        charges(s.drop_last()) + charge(s.last().0.len())
    }
}

/// Collects records, and writes a run whenever they use up the budget.
#[derive(Debug)]
pub struct RunBuilder {
    buffer: Vec<(Vec<u8>, u64)>,
    used: usize,
    budget: usize,
    reverse: bool,
}

impl RunBuilder {
    /// The records that are not in a run yet.
    pub closed spec fn buffered(&self) -> Seq<Rec> {
        recs_view(self.buffer@)
    }

    pub closed spec fn budget(&self) -> nat {
        self.budget as nat
    }

    pub closed spec fn reversed(&self) -> bool {
        self.reverse
    }

    pub closed spec fn wf(&self) -> bool {
        &&& self.used == if charges(self.buffered()) <= usize::MAX {
            charges(self.buffered()) as usize
        } else {
            usize::MAX
        }
        &&& forall|i: int|
            0 <= i < self.buffer@.len() ==> (#[trigger] self.buffer@[i]).0@.len() <= u32::MAX
    }

    pub fn new(budget: usize, reverse: bool) -> (b: RunBuilder)
        ensures
            b.wf(),
            b.buffered() == Seq::<Rec>::empty(),
            b.budget() == budget,
            b.reversed() == reverse,
    {
        let b = RunBuilder { buffer: Vec::new(), used: 0, budget, reverse };
        assert(b.buffered() =~= Seq::<Rec>::empty());
        b
    }

    /// Adds a record; gives the run of all that were collected if they use up
    /// the budget.
    pub fn push(&mut self, key: Vec<u8>, number: u64) -> (r: Option<Vec<u8>>)
        requires
            old(self).wf(),
            key@.len() <= u32::MAX,
        ensures
            final(self).wf(),
            final(self).budget() == old(self).budget(),
            final(self).reversed() == old(self).reversed(),
            ({
                let now = old(self).buffered().push((key@, number));
                match r {
                    None => charges(now) < old(self).budget() && final(self).buffered() == now,
                    Some(run) => {
                        &&& charges(now) >= old(self).budget()
                        &&& is_run_of(run@, now.to_multiset(), old(self).reversed())
                        &&& final(self).buffered() == Seq::<Rec>::empty()
                    },
                }
            }),
    {
        let ghost before = self.buffered();
        let ghost now = before.push((key@, number));
        self.used = self.used.saturating_add(key.len()).saturating_add(40);
        self.buffer.push((key, number));
        proof {
            assert(self.buffered() =~= now);
            assert(now.drop_last() =~= before);
        }
        if self.used < self.budget {
            return None;
        }
        let mut taken: Vec<(Vec<u8>, u64)> = Vec::new();
        std::mem::swap(&mut taken, &mut self.buffer);
        self.used = 0;
        assert(self.buffered() =~= Seq::<Rec>::empty());
        Some(write_run(taken, self.reverse))
    }

    /// The run of the records that are left, if there are any.
    pub fn finish(self) -> (r: Option<Vec<u8>>)
        requires
            self.wf(),
        ensures
            match r {
                None => self.buffered().len() == 0,
                Some(run) => self.buffered().len() > 0 && is_run_of(
                    run@,
                    self.buffered().to_multiset(),
                    self.reversed(),
                ),
            },
    {
        if self.buffer.len() == 0 {
            return None;
        }
        Some(write_run(self.buffer, self.reverse))
    }
}

/// How many runs the records from `i` on make, after what was buffered.
pub open spec fn runs_from(keys: Seq<Seq<u8>>, budget: nat, i: int, used: nat) -> nat
    decreases keys.len() - i,
{
    if i < 0 || i >= keys.len() {
        if used > 0 {
            1
        } else {
            0
        }
    } else {
        let now = used + charge(keys[i].len());
        if now >= budget {
            1 + runs_from(keys, budget, i + 1, 0)
        } else {
            runs_from(keys, budget, i + 1, now)
        }
    }
}

// ---- merging in passes -------------------------------------------------------

/// How many times the records are merged if there are so many runs.
pub open spec fn passes(runs: nat) -> nat
    decreases runs,
{
    if runs > MERGE_FAN_IN {
        1 + passes(((runs + MERGE_FAN_IN - 1) / MERGE_FAN_IN as int) as nat)
    } else {
        1
    }
}

pub fn merge_pass_count(run_count: usize) -> (n: u64)
    ensures
        n == passes(run_count as nat),
        n <= run_count + 1,
    decreases run_count,
{
    if run_count > MERGE_FAN_IN {
        let fewer = if run_count % MERGE_FAN_IN == 0 {
            run_count / MERGE_FAN_IN
        } else {
            run_count / MERGE_FAN_IN + 1
        };
        assert(fewer == (run_count + MERGE_FAN_IN - 1) / MERGE_FAN_IN as int);
        assert(fewer < run_count);
        1 + merge_pass_count(fewer)
    } else {
        1
    }
}

/// The runs as the merge sees them.
pub open spec fn run_views(runs: Seq<&[u8]>) -> Seq<RunView> {
    Seq::new(
        runs.len(),
        |i: int| RunView { recs: frames(runs[i]@, 0).0, whole: frames(runs[i]@, 0).1 },
    )
}

/// Runs that hold whole records, in order.
pub open spec fn sound_runs(runs: Seq<&[u8]>, reverse: bool) -> bool {
    forall|i: int|
        0 <= i < runs.len() ==> frames((#[trigger] runs[i])@, 0).1 && in_order(
            frames(runs[i]@, 0).0,
            reverse,
        )
}

proof fn lemma_frames_keys(bytes: Seq<u8>, pos: int)
    requires
        0 <= pos,
    ensures
        forall|i: int|
            0 <= i < frames(bytes, pos).0.len() ==> (#[trigger] frames(bytes, pos).0[i]).0.len()
                <= u32::MAX,
    decreases bytes.len() - pos,
{
    if pos + 4 <= bytes.len() {
        let n = le_value(bytes.subrange(pos, pos + 4));
        lemma_pow256();
        lemma_value_bound(bytes.subrange(pos, pos + 4));
        if pos + 4 + n + 8 <= bytes.len() {
            lemma_frames_keys(bytes, pos + 4 + n + 8);
            let rest = frames(bytes, pos + 4 + n + 8).0;
            let all = frames(bytes, pos).0;
            assert forall|i: int| 0 <= i < all.len() implies (#[trigger] all[i]).0.len()
                <= u32::MAX by {
                if i > 0 {
                    assert(all[i] == rest[i - 1]);
                }
            }
        }
    }
}

proof fn lemma_value_bound(b: Seq<u8>)
    ensures
        le_value(b) < crate::cache::pow256(b.len()),
    decreases b.len(),
{
    if b.len() > 0 {
        lemma_value_bound(b.drop_first());
    }
}

/// A merge that is under way: what came out, and what is left, are what the
/// runs merge to; and every key can be written.
spec fn under_way(
    m: Merger,
    all: Seq<Rec>,
    done: Seq<Rec>,
    reverse: bool,
) -> bool {
    &&& m.wf()
    &&& m.reversed() == reverse
    &&& all == done + merged(m.left(), reverse)
    &&& forall|i: int| 0 <= i < m.left().len() ==> (#[trigger] m.left()[i]).whole
    &&& forall|i: int| 0 <= i < all.len() ==> (#[trigger] all[i]).0.len() <= u32::MAX
}

proof fn lemma_merge_start(runs: Seq<&[u8]>, m: Merger, reverse: bool)
    requires
        sound_runs(runs, reverse),
        m.wf(),
        m.reversed() == reverse,
        m.left() == run_views(runs),
    ensures
        under_way(m, merged(run_views(runs), reverse), Seq::empty(), reverse),
        in_order(merged(run_views(runs), reverse), reverse),
        merged(run_views(runs), reverse).to_multiset() == pool(
            run_views(runs),
            runs.len() as int,
        ),
{
    let v = run_views(runs);
    let all = merged(v, reverse);
    assert forall|i: int| 0 <= i < v.len() implies in_order((#[trigger] v[i]).recs, reverse)
        && v[i].whole by {
        assert(frames(runs[i]@, 0).1);
    }
    merging_keeps_all_in_order(v, reverse);
    assert(Seq::<Rec>::empty() + all =~= all);
    assert forall|i: int| 0 <= i < all.len() implies (#[trigger] all[i]).0.len() <= u32::MAX by {
        broadcast use vstd::seq_lib::group_to_multiset_ensures;

        assert(all.contains(all[i]));
        assert(pool(v, v.len() as int).count(all[i]) > 0);
        crate::runs::lemma_pool_contains(v, v.len() as int, all[i]);
        let k = choose|k: int| 0 <= k < v.len() && (#[trigger] v[k]).recs.contains(all[i]);
        let j = choose|j: int| 0 <= j < v[k].recs.len() && v[k].recs[j] == all[i];
        lemma_frames_keys(runs[k]@, 0);
        assert(frames(runs[k]@, 0).0[j].0.len() <= u32::MAX);
    }
}

/// What comes of taking the next record of a merge.
proof fn lemma_merge_step(m: Merger, all: Seq<Rec>, done: Seq<Rec>, reverse: bool)
    requires
        under_way(m, all, done, reverse),
    ensures
        match least(m.left(), m.left().len() as int, reverse) {
            None => all == done,
            Some(k) => {
                &&& 0 <= k < m.left().len()
                &&& m.left()[k].recs.len() > 0
                &&& m.left()[k].whole
                &&& all == done.push(m.left()[k].recs[0]) + merged(
                    m.left().update(k, m.left()[k].dropped()),
                    reverse,
                )
                &&& done.len() < all.len()
                &&& all[done.len() as int] == m.left()[k].recs[0]
            },
        },
{
    let left = m.left();
    crate::runs::lemma_least(left, left.len() as int, reverse);
    match least(left, left.len() as int, reverse) {
        None => {
            assert(merged(left, reverse) =~= Seq::<Rec>::empty());
            assert(all =~= done);
        },
        Some(k) => {
            let h = left[k].recs[0];
            let rest = merged(left.update(k, left[k].dropped()), reverse);
            assert(all =~= done.push(h) + rest);
            assert(all[done.len() as int] == h);
        },
    }
}

/// Merges sound runs to one run.
pub fn merge_to_run(runs: Vec<&[u8]>, reverse: bool) -> (r: Result<Vec<u8>, Error>)
    requires
        sound_runs(runs@, reverse),
    ensures
        r matches Ok(out) && is_run_of(
            out@,
            pool(run_views(runs@), runs@.len() as int),
            reverse,
        ),
{
    let ghost rs = runs@;
    let ghost views = run_views(rs);
    let ghost all = merged(views, reverse);
    let mut m = match Merger::new(runs, reverse) {
        Ok(m) => m,
        Err(e) => {
            proof {
                let i = choose|i: int|
                    0 <= i < rs.len() && #[trigger] crate::runs::frame_at(rs[i]@, 0) is Torn;
                assert(frames(rs[i]@, 0).1);
            }
            return Err(e);
        },
    };
    proof {
        assert(m.left() =~= views);
        lemma_merge_start(rs, m, reverse);
    }
    let mut out: Vec<u8> = Vec::new();
    let ghost mut done: Seq<Rec> = Seq::empty();
    assert(out@ =~= run_bytes(done));
    loop
        invariant
            under_way(m, all, done, reverse),
            out@ == run_bytes(done),
            in_order(all, reverse),
            all.to_multiset() == pool(run_views(rs), rs.len() as int),
            rs == runs@,
        decreases all.len() - done.len(),
    {
        let ghost m0 = m;
        proof {
            lemma_merge_step(m, all, done, reverse);
        }
        match m.next() {
            Ok(Some(x)) => {
                let ghost rec = rec_view(x);
                assert(rec == all[done.len() as int]);
                push_rec(&mut out, x.0.as_slice(), x.1);
                proof {
                    crate::runs::lemma_run_push(done, rec);
                    done = done.push(rec);
                    assert forall|i: int| 0 <= i < m.left().len() implies (
                    #[trigger] m.left()[i]).whole by {
                        assert(m0.left()[i].whole);
                    }
                }
            },
            Ok(None) => {
                proof {
                    runs_are_read_back(Seq::empty(), all);
                    assert(Seq::<u8>::empty() + run_bytes(all) =~= out@);
                }
                return Ok(out);
            },
            Err(e) => {
                return Err(e);
            },
        }
    }
}

/// The numbers of records.
pub open spec fn numbers_of(s: Seq<Rec>) -> Seq<u64> {
    s.map_values(|r: Rec| r.1)
}

/// Merges sound runs to the numbers of their records.
pub fn merge_to_ordering(runs: Vec<&[u8]>, reverse: bool) -> (r: Result<Vec<u64>, Error>)
    requires
        sound_runs(runs@, reverse),
    ensures
        r matches Ok(out) && out@ == numbers_of(merged(run_views(runs@), reverse)),
{
    let ghost rs = runs@;
    let ghost views = run_views(rs);
    let ghost all = merged(views, reverse);
    let mut m = match Merger::new(runs, reverse) {
        Ok(m) => m,
        Err(e) => {
            proof {
                let i = choose|i: int|
                    0 <= i < rs.len() && #[trigger] crate::runs::frame_at(rs[i]@, 0) is Torn;
                assert(frames(rs[i]@, 0).1);
            }
            return Err(e);
        },
    };
    proof {
        assert(m.left() =~= views);
        lemma_merge_start(rs, m, reverse);
    }
    let mut out: Vec<u64> = Vec::new();
    let ghost mut done: Seq<Rec> = Seq::empty();
    assert(out@ =~= numbers_of(done));
    loop
        invariant
            under_way(m, all, done, reverse),
            out@ == numbers_of(done),
            all == merged(run_views(rs), reverse),
            rs == runs@,
        decreases all.len() - done.len(),
    {
        let ghost m0 = m;
        proof {
            lemma_merge_step(m, all, done, reverse);
        }
        match m.next() {
            Ok(Some(x)) => {
                let ghost rec = rec_view(x);
                out.push(x.1);
                proof {
                    assert(out@ =~= numbers_of(done.push(rec)));
                    done = done.push(rec);
                    assert forall|i: int| 0 <= i < m.left().len() implies (
                    #[trigger] m.left()[i]).whole by {
                        assert(m0.left()[i].whole);
                    }
                }
            },
            Ok(None) => {
                return Ok(out);
            },
            Err(e) => {
                return Err(e);
            },
        }
    }
}

/// Runs as the merge sees them.
pub open spec fn owned_views(runs: Seq<Vec<u8>>) -> Seq<RunView> {
    Seq::new(
        runs.len(),
        |i: int| RunView { recs: frames(runs[i]@, 0).0, whole: frames(runs[i]@, 0).1 },
    )
}

/// Runs that hold whole records, in order.
pub open spec fn sound(runs: Seq<Vec<u8>>, reverse: bool) -> bool {
    forall|i: int|
        0 <= i < runs.len() ==> frames((#[trigger] runs[i])@, 0).1 && in_order(
            frames(runs[i]@, 0).0,
            reverse,
        )
}

/// All records of runs.
pub open spec fn records_in(runs: Seq<Vec<u8>>) -> Multiset<Rec> {
    pool(owned_views(runs), runs.len() as int)
}

/// Some of the runs.
fn some_runs<'a>(runs: &'a Vec<Vec<u8>>, from: usize, to: usize, Ghost(reverse): Ghost<bool>) -> (v:
    Vec<&'a [u8]>)
    requires
        from <= to <= runs@.len(),
        sound(runs@, reverse),
    ensures
        v@.len() == to - from,
        sound_runs(v@, reverse),
        run_views(v@) == owned_views(runs@).subrange(from as int, to as int),
{
    let mut v: Vec<&'a [u8]> = Vec::new();
    let mut i: usize = from;
    while i < to
        invariant
            from <= i <= to <= runs@.len(),
            v@.len() == i - from,
            forall|j: int| 0 <= j < v@.len() ==> (#[trigger] v@[j])@ == runs@[from + j]@,
        decreases to - i,
    {
        v.push(runs[i].as_slice());
        i += 1;
    }
    assert(run_views(v@) =~= owned_views(runs@).subrange(from as int, to as int));
    v
}

proof fn lemma_pool_same(a: Seq<RunView>, b: Seq<RunView>, n: int)
    requires
        0 <= n <= a.len(),
        n <= b.len(),
        forall|i: int| 0 <= i < n ==> a[i] == b[i],
    ensures
        pool(a, n) == pool(b, n),
    decreases n,
{
    if n > 0 {
        lemma_pool_same(a, b, n - 1);
    }
}

proof fn lemma_pool_split(m: Seq<RunView>, a: int, b: int)
    requires
        0 <= a <= b <= m.len(),
    ensures
        pool(m, b) == pool(m, a).add(pool(m.subrange(a, b), b - a)),
    decreases b - a,
{
    if a == b {
        assert(pool(m, b) =~= pool(m, a).add(Multiset::empty()));
    } else {
        lemma_pool_split(m, a, b - 1);
        let whole = m.subrange(a, b);
        let part = m.subrange(a, b - 1);
        lemma_pool_same(whole, part, b - 1 - a);
        assert(whole[b - 1 - a] == m[b - 1]);
        assert(pool(m, b) =~= pool(m, a).add(pool(whole, b - a)));
    }
}

proof fn lemma_records_push(runs: Seq<Vec<u8>>, run: Vec<u8>)
    ensures
        records_in(runs.push(run)) == records_in(runs).add(frames(run@, 0).0.to_multiset()),
{
    let a = owned_views(runs);
    let b = owned_views(runs.push(run));
    lemma_pool_same(a, b, runs.len() as int);
    assert(b[runs.len() as int].recs == frames(run@, 0).0);
}

/// Runs `i * MERGE_FAN_IN` and after, as many as are merged at a time.
pub open spec fn group_bounds(count: nat, i: int) -> (int, int) {
    let from = i * MERGE_FAN_IN;
    let to = from + MERGE_FAN_IN;
    (from, if to <= count { to } else { count as int })
}

/// Which runs the next pass merges into one each, from the first up to but not
/// including the second; `None` where all runs can be merged at once.
pub fn merge_groups(count: usize) -> (r: Option<Vec<(usize, usize)>>)
    ensures
        match r {
            None => count <= MERGE_FAN_IN,
            Some(v) => {
                &&& count > MERGE_FAN_IN
                &&& v@.len() == (count + MERGE_FAN_IN - 1) / MERGE_FAN_IN as int
                &&& forall|i: int|
                    0 <= i < v@.len() ==> ((#[trigger] v@[i]).0 as int, v@[i].1 as int)
                        == group_bounds(count as nat, i)
            },
        },
{
    if count <= MERGE_FAN_IN {
        return None;
    }
    let mut v: Vec<(usize, usize)> = Vec::new();
    let mut from: usize = 0;
    while from < count
        invariant
            count > MERGE_FAN_IN,
            from <= count,
            from == v@.len() * MERGE_FAN_IN || (from == count && v@.len() == (count + MERGE_FAN_IN
                - 1) / MERGE_FAN_IN as int),
            forall|i: int|
                0 <= i < v@.len() ==> ((#[trigger] v@[i]).0 as int, v@[i].1 as int) == group_bounds(
                    count as nat,
                    i,
                ),
        decreases count - from,
    {
        let to = if count - from <= MERGE_FAN_IN {
            count
        } else {
            from + MERGE_FAN_IN
        };
        v.push((from, to));
        from = to;
    }
    Some(v)
}

/// Merges runs to fewer runs, some at a time.
fn merge_pass(runs: &Vec<Vec<u8>>, groups: &Vec<(usize, usize)>, reverse: bool) -> (r: Result<
    Vec<Vec<u8>>,
    Error,
>)
    requires
        sound(runs@, reverse),
        groups@.len() == (runs@.len() + MERGE_FAN_IN - 1) / MERGE_FAN_IN as int,
        forall|i: int|
            0 <= i < groups@.len() ==> ((#[trigger] groups@[i]).0 as int, groups@[i].1 as int)
                == group_bounds(runs@.len(), i),
    ensures
        r matches Ok(out) && {
            &&& sound(out@, reverse)
            &&& records_in(out@) == records_in(runs@)
            &&& out@.len() == (runs@.len() + MERGE_FAN_IN - 1) / MERGE_FAN_IN as int
        },
{
    let n = runs.len();
    let ghost views = owned_views(runs@);
    let mut out: Vec<Vec<u8>> = Vec::new();
    let mut k: usize = 0;
    assert(records_in(out@) =~= pool(views, 0));
    while k < groups.len()
        invariant
            n == runs@.len(),
            views == owned_views(runs@),
            sound(runs@, reverse),
            groups@.len() == (n + MERGE_FAN_IN - 1) / MERGE_FAN_IN as int,
            forall|i: int|
                0 <= i < groups@.len() ==> ((#[trigger] groups@[i]).0 as int, groups@[i].1 as int)
                    == group_bounds(n as nat, i),
            k <= groups@.len(),
            out@.len() == k,
            sound(out@, reverse),
            records_in(out@) == pool(
                views,
                if k * MERGE_FAN_IN <= n {
                    k * MERGE_FAN_IN
                } else {
                    n as int
                },
            ),
        decreases groups.len() - k,
    {
        let (from, to) = groups[k];
        assert((from as int, to as int) == group_bounds(n as nat, k as int));
        let some = some_runs(runs, from, to, Ghost(reverse));
        let run = match merge_to_run(some, reverse) {
            Ok(run) => run,
            Err(e) => {
                return Err(e);
            },
        };
        proof {
            lemma_pool_split(views, from as int, to as int);
            lemma_records_push(out@, run);
        }
        out.push(run);
        k += 1;
    }
    Ok(out)
}

/// Merges runs, in as many passes as it takes, to the numbers of their records.
pub fn merge_runs(runs: Vec<Vec<u8>>, reverse: bool) -> (r: Result<Vec<u64>, Error>)
    requires
        sound(runs@, reverse),
    ensures
        r is Ok,
        exists|s: Seq<Rec>|
            #![trigger in_order(s, reverse)]
            in_order(s, reverse) && s.to_multiset() == records_in(runs@) && r->Ok_0@ == numbers_of(
                s,
            ),
{
    let ghost all = records_in(runs@);
    let mut now = runs;
    loop
        invariant
            sound(now@, reverse),
            records_in(now@) == all,
        decreases now.len(),
    {
        let ghost n = now@.len();
        let groups = match merge_groups(now.len()) {
            Some(g) => g,
            None => {
                break;
            },
        };
        now = match merge_pass(&now, &groups, reverse) {
            Ok(next) => next,
            Err(e) => {
                return Err(e);
            },
        };
        assert((n + MERGE_FAN_IN - 1) / MERGE_FAN_IN as int <= n / 2 + 1);
        assert(now@.len() < n);
    }
    let last = some_runs(&now, 0, now.len(), Ghost(reverse));
    proof {
        let v = owned_views(now@);
        assert(v.subrange(0, now@.len() as int) =~= v);
        assert forall|i: int| 0 <= i < v.len() implies in_order(
            (#[trigger] v[i]).recs,
            reverse,
        ) by {
            assert(frames(now@[i]@, 0).1);
        }
        merging_keeps_all_in_order(v, reverse);
        assert(in_order(merged(v, reverse), reverse));
    }
    merge_to_ordering(last, reverse)
}

// ---- the order of lines ------------------------------------------------------

/// Line numbers in the order of the keys of the lines: every line once, each
/// before those that come after it.
pub open spec fn is_ordering(order: Seq<u64>, keys: Seq<Seq<u8>>, reverse: bool) -> bool {
    &&& order.len() == keys.len()
    &&& forall|i: int| 0 <= i < order.len() ==> (#[trigger] order[i]) < keys.len()
    &&& forall|i: int, j: int|
        0 <= i < j < order.len() ==> rec_less(
            (keys[#[trigger] order[i] as int], order[i]),
            (keys[#[trigger] order[j] as int], order[j]),
            reverse,
        )
}

/// The records of lines by their keys.
pub open spec fn keyed(keys: Seq<Seq<u8>>) -> Seq<Rec> {
    Seq::new(keys.len(), |i: int| (keys[i], i as u64))
}

proof fn lemma_ordering(s: Seq<Rec>, keys: Seq<Seq<u8>>, reverse: bool)
    requires
        keys.len() <= u64::MAX,
        in_order(s, reverse),
        s.to_multiset() == keyed(keys).to_multiset(),
    ensures
        is_ordering(numbers_of(s), keys, reverse),
{
    broadcast use vstd::seq_lib::group_to_multiset_ensures;

    let k = keyed(keys);
    assert(s.len() == k.len()) by {
        assert(s.to_multiset().len() == k.to_multiset().len());
    }
    assert(k.no_duplicates());
    k.lemma_multiset_has_no_duplicates();
    s.lemma_multiset_has_no_duplicates_conv();
    assert forall|i: int| 0 <= i < s.len() implies (#[trigger] s[i]).1 < keys.len() && s[i].0
        == keys[s[i].1 as int] by {
        assert(s.contains(s[i]));
        assert(k.to_multiset().count(s[i]) > 0);
        assert(k.contains(s[i]));
        let j = choose|j: int| 0 <= j < k.len() && k[j] == s[i];
        assert(s[i] == (keys[j], j as u64));
    }
    let order = numbers_of(s);
    assert forall|i: int, j: int| 0 <= i < j < order.len() implies rec_less(
        (keys[#[trigger] order[i] as int], order[i]),
        (keys[#[trigger] order[j] as int], order[j]),
        reverse,
    ) by {
        assert(s[i] == (keys[order[i] as int], order[i]));
        assert(s[j] == (keys[order[j] as int], order[j]));
        assert(!rec_less(s[j], s[i], reverse));
        assert(s[i] != s[j]);
        records_are_ordered(s[i], s[j], s[i], reverse);
    }
}

/// There is one order of the lines: whatever the budget, and however the runs
/// were cut and merged, the same order comes out.
pub proof fn the_order_is_unique(
    a: Seq<u64>,
    b: Seq<u64>,
    keys: Seq<Seq<u8>>,
    reverse: bool,
)
    requires
        is_ordering(a, keys, reverse),
        is_ordering(b, keys, reverse),
        keys.len() <= u64::MAX,
    ensures
        a == b,
{
    lemma_same_prefix(a, b, keys, reverse, a.len() as int);
    assert(a =~= b);
}

/// Every line has its place in an order.
pub proof fn lemma_onto(a: Seq<u64>, keys: Seq<Seq<u8>>, reverse: bool, x: u64)
    requires
        is_ordering(a, keys, reverse),
        keys.len() <= u64::MAX,
        x < keys.len(),
    ensures
        a.contains(x),
{
    assert(a.no_duplicates()) by {
        assert forall|i: int, j: int| 0 <= i < a.len() && 0 <= j < a.len() && i != j implies a[i]
            != a[j] by {
            let r = (keys[a[i] as int], a[i]);
            records_are_ordered(r, r, r, reverse);
            if i < j {
                assert(rec_less(
                    (keys[a[i] as int], a[i]),
                    (keys[a[j] as int], a[j]),
                    reverse,
                ));
            } else {
                assert(rec_less(
                    (keys[a[j] as int], a[j]),
                    (keys[a[i] as int], a[i]),
                    reverse,
                ));
            }
        }
    }
    if !a.contains(x) {
        let s = a.to_set();
        a.unique_seq_to_set();
        assert(s.insert(x).len() == s.len() + 1);
        lemma_below(keys.len() as u64);
        assert(s.insert(x).subset_of(below(keys.len() as u64)));
        vstd::set_lib::lemma_len_subset(s.insert(x), below(keys.len() as u64));
    }
}

spec fn below(n: u64) -> Set<u64> {
    Set::new(|y: u64| y < n)
}

proof fn lemma_below(n: u64)
    ensures
        below(n).finite(),
        below(n).len() == n,
    decreases n,
{
    if n == 0 {
        assert(below(0) =~= Set::empty());
    } else {
        lemma_below((n - 1) as u64);
        assert(below(n) =~= below((n - 1) as u64).insert((n - 1) as u64));
    }
}

proof fn lemma_same_prefix(
    a: Seq<u64>,
    b: Seq<u64>,
    keys: Seq<Seq<u8>>,
    reverse: bool,
    n: int,
)
    requires
        is_ordering(a, keys, reverse),
        is_ordering(b, keys, reverse),
        keys.len() <= u64::MAX,
        0 <= n <= a.len(),
    ensures
        forall|i: int| 0 <= i < n ==> a[i] == b[i],
    decreases n,
{
    if n > 0 {
        lemma_same_prefix(a, b, keys, reverse, n - 1);
        let k = n - 1;
        lemma_onto(a, keys, reverse, b[k]);
        lemma_onto(b, keys, reverse, a[k]);
        let i = choose|i: int| 0 <= i < a.len() && a[i] == b[k];
        let j = choose|j: int| 0 <= j < b.len() && b[j] == a[k];
        let ra = (keys[a[k] as int], a[k]);
        let rb = (keys[b[k] as int], b[k]);
        records_are_ordered(ra, rb, ra, reverse);
        if a[k] != b[k] {
            if i < k {
                assert(a[i] == b[i]);
                assert(rec_less((keys[b[i] as int], b[i]), rb, reverse));
                records_are_ordered(rb, rb, rb, reverse);
            } else if j < k {
                assert(a[j] == b[j]);
                assert(rec_less((keys[a[j] as int], a[j]), ra, reverse));
                records_are_ordered(ra, ra, ra, reverse);
            } else {
                assert(i > k && j > k);
                assert(rec_less(ra, (keys[a[i] as int], a[i]), reverse));
                assert(rec_less(rb, (keys[b[j] as int], b[j]), reverse));
            }
        }
    }
}

// ---- progress ----------------------------------------------------------------

/// Progress that goes from nothing to all, never back.
pub open spec fn goes_forward(log: Seq<(u64, u64)>, total: u64) -> bool {
    &&& log.len() > 0
    &&& log[0] == (0u64, total)
    &&& forall|i: int| 0 <= i < log.len() ==> (#[trigger] log[i]).1 == total && log[i].0 <= total
    &&& forall|i: int, j: int|
        0 <= i < j < log.len() ==> (#[trigger] log[i]).0 <= (#[trigger] log[j]).0
}

/// Notes how far an operation has come.
fn note(log: &mut Vec<(u64, u64)>, done: u64, total: u64)
    requires
        goes_forward(old(log)@, total),
    ensures
        goes_forward(final(log)@, total),
        done >= total ==> final(log)@.last() == (total, total),
{
    let last = log[log.len() - 1].0;
    let capped = if done <= total {
        done
    } else {
        total
    };
    let now = if capped >= last {
        capped
    } else {
        last
    };
    log.push((now, total));
}

/// How far a sort has come when it has merged `done` of `work` records, counted
/// once for every pass: the second half of the whole.
pub open spec fn merge_share(done: nat, work: nat, lines: nat) -> nat {
    if work == 0 {
        lines + lines
    } else {
        lines + done * lines / work
    }
}

fn merge_progress(done: u64, work: u64, lines: u64) -> (n: u64)
    requires
        2 * lines <= u64::MAX,
        done <= work,
    ensures
        n == merge_share(done as nat, work as nat, lines as nat),
        lines <= n <= 2 * lines,
{
    if work == 0 {
        return lines + lines;
    }
    assert(done * lines <= work * lines) by (nonlinear_arith)
        requires
            done <= work,
            lines >= 0,
    ;
    assert(work * lines <= u128::MAX) by (nonlinear_arith)
        requires
            0 <= work <= u64::MAX,
            0 <= lines <= u64::MAX,
    ;
    let share = (done as u128) * (lines as u128) / (work as u128);
    assert(share <= lines) by (nonlinear_arith)
        requires
            share == (done as u128) * (lines as u128) / (work as u128) as int,
            done <= work,
            work > 0,
            lines >= 0,
    ;
    lines + share as u64
}

// ---- sorting a document ------------------------------------------------------

/// What a sort gives.
#[derive(Debug)]
pub struct SortResult {
    /// The numbers of the lines, in order.
    pub ordering: Vec<u64>,
    pub line_count: u64,
    /// How many runs there were before they were merged.
    pub runs: usize,
    /// How many bytes the runs, those that passes make of them, and the offsets
    /// of the lines take.
    pub spill_bytes: u64,
    /// How far the sort had come, noted as it went on.
    pub progress: Vec<(u64, u64)>,
}

/// The keys of all lines.
pub open spec fn line_keys(doc: DocView, opts: SortOptions, numbers: Seq<Vec<u64>>) -> Seq<Seq<u8>> {
    Seq::new(
        doc.count(),
        |i: int|
            sort_key_of(
                doc.raw(i as nat),
                doc.encoding,
                opts,
                if opts.numeric { numbers[i]@ } else { Seq::empty() },
            ),
    )
}

/// The bytes that the records of the first `n` lines take in runs: each has its
/// key, the length of the key and its number.
pub open spec fn record_bytes(keys: Seq<Seq<u8>>, n: int) -> nat
    decreases n,
{
    if n <= 0 {
        0
    } else {
        record_bytes(keys, n - 1) + keys[n - 1].len() + 12
    }
}

/// A number as far as 64 bits count.
pub open spec fn word64(n: nat) -> u64 {
    if n <= u64::MAX {
        n as u64
    } else {
        u64::MAX
    }
}

pub(crate) fn add_capped(a: u64, b: u64) -> (c: u64)
    ensures
        c == word64((a + b) as nat),
{
    if a > u64::MAX - b {
        u64::MAX
    } else {
        a + b
    }
}

/// The bytes that a sort writes: all records once for each time that they are
/// merged, and two offsets for each line.
fn spilled(lines: u64, passes: u64, records: u64, Ghost(all): Ghost<nat>) -> (n: u64)
    requires
        16 * lines <= u64::MAX,
        passes >= 1,
        records == word64(all),
    ensures
        n == word64(16 * lines as nat + passes as nat * all),
{
    let product: u128 = {
        assert(passes as int * records as int <= 0xFFFF_FFFF_FFFF_FFFF * 0xFFFF_FFFF_FFFF_FFFF)
            by (nonlinear_arith)
            requires
                0 <= passes <= 0xFFFF_FFFF_FFFF_FFFFu64,
                0 <= records <= 0xFFFF_FFFF_FFFF_FFFFu64,
        ;
        passes as u128 * records as u128
    };
    assert(passes as nat * all >= all) by (nonlinear_arith)
        requires
            passes >= 1,
    ;
    assert(passes as int * records as int >= records) by (nonlinear_arith)
        requires
            passes >= 1,
            records >= 0,
    ;
    if product > u64::MAX as u128 {
        assert(passes as nat * all >= passes as nat * records as nat) by (nonlinear_arith)
            requires
                all >= records,
                passes >= 1,
        ;
        u64::MAX
    } else {
        add_capped(16 * lines, product as u64)
    }
}

pub open spec fn key_too_long() -> ErrorView {
    ErrorView::Unsupported("a sort key is too long to be written"@)
}

/// Merges runs, and notes how far the sort has come after each part of a pass.
fn merge_runs_noting(
    runs: Vec<Vec<u8>>,
    reverse: bool,
    lines: u64,
    log: &mut Vec<(u64, u64)>,
) -> (r: Result<Vec<u64>, Error>)
    requires
        sound(runs@, reverse),
        2 * lines <= u64::MAX,
        goes_forward(old(log)@, (2 * lines) as u64),
    ensures
        goes_forward(final(log)@, (2 * lines) as u64),
        final(log)@.last() == ((2 * lines) as u64, (2 * lines) as u64),
        r is Ok,
        exists|s: Seq<Rec>|
            #![trigger in_order(s, reverse)]
            in_order(s, reverse) && s.to_multiset() == records_in(runs@) && r->Ok_0@ == numbers_of(
                s,
            ),
{
    let work = merge_pass_count(runs.len());
    let mut pass: u64 = 0;
    let ghost all = records_in(runs@);
    let mut now = runs;
    loop
        invariant
            sound(now@, reverse),
            records_in(now@) == all,
            2 * lines <= u64::MAX,
            goes_forward(log@, (2 * lines) as u64),
            pass + passes(now@.len()) == work,
        decreases now.len(),
    {
        let ghost n = now@.len();
        let groups = match merge_groups(now.len()) {
            Some(g) => g,
            None => {
                break;
            },
        };
        now = match merge_pass(&now, &groups, reverse) {
            Ok(next) => next,
            Err(e) => {
                return Err(e);
            },
        };
        assert((n + MERGE_FAN_IN - 1) / MERGE_FAN_IN as int <= n / 2 + 1);
        assert(now@.len() < n);
        pass = pass + 1;
        let at = merge_progress(pass, work, lines);
        note(log, at, 2 * lines);
    }
    let order = merge_runs(now, reverse);
    note(log, 2 * lines, 2 * lines);
    order
}

/// Sorts the lines of a document. The numbers are the bits of the numbers in
/// the key columns of each line, where the keys are numbers.
pub fn sort(doc: &Document, opts: &SortOptions, numbers: &Vec<Vec<u64>>) -> (r: Result<
    SortResult,
    Error,
>)
    requires
        doc.wf(),
        opts.numeric ==> numbers@.len() == doc@.count(),
        opts.numeric ==> forall|i: int|
            0 <= i < numbers@.len() ==> (#[trigger] numbers@[i])@.len() >= key_width(*opts),
    ensures
        ({
            let keys = line_keys(doc@, *opts, numbers@);
            match r {
                Ok(s) => {
                    &&& forall|i: int| 0 <= i < keys.len() ==> (#[trigger] keys[i]).len() <= u32::MAX
                    &&& is_ordering(s.ordering@, keys, opts.reverse)
                    &&& s.line_count == keys.len()
                    &&& s.runs == runs_from(keys, opts.budget_bytes as nat, 0, 0)
                    &&& s.spill_bytes == word64(
                        16 * keys.len() + passes(s.runs as nat) * record_bytes(
                            keys,
                            keys.len() as int,
                        ),
                    )
                    &&& goes_forward(s.progress@, (2 * keys.len()) as u64)
                    &&& s.progress@.last() == ((2 * keys.len()) as u64, (2 * keys.len()) as u64)
                },
                Err(e) => {
                    &&& e@ == key_too_long()
                    &&& exists|i: int| 0 <= i < keys.len() && (#[trigger] keys[i]).len() > u32::MAX
                },
            }
        }),
{
    let ghost d = doc@;
    let ghost keys = line_keys(d, *opts, numbers@);
    proof {
        doc.lemma_wf();
        lemma_count(d.buf, d.newline(), d.base, 0);
    }
    let buf_len = doc.buf().len();
    let total = doc.line_count();
    let enc = doc.encoding();
    let span = 2 * total;
    let mut log: Vec<(u64, u64)> = Vec::new();
    log.push((0, span));
    let mut builder = RunBuilder::new(opts.budget_bytes, opts.reverse);
    let mut runs: Vec<Vec<u8>> = Vec::new();
    let none: Vec<u64> = Vec::new();
    let mut written: u64 = 0;
    let mut at: u64 = 0;
    proof {
        broadcast use vstd::seq_lib::group_to_multiset_ensures;

        let k = keyed(keys);
        assert(k.take(0) =~= Seq::<Rec>::empty());
        assert(records_in(runs@) =~= Multiset::empty());
        assert(records_in(runs@).add(builder.buffered().to_multiset()) =~= k.take(
            0,
        ).to_multiset());
        assert(charges(builder.buffered()) == 0);
    }
    while at < total
        invariant
            doc.wf(),
            d == doc@,
            d.valid(),
            enc == d.encoding,
            total == d.count(),
            keys == line_keys(d, *opts, numbers@),
            opts.numeric ==> numbers@.len() == d.count(),
            opts.numeric ==> forall|i: int|
                0 <= i < numbers@.len() ==> (#[trigger] numbers@[i])@.len() >= key_width(*opts),
            total <= usize::MAX / 16,
            span == 2 * total,
            at <= total,
            goes_forward(log@, span),
            builder.wf(),
            builder.budget() == opts.budget_bytes,
            builder.reversed() == opts.reverse,
            sound(runs@, opts.reverse),
            forall|i: int| 0 <= i < at ==> (#[trigger] keys[i]).len() <= u32::MAX,
            records_in(runs@).add(builder.buffered().to_multiset()) == keyed(keys).take(
                at as int,
            ).to_multiset(),
            runs_from(keys, opts.budget_bytes as nat, 0, 0) == runs@.len() + runs_from(
                keys,
                opts.budget_bytes as nat,
                at as int,
                charges(builder.buffered()),
            ),
            runs@.len() <= at,
            written == word64(record_bytes(keys, at as int)),
        decreases total - at,
    {
        let want = if total - at <= SORT_BATCH {
            total - at
        } else {
            SORT_BATCH
        };
        let batch = doc.raw_line_ranges_with_terminator(at, want);
        let ghost from = at;
        let mut j: usize = 0;
        while j < batch.len()
            invariant
                doc.wf(),
                d == doc@,
                d.valid(),
                enc == d.encoding,
                total == d.count(),
                keys == line_keys(d, *opts, numbers@),
                opts.numeric ==> numbers@.len() == d.count(),
                opts.numeric ==> forall|i: int|
                    0 <= i < numbers@.len() ==> (#[trigger] numbers@[i])@.len() >= key_width(*opts),
                total <= usize::MAX / 16,
                batch@.len() == want,
                from + want <= total,
                at == from + j,
                j <= batch@.len(),
                forall|i: int|
                    0 <= i < batch@.len() ==> (#[trigger] batch@[i]).1@ == d.raw(
                        (from + i) as nat,
                    ),
                builder.wf(),
                builder.budget() == opts.budget_bytes,
                builder.reversed() == opts.reverse,
                sound(runs@, opts.reverse),
                forall|i: int| 0 <= i < at ==> (#[trigger] keys[i]).len() <= u32::MAX,
                records_in(runs@).add(builder.buffered().to_multiset()) == keyed(keys).take(
                    at as int,
                ).to_multiset(),
                runs_from(keys, opts.budget_bytes as nat, 0, 0) == runs@.len() + runs_from(
                    keys,
                    opts.budget_bytes as nat,
                    at as int,
                    charges(builder.buffered()),
                ),
                runs@.len() <= at,
                written == word64(record_bytes(keys, at as int)),
            decreases batch@.len() - j,
        {
            let raw = batch[j].1;
            proof {
                assert(batch@[j as int].1@ == d.raw((from + j) as nat));
                lemma_raw_len(d, at as nat);
            }
            let key = if opts.numeric {
                assert(numbers@[at as int]@.len() >= key_width(*opts));
                sort_key(raw, enc, opts, &numbers[at as usize])
            } else {
                sort_key(raw, enc, opts, &none)
            };
            assert(key@ == keys[at as int]) by {
                if !opts.numeric {
                    assert(key@ == sort_key_of(raw@, enc, *opts, Seq::empty()));
                }
            }
            if key.len() as u64 > 0xFFFF_FFFF {
                assert(keys[at as int].len() > u32::MAX);
                return Err(Error::Unsupported("a sort key is too long to be written".to_owned()));
            }
            written = add_capped(written, key.len() as u64 + 12);
            let ghost before = builder.buffered();
            let ghost rec: Rec = (key@, at);
            let ghost now = before.push(rec);
            let ghost pooled = records_in(runs@);
            let run = builder.push(key, at);
            proof {
                broadcast use vstd::seq_lib::group_to_multiset_ensures;

                let k = keyed(keys);
                assert(k.take(at + 1) =~= k.take(at as int).push(rec));
                assert(now.to_multiset() =~= before.to_multiset().insert(rec));
                assert(pooled.add(now.to_multiset()) =~= pooled.add(before.to_multiset()).insert(
                    rec,
                ));
                assert(now.drop_last() =~= before);
                assert(charges(now) == charges(before) + charge(keys[at as int].len()));
            }
            if let Some(bytes) = run {
                proof {
                    broadcast use vstd::seq_lib::group_to_multiset_ensures;

                    lemma_records_push(runs@, bytes);
                    assert(charges(builder.buffered()) == 0);
                    assert(pooled.add(now.to_multiset()).add(builder.buffered().to_multiset())
                        =~= pooled.add(now.to_multiset()));
                }
                runs.push(bytes);
            }
            at = at + 1;
            j += 1;
        }
        note(&mut log, at, span);
    }
    let ghost left = builder.buffered();
    let ghost pooled = records_in(runs@);
    proof {
        assert(keyed(keys).take(at as int) =~= keyed(keys));
    }
    match builder.finish() {
        Some(bytes) => {
            proof {
                lemma_records_push(runs@, bytes);
                assert(left.drop_last().push(left.last()) =~= left);
                assert(charges(left) > 0);
            }
            runs.push(bytes);
        },
        None => {
            proof {
                broadcast use vstd::seq_lib::group_to_multiset_ensures;

                assert(left =~= Seq::<Rec>::empty());
                assert(pooled.add(left.to_multiset()) =~= pooled);
            }
        },
    }
    let count = runs.len();
    let spill_bytes = spilled(
        total,
        merge_pass_count(count),
        written,
        Ghost(record_bytes(keys, total as int)),
    );
    match merge_runs_noting(runs, opts.reverse, total, &mut log) {
        Ok(ordering) => {
            proof {
                let s = choose|s: Seq<Rec>|
                    #![trigger in_order(s, opts.reverse)]
                    in_order(s, opts.reverse) && s.to_multiset() == records_in(runs@)
                        && ordering@ == numbers_of(s);
                lemma_ordering(s, keys, opts.reverse);
            }
            Ok(SortResult { ordering, line_count: total, runs: count, spill_bytes, progress: log })
        },
        Err(e) => Err(e),
    }
}

proof fn lemma_raw_len(doc: DocView, i: nat)
    requires
        doc.valid(),
    ensures
        codec_size(doc.raw(i).len()),
{
    lemma_start(doc.buf, doc.newline(), doc.base, i);
    lemma_lf(doc.buf, doc.newline(), doc.start(i));
}

} // verus!
