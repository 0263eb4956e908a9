//! An estimate of how many different values a field has, in fixed memory.

use std::collections::hash_map::DefaultHasher;
use std::hash::Hasher;

use vstd::prelude::*;
use vstd::std_specs::bits::u64_leading_zeros;
use vstd::std_specs::hash::DefaultHasherAdditionalSpecFns;

use crate::cache::{le_bytes, push_le};
use crate::document::{DocView, Document};
use crate::fields::{field_text, find_field, normalized_text_key, text_key, FieldSpec};
use crate::lines::{lemma_lf, lemma_start};

verus! {

/// How to estimate.
#[derive(Clone, Debug)]
pub struct DistinctOptions {
    pub key_column: Option<usize>,
    pub fields: FieldSpec,
    /// The number of registers is two to this power, which is kept between 4
    /// and 18.
    pub precision: u32,
}

impl Default for DistinctOptions {
    fn default() -> (o: DistinctOptions)
        ensures
            o.key_column is None,
            o.fields == (FieldSpec { delimiter: 44, quote: 34, csv: false }),
            o.precision == 14,
    {
        DistinctOptions {
            key_column: None,
            fields: FieldSpec { delimiter: 44, quote: 34, csv: false },
            precision: 14,
        }
    }
}

/// How many different values there are, about.
#[derive(Clone, Copy, Debug, PartialEq, Eq, Structural)]
pub struct DistinctResult {
    pub estimate: u64,
    pub registers: usize,
    pub memory_bytes: usize,
}

/// Registers that count leading zeros of hashes.
#[derive(Clone, Debug)]
pub struct Hll {
    reg: Vec<u8>,
    p: u32,
}

/// Which register a hash belongs to: its first `p` bits.
pub open spec fn register_of(h: u64, p: u32) -> u64 {
    h >> ((64 - p) as u64)
}

/// The place of the first one among the other bits of a hash; a guard bit
/// stands after the last of them.
pub open spec fn rho(h: u64, p: u32) -> int {
    u64_leading_zeros((h << (p as u64)) | (1u64 << ((p - 1) as u64))) + 1
}

/// Registers after a hash was added: the highest place that was seen stays.
pub open spec fn with_hash(reg: Seq<u8>, p: u32, h: u64) -> Seq<u8> {
    let i = register_of(h, p) as int;
    reg.update(i, if rho(h, p) > reg[i] { rho(h, p) as u8 } else { reg[i] })
}

/// Registers after hashes were added.
pub open spec fn with_hashes(p: u32, hashes: Seq<u64>) -> Seq<u8>
    decreases hashes.len(),
{
    if hashes.len() == 0 {
        Seq::new((1u64 << (p as u64)) as nat, |i: int| 0u8)
    } else {
        with_hash(with_hashes(p, hashes.drop_last()), p, hashes.last())
    }
}

impl Hll {
    pub closed spec fn registers(&self) -> Seq<u8> {
        self.reg@
    }

    pub closed spec fn precision(&self) -> u32 {
        self.p
    }

    pub closed spec fn wf(&self) -> bool {
        &&& 4 <= self.p <= 18
        &&& self.reg@.len() == (1u64 << (self.p as u64))
    }

    pub fn new(p: u32) -> (h: Hll)
        requires
            4 <= p <= 18,
        ensures
            h.wf(),
            h.precision() == p,
            h.registers() == with_hashes(p, Seq::empty()),
    {
        assert(1u64 << (p as u64) <= 262144) by (bit_vector)
            requires
                4 <= p <= 18,
        ;
        let n = 1u64 << (p as u64);
        let mut reg: Vec<u8> = Vec::new();
        let mut i: u64 = 0;
        while i < n
            invariant
                i <= n,
                n <= 262144,
                reg@.len() == i,
                forall|j: int| 0 <= j < i ==> reg@[j] == 0,
            decreases n - i,
        {
            reg.push(0);
            i += 1;
        }
        assert(reg@ =~= with_hashes(p, Seq::empty()));
        Hll { reg, p }
    }

    /// Adds a hash.
    pub fn add_hash(&mut self, h: u64)
        requires
            old(self).wf(),
        ensures
            final(self).wf(),
            final(self).precision() == old(self).precision(),
            final(self).registers() == with_hash(
                old(self).registers(),
                old(self).precision(),
                h,
            ),
    {
        let p = self.p;
        assert(h >> ((64 - p) as u64) < (1u64 << (p as u64))) by (bit_vector)
            requires
                4 <= p <= 18,
        ;
        assert(1u64 << (p as u64) <= 262144) by (bit_vector)
            requires
                4 <= p <= 18,
        ;
        let idx = (h >> ((64 - p) as u64)) as usize;
        let w = (h << (p as u64)) | (1u64 << ((p - 1) as u64));
        proof {
            vstd::std_specs::bits::axiom_u64_leading_zeros(w);
        }
        let place = w.leading_zeros() as u8 + 1;
        if place > self.reg[idx] {
            self.reg.set(idx, place);
        }
        assert(self.reg@ =~= with_hash(old(self).reg@, p, h));
    }

    /// How many registers there are.
    pub fn len(&self) -> (n: usize)
        ensures
            n == self.registers().len(),
    {
        self.reg.len()
    }

    /// A register.
    pub fn register(&self, i: usize) -> (r: Option<u8>)
        ensures
            r == if i < self.registers().len() {
                Some(self.registers()[i as int])
            } else {
                None
            },
    {
        if i < self.reg.len() {
            Some(self.reg[i])
        } else {
            None
        }
    }

    /// The result for an estimate that was computed from the registers.
    pub fn result(&self, estimate: u64) -> (r: DistinctResult)
        ensures
            r.estimate == estimate,
            r.registers == self.registers().len(),
            r.memory_bytes == self.registers().len(),
    {
        DistinctResult { estimate, registers: self.reg.len(), memory_bytes: self.reg.len() }
    }
}

/// The hash of bytes: what a new hasher gives that was fed their number, in
/// eight bytes, and the bytes.
pub open spec fn hash_of(bytes: Seq<u8>) -> u64 {
    DefaultHasher::spec_finish(seq![le_bytes(bytes.len(), 8), bytes])
}

fn hash_bytes(bytes: &[u8]) -> (h: u64)
    ensures
        h == hash_of(bytes@),
{
    let mut length: Vec<u8> = Vec::new();
    push_le(&mut length, bytes.len() as u64, 8);
    assert(length@ =~= le_bytes(bytes@.len(), 8));
    let mut hasher = DefaultHasher::new();
    hasher.write(length.as_slice());
    hasher.write(bytes);
    assert(hasher@ =~= seq![le_bytes(bytes@.len(), 8), bytes@]);
    hasher.finish()
}

/// The hashes of the keys of all lines.
pub open spec fn key_hashes(doc: DocView, opts: DistinctOptions) -> Seq<u64> {
    Seq::new(
        doc.count(),
        |i: int|
            hash_of(
                text_key(
                    field_text(doc.encoding, doc.raw(i as nat), opts.key_column, opts.fields),
                ),
            ),
    )
}

pub open spec fn kept_precision(p: u32) -> u32 {
    if p < 4 {
        4
    } else if p > 18 {
        18
    } else {
        p
    }
}

/// Fills registers with the hashes of the keys of all lines. Values that are
/// the same when normalized count as one.
pub fn distinct(doc: &Document, opts: &DistinctOptions) -> (r: Hll)
    requires
        doc.wf(),
    ensures
        r.wf(),
        r.precision() == kept_precision(opts.precision),
        r.registers() == with_hashes(r.precision(), key_hashes(doc@, *opts)),
{
    let p = if opts.precision < 4 {
        4
    } else if opts.precision > 18 {
        18
    } else {
        opts.precision
    };
    let mut hll = Hll::new(p);
    let ghost d = doc@;
    proof {
        doc.lemma_wf();
    }
    let enc = doc.encoding();
    let total = doc.line_count();
    let ghost all = key_hashes(d, *opts);
    assert(all.take(0) =~= Seq::empty());
    let mut at: u64 = 0;
    while at < total
        invariant
            doc.wf(),
            d == doc@,
            d.valid(),
            enc == d.encoding,
            total == d.count(),
            at <= total,
            hll.wf(),
            hll.precision() == p,
            all == key_hashes(d, *opts),
            hll.registers() == with_hashes(p, all.take(at as int)),
        decreases total - at,
    {
        let batch = doc.raw_line_ranges_with_terminator(at, 8192);
        let ghost from = at;
        let mut j: usize = 0;
        while j < batch.len()
            invariant
                d == doc@,
                d.valid(),
                enc == d.encoding,
                total == d.count(),
                from + batch@.len() <= total,
                at == from + j,
                j <= batch@.len(),
                forall|i: int|
                    0 <= i < batch@.len() ==> (#[trigger] batch@[i]).1@ == d.raw((from + i) as nat),
                hll.wf(),
                hll.precision() == p,
                all == key_hashes(d, *opts),
                hll.registers() == with_hashes(p, all.take(at as int)),
            decreases batch@.len() - j,
        {
            let raw = batch[j].1;
            proof {
                assert(batch@[j as int].1@ == d.raw((from + j) as nat));
                lemma_start(d.buf, d.newline(), d.base, at as nat);
                lemma_lf(d.buf, d.newline(), d.start(at as nat));
            }
            let (field, field_enc) = find_field(raw, enc, opts.key_column, &opts.fields);
            let key = normalized_text_key(field.as_slice(), field_enc);
            let h = hash_bytes(key.as_slice());
            hll.add_hash(h);
            proof {
                assert(h == all[at as int]);
                assert(all.take(at + 1).drop_last() =~= all.take(at as int));
            }
            at = at + 1;
            j += 1;
        }
    }
    assert(all.take(total as int) =~= all);
    hll
}

proof fn lemma_rho(h: u64, p: u32)
    requires
        4 <= p <= 18,
    ensures
        register_of(h, p) < 1u64 << (p as u64),
        1 <= rho(h, p) <= 65,
{
    assert(h >> ((64 - p) as u64) < (1u64 << (p as u64))) by (bit_vector)
        requires
            4 <= p <= 18,
    ;
    vstd::std_specs::bits::axiom_u64_leading_zeros((h << (p as u64)) | (1u64 << ((p - 1) as u64)));
}

/// A register holds the highest place of the hashes that belong to it.
proof fn lemma_registers(p: u32, hashes: Seq<u64>, i: int)
    requires
        4 <= p <= 18,
        0 <= i < 1u64 << (p as u64),
    ensures
        ({
            let reg = with_hashes(p, hashes);
            &&& reg.len() == 1u64 << (p as u64)
            &&& forall|h: u64| #[trigger]
                hashes.contains(h) && register_of(h, p) == i ==> rho(h, p) <= reg[i]
            &&& reg[i] == 0 || exists|h: u64| #[trigger]
                hashes.contains(h) && register_of(h, p) == i && rho(h, p) == reg[i]
        }),
    decreases hashes.len(),
{
    if hashes.len() > 0 {
        let before = hashes.drop_last();
        let x = hashes.last();
        lemma_registers(p, before, i);
        lemma_rho(x, p);
        let was = with_hashes(p, before);
        let reg = with_hashes(p, hashes);
        assert(hashes.contains(x));
        assert forall|h: u64| #[trigger] hashes.contains(h) implies before.contains(h) || h == x by {
            let j = choose|j: int| 0 <= j < hashes.len() && hashes[j] == h;
            if j < before.len() {
                assert(before[j] == h);
            }
        }
        assert forall|h: u64| #[trigger] before.contains(h) implies hashes.contains(h) by {
            let j = choose|j: int| 0 <= j < before.len() && before[j] == h;
            assert(hashes[j] == h);
        }
        if reg[i] != 0 {
            if register_of(x, p) == i && rho(x, p) > was[i] {
                assert(hashes.contains(x) && register_of(x, p) == i && rho(x, p) == reg[i]);
            } else {
                assert(reg[i] == was[i]);
                let h = choose|h: u64| #[trigger]
                    before.contains(h) && register_of(h, p) == i && rho(h, p) == was[i];
                assert(hashes.contains(h));
            }
        }
    }
}

/// Registers depend on which hashes there are, not on their order nor on how
/// often each is there: a value counts once.
pub proof fn values_count_once(p: u32, a: Seq<u64>, b: Seq<u64>)
    requires
        4 <= p <= 18,
        forall|h: u64| #[trigger] a.contains(h) <==> b.contains(h),
    ensures
        with_hashes(p, a) == with_hashes(p, b),
{
    assert(1u64 << (p as u64) > 0) by (bit_vector)
        requires
            4 <= p <= 18,
    ;
    lemma_registers(p, a, 0);
    lemma_registers(p, b, 0);
    assert forall|i: int| 0 <= i < with_hashes(p, a).len() implies #[trigger] with_hashes(p, a)[i]
        == with_hashes(p, b)[i] by {
        lemma_registers(p, a, i);
        lemma_registers(p, b, i);
        let (x, y) = (with_hashes(p, a)[i], with_hashes(p, b)[i]);
        if x != 0 {
            let h = choose|h: u64| #[trigger]
                a.contains(h) && register_of(h, p) == i && rho(h, p) == x;
            assert(b.contains(h));
        }
        if y != 0 {
            let h = choose|h: u64| #[trigger]
                b.contains(h) && register_of(h, p) == i && rho(h, p) == y;
            assert(a.contains(h));
        }
    }
    assert(with_hashes(p, a) =~= with_hashes(p, b));
}

} // verus!
