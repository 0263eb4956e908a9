//! The files that a sort leaves: the numbers of the lines in order, and where
//! each line stands.

use vstd::prelude::*;
use vstd::string::*;

use crate::cache::{le_bytes, le_round_trip, le_value, lemma_le_len, lemma_pow256, push_le, read_le};
use crate::document::{DocView, Document};
use crate::error::Error;
use crate::runs::torn_record;

verus! {

/// Reads exactly `n` bytes at a position: `None` at the end, an error if fewer
/// are left.
pub fn read_full(bytes: &[u8], pos: usize, n: usize) -> (r: Result<Option<&[u8]>, Error>)
    requires
        pos <= bytes@.len(),
    ensures
        match r {
            Ok(Some(b)) => pos + n <= bytes@.len() && b@ == bytes@.subrange(pos as int, pos + n),
            Ok(None) => pos == bytes@.len() && n > 0,
            Err(e) => pos < bytes@.len() < pos + n && e@ == torn_record(),
        },
{
    let left = bytes.len() - pos;
    if n <= left {
        return Ok(Some(vstd::slice::slice_subrange(bytes, pos, pos + n)));
    }
    if left == 0 {
        return Ok(None);
    }
    Err(Error::Corrupted("truncated spill record".to_owned()))
}

// ---- numbers -----------------------------------------------------------------

/// Numbers, each in eight bytes.
pub open spec fn numbers_bytes(s: Seq<u64>) -> Seq<u8>
    decreases s.len(),
{
    if s.len() == 0 {
        Seq::empty()
    } else {
        numbers_bytes(s.drop_last()) + le_bytes(s.last() as nat, 8)
    }
}

/// Writes the order of lines.
pub fn ordering_bytes(order: &Vec<u64>) -> (out: Vec<u8>)
    ensures
        out@ == numbers_bytes(order@),
{
    let mut out: Vec<u8> = Vec::new();
    let mut i: usize = 0;
    assert(out@ =~= numbers_bytes(order@.take(0)));
    while i < order.len()
        invariant
            i <= order@.len(),
            out@ == numbers_bytes(order@.take(i as int)),
        decreases order.len() - i,
    {
        push_le(&mut out, order[i], 8);
        assert(order@.take(i + 1).drop_last() =~= order@.take(i as int));
        i += 1;
    }
    assert(order@.take(order@.len() as int) =~= order@);
    out
}

proof fn lemma_numbers(s: Seq<u64>, i: int)
    requires
        0 <= i <= s.len(),
    ensures
        numbers_bytes(s).len() == 8 * s.len(),
        i < s.len() ==> le_value(numbers_bytes(s).subrange(8 * i, 8 * i + 8)) == s[i],
    decreases s.len(),
{
    if s.len() > 0 {
        let t = s.drop_last();
        lemma_numbers(t, if i < t.len() { i } else { 0 });
        lemma_le_len(s.last() as nat, 8);
        if i < t.len() {
            assert(numbers_bytes(s).subrange(8 * i, 8 * i + 8) =~= numbers_bytes(t).subrange(
                8 * i,
                8 * i + 8,
            ));
        } else if i == t.len() {
            lemma_pow256();
            le_round_trip(s.last() as nat, 8);
            assert(numbers_bytes(s).subrange(8 * i, 8 * i + 8) =~= le_bytes(s.last() as nat, 8));
        }
    }
}

/// Reads the order of lines, one after the other.
#[derive(Debug)]
pub struct OrderingReader<'a> {
    bytes: &'a [u8],
    pos: usize,
}

impl<'a> OrderingReader<'a> {
    pub closed spec fn data(&self) -> Seq<u8> {
        self.bytes@
    }

    pub closed spec fn at(&self) -> int {
        self.pos as int
    }

    pub closed spec fn wf(&self) -> bool {
        self.pos <= self.bytes@.len()
    }

    pub fn open(bytes: &'a [u8]) -> (r: OrderingReader<'a>)
        ensures
            r.wf(),
            r.data() == bytes@,
            r.at() == 0,
    {
        OrderingReader { bytes, pos: 0 }
    }

    /// The next number; `None` at the end. An error says that the data ends in
    /// the middle of one.
    pub fn next_line(&mut self) -> (r: Result<Option<u64>, Error>)
        requires
            old(self).wf(),
        ensures
            final(self).wf(),
            final(self).data() == old(self).data(),
            ({
                let (d, p) = (old(self).data(), old(self).at());
                match r {
                    Ok(Some(n)) => {
                        &&& p + 8 <= d.len()
                        &&& n == le_value(d.subrange(p, p + 8))
                        &&& final(self).at() == p + 8
                    },
                    Ok(None) => p == d.len() && final(self).at() == p,
                    Err(e) => p < d.len() < p + 8 && e@ == torn_record(),
                }
            }),
    {
        let len = self.bytes.len();
        match read_full(self.bytes, self.pos, 8) {
            Ok(Some(_)) => {
                let n = read_le(self.bytes, self.pos, 8);
                self.pos = self.pos + 8;
                Ok(Some(n))
            },
            Ok(None) => Ok(None),
            Err(e) => Err(e),
        }
    }
}

/// What was written as the order of lines is read back as it was: the number at
/// place `i` stands at byte `8 * i`, and nothing follows the last.
pub proof fn orders_are_read_back(order: Seq<u64>, i: int)
    requires
        0 <= i < order.len(),
    ensures
        numbers_bytes(order).len() == 8 * order.len(),
        le_value(numbers_bytes(order).subrange(8 * i, 8 * i + 8)) == order[i],
{
    lemma_numbers(order, i);
}

// ---- where lines stand -------------------------------------------------------

/// The starts and ends of lines, one after the other.
pub open spec fn line_ends_of(doc: DocView, n: nat) -> Seq<u64>
    decreases n,
{
    if n == 0 {
        Seq::empty()
    } else {
        let i = (n - 1) as nat;
        line_ends_of(doc, i).push(doc.bounds(i).0 as u64).push(doc.bounds(i).2 as u64)
    }
}

/// Writes where each line starts and ends, its terminator included.
pub fn line_offsets(doc: &Document) -> (out: Vec<u8>)
    requires
        doc.wf(),
    ensures
        out@ == numbers_bytes(line_ends_of(doc@, doc@.count())),
{
    proof {
        doc.lemma_wf();
    }
    let total = doc.line_count();
    let ghost d = doc@;
    let mut out: Vec<u8> = Vec::new();
    let mut at: u64 = 0;
    assert(out@ =~= numbers_bytes(line_ends_of(d, 0)));
    while at < total
        invariant
            doc.wf(),
            d == doc@,
            total == d.count(),
            d.valid(),
            at <= total,
            d.buf.len() <= u64::MAX,
            doc.spec_index().describes(d.buf),
            doc.spec_index().spec_line_count() == d.count(),
            doc.spec_index().spec_newline() == d.newline(),
            doc.spec_index().spec_base() == d.base,
            out@ == numbers_bytes(line_ends_of(d, at as nat)),
        decreases total - at,
    {
        let batch = doc.index().line_ranges_with_terminator(doc.buf(), at, 8192);
        let ghost from = at;
        let mut j: usize = 0;
        while j < batch.len()
            invariant
                d.valid(),
                d.buf.len() <= u64::MAX,
                total == d.count(),
                from + batch@.len() <= total,
                at == from + j,
                j <= batch@.len(),
                forall|i: int|
                    0 <= i < batch@.len() ==> {
                        let b = #[trigger] batch@[i];
                        (b.1 as int, b.2 as int, b.3 as int) == d.bounds((from + i) as nat)
                    },
                out@ == numbers_bytes(line_ends_of(d, at as nat)),
            decreases batch@.len() - j,
        {
            let b = batch[j];
            assert((b.1 as int, b.2 as int, b.3 as int) == d.bounds((from + j) as nat));
            let ghost s = line_ends_of(d, at as nat);
            push_le(&mut out, b.1, 8);
            push_le(&mut out, b.3, 8);
            proof {
                let t = s.push(b.1);
                let u = t.push(b.3);
                assert(t.drop_last() =~= s);
                assert(u.drop_last() =~= t);
                assert(line_ends_of(d, (at + 1) as nat) =~= u);
                assert(numbers_bytes(t) == numbers_bytes(s) + le_bytes(b.1 as nat, 8));
                assert(numbers_bytes(u) == numbers_bytes(t) + le_bytes(b.3 as nat, 8));
            }
            at = at + 1;
            j += 1;
        }
    }
    out
}

/// Looks up where a line stands.
#[derive(Debug)]
pub struct LineOffsetReader<'a> {
    table: &'a [u8],
}

/// What a table says of a line.
pub open spec fn offsets_at(table: Seq<u8>, line: nat) -> Option<(nat, nat)> {
    if 16 * line + 16 <= table.len() {
        Some(
            (
                le_value(table.subrange(16 * line as int, 16 * line as int + 8)),
                le_value(table.subrange(16 * line as int + 8, 16 * line as int + 16)),
            ),
        )
    } else {
        None
    }
}

impl<'a> LineOffsetReader<'a> {
    pub closed spec fn data(&self) -> Seq<u8> {
        self.table@
    }

    pub fn open(table: &'a [u8]) -> (r: LineOffsetReader<'a>)
        ensures
            r.data() == table@,
    {
        LineOffsetReader { table }
    }

    /// Where a line starts, and where its terminator ends.
    pub fn raw_range(&self, line: u64) -> (r: Option<(u64, u64)>)
        ensures
            match r {
                Some((a, b)) => offsets_at(self.data(), line as nat) == Some((a as nat, b as nat)),
                None => offsets_at(self.data(), line as nat) is None,
            },
    {
        let len = self.table.len();
        if line >= (len / 16) as u64 {
            return None;
        }
        let at = 16 * line as usize;
        Some((read_le(self.table, at, 8), read_le(self.table, at + 8, 8)))
    }
}

proof fn lemma_line_ends(doc: DocView, n: nat, i: nat)
    requires
        doc.valid(),
        doc.buf.len() <= u64::MAX,
        i < n <= doc.count(),
    ensures
        line_ends_of(doc, n).len() == 2 * n,
        line_ends_of(doc, n)[2 * i as int] == doc.bounds(i).0,
        line_ends_of(doc, n)[2 * i as int + 1] == doc.bounds(i).2,
    decreases n,
{
    let m = (n - 1) as nat;
    doc.lemma_bounds(m);
    lemma_line_ends_len(doc, m);
    if i < m {
        lemma_line_ends(doc, m, i);
    }
}

proof fn lemma_line_ends_len(doc: DocView, n: nat)
    ensures
        line_ends_of(doc, n).len() == 2 * n,
    decreases n,
{
    if n > 0 {
        lemma_line_ends_len(doc, (n - 1) as nat);
    }
}

/// The table of a document says of every line where it starts and ends.
pub proof fn offsets_are_read_back(doc: DocView, i: nat)
    requires
        doc.valid(),
        doc.buf.len() <= u64::MAX,
        i < doc.count(),
    ensures
        offsets_at(numbers_bytes(line_ends_of(doc, doc.count())), i) == Some(
            (doc.start(i) as nat, doc.start(i + 1) as nat),
        ),
{
    let s = line_ends_of(doc, doc.count());
    lemma_line_ends(doc, doc.count(), i);
    lemma_numbers(s, 2 * i as int);
    lemma_numbers(s, 2 * i as int + 1);
    doc.lemma_bounds(i);
}

} // verus!
