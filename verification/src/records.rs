//! Logical records: lines, or in CSV data runs of lines that belong together
//! because a quoted field goes over the end of a line.

use vstd::prelude::*;

use crate::document::{DocView, Document};
use crate::encoding::codec_size;
use crate::fields::{field_source, wide_source, FieldSpec};
use crate::lines::{
    lemma_count, lemma_lf, lemma_start, lemma_start_order, line_span, raw_end,
};

verus! {

/// A record is over after so many lines at the latest, so that a quote that
/// is never closed does not swallow the rest of the document.
pub const MAX_RECORD_LINES: u64 = 4096;

/// A record is over after so many bytes at the latest.
pub const MAX_RECORD_BYTES: u64 = 8 * 1024 * 1024;

/// How many lines are looked up at a time.
pub const RECORD_BATCH: u64 = 8192;

/// A record: where it starts, where its text ends, and where its terminator
/// ends.
#[derive(Clone, Copy, Debug, PartialEq, Eq, Structural)]
pub struct RecordSpan {
    pub start: u64,
    pub text_end: u64,
    pub raw_end: u64,
}

/// The number of times that a byte occurs.
pub open spec fn occurrences(s: Seq<u8>, b: u8) -> nat
    decreases s.len(),
{
    if s.len() == 0 {
        0
    } else {
        occurrences(s.drop_last(), b) + if s.last() == b { 1nat } else { 0nat }
    }
}

impl DocView {
    /// The quotes of a line do not close each other.
    pub open spec fn quotes_odd(self, quote: u8, line: nat) -> bool {
        occurrences(field_source(self.encoding, self.raw(line)), quote) % 2 == 1
    }

    /// Start of a line, end of its text, end of its terminator.
    pub open spec fn bounds(self, line: nat) -> (int, int, int) {
        line_span(self.buf, self.newline(), self.base, line)
    }

    /// The last line of the record that starts with line `first`, looking from
    /// line `k` on: the one that closes the open quote, or the one at which the
    /// record has grown too large, or the last of the document.
    pub open spec fn record_last(self, quote: u8, first: nat, k: nat) -> nat
        decreases self.count() - k,
    {
        if k + 1 >= self.count() || self.quotes_odd(quote, k) || k - first + 1 >= MAX_RECORD_LINES
            || self.bounds(k).2 - self.bounds(first).0 >= MAX_RECORD_BYTES {
            k
        } else {
            self.record_last(quote, first, k + 1)
        }
    }

    /// The last line of the record that starts with a line.
    pub open spec fn last_line(self, spec: FieldSpec, first: nat) -> nat {
        if !spec.csv || !self.quotes_odd(spec.quote, first) || first + 1 >= self.count() {
            first
        } else {
            self.record_last(spec.quote, first, first + 1)
        }
    }

    /// The record that starts with a line.
    pub open spec fn record(self, spec: FieldSpec, first: nat) -> (int, int, int) {
        let last = self.last_line(spec, first);
        (self.bounds(first).0, self.bounds(last).1, self.bounds(last).2)
    }

    /// The records from a line on.
    pub open spec fn records(self, spec: FieldSpec, first: nat) -> Seq<(int, int, int)>
        decreases self.count() - first,
        via DocView::records_decreases
    {
        if first >= self.count() {
            Seq::empty()
        } else {
            seq![self.record(spec, first)] + self.records(spec, self.last_line(spec, first) + 1)
        }
    }

    #[via_fn]
    proof fn records_decreases(self, spec: FieldSpec, first: nat) {
        if first < self.count() {
            self.lemma_last_line(spec, first);
        }
    }

    pub proof fn lemma_record_last(self, quote: u8, first: nat, k: nat)
        requires
            first < k < self.count(),
        ensures
            k <= self.record_last(quote, first, k) < self.count(),
        decreases self.count() - k,
    {
        if !(k + 1 >= self.count() || self.quotes_odd(quote, k) || k - first + 1
            >= MAX_RECORD_LINES || self.bounds(k).2 - self.bounds(first).0 >= MAX_RECORD_BYTES) {
            self.lemma_record_last(quote, first, k + 1);
        }
    }

    pub proof fn lemma_last_line(self, spec: FieldSpec, first: nat)
        requires
            first < self.count(),
        ensures
            first <= self.last_line(spec, first) < self.count(),
    {
        if spec.csv && self.quotes_odd(spec.quote, first) && first + 1 < self.count() {
            self.lemma_record_last(spec.quote, first, first + 1);
        }
    }

    pub proof fn lemma_bounds(self, i: nat)
        requires
            self.valid(),
            i < self.count(),
        ensures
            self.base <= self.bounds(i).0 <= self.bounds(i).1 <= self.bounds(i).2
                <= self.buf.len(),
            self.bounds(i).0 == self.start(i),
            self.bounds(i).2 == self.start(i + 1),
    {
        lemma_start(self.buf, self.newline(), self.base, i);
        lemma_lf(self.buf, self.newline(), self.start(i));
    }
}

/// Records follow each other without a gap, from the start of the content to
/// its end.
pub proof fn records_are_contiguous(doc: DocView, spec: FieldSpec, first: nat)
    requires
        doc.valid(),
        first <= doc.count(),
    ensures
        ({
            let r = doc.records(spec, first);
            &&& r.len() > 0 <==> first < doc.count()
            &&& r.len() > 0 ==> r[0].0 == doc.start(first)
            &&& r.len() > 0 ==> r.last().2 == doc.buf.len()
            &&& forall|i: int| 0 <= i < r.len() ==> (#[trigger] r[i]).0 <= r[i].1 <= r[i].2
            &&& forall|i: int, j: int|
                0 <= i && j == i + 1 && j < r.len() ==> (#[trigger] r[i]).2 == (#[trigger] r[j]).0
        }),
    decreases doc.count() - first,
{
    if first < doc.count() {
        let last = doc.last_line(spec, first);
        doc.lemma_last_line(spec, first);
        doc.lemma_bounds(first);
        doc.lemma_bounds(last);
        records_are_contiguous(doc, spec, last + 1);
        lemma_start_order(doc.buf, doc.newline(), doc.base, first, last);
        let rest = doc.records(spec, last + 1);
        let r = doc.records(spec, first);
        if last + 1 == doc.count() {
            lemma_count(doc.buf, doc.newline(), doc.base, last + 1);
            lemma_start(doc.buf, doc.newline(), doc.base, last + 1);
            assert(r =~= seq![doc.record(spec, first)]);
        } else {
            assert(r.last() == rest.last());
        }
        assert forall|i: int| 0 <= i < r.len() implies (#[trigger] r[i]).0 <= r[i].1 <= r[i].2 by {
            if i > 0 {
                assert(r[i] == rest[i - 1]);
            }
        }
        assert forall|i: int, j: int| 0 <= i && j == i + 1 && j < r.len() implies (
        #[trigger] r[i]).2 == (#[trigger] r[j]).0 by {
            assert(r[j] == rest[j - 1]);
            if i > 0 {
                assert(r[i] == rest[i - 1]);
            }
        }
    }
}

fn count_byte(s: &[u8], b: u8) -> (n: usize)
    ensures
        n == occurrences(s@, b),
        n <= s@.len(),
{
    let mut n: usize = 0;
    let mut i: usize = 0;
    while i < s.len()
        invariant
            i <= s@.len(),
            n == occurrences(s@.take(i as int), b),
            n <= i,
        decreases s.len() - i,
    {
        assert(s@.take(i + 1).drop_last() =~= s@.take(i as int));
        if s[i] == b {
            n += 1;
        }
        i += 1;
    }
    assert(s@.take(s@.len() as int) =~= s@);
    n
}

/// Reads the records of a document one after the other.
#[derive(Debug)]
pub struct RecordReader {
    /// Bounds of some lines, looked up together.
    cache: Vec<(u64, u64, u64, u64)>,
    cache_from: u64,
    line: u64,
}

impl RecordReader {
    pub closed spec fn wf(&self, doc: DocView) -> bool {
        &&& doc.count() <= u64::MAX
        &&& self.line <= doc.count()
        &&& self.cache@.len() + self.cache_from <= doc.count() || self.cache@.len() == 0
        &&& forall|j: int|
            0 <= j < self.cache@.len() ==> {
                let c = #[trigger] self.cache@[j];
                (c.1 as int, c.2 as int, c.3 as int) == doc.bounds((self.cache_from + j) as nat)
            }
    }

    /// The line with which the next record starts.
    pub closed spec fn at(&self) -> nat {
        self.line as nat
    }

    /// A reader at the first record.
    pub fn new(doc: &Document) -> (r: RecordReader)
        requires
            doc.wf(),
        ensures
            r.wf(doc@),
            r.at() == 0,
    {
        proof {
            doc.lemma_wf();
        }
        RecordReader { cache: Vec::new(), cache_from: 0, line: 0 }
    }

    /// The bounds of a line.
    fn bounds(&mut self, doc: &Document, i: u64) -> (b: (u64, u64, u64))
        requires
            doc.wf(),
            old(self).wf(doc@),
            i < doc@.count(),
        ensures
            final(self).wf(doc@),
            final(self).at() == old(self).at(),
            (b.0 as int, b.1 as int, b.2 as int) == doc@.bounds(i as nat),
    {
        proof {
            doc.lemma_wf();
        }
        let n = self.cache.len() as u64;
        if i < self.cache_from || i - self.cache_from >= n {
            self.cache = doc.index().line_ranges_with_terminator(doc.buf(), i, RECORD_BATCH);
            self.cache_from = i;
        }
        let c = self.cache[(i - self.cache_from) as usize];
        (c.1, c.2, c.3)
    }

    /// Whether the quotes of a line do not close each other.
    fn odd(&mut self, doc: &Document, quote: u8, i: u64) -> (r: bool)
        requires
            doc.wf(),
            old(self).wf(doc@),
            i < doc@.count(),
        ensures
            final(self).wf(doc@),
            final(self).at() == old(self).at(),
            r == doc@.quotes_odd(quote, i as nat),
    {
        let b = self.bounds(doc, i);
        proof {
            doc.lemma_wf();
            doc@.lemma_bounds(i as nat);
        }
        let buf = doc.buf();
        let len = buf.len();
        let raw = vstd::slice::slice_subrange(buf, b.0 as usize, b.1 as usize);
        assert(raw@ == doc@.raw(i as nat));
        assert(codec_size(raw@.len()));
        if doc.encoding().is_wide() {
            let source = wide_source(raw, doc.encoding());
            return count_byte(source.as_slice(), quote) % 2 == 1;
        }
        count_byte(raw, quote) % 2 == 1
    }

    /// The next record, if there is one.
    pub fn next(&mut self, doc: &Document, spec: &FieldSpec) -> (r: Option<RecordSpan>)
        requires
            doc.wf(),
            old(self).wf(doc@),
        ensures
            final(self).wf(doc@),
            ({
                let all = doc@.records(*spec, old(self).at());
                match r {
                    Some(x) => {
                        &&& all.len() > 0
                        &&& (x.start as int, x.text_end as int, x.raw_end as int) == all[0]
                        &&& x.start <= x.text_end <= x.raw_end <= doc@.buf.len()
                        &&& doc@.records(*spec, final(self).at()) == all.drop_first()
                        &&& old(self).at() < final(self).at() <= doc@.count()
                    },
                    None => all.len() == 0 && final(self).at() == old(self).at(),
                }
            }),
    {
        let total = doc.line_count();
        let first = self.line;
        let ghost d = doc@;
        if first >= total {
            return None;
        }
        proof {
            doc.lemma_wf();
            d.lemma_last_line(*spec, first as nat);
            d.lemma_bounds(first as nat);
        }
        let head = self.bounds(doc, first);
        let mut last: u64 = first;
        let mut end = head;
        if spec.csv && first + 1 < total && self.odd(doc, spec.quote, first) {
            let mut k: u64 = first + 1;
            let mut open = true;
            while open
                invariant
                    doc.wf(),
                    d == doc@,
                    d.valid(),
                    self.wf(d),
                    self.at() == first,
                    total == d.count(),
                    first < k < total,
                    (head.0 as int, head.1 as int, head.2 as int) == d.bounds(first as nat),
                    open ==> d.record_last(spec.quote, first as nat, (first + 1) as nat)
                        == d.record_last(spec.quote, first as nat, k as nat),
                    !open ==> d.record_last(spec.quote, first as nat, (first + 1) as nat) == last
                        && (end.0 as int, end.1 as int, end.2 as int) == d.bounds(last as nat)
                        && first < last < total,
                decreases (if open { total - k } else { 0 }),
            {
                let b = self.bounds(doc, k);
                let closes = self.odd(doc, spec.quote, k);
                proof {
                    d.lemma_bounds(k as nat);
                    d.lemma_bounds(first as nat);
                    lemma_start_order(d.buf, d.newline(), d.base, first as nat, k as nat);
                }
                if k + 1 >= total || closes || k - first + 1 >= MAX_RECORD_LINES || b.2 - head.0
                    >= MAX_RECORD_BYTES {
                    last = k;
                    end = b;
                    open = false;
                } else {
                    k = k + 1;
                }
            }
        }
        proof {
            assert(d.last_line(*spec, first as nat) == last);
            d.lemma_bounds(last as nat);
            lemma_start_order(d.buf, d.newline(), d.base, first as nat, last as nat);
            let all = d.records(*spec, first as nat);
            assert(all.drop_first() =~= d.records(*spec, (last + 1) as nat));
        }
        self.line = last + 1;
        Some(RecordSpan { start: head.0, text_end: end.1, raw_end: end.2 })
    }
}

} // verus!
