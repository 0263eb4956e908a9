//! A sparse line index: a checkpoint every so many lines, from which any line
//! is reached by a short scan. The checkpoints are a shortcut only: what a
//! lookup returns depends on the buffer alone.

use rayon::iter::{IntoParallelRefIterator, ParallelIterator};
use vstd::prelude::*;

use crate::lines::{
    find_lf, lemma_count, lemma_lf, lemma_newlines, lemma_prefix_start, lemma_snap, lemma_start,
    lemma_start_add, lemma_start_order, line_count, line_ends, line_span, line_start, newlines,
    raw_end, Newline,
};

verus! {

/// Default number of lines between checkpoints.
pub const DEFAULT_STRIDE: u64 = 4096;

/// Resident size of one checkpoint.
pub const CHECKPOINT_BYTES: u64 = 16;

/// The number of lines that documents are expected to reach.
pub const MINIMUM_SUPPORTED_LINES: u64 = 10_000_000_000;

/// Least number of bytes in one scan chunk.
const MIN_CHUNK: u64 = 16777216;

/// A line and the offset at which it starts.
#[derive(Clone, Copy, Debug, PartialEq, Eq, Structural)]
pub struct Checkpoint {
    pub line: u64,
    pub off: u64,
}

/// A sparse index from line numbers to byte offsets and back, for one buffer.
pub struct LineIndex {
    checkpoints: Vec<Checkpoint>,
    stride: u64,
    line_count: u64,
    base: u64,
    len: u64,
    newline: Newline,
}

/// What scanning a chunk of whole lines finds: how many lines, and some of
/// them by their number in the chunk and their offset.
pub struct ChunkResult {
    pub count: u64,
    pub samples: Vec<(u64, u64)>,
}

/// A chunk that starts on a line and ends where another line starts, or at the
/// end of the buffer.
pub open spec fn whole_lines(s: Seq<u8>, k: Newline, range: (u64, u64)) -> bool {
    &&& range.0 < range.1 <= s.len()
    &&& exists|n: nat| #[trigger] line_start(s, k, range.0 as int, n) == range.1
}

/// The result of scanning a chunk.
pub open spec fn scanned(s: Seq<u8>, k: Newline, range: (u64, u64), r: ChunkResult) -> bool {
    &&& 1 <= r.count <= range.1 - range.0
    &&& line_start(s, k, range.0 as int, r.count as nat) == range.1
    &&& r.count <= line_count(s, k, range.0 as int)
    &&& r.samples@.len() >= 1
    &&& r.samples@[0] == (0u64, range.0)
    &&& forall|i: int|
        0 <= i < r.samples@.len() ==> (#[trigger] r.samples@[i]).0 < r.count && line_start(
            s,
            k,
            range.0 as int,
            r.samples@[i].0 as nat,
        ) == r.samples@[i].1
    &&& forall|i: int, j: int|
        0 <= i < j < r.samples@.len() ==> (#[trigger] r.samples@[i]).0 < (
        #[trigger] r.samples@[j]).0
}

/// Scans one chunk of whole lines, keeping every `stride`-th.
fn scan_chunk(buf: &[u8], k: Newline, range: (u64, u64), stride: u64) -> (r: ChunkResult)
    requires
        whole_lines(buf@, k, range),
        stride >= 1,
    ensures
        scanned(buf@, k, range, r),
{
    let (s, e) = range;
    let len = buf.len();
    let ghost n = choose|n: nat| #[trigger] line_start(buf@, k, s as int, n) == e;
    let mut samples: Vec<(u64, u64)> = Vec::new();
    samples.push((0, s));
    let mut local: u64 = 0;
    let mut off: usize = s as usize;
    loop
        invariant
            s <= off < e <= buf@.len(),
            stride >= 1,
            range == (s, e),
            line_start(buf@, k, s as int, n) == e,
            local <= off - s,
            off == line_start(buf@, k, s as int, local as nat),
            samples@.len() >= 1,
            samples@[0] == (0u64, s),
            forall|i: int|
                0 <= i < samples@.len() ==> (#[trigger] samples@[i]).0 <= local && line_start(
                    buf@,
                    k,
                    s as int,
                    samples@[i].0 as nat,
                ) == samples@[i].1,
            forall|i: int, j: int|
                0 <= i < j < samples@.len() ==> (#[trigger] samples@[i]).0 < (
                #[trigger] samples@[j]).0,
        ensures
            off < e,
            local < e - s,
            line_start(buf@, k, s as int, (local + 1) as nat) == e,
            local < line_count(buf@, k, s as int),
        decreases e - off,
    {
        proof {
            lemma_lf(buf@, k, off as int);
        }
        let (_text, next) = line_ends(buf, k, off);
        if next as u64 >= e {
            proof {
                if n <= local {
                    lemma_start_order(buf@, k, s as int, n, local as nat);
                }
                lemma_start_order(buf@, k, s as int, (local + 1) as nat, n);
                lemma_count(buf@, k, s as int, local as nat);
            }
            break;
        }
        local += 1;
        off = next;
        if local % stride == 0 {
            samples.push((local, off as u64));
        }
    }
    ChunkResult { count: local + 1, samples }
}

/// `rayon`'s `par_iter().map(..).collect()`: the ranges are scanned on worker
/// threads, and the results come in the order of the ranges.
#[verifier::external_body]
fn scan_chunks(buf: &[u8], k: Newline, ranges: &Vec<(u64, u64)>, stride: u64) -> (r: Vec<
    ChunkResult,
>)
    requires
        forall|i: int| 0 <= i < ranges@.len() ==> whole_lines(buf@, k, #[trigger] ranges@[i]),
        stride >= 1,
    ensures
        r@.len() == ranges@.len(),
        forall|i: int|
            0 <= i < r@.len() ==> scanned(buf@, k, ranges@[i], #[trigger] r@[i]),
{
    ranges.par_iter().map(|range| scan_chunk(buf, k, *range, stride)).collect()
}

/// `rayon::current_num_threads`: how many worker threads there are.
#[verifier::external_body]
fn worker_threads() -> (n: usize) {
    rayon::current_num_threads()
}

/// The first line start after `pos`.
fn snap_to_line_start(buf: &[u8], k: Newline, pos: u64) -> (r: u64)
    requires
        pos <= buf@.len(),
    ensures
        r == raw_end(buf@, k, pos as int),
        pos <= r <= buf@.len(),
        pos < buf@.len() ==> pos < r,
{
    let len = buf.len();
    line_ends(buf, k, pos as usize).1 as u64
}

/// Cuts the content into chunks of whole lines.
fn chunk_ranges(buf: &[u8], k: Newline, base: u64, chunk_size: u64) -> (ranges: Vec<(u64, u64)>)
    requires
        base < buf@.len(),
        chunk_size >= 2,
        chunk_size % 2 == 0,
    ensures
        ranges@.len() >= 1,
        ranges@[0].0 == base,
        ranges@.last().1 == buf@.len(),
        forall|i: int| 0 <= i < ranges@.len() ==> whole_lines(buf@, k, #[trigger] ranges@[i]),
        forall|i: int|
            0 <= i && i + 1 < ranges@.len() ==> (#[trigger] ranges@[i]).1 == ranges@[i + 1].0,
{
    let len = buf.len() as u64;
    let mut ranges: Vec<(u64, u64)> = Vec::new();
    let mut start: u64 = base;
    let ghost mut n: nat = 0;
    while len - start > chunk_size
        invariant
            len == buf@.len(),
            base <= start < len,
            chunk_size >= 2,
            chunk_size % 2 == 0,
            line_start(buf@, k, base as int, n) == start,
            ranges@.len() == 0 ==> start == base,
            ranges@.len() > 0 ==> ranges@[0].0 == base && ranges@.last().1 == start,
            forall|i: int| 0 <= i < ranges@.len() ==> whole_lines(buf@, k, #[trigger] ranges@[i]),
            forall|i: int|
                0 <= i && i + 1 < ranges@.len() ==> (#[trigger] ranges@[i]).1 == ranges@[i + 1].0,
        decreases len - start,
    {
        let next = snap_to_line_start(buf, k, start + chunk_size);
        if next >= len {
            break;
        }
        proof {
            let m = lemma_snap(buf@, k, start as int, start + chunk_size);
            lemma_start_add(buf@, k, base as int, n, m);
            n = n + m;
            assert(line_start(buf@, k, (start, next).0 as int, m) == next);
        }
        assert(whole_lines(buf@, k, (start, next)));
        ranges.push((start, next));
        start = next;
    }
    proof {
        let c = line_count(buf@, k, start as int);
        lemma_count(buf@, k, start as int, c);
        lemma_start(buf@, k, start as int, c);
        assert(line_start(buf@, k, (start, len).0 as int, c) == len);
    }
    assert(whole_lines(buf@, k, (start, len)));
    ranges.push((start, len));
    ranges
}

impl LineIndex {
    /// The index is one of this buffer, with lines of this kind.
    pub closed spec fn describes(self, buf: Seq<u8>) -> bool {
        &&& self.len == buf.len()
        &&& self.len <= usize::MAX
        &&& self.stride >= 1
        &&& self.base <= self.len ==> self.line_count == line_count(
            buf,
            self.newline,
            self.base as int,
        )
        &&& self.base > self.len ==> self.line_count == 0
        &&& self.line_count == 0 ==> self.checkpoints@.len() == 0
        &&& self.line_count > 0 ==> self.checkpoints@.len() > 0 && self.checkpoints@[0].line == 0
        &&& forall|i: int|
            0 <= i < self.checkpoints@.len() ==> self.good(buf, #[trigger] self.checkpoints@[i])
        &&& forall|i: int, j: int|
            0 <= i < j < self.checkpoints@.len() ==> (#[trigger] self.checkpoints@[i]).line < (
            #[trigger] self.checkpoints@[j]).line
    }

    closed spec fn good(self, buf: Seq<u8>, c: Checkpoint) -> bool {
        &&& c.line < self.line_count
        &&& c.off == line_start(buf, self.newline, self.base as int, c.line as nat)
    }

    /// The checkpoints are ordered by their lines, and by their offsets too.
    pub open spec fn ascending(self) -> bool {
        forall|i: int, j: int|
            0 <= i < j < self.spec_checkpoints().len() ==> {
                &&& (#[trigger] self.spec_checkpoints()[i]).line < (
                #[trigger] self.spec_checkpoints()[j]).line
                &&& self.spec_checkpoints()[i].off < self.spec_checkpoints()[j].off
            }
    }

    pub closed spec fn spec_line_count(self) -> nat {
        self.line_count as nat
    }

    pub closed spec fn spec_base(self) -> nat {
        self.base as nat
    }

    pub closed spec fn spec_newline(self) -> Newline {
        self.newline
    }

    pub closed spec fn spec_stride(self) -> u64 {
        self.stride
    }

    pub closed spec fn spec_len(self) -> nat {
        self.len as nat
    }

    pub closed spec fn spec_checkpoints(self) -> Seq<Checkpoint> {
        self.checkpoints@
    }

    /// What an index says about its buffer.
    pub proof fn lemma_describes(self, buf: Seq<u8>)
        requires
            self.describes(buf),
        ensures
            self.spec_len() == buf.len(),
            self.spec_base() <= buf.len() ==> self.spec_line_count() == line_count(
                buf,
                self.spec_newline(),
                self.spec_base() as int,
            ),
            self.spec_base() > buf.len() ==> self.spec_line_count() == 0,
            self.spec_line_count() <= u64::MAX,
    {
    }

    /// The checkpoints of an index ascend.
    pub proof fn checkpoints_ascend(self, buf: Seq<u8>)
        requires
            self.describes(buf),
        ensures
            self.ascending(),
    {
        let base = self.base as int;
        assert forall|i: int, j: int| 0 <= i < j < self.spec_checkpoints().len() implies {
            &&& (#[trigger] self.spec_checkpoints()[i]).line < (
            #[trigger] self.spec_checkpoints()[j]).line
            &&& self.spec_checkpoints()[i].off < self.spec_checkpoints()[j].off
        } by {
            let (a, b) = (self.checkpoints@[i], self.checkpoints@[j]);
            assert(self.good(buf, a) && self.good(buf, b));
            assert(a.line < b.line);
            lemma_count(buf, self.newline, base, a.line as nat);
            lemma_start(buf, self.newline, base, a.line as nat);
            lemma_start_order(buf, self.newline, base, (a.line + 1) as nat, b.line as nat);
            lemma_lf(buf, self.newline, line_start(buf, self.newline, base, a.line as nat));
        }
    }

    /// Builds an index over the content of `buf` from `base` on, with lines
    /// that end in an LF byte.
    pub fn build(buf: &[u8], base: u64, stride: u64) -> (idx: LineIndex)
        ensures
            idx.describes(buf@),
            idx.spec_base() == base,
            idx.spec_newline() == Newline::Byte,
            idx.spec_stride() == if stride == 0 { 1 } else { stride },
    {
        LineIndex::build_for(buf, base, stride, Newline::Byte)
    }

    /// Builds an index over UTF-16LE content.
    pub fn build_utf16_le(buf: &[u8], base: u64, stride: u64) -> (idx: LineIndex)
        ensures
            idx.describes(buf@),
            idx.spec_base() == base,
            idx.spec_newline() == Newline::Le,
            idx.spec_stride() == if stride == 0 { 1 } else { stride },
    {
        LineIndex::build_for(buf, base, stride, Newline::Le)
    }

    /// Builds an index over UTF-16BE content.
    pub fn build_utf16_be(buf: &[u8], base: u64, stride: u64) -> (idx: LineIndex)
        ensures
            idx.describes(buf@),
            idx.spec_base() == base,
            idx.spec_newline() == Newline::Be,
            idx.spec_stride() == if stride == 0 { 1 } else { stride },
    {
        LineIndex::build_for(buf, base, stride, Newline::Be)
    }

    /// Builds an index: the content is cut into chunks of whole lines, the
    /// chunks are scanned on worker threads, and what they found is stitched
    /// together in order.
    pub fn build_for(buf: &[u8], base: u64, stride: u64, newline: Newline) -> (idx: LineIndex)
        ensures
            idx.describes(buf@),
            idx.spec_base() == base,
            idx.spec_newline() == newline,
            idx.spec_stride() == if stride == 0 { 1 } else { stride },
    {
        let stride: u64 = if stride == 0 { 1 } else { stride };
        let len = buf.len() as u64;
        if base >= len {
            proof {
                if base == len {
                    lemma_count(buf@, newline, base as int, 0);
                }
            }
            return LineIndex {
                checkpoints: Vec::new(),
                stride,
                line_count: 0,
                base,
                len,
                newline,
            };
        }
        let threads = worker_threads();
        let parts: u64 = match (threads as u64).checked_mul(4) {
            Some(p) => if p == 0 {
                1
            } else {
                p
            },
            None => u64::MAX,
        };
        let share: u64 = (len - base) / parts;
        let chunk_size: u64 = if share > MIN_CHUNK {
            share - share % 2
        } else {
            MIN_CHUNK
        };
        let ranges = chunk_ranges(buf, newline, base, chunk_size);
        let per = scan_chunks(buf, newline, &ranges, stride);
        stitch(buf, base, stride, newline, &ranges, &per)
    }

    /// The number of lines. A final line feed opens no further line.
    pub fn line_count(&self) -> (n: u64)
        ensures
            n == self.spec_line_count(),
    {
        self.line_count
    }

    pub fn stride(&self) -> (n: u64)
        ensures
            n == self.spec_stride(),
    {
        self.stride
    }

    /// The first byte of content.
    pub fn base(&self) -> (n: u64)
        ensures
            n == self.spec_base(),
    {
        self.base
    }

    /// How the line feeds look.
    pub fn newline(&self) -> (k: Newline)
        ensures
            k == self.spec_newline(),
    {
        self.newline
    }

    /// The length of the buffer that the index describes.
    pub fn source_len(&self) -> (n: u64)
        ensures
            n == self.spec_len(),
    {
        self.len
    }

    /// The number of checkpoints kept.
    pub fn checkpoint_count(&self) -> (n: usize)
        ensures
            n == self.spec_checkpoints().len(),
    {
        self.checkpoints.len()
    }

    /// The resident size of the checkpoints.
    pub fn memory_bytes(&self) -> (n: usize)
        ensures
            self.spec_checkpoints().len() * CHECKPOINT_BYTES <= usize::MAX ==> n
                == self.spec_checkpoints().len() * CHECKPOINT_BYTES,
            self.spec_checkpoints().len() * CHECKPOINT_BYTES > usize::MAX ==> n == usize::MAX,
    {
        match self.checkpoints.len().checked_mul(16) {
            Some(n) => n,
            None => usize::MAX,
        }
    }

    /// The number of checkpoints that so many lines need: one for every
    /// `stride` lines, rounded up.
    pub fn checkpoint_count_for_lines(lines: u64, stride: u64) -> (n: u64)
        ensures
            lines == 0 ==> n == 0,
            lines > 0 ==> n == (lines - 1) / (if stride == 0 { 1int } else { stride as int }) + 1,
    {
        let stride: u64 = if stride == 0 { 1 } else { stride };
        if lines == 0 {
            0
        } else {
            proof {
                assert((lines - 1) / (stride as int) <= lines - 1) by (nonlinear_arith)
                    requires
                        lines >= 1,
                        stride >= 1,
                ;
            }
            (lines - 1) / stride + 1
        }
    }

    /// The resident size that so many lines need.
    pub fn memory_bytes_for_lines(lines: u64, stride: u64) -> (n: u64)
        ensures
            ({
                let c = if lines == 0 {
                    0
                } else {
                    (lines - 1) / (if stride == 0 { 1int } else { stride as int }) + 1
                };
                n == if c * CHECKPOINT_BYTES <= u64::MAX { c * CHECKPOINT_BYTES } else { u64::MAX as int }
            }),
    {
        match LineIndex::checkpoint_count_for_lines(lines, stride).checked_mul(CHECKPOINT_BYTES) {
            Some(n) => n,
            None => u64::MAX,
        }
    }

    /// The last checkpoint at or before line `i`.
    fn checkpoint_for_line(&self, i: u64) -> (r: usize)
        requires
            self.checkpoints@.len() > 0,
            self.checkpoints@[0].line <= i,
        ensures
            r < self.checkpoints@.len(),
            self.checkpoints@[r as int].line <= i,
            self.ascending() ==> forall|j: int|
                r < j < self.checkpoints@.len() ==> i < (#[trigger] self.checkpoints@[j]).line,
    {
        let mut lo: usize = 0;
        let mut hi: usize = self.checkpoints.len();
        while hi - lo > 1
            invariant
                lo < hi <= self.checkpoints@.len(),
                self.checkpoints@[lo as int].line <= i,
                self.ascending() ==> forall|j: int|
                    hi <= j < self.checkpoints@.len() ==> i < (
                    #[trigger] self.checkpoints@[j]).line,
            decreases hi - lo,
        {
            let mid = lo + (hi - lo) / 2;
            if self.checkpoints[mid].line <= i {
                lo = mid;
            } else {
                proof {
                    let c = self.spec_checkpoints();
                    assert forall|j: int| self.ascending() && mid <= j < c.len() implies i < (
                    #[trigger] self.checkpoints@[j]).line by {
                        if mid < j {
                            assert(c[mid as int].line < c[j].line);
                        }
                    }
                }
                hi = mid;
            }
        }
        lo
    }

    /// The last checkpoint at or before offset `b`.
    fn checkpoint_for_byte(&self, b: u64) -> (r: usize)
        requires
            self.checkpoints@.len() > 0,
            self.checkpoints@[0].off <= b,
        ensures
            r < self.checkpoints@.len(),
            self.checkpoints@[r as int].off <= b,
            self.ascending() ==> forall|j: int|
                r < j < self.checkpoints@.len() ==> b < (#[trigger] self.checkpoints@[j]).off,
    {
        let mut lo: usize = 0;
        let mut hi: usize = self.checkpoints.len();
        while hi - lo > 1
            invariant
                lo < hi <= self.checkpoints@.len(),
                self.checkpoints@[lo as int].off <= b,
                self.ascending() ==> forall|j: int|
                    hi <= j < self.checkpoints@.len() ==> b < (
                    #[trigger] self.checkpoints@[j]).off,
            decreases hi - lo,
        {
            let mid = lo + (hi - lo) / 2;
            if self.checkpoints[mid].off <= b {
                lo = mid;
            } else {
                proof {
                    let c = self.spec_checkpoints();
                    assert forall|j: int| self.ascending() && mid <= j < c.len() implies b < (
                    #[trigger] self.checkpoints@[j]).off by {
                        if mid < j {
                            assert(c[mid as int].off < c[j].off);
                        }
                    }
                }
                hi = mid;
            }
        }
        lo
    }

    /// The start of line `i`.
    fn start_of(&self, buf: &[u8], i: u64) -> (off: usize)
        requires
            self.describes(buf@),
            i < self.spec_line_count(),
        ensures
            off == line_start(buf@, self.spec_newline(), self.spec_base() as int, i as nat),
            off < buf@.len(),
            self.spec_base() <= off,
    {
        let k = self.checkpoint_for_line(i);
        let cp = self.checkpoints[k];
        assert(self.good(buf@, self.checkpoints@[k as int]));
        let ghost base = self.base as int;
        proof {
            lemma_count(buf@, self.newline, base, cp.line as nat);
        }
        let mut off: usize = cp.off as usize;
        let mut cur: u64 = cp.line;
        while cur < i
            invariant
                self.describes(buf@),
                base == self.base,
                cur <= i < self.line_count,
                off == line_start(buf@, self.newline, base, cur as nat),
                off < buf@.len(),
            decreases i - cur,
        {
            let (_text, next) = line_ends(buf, self.newline, off);
            proof {
                lemma_count(buf@, self.newline, base, (cur + 1) as nat);
            }
            off = next;
            cur += 1;
        }
        proof {
            lemma_start(buf@, self.newline, base, i as nat);
        }
        off
    }

    /// The byte range of line `i` without its terminator.
    pub fn line_range(&self, buf: &[u8], i: u64) -> (r: Option<(u64, u64)>)
        requires
            self.describes(buf@),
        ensures
            r is Some <==> i < self.spec_line_count(),
            r matches Some((a, b)) ==> {
                let span = line_span(
                    buf@,
                    self.spec_newline(),
                    self.spec_base() as int,
                    i as nat,
                );
                &&& (a as int, b as int) == (span.0, span.1)
                &&& self.spec_base() <= a <= b <= buf@.len()
            },
    {
        match self.line_range_with_terminator(buf, i) {
            Some((a, b, _c)) => Some((a, b)),
            None => None,
        }
    }

    /// The start of line `i`, the end of its text and the end of its
    /// terminator.
    pub fn line_range_with_terminator(&self, buf: &[u8], i: u64) -> (r: Option<(u64, u64, u64)>)
        requires
            self.describes(buf@),
        ensures
            r is Some <==> i < self.spec_line_count(),
            r matches Some((a, b, c)) ==> {
                &&& (a as int, b as int, c as int) == line_span(
                    buf@,
                    self.spec_newline(),
                    self.spec_base() as int,
                    i as nat,
                )
                &&& self.spec_base() <= a <= b <= c <= buf@.len()
                &&& a < c
            },
    {
        if i >= self.line_count {
            return None;
        }
        let off = self.start_of(buf, i);
        let (text, next) = line_ends(buf, self.newline, off);
        Some((off as u64, text as u64, next as u64))
    }

    /// Numbers and byte ranges of up to `count` lines from `start` on, without
    /// their terminators.
    pub fn line_ranges(&self, buf: &[u8], start: u64, count: u64) -> (out: Vec<(u64, u64, u64)>)
        requires
            self.describes(buf@),
        ensures
            out@.len() == window_len(start as int, count as int, self.spec_line_count() as int),
            forall|j: int|
                0 <= j < out@.len() ==> {
                    let span = line_span(
                        buf@,
                        self.spec_newline(),
                        self.spec_base() as int,
                        (start + j) as nat,
                    );
                    &&& (#[trigger] out@[j]).0 == start + j
                    &&& out@[j].1 == span.0
                    &&& out@[j].2 == span.1
                    &&& self.spec_base() <= out@[j].1 <= out@[j].2 <= buf@.len()
                },
    {
        let all = self.line_ranges_with_terminator(buf, start, count);
        let mut out: Vec<(u64, u64, u64)> = Vec::new();
        let mut j: usize = 0;
        while j < all.len()
            invariant
                j <= all@.len(),
                out@.len() == j,
                forall|i: int|
                    0 <= i < j ==> #[trigger] out@[i] == (all@[i].0, all@[i].1, all@[i].2),
            decreases all.len() - j,
        {
            let t = all[j];
            out.push((t.0, t.1, t.2));
            j += 1;
        }
        out
    }

    /// Numbers of up to `count` lines from `start` on, with the start of each,
    /// the end of its text and the end of its terminator.
    pub fn line_ranges_with_terminator(&self, buf: &[u8], start: u64, count: u64) -> (out: Vec<
        (u64, u64, u64, u64),
    >)
        requires
            self.describes(buf@),
        ensures
            out@.len() == window_len(start as int, count as int, self.spec_line_count() as int),
            forall|j: int|
                0 <= j < out@.len() ==> {
                    &&& (#[trigger] out@[j]).0 == start + j
                    &&& (out@[j].1 as int, out@[j].2 as int, out@[j].3 as int) == line_span(
                        buf@,
                        self.spec_newline(),
                        self.spec_base() as int,
                        (start + j) as nat,
                    )
                    &&& self.spec_base() <= out@[j].1 <= out@[j].2 <= out@[j].3 <= buf@.len()
                },
    {
        let mut out: Vec<(u64, u64, u64, u64)> = Vec::new();
        if start >= self.line_count || count == 0 {
            return out;
        }
        let ghost base = self.base as int;
        let left = self.line_count - start;
        let n: u64 = if count < left {
            count
        } else {
            left
        };
        let mut off = self.start_of(buf, start);
        let mut j: u64 = 0;
        while j < n
            invariant
                self.describes(buf@),
                base == self.base,
                j <= n,
                start + n <= self.line_count,
                out@.len() == j,
                off == line_start(buf@, self.newline, base, (start + j) as nat),
                base <= off <= buf@.len(),
                forall|i: int|
                    0 <= i < j ==> {
                        &&& (#[trigger] out@[i]).0 == start + i
                        &&& (out@[i].1 as int, out@[i].2 as int, out@[i].3 as int) == line_span(
                            buf@,
                            self.newline,
                            base,
                            (start + i) as nat,
                        )
                        &&& base <= out@[i].1 <= out@[i].2 <= out@[i].3 <= buf@.len()
                    },
            decreases n - j,
        {
            let (text, next) = line_ends(buf, self.newline, off);
            out.push((start + j, off as u64, text as u64, next as u64));
            assert(line_start(buf@, self.newline, base, (start + j + 1) as nat) == next);
            off = next;
            j += 1;
        }
        out
    }

    /// The number of the line that contains offset `b`, with `b` clamped into
    /// the content.
    pub fn line_of_byte(&self, buf: &[u8], b: u64) -> (line: u64)
        requires
            self.describes(buf@),
        ensures
            self.spec_base() <= buf@.len() ==> line == newlines(
                buf@,
                self.spec_newline(),
                self.spec_base() as int,
                clamped(b as int, self.spec_base() as int, buf@.len() as int),
            ),
            self.spec_base() > buf@.len() ==> line == 0,
            line <= self.spec_line_count(),
    {
        if self.line_count == 0 {
            proof {
                if self.base <= self.len {
                    lemma_count(buf@, self.newline, self.base as int, 0);
                }
            }
            return 0;
        }
        let ghost base = self.base as int;
        proof {
            lemma_count(buf@, self.newline, base, 0);
            assert(self.good(buf@, self.checkpoints@[0]));
        }
        let b: u64 = if b < self.base {
            self.base
        } else if b > self.len {
            self.len
        } else {
            b
        };
        let k = self.checkpoint_for_byte(b);
        let cp = self.checkpoints[k];
        assert(self.good(buf@, self.checkpoints@[k as int]));
        proof {
            lemma_count(buf@, self.newline, base, cp.line as nat);
            lemma_newlines(buf@, self.newline, base, cp.line as nat, b as int);
        }
        let mut off: usize = cp.off as usize;
        let mut line: u64 = cp.line;
        let total = self.line_count;
        let end: usize = b as usize;
        loop
            invariant
                self.describes(buf@),
                base == self.base,
                base <= self.len,
                total == self.line_count,
                end == b,
                b <= buf@.len(),
                line <= total,
                off <= buf@.len(),
                off == line_start(buf@, self.newline, base, line as nat),
                newlines(buf@, self.newline, base, b as int) == line + newlines(
                    buf@,
                    self.newline,
                    off as int,
                    b as int,
                ),
            ensures
                newlines(buf@, self.newline, base, b as int) == line,
                line <= total,
            decreases buf@.len() - off,
        {
            let lf = find_lf(buf, self.newline, off);
            proof {
                lemma_lf(buf@, self.newline, off as int);
                lemma_count(buf@, self.newline, base, line as nat);
            }
            if lf >= buf.len() || lf > end || end - lf < self.newline.unit_width() {
                break;
            }
            off = lf + self.newline.unit_width();
            line += 1;
        }
        line
    }

    /// Takes in what was appended to the buffer: only the last line and what
    /// follows it are scanned.
    pub fn extend_tail(&mut self, old_buf: &[u8], new_buf: &[u8])
        requires
            old(self).describes(old_buf@),
            old_buf@.len() <= new_buf@.len(),
            new_buf@.take(old_buf@.len() as int) == old_buf@,
        ensures
            final(self).describes(new_buf@),
            final(self).spec_base() == old(self).spec_base(),
            final(self).spec_newline() == old(self).spec_newline(),
            final(self).spec_stride() == old(self).spec_stride(),
    {
        let len = new_buf.len() as u64;
        if self.line_count == 0 {
            let fresh = LineIndex::build_for(new_buf, self.base, self.stride, self.newline);
            *self = fresh;
            return;
        }
        let ghost base = self.base as int;
        let ghost k = self.newline;
        let last = self.line_count - 1;
        let first = self.start_of(old_buf, last);
        proof {
            lemma_count(old_buf@, k, base, 0);
            lemma_prefix_start(old_buf@, new_buf@, k, base, last as nat);
            lemma_count(new_buf@, k, base, last as nat);
        }
        let mut off: usize = first;
        let mut line: u64 = last;
        let mut points: Vec<Checkpoint> = Vec::new();
        std::mem::swap(&mut points, &mut self.checkpoints);
        assert forall|i: int| 0 <= i < points@.len() implies (#[trigger] points@[i]).line <= line
            && points@[i].off == line_start(new_buf@, k, base, points@[i].line as nat) by {
            assert(old(self).good(old_buf@, points@[i]));
            lemma_count(old_buf@, k, base, points@[i].line as nat);
            lemma_prefix_start(old_buf@, new_buf@, k, base, points@[i].line as nat);
        }
        let stride = self.stride;
        let newline = self.newline;
        loop
            invariant
                len == new_buf@.len(),
                stride >= 1,
                newline == k,
                0 <= base <= off < len,
                line < len,
                off == line_start(new_buf@, k, base, line as nat),
                points@.len() > 0,
                points@[0].line == 0,
                forall|i: int|
                    0 <= i < points@.len() ==> (#[trigger] points@[i]).line <= line
                        && points@[i].off == line_start(
                        new_buf@,
                        k,
                        base,
                        points@[i].line as nat,
                    ),
                forall|i: int, j: int|
                    0 <= i < j < points@.len() ==> (#[trigger] points@[i]).line < (
                    #[trigger] points@[j]).line,
            ensures
                line < len,
                line_start(new_buf@, k, base, (line + 1) as nat) == len,
                off == line_start(new_buf@, k, base, line as nat),
                off < len,
                points@.len() > 0,
                points@[0].line == 0,
                forall|i: int|
                    0 <= i < points@.len() ==> (#[trigger] points@[i]).line <= line
                        && points@[i].off == line_start(
                        new_buf@,
                        k,
                        base,
                        points@[i].line as nat,
                    ),
                forall|i: int, j: int|
                    0 <= i < j < points@.len() ==> (#[trigger] points@[i]).line < (
                    #[trigger] points@[j]).line,
            decreases len - off,
        {
            let (_text, next) = line_ends(new_buf, newline, off);
            if next >= new_buf.len() {
                break;
            }
            line += 1;
            off = next;
            proof {
                lemma_count(new_buf@, k, base, line as nat);
            }
            if line % stride == 0 {
                points.push(Checkpoint { line, off: off as u64 });
            }
        }
        proof {
            lemma_count(new_buf@, k, base, line as nat);
            lemma_count(new_buf@, k, base, (line + 1) as nat);
        }
        self.checkpoints = points;
        self.line_count = line + 1;
        self.len = len;
        assert forall|i: int| 0 <= i < self.checkpoints@.len() implies self.good(
            new_buf@,
            #[trigger] self.checkpoints@[i],
        ) by {}
    }
}

/// How many of `count` lines from `start` on there are.
pub open spec fn window_len(start: int, count: int, total: int) -> int {
    if start >= total {
        0
    } else if start + count <= total {
        count
    } else {
        total - start
    }
}

pub open spec fn clamped(b: int, lo: int, hi: int) -> int {
    if b < lo {
        lo
    } else if b > hi {
        hi
    } else {
        b
    }
}

/// Turns chunk-local line numbers into global ones.
fn stitch(
    buf: &[u8],
    base: u64,
    stride: u64,
    newline: Newline,
    ranges: &Vec<(u64, u64)>,
    per: &Vec<ChunkResult>,
) -> (idx: LineIndex)
    requires
        base < buf@.len(),
        stride >= 1,
        ranges@.len() >= 1,
        per@.len() == ranges@.len(),
        ranges@[0].0 == base,
        ranges@.last().1 == buf@.len(),
        forall|i: int| 0 <= i < ranges@.len() ==> whole_lines(buf@, newline, #[trigger] ranges@[i]),
        forall|i: int|
            0 <= i && i + 1 < ranges@.len() ==> (#[trigger] ranges@[i]).1 == ranges@[i + 1].0,
        forall|i: int|
            0 <= i < per@.len() ==> scanned(buf@, newline, ranges@[i], #[trigger] per@[i]),
    ensures
        idx.describes(buf@),
        idx.spec_base() == base,
        idx.spec_newline() == newline,
        idx.spec_stride() == stride,
{
    let mut checkpoints: Vec<Checkpoint> = Vec::new();
    let mut g: u64 = 0;
    let mut c: usize = 0;
    let ghost k = newline;
    let ghost mut at: int = base as int;
    while c < per.len()
        invariant
            c <= per@.len(),
            per@.len() == ranges@.len(),
            k == newline,
            base <= at <= buf@.len(),
            g <= at - base,
            at == line_start(buf@, k, base as int, g as nat),
            line_count(buf@, k, base as int) == g + line_count(buf@, k, at),
            c < ranges@.len() ==> at == ranges@[c as int].0,
            c == ranges@.len() ==> at == ranges@.last().1,
            c > 0 ==> checkpoints@.len() > 0 && checkpoints@[0].line == 0,
            c == 0 ==> checkpoints@.len() == 0 && g == 0,
            forall|i: int|
                0 <= i < ranges@.len() ==> whole_lines(buf@, newline, #[trigger] ranges@[i]),
            forall|i: int|
                0 <= i && i + 1 < ranges@.len() ==> (#[trigger] ranges@[i]).1 == ranges@[i
                    + 1].0,
            forall|i: int|
                0 <= i < per@.len() ==> scanned(buf@, newline, ranges@[i], #[trigger] per@[i]),
            forall|i: int|
                0 <= i < checkpoints@.len() ==> (#[trigger] checkpoints@[i]).line < g
                    && checkpoints@[i].off == line_start(
                    buf@,
                    k,
                    base as int,
                    checkpoints@[i].line as nat,
                ),
            forall|i: int, j: int|
                0 <= i < j < checkpoints@.len() ==> (#[trigger] checkpoints@[i]).line < (
                #[trigger] checkpoints@[j]).line,
        decreases per.len() - c,
    {
        let cr = &per[c];
        assert(scanned(buf@, newline, ranges@[c as int], per@[c as int]));
        assert(whole_lines(buf@, newline, ranges@[c as int]));
        let mut i: usize = 0;
        while i < cr.samples.len()
            invariant
                c < per@.len(),
                per@.len() == ranges@.len(),
                cr == per@[c as int],
                k == newline,
                base <= at <= buf@.len(),
                g <= at - base,
                at == line_start(buf@, k, base as int, g as nat),
                at == ranges@[c as int].0,
                ranges@[c as int].1 <= buf@.len(),
                scanned(buf@, newline, ranges@[c as int], *cr),
                i <= cr.samples@.len(),
                c == 0 ==> g == 0,
                (c > 0 || i > 0) ==> checkpoints@.len() > 0 && checkpoints@[0].line == 0,
                (c == 0 && i == 0) ==> checkpoints@.len() == 0,
                forall|j: int|
                    0 <= j < checkpoints@.len() ==> (#[trigger] checkpoints@[j]).off
                        == line_start(
                        buf@,
                        k,
                        base as int,
                        checkpoints@[j].line as nat,
                    ),
                forall|j: int|
                    0 <= j < checkpoints@.len() ==> if i == 0 {
                        (#[trigger] checkpoints@[j]).line < g
                    } else {
                        checkpoints@[j].line <= g + cr.samples@[i - 1].0
                    },
                forall|i: int, j: int|
                    0 <= i < j < checkpoints@.len() ==> (#[trigger] checkpoints@[i]).line < (
                    #[trigger] checkpoints@[j]).line,
            decreases cr.samples.len() - i,
        {
            let (local, off) = cr.samples[i];
            assert(cr.samples@[i as int].0 < cr.count);
            if i > 0 {
                assert(cr.samples@[i - 1].0 < cr.samples@[i as int].0);
            }
            proof {
                lemma_start_add(buf@, k, base as int, g as nat, local as nat);
            }
            checkpoints.push(Checkpoint { line: g + local, off });
            i += 1;
        }
        proof {
            lemma_start_add(buf@, k, base as int, g as nat, cr.count as nat);
            lemma_count(buf@, k, at, cr.count as nat);
            at = ranges@[c as int].1 as int;
        }
        g = g + cr.count;
        c += 1;
    }
    proof {
        lemma_count(buf@, k, at, 0);
    }
    let idx = LineIndex {
        checkpoints,
        stride,
        line_count: g,
        base,
        len: buf.len() as u64,
        newline,
    };
    assert forall|i: int| 0 <= i < idx.checkpoints@.len() implies idx.good(
        buf@,
        #[trigger] idx.checkpoints@[i],
    ) by {}
    idx
}

} // verus!
