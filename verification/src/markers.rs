//! Sparse, line-oriented markers.
//!
//! Only lines that carry a marker are stored, so a set grows with the number
//! of its markers and never with the number of lines of the document.

use std::collections::BTreeMap;

use vstd::prelude::*;
use vstd::std_specs::btree::*;
use vstd::std_specs::cmp::OrdSpec;
use vstd::std_specs::iter::IteratorSpec;
use vstd::string::*;

use crate::error::{Error, ErrorView};
use crate::text::same_text;

verus! {

/// How many markers of one kind may be inserted. An undo may go beyond.
pub const MAX_MARKERS_PER_KIND: usize = 1_000_000;

/// The kinds of markers.
#[derive(Clone, Copy, Debug, PartialEq, Eq, PartialOrd, Ord, Hash, Structural)]
pub enum MarkerKind {
    Bookmark,
    SearchRule,
    ChangeSaved,
    ChangeUnsaved,
    /// Stands beside `ChangeSaved` or `ChangeUnsaved` on the line after a
    /// deletion.
    ChangeDeleted,
}

impl MarkerKind {
    /// All kinds, in their order.
    pub const ALL: [MarkerKind; 5] = [
        MarkerKind::Bookmark,
        MarkerKind::SearchRule,
        MarkerKind::ChangeSaved,
        MarkerKind::ChangeUnsaved,
        MarkerKind::ChangeDeleted,
    ];

    pub open spec fn place(self) -> int {
        match self {
            MarkerKind::Bookmark => 0,
            MarkerKind::SearchRule => 1,
            MarkerKind::ChangeSaved => 2,
            MarkerKind::ChangeUnsaved => 3,
            MarkerKind::ChangeDeleted => 4,
        }
    }

    fn index(self) -> (i: usize)
        ensures
            i == self.place(),
    {
        match self {
            MarkerKind::Bookmark => 0,
            MarkerKind::SearchRule => 1,
            MarkerKind::ChangeSaved => 2,
            MarkerKind::ChangeUnsaved => 3,
            MarkerKind::ChangeDeleted => 4,
        }
    }

    pub open spec fn name(self) -> Seq<char> {
        match self {
            MarkerKind::Bookmark => "bookmark"@,
            MarkerKind::SearchRule => "search-rule"@,
            MarkerKind::ChangeSaved => "change-saved"@,
            MarkerKind::ChangeUnsaved => "change-unsaved"@,
            MarkerKind::ChangeDeleted => "change-deleted"@,
        }
    }

    /// The name of the kind.
    pub fn as_str(self) -> (s: &'static str)
        ensures
            s@ == self.name(),
    {
        match self {
            MarkerKind::Bookmark => "bookmark",
            MarkerKind::SearchRule => "search-rule",
            MarkerKind::ChangeSaved => "change-saved",
            MarkerKind::ChangeUnsaved => "change-unsaved",
            MarkerKind::ChangeDeleted => "change-deleted",
        }
    }

    /// The kind with a name.
    pub fn parse(value: &str) -> (r: Result<MarkerKind, Error>)
        ensures
            match r {
                Ok(kind) => value@ == kind.name(),
                Err(e) => {
                    &&& forall|kind: MarkerKind| value@ != #[trigger] kind.name()
                    &&& e@ == ErrorView::InvalidInput("unknown marker kind '"@ + value@ + "'"@)
                },
            },
    {
        if same_text(value, "bookmark") {
            Ok(MarkerKind::Bookmark)
        } else if same_text(value, "search-rule") {
            Ok(MarkerKind::SearchRule)
        } else if same_text(value, "change-saved") {
            Ok(MarkerKind::ChangeSaved)
        } else if same_text(value, "change-unsaved") {
            Ok(MarkerKind::ChangeUnsaved)
        } else if same_text(value, "change-deleted") {
            Ok(MarkerKind::ChangeDeleted)
        } else {
            Err(
                Error::InvalidInput(
                    "unknown marker kind '".to_owned().concat(value).concat("'"),
                ),
            )
        }
    }
}

impl std::str::FromStr for MarkerKind {
    type Err = Error;

    fn from_str(value: &str) -> Result<Self, Error> {
        MarkerKind::parse(value)
    }
}

/// A marker on a line.
#[derive(Clone, Copy, Debug, PartialEq, Eq, Structural)]
pub struct LineMarker {
    pub kind: MarkerKind,
    pub line: u64,
}

/// A replacement of lines, as the markers see it: an insertion (no old lines)
/// shifts what stands at its start; a deletion (no new lines) removes the
/// markers of the deleted lines; a replacement keeps the marker of its first
/// line, removes those of the other replaced lines, and shifts what follows.
#[derive(Clone, Copy, Debug, PartialEq, Eq, Structural)]
pub struct LineEdit {
    pub start: u64,
    pub old_lines: u64,
    pub new_lines: u64,
}

impl LineEdit {
    pub fn replacement(start: u64, old_lines: u64, new_lines: u64) -> (e: LineEdit)
        ensures
            e == (LineEdit { start, old_lines, new_lines }),
    {
        LineEdit { start, old_lines, new_lines }
    }

    pub open spec fn reversed(self) -> LineEdit {
        LineEdit { start: self.start, old_lines: self.new_lines, new_lines: self.old_lines }
    }

    /// The edit that takes this one back.
    pub fn inverse(self) -> (e: LineEdit)
        ensures
            e == self.reversed(),
    {
        LineEdit { start: self.start, old_lines: self.new_lines, new_lines: self.old_lines }
    }

    /// Where the replaced lines end.
    pub open spec fn old_end(self) -> int {
        self.start + self.old_lines
    }

    /// Where the lines end that replace them.
    pub open spec fn new_end(self) -> int {
        self.start + self.new_lines
    }

    /// From which line on markers of replaced lines are removed.
    pub open spec fn cut(self) -> int {
        if self.old_lines > 0 && self.new_lines > 0 {
            self.start + 1
        } else {
            self.start as int
        }
    }
}

/// A reversible change of the marked lines. `restore` holds the markers that
/// the opposite change removed.
#[derive(Clone, Debug)]
pub struct MarkerTransform {
    pub edit: LineEdit,
    pub restore: Vec<LineMarker>,
}

impl MarkerTransform {
    pub fn new(edit: LineEdit) -> (t: MarkerTransform)
        ensures
            t.edit == edit,
            t.restore@ == Seq::<LineMarker>::empty(),
    {
        MarkerTransform { edit, restore: Vec::new() }
    }
}

// ---- ordered lines -----------------------------------------------------------

/// Lines in order, none twice.
pub open spec fn rising(s: Seq<u64>) -> bool {
    forall|i: int, j: int| 0 <= i < j < s.len() ==> #[trigger] s[i] < #[trigger] s[j]
}

/// Those of the lines that lie from `lo` up to but not at `hi`.
pub open spec fn within(s: Seq<u64>, lo: int, hi: int) -> Seq<u64>
    decreases s.len(),
{
    if s.len() == 0 {
        Seq::empty()
    } else if lo <= s.last() < hi {
        within(s.drop_last(), lo, hi).push(s.last())
    } else {
        within(s.drop_last(), lo, hi)
    }
}

/// The first elements, `n` at most.
pub open spec fn first_of<T>(s: Seq<T>, n: nat) -> Seq<T> {
    if n <= s.len() {
        s.take(n as int)
    } else {
        s
    }
}

/// Position `p` is where the elements that are not below `x` begin.
pub open spec fn splits_at(s: Seq<u64>, x: int, p: int) -> bool {
    &&& 0 <= p <= s.len()
    &&& forall|i: int| 0 <= i < p ==> #[trigger] s[i] < x
    &&& forall|i: int| p <= i < s.len() ==> #[trigger] s[i] >= x
}

proof fn lemma_within(s: Seq<u64>, lo: int, hi: int, p: int, q: int)
    requires
        splits_at(s, lo, p),
        splits_at(s, hi, q),
        p <= q,
    ensures
        within(s, lo, hi) == s.subrange(p, q),
    decreases s.len(),
{
    if s.len() == 0 {
        assert(s.subrange(p, q) =~= Seq::empty());
    } else {
        let t = s.drop_last();
        let n = s.len() as int;
        if q == n {
            if p == n {
                lemma_within(t, lo, hi, n - 1, n - 1);
                assert(s.subrange(p, q) =~= t.subrange(n - 1, n - 1));
                assert(s[n - 1] < lo);
            } else {
                lemma_within(t, lo, hi, p, n - 1);
                assert(s[n - 1] >= lo);
                assert(s.subrange(p, q) =~= t.subrange(p, n - 1).push(s.last()));
            }
        } else {
            lemma_within(t, lo, hi, p, q);
            assert(s[n - 1] >= hi);
            assert(s.subrange(p, q) =~= t.subrange(p, q));
        }
    }
}

proof fn lemma_within_empty(s: Seq<u64>, lo: int, hi: int)
    requires
        lo >= hi,
    ensures
        within(s, lo, hi) == Seq::<u64>::empty(),
    decreases s.len(),
{
    if s.len() > 0 {
        lemma_within_empty(s.drop_last(), lo, hi);
    }
}

/// Where the elements that are not below `x` begin.
fn lower_bound(v: &Vec<u64>, x: u64) -> (p: usize)
    requires
        rising(v@),
    ensures
        splits_at(v@, x as int, p as int),
{
    let mut lo: usize = 0;
    let mut hi: usize = v.len();
    while lo < hi
        invariant
            rising(v@),
            0 <= lo <= hi <= v@.len(),
            forall|i: int| 0 <= i < lo ==> #[trigger] v@[i] < x,
            forall|i: int| hi <= i < v@.len() ==> #[trigger] v@[i] >= x,
        decreases hi - lo,
    {
        let mid = lo + (hi - lo) / 2;
        if v[mid] < x {
            assert forall|i: int| 0 <= i < mid + 1 implies #[trigger] v@[i] < x by {
                if i < mid {
                    assert(v@[i] < v@[mid as int]);
                }
            }
            lo = mid + 1;
        } else {
            assert forall|i: int| mid <= i < v@.len() implies #[trigger] v@[i] >= x by {
                if i > mid {
                    assert(v@[mid as int] < v@[i]);
                }
            }
            hi = mid;
        }
    }
    lo
}

/// The elements from `p` up to `q`.
fn copy_lines(v: &Vec<u64>, p: usize, q: usize) -> (out: Vec<u64>)
    requires
        p <= q <= v@.len(),
    ensures
        out@ == v@.subrange(p as int, q as int),
{
    let mut out: Vec<u64> = Vec::new();
    let mut i: usize = p;
    while i < q
        invariant
            p <= i <= q <= v@.len(),
            out@ == v@.subrange(p as int, i as int),
        decreases q - i,
    {
        out.push(v[i]);
        assert(out@ =~= v@.subrange(p as int, i + 1));
        i += 1;
    }
    out
}

// ---- sets --------------------------------------------------------------------

/// Sparse, ordered markers of each kind.
#[derive(Clone, Debug)]
pub struct MarkerSet {
    lines: Vec<Vec<u64>>,
}

pub open spec fn limit_reached(kind: MarkerKind) -> ErrorView {
    ErrorView::InvalidInput(kind.name() + " marker limit reached (1000000)"@)
}

fn err_limit(kind: MarkerKind) -> (e: Error)
    ensures
        e@ == limit_reached(kind),
{
    Error::InvalidInput(kind.as_str().to_owned().concat(" marker limit reached (1000000)"))
}

impl Default for MarkerSet {
    fn default() -> (s: MarkerSet)
        ensures
            s.wf(),
            forall|kind: MarkerKind| #[trigger] s.at(kind) == Seq::<u64>::empty(),
    {
        let s = MarkerSet {
            lines: vec![Vec::new(), Vec::new(), Vec::new(), Vec::new(), Vec::new()],
        };
        assert forall|kind: MarkerKind| #[trigger] s.at(kind) == Seq::<u64>::empty() by {
            assert(s.lines@[kind.place()]@ =~= Seq::empty());
        }
        s
    }
}

impl MarkerSet {
    /// The marked lines of each kind are in order, none twice.
    pub closed spec fn wf(&self) -> bool {
        &&& self.lines@.len() == 5
        &&& forall|kind: MarkerKind| rising(#[trigger] self.at(kind))
    }

    /// The lines that are marked, in order.
    pub closed spec fn at(&self, kind: MarkerKind) -> Seq<u64> {
        self.lines@[kind.place()]@
    }

    /// The lines that are marked, as a set.
    pub open spec fn marked(&self, kind: MarkerKind) -> Set<u64> {
        self.at(kind).to_set()
    }

    pub proof fn lemma_wf(&self, kind: MarkerKind)
        requires
            self.wf(),
        ensures
            rising(self.at(kind)),
    {
    }

    /// The number of all markers.
    pub open spec fn total(&self) -> nat {
        self.at(MarkerKind::Bookmark).len() + self.at(MarkerKind::SearchRule).len() + self.at(
            MarkerKind::ChangeSaved,
        ).len() + self.at(MarkerKind::ChangeUnsaved).len() + self.at(
            MarkerKind::ChangeDeleted,
        ).len()
    }

    /// Puts other lines in place of those of one kind.
    fn put(&mut self, kind: MarkerKind, lines: Vec<u64>)
        requires
            old(self).wf(),
            rising(lines@),
        ensures
            final(self).wf(),
            final(self).at(kind) == lines@,
            forall|k: MarkerKind| k != kind ==> #[trigger] final(self).at(k) == old(self).at(k),
    {
        let ghost s0 = *self;
        let i = kind.index();
        self.lines.set(i, lines);
        proof {
            assert forall|k: MarkerKind| k != kind implies #[trigger] self.at(k) == s0.at(k) by {
                assert(k.place() != kind.place());
            }
            assert forall|k: MarkerKind| rising(#[trigger] self.at(k)) by {
                if k != kind {
                    assert(self.at(k) == s0.at(k));
                    assert(rising(s0.at(k)));
                }
            }
        }
    }

    pub fn is_empty(&self) -> (b: bool)
        requires
            self.wf(),
        ensures
            b == (forall|kind: MarkerKind| (#[trigger] self.at(kind)).len() == 0),
    {
        let b = self.lines[0].len() == 0 && self.lines[1].len() == 0 && self.lines[2].len() == 0
            && self.lines[3].len() == 0 && self.lines[4].len() == 0;
        proof {
            if forall|kind: MarkerKind| (#[trigger] self.at(kind)).len() == 0 {
                assert(self.at(MarkerKind::Bookmark).len() == 0);
                assert(self.at(MarkerKind::SearchRule).len() == 0);
                assert(self.at(MarkerKind::ChangeSaved).len() == 0);
                assert(self.at(MarkerKind::ChangeUnsaved).len() == 0);
                assert(self.at(MarkerKind::ChangeDeleted).len() == 0);
            }
        }
        b
    }

    pub fn len(&self, kind: MarkerKind) -> (n: usize)
        requires
            self.wf(),
        ensures
            n == self.at(kind).len(),
    {
        self.lines[kind.index()].len()
    }

    pub fn total_len(&self) -> (n: usize)
        requires
            self.wf(),
            self.total() <= usize::MAX,
        ensures
            n == self.total(),
    {
        self.len(MarkerKind::Bookmark) + self.len(MarkerKind::SearchRule) + self.len(
            MarkerKind::ChangeSaved,
        ) + self.len(MarkerKind::ChangeUnsaved) + self.len(MarkerKind::ChangeDeleted)
    }

    pub fn contains(&self, kind: MarkerKind, line: u64) -> (b: bool)
        requires
            self.wf(),
        ensures
            b == self.at(kind).contains(line),
    {
        let v = &self.lines[kind.index()];
        proof {
            self.lemma_wf(kind);
        }
        let p = lower_bound(v, line);
        p < v.len() && v[p] == line
    }

    /// Marks a line; `true` if it was not marked. At the limit nothing is
    /// added.
    pub fn insert(&mut self, kind: MarkerKind, line: u64) -> (r: Result<bool, Error>)
        requires
            old(self).wf(),
        ensures
            final(self).wf(),
            forall|k: MarkerKind| k != kind ==> #[trigger] final(self).at(k) == old(self).at(k),
            match r {
                Ok(true) => {
                    &&& !old(self).marked(kind).contains(line)
                    &&& old(self).at(kind).len() < MAX_MARKERS_PER_KIND
                    &&& final(self).marked(kind) == old(self).marked(kind).insert(line)
                },
                Ok(false) => {
                    &&& old(self).marked(kind).contains(line)
                    &&& final(self).at(kind) == old(self).at(kind)
                },
                Err(e) => {
                    &&& !old(self).marked(kind).contains(line)
                    &&& old(self).at(kind).len() >= MAX_MARKERS_PER_KIND
                    &&& final(self).at(kind) == old(self).at(kind)
                    &&& e@ == limit_reached(kind)
                },
            },
    {
        if self.contains(kind, line) {
            return Ok(false);
        }
        if self.len(kind) >= MAX_MARKERS_PER_KIND {
            return Err(err_limit(kind));
        }
        self.add(kind, line);
        Ok(true)
    }

    /// Marks a line, whatever the limit says.
    fn add(&mut self, kind: MarkerKind, line: u64)
        requires
            old(self).wf(),
        ensures
            final(self).wf(),
            forall|k: MarkerKind| k != kind ==> #[trigger] final(self).at(k) == old(self).at(k),
            final(self).marked(kind) == old(self).marked(kind).insert(line),
    {
        let v = &self.lines[kind.index()];
        let ghost s = v@;
        proof {
            self.lemma_wf(kind);
        }
        let p = lower_bound(v, line);
        if p < v.len() && v[p] == line {
            assert(s.contains(line));
            assert(self.marked(kind) =~= self.marked(kind).insert(line));
            return;
        }
        let mut w = copy_lines(v, 0, v.len());
        assert(w@ =~= s);
        w.insert(p, line);
        proof {
            lemma_inserted(s, p as int, line);
        }
        self.put(kind, w);
    }

    /// Marks a line or takes its marker away; whether it is marked now.
    pub fn toggle(&mut self, kind: MarkerKind, line: u64) -> (r: Result<bool, Error>)
        requires
            old(self).wf(),
        ensures
            final(self).wf(),
            forall|k: MarkerKind| k != kind ==> #[trigger] final(self).at(k) == old(self).at(k),
            match r {
                Ok(true) => {
                    &&& !old(self).marked(kind).contains(line)
                    &&& old(self).at(kind).len() < MAX_MARKERS_PER_KIND
                    &&& final(self).marked(kind) == old(self).marked(kind).insert(line)
                },
                Ok(false) => {
                    &&& old(self).marked(kind).contains(line)
                    &&& final(self).marked(kind) == old(self).marked(kind).remove(line)
                },
                Err(e) => {
                    &&& !old(self).marked(kind).contains(line)
                    &&& old(self).at(kind).len() >= MAX_MARKERS_PER_KIND
                    &&& final(self).at(kind) == old(self).at(kind)
                    &&& e@ == limit_reached(kind)
                },
            },
    {
        if self.remove(kind, line) {
            Ok(false)
        } else {
            match self.insert(kind, line) {
                Ok(_) => Ok(true),
                Err(e) => Err(e),
            }
        }
    }

    /// Takes a marker away; whether there was one.
    pub fn remove(&mut self, kind: MarkerKind, line: u64) -> (b: bool)
        requires
            old(self).wf(),
        ensures
            final(self).wf(),
            b == old(self).marked(kind).contains(line),
            final(self).marked(kind) == old(self).marked(kind).remove(line),
            !b ==> final(self).at(kind) == old(self).at(kind),
            forall|k: MarkerKind| k != kind ==> #[trigger] final(self).at(k) == old(self).at(k),
    {
        let v = &self.lines[kind.index()];
        let ghost s = v@;
        proof {
            self.lemma_wf(kind);
        }
        let p = lower_bound(v, line);
        if p >= v.len() || v[p] != line {
            assert(!s.contains(line));
            assert(s.to_set() =~= s.to_set().remove(line));
            return false;
        }
        let mut w = copy_lines(v, 0, v.len());
        assert(w@ =~= s);
        let _gone = w.remove(p);
        proof {
            let t = s.remove(p as int);
            assert(w@ == t);
            assert forall|i: int, j: int| 0 <= i < j < t.len() implies #[trigger] t[i]
                < #[trigger] t[j] by {
                let a = if i < p { i } else { i + 1 };
                let b = if j < p { j } else { j + 1 };
                assert(s[a] < s[b]);
            }
            assert(s[p as int] == line);
            assert(s.contains(line));
            assert(t.to_set() =~= s.to_set().remove(line)) by {
                assert forall|x: u64| t.to_set().contains(x) <==> s.to_set().remove(line).contains(
                    x,
                ) by {
                    if t.contains(x) {
                        let i = choose|i: int| 0 <= i < t.len() && t[i] == x;
                        let a = if i < p { i } else { i + 1 };
                        assert(s[a] == x);
                        if a < p {
                            assert(s[a] < s[p as int]);
                        } else {
                            assert(s[p as int] < s[a]);
                        }
                    }
                    if s.contains(x) && x != line {
                        let i = choose|i: int| 0 <= i < s.len() && s[i] == x;
                        let a = if i < p { i } else { i - 1 };
                        assert(t[a] == x);
                    }
                }
            }
        }
        self.put(kind, w);
        true
    }

    /// Takes all markers of a kind away.
    pub fn clear(&mut self, kind: MarkerKind)
        requires
            old(self).wf(),
        ensures
            final(self).wf(),
            final(self).at(kind) == Seq::<u64>::empty(),
            forall|k: MarkerKind| k != kind ==> #[trigger] final(self).at(k) == old(self).at(k),
    {
        let v: Vec<u64> = Vec::new();
        self.put(kind, v);
    }

    /// Puts other markers of a kind in place of those there are; whether that
    /// changed anything. Beyond the limit nothing is changed.
    pub fn replace_lines(&mut self, kind: MarkerKind, lines: Vec<u64>) -> (r: Result<bool, Error>)
        requires
            old(self).wf(),
        ensures
            final(self).wf(),
            forall|k: MarkerKind| k != kind ==> #[trigger] final(self).at(k) == old(self).at(k),
            match r {
                Ok(changed) => {
                    &&& lines@.to_set().len() <= MAX_MARKERS_PER_KIND
                    &&& final(self).marked(kind) == lines@.to_set()
                    &&& changed == (old(self).at(kind) != final(self).at(kind))
                },
                Err(e) => {
                    &&& lines@.to_set().len() > MAX_MARKERS_PER_KIND
                    &&& final(self).at(kind) == old(self).at(kind)
                    &&& e@ == limit_reached(kind)
                },
            },
    {
        let fresh = ordered(&lines);
        proof {
            lemma_rising_set(fresh@);
        }
        if fresh.len() > MAX_MARKERS_PER_KIND {
            return Err(err_limit(kind));
        }
        let now = &self.lines[kind.index()];
        if same_lines(now, &fresh) {
            return Ok(false);
        }
        self.put(kind, fresh);
        Ok(true)
    }

    /// The first marked line at or after a line.
    pub fn next_at_or_after(&self, kind: MarkerKind, line: u64) -> (r: Option<u64>)
        requires
            self.wf(),
        ensures
            match r {
                Some(x) => {
                    &&& self.at(kind).contains(x)
                    &&& x >= line
                    &&& forall|y: u64| #[trigger] self.at(kind).contains(y) && y >= line ==> x <= y
                },
                None => forall|y: u64| #[trigger] self.at(kind).contains(y) ==> y < line,
            },
    {
        let v = &self.lines[kind.index()];
        proof {
            self.lemma_wf(kind);
        }
        let p = lower_bound(v, line);
        if p < v.len() {
            proof {
                assert forall|y: u64| #[trigger] v@.contains(y) && y >= line implies v@[p as int]
                    <= y by {
                    let i = choose|i: int| 0 <= i < v@.len() && v@[i] == y;
                    if i > p {
                        assert(v@[p as int] < v@[i]);
                    }
                }
            }
            Some(v[p])
        } else {
            None
        }
    }

    /// The last marked line at or before a line.
    pub fn previous_at_or_before(&self, kind: MarkerKind, line: u64) -> (r: Option<u64>)
        requires
            self.wf(),
        ensures
            match r {
                Some(x) => {
                    &&& self.at(kind).contains(x)
                    &&& x <= line
                    &&& forall|y: u64| #[trigger] self.at(kind).contains(y) && y <= line ==> y <= x
                },
                None => forall|y: u64| #[trigger] self.at(kind).contains(y) ==> y > line,
            },
    {
        let v = &self.lines[kind.index()];
        proof {
            self.lemma_wf(kind);
        }
        let p = lower_bound(v, line);
        let q: usize = if p < v.len() && v[p] == line {
            p + 1
        } else {
            p
        };
        proof {
            assert forall|i: int| q <= i < v@.len() implies #[trigger] v@[i] > line by {
                if i > p {
                    assert(v@[p as int] < v@[i]);
                }
            }
        }
        if q > 0 {
            proof {
                assert forall|y: u64| #[trigger] v@.contains(y) && y <= line implies y <= v@[q
                    - 1] by {
                    let i = choose|i: int| 0 <= i < v@.len() && v@[i] == y;
                    if i < q - 1 {
                        assert(v@[i] < v@[q - 1]);
                    }
                }
            }
            Some(v[q - 1])
        } else {
            None
        }
    }

    pub fn first(&self, kind: MarkerKind) -> (r: Option<u64>)
        requires
            self.wf(),
        ensures
            r == if self.at(kind).len() > 0 {
                Some(self.at(kind)[0])
            } else {
                None
            },
    {
        let v = &self.lines[kind.index()];
        if v.len() > 0 {
            Some(v[0])
        } else {
            None
        }
    }

    pub fn last(&self, kind: MarkerKind) -> (r: Option<u64>)
        requires
            self.wf(),
        ensures
            r == if self.at(kind).len() > 0 {
                Some(self.at(kind).last())
            } else {
                None
            },
    {
        let v = &self.lines[kind.index()];
        if v.len() > 0 {
            Some(v[v.len() - 1])
        } else {
            None
        }
    }

    /// The first marked lines from `start` up to but not at `end`, `limit` at
    /// most.
    pub fn range(&self, kind: MarkerKind, start: u64, end: u64, limit: usize) -> (out: Vec<u64>)
        requires
            self.wf(),
        ensures
            out@ == first_of(within(self.at(kind), start as int, end as int), limit as nat),
    {
        if start >= end {
            proof {
                lemma_within_empty(self.at(kind), start as int, end as int);
            }
            let none: Vec<u64> = Vec::new();
            assert(none@ =~= first_of(Seq::<u64>::empty(), limit as nat));
            return none;
        }
        let v = &self.lines[kind.index()];
        proof {
            self.lemma_wf(kind);
        }
        let p = lower_bound(v, start);
        let q = lower_bound(v, end);
        assert(p <= q) by {
            if q < p {
                assert(v@[q as int] < start);
            }
        }
        proof {
            lemma_within(v@, start as int, end as int, p as int, q as int);
        }
        let stop = if q - p <= limit {
            q
        } else {
            p + limit
        };
        let out = copy_lines(v, p, stop);
        assert(out@ =~= first_of(v@.subrange(p as int, q as int), limit as nat));
        out
    }

    /// How many lines from `start` up to but not at `end` are marked.
    pub fn range_count(&self, kind: MarkerKind, start: u64, end: u64) -> (n: usize)
        requires
            self.wf(),
        ensures
            n == within(self.at(kind), start as int, end as int).len(),
    {
        if start >= end {
            proof {
                lemma_within_empty(self.at(kind), start as int, end as int);
            }
            return 0;
        }
        let v = &self.lines[kind.index()];
        proof {
            self.lemma_wf(kind);
        }
        let p = lower_bound(v, start);
        let q = lower_bound(v, end);
        assert(p <= q) by {
            if q < p {
                assert(v@[q as int] < start);
            }
        }
        proof {
            lemma_within(v@, start as int, end as int, p as int, q as int);
        }
        q - p
    }

    /// The first marked lines at or after `start`, `limit` at most.
    pub fn from(&self, kind: MarkerKind, start: u64, limit: usize) -> (out: Vec<u64>)
        requires
            self.wf(),
        ensures
            out@ == first_of(within(self.at(kind), start as int, u64::MAX + 1), limit as nat),
    {
        let v = &self.lines[kind.index()];
        proof {
            self.lemma_wf(kind);
        }
        let p = lower_bound(v, start);
        let q = v.len();
        proof {
            lemma_within(v@, start as int, u64::MAX + 1, p as int, q as int);
        }
        let stop = if q - p <= limit {
            q
        } else {
            p + limit
        };
        let out = copy_lines(v, p, stop);
        assert(out@ =~= first_of(v@.subrange(p as int, q as int), limit as nat));
        out
    }

    /// The markers from `start` up to but not at `end`, by kind and line, of
    /// each kind `limit_per_kind` at most.
    pub fn all_in_range(&self, start: u64, end: u64, limit_per_kind: usize) -> (out: Vec<LineMarker>)
        requires
            self.wf(),
        ensures
            out@ == self.markers_within(start as int, end as int, limit_per_kind as nat),
    {
        let mut out: Vec<LineMarker> = Vec::new();
        push_markers(&mut out, MarkerKind::Bookmark, self.range(MarkerKind::Bookmark, start, end, limit_per_kind));
        push_markers(&mut out, MarkerKind::SearchRule, self.range(MarkerKind::SearchRule, start, end, limit_per_kind));
        push_markers(&mut out, MarkerKind::ChangeSaved, self.range(MarkerKind::ChangeSaved, start, end, limit_per_kind));
        push_markers(&mut out, MarkerKind::ChangeUnsaved, self.range(MarkerKind::ChangeUnsaved, start, end, limit_per_kind));
        push_markers(&mut out, MarkerKind::ChangeDeleted, self.range(MarkerKind::ChangeDeleted, start, end, limit_per_kind));
        assert(out@ =~= self.markers_within(start as int, end as int, limit_per_kind as nat));
        out
    }

    /// The first markers of each kind between two lines.
    pub open spec fn markers_within(&self, lo: int, hi: int, limit: nat) -> Seq<LineMarker> {
        tagged(MarkerKind::Bookmark, first_of(within(self.at(MarkerKind::Bookmark), lo, hi), limit))
            + tagged(
            MarkerKind::SearchRule,
            first_of(within(self.at(MarkerKind::SearchRule), lo, hi), limit),
        ) + tagged(
            MarkerKind::ChangeSaved,
            first_of(within(self.at(MarkerKind::ChangeSaved), lo, hi), limit),
        ) + tagged(
            MarkerKind::ChangeUnsaved,
            first_of(within(self.at(MarkerKind::ChangeUnsaved), lo, hi), limit),
        ) + tagged(
            MarkerKind::ChangeDeleted,
            first_of(within(self.at(MarkerKind::ChangeDeleted), lo, hi), limit),
        )
    }
}

/// Lines as markers of a kind.
pub open spec fn tagged(kind: MarkerKind, s: Seq<u64>) -> Seq<LineMarker> {
    s.map_values(|line: u64| LineMarker { kind, line })
}

fn push_markers(out: &mut Vec<LineMarker>, kind: MarkerKind, lines: Vec<u64>)
    ensures
        final(out)@ == old(out)@ + tagged(kind, lines@),
{
    let ghost o = out@;
    let mut i: usize = 0;
    assert(o + tagged(kind, lines@.take(0)) =~= o);
    while i < lines.len()
        invariant
            i <= lines@.len(),
            out@ == o + tagged(kind, lines@.take(i as int)),
        decreases lines.len() - i,
    {
        out.push(LineMarker { kind, line: lines[i] });
        assert(out@ =~= o + tagged(kind, lines@.take(i + 1)));
        i += 1;
    }
    assert(lines@.take(lines@.len() as int) =~= lines@);
}

proof fn lemma_rising_set(s: Seq<u64>)
    requires
        rising(s),
    ensures
        s.to_set().len() == s.len(),
{
    assert(s.no_duplicates()) by {
        assert forall|i: int, j: int| 0 <= i < s.len() && 0 <= j < s.len() && i != j implies s[i]
            != s[j] by {
            if i < j {
                assert(s[i] < s[j]);
            } else {
                assert(s[j] < s[i]);
            }
        }
    }
    s.unique_seq_to_set();
}

proof fn lemma_inserted(s: Seq<u64>, p: int, line: u64)
    requires
        rising(s),
        splits_at(s, line as int, p),
        p < s.len() ==> s[p] != line,
    ensures
        rising(s.insert(p, line)),
        s.insert(p, line).to_set() == s.to_set().insert(line),
{
    let t = s.insert(p, line);
    assert forall|i: int, j: int| 0 <= i < j < t.len() implies #[trigger] t[i] < #[trigger] t[j] by {
        if i == p {
            assert(t[j] == s[j - 1]);
            if j - 1 > p {
                assert(s[p] < s[j - 1]);
            }
        } else if j == p {
            assert(t[i] == s[i]);
        } else {
            let a = if i < p { i } else { i - 1 };
            let b = if j < p { j } else { j - 1 };
            assert(t[i] == s[a] && t[j] == s[b]);
            assert(s[a] < s[b]);
        }
    }
    assert forall|x: u64| t.to_set().contains(x) <==> s.to_set().insert(line).contains(x) by {
        if t.contains(x) {
            let i = choose|i: int| 0 <= i < t.len() && t[i] == x;
            if i != p {
                let a = if i < p { i } else { i - 1 };
                assert(s[a] == x);
            }
        }
        if s.contains(x) {
            let i = choose|i: int| 0 <= i < s.len() && s[i] == x;
            let a = if i < p { i } else { i + 1 };
            assert(t[a] == x);
        }
        assert(t[p] == line);
    }
    assert(t.to_set() =~= s.to_set().insert(line));
}

fn same_lines(a: &Vec<u64>, b: &Vec<u64>) -> (same: bool)
    ensures
        same == (a@ == b@),
{
    if a.len() != b.len() {
        return false;
    }
    let mut i: usize = 0;
    while i < a.len()
        invariant
            i <= a@.len(),
            a@.len() == b@.len(),
            forall|j: int| 0 <= j < i ==> a@[j] == b@[j],
        decreases a.len() - i,
    {
        if a[i] != b[i] {
            return false;
        }
        i += 1;
    }
    assert(a@ =~= b@);
    true
}

/// Lines in order, none twice.
fn ordered(lines: &Vec<u64>) -> (v: Vec<u64>)
    ensures
        rising(v@),
        v@.to_set() == lines@.to_set(),
{
    broadcast use group_btree_axioms;

    let mut set: BTreeMap<u64, ()> = BTreeMap::new();
    let mut i: usize = 0;
    assert(lines@.take(0).to_set() =~= Set::empty());
    assert(set@.dom() =~= Set::empty());
    while i < lines.len()
        invariant
            i <= lines@.len(),
            set@.dom() == lines@.take(i as int).to_set(),
        decreases lines.len() - i,
    {
        let ghost before = set@.dom();
        let _new = set.insert(lines[i], ());
        proof {
            let a = lines@.take(i as int);
            let b = lines@.take(i + 1);
            assert(set@.dom() =~= before.insert(lines@[i as int]));
            assert forall|x: u64| b.to_set().contains(x) <==> a.to_set().insert(
                lines@[i as int],
            ).contains(x) by {
                if a.contains(x) {
                    let j = choose|j: int| 0 <= j < a.len() && a[j] == x;
                    assert(b[j] == x);
                }
                if b.contains(x) {
                    let j = choose|j: int| 0 <= j < b.len() && b[j] == x;
                    if j < a.len() {
                        assert(a[j] == x);
                    }
                }
                assert(b[i as int] == lines@[i as int]);
            }
            assert(b.to_set() =~= a.to_set().insert(lines@[i as int]));
        }
        i += 1;
    }
    assert(lines@.take(lines@.len() as int) =~= lines@);
    keys_of(&set)
}

/// The keys of a map, in order.
fn keys_of(set: &BTreeMap<u64, ()>) -> (v: Vec<u64>)
    ensures
        rising(v@),
        v@.to_set() == set@.dom(),
{
    broadcast use group_btree_axioms;

    let mut v: Vec<u64> = Vec::new();
    let ghost m = set@;
    for (k, e) in it: set.iter()
        invariant
            v@.len() == it.index(),
            it.seq() == spec_btree_map_iter(set).remaining(),
            forall|j: int| 0 <= j < v@.len() ==> #[trigger] v@[j] == *it.seq()[j].0,
    {
        v.push(*k);
    }
    proof {
        let s = spec_btree_map_iter(set).remaining();
        let keys = s.map_values(|kv: (&u64, &())| *kv.0);
        assert(increasing_seq(keys));
        assert(v@ =~= keys);
        assert forall|a: int, b: int| 0 <= a < b < v@.len() implies #[trigger] v@[a]
            < #[trigger] v@[b] by {
            assert(keys[a].cmp_spec(&keys[b]) is Less);
        }
        assert forall|x: u64| v@.to_set().contains(x) <==> m.dom().contains(x) by {
            if v@.contains(x) {
                let j = choose|j: int| 0 <= j < v@.len() && v@[j] == x;
                assert(m.contains_key(*s[j].0));
            }
            if m.contains_key(x) {
                let j = choose|j: int| 0 <= j < s.len() && s[j] == (&x, &m[x]);
                assert(s.contains((&x, &m[x])));
                assert(v@[j] == x);
            }
        }
        assert(v@.to_set() =~= m.dom());
    }
    v
}

// ---- positions ---------------------------------------------------------------

/// The bin of a line, when the lines up to `last_line` are spread over bins
/// from 0 to `last_bin`.
pub open spec fn bin_of(line: u64, last_line: u64, last_bin: nat) -> int {
    let at = if line <= last_line { line as int } else { last_line as int };
    let width = if last_line >= 1 { last_line as int } else { 1 };
    at * last_bin / width
}

/// How many of the lines fall into a bin.
pub open spec fn in_bin(s: Seq<u64>, last_line: u64, last_bin: nat, bin: int) -> nat
    decreases s.len(),
{
    if s.len() == 0 {
        0
    } else {
        in_bin(s.drop_last(), last_line, last_bin, bin) + if bin_of(s.last(), last_line, last_bin)
            == bin {
            1nat
        } else {
            0nat
        }
    }
}

pub open spec fn capped(n: nat) -> u32 {
    if n <= u32::MAX {
        n as u32
    } else {
        u32::MAX
    }
}

impl MarkerSet {
    /// The markers of a kind, counted by their position in the document:
    /// `last_line` goes to the last of the bins.
    pub fn histogram(&self, kind: MarkerKind, last_line: u64, bins: usize) -> (out: Vec<u32>)
        requires
            self.wf(),
        ensures
            out@.len() == bins,
            forall|b: int|
                0 <= b < bins ==> #[trigger] out@[b] == capped(
                    in_bin(self.at(kind), last_line, (bins - 1) as nat, b),
                ),
    {
        let mut out: Vec<u32> = Vec::new();
        if bins == 0 {
            return out;
        }
        let mut i: usize = 0;
        while i < bins
            invariant
                i <= bins,
                out@.len() == i,
                forall|b: int| 0 <= b < i ==> #[trigger] out@[b] == 0,
            decreases bins - i,
        {
            out.push(0);
            i += 1;
        }
        let v = &self.lines[kind.index()];
        let last_bin = bins - 1;
        let width: u128 = if last_line >= 1 {
            last_line as u128
        } else {
            1
        };
        let mut j: usize = 0;
        while j < v.len()
            invariant
                j <= v@.len(),
                v@ == self.at(kind),
                bins >= 1,
                last_bin == bins - 1,
                width == if last_line >= 1 { last_line as int } else { 1 },
                out@.len() == bins,
                forall|b: int|
                    0 <= b < bins ==> #[trigger] out@[b] == capped(
                        in_bin(v@.take(j as int), last_line, last_bin as nat, b),
                    ),
            decreases v.len() - j,
        {
            let line = v[j];
            let at: u128 = if line <= last_line {
                line as u128
            } else {
                last_line as u128
            };
            assert(at * last_bin <= u64::MAX * last_bin) by (nonlinear_arith)
                requires
                    at <= u64::MAX,
                    last_bin >= 0,
            ;
            assert(u64::MAX * last_bin <= u128::MAX) by (nonlinear_arith)
                requires
                    0 <= last_bin <= u64::MAX,
            ;
            let bin_wide = at * (last_bin as u128) / width;
            assert(bin_wide <= last_bin) by (nonlinear_arith)
                requires
                    bin_wide == at * (last_bin as u128) / width as int,
                    at <= width,
                    width > 0,
                    last_bin >= 0,
            ;
            let bin = bin_wide as usize;
            let ghost before = out@;
            let n = out[bin].saturating_add(1);
            out.set(bin, n);
            proof {
                let t = v@.take(j + 1);
                assert(t.drop_last() =~= v@.take(j as int));
                assert(t.last() == line);
                assert(bin == bin_of(line, last_line, last_bin as nat));
                assert forall|b: int| 0 <= b < bins implies #[trigger] out@[b] == capped(
                    in_bin(t, last_line, last_bin as nat, b),
                ) by {
                    assert(before[b] == capped(
                        in_bin(v@.take(j as int), last_line, last_bin as nat, b),
                    ));
                }
            }
            j += 1;
        }
        assert(v@.take(v@.len() as int) =~= v@);
        out
    }
}

// ---- edits -------------------------------------------------------------------

/// Line `x` is marked after lines were replaced: it was marked before the cut;
/// or it is where a marked line went that came after the replaced ones; or it
/// is restored.
pub open spec fn marked_after(
    s: Set<u64>,
    edit: LineEdit,
    restore: Set<u64>,
    x: u64,
) -> bool {
    ||| s.contains(x) && x < edit.cut()
    ||| {
        let from = x - edit.new_end() + edit.old_end();
        x >= edit.new_end() && from <= u64::MAX && s.contains(from as u64)
    }
    ||| restore.contains(x)
}

/// The marked lines after lines were replaced.
pub open spec fn moved(s: Set<u64>, edit: LineEdit, restore: Set<u64>) -> Set<u64> {
    Set::new(|x: u64| marked_after(s, edit, restore, x))
}

/// The lines of one kind among markers.
pub open spec fn lines_among(v: Seq<LineMarker>, kind: MarkerKind) -> Set<u64> {
    Set::new(|x: u64| v.contains(LineMarker { kind, line: x }))
}

pub open spec fn edit_overflow() -> ErrorView {
    ErrorView::InvalidInput("marker line edit overflow"@)
}

pub open spec fn shift_overflow() -> ErrorView {
    ErrorView::InvalidInput("marker line shift overflow"@)
}

/// A marked line at or after the replaced ones would be shifted too far.
pub open spec fn shifted_out(s: Seq<u64>, edit: LineEdit) -> bool {
    s.len() > 0 && s.last() >= edit.old_end() && s.last() + edit.new_end() - edit.old_end()
        > u64::MAX
}

/// What the markers do not survive of an edit, if anything.
pub open spec fn edit_refused(m: MarkerSet, edit: LineEdit) -> Option<ErrorView> {
    if edit.old_end() > u64::MAX || edit.new_end() > u64::MAX {
        Some(edit_overflow())
    } else if exists|kind: MarkerKind| shifted_out(#[trigger] m.at(kind), edit) {
        Some(shift_overflow())
    } else {
        None
    }
}

/// The lines of one kind, cut and shifted.
fn shifted(v: &Vec<u64>, edit: LineEdit) -> (w: Vec<u64>)
    requires
        rising(v@),
        edit.old_end() <= u64::MAX,
        edit.new_end() <= u64::MAX,
        !shifted_out(v@, edit),
    ensures
        rising(w@),
        w@.to_set() == moved(v@.to_set(), edit, Set::empty()),
{
    let old_end = edit.start + edit.old_lines;
    let new_end = edit.start + edit.new_lines;
    let cut = if edit.old_lines > 0 && edit.new_lines > 0 {
        edit.start + 1
    } else {
        edit.start
    };
    let ghost s = v@;
    let p = lower_bound(v, cut);
    let q = lower_bound(v, old_end);
    let mut w = copy_lines(v, 0, p);
    let mut i: usize = q;
    while i < v.len()
        invariant
            s == v@,
            rising(s),
            q <= i <= s.len(),
            p <= s.len(),
            splits_at(s, cut as int, p as int),
            splits_at(s, old_end as int, q as int),
            cut == edit.cut(),
            old_end == edit.old_end(),
            new_end == edit.new_end(),
            !shifted_out(s, edit),
            w@.len() == p + (i - q),
            forall|k: int| 0 <= k < p ==> #[trigger] w@[k] == s[k],
            forall|k: int|
                p <= k < w@.len() ==> #[trigger] w@[k] == s[k - p + q] + new_end - old_end,
        decreases v.len() - i,
    {
        let x = v[i];
        proof {
            assert(s[i as int] >= old_end);
            if i < s.len() - 1 {
                assert(s[i as int] < s[s.len() - 1]);
            }
        }
        let y = x - old_end + new_end;
        w.push(y);
        i += 1;
    }
    proof {
        let t = w@;
        assert(p <= q) by {
            if q < p {
                assert(s[q as int] < cut);
            }
        }
        assert forall|a: int, b: int| 0 <= a < b < t.len() implies #[trigger] t[a] < #[trigger] t[b] by {
            if b < p {
                assert(s[a] < s[b]);
            } else if a >= p {
                assert(s[a - p + q] < s[b - p + q]);
            } else {
                assert(t[a] == s[a] && s[a] < cut);
                assert(s[b - p + q] >= old_end);
                assert(t[b] >= new_end);
                assert(cut <= new_end);
            }
        }
        let goal = moved(s.to_set(), edit, Set::empty());
        assert forall|x: u64| t.to_set().contains(x) <==> goal.contains(x) by {
            if t.contains(x) {
                let k = choose|k: int| 0 <= k < t.len() && t[k] == x;
                if k < p {
                    assert(s[k] == x);
                    assert(s[k] < cut);
                } else {
                    let from = s[k - p + q];
                    assert(from == x - new_end + old_end);
                    assert(s.contains(from));
                    assert(from >= old_end);
                }
            }
            if s.contains(x) && x < cut {
                let k = choose|k: int| 0 <= k < s.len() && s[k] == x;
                assert(k < p);
                assert(t[k] == x);
            }
            let from = x - new_end + old_end;
            if x >= new_end && from <= u64::MAX && s.contains(from as u64) {
                let k = choose|k: int| 0 <= k < s.len() && s[k] == from as u64;
                assert(k >= q) by {
                    if k < q {
                        assert(s[k] < old_end);
                    }
                }
                assert(t[k - q + p] == x);
            }
        }
        assert(t.to_set() =~= goal);
    }
    w
}

impl MarkerSet {
    /// A change goes through: it gives other marked lines, and the change that
    /// takes it back.
    pub open spec fn applies(
        self,
        t: MarkerTransform,
        after: MarkerSet,
        back: MarkerTransform,
    ) -> bool {
        &&& edit_refused(self, t.edit) is None
        &&& back.edit == t.edit.reversed()
        &&& back.restore@ == self.markers_within(t.edit.cut(), t.edit.old_end(), usize::MAX as nat)
        &&& forall|kind: MarkerKind| #[trigger]
            after.marked(kind) == moved(
                self.marked(kind),
                t.edit,
                lines_among(t.restore@, kind),
            )
    }

    /// Changes the marked lines as an edit changes the lines, and gives the
    /// change that takes this one back. Where a line would be shifted too far,
    /// nothing changes. What is restored is not limited in number.
    pub fn apply(&mut self, transform: MarkerTransform) -> (r: Result<MarkerTransform, Error>)
        requires
            old(self).wf(),
        ensures
            final(self).wf(),
            match r {
                Ok(back) => old(self).applies(transform, *final(self), back),
                Err(e) => {
                    &&& edit_refused(*old(self), transform.edit) == Some(e@)
                    &&& forall|kind: MarkerKind| #[trigger]
                        final(self).at(kind) == old(self).at(kind)
                },
            },
    {
        let ghost s0 = *self;
        let edit = transform.edit;
        let old_end = match edit.start.checked_add(edit.old_lines) {
            Some(x) => x,
            None => {
                return Err(Error::InvalidInput("marker line edit overflow".to_owned()));
            },
        };
        let new_end = match edit.start.checked_add(edit.new_lines) {
            Some(x) => x,
            None => {
                return Err(Error::InvalidInput("marker line edit overflow".to_owned()));
            },
        };
        if self.shifts_out(MarkerKind::Bookmark, edit, old_end, new_end) || self.shifts_out(
            MarkerKind::SearchRule,
            edit,
            old_end,
            new_end,
        ) || self.shifts_out(MarkerKind::ChangeSaved, edit, old_end, new_end) || self.shifts_out(
            MarkerKind::ChangeUnsaved,
            edit,
            old_end,
            new_end,
        ) || self.shifts_out(MarkerKind::ChangeDeleted, edit, old_end, new_end) {
            return Err(Error::InvalidInput("marker line shift overflow".to_owned()));
        }
        assert(edit_refused(s0, edit) is None) by {
            assert forall|kind: MarkerKind| !shifted_out(#[trigger] s0.at(kind), edit) by {
                match kind {
                    MarkerKind::Bookmark => {},
                    MarkerKind::SearchRule => {},
                    MarkerKind::ChangeSaved => {},
                    MarkerKind::ChangeUnsaved => {},
                    MarkerKind::ChangeDeleted => {},
                }
            }
        }
        let cut = if edit.old_lines > 0 && edit.new_lines > 0 {
            edit.start + 1
        } else {
            edit.start
        };
        let removed = self.all_in_range(cut, old_end, usize::MAX);
        self.shift(MarkerKind::Bookmark, edit);
        self.shift(MarkerKind::SearchRule, edit);
        self.shift(MarkerKind::ChangeSaved, edit);
        self.shift(MarkerKind::ChangeUnsaved, edit);
        self.shift(MarkerKind::ChangeDeleted, edit);
        proof {
            assert forall|kind: MarkerKind| #[trigger] self.marked(kind) == moved(
                s0.marked(kind),
                edit,
                lines_among(transform.restore@.take(0), kind),
            ) by {
                assert(lines_among(transform.restore@.take(0), kind) =~= Set::empty());
                match kind {
                    MarkerKind::Bookmark => {},
                    MarkerKind::SearchRule => {},
                    MarkerKind::ChangeSaved => {},
                    MarkerKind::ChangeUnsaved => {},
                    MarkerKind::ChangeDeleted => {},
                }
            }
        }
        self.restore_all(&transform.restore, edit, Ghost(s0));
        Ok(MarkerTransform { edit: edit.inverse(), restore: removed })
    }

    fn shifts_out(&self, kind: MarkerKind, edit: LineEdit, old_end: u64, new_end: u64) -> (b: bool)
        requires
            self.wf(),
            old_end == edit.old_end(),
            new_end == edit.new_end(),
        ensures
            b == shifted_out(self.at(kind), edit),
    {
        match self.last(kind) {
            Some(x) => x >= old_end && new_end >= old_end && x.checked_add(
                new_end - old_end,
            ).is_none(),
            None => false,
        }
    }

    fn shift(&mut self, kind: MarkerKind, edit: LineEdit)
        requires
            old(self).wf(),
            edit.old_end() <= u64::MAX,
            edit.new_end() <= u64::MAX,
            !shifted_out(old(self).at(kind), edit),
        ensures
            final(self).wf(),
            final(self).marked(kind) == moved(old(self).marked(kind), edit, Set::empty()),
            forall|k: MarkerKind| k != kind ==> #[trigger] final(self).at(k) == old(self).at(k),
    {
        proof {
            self.lemma_wf(kind);
        }
        let w = shifted(&self.lines[kind.index()], edit);
        self.put(kind, w);
    }

    /// Marks all lines of a list, whatever the limit says.
    fn restore_all(&mut self, restore: &Vec<LineMarker>, edit: LineEdit, Ghost(s0): Ghost<MarkerSet>)
        requires
            old(self).wf(),
            forall|kind: MarkerKind| #[trigger]
                old(self).marked(kind) == moved(
                    s0.marked(kind),
                    edit,
                    lines_among(restore@.take(0), kind),
                ),
        ensures
            final(self).wf(),
            forall|kind: MarkerKind| #[trigger]
                final(self).marked(kind) == moved(
                    s0.marked(kind),
                    edit,
                    lines_among(restore@, kind),
                ),
    {
        let mut i: usize = 0;
        while i < restore.len()
            invariant
                i <= restore@.len(),
                self.wf(),
                forall|kind: MarkerKind| #[trigger]
                    self.marked(kind) == moved(
                        s0.marked(kind),
                        edit,
                        lines_among(restore@.take(i as int), kind),
                    ),
            decreases restore.len() - i,
        {
            let x = restore[i];
            let ghost before = *self;
            self.add(x.kind, x.line);
            proof {
                assert forall|kind: MarkerKind| #[trigger] self.marked(kind) == moved(
                    s0.marked(kind),
                    edit,
                    lines_among(restore@.take(i + 1), kind),
                ) by {
                    let a = restore@.take(i as int);
                    let b = restore@.take(i + 1);
                    assert(b =~= a.push(x));
                    assert(before.marked(kind) == moved(
                        s0.marked(kind),
                        edit,
                        lines_among(a, kind),
                    ));
                    assert forall|y: u64| lines_among(b, kind).contains(y) <==> (lines_among(
                        a,
                        kind,
                    ).contains(y) || x == (LineMarker { kind, line: y })) by {
                        let lm = LineMarker { kind, line: y };
                        if a.contains(lm) {
                            let j = choose|j: int| 0 <= j < a.len() && a[j] == lm;
                            assert(b[j] == lm);
                        }
                        if b.contains(lm) {
                            let j = choose|j: int| 0 <= j < b.len() && b[j] == lm;
                            if j < a.len() {
                                assert(a[j] == lm);
                            }
                        }
                        assert(b[i as int] == x);
                    }
                    assert(self.marked(kind) =~= moved(
                        s0.marked(kind),
                        edit,
                        lines_among(b, kind),
                    ));
                }
            }
            i += 1;
        }
        assert(restore@.take(restore@.len() as int) =~= restore@);
    }
}

/// Applying a change and then the change that takes it back brings back the
/// marked lines, if what the first restored lies among the lines that it made.
pub proof fn changes_are_taken_back(
    s: Set<u64>,
    edit: LineEdit,
    restore: Set<u64>,
    removed: Set<u64>,
)
    requires
        edit.old_end() <= u64::MAX,
        edit.new_end() <= u64::MAX,
        forall|x: u64| s.contains(x) && x >= edit.old_end() ==> x + edit.new_end() - edit.old_end()
            <= u64::MAX,
        forall|x: u64| restore.contains(x) ==> edit.reversed().cut() <= x < edit.new_end(),
        forall|x: u64|
            removed.contains(x) <==> s.contains(x) && edit.cut() <= x < edit.old_end(),
    ensures
        moved(moved(s, edit, restore), edit.reversed(), removed) == s,
{
    let m = moved(s, edit, restore);
    let back = edit.reversed();
    assert forall|x: u64| moved(m, back, removed).contains(x) <==> s.contains(x) by {
        let there = x - back.new_end() + back.old_end();
        if marked_after(m, back, removed, x) {
            if m.contains(x) && x < back.cut() {
                assert(marked_after(s, edit, restore, x));
            } else if x >= back.new_end() && there <= u64::MAX && m.contains(there as u64) {
                assert(marked_after(s, edit, restore, there as u64));
                assert(there - edit.new_end() + edit.old_end() == x);
            }
        }
        if s.contains(x) {
            if x < edit.cut() {
                assert(marked_after(s, edit, restore, x));
                assert(m.contains(x));
            } else if x < edit.old_end() {
                assert(removed.contains(x));
            } else {
                assert(there - edit.new_end() + edit.old_end() == x);
                assert(marked_after(s, edit, restore, there as u64));
                assert(m.contains(there as u64));
            }
        }
    }
    assert(moved(m, back, removed) =~= s);
}

proof fn lemma_rising_is(a: Seq<u64>, b: Seq<u64>)
    requires
        rising(a),
        rising(b),
        a.to_set() == b.to_set(),
    ensures
        a == b,
    decreases a.len(),
{
    if a.len() == 0 {
        if b.len() > 0 {
            assert(b.to_set().contains(b[0]));
            assert(a.contains(b[0]));
        }
    } else if b.len() == 0 {
        assert(a.to_set().contains(a[0]));
        assert(b.contains(a[0]));
    } else {
        let (x, y) = (a.last(), b.last());
        assert(a.to_set().contains(x));
        assert(b.contains(x));
        assert(b.to_set().contains(y));
        assert(a.contains(y));
        assert(x == y);
        let (c, d) = (a.drop_last(), b.drop_last());
        assert forall|z: u64| c.to_set().contains(z) <==> d.to_set().contains(z) by {
            if c.contains(z) {
                let i = choose|i: int| 0 <= i < c.len() && c[i] == z;
                assert(a[i] == z && a[i] < a[a.len() - 1]);
                assert(a.to_set().contains(z));
                assert(b.contains(z));
                let j = choose|j: int| 0 <= j < b.len() && b[j] == z;
                assert(d[j] == z);
            }
            if d.contains(z) {
                let i = choose|i: int| 0 <= i < d.len() && d[i] == z;
                assert(b[i] == z && b[i] < b[b.len() - 1]);
                assert(b.to_set().contains(z));
                assert(a.contains(z));
                let j = choose|j: int| 0 <= j < a.len() && a[j] == z;
                assert(c[j] == z);
            }
        }
        assert(c.to_set() =~= d.to_set());
        lemma_rising_is(c, d);
        assert(a =~= c.push(x));
        assert(b =~= d.push(y));
    }
}

proof fn lemma_within_holds(s: Seq<u64>, lo: int, hi: int)
    ensures
        within(s, lo, hi).len() <= s.len(),
        forall|x: u64| #[trigger]
            within(s, lo, hi).contains(x) <==> s.contains(x) && lo <= x < hi,
    decreases s.len(),
{
    if s.len() > 0 {
        let t = s.drop_last();
        let w = within(s, lo, hi);
        lemma_within_holds(t, lo, hi);
        assert forall|x: u64| #[trigger] w.contains(x) <==> s.contains(x) && lo <= x < hi by {
            let u = within(t, lo, hi);
            if w.contains(x) {
                let i = choose|i: int| 0 <= i < w.len() && w[i] == x;
                if i < u.len() {
                    assert(u[i] == x);
                    assert(u.contains(x));
                    let j = choose|j: int| 0 <= j < t.len() && t[j] == x;
                    assert(s[j] == x);
                } else {
                    assert(s[s.len() - 1] == x);
                }
            }
            if s.contains(x) && lo <= x < hi {
                let i = choose|i: int| 0 <= i < s.len() && s[i] == x;
                if i < t.len() {
                    assert(t[i] == x);
                    assert(u.contains(x));
                    let j = choose|j: int| 0 <= j < u.len() && u[j] == x;
                    assert(w[j] == x);
                } else {
                    assert(w[w.len() - 1] == x);
                }
            }
        }
    }
}

proof fn lemma_tagged(a: Seq<u64>, of: MarkerKind, kind: MarkerKind, x: u64)
    ensures
        tagged(of, a).contains(LineMarker { kind, line: x }) <==> of == kind && a.contains(x),
{
    let t = tagged(of, a);
    let m = LineMarker { kind, line: x };
    if t.contains(m) {
        let i = choose|i: int| 0 <= i < t.len() && t[i] == m;
        assert(t[i] == (LineMarker { kind: of, line: a[i] }));
    }
    if of == kind && a.contains(x) {
        let i = choose|i: int| 0 <= i < a.len() && a[i] == x;
        assert(t[i] == m);
    }
}

impl MarkerSet {
    /// The markers between two lines are the marked lines between them.
    proof fn lemma_markers_within(self, lo: int, hi: int, kind: MarkerKind)
        requires
            self.wf(),
        ensures
            forall|x: u64| #[trigger]
                lines_among(self.markers_within(lo, hi, usize::MAX as nat), kind).contains(x)
                    <==> self.marked(kind).contains(x) && lo <= x < hi,
    {
        let n = usize::MAX as nat;
        let b = first_of(within(self.at(MarkerKind::Bookmark), lo, hi), n);
        let r = first_of(within(self.at(MarkerKind::SearchRule), lo, hi), n);
        let s = first_of(within(self.at(MarkerKind::ChangeSaved), lo, hi), n);
        let u = first_of(within(self.at(MarkerKind::ChangeUnsaved), lo, hi), n);
        let d = first_of(within(self.at(MarkerKind::ChangeDeleted), lo, hi), n);
        assert forall|k: MarkerKind| #[trigger]
            first_of(within(self.at(k), lo, hi), n) == within(self.at(k), lo, hi) by {
            lemma_within_holds(self.at(k), lo, hi);
            assert(self.lines@[k.place()].len() <= usize::MAX);
            assert(within(self.at(k), lo, hi).take(within(self.at(k), lo, hi).len() as int)
                =~= within(self.at(k), lo, hi));
        }
        lemma_within_holds(self.at(kind), lo, hi);
        let all = self.markers_within(lo, hi, n);
        let (tb, tr) = (tagged(MarkerKind::Bookmark, b), tagged(MarkerKind::SearchRule, r));
        let ts = tagged(MarkerKind::ChangeSaved, s);
        let tu = tagged(MarkerKind::ChangeUnsaved, u);
        let td = tagged(MarkerKind::ChangeDeleted, d);
        assert(all == tb + tr + ts + tu + td);
        assert forall|x: u64| #[trigger] lines_among(all, kind).contains(x) <==> self.marked(
            kind,
        ).contains(x) && lo <= x < hi by {
            let m = LineMarker { kind, line: x };
            lemma_concat_contains(tb, tr, m);
            lemma_concat_contains(tb + tr, ts, m);
            lemma_concat_contains(tb + tr + ts, tu, m);
            lemma_concat_contains(tb + tr + ts + tu, td, m);
            lemma_tagged(b, MarkerKind::Bookmark, kind, x);
            lemma_tagged(r, MarkerKind::SearchRule, kind, x);
            lemma_tagged(s, MarkerKind::ChangeSaved, kind, x);
            lemma_tagged(u, MarkerKind::ChangeUnsaved, kind, x);
            lemma_tagged(d, MarkerKind::ChangeDeleted, kind, x);
            assert(within(self.at(kind), lo, hi).contains(x) <==> self.at(kind).contains(x) && lo
                <= x < hi);
        }
    }

    /// One change after another: the opposite change goes through and restores
    /// the marked lines.
    proof fn lemma_taken_back(
        self,
        t: MarkerTransform,
        after: MarkerSet,
        back: MarkerTransform,
    )
        requires
            self.wf(),
            after.wf(),
            self.applies(t, after, back),
            t.restores_what_it_makes(),
        ensures
            edit_refused(after, back.edit) is None,
            back.restores_what_it_makes(),
            forall|kind: MarkerKind| #[trigger]
                moved(after.marked(kind), back.edit, lines_among(back.restore@, kind))
                    == self.marked(kind),
    {
        let edit = t.edit;
        assert forall|kind: MarkerKind, x: u64|
            self.marked(kind).contains(x) && x >= edit.old_end() implies #[trigger] self.marked(
            kind,
        ).contains(x) && x + edit.new_end() - edit.old_end() <= u64::MAX by {
            let s = self.at(kind);
            assert(!shifted_out(s, edit));
            let i = choose|i: int| 0 <= i < s.len() && s[i] == x;
            assert(rising(s));
            if i < s.len() - 1 {
                assert(s[i] < s[s.len() - 1]);
            }
        }
        assert forall|kind: MarkerKind| !shifted_out(#[trigger] after.at(kind), back.edit) by {
            let a = after.at(kind);
            if a.len() > 0 && a.last() >= back.edit.old_end() {
                let x = a.last();
                assert(after.marked(kind).contains(x));
                assert(marked_after(self.marked(kind), edit, lines_among(t.restore@, kind), x));
                if lines_among(t.restore@, kind).contains(x) {
                    assert(x < edit.new_end());
                }
            }
        }
        assert forall|kind: MarkerKind, x: u64| #[trigger]
            lines_among(back.restore@, kind).contains(x) implies back.edit.reversed().cut() <= x
            < back.edit.new_end() by {
            self.lemma_markers_within(edit.cut(), edit.old_end(), kind);
        }
        assert forall|kind: MarkerKind| #[trigger]
            moved(after.marked(kind), back.edit, lines_among(back.restore@, kind)) == self.marked(
                kind,
            ) by {
            self.lemma_markers_within(edit.cut(), edit.old_end(), kind);
            assert forall|x: u64| lines_among(t.restore@, kind).contains(x) implies
                edit.reversed().cut() <= x < edit.new_end() by {}
            assert forall|x: u64| self.marked(kind).contains(x) && x >= edit.old_end() implies x
                + edit.new_end() - edit.old_end() <= u64::MAX by {
                assert(self.marked(kind).contains(x));
            }
            changes_are_taken_back(
                self.marked(kind),
                edit,
                lines_among(t.restore@, kind),
                lines_among(back.restore@, kind),
            );
            assert(after.marked(kind) == moved(
                self.marked(kind),
                edit,
                lines_among(t.restore@, kind),
            ));
        }
    }
}

impl MarkerTransform {
    /// What a change restores lies among the lines that it makes. A new change
    /// restores nothing; one that takes another back restores what that one
    /// removed.
    pub open spec fn restores_what_it_makes(self) -> bool {
        forall|kind: MarkerKind, x: u64| #[trigger]
            lines_among(self.restore@, kind).contains(x) ==> self.edit.reversed().cut() <= x
                < self.edit.new_end()
    }
}

proof fn lemma_concat_contains<T>(a: Seq<T>, b: Seq<T>, x: T)
    ensures
        (a + b).contains(x) <==> a.contains(x) || b.contains(x),
{
    let c = a + b;
    if a.contains(x) {
        let i = choose|i: int| 0 <= i < a.len() && a[i] == x;
        assert(c[i] == x);
    }
    if b.contains(x) {
        let i = choose|i: int| 0 <= i < b.len() && b[i] == x;
        assert(c[a.len() + i] == x);
    }
    if c.contains(x) {
        let i = choose|i: int| 0 <= i < c.len() && c[i] == x;
        if i < a.len() {
            assert(a[i] == x);
        } else {
            assert(b[i - a.len()] == x);
        }
    }
}

/// The change that `apply` gives back is never refused. It brings back the
/// markers as they were, and gives back a change that is not refused either and
/// does again what the first did.
pub proof fn applied_changes_are_taken_back(
    s: MarkerSet,
    t: MarkerTransform,
    a: MarkerSet,
    back: MarkerTransform,
    b: MarkerSet,
    again: MarkerTransform,
    c: MarkerSet,
    last: MarkerTransform,
)
    requires
        s.wf(),
        a.wf(),
        b.wf(),
        c.wf(),
        s.applies(t, a, back),
        t.restores_what_it_makes(),
    ensures
        edit_refused(a, back.edit) is None,
        a.applies(back, b, again) ==> {
            &&& forall|kind: MarkerKind| #[trigger] b.at(kind) == s.at(kind)
            &&& edit_refused(b, again.edit) is None
        },
        a.applies(back, b, again) && b.applies(again, c, last) ==> forall|kind: MarkerKind|
            #[trigger] c.at(kind) == a.at(kind),
{
    s.lemma_taken_back(t, a, back);
    if a.applies(back, b, again) {
        assert forall|kind: MarkerKind| #[trigger] b.at(kind) == s.at(kind) by {
            assert(b.marked(kind) == moved(
                a.marked(kind),
                back.edit,
                lines_among(back.restore@, kind),
            ));
            lemma_rising_is(b.at(kind), s.at(kind));
        }
        a.lemma_taken_back(back, b, again);
        if b.applies(again, c, last) {
            assert forall|kind: MarkerKind| #[trigger] c.at(kind) == a.at(kind) by {
                assert(c.marked(kind) == moved(
                    b.marked(kind),
                    again.edit,
                    lines_among(again.restore@, kind),
                ));
                lemma_rising_is(c.at(kind), a.at(kind));
            }
        }
    }
}

/// A set is empty exactly where the number of all its markers is zero, and no
/// kind has more markers than there are in all.
pub proof fn markers_add_up(s: MarkerSet)
    ensures
        forall|kind: MarkerKind| (#[trigger] s.at(kind)).len() <= s.total(),
        s.total() == 0 <==> (forall|kind: MarkerKind| (#[trigger] s.at(kind)).len() == 0),
{
    assert forall|kind: MarkerKind| (#[trigger] s.at(kind)).len() <= s.total() by {
        match kind {
            MarkerKind::Bookmark => {},
            MarkerKind::SearchRule => {},
            MarkerKind::ChangeSaved => {},
            MarkerKind::ChangeUnsaved => {},
            MarkerKind::ChangeDeleted => {},
        }
    }
    if forall|kind: MarkerKind| (#[trigger] s.at(kind)).len() == 0 {
        assert(s.at(MarkerKind::Bookmark).len() == 0);
        assert(s.at(MarkerKind::SearchRule).len() == 0);
        assert(s.at(MarkerKind::ChangeSaved).len() == 0);
        assert(s.at(MarkerKind::ChangeUnsaved).len() == 0);
        assert(s.at(MarkerKind::ChangeDeleted).len() == 0);
    }
}

} // verus!
