//! The edit overlay: what differs from the lines of a document, kept per
//! original line, and the small steps by which it changes and changes back.

use std::collections::BTreeMap;
use vstd::prelude::*;
use vstd::std_specs::btree::*;
use vstd::std_specs::cmp::OrdSpec;
use vstd::std_specs::iter::IteratorSpec;
use vstd::string::*;

use crate::text::texts;

verus! {

/// What differs at one original line. The anchor one past the last line holds
/// lines appended at the end.
#[derive(Clone, Debug)]
pub struct EditEvent {
    /// Lines inserted before the original line.
    pub inserts: Vec<String>,
    /// The text that replaces the original line.
    pub replacement: Option<String>,
    /// Whether the original line is gone.
    pub deleted: bool,
}

/// An [`EditEvent`] as a mathematical value.
#[verifier::ext_equal]
pub struct EventView {
    pub inserts: Seq<Seq<char>>,
    pub replacement: Option<Seq<char>>,
    pub deleted: bool,
}

/// The view of an optional string.
pub open spec fn opt_text(s: Option<String>) -> Option<Seq<char>> {
    match s {
        Some(t) => Some(t@),
        None => None,
    }
}

impl View for EditEvent {
    type V = EventView;

    open spec fn view(&self) -> EventView {
        EventView {
            inserts: texts(self.inserts@),
            replacement: opt_text(self.replacement),
            deleted: self.deleted,
        }
    }
}

/// No difference.
pub open spec fn no_event() -> EventView {
    EventView { inserts: Seq::empty(), replacement: None, deleted: false }
}

/// The difference at an anchor.
pub open spec fn event_at(m: Map<u64, EventView>, a: u64) -> EventView {
    if m.contains_key(a) {
        m[a]
    } else {
        no_event()
    }
}

/// The overlay with another difference at an anchor; no difference is not
/// stored.
pub open spec fn put(m: Map<u64, EventView>, a: u64, e: EventView) -> Map<u64, EventView> {
    if e == no_event() {
        m.remove(a)
    } else {
        m.insert(a, e)
    }
}

/// Only differences are stored.
pub open spec fn clean(m: Map<u64, EventView>) -> bool {
    forall|a: u64| #[trigger] m.contains_key(a) ==> m[a] != no_event()
}

// ---- steps -------------------------------------------------------------------

/// One step that changes an overlay.
#[derive(Clone, Debug)]
pub enum UndoOp {
    /// Sets replacement and deletion at an anchor, keeping what is inserted.
    SetLineState { anchor: u64, replacement: Option<String>, deleted: bool },
    /// Overwrites an inserted line.
    SetInsert { anchor: u64, index: usize, text: String },
    /// Removes an inserted line.
    RemoveInsert { anchor: u64, index: usize },
    /// Inserts a line.
    InsertInsert { anchor: u64, index: usize, text: String },
}

/// An [`UndoOp`] as a mathematical value.
#[verifier::ext_equal]
pub enum OpView {
    SetLineState { anchor: u64, replacement: Option<Seq<char>>, deleted: bool },
    SetInsert { anchor: u64, index: nat, text: Seq<char> },
    RemoveInsert { anchor: u64, index: nat },
    InsertInsert { anchor: u64, index: nat, text: Seq<char> },
}

impl View for UndoOp {
    type V = OpView;

    open spec fn view(&self) -> OpView {
        match self {
            UndoOp::SetLineState { anchor, replacement, deleted } => OpView::SetLineState {
                anchor: *anchor,
                replacement: opt_text(*replacement),
                deleted: *deleted,
            },
            UndoOp::SetInsert { anchor, index, text } => OpView::SetInsert {
                anchor: *anchor,
                index: *index as nat,
                text: text@,
            },
            UndoOp::RemoveInsert { anchor, index } => OpView::RemoveInsert {
                anchor: *anchor,
                index: *index as nat,
            },
            UndoOp::InsertInsert { anchor, index, text } => OpView::InsertInsert {
                anchor: *anchor,
                index: *index as nat,
                text: text@,
            },
        }
    }
}

/// The views of a list of steps.
pub open spec fn ops_view(v: Seq<UndoOp>) -> Seq<OpView> {
    v.map_values(|o: UndoOp| o@)
}

/// The overlay after a step. A step at a place that is not there does nothing;
/// an insertion past the end goes to the end.
pub open spec fn applied(m: Map<u64, EventView>, op: OpView) -> Map<u64, EventView> {
    match op {
        OpView::SetLineState { anchor, replacement, deleted } => put(
            m,
            anchor,
            EventView { inserts: event_at(m, anchor).inserts, replacement, deleted },
        ),
        OpView::SetInsert { anchor, index, text } => {
            let e = event_at(m, anchor);
            if index < e.inserts.len() {
                put(m, anchor, EventView { inserts: e.inserts.update(index as int, text), ..e })
            } else {
                m
            }
        },
        OpView::RemoveInsert { anchor, index } => {
            let e = event_at(m, anchor);
            if index < e.inserts.len() {
                put(m, anchor, EventView { inserts: e.inserts.remove(index as int), ..e })
            } else {
                m
            }
        },
        OpView::InsertInsert { anchor, index, text } => {
            let e = event_at(m, anchor);
            let i = if index <= e.inserts.len() {
                index as int
            } else {
                e.inserts.len() as int
            };
            put(m, anchor, EventView { inserts: e.inserts.insert(i, text), ..e })
        },
    }
}

/// The step that takes a step back.
pub open spec fn inverse(m: Map<u64, EventView>, op: OpView) -> OpView {
    match op {
        OpView::SetLineState { anchor, .. } => OpView::SetLineState {
            anchor,
            replacement: event_at(m, anchor).replacement,
            deleted: event_at(m, anchor).deleted,
        },
        OpView::SetInsert { anchor, index, text } => {
            let e = event_at(m, anchor);
            if index < e.inserts.len() {
                OpView::SetInsert { anchor, index, text: e.inserts[index as int] }
            } else {
                op
            }
        },
        OpView::RemoveInsert { anchor, index } => {
            let e = event_at(m, anchor);
            if index < e.inserts.len() {
                OpView::InsertInsert { anchor, index, text: e.inserts[index as int] }
            } else {
                op
            }
        },
        OpView::InsertInsert { anchor, index, .. } => {
            let e = event_at(m, anchor);
            OpView::RemoveInsert {
                anchor,
                index: if index <= e.inserts.len() {
                    index
                } else {
                    e.inserts.len()
                },
            }
        },
    }
}

/// The overlay after the steps of a record were applied, the last one first.
pub open spec fn unwound(m: Map<u64, EventView>, ops: Seq<OpView>) -> Map<u64, EventView>
    decreases ops.len(),
{
    if ops.len() == 0 {
        m
    } else {
        unwound(applied(m, ops.last()), ops.drop_last())
    }
}

/// The record that leads back from where a record leads.
pub open spec fn reverse_record(m: Map<u64, EventView>, ops: Seq<OpView>) -> Seq<OpView>
    decreases ops.len(),
{
    if ops.len() == 0 {
        Seq::empty()
    } else {
        seq![inverse(m, ops.last())] + reverse_record(applied(m, ops.last()), ops.drop_last())
    }
}

/// A step, and then the step that takes it back, changes nothing.
pub proof fn step_back(m: Map<u64, EventView>, op: OpView)
    requires
        clean(m),
    ensures
        clean(applied(m, op)),
        applied(applied(m, op), inverse(m, op)) == m,
{
    let a = match op {
        OpView::SetLineState { anchor, .. } => anchor,
        OpView::SetInsert { anchor, .. } => anchor,
        OpView::RemoveInsert { anchor, .. } => anchor,
        OpView::InsertInsert { anchor, .. } => anchor,
    };
    let e = event_at(m, a);
    let m1 = applied(m, op);
    let m2 = applied(m1, inverse(m, op));
    assert(put(m1, a, e) =~= m) by {
        if m.contains_key(a) {
            assert(e != no_event());
        }
    }
    match op {
        OpView::SetLineState { anchor, replacement, deleted } => {
            let e1 = EventView { inserts: e.inserts, replacement, deleted };
            assert(event_at(m1, a) == e1);
            assert(m2 == put(m1, a, e));
        },
        OpView::SetInsert { anchor, index, text } => {
            if index < e.inserts.len() {
                let e1 = EventView { inserts: e.inserts.update(index as int, text), ..e };
                assert(e1.inserts.len() > 0);
                assert(event_at(m1, a) == e1);
                assert(e1.inserts.update(index as int, e.inserts[index as int]) =~= e.inserts);
                assert(m2 == put(m1, a, e));
            }
        },
        OpView::RemoveInsert { anchor, index } => {
            if index < e.inserts.len() {
                let e1 = EventView { inserts: e.inserts.remove(index as int), ..e };
                assert(event_at(m1, a) == e1);
                assert(e1.inserts.insert(index as int, e.inserts[index as int]) =~= e.inserts);
                assert(m2 == put(m1, a, e));
            }
        },
        OpView::InsertInsert { anchor, index, text } => {
            let i = if index <= e.inserts.len() {
                index as int
            } else {
                e.inserts.len() as int
            };
            let e1 = EventView { inserts: e.inserts.insert(i, text), ..e };
            assert(e1.inserts.len() > 0);
            assert(event_at(m1, a) == e1);
            assert(e1.inserts.remove(i) =~= e.inserts);
            assert(m2 == put(m1, a, e));
        },
    }
}

pub proof fn lemma_unwound_concat(m: Map<u64, EventView>, a: Seq<OpView>, b: Seq<OpView>)
    ensures
        unwound(m, a + b) == unwound(unwound(m, b), a),
    decreases b.len(),
{
    if b.len() == 0 {
        assert(a + b =~= a);
    } else {
        assert((a + b).last() == b.last());
        assert((a + b).drop_last() =~= a + b.drop_last());
        lemma_unwound_concat(applied(m, b.last()), a, b.drop_last());
    }
}

/// A record, and then the record that leads back, changes nothing.
pub proof fn record_back(m: Map<u64, EventView>, ops: Seq<OpView>)
    requires
        clean(m),
    ensures
        unwound(unwound(m, ops), reverse_record(m, ops)) == m,
    decreases ops.len(),
{
    if ops.len() > 0 {
        let m1 = applied(m, ops.last());
        let rest = ops.drop_last();
        let inv = inverse(m, ops.last());
        step_back(m, ops.last());
        record_back(m1, rest);
        lemma_unwound_concat(unwound(m1, rest), seq![inv], reverse_record(m1, rest));
        let one = seq![inv];
        assert(one.drop_last() =~= Seq::empty());
        assert(unwound(m1, one) == applied(m1, inv)) by {
            reveal_with_fuel(unwound, 2);
        }
    }
}

// ---- the lines that an overlay shows -----------------------------------------

/// What stands at an anchor: the inserted lines, and the original line as far
/// as it is still there.
pub open spec fn block(m: Map<u64, EventView>, l: Seq<Seq<char>>, a: int) -> Seq<Seq<char>> {
    let e = event_at(m, a as u64);
    e.inserts + if a < l.len() && !e.deleted {
        seq![
            match e.replacement {
                Some(t) => t,
                None => l[a],
            },
        ]
    } else {
        Seq::empty()
    }
}

/// What stands before anchor `a`.
pub open spec fn upto(m: Map<u64, EventView>, l: Seq<Seq<char>>, a: int) -> Seq<Seq<char>>
    decreases a,
{
    if a <= 0 {
        Seq::empty()
    } else {
        upto(m, l, a - 1) + block(m, l, a - 1)
    }
}

/// What stands at anchor `a` and after it.
pub open spec fn onward(m: Map<u64, EventView>, l: Seq<Seq<char>>, a: int) -> Seq<Seq<char>>
    decreases l.len() + 1 - a,
{
    if a > l.len() {
        Seq::empty()
    } else {
        block(m, l, a) + onward(m, l, a + 1)
    }
}

/// The lines that the overlay shows over the lines of a document.
pub open spec fn shown(m: Map<u64, EventView>, l: Seq<Seq<char>>) -> Seq<Seq<char>> {
    upto(m, l, l.len() as int + 1)
}

/// The overlay is one over these lines: it names no line that is not there,
/// and stores nothing that is not a difference.
pub open spec fn fits(m: Map<u64, EventView>, l: Seq<Seq<char>>) -> bool {
    &&& clean(m)
    &&& l.len() < u64::MAX
    &&& shown(m, l).len() <= u64::MAX
    &&& forall|a: u64| #[trigger]
        m.contains_key(a) ==> {
            &&& a <= l.len()
            &&& a == l.len() ==> m[a].replacement is None && !m[a].deleted
            &&& a < l.len() ==> m[a].replacement != Some(l[a as int])
            &&& m[a].deleted ==> m[a].replacement is None
        }
}

pub proof fn lemma_split(m: Map<u64, EventView>, l: Seq<Seq<char>>, a: int)
    requires
        0 <= a <= l.len() + 1,
    ensures
        shown(m, l) == upto(m, l, a) + onward(m, l, a),
        a <= l.len() ==> shown(m, l) == upto(m, l, a) + block(m, l, a) + onward(m, l, a + 1),
    decreases l.len() + 1 - a,
{
    if a > l.len() {
        assert(upto(m, l, a) + onward(m, l, a) =~= shown(m, l));
    } else {
        lemma_split(m, l, a + 1);
        assert(upto(m, l, a + 1) == upto(m, l, a) + block(m, l, a));
        assert(upto(m, l, a) + onward(m, l, a) =~= upto(m, l, a + 1) + onward(m, l, a + 1));
    }
}

/// A change at one anchor leaves what stands before it and after it.
pub proof fn lemma_local_before(
    m: Map<u64, EventView>,
    n: Map<u64, EventView>,
    l: Seq<Seq<char>>,
    a: u64,
    b: int,
)
    requires
        l.len() < u64::MAX,
        forall|k: u64| k != a ==> #[trigger] event_at(m, k) == event_at(n, k),
        b <= a,
    ensures
        upto(m, l, b) == upto(n, l, b),
    decreases b,
{
    if b > 0 {
        lemma_local_before(m, n, l, a, b - 1);
        assert((b - 1) as u64 != a);
        assert(event_at(m, (b - 1) as u64) == event_at(n, (b - 1) as u64));
    }
}

pub proof fn lemma_local_after(
    m: Map<u64, EventView>,
    n: Map<u64, EventView>,
    l: Seq<Seq<char>>,
    a: u64,
    b: int,
)
    requires
        l.len() < u64::MAX,
        forall|k: u64| k != a ==> #[trigger] event_at(m, k) == event_at(n, k),
        a < b,
    ensures
        onward(m, l, b) == onward(n, l, b),
    decreases l.len() + 1 - b,
{
    if b <= l.len() {
        lemma_local_after(m, n, l, a, b + 1);
        assert((b as u64) != a);
        assert(event_at(m, b as u64) == event_at(n, b as u64));
    }
}

/// The lines that an overlay shows after the difference at one anchor changed.
pub proof fn lemma_put_shown(m: Map<u64, EventView>, l: Seq<Seq<char>>, a: u64, e: EventView)
    requires
        l.len() < u64::MAX,
        a <= l.len(),
    ensures
        event_at(put(m, a, e), a) == e,
        upto(put(m, a, e), l, a as int) == upto(m, l, a as int),
        shown(put(m, a, e), l) == upto(m, l, a as int) + block(put(m, a, e), l, a as int)
            + onward(m, l, a + 1),
        shown(m, l) == upto(m, l, a as int) + block(m, l, a as int) + onward(m, l, a + 1),
{
    let n = put(m, a, e);
    assert forall|k: u64| k != a implies #[trigger] event_at(m, k) == event_at(n, k) by {}
    lemma_local_before(m, n, l, a, a as int);
    lemma_local_after(m, n, l, a, a + 1);
    lemma_split(m, l, a as int);
    lemma_split(n, l, a as int);
}

/// Where nothing differs, the original lines stand.
pub proof fn lemma_gap(m: Map<u64, EventView>, l: Seq<Seq<char>>, a: int, b: int)
    requires
        0 <= a <= b <= l.len(),
        l.len() < u64::MAX,
        forall|k: u64| a <= k < b ==> !#[trigger] m.contains_key(k),
    ensures
        upto(m, l, b) == upto(m, l, a) + l.subrange(a, b),
    decreases b - a,
{
    if a == b {
        assert(upto(m, l, a) + l.subrange(a, b) =~= upto(m, l, a));
    } else {
        lemma_gap(m, l, a, b - 1);
        assert(!m.contains_key((b - 1) as u64));
        assert(block(m, l, b - 1) =~= seq![l[b - 1]]);
        assert(upto(m, l, a) + l.subrange(a, b) =~= upto(m, l, a) + l.subrange(a, b - 1) + seq![
            l[b - 1],
        ]);
    }
}

/// Without an overlay, the lines are those of the document.
pub proof fn lemma_nothing_shown(l: Seq<Seq<char>>)
    requires
        l.len() < u64::MAX,
    ensures
        shown(Map::<u64, EventView>::empty(), l) == l,
        fits(Map::<u64, EventView>::empty(), l),
{
    let m = Map::<u64, EventView>::empty();
    lemma_gap(m, l, 0, l.len() as int);
    assert(block(m, l, l.len() as int) =~= Seq::empty());
    assert(upto(m, l, 0) + l.subrange(0, l.len() as int) =~= l);
    assert(shown(m, l) =~= l);
}

// ---- the overlay -------------------------------------------------------------

/// Where a line that is shown comes from.
#[derive(Clone, Copy, Debug)]
pub enum LineRef {
    Original(u64),
    Replaced(u64),
    Inserted { anchor: u64, index: usize },
}

/// The line at `logical` comes from there.
pub open spec fn refers(m: Map<u64, EventView>, l: Seq<Seq<char>>, logical: int, r: LineRef) -> bool {
    match r {
        LineRef::Original(o) => {
            &&& o < l.len()
            &&& !event_at(m, o).deleted
            &&& event_at(m, o).replacement is None
            &&& logical == upto(m, l, o as int).len() + event_at(m, o).inserts.len()
        },
        LineRef::Replaced(o) => {
            &&& o < l.len()
            &&& !event_at(m, o).deleted
            &&& event_at(m, o).replacement is Some
            &&& logical == upto(m, l, o as int).len() + event_at(m, o).inserts.len()
        },
        LineRef::Inserted { anchor, index } => {
            &&& anchor <= l.len()
            &&& index < event_at(m, anchor).inserts.len()
            &&& logical == upto(m, l, anchor as int).len() + index
        },
    }
}

/// The text of the line that a reference refers to.
pub open spec fn referred(m: Map<u64, EventView>, l: Seq<Seq<char>>, r: LineRef) -> Seq<char> {
    match r {
        LineRef::Original(o) => l[o as int],
        LineRef::Replaced(o) => event_at(m, o).replacement->0,
        LineRef::Inserted { anchor, index } => event_at(m, anchor).inserts[index as int],
    }
}

pub proof fn lemma_refers(m: Map<u64, EventView>, l: Seq<Seq<char>>, logical: int, r: LineRef)
    requires
        l.len() < u64::MAX,
        refers(m, l, logical, r),
    ensures
        0 <= logical < shown(m, l).len(),
        shown(m, l)[logical] == referred(m, l, r),
{
    let a: u64 = match r {
        LineRef::Original(o) => o,
        LineRef::Replaced(o) => o,
        LineRef::Inserted { anchor, .. } => anchor,
    };
    lemma_split(m, l, a as int);
    assert(a as int as u64 == a);
}

/// The views of differences with their anchors.
pub open spec fn events_view(v: Seq<(u64, EditEvent)>) -> Seq<(u64, EventView)> {
    v.map_values(|x: (u64, EditEvent)| (x.0, x.1@))
}

/// The overlay that is made of differences, one after the other.
pub open spec fn collected(v: Seq<(u64, EventView)>) -> Map<u64, EventView>
    decreases v.len(),
{
    if v.len() == 0 {
        Map::empty()
    } else {
        put(collected(v.drop_last()), v.last().0, v.last().1)
    }
}

/// The edit overlay.
#[derive(Clone, Debug)]
pub struct Overlay {
    events: BTreeMap<u64, EditEvent>,
}

impl View for Overlay {
    type V = Map<u64, EventView>;

    closed spec fn view(&self) -> Map<u64, EventView> {
        self.events@.map_values(|e: EditEvent| e@)
    }
}

impl Overlay {
    /// An overlay without differences.
    pub fn new() -> (o: Overlay)
        ensures
            o@ == Map::<u64, EventView>::empty(),
    {
        let o = Overlay { events: BTreeMap::new() };
        assert(o@ =~= Map::<u64, EventView>::empty());
        o
    }

    /// The overlay with these differences; of two at one anchor the later one
    /// counts.
    pub fn of(events: Vec<(u64, EditEvent)>) -> (o: Overlay)
        ensures
            o@ == collected(events_view(events@)),
    {
        let ghost all = events_view(events@);
        let mut rest = events;
        let mut o = Overlay::new();
        let mut later: Vec<(u64, EditEvent)> = Vec::new();
        while rest.len() > 0
            invariant
                events_view(rest@) + events_view(later@).reverse() =~= all,
            decreases rest.len(),
        {
            let ghost before = rest@;
            let ghost done = later@;
            if let Some(x) = rest.pop() {
                later.push(x);
                proof {
                    assert(before =~= rest@.push(x));
                    assert(events_view(before) =~= events_view(rest@).push((x.0, x.1@)));
                    assert(events_view(later@) =~= events_view(done).push((x.0, x.1@)));
                }
            }
        }
        let ghost n = all.len();
        assert(all.take(0) =~= Seq::empty());
        while later.len() > 0
            invariant
                events_view(later@).reverse() =~= all.skip(n - later@.len()),
                later@.len() <= n,
                n == all.len(),
                o@ == collected(all.take(n - later@.len())),
            decreases later.len(),
        {
            let ghost before = later@;
            let ghost i = n - later@.len();
            if let Some(x) = later.pop() {
                proof {
                    assert(events_view(before).reverse()[0] == (x.0, x.1@));
                    assert(all[i] == (x.0, x.1@)) by {
                        assert(all.skip(i)[0] == all[i]);
                    }
                    assert(all.take(i + 1).drop_last() =~= all.take(i));
                    assert(events_view(later@).reverse() =~= events_view(before).reverse().skip(1));
                    assert(all.skip(i).skip(1) =~= all.skip(i + 1));
                }
                let (anchor, e) = x;
                let _gone = o.take_event(anchor);
                let ghost ev = e@;
                let ghost m = o@;
                o.put_event(anchor, e);
                assert(o@ =~= put(collected(all.take(i)), anchor, ev));
            }
        }
        assert(all.take(n as int) =~= all);
        o
    }

    /// A copy.
    pub fn copy(&self) -> (o: Overlay)
        ensures
            o@ == self@,
    {
        Overlay { events: self.events.clone() }
    }

    pub fn is_empty(&self) -> (b: bool)
        ensures
            b == (self@ == Map::<u64, EventView>::empty()),
    {
        let b = self.events.is_empty();
        proof {
            if b {
                assert(self@ =~= Map::<u64, EventView>::empty());
            } else {
                let k = choose|k: u64| self.events@.contains_key(k);
                assert(self@.contains_key(k));
            }
        }
        b
    }

    /// The difference at an anchor.
    pub fn get(&self, anchor: u64) -> (r: Option<&EditEvent>)
        ensures
            match r {
                Some(e) => self@.contains_key(anchor) && self@[anchor] == e@,
                None => !self@.contains_key(anchor),
            },
    {
        broadcast use group_btree_axioms;

        self.events.get(&anchor)
    }

    /// Takes the difference at an anchor out.
    fn take_event(&mut self, anchor: u64) -> (e: EditEvent)
        ensures
            e@ == event_at(old(self)@, anchor),
            final(self)@ == old(self)@.remove(anchor),
    {
        broadcast use group_btree_axioms;

        let r = self.events.remove(&anchor);
        assert(self@ =~= old(self)@.remove(anchor));
        match r {
            Some(e) => e,
            None => {
                let e = EditEvent { inserts: Vec::new(), replacement: None, deleted: false };
                assert(e@.inserts =~= Seq::empty());
                e
            },
        }
    }

    /// Stores the difference at an anchor, if it is one.
    pub(crate) fn put_event(&mut self, anchor: u64, e: EditEvent)
        requires
            !old(self)@.contains_key(anchor),
        ensures
            final(self)@ == put(old(self)@, anchor, e@),
    {
        broadcast use group_btree_axioms;

        let empty = e.inserts.len() == 0 && e.replacement.is_none() && !e.deleted;
        if empty {
            assert(e@.inserts =~= Seq::empty());
            assert(self@ =~= old(self)@.remove(anchor));
        } else {
            proof {
                if e.inserts@.len() > 0 {
                    assert(e@.inserts.len() > 0);
                }
            }
            self.events.insert(anchor, e);
            assert(self@ =~= old(self)@.insert(anchor, e@));
        }
    }

    /// Applies a step and gives the step that takes it back.
    pub fn apply_op(&mut self, op: UndoOp) -> (inv: UndoOp)
        requires
            clean(old(self)@),
        ensures
            final(self)@ == applied(old(self)@, op@),
            inv@ == inverse(old(self)@, op@),
    {
        let ghost m = self@;
        match op {
            UndoOp::SetLineState { anchor, replacement, deleted } => {
                let mut e = self.take_event(anchor);
                let ghost e0 = e@;
                let prior_replacement = e.replacement;
                let prior_deleted = e.deleted;
                e = EditEvent { inserts: e.inserts, replacement, deleted };
                assert(e@.inserts == e0.inserts);
                self.put_event(anchor, e);
                assert(self@ =~= put(m, anchor, e@));
                UndoOp::SetLineState {
                    anchor,
                    replacement: prior_replacement,
                    deleted: prior_deleted,
                }
            },
            UndoOp::SetInsert { anchor, index, text } => {
                let mut e = self.take_event(anchor);
                let ghost e0 = e@;
                if index < e.inserts.len() {
                    let ghost t = text@;
                    let mut old_text = text;
                    std::mem::swap(&mut old_text, &mut e.inserts[index]);
                    assert(e@.inserts =~= e0.inserts.update(index as int, t));
                    assert(old_text@ == e0.inserts[index as int]);
                    self.put_event(anchor, e);
                    assert(self@ =~= put(m, anchor, e@));
                    UndoOp::SetInsert { anchor, index, text: old_text }
                } else {
                    self.put_event(anchor, e);
                    assert(self@ =~= m);
                    UndoOp::SetInsert { anchor, index, text }
                }
            },
            UndoOp::RemoveInsert { anchor, index } => {
                let mut e = self.take_event(anchor);
                let ghost e0 = e@;
                if index < e.inserts.len() {
                    let text = e.inserts.remove(index);
                    assert(e@.inserts =~= e0.inserts.remove(index as int));
                    assert(text@ == e0.inserts[index as int]);
                    self.put_event(anchor, e);
                    assert(self@ =~= put(m, anchor, e@));
                    UndoOp::InsertInsert { anchor, index, text }
                } else {
                    self.put_event(anchor, e);
                    assert(self@ =~= m);
                    UndoOp::RemoveInsert { anchor, index }
                }
            },
            UndoOp::InsertInsert { anchor, index, text } => {
                let mut e = self.take_event(anchor);
                let ghost e0 = e@;
                let index = if index <= e.inserts.len() {
                    index
                } else {
                    e.inserts.len()
                };
                let ghost t = text@;
                e.inserts.insert(index, text);
                assert(e@.inserts =~= e0.inserts.insert(index as int, t));
                self.put_event(anchor, e);
                assert(self@ =~= put(m, anchor, e@));
                UndoOp::RemoveInsert { anchor, index }
            },
        }
    }

    /// Applies the steps of a record, the last one first, and gives the record
    /// that leads back.
    pub fn apply_record(&mut self, record: Vec<UndoOp>) -> (inv: Vec<UndoOp>)
        requires
            clean(old(self)@),
        ensures
            final(self)@ == unwound(old(self)@, ops_view(record@)),
            ops_view(inv@) == reverse_record(old(self)@, ops_view(record@)),
            clean(final(self)@),
    {
        let mut record = record;
        let mut inv: Vec<UndoOp> = Vec::new();
        let ghost m = self@;
        let ghost all = ops_view(record@);
        assert(ops_view(inv@) + reverse_record(m, all) =~= reverse_record(m, all));
        while record.len() > 0
            invariant
                clean(self@),
                unwound(self@, ops_view(record@)) == unwound(m, all),
                ops_view(inv@) + reverse_record(self@, ops_view(record@)) == reverse_record(
                    m,
                    all,
                ),
            decreases record.len(),
        {
            let ghost before = self@;
            let ghost ops = ops_view(record@);
            let ghost done = ops_view(inv@);
            match record.pop() {
                Some(op) => {
                    assert(ops.last() == op@);
                    assert(ops.drop_last() =~= ops_view(record@));
                    proof {
                        step_back(before, op@);
                    }
                    let i = self.apply_op(op);
                    inv.push(i);
                    assert(ops_view(inv@) =~= done.push(i@));
                    assert(ops_view(inv@) + reverse_record(self@, ops_view(record@)) =~= done
                        + reverse_record(before, ops));
                },
                None => {},
            }
        }
        assert(ops_view(inv@) + reverse_record(self@, ops_view(record@)) =~= ops_view(inv@));
        inv
    }
}

// ---- walking over the differences --------------------------------------------

/// The number of lines inserted before anchor `a`.
pub open spec fn inserted_upto(m: Map<u64, EventView>, a: int) -> nat
    decreases a,
{
    if a <= 0 {
        0
    } else {
        inserted_upto(m, a - 1) + event_at(m, (a - 1) as u64).inserts.len()
    }
}

/// The number of original lines deleted before anchor `a`.
pub open spec fn deleted_upto(m: Map<u64, EventView>, a: int) -> nat
    decreases a,
{
    if a <= 0 {
        0
    } else {
        deleted_upto(m, a - 1) + if event_at(m, (a - 1) as u64).deleted {
            1nat
        } else {
            0
        }
    }
}

/// The number of original lines replaced before anchor `a`.
pub open spec fn replaced_upto(m: Map<u64, EventView>, a: int) -> nat
    decreases a,
{
    if a <= 0 {
        0
    } else {
        replaced_upto(m, a - 1) + if !event_at(m, (a - 1) as u64).deleted && event_at(
            m,
            (a - 1) as u64,
        ).replacement is Some {
            1nat
        } else {
            0
        }
    }
}

/// How many lines stand before an anchor.
pub proof fn lemma_upto_len(m: Map<u64, EventView>, l: Seq<Seq<char>>, a: int)
    requires
        0 <= a <= l.len(),
    ensures
        upto(m, l, a).len() == inserted_upto(m, a) + a - deleted_upto(m, a),
        deleted_upto(m, a) <= a,
        replaced_upto(m, a) + deleted_upto(m, a) <= a,
    decreases a,
{
    if a > 0 {
        lemma_upto_len(m, l, a - 1);
    }
}

proof fn lemma_counts_gap(m: Map<u64, EventView>, a: int, b: int)
    requires
        0 <= a <= b <= u64::MAX,
        forall|k: u64| a <= k < b ==> !#[trigger] m.contains_key(k),
    ensures
        inserted_upto(m, b) == inserted_upto(m, a),
        deleted_upto(m, b) == deleted_upto(m, a),
        replaced_upto(m, b) == replaced_upto(m, a),
    decreases b - a,
{
    if a < b {
        lemma_counts_gap(m, a, b - 1);
        assert(!m.contains_key((b - 1) as u64));
    }
}

/// The anchors of a map, in order.
pub open spec fn ordered_anchors(m: Map<u64, EventView>, v: Seq<u64>) -> bool {
    &&& forall|i: int, j: int| 0 <= i < j < v.len() ==> #[trigger] v[i] < #[trigger] v[j]
    &&& forall|i: int| 0 <= i < v.len() ==> m.contains_key(#[trigger] v[i])
    &&& forall|k: u64| #[trigger] m.contains_key(k) ==> v.contains(k)
}

/// Nothing differs between two anchors that follow each other.
pub proof fn lemma_between(m: Map<u64, EventView>, v: Seq<u64>, i: int, from: int, to: int)
    requires
        ordered_anchors(m, v),
        0 <= i <= v.len(),
        i > 0 ==> from > v[i - 1],
        i < v.len() ==> to <= v[i],
    ensures
        forall|k: u64| from <= k < to ==> !#[trigger] m.contains_key(k),
{
    assert forall|k: u64| from <= k < to implies !#[trigger] m.contains_key(k) by {
        if m.contains_key(k) {
            let j = choose|j: int| 0 <= j < v.len() && v[j] == k;
            if j < i {
                if j < i - 1 {
                    assert(v[j] < v[i - 1]);
                }
            } else if j > i {
                assert(v[i] < v[j]);
            }
        }
    }
}

impl Overlay {
    /// The anchors at which something differs, in order.
    pub fn anchors(&self) -> (v: Vec<u64>)
        ensures
            ordered_anchors(self@, v@),
    {
        broadcast use group_btree_axioms;

        let mut v: Vec<u64> = Vec::new();
        let ghost m = self.events@;
        for (k, e) in it: self.events.iter()
            invariant
                v@.len() == it.index(),
                m == self.events@,
                it.seq() == spec_btree_map_iter(&self.events).remaining(),
                forall|i: int| 0 <= i < v@.len() ==> #[trigger] v@[i] == *it.seq()[i].0,
        {
            v.push(*k);
        }
        proof {
            let s = spec_btree_map_iter(&self.events).remaining();
            let keys = s.map_values(|kv: (&u64, &EditEvent)| *kv.0);
            assert(increasing_seq(keys));
            assert(v@ =~= keys);
            assert forall|i: int, j: int| 0 <= i < j < v@.len() implies #[trigger] v@[i]
                < #[trigger] v@[j] by {
                assert(keys[i].cmp_spec(&keys[j]) is Less);
            }
            assert forall|i: int| 0 <= i < v@.len() implies self@.contains_key(
                #[trigger] v@[i],
            ) by {
                assert(m.contains_key(*s[i].0));
            }
            assert forall|k: u64| #[trigger] self@.contains_key(k) implies v@.contains(k) by {
                assert(m.contains_key(k));
                let i = choose|i: int| 0 <= i < s.len() && s[i] == (&k, &m[k]);
                assert(s.contains((&k, &m[k])));
                assert(v@[i] == k);
            }
        }
        v
    }

    /// How many lines are inserted, replaced and deleted over a document of
    /// `n` lines.
    pub(crate) fn counts(&self, n: u64, Ghost(l): Ghost<Seq<Seq<char>>>) -> (r: (u64, u64, u64))
        requires
            l.len() == n,
            fits(self@, l),
        ensures
            r.0 == inserted_upto(self@, n + 1),
            r.1 == replaced_upto(self@, n as int),
            r.2 == deleted_upto(self@, n as int),
            r.0 + n - r.2 == shown(self@, l).len(),
            r.2 <= n,
    {
        let v = self.anchors();
        let ghost m = self@;
        let mut inserted: u64 = 0;
        let mut replaced: u64 = 0;
        let mut deleted: u64 = 0;
        let mut i: usize = 0;
        let ghost mut at: int = 0;
        while i < v.len()
            invariant
                i <= v@.len(),
                m == self@,
                l.len() == n,
                fits(m, l),
                ordered_anchors(m, v@),
                0 <= at <= n + 1,
                i > 0 ==> at == v@[i - 1] + 1,
                i == 0 ==> at == 0,
                inserted == inserted_upto(m, at),
                at <= n ==> replaced == replaced_upto(m, at),
                at <= n ==> deleted == deleted_upto(m, at),
                at > n ==> replaced == replaced_upto(m, n as int),
                at > n ==> deleted == deleted_upto(m, n as int),
                deleted <= n,
                replaced <= n,
            decreases v.len() - i,
        {
            let a = v[i];
            proof {
                assert(m.contains_key(a));
                if i > 0 {
                    assert(v@[i - 1] < v@[i as int]);
                }
                lemma_between(m, v@, i as int, at, a as int);
                lemma_counts_gap(m, at, a as int);
                lemma_split(m, l, a as int);
                lemma_upto_len(m, l, a as int);
                assert(block(m, l, a as int).len() >= event_at(m, a).inserts.len());
                if a < n {
                    lemma_upto_len(m, l, a + 1);
                }
            }
            if let Some(e) = self.get(a) {
                assert(e@ == event_at(m, a));
                assert(e.inserts@.len() == e@.inserts.len());
                inserted = inserted + e.inserts.len() as u64;
                if a < n {
                    if e.deleted {
                        deleted = deleted + 1;
                    } else if e.replacement.is_some() {
                        replaced = replaced + 1;
                    }
                }
            }
            proof {
                at = a + 1;
            }
            i += 1;
        }
        proof {
            if at <= n {
                lemma_between(m, v@, v@.len() as int, at, n + 1);
                lemma_counts_gap(m, at, n + 1);
                lemma_counts_gap(m, at, n as int);
            }
            lemma_upto_len(m, l, n as int);
            lemma_split(m, l, n as int);
        }
        (inserted, replaced, deleted)
    }

    /// Finds where the line at `logical` comes from.
    pub(crate) fn locate(&self, logical: u64, n: u64, Ghost(l): Ghost<Seq<Seq<char>>>) -> (r: Option<
        LineRef,
    >)
        requires
            l.len() == n,
            fits(self@, l),
        ensures
            r is Some <==> logical < shown(self@, l).len(),
            r matches Some(x) ==> refers(self@, l, logical as int, x),
    {
        let v = self.anchors();
        let ghost m = self@;
        let mut pos: u64 = 0;
        let mut orig: u64 = 0;
        let mut i: usize = 0;
        while i < v.len()
            invariant
                i <= v@.len(),
                m == self@,
                l.len() == n,
                fits(m, l),
                ordered_anchors(m, v@),
                orig <= n,
                i > 0 && v@[i - 1] < n ==> orig == v@[i - 1] + 1,
                i > 0 ==> v@[i - 1] <= n,
                i == 0 ==> orig == 0,
                i > 0 && v@[i - 1] == n ==> i == v@.len() && orig == n && pos == shown(m, l).len(),
                i == 0 || v@[i - 1] < n ==> pos == upto(m, l, orig as int).len(),
                logical >= pos,
            decreases v.len() - i,
        {
            let anchor = v[i];
            proof {
                assert(m.contains_key(anchor));
                if i > 0 {
                    assert(v@[i - 1] < v@[i as int]);
                }
                lemma_between(m, v@, i as int, orig as int, anchor as int);
                lemma_gap(m, l, orig as int, anchor as int);
                lemma_split(m, l, orig as int);
                lemma_split(m, l, anchor as int);
            }
            let unchanged = anchor - orig;
            if logical - pos < unchanged {
                let o = orig + (logical - pos);
                proof {
                    assert(!m.contains_key(o));
                    lemma_gap(m, l, orig as int, o as int);
                }
                return Some(LineRef::Original(o));
            }
            pos = pos + unchanged;
            orig = anchor;
            assert(pos == upto(m, l, anchor as int).len());
            if let Some(ev) = self.get(anchor) {
                assert(ev@ == event_at(m, anchor));
                assert(ev.inserts@.len() == ev@.inserts.len());
                assert(ev@.inserts.len() <= block(m, l, anchor as int).len());
                let inserted = ev.inserts.len() as u64;
                if logical - pos < inserted {
                    return Some(
                        LineRef::Inserted { anchor, index: (logical - pos) as usize },
                    );
                }
                pos = pos + inserted;
                if anchor < n {
                    if !ev.deleted {
                        if logical == pos {
                            return if ev.replacement.is_some() {
                                Some(LineRef::Replaced(anchor))
                            } else {
                                Some(LineRef::Original(anchor))
                            };
                        }
                        pos = pos + 1;
                    }
                    orig = orig + 1;
                } else {
                    proof {
                        assert(onward(m, l, n + 1) =~= Seq::empty());
                        if i + 1 < v@.len() {
                            assert(v@[i as int] < v@[i + 1]);
                            assert(m.contains_key(v@[i + 1]));
                        }
                    }
                }
            }
            i += 1;
        }
        let unchanged = n - orig;
        proof {
            if i == 0 || v@[i - 1] < n {
                lemma_between(m, v@, i as int, orig as int, n + 1);
                lemma_gap(m, l, orig as int, n as int);
                lemma_split(m, l, n as int);
                assert(!m.contains_key(n));
                assert(block(m, l, n as int) =~= Seq::empty());
                assert(onward(m, l, n + 1) =~= Seq::empty());
                assert(shown(m, l).len() == pos + unchanged);
            }
        }
        if logical - pos < unchanged {
            let o = orig + (logical - pos);
            proof {
                assert(!m.contains_key(o));
                lemma_gap(m, l, orig as int, o as int);
            }
            Some(LineRef::Original(o))
        } else {
            None
        }
    }
}

} // verus!
