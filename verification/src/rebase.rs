//! Moving an overlay to another base: after a save, the session goes on over
//! the document that was saved, while the file holds what it showed then.

use std::collections::BTreeMap;
use vstd::prelude::*;
use vstd::std_specs::btree::*;
use vstd::string::*;

use crate::document::Document;
use crate::overlay::{
    block, clean, event_at, fits, lemma_between, lemma_local_before, no_event, ordered_anchors, put,
    shown, upto, EditEvent, EventView, Overlay,
};
use crate::text::{same_text, texts};

verus! {

/// What a save leaves behind: the overlay at that time, and the text of the
/// original lines that it replaces or deletes.
#[derive(Debug)]
pub struct Capture {
    overlay: Overlay,
    originals: BTreeMap<u64, String>,
    total: u64,
}

/// A [`Capture`] as a mathematical value.
#[verifier::ext_equal]
pub struct CaptureView {
    pub overlay: Map<u64, EventView>,
    pub originals: Map<u64, Seq<char>>,
    /// How many original lines there are.
    pub total: nat,
}

/// The original line is replaced or deleted.
pub open spec fn hides(e: EventView) -> bool {
    e.deleted || e.replacement is Some
}

/// What is captured of an overlay over these lines.
pub open spec fn captured(m: Map<u64, EventView>, l: Seq<Seq<char>>) -> CaptureView {
    CaptureView {
        overlay: m,
        originals: Map::new(
            |a: u64| m.contains_key(a) && a < l.len() && hides(m[a]),
            |a: u64| l[a as int],
        ),
        total: l.len(),
    }
}

impl CaptureView {
    /// The text of an original line.
    pub open spec fn original(self, a: u64) -> Seq<char> {
        if self.originals.contains_key(a) {
            self.originals[a]
        } else {
            Seq::empty()
        }
    }

    /// How many lines of the file the anchors before `a` take up.
    pub open spec fn place(self, a: int) -> nat
        decreases a,
    {
        if a <= 0 {
            0
        } else {
            let e = event_at(self.overlay, (a - 1) as u64);
            self.place(a - 1) + e.inserts.len() + if a - 1 < self.total && !e.deleted {
                1nat
            } else {
                0
            }
        }
    }

    /// The places are ones that can be counted.
    pub open spec fn in_reach(self) -> bool {
        self.total < u64::MAX && self.place(self.total as int + 1) <= u64::MAX
    }
}

// ---- the overlay over the file -----------------------------------------------

/// An overlay over the file that is being put together: what differs at the
/// lines before `at`, and what is to be inserted before that line.
#[verifier::ext_equal]
pub struct Moving {
    pub events: Map<u64, EventView>,
    pub pending: Seq<Seq<char>>,
    pub at: nat,
}

impl Moving {
    /// After the next line of the file.
    pub open spec fn past_line(self, replacement: Option<Seq<char>>, deleted: bool) -> Moving {
        Moving {
            events: put(
                self.events,
                self.at as u64,
                EventView { inserts: self.pending, replacement, deleted },
            ),
            pending: Seq::empty(),
            at: self.at + 1,
        }
    }

    /// After the first `k` of the lines `was`, of which the lines `now` are to
    /// be made.
    pub open spec fn past_lines(self, was: Seq<Seq<char>>, now: Seq<Seq<char>>, k: int) -> Moving
        decreases k,
    {
        if k <= 0 {
            self
        } else {
            let s = self.past_lines(was, now, k - 1);
            if k <= now.len() {
                s.past_line(
                    if now[k - 1] == was[k - 1] {
                        None
                    } else {
                        Some(now[k - 1])
                    },
                    false,
                )
            } else {
                s.past_line(None, true)
            }
        }
    }

    /// After the lines `was`, of which the lines `now` are made.
    pub open spec fn past_inserts(self, was: Seq<Seq<char>>, now: Seq<Seq<char>>) -> Moving {
        let s = self.past_lines(was, now, was.len() as int);
        if now.len() > was.len() {
            Moving { pending: s.pending + now.skip(was.len() as int), ..s }
        } else {
            s
        }
    }

    /// After an original line, at which there was one difference and now is
    /// another.
    pub open spec fn past_original(
        self,
        was: EventView,
        now: EventView,
        original: Seq<char>,
    ) -> Moving {
        let text = match now.replacement {
            Some(t) => t,
            None => original,
        };
        if was.deleted {
            if now.deleted {
                self
            } else {
                Moving { pending: self.pending.push(text), ..self }
            }
        } else if now.deleted {
            self.past_line(None, true)
        } else {
            self.past_line(
                match was.replacement {
                    Some(t) => if text == t {
                        None
                    } else {
                        Some(text)
                    },
                    None => now.replacement,
                },
                false,
            )
        }
    }

    /// After an anchor.
    pub open spec fn past_anchor(self, c: CaptureView, m: Map<u64, EventView>, a: u64) -> Moving {
        let was = event_at(c.overlay, a);
        let now = event_at(m, a);
        let s = self.past_inserts(was.inserts, now.inserts);
        if a < c.total {
            s.past_original(was, now, c.original(a))
        } else {
            s
        }
    }
}

/// The overlay over the file, as far as the anchors before `a` say.
pub open spec fn moved_upto(c: CaptureView, m: Map<u64, EventView>, a: int) -> Moving
    decreases a,
{
    if a <= 0 {
        Moving { events: Map::empty(), pending: Seq::empty(), at: 0 }
    } else {
        moved_upto(c, m, a - 1).past_anchor(c, m, (a - 1) as u64)
    }
}

/// What is still to be inserted goes to the end.
pub open spec fn settled(s: Moving) -> Map<u64, EventView> {
    put(
        s.events,
        s.at as u64,
        EventView { inserts: s.pending, replacement: None, deleted: false },
    )
}

/// An overlay over the document that was captured, as one over the file.
pub open spec fn rebased(c: CaptureView, m: Map<u64, EventView>) -> Map<u64, EventView> {
    settled(moved_upto(c, m, c.total as int + 1))
}

// ---- it shows the same -------------------------------------------------------

/// What an overlay that is being put together shows of the file `f`.
spec fn so_far(s: Moving, f: Seq<Seq<char>>) -> Seq<Seq<char>> {
    upto(s.events, f, s.at as int) + s.pending
}

/// The overlay that is being put together is one over the lines of the file
/// before `at`.
spec fn sound(s: Moving, f: Seq<Seq<char>>) -> bool {
    &&& s.at <= f.len()
    &&& clean(s.events)
    &&& forall|k: u64| #[trigger]
        s.events.contains_key(k) ==> {
            &&& k < s.at
            &&& s.events[k].replacement != Some(f[k as int])
            &&& s.events[k].deleted ==> s.events[k].replacement is None
        }
}

proof fn lemma_past_line(s: Moving, f: Seq<Seq<char>>, replacement: Option<Seq<char>>, deleted: bool)
    requires
        sound(s, f),
        s.at < f.len(),
        f.len() < u64::MAX,
        replacement != Some(f[s.at as int]),
        deleted ==> replacement is None,
    ensures
        ({
            let t = s.past_line(replacement, deleted);
            let x = match replacement {
                Some(y) => y,
                None => f[s.at as int],
            };
            &&& sound(t, f)
            &&& so_far(t, f) == if deleted {
                so_far(s, f)
            } else {
                so_far(s, f).push(x)
            }
        }),
{
    let t = s.past_line(replacement, deleted);
    let a = s.at as u64;
    assert(!s.events.contains_key(a));
    assert forall|k: u64| k != a implies #[trigger] event_at(s.events, k) == event_at(
        t.events,
        k,
    ) by {}
    lemma_local_before(s.events, t.events, f, a, s.at as int);
    assert(upto(t.events, f, t.at as int) == upto(t.events, f, s.at as int) + block(
        t.events,
        f,
        s.at as int,
    ));
    assert(event_at(t.events, a) == (EventView { inserts: s.pending, replacement, deleted }));
    assert(so_far(t, f) =~= if deleted {
        so_far(s, f)
    } else {
        so_far(s, f).push(
            match replacement {
                Some(y) => y,
                None => f[s.at as int],
            },
        )
    });
}

proof fn lemma_past_lines(
    s: Moving,
    f: Seq<Seq<char>>,
    was: Seq<Seq<char>>,
    now: Seq<Seq<char>>,
    k: int,
)
    requires
        sound(s, f),
        0 <= k <= was.len(),
        s.at + was.len() <= f.len(),
        f.len() < u64::MAX,
        forall|j: int| 0 <= j < was.len() ==> #[trigger] was[j] == f[s.at + j],
    ensures
        ({
            let t = s.past_lines(was, now, k);
            &&& sound(t, f)
            &&& t.at == s.at + k
            &&& so_far(t, f) == so_far(s, f) + now.take(
                if k <= now.len() {
                    k
                } else {
                    now.len() as int
                },
            )
        }),
    decreases k,
{
    if k > 0 {
        lemma_past_lines(s, f, was, now, k - 1);
        let t = s.past_lines(was, now, k - 1);
        assert(was[k - 1] == f[s.at + (k - 1)]);
        if k <= now.len() {
            let r = if now[k - 1] == was[k - 1] {
                None
            } else {
                Some(now[k - 1])
            };
            lemma_past_line(t, f, r, false);
            assert(now.take(k) =~= now.take(k - 1).push(now[k - 1]));
            assert(so_far(s, f) + now.take(k) =~= (so_far(s, f) + now.take(k - 1)).push(now[k - 1]));
        } else {
            lemma_past_line(t, f, None, true);
        }
    } else {
        assert(so_far(s, f) + now.take(0) =~= so_far(s, f));
    }
}

proof fn lemma_past_inserts(s: Moving, f: Seq<Seq<char>>, was: Seq<Seq<char>>, now: Seq<Seq<char>>)
    requires
        sound(s, f),
        s.at + was.len() <= f.len(),
        f.len() < u64::MAX,
        forall|j: int| 0 <= j < was.len() ==> #[trigger] was[j] == f[s.at + j],
    ensures
        ({
            let t = s.past_inserts(was, now);
            &&& sound(t, f)
            &&& t.at == s.at + was.len()
            &&& so_far(t, f) == so_far(s, f) + now
        }),
{
    lemma_past_lines(s, f, was, now, was.len() as int);
    let u = s.past_lines(was, now, was.len() as int);
    let t = s.past_inserts(was, now);
    if now.len() > was.len() {
        assert(so_far(t, f) =~= so_far(u, f) + now.skip(was.len() as int));
        assert(now.take(was.len() as int) + now.skip(was.len() as int) =~= now);
        assert(so_far(t, f) =~= so_far(s, f) + now);
    } else {
        assert(now.take(now.len() as int) =~= now);
    }
}

proof fn lemma_past_original(
    s: Moving,
    f: Seq<Seq<char>>,
    was: EventView,
    now: EventView,
    line: Seq<char>,
    original: Seq<char>,
)
    requires
        sound(s, f),
        f.len() < u64::MAX,
        hides(was) ==> original == line,
        !was.deleted ==> s.at < f.len() && f[s.at as int] == match was.replacement {
            Some(t) => t,
            None => line,
        },
        now.replacement != Some(line),
        now.deleted ==> now.replacement is None,
    ensures
        ({
            let t = s.past_original(was, now, original);
            let x = match now.replacement {
                Some(y) => y,
                None => line,
            };
            &&& sound(t, f)
            &&& t.at == s.at + if was.deleted {
                0nat
            } else {
                1
            }
            &&& so_far(t, f) == if now.deleted {
                so_far(s, f)
            } else {
                so_far(s, f).push(x)
            }
        }),
{
    let t = s.past_original(was, now, original);
    let text = match now.replacement {
        Some(y) => y,
        None => original,
    };
    if was.deleted {
        if !now.deleted {
            assert(so_far(t, f) =~= so_far(s, f).push(text));
        }
    } else if now.deleted {
        lemma_past_line(s, f, None, true);
    } else {
        let r = match was.replacement {
            Some(y) => if text == y {
                None
            } else {
                Some(text)
            },
            None => now.replacement,
        };
        lemma_past_line(s, f, r, false);
    }
}

/// The place of an anchor in the file.
proof fn lemma_place(c: CaptureView, l: Seq<Seq<char>>, a: int)
    requires
        c.total == l.len(),
        0 <= a <= l.len() + 1,
    ensures
        c.place(a) == upto(c.overlay, l, a).len(),
    decreases a,
{
    if a > 0 {
        lemma_place(c, l, a - 1);
    }
}

/// What stands before an anchor stands at the start of what is shown.
proof fn lemma_prefix(m: Map<u64, EventView>, l: Seq<Seq<char>>, a: int)
    requires
        0 <= a <= l.len(),
    ensures
        ({
            let b = block(m, l, a);
            let at = upto(m, l, a).len();
            &&& at + b.len() <= shown(m, l).len()
            &&& forall|j: int| 0 <= j < b.len() ==> #[trigger] b[j] == shown(m, l)[at + j]
        }),
{
    crate::overlay::lemma_split(m, l, a);
    let b = block(m, l, a);
    let u = upto(m, l, a);
    assert forall|j: int| 0 <= j < b.len() implies #[trigger] b[j] == shown(m, l)[u.len() + j] by {
        assert((u + b)[u.len() + j] == b[j]);
    }
}

proof fn lemma_moved(m0: Map<u64, EventView>, m: Map<u64, EventView>, l: Seq<Seq<char>>, a: int)
    requires
        fits(m0, l),
        fits(m, l),
        shown(m0, l).len() < u64::MAX,
        0 <= a <= l.len() + 1,
    ensures
        ({
            let f = shown(m0, l);
            let s = moved_upto(captured(m0, l), m, a);
            &&& sound(s, f)
            &&& s.at == upto(m0, l, a).len()
            &&& so_far(s, f) == upto(m, l, a)
        }),
    decreases a,
{
    let f = shown(m0, l);
    let c = captured(m0, l);
    let s = moved_upto(c, m, a);
    if a <= 0 {
        assert(so_far(s, f) =~= Seq::empty());
    } else {
        lemma_moved(m0, m, l, a - 1);
        let p = moved_upto(c, m, a - 1);
        let k = (a - 1) as u64;
        let was = event_at(m0, k);
        let now = event_at(m, k);
        let b = block(m0, l, a - 1);
        lemma_prefix(m0, l, a - 1);
        assert forall|j: int| 0 <= j < was.inserts.len() implies #[trigger] was.inserts[j] == f[p.at
            + j] by {
            assert(b[j] == was.inserts[j]);
        }
        lemma_past_inserts(p, f, was.inserts, now.inserts);
        let q = p.past_inserts(was.inserts, now.inserts);
        assert(upto(m0, l, a) == upto(m0, l, a - 1) + b);
        assert(upto(m, l, a) == upto(m, l, a - 1) + block(m, l, a - 1));
        if a - 1 < l.len() {
            let line = l[a - 1];
            if !was.deleted {
                assert(b[was.inserts.len() as int] == match was.replacement {
                    Some(t) => t,
                    None => line,
                });
            }
            if hides(was) {
                assert(m0.contains_key(k));
                assert(c.original(k) == line);
            }
            lemma_past_original(q, f, was, now, line, c.original(k));
        }
        assert(so_far(s, f) =~= upto(m, l, a));
    }
}

/// Over the file that a save wrote, an overlay that was moved there shows what
/// the overlay shows over the document that was saved; where nothing has
/// changed since, it is empty.
pub proof fn moved_overlays_show_the_same(
    m0: Map<u64, EventView>,
    m: Map<u64, EventView>,
    l: Seq<Seq<char>>,
)
    requires
        fits(m0, l),
        fits(m, l),
        shown(m0, l).len() < u64::MAX,
    ensures
        shown(rebased(captured(m0, l), m), shown(m0, l)) == shown(m, l),
        fits(rebased(captured(m0, l), m), shown(m0, l)),
        m == m0 ==> rebased(captured(m0, l), m) == Map::<u64, EventView>::empty(),
{
    let f = shown(m0, l);
    let c = captured(m0, l);
    let n = l.len() as int;
    lemma_moved(m0, m, l, n + 1);
    let s = moved_upto(c, m, n + 1);
    let r = rebased(c, m);
    let a = s.at as u64;
    assert(s.at == f.len());
    assert(!s.events.contains_key(a));
    assert forall|k: u64| k != a implies #[trigger] event_at(s.events, k) == event_at(r, k) by {}
    lemma_local_before(s.events, r, f, a, s.at as int);
    assert(block(r, f, f.len() as int) =~= s.pending);
    assert(shown(r, f) =~= shown(m, l));
    if m == m0 {
        lemma_unmoved(c, m, n + 1);
        assert(r =~= Map::<u64, EventView>::empty());
    }
}

proof fn lemma_same_lines(s: Moving, was: Seq<Seq<char>>, k: int)
    requires
        s.events == Map::<u64, EventView>::empty(),
        s.pending.len() == 0,
        0 <= k <= was.len(),
    ensures
        ({
            let t = s.past_lines(was, was, k);
            &&& t.events == Map::<u64, EventView>::empty()
            &&& t.pending.len() == 0
        }),
    decreases k,
{
    if k > 0 {
        lemma_same_lines(s, was, k - 1);
        let t = s.past_lines(was, was, k - 1);
        assert(t.pending =~= Seq::empty());
        assert(s.past_lines(was, was, k).events =~= Map::<u64, EventView>::empty());
    }
}

proof fn lemma_unmoved(c: CaptureView, m: Map<u64, EventView>, a: int)
    requires
        c.overlay == m,
        forall|k: u64| #[trigger] m.contains_key(k) && m[k].deleted ==> m[k].replacement is None,
    ensures
        ({
            let s = moved_upto(c, m, a);
            &&& s.events == Map::<u64, EventView>::empty()
            &&& s.pending.len() == 0
        }),
    decreases a,
{
    if a > 0 {
        lemma_unmoved(c, m, a - 1);
        let p = moved_upto(c, m, a - 1);
        let e = event_at(m, (a - 1) as u64);
        lemma_same_lines(p, e.inserts, e.inserts.len() as int);
        let q = p.past_inserts(e.inserts, e.inserts);
        assert(q.pending =~= Seq::empty());
        let s = moved_upto(c, m, a);
        assert(s.events =~= Map::<u64, EventView>::empty());
    }
}

// ---- putting it together -----------------------------------------------------

/// What differs is at lines that were passed.
pub open spec fn below(s: Moving) -> bool {
    forall|k: u64| #[trigger] s.events.contains_key(k) ==> k < s.at
}

proof fn lemma_below_lines(s: Moving, was: Seq<Seq<char>>, now: Seq<Seq<char>>, k: int)
    requires
        below(s),
        0 <= k <= was.len(),
        s.at + was.len() <= u64::MAX,
    ensures
        below(s.past_lines(was, now, k)),
        s.past_lines(was, now, k).at == s.at + k,
    decreases k,
{
    if k > 0 {
        lemma_below_lines(s, was, now, k - 1);
    }
}

/// The places of anchors grow.
proof fn lemma_place_grows(c: CaptureView, a: int, b: int)
    requires
        a <= b,
    ensures
        c.place(a) <= c.place(b),
    decreases b - a,
{
    if a < b {
        lemma_place_grows(c, a, b - 1);
    }
}

proof fn lemma_below(c: CaptureView, m: Map<u64, EventView>, a: int)
    requires
        c.in_reach(),
        0 <= a <= c.total + 1,
    ensures
        below(moved_upto(c, m, a)),
        moved_upto(c, m, a).at == c.place(a),
        c.place(a) <= u64::MAX,
    decreases a,
{
    lemma_place_grows(c, a, c.total as int + 1);
    if a > 0 {
        lemma_below(c, m, a - 1);
        let p = moved_upto(c, m, a - 1);
        let k = (a - 1) as u64;
        let was = event_at(c.overlay, k);
        let now = event_at(m, k);
        lemma_below_lines(p, was.inserts, now.inserts, was.inserts.len() as int);
        let q = p.past_inserts(was.inserts, now.inserts);
        assert(below(q));
    }
}

/// Where nothing differs, neither then nor now, lines are passed over.
proof fn lemma_moved_gap(c: CaptureView, m: Map<u64, EventView>, a: int, b: int)
    requires
        c.in_reach(),
        0 <= a < b <= c.total,
        forall|k: u64| a <= k < b ==> !#[trigger] c.overlay.contains_key(k),
        forall|k: u64| a <= k < b ==> !#[trigger] m.contains_key(k),
    ensures
        ({
            let s = moved_upto(c, m, a).past_line(None, false);
            moved_upto(c, m, b) == (Moving { at: (s.at + (b - a - 1)) as nat, ..s })
        }),
    decreases b - a,
{
    lemma_below(c, m, b - 1);
    let p = moved_upto(c, m, b - 1);
    let k = (b - 1) as u64;
    assert(!c.overlay.contains_key(k) && !m.contains_key(k));
    assert(p.past_inserts(no_event().inserts, no_event().inserts) == p);
    assert(moved_upto(c, m, b) == p.past_line(None, false));
    if a + 1 < b {
        lemma_moved_gap(c, m, a, b - 1);
        assert(p.pending =~= Seq::empty());
        assert(EventView { inserts: p.pending, replacement: None, deleted: false } == no_event());
        assert(!p.events.contains_key(p.at as u64));
        assert(put(p.events, p.at as u64, no_event()) =~= p.events);
    }
}

/// An overlay over the file that is being put together.
struct Mover {
    events: Overlay,
    pending: Vec<String>,
    at: u64,
}

impl View for Mover {
    type V = Moving;

    closed spec fn view(&self) -> Moving {
        Moving { events: self.events@, pending: texts(self.pending@), at: self.at as nat }
    }
}

impl Mover {
    fn past_line(self, replacement: Option<String>, deleted: bool) -> (r: Mover)
        requires
            below(self@),
            self@.at < u64::MAX,
        ensures
            r@ == self@.past_line(crate::overlay::opt_text(replacement), deleted),
            below(r@),
    {
        assert(!self@.events.contains_key(self.at));
        let Mover { events, pending, at } = self;
        let mut events = events;
        events.put_event(at, EditEvent { inserts: pending, replacement, deleted });
        let r = Mover { events, pending: Vec::new(), at: at + 1 };
        assert(r@.pending =~= Seq::empty());
        r
    }

    /// Passes `n` lines at which nothing differs.
    fn past_gap(self, n: u64) -> (r: Mover)
        requires
            below(self@),
            n > 0,
            self@.at + n <= u64::MAX,
        ensures
            ({
                let s = self@.past_line(None, false);
                r@ == (Moving { at: (s.at + (n - 1)) as nat, ..s })
            }),
            below(r@),
    {
        let r = self.past_line(None, false);
        Mover { at: r.at + (n - 1), ..r }
    }

    fn past_inserts(self, was: &Vec<String>, now: &Vec<String>) -> (r: Mover)
        requires
            below(self@),
            self@.at + was@.len() <= u64::MAX,
        ensures
            r@ == self@.past_inserts(texts(was@), texts(now@)),
            below(r@),
    {
        let ghost w = texts(was@);
        let ghost t = texts(now@);
        let ghost s0 = self@;
        let mut s = self;
        let mut k: usize = 0;
        while k < was.len()
            invariant
                k <= was@.len(),
                w == texts(was@),
                t == texts(now@),
                s0.at + was@.len() <= u64::MAX,
                s@ == s0.past_lines(w, t, k as int),
                s@.at == s0.at + k,
                below(s@),
            decreases was.len() - k,
        {
            assert(w[k as int] == was@[k as int]@);
            if k < now.len() {
                assert(t[k as int] == now@[k as int]@);
                let r = if same_text(now[k].as_str(), was[k].as_str()) {
                    None
                } else {
                    Some(now[k].clone())
                };
                s = s.past_line(r, false);
            } else {
                s = s.past_line(None, true);
            }
            k += 1;
        }
        let mut i = was.len();
        let ghost p = s@.pending;
        let Mover { events, pending, at } = s;
        let mut pending = pending;
        proof {
            if now@.len() > was@.len() {
                assert(p + t.subrange(w.len() as int, w.len() as int) =~= p);
            }
        }
        while i < now.len()
            invariant
                was@.len() <= i,
                i <= now@.len() || now@.len() < was@.len(),
                w.len() == was@.len(),
                t == texts(now@),
                now@.len() <= was@.len() ==> texts(pending@) == p,
                now@.len() > was@.len() ==> texts(pending@) == p + t.subrange(
                    w.len() as int,
                    i as int,
                ),
            decreases now.len() - i,
        {
            assert(t[i as int] == now@[i as int]@);
            let ghost before = texts(pending@);
            pending.push(now[i].clone());
            assert(texts(pending@) =~= before.push(t[i as int]));
            assert(p + t.subrange(w.len() as int, i + 1) =~= (p + t.subrange(
                w.len() as int,
                i as int,
            )).push(t[i as int]));
            i += 1;
        }
        let r = Mover { events, pending, at };
        proof {
            if now@.len() > was@.len() {
                assert(t.subrange(w.len() as int, t.len() as int) =~= t.skip(w.len() as int));
            }
            assert(r@ =~= s0.past_inserts(w, t));
        }
        r
    }

    fn past_original(self, was: &EditEvent, now: &EditEvent, original: &str) -> (r: Mover)
        requires
            below(self@),
            !was.deleted ==> self@.at < u64::MAX,
        ensures
            r@ == self@.past_original(was@, now@, original@),
            below(r@),
    {
        let text = match &now.replacement {
            Some(t) => t.as_str(),
            None => original,
        };
        if was.deleted {
            if now.deleted {
                return self;
            }
            let Mover { events, pending, at } = self;
            let mut pending = pending;
            let ghost before = texts(pending@);
            pending.push(text.to_owned());
            assert(texts(pending@) =~= before.push(text@));
            return Mover { events, pending, at };
        }
        if now.deleted {
            return self.past_line(None, true);
        }
        let r = match &was.replacement {
            Some(t) => if same_text(text, t.as_str()) {
                None
            } else {
                Some(text.to_owned())
            },
            None => match &now.replacement {
                Some(t) => Some(t.clone()),
                None => None,
            },
        };
        self.past_line(r, false)
    }
}

impl View for Capture {
    type V = CaptureView;

    closed spec fn view(&self) -> CaptureView {
        CaptureView {
            overlay: self.overlay@,
            originals: self.originals@.map_values(|s: String| s@),
            total: self.total as nat,
        }
    }
}

impl Capture {
    pub closed spec fn wf(self) -> bool {
        self@.in_reach()
    }

    /// Captures an overlay over a document.
    pub(crate) fn of(overlay: &Overlay, doc: &Document) -> (c: Capture)
        requires
            doc.wf(),
            fits(overlay@, doc@.lines()),
        ensures
            c.wf(),
            c@ == captured(overlay@, doc@.lines()),
    {
        broadcast use group_btree_axioms;

        let ghost m = overlay@;
        let ghost l = doc@.lines();
        let total = doc.line_count();
        let v = overlay.anchors();
        let mut originals: BTreeMap<u64, String> = BTreeMap::new();
        let mut i: usize = 0;
        while i < v.len()
            invariant
                doc.wf(),
                m == overlay@,
                l == doc@.lines(),
                total == l.len(),
                ordered_anchors(m, v@),
                i <= v@.len(),
                forall|k: u64| #[trigger]
                    originals@.contains_key(k) ==> m.contains_key(k) && k < l.len() && hides(m[k])
                        && originals@[k]@ == l[k as int],
                forall|j: int|
                    0 <= j < i && (#[trigger] v@[j]) < l.len() && hides(m[v@[j]])
                        ==> originals@.contains_key(v@[j]),
            decreases v.len() - i,
        {
            broadcast use group_btree_axioms;

            let a = v[i];
            if a < total {
                if let Some(e) = overlay.get(a) {
                    if e.deleted || e.replacement.is_some() {
                        if let Some(t) = doc.line(a) {
                            originals.insert(a, t);
                        }
                    }
                }
            }
            i += 1;
        }
        let c = Capture { overlay: overlay.copy(), originals, total };
        proof {
            let want = captured(m, l);
            assert forall|k: u64| want.originals.contains_key(k) implies c@.originals.contains_key(
                k,
            ) by {
                assert(m.contains_key(k));
                let j = choose|j: int| 0 <= j < v@.len() && v@[j] == k;
                assert(originals@.contains_key(v@[j]));
            }
            assert(c@.originals =~= want.originals);
            lemma_place(c@, l, l.len() as int + 1);
        }
        c
    }

    /// An overlay over the document that was captured, as one over the file
    /// that was written.
    pub fn rebase(&self, m: &Overlay) -> (r: Overlay)
        requires
            self.wf(),
        ensures
            r@ == rebased(self@, m@),
    {
        broadcast use group_btree_axioms;

        let ghost c = self@;
        let ghost mv = m@;
        let none = EditEvent { inserts: Vec::new(), replacement: None, deleted: false };
        assert(none@ =~= no_event());
        let v0 = self.overlay.anchors();
        let v1 = m.anchors();
        let total = self.total;
        let mut s = Mover { events: Overlay::new(), pending: Vec::new(), at: 0 };
        assert(s@ =~= moved_upto(c, mv, 0));
        let mut next: u64 = 0;
        let mut i: usize = 0;
        let mut j: usize = 0;
        while (i < v0.len() && v0[i] <= total) || (j < v1.len() && v1[j] <= total)
            invariant
                self.wf(),
                c == self@,
                c.in_reach(),
                mv == m@,
                total == c.total,
                none@ == no_event(),
                ordered_anchors(c.overlay, v0@),
                ordered_anchors(mv, v1@),
                i <= v0@.len(),
                j <= v1@.len(),
                next <= total + 1,
                i > 0 ==> v0@[i - 1] < next,
                i < v0@.len() ==> next <= v0@[i as int],
                j > 0 ==> v1@[j - 1] < next,
                j < v1@.len() ==> next <= v1@[j as int],
                s@ == moved_upto(c, mv, next as int),
                below(s@),
            decreases v0.len() - i + v1.len() - j,
        {
            broadcast use group_btree_axioms;

            let mut a: u64 = if i < v0.len() {
                v0[i]
            } else {
                v1[j]
            };
            if j < v1.len() && v1[j] < a {
                a = v1[j];
            }
            proof {
                lemma_between(c.overlay, v0@, i as int, next as int, a as int);
                lemma_between(mv, v1@, j as int, next as int, a as int);
                lemma_below(c, mv, next as int);
                lemma_below(c, mv, a as int);
                lemma_below(c, mv, a + 1);
            }
            if a > next {
                proof {
                    lemma_moved_gap(c, mv, next as int, a as int);
                }
                s = s.past_gap(a - next);
            }
            let was = match self.overlay.get(a) {
                Some(e) => e,
                None => &none,
            };
            let now = match m.get(a) {
                Some(e) => e,
                None => &none,
            };
            assert(was@ == event_at(c.overlay, a) && now@ == event_at(mv, a));
            assert(was@.inserts.len() == was.inserts@.len());
            let ghost at = s@.at;
            s = s.past_inserts(&was.inserts, &now.inserts);
            proof {
                lemma_below_lines(
                    moved_upto(c, mv, a as int),
                    was@.inserts,
                    now@.inserts,
                    was@.inserts.len() as int,
                );
            }
            if a < total {
                let original = match self.originals.get(&a) {
                    Some(t) => t.as_str(),
                    None => "",
                };
                proof {
                    reveal_strlit("");
                    assert(original@ =~= c.original(a));
                }
                s = s.past_original(was, now, original);
            }
            proof {
                if i < v0@.len() && v0@[i as int] == a && i + 1 < v0@.len() {
                    assert(v0@[i as int] < v0@[i + 1]);
                }
                if j < v1@.len() && v1@[j as int] == a && j + 1 < v1@.len() {
                    assert(v1@[j as int] < v1@[j + 1]);
                }
            }
            if i < v0.len() && v0[i] == a {
                i += 1;
            }
            if j < v1.len() && v1[j] == a {
                j += 1;
            }
            next = a + 1;
        }
        proof {
            lemma_between(c.overlay, v0@, i as int, next as int, total + 1);
            lemma_between(mv, v1@, j as int, next as int, total + 1);
            lemma_below(c, mv, next as int);
        }
        if next < total {
            proof {
                lemma_moved_gap(c, mv, next as int, total as int);
                lemma_below(c, mv, total as int);
            }
            s = s.past_gap(total - next);
        }
        proof {
            lemma_below(c, mv, total as int + 1);
            if next <= total {
                assert(!c.overlay.contains_key(total) && !mv.contains_key(total));
                let p = moved_upto(c, mv, total as int);
                assert(p.past_inserts(no_event().inserts, no_event().inserts) == p);
            }
            assert(s@ == moved_upto(c, mv, total as int + 1));
        }
        assert(!s@.events.contains_key(s.at));
        let Mover { events, pending, at } = s;
        let mut events = events;
        events.put_event(at, EditEvent { inserts: pending, replacement: None, deleted: false });
        events
    }
}

} // verus!
