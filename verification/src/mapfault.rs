//! Which parts of memory are watched because a file is mapped there, and which
//! of them can no longer be trusted because the file was cut short.

use vstd::prelude::*;

verus! {

/// How many mappings can be watched at a time.
pub const SLOTS: usize = 256;

/// A watched mapping: where it starts, how long it is, and whether a read in it
/// went wrong. A free slot has no length.
#[derive(Clone, Copy, Debug, PartialEq, Eq, Structural)]
pub struct Slot {
    pub start: usize,
    pub len: usize,
    pub faulted: bool,
}

impl Slot {
    pub open spec fn free(self) -> bool {
        self.len == 0
    }

    pub open spec fn covers(self, addr: int) -> bool {
        self.start <= addr < self.start + self.len
    }
}

/// The mappings that are watched.
#[derive(Debug)]
pub struct Registry {
    slots: Vec<Slot>,
}

/// The first slot, from `i` on, that is free.
pub open spec fn first_free(s: Seq<Slot>, i: int) -> Option<int>
    decreases s.len() - i,
{
    if i < 0 || i >= s.len() {
        None
    } else if s[i].free() {
        Some(i)
    } else {
        first_free(s, i + 1)
    }
}

/// The first slot, from `i` on, whose mapping an address lies in.
pub open spec fn first_covering(s: Seq<Slot>, addr: int, i: int) -> Option<int>
    decreases s.len() - i,
{
    if i < 0 || i >= s.len() {
        None
    } else if s[i].covers(addr) {
        Some(i)
    } else {
        first_covering(s, addr, i + 1)
    }
}

pub open spec fn free_slot() -> Slot {
    Slot { start: 0, len: 0, faulted: false }
}

impl Registry {
    pub closed spec fn slots(&self) -> Seq<Slot> {
        self.slots@
    }

    pub closed spec fn wf(&self) -> bool {
        self.slots@.len() == SLOTS
    }

    /// A registry that watches nothing.
    pub fn new() -> (r: Registry)
        ensures
            r.wf(),
            r.slots() == Seq::new(SLOTS as nat, |i: int| free_slot()),
    {
        let mut slots: Vec<Slot> = Vec::new();
        let mut i: usize = 0;
        while i < SLOTS
            invariant
                i <= SLOTS,
                slots@.len() == i,
                forall|j: int| 0 <= j < i ==> slots@[j] == free_slot(),
            decreases SLOTS - i,
        {
            slots.push(Slot { start: 0, len: 0, faulted: false });
            i += 1;
        }
        assert(slots@ =~= Seq::new(SLOTS as nat, |i: int| free_slot()));
        Registry { slots }
    }

    /// Watches a mapping, if it is not empty and there is a free slot. A new
    /// watch has not faulted.
    pub fn register(&mut self, start: usize, len: usize) -> (r: Option<usize>)
        requires
            old(self).wf(),
        ensures
            final(self).wf(),
            match r {
                Some(i) => {
                    &&& len > 0
                    &&& first_free(old(self).slots(), 0) == Some(i as int)
                    &&& i < SLOTS
                    &&& final(self).slots() == old(self).slots().update(
                        i as int,
                        Slot { start, len, faulted: false },
                    )
                },
                None => {
                    &&& len == 0 || first_free(old(self).slots(), 0) is None
                    &&& final(self).slots() == old(self).slots()
                },
            },
    {
        if len == 0 {
            return None;
        }
        let mut i: usize = 0;
        while i < self.slots.len()
            invariant
                i <= self.slots@.len(),
                self.slots@ == old(self).slots(),
                self.wf(),
                len > 0,
                first_free(self.slots@, 0) == first_free(self.slots@, i as int),
            decreases self.slots.len() - i,
        {
            if self.slots[i].len == 0 {
                self.slots.set(i, Slot { start, len, faulted: false });
                return Some(i);
            }
            i += 1;
        }
        None
    }

    /// Stops watching.
    pub fn deregister(&mut self, i: usize)
        requires
            old(self).wf(),
            i < SLOTS,
        ensures
            final(self).wf(),
            final(self).slots() == old(self).slots().update(i as int, free_slot()),
    {
        self.slots.set(i, Slot { start: 0, len: 0, faulted: false });
    }

    /// The watched mapping that an address lies in.
    pub fn find(&self, addr: usize) -> (r: Option<usize>)
        requires
            self.wf(),
        ensures
            match r {
                Some(i) => first_covering(self.slots(), addr as int, 0) == Some(i as int) && i
                    < SLOTS,
                None => first_covering(self.slots(), addr as int, 0) is None,
            },
    {
        let mut i: usize = 0;
        while i < self.slots.len()
            invariant
                i <= self.slots@.len(),
                self.wf(),
                first_covering(self.slots@, addr as int, 0) == first_covering(
                    self.slots@,
                    addr as int,
                    i as int,
                ),
            decreases self.slots.len() - i,
        {
            let s = self.slots[i];
            if addr >= s.start && addr - s.start < s.len {
                return Some(i);
            }
            i += 1;
        }
        None
    }

    /// Notes that a read at an address went wrong; whether it is in a watched
    /// mapping.
    pub fn fault(&mut self, addr: usize) -> (ours: bool)
        requires
            old(self).wf(),
        ensures
            final(self).wf(),
            match first_covering(old(self).slots(), addr as int, 0) {
                Some(i) => ours && final(self).slots() == old(self).slots().update(
                    i,
                    Slot { faulted: true, ..old(self).slots()[i] },
                ),
                None => !ours && final(self).slots() == old(self).slots(),
            },
    {
        match self.find(addr) {
            Some(i) => {
                let s = self.slots[i];
                self.slots.set(i, Slot { start: s.start, len: s.len, faulted: true });
                true
            },
            None => false,
        }
    }

    /// Whether a read in a watched mapping went wrong since it is watched.
    pub fn faulted(&self, i: usize) -> (b: bool)
        requires
            self.wf(),
            i < SLOTS,
        ensures
            b == self.slots()[i as int].faulted,
    {
        self.slots[i].faulted
    }
}

impl Default for Registry {
    fn default() -> (r: Registry)
        ensures
            r.wf(),
            r.slots() == Seq::new(SLOTS as nat, |i: int| free_slot()),
    {
        Registry::new()
    }
}

/// A slot that is given back can be given out again: as long as some slot is
/// free, a mapping can be watched.
pub proof fn freed_slots_are_found(s: Seq<Slot>, i: int)
    requires
        0 <= i < s.len(),
    ensures
        first_free(s.update(i, free_slot()), 0) is Some,
{
    lemma_first_free(s.update(i, free_slot()), 0, i);
}

proof fn lemma_first_free(s: Seq<Slot>, from: int, i: int)
    requires
        0 <= from <= i < s.len(),
        s[i].free(),
    ensures
        first_free(s, from) is Some,
    decreases i - from,
{
    if from < i && !s[from].free() {
        lemma_first_free(s, from + 1, i);
    }
}

} // verus!
