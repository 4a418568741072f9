//! The symbol string pool: interns strings into reference-counted handles and
//! deduplicates identical names session-wide.

use vstd::prelude::*;

verus! {

/// An interned handle into the string pool.  Equality is handle identity;
/// the pool's well-formedness guarantees that equal handles name identical
/// text and that distinct live handles name distinct text.
#[derive(Clone, Copy, Debug, PartialEq, Eq, Hash, Structural)]
pub struct SymbolStringPoolEntry {
    pub id: usize,
}

/// One pool entry: its text and its reference count.  A count of zero means
/// the entry has been destroyed; its slot is never resurrected, so a later
/// interning of the same text allocates a fresh handle.
#[derive(Clone, Debug)]
pub struct PoolSlot {
    pub text: String,
    pub count: u64,
}

/// The session-wide pool of interned symbol names.
#[derive(Debug)]
pub struct SymbolStringPool {
    pub slots: Vec<PoolSlot>,
}

/// A reference count after one more holder appears.  The count is pinned at
/// its maximum rather than wrapping; a count that large can never be released
/// back to zero, which errs on the side of keeping the entry alive.
pub open spec fn bumped(c: u64) -> u64 {
    if c < u64::MAX {
        (c + 1) as u64
    } else {
        c
    }
}

impl SymbolStringPool {
    /// A handle is live while its entry's reference count is positive.
    pub open spec fn live(self, e: SymbolStringPoolEntry) -> bool {
        e.id < self.slots@.len() && self.slots@[e.id as int].count > 0
    }

    /// The text a handle stands for.
    pub open spec fn text_of(self, e: SymbolStringPoolEntry) -> Seq<char>
        recommends
            e.id < self.slots@.len(),
    {
        self.slots@[e.id as int].text@
    }

    /// Some live entry already holds this text.
    pub open spec fn has_live_text(self, t: Seq<char>) -> bool {
        exists|i: int|
            0 <= i < self.slots@.len() && self.slots@[i].count > 0 && self.slots@[i].text@ == t
    }

    /// Distinct live entries hold distinct text, so handle equality and byte
    /// comparison agree on live handles.
    pub open spec fn wf(self) -> bool {
        forall|i: int, j: int|
            0 <= i < self.slots@.len() && 0 <= j < self.slots@.len() && i != j
                && self.slots@[i].count > 0 && self.slots@[j].count > 0
                ==> self.slots@[i].text@ != self.slots@[j].text@
    }

    pub fn new() -> (r: Self)
        ensures
            r.wf(),
            r.slots@.len() == 0,
    {
        SymbolStringPool { slots: Vec::new() }
    }

    /// Returns the unique live handle for `text`, creating the entry if
    /// absent and incrementing its reference count.  Idempotent on content:
    /// while an entry for the text is live, interning it again returns the
    /// same handle.
    pub fn intern(&mut self, text: &str) -> (e: SymbolStringPoolEntry)
        requires
            old(self).wf(),
        ensures
            final(self).wf(),
            final(self).live(e),
            final(self).text_of(e) == text@,
            // every live handle of the old pool is still live with its text kept
            forall|h: SymbolStringPoolEntry|
                old(self).live(h) ==> final(self).live(h) && final(self).text_of(h) == old(
                    self,
                ).text_of(h),
            // idempotence: a live entry holding the text keeps its identity
            forall|i: int|
                0 <= i < old(self).slots@.len() && old(self).slots@[i].count > 0
                    && old(self).slots@[i].text@ == text@ ==> e.id == i,
            if old(self).has_live_text(text@) {
                final(self).slots@.len() == old(self).slots@.len()
                    && e.id < old(self).slots@.len()
                    && final(self).slots@[e.id as int].count == bumped(
                    old(self).slots@[e.id as int].count,
                )
                    && forall|j: int|
                        0 <= j < final(self).slots@.len() && j != e.id ==> final(self).slots@[j]
                            == old(self).slots@[j]
            } else {
                final(self).slots@.len() == old(self).slots@.len() + 1
                    && e.id == old(self).slots@.len()
                    && final(self).slots@[e.id as int].count == 1
                    && forall|j: int|
                        0 <= j < old(self).slots@.len() ==> final(self).slots@[j] == old(
                            self,
                        ).slots@[j]
            },
    {
        let owned: String = text.to_owned();
        let n = self.slots.len();
        let mut i: usize = 0;
        while i < n
            invariant
                *self == *old(self),
                self.wf(),
                n == self.slots@.len(),
                i <= n,
                owned@ == text@,
                forall|k: int|
                    0 <= k < i ==> !(self.slots@[k].count > 0 && self.slots@[k].text@ == text@),
            decreases n - i,
        {
            if self.slots[i].count > 0 && self.slots[i].text == owned {
                let c = self.slots[i].count;
                let bump = if c < u64::MAX {
                    c + 1
                } else {
                    c
                };
                let t = self.slots[i].text.clone();
                self.slots.set(i, PoolSlot { text: t, count: bump });
                return SymbolStringPoolEntry { id: i };
            }
            i = i + 1;
        }
        self.slots.push(PoolSlot { text: owned, count: 1 });
        SymbolStringPoolEntry { id: n }
    }

    /// One more holder of a live handle: increments its reference count.
    pub fn retain(&mut self, e: &SymbolStringPoolEntry)
        requires
            old(self).live(*e),
        ensures
            final(self).slots@.len() == old(self).slots@.len(),
            final(self).slots@[e.id as int].text@ == old(self).slots@[e.id as int].text@,
            final(self).slots@[e.id as int].count == bumped(old(self).slots@[e.id as int].count),
            forall|j: int|
                0 <= j < final(self).slots@.len() && j != e.id ==> final(self).slots@[j] == old(
                    self,
                ).slots@[j],
            old(self).wf() ==> final(self).wf(),
    {
        let c = self.slots[e.id].count;
        let bump = if c < u64::MAX {
            c + 1
        } else {
            c
        };
        let t = self.slots[e.id].text.clone();
        self.slots.set(e.id, PoolSlot { text: t, count: bump });
    }

    /// One holder of a live handle is done with it: decrements its reference
    /// count.  When the count reaches zero the entry is destroyed and the
    /// handle goes dead.
    pub fn release(&mut self, e: SymbolStringPoolEntry)
        requires
            old(self).live(e),
        ensures
            final(self).slots@.len() == old(self).slots@.len(),
            final(self).slots@[e.id as int].text@ == old(self).slots@[e.id as int].text@,
            final(self).slots@[e.id as int].count == old(self).slots@[e.id as int].count - 1,
            forall|j: int|
                0 <= j < final(self).slots@.len() && j != e.id ==> final(self).slots@[j] == old(
                    self,
                ).slots@[j],
            old(self).wf() ==> final(self).wf(),
    {
        let c = self.slots[e.id].count;
        let t = self.slots[e.id].text.clone();
        self.slots.set(e.id, PoolSlot { text: t, count: c - 1 });
    }

    /// The text behind a live handle.
    pub fn get_string(&self, e: &SymbolStringPoolEntry) -> (r: String)
        requires
            self.live(*e),
        ensures
            r@ == self.text_of(*e),
    {
        self.slots[e.id].text.clone()
    }
}

impl SymbolStringPoolEntry {
    /// The text behind this handle, read from the session's pool.
    pub fn get_string(&self, pool: &SymbolStringPool) -> (r: String)
        requires
            pool.live(*self),
        ensures
            r@ == pool.text_of(*self),
    {
        pool.get_string(self)
    }
}

/// The symbols of a responsibility that pending lookups actually asked for.
#[derive(Clone, Debug)]
pub struct SymbolStringPoolEntries {
    pub entries: Vec<SymbolStringPoolEntry>,
}

impl SymbolStringPoolEntries {
    pub fn len(&self) -> (r: usize)
        ensures
            r == self.entries@.len(),
    {
        self.entries.len()
    }

    pub fn get(&self, i: usize) -> (r: SymbolStringPoolEntry)
        requires
            i < self.entries@.len(),
        ensures
            r == self.entries@[i as int],
    {
        self.entries[i]
    }
}

} // verus!
