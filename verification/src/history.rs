//! Bounded, newest-first record of the multiplier powers most recently paid
//! out, kept for the presentation layer. Inserting past the fixed capacity
//! evicts the oldest entry.

use vstd::prelude::*;

verus! {

/// What one insertion does to the recorded sequence: the new power goes to the
/// front, and the record is cut back to `cap` entries.
pub open spec fn pushed(h: Seq<u32>, p: u32, cap: nat) -> Seq<u32> {
    let grown = seq![p] + h;
    if grown.len() <= cap {
        grown
    } else {
        grown.take(cap as int)
    }
}

/// The recorded sequence after inserting every value of `vals`, oldest first.
pub open spec fn pushed_all(h: Seq<u32>, vals: Seq<u32>, cap: nat) -> Seq<u32>
    decreases vals.len(),
{
    if vals.len() == 0 {
        h
    } else {
        pushed_all(pushed(h, vals[0], cap), vals.skip(1), cap)
    }
}

pub struct MultiplierHistory {
    entries: Vec<u32>,
    capacity: usize,
}

impl View for MultiplierHistory {
    type V = Seq<u32>;

    closed spec fn view(&self) -> Seq<u32> {
        self.entries@
    }
}

impl MultiplierHistory {
    pub closed spec fn cap(&self) -> nat {
        self.capacity as nat
    }

    /// The record never holds more than its fixed capacity, and a capacity of
    /// zero is a configuration defect ruled out at construction.
    pub open spec fn wf(&self) -> bool {
        self.cap() >= 1 && self@.len() <= self.cap()
    }

    pub fn new(capacity: usize) -> (h: Self)
        requires
            capacity >= 1,
        ensures
            h.wf(),
            h.cap() == capacity,
            h@ == Seq::<u32>::empty(),
    {
        MultiplierHistory { entries: Vec::new(), capacity }
    }

    pub fn capacity(&self) -> (c: usize)
        ensures
            c == self.cap(),
    {
        self.capacity
    }

    pub fn len(&self) -> (n: usize)
        ensures
            n == self@.len(),
    {
        self.entries.len()
    }

    pub fn get(&self, i: usize) -> (p: u32)
        requires
            i < self@.len(),
        ensures
            p == self@[i as int],
    {
        self.entries[i]
    }

    /// Record a freshly applied power at the front, evicting the oldest entry
    /// once the record is full.
    pub fn push(&mut self, p: u32)
        requires
            old(self).wf(),
        ensures
            final(self).wf(),
            final(self).cap() == old(self).cap(),
            final(self)@ == pushed(old(self)@, p, old(self).cap()),
    {
        self.entries.insert(0, p);
        if self.entries.len() > self.capacity {
            self.entries.pop();
        }
        proof {
            let grown = seq![p] + old(self)@;
            assert(old(self)@.insert(0, p) =~= grown);
            if grown.len() > old(self).cap() {
                assert(grown.drop_last() =~= grown.take(old(self).cap() as int));
            }
        }
    }
}

/// History bound: after inserting any run of values into a well-formed record,
/// the newest `vals.len()` surviving entries are the inserted values newest
/// first, and entries older than the run are the prior record shifted back.
pub proof fn lemma_pushed_all(h: Seq<u32>, vals: Seq<u32>, cap: nat)
    requires
        cap >= 1,
        h.len() <= cap,
    ensures
        pushed_all(h, vals, cap).len() == vstd::math::min(
            h.len() + vals.len() as int,
            cap as int,
        ),
        forall|i: int|
            0 <= i < vals.len() && i < cap ==> pushed_all(h, vals, cap)[i] == vals[vals.len() - 1
                - i],
        forall|i: int|
            vals.len() <= i < cap && i < h.len() + vals.len() ==> pushed_all(h, vals, cap)[i]
                == h[i - vals.len()],
    decreases vals.len(),
{
    if vals.len() == 0 {
    } else {
        let h1 = pushed(h, vals[0], cap);
        let rest = vals.skip(1);
        lemma_pushed_all(h1, rest, cap);
        assert forall|i: int| 0 <= i < vals.len() && i < cap implies pushed_all(h, vals, cap)[i]
            == vals[vals.len() - 1 - i] by {
            if i < rest.len() {
                assert(rest[rest.len() - 1 - i] == vals[vals.len() - 1 - i]);
            } else {
                assert(pushed_all(h1, rest, cap)[i] == h1[i - rest.len()]);
                assert(h1[0] == vals[0]);
            }
        }
    }
}

/// History bound, as stated for a full run: once at least `cap` values have
/// been inserted, the record holds exactly `cap` entries and they are the last
/// `cap` inserted values in reverse-chronological order.
pub proof fn lemma_history_bound(h: Seq<u32>, vals: Seq<u32>, cap: nat)
    requires
        cap >= 1,
        h.len() <= cap,
        vals.len() >= cap,
    ensures
        pushed_all(h, vals, cap).len() == cap,
        forall|i: int| 0 <= i < cap ==> pushed_all(h, vals, cap)[i] == vals[vals.len() - 1 - i],
{
    lemma_pushed_all(h, vals, cap);
}

} // verus!
