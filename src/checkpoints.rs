//! Append-only, time-ordered series of `(timestamp, value)` snapshots with
//! binary-searchable point-in-time lookup.

use vstd::prelude::*;

verus! {

/// A value recorded at a point in time.
#[derive(Clone, Copy, Debug, PartialEq, Eq)]
pub struct Checkpoint {
    pub timestamp: u64,
    pub value: u128,
}

/// The value effective at `t`: that of the last entry of `s` whose timestamp
/// is at most `t`, or 0 when there is none.
pub open spec fn lookup(s: Seq<Checkpoint>, t: u64) -> u128
    decreases s.len(),
{
    if s.len() == 0 {
        0
    } else if s.last().timestamp <= t {
        s.last().value
    } else {
        lookup(s.drop_last(), t)
    }
}

/// The value of the last entry, or 0 for an empty series.
pub open spec fn latest_of(s: Seq<Checkpoint>) -> u128 {
    if s.len() == 0 {
        0
    } else {
        s.last().value
    }
}

/// The timestamp of the last entry, or 0 for an empty series.
pub open spec fn last_time_of(s: Seq<Checkpoint>) -> u64 {
    if s.len() == 0 {
        0
    } else {
        s.last().timestamp
    }
}

/// Timestamps strictly increase along the series.
pub open spec fn strictly_ordered(s: Seq<Checkpoint>) -> bool {
    forall|i: int, j: int| 0 <= i < j < s.len() ==> s[i].timestamp < s[j].timestamp
}

/// Timestamps never decrease along the sequence.
pub open spec fn non_decreasing(s: Seq<Checkpoint>) -> bool {
    forall|i: int, j: int| 0 <= i < j < s.len() ==> s[i].timestamp <= s[j].timestamp
}

/// A write at time `t` keeps the series in time order.
pub open spec fn in_order(s: Seq<Checkpoint>, t: u64) -> bool {
    s.len() == 0 || s.last().timestamp <= t
}

/// The series after recording `c`: a write at the last entry's timestamp
/// overwrites that entry, any later one is appended.
pub open spec fn pushed(s: Seq<Checkpoint>, c: Checkpoint) -> Seq<Checkpoint> {
    if s.len() > 0 && s.last().timestamp == c.timestamp {
        s.update(s.len() - 1, c)
    } else {
        s.push(c)
    }
}

/// The series built by recording each write of `ps` in turn on an empty one.
pub open spec fn replay(ps: Seq<Checkpoint>) -> Seq<Checkpoint>
    decreases ps.len(),
{
    if ps.len() == 0 {
        Seq::empty()
    } else {
        pushed(replay(ps.drop_last()), ps.last())
    }
}

/// Where the entries at or before `t` end in an ordered series, the lookup
/// answers with the entry just before that point.
proof fn lemma_lookup_split(s: Seq<Checkpoint>, t: u64, k: int)
    requires
        0 <= k <= s.len(),
        forall|i: int| 0 <= i < k ==> s[i].timestamp <= t,
        forall|i: int| k <= i < s.len() ==> s[i].timestamp > t,
    ensures
        lookup(s, t) == if k == 0 {
            0
        } else {
            s[k - 1].value
        },
    decreases s.len(),
{
    if s.len() > 0 && k < s.len() {
        let d = s.drop_last();
        assert forall|i: int| k <= i < d.len() implies d[i].timestamp > t by {
            assert(d[i] == s[i]);
        }
        lemma_lookup_split(d, t, k);
    }
}

/// Recording a run of writes whose timestamps never decrease yields an ordered
/// series in which every lookup at `t` answers with the value of the last write
/// at or before `t`, and with 0 at any time before the first write.
pub proof fn lemma_lookup_after_writes(ps: Seq<Checkpoint>, t: u64)
    requires
        non_decreasing(ps),
    ensures
        strictly_ordered(replay(ps)),
        ps.len() > 0 ==> replay(ps).len() > 0 && replay(ps).last().timestamp == ps.last().timestamp,
        lookup(replay(ps), t) == lookup(ps, t),
        (forall|i: int| 0 <= i < ps.len() ==> ps[i].timestamp > t) ==> lookup(replay(ps), t) == 0,
    decreases ps.len(),
{
    if ps.len() > 0 {
        let init = ps.drop_last();
        let c = ps.last();
        assert(non_decreasing(init));
        lemma_lookup_after_writes(init, t);
        let s = replay(init);
        if init.len() > 0 {
            assert(init.last() == ps[ps.len() - 2]);
        }
        if s.len() > 0 && s.last().timestamp == c.timestamp {
            let u = s.update(s.len() - 1, c);
            assert(u.drop_last() =~= s.drop_last());
        } else {
            assert(s.push(c).drop_last() =~= s);
        }
        if forall|i: int| 0 <= i < ps.len() ==> ps[i].timestamp > t {
            assert(c.timestamp > t);
            assert forall|i: int| 0 <= i < init.len() implies init[i].timestamp > t by {
                assert(init[i] == ps[i]);
            }
        }
    }
}

/// Before the first entry of a series, a lookup answers 0.
pub proof fn lemma_lookup_before_first(s: Seq<Checkpoint>, t: u64)
    requires
        forall|i: int| 0 <= i < s.len() ==> s[i].timestamp > t,
    ensures
        lookup(s, t) == 0,
{
    lemma_lookup_split(s, t, 0);
}

/// A time-ordered history of values.
pub struct Checkpoints {
    entries: Vec<Checkpoint>,
}

impl View for Checkpoints {
    type V = Seq<Checkpoint>;

    closed spec fn view(&self) -> Seq<Checkpoint> {
        self.entries@
    }
}

impl Checkpoints {
    /// Entries are kept in strictly increasing time order.
    pub open spec fn wf(&self) -> bool {
        strictly_ordered(self@)
    }

    /// An empty history: value 0 at all times.
    pub fn new() -> (r: Checkpoints)
        ensures
            r@ == Seq::<Checkpoint>::empty(),
            r.wf(),
    {
        Checkpoints { entries: Vec::new() }
    }

    /// The number of entries.
    pub fn len(&self) -> (r: usize)
        ensures
            r == self@.len(),
    {
        self.entries.len()
    }

    /// The entry at position `i`.
    pub fn checkpoint(&self, i: usize) -> (r: Checkpoint)
        requires
            i < self@.len(),
        ensures
            r == self@[i as int],
    {
        self.entries[i]
    }

    /// The value of the last entry, or 0 when there is none.
    pub fn latest(&self) -> (r: u128)
        ensures
            r == latest_of(self@),
    {
        let n = self.entries.len();
        if n == 0 {
            0
        } else {
            self.entries[n - 1].value
        }
    }

    /// The timestamp of the last entry, or 0 when there is none.
    pub fn last_time(&self) -> (r: u64)
        ensures
            r == last_time_of(self@),
    {
        let n = self.entries.len();
        if n == 0 {
            0
        } else {
            self.entries[n - 1].timestamp
        }
    }

    /// Records `value` at `timestamp`, overwriting the last entry when it has
    /// the same timestamp.
    pub fn push(&mut self, timestamp: u64, value: u128)
        requires
            old(self).wf(),
            in_order(old(self)@, timestamp),
        ensures
            final(self).wf(),
            final(self)@ == pushed(old(self)@, Checkpoint { timestamp, value }),
    {
        let c = Checkpoint { timestamp, value };
        let n = self.entries.len();
        if n > 0 && self.entries[n - 1].timestamp == timestamp {
            self.entries.set(n - 1, c);
        } else {
            self.entries.push(c);
        }
    }

    /// The value effective at `timestamp`: that of the last entry recorded at
    /// or before it, or 0. The most recent entry is tried first, then the
    /// older ones are searched by bisection.
    pub fn upper_lookup_recent(&self, timestamp: u64) -> (r: u128)
        requires
            self.wf(),
        ensures
            r == lookup(self@, timestamp),
    {
        let s = Ghost(self@);
        let n = self.entries.len();
        if n == 0 {
            return 0;
        }
        if self.entries[n - 1].timestamp <= timestamp {
            proof {
                lemma_lookup_split(s@, timestamp, n as int);
            }
            return self.entries[n - 1].value;
        }
        let mut low: usize = 0;
        let mut high: usize = n - 1;
        while low < high
            invariant
                s@ == self@,
                self.wf(),
                n == s@.len(),
                low <= high < n,
                forall|i: int| 0 <= i < low ==> s@[i].timestamp <= timestamp,
                forall|i: int| high <= i < n ==> s@[i].timestamp > timestamp,
            decreases high - low,
        {
            let mid = low + (high - low) / 2;
            if self.entries[mid].timestamp > timestamp {
                high = mid;
            } else {
                low = mid + 1;
            }
        }
        proof {
            lemma_lookup_split(s@, timestamp, low as int);
        }
        if low == 0 {
            0
        } else {
            self.entries[low - 1].value
        }
    }
}

} // verus!
