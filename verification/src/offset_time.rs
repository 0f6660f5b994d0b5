//! A delta-encoded time axis. Instants are stored as millisecond offsets from
//! the previous instant, with the most recent instant kept whole; sparse
//! checkpoints of (instant, length) samples enable approximate age-based
//! pruning in logarithmic time, at the price of the pruned boundary lagging
//! the true age threshold by up to one checkpoint interval.

use vstd::prelude::*;

verus! {

/// How long ago `instant` lies, seen from `current`; an instant not in the
/// past has age zero. Instants are monotonic millisecond counts.
pub open spec fn age_of(current: u64, instant: u64) -> int {
    if current >= instant {
        current - instant
    } else {
        0
    }
}

/// The number of leading checkpoints whose age exceeds `max_age`. With
/// instants in ascending order these are exactly the checkpoints older than
/// `max_age`.
pub open spec fn count_expired(cps: Seq<(u64, usize)>, now: u64, max_age: u64) -> int
    decreases cps.len(),
{
    if cps.len() == 0 {
        0
    } else if age_of(now, cps[0].0) > max_age {
        1 + count_expired(cps.drop_first(), now, max_age)
    } else {
        0
    }
}

/// With instants ascending, `count_expired` splits the checkpoints into the
/// expired prefix and the fresh suffix.
pub proof fn lemma_count_expired_split(cps: Seq<(u64, usize)>, now: u64, max_age: u64)
    requires
        forall|i: int, j: int| 0 <= i < j < cps.len() ==> (#[trigger] cps[i]).0 <= (#[trigger] cps[j]).0,
    ensures
        0 <= count_expired(cps, now, max_age) <= cps.len(),
        forall|k: int|
            0 <= k < count_expired(cps, now, max_age) ==> age_of(now, (#[trigger] cps[k]).0)
                > max_age,
        forall|k: int|
            count_expired(cps, now, max_age) <= k < cps.len() ==> age_of(now, (#[trigger] cps[k]).0)
                <= max_age,
    decreases cps.len(),
{
    if cps.len() > 0 {
        let rest = cps.drop_first();
        lemma_count_expired_split(rest, now, max_age);
        if age_of(now, cps[0].0) > max_age {
            assert forall|k: int| 1 <= k < count_expired(cps, now, max_age) implies age_of(
                now,
                (#[trigger] cps[k]).0,
            ) > max_age by {
                assert(age_of(now, rest[k - 1].0) > max_age);
            }
            assert forall|k: int| count_expired(cps, now, max_age) <= k < cps.len() implies age_of(
                now,
                (#[trigger] cps[k]).0,
            ) <= max_age by {
                assert(age_of(now, rest[k - 1].0) <= max_age);
            }
        } else {
            assert forall|k: int| 0 <= k < cps.len() implies age_of(now, (#[trigger] cps[k]).0)
                <= max_age by {
                if k > 0 {
                    assert(cps[0].0 <= cps[k].0);
                }
            }
        }
    }
}

/// Time stored as a list of millisecond offsets between consecutive added
/// instants, with sparse checkpoints for approximate pruning by age.
pub struct OffsetTimeList {
    time_offsets: Vec<u32>,
    checkpoints: Vec<(u64, usize)>,
    current_time: Option<u64>,
}

impl Default for OffsetTimeList {
    /// An empty axis: nothing added, no checkpoints.
    fn default() -> (r: Self)
        ensures
            r.wf(),
            r.spec_offsets() == Seq::<u32>::empty(),
            r.spec_checkpoints() == Seq::<(u64, usize)>::empty(),
            r.spec_current() is None,
    {
        OffsetTimeList { time_offsets: Vec::new(), checkpoints: Vec::new(), current_time: None }
    }
}

impl OffsetTimeList {
    /// The stored millisecond deltas, oldest first.
    pub closed spec fn spec_offsets(self) -> Seq<u32> {
        self.time_offsets@
    }

    /// The recorded checkpoints: (instant, length of the offsets at the time
    /// the checkpoint was taken), oldest first.
    pub closed spec fn spec_checkpoints(self) -> Seq<(u64, usize)> {
        self.checkpoints@
    }

    /// The most recently added instant, or `None` if nothing has been added.
    pub closed spec fn spec_current(self) -> Option<u64> {
        self.current_time
    }

    /// The axis invariant: checkpoint instants are ascending and never ahead
    /// of the current instant, and without a current instant the axis is
    /// empty.
    pub closed spec fn wf(self) -> bool {
        &&& forall|i: int, j: int|
            0 <= i < j < self.checkpoints@.len() ==> (#[trigger] self.checkpoints@[i]).0
                <= (#[trigger] self.checkpoints@[j]).0
        &&& match self.current_time {
            Some(t) => forall|i: int|
                0 <= i < self.checkpoints@.len() ==> (#[trigger] self.checkpoints@[i]).0 <= t,
            None => self.checkpoints@.len() == 0 && self.time_offsets@.len() == 0,
        }
    }

    /// Create an axis with pre-allocated time storage.
    pub fn with_capacity(capacity: usize) -> (r: Self)
        ensures
            r.wf(),
            r.spec_offsets() == Seq::<u32>::empty(),
            r.spec_checkpoints() == Seq::<(u64, usize)>::empty(),
            r.spec_current() is None,
    {
        Self::with_both_capacity(capacity, 0)
    }

    /// Create an axis with both time storage and checkpoint capacity
    /// pre-allocated.
    pub fn with_both_capacity(time_capacity: usize, checkpoint_capacity: usize) -> (r: Self)
        ensures
            r.wf(),
            r.spec_offsets() == Seq::<u32>::empty(),
            r.spec_checkpoints() == Seq::<(u64, usize)>::empty(),
            r.spec_current() is None,
    {
        OffsetTimeList {
            time_offsets: Vec::with_capacity(time_capacity),
            checkpoints: Vec::with_capacity(checkpoint_capacity),
            current_time: None,
        }
    }

    /// Add an instant (a monotonic millisecond count, at or after the
    /// previously added instant) and return the 1-based logical index of the
    /// new entry. The very first instant stores no delta and the call returns
    /// index 1; afterwards the delta to the previous instant is stored,
    /// truncated to 32 bits of milliseconds.
    pub fn add(&mut self, time: u64) -> (r: usize)
        requires
            old(self).wf(),
            old(self).spec_current() matches Some(t) ==> time >= t,
            old(self).spec_offsets().len() < usize::MAX - 1,
        ensures
            final(self).wf(),
            final(self).spec_current() == Some(time),
            final(self).spec_checkpoints() == old(self).spec_checkpoints(),
            match old(self).spec_current() {
                None => final(self).spec_offsets() == old(self).spec_offsets() && r == 1,
                Some(t) => final(self).spec_offsets() == old(self).spec_offsets().push(
                    (((time - t) % 0x1_0000_0000) as u32),
                ) && r == final(self).spec_offsets().len() + 1,
            },
    {
        match self.current_time {
            Some(current) => {
                let delta = time - current;
                let offset = (delta % 0x1_0000_0000u64) as u32;
                self.current_time = Some(time);
                self.time_offsets.push(offset);
                // The head instant is stored whole, apart from the offsets,
                // so the 1-based index of the newest entry is one past the
                // offset count.
                self.time_offsets.len() + 1
            },
            None => {
                self.current_time = Some(time);
                1
            },
        }
    }

    /// Record a checkpoint: the current instant together with the current
    /// length of the stored offsets. A no-op if nothing has been added yet.
    pub fn checkpoint(&mut self)
        requires
            old(self).wf(),
        ensures
            final(self).wf(),
            final(self).spec_current() == old(self).spec_current(),
            final(self).spec_offsets() == old(self).spec_offsets(),
            match old(self).spec_current() {
                None => final(self).spec_checkpoints() == old(self).spec_checkpoints(),
                Some(t) => final(self).spec_checkpoints() == old(self).spec_checkpoints().push(
                    (t, (old(self).spec_offsets().len() as usize)),
                ),
            },
    {
        match self.current_time {
            Some(current) => {
                self.checkpoints.push((current, self.time_offsets.len()));
            },
            None => {},
        }
    }

    /// Approximately prune entries older than `max_age` milliseconds,
    /// relative to the current instant, and return the new length.
    ///
    /// Returns `None`, leaving the axis unchanged, if nothing has been added
    /// or if the expired checkpoints (clamped so that the newest checkpoint
    /// is always kept) do not reach past the first checkpoint. Otherwise the
    /// expired checkpoints are drained and the last drained one decides: if
    /// its stored length still falls inside the offsets, the offsets are
    /// truncated to begin there and the new length is returned; if it is
    /// stale, the axis is cleared entirely and `Some(0)` is returned.
    #[verifier::loop_isolation(false)]
    pub fn prune(&mut self, max_age: u64) -> (r: Option<usize>)
        requires
            old(self).wf(),
        ensures
            final(self).wf(),
            old(self).spec_current() is None ==> r is None && *final(self) == *old(self),
            old(self).spec_current() matches Some(now) ==> ({
                let offs = old(self).spec_offsets();
                let cps = old(self).spec_checkpoints();
                let ce = count_expired(cps, now, max_age);
                let b = if ce < cps.len() {
                    ce
                } else {
                    cps.len() - 1
                };
                &&& (cps.len() == 0 || b == 0) ==> r is None && *final(self) == *old(self)
                &&& cps.len() > 0 && b > 0 ==> ({
                    let cut = cps[b - 1].1 as int;
                    &&& cut < offs.len() ==> {
                        &&& final(self).spec_offsets() == offs.subrange(cut, offs.len() as int)
                        &&& final(self).spec_checkpoints() == cps.subrange(b, cps.len() as int)
                        &&& final(self).spec_current() == Some(now)
                        &&& r == Some(((offs.len() - cut) as usize))
                    }
                    &&& cut >= offs.len() ==> {
                        &&& final(self).spec_offsets().len() == 0
                        &&& final(self).spec_checkpoints().len() == 0
                        &&& final(self).spec_current() is None
                        &&& r == Some(0usize)
                    }
                })
            }),
    {
        let current = match self.current_time {
            Some(t) => t,
            None => {
                return None;
            },
        };
        let ghost cps = self.checkpoints@;
        let ghost ce = count_expired(cps, current, max_age);
        proof {
            lemma_count_expired_split(cps, current, max_age);
        }
        let mut lo: usize = 0;
        let mut hi: usize = self.checkpoints.len();
        while lo < hi
            invariant
                lo <= hi <= self.checkpoints@.len(),
                forall|k: int| 0 <= k < lo ==> age_of(current, (#[trigger] cps[k]).0) > max_age,
                forall|k: int|
                    hi <= k < cps.len() ==> age_of(current, (#[trigger] cps[k]).0) <= max_age,
            decreases hi - lo,
        {
            let mid = lo + (hi - lo) / 2;
            let instant = self.checkpoints[mid].0;
            let age = if current >= instant {
                current - instant
            } else {
                0
            };
            if age > max_age {
                proof {
                    assert forall|k: int| 0 <= k < mid + 1 implies age_of(
                        current,
                        (#[trigger] cps[k]).0,
                    ) > max_age by {
                        if k < mid {
                            assert(cps[k].0 <= cps[mid as int].0);
                        }
                    }
                }
                lo = mid + 1;
            } else {
                proof {
                    assert forall|k: int| mid <= k < cps.len() implies age_of(
                        current,
                        (#[trigger] cps[k]).0,
                    ) <= max_age by {
                        if k > mid {
                            assert(cps[mid as int].0 <= cps[k].0);
                        }
                    }
                }
                hi = mid;
            }
        }
        proof {
            if lo < ce {
                assert(age_of(current, cps[lo as int].0) > max_age);
            }
            if ce < lo {
                assert(age_of(current, cps[ce].0) > max_age);
            }
            assert(lo == ce);
        }
        if lo == 0 {
            return None;
        }
        let b = if lo < self.checkpoints.len() {
            lo
        } else {
            self.checkpoints.len() - 1
        };
        if b == 0 {
            return None;
        }
        let cut = self.checkpoints[b - 1].1;
        let kept = self.checkpoints.split_off(b);
        self.checkpoints = kept;
        if cut < self.time_offsets.len() {
            let kept_offsets = self.time_offsets.split_off(cut);
            self.time_offsets = kept_offsets;
            Some(self.time_offsets.len())
        } else {
            self.time_offsets.clear();
            self.checkpoints.clear();
            self.current_time = None;
            Some(0)
        }
    }

    /// Return the most recently added instant, or `None` if nothing has been
    /// added.
    pub fn current_time(&self) -> (r: Option<u64>)
        ensures
            r == self.spec_current(),
    {
        self.current_time
    }

    /// Return a copy of the stored millisecond deltas, oldest first.
    pub fn time_offsets(&self) -> (r: Vec<u32>)
        ensures
            r@ == self.spec_offsets(),
    {
        let mut r: Vec<u32> = Vec::new();
        let mut k: usize = 0;
        while k < self.time_offsets.len()
            invariant
                k <= self.time_offsets@.len(),
                r@ == self.time_offsets@.take(k as int),
            decreases self.time_offsets@.len() - k,
        {
            r.push(self.time_offsets[k]);
            k = k + 1;
            proof {
                assert(r@ =~= self.time_offsets@.take(k as int));
            }
        }
        proof {
            assert(r@ =~= self.spec_offsets());
        }
        r
    }
}

} // verus!
