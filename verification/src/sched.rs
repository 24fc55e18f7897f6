//! A deadline-ordered work list and the decisions of the worker loop that
//! drains it. Time is a tick count; what a task actually runs is an opaque
//! handle its owner maps back to the work itself.

use vstd::prelude::*;

verus! {

broadcast use vstd::seq_lib::group_seq_properties;

/// One scheduled unit of work: the tick at which it falls due, and an
/// opaque handle naming what to run then.
#[derive(Clone, Copy, PartialEq, Eq, Structural, Debug)]
pub struct Work {
    pub when: u64,
    pub task: u64,
}

impl Work {
    /// How many ticks from `now` until this work falls due; zero once due.
    pub fn until(&self, now: u64) -> (r: u64)
        ensures
            self.when > now ==> r == self.when - now,
            self.when <= now ==> r == 0,
    {
        if self.when > now {
            self.when - now
        } else {
            0
        }
    }
}

/// The earliest due tick among scheduled work.
pub open spec fn spec_min_when(s: Seq<Work>) -> u64
    recommends
        s.len() > 0,
    decreases s.len(),
{
    if s.len() <= 1 {
        s[0].when
    } else {
        let m = spec_min_when(s.skip(1));
        if s[0].when <= m {
            s[0].when
        } else {
            m
        }
    }
}

/// The earliest due tick is attained and bounds every entry.
pub proof fn lemma_min_when(s: Seq<Work>)
    requires
        s.len() > 0,
    ensures
        exists|i: int| 0 <= i < s.len() && s[i].when == spec_min_when(s),
        forall|j: int| 0 <= j < s.len() ==> s[j].when >= spec_min_when(s),
    decreases s.len(),
{
    if s.len() <= 1 {
        assert(s[0].when == spec_min_when(s));
    } else {
        lemma_min_when(s.skip(1));
        let m = spec_min_when(s.skip(1));
        let w = choose|i: int| 0 <= i < s.skip(1).len() && s.skip(1)[i].when == m;
        if s[0].when <= m {
            assert(s[0].when == spec_min_when(s));
        } else {
            assert(s[w + 1].when == spec_min_when(s));
        }
        assert forall|j: int| 0 <= j < s.len() implies s[j].when >= spec_min_when(s) by {
            if j > 0 {
                assert(s.skip(1)[j - 1].when >= m);
            }
        }
    }
}

/// The pending work, a bag ordered only by due tick when drained.
pub struct WorkList {
    items: Vec<Work>,
}

impl View for WorkList {
    type V = Seq<Work>;

    closed spec fn view(&self) -> Seq<Work> {
        self.items@
    }
}

impl WorkList {
    /// An empty list.
    pub fn new() -> (r: WorkList)
        ensures
            r@ == Seq::<Work>::empty(),
    {
        let r = WorkList { items: Vec::new() };
        proof {
            assert(r@ =~= Seq::<Work>::empty());
        }
        r
    }

    /// Schedules one unit of work.
    pub fn push(&mut self, work: Work)
        ensures
            final(self)@ == old(self)@.push(work),
    {
        self.items.push(work);
    }

    /// Takes out a soonest-due unit of work: one whose due tick is minimal
    /// over everything pending; nothing when nothing is pending.
    pub fn pop(&mut self) -> (r: Option<Work>)
        ensures
            old(self)@.len() == 0 ==> r is None && final(self)@ == old(self)@,
            old(self)@.len() > 0 ==> (r matches Some(w) && w.when == spec_min_when(old(self)@)
                && exists|i: int|
                0 <= i < old(self)@.len() && old(self)@[i] == w && final(self)@ == old(
                    self,
                )@.remove(i)),
    {
        let n = self.items.len();
        if n == 0 {
            return None;
        }
        proof {
            lemma_min_when(self@);
        }
        let mut best: usize = 0;
        let mut i: usize = 1;
        while i < n
            invariant
                self@ == old(self)@,
                n == self@.len(),
                best < i <= n,
                forall|j: int| 0 <= j < i ==> self@[j].when >= self@[best as int].when,
            decreases n - i,
        {
            if self.items[i].when < self.items[best].when {
                best = i;
            }
            i = i + 1;
        }
        proof {
            lemma_min_when(self@);
            let k = choose|k: int| 0 <= k < self@.len() && self@[k].when == spec_min_when(self@);
            assert(self@[best as int].when <= self@[k].when);
            assert(self@[best as int].when >= spec_min_when(self@));
        }
        let w = self.items[best];
        self.items.remove(best);
        Some(w)
    }

    /// How many units of work are pending.
    pub fn len(&self) -> (r: usize)
        ensures
            r == self@.len(),
    {
        self.items.len()
    }

    /// Ticks from `now` until the soonest-due pending work falls due: zero
    /// when something is already due, the largest tick count when nothing
    /// is pending at all.
    pub fn soonest(&self, now: u64) -> (r: u64)
        ensures
            self@.len() == 0 ==> r == u64::MAX,
            self@.len() > 0 && spec_min_when(self@) > now ==> r == spec_min_when(self@) - now,
            self@.len() > 0 && spec_min_when(self@) <= now ==> r == 0,
    {
        let n = self.items.len();
        if n == 0 {
            return u64::MAX;
        }
        let mut best: u64 = self.items[0].when;
        let mut i: usize = 1;
        while i < n
            invariant
                n == self@.len() > 0,
                1 <= i <= n,
                best == spec_min_when(self@.take(i as int)),
            decreases n - i,
        {
            proof {
                lemma_min_take_step(self@, i as int);
            }
            let w = self.items[i].when;
            if w < best {
                best = w;
            }
            i = i + 1;
        }
        proof {
            assert(self@.take(n as int) =~= self@);
        }
        if best > now {
            best - now
        } else {
            0
        }
    }

    /// Whether some pending work is already due at `now`.
    pub fn work_available(&self, now: u64) -> (r: bool)
        ensures
            r == (self@.len() > 0 && spec_min_when(self@) <= now),
    {
        let s = self.soonest(now);
        let has = self.len() > 0;
        has && s == 0
    }
}

/// Extending a prefix by one entry refines its minimum.
proof fn lemma_min_take_step(s: Seq<Work>, i: int)
    requires
        1 <= i < s.len(),
    ensures
        spec_min_when(s.take(i + 1)) == if s[i].when < spec_min_when(s.take(i)) {
            s[i].when
        } else {
            spec_min_when(s.take(i))
        },
    decreases i,
{
    if i == 1 {
        assert(s.take(2).skip(1) =~= seq![s[1]]);
        assert(s.take(2)[0] == s[0]);
        assert(s.take(1)[0] == s[0]);
        assert(seq![s[1]][0] == s[1]);
        assert(spec_min_when(seq![s[1]]) == s[1].when);
    } else {
        lemma_min_take_step(s.skip(1), i - 1);
        assert(s.take(i + 1).skip(1) =~= s.skip(1).take(i));
        assert(s.take(i).skip(1) =~= s.skip(1).take(i - 1));
        assert(s.skip(1)[i - 1] == s[i]);
        assert(s.take(i + 1)[0] == s[0]);
        assert(s.take(i)[0] == s[0]);
        assert(s.take(i + 1).len() == i + 1);
        assert(s.take(i).len() == i);
    }
}

/// The worker loop's waiting rule: a worker sleeps while no work is due
/// and it is not yet time to wind down — or work is still pending even
/// though a stop was requested.
pub fn should_wait(stop: bool, pending: usize, available: bool) -> (r: bool)
    ensures
        r == (!available && (!stop || pending > 0)),
{
    !available && (!stop || stop && pending > 0)
}

/// The worker loop's exit rule: a worker leaves once a stop was requested
/// and nothing is pending.
pub fn should_exit(stop: bool, pending: usize) -> (r: bool)
    ensures
        r == (stop && pending == 0),
{
    pending == 0 && stop
}

} // verus!
