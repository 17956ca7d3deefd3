//! Events that are due later, the earliest first.

use vstd::prelude::*;

verus! {

/// Events in the order of their times. Of two events of the same time the earlier
/// one to be added comes first.
pub struct Timers<T> {
    pending: Vec<(u64, T)>,
}

/// Whether events are in the order of their times.
pub open spec fn in_order<T>(pending: Seq<(u64, T)>) -> bool {
    forall|i: int, j: int|
        0 <= i < j < pending.len() ==> (#[trigger] pending[i]).0 <= (#[trigger] pending[j]).0
}

/// How many events, from the front on, have a time up to this one.
pub open spec fn due_count<T>(pending: Seq<(u64, T)>, time: u64) -> int
    decreases pending.len(),
{
    if pending.len() == 0 || pending[0].0 > time {
        0
    } else {
        1 + due_count(pending.skip(1), time)
    }
}

/// The events with one more at its place.
pub open spec fn added<T>(pending: Seq<(u64, T)>, when: u64, event: T) -> Seq<(u64, T)> {
    pending.insert(due_count(pending, when), (when, event))
}

/// The events without their times.
pub open spec fn events<T>(pending: Seq<(u64, T)>) -> Seq<T> {
    pending.map_values(|p: (u64, T)| p.1)
}

proof fn lemma_due_count<T>(pending: Seq<(u64, T)>, time: u64)
    ensures
        0 <= due_count(pending, time) <= pending.len(),
        forall|i: int| 0 <= i < due_count(pending, time) ==> (#[trigger] pending[i]).0 <= time,
        due_count(pending, time) < pending.len() ==> pending[due_count(pending, time)].0 > time,
    decreases pending.len(),
{
    if pending.len() > 0 && pending[0].0 <= time {
        let rest = pending.skip(1);
        lemma_due_count(rest, time);
        assert forall|i: int| 0 <= i < due_count(pending, time) implies (#[trigger] pending[i]).0
            <= time by {
            if i > 0 {
                assert(rest[i - 1] == pending[i]);
            }
        }
        let n = due_count(pending, time);
        if n < pending.len() {
            assert(rest[n - 1] == pending[n]);
        }
    }
}

proof fn lemma_due_count_is<T>(pending: Seq<(u64, T)>, time: u64, n: int)
    requires
        0 <= n <= pending.len(),
        forall|i: int| 0 <= i < n ==> (#[trigger] pending[i]).0 <= time,
        n < pending.len() ==> pending[n].0 > time,
    ensures
        due_count(pending, time) == n,
    decreases pending.len(),
{
    if n > 0 {
        assert(pending[0].0 <= time);
        let rest = pending.skip(1);
        assert forall|i: int| 0 <= i < n - 1 implies (#[trigger] rest[i]).0 <= time by {
            assert(rest[i] == pending[i + 1]);
        }
        lemma_due_count_is(rest, time, n - 1);
    }
}

/// The events in front are those that are due, and no other is: every event
/// behind them is later.
pub proof fn law_all_due_events_are_in_front<T>(pending: Seq<(u64, T)>, time: u64, i: int)
    requires
        in_order(pending),
        0 <= i < pending.len(),
    ensures
        i < due_count(pending, time) <==> pending[i].0 <= time,
{
    lemma_due_count(pending, time);
}

/// One more event keeps the order.
pub proof fn law_adding_keeps_the_order<T>(pending: Seq<(u64, T)>, when: u64, event: T)
    requires
        in_order(pending),
    ensures
        in_order(added(pending, when, event)),
        added(pending, when, event).len() == pending.len() + 1,
{
    lemma_due_count(pending, when);
    let k = due_count(pending, when);
    let after = added(pending, when, event);
    assert forall|i: int, j: int| 0 <= i < j < after.len() implies (#[trigger] after[i]).0 <= (
    #[trigger] after[j]).0 by {
        let x = if i < k {
            i
        } else {
            i - 1
        };
        let y = if j < k {
            j
        } else {
            j - 1
        };
        if i == k {
            assert(pending[k].0 <= pending[y].0);
        } else if j == k {
            assert(pending[x].0 <= when);
        } else {
            assert(pending[x].0 <= pending[y].0);
        }
    }
}

impl<T> Timers<T> {
    /// The events and their times.
    pub closed spec fn view(&self) -> Seq<(u64, T)> {
        self.pending@
    }

    /// No events.
    pub fn new() -> (timers: Timers<T>)
        ensures
            timers@ == Seq::<(u64, T)>::empty(),
            in_order(timers@),
    {
        Timers { pending: Vec::new() }
    }

    /// Adds an event, and says whether it is now the first.
    pub fn push(&mut self, when: u64, event: T) -> (first: bool)
        requires
            in_order(old(self)@),
        ensures
            final(self)@ == added(old(self)@, when, event),
            first == (old(self)@.len() == 0 || when < old(self)@[0].0),
            in_order(final(self)@),
    {
        let first: bool = self.pending.len() == 0 || when < self.pending[0].0;
        let ghost start = self.pending@;
        let mut i: usize = 0;
        while i < self.pending.len() && self.pending[i].0 <= when
            invariant
                i <= self.pending@.len(),
                self.pending@ == start,
                forall|j: int| 0 <= j < i ==> (#[trigger] start[j]).0 <= when,
            decreases self.pending@.len() - i,
        {
            i += 1;
        }
        proof {
            lemma_due_count_is(start, when, i as int);
            law_adding_keeps_the_order(start, when, event);
        }
        self.pending.insert(i, (when, event));
        first
    }

    /// Takes out the events that are due, in their order.
    pub fn due(&mut self, now: u64) -> (out: Vec<T>)
        requires
            in_order(old(self)@),
        ensures
            ({
                let n = due_count(old(self)@, now);
                &&& out@ == events(old(self)@.take(n))
                &&& final(self)@ == old(self)@.skip(n)
            }),
            in_order(final(self)@),
    {
        let ghost start = self.pending@;
        let mut out: Vec<T> = Vec::new();
        let ghost mut n: int = 0;
        proof {
            assert(out@ =~= events(start.take(0)));
            assert(start.skip(0) =~= start);
        }
        while self.pending.len() > 0 && self.pending[0].0 <= now
            invariant
                0 <= n <= start.len(),
                self.pending@ == start.skip(n),
                out@ == events(start.take(n)),
                forall|j: int| 0 <= j < n ==> (#[trigger] start[j]).0 <= now,
            decreases start.len() - n,
        {
            let (_, event) = self.pending.remove(0);
            proof {
                assert(start[n].0 <= now);
                assert(start.skip(n).remove(0) =~= start.skip(n + 1));
            }
            let ghost prior = out@;
            out.push(event);
            proof {
                assert(events(start.take(n + 1)) =~= prior.push(event));
                n = n + 1;
            }
        }
        proof {
            if n < start.len() {
                assert(start.skip(n)[0] == start[n]);
            }
            lemma_due_count_is(start, now, n);
            assert forall|i: int, j: int| 0 <= i < j < start.skip(n).len() implies (
            #[trigger] start.skip(n)[i]).0 <= (#[trigger] start.skip(n)[j]).0 by {
                assert(start[n + i].0 <= start[n + j].0);
            }
        }
        out
    }

    /// The time of the first event.
    pub fn next(&self) -> (first: Option<u64>)
        ensures
            first == if self@.len() == 0 {
                None
            } else {
                Some(self@[0].0)
            },
    {
        if self.pending.len() == 0 {
            None
        } else {
            Some(self.pending[0].0)
        }
    }
}

/// An event is added behind those that are due no later, and before those that are
/// due later; the others stay in their order.
pub proof fn law_an_event_is_added_behind_its_equals<T>(
    pending: Seq<(u64, T)>,
    when: u64,
    event: T,
    k: int,
)
    requires
        in_order(pending),
        0 <= k <= pending.len(),
        forall|i: int| 0 <= i < k ==> (#[trigger] pending[i]).0 <= when,
        forall|i: int| k <= i < pending.len() ==> (#[trigger] pending[i]).0 > when,
    ensures
        added(pending, when, event) == pending.take(k) + seq![(when, event)] + pending.skip(k),
{
    lemma_due_count_is(pending, when, k);
    assert(added(pending, when, event) =~= pending.take(k) + seq![(when, event)] + pending.skip(k));
}

/// The events that are due are those whose time has come, each of them and in their
/// order; the others are left.
pub proof fn law_due_events_are_those_whose_time_has_come<T>(
    pending: Seq<(u64, T)>,
    now: u64,
    k: int,
)
    requires
        in_order(pending),
        0 <= k <= pending.len(),
        forall|i: int| 0 <= i < k ==> (#[trigger] pending[i]).0 <= now,
        forall|i: int| k <= i < pending.len() ==> (#[trigger] pending[i]).0 > now,
    ensures
        due_count(pending, now) == k,
        events(pending.take(k)).len() == k,
        forall|i: int| 0 <= i < k ==> #[trigger] events(pending.take(k))[i] == pending[i].1,
{
    lemma_due_count_is(pending, now, k);
}

} // verus!
