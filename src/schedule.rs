use vstd::prelude::*;
use crate::event::{Event, EventView, event_lt, key_lt, lemma_key_order};
use crate::occurrence::{LATEST_NOW, calc_next_birthday, next_after_spec};

verus! {

/// The values of a sequence of events.
pub open spec fn views(v: Seq<Event>) -> Seq<EventView> {
    v.map_values(|e: Event| e@)
}

/// Every earlier event comes strictly before every later one in schedule order.
pub open spec fn sorted_events(s: Seq<EventView>) -> bool {
    forall|i: int, j: int| 0 <= i < j < s.len() ==> key_lt(#[trigger] s[i], #[trigger] s[j])
}

/// No subject occurs twice.
pub open spec fn unique_subjects(s: Seq<EventView>) -> bool {
    forall|i: int, j: int|
        0 <= i < s.len() && 0 <= j < s.len() && i != j ==> (#[trigger] s[i]).subject
            != (#[trigger] s[j]).subject
}

/// What a schedule holds: events in schedule order, one per subject.
pub open spec fn well_ordered(s: Seq<EventView>) -> bool {
    sorted_events(s) && unique_subjects(s)
}

/// Some event of `s` belongs to `subject`.
pub open spec fn has_subject(s: Seq<EventView>, subject: Seq<char>) -> bool {
    exists|i: int| 0 <= i < s.len() && (#[trigger] s[i]).subject == subject
}

/// The event of `s` that belongs to `subject`, if any.
pub open spec fn entry_for(s: Seq<EventView>, subject: Seq<char>) -> Option<EventView> {
    if has_subject(s, subject) {
        Some(s[choose|i: int| 0 <= i < s.len() && (#[trigger] s[i]).subject == subject])
    } else {
        None
    }
}

/// The first `k` events of `s` are exactly those due at `now`.
pub open spec fn due_split(s: Seq<EventView>, now: int, k: int) -> bool {
    &&& 0 <= k <= s.len()
    &&& forall|i: int| 0 <= i < k ==> (#[trigger] s[i]).at <= now
    &&& k < s.len() ==> s[k].at > now
}

/// `after` holds `e` and the events of `before` of other subjects, and
/// nothing else.
pub open spec fn inserted(before: Seq<EventView>, e: EventView, after: Seq<EventView>) -> bool {
    forall|x: EventView| #[trigger] after.contains(x) <==> (x == e || (before.contains(x) && x.subject != e.subject))
}

/// `after` holds the events of `before` of subjects other than `subject`,
/// and nothing else.
pub open spec fn removed(before: Seq<EventView>, subject: Seq<char>, after: Seq<EventView>) -> bool {
    forall|x: EventView| #[trigger] after.contains(x) <==> (before.contains(x) && x.subject != subject)
}

/// A fired event as it is put back: the same event at its next occurrence
/// after `now`.
pub open spec fn rescheduled(e: EventView, now: int) -> EventView {
    EventView { at: next_after_spec(e.at, now), ..e }
}

/// In a well-ordered sequence the event found for a subject is the one at
/// the index that carries it.
pub proof fn lemma_entry_at(s: Seq<EventView>, i: int)
    requires
        unique_subjects(s),
        0 <= i < s.len(),
    ensures
        entry_for(s, s[i].subject) == Some(s[i]),
{
    assert(has_subject(s, s[i].subject));
}

/// A well-ordered sequence holds each subject's event at most once.
pub proof fn lemma_entry_contains(s: Seq<EventView>, x: EventView)
    requires
        unique_subjects(s),
        s.contains(x),
    ensures
        entry_for(s, x.subject) == Some(x),
{
    let i = choose|i: int| 0 <= i < s.len() && s[i] == x;
    lemma_entry_at(s, i);
}

/// In schedule order, due events come before all others.
pub proof fn lemma_due_prefix(s: Seq<EventView>, now: int, k: int)
    requires
        sorted_events(s),
        due_split(s, now, k),
    ensures
        forall|i: int| 0 <= i < s.len() ==> ((#[trigger] s[i]).at <= now <==> i < k),
{
    assert forall|i: int| 0 <= i < s.len() implies ((#[trigger] s[i]).at <= now <==> i < k) by {
        if i > k {
            assert(key_lt(s[k], s[i]));
        }
    }
}

/// The per-group ordered store of events: sorted by occurrence and then by
/// subject, with at most one event per subject.
pub struct Schedule {
    events: Vec<Event>,
}

impl View for Schedule {
    type V = Seq<EventView>;

    closed spec fn view(&self) -> Seq<EventView> {
        views(self.events@)
    }
}

impl Schedule {
    /// The schedule's invariant.
    pub open spec fn wf(&self) -> bool {
        well_ordered(self@)
    }

    /// An empty schedule.
    pub fn new() -> (r: Schedule)
        ensures
            r.wf(),
            r@ == Seq::<EventView>::empty(),
    {
        let r = Schedule { events: Vec::new() };
        assert(r@ =~= Seq::<EventView>::empty());
        r
    }

    /// The number of events held.
    pub fn len(&self) -> (r: usize)
        ensures
            r == self@.len(),
    {
        self.events.len()
    }

    /// Whether no event is held.
    pub fn is_empty(&self) -> (r: bool)
        ensures
            r == (self@.len() == 0),
    {
        self.events.len() == 0
    }

    fn position_of(&self, subject: &String) -> (r: Option<usize>)
        requires
            self.wf(),
        ensures
            match r {
                Some(i) => i < self@.len() && self@[i as int].subject == subject@,
                None => !has_subject(self@, subject@),
            },
    {
        let mut i: usize = 0;
        while i < self.events.len()
            invariant
                i <= self.events@.len(),
                self@ == views(self.events@),
                forall|j: int| 0 <= j < i ==> (#[trigger] self@[j]).subject != subject@,
            decreases self.events@.len() - i,
        {
            if self.events[i].subject_id == *subject {
                return Some(i);
            }
            i = i + 1;
        }
        None
    }

    /// The event of `subject`, if the schedule holds one.
    pub fn get(&self, subject: &String) -> (r: Option<&Event>)
        requires
            self.wf(),
        ensures
            match r {
                Some(e) => entry_for(self@, subject@) == Some(e@),
                None => entry_for(self@, subject@) is None,
            },
    {
        match self.position_of(subject) {
            Some(i) => {
                proof {
                    lemma_entry_at(self@, i as int);
                }
                Some(&self.events[i])
            },
            None => None,
        }
    }

    /// Removes the event of `subject` and returns it; a schedule without one
    /// is left as it was.
    pub fn remove(&mut self, subject: &String) -> (r: Option<Event>)
        requires
            old(self).wf(),
        ensures
            final(self).wf(),
            match r {
                Some(e) => entry_for(old(self)@, subject@) == Some(e@),
                None => entry_for(old(self)@, subject@) is None,
            },
            removed(old(self)@, subject@, final(self)@),
    {
        match self.position_of(subject) {
            Some(i) => {
                let ghost s = self@;
                proof {
                    lemma_entry_at(s, i as int);
                    self.events@.remove_ensures(i as int);
                }
                let e = self.events.remove(i);
                proof {
                    assert(self@ =~= s.remove(i as int));
                    s.remove_ensures(i as int);
                    assert forall|a: int, b: int| 0 <= a < b < self@.len() implies key_lt(
                        #[trigger] self@[a],
                        #[trigger] self@[b],
                    ) by {
                        let a0 = if a < i { a } else { a + 1 };
                        let b0 = if b < i { b } else { b + 1 };
                        assert(self@[a] == s[a0] && self@[b] == s[b0]);
                    }
                    assert forall|a: int, b: int|
                        0 <= a < self@.len() && 0 <= b < self@.len() && a != b implies (
                    #[trigger] self@[a]).subject != (#[trigger] self@[b]).subject by {
                        let a0 = if a < i { a } else { a + 1 };
                        let b0 = if b < i { b } else { b + 1 };
                        assert(self@[a] == s[a0] && self@[b] == s[b0]);
                    }
                    assert forall|x: EventView| #[trigger] self@.contains(x) <==> (s.contains(x)
                        && x.subject != subject@) by {
                        if self@.contains(x) {
                            let a = choose|a: int| 0 <= a < self@.len() && self@[a] == x;
                            let a0 = if a < i { a } else { a + 1 };
                            assert(s[a0] == x);
                        }
                        if s.contains(x) && x.subject != subject@ {
                            let a0 = choose|a: int| 0 <= a < s.len() && s[a] == x;
                            assert(a0 != i);
                            let a = if a0 < i { a0 } else { a0 - 1 };
                            assert(self@[a] == x);
                        }
                    }
                }
                Some(e)
            },
            None => {
                proof {
                    assert forall|x: EventView| #[trigger] self@.contains(x) implies x.subject
                        != subject@ by {
                        let a = choose|a: int| 0 <= a < self@.len() && self@[a] == x;
                    }
                }
                None
            },
        }
    }

    /// Inserts `event`, replacing the event of the same subject if there is
    /// one; returns the replaced event.
    pub fn insert(&mut self, event: Event) -> (r: Option<Event>)
        requires
            old(self).wf(),
        ensures
            final(self).wf(),
            match r {
                Some(e) => entry_for(old(self)@, event@.subject) == Some(e@),
                None => entry_for(old(self)@, event@.subject) is None,
            },
            inserted(old(self)@, event@, final(self)@),
    {
        let prev = self.remove(&event.subject_id);
        let ghost s = self@;
        let mut i: usize = 0;
        while i < self.events.len() && event_lt(&self.events[i], &event)
            invariant
                i <= self.events@.len(),
                self@ == s,
                s == views(self.events@),
                well_ordered(s),
                forall|x: EventView| #[trigger] s.contains(x) ==> x.subject != event@.subject,
                forall|j: int| 0 <= j < i ==> key_lt(#[trigger] s[j], event@),
            decreases self.events@.len() - i,
        {
            i = i + 1;
        }
        proof {
            if i < s.len() {
                assert(s.contains(s[i as int]));
                lemma_key_order(event@, s[i as int], s[i as int]);
                assert forall|j: int| i <= j < s.len() implies key_lt(event@, #[trigger] s[j]) by {
                    if j > i {
                        lemma_key_order(event@, s[i as int], s[j]);
                    }
                }
            }
            s.insert_ensures(i as int, event@);
        }
        let ghost ev = event@;
        self.events.insert(i, event);
        proof {
            let t = s.insert(i as int, ev);
            assert(self@ =~= t);
            assert forall|a: int, b: int| 0 <= a < b < t.len() implies key_lt(
                #[trigger] t[a],
                #[trigger] t[b],
            ) by {
                if a < i && b > i {
                    assert(t[a] == s[a] && t[b] == s[b - 1]);
                    assert(key_lt(s[a], ev));
                    assert(key_lt(ev, s[b - 1]));
                    lemma_key_order(s[a], ev, s[b - 1]);
                } else if a < i && b == i {
                } else if a == i {
                    assert(t[b] == s[b - 1]);
                } else if b < i {
                } else {
                    assert(t[a] == s[a - 1] && t[b] == s[b - 1]);
                }
            }
            assert forall|a: int, b: int|
                0 <= a < t.len() && 0 <= b < t.len() && a != b implies (#[trigger] t[a]).subject
                != (#[trigger] t[b]).subject by {
                let a0 = if a < i { a } else { a - 1 };
                let b0 = if b < i { b } else { b - 1 };
                if a == i {
                    assert(s.contains(s[b0]));
                } else if b == i {
                    assert(s.contains(s[a0]));
                } else {
                    assert(t[a] == s[a0] && t[b] == s[b0]);
                }
            }
            assert forall|x: EventView| #[trigger] t.contains(x) <==> (x == ev || s.contains(x)) by {
                if t.contains(x) {
                    let a = choose|a: int| 0 <= a < t.len() && t[a] == x;
                    if a < i {
                        assert(s[a] == x);
                    } else if a > i {
                        assert(s[a - 1] == x);
                    }
                }
                if x == ev {
                    assert(t[i as int] == x);
                }
                if s.contains(x) {
                    let a0 = choose|a: int| 0 <= a < s.len() && s[a] == x;
                    if a0 < i {
                        assert(t[a0] == x);
                    } else {
                        assert(t[a0 + 1] == x);
                    }
                }
            }
        }
        prev
    }

    fn due_count(&self, now: i64) -> (k: usize)
        requires
            self.wf(),
        ensures
            due_split(self@, now as int, k as int),
    {
        let mut k: usize = 0;
        while k < self.events.len() && self.events[k].occurrence_at <= now
            invariant
                k <= self.events@.len(),
                self@ == views(self.events@),
                forall|i: int| 0 <= i < k ==> (#[trigger] self@[i]).at <= now,
            decreases self.events@.len() - k,
        {
            k = k + 1;
        }
        k
    }

    /// The events due at `now` (those whose occurrence is at or before it),
    /// in schedule order; the schedule is not changed.
    pub fn peek_due(&self, now: i64) -> (r: Vec<Event>)
        requires
            self.wf(),
        ensures
            due_split(self@, now as int, r@.len() as int),
            views(r@) == self@.subrange(0, r@.len() as int),
    {
        let k = self.due_count(now);
        let mut r: Vec<Event> = Vec::new();
        let mut i: usize = 0;
        while i < k
            invariant
                i <= k,
                k <= self.events@.len(),
                self@ == views(self.events@),
                views(r@) == self@.subrange(0, i as int),
            decreases k - i,
        {
            let e = self.events[i].duplicate();
            let ghost before = r@;
            r.push(e);
            proof {
                assert(views(r@) =~= views(before).push(e@));
                assert(self@.subrange(0, i + 1) =~= self@.subrange(0, i as int).push(self@[i as int]));
            }
            i = i + 1;
        }
        r
    }

    /// Removes and returns the events due at `now`, in schedule order.
    pub fn pop_due(&mut self, now: i64) -> (r: Vec<Event>)
        requires
            old(self).wf(),
        ensures
            final(self).wf(),
            due_split(old(self)@, now as int, r@.len() as int),
            views(r@) == old(self)@.subrange(0, r@.len() as int),
            final(self)@ == old(self)@.subrange(r@.len() as int, old(self)@.len() as int),
    {
        let k = self.due_count(now);
        let ghost s = self@;
        let mut due = self.events.split_off(k);
        std::mem::swap(&mut self.events, &mut due);
        proof {
            assert(self@ =~= s.subrange(k as int, s.len() as int));
            assert(views(due@) =~= s.subrange(0, k as int));
            let t = self@;
            assert forall|a: int, b: int| 0 <= a < b < t.len() implies key_lt(
                #[trigger] t[a],
                #[trigger] t[b],
            ) by {
                assert(t[a] == s[a + k] && t[b] == s[b + k]);
            }
            assert forall|a: int, b: int|
                0 <= a < t.len() && 0 <= b < t.len() && a != b implies (#[trigger] t[a]).subject
                != (#[trigger] t[b]).subject by {
                assert(t[a] == s[a + k] && t[b] == s[b + k]);
            }
        }
        due
    }

    /// All events, in schedule order.
    pub fn ordered_iter(&self) -> (r: &[Event])
        ensures
            views(r@) == self@,
    {
        self.events.as_slice()
    }

    /// One tick of the scheduler on this schedule: removes the events due at
    /// `now` and puts each back at its next occurrence after `now`. Returns
    /// the fired events, in schedule order, as they were before.
    pub fn fire_due(&mut self, now: i64) -> (r: Vec<Event>)
        requires
            old(self).wf(),
            now <= LATEST_NOW,
        ensures
            final(self).wf(),
            due_split(old(self)@, now as int, r@.len() as int),
            views(r@) == old(self)@.subrange(0, r@.len() as int),
            forall|x: EventView|
                #[trigger] final(self)@.contains(x) <==> ((old(self)@.contains(x) && x.at > now)
                    || exists|j: int|
                    0 <= j < r@.len() && x == rescheduled(#[trigger] r@[j]@, now as int)),
    {
        let ghost s = self@;
        let due = self.pop_due(now);
        let ghost k = due@.len() as int;
        proof {
            lemma_due_prefix(s, now as int, k);
            assert forall|x: EventView| #[trigger] self@.contains(x) <==> (s.contains(x) && x.at
                > now) by {
                if self@.contains(x) {
                    let a = choose|a: int| 0 <= a < self@.len() && self@[a] == x;
                    assert(s[a + k] == x);
                }
                if s.contains(x) && x.at > now {
                    let a = choose|a: int| 0 <= a < s.len() && s[a] == x;
                    assert(self@[a - k] == x);
                }
            }
        }
        let mut i: usize = 0;
        while i < due.len()
            invariant
                self.wf(),
                now <= LATEST_NOW,
                i <= due@.len(),
                k == due@.len(),
                well_ordered(s),
                due_split(s, now as int, k),
                views(due@) == s.subrange(0, k),
                forall|t: int| 0 <= t < s.len() ==> ((#[trigger] s[t]).at <= now <==> t < k),
                forall|x: EventView|
                    #[trigger] self@.contains(x) <==> ((s.contains(x) && x.at > now) || exists|j: int|
                        0 <= j < i && x == rescheduled(#[trigger] due@[j]@, now as int)),
            decreases due@.len() - i,
        {
            let e = &due[i];
            let next = calc_next_birthday(e.occurrence_at, now);
            let fresh = Event {
                subject_id: e.subject_id.clone(),
                occurrence_at: next,
                uses_time_of_day: e.uses_time_of_day,
                notify_target: e.notify_target,
            };
            let ghost before = self@;
            proof {
                assert(views(due@)[i as int] == due@[i as int]@);
                assert(s[i as int] == due@[i as int]@);
                assert forall|x: EventView| #[trigger] before.contains(x) implies x.subject
                    != fresh@.subject by {
                    if s.contains(x) && x.at > now {
                        let a = choose|a: int| 0 <= a < s.len() && s[a] == x;
                        assert(a != i);
                    } else {
                        let j = choose|j: int|
                            0 <= j < i && x == rescheduled(#[trigger] due@[j]@, now as int);
                        assert(views(due@)[j] == due@[j]@);
                        assert(s[j] == due@[j]@);
                    }
                }
            }
            self.insert(fresh);
            proof {
                assert forall|x: EventView| #[trigger] self@.contains(x) <==> ((s.contains(x) && x.at
                    > now) || exists|j: int|
                    0 <= j < i + 1 && x == rescheduled(#[trigger] due@[j]@, now as int)) by {
                    if x == fresh@ {
                        assert(x == rescheduled(due@[i as int]@, now as int));
                    }
                    if exists|j: int| 0 <= j < i + 1 && x == rescheduled(#[trigger] due@[j]@, now as int) {
                        let j = choose|j: int|
                            0 <= j < i + 1 && x == rescheduled(#[trigger] due@[j]@, now as int);
                        if j < i {
                            assert(before.contains(x));
                        }
                    }
                }
            }
            i = i + 1;
        }
        due
    }
}

} // verus!
