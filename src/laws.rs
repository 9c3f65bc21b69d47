//! Properties that hold across the library's operations, proved over the
//! same spec functions that the operations' contracts use.
use vstd::prelude::*;
use crate::calendar::{utc_add_months, whole_years_between};
use crate::event::{EventView, key_lt, lemma_key_order};
use crate::occurrence::{
    MAX_CATCHUP_YEARS, ScheduleError, approximate_spec, approximation_step,
    kept_for_today, next_after_spec, next_occurrence_spec, this_year_or_next,
};
use crate::schedule::{
    due_split, entry_for, has_subject, inserted, lemma_due_prefix, lemma_entry_contains, removed,
    sorted_events, well_ordered,
};
use crate::store::{GroupView, add_result, config_of, loaded_from, store_wf};

verus! {

/// Each approximation step moves forward by at least a common year.
proof fn lemma_step_positive(ts: int)
    ensures
        approximation_step(ts) >= 31_536_000,
{
}

/// The approximation always ends after `now`, wherever a later `i64`
/// exists.
pub proof fn lemma_approximation_ahead(ts: int, now: int)
    requires
        now < i64::MAX,
    ensures
        approximate_spec(ts, now) > now,
        ts > now ==> approximate_spec(ts, now) == ts,
    decreases now - ts + 31_622_400,
{
    lemma_step_positive(ts);
    if ts <= now {
        lemma_approximation_ahead(ts + approximation_step(ts), now);
    }
}

/// Rescheduling always lands strictly after `now`, wherever a later `i64`
/// exists.
pub proof fn lemma_next_after_ahead(base: int, now: int)
    requires
        now < i64::MAX,
    ensures
        next_after_spec(base, now) > now,
{
    lemma_approximation_ahead(base, now);
    let years: int = match whole_years_between(base, now) {
        Some(y) => y as int,
        None => 0,
    };
    if let Some(t) = utc_add_months(base, 12 * (years + 1)) {
        lemma_approximation_ahead(t as int, now);
    }
}

/// A computed next occurrence lies after `now`, except the day's occurrence
/// earlier on the current local day, which is kept so that it still fires.
pub proof fn lemma_next_occurrence_ahead(
    month: int,
    day: int,
    time_of_day: Option<u32>,
    timezone: Seq<char>,
    now: int,
    r: int,
)
    requires
        now < i64::MAX,
        next_occurrence_spec(month, day, time_of_day, timezone, now) == Ok::<int, ScheduleError>(r),
    ensures
        r > now || kept_for_today(month, day, time_of_day, timezone, now, r),
{
    assert forall|x: int, end: int| true implies #[trigger] this_year_or_next(x, end, now) > now || (
    this_year_or_next(x, end, now) == x && x <= now && now < end) by {
        lemma_next_after_ahead(x, now);
    }
    assert forall|x: int| true implies #[trigger] approximate_spec(x, now) > now by {
        lemma_approximation_ahead(x, now);
    }
}

/// Catch-up: an event any number of years in the past is moved past `now`
/// by a single calendar step of whole years, where the calendar can take it.
pub proof fn lemma_catch_up_single_step(base: int, now: int, years: u32, t: i64)
    requires
        base <= now,
        whole_years_between(base, now) == Some(years),
        years < MAX_CATCHUP_YEARS,
        utc_add_months(base, 12 * (years + 1)) == Some(t),
        t > now,
    ensures
        next_after_spec(base, now) == t,
{
}

/// What is fired at `now` is exactly the events due at `now`, in schedule
/// order, and none of their subjects is left in the schedule afterwards.
pub proof fn lemma_pop_due_exact(s: Seq<EventView>, now: int, k: int)
    requires
        well_ordered(s),
        due_split(s, now, k),
    ensures
        forall|x: EventView| #[trigger] s.subrange(0, k).contains(x) <==> (s.contains(x) && x.at <= now),
        sorted_events(s.subrange(0, k)),
        forall|x: EventView|
            #[trigger] s.subrange(0, k).contains(x) ==> entry_for(s.subrange(k, s.len() as int), x.subject)
                is None,
{
    lemma_due_prefix(s, now, k);
    let due = s.subrange(0, k);
    let rest = s.subrange(k, s.len() as int);
    assert forall|x: EventView| #[trigger] due.contains(x) <==> (s.contains(x) && x.at <= now) by {
        if due.contains(x) {
            let a = choose|a: int| 0 <= a < due.len() && due[a] == x;
            assert(s[a] == x);
        }
        if s.contains(x) && x.at <= now {
            let a = choose|a: int| 0 <= a < s.len() && s[a] == x;
            assert(due[a] == x);
        }
    }
    assert forall|a: int, b: int| 0 <= a < b < due.len() implies key_lt(#[trigger] due[a], #[trigger] due[b]) by {
        assert(due[a] == s[a] && due[b] == s[b]);
    }
    assert forall|x: EventView| #[trigger] due.contains(x) implies entry_for(rest, x.subject) is None by {
        let a = choose|a: int| 0 <= a < due.len() && due[a] == x;
        assert(s[a] == x);
        if has_subject(rest, x.subject) {
            let b = choose|b: int| 0 <= b < rest.len() && (#[trigger] rest[b]).subject == x.subject;
            assert(rest[b] == s[b + k]);
            assert(a != b + k);
        }
    }
}

/// Inserting for one subject twice leaves exactly one event of that subject,
/// the second, and the second insertion hands back the first event.
pub proof fn lemma_insert_twice(
    s0: Seq<EventView>,
    e1: EventView,
    s1: Seq<EventView>,
    e2: EventView,
    s2: Seq<EventView>,
)
    requires
        well_ordered(s0),
        well_ordered(s1),
        well_ordered(s2),
        e1.subject == e2.subject,
        inserted(s0, e1, s1),
        inserted(s1, e2, s2),
    ensures
        entry_for(s1, e1.subject) == Some(e1),
        entry_for(s2, e2.subject) == Some(e2),
        forall|i: int| 0 <= i < s2.len() && (#[trigger] s2[i]).subject == e2.subject ==> s2[i] == e2,
{
    assert(s1.contains(e1));
    lemma_entry_contains(s1, e1);
    assert(s2.contains(e2));
    lemma_entry_contains(s2, e2);
    assert forall|i: int| 0 <= i < s2.len() && (#[trigger] s2[i]).subject == e2.subject implies s2[i] == e2 by {
        assert(s2.contains(s2[i]));
    }
}

/// A run of insertions: `states[k + 1]` is `states[k]` after inserting
/// `events[k]`.
pub open spec fn insertion_run(states: Seq<Seq<EventView>>, events: Seq<EventView>) -> bool {
    &&& states.len() == events.len() + 1
    &&& forall|k: int| 0 <= k < events.len() ==> inserted(#[trigger] states[k], events[k], states[k + 1])
}

proof fn lemma_kept_from(states: Seq<Seq<EventView>>, events: Seq<EventView>, i: int, j: int)
    requires
        insertion_run(states, events),
        forall|p: int, q: int|
            0 <= p < events.len() && 0 <= q < events.len() && p != q ==> (#[trigger] events[p]).subject
                != (#[trigger] events[q]).subject,
        0 <= i < j <= events.len(),
    ensures
        states[j].contains(events[i]),
    decreases j - i,
{
    if j == i + 1 {
        assert(inserted(states[i], events[i], states[i + 1]));
    } else {
        lemma_kept_from(states, events, i, j - 1);
        assert(inserted(states[j - 1], events[j - 1], states[j]));
        assert(events[j - 1].subject != events[i].subject);
    }
}

/// Events of distinct subjects, inserted one after another in any order
/// (as requests on one group are applied one at a time), are all present
/// at the end.
pub proof fn lemma_distinct_inserts_all_kept(states: Seq<Seq<EventView>>, events: Seq<EventView>)
    requires
        insertion_run(states, events),
        forall|p: int, q: int|
            0 <= p < events.len() && 0 <= q < events.len() && p != q ==> (#[trigger] events[p]).subject
                != (#[trigger] events[q]).subject,
    ensures
        forall|i: int| 0 <= i < events.len() ==> states[events.len() as int].contains(#[trigger] events[i]),
{
    assert forall|i: int| 0 <= i < events.len() implies states[events.len() as int].contains(
        #[trigger] events[i],
    ) by {
        lemma_kept_from(states, events, i, events.len() as int);
    }
}

/// An insertion and a removal for the same subject, applied in either
/// order, leave the subject with the inserted event (removal first) or
/// with none (insertion first), and lookup and order agree afterwards.
pub proof fn lemma_add_remove_same_subject(
    s0: Seq<EventView>,
    e: EventView,
    a1: Seq<EventView>,
    a2: Seq<EventView>,
    r1: Seq<EventView>,
    r2: Seq<EventView>,
)
    requires
        well_ordered(s0),
        well_ordered(a1),
        well_ordered(a2),
        well_ordered(r1),
        well_ordered(r2),
        inserted(s0, e, a1),
        removed(a1, e.subject, a2),
        removed(s0, e.subject, r1),
        inserted(r1, e, r2),
    ensures
        entry_for(a2, e.subject) is None,
        entry_for(r2, e.subject) == Some(e),
        forall|x: EventView| #[trigger] a2.contains(x) <==> entry_for(a2, x.subject) == Some(x),
        forall|x: EventView| #[trigger] r2.contains(x) <==> entry_for(r2, x.subject) == Some(x),
{
    if has_subject(a2, e.subject) {
        let i = choose|i: int| 0 <= i < a2.len() && (#[trigger] a2[i]).subject == e.subject;
        assert(a2.contains(a2[i]));
    }
    assert(r2.contains(e));
    lemma_entry_contains(r2, e);
    lemma_indexes_agree(a2);
    lemma_indexes_agree(r2);
}

/// Whether an addition succeeds, and what it returns, depends only on its
/// own inputs and its group's configuration, which additions and removals
/// of other subjects leave unchanged: concurrent additions do not affect
/// each other's outcome.
pub proof fn lemma_add_result_independent(
    a: Seq<GroupView>,
    b: Seq<GroupView>,
    group_id: u64,
    month: int,
    day: int,
    time_of_day: Option<u32>,
    timezone: Option<Seq<char>>,
    now: int,
)
    requires
        config_of(b, group_id) == config_of(a, group_id),
    ensures
        add_result(b, group_id, month, day, time_of_day, timezone, now) == add_result(
            a,
            group_id,
            month,
            day,
            time_of_day,
            timezone,
            now,
        ),
{
}

/// The lookup by subject and the ordered sequence always agree: an event is
/// found for its subject exactly when the sequence holds it.
pub proof fn lemma_indexes_agree(s: Seq<EventView>)
    requires
        well_ordered(s),
    ensures
        forall|x: EventView| #[trigger] s.contains(x) <==> entry_for(s, x.subject) == Some(x),
{
    assert forall|x: EventView| #[trigger] s.contains(x) <==> entry_for(s, x.subject) == Some(x) by {
        if s.contains(x) {
            lemma_entry_contains(s, x);
        }
        if entry_for(s, x.subject) == Some(x) {
            let i = choose|i: int| 0 <= i < s.len() && (#[trigger] s[i]).subject == x.subject;
        }
    }
}

/// Two sequences in schedule order that hold the same events are equal.
pub proof fn lemma_same_events_same_order(a: Seq<EventView>, b: Seq<EventView>)
    requires
        well_ordered(a),
        well_ordered(b),
        forall|x: EventView| #[trigger] a.contains(x) <==> b.contains(x),
    ensures
        a == b,
    decreases a.len(),
{
    if a.len() == 0 {
        if b.len() > 0 {
            assert(b.contains(b[0]));
            assert(a.contains(b[0]));
        }
        assert(a =~= b);
    } else {
        assert(a.contains(a[0]));
        assert(b.len() > 0);
        assert(b.contains(b[0]));
        assert(a.contains(b[0]));
        let i = choose|i: int| 0 <= i < b.len() && b[i] == a[0];
        let j = choose|j: int| 0 <= j < a.len() && a[j] == b[0];
        if a[0] != b[0] {
            assert(i > 0 && j > 0);
            assert(key_lt(b[0], b[i]));
            assert(key_lt(a[0], a[j]));
            lemma_key_order(a[0], b[0], a[0]);
        }
        let a1 = a.drop_first();
        let b1 = b.drop_first();
        assert forall|p: int, q: int| 0 <= p < q < a1.len() implies key_lt(#[trigger] a1[p], #[trigger] a1[q]) by {
            assert(a1[p] == a[p + 1] && a1[q] == a[q + 1]);
        }
        assert forall|p: int, q: int| 0 <= p < q < b1.len() implies key_lt(#[trigger] b1[p], #[trigger] b1[q]) by {
            assert(b1[p] == b[p + 1] && b1[q] == b[q + 1]);
        }
        assert forall|p: int, q: int| 0 <= p < a1.len() && 0 <= q < a1.len() && p != q implies (
        #[trigger] a1[p]).subject != (#[trigger] a1[q]).subject by {
            assert(a1[p] == a[p + 1] && a1[q] == a[q + 1]);
        }
        assert forall|p: int, q: int| 0 <= p < b1.len() && 0 <= q < b1.len() && p != q implies (
        #[trigger] b1[p]).subject != (#[trigger] b1[q]).subject by {
            assert(b1[p] == b[p + 1] && b1[q] == b[q + 1]);
        }
        assert forall|x: EventView| #[trigger] a1.contains(x) <==> b1.contains(x) by {
            if a1.contains(x) {
                let p = choose|p: int| 0 <= p < a1.len() && a1[p] == x;
                assert(a[p + 1] == x);
                assert(a.contains(x));
                assert(b.contains(x));
                let q = choose|q: int| 0 <= q < b.len() && b[q] == x;
                if q == 0 {
                    assert(a[0] == a[p + 1]);
                }
                assert(b1[q - 1] == x);
            }
            if b1.contains(x) {
                let p = choose|p: int| 0 <= p < b1.len() && b1[p] == x;
                assert(b[p + 1] == x);
                assert(b.contains(x));
                assert(a.contains(x));
                let q = choose|q: int| 0 <= q < a.len() && a[q] == x;
                if q == 0 {
                    assert(b[0] == b[p + 1]);
                }
                assert(a1[q - 1] == x);
            }
        }
        lemma_same_events_same_order(a1, b1);
        assert(a =~= seq![a[0]] + a1);
        assert(b =~= seq![b[0]] + b1);
    }
}

/// Saving a store and loading what was saved gives back the same groups,
/// configurations and events, each schedule in the same order.
pub proof fn lemma_snapshot_round_trip(s: Seq<GroupView>, t: Seq<GroupView>)
    requires
        store_wf(s),
        loaded_from(t, s),
    ensures
        t == s,
{
    assert forall|i: int| 0 <= i < t.len() implies #[trigger] t[i] == s[i] by {
        assert(well_ordered(s[i].events));
        lemma_same_events_same_order(t[i].events, s[i].events);
    }
    assert(t =~= s);
}

} // verus!
