//! The store of all groups: each group's configuration and schedule, and the
//! operations that commands and the scheduler perform on them.
use vstd::prelude::*;
use crate::calendar::{canonical_zone, canonical_zone_name};
use crate::event::{Event, EventView};
use crate::occurrence::{
    LATEST_NOW, ScheduleError, ValidationError, compute_next_occurrence, next_occurrence_spec,
};
use crate::schedule::{
    Schedule, due_split, entry_for, has_subject, rescheduled, unique_subjects, views, well_ordered,
};

verus! {

/// A group's settings.
#[derive(Clone, Debug)]
pub struct GroupConfig {
    /// Canonical name of the zone used when an event names none.
    pub default_timezone: Option<String>,
    /// Where announcements go.
    pub announce_target: Option<u64>,
    /// Whether anyone may edit the group's events.
    pub allow_anyone_edit: bool,
    /// Whether announcements address the whole group.
    pub announce_group_wide: bool,
}

/// The value of a [`GroupConfig`].
pub struct GroupConfigView {
    pub default_timezone: Option<Seq<char>>,
    pub announce_target: Option<u64>,
    pub allow_anyone_edit: bool,
    pub announce_group_wide: bool,
}

/// The value of an optional string.
pub open spec fn opt_view(s: Option<String>) -> Option<Seq<char>> {
    match s {
        Some(t) => Some(t@),
        None => None,
    }
}

impl View for GroupConfig {
    type V = GroupConfigView;

    open spec fn view(&self) -> GroupConfigView {
        GroupConfigView {
            default_timezone: opt_view(self.default_timezone),
            announce_target: self.announce_target,
            allow_anyone_edit: self.allow_anyone_edit,
            announce_group_wide: self.announce_group_wide,
        }
    }
}

/// The configuration of a group created by its first write.
pub open spec fn default_config() -> GroupConfigView {
    GroupConfigView {
        default_timezone: None,
        announce_target: None,
        allow_anyone_edit: false,
        announce_group_wide: false,
    }
}

impl GroupConfig {
    /// The configuration of a group created by its first write: no default
    /// zone, no announcement target, nothing allowed.
    pub fn new() -> (r: GroupConfig)
        ensures
            r@ == default_config(),
    {
        GroupConfig {
            default_timezone: None,
            announce_target: None,
            allow_anyone_edit: false,
            announce_group_wide: false,
        }
    }

    /// A copy of this configuration.
    pub fn duplicate(&self) -> (r: GroupConfig)
        ensures
            r@ == self@,
    {
        GroupConfig {
            default_timezone: match &self.default_timezone {
                Some(t) => Some(t.clone()),
                None => None,
            },
            announce_target: self.announce_target,
            allow_anyone_edit: self.allow_anyone_edit,
            announce_group_wide: self.announce_group_wide,
        }
    }
}

/// The value of one group in the store.
pub struct GroupView {
    pub id: u64,
    pub config: GroupConfigView,
    pub events: Seq<EventView>,
}

struct GroupState {
    group_id: u64,
    config: GroupConfig,
    schedule: Schedule,
}

impl View for GroupState {
    type V = GroupView;

    closed spec fn view(&self) -> GroupView {
        GroupView { id: self.group_id, config: self.config@, events: self.schedule@ }
    }
}

impl GroupState {
    closed spec fn wf(&self) -> bool {
        self.schedule.wf()
    }
}

/// No group occurs twice.
pub open spec fn unique_ids(s: Seq<GroupView>) -> bool {
    forall|i: int, j: int|
        0 <= i < s.len() && 0 <= j < s.len() && i != j ==> (#[trigger] s[i]).id != (#[trigger] s[j]).id
}

/// What a store holds: distinct groups, each with a well-ordered schedule.
pub open spec fn store_wf(s: Seq<GroupView>) -> bool {
    unique_ids(s) && forall|i: int| 0 <= i < s.len() ==> well_ordered(#[trigger] s[i].events)
}

/// Some group of `s` is `id`.
pub open spec fn has_group(s: Seq<GroupView>, id: u64) -> bool {
    exists|i: int| 0 <= i < s.len() && (#[trigger] s[i]).id == id
}

/// The group `id` of `s`, if any.
pub open spec fn group_of(s: Seq<GroupView>, id: u64) -> Option<GroupView> {
    if has_group(s, id) {
        Some(s[choose|i: int| 0 <= i < s.len() && (#[trigger] s[i]).id == id])
    } else {
        None
    }
}

/// The events of group `id`; none where there is no such group.
pub open spec fn events_of(s: Seq<GroupView>, id: u64) -> Seq<EventView> {
    match group_of(s, id) {
        Some(g) => g.events,
        None => Seq::empty(),
    }
}

/// The configuration of group `id`; the default where there is no such group.
pub open spec fn config_of(s: Seq<GroupView>, id: u64) -> GroupConfigView {
    match group_of(s, id) {
        Some(g) => g.config,
        None => default_config(),
    }
}

/// Every group but `id` is as it was.
pub open spec fn others_unchanged(a: Seq<GroupView>, b: Seq<GroupView>, id: u64) -> bool {
    forall|h: u64| h != id ==> #[trigger] group_of(b, h) == group_of(a, h)
}

proof fn lemma_group_at(s: Seq<GroupView>, i: int)
    requires
        unique_ids(s),
        0 <= i < s.len(),
    ensures
        group_of(s, s[i].id) == Some(s[i]),
{
    assert(has_group(s, s[i].id));
}

proof fn lemma_group_update(s: Seq<GroupView>, i: int, v: GroupView)
    requires
        unique_ids(s),
        0 <= i < s.len(),
        v.id == s[i].id,
    ensures
        unique_ids(s.update(i, v)),
        group_of(s.update(i, v), v.id) == Some(v),
        others_unchanged(s, s.update(i, v), v.id),
{
    let t = s.update(i, v);
    assert forall|a: int, b: int| 0 <= a < t.len() && 0 <= b < t.len() && a != b implies (
    #[trigger] t[a]).id != (#[trigger] t[b]).id by {
        assert(s[a].id != s[b].id);
    }
    lemma_group_at(t, i);
    assert forall|h: u64| h != v.id implies #[trigger] group_of(t, h) == group_of(s, h) by {
        if has_group(s, h) {
            let a = choose|a: int| 0 <= a < s.len() && s[a].id == h;
            lemma_group_at(s, a);
            assert(t[a] == s[a]);
            lemma_group_at(t, a);
        }
        if has_group(t, h) {
            let a = choose|a: int| 0 <= a < t.len() && t[a].id == h;
            assert(t[a] == s[a]);
        }
    }
}

proof fn lemma_group_push(s: Seq<GroupView>, v: GroupView)
    requires
        unique_ids(s),
        !has_group(s, v.id),
    ensures
        unique_ids(s.push(v)),
        group_of(s.push(v), v.id) == Some(v),
        others_unchanged(s, s.push(v), v.id),
{
    let t = s.push(v);
    assert forall|a: int, b: int| 0 <= a < t.len() && 0 <= b < t.len() && a != b implies (
    #[trigger] t[a]).id != (#[trigger] t[b]).id by {
        if a < s.len() && b < s.len() {
            assert(s[a].id != s[b].id);
        } else if a < s.len() {
            assert(t[a] == s[a]);
        } else {
            assert(t[b] == s[b]);
        }
    }
    lemma_group_at(t, s.len() as int);
    assert forall|h: u64| h != v.id implies #[trigger] group_of(t, h) == group_of(s, h) by {
        if has_group(s, h) {
            let a = choose|a: int| 0 <= a < s.len() && s[a].id == h;
            lemma_group_at(s, a);
            assert(t[a] == s[a]);
            lemma_group_at(t, a);
        }
        if has_group(t, h) {
            let a = choose|a: int| 0 <= a < t.len() && t[a].id == h;
            assert(a < s.len());
            assert(t[a] == s[a]);
        }
    }
}

/// All groups, their configurations and their schedules.
pub struct Store {
    groups: Vec<GroupState>,
}

impl View for Store {
    type V = Seq<GroupView>;

    closed spec fn view(&self) -> Seq<GroupView> {
        self.groups@.map_values(|g: GroupState| g@)
    }
}

impl Store {
    /// The store's invariant.
    pub open spec fn wf(&self) -> bool {
        store_wf(self@)
    }

    closed spec fn states_wf(&self) -> bool {
        forall|i: int| 0 <= i < self.groups@.len() ==> (#[trigger] self.groups@[i]).wf()
    }

    proof fn lemma_states_wf(&self)
        ensures
            self.wf() == (unique_ids(self@) && self.states_wf()),
    {
        if self.states_wf() {
            assert forall|i: int| 0 <= i < self@.len() implies well_ordered(#[trigger] self@[i].events) by {
                assert(self.groups@[i].wf());
            }
        }
        if self.wf() {
            assert forall|i: int| 0 <= i < self.groups@.len() implies (#[trigger] self.groups@[i]).wf() by {
                assert(well_ordered(self@[i].events));
            }
        }
    }

    /// An empty store.
    pub fn new() -> (r: Store)
        ensures
            r.wf(),
            r@ == Seq::<GroupView>::empty(),
    {
        let r = Store { groups: Vec::new() };
        assert(r@ =~= Seq::<GroupView>::empty());
        r
    }

    fn position_of(&self, group_id: u64) -> (r: Option<usize>)
        requires
            self.wf(),
        ensures
            match r {
                Some(i) => i < self@.len() && self@[i as int].id == group_id && group_of(self@, group_id)
                    == Some(self@[i as int]),
                None => !has_group(self@, group_id) && group_of(self@, group_id) is None,
            },
    {
        let mut i: usize = 0;
        while i < self.groups.len()
            invariant
                i <= self@.len(),
                self@.len() == self.groups@.len(),
                self.wf(),
                forall|j: int| 0 <= j < i ==> (#[trigger] self@[j]).id != group_id,
            decreases self@.len() - i,
        {
            assert(self@[i as int] == self.groups@[i as int]@);
            if self.groups[i].group_id == group_id {
                proof {
                    lemma_group_at(self@, i as int);
                }
                return Some(i);
            }
            i = i + 1;
        }
        None
    }

    /// Whether group `group_id` has been created, by its set-up or by its
    /// first write.
    pub fn is_set_up(&self, group_id: u64) -> (r: bool)
        requires
            self.wf(),
        ensures
            r == has_group(self@, group_id),
    {
        self.position_of(group_id).is_some()
    }

    /// Removes group `group_id` from the store for a change, creating it if
    /// it is absent. The caller puts it back with `restore`.
    fn take(&mut self, group_id: u64) -> (r: (usize, GroupState))
        requires
            old(self).wf(),
        ensures
            r.1.wf(),
            r.1@.id == group_id,
            final(self).states_wf(),
            match group_of(old(self)@, group_id) {
                Some(g) => r.0 < old(self)@.len() && old(self)@[r.0 as int] == g && r.1@ == g
                    && final(self)@ == old(self)@.remove(r.0 as int),
                None => r.0 == old(self)@.len() && r.1@ == (GroupView {
                    id: group_id,
                    config: default_config(),
                    events: Seq::empty(),
                }) && final(self)@ == old(self)@,
            },
    {
        proof {
            self.lemma_states_wf();
        }
        match self.position_of(group_id) {
            Some(i) => {
                let ghost s = self@;
                assert(self.groups@[i as int].wf());
                assert(s[i as int] == self.groups@[i as int]@);
                let g = self.groups.remove(i);
                proof {
                    assert(self@ =~= s.remove(i as int));
                    assert forall|j: int| 0 <= j < self.groups@.len() implies (
                    #[trigger] self.groups@[j]).wf() by {
                        if j < i {
                            assert(self.groups@[j] == old(self).groups@[j]);
                        } else {
                            assert(self.groups@[j] == old(self).groups@[j + 1]);
                        }
                    }
                }
                (i, g)
            },
            None => {
                let g = GroupState {
                    group_id,
                    config: GroupConfig::new(),
                    schedule: Schedule::new(),
                };
                (self.groups.len(), g)
            },
        }
    }

    /// Puts back a group taken with `take`, changed only where its id stays
    /// the same.
    fn restore(&mut self, i: usize, g: GroupState, Ghost(before): Ghost<Seq<GroupView>>)
        requires
            store_wf(before),
            g.wf(),
            old(self).states_wf(),
            match group_of(before, g@.id) {
                Some(h) => i < before.len() && before[i as int] == h && old(self)@ == before.remove(
                    i as int,
                ),
                None => i == before.len() && old(self)@ == before,
            },
        ensures
            final(self).wf(),
            group_of(final(self)@, g@.id) == Some(g@),
            others_unchanged(before, final(self)@, g@.id),
            final(self)@.len() >= before.len(),
            forall|j: int| 0 <= j < before.len() ==> #[trigger] final(self)@[j].id == before[j].id,
    {
        let ghost gv = g@;
        let ghost mid = self@;
        proof {
            if group_of(before, gv.id) is Some {
                mid.insert_ensures(i as int, gv);
            }
        }
        self.groups.insert(i, g);
        proof {
            assert(self@ =~= mid.insert(i as int, gv));
            if group_of(before, gv.id) is Some {
                assert(self@ =~= before.update(i as int, gv));
                lemma_group_update(before, i as int, gv);
            } else {
                assert(self@ =~= before.push(gv));
                lemma_group_push(before, gv);
            }
            assert forall|j: int| 0 <= j < self.groups@.len() implies (#[trigger] self.groups@[j]).wf() by {
                if j < i {
                    assert(self.groups@[j] == old(self).groups@[j]);
                } else if j > i {
                    assert(self.groups@[j] == old(self).groups@[j - 1]);
                }
            }
            self.lemma_states_wf();
        }
    }

    /// Schedules `subject_id` in group `group_id` for its next occurrence of
    /// `month`/`day` (at `time_of_day`, or at local midnight) in `timezone`,
    /// or in the group's default zone where none is given. Replaces the
    /// subject's earlier event and creates the group if it is absent.
    /// Returns the next occurrence.
    pub fn add_or_update(
        &mut self,
        group_id: u64,
        subject_id: String,
        month: u32,
        day: u32,
        time_of_day: Option<u32>,
        timezone: Option<String>,
        notify_target: u64,
        now: i64,
    ) -> (r: Result<i64, ScheduleError>)
        requires
            old(self).wf(),
            now <= LATEST_NOW,
        ensures
            final(self).wf(),
            match r {
                Ok(x) => {
                    &&& add_result(old(self)@, group_id, month as int, day as int, time_of_day, opt_view(timezone), now as int)
                        == Ok::<int, ScheduleError>(x as int)
                    &&& others_unchanged(old(self)@, final(self)@, group_id)
                    &&& group_of(final(self)@, group_id) is Some
                    &&& config_of(final(self)@, group_id) == config_of(old(self)@, group_id)
                    &&& forall|e: EventView| #[trigger] events_of(final(self)@, group_id).contains(e) <==> (
                        e == (EventView {
                            subject: subject_id@,
                            at: x as int,
                            uses_time_of_day: time_of_day is Some,
                            target: notify_target,
                        }) || (events_of(old(self)@, group_id).contains(e) && e.subject != subject_id@))
                },
                Err(err) => add_result(old(self)@, group_id, month as int, day as int, time_of_day, opt_view(timezone), now as int)
                    == Err::<int, ScheduleError>(err) && final(self)@ == old(self)@,
            },
    {
        let pos = self.position_of(group_id);
        proof {
            if let Some(i) = pos {
                assert(self@[i as int] == self.groups@[i as int]@);
            }
        }
        let zone: String = match timezone {
            Some(z) => z,
            None => match pos {
                Some(i) => match &self.groups[i].config.default_timezone {
                    Some(z) => z.clone(),
                    None => return Err(ScheduleError::Validation(ValidationError::NoTimezone)),
                },
                None => return Err(ScheduleError::Validation(ValidationError::NoTimezone)),
            },
        };
        let next = match compute_next_occurrence(month, day, time_of_day, zone.as_str(), now) {
            Ok(x) => x,
            Err(e) => return Err(e),
        };
        let ghost before = self@;
        let (i, mut g) = self.take(group_id);
        let event = Event {
            subject_id,
            occurrence_at: next,
            uses_time_of_day: time_of_day.is_some(),
            notify_target,
        };
        g.schedule.insert(event);
        self.restore(i, g, Ghost(before));
        Ok(next)
    }

    /// Removes the event of `subject_id` from group `group_id`; returns
    /// whether there was one.
    pub fn remove(&mut self, group_id: u64, subject_id: &String) -> (r: bool)
        requires
            old(self).wf(),
        ensures
            final(self).wf(),
            r == has_subject(events_of(old(self)@, group_id), subject_id@),
            match group_of(old(self)@, group_id) {
                None => final(self)@ == old(self)@,
                Some(g) => {
                    &&& others_unchanged(old(self)@, final(self)@, group_id)
                    &&& group_of(final(self)@, group_id) is Some
                    &&& config_of(final(self)@, group_id) == g.config
                    &&& forall|e: EventView| #[trigger] events_of(final(self)@, group_id).contains(e) <==> (
                        g.events.contains(e) && e.subject != subject_id@)
                },
            },
    {
        if self.position_of(group_id).is_none() {
            return false;
        }
        let ghost before = self@;
        let (i, mut g) = self.take(group_id);
        let removed = g.schedule.remove(subject_id);
        self.restore(i, g, Ghost(before));
        removed.is_some()
    }

    /// The event of `subject_id` in group `group_id`, if there is one.
    pub fn get(&self, group_id: u64, subject_id: &String) -> (r: Option<&Event>)
        requires
            self.wf(),
        ensures
            match r {
                Some(e) => entry_for(events_of(self@, group_id), subject_id@) == Some(e@),
                None => entry_for(events_of(self@, group_id), subject_id@) is None,
            },
    {
        match self.position_of(group_id) {
            Some(i) => {
                proof {
                    self.lemma_states_wf();
                    assert(self@[i as int] == self.groups@[i as int]@);
                    assert(self.groups@[i as int].wf());
                }
                self.groups[i].schedule.get(subject_id)
            },
            None => None,
        }
    }

    /// The first `limit` events of group `group_id` in schedule order, and
    /// how many events follow them.
    pub fn list_upcoming(&self, group_id: u64, limit: usize) -> (r: (Vec<Event>, usize))
        requires
            self.wf(),
        ensures
            ({
                let all = events_of(self@, group_id);
                let n = if limit < all.len() { limit as int } else { all.len() as int };
                views(r.0@) == all.subrange(0, n) && r.1 == all.len() - n
            }),
    {
        let mut out: Vec<Event> = Vec::new();
        let pos = self.position_of(group_id);
        let i = match pos {
            Some(i) => i,
            None => {
                assert(views(out@) =~= events_of(self@, group_id).subrange(0, 0));
                return (out, 0);
            },
        };
        assert(self@[i as int] == self.groups@[i as int]@);
        let events = self.groups[i].schedule.ordered_iter();
        let ghost all = events_of(self@, group_id);
        let n: usize = if limit < events.len() {
            limit
        } else {
            events.len()
        };
        let mut j: usize = 0;
        while j < n
            invariant
                j <= n,
                n <= events@.len(),
                views(events@) == all,
                views(out@) == all.subrange(0, j as int),
            decreases n - j,
        {
            let ghost before = out@;
            out.push(events[j].duplicate());
            proof {
                assert(views(out@) =~= views(before).push(events@[j as int]@));
                assert(all.subrange(0, j + 1) =~= all.subrange(0, j as int).push(all[j as int]));
            }
            j = j + 1;
        }
        (out, events.len() - n)
    }

    /// Sets up group `group_id` with `config`. A group that exists already
    /// is refused; a default zone must be one that the time-zone database
    /// knows, in any case, and is kept as it was given.
    pub fn setup_group(&mut self, group_id: u64, config: GroupConfig) -> (r: Result<(), ScheduleError>)
        requires
            old(self).wf(),
        ensures
            final(self).wf(),
            has_group(old(self)@, group_id) ==> r == Err::<(), ScheduleError>(ScheduleError::AlreadySetUp)
                && final(self)@ == old(self)@,
            !has_group(old(self)@, group_id) ==> match config.default_timezone {
                Some(tz) => match canonical_zone(tz@) {
                    Some(z) => r is Ok && configured(old(self)@, final(self)@, group_id, config@),
                    None => r == Err::<(), ScheduleError>(ScheduleError::Validation(ValidationError::UnknownTimezone))
                        && final(self)@ == old(self)@,
                },
                None => r is Ok && configured(old(self)@, final(self)@, group_id, config@),
            },
    {
        if self.position_of(group_id).is_some() {
            return Err(ScheduleError::AlreadySetUp);
        }
        if let Some(tz) = &config.default_timezone {
            if canonical_zone_name(tz.as_str()).is_none() {
                return Err(ScheduleError::Validation(ValidationError::UnknownTimezone));
            }
        }
        let ghost before = self@;
        let (i, mut g) = self.take(group_id);
        g.config = config;
        self.restore(i, g, Ghost(before));
        Ok(())
    }

    /// Sets where the announcements of group `group_id` go; creates the group
    /// if it is absent.
    pub fn set_announce_target(&mut self, group_id: u64, target: u64)
        requires
            old(self).wf(),
        ensures
            final(self).wf(),
            configured(old(self)@, final(self)@, group_id, (GroupConfigView {
                announce_target: Some(target),
                ..config_of(old(self)@, group_id)
            })),
    {
        let ghost before = self@;
        let (i, mut g) = self.take(group_id);
        g.config.announce_target = Some(target);
        self.restore(i, g, Ghost(before));
    }

    /// Sets the default zone of group `group_id` to `timezone`, which must
    /// be a zone's exact name; creates the group if it is absent.
    pub fn set_timezone(&mut self, group_id: u64, timezone: &str) -> (r: Result<(), ScheduleError>)
        requires
            old(self).wf(),
        ensures
            final(self).wf(),
            canonical_zone(timezone@) == Some(timezone@) ==> r is Ok && configured(
                old(self)@,
                final(self)@,
                group_id,
                (GroupConfigView { default_timezone: Some(timezone@), ..config_of(old(self)@, group_id) }),
            ),
            canonical_zone(timezone@) != Some(timezone@) ==> r == Err::<(), ScheduleError>(
                ScheduleError::Validation(ValidationError::UnknownTimezone),
            ) && final(self)@ == old(self)@,
    {
        let zone = match canonical_zone_name(timezone) {
            Some(z) => z,
            None => return Err(ScheduleError::Validation(ValidationError::UnknownTimezone)),
        };
        if !same_text(zone.as_str(), timezone) {
            return Err(ScheduleError::Validation(ValidationError::UnknownTimezone));
        }
        let ghost before = self@;
        let (i, mut g) = self.take(group_id);
        g.config.default_timezone = Some(zone);
        self.restore(i, g, Ghost(before));
        Ok(())
    }
}

/// The events one group fired in one tick.
#[derive(Clone, Debug)]
pub struct GroupFiring {
    pub group_id: u64,
    pub announce_target: Option<u64>,
    /// The fired events as they were before they were rescheduled, in
    /// schedule order.
    pub events: Vec<Event>,
}

/// One group's part of a tick: `out` is the prefix of `before` due at
/// `now`, and `after` holds the rest of `before` and each fired event at its
/// next occurrence.
pub open spec fn fired(before: Seq<EventView>, out: Seq<EventView>, after: Seq<EventView>, now: int) -> bool {
    &&& due_split(before, now, out.len() as int)
    &&& out == before.subrange(0, out.len() as int)
    &&& forall|x: EventView| #[trigger] after.contains(x) <==> ((before.contains(x) && x.at > now) || exists|j: int|
        0 <= j < out.len() && x == rescheduled(#[trigger] out[j], now))
}

/// One saved group: its id, configuration and events.
#[derive(Clone, Debug)]
pub struct GroupRecord {
    pub group_id: u64,
    pub config: GroupConfig,
    pub events: Vec<Event>,
}

/// The value of a saved group.
pub open spec fn record_view(r: GroupRecord) -> GroupView {
    GroupView { id: r.group_id, config: r.config@, events: views(r.events@) }
}

/// The value of a saved store.
pub open spec fn records_view(rs: Seq<GroupRecord>) -> Seq<GroupView> {
    rs.map_values(|r: GroupRecord| record_view(r))
}

/// A saved store can be loaded: no group occurs twice and no subject twice
/// within a group.
pub open spec fn loadable(s: Seq<GroupView>) -> bool {
    unique_ids(s) && forall|i: int| 0 <= i < s.len() ==> unique_subjects(#[trigger] s[i].events)
}

/// `t` is what loading `s` gives: the same groups in the same order, with
/// the same configurations, each holding the same events in schedule order.
pub open spec fn loaded_from(t: Seq<GroupView>, s: Seq<GroupView>) -> bool {
    &&& t.len() == s.len()
    &&& forall|i: int| 0 <= i < t.len() ==> {
        &&& (#[trigger] t[i]).id == s[i].id
        &&& t[i].config == s[i].config
        &&& well_ordered(t[i].events)
        &&& forall|x: EventView| #[trigger] t[i].events.contains(x) <==> s[i].events.contains(x)
    }
}

/// Why a saved store could not be loaded.
#[derive(Clone, Copy, Debug, PartialEq, Eq, Structural)]
pub enum SnapshotError {
    /// A group occurs twice.
    DuplicateGroup,
    /// A subject occurs twice within a group.
    DuplicateSubject,
}

fn subjects_distinct(events: &Vec<Event>) -> (r: bool)
    ensures
        r == unique_subjects(views(events@)),
{
    let ghost s = views(events@);
    let mut i: usize = 0;
    while i < events.len()
        invariant
            i <= events@.len(),
            s == views(events@),
            forall|a: int, b: int| 0 <= a < i && 0 <= b < s.len() && a != b ==> (#[trigger] s[a]).subject
                != (#[trigger] s[b]).subject,
        decreases events@.len() - i,
    {
        let mut j: usize = 0;
        while j < events.len()
            invariant
                i < events@.len(),
                j <= events@.len(),
                s == views(events@),
                forall|a: int, b: int| 0 <= a < i && 0 <= b < s.len() && a != b ==> (#[trigger] s[a]).subject
                    != (#[trigger] s[b]).subject,
                forall|b: int| 0 <= b < j && b != i ==> s[i as int].subject != (#[trigger] s[b]).subject,
            decreases events@.len() - j,
        {
            if j != i && events[i].subject_id == events[j].subject_id {
                assert(s[i as int].subject == s[j as int].subject);
                return false;
            }
            j = j + 1;
        }
        i = i + 1;
    }
    true
}

fn groups_distinct(records: &Vec<GroupRecord>) -> (r: bool)
    ensures
        r == unique_ids(records_view(records@)),
{
    let ghost s = records_view(records@);
    let mut i: usize = 0;
    while i < records.len()
        invariant
            i <= records@.len(),
            s == records_view(records@),
            forall|a: int, b: int| 0 <= a < i && 0 <= b < s.len() && a != b ==> (#[trigger] s[a]).id
                != (#[trigger] s[b]).id,
        decreases records@.len() - i,
    {
        let mut j: usize = 0;
        while j < records.len()
            invariant
                i < records@.len(),
                j <= records@.len(),
                s == records_view(records@),
                forall|a: int, b: int| 0 <= a < i && 0 <= b < s.len() && a != b ==> (#[trigger] s[a]).id
                    != (#[trigger] s[b]).id,
                forall|b: int| 0 <= b < j && b != i ==> s[i as int].id != (#[trigger] s[b]).id,
            decreases records@.len() - j,
        {
            if j != i && records[i].group_id == records[j].group_id {
                assert(s[i as int].id == s[j as int].id);
                return false;
            }
            j = j + 1;
        }
        i = i + 1;
    }
    true
}

/// Builds a schedule from events with distinct subjects, in any order.
fn rebuild(events: &Vec<Event>) -> (r: Schedule)
    requires
        unique_subjects(views(events@)),
    ensures
        r.wf(),
        forall|x: EventView| #[trigger] r@.contains(x) <==> views(events@).contains(x),
{
    let ghost s = views(events@);
    let mut sch = Schedule::new();
    let mut i: usize = 0;
    while i < events.len()
        invariant
            i <= events@.len(),
            s == views(events@),
            unique_subjects(s),
            sch.wf(),
            forall|x: EventView| #[trigger] sch@.contains(x) <==> exists|a: int| 0 <= a < i && #[trigger] s[a] == x,
        decreases events@.len() - i,
    {
        let e = events[i].duplicate();
        let ghost before = sch@;
        proof {
            assert(s[i as int] == events@[i as int]@);
            assert forall|x: EventView| #[trigger] before.contains(x) implies x.subject != e@.subject by {
                let a = choose|a: int| 0 <= a < i && #[trigger] s[a] == x;
            }
        }
        sch.insert(e);
        proof {
            assert forall|x: EventView| #[trigger] sch@.contains(x) <==> exists|a: int| 0 <= a < i + 1 && #[trigger] s[a] == x by {
                if x == e@ {
                    assert(s[i as int] == x);
                }
            }
        }
        i = i + 1;
    }
    proof {
        assert forall|x: EventView| #[trigger] sch@.contains(x) <==> s.contains(x) by {
            if s.contains(x) {
                let a = choose|a: int| 0 <= a < s.len() && s[a] == x;
            }
        }
    }
    sch
}

impl Store {
    /// One tick of the scheduler over every group: each group's due events
    /// are removed and put back at their next occurrence after `now`. Returns,
    /// per group in store order, the events that fired.
    pub fn tick(&mut self, now: i64) -> (r: Vec<GroupFiring>)
        requires
            old(self).wf(),
            now <= LATEST_NOW,
        ensures
            final(self).wf(),
            r@.len() == old(self)@.len(),
            final(self)@.len() == old(self)@.len(),
            forall|i: int| 0 <= i < r@.len() ==> {
                &&& (#[trigger] r@[i]).group_id == old(self)@[i].id
                &&& r@[i].announce_target == old(self)@[i].config.announce_target
                &&& final(self)@[i].id == old(self)@[i].id
                &&& final(self)@[i].config == old(self)@[i].config
                &&& fired(old(self)@[i].events, views(r@[i].events@), final(self)@[i].events, now as int)
            },
    {
        let ghost s = self@;
        proof {
            self.lemma_states_wf();
        }
        let mut out: Vec<GroupFiring> = Vec::new();
        let mut i: usize = 0;
        while i < self.groups.len()
            invariant
                i <= self@.len(),
                now <= LATEST_NOW,
                self@.len() == s.len(),
                self.groups@.len() == s.len(),
                out@.len() == i,
                self.states_wf(),
                store_wf(s),
                forall|j: int| 0 <= j < s.len() ==> (#[trigger] self@[j]).id == s[j].id,
                forall|j: int| i <= j < s.len() ==> #[trigger] self@[j] == s[j],
                forall|j: int| 0 <= j < i ==> {
                    &&& (#[trigger] out@[j]).group_id == s[j].id
                    &&& out@[j].announce_target == s[j].config.announce_target
                    &&& self@[j].config == s[j].config
                    &&& fired(s[j].events, views(out@[j].events@), self@[j].events, now as int)
                },
            decreases s.len() - i,
        {
            let ghost mid = self@;
            let ghost states = self.groups@;
            assert(states[i as int].wf());
            assert(mid[i as int] == states[i as int]@);
            let mut g = self.groups.remove(i);
            let events = g.schedule.fire_due(now);
            proof {
                assert forall|j: int| 0 <= j < events@.len() implies views(events@)[j] == (
                #[trigger] events@[j])@ by {}
            }
            out.push(GroupFiring {
                group_id: g.group_id,
                announce_target: g.config.announce_target,
                events,
            });
            let ghost gv = g@;
            self.groups.insert(i, g);
            proof {
                assert(self.groups@ =~= states.update(i as int, self.groups@[i as int]));
                assert(self@ =~= mid.update(i as int, gv));
                assert forall|j: int| 0 <= j < self.groups@.len() implies (#[trigger] self.groups@[j]).wf() by {
                    if j != i {
                        assert(self.groups@[j] == states[j]);
                    }
                }
                assert(out@[i as int].events@ == events@);
                assert forall|x: EventView| #[trigger] gv.events.contains(x) <==> ((s[i as int].events.contains(
                    x) && x.at > now) || exists|j: int|
                    0 <= j < views(events@).len() && x == rescheduled(#[trigger] views(events@)[j], now as int)) by {
                    if exists|j: int| 0 <= j < events@.len() && x == rescheduled(#[trigger] events@[j]@, now as int) {
                        let j = choose|j: int| 0 <= j < events@.len() && x == rescheduled(#[trigger] events@[j]@, now as int);
                        assert(x == rescheduled(views(events@)[j], now as int));
                    }
                    if exists|j: int| 0 <= j < views(events@).len() && x == rescheduled(#[trigger] views(events@)[j], now as int) {
                        let j = choose|j: int| 0 <= j < views(events@).len() && x == rescheduled(#[trigger] views(events@)[j], now as int);
                        assert(x == rescheduled(events@[j]@, now as int));
                    }
                }
            }
            i = i + 1;
        }
        proof {
            assert forall|a: int, b: int| 0 <= a < self@.len() && 0 <= b < self@.len() && a != b implies (
            #[trigger] self@[a]).id != (#[trigger] self@[b]).id by {
                assert(s[a].id != s[b].id);
            }
            self.lemma_states_wf();
        }
        out
    }

    /// The saved form of the store: per group, its id, configuration and
    /// events in schedule order.
    pub fn to_snapshot(&self) -> (r: Vec<GroupRecord>)
        requires
            self.wf(),
        ensures
            records_view(r@) == self@,
    {
        let mut out: Vec<GroupRecord> = Vec::new();
        let mut i: usize = 0;
        while i < self.groups.len()
            invariant
                i <= self@.len(),
                self@.len() == self.groups@.len(),
                records_view(out@) == self@.subrange(0, i as int),
            decreases self@.len() - i,
        {
            let g = &self.groups[i];
            let items = g.schedule.ordered_iter();
            let mut events: Vec<Event> = Vec::new();
            let mut j: usize = 0;
            while j < items.len()
                invariant
                    j <= items@.len(),
                    views(events@) == views(items@).subrange(0, j as int),
                decreases items@.len() - j,
            {
                let ghost before = events@;
                events.push(items[j].duplicate());
                proof {
                    assert(views(events@) =~= views(before).push(items@[j as int]@));
                    assert(views(items@).subrange(0, j + 1) =~= views(items@).subrange(0, j as int).push(
                        views(items@)[j as int],
                    ));
                }
                j = j + 1;
            }
            proof {
                assert(views(items@).subrange(0, items@.len() as int) =~= views(items@));
            }
            let record = GroupRecord { group_id: g.group_id, config: g.config.duplicate(), events };
            let ghost before = out@;
            out.push(record);
            proof {
                assert(self@[i as int] == self.groups@[i as int]@);
                assert(records_view(out@) =~= records_view(before).push(record_view(record)));
                assert(self@.subrange(0, i + 1) =~= self@.subrange(0, i as int).push(self@[i as int]));
            }
            i = i + 1;
        }
        proof {
            assert(self@.subrange(0, self@.len() as int) =~= self@);
        }
        out
    }

    /// Loads a saved store, rebuilding each group's schedule from its events.
    pub fn from_snapshot(records: &Vec<GroupRecord>) -> (r: Result<Store, SnapshotError>)
        ensures
            match r {
                Ok(st) => loadable(records_view(records@)) && st.wf() && loaded_from(st@, records_view(records@)),
                Err(e) => !loadable(records_view(records@)) && (e == SnapshotError::DuplicateGroup
                    <==> !unique_ids(records_view(records@))),
            },
    {
        let ghost s = records_view(records@);
        if !groups_distinct(records) {
            return Err(SnapshotError::DuplicateGroup);
        }
        let mut groups: Vec<GroupState> = Vec::new();
        let mut i: usize = 0;
        while i < records.len()
            invariant
                i <= records@.len(),
                s == records_view(records@),
                unique_ids(s),
                groups@.len() == i,
                forall|j: int| 0 <= j < i ==> unique_subjects(#[trigger] s[j].events),
                forall|j: int| 0 <= j < i ==> {
                    &&& (#[trigger] groups@[j]).wf()
                    &&& groups@[j]@.id == s[j].id
                    &&& groups@[j]@.config == s[j].config
                    &&& forall|x: EventView| #[trigger] groups@[j]@.events.contains(x) <==> s[j].events.contains(x)
                },
            decreases records@.len() - i,
        {
            let rec = &records[i];
            assert(s[i as int] == record_view(records@[i as int]));
            if !subjects_distinct(&rec.events) {
                assert(!unique_subjects(s[i as int].events));
                assert(!loadable(s));
                return Err(SnapshotError::DuplicateSubject);
            }
            let schedule = rebuild(&rec.events);
            let g = GroupState { group_id: rec.group_id, config: rec.config.duplicate(), schedule };
            groups.push(g);
            i = i + 1;
        }
        let st = Store { groups };
        proof {
            assert forall|a: int, b: int| 0 <= a < st@.len() && 0 <= b < st@.len() && a != b implies (
            #[trigger] st@[a]).id != (#[trigger] st@[b]).id by {
                assert(st@[a] == st.groups@[a]@ && st@[b] == st.groups@[b]@);
            }
            assert forall|j: int| 0 <= j < st@.len() implies {
                &&& (#[trigger] st@[j]).id == s[j].id
                &&& st@[j].config == s[j].config
                &&& well_ordered(st@[j].events)
                &&& forall|x: EventView| #[trigger] st@[j].events.contains(x) <==> s[j].events.contains(x)
            } by {
                assert(st@[j] == st.groups@[j]@);
                assert(st.groups@[j].wf());
            }
            st.lemma_states_wf();
        }
        Ok(st)
    }
}

/// Whether two strings hold the same characters.
fn same_text(a: &str, b: &str) -> (r: bool)
    ensures
        r == (a@ == b@),
{
    let n = a.unicode_len();
    if n != b.unicode_len() {
        return false;
    }
    let mut i: usize = 0;
    while i < n
        invariant
            n == a@.len(),
            n == b@.len(),
            i <= n,
            forall|j: int| 0 <= j < i ==> a@[j] == b@[j],
        decreases n - i,
    {
        if a.get_char(i) != b.get_char(i) {
            return false;
        }
        i = i + 1;
    }
    assert(a@ =~= b@);
    true
}

/// The zone an event uses: its own, else its group's default.
pub open spec fn chosen_zone(timezone: Option<Seq<char>>, config: GroupConfigView) -> Option<Seq<char>> {
    match timezone {
        Some(z) => Some(z),
        None => config.default_timezone,
    }
}

/// What [`Store::add_or_update`] returns.
pub open spec fn add_result(
    s: Seq<GroupView>,
    group_id: u64,
    month: int,
    day: int,
    time_of_day: Option<u32>,
    timezone: Option<Seq<char>>,
    now: int,
) -> Result<int, ScheduleError> {
    match chosen_zone(timezone, config_of(s, group_id)) {
        None => Err(ScheduleError::Validation(ValidationError::NoTimezone)),
        Some(z) => next_occurrence_spec(month, day, time_of_day, z, now),
    }
}

/// `b` is `a` with group `group_id` holding `config` and its events as before.
pub open spec fn configured(a: Seq<GroupView>, b: Seq<GroupView>, group_id: u64, config: GroupConfigView) -> bool {
    &&& others_unchanged(a, b, group_id)
    &&& group_of(b, group_id) == Some(GroupView { id: group_id, config, events: events_of(a, group_id) })
}

} // verus!
