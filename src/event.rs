use vstd::prelude::*;

verus! {

/// One scheduled occurrence: whose event it is, when it next fires (seconds
/// since the Unix epoch, UTC), whether a time of day was given, and whom to
/// mention when it fires.
#[derive(Clone, Debug)]
pub struct Event {
    pub subject_id: String,
    pub occurrence_at: i64,
    pub uses_time_of_day: bool,
    pub notify_target: u64,
}

/// The mathematical value of an [`Event`].
pub struct EventView {
    pub subject: Seq<char>,
    pub at: int,
    pub uses_time_of_day: bool,
    pub target: u64,
}

impl View for Event {
    type V = EventView;

    open spec fn view(&self) -> EventView {
        EventView {
            subject: self.subject_id@,
            at: self.occurrence_at as int,
            uses_time_of_day: self.uses_time_of_day,
            target: self.notify_target,
        }
    }
}

/// Lexicographic order on character sequences, comparing from position `i`.
pub open spec fn lex_lt_from(a: Seq<char>, b: Seq<char>, i: int) -> bool
    decreases a.len() - i,
{
    if i < 0 {
        false
    } else if i >= a.len() {
        i < b.len()
    } else if i >= b.len() {
        false
    } else if a[i] != b[i] {
        (a[i] as int) < (b[i] as int)
    } else {
        lex_lt_from(a, b, i + 1)
    }
}

/// Strict lexicographic order on subject identifiers.
pub open spec fn lex_lt(a: Seq<char>, b: Seq<char>) -> bool {
    lex_lt_from(a, b, 0)
}

/// The order of the schedule: by occurrence, then by subject.
pub open spec fn key_lt(x: EventView, y: EventView) -> bool {
    x.at < y.at || (x.at == y.at && lex_lt(x.subject, y.subject))
}

proof fn lemma_lex_from_irreflexive(a: Seq<char>, i: int)
    ensures
        !lex_lt_from(a, a, i),
    decreases a.len() - i,
{
    if 0 <= i < a.len() {
        lemma_lex_from_irreflexive(a, i + 1);
    }
}

proof fn lemma_lex_from_transitive(a: Seq<char>, b: Seq<char>, c: Seq<char>, i: int)
    requires
        lex_lt_from(a, b, i),
        lex_lt_from(b, c, i),
    ensures
        lex_lt_from(a, c, i),
    decreases a.len() - i,
{
    if 0 <= i < a.len() && a[i] == b[i] && b[i] == c[i] {
        lemma_lex_from_transitive(a, b, c, i + 1);
    }
}

proof fn lemma_lex_from_total(a: Seq<char>, b: Seq<char>, i: int)
    requires
        0 <= i <= a.len(),
        i <= b.len(),
        a.subrange(i, a.len() as int) != b.subrange(i, b.len() as int),
    ensures
        lex_lt_from(a, b, i) || lex_lt_from(b, a, i),
    decreases a.len() - i,
{
    if i < a.len() && i < b.len() && a[i] == b[i] {
        assert(a.subrange(i + 1, a.len() as int) != b.subrange(i + 1, b.len() as int)) by {
            if a.subrange(i + 1, a.len() as int) == b.subrange(i + 1, b.len() as int) {
                assert(a.subrange(i, a.len() as int) =~= seq![a[i]] + a.subrange(i + 1, a.len() as int));
                assert(b.subrange(i, b.len() as int) =~= seq![b[i]] + b.subrange(i + 1, b.len() as int));
            }
        }
        lemma_lex_from_total(a, b, i + 1);
    } else if i < a.len() && i < b.len() {
        assert((a[i] as int) != (b[i] as int));
    } else if i == a.len() && i == b.len() {
        assert(a.subrange(i, a.len() as int) =~= b.subrange(i, b.len() as int));
    }
}

/// The subject order is a strict total order.
pub proof fn lemma_lex_order(a: Seq<char>, b: Seq<char>, c: Seq<char>)
    ensures
        !lex_lt(a, a),
        lex_lt(a, b) && lex_lt(b, c) ==> lex_lt(a, c),
        a != b ==> lex_lt(a, b) || lex_lt(b, a),
        lex_lt(a, b) ==> !lex_lt(b, a),
{
    lemma_lex_from_irreflexive(a, 0);
    if lex_lt(a, b) && lex_lt(b, c) {
        lemma_lex_from_transitive(a, b, c, 0);
    }
    if a != b {
        assert(a.subrange(0, a.len() as int) =~= a);
        assert(b.subrange(0, b.len() as int) =~= b);
        lemma_lex_from_total(a, b, 0);
    }
    if lex_lt(a, b) && lex_lt(b, a) {
        lemma_lex_from_transitive(a, b, a, 0);
    }
}

/// The schedule order is a strict total order on events with distinct
/// subjects.
pub proof fn lemma_key_order(x: EventView, y: EventView, z: EventView)
    ensures
        !key_lt(x, x),
        key_lt(x, y) && key_lt(y, z) ==> key_lt(x, z),
        x.subject != y.subject ==> key_lt(x, y) || key_lt(y, x),
        key_lt(x, y) ==> !key_lt(y, x),
{
    lemma_lex_order(x.subject, y.subject, z.subject);
    lemma_lex_order(y.subject, x.subject, z.subject);
}

/// Compares two subject identifiers in lexicographic order of their characters.
pub fn subject_lt(a: &String, b: &String) -> (r: bool)
    ensures
        r == lex_lt(a@, b@),
{
    let sa = a.as_str();
    let sb = b.as_str();
    let la = sa.unicode_len();
    let lb = sb.unicode_len();
    let mut i: usize = 0;
    while i < la && i < lb
        invariant
            sa@ == a@,
            sb@ == b@,
            la == a@.len(),
            lb == b@.len(),
            i <= la,
            i <= lb,
            lex_lt(a@, b@) == lex_lt_from(a@, b@, i as int),
        decreases la - i,
    {
        let ca = sa.get_char(i);
        let cb = sb.get_char(i);
        if ca != cb {
            return (ca as u32) < (cb as u32);
        }
        i = i + 1;
    }
    i == la && i < lb
}

/// Compares two events in schedule order.
pub fn event_lt(x: &Event, y: &Event) -> (r: bool)
    ensures
        r == key_lt(x@, y@),
{
    if x.occurrence_at != y.occurrence_at {
        x.occurrence_at < y.occurrence_at
    } else {
        subject_lt(&x.subject_id, &y.subject_id)
    }
}

impl Event {
    /// A copy of this event.
    pub fn duplicate(&self) -> (r: Event)
        ensures
            r@ == self@,
    {
        Event {
            subject_id: self.subject_id.clone(),
            occurrence_at: self.occurrence_at,
            uses_time_of_day: self.uses_time_of_day,
            notify_target: self.notify_target,
        }
    }
}

} // verus!
