use vstd::prelude::*;

use crate::event::{lemma_net_delta_bounds, views, Event, EventTag, EventView};

verus! {

/// The events of `s` that satisfy `p`, in their order.
pub open spec fn select(s: Seq<EventView>, p: spec_fn(EventView) -> bool) -> Seq<EventView>
    decreases s.len(),
{
    if s.len() == 0 {
        Seq::empty()
    } else {
        let rest = select(s.drop_last(), p);
        if p(s.last()) {
            rest.push(s.last())
        } else {
            rest
        }
    }
}

/// Events whose timestamp lies in `[start, end]`.
pub open spec fn in_range(start: u64, end: u64) -> spec_fn(EventView) -> bool {
    |e: EventView| start <= e.timestamp && e.timestamp <= end
}

/// Events with the tag `tag`.
pub open spec fn has_tag(tag: EventTag) -> spec_fn(EventView) -> bool {
    |e: EventView| e.tag == tag
}

/// Events of the agent `agent_id`.
pub open spec fn of_agent(agent_id: u64) -> spec_fn(EventView) -> bool {
    |e: EventView| e.agent_id == agent_id
}

/// The sum of the net deltas of the events of `s`.
pub open spec fn total_delta(s: Seq<EventView>) -> int
    decreases s.len(),
{
    if s.len() == 0 {
        0
    } else {
        total_delta(s.drop_last()) + s.last().net_delta()
    }
}

/// The number of ternary cells that the events of `s` carry.
pub open spec fn volume(s: Seq<EventView>) -> nat
    decreases s.len(),
{
    if s.len() == 0 {
        0
    } else {
        volume(s.drop_last()) + s.last().volume()
    }
}

/// Timestamps never decrease along `s`.
pub open spec fn sorted(s: Seq<EventView>) -> bool {
    forall|i: int, j: int| 0 <= i <= j < s.len() ==> s[i].timestamp <= s[j].timestamp
}

/// The sum of the net deltas is bounded by the volume, and so is each prefix's.
pub proof fn lemma_total_delta_bounds(s: Seq<EventView>)
    ensures
        -(volume(s) as int) <= total_delta(s) <= volume(s),
    decreases s.len(),
{
    if s.len() > 0 {
        lemma_total_delta_bounds(s.drop_last());
        lemma_net_delta_bounds(s.last());
    }
}

/// The volume of a prefix is at most the volume of the whole.
pub proof fn lemma_volume_prefix(s: Seq<EventView>, i: int)
    requires
        0 <= i <= s.len(),
    ensures
        volume(s.take(i)) <= volume(s),
        i < s.len() ==> volume(s.take(i)) + s[i].volume() <= volume(s),
    decreases s.len(),
{
    if i < s.len() {
        assert(s.drop_last().take(i) =~= s.take(i));
        if i < s.len() - 1 {
            lemma_volume_prefix(s.drop_last(), i);
            assert(s.drop_last()[i] == s[i]);
        } else {
            assert(s.take(i) =~= s.drop_last());
        }
    } else {
        assert(s.take(i) =~= s);
    }
}

/// The total length of the selections from `s` by each of `preds`.
pub open spec fn selected_total(s: Seq<EventView>, preds: Seq<spec_fn(EventView) -> bool>) -> nat
    decreases preds.len(),
{
    if preds.len() == 0 {
        0
    } else {
        selected_total(s, preds.drop_last()) + select(s, preds.last()).len()
    }
}

/// How many of `preds` hold of `e`.
pub open spec fn holding(preds: Seq<spec_fn(EventView) -> bool>, e: EventView) -> nat
    decreases preds.len(),
{
    if preds.len() == 0 {
        0
    } else {
        holding(preds.drop_last(), e) + if (preds.last())(e) {
            1nat
        } else {
            0nat
        }
    }
}

proof fn lemma_selected_total_empty(preds: Seq<spec_fn(EventView) -> bool>)
    ensures
        selected_total(Seq::empty(), preds) == 0,
    decreases preds.len(),
{
    if preds.len() > 0 {
        lemma_selected_total_empty(preds.drop_last());
    }
}

proof fn lemma_selected_total_push(
    t: Seq<EventView>,
    e: EventView,
    preds: Seq<spec_fn(EventView) -> bool>,
)
    ensures
        selected_total(t.push(e), preds) == selected_total(t, preds) + holding(preds, e),
    decreases preds.len(),
{
    if preds.len() > 0 {
        lemma_selected_total_push(t, e, preds.drop_last());
        assert(t.push(e).drop_last() =~= t);
    }
}

/// When each event satisfies exactly one of `preds`, the selections by `preds` together
/// hold every event once: their lengths add up to the number of events.
pub proof fn lemma_selections_partition(s: Seq<EventView>, preds: Seq<spec_fn(EventView) -> bool>)
    requires
        forall|i: int| 0 <= i < s.len() ==> holding(preds, #[trigger] s[i]) == 1,
    ensures
        selected_total(s, preds) == s.len(),
    decreases s.len(),
{
    if s.len() == 0 {
        lemma_selected_total_empty(preds);
        assert(s =~= Seq::<EventView>::empty());
    } else {
        let t = s.drop_last();
        assert forall|i: int| 0 <= i < t.len() implies holding(preds, #[trigger] t[i]) == 1 by {
            assert(t[i] == s[i]);
        }
        lemma_selections_partition(t, preds);
        assert(t.push(s.last()) =~= s);
        lemma_selected_total_push(t, s.last(), preds);
        assert(holding(preds, s[s.len() - 1]) == 1);
    }
}

/// One agent filter for each of the agents `ids`, in order.
pub open spec fn agent_filters(ids: Seq<u64>) -> Seq<spec_fn(EventView) -> bool> {
    Seq::new(ids.len(), |k: int| of_agent(ids[k]))
}

/// One tag filter for each of the tags `tags`, in order.
pub open spec fn tag_filters(tags: Seq<EventTag>) -> Seq<spec_fn(EventView) -> bool> {
    Seq::new(tags.len(), |k: int| has_tag(tags[k]))
}

/// Exactly one filter of a repeat-free list of agents that names an event's agent holds of it.
pub proof fn lemma_agent_filters_hold_once(ids: Seq<u64>, e: EventView)
    requires
        ids.no_duplicates(),
        ids.contains(e.agent_id),
    ensures
        holding(agent_filters(ids), e) == 1,
    decreases ids.len(),
{
    let rest = ids.drop_last();
    assert(agent_filters(ids).drop_last() =~= agent_filters(rest));
    if ids.last() == e.agent_id {
        assert(!rest.contains(e.agent_id)) by {
            if rest.contains(e.agent_id) {
                let k = choose|k: int| 0 <= k < rest.len() && rest[k] == e.agent_id;
                assert(ids[k] == ids[ids.len() - 1]);
            }
        }
        lemma_agent_filters_hold_none(rest, e);
    } else {
        let k = choose|k: int| 0 <= k < ids.len() && ids[k] == e.agent_id;
        assert(rest[k] == e.agent_id);
        assert(rest.no_duplicates()) by {
            assert forall|i: int, j: int|
                0 <= i < rest.len() && 0 <= j < rest.len() && i != j implies rest[i]
                != rest[j] by {
                assert(ids[i] == rest[i] && ids[j] == rest[j]);
            }
        }
        lemma_agent_filters_hold_once(rest, e);
    }
}

proof fn lemma_agent_filters_hold_none(ids: Seq<u64>, e: EventView)
    requires
        !ids.contains(e.agent_id),
    ensures
        holding(agent_filters(ids), e) == 0,
    decreases ids.len(),
{
    if ids.len() > 0 {
        let rest = ids.drop_last();
        assert(agent_filters(ids).drop_last() =~= agent_filters(rest));
        assert(!rest.contains(e.agent_id)) by {
            if rest.contains(e.agent_id) {
                let k = choose|k: int| 0 <= k < rest.len() && rest[k] == e.agent_id;
                assert(ids[k] == e.agent_id);
            }
        }
        lemma_agent_filters_hold_none(rest, e);
        assert(ids[ids.len() - 1] != e.agent_id);
    }
}

/// Exactly one filter of a repeat-free list of tags that names an event's tag holds of it.
pub proof fn lemma_tag_filters_hold_once(tags: Seq<EventTag>, e: EventView)
    requires
        tags.no_duplicates(),
        tags.contains(e.tag),
    ensures
        holding(tag_filters(tags), e) == 1,
    decreases tags.len(),
{
    let rest = tags.drop_last();
    assert(tag_filters(tags).drop_last() =~= tag_filters(rest));
    if tags.last() == e.tag {
        assert(!rest.contains(e.tag)) by {
            if rest.contains(e.tag) {
                let k = choose|k: int| 0 <= k < rest.len() && rest[k] == e.tag;
                assert(tags[k] == tags[tags.len() - 1]);
            }
        }
        lemma_tag_filters_hold_none(rest, e);
    } else {
        let k = choose|k: int| 0 <= k < tags.len() && tags[k] == e.tag;
        assert(rest[k] == e.tag);
        assert(rest.no_duplicates()) by {
            assert forall|i: int, j: int|
                0 <= i < rest.len() && 0 <= j < rest.len() && i != j implies rest[i]
                != rest[j] by {
                assert(tags[i] == rest[i] && tags[j] == rest[j]);
            }
        }
        lemma_tag_filters_hold_once(rest, e);
    }
}

proof fn lemma_tag_filters_hold_none(tags: Seq<EventTag>, e: EventView)
    requires
        !tags.contains(e.tag),
    ensures
        holding(tag_filters(tags), e) == 0,
    decreases tags.len(),
{
    if tags.len() > 0 {
        let rest = tags.drop_last();
        assert(tag_filters(tags).drop_last() =~= tag_filters(rest));
        assert(!rest.contains(e.tag)) by {
            if rest.contains(e.tag) {
                let k = choose|k: int| 0 <= k < rest.len() && rest[k] == e.tag;
                assert(tags[k] == e.tag);
            }
        }
        lemma_tag_filters_hold_none(rest, e);
        assert(tags[tags.len() - 1] != e.tag);
    }
}

/// A criterion by which events are picked out of a timeline.
enum Criterion {
    Range(u64, u64),
    Tag(EventTag),
    Agent(u64),
}

impl Criterion {
    spec fn pred(self) -> spec_fn(EventView) -> bool {
        match self {
            Criterion::Range(start, end) => in_range(start, end),
            Criterion::Tag(tag) => has_tag(tag),
            Criterion::Agent(agent_id) => of_agent(agent_id),
        }
    }

    fn holds(&self, e: &Event) -> (b: bool)
        ensures
            b == (self.pred())(e@),
    {
        match self {
            Criterion::Range(start, end) => *start <= e.timestamp && e.timestamp <= *end,
            Criterion::Tag(tag) => e.tag == *tag,
            Criterion::Agent(agent_id) => e.agent_id == *agent_id,
        }
    }
}

/// An ordered sequence of events.
#[derive(Debug)]
pub struct Timeline {
    events: Vec<Event>,
}

impl View for Timeline {
    type V = Seq<EventView>;

    closed spec fn view(&self) -> Seq<EventView> {
        views(self.events@)
    }
}

impl Clone for Timeline {
    fn clone(&self) -> (t: Self)
        ensures
            t@ == self@,
    {
        let mut events: Vec<Event> = Vec::new();
        let mut i: usize = 0;
        while i < self.events.len()
            invariant
                i <= self.events@.len(),
                events@.len() == i,
                views(events@) == self@.take(i as int),
            decreases self.events@.len() - i,
        {
            let e = self.events[i].clone();
            assert(e@ == self@[i as int]);
            let ghost prev = events@;
            events.push(e);
            i = i + 1;
            proof {
                assert forall|j: int| 0 <= j < i implies #[trigger] views(events@)[j]
                    == self@.take(i as int)[j] by {
                    if j < i - 1 {
                        assert(views(prev)[j] == self@.take(i - 1)[j]);
                    }
                }
                assert(views(events@) =~= self@.take(i as int));
            }
        }
        let t = Timeline { events };
        assert(t@ =~= self@);
        t
    }
}

impl Timeline {
    /// A timeline holds at most as many events as a `usize` counts.
    pub proof fn lemma_len_fits(&self)
        ensures
            self@.len() <= usize::MAX,
    {
        assert(self.events.len() == self.events@.len());
    }

    pub fn new() -> (t: Self)
        ensures
            t@ == Seq::<EventView>::empty(),
    {
        let t = Timeline { events: Vec::new() };
        assert(t@ =~= Seq::<EventView>::empty());
        t
    }

    /// Add an event (must have timestamp >= last event).
    pub fn push(&mut self, event: Event) -> (r: Result<(), &'static str>)
        ensures
            r is Ok <==> (old(self)@.len() == 0 || old(self)@.last().timestamp
                <= event.timestamp),
            r is Ok ==> final(self)@ == old(self)@.push(event@),
            r matches Err(msg) ==> final(self)@ == old(self)@ && msg@
                == "Event timestamp must be >= last event timestamp"@,
            r is Ok && sorted(old(self)@) ==> sorted(final(self)@),
    {
        let n: usize = self.events.len();
        if n > 0 {
            if event.timestamp < self.events[n - 1].timestamp {
                return Err("Event timestamp must be >= last event timestamp");
            }
        }
        self.push_unchecked(event);
        Ok(())
    }

    /// Add event without timestamp ordering check.
    pub fn push_unchecked(&mut self, event: Event)
        ensures
            final(self)@ == old(self)@.push(event@),
    {
        self.events.push(event);
        assert(self@ =~= old(self)@.push(event@));
    }

    /// Get all events.
    pub fn events(&self) -> (s: &[Event])
        ensures
            views(s@) == self@,
    {
        self.events.as_slice()
    }

    /// Number of events.
    pub fn len(&self) -> (n: usize)
        ensures
            n == self@.len(),
    {
        self.events.len()
    }

    pub fn is_empty(&self) -> (b: bool)
        ensures
            b == (self@.len() == 0),
    {
        self.events.len() == 0
    }

    fn select_refs(&self, c: Criterion) -> (r: Vec<&Event>)
        ensures
            views(r@) == select(self@, c.pred()),
    {
        let mut r: Vec<&Event> = Vec::new();
        let mut i: usize = 0;
        while i < self.events.len()
            invariant
                i <= self.events@.len(),
                views(r@) == select(self@.take(i as int), c.pred()),
            decreases self.events@.len() - i,
        {
            let e = &self.events[i];
            let ghost prev = r@;
            if c.holds(e) {
                r.push(e);
            }
            proof {
                assert(self@.take(i + 1).drop_last() =~= self@.take(i as int));
                assert(self@.take(i + 1).last() == e@);
                if (c.pred())(e@) {
                    assert(views(r@) =~= views(prev).push(e@));
                }
            }
            i = i + 1;
        }
        assert(self@.take(self.events@.len() as int) =~= self@);
        r
    }

    /// Get events in a time range [start, end].
    pub fn range(&self, start: u64, end: u64) -> (r: Vec<&Event>)
        ensures
            views(r@) == select(self@, in_range(start, end)),
    {
        self.select_refs(Criterion::Range(start, end))
    }

    /// Filter events by tag.
    pub fn by_tag(&self, tag: EventTag) -> (r: Vec<&Event>)
        ensures
            views(r@) == select(self@, has_tag(tag)),
    {
        self.select_refs(Criterion::Tag(tag))
    }

    /// Filter events by agent.
    pub fn by_agent(&self, agent_id: u64) -> (r: Vec<&Event>)
        ensures
            views(r@) == select(self@, of_agent(agent_id)),
    {
        self.select_refs(Criterion::Agent(agent_id))
    }

    /// Compute total net delta across all events.
    pub fn total_delta(&self) -> (d: i64)
        requires
            volume(self@) <= i64::MAX,
        ensures
            d == total_delta(self@),
    {
        let mut d: i64 = 0;
        let mut i: usize = 0;
        while i < self.events.len()
            invariant
                i <= self.events@.len(),
                volume(self@) <= i64::MAX,
                d == total_delta(self@.take(i as int)),
            decreases self.events@.len() - i,
        {
            proof {
                lemma_volume_prefix(self@, i as int);
                lemma_total_delta_bounds(self@.take(i as int));
                lemma_net_delta_bounds(self@[i as int]);
                assert(self@.take(i + 1).drop_last() =~= self@.take(i as int));
            }
            let e = &self.events[i];
            assert(e@ == self@[i as int]);
            let x: i64 = e.net_delta();
            d = d + x;
            i = i + 1;
        }
        assert(self@.take(self.events@.len() as int) =~= self@);
        d
    }
}

impl Default for Timeline {
    fn default() -> (t: Self)
        ensures
            t@ == Seq::<EventView>::empty(),
    {
        Self::new()
    }
}

} // verus!
