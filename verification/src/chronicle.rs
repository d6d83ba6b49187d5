use vstd::prelude::*;

use std::collections::HashMap;

use crate::event::{views, Event, EventView};
use crate::timeline::{
    agent_filters, lemma_agent_filters_hold_once, lemma_selections_partition, of_agent, select,
    selected_total, Timeline,
};

verus! {

broadcast use vstd::std_specs::hash::group_hash_axioms;

/// Whether some event of `s` belongs to the agent `agent_id`.
pub open spec fn has_agent(s: Seq<EventView>, agent_id: u64) -> bool {
    exists|i: int| 0 <= i < s.len() && #[trigger] s[i].agent_id == agent_id
}

/// The agents that have events in `s`.
pub open spec fn agents(s: Seq<EventView>) -> Set<u64> {
    Set::new(|a: u64| has_agent(s, a))
}

/// Selecting after appending an event selects the new event too, if it qualifies.
pub proof fn lemma_select_push(s: Seq<EventView>, e: EventView, p: spec_fn(EventView) -> bool)
    ensures
        select(s.push(e), p) == if p(e) {
            select(s, p).push(e)
        } else {
            select(s, p)
        },
{
    assert(s.push(e).drop_last() =~= s);
}

/// The main chronicle: maintains timelines for multiple agents.
#[derive(Debug)]
pub struct Chronicle {
    timelines: HashMap<u64, Timeline>,
    global_timeline: Timeline,
    next_event_id: u64,
}

impl View for Chronicle {
    type V = Seq<EventView>;

    /// All recorded events, in the order they were recorded.
    closed spec fn view(&self) -> Seq<EventView> {
        self.global_timeline@
    }
}

impl Clone for Chronicle {
    fn clone(&self) -> (c: Self)
        ensures
            c@ == self@,
    {
        proof {
            use_type_invariant(self);
        }
        Chronicle {
            timelines: self.timelines.clone(),
            global_timeline: self.global_timeline.clone(),
            next_event_id: self.next_event_id,
        }
    }
}

impl Chronicle {
    /// The per-agent timelines are exactly the global timeline split by agent.
    #[verifier::type_invariant]
    closed spec fn wf(self) -> bool {
        &&& self.next_event_id == self.global_timeline@.len()
        &&& forall|a: u64| #[trigger]
            self.timelines@.contains_key(a) <==> has_agent(self.global_timeline@, a)
        &&& forall|a: u64| #[trigger]
            self.timelines@.contains_key(a) ==> self.timelines@[a]@ == select(
                self.global_timeline@,
                of_agent(a),
            )
    }

    /// A chronicle holds at most as many events as a `usize` counts.
    pub proof fn lemma_len_fits(&self)
        ensures
            self@.len() <= usize::MAX,
    {
        self.global_timeline.lemma_len_fits();
    }

    pub fn new() -> (c: Self)
        ensures
            c@ == Seq::<EventView>::empty(),
    {
        Chronicle { timelines: HashMap::new(), global_timeline: Timeline::new(), next_event_id: 0 }
    }

    /// Record an event for an agent.
    pub fn record(&mut self, event: Event)
        ensures
            final(self)@ == old(self)@.push(event@),
    {
        let mut current = Chronicle::new();
        std::mem::swap(&mut current, self);
        proof {
            use_type_invariant(&current);
        }
        let ghost before = current@;
        let Chronicle { mut timelines, mut global_timeline, next_event_id } = current;
        let agent_id: u64 = event.agent_id;
        global_timeline.push_unchecked(event.clone());
        let mut agent_line = match timelines.remove(&agent_id) {
            Some(t) => t,
            None => Timeline::new(),
        };
        proof {
            if !has_agent(before, agent_id) {
                assert(select(before, of_agent(agent_id)) =~= Seq::<EventView>::empty()) by {
                    lemma_select_none(before, agent_id);
                }
            }
        }
        agent_line.push_unchecked(event);
        timelines.insert(agent_id, agent_line);
        proof {
            let after = global_timeline@;
            assert(after == before.push(event@));
            assert(before.len() < after.len());
            global_timeline.lemma_len_fits();
            assert forall|a: u64| #[trigger]
                timelines@.contains_key(a) <==> has_agent(after, a) by {
                if has_agent(before, a) {
                    let i = choose|i: int| 0 <= i < before.len() && before[i].agent_id == a;
                    assert(after[i].agent_id == a);
                }
                if a == agent_id {
                    assert(after[before.len() as int].agent_id == a);
                }
                if has_agent(after, a) && a != agent_id {
                    let i = choose|i: int| 0 <= i < after.len() && after[i].agent_id == a;
                    assert(i < before.len());
                    assert(before[i].agent_id == a);
                }
            }
            assert forall|a: u64| #[trigger]
                timelines@.contains_key(a) implies timelines@[a]@ == select(after, of_agent(a)) by {
                lemma_select_push(before, event@, of_agent(a));
            }
        }
        *self = Chronicle { timelines, global_timeline, next_event_id: next_event_id + 1 };
    }

    /// Get the timeline for a specific agent.
    pub fn agent_timeline(&self, agent_id: u64) -> (r: Option<&Timeline>)
        ensures
            r is Some <==> has_agent(self@, agent_id),
            r matches Some(t) ==> t@ == select(self@, of_agent(agent_id)),
    {
        proof {
            use_type_invariant(self);
        }
        self.timelines.get(&agent_id)
    }

    /// Get the global timeline.
    pub fn global_timeline(&self) -> (t: &Timeline)
        ensures
            t@ == self@,
    {
        &self.global_timeline
    }

    /// Number of agents with recorded events.
    pub fn agent_count(&self) -> (n: usize)
        ensures
            n == agents(self@).len(),
    {
        proof {
            use_type_invariant(self);
            assert(self.timelines@.dom() =~= agents(self@));
        }
        self.timelines.len()
    }

    /// The events of one agent, in the order they were recorded.
    pub fn by_agent(&self, agent_id: u64) -> (r: Vec<&Event>)
        ensures
            views(r@) == select(self@, of_agent(agent_id)),
    {
        self.global_timeline.by_agent(agent_id)
    }

    /// Total number of events across all agents.
    pub fn total_events(&self) -> (n: usize)
        ensures
            n == self@.len(),
    {
        self.global_timeline.len()
    }
}

/// After an event is recorded, its agent has a timeline, and that timeline is the agent's
/// earlier timeline with the event appended; the timelines of other agents do not change.
pub proof fn lemma_record_then_query(s: Seq<EventView>, e: EventView, other: u64)
    ensures
        has_agent(s.push(e), e.agent_id),
        select(s.push(e), of_agent(e.agent_id)) == select(s, of_agent(e.agent_id)).push(e),
        other != e.agent_id ==> select(s.push(e), of_agent(other)) == select(s, of_agent(other))
            && (has_agent(s.push(e), other) <==> has_agent(s, other)),
{
    lemma_select_push(s, e, of_agent(e.agent_id));
    lemma_select_push(s, e, of_agent(other));
    assert(s.push(e)[s.len() as int].agent_id == e.agent_id);
    if other != e.agent_id {
        if has_agent(s, other) {
            let i = choose|i: int| 0 <= i < s.len() && s[i].agent_id == other;
            assert(s.push(e)[i].agent_id == other);
        }
        if has_agent(s.push(e), other) {
            let i = choose|i: int| 0 <= i < s.push(e).len() && s.push(e)[i].agent_id == other;
            assert(s[i].agent_id == other);
        }
    }
}

/// The agents' timelines together hold every recorded event exactly once: for any list of
/// agents without repeats that names the agent of every event, the lengths of their
/// timelines (the chronicle's events selected by agent) add up to the number of events.
pub proof fn lemma_agent_timelines_add_up(chronicle: Chronicle, ids: Seq<u64>)
    requires
        ids.no_duplicates(),
        forall|i: int| 0 <= i < chronicle@.len() ==> ids.contains((#[trigger] chronicle@[i]).agent_id),
    ensures
        selected_total(chronicle@, agent_filters(ids)) == chronicle@.len(),
{
    let s = chronicle@;
    assert forall|i: int| 0 <= i < s.len() implies crate::timeline::holding(
        agent_filters(ids),
        #[trigger] s[i],
    ) == 1 by {
        lemma_agent_filters_hold_once(ids, s[i]);
    }
    lemma_selections_partition(s, agent_filters(ids));
}

/// With no event of the agent, selecting by the agent gives nothing.
proof fn lemma_select_none(s: Seq<EventView>, agent_id: u64)
    requires
        !has_agent(s, agent_id),
    ensures
        select(s, of_agent(agent_id)) =~= Seq::<EventView>::empty(),
    decreases s.len(),
{
    if s.len() > 0 {
        assert(!has_agent(s.drop_last(), agent_id)) by {
            if has_agent(s.drop_last(), agent_id) {
                let i = choose|i: int|
                    0 <= i < s.drop_last().len() && s.drop_last()[i].agent_id == agent_id;
                assert(s[i].agent_id == agent_id);
            }
        }
        lemma_select_none(s.drop_last(), agent_id);
        assert(s[s.len() - 1].agent_id != agent_id);
    }
}

impl Default for Chronicle {
    fn default() -> (c: Self)
        ensures
            c@ == Seq::<EventView>::empty(),
    {
        Self::new()
    }
}

} // verus!
