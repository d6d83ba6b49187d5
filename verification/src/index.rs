use vstd::prelude::*;

use std::collections::HashMap;

use crate::chronicle::Chronicle;
use crate::event::{views, Event, EventTag, EventView};
use crate::timeline::{
    agent_filters, has_tag, holding, lemma_agent_filters_hold_once, lemma_selections_partition,
    lemma_tag_filters_hold_once, of_agent, select, selected_total, tag_filters,
};

verus! {

broadcast use vstd::std_specs::hash::group_hash_axioms;

/// The positions in `s`, in increasing order, of the events that satisfy `p`.
pub open spec fn positions(s: Seq<EventView>, p: spec_fn(EventView) -> bool) -> Seq<usize>
    decreases s.len(),
{
    if s.len() == 0 {
        Seq::empty()
    } else {
        let rest = positions(s.drop_last(), p);
        if p(s.last()) {
            rest.push((s.len() - 1) as usize)
        } else {
            rest
        }
    }
}

/// The events of `s` at the positions `ps`, skipping positions past its end.
pub open spec fn resolve(ps: Seq<usize>, s: Seq<EventView>) -> Seq<EventView>
    decreases ps.len(),
{
    if ps.len() == 0 {
        Seq::empty()
    } else {
        let rest = resolve(ps.drop_last(), s);
        if ps.last() < s.len() {
            rest.push(s[ps.last() as int])
        } else {
            rest
        }
    }
}

/// A distinct number for each tag.
pub open spec fn tag_key(tag: EventTag) -> u16 {
    match tag {
        EventTag::Transition => 0,
        EventTag::Threshold => 1,
        EventTag::Reversal => 2,
        EventTag::Stagnation => 3,
        EventTag::System => 4,
        EventTag::Custom(n) => (5 + n) as u16,
    }
}

fn tag_key_of(tag: EventTag) -> (k: u16)
    ensures
        k == tag_key(tag),
{
    match tag {
        EventTag::Transition => 0,
        EventTag::Threshold => 1,
        EventTag::Reversal => 2,
        EventTag::Stagnation => 3,
        EventTag::System => 4,
        EventTag::Custom(n) => 5 + n as u16,
    }
}

/// Distinct tags have distinct numbers.
pub proof fn lemma_tag_key_injective(a: EventTag, b: EventTag)
    ensures
        tag_key(a) == tag_key(b) ==> a == b,
{
}

/// Resolving the positions of the events that satisfy `p` gives those events.
pub proof fn lemma_resolve_positions(s: Seq<EventView>, p: spec_fn(EventView) -> bool)
    requires
        s.len() <= usize::MAX,
    ensures
        resolve(positions(s, p), s) == select(s, p),
        positions(s, p).len() == select(s, p).len(),
    decreases s.len(),
{
    if s.len() > 0 {
        let t = s.drop_last();
        lemma_resolve_positions(t, p);
        assert forall|k: int| 0 <= k < positions(t, p).len() implies positions(t, p)[k]
            < t.len() by {
            lemma_positions_in_range(t, p, k);
        }
        lemma_resolve_prefix(positions(t, p), t, s);
        if p(s.last()) {
            assert(positions(s, p).drop_last() =~= positions(t, p));
        }
    }
}

/// Positions of the events that satisfy `p` lie within `s`.
pub proof fn lemma_positions_in_range(s: Seq<EventView>, p: spec_fn(EventView) -> bool, k: int)
    requires
        s.len() <= usize::MAX,
        0 <= k < positions(s, p).len(),
    ensures
        positions(s, p)[k] < s.len(),
    decreases s.len(),
{
    if s.len() > 0 {
        let t = s.drop_last();
        if k < positions(t, p).len() {
            lemma_positions_in_range(t, p, k);
        }
    }
}

/// Resolving positions within a prefix gives the same events in the whole.
proof fn lemma_resolve_prefix(ps: Seq<usize>, t: Seq<EventView>, s: Seq<EventView>)
    requires
        t.len() <= s.len(),
        forall|i: int| 0 <= i < t.len() ==> t[i] == s[i],
        forall|k: int| 0 <= k < ps.len() ==> ps[k] < t.len(),
    ensures
        resolve(ps, s) == resolve(ps, t),
    decreases ps.len(),
{
    if ps.len() > 0 {
        lemma_resolve_prefix(ps.drop_last(), t, s);
    }
}

/// An index built from a chronicle finds, for each tag and each agent, exactly the
/// chronicle's events with that tag or of that agent, in the order they were recorded,
/// and counts exactly as many.
pub proof fn lemma_built_index_search(
    chronicle: Chronicle,
    index: ChronicleIndex,
    tag: EventTag,
    agent_id: u64,
)
    requires
        index.tag_positions(tag) == positions(chronicle@, has_tag(tag)),
        index.agent_positions(agent_id) == positions(chronicle@, of_agent(agent_id)),
    ensures
        resolve(index.tag_positions(tag), chronicle@) == select(chronicle@, has_tag(tag)),
        index.tag_positions(tag).len() == select(chronicle@, has_tag(tag)).len(),
        resolve(index.agent_positions(agent_id), chronicle@) == select(
            chronicle@,
            of_agent(agent_id),
        ),
        index.agent_positions(agent_id).len() == select(chronicle@, of_agent(agent_id)).len(),
{
    chronicle.lemma_len_fits();
    lemma_resolve_positions(chronicle@, has_tag(tag));
    lemma_resolve_positions(chronicle@, of_agent(agent_id));
}

/// The sum of the counts that `index` holds under each of `tags`.
pub open spec fn tag_count_total(index: ChronicleIndex, tags: Seq<EventTag>) -> nat
    decreases tags.len(),
{
    if tags.len() == 0 {
        0
    } else {
        tag_count_total(index, tags.drop_last()) + index.tag_positions(tags.last()).len()
    }
}

/// The sum of the counts that `index` holds under each of the agents `ids`.
pub open spec fn agent_count_total(index: ChronicleIndex, ids: Seq<u64>) -> nat
    decreases ids.len(),
{
    if ids.len() == 0 {
        0
    } else {
        agent_count_total(index, ids.drop_last()) + index.agent_positions(ids.last()).len()
    }
}

proof fn lemma_tag_count_total(chronicle: Chronicle, index: ChronicleIndex, tags: Seq<EventTag>)
    requires
        forall|tag: EventTag| #[trigger]
            index.tag_positions(tag) == positions(chronicle@, has_tag(tag)),
    ensures
        tag_count_total(index, tags) == selected_total(chronicle@, tag_filters(tags)),
    decreases tags.len(),
{
    if tags.len() > 0 {
        lemma_tag_count_total(chronicle, index, tags.drop_last());
        assert(tag_filters(tags).drop_last() =~= tag_filters(tags.drop_last()));
        chronicle.lemma_len_fits();
        lemma_resolve_positions(chronicle@, has_tag(tags.last()));
        assert(index.tag_positions(tags.last()) == positions(chronicle@, has_tag(tags.last())));
    }
}

proof fn lemma_agent_count_total(chronicle: Chronicle, index: ChronicleIndex, ids: Seq<u64>)
    requires
        forall|a: u64| #[trigger] index.agent_positions(a) == positions(chronicle@, of_agent(a)),
    ensures
        agent_count_total(index, ids) == selected_total(chronicle@, agent_filters(ids)),
    decreases ids.len(),
{
    if ids.len() > 0 {
        lemma_agent_count_total(chronicle, index, ids.drop_last());
        assert(agent_filters(ids).drop_last() =~= agent_filters(ids.drop_last()));
        chronicle.lemma_len_fits();
        lemma_resolve_positions(chronicle@, of_agent(ids.last()));
        assert(index.agent_positions(ids.last()) == positions(chronicle@, of_agent(ids.last())));
    }
}

/// An index built from a chronicle counts every event once under its tag: for any list of
/// tags without repeats that names the tag of every event, the counts under those tags add
/// up to the number of events.
pub proof fn lemma_tag_counts_add_up(chronicle: Chronicle, index: ChronicleIndex, tags: Seq<
    EventTag,
>)
    requires
        forall|tag: EventTag| #[trigger]
            index.tag_positions(tag) == positions(chronicle@, has_tag(tag)),
        tags.no_duplicates(),
        forall|i: int| 0 <= i < chronicle@.len() ==> tags.contains((#[trigger] chronicle@[i]).tag),
    ensures
        tag_count_total(index, tags) == chronicle@.len(),
{
    let s = chronicle@;
    assert forall|i: int| 0 <= i < s.len() implies holding(tag_filters(tags), #[trigger] s[i])
        == 1 by {
        lemma_tag_filters_hold_once(tags, s[i]);
    }
    lemma_selections_partition(s, tag_filters(tags));
    lemma_tag_count_total(chronicle, index, tags);
}

/// An index built from a chronicle counts every event once under its agent: for any list of
/// agents without repeats that names the agent of every event, the counts under those agents
/// add up to the number of events.
pub proof fn lemma_agent_counts_add_up(chronicle: Chronicle, index: ChronicleIndex, ids: Seq<u64>)
    requires
        forall|a: u64| #[trigger] index.agent_positions(a) == positions(chronicle@, of_agent(a)),
        ids.no_duplicates(),
        forall|i: int|
            0 <= i < chronicle@.len() ==> ids.contains((#[trigger] chronicle@[i]).agent_id),
    ensures
        agent_count_total(index, ids) == chronicle@.len(),
{
    let s = chronicle@;
    assert forall|i: int| 0 <= i < s.len() implies holding(agent_filters(ids), #[trigger] s[i])
        == 1 by {
        lemma_agent_filters_hold_once(ids, s[i]);
    }
    lemma_selections_partition(s, agent_filters(ids));
    lemma_agent_count_total(chronicle, index, ids);
}

/// Searchable index over chronicle records.
pub struct ChronicleIndex {
    /// tag number -> event positions in the global timeline.
    by_tag: HashMap<u16, Vec<usize>>,
    /// agent_id -> event positions.
    by_agent: HashMap<u64, Vec<usize>>,
}

/// The positions stored under `key`, or none.
spec fn entry<K>(m: Map<K, Vec<usize>>, key: K) -> Seq<usize> {
    if m.contains_key(key) {
        m[key]@
    } else {
        Seq::empty()
    }
}

fn take_entry<K: std::hash::Hash + Eq>(m: &mut HashMap<K, Vec<usize>>, key: &K) -> (v: Vec<usize>)
    requires
        vstd::std_specs::hash::obeys_key_model::<K>(),
    ensures
        v@ == entry(old(m)@, *key),
        final(m)@ == old(m)@.remove(*key),
{
    match m.remove(key) {
        Some(v) => v,
        None => Vec::new(),
    }
}

impl ChronicleIndex {
    /// The positions indexed under a tag.
    pub closed spec fn tag_positions(&self, tag: EventTag) -> Seq<usize> {
        entry(self.by_tag@, tag_key(tag))
    }

    /// The positions indexed under an agent.
    pub closed spec fn agent_positions(&self, agent_id: u64) -> Seq<usize> {
        entry(self.by_agent@, agent_id)
    }

    pub fn new() -> (index: Self)
        ensures
            forall|tag: EventTag| #[trigger] index.tag_positions(tag) == Seq::<usize>::empty(),
            forall|a: u64| #[trigger] index.agent_positions(a) == Seq::<usize>::empty(),
    {
        ChronicleIndex { by_tag: HashMap::new(), by_agent: HashMap::new() }
    }

    /// Build an index from a chronicle.
    pub fn build(chronicle: &Chronicle) -> (index: Self)
        ensures
            forall|tag: EventTag| #[trigger]
                index.tag_positions(tag) == positions(chronicle@, has_tag(tag)),
            forall|a: u64| #[trigger]
                index.agent_positions(a) == positions(chronicle@, of_agent(a)),
    {
        let mut index = ChronicleIndex::new();
        let events = chronicle.global_timeline().events();
        let ghost s = chronicle@;
        let mut i: usize = 0;
        while i < events.len()
            invariant
                i <= events@.len(),
                views(events@) == s,
                forall|tag: EventTag| #[trigger]
                    index.tag_positions(tag) == positions(s.take(i as int), has_tag(tag)),
                forall|a: u64| #[trigger]
                    index.agent_positions(a) == positions(s.take(i as int), of_agent(a)),
            decreases events@.len() - i,
        {
            let event = &events[i];
            assert(event@ == s[i as int]);
            let key: u16 = tag_key_of(event.tag);
            let ghost old_index = index;
            let ghost old_tag = index.by_tag@;
            let ghost old_agent = index.by_agent@;
            let mut tag_list = take_entry(&mut index.by_tag, &key);
            tag_list.push(i);
            index.by_tag.insert(key, tag_list);
            let mut agent_list = take_entry(&mut index.by_agent, &event.agent_id);
            agent_list.push(i);
            index.by_agent.insert(event.agent_id, agent_list);
            proof {
                let t = s.take(i + 1);
                assert(t.drop_last() =~= s.take(i as int));
                assert(t.last() == event@);
                assert(index.by_tag@ == old_tag.remove(key).insert(key, tag_list));
                assert(index.by_agent@ == old_agent.remove(event.agent_id).insert(
                    event.agent_id,
                    agent_list,
                ));
                assert forall|tag: EventTag| #[trigger]
                    index.tag_positions(tag) == positions(t, has_tag(tag)) by {
                    lemma_tag_key_injective(tag, event.tag);
                    assert(old_index.tag_positions(tag) == positions(
                        s.take(i as int),
                        has_tag(tag),
                    ));
                    assert(positions(t, has_tag(tag)) == if has_tag(tag)(t.last()) {
                        positions(s.take(i as int), has_tag(tag)).push(i)
                    } else {
                        positions(s.take(i as int), has_tag(tag))
                    });
                    if tag_key(tag) == key {
                        assert(entry(index.by_tag@, key) == tag_list@);
                    } else {
                        assert(entry(index.by_tag@, tag_key(tag)) == entry(old_tag, tag_key(tag)));
                    }
                }
                assert forall|a: u64| #[trigger]
                    index.agent_positions(a) == positions(t, of_agent(a)) by {
                    assert(old_index.agent_positions(a) == positions(
                        s.take(i as int),
                        of_agent(a),
                    ));
                    assert(positions(t, of_agent(a)) == if of_agent(a)(t.last()) {
                        positions(s.take(i as int), of_agent(a)).push(i)
                    } else {
                        positions(s.take(i as int), of_agent(a))
                    });
                    if a == event.agent_id {
                        assert(entry(index.by_agent@, a) == agent_list@);
                    } else {
                        assert(entry(index.by_agent@, a) == entry(old_agent, a));
                    }
                }
            }
            i = i + 1;
        }
        assert(s.take(events@.len() as int) =~= s);
        index
    }

    fn resolve_all<'a>(positions: &Vec<usize>, chronicle: &'a Chronicle) -> (r: Vec<&'a Event>)
        ensures
            views(r@) == resolve(positions@, chronicle@),
    {
        let events = chronicle.global_timeline().events();
        let mut r: Vec<&Event> = Vec::new();
        let mut k: usize = 0;
        while k < positions.len()
            invariant
                k <= positions@.len(),
                views(events@) == chronicle@,
                r@.len() <= k,
                views(r@) == resolve(positions@.take(k as int), chronicle@),
            decreases positions@.len() - k,
        {
            let i: usize = positions[k];
            let ghost prev = r@;
            if i < events.len() {
                r.push(&events[i]);
            }
            k = k + 1;
            proof {
                assert(positions@.take(k as int).drop_last() =~= positions@.take(k - 1));
                if i < events@.len() {
                    assert(views(r@) =~= views(prev).push(events@[i as int]@));
                }
            }
        }
        assert(positions@.take(positions@.len() as int) =~= positions@);
        r
    }

    /// Search by tag.
    pub fn search_by_tag<'a>(&'a self, chronicle: &'a Chronicle, tag: EventTag) -> (r: Vec<
        &'a Event,
    >)
        ensures
            views(r@) == resolve(self.tag_positions(tag), chronicle@),
    {
        match self.by_tag.get(&tag_key_of(tag)) {
            Some(positions) => Self::resolve_all(positions, chronicle),
            None => {
                let r: Vec<&Event> = Vec::new();
                assert(views(r@) =~= Seq::<EventView>::empty());
                r
            },
        }
    }

    /// Search by agent.
    pub fn search_by_agent<'a>(&'a self, chronicle: &'a Chronicle, agent_id: u64) -> (r: Vec<
        &'a Event,
    >)
        ensures
            views(r@) == resolve(self.agent_positions(agent_id), chronicle@),
    {
        match self.by_agent.get(&agent_id) {
            Some(positions) => Self::resolve_all(positions, chronicle),
            None => {
                let r: Vec<&Event> = Vec::new();
                assert(views(r@) =~= Seq::<EventView>::empty());
                r
            },
        }
    }

    /// Count events by tag.
    pub fn count_by_tag(&self, tag: EventTag) -> (n: usize)
        ensures
            n == self.tag_positions(tag).len(),
    {
        match self.by_tag.get(&tag_key_of(tag)) {
            Some(v) => v.len(),
            None => 0,
        }
    }

    /// Count events by agent.
    pub fn count_by_agent(&self, agent_id: u64) -> (n: usize)
        ensures
            n == self.agent_positions(agent_id).len(),
    {
        match self.by_agent.get(&agent_id) {
            Some(v) => v.len(),
            None => 0,
        }
    }
}

impl Default for ChronicleIndex {
    fn default() -> (index: Self)
        ensures
            forall|tag: EventTag| #[trigger] index.tag_positions(tag) == Seq::<usize>::empty(),
            forall|a: u64| #[trigger] index.agent_positions(a) == Seq::<usize>::empty(),
    {
        Self::new()
    }
}

} // verus!
