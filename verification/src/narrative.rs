use vstd::prelude::*;

use crate::chronicle::{has_agent, Chronicle};
use crate::event::{EventTag, EventView};
use crate::text::{decimal, push_i64, push_u64, push_usize, signed_decimal};
use crate::timeline::{has_tag, of_agent, select, total_delta, volume, Timeline};

verus! {

/// The number of events of `s` with the tag `tag`.
pub open spec fn tag_count(s: Seq<EventView>, tag: EventTag) -> nat {
    select(s, has_tag(tag)).len()
}

/// The sentence on the net movement of a total delta `d`.
pub open spec fn movement_text(d: int) -> Seq<char> {
    if d > 0 {
        " Net movement: +"@ + decimal(d as nat) + " (positive trend)."@
    } else if d < 0 {
        " Net movement: "@ + signed_decimal(d) + " (negative trend)."@
    } else {
        " Net movement: balanced (no drift)."@
    }
}

/// The text summary of a sequence of events.
pub open spec fn summary_text(s: Seq<EventView>) -> Seq<char> {
    if s.len() == 0 {
        "No events recorded."@
    } else {
        "Over "@ + decimal(s.len()) + " events, the system experienced "@ + decimal(
            tag_count(s, EventTag::Transition),
        ) + " transitions, "@ + decimal(tag_count(s, EventTag::Reversal)) + " reversals, and "@
            + decimal(tag_count(s, EventTag::Stagnation)) + " stagnations."@ + movement_text(
            total_delta(s),
        ) + " Duration: "@ + decimal((s.last().timestamp - s[0].timestamp) as nat)
            + " ticks."@
    }
}

/// What a summary of `s` needs: sums fit in an `i64` and the last event is no earlier
/// than the first.
pub open spec fn summarizable(s: Seq<EventView>) -> bool {
    &&& volume(s) <= i64::MAX
    &&& s.len() > 0 ==> s[0].timestamp <= s.last().timestamp
}

/// The opening sentence of a summary: the number of events, then the numbers of events
/// tagged Transition, Reversal and Stagnation, each counted by its own tag filter.
pub open spec fn counts_sentence(s: Seq<EventView>) -> Seq<char> {
    "Over "@ + decimal(s.len()) + " events, the system experienced "@ + decimal(
        select(s, has_tag(EventTag::Transition)).len(),
    ) + " transitions, "@ + decimal(select(s, has_tag(EventTag::Reversal)).len())
        + " reversals, and "@ + decimal(select(s, has_tag(EventTag::Stagnation)).len())
        + " stagnations."@
}

/// The summary of a nonempty sequence of events opens with its counts sentence: the number
/// printed before "transitions" is the number of events tagged Transition (what the tag
/// filter by Transition selects), whatever the other events' tags are, and likewise for
/// reversals and stagnations.
pub proof fn lemma_summary_opens_with_counts(s: Seq<EventView>)
    requires
        s.len() > 0,
    ensures
        summary_text(s).len() >= counts_sentence(s).len(),
        summary_text(s).subrange(0, counts_sentence(s).len() as int) == counts_sentence(s),
{
    let c = counts_sentence(s);
    let rest = movement_text(total_delta(s)) + " Duration: "@ + decimal(
        (s.last().timestamp - s[0].timestamp) as nat,
    ) + " ticks."@;
    assert(summary_text(s) =~= c + rest);
    assert((c + rest).subrange(0, c.len() as int) =~= c);
}

/// The story of one agent in a chronicle holding the events `s`.
pub open spec fn agent_story_text(s: Seq<EventView>, agent_id: u64) -> Seq<char> {
    if has_agent(s, agent_id) {
        "Agent "@ + decimal(agent_id as nat) + " history: "@ + summary_text(
            select(s, of_agent(agent_id)),
        )
    } else {
        "Agent "@ + decimal(agent_id as nat) + " has no recorded history."@
    }
}

/// The arrow for the direction of a delta.
pub open spec fn arrow(d: int) -> Seq<char> {
    if d > 0 {
        "↑"@
    } else if d < 0 {
        "↓"@
    } else {
        "→"@
    }
}

/// The line that describes one event.
pub open spec fn event_line(e: EventView) -> Seq<char> {
    "[t="@ + decimal(e.timestamp as nat) + "] "@ + e.description + " "@ + arrow(e.net_delta())
        + " (Δ="@ + signed_decimal(e.net_delta()) + ")"@
}

/// The lines of the events of `s`, separated by newlines.
pub open spec fn detailed_text(s: Seq<EventView>) -> Seq<char>
    decreases s.len(),
{
    if s.len() == 0 {
        Seq::empty()
    } else if s.len() == 1 {
        event_line(s[0])
    } else {
        detailed_text(s.drop_last()) + "\n"@ + event_line(s.last())
    }
}

/// Every event's sums fit in an `i64`.
pub open spec fn all_bounded(s: Seq<EventView>) -> bool {
    forall|i: int| 0 <= i < s.len() ==> (#[trigger] s[i]).bounded()
}

/// Turns events into human-readable stories.
pub struct Narrative;

impl Narrative {
    /// Generate a text summary of a timeline.
    pub fn summarize(timeline: &Timeline) -> (r: String)
        requires
            summarizable(timeline@),
        ensures
            r@ == summary_text(timeline@),
            timeline@.len() > 0 ==> r@.len() >= counts_sentence(timeline@).len() && r@.subrange(
                0,
                counts_sentence(timeline@).len() as int,
            ) == counts_sentence(timeline@),
    {
        proof {
            if timeline@.len() > 0 {
                lemma_summary_opens_with_counts(timeline@);
            }
        }
        if timeline.is_empty() {
            return String::from_str("No events recorded.");
        }
        let transitions: usize = timeline.by_tag(EventTag::Transition).len();
        let reversals: usize = timeline.by_tag(EventTag::Reversal).len();
        let stagnations: usize = timeline.by_tag(EventTag::Stagnation).len();
        let total: usize = timeline.len();
        let total_delta: i64 = timeline.total_delta();

        let mut narrative = String::new();
        narrative.append("Over ");
        push_usize(&mut narrative, total);
        narrative.append(" events, the system experienced ");
        push_usize(&mut narrative, transitions);
        narrative.append(" transitions, ");
        push_usize(&mut narrative, reversals);
        narrative.append(" reversals, and ");
        push_usize(&mut narrative, stagnations);
        narrative.append(" stagnations.");
        let ghost head = narrative@;

        if total_delta > 0 {
            narrative.append(" Net movement: +");
            push_u64(&mut narrative, total_delta as u64);
            narrative.append(" (positive trend).");
        } else if total_delta < 0 {
            narrative.append(" Net movement: ");
            push_i64(&mut narrative, total_delta);
            narrative.append(" (negative trend).");
        } else {
            narrative.append(" Net movement: balanced (no drift).");
        }
        let ghost with_movement = narrative@;
        assert(with_movement =~= head + movement_text(total_delta as int));

        let events = timeline.events();
        let first = &events[0];
        let last = &events[events.len() - 1];
        proof {
            assert(first@ == timeline@[0]);
            assert(last@ == timeline@.last());
        }
        let duration: u64 = last.timestamp - first.timestamp;
        narrative.append(" Duration: ");
        push_u64(&mut narrative, duration);
        narrative.append(" ticks.");
        assert(narrative@ =~= summary_text(timeline@));
        narrative
    }

    /// Generate a per-agent narrative.
    pub fn agent_story(chronicle: &Chronicle, agent_id: u64) -> (r: String)
        requires
            summarizable(select(chronicle@, of_agent(agent_id))),
        ensures
            r@ == agent_story_text(chronicle@, agent_id),
    {
        let mut story = String::new();
        story.append("Agent ");
        push_u64(&mut story, agent_id);
        match chronicle.agent_timeline(agent_id) {
            Some(timeline) => {
                story.append(" history: ");
                let summary = Self::summarize(timeline);
                story.append(summary.as_str());
                assert(story@ =~= agent_story_text(chronicle@, agent_id));
                story
            },
            None => {
                story.append(" has no recorded history.");
                assert(story@ =~= agent_story_text(chronicle@, agent_id));
                story
            },
        }
    }

    /// Generate an event-level narrative (blow-by-blow).
    pub fn detailed(timeline: &Timeline) -> (r: String)
        requires
            all_bounded(timeline@),
        ensures
            r@ == detailed_text(timeline@),
    {
        let events = timeline.events();
        let mut text = String::new();
        let mut i: usize = 0;
        while i < events.len()
            invariant
                i <= events@.len(),
                timeline@.len() == events@.len(),
                forall|j: int| 0 <= j < events@.len() ==> events@[j]@ == timeline@[j],
                all_bounded(timeline@),
                text@ == detailed_text(timeline@.take(i as int)),
            decreases events@.len() - i,
        {
            let event = &events[i];
            assert(event@ == timeline@[i as int]);
            assert(event@.bounded());
            let ghost before = text@;
            if i > 0 {
                text.append("\n");
            }
            let delta: i64 = event.net_delta();
            text.append("[t=");
            push_u64(&mut text, event.timestamp);
            text.append("] ");
            text.append(event.description.as_str());
            text.append(" ");
            if delta > 0 {
                text.append("↑");
            } else if delta < 0 {
                text.append("↓");
            } else {
                text.append("→");
            }
            text.append(" (Δ=");
            push_i64(&mut text, delta);
            text.append(")");
            i = i + 1;
            proof {
                let t = timeline@.take(i as int);
                assert(t.drop_last() =~= timeline@.take(i - 1));
                assert(t.last() == event@);
                if i == 1 {
                    assert(before =~= Seq::<char>::empty());
                    assert(text@ =~= event_line(event@));
                } else {
                    assert(text@ =~= before + "\n"@ + event_line(event@));
                }
            }
        }
        assert(timeline@.take(events@.len() as int) =~= timeline@);
        text
    }
}

} // verus!
