use ternary_chronicle::chronicle::Chronicle;
use ternary_chronicle::conservation::ChronicleConservation;
use ternary_chronicle::event::{Event, EventTag};
use ternary_chronicle::index::ChronicleIndex;
use ternary_chronicle::narrative::Narrative;
use ternary_chronicle::prophet::Prophet;
use ternary_chronicle::ternary::Ternary;
use ternary_chronicle::timeline::Timeline;

use Ternary::{Negative, Positive, Zero};

fn ev(ts: u64, agent: u64, from: Vec<Ternary>, to: Vec<Ternary>, tag: EventTag) -> Event {
    Event {
        timestamp: ts,
        agent_id: agent,
        from_state: from,
        to_state: to,
        tag,
        description: format!("Event at t={}", ts),
    }
}

fn timeline_of(events: Vec<Event>) -> Timeline {
    let mut tl = Timeline::new();
    for e in events {
        tl.push_unchecked(e);
    }
    tl
}

fn stamps(events: &[&Event]) -> Vec<u64> {
    events.iter().map(|e| e.timestamp).collect()
}

#[test]
fn ternary_values_round_trip() {
    for t in [Negative, Zero, Positive] {
        assert_eq!(Ternary::from_value(t.value()), Some(t));
    }
    assert_eq!(Negative.value(), -1);
    assert_eq!(Zero.value(), 0);
    assert_eq!(Positive.value(), 1);
    assert_eq!(Ternary::from_value(2), None);
    assert_eq!(Ternary::from_value(-2), None);
    assert_eq!(Ternary::from_value(i8::MIN), None);
}

#[test]
fn event_new_keeps_its_parts() {
    let e = Event::new(1000, 1, vec![Zero], vec![Positive], EventTag::Transition, "Agent 1 chose to commit");
    assert_eq!(e.timestamp, 1000);
    assert_eq!(e.agent_id, 1);
    assert_eq!(e.description, "Agent 1 chose to commit");
    let mut chronicle = Chronicle::new();
    chronicle.record(e);
    assert_eq!(chronicle.by_agent(1).len(), 1);
    assert_eq!(chronicle.by_agent(2).len(), 0);
}

#[test]
fn event_deltas_and_distances() {
    let e = ev(1, 1, vec![Negative, Negative], vec![Positive, Positive], EventTag::Reversal);
    assert_eq!(e.net_delta(), 4);
    assert!(e.is_reversal());
    assert_eq!(e.hamming_distance(), 2);
    // States of different lengths: no reversal, distance over the shorter one.
    let e = ev(1, 1, vec![Positive, Negative, Zero], vec![Negative], EventTag::Transition);
    assert!(!e.is_reversal());
    assert_eq!(e.hamming_distance(), 1);
    assert_eq!(e.net_delta(), -1);
    let e = ev(1, 1, vec![], vec![Positive, Positive], EventTag::Transition);
    assert_eq!(e.net_delta(), 2);
    assert_eq!(e.hamming_distance(), 0);
}

#[test]
fn reversal_changes_some_position() {
    let e = ev(1, 1, vec![Zero, Positive], vec![Zero, Negative], EventTag::Reversal);
    assert!(e.is_reversal());
    assert!(e.hamming_distance() >= 1);
}

#[test]
fn unchanged_event_is_neutral() {
    let e = ev(1, 1, vec![Positive, Zero, Negative], vec![Positive, Zero, Negative], EventTag::Stagnation);
    assert_eq!(e.net_delta(), 0);
    assert_eq!(e.hamming_distance(), 0);
    assert!(!e.is_reversal());
}

#[test]
fn event_clone_is_equal() {
    let e = ev(4, 9, vec![Zero], vec![Negative], EventTag::Custom(7));
    let c = e.clone();
    assert_eq!(c.timestamp, 4);
    assert_eq!(c.agent_id, 9);
    assert_eq!(c.from_state, vec![Zero]);
    assert_eq!(c.to_state, vec![Negative]);
    assert_eq!(c.tag, EventTag::Custom(7));
    assert_eq!(c.description, e.description);
}

#[test]
fn timeline_push_rejects_earlier_event() {
    let mut tl = Timeline::new();
    assert!(tl.is_empty());
    tl.push(ev(5, 1, vec![Zero], vec![Positive], EventTag::Transition)).unwrap();
    let r = tl.push(ev(3, 1, vec![Positive], vec![Zero], EventTag::Transition));
    assert_eq!(r, Err("Event timestamp must be >= last event timestamp"));
    assert_eq!(tl.len(), 1);
    // An equal timestamp is accepted.
    assert_eq!(tl.push(ev(5, 2, vec![Positive], vec![Zero], EventTag::Transition)), Ok(()));
    assert_eq!(tl.len(), 2);
    assert!(!tl.is_empty());
}

#[test]
fn timeline_queries() {
    let tl = timeline_of(vec![
        ev(1, 1, vec![Zero], vec![Positive], EventTag::Transition),
        ev(5, 2, vec![Positive], vec![Negative], EventTag::Reversal),
        ev(10, 1, vec![Negative], vec![Zero], EventTag::Transition),
    ]);
    assert_eq!(stamps(&tl.range(1, 10)), vec![1, 5, 10]);
    assert_eq!(stamps(&tl.range(5, 5)), vec![5]);
    assert_eq!(stamps(&tl.range(11, 20)), Vec::<u64>::new());
    assert_eq!(stamps(&tl.range(9, 2)), Vec::<u64>::new());
    assert_eq!(stamps(&tl.by_tag(EventTag::Transition)), vec![1, 10]);
    assert_eq!(stamps(&tl.by_agent(1)), vec![1, 10]);
    assert_eq!(stamps(&tl.by_agent(2)), vec![5]);
    assert_eq!(tl.events().len(), 3);
    assert_eq!(tl.events()[1].timestamp, 5);
    assert_eq!(tl.total_delta(), 1 - 2 + 1);
    let copy = tl.clone();
    assert_eq!(copy.len(), 3);
    assert_eq!(copy.events()[2].timestamp, 10);
    assert_eq!(Timeline::default().len(), 0);
}

#[test]
fn chronicle_splits_by_agent() {
    let mut c = Chronicle::new();
    c.record(ev(1, 1, vec![Zero], vec![Positive], EventTag::Transition));
    c.record(ev(2, 2, vec![Zero], vec![Negative], EventTag::Transition));
    c.record(ev(3, 1, vec![Positive], vec![Zero], EventTag::Stagnation));
    assert_eq!(c.total_events(), 3);
    assert_eq!(c.agent_count(), 2);
    let one = c.agent_timeline(1).unwrap();
    assert_eq!(one.len(), 2);
    assert_eq!(one.events()[0].timestamp, 1);
    assert_eq!(one.events()[1].timestamp, 3);
    assert_eq!(c.agent_timeline(2).unwrap().len(), 1);
    assert!(c.agent_timeline(3).is_none());
    let stamps_global: Vec<u64> = c.global_timeline().events().iter().map(|e| e.timestamp).collect();
    assert_eq!(stamps_global, vec![1, 2, 3]);
    let copy = c.clone();
    assert_eq!(copy.total_events(), 3);
    assert_eq!(copy.agent_timeline(1).unwrap().len(), 2);
    assert_eq!(Chronicle::default().agent_count(), 0);
}

#[test]
fn record_then_query_agent() {
    let mut c = Chronicle::new();
    c.record(ev(1, 4, vec![Zero], vec![Positive], EventTag::Transition));
    c.record(ev(2, 5, vec![Zero], vec![Positive], EventTag::Transition));
    let before_other = c.agent_timeline(5).unwrap().len();
    c.record(ev(3, 4, vec![Positive], vec![Negative], EventTag::Reversal));
    let four = c.agent_timeline(4).unwrap();
    assert_eq!(four.len(), 2);
    assert_eq!(four.events()[1].timestamp, 3);
    assert_eq!(c.agent_timeline(5).unwrap().len(), before_other);
}

#[test]
fn summary_texts() {
    let tl = timeline_of(vec![
        ev(1, 1, vec![Zero], vec![Positive], EventTag::Transition),
        ev(2, 1, vec![Positive], vec![Negative], EventTag::Reversal),
    ]);
    assert_eq!(
        Narrative::summarize(&tl),
        "Over 2 events, the system experienced 1 transitions, 1 reversals, and 0 stagnations. Net movement: -1 (negative trend). Duration: 1 ticks."
    );
    let tl = timeline_of(vec![
        ev(3, 1, vec![Zero], vec![Positive], EventTag::Transition),
        ev(10, 1, vec![Zero], vec![Positive], EventTag::Stagnation),
    ]);
    assert_eq!(
        Narrative::summarize(&tl),
        "Over 2 events, the system experienced 1 transitions, 0 reversals, and 1 stagnations. Net movement: +2 (positive trend). Duration: 7 ticks."
    );
    let tl = timeline_of(vec![
        ev(1, 1, vec![Zero], vec![Positive], EventTag::Transition),
        ev(2, 1, vec![Positive], vec![Zero], EventTag::Transition),
    ]);
    assert_eq!(
        Narrative::summarize(&tl),
        "Over 2 events, the system experienced 2 transitions, 0 reversals, and 0 stagnations. Net movement: balanced (no drift). Duration: 1 ticks."
    );
    assert_eq!(Narrative::summarize(&Timeline::new()), "No events recorded.");
}

#[test]
fn agent_story_texts() {
    let mut c = Chronicle::new();
    c.record(ev(12, 7, vec![Zero], vec![Positive], EventTag::Transition));
    assert_eq!(
        Narrative::agent_story(&c, 7),
        "Agent 7 history: Over 1 events, the system experienced 1 transitions, 0 reversals, and 0 stagnations. Net movement: +1 (positive trend). Duration: 0 ticks."
    );
    assert_eq!(Narrative::agent_story(&c, 8), "Agent 8 has no recorded history.");
}

#[test]
fn detailed_texts() {
    let tl = timeline_of(vec![
        ev(1, 1, vec![Zero], vec![Positive], EventTag::Transition),
        ev(2, 1, vec![Positive], vec![Negative], EventTag::Reversal),
        ev(u64::MAX, 1, vec![Negative], vec![Negative], EventTag::Stagnation),
    ]);
    assert_eq!(
        Narrative::detailed(&tl),
        "[t=1] Event at t=1 ↑ (Δ=1)\n[t=2] Event at t=2 ↓ (Δ=-2)\n[t=18446744073709551615] Event at t=18446744073709551615 → (Δ=0)"
    );
    assert_eq!(Narrative::detailed(&Timeline::new()), "");
}

#[test]
fn index_search_matches_filters() {
    let mut c = Chronicle::new();
    c.record(ev(1, 1, vec![Zero], vec![Positive], EventTag::Transition));
    c.record(ev(2, 1, vec![Positive], vec![Negative], EventTag::Reversal));
    c.record(ev(3, 2, vec![Zero], vec![Positive], EventTag::Transition));
    c.record(ev(4, 3, vec![Zero], vec![Positive], EventTag::Custom(3)));
    let index = ChronicleIndex::build(&c);
    assert_eq!(stamps(&index.search_by_tag(&c, EventTag::Transition)), vec![1, 3]);
    assert_eq!(
        stamps(&index.search_by_tag(&c, EventTag::Transition)),
        stamps(&c.global_timeline().by_tag(EventTag::Transition))
    );
    assert_eq!(stamps(&index.search_by_tag(&c, EventTag::Custom(3))), vec![4]);
    assert_eq!(stamps(&index.search_by_tag(&c, EventTag::Custom(4))), Vec::<u64>::new());
    assert_eq!(stamps(&index.search_by_agent(&c, 1)), vec![1, 2]);
    assert_eq!(index.count_by_tag(EventTag::System), 0);
    assert_eq!(index.count_by_agent(9), 0);
    assert_eq!(index.count_by_tag(EventTag::Custom(3)), 1);
    // Positions past the end of another chronicle are skipped.
    let mut short = Chronicle::new();
    short.record(ev(8, 1, vec![Zero], vec![Positive], EventTag::Transition));
    assert_eq!(stamps(&index.search_by_tag(&short, EventTag::Transition)), vec![8]);
    assert_eq!(stamps(&index.search_by_agent(&short, 2)), Vec::<u64>::new());
    let empty = ChronicleIndex::new();
    assert_eq!(empty.count_by_tag(EventTag::Transition), 0);
    assert_eq!(ChronicleIndex::default().count_by_agent(1), 0);
}

#[test]
fn forecast_counts_and_rounds() {
    let empty = Prophet::forecast(&Timeline::new());
    assert_eq!(empty.predicted_tag, EventTag::Transition);
    assert_eq!(empty.tag_count, 0);
    assert_eq!(empty.total, 0);
    assert_eq!(empty.predicted_delta, 0);
    assert_eq!(empty.pattern_basis, "No data");

    // Mean 3/2 rounds away from zero to 2.
    let tl = timeline_of(vec![
        ev(1, 1, vec![Zero], vec![Positive], EventTag::Reversal),
        ev(2, 1, vec![Negative], vec![Positive], EventTag::Reversal),
    ]);
    let f = Prophet::forecast(&tl);
    assert_eq!(f.predicted_delta, 2);
    assert_eq!(f.predicted_tag, EventTag::Reversal);
    assert_eq!(f.tag_count, 2);
    assert_eq!(f.pattern_basis, "Most common tag in 2 events");

    // Mean -3/2 rounds away from zero to -2.
    let tl = timeline_of(vec![
        ev(1, 1, vec![Positive], vec![Zero], EventTag::Transition),
        ev(2, 1, vec![Positive], vec![Negative], EventTag::Reversal),
    ]);
    let f = Prophet::forecast(&tl);
    assert_eq!(f.predicted_delta, -2);
    assert_eq!(f.tag_count, 1);
    assert!(f.predicted_tag == EventTag::Transition || f.predicted_tag == EventTag::Reversal);

    // Only the latest five events count: 1/5 rounds to 0.
    let mut events = vec![ev(0, 1, vec![Negative], vec![Positive], EventTag::System)];
    for i in 1..5 {
        events.push(ev(i, 1, vec![Zero], vec![Zero], EventTag::Stagnation));
    }
    events.push(ev(5, 1, vec![Zero], vec![Positive], EventTag::Stagnation));
    let f = Prophet::forecast(&timeline_of(events));
    assert_eq!(f.predicted_delta, 0);
    assert_eq!(f.predicted_tag, EventTag::Stagnation);
    assert_eq!(f.tag_count, 5);
    assert_eq!(f.total, 6);
    assert_eq!(f.pattern_basis, "Most common tag in 6 events");
}

#[test]
fn cycle_detection_cases() {
    let tags = [EventTag::Transition, EventTag::Reversal, EventTag::Stagnation];
    let mut events = Vec::new();
    for i in 0..9u64 {
        events.push(ev(i, 1, vec![Zero], vec![Zero], tags[(i % 3) as usize]));
    }
    let tl = timeline_of(events);
    assert_eq!(Prophet::detect_cycle(&tl, 2, 4), Some(tags.to_vec()));
    // The searched lengths stop at the maximum.
    assert_eq!(Prophet::detect_cycle(&tl, 2, 2), None);
    // A minimum above the maximum searches nothing.
    assert_eq!(Prophet::detect_cycle(&tl, 3, 2), None);
    // Too few events for two copies of the minimum length.
    assert_eq!(Prophet::detect_cycle(&tl, 5, 9), None);

    let mut alternating = Vec::new();
    for i in 0..6u64 {
        let tag = if i % 2 == 0 { EventTag::Transition } else { EventTag::Reversal };
        alternating.push(ev(i, 1, vec![Zero], vec![Positive], tag));
    }
    let tl = timeline_of(alternating);
    assert_eq!(Prophet::detect_cycle(&tl, 2, 3), Some(vec![EventTag::Transition, EventTag::Reversal]));
    // Length one already repeats twice: positions 2 and 4 hold the first tag again.
    assert_eq!(Prophet::detect_cycle(&tl, 1, 3), Some(vec![EventTag::Transition]));
}

#[test]
fn sum_conservation_outcomes() {
    let mut conserving = Chronicle::new();
    conserving.record(ev(1, 1, vec![Zero], vec![Positive], EventTag::Transition));
    conserving.record(ev(2, 1, vec![Positive], vec![Zero], EventTag::Transition));
    assert_eq!(ChronicleConservation::verify_sum_conservation(&conserving, 5), Ok(5));

    let mut single = Chronicle::new();
    single.record(ev(1, 1, vec![Zero], vec![Positive], EventTag::Transition));
    assert!(ChronicleConservation::verify_sum_conservation(&single, 0).is_err());

    let mut c = Chronicle::new();
    c.record(ev(1, 1, vec![Zero], vec![Positive], EventTag::Transition));
    c.record(ev(2, 1, vec![Positive, Zero], vec![Positive, Positive], EventTag::Transition));
    assert_eq!(
        ChronicleConservation::verify_sum_conservation(&c, 5),
        Err("Sum not conserved: initial sum 5 became 7 (net delta 2)".to_string())
    );
    let mut down = Chronicle::new();
    down.record(ev(1, 1, vec![Positive], vec![Zero], EventTag::Transition));
    assert_eq!(
        ChronicleConservation::verify_sum_conservation(&down, -3),
        Err("Sum not conserved: initial sum -3 became -4 (net delta -1)".to_string())
    );
    // A suspicious event is reported before any drift.
    c.record(ev(7, 2, vec![], vec![Positive], EventTag::System));
    c.record(ev(8, 2, vec![], vec![Negative], EventTag::System));
    assert_eq!(
        ChronicleConservation::verify_sum_conservation(&c, 5),
        Err("Event at t=7 has suspiciously large delta: 1".to_string())
    );
    let mut d = Chronicle::new();
    d.record(ev(3, 1, vec![Zero], vec![Negative, Negative, Negative], EventTag::System));
    assert_eq!(
        ChronicleConservation::verify_sum_conservation(&d, 0),
        Err("Event at t=3 has suspiciously large delta: -3".to_string())
    );
    assert_eq!(ChronicleConservation::verify_sum_conservation(&Chronicle::new(), -4), Ok(-4));
}

#[test]
fn continuity_reports() {
    let tl = timeline_of(vec![
        ev(1, 1, vec![Zero], vec![Positive], EventTag::Transition),
        ev(2, 1, vec![Negative], vec![Zero], EventTag::Transition),
        ev(3, 2, vec![Positive], vec![Zero], EventTag::Transition),
        ev(4, 2, vec![Zero, Positive], vec![Zero], EventTag::Transition),
    ]);
    let violations = ChronicleConservation::verify_continuity(&tl);
    assert_eq!(
        violations,
        vec![
            "Continuity break at t=2: agent 1 from_state [Negative] != previous to_state [Positive]".to_string(),
            "Continuity break at t=4: agent 2 from_state [Zero, Positive] != previous to_state [Zero]".to_string(),
        ]
    );
    let empty: Vec<Ternary> = vec![];
    let tl = timeline_of(vec![ev(1, 1, vec![Zero], empty.clone(), EventTag::System), ev(2, 1, vec![Zero], vec![], EventTag::System)]);
    assert_eq!(
        ChronicleConservation::verify_continuity(&tl),
        vec!["Continuity break at t=2: agent 1 from_state [Zero] != previous to_state []".to_string()]
    );
    assert!(ChronicleConservation::verify_continuity(&Timeline::new()).is_empty());
}

#[test]
fn chained_timeline_conserves_between_ends() {
    let tl = timeline_of(vec![
        ev(1, 1, vec![Zero, Negative], vec![Positive, Negative], EventTag::Transition),
        ev(2, 1, vec![Positive, Negative], vec![Negative, Negative], EventTag::Reversal),
        ev(3, 1, vec![Negative, Negative], vec![Positive, Positive], EventTag::Reversal),
    ]);
    assert!(ChronicleConservation::verify_continuity(&tl).is_empty());
    // Last new state sums to 2, first old state to -1.
    assert_eq!(tl.total_delta(), 2 - (-1));
}

#[test]
fn energy_bounds_total_delta() {
    let tl = timeline_of(vec![
        ev(1, 1, vec![Zero], vec![Positive], EventTag::Transition),
        ev(2, 1, vec![Positive], vec![Negative], EventTag::Reversal),
        ev(3, 1, vec![Negative], vec![Negative], EventTag::Stagnation),
    ]);
    let energy = ChronicleConservation::energy(&tl);
    assert_eq!(energy, 3);
    assert_eq!(tl.total_delta(), -1);
    assert!(energy >= tl.total_delta().abs());
    assert!(ChronicleConservation::verify_energy_monotonicity(&tl));
    assert_eq!(ChronicleConservation::energy(&Timeline::new()), 0);
    assert!(ChronicleConservation::verify_energy_monotonicity(&Timeline::new()));
}

#[test]
fn energy_grows_with_the_timeline() {
    let events = vec![
        ev(1, 1, vec![Zero], vec![Positive], EventTag::Transition),
        ev(2, 1, vec![Positive], vec![Negative], EventTag::Reversal),
        ev(3, 1, vec![Negative], vec![Zero], EventTag::Transition),
    ];
    let mut tl = Timeline::new();
    let mut last = ChronicleConservation::energy(&tl);
    for e in events {
        tl.push(e).unwrap();
        let now = ChronicleConservation::energy(&tl);
        assert!(now >= last);
        last = now;
    }
    assert_eq!(last, 4);
}

#[test]
fn pushed_timeline_stays_sorted() {
    let mut tl = Timeline::new();
    for ts in [3u64, 1, 4, 4, 2, 9] {
        let _ = tl.push(ev(ts, 1, vec![Zero], vec![Zero], EventTag::System));
    }
    let got: Vec<u64> = tl.events().iter().map(|e| e.timestamp).collect();
    assert_eq!(got, vec![3, 4, 4, 9]);
}

#[test]
fn agent_timelines_and_index_counts_add_up() {
    let mut c = Chronicle::new();
    c.record(ev(1, 1, vec![Zero], vec![Positive], EventTag::Transition));
    c.record(ev(2, 2, vec![Positive], vec![Negative], EventTag::Reversal));
    c.record(ev(3, 1, vec![Zero], vec![Positive], EventTag::Custom(2)));
    c.record(ev(4, 3, vec![Zero], vec![Zero], EventTag::Transition));
    let agents: u64 = [1u64, 2, 3]
        .iter()
        .map(|a| c.agent_timeline(*a).map(|t| t.len()).unwrap_or(0) as u64)
        .sum();
    assert_eq!(agents as usize, c.total_events());
    let index = ChronicleIndex::build(&c);
    let tags = [EventTag::Transition, EventTag::Reversal, EventTag::Custom(2), EventTag::System];
    let by_tag: usize = tags.iter().map(|t| index.count_by_tag(*t)).sum();
    assert_eq!(by_tag, c.total_events());
    let by_agent: usize = [1u64, 2, 3, 9].iter().map(|a| index.count_by_agent(*a)).sum();
    assert_eq!(by_agent, c.total_events());
    for t in tags {
        assert_eq!(index.count_by_tag(t), c.global_timeline().by_tag(t).len());
    }
}
