use ternary_chronicle::chronicle::Chronicle;
use ternary_chronicle::conservation::ChronicleConservation;
use ternary_chronicle::event::{Event, EventTag};
use ternary_chronicle::index::ChronicleIndex;
use ternary_chronicle::narrative::Narrative;
use ternary_chronicle::prophet::Prophet;
use ternary_chronicle::ternary::Ternary;
use ternary_chronicle::timeline::Timeline;

fn make_event(ts: u64, agent: u64, from: Vec<Ternary>, to: Vec<Ternary>, tag: EventTag) -> Event {
    Event {
        timestamp: ts,
        agent_id: agent,
        from_state: from,
        to_state: to,
        tag,
        description: format!("Event at t={}", ts),
    }
}

#[test]
fn test_event_net_delta() {
    let e = make_event(1, 1, vec![Ternary::Zero], vec![Ternary::Positive], EventTag::Transition);
    assert_eq!(e.net_delta(), 1);
}

#[test]
fn test_event_is_reversal() {
    let e = make_event(1, 1, vec![Ternary::Positive], vec![Ternary::Negative], EventTag::Reversal);
    assert!(e.is_reversal());
}

#[test]
fn test_event_not_reversal() {
    let e = make_event(1, 1, vec![Ternary::Zero], vec![Ternary::Positive], EventTag::Transition);
    assert!(!e.is_reversal());
}

#[test]
fn test_event_hamming_distance() {
    let e = make_event(1, 1,
        vec![Ternary::Zero, Ternary::Positive, Ternary::Negative],
        vec![Ternary::Positive, Ternary::Positive, Ternary::Zero],
        EventTag::Transition);
    assert_eq!(e.hamming_distance(), 2);
}

#[test]
fn test_timeline_push_ordered() {
    let mut tl = Timeline::new();
    assert!(tl.push(make_event(1, 1, vec![Ternary::Zero], vec![Ternary::Positive], EventTag::Transition)).is_ok());
    assert!(tl.push(make_event(2, 1, vec![Ternary::Positive], vec![Ternary::Zero], EventTag::Transition)).is_ok());
}

#[test]
fn test_timeline_push_out_of_order() {
    let mut tl = Timeline::new();
    tl.push(make_event(5, 1, vec![Ternary::Zero], vec![Ternary::Positive], EventTag::Transition)).unwrap();
    assert!(tl.push(make_event(3, 1, vec![Ternary::Positive], vec![Ternary::Zero], EventTag::Transition)).is_err());
}

#[test]
fn test_timeline_range() {
    let mut tl = Timeline::new();
    tl.push_unchecked(make_event(1, 1, vec![Ternary::Zero], vec![Ternary::Positive], EventTag::Transition));
    tl.push_unchecked(make_event(5, 1, vec![Ternary::Positive], vec![Ternary::Negative], EventTag::Reversal));
    tl.push_unchecked(make_event(10, 1, vec![Ternary::Negative], vec![Ternary::Zero], EventTag::Transition));
    assert_eq!(tl.range(2, 9).len(), 1);
}

#[test]
fn test_timeline_by_tag() {
    let mut tl = Timeline::new();
    tl.push_unchecked(make_event(1, 1, vec![Ternary::Zero], vec![Ternary::Positive], EventTag::Transition));
    tl.push_unchecked(make_event(2, 1, vec![Ternary::Positive], vec![Ternary::Negative], EventTag::Reversal));
    assert_eq!(tl.by_tag(EventTag::Reversal).len(), 1);
}

#[test]
fn test_timeline_total_delta() {
    let mut tl = Timeline::new();
    tl.push_unchecked(make_event(1, 1, vec![Ternary::Zero], vec![Ternary::Positive], EventTag::Transition));
    tl.push_unchecked(make_event(2, 1, vec![Ternary::Positive], vec![Ternary::Zero], EventTag::Transition));
    assert_eq!(tl.total_delta(), 0);
}

#[test]
fn test_chronicle_record_and_query() {
    let mut chronicle = Chronicle::new();
    chronicle.record(make_event(1, 1, vec![Ternary::Zero], vec![Ternary::Positive], EventTag::Transition));
    chronicle.record(make_event(2, 2, vec![Ternary::Negative], vec![Ternary::Zero], EventTag::Transition));
    assert_eq!(chronicle.total_events(), 2);
}

#[test]
fn test_narrative_summarize_empty() {
    let tl = Timeline::new();
    let summary = Narrative::summarize(&tl);
    assert!(summary.contains("No events"));
}

#[test]
fn test_narrative_summarize() {
    let mut tl = Timeline::new();
    tl.push_unchecked(make_event(1, 1, vec![Ternary::Zero], vec![Ternary::Positive], EventTag::Transition));
    tl.push_unchecked(make_event(2, 1, vec![Ternary::Positive], vec![Ternary::Negative], EventTag::Reversal));
    let summary = Narrative::summarize(&tl);
    assert!(summary.contains("2 events"));
    assert!(summary.contains("1 reversals"));
}

#[test]
fn test_narrative_detailed() {
    let mut tl = Timeline::new();
    tl.push_unchecked(make_event(1, 1, vec![Ternary::Zero], vec![Ternary::Positive], EventTag::Transition));
    let detailed = Narrative::detailed(&tl);
    assert!(detailed.contains("t=1"));
}

#[test]
fn test_chronicle_index() {
    let mut chronicle = Chronicle::new();
    chronicle.record(make_event(1, 1, vec![Ternary::Zero], vec![Ternary::Positive], EventTag::Transition));
    chronicle.record(make_event(2, 1, vec![Ternary::Positive], vec![Ternary::Negative], EventTag::Reversal));
    chronicle.record(make_event(3, 2, vec![Ternary::Zero], vec![Ternary::Positive], EventTag::Transition));

    let index = ChronicleIndex::build(&chronicle);
    assert_eq!(index.count_by_tag(EventTag::Transition), 2);
    assert_eq!(index.count_by_tag(EventTag::Reversal), 1);
    assert_eq!(index.count_by_agent(1), 2);
    assert_eq!(index.count_by_agent(2), 1);
}

#[test]
fn test_prophet_predict_next_tag() {
    let mut tl = Timeline::new();
    tl.push_unchecked(make_event(1, 1, vec![Ternary::Zero], vec![Ternary::Positive], EventTag::Transition));
    tl.push_unchecked(make_event(2, 1, vec![Ternary::Positive], vec![Ternary::Zero], EventTag::Transition));
    tl.push_unchecked(make_event(3, 1, vec![Ternary::Zero], vec![Ternary::Positive], EventTag::Transition));

    let forecast = Prophet::forecast(&tl);
    assert_eq!(forecast.predicted_tag, EventTag::Transition);
    assert!(forecast.tag_count as f64 / forecast.total as f64 > 0.5);
}

#[test]
fn test_prophet_detect_cycle() {
    let mut tl = Timeline::new();
    // A repeating pattern: Transition, Reversal, Transition, Reversal, Transition, Reversal
    for i in 0..6 {
        let tag = if i % 2 == 0 { EventTag::Transition } else { EventTag::Reversal };
        tl.push_unchecked(make_event(i as u64, 1,
            vec![Ternary::Zero], vec![Ternary::Positive], tag));
    }
    let cycle = Prophet::detect_cycle(&tl, 2, 3);
    assert!(cycle.is_some());
    let cycle = cycle.unwrap();
    assert_eq!(cycle.len(), 2);
}

#[test]
fn test_prophet_no_cycle() {
    let mut tl = Timeline::new();
    tl.push_unchecked(make_event(1, 1, vec![Ternary::Zero], vec![Ternary::Positive], EventTag::Transition));
    tl.push_unchecked(make_event(2, 1, vec![Ternary::Positive], vec![Ternary::Negative], EventTag::Reversal));
    tl.push_unchecked(make_event(3, 1, vec![Ternary::Negative], vec![Ternary::Zero], EventTag::Stagnation));
    assert!(Prophet::detect_cycle(&tl, 2, 3).is_none());
}

#[test]
fn test_conservation_verify_sum() {
    let mut chronicle = Chronicle::new();
    chronicle.record(make_event(1, 1, vec![Ternary::Zero], vec![Ternary::Positive], EventTag::Transition));
    chronicle.record(make_event(2, 1, vec![Ternary::Positive], vec![Ternary::Zero], EventTag::Transition));
    let result = ChronicleConservation::verify_sum_conservation(&chronicle, 0);
    assert_eq!(result.unwrap(), 0);
}

#[test]
fn test_conservation_verify_continuity() {
    let mut tl = Timeline::new();
    tl.push_unchecked(make_event(1, 1, vec![Ternary::Zero], vec![Ternary::Positive], EventTag::Transition));
    tl.push_unchecked(make_event(2, 1, vec![Ternary::Negative], vec![Ternary::Zero], EventTag::Transition));
    // Continuity break: from_state [Negative] != previous to_state [Positive]
    let violations = ChronicleConservation::verify_continuity(&tl);
    assert_eq!(violations.len(), 1);
}

#[test]
fn test_conservation_energy() {
    let mut tl = Timeline::new();
    tl.push_unchecked(make_event(1, 1, vec![Ternary::Zero], vec![Ternary::Positive], EventTag::Transition));
    tl.push_unchecked(make_event(2, 1, vec![Ternary::Positive], vec![Ternary::Negative], EventTag::Reversal));
    assert_eq!(ChronicleConservation::energy(&tl), 3);
}

#[test]
fn test_conservation_energy_monotonicity() {
    let mut tl = Timeline::new();
    tl.push_unchecked(make_event(1, 1, vec![Ternary::Zero], vec![Ternary::Positive], EventTag::Transition));
    assert!(ChronicleConservation::verify_energy_monotonicity(&tl));
}

#[test]
fn test_prophet_empty_timeline() {
    let tl = Timeline::new();
    let forecast = Prophet::forecast(&tl);
    let confidence = if forecast.total == 0 { 0.0 } else { forecast.tag_count as f64 / forecast.total as f64 };
    assert_eq!(confidence, 0.0);
}
