use vstd::prelude::*;

use crate::chronicle::Chronicle;
use crate::event::{lemma_net_delta_bounds, views, EventView};
use crate::ternary::{value_sum, Ternary};
use crate::text::{decimal, push_i64, push_ternary_list, push_u64, signed_decimal, ternary_list};
use crate::timeline::{lemma_total_delta_bounds, lemma_volume_prefix, total_delta, volume, Timeline};

verus! {

/// The absolute value of an integer.
pub open spec fn abs(i: int) -> int {
    if i < 0 {
        -i
    } else {
        i
    }
}

/// An event whose net delta exceeds twice the length of its old state.
pub open spec fn suspicious(e: EventView) -> bool {
    abs(e.net_delta()) > 2 * e.from_state.len()
}

/// An event is suspicious exactly when its net delta lies outside twice the length of its
/// old state, on either side; so an event whose new state is no longer than its old one
/// (such as one that flips a single cell from Negative to Positive) is never suspicious.
pub proof fn lemma_suspicious_threshold(e: EventView)
    ensures
        suspicious(e) <==> (e.net_delta() > 2 * e.from_state.len() || e.net_delta() < -2
            * e.from_state.len()),
        e.to_state.len() <= e.from_state.len() ==> !suspicious(e),
{
    lemma_net_delta_bounds(e);
}

/// The report on a suspicious event.
pub open spec fn suspicious_text(e: EventView) -> Seq<char> {
    "Event at t="@ + decimal(e.timestamp as nat) + " has suspiciously large delta: "@
        + signed_decimal(e.net_delta())
}

/// The report on a sum that the events do not conserve.
pub open spec fn drift_text(initial_sum: int, delta: int) -> Seq<char> {
    "Sum not conserved: initial sum "@ + signed_decimal(initial_sum) + " became "@
        + signed_decimal(initial_sum + delta) + " (net delta "@ + signed_decimal(delta) + ")"@
}

/// The sum of the absolute net deltas of the events of `s`.
pub open spec fn energy(s: Seq<EventView>) -> int
    decreases s.len(),
{
    if s.len() == 0 {
        0
    } else {
        energy(s.drop_last()) + abs(s.last().net_delta())
    }
}

/// The report on a break between an event `e` and the event `prev` before it.
pub open spec fn continuity_text(prev: EventView, e: EventView) -> Seq<char> {
    "Continuity break at t="@ + decimal(e.timestamp as nat) + ": agent "@ + decimal(
        e.agent_id as nat,
    ) + " from_state "@ + ternary_list(e.from_state) + " != previous to_state "@
        + ternary_list(prev.to_state)
}

/// Whether `e` breaks continuity after `prev`: same agent, but its old state is not the
/// state `prev` left.
pub open spec fn breaks(prev: EventView, e: EventView) -> bool {
    e.agent_id == prev.agent_id && e.from_state != prev.to_state
}

/// The reports on all continuity breaks of `s`, in order.
pub open spec fn continuity_violations(s: Seq<EventView>) -> Seq<Seq<char>>
    decreases s.len(),
{
    if s.len() <= 1 {
        Seq::empty()
    } else {
        let rest = continuity_violations(s.drop_last());
        let prev = s[s.len() - 2];
        if breaks(prev, s.last()) {
            rest.push(continuity_text(prev, s.last()))
        } else {
            rest
        }
    }
}

/// Each event starts from the state that the event before it left.
pub open spec fn chained(s: Seq<EventView>) -> bool {
    forall|i: int| 1 <= i < s.len() ==> (#[trigger] s[i]).from_state == s[i - 1].to_state
}

/// Energy is never negative, is at least the size of the total delta, and is at most the
/// volume of the events.
pub proof fn lemma_energy_bounds(s: Seq<EventView>)
    ensures
        0 <= energy(s),
        abs(total_delta(s)) <= energy(s),
        energy(s) <= volume(s),
    decreases s.len(),
{
    if s.len() > 0 {
        lemma_energy_bounds(s.drop_last());
        lemma_net_delta_bounds(s.last());
    }
}

/// A timeline has no continuity breaks exactly when every event of an agent starts from the
/// state that the event before it, of the same agent, left.
pub proof fn lemma_no_violations(s: Seq<EventView>)
    ensures
        continuity_violations(s).len() == 0 <==> forall|i: int|
            1 <= i < s.len() ==> !((#[trigger] s[i]).agent_id == s[i - 1].agent_id
                && s[i].from_state != s[i - 1].to_state),
    decreases s.len(),
{
    if s.len() > 1 {
        let t = s.drop_last();
        lemma_no_violations(t);
        if continuity_violations(s).len() == 0 {
            assert forall|i: int| 1 <= i < s.len() implies !breaks(s[i - 1], #[trigger] s[i]) by {
                if i < s.len() - 1 {
                    assert(t[i] == s[i] && t[i - 1] == s[i - 1]);
                }
            }
        } else {
            if !breaks(s[s.len() - 2], s.last()) {
                let i = choose|i: int| 1 <= i < t.len() && breaks(t[i - 1], #[trigger] t[i]);
                assert(s[i] == t[i] && s[i - 1] == t[i - 1]);
            }
        }
    }
}

/// Along a chained sequence of events the net deltas add up to the change from the first
/// old state to the last new state: the total is conserved between the ends.
pub proof fn lemma_chained_total_delta(s: Seq<EventView>)
    requires
        s.len() > 0,
        chained(s),
    ensures
        total_delta(s) == value_sum(s.last().to_state) - value_sum(s[0].from_state),
    decreases s.len(),
{
    if s.len() > 1 {
        let t = s.drop_last();
        assert(chained(t)) by {
            assert forall|i: int| 1 <= i < t.len() implies (#[trigger] t[i]).from_state == t[i
                - 1].to_state by {
                assert(s[i] == t[i]);
            }
        }
        lemma_chained_total_delta(t);
        assert(s[s.len() - 1].from_state == s[s.len() - 2].to_state);
        assert(t.last() == s[s.len() - 2]);
        assert(t[0] == s[0]);
        assert(total_delta(s) == total_delta(t) + s.last().net_delta());
        assert(s.last().from_state == t.last().to_state);
    } else {
        assert(s.drop_last() =~= Seq::<EventView>::empty());
        assert(total_delta(s) == total_delta(s.drop_last()) + s.last().net_delta());
        assert(s.last() == s[0]);
    }
}

/// Energy never decreases as a timeline grows: a longer prefix has at least the energy of a
/// shorter one.
pub proof fn lemma_energy_monotone(s: Seq<EventView>, i: int, j: int)
    requires
        0 <= i <= j <= s.len(),
    ensures
        energy(s.take(i)) <= energy(s.take(j)),
    decreases j - i,
{
    if i < j {
        lemma_energy_monotone(s, i, j - 1);
        assert(s.take(j).drop_last() =~= s.take(j - 1));
    }
}

proof fn lemma_energy_step(s: Seq<EventView>, i: int)
    requires
        0 <= i < s.len(),
    ensures
        energy(s.take(i + 1)) == energy(s.take(i)) + abs(s[i].net_delta()),
        0 <= energy(s.take(i)),
        energy(s.take(i)) + s[i].volume() <= volume(s),
        abs(s[i].net_delta()) <= s[i].volume(),
        s[i].bounded() || volume(s) > i64::MAX,
{
    lemma_volume_prefix(s, i);
    lemma_energy_bounds(s.take(i));
    lemma_net_delta_bounds(s[i]);
    assert(s.take(i + 1).drop_last() =~= s.take(i));
}

fn states_equal(a: &Vec<Ternary>, b: &Vec<Ternary>) -> (r: bool)
    ensures
        r == (a@ == b@),
{
    if a.len() != b.len() {
        return false;
    }
    let mut i: usize = 0;
    while i < a.len()
        invariant
            a@.len() == b@.len(),
            i <= a@.len(),
            forall|j: int| 0 <= j < i ==> a@[j] == b@[j],
        decreases a@.len() - i,
    {
        if a[i] != b[i] {
            return false;
        }
        i = i + 1;
    }
    assert(a@ =~= b@);
    true
}

/// Verifies that historical records preserve conservation laws.
pub struct ChronicleConservation;

impl ChronicleConservation {
    /// Verify that the total ternary sum is conserved across all events.
    /// Returns the sum (the initial one) if it is conserved, and an error with details
    /// otherwise: first on an event with a suspiciously large delta, else on a net drift.
    pub fn verify_sum_conservation(chronicle: &Chronicle, initial_sum: i64) -> (r: Result<
        i64,
        String,
    >)
        requires
            volume(chronicle@) <= i64::MAX,
            i64::MIN <= initial_sum + total_delta(chronicle@) <= i64::MAX,
        ensures
            r is Ok <==> (forall|i: int|
                0 <= i < chronicle@.len() ==> !suspicious(#[trigger] chronicle@[i]))
                && total_delta(chronicle@) == 0,
            r matches Ok(v) ==> v == initial_sum && v == initial_sum + total_delta(chronicle@),
            r matches Err(msg) ==> (exists|i: int|
                0 <= i < chronicle@.len() && suspicious(#[trigger] chronicle@[i]) && (forall|
                    j: int,
                | 0 <= j < i ==> !suspicious(#[trigger] chronicle@[j])) && msg@ == suspicious_text(
                    chronicle@[i],
                )) || ((forall|i: int|
                0 <= i < chronicle@.len() ==> !suspicious(#[trigger] chronicle@[i]))
                && total_delta(chronicle@) != 0 && msg@ == drift_text(
                initial_sum as int,
                total_delta(chronicle@),
            )),
            r is Ok <==> (forall|i: int|
                0 <= i < chronicle@.len() ==> -2 * (#[trigger] chronicle@[i]).from_state.len()
                    <= chronicle@[i].net_delta() <= 2 * chronicle@[i].from_state.len())
                && total_delta(chronicle@) == 0,
    {
        proof {
            assert forall|i: int| 0 <= i < chronicle@.len() implies #[trigger] suspicious(
                chronicle@[i],
            ) == !(-2 * chronicle@[i].from_state.len() <= chronicle@[i].net_delta() <= 2
                * chronicle@[i].from_state.len()) by {
                lemma_suspicious_threshold(chronicle@[i]);
            }
        }
        let timeline = chronicle.global_timeline();
        let computed_sum: i64 = timeline.total_delta();
        let final_sum: i64 = initial_sum + computed_sum;
        let events = timeline.events();
        let ghost s = chronicle@;
        let mut i: usize = 0;
        while i < events.len()
            invariant
                i <= events@.len(),
                s == chronicle@,
                views(events@) == s,
                volume(s) <= i64::MAX,
                forall|j: int| 0 <= j < i ==> !suspicious(#[trigger] s[j]),
            decreases events@.len() - i,
        {
            let event = &events[i];
            proof {
                assert(event@ == s[i as int]);
                lemma_volume_prefix(s, i as int);
                lemma_net_delta_bounds(event@);
            }
            let delta: i64 = event.net_delta();
            let magnitude: i128 = if delta < 0 {
                0 - delta as i128
            } else {
                delta as i128
            };
            if magnitude > event.from_state.len() as i128 * 2 {
                let mut msg = String::from_str("Event at t=");
                push_u64(&mut msg, event.timestamp);
                msg.append(" has suspiciously large delta: ");
                push_i64(&mut msg, delta);
                assert(msg@ =~= suspicious_text(s[i as int]));
                assert(suspicious(s[i as int]));
                return Err(msg);
            }
            i = i + 1;
        }
        if computed_sum != 0 {
            let mut msg = String::from_str("Sum not conserved: initial sum ");
            push_i64(&mut msg, initial_sum);
            msg.append(" became ");
            push_i64(&mut msg, final_sum);
            msg.append(" (net delta ");
            push_i64(&mut msg, computed_sum);
            msg.append(")");
            assert(msg@ =~= drift_text(initial_sum as int, total_delta(s)));
            return Err(msg);
        }
        Ok(final_sum)
    }

    /// Verify conservation of event count: every from_state should match a prior to_state.
    /// This checks for continuity in the timeline.
    pub fn verify_continuity(timeline: &Timeline) -> (r: Vec<String>)
        ensures
            views(r@) == continuity_violations(timeline@),
    {
        let mut violations: Vec<String> = Vec::new();
        let events = timeline.events();
        let ghost s = timeline@;
        if events.len() == 0 {
            assert(views(violations@) =~= continuity_violations(s));
            return violations;
        }
        let mut i: usize = 1;
        proof {
            assert(views(violations@) =~= continuity_violations(s.take(1)));
        }
        while i < events.len()
            invariant
                1 <= i <= events@.len(),
                views(events@) == s,
                views(violations@) == continuity_violations(s.take(i as int)),
            decreases events@.len() - i,
        {
            let prev = &events[i - 1];
            let event = &events[i];
            let ghost before = violations@;
            proof {
                assert(prev@ == s[i - 1]);
                assert(event@ == s[i as int]);
            }
            if event.agent_id == prev.agent_id {
                if !states_equal(&event.from_state, &prev.to_state) {
                    let mut msg = String::from_str("Continuity break at t=");
                    push_u64(&mut msg, event.timestamp);
                    msg.append(": agent ");
                    push_u64(&mut msg, event.agent_id);
                    msg.append(" from_state ");
                    push_ternary_list(&mut msg, &event.from_state);
                    msg.append(" != previous to_state ");
                    push_ternary_list(&mut msg, &prev.to_state);
                    assert(msg@ =~= continuity_text(prev@, event@));
                    violations.push(msg);
                }
            }
            i = i + 1;
            proof {
                let t = s.take(i as int);
                assert(t.drop_last() =~= s.take(i - 1));
                assert(t.last() == s[i - 1]);
                assert(t[t.len() - 2] == s[i - 2]);
                assert(views(violations@) =~= continuity_violations(t));
            }
        }
        assert(s.take(events@.len() as int) =~= s);
        violations
    }

    /// Compute the "energy" of a timeline (sum of absolute deltas).
    pub fn energy(timeline: &Timeline) -> (r: i64)
        requires
            volume(timeline@) <= i64::MAX,
        ensures
            r == energy(timeline@),
    {
        let events = timeline.events();
        let ghost s = timeline@;
        let mut sum: i64 = 0;
        let mut i: usize = 0;
        while i < events.len()
            invariant
                i <= events@.len(),
                views(events@) == s,
                volume(s) <= i64::MAX,
                sum == energy(s.take(i as int)),
            decreases events@.len() - i,
        {
            let event = &events[i];
            proof {
                assert(event@ == s[i as int]);
                lemma_energy_step(s, i as int);
            }
            let delta: i64 = event.net_delta();
            let magnitude: i64 = if delta < 0 {
                0 - delta
            } else {
                delta
            };
            sum = sum + magnitude;
            i = i + 1;
        }
        assert(s.take(events@.len() as int) =~= s);
        sum
    }

    /// Verify that energy is non-negative and non-decreasing.
    pub fn verify_energy_monotonicity(timeline: &Timeline) -> (r: bool)
        requires
            volume(timeline@) <= i64::MAX,
        ensures
            r == (energy(timeline@) >= 0),
            r,
    {
        proof {
            lemma_energy_bounds(timeline@);
        }
        let cumulative: i64 = Self::energy(timeline);
        cumulative >= 0
    }
}

} // verus!
