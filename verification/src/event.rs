use vstd::prelude::*;

use crate::ternary::{state_sum, value_sum, lemma_value_sum_bounds, Ternary};

verus! {

/// Classification of events.
#[derive(Debug, Clone, Copy, PartialEq, Eq, Hash, Structural)]
pub enum EventTag {
    /// Normal state transition.
    Transition,
    /// State crossed a threshold.
    Threshold,
    /// State reversal (direction changed).
    Reversal,
    /// State became stuck.
    Stagnation,
    /// System-wide event.
    System,
    /// Custom/user-defined.
    Custom(u8),
}

/// A timestamped occurrence in the ternary state system.
#[derive(Debug)]
pub struct Event {
    pub timestamp: u64,
    pub agent_id: u64,
    pub from_state: Vec<Ternary>,
    pub to_state: Vec<Ternary>,
    pub tag: EventTag,
    pub description: String,
}

/// The mathematical content of an event.
pub struct EventView {
    pub timestamp: u64,
    pub agent_id: u64,
    pub from_state: Seq<Ternary>,
    pub to_state: Seq<Ternary>,
    pub tag: EventTag,
    pub description: Seq<char>,
}

impl View for Event {
    type V = EventView;

    open spec fn view(&self) -> EventView {
        EventView {
            timestamp: self.timestamp,
            agent_id: self.agent_id,
            from_state: self.from_state@,
            to_state: self.to_state@,
            tag: self.tag,
            description: self.description@,
        }
    }
}

/// The views of a sequence of values.
pub open spec fn views<T: View>(s: Seq<T>) -> Seq<T::V> {
    Seq::new(s.len(), |i: int| s[i]@)
}

/// Whether two ternary values are nonzero and of opposite sign.
pub open spec fn opposed(a: Ternary, b: Ternary) -> bool {
    (a == Ternary::Positive && b == Ternary::Negative) || (a == Ternary::Negative && b
        == Ternary::Positive)
}

/// The number of positions below `n` where `a` and `b` differ.
pub open spec fn differences(a: Seq<Ternary>, b: Seq<Ternary>, n: nat) -> nat
    decreases n,
{
    if n == 0 {
        0
    } else {
        differences(a, b, (n - 1) as nat) + if a[n - 1] != b[n - 1] {
            1nat
        } else {
            0nat
        }
    }
}

impl EventView {
    /// Net change of the value sum from the old state to the new one.
    pub open spec fn net_delta(self) -> int {
        value_sum(self.to_state) - value_sum(self.from_state)
    }

    /// Both states have one length and some position flips sign.
    pub open spec fn is_reversal(self) -> bool {
        &&& self.from_state.len() == self.to_state.len()
        &&& exists|i: int|
            0 <= i < self.from_state.len() && #[trigger] opposed(
                self.from_state[i],
                self.to_state[i],
            )
    }

    /// Positions, within the shorter of the two states, where they differ.
    pub open spec fn hamming_distance(self) -> nat {
        let n = if self.from_state.len() <= self.to_state.len() {
            self.from_state.len()
        } else {
            self.to_state.len()
        };
        differences(self.from_state, self.to_state, n)
    }

    /// The number of ternary cells that the event carries.
    pub open spec fn volume(self) -> nat {
        self.from_state.len() + self.to_state.len()
    }

    /// Sums over the event's states fit in an `i64`.
    pub open spec fn bounded(self) -> bool {
        self.volume() <= i64::MAX
    }
}

/// The net delta of an event is bounded by its volume.
pub proof fn lemma_net_delta_bounds(e: EventView)
    ensures
        -(e.volume() as int) <= e.net_delta() <= e.volume(),
        -(e.from_state.len() + e.to_state.len()) <= e.net_delta(),
{
    lemma_value_sum_bounds(e.from_state);
    lemma_value_sum_bounds(e.to_state);
}

/// A reversal changes at least one position of the state.
pub proof fn lemma_reversal_has_difference(e: EventView)
    requires
        e.is_reversal(),
    ensures
        e.hamming_distance() >= 1,
{
    let i = choose|i: int|
        0 <= i < e.from_state.len() && #[trigger] opposed(e.from_state[i], e.to_state[i]);
    lemma_differences_witness(e.from_state, e.to_state, e.from_state.len(), i);
}

/// An event is a reversal exactly when its two states have one length and at some position
/// a nonzero value is replaced by its negation; an event whose new state is all zero is
/// never a reversal.
pub proof fn lemma_reversal_is_sign_flip(e: EventView)
    ensures
        e.is_reversal() <==> (e.from_state.len() == e.to_state.len() && exists|i: int|
            0 <= i < e.from_state.len() && (#[trigger] e.from_state[i]).spec_value() != 0
                && e.from_state[i].spec_value() + e.to_state[i].spec_value() == 0),
        (forall|i: int| 0 <= i < e.to_state.len() ==> #[trigger] e.to_state[i] == Ternary::Zero)
            ==> !e.is_reversal(),
{
    if e.is_reversal() {
        let i = choose|i: int|
            0 <= i < e.from_state.len() && #[trigger] opposed(e.from_state[i], e.to_state[i]);
        assert(e.from_state[i].spec_value() != 0 && e.from_state[i].spec_value()
            + e.to_state[i].spec_value() == 0);
        if forall|j: int| 0 <= j < e.to_state.len() ==> #[trigger] e.to_state[j] == Ternary::Zero {
            assert(e.to_state[i] == Ternary::Zero);
        }
    }
    if e.from_state.len() == e.to_state.len() && exists|i: int|
        0 <= i < e.from_state.len() && (#[trigger] e.from_state[i]).spec_value() != 0
            && e.from_state[i].spec_value() + e.to_state[i].spec_value() == 0 {
        let i = choose|i: int|
            0 <= i < e.from_state.len() && (#[trigger] e.from_state[i]).spec_value() != 0
                && e.from_state[i].spec_value() + e.to_state[i].spec_value() == 0;
        assert(opposed(e.from_state[i], e.to_state[i]));
    }
}

/// An event that leaves the state as it was has no net delta, no differing position, and
/// is no reversal.
pub proof fn lemma_unchanged_event(e: EventView)
    requires
        e.from_state == e.to_state,
    ensures
        e.net_delta() == 0,
        e.hamming_distance() == 0,
        !e.is_reversal(),
{
    lemma_differences_none(e.from_state, e.to_state, e.from_state.len());
    assert forall|i: int| 0 <= i < e.from_state.len() implies !#[trigger] opposed(
        e.from_state[i],
        e.to_state[i],
    ) by {}
}

proof fn lemma_differences_none(a: Seq<Ternary>, b: Seq<Ternary>, n: nat)
    requires
        a == b,
    ensures
        differences(a, b, n) == 0,
    decreases n,
{
    if n > 0 {
        lemma_differences_none(a, b, (n - 1) as nat);
    }
}

proof fn lemma_differences_witness(a: Seq<Ternary>, b: Seq<Ternary>, n: nat, i: int)
    requires
        0 <= i < n,
        a[i] != b[i],
    ensures
        differences(a, b, n) >= 1,
    decreases n,
{
    if i < n - 1 {
        lemma_differences_witness(a, b, (n - 1) as nat, i);
    }
}

/// An exact copy of a sequence of ternary states.
pub fn copy_states(s: &Vec<Ternary>) -> (r: Vec<Ternary>)
    ensures
        r@ == s@,
{
    let mut r: Vec<Ternary> = Vec::new();
    let mut i: usize = 0;
    while i < s.len()
        invariant
            i <= s@.len(),
            r@ == s@.take(i as int),
        decreases s@.len() - i,
    {
        r.push(s[i]);
        i = i + 1;
        proof {
            assert(r@ =~= s@.take(i as int));
        }
    }
    proof {
        assert(s@.take(s@.len() as int) =~= s@);
    }
    r
}

impl Clone for Event {
    fn clone(&self) -> (e: Self)
        ensures
            e@ == self@,
    {
        Event {
            timestamp: self.timestamp,
            agent_id: self.agent_id,
            from_state: copy_states(&self.from_state),
            to_state: copy_states(&self.to_state),
            tag: self.tag,
            description: self.description.clone(),
        }
    }
}

impl Event {
    /// Builds an event from its parts.
    pub fn new(
        timestamp: u64,
        agent_id: u64,
        from_state: Vec<Ternary>,
        to_state: Vec<Ternary>,
        tag: EventTag,
        description: &str,
    ) -> (e: Event)
        ensures
            e.timestamp == timestamp,
            e.agent_id == agent_id,
            e.from_state@ == from_state@,
            e.to_state@ == to_state@,
            e.tag == tag,
            e.description@ == description@,
    {
        Event {
            timestamp,
            agent_id,
            from_state,
            to_state,
            tag,
            description: String::from_str(description),
        }
    }

    /// Compute the net delta of this event.
    pub fn net_delta(&self) -> (d: i64)
        requires
            self@.bounded(),
        ensures
            d == self@.net_delta(),
    {
        proof {
            lemma_net_delta_bounds(self@);
            lemma_value_sum_bounds(self.from_state@);
            lemma_value_sum_bounds(self.to_state@);
        }
        let from_sum: i64 = state_sum(&self.from_state);
        let to_sum: i64 = state_sum(&self.to_state);
        to_sum - from_sum
    }

    /// Check if the event represents a reversal.
    pub fn is_reversal(&self) -> (b: bool)
        ensures
            b == self@.is_reversal(),
            b <==> (self.from_state@.len() == self.to_state@.len() && exists|i: int|
                0 <= i < self.from_state@.len() && (#[trigger] self.from_state@[i]).spec_value()
                    != 0 && self.from_state@[i].spec_value() + self.to_state@[i].spec_value()
                    == 0),
    {
        proof {
            lemma_reversal_is_sign_flip(self@);
        }
        if self.from_state.len() != self.to_state.len() {
            return false;
        }
        let n: usize = self.from_state.len();
        let mut i: usize = 0;
        while i < n
            invariant
                n == self.from_state@.len() == self.to_state@.len(),
                i <= n,
                forall|j: int|
                    0 <= j < i ==> !#[trigger] opposed(self.from_state@[j], self.to_state@[j]),
            decreases n - i,
        {
            let f: i8 = self.from_state[i].value();
            let t: i8 = self.to_state[i].value();
            if f != 0 && t != 0 && f != t {
                assert(opposed(self.from_state@[i as int], self.to_state@[i as int]));
                return true;
            }
            i = i + 1;
        }
        false
    }

    /// Compute the Hamming distance between states.
    pub fn hamming_distance(&self) -> (d: usize)
        ensures
            d == self@.hamming_distance(),
    {
        let n: usize = if self.from_state.len() <= self.to_state.len() {
            self.from_state.len()
        } else {
            self.to_state.len()
        };
        let mut d: usize = 0;
        let mut i: usize = 0;
        while i < n
            invariant
                n <= self.from_state@.len(),
                n <= self.to_state@.len(),
                i <= n,
                d == differences(self.from_state@, self.to_state@, i as nat),
                d <= i,
            decreases n - i,
        {
            if self.from_state[i] != self.to_state[i] {
                d = d + 1;
            }
            i = i + 1;
        }
        d
    }
}

} // verus!
