use vstd::prelude::*;

use crate::event::{EventTag, EventView};
use crate::narrative::tag_count;
use crate::text::{decimal, push_usize};
use crate::timeline::{has_tag, lemma_total_delta_bounds, lemma_volume_prefix, select, total_delta, volume, Timeline};

verus! {

/// The tags of the events of `s`, in order.
pub open spec fn tags_of(s: Seq<EventView>) -> Seq<EventTag> {
    Seq::new(s.len(), |i: int| s[i].tag)
}

/// How many of the blocks of length `p` starting at `i`, `i + p`, `i + 2p`, ... that fit in
/// `tags` repeat the first `p` tags.
pub open spec fn repeats_from(tags: Seq<EventTag>, p: nat, i: nat) -> nat
    decreases tags.len() - i,
{
    if p == 0 || i + p > tags.len() {
        0
    } else {
        repeats_from(tags, p, i + p) + if tags.subrange(i as int, (i + p) as int) == tags.subrange(
            0,
            p as int,
        ) {
            1nat
        } else {
            0nat
        }
    }
}

/// The first pattern length in `[p, hi]` whose prefix repeats at least twice after itself.
pub open spec fn first_cycle(tags: Seq<EventTag>, p: nat, hi: nat) -> Option<nat>
    decreases hi + 1 - p,
{
    if p > hi {
        None
    } else if repeats_from(tags, p, p) >= 2 {
        Some(p)
    } else {
        first_cycle(tags, p + 1, hi)
    }
}

/// The repeating prefix that a cycle search over pattern lengths `[min_length, max_length]` finds.
pub open spec fn cycle(tags: Seq<EventTag>, min_length: nat, max_length: nat) -> Option<
    Seq<EventTag>,
> {
    let hi = if max_length <= tags.len() / 2 {
        max_length
    } else {
        tags.len() / 2
    };
    if tags.len() < min_length * 2 {
        None
    } else {
        match first_cycle(tags, min_length, hi) {
            Some(p) => Some(tags.subrange(0, p as int)),
            None => None,
        }
    }
}

/// A pattern that the cycle search finds is the prefix of the tags, its length lies in the
/// searched range, at most half the tags, and it repeats at least twice right after itself.
pub proof fn lemma_cycle_found(tags: Seq<EventTag>, min_length: nat, max_length: nat)
    requires
        cycle(tags, min_length, max_length) is Some,
    ensures
        ({
            let pattern = cycle(tags, min_length, max_length)->0;
            &&& min_length <= pattern.len() <= max_length
            &&& 2 * pattern.len() <= tags.len()
            &&& pattern == tags.subrange(0, pattern.len() as int)
            &&& repeats_from(tags, pattern.len(), pattern.len()) >= 2
        }),
{
    let hi = if max_length <= tags.len() / 2 {
        max_length
    } else {
        tags.len() / 2
    };
    lemma_first_cycle(tags, min_length, hi);
}

/// The blocks that repeat the first `q` tags, written out: two distinct later blocks, at
/// multiples of `q`, equal the first `q` tags element by element.
spec fn repeated_twice(tags: Seq<EventTag>, q: int) -> bool {
    exists|b1: int, b2: int|
        #![trigger tags[b1], tags[b2]]
        q <= b1 < b2 && b2 + q <= tags.len() && b1 % q == 0 && b2 % q == 0 && tags[b1] == tags[0] && tags[b2]
                    == tags[0] && (forall|k: int|
            0 <= k < q ==> tags[b1 + k] == #[trigger] tags.subrange(0, q)[k]) && (forall|k: int|
            0 <= k < q ==> tags[b2 + k] == #[trigger] tags.subrange(0, q)[k])
}

/// The block count of length `q` reaches two exactly when two later blocks repeat the
/// first `q` tags.
proof fn lemma_repeats_twice(tags: Seq<EventTag>, q: int)
    requires
        q >= 1,
    ensures
        repeats_from(tags, q as nat, q as nat) >= 2 <==> repeated_twice(tags, q),
{
    if q > tags.len() {
        assert(!repeated_twice(tags, q));
    } else {
        vstd::arithmetic::div_mod::lemma_mod_self_0(q);
        lemma_repeats_from(tags, q, q);
        if repeated_twice(tags, q) {
            let (b1, b2) = choose|b1: int, b2: int|
                #![trigger tags[b1], tags[b2]]
                q <= b1 < b2 && b2 + q <= tags.len() && b1 % q == 0 && b2 % q == 0 && tags[b1]
                    == tags[0] && tags[b2] == tags[0] && (forall|k: int|
                    0 <= k < q ==> tags[b1 + k] == #[trigger] tags.subrange(0, q)[k]) && (forall|
                    k: int,
                | 0 <= k < q ==> tags[b2 + k] == #[trigger] tags.subrange(0, q)[k]);
            assert(q <= b1 < b2 && b2 + q <= tags.len());
            assert(forall|k: int| 0 <= k < q ==> tags[b1 + k] == #[trigger] tags.subrange(0, q)[k]);
            assert forall|k: int| 0 <= k < q implies tags[b1 + k] == #[trigger] tags[k] by {
                assert(tags[b1 + k] == tags.subrange(0, q)[k]);
                assert(tags.subrange(0, q)[k] == tags[k]);
            }
            assert forall|k: int| 0 <= k < q implies tags[b2 + k] == #[trigger] tags[k] by {
                assert(tags[b2 + k] == tags.subrange(0, q)[k]);
                assert(tags.subrange(0, q)[k] == tags[k]);
            }
            assert(repeat_at(tags, q, b1) && repeat_at(tags, q, b2));
        }
        if repeats_from(tags, q as nat, q as nat) >= 2 {
            let (b1, b2) = choose|b1: int, b2: int|
                #![trigger repeat_at(tags, q, b1), repeat_at(tags, q, b2)]
                q <= b1 < b2 && b1 % q == 0 && b2 % q == 0 && repeat_at(tags, q, b1) && repeat_at(
                    tags,
                    q,
                    b2,
                );
            assert forall|k: int| 0 <= k < q implies tags[b1 + k] == #[trigger] tags.subrange(
                0,
                q,
            )[k] by {
                assert(tags[b1 + k] == tags[k]);
            }
            assert forall|k: int| 0 <= k < q implies tags[b2 + k] == #[trigger] tags.subrange(
                0,
                q,
            )[k] by {
                assert(tags[b2 + k] == tags[k]);
            }
            assert(tags[b1] == tags[b1] && tags[b2] == tags[b2]);
        }
    }
}

/// The cycle search returns the prefix of the tags of the least length `l` in
/// `[min_length, max_length]`, with `2 * l` at most the number of tags, for which two
/// distinct later blocks, starting at multiples of `l`, equal that prefix element by element;
/// so no length `q` below `l` in the range has two such blocks. When it returns nothing, no
/// length `q` in the range with `2 * q` at most the number of tags has two such blocks.
pub proof fn lemma_cycle_is_first_repeating_prefix(
    tags: Seq<EventTag>,
    min_length: nat,
    max_length: nat,
    q: int,
)
    requires
        min_length >= 1,
    ensures
        cycle(tags, min_length, max_length) matches Some(v) ==> {
            let l = v.len() as int;
            &&& min_length <= l <= max_length
            &&& 2 * l <= tags.len()
            &&& forall|k: int| 0 <= k < l ==> #[trigger] v[k] == tags[k]
            &&& exists|b1: int, b2: int|
                #![trigger tags[b1], tags[b2]]
                l <= b1 < b2 && b2 + l <= tags.len() && b1 % l == 0 && b2 % l == 0 && tags[b1]
                    == tags[0] && tags[b2] == tags[0] && (forall|k: int|
                    0 <= k < l ==> tags[b1 + k] == #[trigger] tags.subrange(0, l)[k]) && (forall|
                    k: int,
                | 0 <= k < l ==> tags[b2 + k] == #[trigger] tags.subrange(0, l)[k])
            &&& min_length <= q < l ==> !(exists|b1: int, b2: int|
                #![trigger tags[b1], tags[b2]]
                q <= b1 < b2 && b2 + q <= tags.len() && b1 % q == 0 && b2 % q == 0 && tags[b1]
                    == tags[0] && tags[b2] == tags[0] && (forall|k: int|
                    0 <= k < q ==> tags[b1 + k] == #[trigger] tags.subrange(0, q)[k]) && (forall|
                    k: int,
                | 0 <= k < q ==> tags[b2 + k] == #[trigger] tags.subrange(0, q)[k]))
        },
        cycle(tags, min_length, max_length) is None ==> (min_length <= q <= max_length && 2 * q
            <= tags.len() ==> !(exists|b1: int, b2: int|
                #![trigger tags[b1], tags[b2]]
                q <= b1 < b2 && b2 + q <= tags.len() && b1 % q == 0 && b2 % q == 0 && tags[b1]
                    == tags[0] && tags[b2] == tags[0] && (forall|k: int|
                    0 <= k < q ==> tags[b1 + k] == #[trigger] tags.subrange(0, q)[k]) && (forall|
                    k: int,
                | 0 <= k < q ==> tags[b2 + k] == #[trigger] tags.subrange(0, q)[k]))),
{
    if cycle(tags, min_length, max_length) is Some {
        let v = cycle(tags, min_length, max_length)->0;
        lemma_cycle_found(tags, min_length, max_length);
        lemma_repeats_twice(tags, v.len() as int);
        lemma_repeated_inline(tags, v.len() as int);
        if min_length <= q < v.len() {
            lemma_no_repeat_at_length(tags, min_length, max_length, q);
        }
    } else {
        if min_length <= q <= max_length && 2 * q <= tags.len() {
            lemma_no_repeat_at_length(tags, min_length, max_length, q);
        }
    }
}

/// Two repeating later blocks of length `q`, written out, are what `repeated_twice` says.
proof fn lemma_repeated_inline(tags: Seq<EventTag>, q: int)
    requires
        repeated_twice(tags, q),
    ensures
        exists|b1: int, b2: int|
        #![trigger tags[b1], tags[b2]]
        q <= b1 < b2 && b2 + q <= tags.len() && b1 % q == 0 && b2 % q == 0 && tags[b1] == tags[0]
            && tags[b2] == tags[0] && (forall|k: int|
            0 <= k < q ==> tags[b1 + k] == #[trigger] tags.subrange(0, q)[k]) && (forall|k: int|
            0 <= k < q ==> tags[b2 + k] == #[trigger] tags.subrange(0, q)[k]),
{
    let (b1, b2) = choose|b1: int, b2: int|
        #![trigger tags[b1], tags[b2]]
        q <= b1 < b2 && b2 + q <= tags.len() && b1 % q == 0 && b2 % q == 0 && tags[b1] == tags[0]
            && tags[b2] == tags[0] && (forall|k: int|
            0 <= k < q ==> tags[b1 + k] == #[trigger] tags.subrange(0, q)[k]) && (forall|k: int|
            0 <= k < q ==> tags[b2 + k] == #[trigger] tags.subrange(0, q)[k]);
    assert(tags[b1] == tags[0] && tags[b2] == tags[0]);
}

/// Without two repeating later blocks of length `q`, none are written out either.
proof fn lemma_not_repeated_inline(tags: Seq<EventTag>, q: int)
    requires
        !repeated_twice(tags, q),
    ensures
        !(exists|b1: int, b2: int|
        #![trigger tags[b1], tags[b2]]
        q <= b1 < b2 && b2 + q <= tags.len() && b1 % q == 0 && b2 % q == 0 && tags[b1] == tags[0]
            && tags[b2] == tags[0] && (forall|k: int|
            0 <= k < q ==> tags[b1 + k] == #[trigger] tags.subrange(0, q)[k]) && (forall|k: int|
            0 <= k < q ==> tags[b2 + k] == #[trigger] tags.subrange(0, q)[k])),
{
    if exists|b1: int, b2: int|
        #![trigger tags[b1], tags[b2]]
        q <= b1 < b2 && b2 + q <= tags.len() && b1 % q == 0 && b2 % q == 0 && tags[b1] == tags[0]
            && tags[b2] == tags[0] && (forall|k: int|
            0 <= k < q ==> tags[b1 + k] == #[trigger] tags.subrange(0, q)[k]) && (forall|k: int|
            0 <= k < q ==> tags[b2 + k] == #[trigger] tags.subrange(0, q)[k]) {
        let (b1, b2) = choose|b1: int, b2: int|
            #![trigger tags[b1], tags[b2]]
            q <= b1 < b2 && b2 + q <= tags.len() && b1 % q == 0 && b2 % q == 0 && tags[b1]
                == tags[0] && tags[b2] == tags[0] && (forall|k: int|
                0 <= k < q ==> tags[b1 + k] == #[trigger] tags.subrange(0, q)[k]) && (forall|
                k: int,
            | 0 <= k < q ==> tags[b2 + k] == #[trigger] tags.subrange(0, q)[k]);
        assert(repeated_twice(tags, q));
    }
}

/// A length in the searched range below the found pattern's (or any, when none is found)
/// has no two repeating later blocks.
proof fn lemma_no_repeat_at_length(tags: Seq<EventTag>, min_length: nat, max_length: nat, q: int)
    requires
        min_length >= 1,
        min_length <= q <= max_length,
        2 * q <= tags.len(),
        cycle(tags, min_length, max_length) matches Some(v) ==> q < v.len(),
    ensures
        !(exists|b1: int, b2: int|
        #![trigger tags[b1], tags[b2]]
        q <= b1 < b2 && b2 + q <= tags.len() && b1 % q == 0 && b2 % q == 0 && tags[b1] == tags[0]
            && tags[b2] == tags[0] && (forall|k: int|
            0 <= k < q ==> tags[b1 + k] == #[trigger] tags.subrange(0, q)[k]) && (forall|k: int|
            0 <= k < q ==> tags[b2 + k] == #[trigger] tags.subrange(0, q)[k])),
{
    let hi = if max_length <= tags.len() / 2 {
        max_length
    } else {
        tags.len() / 2
    };
    lemma_first_cycle(tags, min_length, hi);
    lemma_repeats_twice(tags, q);
    assert(repeats_from(tags, q as nat, q as nat) < 2);
    lemma_not_repeated_inline(tags, q);
}

/// The tags at `b`, `b + 1`, ... repeat the first `p` tags.
spec fn repeat_at(tags: Seq<EventTag>, p: int, b: int) -> bool {
    &&& 0 <= b
    &&& b + p <= tags.len()
    &&& forall|k: int| 0 <= k < p ==> tags[b + k] == #[trigger] tags[k]
}

/// Two distinct later blocks, at multiples of `p`, repeat the first `p` tags.
spec fn two_repeats(tags: Seq<EventTag>, p: int) -> bool {
    exists|b1: int, b2: int|
        #![trigger repeat_at(tags, p, b1), repeat_at(tags, p, b2)]
        p <= b1 < b2 && b1 % p == 0 && b2 % p == 0 && repeat_at(tags, p, b1) && repeat_at(
            tags,
            p,
            b2,
        )
}

proof fn lemma_block_equal(tags: Seq<EventTag>, p: int, b: int)
    requires
        0 <= p,
        0 <= b,
        b + p <= tags.len(),
    ensures
        (tags.subrange(b, b + p) == tags.subrange(0, p)) <==> repeat_at(tags, p, b),
{
    if repeat_at(tags, p, b) {
        assert(tags.subrange(b, b + p) =~= tags.subrange(0, p));
    }
    if tags.subrange(b, b + p) == tags.subrange(0, p) {
        assert forall|k: int| 0 <= k < p implies tags[b + k] == #[trigger] tags[k] by {
            assert(tags.subrange(b, b + p)[k] == tags.subrange(0, p)[k]);
        }
    }
}

proof fn lemma_next_multiple(p: int, i: int, b: int)
    requires
        p >= 1,
        i >= 0,
        b > i,
        i % p == 0,
        b % p == 0,
    ensures
        b >= i + p,
{
    vstd::arithmetic::div_mod::lemma_fundamental_div_mod(i, p);
    vstd::arithmetic::div_mod::lemma_fundamental_div_mod(b, p);
    let qi = i / p;
    let qb = b / p;
    assert(b >= i + p) by (nonlinear_arith)
        requires
            i == p * qi,
            b == p * qb,
            b > i,
            p >= 1,
    ;
}

/// The block count from `i` on is at least one, or two, exactly when there are that many
/// repeating blocks at multiples of `p` from `i` on.
proof fn lemma_repeats_from(tags: Seq<EventTag>, p: int, i: int)
    requires
        p >= 1,
        i >= 0,
        i % p == 0,
        i <= tags.len(),
    ensures
        repeats_from(tags, p as nat, i as nat) >= 1 <==> exists|b: int|
            #![trigger repeat_at(tags, p, b)]
            i <= b && b % p == 0 && repeat_at(tags, p, b),
        repeats_from(tags, p as nat, i as nat) >= 2 <==> exists|b1: int, b2: int|
            #![trigger repeat_at(tags, p, b1), repeat_at(tags, p, b2)]
            i <= b1 < b2 && b1 % p == 0 && b2 % p == 0 && repeat_at(tags, p, b1) && repeat_at(
                tags,
                p,
                b2,
            ),
    decreases tags.len() - i,
{
    if i + p > tags.len() {
        assert forall|b: int| i <= b && b % p == 0 implies !#[trigger] repeat_at(tags, p, b) by {}
    } else {
        vstd::arithmetic::div_mod::lemma_mod_add_multiples_vanish(i, p);
        lemma_repeats_from(tags, p, i + p);
        lemma_block_equal(tags, p, i);
        let here = repeat_at(tags, p, i);
        assert(repeats_from(tags, p as nat, i as nat) == repeats_from(tags, p as nat, (i + p) as nat)
            + if here {
            1nat
        } else {
            0nat
        });
        // One repeat.
        if exists|b: int| #![trigger repeat_at(tags, p, b)] i <= b && b % p == 0 && repeat_at(tags, p, b) {
            let b = choose|b: int| #![trigger repeat_at(tags, p, b)] i <= b && b % p == 0 && repeat_at(tags, p, b);
            if b > i {
                lemma_next_multiple(p, i, b);
            }
        }
        if repeats_from(tags, p as nat, (i + p) as nat) >= 1 {
            let b = choose|b: int| #![trigger repeat_at(tags, p, b)] i + p <= b && b % p == 0 && repeat_at(tags, p, b);
            assert(repeat_at(tags, p, b));
        }
        if here {
            assert(repeat_at(tags, p, i));
        }
        // Two repeats.
        if exists|b1: int, b2: int|
            #![trigger repeat_at(tags, p, b1), repeat_at(tags, p, b2)]
            i <= b1 < b2 && b1 % p == 0 && b2 % p == 0 && repeat_at(tags, p, b1) && repeat_at(
                tags,
                p,
                b2,
            ) {
            let (b1, b2) = choose|b1: int, b2: int|
                #![trigger repeat_at(tags, p, b1), repeat_at(tags, p, b2)]
                i <= b1 < b2 && b1 % p == 0 && b2 % p == 0 && repeat_at(tags, p, b1) && repeat_at(
                    tags,
                    p,
                    b2,
                );
            lemma_next_multiple(p, i, b2);
            assert(repeat_at(tags, p, b2));
            if b1 > i {
                lemma_next_multiple(p, i, b1);
                assert(repeat_at(tags, p, b1));
            }
        }
        if repeats_from(tags, p as nat, (i + p) as nat) >= 2 {
            let (b1, b2) = choose|b1: int, b2: int|
                #![trigger repeat_at(tags, p, b1), repeat_at(tags, p, b2)]
                i + p <= b1 < b2 && b1 % p == 0 && b2 % p == 0 && repeat_at(tags, p, b1)
                    && repeat_at(tags, p, b2);
            assert(repeat_at(tags, p, b1) && repeat_at(tags, p, b2));
        }
        if here && repeats_from(tags, p as nat, (i + p) as nat) >= 1 {
            let b = choose|b: int| #![trigger repeat_at(tags, p, b)] i + p <= b && b % p == 0 && repeat_at(tags, p, b);
            assert(repeat_at(tags, p, i) && repeat_at(tags, p, b));
        }
    }
}

proof fn lemma_first_cycle(tags: Seq<EventTag>, p: nat, hi: nat)
    ensures
        first_cycle(tags, p, hi) matches Some(q) ==> p <= q <= hi && repeats_from(tags, q, q)
            >= 2,
        first_cycle(tags, p, hi) matches Some(q) ==> forall|r: nat|
            p <= r < q ==> #[trigger] repeats_from(tags, r, r) < 2,
        first_cycle(tags, p, hi) is None ==> forall|r: nat|
            p <= r <= hi ==> #[trigger] repeats_from(tags, r, r) < 2,
    decreases hi + 1 - p,
{
    if p <= hi && repeats_from(tags, p, p) < 2 {
        lemma_first_cycle(tags, p + 1, hi);
    }
}

/// Where `tag` stands in `keys`, if it does.
fn position_of(keys: &Vec<EventTag>, tag: EventTag) -> (r: Option<usize>)
    ensures
        match r {
            Some(j) => j < keys@.len() && keys@[j as int] == tag,
            None => !keys@.contains(tag),
        },
{
    let mut j: usize = 0;
    while j < keys.len()
        invariant
            j <= keys@.len(),
            forall|k: int| 0 <= k < j ==> keys@[k] != tag,
        decreases keys@.len() - j,
    {
        if keys[j] == tag {
            return Some(j);
        }
        j = j + 1;
    }
    None
}

/// A longer prefix has at least the tag count of a shorter one.
proof fn lemma_tag_count_monotone(s: Seq<EventView>, i: int)
    requires
        0 <= i <= s.len(),
    ensures
        tag_count(s.take(i), s[0].tag) <= tag_count(s, s[0].tag),
    decreases s.len() - i,
{
    if i < s.len() {
        lemma_tag_count_step(s, i, s[0].tag);
        lemma_tag_count_monotone(s, i + 1);
    } else {
        assert(s.take(i) =~= s);
    }
}

fn block_matches(tags: &Vec<EventTag>, i: usize, p: usize) -> (b: bool)
    requires
        i + p <= tags@.len(),
        p <= tags@.len(),
    ensures
        b == (tags@.subrange(i as int, i + p) == tags@.subrange(0, p as int)),
{
    let mut j: usize = 0;
    let len: usize = tags.len();
    while j < p
        invariant
            j <= p,
            len == tags@.len(),
            i + p <= tags@.len(),
            p <= tags@.len(),
            forall|k: int| 0 <= k < j ==> tags@[i + k] == #[trigger] tags@[k],
        decreases p - j,
    {
        if tags[i + j] != tags[j] {
            assert(tags@.subrange(i as int, i + p)[j as int] != tags@.subrange(0, p as int)[j as int]);
            return false;
        }
        j = j + 1;
    }
    assert(tags@.subrange(i as int, i + p) =~= tags@.subrange(0, p as int));
    true
}

/// `a / k` rounded to the nearest integer, halves away from zero.
pub open spec fn rounded_div(a: int, k: int) -> int {
    if a >= 0 {
        (2 * a + k) / (2 * k)
    } else {
        -((2 * (-a) + k) / (2 * k))
    }
}

/// How many of the latest events a forecast averages over.
pub open spec fn recent_count(n: nat) -> nat {
    if n < 5 {
        n
    } else {
        5
    }
}

/// The sum of the net deltas of the last `k` events of `s`.
pub open spec fn recent_delta(s: Seq<EventView>, k: nat) -> int {
    total_delta(s.subrange(s.len() - k, s.len() as int))
}

/// Summing net deltas can begin at the front: the first event's delta plus the rest's.
proof fn lemma_total_delta_front(s: Seq<EventView>)
    requires
        s.len() > 0,
    ensures
        total_delta(s) == s[0].net_delta() + total_delta(s.subrange(1, s.len() as int)),
    decreases s.len(),
{
    if s.len() > 1 {
        let t = s.drop_last();
        lemma_total_delta_front(t);
        assert(s.subrange(1, s.len() as int).drop_last() =~= t.subrange(1, t.len() as int));
        assert(s.subrange(1, s.len() as int).last() == s.last());
    } else {
        assert(s.subrange(1, s.len() as int) =~= Seq::<EventView>::empty());
        assert(s.drop_last() =~= Seq::<EventView>::empty());
    }
}

/// Once there are five events, recording one more slides the forecast window: the sum
/// over the latest five loses the delta of the oldest of them and gains the new event's.
pub proof fn lemma_recent_window_slides(s: Seq<EventView>, e: EventView)
    requires
        s.len() >= 5,
    ensures
        total_delta(s.push(e).subrange(s.len() + 1 - 5, (s.len() + 1) as int)) == total_delta(
            s.subrange(s.len() - 5, s.len() as int),
        ) - s[s.len() - 5].net_delta() + e.net_delta(),
{
    let n = s.len() as int;
    let old_window = s.subrange(n - 5, n);
    let new_window = s.push(e).subrange(n - 4, n + 1);
    lemma_total_delta_front(old_window);
    assert(new_window.drop_last() =~= old_window.subrange(1, old_window.len() as int));
    assert(new_window.last() == e);
}

/// The integer content of a prediction of the next event.
pub struct Forecast {
    /// A tag that occurs most often.
    pub predicted_tag: EventTag,
    /// How often that tag occurs.
    pub tag_count: usize,
    /// The number of events.
    pub total: usize,
    /// What the prediction rests on.
    pub pattern_basis: String,
    /// The mean net delta of the latest events, rounded.
    pub predicted_delta: i64,
}

/// Counting the tags of a prefix one event further adds one to the tag of that event.
proof fn lemma_tag_count_step(s: Seq<EventView>, i: int, t: EventTag)
    requires
        0 <= i < s.len(),
    ensures
        tag_count(s.take(i + 1), t) == tag_count(s.take(i), t) + if s[i].tag == t {
            1nat
        } else {
            0nat
        },
{
    assert(s.take(i + 1).drop_last() =~= s.take(i));
}

/// A tag count is at most the number of events.
proof fn lemma_tag_count_le(s: Seq<EventView>, t: EventTag)
    ensures
        tag_count(s, t) <= s.len(),
    decreases s.len(),
{
    if s.len() > 0 {
        lemma_tag_count_le(s.drop_last(), t);
    }
}

/// The sum of the net deltas of a suffix is bounded by the volume of the whole.
proof fn lemma_suffix_bounds(s: Seq<EventView>, j: int)
    requires
        0 <= j <= s.len(),
    ensures
        -(volume(s) as int) <= total_delta(s.subrange(j, s.len() as int)) <= volume(s),
    decreases s.len() - j,
{
    lemma_total_delta_bounds(s.subrange(j, s.len() as int));
    lemma_suffix_volume(s, j);
}

proof fn lemma_suffix_volume(s: Seq<EventView>, j: int)
    requires
        0 <= j <= s.len(),
    ensures
        volume(s.subrange(j, s.len() as int)) <= volume(s),
    decreases s.len(),
{
    if j < s.len() {
        let t = s.drop_last();
        lemma_suffix_volume(t, j);
        assert(s.subrange(j, s.len() as int).drop_last() =~= t.subrange(j, t.len() as int));
    } else {
        assert(s.subrange(j, s.len() as int) =~= Seq::<EventView>::empty());
    }
}

/// Predicts future events from patterns in historical data.
pub struct Prophet;

impl Prophet {
    /// A tag that occurs most often, with its count, and the rounded mean net delta of
    /// the latest (at most five) events.
    pub fn forecast(timeline: &Timeline) -> (f: Forecast)
        requires
            volume(timeline@) <= i64::MAX,
        ensures
            f.total == timeline@.len(),
            timeline@.len() == 0 ==> {
                &&& f.predicted_tag == EventTag::Transition
                &&& f.tag_count == 0
                &&& f.predicted_delta == 0
                &&& f.pattern_basis@ == "No data"@
            },
            timeline@.len() > 0 ==> {
                &&& f.tag_count == tag_count(timeline@, f.predicted_tag)
                &&& forall|t: EventTag| #[trigger] tag_count(timeline@, t) <= f.tag_count
                &&& f.tag_count >= 1
                &&& f.tag_count == select(timeline@, has_tag(f.predicted_tag)).len()
                &&& forall|t: EventTag| #[trigger]
                    select(timeline@, has_tag(t)).len() <= f.tag_count
                &&& f.predicted_delta == rounded_div(
                    recent_delta(timeline@, recent_count(timeline@.len())),
                    recent_count(timeline@.len()) as int,
                )
                &&& f.pattern_basis@ == "Most common tag in "@ + decimal(timeline@.len())
                    + " events"@
            },
            // The prediction is the mean net delta of the latest events (the last
            // min(n, 5) of them), rounded to the nearest integer with halves away from zero.
            timeline@.len() > 0 ==> ({
                let n = timeline@.len() as int;
                let k = if n < 5 {
                    n
                } else {
                    5
                };
                let a = total_delta(timeline@.subrange(n - k, n));
                let d = f.predicted_delta as int;
                &&& a >= 0 ==> k * (2 * d - 1) <= 2 * a < k * (2 * d + 1)
                &&& a < 0 ==> k * (2 * d - 1) < 2 * a <= k * (2 * d + 1)
            }),
    {
        if timeline.is_empty() {
            return Forecast {
                predicted_tag: EventTag::Transition,
                tag_count: 0,
                total: 0,
                pattern_basis: String::from_str("No data"),
                predicted_delta: 0,
            };
        }
        let events = timeline.events();
        let ghost s = timeline@;
        let n: usize = events.len();
        // Distinct tags seen so far, each with its count.
        let mut keys: Vec<EventTag> = Vec::new();
        let mut counts: Vec<usize> = Vec::new();
        let mut i: usize = 0;
        while i < n
            invariant
                n == events@.len() == s.len(),
                crate::event::views(events@) == s,
                i <= n,
                keys@.len() == counts@.len(),
                forall|a: int, b: int|
                    0 <= a < b < keys@.len() ==> keys@[a] != keys@[b],
                forall|j: int|
                    0 <= j < keys@.len() ==> #[trigger] counts@[j] == tag_count(
                        s.take(i as int),
                        keys@[j],
                    ),
                forall|t: EventTag| #[trigger]
                    tag_count(s.take(i as int), t) > 0 ==> keys@.contains(t),
            decreases n - i,
        {
            let tag = events[i].tag;
            assert(tag == s[i as int].tag);
            proof {
                assert forall|t: EventTag| #[trigger]
                    tag_count(s.take(i + 1), t) == tag_count(s.take(i as int), t) + if tag == t {
                        1nat
                    } else {
                        0nat
                    } by {
                    lemma_tag_count_step(s, i as int, t);
                }
                lemma_tag_count_le(s.take(i as int), tag);
            }
            let found = position_of(&keys, tag);
            let ghost old_keys = keys@;
            let ghost old_counts = counts@;
            if let Some(j) = found {
                let c: usize = counts[j];
                assert(c == tag_count(s.take(i as int), tag));
                assert(s.take(i as int).len() == i);
                counts.set(j, c + 1);
                proof {
                    assert forall|t: EventTag| tag_count(s.take(i + 1), t) > 0 implies #[trigger]
                        keys@.contains(t) by {
                        if t != tag {
                            assert(tag_count(s.take(i + 1), t) == tag_count(s.take(i as int), t));
                        } else {
                            assert(keys@[j as int] == t);
                        }
                    }
                }
            } else {
                keys.push(tag);
                counts.push(1);
                proof {
                    assert(!old_keys.contains(tag));
                    assert(tag_count(s.take(i as int), tag) == 0);
                    assert forall|t: EventTag| tag_count(s.take(i + 1), t) > 0 implies #[trigger]
                        keys@.contains(t) by {
                        if t != tag {
                            assert(tag_count(s.take(i + 1), t) == tag_count(s.take(i as int), t));
                            assert(old_keys.contains(t));
                            let k = choose|k: int| 0 <= k < old_keys.len() && old_keys[k] == t;
                            assert(keys@[k] == t);
                        } else {
                            assert(keys@[old_keys.len() as int] == t);
                        }
                    }
                }
            }
            i = i + 1;
        }
        assert(s.take(n as int) =~= s);
        proof {
            assert(tag_count(s, s[0].tag) >= 1) by {
                lemma_tag_count_step(s, 0, s[0].tag);
                assert(s.take(0) =~= Seq::<EventView>::empty());
                lemma_tag_count_monotone(s, 1);
            }
            assert(keys@.contains(s[0].tag));
        }
        // The first tag with the largest count.
        let mut best: usize = 0;
        let mut k: usize = 1;
        while k < keys.len()
            invariant
                keys@.len() == counts@.len(),
                1 <= keys@.len(),
                best < keys@.len(),
                1 <= k <= keys@.len(),
                forall|j: int| 0 <= j < k ==> counts@[j] <= counts@[best as int],
            decreases keys@.len() - k,
        {
            if counts[k] > counts[best] {
                best = k;
            }
            k = k + 1;
        }
        let predicted_tag = keys[best];
        let tag_count_best: usize = counts[best];
        proof {
            assert forall|t: EventTag| #[trigger] tag_count(s, t) <= tag_count_best by {
                if tag_count(s, t) > 0 {
                    assert(tag_count(s.take(n as int), t) > 0);
                    assert(keys@.contains(t));
                    let j = choose|j: int| 0 <= j < keys@.len() && keys@[j] == t;
                    assert(counts@[j] == tag_count(s, keys@[j]));
                }
            }
        }
        let recent: usize = if n < 5 {
            n
        } else {
            5
        };
        let mut sum: i64 = 0;
        let mut m: usize = n - recent;
        proof {
            assert(s.subrange(m as int, m as int) =~= Seq::<EventView>::empty());
        }
        while m < n
            invariant
                n == events@.len() == s.len(),
                crate::event::views(events@) == s,
                volume(s) <= i64::MAX,
                recent == recent_count(n as nat),
                n - recent <= m <= n,
                sum == total_delta(s.subrange(n - recent, m as int)),
            decreases n - m,
        {
            proof {
                let t = s.subrange(n - recent, m + 1);
                assert(t.drop_last() =~= s.subrange(n - recent, m as int));
                assert(t.last() == s[m as int]);
                lemma_suffix_bounds(s.subrange(0, m + 1), n - recent);
                assert(s.subrange(0, m + 1).subrange(n - recent, m + 1) =~= t);
                lemma_volume_prefix(s, m + 1);
                assert(s.take(m + 1) =~= s.subrange(0, m + 1));
                assert(events@[m as int]@ == s[m as int]);
                crate::event::lemma_net_delta_bounds(s[m as int]);
            }
            let d: i64 = events[m].net_delta();
            sum = sum + d;
            m = m + 1;
        }
        assert(sum == total_delta(s.subrange(n - recent, n as int)));
        assert forall|t: EventTag| #[trigger] select(s, has_tag(t)).len() <= tag_count_best by {
            assert(tag_count(s, t) <= tag_count_best);
        }
        let predicted_delta: i64 = Self::rounded_mean(sum, recent as u64);
        let mut pattern_basis = String::from_str("Most common tag in ");
        push_usize(&mut pattern_basis, n);
        pattern_basis.append(" events");
        Forecast { predicted_tag, tag_count: tag_count_best, total: n, pattern_basis, predicted_delta }
    }

    /// `a / k` rounded to the nearest integer, halves away from zero.
    fn rounded_mean(a: i64, k: u64) -> (r: i64)
        requires
            1 <= k <= 5,
        ensures
            r == rounded_div(a as int, k as int),
            a >= 0 ==> k * (2 * r - 1) <= 2 * a < k * (2 * r + 1),
            a < 0 ==> k * (2 * r - 1) < 2 * a <= k * (2 * r + 1),
    {
        let m: u128 = if a >= 0 {
            a as u128
        } else {
            (0i128 - a as i128) as u128
        };
        let q: u128 = (2 * m + k as u128) / (2 * k as u128);
        assert(q <= m) by (nonlinear_arith)
            requires
                q == (2 * m + k) / (2 * k),
                1 <= k,
        ;
        assert(2 * k * q <= 2 * m + k < 2 * k * q + 2 * k) by (nonlinear_arith)
            requires
                q == (2 * m + k) / (2 * k),
                1 <= k,
        ;
        let r: i128 = if a >= 0 {
            q as i128
        } else {
            0i128 - q as i128
        };
        assert(a >= 0 ==> k * (2 * r - 1) <= 2 * a < k * (2 * r + 1)) by (nonlinear_arith)
            requires
                a >= 0 ==> m == a && r == q,
                2 * k * q <= 2 * m + k < 2 * k * q + 2 * k,
        ;
        assert(a < 0 ==> k * (2 * r - 1) < 2 * a <= k * (2 * r + 1)) by (nonlinear_arith)
            requires
                a < 0 ==> m == -a && r == -q,
                2 * k * q <= 2 * m + k < 2 * k * q + 2 * k,
        ;
        r as i64
    }

    /// Detect repeating patterns in the timeline.
    pub fn detect_cycle(timeline: &Timeline, min_length: usize, max_length: usize) -> (r: Option<
        Vec<EventTag>,
    >)
        requires
            1 <= min_length,
            min_length <= usize::MAX / 2,
        ensures
            match r {
                Some(v) => cycle(tags_of(timeline@), min_length as nat, max_length as nat)
                    == Some(v@),
                None => cycle(tags_of(timeline@), min_length as nat, max_length as nat) is None,
            },
            // A found pattern is the prefix of the tags, of a length in the searched range and
            // at most half the tags, and two distinct later blocks, starting at multiples of
            // its length, equal it element by element.
            r matches Some(v) ==> ({
                let tags = tags_of(timeline@);
                let l = v@.len() as int;
                &&& min_length <= l <= max_length
                &&& 2 * l <= tags.len()
                &&& forall|k: int| 0 <= k < l ==> #[trigger] v@[k] == tags[k]
                &&& exists|b1: int, b2: int|
                    #![trigger tags[b1], tags[b2]]
                    l <= b1 < b2 && b2 + l <= tags.len() && b1 % l == 0 && b2 % l == 0
                        && tags[b1] == tags[0] && tags[b2] == tags[0] && (forall|k: int|
                        0 <= k < l ==> tags[b1 + k] == #[trigger] tags.subrange(0, l)[k]) && (
                    forall|k: int| 0 <= k < l ==> tags[b2 + k] == #[trigger] tags.subrange(0, l)[k])
            }),
    {
        let events = timeline.events();
        let ghost s = timeline@;
        let mut tags: Vec<EventTag> = Vec::new();
        let mut k: usize = 0;
        while k < events.len()
            invariant
                k <= events@.len(),
                crate::event::views(events@) == s,
                tags@ == tags_of(s).take(k as int),
            decreases events@.len() - k,
        {
            assert(events@[k as int]@ == s[k as int]);
            tags.push(events[k].tag);
            k = k + 1;
            assert(tags@ =~= tags_of(s).take(k as int));
        }
        assert(tags@ =~= tags_of(s));
        let n: usize = tags.len();
        if n < min_length * 2 {
            return None;
        }
        let half: usize = n / 2;
        let hi: usize = if max_length <= half {
            max_length
        } else {
            half
        };
        let mut p: usize = min_length;
        while p <= hi
            invariant
                s == timeline@,
                tags@ == tags_of(s),
                n == tags@.len(),
                hi <= n / 2,
                hi == (if max_length <= n / 2 {
                    max_length
                } else {
                    n / 2
                }),
                n >= min_length * 2,
                min_length <= p,
                p <= hi + 1 || p == min_length,
                first_cycle(tags@, min_length as nat, hi as nat) == first_cycle(
                    tags@,
                    p as nat,
                    hi as nat,
                ),
                1 <= min_length,
            decreases hi + 1 - p,
        {
            let mut matches: usize = 0;
            let mut i: usize = p;
            while p <= n - i
                invariant
                    tags@ == tags_of(s),
                    n == tags@.len(),
                    1 <= p <= n / 2,
                    p <= i <= n,
                    matches <= i,
                    matches + repeats_from(tags@, p as nat, i as nat) == repeats_from(
                        tags@,
                        p as nat,
                        p as nat,
                    ),
                decreases n - i,
            {
                if block_matches(&tags, i, p) {
                    matches = matches + 1;
                }
                i = i + p;
            }
            assert(repeats_from(tags@, p as nat, i as nat) == 0);
            if matches >= 2 {
                let mut pattern: Vec<EventTag> = Vec::new();
                let mut j: usize = 0;
                while j < p
                    invariant
                        j <= p <= tags@.len(),
                        pattern@ == tags@.take(j as int),
                    decreases p - j,
                {
                    pattern.push(tags[j]);
                    j = j + 1;
                    assert(pattern@ =~= tags@.take(j as int));
                }
                assert(pattern@ =~= tags@.subrange(0, p as int));
                assert(repeats_from(tags@, p as nat, p as nat) >= 2);
                assert(first_cycle(tags@, p as nat, hi as nat) == Some(p as nat));
                assert(cycle(tags@, min_length as nat, max_length as nat) == Some(pattern@));
                assert(tags_of(timeline@) == tags@);
                proof {
                    lemma_cycle_is_first_repeating_prefix(
                        tags@,
                        min_length as nat,
                        max_length as nat,
                        0,
                    );
                }
                return Some(pattern);
            }
            p = p + 1;
        }
        None
    }
}

} // verus!
