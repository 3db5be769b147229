//! A deduplicating, order-preserving source of preference changes.
//!
//! The source is primed with the value read at start time; that value is the
//! first one emitted. Every raw change that equals the most recently emitted
//! value is suppressed, so the emitted sequence never holds the same value
//! twice in a row.

use vstd::prelude::*;

use crate::preference::extract_scheme_preference;
use crate::preference::event_relevant;
use crate::preference::ChangeEvent;
use crate::preference::SchemePreference;

verus! {

/// Deduplication state: the most recently emitted preference.
pub struct PreferenceChangeSource {
    last: SchemePreference,
}

/// The values emitted for the raw changes `events` when the most recently
/// emitted value is `last`: equal neighbours are suppressed, everything else
/// is passed through in order.
pub open spec fn dedup_from(last: SchemePreference, events: Seq<SchemePreference>) -> Seq<
    SchemePreference,
>
    decreases events.len(),
{
    if events.len() == 0 {
        Seq::empty()
    } else if events[0] == last {
        dedup_from(last, events.drop_first())
    } else {
        seq![events[0]] + dedup_from(events[0], events.drop_first())
    }
}

/// The full emitted sequence: the priming read `seed` first, then the raw
/// changes `events` with duplicates of the last emitted value suppressed.
pub open spec fn emitted_seq(seed: SchemePreference, events: Seq<SchemePreference>) -> Seq<
    SchemePreference,
> {
    seq![seed] + dedup_from(seed, events)
}

impl PreferenceChangeSource {
    /// The most recently emitted preference.
    pub closed spec fn last(self) -> SchemePreference {
        self.last
    }

    /// Primes the source with the value of the initial read, which the
    /// caller emits as the first value of the sequence.
    pub fn prime(seed: SchemePreference) -> (s: Self)
        ensures
            s.last() == seed,
    {
        PreferenceChangeSource { last: seed }
    }

    /// Decides what a raw change `p` contributes to the emitted sequence:
    /// nothing if it equals the most recently emitted value, otherwise `p`
    /// itself, which becomes the new most recently emitted value.
    pub fn step(&mut self, p: SchemePreference) -> (emit: Option<SchemePreference>)
        ensures
            p == old(self).last() ==> emit is None && final(self).last() == old(self).last(),
            p != old(self).last() ==> emit == Some(p) && final(self).last() == p,
    {
        if p == self.last {
            None
        } else {
            self.last = p;
            Some(p)
        }
    }
}

/// Runs the source over a whole recorded sequence of raw changes and
/// collects what is emitted, the priming value included.
pub fn collect_changes(seed: SchemePreference, events: &Vec<SchemePreference>) -> (out: Vec<
    SchemePreference,
>)
    ensures
        out@ == emitted_seq(seed, events@),
{
    let mut source = PreferenceChangeSource::prime(seed);
    let mut out: Vec<SchemePreference> = Vec::new();
    out.push(seed);
    proof {
        assert(events@.skip(0) =~= events@);
        assert(out@ =~= seq![seed]);
    }
    let mut i: usize = 0;
    while i < events.len()
        invariant
            0 <= i <= events.len(),
            emitted_seq(seed, events@) == out@ + dedup_from(source.last(), events@.skip(i as int)),
        decreases events.len() - i,
    {
        proof {
            assert(events@.skip(i as int).drop_first() =~= events@.skip(i as int + 1));
            assert(events@.skip(i as int)[0] == events@[i as int]);
        }
        if let Some(p) = source.step(events[i]) {
            out.push(p);
        }
        i += 1;
    }
    proof {
        assert(events@.skip(events@.len() as int) =~= Seq::<SchemePreference>::empty());
        assert(out@ + Seq::<SchemePreference>::empty() =~= out@);
    }
    out
}

/// The preferences raw change events decode to: events about other
/// settings and events whose payload is no integer contribute nothing,
/// every other event contributes its decoded preference, in order.
pub open spec fn decoded_events(events: Seq<ChangeEvent>) -> Seq<SchemePreference>
    decreases events.len(),
{
    if events.len() == 0 {
        Seq::empty()
    } else {
        let head: Seq<SchemePreference> = if event_relevant(events[0]) && events[0].value is Some {
            seq![SchemePreference::spec_from_raw(events[0].value.unwrap())]
        } else {
            Seq::empty()
        };
        head + decoded_events(events.drop_first())
    }
}

/// Runs the whole priming algorithm over a recorded sequence of raw change
/// events: irrelevant and malformed events are dropped, the rest are
/// decoded, and the result is emitted with duplicates suppressed, the
/// priming value first.
pub fn collect_scheme_changes(seed: SchemePreference, events: &Vec<ChangeEvent>) -> (out: Vec<
    SchemePreference,
>)
    ensures
        out@ == emitted_seq(seed, decoded_events(events@)),
{
    let mut source = PreferenceChangeSource::prime(seed);
    let mut out: Vec<SchemePreference> = Vec::new();
    out.push(seed);
    proof {
        assert(events@.skip(0) =~= events@);
        assert(out@ =~= seq![seed]);
    }
    let mut i: usize = 0;
    while i < events.len()
        invariant
            0 <= i <= events.len(),
            emitted_seq(seed, decoded_events(events@)) == out@ + dedup_from(
                source.last(),
                decoded_events(events@.skip(i as int)),
            ),
        decreases events.len() - i,
    {
        proof {
            assert(events@.skip(i as int).drop_first() =~= events@.skip(i as int + 1));
            assert(events@.skip(i as int)[0] == events@[i as int]);
        }
        let ghost before = decoded_events(events@.skip(i as int));
        let ghost after = decoded_events(events@.skip(i as int + 1));
        match extract_scheme_preference(&events[i]) {
            Ok(p) => {
                proof {
                    assert(before =~= seq![p] + after);
                    assert((seq![p] + after).drop_first() =~= after);
                }
                if let Some(emit) = source.step(p) {
                    out.push(emit);
                }
            },
            Err(_) => {
                proof {
                    assert(before =~= after);
                }
            },
        }
        i += 1;
    }
    proof {
        assert(events@.skip(events@.len() as int) =~= Seq::<ChangeEvent>::empty());
        assert(out@ + Seq::<SchemePreference>::empty() =~= out@);
    }
    out
}

/// Whatever the raw changes are, the value emitted for one of them differs
/// from the most recently emitted value, and no two neighbours in the
/// emitted tail are equal.
proof fn lemma_dedup_from_no_adjacent(last: SchemePreference, events: Seq<SchemePreference>)
    ensures
        dedup_from(last, events).len() > 0 ==> dedup_from(last, events)[0] != last,
        forall|i: int|
            0 <= i < dedup_from(last, events).len() - 1 ==> #[trigger] dedup_from(last, events)[i]
                != dedup_from(last, events)[i + 1],
    decreases events.len(),
{
    if events.len() == 0 {
    } else if events[0] == last {
        lemma_dedup_from_no_adjacent(last, events.drop_first());
    } else {
        lemma_dedup_from_no_adjacent(events[0], events.drop_first());
        let rest = dedup_from(events[0], events.drop_first());
        let whole = dedup_from(last, events);
        assert(whole == seq![events[0]] + rest);
        assert forall|i: int| 0 <= i < whole.len() - 1 implies #[trigger] whole[i] != whole[i + 1] by {
            if i == 0 {
                assert(whole[0] == events[0]);
                if rest.len() > 0 {
                    assert(whole[1] == rest[0]);
                }
            } else {
                assert(whole[i] == rest[i - 1]);
                assert(whole[i + 1] == rest[i]);
            }
        }
    }
}

/// For every sequence of raw change events, the emitted sequence starts with
/// the priming read and never holds two adjacent equal values.
pub proof fn lemma_emitted_no_adjacent_duplicates(
    seed: SchemePreference,
    events: Seq<SchemePreference>,
)
    ensures
        emitted_seq(seed, events).len() >= 1,
        emitted_seq(seed, events)[0] == seed,
        forall|i: int|
            0 <= i < emitted_seq(seed, events).len() - 1 ==> #[trigger] emitted_seq(seed, events)[i]
                != emitted_seq(seed, events)[i + 1],
{
    lemma_dedup_from_no_adjacent(seed, events);
    let tail = dedup_from(seed, events);
    let whole = emitted_seq(seed, events);
    assert(whole == seq![seed] + tail);
    assert forall|i: int| 0 <= i < whole.len() - 1 implies #[trigger] whole[i] != whole[i + 1] by {
        if i == 0 {
            assert(whole[0] == seed);
            assert(whole[1] == tail[0]);
        } else {
            assert(whole[i] == tail[i - 1]);
            assert(whole[i + 1] == tail[i]);
        }
    }
}

/// For every sequence of raw change events, the sequence emitted by the
/// priming algorithm starts with the priming read and never holds two
/// adjacent equal values.
pub proof fn lemma_raw_events_no_adjacent_duplicates(
    seed: SchemePreference,
    events: Seq<ChangeEvent>,
)
    ensures
        emitted_seq(seed, decoded_events(events)).len() >= 1,
        emitted_seq(seed, decoded_events(events))[0] == seed,
        forall|i: int|
            0 <= i < emitted_seq(seed, decoded_events(events)).len() - 1 ==> #[trigger] emitted_seq(
                seed,
                decoded_events(events),
            )[i] != emitted_seq(seed, decoded_events(events))[i + 1],
{
    lemma_emitted_no_adjacent_duplicates(seed, decoded_events(events));
}

} // verus!
