use crate::event::{CollisionEvent, EntityId};
use crate::tracker::{
    all_canonical, batch_matches, canonical, counts, is_canonical, live_pairs, transition_events,
    EntityPair,
};
use vstd::prelude::*;

verus! {

/// How many times `e` stands in the batch `events`.
pub open spec fn occurrences(events: Seq<CollisionEvent>, e: CollisionEvent) -> int {
    events.to_multiset().count(e) as int
}

/// Over the batches `batches`, the number of `Started` events of the pair `p`
/// minus the number of its `Stopped` events.
pub open spec fn net_starts(batches: Seq<Seq<CollisionEvent>>, p: EntityPair) -> int
    decreases batches.len(),
{
    if batches.len() == 0 {
        0
    } else {
        net_starts(batches.drop_last(), p) + occurrences(
            batches.last(),
            CollisionEvent::Started(p.0, p.1),
        ) - occurrences(batches.last(), CollisionEvent::Stopped(p.0, p.1))
    }
}

/// Whether `states` are the active sets of a tracker from its empty start, and
/// `batches[i]` the batch that its step from `states[i]` to `states[i + 1]` gave.
pub open spec fn is_run(states: Seq<Set<EntityPair>>, batches: Seq<Seq<CollisionEvent>>) -> bool {
    &&& states.len() == batches.len() + 1
    &&& states[0] == Set::<EntityPair>::empty()
    &&& forall|i: int|
        0 <= i < batches.len() ==> batch_matches(states[i], states[i + 1], #[trigger] batches[i])
}

/// The overlaps of `current`, each reported in the other order.
pub open spec fn reversed(current: Seq<EntityPair>) -> Seq<EntityPair> {
    current.map_values(|q: EntityPair| (q.1, q.0))
}

/// In a batch that matches a transition, an event stands once if it is owed and never otherwise.
pub proof fn lemma_batch_occurrences(
    before: Set<EntityPair>,
    after: Set<EntityPair>,
    events: Seq<CollisionEvent>,
    e: CollisionEvent,
)
    requires
        batch_matches(before, after, events),
    ensures
        occurrences(events, e) == if transition_events(before, after).contains(e) {
            1int
        } else {
            0int
        },
{
    broadcast use vstd::seq_lib::to_multiset_contains;

    events.lemma_multiset_has_no_duplicates();
    assert(events.to_set().contains(e) == events.contains(e));
}

/// A batch for a transition that owes nothing is empty.
pub proof fn lemma_nothing_owed(
    before: Set<EntityPair>,
    after: Set<EntityPair>,
    events: Seq<CollisionEvent>,
)
    requires
        batch_matches(before, after, events),
        before == after,
    ensures
        events.len() == 0,
{
    if events.len() > 0 {
        assert(events.to_set().contains(events[0]));
    }
}

/// Every pair that a step makes active is canonical.
pub proof fn lemma_live_canonical(despawned: Seq<EntityId>, current: Seq<EntityPair>)
    ensures
        all_canonical(live_pairs(despawned, current)),
{
    assert forall|p: EntityPair| #[trigger] live_pairs(despawned, current).contains(p) implies is_canonical(
        p,
    ) by {
        let i = choose|i: int|
            0 <= i < current.len() && counts(despawned, #[trigger] current[i]) && canonical(
                current[i].0,
                current[i].1,
            ) == p;
        assert(current[i].0.bits != current[i].1.bits);
    }
}

proof fn lemma_balance_at_end(
    states: Seq<Set<EntityPair>>,
    batches: Seq<Seq<CollisionEvent>>,
    p: EntityPair,
)
    requires
        is_run(states, batches),
    ensures
        net_starts(batches, p) == if states.last().contains(p) {
            1int
        } else {
            0int
        },
    decreases batches.len(),
{
    if batches.len() > 0 {
        let n = batches.len() - 1;
        let s0 = states.drop_last();
        let b0 = batches.drop_last();
        assert forall|i: int| 0 <= i < b0.len() implies batch_matches(
            s0[i],
            s0[i + 1],
            #[trigger] b0[i],
        ) by {
            assert(b0[i] == batches[i]);
        }
        lemma_balance_at_end(s0, b0, p);
        assert(batch_matches(states[n], states[n + 1], batches[n]));
        lemma_batch_occurrences(states[n], states[n + 1], batches[n], CollisionEvent::Started(p.0, p.1));
        lemma_batch_occurrences(states[n], states[n + 1], batches[n], CollisionEvent::Stopped(p.0, p.1));
    }
}

/// Over any run of the tracker from its empty start, and after any number of
/// its steps, the `Started` events of a pair outnumber its `Stopped` events by
/// one while the pair is active and by none otherwise: a pair never gets a
/// second `Started` without a `Stopped` in between, nor a `Stopped` without a
/// `Started` before it.
pub proof fn lemma_start_stop_balance(
    states: Seq<Set<EntityPair>>,
    batches: Seq<Seq<CollisionEvent>>,
    p: EntityPair,
)
    requires
        is_run(states, batches),
    ensures
        forall|k: int|
            0 <= k <= batches.len() ==> #[trigger] net_starts(batches.take(k), p) == if states[k].contains(
                p,
            ) {
                1int
            } else {
                0int
            },
        forall|k: int| 0 <= k <= batches.len() ==> 0 <= #[trigger] net_starts(batches.take(k), p) <= 1,
{
    assert forall|k: int| 0 <= k <= batches.len() implies #[trigger] net_starts(batches.take(k), p)
        == if states[k].contains(p) {
        1int
    } else {
        0int
    } by {
        let s = states.take(k + 1);
        let b = batches.take(k);
        assert forall|i: int| 0 <= i < b.len() implies batch_matches(
            s[i],
            s[i + 1],
            #[trigger] b[i],
        ) by {
            assert(b[i] == batches[i]);
        }
        lemma_balance_at_end(s, b, p);
    }
}

/// The order in which the detector names the two entities of an overlap does
/// not matter: reporting every overlap the other way round makes the same
/// pairs active, so a step that repeats the previous step's overlaps reversed
/// owes no event.
pub proof fn lemma_orientation_irrelevant(despawned: Seq<EntityId>, current: Seq<EntityPair>)
    ensures
        live_pairs(despawned, reversed(current)) == live_pairs(despawned, current),
        forall|events: Seq<CollisionEvent>|
            batch_matches(live_pairs(despawned, current), live_pairs(despawned, reversed(current)), events)
                ==> #[trigger] events.len() == 0,
{
    let r = reversed(current);
    assert forall|p: EntityPair| #[trigger] live_pairs(despawned, current).contains(p) implies live_pairs(
        despawned,
        r,
    ).contains(p) by {
        let i = choose|i: int|
            0 <= i < current.len() && counts(despawned, #[trigger] current[i]) && canonical(
                current[i].0,
                current[i].1,
            ) == p;
        assert(r[i] == (current[i].1, current[i].0));
        assert(current[i].0.bits != current[i].1.bits);
    }
    assert forall|p: EntityPair| #[trigger] live_pairs(despawned, r).contains(p) implies live_pairs(
        despawned,
        current,
    ).contains(p) by {
        let i = choose|i: int|
            0 <= i < r.len() && counts(despawned, #[trigger] r[i]) && canonical(r[i].0, r[i].1) == p;
        assert(r[i] == (current[i].1, current[i].0));
        assert(current[i].0.bits != current[i].1.bits);
    }
    assert(live_pairs(despawned, r) =~= live_pairs(despawned, current));
    assert forall|events: Seq<CollisionEvent>|
        batch_matches(live_pairs(despawned, current), live_pairs(despawned, r), events)
            implies #[trigger] events.len() == 0 by {
        lemma_nothing_owed(live_pairs(despawned, current), live_pairs(despawned, r), events);
    }
}

/// When an entity of an active pair is despawned, the step drops the pair and
/// owes exactly one `Stopped` event for it, in either order of its entities,
/// and no `Started` one, whatever overlaps the detector still reports.
pub proof fn lemma_despawn_stops(
    before: Set<EntityPair>,
    despawned: Seq<EntityId>,
    current: Seq<EntityPair>,
    events: Seq<CollisionEvent>,
    a: EntityId,
    b: EntityId,
)
    requires
        all_canonical(before),
        before.contains(canonical(a, b)),
        despawned.contains(a),
        batch_matches(before, live_pairs(despawned, current), events),
    ensures
        !live_pairs(despawned, current).contains(canonical(a, b)),
        occurrences(events, CollisionEvent::Stopped(a, b)) + occurrences(
            events,
            CollisionEvent::Stopped(b, a),
        ) == 1,
        occurrences(events, CollisionEvent::Started(a, b)) + occurrences(
            events,
            CollisionEvent::Started(b, a),
        ) == 0,
{
    let after = live_pairs(despawned, current);
    lemma_live_canonical(despawned, current);
    assert(is_canonical(canonical(a, b)));
    if after.contains(canonical(a, b)) {
        let i = choose|i: int|
            0 <= i < current.len() && counts(despawned, #[trigger] current[i]) && canonical(
                current[i].0,
                current[i].1,
            ) == canonical(a, b);
        assert(current[i].0 == a || current[i].1 == a);
    }
    lemma_batch_occurrences(before, after, events, CollisionEvent::Stopped(a, b));
    lemma_batch_occurrences(before, after, events, CollisionEvent::Stopped(b, a));
    lemma_batch_occurrences(before, after, events, CollisionEvent::Started(a, b));
    lemma_batch_occurrences(before, after, events, CollisionEvent::Started(b, a));
}

/// Feeding the same despawns and overlaps in two consecutive steps gives no
/// event on the second: the first already made its pairs active.
pub proof fn lemma_repeat_is_silent(
    despawned: Seq<EntityId>,
    current: Seq<EntityPair>,
    events: Seq<CollisionEvent>,
)
    requires
        batch_matches(live_pairs(despawned, current), live_pairs(despawned, current), events),
    ensures
        events.len() == 0,
{
    lemma_nothing_owed(live_pairs(despawned, current), live_pairs(despawned, current), events);
}

} // verus!
