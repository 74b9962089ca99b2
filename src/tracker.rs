use crate::event::{CollisionEvent, EntityId};
use vstd::prelude::*;

verus! {

/// An unordered pair of entities, written with the smaller identifier first.
pub type EntityPair = (EntityId, EntityId);

/// The one way of writing the unordered pair of `a` and `b`: smaller bits first.
pub open spec fn canonical(a: EntityId, b: EntityId) -> EntityPair {
    if a.bits <= b.bits {
        (a, b)
    } else {
        (b, a)
    }
}

/// Whether `p` is written in its canonical order, with two distinct entities.
pub open spec fn is_canonical(p: EntityPair) -> bool {
    p.0.bits < p.1.bits
}

/// Whether every pair of `s` is canonical.
pub open spec fn all_canonical(s: Set<EntityPair>) -> bool {
    forall|p: EntityPair| #[trigger] s.contains(p) ==> is_canonical(p)
}

/// Whether an overlap reported by the detector is tracked: a self-pair is
/// ignored, and so is any pair with an entity that was despawned.
pub open spec fn counts(despawned: Seq<EntityId>, q: EntityPair) -> bool {
    q.0 != q.1 && !despawned.contains(q.0) && !despawned.contains(q.1)
}

/// The pairs that are active after a step in which the entities of
/// `despawned` were despawned and the detector reported the overlaps `current`.
pub open spec fn live_pairs(despawned: Seq<EntityId>, current: Seq<EntityPair>) -> Set<EntityPair> {
    Set::new(
        |p: EntityPair|
            exists|i: int|
                0 <= i < current.len() && counts(despawned, #[trigger] current[i]) && canonical(
                    current[i].0,
                    current[i].1,
                ) == p,
    )
}

/// The events owed for a step that takes the active set from `before` to
/// `after`: a `Stopped` for each pair that left, a `Started` for each that came.
pub open spec fn transition_events(before: Set<EntityPair>, after: Set<EntityPair>) -> Set<
    CollisionEvent,
> {
    Set::new(
        |e: CollisionEvent|
            match e {
                CollisionEvent::Started(a, b) => after.contains((a, b)) && !before.contains((a, b)),
                CollisionEvent::Stopped(a, b) => before.contains((a, b)) && !after.contains((a, b)),
            },
    )
}

/// Whether `events` is the batch owed for going from `before` to `after`:
/// each owed event once, and nothing else.
pub open spec fn batch_matches(
    before: Set<EntityPair>,
    after: Set<EntityPair>,
    events: Seq<CollisionEvent>,
) -> bool {
    events.no_duplicates() && events.to_set() == transition_events(before, after)
}

/// Whether every `Stopped` event of the batch comes before every `Started` one.
pub open spec fn stops_first(events: Seq<CollisionEvent>) -> bool {
    forall|i: int, j: int|
        0 <= i < j < events.len() ==> !((#[trigger] events[i]) is Started && (#[trigger] events[j]) is Stopped)
}

/// The set of entity pairs that are in contact, kept across simulation steps.
pub struct CollisionPairTracker {
    active: Vec<EntityPair>,
}

impl View for CollisionPairTracker {
    type V = Set<EntityPair>;

    closed spec fn view(&self) -> Set<EntityPair> {
        self.active@.to_set()
    }
}

fn same_entity(a: &EntityId, b: &EntityId) -> (r: bool)
    ensures
        r == (*a == *b),
{
    a.bits == b.bits
}

fn contains_entity(v: &Vec<EntityId>, e: &EntityId) -> (r: bool)
    ensures
        r == v@.contains(*e),
{
    let mut i: usize = 0;
    while i < v.len()
        invariant
            0 <= i <= v.len(),
            forall|k: int| 0 <= k < i ==> v@[k] != *e,
        decreases v.len() - i,
    {
        if same_entity(&v[i], e) {
            return true;
        }
        i = i + 1;
    }
    false
}

fn contains_pair(v: &Vec<EntityPair>, p: &EntityPair) -> (r: bool)
    ensures
        r == v@.contains(*p),
{
    let mut i: usize = 0;
    while i < v.len()
        invariant
            0 <= i <= v.len(),
            forall|k: int| 0 <= k < i ==> v@[k] != *p,
        decreases v.len() - i,
    {
        if same_entity(&v[i].0, &p.0) && same_entity(&v[i].1, &p.1) {
            return true;
        }
        i = i + 1;
    }
    false
}

/// The canonical form of the pair of `a` and `b`.
pub fn canonical_pair(a: EntityId, b: EntityId) -> (r: EntityPair)
    ensures
        r == canonical(a, b),
{
    if a.bits <= b.bits {
        (a, b)
    } else {
        (b, a)
    }
}

/// Adding one reported overlap adds at most its canonical pair to the live set.
proof fn lemma_live_pairs_push(despawned: Seq<EntityId>, current: Seq<EntityPair>, q: EntityPair)
    ensures
        forall|p: EntityPair|
            #[trigger] live_pairs(despawned, current.push(q)).contains(p) <==> (live_pairs(
                despawned,
                current,
            ).contains(p) || (counts(despawned, q) && canonical(q.0, q.1) == p)),
{
    let s = current.push(q);
    assert forall|p: EntityPair|
        #[trigger] live_pairs(despawned, s).contains(p) implies (live_pairs(
            despawned,
            current,
        ).contains(p) || (counts(despawned, q) && canonical(q.0, q.1) == p)) by {
        let i = choose|i: int|
            0 <= i < s.len() && counts(despawned, #[trigger] s[i]) && canonical(s[i].0, s[i].1) == p;
        if i < current.len() {
            assert(s[i] == current[i]);
        }
    }
    assert forall|p: EntityPair|
        live_pairs(despawned, current).contains(p) implies #[trigger] live_pairs(
            despawned,
            s,
        ).contains(p) by {
        let i = choose|i: int|
            0 <= i < current.len() && counts(despawned, #[trigger] current[i]) && canonical(
                current[i].0,
                current[i].1,
            ) == p;
        assert(s[i] == current[i]);
    }
    assert forall|p: EntityPair|
        counts(despawned, q) && canonical(q.0, q.1) == p implies #[trigger] live_pairs(
            despawned,
            s,
        ).contains(p) by {
        assert(s[current.len() as int] == q);
    }
}

/// Pushing an element that is not yet there keeps a sequence free of duplicates.
proof fn lemma_push_fresh<A>(s: Seq<A>, x: A)
    requires
        s.no_duplicates(),
        !s.contains(x),
    ensures
        s.push(x).no_duplicates(),
        forall|y: A| #[trigger] s.push(x).contains(y) <==> (s.contains(y) || y == x),
{
    broadcast use vstd::seq_lib::lemma_seq_contains_after_push;

    let t = s.push(x);
    assert forall|i: int, j: int|
        0 <= i < t.len() && 0 <= j < t.len() && i != j implies t[i] != t[j] by {
        if i < s.len() {
            assert(t[i] == s[i]);
            assert(s.contains(s[i]));
        }
        if j < s.len() {
            assert(t[j] == s[j]);
            assert(s.contains(s[j]));
        }
    }
}

/// The active pairs after a step, each once and in canonical order.
fn collect_live(despawned: &Vec<EntityId>, current: &Vec<EntityPair>) -> (r: Vec<EntityPair>)
    ensures
        r@.no_duplicates(),
        forall|k: int| 0 <= k < r@.len() ==> is_canonical(#[trigger] r@[k]),
        r@.to_set() == live_pairs(despawned@, current@),
{
    broadcast use vstd::seq_lib::lemma_seq_contains_after_push;

    let mut live: Vec<EntityPair> = Vec::new();
    let mut i: usize = 0;
    assert(live_pairs(despawned@, current@.take(0)) =~= Set::<EntityPair>::empty());
    while i < current.len()
        invariant
            0 <= i <= current@.len(),
            live@.no_duplicates(),
            forall|k: int| 0 <= k < live@.len() ==> is_canonical(#[trigger] live@[k]),
            forall|p: EntityPair|
                live@.contains(p) <==> #[trigger] live_pairs(despawned@, current@.take(i as int)).contains(p),
        decreases current@.len() - i,
    {
        let q = current[i];
        proof {
            assert(current@.take(i + 1) =~= current@.take(i as int).push(q));
            lemma_live_pairs_push(despawned@, current@.take(i as int), q);
        }
        if !same_entity(&q.0, &q.1) && !contains_entity(despawned, &q.0) && !contains_entity(
            despawned,
            &q.1,
        ) {
            let p = canonical_pair(q.0, q.1);
            if !contains_pair(&live, &p) {
                proof {
                    lemma_push_fresh(live@, p);
                }
                live.push(p);
            }
        }
        i = i + 1;
    }
    assert(current@.take(current@.len() as int) =~= current@);
    assert(live@.to_set() =~= live_pairs(despawned@, current@));
    live
}

impl CollisionPairTracker {
    /// Whether the tracker's storage is consistent: each pair once, each canonical.
    pub closed spec fn wf(&self) -> bool {
        &&& self.active@.no_duplicates()
        &&& forall|k: int| 0 <= k < self.active@.len() ==> is_canonical(#[trigger] self.active@[k])
    }

    /// A tracker with no active pair, as at the start of a simulation.
    pub fn new() -> (r: Self)
        ensures
            r.wf(),
            r@ == Set::<EntityPair>::empty(),
    {
        let r = CollisionPairTracker { active: Vec::new() };
        assert(r@ =~= Set::<EntityPair>::empty());
        r
    }

    /// Every active pair is canonical.
    pub proof fn lemma_view_canonical(&self)
        requires
            self.wf(),
        ensures
            all_canonical(self@),
    {
    }

    /// Whether the unordered pair of `a` and `b` is active.
    pub fn is_active(&self, a: EntityId, b: EntityId) -> (r: bool)
        requires
            self.wf(),
        ensures
            r == self@.contains(canonical(a, b)),
    {
        let p = canonical_pair(a, b);
        contains_pair(&self.active, &p)
    }

    /// The active pairs, each once, in canonical order.
    pub fn active_pairs(&self) -> (r: Vec<EntityPair>)
        requires
            self.wf(),
        ensures
            r@.no_duplicates(),
            r@.to_set() == self@,
    {
        let mut r: Vec<EntityPair> = Vec::new();
        let mut i: usize = 0;
        while i < self.active.len()
            invariant
                0 <= i <= self.active@.len(),
                r@ == self.active@.take(i as int),
            decreases self.active@.len() - i,
        {
            r.push(self.active[i]);
            assert(self.active@.take(i + 1) =~= self.active@.take(i as int).push(self.active@[i as int]));
            i = i + 1;
        }
        assert(self.active@.take(self.active@.len() as int) =~= self.active@);
        r
    }

    /// Runs one simulation step: the entities of `despawned` were despawned
    /// since the last step, and `current` holds the overlaps that the detector
    /// reports now, in either order. Self-pairs and pairs with a despawned
    /// entity are ignored. The pairs that stop being active get a `Stopped`
    /// event, those that become active a `Started` one, each named in
    /// canonical order; all `Stopped` events come first.
    pub fn step(&mut self, despawned: &Vec<EntityId>, current: &Vec<EntityPair>) -> (r: Vec<
        CollisionEvent,
    >)
        requires
            old(self).wf(),
        ensures
            final(self).wf(),
            final(self)@ == live_pairs(despawned@, current@),
            batch_matches(old(self)@, final(self)@, r@),
            stops_first(r@),
            forall|k: int| 0 <= k < r@.len() ==> is_canonical(#[trigger] r@[k].pair()),
    {
        broadcast use vstd::seq_lib::lemma_seq_contains_after_push;

        let live = collect_live(despawned, current);
        let ghost before = self.active@;
        let ghost after = live@;
        let mut events: Vec<CollisionEvent> = Vec::new();
        let mut i: usize = 0;
        while i < self.active.len()
            invariant
                0 <= i <= before.len(),
                self.active@ == before,
                live@ == after,
                before.no_duplicates(),
                events@.no_duplicates(),
                forall|k: int| 0 <= k < events@.len() ==> (#[trigger] events@[k]) is Stopped,
                forall|e: CollisionEvent|
                    #[trigger] events@.contains(e) <==> (e is Stopped && before.take(i as int).contains(
                        e.pair(),
                    ) && !after.contains(e.pair())),
            decreases before.len() - i,
        {
            let p = self.active[i];
            proof {
                assert(before.take(i + 1) =~= before.take(i as int).push(p));
                if before.take(i as int).contains(p) {
                    let j = choose|j: int| 0 <= j < i && before.take(i as int)[j] == p;
                    assert(before[j] == before[i as int]);
                }
            }
            if !contains_pair(&live, &p) {
                proof {
                    lemma_push_fresh(events@, CollisionEvent::Stopped(p.0, p.1));
                }
                events.push(CollisionEvent::Stopped(p.0, p.1));
            }
            proof {
                assert forall|e: CollisionEvent|
                    #[trigger] events@.contains(e) <==> (e is Stopped && before.take(i + 1).contains(
                        e.pair(),
                    ) && !after.contains(e.pair())) by {
                    assert(before.take(i + 1) == before.take(i as int).push(p));
                    vstd::seq_lib::lemma_seq_contains_after_push(before.take(i as int), p, e.pair());
                }
            }
            i = i + 1;
        }
        assert(before.take(before.len() as int) =~= before);
        let ghost n_stopped = events@.len();
        let mut i: usize = 0;
        while i < live.len()
            invariant
                0 <= i <= after.len(),
                self.active@ == before,
                live@ == after,
                after.no_duplicates(),
                n_stopped <= events@.len(),
                events@.no_duplicates(),
                forall|k: int| 0 <= k < n_stopped ==> (#[trigger] events@[k]) is Stopped,
                forall|k: int| n_stopped <= k < events@.len() ==> (#[trigger] events@[k]) is Started,
                forall|e: CollisionEvent|
                    #[trigger] events@.contains(e) <==> ((e is Stopped && before.contains(e.pair())
                        && !after.contains(e.pair())) || (e is Started && after.take(i as int).contains(
                        e.pair(),
                    ) && !before.contains(e.pair()))),
            decreases after.len() - i,
        {
            let p = live[i];
            proof {
                assert(after.take(i + 1) =~= after.take(i as int).push(p));
                if after.take(i as int).contains(p) {
                    let j = choose|j: int| 0 <= j < i && after.take(i as int)[j] == p;
                    assert(after[j] == after[i as int]);
                }
            }
            if !contains_pair(&self.active, &p) {
                proof {
                    lemma_push_fresh(events@, CollisionEvent::Started(p.0, p.1));
                }
                events.push(CollisionEvent::Started(p.0, p.1));
            }
            proof {
                assert forall|e: CollisionEvent|
                    #[trigger] events@.contains(e) <==> ((e is Stopped && before.contains(e.pair())
                        && !after.contains(e.pair())) || (e is Started && after.take(i + 1).contains(
                        e.pair(),
                    ) && !before.contains(e.pair()))) by {
                    assert(after.take(i + 1) == after.take(i as int).push(p));
                    vstd::seq_lib::lemma_seq_contains_after_push(after.take(i as int), p, e.pair());
                }
            }
            i = i + 1;
        }
        assert(after.take(after.len() as int) =~= after);
        self.active = live;
        assert(events@.to_set() =~= transition_events(before.to_set(), after.to_set()));
        assert forall|k: int| 0 <= k < events@.len() implies is_canonical(#[trigger] events@[k].pair()) by {
            assert(events@.contains(events@[k]));
        }
        events
    }
}

} // verus!
