use heron_core::tracker::canonical_pair;
use heron_core::{CollisionEvent, CollisionPairTracker, EntityId};

fn e(bits: u64) -> EntityId {
    EntityId::from_bits(bits)
}

fn started(a: u64, b: u64) -> CollisionEvent {
    CollisionEvent::Started(e(a), e(b))
}

fn stopped(a: u64, b: u64) -> CollisionEvent {
    CollisionEvent::Stopped(e(a), e(b))
}

fn pairs(list: &[(u64, u64)]) -> Vec<(EntityId, EntityId)> {
    list.iter().map(|&(a, b)| (e(a), e(b))).collect()
}

fn ids(list: &[u64]) -> Vec<EntityId> {
    list.iter().map(|&b| e(b)).collect()
}

#[test]
fn scenario_four_steps() {
    let mut t = CollisionPairTracker::new();
    assert_eq!(t.step(&ids(&[]), &pairs(&[(1, 2)])), vec![started(1, 2)]);
    assert_eq!(t.step(&ids(&[]), &pairs(&[(1, 2)])), vec![]);
    assert_eq!(t.step(&ids(&[]), &pairs(&[])), vec![stopped(1, 2)]);
    assert_eq!(t.step(&ids(&[2]), &pairs(&[(1, 3)])), vec![started(1, 3)]);
}

#[test]
fn reversed_report_is_the_same_pair() {
    let mut t = CollisionPairTracker::new();
    assert_eq!(t.step(&ids(&[]), &pairs(&[(1, 2)])), vec![started(1, 2)]);
    assert_eq!(t.step(&ids(&[]), &pairs(&[(2, 1)])), vec![]);
    assert!(t.is_active(e(2), e(1)));
    assert!(t.is_active(e(1), e(2)));
}

#[test]
fn events_name_the_smaller_entity_first() {
    let mut t = CollisionPairTracker::new();
    assert_eq!(t.step(&ids(&[]), &pairs(&[(9, 4)])), vec![started(4, 9)]);
    assert_eq!(t.step(&ids(&[]), &pairs(&[])), vec![stopped(4, 9)]);
}

#[test]
fn both_orders_in_one_report_start_once() {
    let mut t = CollisionPairTracker::new();
    assert_eq!(t.step(&ids(&[]), &pairs(&[(1, 2), (2, 1), (1, 2)])), vec![started(1, 2)]);
    assert_eq!(t.active_pairs(), pairs(&[(1, 2)]));
}

#[test]
fn self_pair_is_ignored() {
    let mut t = CollisionPairTracker::new();
    assert_eq!(t.step(&ids(&[]), &pairs(&[(5, 5)])), vec![]);
    assert!(!t.is_active(e(5), e(5)));
    assert!(t.active_pairs().is_empty());
}

#[test]
fn despawn_stops_active_pair_once() {
    let mut t = CollisionPairTracker::new();
    t.step(&ids(&[]), &pairs(&[(1, 2), (3, 4)]));
    // the detector still reports the despawned entity's overlap
    let r = t.step(&ids(&[1]), &pairs(&[(2, 1), (3, 4)]));
    assert_eq!(r, vec![stopped(1, 2)]);
    assert!(!t.is_active(e(1), e(2)));
    assert!(t.is_active(e(3), e(4)));
    assert_eq!(t.step(&ids(&[]), &pairs(&[(3, 4)])), vec![]);
}

#[test]
fn despawn_of_inactive_entity_gives_nothing() {
    let mut t = CollisionPairTracker::new();
    assert_eq!(t.step(&ids(&[7]), &pairs(&[])), vec![]);
}

#[test]
fn same_overlaps_twice_give_no_events() {
    let mut t = CollisionPairTracker::new();
    let cur = pairs(&[(1, 2), (2, 3), (4, 1)]);
    assert_eq!(t.step(&ids(&[]), &cur).len(), 3);
    assert_eq!(t.step(&ids(&[]), &cur), vec![]);
}

#[test]
fn stopped_events_come_before_started() {
    let mut t = CollisionPairTracker::new();
    t.step(&ids(&[]), &pairs(&[(1, 2), (3, 4)]));
    let r = t.step(&ids(&[]), &pairs(&[(5, 6), (1, 2), (7, 8)]));
    assert_eq!(r, vec![stopped(3, 4), started(5, 6), started(7, 8)]);
}

#[test]
fn starts_minus_stops_stays_zero_or_one() {
    let steps: Vec<(Vec<u64>, Vec<(u64, u64)>)> = vec![
        (vec![], vec![(1, 2)]),
        (vec![], vec![(2, 1), (1, 3)]),
        (vec![], vec![(1, 3)]),
        (vec![], vec![(1, 2), (1, 3)]),
        (vec![3], vec![(1, 2), (1, 3)]),
        (vec![], vec![]),
        (vec![], vec![(2, 1)]),
    ];
    let mut t = CollisionPairTracker::new();
    let mut balance_12: i64 = 0;
    let mut balance_13: i64 = 0;
    for (d, cur) in steps {
        for ev in t.step(&ids(&d), &pairs(&cur)) {
            let delta: i64 = if ev.is_started() { 1 } else { -1 };
            let (a, b) = ev.entities();
            if (a, b) == (e(1), e(2)) {
                balance_12 += delta;
            } else if (a, b) == (e(1), e(3)) {
                balance_13 += delta;
            } else {
                panic!("unexpected event {:?}", ev);
            }
            assert!(balance_12 == 0 || balance_12 == 1);
            assert!(balance_13 == 0 || balance_13 == 1);
        }
        assert_eq!(balance_12 == 1, t.is_active(e(1), e(2)));
        assert_eq!(balance_13 == 1, t.is_active(e(1), e(3)));
    }
}

#[test]
fn canonical_pair_orders_by_bits() {
    assert_eq!(canonical_pair(e(8), e(3)), (e(3), e(8)));
    assert_eq!(canonical_pair(e(3), e(8)), (e(3), e(8)));
}

#[test]
fn entity_bits_round_trip() {
    assert_eq!(e(42).to_bits(), 42);
    assert_eq!(EntityId::from_bits(u64::MAX).bits, u64::MAX);
}

#[test]
fn event_accessors() {
    assert!(started(1, 2).is_started());
    assert!(!stopped(1, 2).is_started());
    assert_eq!(stopped(3, 4).entities(), (e(3), e(4)));
}

#[test]
fn largest_identifiers_are_tracked() {
    let mut t = CollisionPairTracker::new();
    let r = t.step(&ids(&[]), &pairs(&[(u64::MAX, 0)]));
    assert_eq!(r, vec![started(0, u64::MAX)]);
}
