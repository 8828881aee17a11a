use worlddat::flat_peer_map::FlatPeerMap;
use worlddat::rng::Rand64;
use worlddat::types::{Contact, PeerId};

#[test]
fn test_distance_rank() {
    let p1 = PeerId::raw([
        0, 0, 0, 0, 0, 0, 0, 0, 0, 0, 0, 0, 0, 0, 0, 0, //
        0, 0, 0, 0, 0, 0, 0, 0, 0, 0, 0, 0, 0, 0, 0, 1, //
    ]);
    let p2 = PeerId::raw([
        0, 0, 0, 0, 0, 0, 0, 0, 0, 0, 0, 0, 0, 0, 0, 0, //
        0, 0, 0, 0, 0, 0, 0, 0, 0, 0, 0, 0, 0, 0, 0, 1, //
    ]);
    assert_eq!(p1.distance_rank(&p2), 255);
    let p3 = PeerId::raw([
        0, 0, 0, 0, 0, 0, 0, 0, 0, 0, 0, 0, 0, 0, 0, 0, //
        0, 0, 0, 0, 0, 0, 0, 0, 0, 0, 0, 0, 0, 0, 1, 1, //
    ]);
    assert_eq!(p1.distance_rank(&p3), 246);
}

#[test]
fn test_distance_rank2() {
    let p1 = PeerId::raw([
        0, 1, 0, 1, 1, 1, 0, 1, 0, 1, 0, 1, 0, 1, 0, 1, //
        0, 1, 0, 1, 0, 1, 0, 1, 0, 1, 0, 1, 0, 1, 0, 1, //
    ]);
    let p2 = PeerId::raw([
        0, 1, 0, 1, 0, 1, 0, 1, 0, 1, 0, 1, 0, 1, 0, 1, //
        0, 1, 0, 1, 0, 1, 0, 1, 0, 1, 0, 1, 0, 1, 0, 1, //
    ]);
    assert_eq!(p1.distance_rank(&p2), 38);
}

#[test]
fn peermap_contains() {
    let rng = &mut Rand64::new(235445);
    let id = PeerId::new_insecure_random(rng);
    let mut map = FlatPeerMap::default(id);
    let contains: Vec<Contact> = (0..12)
        .map(|_| Contact::new_dummy(PeerId::new_insecure_random(rng)))
        .collect();
    for c in &contains {
        map.insert(*c);
    }
    for c in &contains {
        assert!(map.contains(&c.peer_id).is_some());
    }

    let does_not_contain: Vec<Contact> = (0..100)
        .map(|_| Contact::new_dummy(PeerId::new_insecure_random(rng)))
        .collect();
    for c in &does_not_contain {
        assert!(map.contains(&c.peer_id).is_none());
    }
}

#[test]
fn peermap_find_closest() {
    let rng = &mut Rand64::new(235445);
    let id = PeerId::new_insecure_random(rng);
    let mut map = FlatPeerMap::new(id, 16);
    let contains: Vec<Contact> = (0..0xFF)
        .map(|_| Contact::new_dummy(PeerId::new_insecure_random(rng)))
        .collect();
    for c in &contains {
        map.insert(*c);
    }

    let itms = map.find_closest_peers(&id, 16);
    assert_eq!(itms.len(), 16);
    assert_eq!(map.count(), 84);
}
