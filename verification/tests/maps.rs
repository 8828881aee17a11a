use worlddat::addr::SocketAddr;
use worlddat::closest::select_nearest;
use worlddat::types::{Contact, FlatPeerMap, PeerId, PeerMap};

fn id(bytes: &[(usize, u8)]) -> PeerId {
    let mut all = [0u8; 32];
    for (i, b) in bytes {
        all[*i] = *b;
    }
    PeerId::raw(all)
}

fn at(port: u16) -> SocketAddr {
    SocketAddr::V4 {
        ipv4: 0x0a00_0001,
        port,
    }
}

fn sorted(mut contacts: Vec<Contact>) -> Vec<Contact> {
    contacts.sort_by(|a, b| a.cmp(b));
    contacts
}

#[test]
fn dummy_contact() {
    let c = Contact::new_dummy(id(&[]));
    assert_eq!(c.peer_id, id(&[]));
    assert_eq!(
        c.address,
        SocketAddr::V6 {
            ipv6: 1,
            port: 1234,
            flowinfo: 0,
            scope_id: 0
        }
    );
}

#[test]
fn nearest_are_selected_in_order() {
    let far = Contact::new_dummy(id(&[(31, 1)]));
    let near = Contact::new_dummy(id(&[(0, 1)]));
    let middle = Contact::new_dummy(id(&[(1, 1)]));
    let all = vec![far, near, middle];
    assert_eq!(select_nearest(&all, &id(&[]), 0), vec![]);
    assert_eq!(select_nearest(&all, &id(&[]), 1), vec![near]);
    assert_eq!(select_nearest(&all, &id(&[]), 2), vec![near, middle]);
    assert_eq!(select_nearest(&all, &id(&[]), 5), vec![far, near, middle]);
    assert_eq!(select_nearest(&all, &id(&[(31, 1)]), 1), vec![far]);
    // The last byte counts most.
    assert_eq!(select_nearest(&all, &id(&[(1, 201)]), 1), vec![middle]);
}

#[test]
fn flat_map_replaces_a_known_peer() {
    let mut map = FlatPeerMap::new(id(&[]), 2);
    let peer_id = id(&[(3, 9)]);
    map.insert(Contact {
        peer_id,
        address: at(1),
    });
    map.insert(Contact {
        peer_id,
        address: at(2),
    });
    assert_eq!(map.count(), 1);
    assert_eq!(map.contains(&peer_id).unwrap().address, at(2));
    assert_eq!(
        map.lookup(&peer_id),
        Ok(Contact {
            peer_id,
            address: at(2)
        })
    );
}

#[test]
fn full_bucket_takes_no_more() {
    let mut map = FlatPeerMap::new(id(&[]), 2);
    let first = Contact::new_dummy(id(&[(31, 1)]));
    let second = Contact::new_dummy(id(&[(31, 1), (0, 1)]));
    let third = Contact::new_dummy(id(&[(31, 1), (0, 2)]));
    map.insert(first);
    map.insert(second);
    map.insert(third);
    assert_eq!(map.count(), 2);
    assert_eq!(map.contains(&first.peer_id), Some(first));
    assert_eq!(map.contains(&second.peer_id), Some(second));
    assert_eq!(map.contains(&third.peer_id), None);
    // A known peer can still be replaced.
    let moved = Contact {
        peer_id: first.peer_id,
        address: at(7),
    };
    map.insert(moved);
    assert_eq!(map.count(), 2);
    assert_eq!(map.contains(&first.peer_id), Some(moved));
}

#[test]
fn map_without_room_knows_nobody() {
    let mut map = FlatPeerMap::new(id(&[]), 0);
    map.insert(Contact::new_dummy(id(&[(0, 1)])));
    assert_eq!(map.count(), 0);
    assert_eq!(map.find_closest_peers(&id(&[(0, 1)]), 0), vec![]);
    assert_eq!(map.lookup(&id(&[(0, 1)])), Err(vec![]));
}

#[test]
fn closest_peers_in_a_sparse_map() {
    let mut map = FlatPeerMap::new(id(&[]), 4);
    let a = Contact::new_dummy(id(&[(0, 1)]));
    let b = Contact::new_dummy(id(&[(0, 2)]));
    let c = Contact::new_dummy(id(&[(5, 3)]));
    let d = Contact::new_dummy(id(&[(31, 1)]));
    for contact in [d, c, b, a] {
        map.insert(contact);
    }
    let own = id(&[]);
    assert_eq!(map.find_closest_peers(&own, 0), vec![]);
    assert_eq!(map.find_closest_peers(&own, 1), vec![a]);
    assert_eq!(
        sorted(map.find_closest_peers(&own, 2)),
        sorted(vec![a, b])
    );
    assert_eq!(
        sorted(map.find_closest_peers(&own, 3)),
        sorted(vec![a, b, c])
    );
    // No more than there are, and each of them once.
    assert_eq!(
        sorted(map.find_closest_peers(&own, 10)),
        sorted(vec![a, b, c, d])
    );
    assert_eq!(map.find_closest_peers(&id(&[(31, 1), (9, 9)]), 1), vec![d]);
    assert_eq!(map.find_closest_peers(&id(&[(5, 2)]), 1), vec![c]);
}

#[test]
fn unknown_peer_gives_its_neighbors() {
    let mut map = FlatPeerMap::new(id(&[]), 2);
    let a = Contact::new_dummy(id(&[(2, 1)]));
    let b = Contact::new_dummy(id(&[(3, 1)]));
    let c = Contact::new_dummy(id(&[(4, 1)]));
    for contact in [a, b, c] {
        map.insert(contact);
    }
    let neighbors = map.lookup(&id(&[(0, 4)])).unwrap_err();
    assert_eq!(sorted(neighbors), sorted(vec![a, b]));
}

#[test]
fn default_flat_map_has_room_for_sixteen() {
    let mut map = FlatPeerMap::default(id(&[]));
    for n in 0..20 {
        map.insert(Contact::new_dummy(id(&[(31, 1), (0, n)])));
    }
    assert_eq!(map.count(), 16);
}

#[test]
fn unbounded_map_replaces_a_known_peer() {
    let own = id(&[]);
    let mut map = PeerMap::default();
    let peer_id = id(&[(3, 9)]);
    map.insert(own, at(1), peer_id);
    map.insert(own, at(2), peer_id);
    assert_eq!(map.count(), 1);
    assert_eq!(map.contains(own, peer_id), Some((peer_id, at(2))));
    assert_eq!(map.contains(own, id(&[(3, 8)])), None);
    assert_eq!(map.lookup(own, peer_id), Ok((peer_id, at(2))));
}

#[test]
fn unbounded_map_lists_as_many_as_its_size() {
    let own = id(&[]);
    let mut small = PeerMap::new();
    let mut large = PeerMap::default();
    for n in 1..=40 {
        small.insert(own, at(n), id(&[(1, n as u8)]));
        large.insert(own, at(n), id(&[(1, n as u8)]));
    }
    assert_eq!(small.count(), 40);
    let needle = id(&[(2, 1)]);
    let few = small.lookup(own, needle).unwrap_err();
    let many = large.lookup(own, needle).unwrap_err();
    assert_eq!(few.len(), 8);
    assert_eq!(many.len(), 16);
    for n in 1..=8 {
        assert!(few.contains(&(id(&[(1, n as u8)]), at(n))));
    }
    for n in 1..=16 {
        assert!(many.contains(&(id(&[(1, n as u8)]), at(n))));
    }
    assert_eq!(small.find_closest_peers(own, needle), few);
}

#[test]
fn closest_peers_in_a_sparse_unbounded_map() {
    let own = id(&[]);
    let mut map = PeerMap::new();
    assert_eq!(map.find_closest_peers(own, id(&[(0, 1)])), vec![]);
    map.insert(own, at(1), id(&[(0, 1)]));
    map.insert(own, at(2), id(&[(31, 255)]));
    let mut found = map.find_closest_peers(own, id(&[(9, 9)]));
    found.sort_by(|a, b| a.0.bytes().cmp(b.0.bytes()));
    assert_eq!(found, vec![(id(&[(31, 255)]), at(2)), (id(&[(0, 1)]), at(1))]);
}

#[test]
fn own_bucket_is_closest() {
    let own = id(&[]);
    let needle = id(&[(9, 0b0101), (3, 7)]);
    let inside = id(&[(9, 0b0110), (8, 255)]);
    let below = id(&[(9, 0b0011), (3, 7)]);
    let above = id(&[(9, 0b1101), (3, 7)]);
    assert_eq!(own.distance_rank(&inside), own.distance_rank(&needle));
    assert_ne!(own.distance_rank(&below), own.distance_rank(&needle));
    assert_ne!(own.distance_rank(&above), own.distance_rank(&needle));
    let mut map = FlatPeerMap::new(own, 1);
    for peer_id in [below, above, inside] {
        map.insert(Contact::new_dummy(peer_id));
    }
    assert_eq!(
        map.find_closest_peers(&needle, 1),
        vec![Contact::new_dummy(inside)]
    );
}
