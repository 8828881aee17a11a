use worlddat::addr::SocketAddr;
use worlddat::data_mongler::{
    goes_on_after_quit_signal, goes_on_after_waiting, Incoming, QuitSignal, INCOMING_TIMEOUT_SECS,
};
use worlddat::echo::{
    client_message, next_step, response_to, response_with, NextStream, ServerStep,
};
use worlddat::peer;
use worlddat::peer2;
use worlddat::result_ext::ResultExt;
use worlddat::rng::Rand64;
use worlddat::sim::WorkerSim;
use worlddat::types::{Message, PeerId};
use worlddat::worker::{WorkerAction, WorkerMessage, WorkerState};

use std::cell::Cell;

fn id(i: usize, b: u8) -> PeerId {
    let mut all = [0u8; 32];
    all[i] = b;
    PeerId::raw(all)
}

fn at(port: u16) -> SocketAddr {
    SocketAddr::V4 {
        ipv4: 0x0a00_0001,
        port,
    }
}

#[test]
fn worker_answers_a_ping() {
    let mut worker = WorkerState::new(id(0, 1));
    assert_eq!(
        worker.handle_message(at(2), Message::Ping { id: id(0, 2) }),
        Some((at(2), Message::Pong { id: id(0, 1) }))
    );
    // A ping tells it nothing.
    assert_eq!(worker.peer_map.count(), 0);
}

#[test]
fn worker_remembers_a_pong() {
    let mut worker = WorkerState::new(id(0, 1));
    assert_eq!(
        worker.handle_message(at(2), Message::Pong { id: id(0, 2) }),
        None
    );
    assert_eq!(
        worker.handle_message(at(3), Message::FindPeer { id: id(0, 2) }),
        Some((
            at(3),
            Message::FindPeerResponsePeerFound {
                id: id(0, 2),
                addr: at(2)
            }
        ))
    );
    // The pong of another peer changes nothing about it.
    worker.handle_message(at(4), Message::Pong { id: id(0, 3) });
    assert_eq!(
        worker.handle_message(at(3), Message::FindPeer { id: id(0, 2) }),
        Some((
            at(3),
            Message::FindPeerResponsePeerFound {
                id: id(0, 2),
                addr: at(2)
            }
        ))
    );
}

#[test]
fn worker_names_neighbors_of_an_unknown_peer() {
    let mut worker = WorkerState::new(id(0, 1));
    assert_eq!(
        worker.handle_message(at(3), Message::FindPeer { id: id(5, 5) }),
        Some((
            at(3),
            Message::FindPeerResponsePeerNotFound {
                id: id(5, 5),
                neighbors: vec![]
            }
        ))
    );
    worker.handle_message(at(2), Message::Pong { id: id(0, 2) });
    assert_eq!(
        worker.handle_message(at(3), Message::FindPeer { id: id(5, 5) }),
        Some((
            at(3),
            Message::FindPeerResponsePeerNotFound {
                id: id(5, 5),
                neighbors: vec![(id(0, 2), at(2))]
            }
        ))
    );
}

#[test]
fn worker_says_nothing_to_answers() {
    let mut worker = WorkerState::new(id(0, 1));
    let found = Message::FindPeerResponsePeerFound {
        id: id(0, 2),
        addr: at(2),
    };
    let not_found = Message::FindPeerResponsePeerNotFound {
        id: id(0, 2),
        neighbors: vec![(id(0, 3), at(3))],
    };
    assert_eq!(worker.handle_message(at(4), found), None);
    assert_eq!(worker.handle_message(at(4), not_found), None);
    assert_eq!(worker.peer_map.count(), 0);
}

#[test]
fn worker_stops_when_told_or_alone() {
    let mut worker = WorkerState::new(id(0, 1));
    assert_eq!(worker.step(Some(WorkerMessage::Quit)), WorkerAction::Stop);
    assert_eq!(worker.step(None), WorkerAction::Stop);
    assert_eq!(
        worker.step(Some(WorkerMessage::Incoming(
            at(2),
            Message::Pong { id: id(0, 2) }
        ))),
        WorkerAction::Wait
    );
    assert_eq!(
        worker.step(Some(WorkerMessage::Incoming(
            at(2),
            Message::Ping { id: id(0, 2) }
        ))),
        WorkerAction::Send(at(2), Message::Pong { id: id(0, 1) })
    );
}

#[test]
fn simulated_identities_are_random() {
    let mut sim: WorkerSim<u8> = WorkerSim::new();
    let mut rng = Rand64::new(12345);
    let first = sim.new_worker_id();
    let second = sim.new_worker_id();
    assert_eq!(first, PeerId::new_insecure_random(&mut rng));
    assert_eq!(second, PeerId::new_insecure_random(&mut rng));
    assert_ne!(first, second);
}

#[test]
fn new_worker_asks_the_bootstrap_peer_about_itself() {
    let mut sim: WorkerSim<u8> = WorkerSim::new();
    assert_eq!(sim.bootstrap_messages(id(0, 1)), vec![]);
    sim.set_bootstrap(at(9));
    assert_eq!(
        sim.bootstrap_messages(id(0, 1)),
        vec![
            (at(9), Message::Ping { id: id(0, 1) }),
            (at(9), Message::FindPeer { id: id(0, 1) })
        ]
    );
}

#[test]
fn workers_are_added_when_they_are_due() {
    let mut sim = WorkerSim::new();
    sim.add_new_worker(at(1), 'a', 0);
    sim.add_new_worker(at(2), 'b', 2_000_000_000);
    sim.add_new_worker(at(3), 'c', 10);
    sim.add_new_worker(at(4), 'd', 10);
    sim.sort_queue();
    assert!(!sim.add_due_worker(0));
    assert!(sim.add_due_worker(1));
    assert!(!sim.add_due_worker(10));
    assert!(sim.add_due_worker(11));
    assert!(sim.add_due_worker(11));
    assert!(!sim.add_due_worker(11));
    assert_eq!(sim.worker_count(), 3);
    assert_eq!(sim.worker(0), &(at(1), 'a'));
    assert!(sim.add_due_worker(2_000_000_001));
    assert!(!sim.add_due_worker(u128::MAX));
    // Of two that are due at one time, the one that was queued last comes
    // first.
    assert_eq!(
        sim.into_workers(),
        vec![(at(1), 'a'), (at(4), 'd'), (at(3), 'c'), (at(2), 'b')]
    );
}

#[test]
fn messages_reach_the_workers_they_are_for() {
    let mut sim = WorkerSim::new();
    sim.add_worker(at(1), 'a');
    sim.add_worker(at(2), 'b');
    assert_eq!(sim.recipient(at(1)), Some(0));
    assert_eq!(sim.recipient(at(3)), None);
    let ping = Message::Ping { id: id(0, 1) };
    let pong = Message::Pong { id: id(0, 2) };
    let messages = vec![
        (at(1), at(2), ping.clone()),
        (at(1), at(3), ping.clone()),
        (at(2), at(1), pong.clone()),
    ];
    assert_eq!(
        sim.deliveries(messages),
        vec![(1, at(1), ping), (0, at(2), pong)]
    );
    // A worker at a known address takes the place of the other.
    sim.add_worker(at(1), 'c');
    assert_eq!(sim.worker_count(), 2);
    assert_eq!(sim.worker(0), &(at(1), 'c'));
}

#[test]
fn peer_state_starts_empty() {
    let state = peer::PeerSharedState::new();
    assert_eq!(
        state.id.bytes()[..6],
        [174, 9, 219, 124, 213, 79]
    );
    assert_eq!(state.id, PeerId::new(&[0; 64]));
    assert_eq!(state.peermap.lookup(id(0, 1)), Err(vec![]));
    assert_eq!(state.greeting(), peer::Message::Ping { id: state.id });
}

#[test]
fn peer_map_is_in_order_without_duplicates() {
    let info = |b: u8, port: u16| peer::ContactInfo {
        peer_id: id(0, b),
        address: at(port),
    };
    let mut one = peer::PeerMap::new();
    for (b, port) in [(3, 3), (1, 1), (2, 9), (2, 2)] {
        one.insert(info(b, port));
    }
    let mut other = peer::PeerMap::new();
    for (b, port) in [(1, 1), (2, 2), (3, 3)] {
        other.insert(info(b, port));
    }
    assert_eq!(format!("{:?}", one), format!("{:?}", other));
    other.insert(info(4, 4));
    assert_ne!(format!("{:?}", one), format!("{:?}", other));
    assert!(info(1, 5) < info(2, 0));
    assert_eq!(info(1, 5).cmp(&info(1, 6)), std::cmp::Ordering::Equal);
}

#[test]
fn peer_handles_messages() {
    let mut state = peer::PeerSharedState::new();
    let own = state.id;
    let empty = format!("{:?}", state.peermap);
    assert_eq!(
        state.handle_message_from(at(1), &peer::Message::Ping { id: id(0, 1) }),
        vec![(id(0, 1), peer::Message::Pong { id: own })]
    );
    assert_eq!(
        state.handle_message_from(at(1), &peer::Message::FindPeer { id: id(0, 1) }),
        vec![(
            id(0, 1),
            peer::Message::FindPeerResponsePeerNotFound {
                id: id(0, 1),
                neighbors: vec![]
            }
        )]
    );
    let contact = peer::ContactInfo {
        peer_id: id(0, 2),
        address: at(2),
    };
    let other = peer::ContactInfo {
        peer_id: id(0, 3),
        address: at(3),
    };
    assert_eq!(
        state.handle_message_from(at(1), &peer::Message::FindPeerResponsePeerFound { contact }),
        vec![(id(0, 2), peer::Message::Ping { id: own })]
    );
    assert_eq!(
        state.handle_message_from(
            at(1),
            &peer::Message::FindPeerResponsePeerNotFound {
                id: id(0, 9),
                neighbors: vec![other, contact]
            }
        ),
        vec![
            (id(0, 3), peer::Message::FindPeer { id: id(0, 9) }),
            (id(0, 2), peer::Message::FindPeer { id: id(0, 9) })
        ]
    );
    assert_eq!(format!("{:?}", state.peermap), empty);
    assert_eq!(
        state.handle_message_from(at(2), &peer::Message::Pong { id: id(0, 2) }),
        vec![]
    );
    let mut expected = peer::PeerMap::new();
    expected.insert(contact);
    assert_eq!(
        format!("{:?}", state.peermap),
        format!("{:?}", expected)
    );
}

#[test]
fn ping_on_a_stream_is_answered_with_our_own_identity() {
    assert_eq!(
        peer::reply_to(id(0, 7), Some(peer::Message::Ping { id: id(0, 1) })),
        Some(peer::Message::Pong { id: id(0, 7) })
    );
    assert_eq!(
        peer::reply_to(id(0, 7), Some(peer::Message::FindPeer { id: id(0, 1) })),
        None
    );
    assert_eq!(peer::reply_to(id(0, 7), None), None);
}

#[test]
fn peer_learns_from_what_it_reads() {
    let mut state = peer::PeerSharedState::new();
    let own = state.id;
    assert_eq!(
        state.receive_message(at(1), Some(peer::Message::Ping { id: id(0, 1) })),
        Some(peer::Message::Pong { id: own })
    );
    assert_eq!(state.receive_message(at(1), None), None);
    assert_eq!(state.peermap.lookup(id(0, 1)), Err(vec![]));
    assert_eq!(
        state.receive_message(at(1), Some(peer::Message::Pong { id: id(0, 1) })),
        None
    );
    assert_eq!(
        state.peermap.lookup(id(0, 1)),
        Ok(peer::ContactInfo {
            peer_id: id(0, 1),
            address: at(1)
        })
    );
}

#[test]
fn peer_finds_those_it_has_heard_of() {
    let mut state = peer::PeerSharedState::new();
    for n in 1..=20 {
        state.handle_message_from(at(n), &peer::Message::Pong { id: id(1, n as u8) });
    }
    let info = |n: u16| peer::ContactInfo {
        peer_id: id(1, n as u8),
        address: at(n),
    };
    assert_eq!(
        state.handle_message_from(at(99), &peer::Message::FindPeer { id: id(1, 3) }),
        vec![(
            id(1, 3),
            peer::Message::FindPeerResponsePeerFound { contact: info(3) }
        )]
    );
    // The eight that are closest to one that is not known, by identity.
    assert_eq!(
        state.handle_message_from(at(99), &peer::Message::FindPeer { id: id(0, 3) }),
        vec![(
            id(0, 3),
            peer::Message::FindPeerResponsePeerNotFound {
                id: id(0, 3),
                neighbors: (1..=8).map(info).collect()
            }
        )]
    );
    // Another peer's pong changes nothing about this one, a later one of its
    // own does.
    state.handle_message_from(at(50), &peer::Message::Pong { id: id(1, 4) });
    assert_eq!(state.peermap.lookup(id(1, 3)), Ok(info(3)));
    assert_eq!(state.peermap.lookup(id(1, 4)).unwrap().address, at(50));
}

#[test]
fn worker_runs_through_a_queue() {
    let mut worker = WorkerState::new(id(0, 1));
    let queue = vec![
        WorkerMessage::Incoming(at(2), Message::Ping { id: id(0, 2) }),
        WorkerMessage::Incoming(at(2), Message::Pong { id: id(0, 2) }),
        WorkerMessage::Incoming(at(3), Message::FindPeer { id: id(0, 2) }),
        WorkerMessage::Quit,
        WorkerMessage::Incoming(at(4), Message::Ping { id: id(0, 4) }),
    ];
    let mut sent = vec![];
    let mut taken = 0;
    for event in queue {
        taken += 1;
        match worker.step(Some(event)) {
            WorkerAction::Stop => break,
            WorkerAction::Wait => (),
            WorkerAction::Send(to, msg) => sent.push((to, msg)),
        }
    }
    assert_eq!(taken, 4);
    assert_eq!(
        sent,
        vec![
            (at(2), Message::Pong { id: id(0, 1) }),
            (
                at(3),
                Message::FindPeerResponsePeerFound {
                    id: id(0, 2),
                    addr: at(2)
                }
            )
        ]
    );
}

#[test]
fn messages_are_delivered_to_whoever_has_joined() {
    let mut sim = WorkerSim::new();
    sim.add_worker(at(1), 'a');
    sim.add_new_worker(at(2), 'b', 5);
    sim.sort_queue();
    let ping = Message::Ping { id: id(0, 1) };
    let mut delivered = vec![];
    for elapsed in [5, 6, 7] {
        sim.add_due_worker(elapsed);
        for (i, src, msg) in sim.deliveries(vec![(at(1), at(2), ping.clone())]) {
            delivered.push((elapsed, sim.worker(i).0, src, msg));
        }
    }
    assert_eq!(
        delivered,
        vec![
            (6, at(2), at(1), ping.clone()),
            (7, at(2), at(1), ping)
        ]
    );
}

#[test]
fn bytes_are_escaped() {
    assert_eq!(peer2::escaped(b""), "");
    assert_eq!(
        peer2::escaped(b"Foo!\t\r\n'\"\\ ~\x7f\x00\xff"),
        "Foo!\\t\\r\\n\\'\\\"\\\\ ~\\x7f\\x00\\xff"
    );
    for b in 0..=255u8 {
        let part: Vec<u8> = std::ascii::escape_default(b).collect();
        assert_eq!(peer2::escaped(&[b]).as_bytes(), &part[..]);
    }
}

#[test]
fn request_is_logged_passed_on_and_answered() {
    let request = peer2::read_message(at(1), id(0, 1), b"a\n");
    assert_eq!(request.log, "got request: \"a\\n\"");
    assert_eq!(request.message, (at(1), Message::Ping { id: id(0, 1) }));
    assert_eq!(&request.response, b"Bar!!");
    assert_eq!(&peer2::greeting(), b"Foo!");
}

#[test]
fn requests_are_echoed() {
    assert_eq!(response_to(b"hello"), "Received: hello");
    assert_eq!(response_to(b""), "Received: ");
    assert_eq!(
        response_to("gr\u{fc}\u{df}e".as_bytes()),
        "Received: gr\u{fc}\u{df}e"
    );
    assert_eq!(response_to(b"a\xffb"), "Received: a\u{fffd}b");
    assert_eq!(response_with("x"), "Received: x");
}

#[test]
fn clients_have_numbers() {
    assert_eq!(client_message(0), "This is client 0");
    assert_eq!(client_message(9), "This is client 9");
    assert_eq!(client_message(255), "This is client 255");
}

#[test]
fn server_goes_on_until_the_connection_ends() {
    assert_eq!(next_step(NextStream::Opened), ServerStep::Serve);
    assert_eq!(next_step(NextStream::Closed), ServerStep::Finish);
    assert_eq!(next_step(NextStream::Ended), ServerStep::Finish);
    assert_eq!(next_step(NextStream::Failed), ServerStep::GiveUp);
}

#[test]
fn thread_goes_on_until_told_or_alone() {
    assert_eq!(INCOMING_TIMEOUT_SECS, 1);
    assert!(goes_on_after_waiting(Incoming::Message));
    assert!(goes_on_after_waiting(Incoming::Timeout));
    assert!(!goes_on_after_waiting(Incoming::Disconnected));
    assert!(goes_on_after_quit_signal(QuitSignal::Empty));
    assert!(!goes_on_after_quit_signal(QuitSignal::Quit));
    assert!(!goes_on_after_quit_signal(QuitSignal::Disconnected));
}

#[test]
fn errors_are_looked_at_in_passing() {
    let seen = Cell::new(0);
    let failed: Result<u8, u8> = Err(7);
    assert_eq!(
        ResultExt::inspect_err(failed, |e: &u8| seen.set(*e)),
        Err(7)
    );
    assert_eq!(seen.get(), 7);
    let fine: Result<u8, u8> = Ok(1);
    assert_eq!(ResultExt::inspect_err(fine, |e: &u8| seen.set(*e + 1)), Ok(1));
    assert_eq!(seen.get(), 7);
}

#[test]
fn escaped_text_is_printable_and_tells_bytes_apart() {
    let mut texts = vec![];
    for b in 0..=255u8 {
        let text = peer2::escaped(&[b, b'x', b]);
        assert!(text.bytes().all(|c| (b' '..=b'~').contains(&c)));
        texts.push(text);
    }
    texts.sort();
    texts.dedup();
    assert_eq!(texts.len(), 256);
    // A backslash that was there before is told apart from one that was not.
    assert_ne!(peer2::escaped(b"\n"), peer2::escaped(b"\\n"));
}

#[test]
fn later_pong_of_the_same_peer_moves_it() {
    let mut worker = WorkerState::new(id(0, 1));
    worker.handle_message(at(2), Message::Pong { id: id(0, 2) });
    worker.handle_message(at(5), Message::Pong { id: id(0, 2) });
    assert_eq!(worker.peer_map.count(), 1);
    assert_eq!(
        worker.handle_message(at(3), Message::FindPeer { id: id(0, 2) }),
        Some((
            at(3),
            Message::FindPeerResponsePeerFound {
                id: id(0, 2),
                addr: at(5)
            }
        ))
    );
}
