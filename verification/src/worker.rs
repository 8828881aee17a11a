//! The part that makes the decisions: what a peer does about the messages that
//! reach it.

use vstd::prelude::*;

use crate::addr::SocketAddr;
use crate::buckets::{
    all_from, inserted, is_closest, law_closest_are_named, law_insert_leaves_others_in_place,
    law_inserted_is_found, law_inserted_keeps_others, law_inserted_stays_placed,
    law_lookup_gives_what_is_held, law_one_contact_each, looked_up, placed, BUCKETS,
};
use crate::closest::nearest;
use crate::distance::distance;
use crate::peer_map::{as_contacts, first, PeerMap};
use crate::types::{lemma_peer_id_view, Contact, Message, PeerId};

verus! {

/// What a worker is told.
#[derive(Clone, Debug)]
pub enum WorkerMessage {
    /// Stop.
    Quit,
    /// A message was received from a peer!
    Incoming(SocketAddr, Message),
}

/// What a worker wants done.
#[derive(Clone, Debug, PartialEq, Eq)]
pub enum WorkerAction {
    /// Stop the loop.
    Stop,
    /// Wait for the next event.
    Wait,
    /// Send a message, and wait for the next event.
    Send(SocketAddr, Message),
}

/// A peer's identity and what it knows about the others.
#[derive(Debug)]
pub struct WorkerState {
    /// The ID of the peer.
    pub peer_id: PeerId,
    /// The peers that it knows.
    pub peer_map: PeerMap,
}

/// The answer of the peer `own`, which knows the peers in `buckets` and lists
/// up to `size` of them, to a message from `from`.
pub open spec fn answers(
    own: PeerId,
    buckets: Seq<Seq<Contact>>,
    size: nat,
    from: SocketAddr,
    msg: Message,
    reply: Option<(SocketAddr, Message)>,
) -> bool {
    match msg {
        // A ping is answered with our own identity.
        Message::Ping { id } => reply == Some((from, Message::Pong { id: own })),
        // A question about a peer is answered with its address if we know it.
        Message::FindPeer { id } => match looked_up(buckets, own, id) {
            Some(c) => reply == Some(
                (
                    from,
                    Message::FindPeerResponsePeerFound { id: c.peer_id, addr: c.address },
                ),
            ),
            // Otherwise it is answered with the closest peers that we know.
            None => {
                &&& reply matches Some((to, Message::FindPeerResponsePeerNotFound {
                    id: about,
                    neighbors,
                }))
                &&& to == from
                &&& about == id
                &&& as_contacts(neighbors@) == first(
                    nearest(all_from(buckets, own, id), id@, size),
                    size,
                )
                &&& is_closest(buckets, id@, size, as_contacts(neighbors@))
            },
        },
        _ => reply is None,
    }
}

/// What the peer `own` knows after a message from `from`: a pong comes from a
/// peer that is there, and nothing else is taken for granted.
pub open spec fn learned(
    own: PeerId,
    buckets: Seq<Seq<Contact>>,
    from: SocketAddr,
    msg: Message,
) -> Seq<Seq<Contact>> {
    match msg {
        Message::Pong { id } => inserted(buckets, own, Contact { peer_id: id, address: from }),
        _ => buckets,
    }
}

/// What a worker has sent when it wants the given thing done.
pub open spec fn sent_by(action: WorkerAction) -> Option<(SocketAddr, Message)> {
    match action {
        WorkerAction::Send(to, reply) => Some((to, reply)),
        _ => None,
    }
}

/// One step of the peer `own`, which lists up to `size` peers: an event takes
/// it from what it knew `before` to what it knows `after`, and it wants
/// `action` done. `None` says that there can be no more events.
pub open spec fn steps(
    own: PeerId,
    size: nat,
    before: Seq<Seq<Contact>>,
    event: Option<WorkerMessage>,
    action: WorkerAction,
    after: Seq<Seq<Contact>>,
) -> bool {
    match event {
        Some(WorkerMessage::Incoming(addr, msg)) => {
            &&& action != WorkerAction::Stop
            &&& after == learned(own, before, addr, msg)
            &&& answers(own, before, size, addr, msg, sent_by(action))
        },
        _ => action == WorkerAction::Stop && after == before,
    }
}

/// Whether a worker runs through `events`: `known` is what it knows before each
/// of them and in the end, and `actions` is what it wants done about each. It
/// takes the next event exactly when it does not stop.
pub open spec fn runs(
    own: PeerId,
    size: nat,
    known: Seq<Seq<Seq<Contact>>>,
    events: Seq<Option<WorkerMessage>>,
    actions: Seq<WorkerAction>,
) -> bool {
    &&& events.len() == actions.len()
    &&& known.len() == events.len() + 1
    &&& forall|i: int|
        0 <= i < events.len() ==> steps(
            own,
            size,
            known[i],
            #[trigger] events[i],
            actions[i],
            known[i + 1],
        )
    &&& forall|i: int|
        0 <= i < events.len() - 1 ==> #[trigger] actions[i] != WorkerAction::Stop
}

/// The messages among events, each with its sender.
pub open spec fn incoming(events: Seq<Option<WorkerMessage>>) -> Seq<(SocketAddr, Message)>
    decreases events.len(),
{
    if events.len() == 0 {
        seq![]
    } else {
        match events.last() {
            Some(WorkerMessage::Incoming(addr, msg)) => incoming(events.drop_last()).push(
                (addr, msg),
            ),
            _ => incoming(events.drop_last()),
        }
    }
}

/// What is sent, in order, when the given things are done.
pub open spec fn sent(actions: Seq<WorkerAction>) -> Seq<(SocketAddr, Message)>
    decreases actions.len(),
{
    if actions.len() == 0 {
        seq![]
    } else {
        match sent_by(actions.last()) {
            Some(p) => sent(actions.drop_last()).push(p),
            None => sent(actions.drop_last()),
        }
    }
}

/// What the peer `own` knows after the given messages.
pub open spec fn learned_all(
    own: PeerId,
    buckets: Seq<Seq<Contact>>,
    messages: Seq<(SocketAddr, Message)>,
) -> Seq<Seq<Contact>>
    decreases messages.len(),
{
    if messages.len() == 0 {
        buckets
    } else {
        let (from, msg) = messages.last();
        learned(own, learned_all(own, buckets, messages.drop_last()), from, msg)
    }
}

/// Whether a message calls for a reply.
pub open spec fn is_question(msg: Message) -> bool {
    msg is Ping || msg is FindPeer
}

/// Whether `out` answers the questions among `messages`: one reply for each, in
/// order, to its sender, from what was known when it came, and nothing else.
pub open spec fn answers_all(
    own: PeerId,
    buckets: Seq<Seq<Contact>>,
    size: nat,
    messages: Seq<(SocketAddr, Message)>,
    out: Seq<(SocketAddr, Message)>,
) -> bool
    decreases messages.len(),
{
    if messages.len() == 0 {
        out.len() == 0
    } else {
        let (from, msg) = messages.last();
        let rest = messages.drop_last();
        if is_question(msg) {
            &&& out.len() > 0
            &&& out.last().0 == from
            &&& answers(own, learned_all(own, buckets, rest), size, from, msg, Some(out.last()))
            &&& answers_all(own, buckets, size, rest, out.drop_last())
        } else {
            answers_all(own, buckets, size, rest, out)
        }
    }
}

/// Says of a message with its sender that it calls for a reply.
pub open spec fn question() -> spec_fn((SocketAddr, Message)) -> bool {
    |m: (SocketAddr, Message)| is_question(m.1)
}

impl WorkerState {
    /// Whether what the worker knows is in order.
    pub open spec fn wf(&self) -> bool {
        self.peer_map.wf() && placed(self.peer_map@, self.peer_id)
    }

    /// A worker for the given peer, which knows nobody yet.
    pub fn new(peer_id: PeerId) -> (r: Self)
        ensures
            r.wf(),
            r.peer_id == peer_id,
            r.peer_map.size() == 8,
            r.peer_map@ == Seq::new(BUCKETS as nat, |b: int| Seq::<Contact>::empty()),
    {
        WorkerState { peer_id, peer_map: PeerMap::new() }
    }

    /// Learns from a message that came from `addr` and returns the reply to it,
    /// if any, with the address to send it to.
    pub fn handle_message(&mut self, addr: SocketAddr, msg: Message) -> (r: Option<
        (SocketAddr, Message),
    >)
        requires
            old(self).wf(),
        ensures
            final(self).wf(),
            final(self).peer_id == old(self).peer_id,
            final(self).peer_map.size() == old(self).peer_map.size(),
            final(self).peer_map@ == learned(old(self).peer_id, old(self).peer_map@, addr, msg),
            answers(
                old(self).peer_id,
                old(self).peer_map@,
                old(self).peer_map.size(),
                addr,
                msg,
                r,
            ),
    {
        match msg {
            Message::Ping { id: _ } => Some((addr, Message::Pong { id: self.peer_id })),
            Message::Pong { id: other_id } => {
                // Pong only happens in response to a ping, so we know this ID
                // is legit.
                proof {
                    law_inserted_stays_placed(
                        self.peer_map@,
                        self.peer_id,
                        Contact { peer_id: other_id, address: addr },
                    );
                }
                self.peer_map.insert(self.peer_id, addr, other_id);
                None
            },
            Message::FindPeer { id: desired_id } => {
                // Do we know about the peer?
                let reply = match self.peer_map.lookup(self.peer_id, desired_id) {
                    Ok((peer_id, socket_addr)) => Message::FindPeerResponsePeerFound {
                        id: peer_id,
                        addr: socket_addr,
                    },
                    Err(neighbors) => Message::FindPeerResponsePeerNotFound {
                        id: desired_id,
                        neighbors,
                    },
                };
                Some((addr, reply))
            },
            _ => None,
        }
    }

    /// Says what to do about an event: a message to the worker, or `None` when
    /// there can be no more of them.
    pub fn step(&mut self, event: Option<WorkerMessage>) -> (r: WorkerAction)
        requires
            old(self).wf(),
        ensures
            final(self).wf(),
            final(self).peer_id == old(self).peer_id,
            final(self).peer_map.size() == old(self).peer_map.size(),
            steps(
                old(self).peer_id,
                old(self).peer_map.size(),
                old(self).peer_map@,
                event,
                r,
                final(self).peer_map@,
            ),
            r == WorkerAction::Stop ==> *final(self) == *old(self),
    {
        match event {
            Some(WorkerMessage::Quit) => WorkerAction::Stop,
            Some(WorkerMessage::Incoming(addr, msg)) => match self.handle_message(addr, msg) {
                Some((to, reply)) => WorkerAction::Send(to, reply),
                None => WorkerAction::Wait,
            },
            None => WorkerAction::Stop,
        }
    }
}

/// A peer that has answered a ping can be found: after its pong, whoever asks
/// for it is told the address that the pong came from.
pub proof fn law_pong_is_remembered(
    own: PeerId,
    buckets: Seq<Seq<Contact>>,
    size: nat,
    id: PeerId,
    addr: SocketAddr,
    asker: SocketAddr,
    reply: Option<(SocketAddr, Message)>,
)
    requires
        placed(buckets, own),
        answers(
            own,
            learned(own, buckets, addr, Message::Pong { id }),
            size,
            asker,
            Message::FindPeer { id },
            reply,
        ),
    ensures
        reply == Some((asker, Message::FindPeerResponsePeerFound { id, addr })),
{
    law_inserted_is_found(buckets, own, Contact { peer_id: id, address: addr });
}

/// What a worker says about one peer depends on no other peer's messages.
pub proof fn law_others_do_not_matter(
    own: PeerId,
    buckets: Seq<Seq<Contact>>,
    id: PeerId,
    from: SocketAddr,
    msg: Message,
)
    requires
        placed(buckets, own),
        msg matches Message::Pong { id: other } ==> other@ != id@,
    ensures
        looked_up(learned(own, buckets, from, msg), own, id) == looked_up(buckets, own, id),
{
    match msg {
        Message::Pong { id: other } => {
            law_inserted_keeps_others(
                buckets,
                own,
                Contact { peer_id: other, address: from },
                id,
            );
        },
        _ => {},
    }
}

/// A worker runs until it is told to quit or nobody is left to tell it
/// anything, and not longer: every event before the last is a message, and when
/// the worker stops, the last one is none. On the way it answers the questions
/// among the messages, one reply for each, in order, to its sender; to nothing
/// else does it say anything.
pub proof fn law_run_answers_in_order(
    own: PeerId,
    size: nat,
    known: Seq<Seq<Seq<Contact>>>,
    events: Seq<Option<WorkerMessage>>,
    actions: Seq<WorkerAction>,
)
    requires
        runs(own, size, known, events, actions),
    ensures
        forall|i: int|
            0 <= i < events.len() - 1 ==> (#[trigger] events[i] matches Some(
                WorkerMessage::Incoming(..),
            )),
        events.len() > 0 ==> (actions.last() != WorkerAction::Stop <==> (
        events.last() matches Some(WorkerMessage::Incoming(..)))),
        known.last() == learned_all(own, known[0], incoming(events)),
        answers_all(own, known[0], size, incoming(events), sent(actions)),
    decreases events.len(),
{
    if events.len() > 0 {
        let n = events.len() - 1;
        let es = events.drop_last();
        let acts = actions.drop_last();
        let ks = known.drop_last();
        assert forall|i: int| 0 <= i < es.len() implies steps(
            own,
            size,
            ks[i],
            #[trigger] es[i],
            acts[i],
            ks[i + 1],
        ) by {
            assert(es[i] == events[i] && acts[i] == actions[i]);
        }
        assert forall|i: int| 0 <= i < es.len() - 1 implies #[trigger] acts[i]
            != WorkerAction::Stop by {
            assert(acts[i] == actions[i]);
        }
        law_run_answers_in_order(own, size, ks, es, acts);
        assert forall|i: int| 0 <= i < n implies (#[trigger] events[i] matches Some(
            WorkerMessage::Incoming(..),
        )) by {
            assert(actions[i] != WorkerAction::Stop);
            assert(steps(own, size, known[i], events[i], actions[i], known[i + 1]));
        }
        assert(steps(own, size, known[n], events[n], actions[n], known[n + 1]));
        match events[n] {
            Some(WorkerMessage::Incoming(addr, msg)) => {
                let before = incoming(es);
                assert(incoming(events).drop_last() =~= before);
                if is_question(msg) {
                    assert(sent(actions).drop_last() =~= sent(acts));
                }
            },
            _ => {},
        }
    }
}

/// What a worker is told next when it has taken `i` of the entries of a queue,
/// to which nobody can add.
pub open spec fn told(queue: Seq<WorkerMessage>, i: int) -> Option<WorkerMessage> {
    if i < queue.len() {
        Some(queue[i])
    } else {
        None
    }
}

/// A worker that runs through a queue and stops has heard the messages before
/// the first `Quit`, or all of them if there is none. It stops there, and what
/// comes after `Quit` has no effect.
pub proof fn law_run_ends_at_quit(
    own: PeerId,
    size: nat,
    known: Seq<Seq<Seq<Contact>>>,
    queue: Seq<WorkerMessage>,
    events: Seq<Option<WorkerMessage>>,
    actions: Seq<WorkerAction>,
)
    requires
        runs(own, size, known, events, actions),
        events.len() > 0,
        actions.last() == WorkerAction::Stop,
        forall|i: int| 0 <= i < events.len() ==> #[trigger] events[i] == told(queue, i),
    ensures
        events.len() - 1 <= queue.len(),
        events.len() - 1 < queue.len() ==> queue[events.len() - 1] is Quit,
        incoming(events).len() == events.len() - 1,
        forall|i: int|
            0 <= i < events.len() - 1 ==> #[trigger] queue[i] == WorkerMessage::Incoming(
                incoming(events)[i].0,
                incoming(events)[i].1,
            ),
{
    law_run_answers_in_order(own, size, known, events, actions);
    let n = events.len() - 1;
    assert(events[n] == told(queue, n));
    if n > 0 {
        assert(events[n - 1] == told(queue, n - 1));
    }
    let front = events.drop_last();
    assert forall|i: int| 0 <= i < front.len() implies (#[trigger] front[i] matches Some(
        WorkerMessage::Incoming(..),
    )) by {
        assert(front[i] == events[i]);
    }
    lemma_incoming(front);
    assert forall|i: int| 0 <= i < n implies #[trigger] queue[i] == WorkerMessage::Incoming(
        incoming(events)[i].0,
        incoming(events)[i].1,
    ) by {
        assert(events[i] == told(queue, i));
        assert(front[i] == events[i]);
    }
}

/// Events that are all messages are heard one for one.
proof fn lemma_incoming(events: Seq<Option<WorkerMessage>>)
    requires
        forall|i: int|
            0 <= i < events.len() ==> (#[trigger] events[i] matches Some(
                WorkerMessage::Incoming(..),
            )),
    ensures
        incoming(events).len() == events.len(),
        forall|i: int|
            0 <= i < events.len() ==> #[trigger] events[i] == Some(
                WorkerMessage::Incoming(incoming(events)[i].0, incoming(events)[i].1),
            ),
    decreases events.len(),
{
    if events.len() > 0 {
        let front = events.drop_last();
        let n = events.len() - 1;
        assert forall|i: int| 0 <= i < front.len() implies (#[trigger] front[i] matches Some(
            WorkerMessage::Incoming(..),
        )) by {
            assert(front[i] == events[i]);
        }
        lemma_incoming(front);
        assert(events[n] matches Some(WorkerMessage::Incoming(..)));
        assert forall|i: int| 0 <= i < events.len() implies #[trigger] events[i] == Some(
            WorkerMessage::Incoming(incoming(events)[i].0, incoming(events)[i].1),
        ) by {
            if i < n {
                assert(front[i] == events[i]);
            }
        }
    }
}

/// There are as many replies as questions, and the reply to each goes to the
/// one who asked.
pub proof fn law_one_reply_for_each_question(
    own: PeerId,
    buckets: Seq<Seq<Contact>>,
    size: nat,
    messages: Seq<(SocketAddr, Message)>,
    out: Seq<(SocketAddr, Message)>,
)
    requires
        answers_all(own, buckets, size, messages, out),
    ensures
        out.len() == messages.filter(question()).len(),
        forall|i: int|
            0 <= i < out.len() ==> (#[trigger] out[i]).0 == messages.filter(question())[i].0,
    decreases messages.len(),
{
    reveal(Seq::filter);
    if messages.len() > 0 {
        let (from, msg) = messages.last();
        let rest = messages.drop_last();
        if is_question(msg) {
            law_one_reply_for_each_question(own, buckets, size, rest, out.drop_last());
            assert forall|i: int| 0 <= i < out.len() implies (#[trigger] out[i]).0
                == messages.filter(question())[i].0 by {
                if i < out.len() - 1 {
                    assert(out.drop_last()[i] == out[i]);
                }
            }
        } else {
            law_one_reply_for_each_question(own, buckets, size, rest, out);
        }
    }
}

/// A ping is answered with our own identity, to the one who pinged, whatever we
/// know and whoever it is.
pub proof fn law_ping_is_answered_with_own_identity(
    own: PeerId,
    buckets: Seq<Seq<Contact>>,
    size: nat,
    from: SocketAddr,
    id: PeerId,
    reply: Option<(SocketAddr, Message)>,
)
    requires
        answers(own, buckets, size, from, Message::Ping { id }, reply),
    ensures
        reply == Some((from, Message::Pong { id: own })),
{
}

/// Whoever asks for a peer that we hold a contact for, in whichever bucket, is
/// told its address.
pub proof fn law_known_peer_is_named(
    own: PeerId,
    buckets: Seq<Seq<Contact>>,
    size: nat,
    from: SocketAddr,
    id: PeerId,
    reply: Option<(SocketAddr, Message)>,
    r: int,
    i: int,
)
    requires
        placed(buckets, own),
        0 <= r < buckets.len(),
        0 <= i < buckets[r].len(),
        buckets[r][i].peer_id@ == id@,
        answers(own, buckets, size, from, Message::FindPeer { id }, reply),
    ensures
        reply == Some(
            (from, Message::FindPeerResponsePeerFound { id, addr: buckets[r][i].address }),
        ),
{
    law_lookup_gives_what_is_held(buckets, own, id, buckets[r][i]);
    lemma_peer_id_view(id, buckets[r][i].peer_id);
}

/// Whoever asks for a peer that we hold no contact for is told the closest that
/// we hold: no peer twice, only contacts that are held, and no more than `size`.
/// A contact that is held and not named is farther from the peer, by the XOR of
/// their bytes, than all that are named, and then `size` of them are.
pub proof fn law_unknown_peer_gets_the_closest(
    own: PeerId,
    buckets: Seq<Seq<Contact>>,
    size: nat,
    from: SocketAddr,
    id: PeerId,
    reply: Option<(SocketAddr, Message)>,
)
    requires
        placed(buckets, own),
        forall|r: int, i: int|
            0 <= r < buckets.len() && 0 <= i < buckets[r].len() ==> (
            #[trigger] buckets[r][i]).peer_id@ != id@,
        answers(own, buckets, size, from, Message::FindPeer { id }, reply),
    ensures
        reply matches Some((to, Message::FindPeerResponsePeerNotFound {
            id: about,
            neighbors,
        })) && {
            &&& to == from
            &&& about == id
            &&& neighbors@.len() <= size
            &&& forall|i: int, j: int|
                0 <= i < j < neighbors@.len() ==> (#[trigger] neighbors@[i]).0@ != (
                #[trigger] neighbors@[j]).0@
            &&& forall|n: (PeerId, SocketAddr)| #[trigger]
                neighbors@.contains(n) ==> (exists|r: int, i: int|
                    0 <= r < buckets.len() && 0 <= i < buckets[r].len() && #[trigger] buckets[r][i]
                        == (Contact { peer_id: n.0, address: n.1 }))
            &&& forall|r: int, i: int|
                0 <= r < buckets.len() && 0 <= i < buckets[r].len() && !neighbors@.contains(
                    ((#[trigger] buckets[r][i]).peer_id, buckets[r][i].address),
                ) ==> neighbors@.len() == size
            &&& forall|r: int, i: int, k: int|
                0 <= r < buckets.len() && 0 <= i < buckets[r].len() && !neighbors@.contains(
                    ((#[trigger] buckets[r][i]).peer_id, buckets[r][i].address),
                ) && 0 <= k < neighbors@.len() ==> distance((#[trigger] neighbors@[k]).0@, id@)
                    < distance(buckets[r][i].peer_id@, id@)
        },
{
    if let Some(c) = looked_up(buckets, own, id) {
        law_lookup_gives_what_is_held(buckets, own, id, c);
        let (r, i) = choose|r: int, i: int|
            0 <= r < buckets.len() && 0 <= i < buckets[r].len() && #[trigger] buckets[r][i] == c;
        assert(buckets[r][i].peer_id@ != id@);
    }
    if let Some((to, Message::FindPeerResponsePeerNotFound { id: about, neighbors })) = reply {
        let found = as_contacts(neighbors@);
        law_closest_are_named(buckets, own, id@, size, found);
        assert forall|i: int, j: int| 0 <= i < j < neighbors@.len() implies (
        #[trigger] neighbors@[i]).0@ != (#[trigger] neighbors@[j]).0@ by {
            assert(found[i].peer_id@ != found[j].peer_id@);
        }
        assert forall|n: (PeerId, SocketAddr)| #[trigger] neighbors@.contains(n) implies (exists|
            r: int,
            i: int,
        |
            0 <= r < buckets.len() && 0 <= i < buckets[r].len() && #[trigger] buckets[r][i] == (
            Contact { peer_id: n.0, address: n.1 })) by {
            let k = choose|k: int| 0 <= k < neighbors@.len() && neighbors@[k] == n;
            assert(found[k] == (Contact { peer_id: n.0, address: n.1 }));
            assert(found.contains(found[k]));
        }
        assert forall|r: int, i: int|
            0 <= r < buckets.len() && 0 <= i < buckets[r].len() && !neighbors@.contains(
                ((#[trigger] buckets[r][i]).peer_id, buckets[r][i].address),
            ) implies !found.contains(buckets[r][i]) by {
            let c = buckets[r][i];
            if found.contains(c) {
                let k = choose|k: int| 0 <= k < found.len() && found[k] == c;
                assert(neighbors@[k] == (c.peer_id, c.address));
            }
        }
        assert forall|r: int, i: int, k: int|
            0 <= r < buckets.len() && 0 <= i < buckets[r].len() && !neighbors@.contains(
                ((#[trigger] buckets[r][i]).peer_id, buckets[r][i].address),
            ) && 0 <= k < neighbors@.len() implies distance(
            (#[trigger] neighbors@[k]).0@,
            id@,
        ) < distance(buckets[r][i].peer_id@, id@) by {
            assert(found[k].peer_id == neighbors@[k].0);
            assert(!found.contains(buckets[r][i]));
        }
    }
}

/// Nothing is said to anything but a ping or a question.
pub proof fn law_other_messages_get_no_reply(
    own: PeerId,
    buckets: Seq<Seq<Contact>>,
    size: nat,
    from: SocketAddr,
    msg: Message,
    reply: Option<(SocketAddr, Message)>,
)
    requires
        answers(own, buckets, size, from, msg, reply),
        !(msg is Ping),
        !(msg is FindPeer),
    ensures
        reply is None,
{
}

/// Only a pong teaches anything.
pub proof fn law_only_a_pong_teaches(
    own: PeerId,
    buckets: Seq<Seq<Contact>>,
    from: SocketAddr,
    msg: Message,
)
    requires
        !(msg is Pong),
    ensures
        learned(own, buckets, from, msg) == buckets,
{
}

/// A pong teaches where its peer is: afterwards a contact with the address that
/// it came from is held, and no other for that peer; the contacts of all other
/// peers stand where they stood.
pub proof fn law_a_pong_teaches(
    own: PeerId,
    buckets: Seq<Seq<Contact>>,
    from: SocketAddr,
    id: PeerId,
    x: Contact,
    r: int,
    i: int,
)
    requires
        placed(buckets, own),
        0 <= r < buckets.len(),
        0 <= i,
    ensures
        ({
            let after = learned(own, buckets, from, Message::Pong { id });
            &&& placed(after, own)
            &&& after.len() == buckets.len()
            &&& exists|q: int, j: int|
                0 <= q < after.len() && 0 <= j < after[q].len() && #[trigger] after[q][j] == (
                Contact { peer_id: id, address: from })
            &&& i < after[r].len() && after[r][i].peer_id@ == id@ ==> after[r][i].address == from
            &&& x.peer_id@ != id@ ==> (i < buckets[r].len() && buckets[r][i] == x <==> i
                < after[r].len() && after[r][i] == x)
        }),
{
    let c = Contact { peer_id: id, address: from };
    let after = learned(own, buckets, from, Message::Pong { id });
    law_inserted_stays_placed(buckets, own, c);
    law_inserted_is_found(buckets, own, c);
    law_lookup_gives_what_is_held(after, own, id, c);
    if x.peer_id@ != id@ {
        law_insert_leaves_others_in_place(buckets, own, 0, c, x, r, i);
    }
    let (q, j) = choose|q: int, j: int|
        0 <= q < after.len() && 0 <= j < after[q].len() && #[trigger] after[q][j] == c;
    if i < after[r].len() && after[r][i].peer_id@ == id@ {
        law_one_contact_each(after, own, r, i, q, j);
    }
}

/// What a worker does about each kind of event: a reply to a message is sent
/// where it belongs, a message without one is waited after, and everything else
/// stops it.
pub proof fn law_step_on_each_event(
    own: PeerId,
    size: nat,
    before: Seq<Seq<Contact>>,
    event: Option<WorkerMessage>,
    action: WorkerAction,
    after: Seq<Seq<Contact>>,
)
    requires
        steps(own, size, before, event, action, after),
    ensures
        match event {
            None => action is Stop && after == before,
            Some(WorkerMessage::Quit) => action is Stop && after == before,
            Some(WorkerMessage::Incoming(addr, Message::Ping { id })) => {
                &&& action == WorkerAction::Send(addr, Message::Pong { id: own })
                &&& after == before
            },
            Some(WorkerMessage::Incoming(addr, Message::FindPeer { id })) => {
                &&& action matches WorkerAction::Send(to, reply)
                &&& to == addr
                &&& answers(own, before, size, addr, Message::FindPeer { id }, Some((to, reply)))
                &&& after == before
            },
            Some(WorkerMessage::Incoming(addr, Message::Pong { id })) => {
                &&& action is Wait
                &&& after == learned(own, before, addr, Message::Pong { id })
            },
            Some(WorkerMessage::Incoming(_, _)) => action is Wait && after == before,
        },
{
}

/// In a run there is one reply for each ping and each question about a peer,
/// among the messages before the end, in order and to the one who sent it.
pub proof fn law_run_replies_to_each_question(
    own: PeerId,
    size: nat,
    known: Seq<Seq<Seq<Contact>>>,
    events: Seq<Option<WorkerMessage>>,
    actions: Seq<WorkerAction>,
)
    requires
        runs(own, size, known, events, actions),
    ensures
        ({
            let asked = incoming(events).filter(
                |m: (SocketAddr, Message)| m.1 is Ping || m.1 is FindPeer,
            );
            &&& sent(actions).len() == asked.len()
            &&& forall|i: int|
                0 <= i < asked.len() ==> (#[trigger] sent(actions)[i]).0 == asked[i].0
        }),
{
    let q = |m: (SocketAddr, Message)| m.1 is Ping || m.1 is FindPeer;
    law_run_answers_in_order(own, size, known, events, actions);
    law_one_reply_for_each_question(own, known[0], size, incoming(events), sent(actions));
    assert(question() =~= q);
}

/// One more action sends one more message, or none.
pub proof fn law_sent_one_by_one(actions: Seq<WorkerAction>, action: WorkerAction)
    ensures
        sent(Seq::<WorkerAction>::empty()) == Seq::<(SocketAddr, Message)>::empty(),
        action matches WorkerAction::Send(to, msg) ==> sent(actions.push(action)) == sent(
            actions,
        ).push((to, msg)),
        !(action is Send) ==> sent(actions.push(action)) == sent(actions),
{
    assert(actions.push(action).drop_last() =~= actions);
}

/// One more event brings one more message, or none.
pub proof fn law_incoming_one_by_one(
    events: Seq<Option<WorkerMessage>>,
    event: Option<WorkerMessage>,
)
    ensures
        incoming(Seq::<Option<WorkerMessage>>::empty()) == Seq::<(SocketAddr, Message)>::empty(),
        match event {
            Some(WorkerMessage::Incoming(addr, msg)) => incoming(events.push(event)) == incoming(
                events,
            ).push((addr, msg)),
            _ => incoming(events.push(event)) == incoming(events),
        },
{
    assert(events.push(event).drop_last() =~= events);
}

/// What a worker does about a message, told by what goes in and comes out. It
/// answers a ping with its own identity. It tells whoever asks for a peer where
/// that is, if it holds a contact, in whichever bucket; otherwise it names the
/// closest that it holds, each peer once, all of them if no more than its size.
/// To everything else it says nothing.
pub proof fn law_worker_answers(
    state: &mut WorkerState,
    addr: SocketAddr,
    msg: Message,
    reply: Option<(SocketAddr, Message)>,
)
    requires
        old(state).wf(),
        call_ensures(WorkerState::handle_message, (state, addr, msg), reply),
    ensures
        ({
            let held = old(state).peer_map@;
            match msg {
                Message::Ping { id } => reply == Some(
                    (addr, Message::Pong { id: old(state).peer_id }),
                ),
                Message::FindPeer { id } => if exists|r: int, i: int|
                    0 <= r < held.len() && 0 <= i < held[r].len() && (
                    #[trigger] held[r][i]).peer_id@ == id@ {
                    &&& reply matches Some((to, Message::FindPeerResponsePeerFound {
                        id: about,
                        addr: at,
                    }))
                    &&& to == addr
                    &&& about == id
                    &&& exists|r: int, i: int|
                        0 <= r < held.len() && 0 <= i < held[r].len() && #[trigger] held[r][i]
                            == (Contact { peer_id: id, address: at })
                } else {
                    &&& reply matches Some((to, Message::FindPeerResponsePeerNotFound {
                        id: about,
                        neighbors,
                    }))
                &&& to == addr
                &&& about == id
                &&& neighbors@.len() <= old(state).peer_map.size()
                &&& forall|i: int, j: int|
                    0 <= i < j < neighbors@.len() ==> (#[trigger] neighbors@[i]).0@ != (
                    #[trigger] neighbors@[j]).0@
                &&& forall|n: (PeerId, SocketAddr)| #[trigger]
                    neighbors@.contains(n) ==> (exists|r: int, i: int|
                        0 <= r < held.len() && 0 <= i < held[r].len() && #[trigger] held[r][i] == (
                        Contact { peer_id: n.0, address: n.1 }))
                &&& forall|r: int, i: int|
                    0 <= r < held.len() && 0 <= i < held[r].len() && !neighbors@.contains(
                        ((#[trigger] held[r][i]).peer_id, held[r][i].address),
                    ) ==> neighbors@.len() == old(state).peer_map.size()
                &&& forall|r: int, i: int, k: int|
                    0 <= r < held.len() && 0 <= i < held[r].len() && !neighbors@.contains(
                        ((#[trigger] held[r][i]).peer_id, held[r][i].address),
                    ) && 0 <= k < neighbors@.len() ==> distance(
                        (#[trigger] neighbors@[k]).0@,
                        id@,
                    ) < distance(held[r][i].peer_id@, id@)
                },
                _ => reply is None,
            }
        }),
{
    let own = old(state).peer_id;
    let held = old(state).peer_map@;
    let size = old(state).peer_map.size();
    if let Message::FindPeer { id } = msg {
        if exists|r: int, i: int|
            0 <= r < held.len() && 0 <= i < held[r].len() && (#[trigger] held[r][i]).peer_id@
                == id@ {
            let (r, i) = choose|r: int, i: int|
                0 <= r < held.len() && 0 <= i < held[r].len() && (#[trigger] held[r][i]).peer_id@
                    == id@;
            law_known_peer_is_named(own, held, size, addr, id, reply, r, i);
            lemma_peer_id_view(id, held[r][i].peer_id);
            assert(held[r][i] == (Contact { peer_id: id, address: held[r][i].address }));
        } else {
            law_unknown_peer_gets_the_closest(own, held, size, addr, id, reply);
        }
    }
}

/// What a worker learns from a message, told by what goes in and comes out. A
/// pong tells it where its peer is: it holds a contact with that address
/// afterwards, and no other for that peer. Nothing else changes, and nothing
/// else teaches it anything.
pub proof fn law_worker_learns(
    state: &mut WorkerState,
    addr: SocketAddr,
    msg: Message,
    reply: Option<(SocketAddr, Message)>,
    x: Contact,
    r: int,
    i: int,
)
    requires
        old(state).wf(),
        call_ensures(WorkerState::handle_message, (state, addr, msg), reply),
        0 <= r < old(state).peer_map@.len(),
        0 <= i,
    ensures
        final(state).peer_id == old(state).peer_id,
        final(state).peer_map.size() == old(state).peer_map.size(),
        ({
            let before = old(state).peer_map@;
            let after = final(state).peer_map@;
            match msg {
                Message::Pong { id } => {
                    &&& after.len() == before.len()
                    &&& exists|q: int, j: int|
                        0 <= q < after.len() && 0 <= j < after[q].len() && #[trigger] after[q][j]
                            == (Contact { peer_id: id, address: addr })
                    &&& i < after[r].len() && after[r][i].peer_id@ == id@ ==> after[r][i].address
                        == addr
                    &&& x.peer_id@ != id@ ==> (i < before[r].len() && before[r][i] == x <==> i
                        < after[r].len() && after[r][i] == x)
                },
                _ => after == before,
            }
        }),
{
    if let Message::Pong { id } = msg {
        law_a_pong_teaches(old(state).peer_id, old(state).peer_map@, addr, id, x, r, i);
    }
}

/// A worker goes on exactly as long as messages come: it stops when it is told to
/// quit or when there can be no more, and then nothing has changed.
pub proof fn law_worker_stops_when_told(
    state: &mut WorkerState,
    event: Option<WorkerMessage>,
    action: WorkerAction,
)
    requires
        old(state).wf(),
        call_ensures(WorkerState::step, (state, event), action),
    ensures
        event is None ==> action is Stop,
        event == Some(WorkerMessage::Quit) ==> action is Stop,
        event matches Some(WorkerMessage::Incoming(..)) ==> !(action is Stop),
        action is Stop ==> *final(state) == *old(state),
        event matches Some(WorkerMessage::Incoming(addr, Message::Ping { id })) ==> action
            == WorkerAction::Send(addr, Message::Pong { id: old(state).peer_id }),
        event matches Some(WorkerMessage::Incoming(addr, Message::FindPeer { id })) ==> {
            &&& action matches WorkerAction::Send(to, reply)
            &&& to == addr
            &&& answers(
                old(state).peer_id,
                old(state).peer_map@,
                old(state).peer_map.size(),
                addr,
                Message::FindPeer { id },
                Some((to, reply)),
            )
        },
        event matches Some(WorkerMessage::Incoming(addr, Message::Pong { id })) ==> action is Wait,
{
}

} // verus!
