//! A peer that talks to others over streams.

use std::cmp::Ordering;
use vstd::prelude::*;

use crate::addr::SocketAddr;
use crate::buckets::{is_closest, known, lemma_same_members, total};
use crate::closest::{
    distance_to, law_nearest_is_closest, law_nearest_is_distinct, law_nearest_is_known,
    law_nearest_len, nearest, select_nearest,
};
use crate::distance::distance;
use crate::hash::{blake2s_digest, byte_less, Blake2Hash};
use crate::types::{lemma_byte_order, lemma_peer_id_view, Contact};

pub use crate::types::PeerId;

verus! {

/// The messages that peers send back and forth over streams.
#[derive(Clone, Debug, PartialEq, Eq)]
pub enum Message {
    Ping { id: PeerId },
    Pong { id: PeerId },
    FindPeer { id: PeerId },
    FindPeerResponsePeerFound { contact: ContactInfo },
    FindPeerResponsePeerNotFound { id: PeerId, neighbors: Vec<ContactInfo> },
}

/// The largest message that is read from a stream, in bytes.
pub const MAX_MESSAGE_SIZE: usize = 65536;

/// Contact info for a peer, mapping the `PeerId` to an IP address and port.
#[derive(Copy, Clone, Debug, PartialEq, Eq)]
pub struct ContactInfo {
    pub peer_id: PeerId,
    pub address: SocketAddr,
}

impl ContactInfo {
    /// Contact info is ordered by `peer_id`.
    pub fn cmp(&self, other: &Self) -> (r: Ordering)
        ensures
            r == Ordering::Less <==> byte_less(self.peer_id@, other.peer_id@),
            r == Ordering::Greater <==> byte_less(other.peer_id@, self.peer_id@),
            r == Ordering::Equal <==> self.peer_id@ == other.peer_id@,
    {
        proof {
            lemma_byte_order(self.peer_id, other.peer_id);
        }
        match self.peer_id.partial_cmp(&other.peer_id) {
            Some(order) => order,
            None => Ordering::Equal,
        }
    }
}

impl PartialOrd for ContactInfo {
    /// Contact info is ordered by `peer_id`.
    fn partial_cmp(&self, other: &Self) -> (r: Option<Ordering>) {
        self.peer_id.partial_cmp(&other.peer_id)
    }
}

impl vstd::std_specs::cmp::PartialOrdSpecImpl for ContactInfo {
    open spec fn obeys_partial_cmp_spec() -> bool {
        true
    }

    open spec fn partial_cmp_spec(&self, other: &Self) -> Option<Ordering> {
        if byte_less(self.peer_id@, other.peer_id@) {
            Some(Ordering::Less)
        } else if byte_less(other.peer_id@, self.peer_id@) {
            Some(Ordering::Greater)
        } else {
            Some(Ordering::Equal)
        }
    }
}

/// Whether one contact comes before another.
fn comes_before(a: &ContactInfo, b: &ContactInfo) -> (r: bool)
    ensures
        r == byte_less(a.peer_id@, b.peer_id@),
{
    a.peer_id < b.peer_id
}

/// Whether contacts are listed in order of identity, each peer once.
pub open spec fn in_order(peers: Seq<ContactInfo>) -> bool {
    forall|i: int, j: int|
        0 <= i < j < peers.len() ==> byte_less(
            #[trigger] peers[i].peer_id@,
            #[trigger] peers[j].peer_id@,
        )
}

/// The order of identities is transitive.
proof fn lemma_byte_less_transitive(a: Seq<u8>, b: Seq<u8>, c: Seq<u8>)
    requires
        a.len() == b.len() == c.len(),
        byte_less(a, b),
        byte_less(b, c),
    ensures
        byte_less(a, c),
{
    let i = choose|i: int|
        0 <= i < a.len() && #[trigger] a[i] < b[i] && (forall|j: int| 0 <= j < i ==> a[j] == b[j]);
    let k = choose|k: int|
        0 <= k < b.len() && #[trigger] b[k] < c[k] && (forall|j: int| 0 <= j < k ==> b[j] == c[j]);
    let m = if i < k {
        i
    } else {
        k
    };
    assert(a[m] < c[m]);
    assert forall|j: int| 0 <= j < m implies a[j] == c[j] by {
        assert(a[j] == b[j] && b[j] == c[j]);
    }
}

/// A "bucket" in the map, a collection of contacts.
#[derive(Debug)]
struct Bucket {
    /// The peers in the bucket.
    known_peers: Vec<ContactInfo>,
    /// The min and max address range of the bucket; it stores peers with IDs
    /// in the range of `[2^min,2^max)`.
    address_range: (u32, u32),
}

impl Bucket {
    fn new(bucket_size: usize, min_address: u32, max_address: u32) -> (r: Self)
        requires
            min_address < max_address,
        ensures
            r.known_peers@ == Seq::<ContactInfo>::empty(),
            r.address_range == (min_address, max_address),
    {
        Bucket {
            known_peers: Vec::with_capacity(bucket_size),
            address_range: (min_address, max_address),
        }
    }
}

/// The peer's view of the network: the contacts it knows, in one bucket and in
/// order.
#[derive(Debug)]
pub struct PeerMap {
    buckets: Vec<Bucket>,
    /// The number of peers that a bucket is made for.
    bucket_size: usize,
}

impl View for PeerMap {
    type V = Seq<ContactInfo>;

    /// The contacts in order.
    closed spec fn view(&self) -> Seq<ContactInfo> {
        self.buckets@[0].known_peers@
    }
}

/// Whether `after` lists what `before` does and `new_peer`, which replaces what
/// was known about that peer.
pub open spec fn has_learned(
    before: Seq<ContactInfo>,
    after: Seq<ContactInfo>,
    new_peer: ContactInfo,
) -> bool {
    &&& in_order(after)
    &&& forall|c: ContactInfo| #[trigger]
        after.contains(c) <==> c == new_peer || (before.contains(c) && c.peer_id@
            != new_peer.peer_id@)
}

/// What a list of contacts says about the peer with the given bytes.
pub open spec fn info_about(peers: Seq<ContactInfo>, id: Seq<u8>) -> Option<ContactInfo> {
    if exists|c: ContactInfo| #[trigger] peers.contains(c) && c.peer_id@ == id {
        Some(choose|c: ContactInfo| #[trigger] peers.contains(c) && c.peer_id@ == id)
    } else {
        None
    }
}

/// Contact info as contacts.
pub open spec fn as_contacts(peers: Seq<ContactInfo>) -> Seq<Contact> {
    peers.map_values(|p: ContactInfo| Contact { peer_id: p.peer_id, address: p.address })
}

/// Whether `found` lists the `count` of `peers` that are closest to `id`, or all
/// of them if there are fewer, each once.
pub open spec fn lists_closest(
    peers: Seq<ContactInfo>,
    id: Seq<u8>,
    count: nat,
    found: Seq<ContactInfo>,
) -> bool {
    is_closest(seq![as_contacts(peers)], id, count, as_contacts(found))
}

impl PeerMap {
    /// How many peers are named in place of one that is not known.
    pub closed spec fn size(&self) -> nat {
        self.bucket_size as nat
    }

    /// Whether there is one bucket, for all addresses, and it is in order.
    pub closed spec fn laid_out(&self) -> bool {
        self.buckets@.len() == 1 && self.buckets@[0].address_range == (0u32, 256u32)
    }

    /// Whether the map is in order.
    pub open spec fn wf(&self) -> bool {
        self.laid_out() && in_order(self@)
    }

    /// An empty map.
    pub fn new() -> (r: Self)
        ensures
            r.wf(),
            r.size() == 8,
            r@ == Seq::<ContactInfo>::empty(),
    {
        let bucket_size: usize = 8;
        let initial_bucket = Bucket::new(bucket_size, 0, Blake2Hash::max_power() as u32);
        let mut buckets: Vec<Bucket> = Vec::new();
        buckets.push(initial_bucket);
        PeerMap { buckets, bucket_size }
    }

    /// Inserts a new peer into the map. A peer that is known already is
    /// replaced.
    pub fn insert(&mut self, new_peer: ContactInfo)
        requires
            old(self).wf(),
        ensures
            final(self).wf(),
            final(self).size() == old(self).size(),
            has_learned(old(self)@, final(self)@, new_peer),
    {
        let ghost before = self@;
        let ghost id = new_peer.peer_id@;
        let mut i: usize = 0;
        while i < self.buckets[0].known_peers.len() && comes_before(
            &self.buckets[0].known_peers[i],
            &new_peer,
        )
            invariant
                *self == *old(self),
                self.wf(),
                before == self@,
                id == new_peer.peer_id@,
                i <= before.len(),
                forall|j: int| 0 <= j < i ==> byte_less(#[trigger] before[j].peer_id@, id),
            decreases before.len() - i,
        {
            i += 1;
        }
        proof {
            if i < before.len() {
                lemma_byte_order(before[i as int].peer_id, new_peer.peer_id);
            }
        }
        if i < self.buckets[0].known_peers.len() && self.buckets[0].known_peers[i].peer_id
            == new_peer.peer_id {
            self.buckets[0].known_peers[i] = new_peer;
            proof {
                lemma_replaced(before, i as int, new_peer);
            }
        } else {
            self.buckets[0].known_peers.insert(i, new_peer);
            proof {
                lemma_put_between(before, i as int, new_peer);
            }
        }
    }

    /// Looks up the given peer. If we know about it, returns what we know,
    /// otherwise the closest peers that we know, in order of identity.
    pub fn lookup(&self, peer_id: PeerId) -> (r: Result<ContactInfo, Vec<ContactInfo>>)
        requires
            self.wf(),
        ensures
            match info_about(self@, peer_id@) {
                Some(c) => r == Ok::<ContactInfo, Vec<ContactInfo>>(c),
                None => r matches Err(found) && {
                    &&& as_contacts(found@) == nearest(
                        as_contacts(self@),
                        peer_id@,
                        self.size(),
                    )
                    &&& lists_closest(self@, peer_id@, self.size(), found@)
                },
            },
    {
        let ghost peers = self@;
        let mut contacts: Vec<Contact> = Vec::new();
        let mut i: usize = 0;
        while i < self.buckets[0].known_peers.len()
            invariant
                self.wf(),
                peers == self@,
                i <= peers.len(),
                contacts@ == as_contacts(peers.take(i as int)),
                forall|j: int| 0 <= j < i ==> #[trigger] peers[j].peer_id@ != peer_id@,
            decreases peers.len() - i,
        {
            let c = self.buckets[0].known_peers[i];
            if c.peer_id == peer_id {
                proof {
                    lemma_info_about(peers, i as int);
                }
                return Ok(c);
            }
            contacts.push(Contact { peer_id: c.peer_id, address: c.address });
            i += 1;
            assert(contacts@ =~= as_contacts(peers.take(i as int)));
        }
        assert(peers.take(i as int) =~= peers);
        let closest = select_nearest(&contacts, &peer_id, self.bucket_size);
        let mut found: Vec<ContactInfo> = Vec::new();
        let mut i: usize = 0;
        while i < closest.len()
            invariant
                i <= closest@.len(),
                as_contacts(found@) == closest@.take(i as int),
            decreases closest@.len() - i,
        {
            let c = closest[i];
            let ghost before = found@;
            found.push(ContactInfo { peer_id: c.peer_id, address: c.address });
            i += 1;
            assert(as_contacts(found@) =~= as_contacts(before).push(c));
            assert(closest@.take(i as int) =~= closest@.take(i - 1).push(c));
        }
        assert(closest@.take(i as int) =~= closest@);
        proof {
            lemma_nearest_lists_closest(peers, peer_id, self.size());
        }
        Err(found)
    }
}

/// What an ordered list says about a peer is what stands there.
proof fn lemma_info_about(peers: Seq<ContactInfo>, i: int)
    requires
        in_order(peers),
        0 <= i < peers.len(),
    ensures
        info_about(peers, peers[i].peer_id@) == Some(peers[i]),
{
    let id = peers[i].peer_id@;
    assert(peers.contains(peers[i]));
    let c = choose|c: ContactInfo| #[trigger] peers.contains(c) && c.peer_id@ == id;
    let j = choose|j: int| 0 <= j < peers.len() && peers[j] == c;
    if i != j {
        lemma_in_order_distinct(peers, i, j);
    }
}

/// The nearest of an ordered list are the closest that are known.
proof fn lemma_nearest_lists_closest(peers: Seq<ContactInfo>, id: PeerId, count: nat)
    requires
        in_order(peers),
    ensures
        is_closest(
            seq![as_contacts(peers)],
            id@,
            count,
            nearest(as_contacts(peers), id@, count),
        ),
{
    let all = as_contacts(peers);
    let buckets = seq![all];
    let found = nearest(all, id@, count);
    assert forall|i: int, j: int| 0 <= i < j < all.len() implies #[trigger] all[i].peer_id@
        != #[trigger] all[j].peer_id@ by {
        lemma_in_order_distinct(peers, i, j);
    }
    law_nearest_len(all, id, count);
    law_nearest_is_distinct(all, id@, count);
    assert(buckets.drop_last().len() == 0);
    assert(total(buckets.drop_last()) == 0);
    assert(total(buckets) == all.len());
    assert forall|x: Contact| #[trigger] found.contains(x) implies known(buckets, x) by {
        law_nearest_is_known(all, id@, count, x);
        let i = choose|i: int| 0 <= i < all.len() && all[i] == x;
        assert(buckets[0][i] == x);
    }
    assert forall|x: Contact, y: Contact|
        #[trigger] found.contains(x) && #[trigger] known(buckets, y) && !found.contains(
            y,
        ) implies distance_to(x, id@) < distance_to(y, id@) by {
        let (b, i) = choose|b: int, i: int|
            0 <= b < buckets.len() && 0 <= i < buckets[b].len() && #[trigger] buckets[b][i] == y;
        assert(all[i] == y);
        law_nearest_is_closest(all, id, count, x, y);
    }
}

proof fn lemma_replaced(before: Seq<ContactInfo>, i: int, new_peer: ContactInfo)
    requires
        in_order(before),
        0 <= i < before.len(),
        before[i].peer_id@ == new_peer.peer_id@,
    ensures
        has_learned(before, before.update(i, new_peer), new_peer),
{
    let after = before.update(i, new_peer);
    assert forall|j: int, k: int| 0 <= j < k < after.len() implies byte_less(
        #[trigger] after[j].peer_id@,
        #[trigger] after[k].peer_id@,
    ) by {
        assert(byte_less(before[j].peer_id@, before[k].peer_id@));
    }
    assert forall|c: ContactInfo| #[trigger]
        after.contains(c) <==> c == new_peer || (before.contains(c) && c.peer_id@
            != new_peer.peer_id@) by {
        if after.contains(c) && c != new_peer {
            let j = choose|j: int| 0 <= j < after.len() && after[j] == c;
            assert(before[j] == c);
            lemma_in_order_distinct(before, i, j);
        }
        if c == new_peer {
            assert(after[i] == c);
        } else if before.contains(c) && c.peer_id@ != new_peer.peer_id@ {
            let j = choose|j: int| 0 <= j < before.len() && before[j] == c;
            assert(after[j] == c);
        }
    }
}

proof fn lemma_in_order_distinct(peers: Seq<ContactInfo>, i: int, j: int)
    requires
        in_order(peers),
        0 <= i < peers.len(),
        0 <= j < peers.len(),
        i != j,
    ensures
        peers[i].peer_id@ != peers[j].peer_id@,
{
    lemma_byte_order(peers[i].peer_id, peers[j].peer_id);
    if i < j {
        assert(byte_less(peers[i].peer_id@, peers[j].peer_id@));
    } else {
        assert(byte_less(peers[j].peer_id@, peers[i].peer_id@));
    }
}

proof fn lemma_put_between(before: Seq<ContactInfo>, i: int, new_peer: ContactInfo)
    requires
        in_order(before),
        0 <= i <= before.len(),
        forall|j: int|
            0 <= j < i ==> byte_less(#[trigger] before[j].peer_id@, new_peer.peer_id@),
        i < before.len() ==> byte_less(new_peer.peer_id@, before[i].peer_id@),
    ensures
        has_learned(before, before.insert(i, new_peer), new_peer),
{
    let id = new_peer.peer_id@;
    let after = before.insert(i, new_peer);
    assert forall|j: int| i <= j < before.len() implies byte_less(
        id,
        #[trigger] before[j].peer_id@,
    ) by {
        if i < j {
            assert(byte_less(before[i].peer_id@, before[j].peer_id@));
            lemma_peer_id_view(new_peer.peer_id, before[i].peer_id);
            lemma_peer_id_view(before[i].peer_id, before[j].peer_id);
            lemma_peer_id_view(before[j].peer_id, before[j].peer_id);
            lemma_byte_less_transitive(id, before[i].peer_id@, before[j].peer_id@);
        }
    }
    assert forall|j: int, k: int| 0 <= j < k < after.len() implies byte_less(
        #[trigger] after[j].peer_id@,
        #[trigger] after[k].peer_id@,
    ) by {
        let p = if j < i {
            j
        } else {
            j - 1
        };
        let q = if k < i {
            k
        } else {
            k - 1
        };
        if j != i && k != i {
            assert(after[j] == before[p] && after[k] == before[q]);
            assert(byte_less(before[p].peer_id@, before[q].peer_id@));
        } else if j == i {
            assert(after[k] == before[q]);
        } else {
            assert(after[j] == before[p]);
        }
    }
    assert forall|c: ContactInfo| #[trigger]
        after.contains(c) <==> c == new_peer || (before.contains(c) && c.peer_id@
            != new_peer.peer_id@) by {
        if after.contains(c) && c != new_peer {
            let j = choose|j: int| 0 <= j < after.len() && after[j] == c;
            let p = if j < i {
                j
            } else {
                j - 1
            };
            assert(before[p] == c);
            lemma_byte_order(before[p].peer_id, new_peer.peer_id);
            assert(before[p].peer_id@ != id);
        }
        if c == new_peer {
            assert(after[i] == c);
        } else if before.contains(c) {
            let p = choose|p: int| 0 <= p < before.len() && before[p] == c;
            let j = if p < i {
                p
            } else {
                p + 1
            };
            assert(after[j] == c);
        }
    }
}

/// All parts of the peer state that can be shared.
#[derive(Debug)]
pub struct PeerSharedState {
    pub id: PeerId,
    pub peermap: PeerMap,
}

/// What a peer that is `own`, and knows `peers` and names up to `size` of them,
/// sends on, and to whom, when it gets a message.
pub open spec fn sends(
    own: PeerId,
    peers: Seq<ContactInfo>,
    size: nat,
    msg: Message,
    out: Seq<(PeerId, Message)>,
) -> bool {
    match msg {
        // A ping is answered with our own identity.
        Message::Ping { id } => out == seq![(id, Message::Pong { id: own })],
        Message::Pong { id } => out == Seq::<(PeerId, Message)>::empty(),
        // If we know about that peer, send it back, else the closest that we know.
        Message::FindPeer { id } => match info_about(peers, id@) {
            Some(contact) => out == seq![(id, Message::FindPeerResponsePeerFound { contact })],
            None => {
                &&& out.len() == 1
                &&& out[0].0 == id
                &&& out[0].1 matches Message::FindPeerResponsePeerNotFound { id: about, neighbors }
                &&& about == id
                &&& as_contacts(neighbors@) == nearest(as_contacts(peers), id@, size)
                &&& lists_closest(peers, id@, size, neighbors@)
            },
        },
        // Ping the contact to see if it's legit.
        Message::FindPeerResponsePeerFound { contact } => out == seq![
            (contact.peer_id, Message::Ping { id: own }),
        ],
        // Ask each of those that are closer.
        Message::FindPeerResponsePeerNotFound { id, neighbors } => out == neighbors@.map_values(
            |n: ContactInfo| (n.peer_id, Message::FindPeer { id }),
        ),
    }
}

impl PeerSharedState {
    /// The state that a peer starts with. Its identity is the hash of 64 zero
    /// bytes.
    pub fn new() -> (r: Self)
        ensures
            r.peermap.wf(),
            r.peermap@ == Seq::<ContactInfo>::empty(),
            r.peermap.size() == 8,
            r.id@ == blake2s_digest(Seq::new(64, |i: int| 0u8)),
    {
        let id_seed: [u8; 64] = [0u8; 64];
        assert(id_seed@ =~= Seq::new(64, |i: int| 0u8));
        PeerSharedState { id: PeerId::new(id_seed.as_slice()), peermap: PeerMap::new() }
    }

    /// Learns from a message that came from `addr`, and returns what to send on
    /// and to whom, in order.
    pub fn handle_message_from(&mut self, addr: SocketAddr, msg: &Message) -> (r: Vec<
        (PeerId, Message),
    >)
        requires
            old(self).peermap.wf(),
        ensures
            final(self).peermap.wf(),
            final(self).id == old(self).id,
            final(self).peermap.size() == old(self).peermap.size(),
            sends(old(self).id, old(self).peermap@, old(self).peermap.size(), *msg, r@),
            match *msg {
                Message::Pong { id } => has_learned(
                    old(self).peermap@,
                    final(self).peermap@,
                    ContactInfo { peer_id: id, address: addr },
                ),
                _ => final(self).peermap == old(self).peermap,
            },
    {
        let mut out: Vec<(PeerId, Message)> = Vec::new();
        match msg {
            Message::Ping { id } => {
                out.push((*id, Message::Pong { id: self.id }));
            },
            Message::Pong { id } => {
                self.peermap.insert(ContactInfo { peer_id: *id, address: addr });
            },
            Message::FindPeer { id } => {
                let resp = match self.peermap.lookup(*id) {
                    Ok(contact) => Message::FindPeerResponsePeerFound { contact },
                    Err(neighbors) => Message::FindPeerResponsePeerNotFound { id: *id, neighbors },
                };
                out.push((*id, resp));
            },
            Message::FindPeerResponsePeerFound { contact } => {
                out.push((contact.peer_id, Message::Ping { id: self.id }));
            },
            Message::FindPeerResponsePeerNotFound { id, neighbors } => {
                let ghost f = |n: ContactInfo| (n.peer_id, Message::FindPeer { id: *id });
                let mut i: usize = 0;
                assert(out@ =~= neighbors@.take(0).map_values(f));
                while i < neighbors.len()
                    invariant
                        *self == *old(self),
                        f == (|n: ContactInfo| (n.peer_id, Message::FindPeer { id: *id })),
                        i <= neighbors@.len(),
                        out@ == neighbors@.take(i as int).map_values(f),
                    decreases neighbors@.len() - i,
                {
                    out.push((neighbors[i].peer_id, Message::FindPeer { id: *id }));
                    i += 1;
                    assert(out@ =~= neighbors@.take(i as int).map_values(f));
                }
                assert(neighbors@.take(i as int) =~= neighbors@);
            },
        }
        out
    }

    /// Learns from what was read from a stream that came from `addr`, `None` if
    /// that was no message, and returns the reply to it, if any.
    pub fn receive_message(&mut self, addr: SocketAddr, received: Option<Message>) -> (r: Option<
        Message,
    >)
        requires
            old(self).peermap.wf(),
        ensures
            final(self).peermap.wf(),
            final(self).id == old(self).id,
            final(self).peermap.size() == old(self).peermap.size(),
            r == (match received {
                Some(Message::Ping { .. }) => Some(Message::Pong { id: old(self).id }),
                _ => None,
            }),
            match received {
                Some(Message::Pong { id }) => has_learned(
                    old(self).peermap@,
                    final(self).peermap@,
                    ContactInfo { peer_id: id, address: addr },
                ),
                _ => final(self).peermap == old(self).peermap,
            },
    {
        if let Some(Message::Pong { id }) = &received {
            self.peermap.insert(ContactInfo { peer_id: *id, address: addr });
        }
        reply_to(self.id, received)
    }

    /// What is said to a peer when a connection to it is made.
    pub fn greeting(&self) -> (r: Message)
        ensures
            r == (Message::Ping { id: self.id }),
    {
        Message::Ping { id: self.id }
    }
}

/// The reply of the peer `own` to what was read from a stream: a ping is
/// answered with our own identity. Nothing is said to other messages, nor to
/// bytes that are no message.
pub fn reply_to(own: PeerId, received: Option<Message>) -> (r: Option<Message>)
    ensures
        r == (match received {
            Some(Message::Ping { .. }) => Some(Message::Pong { id: own }),
            _ => None,
        }),
{
    match received {
        Some(Message::Ping { .. }) => Some(Message::Pong { id: own }),
        _ => None,
    }
}

/// A peer that has answered a ping can be found: after its pong, it is sent to
/// whoever asks for it, with the address that the pong came from.
pub proof fn law_pong_is_remembered(
    own: PeerId,
    before: Seq<ContactInfo>,
    after: Seq<ContactInfo>,
    size: nat,
    id: PeerId,
    address: SocketAddr,
    out: Seq<(PeerId, Message)>,
)
    requires
        has_learned(before, after, ContactInfo { peer_id: id, address }),
        sends(own, after, size, Message::FindPeer { id }, out),
    ensures
        out == seq![
            (
                id,
                Message::FindPeerResponsePeerFound {
                    contact: ContactInfo { peer_id: id, address },
                },
            ),
        ],
{
    let new_peer = ContactInfo { peer_id: id, address };
    assert(after.contains(new_peer));
    let i = choose|i: int| 0 <= i < after.len() && after[i] == new_peer;
    lemma_info_about(after, i);
}

/// What is known about one peer does not change when another is learned.
pub proof fn law_learning_keeps_others(
    before: Seq<ContactInfo>,
    after: Seq<ContactInfo>,
    new_peer: ContactInfo,
    id: PeerId,
)
    requires
        in_order(before),
        has_learned(before, after, new_peer),
        id@ != new_peer.peer_id@,
    ensures
        info_about(after, id@) == info_about(before, id@),
{
    if let Some(c) = info_about(before, id@) {
        assert(before.contains(c) && c.peer_id@ == id@);
        assert(after.contains(c));
        let i = choose|i: int| 0 <= i < after.len() && after[i] == c;
        lemma_info_about(after, i);
    }
    if let Some(c) = info_about(after, id@) {
        assert(after.contains(c) && c.peer_id@ == id@);
        assert(before.contains(c));
    }
}

/// No duplicates: after a peer was learned, it is listed once, with what was
/// learned.
pub proof fn law_learned_replaces(
    before: Seq<ContactInfo>,
    after: Seq<ContactInfo>,
    new_peer: ContactInfo,
    c: ContactInfo,
)
    requires
        has_learned(before, after, new_peer),
        after.contains(c),
        c.peer_id@ == new_peer.peer_id@,
    ensures
        c == new_peer,
{
}

/// What a peer knows after it has learned something is fixed.
pub proof fn law_learned_is_unique(
    before: Seq<ContactInfo>,
    a: Seq<ContactInfo>,
    b: Seq<ContactInfo>,
    new_peer: ContactInfo,
)
    requires
        has_learned(before, a, new_peer),
        has_learned(before, b, new_peer),
    ensures
        a == b,
{
    assert forall|c: ContactInfo| a.contains(c) == b.contains(c) by {}
    lemma_in_order_unique(a, b);
}

/// Two ordered lists with the same members are the same.
proof fn lemma_in_order_unique(a: Seq<ContactInfo>, b: Seq<ContactInfo>)
    requires
        in_order(a),
        in_order(b),
        forall|c: ContactInfo| #[trigger] a.contains(c) == b.contains(c),
    ensures
        a == b,
    decreases a.len(),
{
    if a.len() == 0 {
        if b.len() > 0 {
            assert(b.contains(b[0]));
            assert(a.contains(b[0]));
        }
        assert(a =~= b);
    } else {
        let x = a.last();
        let m = a.len() - 1;
        assert(a.contains(a[m]));
        assert(b.contains(x));
        let n = b.len() - 1;
        let y = b[n];
        assert(b.contains(y));
        assert(a.contains(y));
        let i = choose|i: int| 0 <= i < a.len() && a[i] == y;
        let j = choose|j: int| 0 <= j < b.len() && b[j] == x;
        if i < m && j < n {
            assert(byte_less(a[i].peer_id@, a[m].peer_id@));
            assert(byte_less(b[j].peer_id@, b[n].peer_id@));
            lemma_byte_order(x.peer_id, y.peer_id);
        }
        assert(x == y);
        let ra = a.drop_last();
        let rb = b.drop_last();
        assert forall|c: ContactInfo| #[trigger] ra.contains(c) == rb.contains(c) by {
            lemma_without_last(a, c);
            lemma_without_last(b, c);
            assert(a.contains(c) == b.contains(c));
        }
        lemma_in_order_unique(ra, rb);
        assert(a =~= ra.push(x));
        assert(b =~= rb.push(y));
    }
}

proof fn lemma_without_last(a: Seq<ContactInfo>, c: ContactInfo)
    requires
        in_order(a),
        a.len() > 0,
    ensures
        in_order(a.drop_last()),
        a.drop_last().contains(c) <==> a.contains(c) && c != a.last(),
{
    let r = a.drop_last();
    assert forall|j: int, k: int| 0 <= j < k < r.len() implies byte_less(
        #[trigger] r[j].peer_id@,
        #[trigger] r[k].peer_id@,
    ) by {
        assert(byte_less(a[j].peer_id@, a[k].peer_id@));
    }
    if r.contains(c) {
        let i = choose|i: int| 0 <= i < r.len() && r[i] == c;
        assert(a[i] == c);
        lemma_in_order_distinct(a, i, a.len() - 1);
    }
    if a.contains(c) && c != a.last() {
        let i = choose|i: int| 0 <= i < a.len() && a[i] == c;
        assert(r[i] == c);
    }
}

/// A ping is answered with our own identity, to the one who pinged, whatever we
/// know; nothing else is sent.
pub proof fn law_ping_is_answered_with_own_identity(
    own: PeerId,
    peers: Seq<ContactInfo>,
    size: nat,
    id: PeerId,
    out: Seq<(PeerId, Message)>,
)
    requires
        sends(own, peers, size, Message::Ping { id }, out),
    ensures
        out.len() == 1,
        out[0].0 == id,
        out[0].1 == (Message::Pong { id: own }),
{
}

/// Nothing is sent after a pong.
pub proof fn law_pong_gets_no_reply(
    own: PeerId,
    peers: Seq<ContactInfo>,
    size: nat,
    id: PeerId,
    out: Seq<(PeerId, Message)>,
)
    requires
        sends(own, peers, size, Message::Pong { id }, out),
    ensures
        out.len() == 0,
{
}

/// A contact that was found is pinged, with our own identity, and nobody else.
pub proof fn law_found_contact_is_pinged(
    own: PeerId,
    peers: Seq<ContactInfo>,
    size: nat,
    contact: ContactInfo,
    out: Seq<(PeerId, Message)>,
)
    requires
        sends(own, peers, size, Message::FindPeerResponsePeerFound { contact }, out),
    ensures
        out.len() == 1,
        out[0].0 == contact.peer_id,
        out[0].1 == (Message::Ping { id: own }),
{
}

/// A search goes on with every neighbor that was named: each is asked, in order,
/// for the peer that is searched for, and nobody else is.
pub proof fn law_every_neighbor_is_asked(
    own: PeerId,
    peers: Seq<ContactInfo>,
    size: nat,
    id: PeerId,
    neighbors: Vec<ContactInfo>,
    out: Seq<(PeerId, Message)>,
)
    requires
        sends(own, peers, size, Message::FindPeerResponsePeerNotFound { id, neighbors }, out),
    ensures
        out.len() == neighbors@.len(),
        forall|i: int|
            0 <= i < neighbors@.len() ==> (#[trigger] out[i]).0 == neighbors@[i].peer_id && out[i].1
                == (Message::FindPeer { id }),
{
}

/// Whoever asks for a peer that is listed is sent what is listed.
pub proof fn law_known_peer_is_sent_back(
    own: PeerId,
    peers: Seq<ContactInfo>,
    size: nat,
    id: PeerId,
    out: Seq<(PeerId, Message)>,
    i: int,
)
    requires
        in_order(peers),
        0 <= i < peers.len(),
        peers[i].peer_id@ == id@,
        sends(own, peers, size, Message::FindPeer { id }, out),
    ensures
        out.len() == 1,
        out[0].0 == id,
        out[0].1 == (Message::FindPeerResponsePeerFound { contact: peers[i] }),
{
    lemma_info_about(peers, i);
}

/// Whoever asks for a peer that is not listed is sent the closest that are: no
/// peer twice, only what is listed, and no more than `size`. What is listed and
/// not sent is farther from the peer, by the XOR of their bytes, than all that
/// is sent, and then `size` of them are.
pub proof fn law_unknown_peer_gets_the_closest(
    own: PeerId,
    peers: Seq<ContactInfo>,
    size: nat,
    id: PeerId,
    out: Seq<(PeerId, Message)>,
)
    requires
        in_order(peers),
        forall|i: int| 0 <= i < peers.len() ==> (#[trigger] peers[i]).peer_id@ != id@,
        sends(own, peers, size, Message::FindPeer { id }, out),
    ensures
        out.len() == 1,
        out[0].0 == id,
        out[0].1 matches Message::FindPeerResponsePeerNotFound { id: about, neighbors } && {
            &&& about == id
            &&& neighbors@.len() <= size
            &&& forall|i: int, j: int|
                0 <= i < j < neighbors@.len() ==> (#[trigger] neighbors@[i]).peer_id@ != (
                #[trigger] neighbors@[j]).peer_id@
            &&& forall|n: ContactInfo| #[trigger] neighbors@.contains(n) ==> peers.contains(n)
            &&& forall|i: int|
                0 <= i < peers.len() && !neighbors@.contains(#[trigger] peers[i])
                    ==> neighbors@.len() == size
            &&& forall|i: int, k: int|
                0 <= i < peers.len() && !neighbors@.contains(#[trigger] peers[i]) && 0 <= k
                    < neighbors@.len() ==> distance((#[trigger] neighbors@[k]).peer_id@, id@)
                    < distance(peers[i].peer_id@, id@)
        },
{
    if let Some(c) = info_about(peers, id@) {
        assert(peers.contains(c) && c.peer_id@ == id@);
        let i = choose|i: int| 0 <= i < peers.len() && peers[i] == c;
        assert(peers[i].peer_id@ != id@);
    }
    if let Message::FindPeerResponsePeerNotFound { id: about, neighbors } = out[0].1 {
        let all = as_contacts(peers);
        let buckets = seq![all];
        let found = as_contacts(neighbors@);
        assert(buckets.drop_last().len() == 0);
        assert(total(buckets.drop_last()) == 0);
        assert(total(buckets) == all.len());
        assert forall|i: int, j: int| 0 <= i < j < neighbors@.len() implies (
        #[trigger] neighbors@[i]).peer_id@ != (#[trigger] neighbors@[j]).peer_id@ by {
            assert(found[i].peer_id@ != found[j].peer_id@);
        }
        assert forall|n: ContactInfo| #[trigger] neighbors@.contains(n) implies peers.contains(
            n,
        ) by {
            let k = choose|k: int| 0 <= k < neighbors@.len() && neighbors@[k] == n;
            let c = found[k];
            assert(found.contains(c));
            assert(known(buckets, c));
            let (b, j) = choose|b: int, j: int|
                0 <= b < buckets.len() && 0 <= j < buckets[b].len() && #[trigger] buckets[b][j]
                    == c;
            assert(all[j] == c);
            assert(peers[j] == n);
        }
        assert forall|i: int|
            0 <= i < peers.len() && !neighbors@.contains(
                #[trigger] peers[i],
            ) implies !found.contains(all[i]) && known(buckets, all[i]) by {
            assert(buckets[0][i] == all[i]);
            if found.contains(all[i]) {
                let k = choose|k: int| 0 <= k < found.len() && found[k] == all[i];
                assert(neighbors@[k] == peers[i]);
            }
        }
        assert forall|i: int, k: int|
            0 <= i < peers.len() && !neighbors@.contains(#[trigger] peers[i]) && 0 <= k
                < neighbors@.len() implies distance((#[trigger] neighbors@[k]).peer_id@, id@)
            < distance(peers[i].peer_id@, id@) by {
            assert(!found.contains(all[i]) && known(buckets, all[i]));
            assert(found.contains(found[k]));
            assert(distance_to(found[k], id@) < distance_to(all[i], id@));
        }
        assert forall|i: int|
            0 <= i < peers.len() && !neighbors@.contains(
                #[trigger] peers[i],
            ) implies neighbors@.len() == size by {
            assert(!found.contains(all[i]));
            if found.len() != size {
                assert forall|a: int, b: int|
                    0 <= a < b < all.len() implies #[trigger] all[a].peer_id@
                    != #[trigger] all[b].peer_id@ by {
                    lemma_in_order_distinct(peers, a, b);
                }
                assert forall|x: Contact| found.contains(x) implies all.contains(x) by {
                    assert(known(buckets, x));
                    let (b, j) = choose|b: int, j: int|
                        0 <= b < buckets.len() && 0 <= j < buckets[b].len()
                            && #[trigger] buckets[b][j] == x;
                    assert(all[j] == x);
                }
                lemma_same_members(all, found);
                assert(all.contains(all[i]));
            }
        }
    }
}

/// Learning a contact: afterwards it is listed, in place of what was listed for
/// its peer, and all others are listed as before.
pub proof fn law_learning_lists_the_contact(
    before: Seq<ContactInfo>,
    after: Seq<ContactInfo>,
    new_peer: ContactInfo,
    c: ContactInfo,
)
    requires
        has_learned(before, after, new_peer),
    ensures
        after.contains(new_peer),
        c.peer_id@ == new_peer.peer_id@ && after.contains(c) ==> c == new_peer,
        c.peer_id@ != new_peer.peer_id@ ==> (after.contains(c) <==> before.contains(c)),
{
}

/// What is learned is listed in order of identity: of two that are listed, the
/// first is less in the first byte in which they differ.
pub proof fn law_learning_keeps_order(
    before: Seq<ContactInfo>,
    after: Seq<ContactInfo>,
    new_peer: ContactInfo,
    i: int,
    j: int,
) -> (k: int)
    requires
        has_learned(before, after, new_peer),
        0 <= i < j < after.len(),
    ensures
        0 <= k < after[i].peer_id@.len(),
        after[i].peer_id@[k] < after[j].peer_id@[k],
        forall|l: int| 0 <= l < k ==> after[i].peer_id@[l] == after[j].peer_id@[l],
{
    let a = after[i].peer_id@;
    let b = after[j].peer_id@;
    assert(byte_less(a, b));
    choose|k: int|
        0 <= k < a.len() && #[trigger] a[k] < b[k] && (forall|l: int| 0 <= l < k ==> a[l] == b[l])
}

/// Whoever pings over a stream gets our own identity back, whoever it is, and to
/// nothing else is anything said.
pub proof fn law_stream_ping_is_answered_with_own_identity(
    own: PeerId,
    received: Option<Message>,
    r: Option<Message>,
)
    requires
        call_ensures(reply_to, (own, received), r),
    ensures
        received matches Some(Message::Ping { id }) ==> r == Some(Message::Pong { id: own }),
        !(received matches Some(Message::Ping { .. })) ==> r is None,
{
}

/// A map gives what it lists for a peer, and no contact for one that it does not
/// list.
pub proof fn law_lookup_gives_what_is_listed(
    map: PeerMap,
    id: PeerId,
    r: Result<ContactInfo, Vec<ContactInfo>>,
    i: int,
)
    requires
        map.wf(),
        call_ensures(PeerMap::lookup, (&map, id), r),
    ensures
        0 <= i < map@.len() && map@[i].peer_id@ == id@ ==> r == Ok::<
            ContactInfo,
            Vec<ContactInfo>,
        >(map@[i]),
        r matches Ok(c) ==> map@.contains(c) && c.peer_id@ == id@,
{
    if 0 <= i < map@.len() {
        lemma_info_about(map@, i);
    }
    if let Some(c) = info_about(map@, id@) {
        assert(map@.contains(c) && c.peer_id@ == id@);
    }
}

/// What a peer does about a message, told by what goes in and comes out. It
/// answers a ping with its own identity, says nothing to a pong, pings whoever
/// was found, and asks every neighbor that was named, in order.
pub proof fn law_peer_sends_on(
    state: &mut PeerSharedState,
    addr: SocketAddr,
    msg: Message,
    out: Vec<(PeerId, Message)>,
)
    requires
        old(state).peermap.wf(),
        call_ensures(PeerSharedState::handle_message_from, (state, addr, &msg), out),
    ensures
        match msg {
            Message::Ping { id } => {
                &&& out@.len() == 1
                &&& out@[0].0 == id
                &&& out@[0].1 == (Message::Pong { id: old(state).id })
            },
            Message::Pong { id } => out@.len() == 0,
            Message::FindPeer { id } => out@.len() == 1 && out@[0].0 == id,
            Message::FindPeerResponsePeerFound { contact } => {
                &&& out@.len() == 1
                &&& out@[0].0 == contact.peer_id
                &&& out@[0].1 == (Message::Ping { id: old(state).id })
            },
            Message::FindPeerResponsePeerNotFound { id, neighbors } => {
                &&& out@.len() == neighbors@.len()
                &&& forall|i: int|
                    0 <= i < neighbors@.len() ==> (#[trigger] out@[i]).0 == neighbors@[i].peer_id
                        && out@[i].1 == (Message::FindPeer { id })
            },
        },
{
}

/// What a peer says to whoever asks for another, told by what goes in and comes
/// out: what it lists for that peer, or the closest that it lists, each once,
/// all of them if no more than its size.
pub proof fn law_peer_answers_questions(
    state: &mut PeerSharedState,
    addr: SocketAddr,
    id: PeerId,
    out: Vec<(PeerId, Message)>,
)
    requires
        old(state).peermap.wf(),
        call_ensures(
            PeerSharedState::handle_message_from,
            (state, addr, &Message::FindPeer { id }),
            out,
        ),
    ensures
        ({
            let peers = old(state).peermap@;
            let size = old(state).peermap.size();
            if exists|i: int| 0 <= i < peers.len() && (#[trigger] peers[i]).peer_id@ == id@ {
                &&& out@[0].1 matches Message::FindPeerResponsePeerFound { contact }
                &&& contact.peer_id@ == id@
                &&& peers.contains(contact)
            } else {
                &&& out@[0].1 matches Message::FindPeerResponsePeerNotFound {
                    id: about,
                    neighbors,
                }
                &&& about == id
                &&& neighbors@.len() <= size
                &&& forall|i: int, j: int|
                    0 <= i < j < neighbors@.len() ==> (#[trigger] neighbors@[i]).peer_id@ != (
                    #[trigger] neighbors@[j]).peer_id@
                &&& forall|n: ContactInfo| #[trigger] neighbors@.contains(n) ==> peers.contains(n)
                &&& forall|i: int|
                    0 <= i < peers.len() && !neighbors@.contains(#[trigger] peers[i])
                        ==> neighbors@.len() == size
                &&& forall|i: int, k: int|
                    0 <= i < peers.len() && !neighbors@.contains(#[trigger] peers[i]) && 0 <= k
                        < neighbors@.len() ==> distance((#[trigger] neighbors@[k]).peer_id@, id@)
                        < distance(peers[i].peer_id@, id@)
            }
        }),
{
    let own = old(state).id;
    let peers = old(state).peermap@;
    let size = old(state).peermap.size();
    if exists|i: int| 0 <= i < peers.len() && (#[trigger] peers[i]).peer_id@ == id@ {
        let i = choose|i: int| 0 <= i < peers.len() && (#[trigger] peers[i]).peer_id@ == id@;
        law_known_peer_is_sent_back(own, peers, size, id, out@, i);
    } else {
        law_unknown_peer_gets_the_closest(own, peers, size, id, out@);
    }
}

/// What a peer learns from a message, told by what goes in and comes out: a pong
/// lists its peer with the address that it came from, in place of what was
/// listed for it, and leaves all others; nothing else teaches it anything.
pub proof fn law_peer_learns(
    state: &mut PeerSharedState,
    addr: SocketAddr,
    msg: Message,
    out: Vec<(PeerId, Message)>,
    c: ContactInfo,
)
    requires
        old(state).peermap.wf(),
        call_ensures(PeerSharedState::handle_message_from, (state, addr, &msg), out),
    ensures
        final(state).id == old(state).id,
        ({
            let before = old(state).peermap@;
            let after = final(state).peermap@;
            match msg {
                Message::Pong { id } => {
                    &&& after.contains(ContactInfo { peer_id: id, address: addr })
                    &&& c.peer_id@ == id@ && after.contains(c) ==> c.address == addr
                    &&& c.peer_id@ != id@ ==> (after.contains(c) <==> before.contains(c))
                },
                _ => after == before,
            }
        }),
{
}

/// What a peer does about what it reads from a stream, told by what goes in and
/// comes out: a ping gets our own identity back, a pong lists its peer, and
/// nothing else does anything.
pub proof fn law_peer_receives(
    state: &mut PeerSharedState,
    addr: SocketAddr,
    received: Option<Message>,
    r: Option<Message>,
    c: ContactInfo,
)
    requires
        old(state).peermap.wf(),
        call_ensures(PeerSharedState::receive_message, (state, addr, received), r),
    ensures
        final(state).id == old(state).id,
        received matches Some(Message::Ping { id }) ==> r == Some(
            Message::Pong { id: old(state).id },
        ),
        !(received matches Some(Message::Ping { .. })) ==> r is None,
        ({
            let before = old(state).peermap@;
            let after = final(state).peermap@;
            match received {
                Some(Message::Pong { id }) => {
                    &&& after.contains(ContactInfo { peer_id: id, address: addr })
                    &&& c.peer_id@ == id@ && after.contains(c) ==> c.address == addr
                    &&& c.peer_id@ != id@ ==> (after.contains(c) <==> before.contains(c))
                },
                _ => after == before,
            }
        }),
{
}

/// Inserting a contact lists it, in place of what was listed for its peer, and
/// leaves all others.
pub proof fn law_insert_lists_the_contact(map: &mut PeerMap, new_peer: ContactInfo, c: ContactInfo)
    requires
        old(map).wf(),
        call_ensures(PeerMap::insert, (map, new_peer), ()),
    ensures
        final(map)@.contains(new_peer),
        c.peer_id@ == new_peer.peer_id@ && final(map)@.contains(c) ==> c == new_peer,
        c.peer_id@ != new_peer.peer_id@ ==> (final(map)@.contains(c) <==> old(map)@.contains(c)),
{
}

/// A connection starts with a ping that carries our own identity.
pub proof fn law_greeting_is_a_ping(state: PeerSharedState, r: Message)
    requires
        call_ensures(PeerSharedState::greeting, (&state,), r),
    ensures
        r == (Message::Ping { id: state.id }),
{
}

} // verus!
