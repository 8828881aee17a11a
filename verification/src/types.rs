//! Peers, and what they say to each other.

use std::cmp::Ordering;
use vstd::arithmetic::power2::pow2;
use vstd::prelude::*;

use crate::addr::SocketAddr;
use crate::distance::{
    law_distance_zero, law_rank_bound, law_rank_of_the_highest_bit, rank, xor_bytes,
};
use crate::hash::{
    blake2s_digest, byte_less, law_first_difference_decides, Blake2Hash, BLAKE2_HASH_SIZE,
};
use crate::rng::{
    bytes_highest_first, bytes_lowest_first, bytes_of_words, draws, state_after, Rand64,
};
use crate::text::base64_text;

pub use crate::flat_peer_map::FlatPeerMap;
pub use crate::peer_map::PeerMap;

verus! {

/// A hash identifying a peer.
#[derive(Copy, Clone, Debug, Eq, Ord, Hash)]
pub struct PeerId(Blake2Hash);

impl View for PeerId {
    type V = Seq<u8>;

    closed spec fn view(&self) -> Seq<u8> {
        self.0@
    }
}

impl PartialEq for PeerId {
    fn eq(&self, other: &Self) -> (r: bool) {
        self.0 == other.0
    }
}

impl vstd::std_specs::cmp::PartialEqSpecImpl for PeerId {
    open spec fn obeys_eq_spec() -> bool {
        true
    }

    open spec fn eq_spec(&self, other: &Self) -> bool {
        self@ == other@
    }
}

impl PartialOrd for PeerId {
    fn partial_cmp(&self, other: &Self) -> (r: Option<Ordering>) {
        self.0.partial_cmp(&other.0)
    }
}

impl vstd::std_specs::cmp::PartialOrdSpecImpl for PeerId {
    open spec fn obeys_partial_cmp_spec() -> bool {
        true
    }

    open spec fn partial_cmp_spec(&self, other: &Self) -> Option<Ordering> {
        if byte_less(self@, other@) {
            Some(Ordering::Less)
        } else if byte_less(other@, self@) {
            Some(Ordering::Greater)
        } else {
            Some(Ordering::Equal)
        }
    }
}

/// The bytes of an identity tell it apart from all others.
pub proof fn lemma_peer_id_view(a: PeerId, b: PeerId)
    ensures
        a@.len() == BLAKE2_HASH_SIZE,
        a@ == b@ ==> a == b,
{
    if a@ == b@ {
        assert(a.0.0 =~= b.0.0);
    }
}

impl PeerId {
    /// Creates a new `PeerId` from the given seed.
    pub fn new(seed: &[u8]) -> (r: PeerId)
        ensures
            r@ == blake2s_digest(seed@),
    {
        PeerId(Blake2Hash::new(seed))
    }

    /// Creates the `PeerId` that is exactly the given bytes. Useful mainly for
    /// testing.
    pub fn raw(bytes: [u8; BLAKE2_HASH_SIZE]) -> (r: Self)
        ensures
            r@ == bytes@,
    {
        PeerId(Blake2Hash(bytes))
    }

    /// Creates a new `PeerId` from a generator that is not fit for secrets: the
    /// hash of the next words that it draws. Useful for testing only!
    ///
    /// The machine decides in which order the bytes of a word are hashed.
    pub fn new_insecure_random(rng: &mut Rand64) -> (r: PeerId)
        ensures
            r@ == blake2s_digest(bytes_lowest_first(draws(old(rng)@, BLAKE2_HASH_SIZE as nat)))
                || r@ == blake2s_digest(
                bytes_highest_first(draws(old(rng)@, BLAKE2_HASH_SIZE as nat)),
            ),
            final(rng)@ == state_after(old(rng)@, BLAKE2_HASH_SIZE as nat),
    {
        let mut data: [u64; BLAKE2_HASH_SIZE] = [0u64; BLAKE2_HASH_SIZE];
        let ghost start = rng@;
        let mut i: usize = 0;
        while i < BLAKE2_HASH_SIZE
            invariant
                i <= BLAKE2_HASH_SIZE,
                rng@ == state_after(start, i as nat),
                data@.take(i as int) == draws(start, i as nat),
            decreases BLAKE2_HASH_SIZE - i,
        {
            let ghost before = data@.take(i as int);
            data[i] = rng.rand_u64();
            i += 1;
            assert(data@.take(i as int) =~= before.push(data@[i - 1]));
        }
        assert(data@.take(i as int) =~= data@);
        let data_bytes = bytes_of_words(&data);
        PeerId(Blake2Hash::new(data_bytes))
    }

    /// The identity in base 64.
    pub fn to_base64(&self) -> (r: String)
        ensures
            r@ == base64_text(self@),
    {
        self.0.to_base64()
    }

    /// The number of the bucket that the other peer belongs in: a number that
    /// stands for `floor(log2(the distance to the other peer))`.
    pub fn distance_rank(&self, other: &PeerId) -> (r: u32)
        ensures
            r == rank(xor_bytes(self@, other@)),
            r < 256,
    {
        let distance = self.0 ^ other.0;
        distance.leading_zeros()
    }

    /// The bytes of the identity.
    pub fn bytes(&self) -> (r: &[u8])
        ensures
            r@ == self@,
    {
        self.0.0.as_slice()
    }

    /// The identity as it is shown in logs.
    pub fn debug_text(&self) -> (r: String)
        ensures
            r@ == "PEERID:"@ + base64_text(self@),
    {
        let mut out = String::from_str("PEERID:");
        out.append(self.to_base64().as_str());
        out
    }
}

/// The messages that peers send back and forth.
#[derive(Clone, Debug, PartialEq, Eq)]
pub enum Message {
    /// Are you there? From the peer `id`.
    Ping { id: PeerId },
    /// Yes, and I am `id`.
    Pong { id: PeerId },
    /// Where is the peer `id`?
    FindPeer { id: PeerId },
    /// The peer `id` is here.
    FindPeerResponsePeerFound { id: PeerId, addr: SocketAddr },
    /// I don't know the peer `id`, but these are close to it.
    FindPeerResponsePeerNotFound { id: PeerId, neighbors: Vec<(PeerId, SocketAddr)> },
}

/// Contact info for a peer, mapping the `PeerId` to an IP address and port.
#[derive(Copy, Clone, Debug, PartialEq, Eq)]
pub struct Contact {
    pub peer_id: PeerId,
    pub address: SocketAddr,
}

impl Contact {
    /// A contact with an address that leads nowhere, for testing: port 1234 of
    /// the IPv6 loopback address.
    pub fn new_dummy(peer_id: PeerId) -> (r: Self)
        ensures
            r.peer_id == peer_id,
            r.address == (SocketAddr::V6 { ipv6: 1, port: 1234, flowinfo: 0, scope_id: 0 }),
    {
        let address = SocketAddr::V6 { ipv6: 1, port: 1234, flowinfo: 0, scope_id: 0 };
        Contact { peer_id, address }
    }

    /// Contact info is ordered by `peer_id`.
    pub fn cmp(&self, other: &Self) -> (r: Ordering)
        ensures
            r == Ordering::Less <==> byte_less(self.peer_id@, other.peer_id@),
            r == Ordering::Greater <==> byte_less(other.peer_id@, self.peer_id@),
            r == Ordering::Equal <==> self.peer_id@ == other.peer_id@,
    {
        proof {
            lemma_byte_order(self.peer_id, other.peer_id);
        }
        match self.peer_id.partial_cmp(&other.peer_id) {
            Some(order) => order,
            None => Ordering::Equal,
        }
    }
}

/// Of two identities, one comes first unless they are the same.
pub proof fn lemma_byte_order(a: PeerId, b: PeerId)
    ensures
        a@ == b@ ==> !byte_less(a@, b@) && !byte_less(b@, a@),
        a@ != b@ ==> byte_less(a@, b@) != byte_less(b@, a@),
{
    if a@ != b@ {
        let i = lemma_first_difference(a@, b@);
        if a@[i] < b@[i] {
            assert(byte_less(a@, b@));
        } else {
            assert(b@[i] < a@[i]);
            assert(byte_less(b@, a@));
        }
    }
}

/// The first place where two byte strings of one length differ.
proof fn lemma_first_difference(a: Seq<u8>, b: Seq<u8>) -> (i: int)
    requires
        a.len() == b.len(),
        a != b,
    ensures
        0 <= i < a.len(),
        a[i] != b[i],
        forall|j: int| 0 <= j < i ==> a[j] == b[j],
    decreases a.len(),
{
    if a.len() == 0 {
        assert(a =~= b);
        0
    } else if a.drop_last() != b.drop_last() {
        let i = lemma_first_difference(a.drop_last(), b.drop_last());
        assert forall|j: int| 0 <= j < i implies a[j] == b[j] by {
            assert(a.drop_last()[j] == b.drop_last()[j]);
        }
        i
    } else {
        let i = a.len() - 1;
        assert(a =~= a.drop_last().push(a[i]));
        assert(b =~= b.drop_last().push(b[i]));
        assert forall|j: int| 0 <= j < i implies a[j] == b[j] by {
            assert(a.drop_last()[j] == b.drop_last()[j]);
        }
        i
    }
}

impl PartialOrd for Contact {
    /// Contact info is ordered by `peer_id`.
    fn partial_cmp(&self, other: &Self) -> (r: Option<Ordering>) {
        self.peer_id.partial_cmp(&other.peer_id)
    }
}

impl vstd::std_specs::cmp::PartialOrdSpecImpl for Contact {
    open spec fn obeys_partial_cmp_spec() -> bool {
        true
    }

    open spec fn partial_cmp_spec(&self, other: &Self) -> Option<Ordering> {
        if byte_less(self.peer_id@, other.peer_id@) {
            Some(Ordering::Less)
        } else if byte_less(other.peer_id@, self.peer_id@) {
            Some(Ordering::Greater)
        } else {
            Some(Ordering::Equal)
        }
    }
}

/// The bucket number of a peer, told by what goes in and comes out: from the last
/// byte in which it differs from us, and the highest bit of that byte in which
/// it does.
pub proof fn law_bucket_number_of_a_peer(a: PeerId, b: PeerId, r: u32, i: int, k: nat)
    requires
        call_ensures(PeerId::distance_rank, (&a, &b), r),
        0 <= i < 32,
        forall|j: int| i < j < 32 ==> a@[j] == b@[j],
        k < 8,
        pow2(k) <= (a@[i] ^ b@[i]) < pow2(k + 1),
    ensures
        8 * i + (7 - k) > 0 ==> r == 8 * i + (7 - k) - 1,
        8 * i + (7 - k) == 0 ==> r == 0,
{
    lemma_peer_id_view(a, b);
    lemma_peer_id_view(b, a);
    let d = xor_bytes(a@, b@);
    assert forall|j: int| i < j < d.len() implies d[j] == 0 by {
        let x = a@[j];
        assert(x ^ x == 0) by (bit_vector);
    }
    law_rank_of_the_highest_bit(d, i, k);
}

/// Our own bucket number is the last one, and nobody else's is.
pub proof fn law_bucket_number_of_ourselves(a: PeerId, b: PeerId, r: u32)
    requires
        call_ensures(PeerId::distance_rank, (&a, &b), r),
    ensures
        r <= 255,
        r == 255 <==> a@ == b@,
{
    lemma_peer_id_view(a, b);
    lemma_peer_id_view(b, a);
    law_rank_bound(xor_bytes(a@, b@));
    law_distance_zero(a@, b@);
}

/// An identity is made from a seed alone, keeps the bytes that it is made from,
/// and gives them back.
pub proof fn law_identity_keeps_its_bytes(
    bytes: [u8; 32],
    id: PeerId,
    seed: &[u8],
    hashed: PeerId,
)
    requires
        call_ensures(PeerId::raw, (bytes,), id),
        call_ensures(PeerId::new, (seed,), hashed),
    ensures
        id@ == bytes@,
        hashed@ == blake2s_digest(seed@),
{
}

/// Contacts are ordered by the first byte in which their peers' identities
/// differ.
pub proof fn law_contacts_are_ordered_by_identity(a: Contact, b: Contact, r: Ordering, i: int)
    requires
        call_ensures(Contact::cmp, (&a, &b), r),
        0 <= i < 32,
        forall|j: int| 0 <= j < i ==> a.peer_id@[j] == b.peer_id@[j],
    ensures
        a.peer_id@[i] < b.peer_id@[i] ==> r == Ordering::Less,
        a.peer_id@[i] > b.peer_id@[i] ==> r == Ordering::Greater,
        a.peer_id@ == b.peer_id@ ==> r == Ordering::Equal,
{
    lemma_peer_id_view(a.peer_id, b.peer_id);
    lemma_peer_id_view(b.peer_id, a.peer_id);
    if a.peer_id@[i] < b.peer_id@[i] {
        law_first_difference_decides(a.peer_id@, b.peer_id@, i);
    }
    if b.peer_id@[i] < a.peer_id@[i] {
        law_first_difference_decides(b.peer_id@, a.peer_id@, i);
    }
}

} // verus!
