//! A map of peers whose buckets grow as needed.

use vstd::prelude::*;

use crate::addr::SocketAddr;
use crate::buckets::{
    all_from, find, inserted, is_closest, law_closest_are_named,
    law_insert_leaves_others_in_place, law_inserted_is_found, law_inserted_stays_placed,
    law_lookup_gives_what_is_held, law_nearest_of_all_is_closest, law_one_contact_each,
    law_put_keeps_distinct, law_walk_meets_all, lemma_find, looked_up, placed, total, visit, walk,
    with_contact, BUCKETS,
};
use crate::closest::{
    distinct, law_nearest_is_enough, law_nearest_is_known, nearest, select_nearest,
};
use crate::distance::distance;
use crate::types::{lemma_peer_id_view, Contact, PeerId};

verus! {

/// A "bucket" in the map, a collection of contacts that lists no peer twice.
#[derive(Debug)]
struct Bucket {
    /// The peers in the bucket.
    known_peers: Vec<Contact>,
}

impl Bucket {
    fn new() -> (r: Self)
        ensures
            r.known_peers@ == Seq::<Contact>::empty(),
    {
        Bucket { known_peers: Vec::new() }
    }

    /// Adds the new peer to the bucket, in place of what was known about it.
    fn insert(&mut self, peer: Contact)
        requires
            distinct(old(self).known_peers@),
        ensures
            final(self).known_peers@ == with_contact(old(self).known_peers@, peer),
    {
        let mut i: usize = 0;
        let ghost before = self.known_peers@;
        while i < self.known_peers.len()
            invariant
                before == self.known_peers@,
                before == old(self).known_peers@,
                distinct(before),
                i <= before.len(),
                forall|j: int| 0 <= j < i ==> #[trigger] before[j].peer_id@ != peer.peer_id@,
            decreases before.len() - i,
        {
            if self.known_peers[i].peer_id == peer.peer_id {
                proof {
                    lemma_find(before, i as int);
                }
                self.known_peers[i] = peer;
                return;
            }
            i += 1;
        }
        self.known_peers.push(peer);
    }

    fn contains(&self, peer: PeerId) -> (r: Option<(PeerId, SocketAddr)>)
        requires
            distinct(self.known_peers@),
        ensures
            r == as_pair(find(self.known_peers@, peer@)),
    {
        let mut i: usize = 0;
        while i < self.known_peers.len()
            invariant
                distinct(self.known_peers@),
                i <= self.known_peers@.len(),
                forall|j: int|
                    0 <= j < i ==> #[trigger] self.known_peers@[j].peer_id@ != peer@,
            decreases self.known_peers@.len() - i,
        {
            let c = self.known_peers[i];
            if c.peer_id == peer {
                proof {
                    lemma_find(self.known_peers@, i as int);
                }
                return Some((c.peer_id, c.address));
            }
            i += 1;
        }
        None
    }
}

/// A contact as a pair of identity and address.
pub open spec fn as_pair(c: Option<Contact>) -> Option<(PeerId, SocketAddr)> {
    match c {
        Some(c) => Some((c.peer_id, c.address)),
        None => None,
    }
}

/// Pairs of identity and address as contacts.
pub open spec fn as_contacts(pairs: Seq<(PeerId, SocketAddr)>) -> Seq<Contact> {
    pairs.map_values(|p: (PeerId, SocketAddr)| Contact { peer_id: p.0, address: p.1 })
}

/// The first `n` of a sequence, or all of it if it is shorter.
pub open spec fn first<A>(s: Seq<A>, n: nat) -> Seq<A> {
    if n < s.len() {
        s.take(n as int)
    } else {
        s
    }
}

/// The peer's view of the network, a mapping of `PeerId` to contact info. The
/// further away from the peer's own hash, as measured by the XOR distance, the
/// lower its resolution is.
#[derive(Debug)]
pub struct PeerMap {
    buckets: Vec<Bucket>,
    /// The number of peers that an answer lists.
    bucket_size: usize,
}

spec fn contents(buckets: Seq<Bucket>) -> Seq<Seq<Contact>> {
    buckets.map_values(|b: Bucket| b.known_peers@)
}

impl View for PeerMap {
    type V = Seq<Seq<Contact>>;

    /// The contacts of each bucket, in order.
    closed spec fn view(&self) -> Seq<Seq<Contact>> {
        contents(self.buckets@)
    }
}

impl Default for PeerMap {
    fn default() -> (r: Self)
        ensures
            r.wf(),
            r.size() == 16,
            r@ == Seq::new(BUCKETS as nat, |b: int| Seq::<Contact>::empty()),
    {
        PeerMap::with_size(16)
    }
}

impl PeerMap {
    /// How many peers an answer lists.
    pub closed spec fn size(&self) -> nat {
        self.bucket_size as nat
    }

    /// Whether there is a bucket for each rank and none lists a peer twice.
    pub open spec fn wf(&self) -> bool {
        &&& self@.len() == BUCKETS
        &&& forall|r: int| 0 <= r < BUCKETS ==> distinct(#[trigger] self@[r])
    }

    fn with_size(bucket_size: usize) -> (r: Self)
        ensures
            r.wf(),
            r.size() == bucket_size,
            r@ == Seq::new(BUCKETS as nat, |b: int| Seq::<Contact>::empty()),
    {
        let mut buckets: Vec<Bucket> = Vec::new();
        while buckets.len() < BUCKETS
            invariant
                buckets@.len() <= BUCKETS,
                forall|b: int|
                    0 <= b < buckets@.len() ==> (#[trigger] buckets@[b]).known_peers@ == Seq::<
                        Contact,
                    >::empty(),
            decreases BUCKETS - buckets@.len(),
        {
            buckets.push(Bucket::new());
        }
        let map = PeerMap { buckets, bucket_size };
        assert(map@ =~= Seq::new(BUCKETS as nat, |b: int| Seq::<Contact>::empty()));
        map
    }

    /// An empty map whose answers list eight peers.
    pub fn new() -> (r: Self)
        ensures
            r.wf(),
            r.size() == 8,
            r@ == Seq::new(BUCKETS as nat, |b: int| Seq::<Contact>::empty()),
    {
        PeerMap::with_size(8)
    }

    /// Inserts a new peer into the map of `self_id`. A peer that is known
    /// already gets the new address.
    pub fn insert(&mut self, self_id: PeerId, address: SocketAddr, peer_id: PeerId)
        requires
            old(self).wf(),
        ensures
            final(self).wf(),
            final(self).size() == old(self).size(),
            final(self)@ == inserted(old(self)@, self_id, Contact { peer_id, address }),
    {
        let new_peer = Contact { peer_id, address };
        let distance_rank = self_id.distance_rank(&peer_id) as usize;
        let ghost before = self@;
        let ghost r = distance_rank as int;
        proof {
            assert(distinct(before[r]));
            law_put_keeps_distinct(before[r], new_peer);
        }
        self.buckets[distance_rank].insert(new_peer);
        assert(self@ =~= before.update(r, with_contact(before[r], new_peer)));
    }

    /// Returns the closest peers we know to the given one, in no particular
    /// order: as many as an answer lists, or all if we know fewer.
    pub fn find_closest_peers(&self, self_id: PeerId, peer_id: PeerId) -> (r: Vec<
        (PeerId, SocketAddr),
    >)
        requires
            self.wf(),
        ensures
            as_contacts(r@) == first(
                nearest(all_from(self@, self_id, peer_id), peer_id@, self.size()),
                self.size(),
            ),
            placed(self@, self_id) ==> is_closest(
                self@,
                peer_id@,
                self.size(),
                as_contacts(r@),
            ),
    {
        let target = self_id.distance_rank(&peer_id) as usize;
        let ghost buckets = self@;
        let mut found: Vec<Contact> = Vec::new();
        let mut step: usize = 0;
        while step < BUCKETS
            invariant
                self.wf(),
                buckets == self@,
                target < BUCKETS,
                step <= BUCKETS,
                found@ == walk(buckets, target as int, step as nat),
            decreases BUCKETS - step,
        {
            let bucket = visit(target, step);
            let ghost before = found@;
            let peers = &self.buckets[bucket].known_peers;
            assert(peers@ == buckets[bucket as int]);
            let mut i: usize = 0;
            while i < peers.len()
                invariant
                    i <= peers@.len(),
                    found@ == before + peers@.take(i as int),
                decreases peers@.len() - i,
            {
                found.push(peers[i]);
                i += 1;
                assert(before + peers@.take(i as int) =~= (before + peers@.take(i - 1)).push(
                    peers@[i - 1],
                ));
            }
            assert(peers@.take(i as int) =~= peers@);
            step += 1;
        }
        let closest = select_nearest(&found, &peer_id, self.bucket_size);
        let mut out: Vec<(PeerId, SocketAddr)> = Vec::new();
        let mut i: usize = 0;
        while i < closest.len() && i < self.bucket_size
            invariant
                i <= closest@.len(),
                i <= self.bucket_size,
                as_contacts(out@) == closest@.take(i as int),
            decreases closest@.len() - i,
        {
            let c = closest[i];
            let ghost before = out@;
            out.push((c.peer_id, c.address));
            i += 1;
            assert(as_contacts(out@) =~= as_contacts(before).push(c));
            assert(closest@.take(i as int) =~= closest@.take(i - 1).push(c));
        }
        assert(i == closest@.len() ==> closest@.take(i as int) =~= closest@);
        proof {
            if placed(self@, self_id) {
                law_nearest_of_all_is_closest(self@, self_id, peer_id, self.size());
            }
        }
        out
    }

    /// Just checks whether we know about the given peer.
    pub fn contains(&self, self_id: PeerId, peer_id: PeerId) -> (r: Option<(PeerId, SocketAddr)>)
        requires
            self.wf(),
        ensures
            r == as_pair(looked_up(self@, self_id, peer_id)),
    {
        let search_bucket = self_id.distance_rank(&peer_id) as usize;
        assert(distinct(self@[search_bucket as int]));
        self.buckets[search_bucket].contains(peer_id)
    }

    /// Looks up the given peer id. If we know about it, return the address we
    /// have, otherwise return a list of the nearest peers we know to it.
    pub fn lookup(&self, self_id: PeerId, peer_id: PeerId) -> (r: Result<
        (PeerId, SocketAddr),
        Vec<(PeerId, SocketAddr)>,
    >)
        requires
            self.wf(),
        ensures
            match as_pair(looked_up(self@, self_id, peer_id)) {
                Some(p) => r == Ok::<(PeerId, SocketAddr), Vec<(PeerId, SocketAddr)>>(p),
                None => r matches Err(found) && {
                    &&& as_contacts(found@) == first(
                        nearest(all_from(self@, self_id, peer_id), peer_id@, self.size()),
                        self.size(),
                    )
                    &&& placed(self@, self_id) ==> is_closest(
                        self@,
                        peer_id@,
                        self.size(),
                        as_contacts(found@),
                    )
                },
            },
    {
        match self.contains(self_id, peer_id) {
            Some(res) => Ok(res),
            None => Err(self.find_closest_peers(self_id, peer_id)),
        }
    }

    /// Returns total number of peers known.
    pub fn count(&self) -> (r: u32)
        requires
            self.wf(),
            total(self@) <= u32::MAX,
        ensures
            r == total(self@),
    {
        let mut acc: u32 = 0;
        let mut i: usize = 0;
        assert(self@.take(0) =~= seq![]);
        while i < self.buckets.len()
            invariant
                i <= self.buckets@.len(),
                self@.len() == self.buckets@.len(),
                acc == total(self@.take(i as int)),
                total(self@) <= u32::MAX,
            decreases self.buckets@.len() - i,
        {
            proof {
                assert(self@.take(i + 1).drop_last() =~= self@.take(i as int));
                assert(self@.take(i + 1).last() == self@[i as int]);
                lemma_total_take(self@, i + 1);
            }
            acc = acc + self.buckets[i].known_peers.len() as u32;
            i += 1;
        }
        assert(self@.take(i as int) =~= self@);
        acc
    }
}

/// The first buckets hold no more than all of them.
proof fn lemma_total_take(buckets: Seq<Seq<Contact>>, n: int)
    requires
        0 <= n <= buckets.len(),
    ensures
        total(buckets.take(n)) <= total(buckets),
    decreases buckets.len(),
{
    if n < buckets.len() {
        lemma_total_take(buckets.drop_last(), n);
        assert(buckets.drop_last().take(n) =~= buckets.take(n));
    } else {
        assert(buckets.take(n) =~= buckets);
    }
}

/// Pairs and contacts say the same, one for one.
pub proof fn law_pairs_are_contacts(pairs: Seq<(PeerId, SocketAddr)>, i: int, c: Contact)
    requires
        0 <= i < pairs.len(),
    ensures
        as_contacts(pairs).len() == pairs.len(),
        as_contacts(pairs)[i].peer_id == pairs[i].0,
        as_contacts(pairs)[i].address == pairs[i].1,
        as_pair(Some(c)) == Some((c.peer_id, c.address)),
        as_pair(None) is None,
{
}

/// The first of a sequence are as many as were asked for, or all, in their
/// place.
pub proof fn law_first_are_in_place<A>(s: Seq<A>, n: nat, i: int)
    ensures
        first(s, n).len() == (if n < s.len() {
            n
        } else {
            s.len()
        }),
        0 <= i < first(s, n).len() ==> first(s, n)[i] == s[i],
{
}

/// Whoever asks a map about a peer is told of contacts that it holds, no more
/// than its size, and none is left out while there is room. That is so whoever
/// the map is kept for.
pub proof fn law_answer_leaves_none_out(
    buckets: Seq<Seq<Contact>>,
    own: PeerId,
    id: PeerId,
    size: nat,
    found: Seq<Contact>,
    x: Contact,
    r: int,
    i: int,
)
    requires
        buckets.len() == BUCKETS,
        found == first(nearest(all_from(buckets, own, id), id@, size), size),
    ensures
        found.len() <= size,
        found.contains(x) ==> (exists|q: int, j: int|
            0 <= q < buckets.len() && 0 <= j < buckets[q].len() && #[trigger] buckets[q][j] == x),
        0 <= r < buckets.len() && 0 <= i < buckets[r].len() && !found.contains(buckets[r][i])
            ==> found.len() == size,
{
    let all = all_from(buckets, own, id);
    let near = nearest(all, id@, size);
    if found.contains(x) {
        let k = choose|k: int| 0 <= k < found.len() && found[k] == x;
        assert(near[k] == x);
        law_nearest_is_known(all, id@, size, x);
        law_walk_meets_all(buckets, own, id, x);
    }
    if 0 <= r < buckets.len() && 0 <= i < buckets[r].len() {
        let c = buckets[r][i];
        law_walk_meets_all(buckets, own, id, c);
        assert(all.contains(c));
        if !found.contains(c) && found.len() != size {
            assert(found == near);
            law_nearest_is_enough(all, id@, size, c);
        }
    }
}

/// A peer that was inserted is found, with the address that it was inserted
/// with, and no other contact for it is held; the contacts of all other peers
/// stand where they stood.
pub proof fn law_insert_is_found(
    map: &mut PeerMap,
    own: PeerId,
    address: SocketAddr,
    id: PeerId,
    x: Contact,
    r: int,
    i: int,
)
    requires
        old(map).wf(),
        placed(old(map)@, own),
        call_ensures(PeerMap::insert, (map, own, address, id), ()),
        0 <= r < old(map)@.len(),
        0 <= i,
    ensures
        placed(final(map)@, own),
        final(map).size() == old(map).size(),
        looked_up(final(map)@, own, id) == Some(Contact { peer_id: id, address }),
        i < final(map)@[r].len() && final(map)@[r][i].peer_id@ == id@ ==> final(map)@[r][i].address
            == address,
        x.peer_id@ != id@ ==> ((i < old(map)@[r].len() && old(map)@[r][i] == x) == (i
            < final(map)@[r].len() && final(map)@[r][i] == x)),
{
    let c = Contact { peer_id: id, address };
    let after = final(map)@;
    law_inserted_stays_placed(old(map)@, own, c);
    law_inserted_is_found(old(map)@, own, c);
    law_lookup_gives_what_is_held(after, own, id, c);
    if x.peer_id@ != id@ {
        law_insert_leaves_others_in_place(old(map)@, own, 0, c, x, r, i);
    }
    let (q, j) = choose|q: int, j: int|
        0 <= q < after.len() && 0 <= j < after[q].len() && #[trigger] after[q][j] == c;
    if i < after[r].len() && after[r][i].peer_id@ == id@ {
        law_one_contact_each(after, own, r, i, q, j);
    }
}

/// Looking a peer up gives the address that is held for it; for one that is not
/// held, the closest to it, as many as an answer lists, or all if there are
/// fewer. Asking whether a peer is known gives the same address.
pub proof fn law_lookup_gives_the_peer_or_the_closest(
    map: PeerMap,
    own: PeerId,
    id: PeerId,
    res: Result<(PeerId, SocketAddr), Vec<(PeerId, SocketAddr)>>,
    known_as: Option<(PeerId, SocketAddr)>,
)
    requires
        map.wf(),
        placed(map@, own),
        call_ensures(PeerMap::lookup, (&map, own, id), res),
        call_ensures(PeerMap::contains, (&map, own, id), known_as),
    ensures
        known_as == res.ok(),
        forall|r: int, i: int|
            0 <= r < map@.len() && 0 <= i < map@[r].len() && (#[trigger] map@[r][i]).peer_id@
                == id@ ==> known_as == Some((id, map@[r][i].address)),
        match res {
            Ok((peer_id, address)) => peer_id@ == id@ && (exists|r: int, i: int|
                0 <= r < map@.len() && 0 <= i < map@[r].len() && #[trigger] map@[r][i] == (
                Contact { peer_id, address })),
            Err(found) => {
                &&& found@.len() <= map.size()
                &&& forall|i: int, j: int|
                    0 <= i < j < found@.len() ==> (#[trigger] found@[i]).0@ != (
                    #[trigger] found@[j]).0@
                &&& forall|n: (PeerId, SocketAddr)| #[trigger]
                    found@.contains(n) ==> (exists|r: int, i: int|
                        0 <= r < map@.len() && 0 <= i < map@[r].len() && #[trigger] map@[r][i]
                            == (Contact { peer_id: n.0, address: n.1 }))
                &&& forall|r: int, i: int|
                    0 <= r < map@.len() && 0 <= i < map@[r].len() && !found@.contains(
                        ((#[trigger] map@[r][i]).peer_id, map@[r][i].address),
                    ) ==> found@.len() == map.size()
                &&& forall|r: int, i: int, k: int|
                    0 <= r < map@.len() && 0 <= i < map@[r].len() && !found@.contains(
                        ((#[trigger] map@[r][i]).peer_id, map@[r][i].address),
                    ) && 0 <= k < found@.len() ==> distance((#[trigger] found@[k]).0@, id@)
                        < distance(map@[r][i].peer_id@, id@)
            },
        },
{
    assert forall|r: int, i: int|
        0 <= r < map@.len() && 0 <= i < map@[r].len() && (#[trigger] map@[r][i]).peer_id@
            == id@ implies known_as == Some((id, map@[r][i].address)) by {
        law_lookup_gives_what_is_held(map@, own, id, map@[r][i]);
        lemma_peer_id_view(id, map@[r][i].peer_id);
    }
    match res {
        Ok((peer_id, address)) => {
            law_lookup_gives_what_is_held(map@, own, id, Contact { peer_id, address });
        },
        Err(neighbors) => {
            let found = as_contacts(neighbors@);
            law_closest_are_named(map@, own, id@, map.size(), found);
            assert forall|i: int, j: int| 0 <= i < j < neighbors@.len() implies (
            #[trigger] neighbors@[i]).0@ != (#[trigger] neighbors@[j]).0@ by {
                assert(found[i].peer_id@ != found[j].peer_id@);
            }
            assert forall|n: (PeerId, SocketAddr)| #[trigger]
                neighbors@.contains(n) implies (exists|r: int, i: int|
                0 <= r < map@.len() && 0 <= i < map@[r].len() && #[trigger] map@[r][i] == (
                Contact { peer_id: n.0, address: n.1 })) by {
                let k = choose|k: int| 0 <= k < neighbors@.len() && neighbors@[k] == n;
                assert(found[k] == (Contact { peer_id: n.0, address: n.1 }));
                assert(found.contains(found[k]));
            }
            assert forall|r: int, i: int|
                0 <= r < map@.len() && 0 <= i < map@[r].len() && !neighbors@.contains(
                    ((#[trigger] map@[r][i]).peer_id, map@[r][i].address),
                ) implies !found.contains(map@[r][i]) by {
                let c = map@[r][i];
                if found.contains(c) {
                    let k = choose|k: int| 0 <= k < found.len() && found[k] == c;
                    assert(neighbors@[k] == (c.peer_id, c.address));
                }
            }
            assert forall|r: int, i: int, k: int|
                0 <= r < map@.len() && 0 <= i < map@[r].len() && !neighbors@.contains(
                    ((#[trigger] map@[r][i]).peer_id, map@[r][i].address),
                ) && 0 <= k < neighbors@.len() implies distance(
                (#[trigger] neighbors@[k]).0@,
                id@,
            ) < distance(map@[r][i].peer_id@, id@) by {
                assert(found[k].peer_id == neighbors@[k].0);
                assert(!found.contains(map@[r][i]));
            }
        },
    }
}

} // verus!
