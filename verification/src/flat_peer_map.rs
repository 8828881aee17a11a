//! A map of peers in one flat array.

use vstd::prelude::*;

use crate::buckets;
use crate::buckets::{
    all_from, bucket_number, inserted_if_room, is_closest, law_closest_are_named,
    law_full_bucket_is_enough, law_lookup_gives_what_is_held, law_nearest_of_all_is_closest,
    lemma_bucket_number, lemma_find, lemma_placed_update, lemma_total_bound, lemma_total_update,
    lemma_visited, looked_up, placed, total, visit, walk, with_contact, BUCKETS,
};
use crate::closest::{distinct, nearest, select_nearest};
use crate::distance::distance;
use crate::types::{Contact, PeerId};

verus! {

/// The peer's view of the network, a mapping of `PeerId` to contact info. The
/// further away from the peer's own hash, as measured by the XOR distance, the
/// lower its resolution is.
///
/// All contacts stand in one flat, sparse array, bucket by bucket. Each bucket
/// has room for a fixed number of them and is filled from its start.
pub struct FlatPeerMap {
    /// All our known contacts.
    contacts: Vec<Option<Contact>>,
    /// Number of contacts contained.
    count: usize,
    /// The maximum number of peers per bucket.
    bucket_size: usize,
    /// Our peer ID. We need this to calculate distances.
    peer_id: PeerId,
}

/// The contacts in a row of slots.
pub open spec fn filled(slots: Seq<Option<Contact>>) -> Seq<Contact>
    decreases slots.len(),
{
    if slots.len() == 0 {
        seq![]
    } else {
        match slots.last() {
            Some(c) => filled(slots.drop_last()).push(c),
            None => filled(slots.drop_last()),
        }
    }
}

/// Whether no slot is taken after an empty one.
spec fn packed(slots: Seq<Option<Contact>>) -> bool {
    forall|i: int, j: int|
        0 <= i < j < slots.len() && #[trigger] slots[j] is Some ==> #[trigger] slots[i] is Some
}

/// The slots of bucket `r`.
spec fn slots_of(contacts: Seq<Option<Contact>>, size: int, r: int) -> Seq<Option<Contact>> {
    contacts.subrange(r * size, r * size + size)
}

/// The buckets in a flat array.
spec fn buckets_of(contacts: Seq<Option<Contact>>, size: int) -> Seq<Seq<Contact>> {
    Seq::new(BUCKETS as nat, |r: int| filled(slots_of(contacts, size, r)))
}

impl View for FlatPeerMap {
    type V = Seq<Seq<Contact>>;

    /// The contacts of each bucket, in order.
    closed spec fn view(&self) -> Seq<Seq<Contact>> {
        buckets_of(self.contacts@, self.bucket_size as int)
    }
}

proof fn lemma_packed(slots: Seq<Option<Contact>>)
    requires
        packed(slots),
    ensures
        filled(slots).len() <= slots.len(),
        forall|i: int|
            0 <= i < slots.len() ==> ((#[trigger] slots[i]) is Some <==> i < filled(slots).len()),
        forall|i: int|
            0 <= i < filled(slots).len() ==> slots[i] == Some(#[trigger] filled(slots)[i]),
    decreases slots.len(),
{
    if slots.len() > 0 {
        let rest = slots.drop_last();
        let n = slots.len() - 1;
        assert forall|i: int, j: int|
            0 <= i < j < rest.len() && #[trigger] rest[j] is Some implies #[trigger] rest[
            i] is Some by {
            assert(rest[i] == slots[i] && rest[j] == slots[j]);
        }
        lemma_packed(rest);
        assert forall|i: int| 0 <= i < n implies slots[i] == rest[i] by {}
        if slots[n] is Some {
            if filled(rest).len() < n {
                assert(slots[filled(rest).len() as int] is Some);
                assert(rest[filled(rest).len() as int] is Some);
            }
        }
    }
}

/// Buckets do not overlap.
proof fn lemma_slot_range(size: int, r: int, q: int, j: int)
    requires
        0 <= r,
        0 <= q,
        0 <= j < size,
        q != r,
    ensures
        r * size + j < q * size || q * size + size <= r * size + j,
{
    assert(r * size + j < q * size || q * size + size <= r * size + j) by (nonlinear_arith)
        requires
            0 <= r,
            0 <= q,
            0 <= j < size,
            q != r,
    ;
}

/// The buckets stand inside the array.
proof fn lemma_slot_bound(size: int, r: int)
    requires
        0 <= r < BUCKETS,
        0 <= size,
    ensures
        0 <= r * size,
        r * size + size <= BUCKETS * size,
{
    assert(0 <= r * size && r * size + size <= 256 * size) by (nonlinear_arith)
        requires
            0 <= r < 256,
            0 <= size,
    ;
}

impl FlatPeerMap {
    /// The peer that keeps the map.
    pub closed spec fn own(&self) -> PeerId {
        self.peer_id
    }

    /// How many contacts a bucket has room for.
    pub closed spec fn size(&self) -> nat {
        self.bucket_size as nat
    }

    /// Whether the array is laid out bucket by bucket and the count is right.
    pub closed spec fn laid_out(&self) -> bool {
        &&& self.contacts@.len() == BUCKETS * self.bucket_size
        &&& forall|r: int|
            0 <= r < BUCKETS ==> packed(
                #[trigger] slots_of(self.contacts@, self.bucket_size as int, r),
            )
        &&& self.count == total(self@)
    }

    /// Whether the map is in order: every contact stands in its bucket, no peer
    /// is there twice, and no bucket holds more than it has room for.
    pub open spec fn wf(&self) -> bool {
        &&& self.laid_out()
        &&& placed(self@, self.own())
        &&& forall|r: int| 0 <= r < BUCKETS ==> (#[trigger] self@[r]).len() <= self.size()
        &&& BUCKETS * self.size() <= usize::MAX
    }

    /// An empty map with room for `bucket_size` contacts in each bucket.
    pub fn new(peer_id: PeerId, bucket_size: usize) -> (r: Self)
        requires
            BUCKETS * bucket_size <= usize::MAX,
        ensures
            r.wf(),
            r.own() == peer_id,
            r.size() == bucket_size,
            r@ == Seq::new(BUCKETS as nat, |b: int| Seq::<Contact>::empty()),
    {
        let contacts: Vec<Option<Contact>> = vec![None; BUCKETS * bucket_size];
        let map = FlatPeerMap { contacts, count: 0, bucket_size, peer_id };
        let ghost size = bucket_size as int;
        assert forall|b: int| 0 <= b < BUCKETS implies {
            &&& packed(#[trigger] slots_of(contacts@, size, b))
            &&& filled(slots_of(contacts@, size, b)).len() == 0
        } by {
            lemma_slot_bound(size, b);
            let s = slots_of(contacts@, size, b);
            assert forall|i: int| 0 <= i < s.len() implies s[i] is None by {
                assert(s[i] == contacts@[b * size + i]);
            }
            lemma_packed(s);
            if filled(s).len() > 0 {
                assert(s[0] is Some);
            }
        }
        assert forall|b: int| 0 <= b < BUCKETS implies map@[b] == Seq::<Contact>::empty() by {
            assert(filled(slots_of(contacts@, size, b)).len() == 0);
            assert(map@[b] =~= Seq::<Contact>::empty());
        }
        assert(map@ =~= Seq::new(BUCKETS as nat, |b: int| Seq::<Contact>::empty()));
        proof {
            lemma_total_bound(map@, 0);
        }
        map
    }

    /// An empty map with room for sixteen contacts in each bucket.
    pub fn default(peer_id: PeerId) -> (r: Self)
        ensures
            r.wf(),
            r.own() == peer_id,
            r.size() == 16,
            r@ == Seq::new(BUCKETS as nat, |b: int| Seq::<Contact>::empty()),
    {
        Self::new(peer_id, 16)
    }

    /// The first slot of the bucket that the peer should be in.
    fn bucket_start(&self, peer_id: &PeerId) -> (r: usize)
        requires
            self.wf(),
        ensures
            r == bucket_number(self.peer_id, *peer_id) * self.bucket_size,
            r + self.bucket_size <= self.contacts@.len(),
            0 <= bucket_number(self.peer_id, *peer_id) < BUCKETS,
    {
        let distance_rank = self.peer_id.distance_rank(peer_id) as usize;
        proof {
            lemma_slot_bound(self.bucket_size as int, distance_rank as int);
        }
        distance_rank * self.bucket_size
    }

    /// Fetches the bucket that the peer should be in.
    fn bucket_for(&self, peer_id: &PeerId) -> (r: &[Option<Contact>])
        requires
            self.wf(),
        ensures
            r@ == slots_of(
                self.contacts@,
                self.bucket_size as int,
                bucket_number(self.peer_id, *peer_id),
            ),
            r@.len() == self.bucket_size,
    {
        let bucket_start = self.bucket_start(peer_id);
        let bucket_end = bucket_start + self.bucket_size;
        &self.contacts[bucket_start..bucket_end]
    }

    /// Inserts a new peer into the map. A peer that is known already gets the
    /// new address; a new one is left out if its bucket is full.
    pub fn insert(&mut self, new_peer: Contact)
        requires
            old(self).wf(),
        ensures
            final(self).wf(),
            final(self).own() == old(self).own(),
            final(self).size() == old(self).size(),
            final(self)@ == inserted_if_room(
                old(self)@,
                old(self).own(),
                old(self).size(),
                new_peer,
            ),
    {
        let bucket_start = self.bucket_start(&new_peer.peer_id);
        let ghost r = bucket_number(self.peer_id, new_peer.peer_id);
        let ghost slots = slots_of(self.contacts@, self.bucket_size as int, r);
        let ghost bucket = self@[r];
        let ghost before = *self;
        proof {
            assert(packed(slots));
            lemma_packed(slots);
        }
        let mut j: usize = 0;
        while j < self.bucket_size
            invariant
                *self == before,
                before == *old(self),
                self.wf(),
                j <= self.bucket_size,
                0 <= r < BUCKETS,
                r == bucket_number(self.peer_id, new_peer.peer_id),
                bucket_start == r * self.bucket_size,
                bucket_start + self.bucket_size <= self.contacts@.len(),
                slots == slots_of(self.contacts@, self.bucket_size as int, r),
                packed(slots),
                bucket == self@[r],
                j <= bucket.len(),
                forall|i: int|
                    0 <= i < j ==> #[trigger] bucket[i].peer_id@ != new_peer.peer_id@,
            decreases self.bucket_size - j,
        {
            proof {
                lemma_packed(slots);
                assert(slots[j as int] == self.contacts@[bucket_start + j]);
            }
            match self.contacts[bucket_start + j] {
                Some(c) => {
                    assert(bucket[j as int] == c);
                    if c.peer_id == new_peer.peer_id {
                        // We know this peer, update it.
                        self.contacts[bucket_start + j] = Some(new_peer);
                        proof {
                            lemma_find(bucket, j as int);
                            let new_bucket = with_contact(bucket, new_peer);
                            let size = before.bucket_size as int;
                            lemma_put_slot(before.contacts@, size, r, j as int, new_peer);
                            lemma_placed_update(before@, before.peer_id, new_peer, new_bucket);
                            lemma_total_update(before@, r, new_bucket);
                        }
                        return;
                    }
                },
                None => {
                    // Empty slot, snag it.
                    self.contacts[bucket_start + j] = Some(new_peer);
                    proof {
                        assert(bucket.len() == j);
                        let new_bucket = with_contact(bucket, new_peer);
                        let size = before.bucket_size as int;
                        lemma_put_slot(before.contacts@, size, r, j as int, new_peer);
                        lemma_placed_update(before@, before.peer_id, new_peer, new_bucket);
                        lemma_total_update(before@, r, new_bucket);
                        lemma_total_bound(self@, self.size());
                    }
                    self.count += 1;
                    return;
                },
            }
            j += 1;
        }
        // The bucket is full.
        assert(self@ =~= before@.update(r, bucket));
    }

    /// Checks whether we know about the given peer.
    pub fn contains(&self, peer_id: &PeerId) -> (r: Option<Contact>)
        requires
            self.wf(),
        ensures
            r == looked_up(self@, self.own(), *peer_id),
    {
        let slots = self.bucket_for(peer_id);
        let ghost bucket = self@[bucket_number(self.peer_id, *peer_id)];
        proof {
            lemma_bucket_number(self.peer_id, *peer_id);
            assert(packed(slots@));
            lemma_packed(slots@);
            assert(distinct(bucket));
        }
        let mut j: usize = 0;
        while j < slots.len()
            invariant
                j <= slots@.len(),
                packed(slots@),
                distinct(bucket),
                bucket == filled(slots@),
                bucket == self@[bucket_number(self.own(), *peer_id)],
                forall|i: int|
                    0 <= i < j && i < bucket.len() ==> #[trigger] bucket[i].peer_id@ != peer_id@,
            decreases slots@.len() - j,
        {
            proof {
                lemma_packed(slots@);
            }
            match slots[j] {
                Some(c) => {
                    assert(bucket[j as int] == c);
                    if c.peer_id == *peer_id {
                        proof {
                            lemma_find(bucket, j as int);
                        }
                        return Some(c);
                    }
                },
                None => {},
            }
            j += 1;
        }
        None
    }

    /// Appends the contacts of a bucket.
    fn extend_with(&self, out: &mut Vec<Contact>, bucket: usize)
        requires
            self.wf(),
            bucket < BUCKETS,
        ensures
            final(out)@ == old(out)@ + self@[bucket as int],
    {
        proof {
            lemma_slot_bound(self.bucket_size as int, bucket as int);
        }
        let bucket_start = bucket * self.bucket_size;
        let bucket_end = bucket_start + self.bucket_size;
        let slots = &self.contacts[bucket_start..bucket_end];
        let ghost start = out@;
        let mut j: usize = 0;
        assert(start + filled(slots@.take(0)) =~= start);
        while j < slots.len()
            invariant
                j <= slots@.len(),
                out@ == start + filled(slots@.take(j as int)),
            decreases slots@.len() - j,
        {
            assert(slots@.take(j + 1).drop_last() =~= slots@.take(j as int));
            let ghost before = out@;
            match slots[j] {
                Some(c) => {
                    out.push(c);
                    assert(out@ =~= start + filled(slots@.take(j as int)).push(c));
                },
                None => {},
            }
            j += 1;
        }
        assert(slots@.take(j as int) =~= slots@);
    }

    /// Returns the `count` peers, or the most we have anyway, that are closest
    /// to the given one. When the bucket of the given peer holds that many, no
    /// other bucket is searched.
    pub fn find_closest_peers(&self, needle: &PeerId, count: usize) -> (r: Vec<Contact>)
        requires
            self.wf(),
            count <= BUCKETS * self.size(),
        ensures
            r@ == nearest(all_from(self@, self.own(), *needle), needle@, count as nat),
            is_closest(self@, needle@, count as nat, r@),
    {
        let target = self.peer_id.distance_rank(needle) as usize;
        proof {
            law_nearest_of_all_is_closest(self@, self.own(), *needle, count as nat);
        }
        let ghost buckets = self@;
        let mut results: Vec<Contact> = Vec::new();
        self.extend_with(&mut results, target);
        assert(results@ =~= buckets[target as int]);
        if target != 0 && count <= results.len() {
            proof {
                law_full_bucket_is_enough(self@, self.own(), *needle, count as nat);
            }
            return select_nearest(&results, needle, count);
        }
        proof {
            lemma_visited(target as int, 0, 0);
            assert(walk(buckets, target as int, 0) =~= seq![]);
            assert(walk(buckets, target as int, 1) =~= results@);
        }
        let mut step: usize = 1;
        while step < BUCKETS
            invariant
                self.wf(),
                buckets == self@,
                target < BUCKETS,
                1 <= step <= BUCKETS,
                results@ == walk(buckets, target as int, step as nat),
            decreases BUCKETS - step,
        {
            let bucket = visit(target, step);
            self.extend_with(&mut results, bucket);
            step += 1;
        }
        select_nearest(&results, needle, count)
    }

    /// Looks up the given peer id. If we know about it, return the contact we
    /// have, otherwise return a list of the nearest peers we know to it.
    pub fn lookup(&self, peer_id: &PeerId) -> (r: Result<Contact, Vec<Contact>>)
        requires
            self.wf(),
        ensures
            match looked_up(self@, self.own(), *peer_id) {
                Some(c) => r == Ok::<Contact, Vec<Contact>>(c),
                None => r matches Err(found) && found@ == nearest(
                    all_from(self@, self.own(), *peer_id),
                    peer_id@,
                    self.size(),
                ) && is_closest(self@, peer_id@, self.size(), found@),
            },
    {
        match self.contains(peer_id) {
            Some(res) => Ok(res),
            None => Err(self.find_closest_peers(peer_id, self.bucket_size)),
        }
    }

    /// Returns total number of peers known.
    pub fn count(&self) -> (r: usize)
        requires
            self.wf(),
        ensures
            r == total(self@),
    {
        self.count
    }
}

/// What putting a contact into a slot does to the buckets.
proof fn lemma_put_slot(contacts: Seq<Option<Contact>>, size: int, r: int, j: int, c: Contact)
    requires
        contacts.len() == BUCKETS * size,
        0 <= r < BUCKETS,
        0 <= j < size,
        forall|q: int| 0 <= q < BUCKETS ==> packed(#[trigger] slots_of(contacts, size, q)),
        j <= filled(slots_of(contacts, size, r)).len(),
    ensures
        forall|q: int|
            0 <= q < BUCKETS ==> packed(
                #[trigger] slots_of(contacts.update(r * size + j, Some(c)), size, q),
            ),
        buckets_of(contacts.update(r * size + j, Some(c)), size) == buckets_of(
            contacts,
            size,
        ).update(
            r,
            if j < filled(slots_of(contacts, size, r)).len() {
                filled(slots_of(contacts, size, r)).update(j, c)
            } else {
                filled(slots_of(contacts, size, r)).push(c)
            },
        ),
{
    let new = contacts.update(r * size + j, Some(c));
    lemma_slot_bound(size, r);
    let s = slots_of(contacts, size, r);
    let t = slots_of(new, size, r);
    let b = filled(s);
    lemma_packed(s);
    assert forall|i: int| 0 <= i < size implies t[i] == s.update(j, Some(c))[i] by {
        assert(t[i] == new[r * size + i]);
        assert(s[i] == contacts[r * size + i]);
    }
    assert(t =~= s.update(j, Some(c)));
    assert forall|i: int, k: int|
        0 <= i < k < t.len() && #[trigger] t[k] is Some implies #[trigger] t[i] is Some by {
        if i != j {
            assert(s[i] == t[i]);
            if k == j {
                assert(i < b.len());
            } else {
                assert(s[k] == t[k]);
                assert(s[k] is Some);
            }
        }
    }
    lemma_packed(t);
    let want = if j < b.len() {
        b.update(j, c)
    } else {
        b.push(c)
    };
    assert(filled(t).len() == want.len()) by {
        let n = want.len() as int;
        if filled(t).len() < n {
            let k = filled(t).len() as int;
            assert(t[k] is None);
            if k != j {
                assert(s[k] == t[k]);
            }
        }
        if n < filled(t).len() {
            assert(t[n] is Some);
            assert(s[n] == t[n]);
        }
    }
    assert forall|i: int| 0 <= i < want.len() implies filled(t)[i] == want[i] by {
        assert(t[i] == Some(filled(t)[i]));
        if i != j {
            assert(s[i] == t[i]);
            assert(s[i] == Some(b[i]));
        }
    }
    assert(filled(t) =~= want);
    assert forall|q: int| 0 <= q < BUCKETS && q != r implies slots_of(new, size, q) == slots_of(
        contacts,
        size,
        q,
    ) by {
        lemma_slot_bound(size, q);
        lemma_slot_range(size, r, q, j);
        assert forall|i: int| 0 <= i < size implies slots_of(new, size, q)[i] == slots_of(
            contacts,
            size,
            q,
        )[i] by {
            assert(slots_of(new, size, q)[i] == new[q * size + i]);
        }
        assert(slots_of(new, size, q) =~= slots_of(contacts, size, q));
    }
    assert(buckets_of(new, size) =~= buckets_of(contacts, size).update(r, want));
}

/// A peer that is known is replaced: whatever else its bucket holds, after an
/// insert the map holds the new contact where it held the old one, and looking
/// the peer up gives it.
pub proof fn law_insert_replaces_a_known_peer(
    map: &mut FlatPeerMap,
    new_peer: Contact,
    r: int,
    i: int,
)
    requires
        old(map).wf(),
        0 <= r < old(map)@.len(),
        0 <= i < old(map)@[r].len(),
        old(map)@[r][i].peer_id@ == new_peer.peer_id@,
        call_ensures(FlatPeerMap::insert, (map, new_peer), ()),
    ensures
        final(map)@ == old(map)@.update(r, old(map)@[r].update(i, new_peer)),
        looked_up(final(map)@, final(map).own(), new_peer.peer_id) == Some(new_peer),
{
    buckets::law_insert_replaces_a_known_peer(
        old(map)@,
        old(map).own(),
        old(map).size(),
        new_peer,
        r,
        i,
    );
}

/// A peer that is not known is added if its bucket has room, and left out if it
/// has none; then nothing changes.
pub proof fn law_insert_adds_a_new_peer(map: &mut FlatPeerMap, new_peer: Contact)
    requires
        old(map).wf(),
        forall|r: int, i: int|
            0 <= r < old(map)@.len() && 0 <= i < old(map)@[r].len() ==> (
            #[trigger] old(map)@[r][i]).peer_id@ != new_peer.peer_id@,
        call_ensures(FlatPeerMap::insert, (map, new_peer), ()),
    ensures
        ({
            let b = bucket_number(old(map).own(), new_peer.peer_id);
            if old(map)@[b].len() < old(map).size() {
                &&& final(map)@ == old(map)@.update(b, old(map)@[b].push(new_peer))
                &&& looked_up(final(map)@, final(map).own(), new_peer.peer_id) == Some(new_peer)
            } else {
                final(map)@ == old(map)@
            }
        }),
{
    buckets::law_insert_adds_a_new_peer(old(map)@, old(map).own(), old(map).size(), new_peer);
}

/// Asking a map whether it knows a peer gives the contact that it holds for it,
/// and nothing if it holds none.
pub proof fn law_contains_gives_what_is_held(
    map: FlatPeerMap,
    id: PeerId,
    found: Option<Contact>,
    r: int,
    i: int,
)
    requires
        map.wf(),
        call_ensures(FlatPeerMap::contains, (&map, &id), found),
    ensures
        0 <= r < map@.len() && 0 <= i < map@[r].len() && map@[r][i].peer_id@ == id@ ==> found
            == Some(map@[r][i]),
        found matches Some(c) ==> c.peer_id@ == id@ && (exists|q: int, j: int|
            0 <= q < map@.len() && 0 <= j < map@[q].len() && #[trigger] map@[q][j] == c),
{
    if 0 <= r < map@.len() && 0 <= i < map@[r].len() && map@[r][i].peer_id@ == id@ {
        law_lookup_gives_what_is_held(map@, map.own(), id, map@[r][i]);
    }
    if let Some(c) = found {
        law_lookup_gives_what_is_held(map@, map.own(), id, c);
    }
}

/// The closest peers to any other, of those that the map holds: no peer twice,
/// only contacts that are held, no more than were asked for; what is held and
/// not returned is farther than all that is, and then as many as were asked for
/// are returned.
pub proof fn law_closest_peers_are_found(
    map: FlatPeerMap,
    needle: PeerId,
    count: usize,
    found: Vec<Contact>,
)
    requires
        map.wf(),
        count <= BUCKETS * map.size(),
        call_ensures(FlatPeerMap::find_closest_peers, (&map, &needle, count), found),
    ensures
        found@.len() <= count,
        forall|i: int, j: int|
            0 <= i < j < found@.len() ==> (#[trigger] found@[i]).peer_id@ != (
            #[trigger] found@[j]).peer_id@,
        forall|x: Contact| #[trigger]
            found@.contains(x) ==> (exists|r: int, i: int|
                0 <= r < map@.len() && 0 <= i < map@[r].len() && #[trigger] map@[r][i] == x),
        forall|r: int, i: int|
            0 <= r < map@.len() && 0 <= i < map@[r].len() && !found@.contains(
                #[trigger] map@[r][i],
            ) ==> found@.len() == count,
        forall|r: int, i: int, k: int|
            0 <= r < map@.len() && 0 <= i < map@[r].len() && !found@.contains(
                #[trigger] map@[r][i],
            ) && 0 <= k < found@.len() ==> distance((#[trigger] found@[k]).peer_id@, needle@)
                < distance(map@[r][i].peer_id@, needle@),
{
    law_closest_are_named(map@, map.own(), needle@, count as nat, found@);
}

/// Looking a peer up gives the contact that is held for it; for one that is not
/// held, the closest to it, as many as a bucket has room for, or all if there
/// are fewer.
pub proof fn law_lookup_gives_the_peer_or_the_closest(
    map: FlatPeerMap,
    id: PeerId,
    res: Result<Contact, Vec<Contact>>,
)
    requires
        map.wf(),
        call_ensures(FlatPeerMap::lookup, (&map, &id), res),
    ensures
        forall|r: int, i: int|
            0 <= r < map@.len() && 0 <= i < map@[r].len() && (#[trigger] map@[r][i]).peer_id@
                == id@ ==> res == Ok::<Contact, Vec<Contact>>(map@[r][i]),
        match res {
            Ok(c) => c.peer_id@ == id@ && (exists|r: int, i: int|
                0 <= r < map@.len() && 0 <= i < map@[r].len() && #[trigger] map@[r][i] == c),
            Err(found) => {
                &&& found@.len() <= map.size()
                &&& forall|i: int, j: int|
                    0 <= i < j < found@.len() ==> (#[trigger] found@[i]).peer_id@ != (
                    #[trigger] found@[j]).peer_id@
                &&& forall|x: Contact| #[trigger]
                    found@.contains(x) ==> (exists|r: int, i: int|
                        0 <= r < map@.len() && 0 <= i < map@[r].len() && #[trigger] map@[r][i]
                            == x)
                &&& forall|r: int, i: int|
                    0 <= r < map@.len() && 0 <= i < map@[r].len() && !found@.contains(
                        #[trigger] map@[r][i],
                    ) ==> found@.len() == map.size()
                &&& forall|r: int, i: int, k: int|
                    0 <= r < map@.len() && 0 <= i < map@[r].len() && !found@.contains(
                        #[trigger] map@[r][i],
                    ) && 0 <= k < found@.len() ==> distance(
                        (#[trigger] found@[k]).peer_id@,
                        id@,
                    ) < distance(map@[r][i].peer_id@, id@)
            },
        },
{
    assert forall|r: int, i: int|
        0 <= r < map@.len() && 0 <= i < map@[r].len() && (#[trigger] map@[r][i]).peer_id@
            == id@ implies res == Ok::<Contact, Vec<Contact>>(map@[r][i]) by {
        law_lookup_gives_what_is_held(map@, map.own(), id, map@[r][i]);
    }
    match res {
        Ok(c) => {
            law_lookup_gives_what_is_held(map@, map.own(), id, c);
        },
        Err(found) => {
            law_closest_are_named(map@, map.own(), id@, map.size(), found@);
        },
    }
}

/// The count goes up by one with each new peer that is taken, and not otherwise.
pub proof fn law_count_counts_peers(
    map: &mut FlatPeerMap,
    new_peer: Contact,
    after: FlatPeerMap,
    before_count: usize,
    after_count: usize,
    before: FlatPeerMap,
)
    requires
        old(map).wf(),
        before == *old(map),
        call_ensures(FlatPeerMap::insert, (map, new_peer), ()),
        after@ == final(map)@,
        call_ensures(FlatPeerMap::count, (&before,), before_count),
        call_ensures(FlatPeerMap::count, (&after,), after_count),
    ensures
        (exists|r: int, i: int|
            0 <= r < before@.len() && 0 <= i < before@[r].len() && (
            #[trigger] before@[r][i]).peer_id@ == new_peer.peer_id@) ==> after_count
            == before_count,
        !(exists|r: int, i: int|
            0 <= r < before@.len() && 0 <= i < before@[r].len() && (
            #[trigger] before@[r][i]).peer_id@ == new_peer.peer_id@) ==> after_count
            == before_count + (if before@[bucket_number(before.own(), new_peer.peer_id)].len()
            < before.size() {
            1int
        } else {
            0int
        }),
{
    let b = bucket_number(before.own(), new_peer.peer_id);
    lemma_bucket_number(before.own(), new_peer.peer_id);
    if exists|r: int, i: int|
        0 <= r < before@.len() && 0 <= i < before@[r].len() && (
        #[trigger] before@[r][i]).peer_id@ == new_peer.peer_id@ {
        let (r, i) = choose|r: int, i: int|
            0 <= r < before@.len() && 0 <= i < before@[r].len() && (
            #[trigger] before@[r][i]).peer_id@ == new_peer.peer_id@;
        buckets::law_insert_replaces_a_known_peer(
            before@,
            before.own(),
            before.size(),
            new_peer,
            r,
            i,
        );
        lemma_total_update(before@, r, before@[r].update(i, new_peer));
    } else {
        buckets::law_insert_adds_a_new_peer(before@, before.own(), before.size(), new_peer);
        lemma_total_update(before@, b, before@[b].push(new_peer));
    }
}

} // verus!
