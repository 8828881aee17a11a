//! Buckets of contacts: what the peer maps hold.
//!
//! A contact stands in the bucket whose number is the rank of its distance to
//! the peer that keeps the map.

use vstd::prelude::*;

use crate::closest::{
    distance_to, distinct, law_nearest_is_closest, law_nearest_is_distinct, law_nearest_is_known,
    law_nearest_len, lemma_distinct_remove, lemma_nearest_in_front, nearest,
};
use crate::distance::{distance, law_own_bucket_is_closest, law_rank_bound, rank, xor_bytes};
use crate::types::{lemma_peer_id_view, Contact, PeerId};

verus! {

/// The number of buckets: one for each bit of a hash.
pub const BUCKETS: usize = 256;

/// The number of the bucket in which a map that is kept by `own` holds `id`.
pub open spec fn bucket_number(own: PeerId, id: PeerId) -> int {
    rank(xor_bytes(own@, id@)) as int
}

/// Whether a bucket holds the peer with the given bytes.
pub open spec fn has(bucket: Seq<Contact>, id: Seq<u8>) -> bool {
    exists|i: int| 0 <= i < bucket.len() && #[trigger] bucket[i].peer_id@ == id
}

/// Where a bucket holds the peer with the given bytes.
pub open spec fn place(bucket: Seq<Contact>, id: Seq<u8>) -> int {
    choose|i: int| 0 <= i < bucket.len() && #[trigger] bucket[i].peer_id@ == id
}

/// What a bucket says about a peer.
pub open spec fn find(bucket: Seq<Contact>, id: Seq<u8>) -> Option<Contact> {
    if has(bucket, id) {
        Some(bucket[place(bucket, id)])
    } else {
        None
    }
}

/// The bucket with a contact put in: in the place of what it held about that
/// peer, or at the end.
pub open spec fn with_contact(bucket: Seq<Contact>, c: Contact) -> Seq<Contact> {
    if has(bucket, c.peer_id@) {
        bucket.update(place(bucket, c.peer_id@), c)
    } else {
        bucket.push(c)
    }
}

/// The bucket with a contact put in, if it has that peer already or has room
/// for one more among `size`.
pub open spec fn with_contact_if_room(
    bucket: Seq<Contact>,
    size: nat,
    c: Contact,
) -> Seq<Contact> {
    if has(bucket, c.peer_id@) || bucket.len() < size {
        with_contact(bucket, c)
    } else {
        bucket
    }
}

/// The buckets of `own` with a contact put in.
pub open spec fn inserted(buckets: Seq<Seq<Contact>>, own: PeerId, c: Contact) -> Seq<
    Seq<Contact>,
> {
    let r = bucket_number(own, c.peer_id);
    buckets.update(r, with_contact(buckets[r], c))
}

/// The buckets of `own`, which have room for `size` contacts each, with a
/// contact put in if there is room for it.
pub open spec fn inserted_if_room(
    buckets: Seq<Seq<Contact>>,
    own: PeerId,
    size: nat,
    c: Contact,
) -> Seq<Seq<Contact>> {
    let r = bucket_number(own, c.peer_id);
    buckets.update(r, with_contact_if_room(buckets[r], size, c))
}

/// What the buckets of `own` say about a peer.
pub open spec fn looked_up(buckets: Seq<Seq<Contact>>, own: PeerId, id: PeerId) -> Option<
    Contact,
> {
    find(buckets[bucket_number(own, id)], id@)
}

/// Whether every contact stands in the bucket where the map of `own` keeps it,
/// and no peer stands there twice.
pub open spec fn placed(buckets: Seq<Seq<Contact>>, own: PeerId) -> bool {
    &&& buckets.len() == BUCKETS
    &&& forall|r: int| 0 <= r < BUCKETS ==> distinct(#[trigger] buckets[r])
    &&& forall|r: int, i: int|
        0 <= r < BUCKETS && 0 <= i < buckets[r].len() ==> bucket_number(
            own,
            #[trigger] buckets[r][i].peer_id,
        ) == r
}

/// The number of contacts in all buckets.
pub open spec fn total(buckets: Seq<Seq<Contact>>) -> nat
    decreases buckets.len(),
{
    if buckets.len() == 0 {
        0
    } else {
        total(buckets.drop_last()) + buckets.last().len()
    }
}

/// The bucket that is visited at step `k` of a walk that starts at bucket `r`
/// and goes outwards, a bucket ahead and a bucket behind in turn, around the
/// ring of buckets.
pub open spec fn visited(r: int, k: int) -> int {
    if k % 2 == 1 {
        (r + (k + 1) / 2) % 256
    } else {
        (r - k / 2) % 256
    }
}

/// The bucket that is visited at a step of the walk from bucket `r`.
pub(crate) fn visit(r: usize, step: usize) -> (b: usize)
    requires
        r < BUCKETS,
        step < BUCKETS,
    ensures
        b == visited(r as int, step as int),
        b < BUCKETS,
{
    if step % 2 == 1 {
        (r + (step + 1) / 2) % BUCKETS
    } else {
        (r + BUCKETS - step / 2) % BUCKETS
    }
}

/// The contacts in the first `n` buckets of the walk from bucket `r`.
pub open spec fn walk(buckets: Seq<Seq<Contact>>, r: int, n: nat) -> Seq<Contact>
    decreases n,
{
    if n == 0 {
        seq![]
    } else {
        walk(buckets, r, (n - 1) as nat) + buckets[visited(r, n - 1)]
    }
}

/// All contacts, in the order of the walk from the bucket of `id`.
pub open spec fn all_from(buckets: Seq<Seq<Contact>>, own: PeerId, id: PeerId) -> Seq<Contact> {
    walk(buckets, bucket_number(own, id), BUCKETS as nat)
}

/// Whether a contact is in one of the buckets.
pub open spec fn known(buckets: Seq<Seq<Contact>>, c: Contact) -> bool {
    exists|r: int, i: int|
        0 <= r < buckets.len() && 0 <= i < buckets[r].len() && #[trigger] buckets[r][i] == c
}

/// Whether `found` lists the `count` known contacts that are closest to
/// `needle`, or all of them if there are fewer, and each peer once.
pub open spec fn is_closest(
    buckets: Seq<Seq<Contact>>,
    needle: Seq<u8>,
    count: nat,
    found: Seq<Contact>,
) -> bool {
    &&& found.len() == (if count < total(buckets) {
        count
    } else {
        total(buckets)
    })
    &&& distinct(found)
    &&& forall|x: Contact| #[trigger] found.contains(x) ==> known(buckets, x)
    &&& forall|x: Contact, y: Contact|
        #[trigger] found.contains(x) && #[trigger] known(buckets, y) && !found.contains(y)
            ==> distance_to(x, needle) < distance_to(y, needle)
}

/// There is a bucket for every peer.
pub proof fn lemma_bucket_number(own: PeerId, id: PeerId)
    ensures
        0 <= bucket_number(own, id) < BUCKETS,
{
    lemma_peer_id_view(own, id);
    law_rank_bound(xor_bytes(own@, id@));
}

/// The walk visits each bucket once.
pub proof fn lemma_visited(r: int, k: int, l: int)
    requires
        0 <= r < 256,
        0 <= k < 256,
        0 <= l < 256,
    ensures
        0 <= visited(r, k) < 256,
        visited(r, k) == visited(r, l) ==> k == l,
        k == 0 ==> visited(r, k) == r,
{
    let a = if k % 2 == 1 {
        (k + 1) / 2
    } else {
        -(k / 2)
    };
    let b = if l % 2 == 1 {
        (l + 1) / 2
    } else {
        -(l / 2)
    };
    assert(-127 <= a <= 128 && -127 <= b <= 128);
    assert(visited(r, k) == (r + a) % 256 && visited(r, l) == (r + b) % 256);
    if visited(r, k) == visited(r, l) {
        lemma_same_residue(r + a, r + b);
        assert(a == b);
    }
}

proof fn lemma_same_residue(a: int, b: int)
    requires
        a % 256 == b % 256,
        -256 < a - b < 256,
    ensures
        a == b,
{
}

/// The step at which the walk visits a bucket.
pub proof fn lemma_visit(r: int, b: int) -> (k: int)
    requires
        0 <= r < 256,
        0 <= b < 256,
    ensures
        0 <= k < 256,
        visited(r, k) == b,
{
    let d = (b - r) % 256;
    if d == 0 {
        0
    } else if d <= 128 {
        2 * d - 1
    } else {
        2 * (256 - d)
    }
}

/// Changing one bucket changes the total by what that bucket gains.
pub proof fn lemma_total_update(buckets: Seq<Seq<Contact>>, r: int, b: Seq<Contact>)
    requires
        0 <= r < buckets.len(),
    ensures
        total(buckets.update(r, b)) + buckets[r].len() == total(buckets) + b.len(),
    decreases buckets.len(),
{
    let n = buckets.len() - 1;
    let new = buckets.update(r, b);
    if r == n {
        assert(new.drop_last() =~= buckets.drop_last());
    } else {
        lemma_total_update(buckets.drop_last(), r, b);
        assert(new.drop_last() =~= buckets.drop_last().update(r, b));
    }
}

/// Buckets that hold no more than `size` contacts each hold no more than that
/// many times their number.
pub proof fn lemma_total_bound(buckets: Seq<Seq<Contact>>, size: nat)
    requires
        forall|r: int| 0 <= r < buckets.len() ==> (#[trigger] buckets[r]).len() <= size,
    ensures
        total(buckets) <= buckets.len() * size,
    decreases buckets.len(),
{
    if buckets.len() > 0 {
        let rest = buckets.drop_last();
        assert forall|r: int| 0 <= r < rest.len() implies (#[trigger] rest[r]).len() <= size by {
            assert(rest[r] == buckets[r]);
        }
        lemma_total_bound(rest, size);
        assert(buckets.last() == buckets[buckets.len() - 1]);
        assert(buckets.len() * size == rest.len() * size + size) by (nonlinear_arith)
            requires
                buckets.len() == rest.len() + 1,
        ;
    }
}

/// Where a contact of the walk comes from.
proof fn lemma_walk_member(buckets: Seq<Seq<Contact>>, r: int, n: nat, i: int) -> (at: (int, int))
    requires
        0 <= r < 256,
        n <= 256,
        0 <= i < walk(buckets, r, n).len(),
    ensures
        0 <= at.0 < n,
        0 <= at.1 < buckets[visited(r, at.0)].len(),
        walk(buckets, r, n)[i] == buckets[visited(r, at.0)][at.1],
        i >= buckets[r].len() ==> at.0 >= 1,
    decreases n,
{
    let before = walk(buckets, r, (n - 1) as nat);
    lemma_visited(r, 0, 0);
    if i < before.len() {
        lemma_walk_member(buckets, r, (n - 1) as nat, i)
    } else {
        assert(n == 1 ==> before.len() == 0);
        (n - 1, i - before.len())
    }
}

/// The walk meets every contact of the buckets it visits.
proof fn lemma_walk_contains(buckets: Seq<Seq<Contact>>, r: int, n: nat, k: int, j: int)
    requires
        0 <= k < n,
        0 <= j < buckets[visited(r, k)].len(),
    ensures
        walk(buckets, r, n).contains(buckets[visited(r, k)][j]),
    decreases n,
{
    let c = buckets[visited(r, k)][j];
    let before = walk(buckets, r, (n - 1) as nat);
    if k < n - 1 {
        lemma_walk_contains(buckets, r, (n - 1) as nat, k, j);
        let i = choose|i: int| 0 <= i < before.len() && before[i] == c;
        assert(walk(buckets, r, n)[i] == c);
    } else {
        assert(walk(buckets, r, n)[before.len() + j] == c);
    }
}

/// The walk meets no peer twice.
proof fn lemma_walk_distinct(buckets: Seq<Seq<Contact>>, own: PeerId, r: int, n: nat)
    requires
        placed(buckets, own),
        0 <= r < 256,
        n <= 256,
    ensures
        distinct(walk(buckets, r, n)),
    decreases n,
{
    if n > 0 {
        let before = walk(buckets, r, (n - 1) as nat);
        let b = visited(r, n - 1);
        lemma_walk_distinct(buckets, own, r, (n - 1) as nat);
        lemma_visited(r, n - 1, n - 1);
        let all = walk(buckets, r, n);
        assert forall|i: int, j: int| 0 <= i < j < all.len() implies #[trigger] all[i].peer_id@
            != #[trigger] all[j].peer_id@ by {
            if j < before.len() {
                assert(before[i].peer_id@ != before[j].peer_id@);
            } else {
                let y = buckets[b][j - before.len()];
                assert(all[j] == y);
                if i < before.len() {
                    let (k, l) = lemma_walk_member(buckets, r, (n - 1) as nat, i);
                    lemma_visited(r, k, n - 1);
                    let x = buckets[visited(r, k)][l];
                    assert(all[i] == x);
                    assert(bucket_number(own, x.peer_id) == visited(r, k));
                    assert(bucket_number(own, y.peer_id) == b);
                } else {
                    assert(distinct(buckets[b]));
                    assert(all[i] == buckets[b][i - before.len()]);
                }
            }
        }
    }
}

/// The walk begins with the bucket it starts from.
proof fn lemma_walk_front(buckets: Seq<Seq<Contact>>, r: int, n: nat)
    requires
        0 <= r < 256,
        1 <= n,
    ensures
        buckets[r].len() <= walk(buckets, r, n).len(),
        walk(buckets, r, n).take(buckets[r].len() as int) == buckets[r],
    decreases n,
{
    let size = buckets[r].len() as int;
    lemma_visited(r, 0, 0);
    if n == 1 {
        assert(walk(buckets, r, 0) =~= seq![]);
        assert(walk(buckets, r, n) =~= buckets[r]);
        assert(walk(buckets, r, n).take(size) =~= buckets[r]);
    } else {
        lemma_walk_front(buckets, r, (n - 1) as nat);
        assert(walk(buckets, r, n).take(size) =~= walk(buckets, r, (n - 1) as nat).take(size));
    }
}

/// The buckets that the first `n` steps of the walk have visited, with the rest
/// left empty.
spec fn seen(buckets: Seq<Seq<Contact>>, r: int, n: nat) -> Seq<Seq<Contact>> {
    Seq::new(
        buckets.len(),
        |b: int|
            if exists|k: int| 0 <= k < n && #[trigger] visited(r, k) == b {
                buckets[b]
            } else {
                seq![]
            },
    )
}

proof fn lemma_walk_seen(buckets: Seq<Seq<Contact>>, r: int, n: nat)
    requires
        buckets.len() == 256,
        0 <= r < 256,
        n <= 256,
    ensures
        walk(buckets, r, n).len() == total(seen(buckets, r, n)),
    decreases n,
{
    if n == 0 {
        lemma_total_bound(seen(buckets, r, n), 0);
    } else {
        let m = (n - 1) as nat;
        let b = visited(r, m as int);
        lemma_walk_seen(buckets, r, m);
        lemma_visited(r, m as int, m as int);
        let before = seen(buckets, r, m);
        let after = seen(buckets, r, n);
        assert(before[b].len() == 0) by {
            assert forall|k: int| 0 <= k < m implies #[trigger] visited(r, k) != b by {
                lemma_visited(r, k, m as int);
            }
        }
        assert forall|i: int| 0 <= i < 256 implies after[i] == before.update(b, buckets[b])[i] by {
            if i == b {
                assert(visited(r, m as int) == b);
            } else {
                if exists|k: int| 0 <= k < n && #[trigger] visited(r, k) == i {
                    let k = choose|k: int| 0 <= k < n && #[trigger] visited(r, k) == i;
                    assert(0 <= k < m && visited(r, k) == i);
                }
            }
        }
        assert(after =~= before.update(b, buckets[b]));
        lemma_total_update(before, b, buckets[b]);
    }
}

/// The whole walk meets every contact, and each peer once.
pub proof fn lemma_all_from(buckets: Seq<Seq<Contact>>, own: PeerId, id: PeerId)
    requires
        placed(buckets, own),
    ensures
        distinct(all_from(buckets, own, id)),
        all_from(buckets, own, id).len() == total(buckets),
        forall|r: int, i: int|
            0 <= r < BUCKETS && 0 <= i < buckets[r].len() ==> all_from(buckets, own, id).contains(
                #[trigger] buckets[r][i],
            ),
{
    let r = bucket_number(own, id);
    lemma_bucket_number(own, id);
    lemma_walk_distinct(buckets, own, r, 256);
    lemma_walk_seen(buckets, r, 256);
    let s = seen(buckets, r, 256);
    assert forall|b: int| 0 <= b < 256 implies s[b] == buckets[b] by {
        let k = lemma_visit(r, b);
        assert(visited(r, k) == b);
    }
    assert(s =~= buckets);
    assert forall|b: int, i: int|
        0 <= b < BUCKETS && 0 <= i < buckets[b].len() implies all_from(
        buckets,
        own,
        id,
    ).contains(#[trigger] buckets[b][i]) by {
        let k = lemma_visit(r, b);
        lemma_walk_contains(buckets, r, 256, k, i);
    }
}

/// A bucket that holds `count` contacts holds the `count` that are closest to
/// any peer that belongs in it. Bucket zero is left out.
pub proof fn law_full_bucket_is_enough(
    buckets: Seq<Seq<Contact>>,
    own: PeerId,
    id: PeerId,
    count: nat,
)
    requires
        placed(buckets, own),
        bucket_number(own, id) != 0,
        count <= buckets[bucket_number(own, id)].len(),
    ensures
        nearest(all_from(buckets, own, id), id@, count) == nearest(
            buckets[bucket_number(own, id)],
            id@,
            count,
        ),
{
    let r = bucket_number(own, id);
    lemma_bucket_number(own, id);
    let all = all_from(buckets, own, id);
    let front = buckets[r];
    let size = front.len() as int;
    lemma_walk_front(buckets, r, 256);
    let rest = all.skip(size);
    assert(all =~= front + rest);
    assert forall|i: int, j: int| 0 <= i < front.len() && 0 <= j < rest.len() implies distance_to(
        #[trigger] front[i],
        id@,
    ) < distance_to(#[trigger] rest[j], id@) by {
        let (k, l) = lemma_walk_member(buckets, r, 256, size + j);
        lemma_visited(r, 0, k);
        lemma_visited(r, k, k);
        let x = front[i];
        let y = buckets[visited(r, k)][l];
        assert(rest[j] == y);
        assert(bucket_number(own, buckets[r][i].peer_id) == r);
        assert(bucket_number(own, y.peer_id) == visited(r, k));
        lemma_peer_id_view(own, id);
        lemma_peer_id_view(id, x.peer_id);
        lemma_peer_id_view(x.peer_id, y.peer_id);
        lemma_peer_id_view(y.peer_id, own);
        law_own_bucket_is_closest(own@, id@, x.peer_id@, y.peer_id@);
    }
    lemma_nearest_in_front(front, rest, id@, count);
}

/// Picking the nearest out of the walk gives the closest of all known contacts.
pub proof fn law_nearest_of_all_is_closest(
    buckets: Seq<Seq<Contact>>,
    own: PeerId,
    id: PeerId,
    count: nat,
)
    requires
        placed(buckets, own),
    ensures
        is_closest(buckets, id@, count, nearest(all_from(buckets, own, id), id@, count)),
{
    let all = all_from(buckets, own, id);
    let found = nearest(all, id@, count);
    let r = bucket_number(own, id);
    lemma_bucket_number(own, id);
    lemma_all_from(buckets, own, id);
    law_nearest_len(all, id, count);
    law_nearest_is_distinct(all, id@, count);
    assert forall|x: Contact| #[trigger] found.contains(x) implies known(buckets, x) by {
        law_nearest_is_known(all, id@, count, x);
        let i = choose|i: int| 0 <= i < all.len() && all[i] == x;
        let (k, j) = lemma_walk_member(buckets, r, 256, i);
        lemma_visited(r, k, k);
        assert(buckets[visited(r, k)][j] == x);
    }
    assert forall|x: Contact, y: Contact|
        #[trigger] found.contains(x) && #[trigger] known(buckets, y) && !found.contains(
            y,
        ) implies distance_to(x, id@) < distance_to(y, id@) by {
        let (b, i) = choose|b: int, i: int|
            0 <= b < buckets.len() && 0 <= i < buckets[b].len() && #[trigger] buckets[b][i] == y;
        assert(all.contains(buckets[b][i]));
        law_nearest_is_closest(all, id, count, x, y);
    }
}

/// A peer is found where it stands.
pub proof fn lemma_find(bucket: Seq<Contact>, i: int)
    requires
        distinct(bucket),
        0 <= i < bucket.len(),
    ensures
        has(bucket, bucket[i].peer_id@),
        place(bucket, bucket[i].peer_id@) == i,
        find(bucket, bucket[i].peer_id@) == Some(bucket[i]),
{
    let id = bucket[i].peer_id@;
    assert(has(bucket, id));
    let p = place(bucket, id);
    assert(0 <= p < bucket.len() && bucket[p].peer_id@ == id);
    if p < i {
        assert(bucket[p].peer_id@ != bucket[i].peer_id@);
    }
    if i < p {
        assert(bucket[i].peer_id@ != bucket[p].peer_id@);
    }
}

/// Putting a contact in makes no duplicate.
pub proof fn law_put_keeps_distinct(bucket: Seq<Contact>, c: Contact)
    requires
        distinct(bucket),
    ensures
        distinct(with_contact(bucket, c)),
{
    let new = with_contact(bucket, c);
    assert forall|i: int, j: int| 0 <= i < j < new.len() implies #[trigger] new[i].peer_id@
        != #[trigger] new[j].peer_id@ by {
        if has(bucket, c.peer_id@) {
            let p = place(bucket, c.peer_id@);
            assert(bucket[p].peer_id@ == c.peer_id@);
            assert(bucket[i].peer_id@ != bucket[j].peer_id@);
        } else {
            assert(bucket[i].peer_id@ != c.peer_id@);
            if j < bucket.len() {
                assert(bucket[i].peer_id@ != bucket[j].peer_id@);
            }
        }
    }
}

/// What was put in is found, and replaces what was known about that peer.
pub proof fn law_put_is_found(bucket: Seq<Contact>, c: Contact)
    requires
        distinct(bucket),
    ensures
        find(with_contact(bucket, c), c.peer_id@) == Some(c),
{
    law_put_keeps_distinct(bucket, c);
    let new = with_contact(bucket, c);
    if has(bucket, c.peer_id@) {
        let p = place(bucket, c.peer_id@);
        assert(new[p] == c);
        lemma_find(new, p);
    } else {
        assert(new[bucket.len() as int] == c);
        lemma_find(new, bucket.len() as int);
    }
}

/// A bucket where a contact was put is still in order.
pub proof fn lemma_placed_update(
    buckets: Seq<Seq<Contact>>,
    own: PeerId,
    c: Contact,
    b: Seq<Contact>,
)
    requires
        placed(buckets, own),
        b == with_contact(buckets[bucket_number(own, c.peer_id)], c) || b
            == buckets[bucket_number(own, c.peer_id)],
    ensures
        placed(buckets.update(bucket_number(own, c.peer_id), b), own),
{
    let r = bucket_number(own, c.peer_id);
    lemma_bucket_number(own, c.peer_id);
    law_put_keeps_distinct(buckets[r], c);
    let new = buckets.update(r, b);
    assert forall|q: int, i: int| 0 <= q < BUCKETS && 0 <= i < new[q].len() implies bucket_number(
        own,
        #[trigger] new[q][i].peer_id,
    ) == q by {
        if q == r {
            if b[i] != c {
                assert(b[i] == buckets[r][i]);
            }
        } else {
            assert(new[q] == buckets[q]);
            assert(bucket_number(own, buckets[q][i].peer_id) == q);
        }
    }
}

/// What is known about other peers stays as it is.
pub proof fn law_put_keeps_others(bucket: Seq<Contact>, c: Contact, id: Seq<u8>)
    requires
        distinct(bucket),
        id != c.peer_id@,
    ensures
        find(with_contact(bucket, c), id) == find(bucket, id),
{
    law_put_keeps_distinct(bucket, c);
    let new = with_contact(bucket, c);
    if has(bucket, id) {
        let p = place(bucket, id);
        assert(bucket[p].peer_id@ == id);
        assert(new[p] == bucket[p]);
        lemma_find(bucket, p);
        lemma_find(new, p);
    } else if has(new, id) {
        let p = place(new, id);
        assert(new[p].peer_id@ == id);
        if p < bucket.len() {
            if new[p] == bucket[p] {
                assert(bucket[p].peer_id@ == id);
            }
        }
    }
}

/// Whether the map of `own` takes a contact: it knows the peer, or its bucket
/// has room.
pub open spec fn takes(buckets: Seq<Seq<Contact>>, own: PeerId, size: nat, c: Contact) -> bool {
    looked_up(buckets, own, c.peer_id) is Some || buckets[bucket_number(own, c.peer_id)].len()
        < size
}

/// A peer that was inserted is found, with the address it was inserted with.
pub proof fn law_inserted_is_found(buckets: Seq<Seq<Contact>>, own: PeerId, c: Contact)
    requires
        placed(buckets, own),
    ensures
        looked_up(inserted(buckets, own, c), own, c.peer_id) == Some(c),
{
    lemma_bucket_number(own, c.peer_id);
    law_put_is_found(buckets[bucket_number(own, c.peer_id)], c);
}

/// Inserting a peer changes nothing about the others.
pub proof fn law_inserted_keeps_others(
    buckets: Seq<Seq<Contact>>,
    own: PeerId,
    c: Contact,
    id: PeerId,
)
    requires
        placed(buckets, own),
        id@ != c.peer_id@,
    ensures
        looked_up(inserted(buckets, own, c), own, id) == looked_up(buckets, own, id),
{
    lemma_bucket_number(own, c.peer_id);
    lemma_bucket_number(own, id);
    law_put_keeps_others(buckets[bucket_number(own, c.peer_id)], c, id@);
}

/// Inserting a peer keeps the buckets in order.
pub proof fn law_inserted_stays_placed(buckets: Seq<Seq<Contact>>, own: PeerId, c: Contact)
    requires
        placed(buckets, own),
    ensures
        placed(inserted(buckets, own, c), own),
{
    lemma_placed_update(
        buckets,
        own,
        c,
        with_contact(buckets[bucket_number(own, c.peer_id)], c),
    );
}

/// There are no duplicates: a peer that is inserted again replaces what was
/// known about it, as if it had been inserted only the second time.
pub proof fn law_inserted_again_replaces(
    buckets: Seq<Seq<Contact>>,
    own: PeerId,
    c: Contact,
    d: Contact,
)
    requires
        placed(buckets, own),
        c.peer_id@ == d.peer_id@,
    ensures
        inserted(inserted(buckets, own, c), own, d) == inserted(buckets, own, d),
{
    let r = bucket_number(own, c.peer_id);
    let b = buckets[r];
    let once = with_contact(b, c);
    lemma_bucket_number(own, c.peer_id);
    law_put_keeps_distinct(b, c);
    if has(b, c.peer_id@) {
        let p = place(b, c.peer_id@);
        assert(once[p] == c);
        lemma_find(once, p);
        assert(with_contact(once, d) =~= with_contact(b, d));
    } else {
        assert(once[b.len() as int] == c);
        lemma_find(once, b.len() as int);
        assert(with_contact(once, d) =~= with_contact(b, d));
    }
    assert(inserted(inserted(buckets, own, c), own, d) =~= inserted(buckets, own, d));
}

/// Inserting a peer that was not known adds one to the total; inserting one
/// that was known adds nothing.
pub proof fn law_inserted_counts(buckets: Seq<Seq<Contact>>, own: PeerId, c: Contact)
    requires
        placed(buckets, own),
    ensures
        total(inserted(buckets, own, c)) == total(buckets) + (if looked_up(
            buckets,
            own,
            c.peer_id,
        ) is Some {
            0nat
        } else {
            1nat
        }),
{
    let r = bucket_number(own, c.peer_id);
    lemma_bucket_number(own, c.peer_id);
    lemma_total_update(buckets, r, with_contact(buckets[r], c));
}

/// A map with limited room takes a contact like one without, or changes
/// nothing.
pub proof fn law_inserted_if_room(
    buckets: Seq<Seq<Contact>>,
    own: PeerId,
    size: nat,
    c: Contact,
)
    requires
        placed(buckets, own),
    ensures
        takes(buckets, own, size, c) ==> inserted_if_room(buckets, own, size, c) == inserted(
            buckets,
            own,
            c,
        ),
        !takes(buckets, own, size, c) ==> inserted_if_room(buckets, own, size, c) == buckets,
{
    let r = bucket_number(own, c.peer_id);
    lemma_bucket_number(own, c.peer_id);
    assert(buckets.update(r, buckets[r]) =~= buckets);
}

/// Looking a peer up gives the contact that the map holds for it, wherever that
/// stands, and nothing else.
pub proof fn law_lookup_gives_what_is_held(
    buckets: Seq<Seq<Contact>>,
    own: PeerId,
    id: PeerId,
    c: Contact,
)
    requires
        placed(buckets, own),
    ensures
        looked_up(buckets, own, id) == Some(c) <==> c.peer_id@ == id@ && (exists|r: int, i: int|
            0 <= r < buckets.len() && 0 <= i < buckets[r].len() && #[trigger] buckets[r][i] == c),
{
    let b = bucket_number(own, id);
    lemma_bucket_number(own, id);
    if looked_up(buckets, own, id) == Some(c) {
        let p = place(buckets[b], id@);
        assert(buckets[b][p] == c);
    }
    if c.peer_id@ == id@ && (exists|r: int, i: int|
        0 <= r < buckets.len() && 0 <= i < buckets[r].len() && #[trigger] buckets[r][i] == c) {
        let (r, i) = choose|r: int, i: int|
            0 <= r < buckets.len() && 0 <= i < buckets[r].len() && #[trigger] buckets[r][i] == c;
        assert(bucket_number(own, buckets[r][i].peer_id) == r);
        assert(r == b);
        assert(distinct(buckets[r]));
        lemma_find(buckets[r], i);
    }
}

/// A map holds one contact for a peer at most.
pub proof fn law_one_contact_each(
    buckets: Seq<Seq<Contact>>,
    own: PeerId,
    r: int,
    i: int,
    q: int,
    j: int,
)
    requires
        placed(buckets, own),
        0 <= r < buckets.len(),
        0 <= i < buckets[r].len(),
        0 <= q < buckets.len(),
        0 <= j < buckets[q].len(),
        buckets[r][i].peer_id@ == buckets[q][j].peer_id@,
    ensures
        r == q,
        i == j,
{
    assert(bucket_number(own, buckets[r][i].peer_id) == r);
    assert(bucket_number(own, buckets[q][j].peer_id) == q);
    assert(distinct(buckets[r]));
    if i < j {
        assert(buckets[r][i].peer_id@ != buckets[r][j].peer_id@);
    }
    if j < i {
        assert(buckets[r][j].peer_id@ != buckets[r][i].peer_id@);
    }
}

/// Inserting a contact replaces what was held about its peer: if there was
/// anything, however full the bucket, the contact is held afterwards, and
/// looking the peer up gives it.
pub proof fn law_insert_replaces_a_known_peer(
    buckets: Seq<Seq<Contact>>,
    own: PeerId,
    size: nat,
    c: Contact,
    r: int,
    i: int,
)
    requires
        placed(buckets, own),
        0 <= r < buckets.len(),
        0 <= i < buckets[r].len(),
        buckets[r][i].peer_id@ == c.peer_id@,
    ensures
        looked_up(inserted_if_room(buckets, own, size, c), own, c.peer_id) == Some(c),
        inserted_if_room(buckets, own, size, c) == buckets.update(r, buckets[r].update(i, c)),
        looked_up(inserted(buckets, own, c), own, c.peer_id) == Some(c),
        inserted(buckets, own, c) == buckets.update(r, buckets[r].update(i, c)),
{
    let old = buckets[r][i];
    lemma_peer_id_view(old.peer_id, c.peer_id);
    assert(bucket_number(own, buckets[r][i].peer_id) == r);
    assert(distinct(buckets[r]));
    lemma_find(buckets[r], i);
    law_inserted_is_found(buckets, own, c);
}

/// Inserting a contact whose peer is not known adds it, if its bucket has room:
/// it is held afterwards, at the end of its bucket, and looking the peer up
/// gives it.
pub proof fn law_insert_adds_a_new_peer(
    buckets: Seq<Seq<Contact>>,
    own: PeerId,
    size: nat,
    c: Contact,
)
    requires
        placed(buckets, own),
        forall|r: int, i: int|
            0 <= r < buckets.len() && 0 <= i < buckets[r].len() ==> (
            #[trigger] buckets[r][i]).peer_id@ != c.peer_id@,
    ensures
        ({
            let b = bucket_number(own, c.peer_id);
            &&& inserted(buckets, own, c) == buckets.update(b, buckets[b].push(c))
            &&& looked_up(inserted(buckets, own, c), own, c.peer_id) == Some(c)
            &&& buckets[b].len() < size ==> {
                &&& inserted_if_room(buckets, own, size, c) == buckets.update(
                    b,
                    buckets[b].push(c),
                )
                &&& looked_up(inserted_if_room(buckets, own, size, c), own, c.peer_id) == Some(c)
            }
            &&& buckets[b].len() >= size ==> inserted_if_room(buckets, own, size, c) == buckets
        }),
{
    let b = bucket_number(own, c.peer_id);
    lemma_bucket_number(own, c.peer_id);
    assert forall|i: int| 0 <= i < buckets[b].len() implies #[trigger] buckets[b][i].peer_id@
        != c.peer_id@ by {
        assert(buckets[b][i].peer_id@ != c.peer_id@);
    }
    assert(has(buckets[b], c.peer_id@) == false);
    law_inserted_is_found(buckets, own, c);
    assert(buckets.update(b, buckets[b]) =~= buckets);
}

/// Inserting a contact leaves all contacts of other peers where they stand, and
/// brings in no other.
pub proof fn law_insert_leaves_others_in_place(
    buckets: Seq<Seq<Contact>>,
    own: PeerId,
    size: nat,
    c: Contact,
    x: Contact,
    r: int,
    i: int,
)
    requires
        placed(buckets, own),
        x.peer_id@ != c.peer_id@,
        0 <= r < buckets.len(),
        0 <= i,
    ensures
        inserted(buckets, own, c).len() == buckets.len(),
        inserted_if_room(buckets, own, size, c).len() == buckets.len(),
        i < buckets[r].len() && buckets[r][i] == x <==> i < inserted(buckets, own, c)[r].len()
            && inserted(buckets, own, c)[r][i] == x,
        i < buckets[r].len() && buckets[r][i] == x <==> i < inserted_if_room(
            buckets,
            own,
            size,
            c,
        )[r].len() && inserted_if_room(buckets, own, size, c)[r][i] == x,
{
    let b = bucket_number(own, c.peer_id);
    lemma_bucket_number(own, c.peer_id);
    if has(buckets[b], c.peer_id@) {
        let p = place(buckets[b], c.peer_id@);
        assert(buckets[b][p].peer_id@ == c.peer_id@);
    }
}

/// The number of contacts is counted bucket by bucket.
pub proof fn law_total_adds_up(a: Seq<Seq<Contact>>, b: Seq<Seq<Contact>>, one: Seq<Contact>)
    ensures
        total(a + b) == total(a) + total(b),
        total(seq![one]) == one.len(),
        total(Seq::<Seq<Contact>>::empty()) == 0,
    decreases b.len(),
{
    let ones = seq![one];
    assert(ones.drop_last().len() == 0);
    assert(total(ones.drop_last()) == 0);
    if b.len() == 0 {
        assert(a + b =~= a);
    } else {
        law_total_adds_up(a, b.drop_last(), one);
        assert((a + b).drop_last() =~= a + b.drop_last());
        assert((a + b).last() == b.last());
    }
}

/// The walk meets each contact that is held, and no other.
pub proof fn law_walk_meets_all(
    buckets: Seq<Seq<Contact>>,
    own: PeerId,
    id: PeerId,
    c: Contact,
)
    requires
        buckets.len() == BUCKETS,
    ensures
        all_from(buckets, own, id).contains(c) <==> (exists|r: int, i: int|
            0 <= r < buckets.len() && 0 <= i < buckets[r].len() && #[trigger] buckets[r][i] == c),
        all_from(buckets, own, id).len() == total(buckets),
{
    let b = bucket_number(own, id);
    lemma_bucket_number(own, id);
    let all = all_from(buckets, own, id);
    if all.contains(c) {
        let i = choose|i: int| 0 <= i < all.len() && all[i] == c;
        let (k, j) = lemma_walk_member(buckets, b, 256, i);
        lemma_visited(b, k, k);
        assert(buckets[visited(b, k)][j] == c);
    }
    if exists|r: int, i: int|
        0 <= r < buckets.len() && 0 <= i < buckets[r].len() && #[trigger] buckets[r][i] == c {
        let (r, i) = choose|r: int, i: int|
            0 <= r < buckets.len() && 0 <= i < buckets[r].len() && #[trigger] buckets[r][i] == c;
        let k = lemma_visit(b, r);
        lemma_walk_contains(buckets, b, 256, k, i);
    }
    lemma_walk_seen(buckets, b, 256);
    let s = seen(buckets, b, 256);
    assert forall|r: int| 0 <= r < 256 implies s[r] == buckets[r] by {
        let k = lemma_visit(b, r);
        assert(visited(b, k) == r);
    }
    assert(s =~= buckets);
}

/// What it means that a list names the closest contacts: it names no peer twice
/// and only contacts that are held, `count` of them at most; and a contact that
/// is held and not named is farther than all that are, of which there are then
/// `count`.
pub proof fn law_closest_are_named(
    buckets: Seq<Seq<Contact>>,
    own: PeerId,
    needle: Seq<u8>,
    count: nat,
    found: Seq<Contact>,
)
    requires
        placed(buckets, own),
        is_closest(buckets, needle, count, found),
    ensures
        found.len() <= count,
        forall|i: int, j: int|
            0 <= i < j < found.len() ==> (#[trigger] found[i]).peer_id@ != (
            #[trigger] found[j]).peer_id@,
        forall|x: Contact| #[trigger]
            found.contains(x) ==> (exists|r: int, i: int|
                0 <= r < buckets.len() && 0 <= i < buckets[r].len() && #[trigger] buckets[r][i]
                    == x),
        forall|r: int, i: int|
            0 <= r < buckets.len() && 0 <= i < buckets[r].len() && !found.contains(
                #[trigger] buckets[r][i],
            ) ==> found.len() == count,
        forall|r: int, i: int, k: int|
            0 <= r < buckets.len() && 0 <= i < buckets[r].len() && !found.contains(
                #[trigger] buckets[r][i],
            ) && 0 <= k < found.len() ==> distance((#[trigger] found[k]).peer_id@, needle)
                < distance(buckets[r][i].peer_id@, needle),
{
    assert forall|x: Contact| #[trigger] found.contains(x) implies (exists|r: int, i: int|
        0 <= r < buckets.len() && 0 <= i < buckets[r].len() && #[trigger] buckets[r][i] == x) by {
        assert(known(buckets, x));
    }
    assert forall|r: int, i: int, k: int|
        0 <= r < buckets.len() && 0 <= i < buckets[r].len() && !found.contains(
            #[trigger] buckets[r][i],
        ) && 0 <= k < found.len() implies distance((#[trigger] found[k]).peer_id@, needle)
        < distance(buckets[r][i].peer_id@, needle) by {
        assert(found.contains(found[k]));
        assert(known(buckets, buckets[r][i]));
        assert(distance_to(found[k], needle) < distance_to(buckets[r][i], needle));
    }
    if found.len() == total(buckets) && found.len() != count {
        assert forall|r: int, i: int|
            0 <= r < buckets.len() && 0 <= i < buckets[r].len() implies found.contains(
            #[trigger] buckets[r][i],
        ) by {
            lemma_all_are_named(buckets, own, found, buckets[r][i]);
        }
    }
}

/// A list of as many contacts as are held, all of them held and none twice,
/// names them all.
proof fn lemma_all_are_named(
    buckets: Seq<Seq<Contact>>,
    own: PeerId,
    found: Seq<Contact>,
    c: Contact,
)
    requires
        placed(buckets, own),
        distinct(found),
        found.len() == total(buckets),
        forall|x: Contact| #[trigger] found.contains(x) ==> known(buckets, x),
        known(buckets, c),
    ensures
        found.contains(c),
{
    let all = all_from(buckets, own, own);
    lemma_all_from(buckets, own, own);
    assert forall|x: Contact| found.contains(x) implies all.contains(x) by {
        assert(known(buckets, x));
    }
    lemma_same_members(all, found);
    assert(all.contains(c));
}

/// A list without duplicates that is as long as another and lists only what the
/// other does lists all of it.
pub proof fn lemma_same_members(all: Seq<Contact>, found: Seq<Contact>)
    requires
        distinct(all),
        distinct(found),
        found.len() == all.len(),
        forall|x: Contact| found.contains(x) ==> all.contains(x),
    ensures
        forall|x: Contact| all.contains(x) ==> found.contains(x),
    decreases all.len(),
{
    if found.len() > 0 {
        let n = found.len() - 1;
        let y = found[n];
        assert(found.contains(y));
        let m = choose|m: int| 0 <= m < all.len() && all[m] == y;
        let rest = all.remove(m);
        let front = found.drop_last();
        lemma_distinct_remove(all, m);
        assert forall|i: int, j: int| 0 <= i < j < front.len() implies #[trigger] front[i].peer_id@
            != #[trigger] front[j].peer_id@ by {
            assert(found[i].peer_id@ != found[j].peer_id@);
        }
        assert forall|x: Contact| front.contains(x) implies rest.contains(x) by {
            let i = choose|i: int| 0 <= i < front.len() && front[i] == x;
            assert(found[i] == x);
            assert(found.contains(x));
            assert(found[i].peer_id@ != found[n].peer_id@);
            let k = choose|k: int| 0 <= k < all.len() && all[k] == x;
            if k < m {
                assert(rest[k] == x);
            } else {
                assert(rest[k - 1] == x);
            }
        }
        lemma_same_members(rest, front);
        assert forall|x: Contact| all.contains(x) implies found.contains(x) by {
            let k = choose|k: int| 0 <= k < all.len() && all[k] == x;
            if k == m {
                assert(found[n] == x);
            } else {
                if k < m {
                    assert(rest[k] == x);
                } else {
                    assert(rest[k - 1] == x);
                }
                assert(rest.contains(x));
                let i = choose|i: int| 0 <= i < front.len() && front[i] == x;
                assert(found[i] == x);
            }
        }
    }
}

} // verus!
