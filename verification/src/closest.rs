//! The closest of the peers that are known.

use vstd::prelude::*;

use crate::distance::{distance, law_distance_unique, lemma_number_less, xor_bytes};
use crate::types::{lemma_peer_id_view, Contact, PeerId};

verus! {

/// How far a contact is from a hash.
pub open spec fn distance_to(c: Contact, needle: Seq<u8>) -> nat {
    distance(c.peer_id@, needle)
}

/// Says of a contact that it is closer than `d` to `needle`.
pub open spec fn within(needle: Seq<u8>, d: nat) -> spec_fn(Contact) -> bool {
    |c: Contact| distance_to(c, needle) < d
}

/// How many contacts are closer to `needle` than `c` is.
pub open spec fn closer_count(all: Seq<Contact>, needle: Seq<u8>, c: Contact) -> nat {
    all.filter(within(needle, distance_to(c, needle))).len()
}

/// Says of a contact that it is one of the `count` closest of `all`.
pub open spec fn among_closest(
    all: Seq<Contact>,
    needle: Seq<u8>,
    count: nat,
) -> spec_fn(Contact) -> bool {
    |c: Contact| closer_count(all, needle, c) < count
}

/// The `count` contacts that are closest to `needle`, in the order of `all`.
pub open spec fn nearest(all: Seq<Contact>, needle: Seq<u8>, count: nat) -> Seq<Contact> {
    all.filter(among_closest(all, needle, count))
}

/// Whether no peer is listed twice.
pub open spec fn distinct(all: Seq<Contact>) -> bool {
    forall|i: int, j: int|
        0 <= i < j < all.len() ==> #[trigger] all[i].peer_id@ != #[trigger] all[j].peer_id@
}

/// Whether `a` is closer to `needle` than `b` is.
fn is_closer(a: &PeerId, b: &PeerId, needle: &PeerId) -> (r: bool)
    ensures
        r == (distance(a@, needle@) < distance(b@, needle@)),
{
    let x = a.bytes();
    let y = b.bytes();
    let n = needle.bytes();
    let ghost da = xor_bytes(a@, needle@);
    let ghost db = xor_bytes(b@, needle@);
    proof {
        lemma_peer_id_view(*a, *b);
        lemma_peer_id_view(*b, *needle);
        lemma_peer_id_view(*needle, *needle);
    }
    let mut i: usize = 32;
    while i > 0
        invariant
            i <= 32,
            x@.len() == 32,
            y@.len() == 32,
            n@.len() == 32,
            x@ == a@,
            y@ == b@,
            n@ == needle@,
            da == xor_bytes(a@, needle@),
            db == xor_bytes(b@, needle@),
            forall|j: int| i <= j < 32 ==> da[j] == db[j],
        decreases i,
    {
        let p = x[i - 1] ^ n[i - 1];
        let q = y[i - 1] ^ n[i - 1];
        assert(p == da[i - 1] && q == db[i - 1]);
        if p < q {
            proof {
                lemma_number_less(da, db, i - 1);
            }
            return true;
        }
        if q < p {
            proof {
                lemma_number_less(db, da, i - 1);
            }
            return false;
        }
        i -= 1;
    }
    assert(da =~= db);
    false
}

/// Counts the contacts that are closer to `needle` than `c` is, but no further
/// than `limit`.
fn count_closer(all: &Vec<Contact>, needle: &PeerId, c: &Contact, limit: usize) -> (r: usize)
    ensures
        r < limit ==> r == closer_count(all@, needle@, *c),
        r == limit ==> closer_count(all@, needle@, *c) >= limit,
        r <= limit,
{
    let ghost p = within(needle@, distance_to(*c, needle@));
    let mut n: usize = 0;
    let mut i: usize = 0;
    proof {
        reveal(Seq::filter);
        assert(all@.take(0).filter(p).len() == 0);
    }
    while i < all.len() && n < limit
        invariant
            i <= all@.len(),
            n <= limit,
            p == within(needle@, distance_to(*c, needle@)),
            n == all@.take(i as int).filter(p).len(),
        decreases all@.len() - i,
    {
        proof {
            reveal(Seq::filter);
            assert(all@.take(i + 1).drop_last() =~= all@.take(i as int));
        }
        if is_closer(&all[i].peer_id, &c.peer_id, needle) {
            n += 1;
        }
        i += 1;
    }
    proof {
        let rest = all@.skip(i as int);
        assert(all@ =~= all@.take(i as int) + rest);
        Seq::filter_distributes_over_add(all@.take(i as int), rest, p);
        if i == all@.len() {
            reveal(Seq::filter);
            assert(rest =~= seq![]);
        }
    }
    n
}

/// Selects the `count` contacts that are closest to `needle`.
pub fn select_nearest(all: &Vec<Contact>, needle: &PeerId, count: usize) -> (r: Vec<Contact>)
    ensures
        r@ == nearest(all@, needle@, count as nat),
{
    let ghost p = among_closest(all@, needle@, count as nat);
    let mut out: Vec<Contact> = Vec::new();
    let mut i: usize = 0;
    proof {
        reveal(Seq::filter);
        assert(all@.take(0).filter(p) =~= seq![]);
    }
    while i < all.len()
        invariant
            i <= all@.len(),
            p == among_closest(all@, needle@, count as nat),
            out@ == all@.take(i as int).filter(p),
        decreases all@.len() - i,
    {
        proof {
            reveal(Seq::filter);
            assert(all@.take(i + 1).drop_last() =~= all@.take(i as int));
        }
        let c = all[i];
        let n = count_closer(all, needle, &c, count);
        if n < count {
            out.push(c);
        }
        i += 1;
    }
    assert(all@.take(i as int) =~= all@);
    out
}

/// Predicates that agree on a sequence keep the same part of it.
proof fn lemma_filter_agree<A>(s: Seq<A>, p: spec_fn(A) -> bool, q: spec_fn(A) -> bool)
    requires
        forall|i: int| 0 <= i < s.len() ==> p(#[trigger] s[i]) == q(s[i]),
    ensures
        s.filter(p) == s.filter(q),
    decreases s.len(),
{
    reveal(Seq::filter);
    if s.len() > 0 {
        assert forall|i: int| 0 <= i < s.drop_last().len() implies p(
            #[trigger] s.drop_last()[i],
        ) == q(s.drop_last()[i]) by {
            assert(s.drop_last()[i] == s[i]);
        }
        lemma_filter_agree(s.drop_last(), p, q);
        assert(s.last() == s[s.len() - 1]);
    }
}

/// What a predicate keeps of a sequence without one of its members.
proof fn lemma_filter_remove<A>(s: Seq<A>, m: int, p: spec_fn(A) -> bool)
    requires
        0 <= m < s.len(),
    ensures
        s.filter(p).len() == s.remove(m).filter(p).len() + (if p(s[m]) {
            1nat
        } else {
            0nat
        }),
{
    let a = s.take(m);
    let one = seq![s[m]];
    let b = s.skip(m + 1);
    assert(s =~= a + one + b);
    assert(s.remove(m) =~= a + b);
    Seq::filter_distributes_over_add(a + one, b, p);
    Seq::filter_distributes_over_add(a, one, p);
    Seq::filter_distributes_over_add(a, b, p);
    reveal_with_fuel(Seq::filter, 2);
    assert(one.drop_last().len() == 0);
}

/// A weaker predicate keeps no less.
proof fn lemma_filter_weaker<A>(s: Seq<A>, p: spec_fn(A) -> bool, q: spec_fn(A) -> bool)
    requires
        forall|a: A| #[trigger] p(a) ==> q(a),
    ensures
        s.filter(p).len() <= s.filter(q).len(),
    decreases s.len(),
{
    reveal(Seq::filter);
    if s.len() > 0 {
        lemma_filter_weaker(s.drop_last(), p, q);
    }
}

/// The place of the contact that is farthest from `needle`.
proof fn lemma_farthest(all: Seq<Contact>, needle: Seq<u8>) -> (m: int)
    requires
        all.len() > 0,
    ensures
        0 <= m < all.len(),
        forall|i: int|
            0 <= i < all.len() ==> distance_to(#[trigger] all[i], needle) <= distance_to(
                all[m],
                needle,
            ),
    decreases all.len(),
{
    let last = all.len() - 1;
    if last == 0 {
        0
    } else {
        let rest = all.drop_last();
        let m = lemma_farthest(rest, needle);
        assert forall|i: int| 0 <= i < last implies distance_to(#[trigger] all[i], needle)
            <= distance_to(all[m], needle) by {
            assert(rest[i] == all[i]);
        }
        if distance_to(all[m], needle) <= distance_to(all[last], needle) {
            last
        } else {
            m
        }
    }
}

/// A list without one of its members lists no peer twice either.
pub proof fn lemma_distinct_remove(all: Seq<Contact>, m: int)
    requires
        distinct(all),
        0 <= m < all.len(),
    ensures
        distinct(all.remove(m)),
        forall|i: int|
            0 <= i < all.len() - 1 ==> #[trigger] all.remove(m)[i].peer_id@ != all[m].peer_id@,
        forall|i: int|
            0 <= i < all.len() - 1 ==> all.contains(#[trigger] all.remove(m)[i]),
{
    let rest = all.remove(m);
    assert forall|i: int| 0 <= i < rest.len() implies #[trigger] rest[i].peer_id@
        != all[m].peer_id@ && all.contains(rest[i]) by {
        let k = if i < m {
            i
        } else {
            i + 1
        };
        assert(rest[i] == all[k]);
        if k < m {
            assert(all[k].peer_id@ != all[m].peer_id@);
        } else {
            assert(all[m].peer_id@ != all[k].peer_id@);
        }
    }
    assert forall|i: int, j: int| 0 <= i < j < rest.len() implies #[trigger] rest[i].peer_id@
        != #[trigger] rest[j].peer_id@ by {
        let k = if i < m {
            i
        } else {
            i + 1
        };
        let l = if j < m {
            j
        } else {
            j + 1
        };
        assert(rest[i] == all[k] && rest[j] == all[l]);
    }
}

/// All other contacts are closer than the farthest one.
proof fn lemma_farthest_count(all: Seq<Contact>, needle: PeerId, m: int)
    requires
        distinct(all),
        0 <= m < all.len(),
        forall|i: int|
            0 <= i < all.len() ==> distance_to(#[trigger] all[i], needle@) <= distance_to(
                all[m],
                needle@,
            ),
    ensures
        closer_count(all, needle@, all[m]) == all.len() - 1,
{
    let n = needle@;
    let c = all[m];
    let rest = all.remove(m);
    lemma_distinct_remove(all, m);
    let w = within(n, distance_to(c, n));
    lemma_filter_remove(all, m, w);
    let yes = |x: Contact| true;
    assert forall|i: int| 0 <= i < rest.len() implies w(#[trigger] rest[i]) == yes(rest[i]) by {
        let x = rest[i];
        assert(all.contains(x));
        assert(distance_to(x, n) <= distance_to(c, n));
        if distance_to(x, n) == distance_to(c, n) {
            lemma_peer_id_view(x.peer_id, needle);
            lemma_peer_id_view(c.peer_id, needle);
            lemma_peer_id_view(needle, needle);
            law_distance_unique(x.peer_id@, c.peer_id@, n);
        }
    }
    lemma_filter_agree(rest, w, yes);
    lemma_filter_all(rest, yes);
}

/// As many contacts are returned as are asked for, or all of them if there are
/// fewer.
pub proof fn law_nearest_len(all: Seq<Contact>, needle: PeerId, count: nat)
    requires
        distinct(all),
    ensures
        nearest(all, needle@, count).len() == (if count < all.len() {
            count
        } else {
            all.len()
        }),
    decreases all.len(),
{
    let n = needle@;
    let p = among_closest(all, n, count);
    if all.len() == 0 {
        all.lemma_filter_len(p);
    } else {
        let m = lemma_farthest(all, n);
        let rest = all.remove(m);
        let q = among_closest(rest, n, count);
        lemma_distinct_remove(all, m);
        law_nearest_len(rest, needle, count);
        lemma_filter_remove(all, m, p);
        assert forall|i: int| 0 <= i < rest.len() implies p(#[trigger] rest[i]) == q(rest[i]) by {
            assert(all.contains(rest[i]));
            assert(distance_to(rest[i], n) <= distance_to(all[m], n));
            lemma_filter_remove(all, m, within(n, distance_to(rest[i], n)));
        }
        lemma_filter_agree(rest, p, q);
        lemma_farthest_count(all, needle, m);
    }
}

/// A predicate that holds of every member keeps them all.
proof fn lemma_filter_all<A>(s: Seq<A>, p: spec_fn(A) -> bool)
    requires
        forall|a: A| #[trigger] p(a),
    ensures
        s.filter(p) == s,
    decreases s.len(),
{
    reveal(Seq::filter);
    if s.len() > 0 {
        lemma_filter_all(s.drop_last(), p);
        assert(s =~= s.drop_last().push(s.last()));
    }
}

/// Every contact that is returned is closer than every contact that is not.
pub proof fn law_nearest_is_closest(
    all: Seq<Contact>,
    needle: PeerId,
    count: nat,
    x: Contact,
    y: Contact,
)
    requires
        nearest(all, needle@, count).contains(x),
        all.contains(y),
        !nearest(all, needle@, count).contains(y),
    ensures
        distance_to(x, needle@) < distance_to(y, needle@),
{
    let n = needle@;
    let p = among_closest(all, n, count);
    let i = choose|i: int| 0 <= i < all.filter(p).len() && all.filter(p)[i] == x;
    all.lemma_filter_pred(p, i);
    let j = choose|j: int| 0 <= j < all.len() && all[j] == y;
    if p(y) {
        all.lemma_filter_contains(p, j);
    }
    if distance_to(y, n) <= distance_to(x, n) {
        lemma_filter_weaker(all, within(n, distance_to(y, n)), within(n, distance_to(x, n)));
    }
}

/// What a predicate keeps was there before.
pub proof fn lemma_filter_subset<A>(s: Seq<A>, p: spec_fn(A) -> bool, i: int) -> (k: int)
    requires
        0 <= i < s.filter(p).len(),
    ensures
        0 <= k < s.len(),
        s[k] == s.filter(p)[i],
        i <= k,
    decreases s.len(),
{
    reveal(Seq::filter);
    let sub = s.drop_last().filter(p);
    s.drop_last().lemma_filter_len(p);
    if i < sub.len() {
        lemma_filter_subset(s.drop_last(), p, i)
    } else {
        s.len() - 1
    }
}

/// Only contacts that are known are returned.
pub proof fn law_nearest_is_known(all: Seq<Contact>, needle: Seq<u8>, count: nat, x: Contact)
    requires
        nearest(all, needle, count).contains(x),
    ensures
        all.contains(x),
{
    let p = among_closest(all, needle, count);
    let i = choose|i: int| 0 <= i < all.filter(p).len() && all.filter(p)[i] == x;
    let k = lemma_filter_subset(all, p, i);
}

/// No peer is returned twice.
pub proof fn law_nearest_is_distinct(all: Seq<Contact>, needle: Seq<u8>, count: nat)
    requires
        distinct(all),
    ensures
        distinct(nearest(all, needle, count)),
{
    lemma_filter_distinct(all, among_closest(all, needle, count));
}

proof fn lemma_filter_distinct(s: Seq<Contact>, p: spec_fn(Contact) -> bool)
    requires
        distinct(s),
    ensures
        distinct(s.filter(p)),
    decreases s.len(),
{
    reveal(Seq::filter);
    if s.len() > 0 {
        let rest = s.drop_last();
        assert(distinct(rest)) by {
            assert forall|i: int, j: int|
                0 <= i < j < rest.len() implies #[trigger] rest[i].peer_id@
                != #[trigger] rest[j].peer_id@ by {
                assert(rest[i] == s[i] && rest[j] == s[j]);
            }
        }
        lemma_filter_distinct(rest, p);
        if p(s.last()) {
            let sub = rest.filter(p);
            assert forall|i: int| 0 <= i < sub.len() implies #[trigger] sub[i].peer_id@
                != s.last().peer_id@ by {
                let k = lemma_filter_subset(rest, p, i);
                assert(s[k] == rest[k]);
                assert(s[k].peer_id@ != s[s.len() - 1].peer_id@);
            }
        }
    }
}

/// When the front of the list holds `count` contacts and all of them are closer
/// than the rest, the closest are found in the front.
pub proof fn lemma_nearest_in_front(
    front: Seq<Contact>,
    rest: Seq<Contact>,
    needle: Seq<u8>,
    count: nat,
)
    requires
        count <= front.len(),
        forall|i: int, j: int|
            0 <= i < front.len() && 0 <= j < rest.len() ==> distance_to(
                #[trigger] front[i],
                needle,
            ) < distance_to(#[trigger] rest[j], needle),
    ensures
        nearest(front + rest, needle, count) == nearest(front, needle, count),
{
    let all = front + rest;
    let p = among_closest(all, needle, count);
    let q = among_closest(front, needle, count);
    let yes = |x: Contact| true;
    let no = |x: Contact| false;
    Seq::filter_distributes_over_add(front, rest, p);
    assert forall|i: int| 0 <= i < front.len() implies p(#[trigger] front[i]) == q(front[i]) by {
        let w = within(needle, distance_to(front[i], needle));
        Seq::filter_distributes_over_add(front, rest, w);
        assert forall|j: int| 0 <= j < rest.len() implies w(#[trigger] rest[j]) == no(rest[j]) by {
            assert(distance_to(front[i], needle) < distance_to(rest[j], needle));
        }
        lemma_filter_agree(rest, w, no);
        lemma_filter_none(rest, no);
    }
    lemma_filter_agree(front, p, q);
    assert forall|j: int| 0 <= j < rest.len() implies p(#[trigger] rest[j]) == no(rest[j]) by {
        let w = within(needle, distance_to(rest[j], needle));
        Seq::filter_distributes_over_add(front, rest, w);
        assert forall|i: int| 0 <= i < front.len() implies w(#[trigger] front[i]) == yes(
            front[i],
        ) by {
            assert(distance_to(front[i], needle) < distance_to(rest[j], needle));
        }
        lemma_filter_agree(front, w, yes);
        lemma_filter_all(front, yes);
    }
    lemma_filter_agree(rest, p, no);
    lemma_filter_none(rest, no);
    assert(nearest(all, needle, count) =~= nearest(front, needle, count));
}

/// A predicate that holds of no member keeps none.
proof fn lemma_filter_none<A>(s: Seq<A>, p: spec_fn(A) -> bool)
    requires
        forall|a: A| !(#[trigger] p(a)),
    ensures
        s.filter(p).len() == 0,
    decreases s.len(),
{
    reveal(Seq::filter);
    if s.len() > 0 {
        lemma_filter_none(s.drop_last(), p);
    }
}

/// The contacts that are returned come in the order in which they are listed.
pub proof fn law_nearest_keeps_order(
    all: Seq<Contact>,
    needle: Seq<u8>,
    count: nat,
    i: int,
    j: int,
) -> (at: (int, int))
    requires
        0 <= i < j < nearest(all, needle, count).len(),
    ensures
        0 <= at.0 < at.1 < all.len(),
        all[at.0] == nearest(all, needle, count)[i],
        all[at.1] == nearest(all, needle, count)[j],
{
    lemma_filter_order(all, among_closest(all, needle, count), i, j)
}

proof fn lemma_filter_order<A>(s: Seq<A>, p: spec_fn(A) -> bool, i: int, j: int) -> (at: (int, int))
    requires
        0 <= i < j < s.filter(p).len(),
    ensures
        0 <= at.0 < at.1 < s.len(),
        s[at.0] == s.filter(p)[i],
        s[at.1] == s.filter(p)[j],
    decreases s.len(),
{
    reveal(Seq::filter);
    let rest = s.drop_last();
    let sub = rest.filter(p);
    if j < sub.len() {
        let at = lemma_filter_order(rest, p, i, j);
        at
    } else {
        let k = lemma_filter_subset(rest, p, i);
        (k, s.len() - 1)
    }
}

/// A contact is left out only when as many as were asked for are returned,
/// whatever the list.
pub proof fn law_nearest_is_enough(all: Seq<Contact>, needle: Seq<u8>, count: nat, y: Contact)
    requires
        all.contains(y),
        !nearest(all, needle, count).contains(y),
    ensures
        nearest(all, needle, count).len() >= count,
{
    let p = among_closest(all, needle, count);
    let j = choose|j: int| 0 <= j < all.len() && all[j] == y;
    if p(y) {
        all.lemma_filter_contains(p, j);
    }
    let m = lemma_closest_without(all, needle, p, j);
    let w = within(needle, distance_to(all[m], needle));
    assert forall|i: int| 0 <= i < all.len() && w(#[trigger] all[i]) implies p(all[i]) by {
        assert(distance_to(all[i], needle) < distance_to(all[m], needle));
    }
    lemma_filter_members_weaker(all, w, p);
}

/// The place of a contact of which a predicate does not hold, and which is no
/// farther than any other such.
proof fn lemma_closest_without(
    all: Seq<Contact>,
    needle: Seq<u8>,
    p: spec_fn(Contact) -> bool,
    j: int,
) -> (m: int)
    requires
        0 <= j < all.len(),
        !p(all[j]),
    ensures
        0 <= m < all.len(),
        !p(all[m]),
        forall|i: int|
            0 <= i < all.len() && !p(#[trigger] all[i]) ==> distance_to(all[m], needle)
                <= distance_to(all[i], needle),
    decreases distance_to(all[j], needle),
{
    if exists|i: int|
        0 <= i < all.len() && !p(#[trigger] all[i]) && distance_to(all[i], needle) < distance_to(
            all[j],
            needle,
        ) {
        let i = choose|i: int|
            0 <= i < all.len() && !p(#[trigger] all[i]) && distance_to(all[i], needle)
                < distance_to(all[j], needle);
        lemma_closest_without(all, needle, p, i)
    } else {
        j
    }
}

/// A predicate that holds of more members keeps no less.
proof fn lemma_filter_members_weaker<A>(s: Seq<A>, p: spec_fn(A) -> bool, q: spec_fn(A) -> bool)
    requires
        forall|i: int| 0 <= i < s.len() && p(#[trigger] s[i]) ==> q(s[i]),
    ensures
        s.filter(p).len() <= s.filter(q).len(),
    decreases s.len(),
{
    reveal(Seq::filter);
    if s.len() > 0 {
        let rest = s.drop_last();
        assert forall|i: int| 0 <= i < rest.len() && p(#[trigger] rest[i]) implies q(rest[i]) by {
            assert(rest[i] == s[i]);
        }
        lemma_filter_members_weaker(rest, p, q);
        assert(s.last() == s[s.len() - 1]);
    }
}

/// The contacts that are closest to a peer, told by what goes in and comes out:
/// only such as are listed, in the order of the list, and each closer than all
/// that are left out; one is left out only when as many as were asked for are
/// selected.
pub proof fn law_select_nearest_selects_the_nearest(
    all: Vec<Contact>,
    needle: PeerId,
    count: usize,
    r: Vec<Contact>,
    x: Contact,
    y: Contact,
)
    requires
        call_ensures(select_nearest, (&all, &needle, count), r),
    ensures
        r@.contains(x) ==> all@.contains(x),
        r@.contains(x) && all@.contains(y) && !r@.contains(y) ==> distance(x.peer_id@, needle@)
            < distance(y.peer_id@, needle@),
        all@.contains(y) && !r@.contains(y) ==> r@.len() >= count,
        (forall|i: int, j: int|
            0 <= i < j < all@.len() ==> (#[trigger] all@[i]).peer_id@ != (
            #[trigger] all@[j]).peer_id@) ==> r@.len() <= count,
{
    if r@.contains(x) {
        law_nearest_is_known(all@, needle@, count as nat, x);
        if all@.contains(y) && !r@.contains(y) {
            law_nearest_is_closest(all@, needle, count as nat, x, y);
        }
    }
    if all@.contains(y) && !r@.contains(y) {
        law_nearest_is_enough(all@, needle@, count as nat, y);
    }
    if forall|i: int, j: int|
        0 <= i < j < all@.len() ==> (#[trigger] all@[i]).peer_id@ != (
        #[trigger] all@[j]).peer_id@ {
        law_nearest_len(all@, needle, count as nat);
    }
}

} // verus!
