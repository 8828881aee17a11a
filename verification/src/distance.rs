//! The XOR metric on hashes.
//!
//! The distance of two hashes is their bitwise XOR, read as a little-endian
//! number: the last byte is the most significant one.

use vstd::arithmetic::logarithm::log;
use vstd::arithmetic::power2::pow2;
use vstd::prelude::*;

verus! {

/// The bytewise XOR of two byte strings of one length.
pub open spec fn xor_bytes(a: Seq<u8>, b: Seq<u8>) -> Seq<u8> {
    Seq::new(a.len(), |i: int| a[i] ^ b[i])
}

/// A byte string read as a little-endian number.
pub open spec fn number(s: Seq<u8>) -> nat
    decreases s.len(),
{
    if s.len() == 0 {
        0
    } else {
        number(s.drop_last()) + s.last() as nat * pow2((8 * (s.len() - 1)) as nat)
    }
}

/// The distance of two hashes.
pub open spec fn distance(a: Seq<u8>, b: Seq<u8>) -> nat {
    number(xor_bytes(a, b))
}

/// The number of the bucket for peers that are `d` away.
///
/// All distances with the same `floor(log2(d))` have one rank. Ranks count up
/// with the byte that holds the highest set bit of `d`, and with the zero bits
/// above it in that byte; they start at zero with the second bit of the first
/// byte. `d == 0` has the last rank of all.
pub open spec fn rank(d: Seq<u8>) -> nat {
    let n = number(d);
    if n == 0 {
        (8 * d.len() - 1) as nat
    } else {
        let t = log(2, n as int);
        let k = 8 * (t / 8) + 6 - t % 8;
        if k < 0 {
            0
        } else {
            k as nat
        }
    }
}

/// A number lies between the powers of two around its logarithm.
pub proof fn lemma_log_bounds(n: nat)
    requires
        n > 0,
    ensures
        log(2, n as int) >= 0,
        pow2(log(2, n as int) as nat) <= n < pow2((log(2, n as int) + 1) as nat),
    decreases n,
{
    vstd::arithmetic::logarithm::lemma_log_nonnegative(2, n as int);
    vstd::arithmetic::power2::lemma2_to64();
    if n < 2 {
        vstd::arithmetic::logarithm::lemma_log0(2, n as int);
    } else {
        let half = n / 2;
        lemma_log_bounds(half);
        vstd::arithmetic::logarithm::lemma_log_s(2, n as int);
        let t = log(2, half as int);
        assert(log(2, n as int) == t + 1);
        vstd::arithmetic::power2::lemma_pow2_unfold((t + 1) as nat);
        vstd::arithmetic::power2::lemma_pow2_unfold((t + 2) as nat);
    }
}

/// The powers of two around a number fix its logarithm.
pub proof fn lemma_log_unique(n: nat, t: nat)
    requires
        pow2(t) <= n < pow2(t + 1),
    ensures
        n > 0,
        log(2, n as int) == t,
{
    vstd::arithmetic::power2::lemma_pow2_pos(t);
    lemma_log_bounds(n);
    let u = log(2, n as int) as nat;
    if u < t {
        lemma_pow2_le(u + 1, t);
    }
    if t < u {
        lemma_pow2_le(t + 1, u);
    }
}

proof fn lemma_pow2_le(a: nat, b: nat)
    requires
        a <= b,
    ensures
        pow2(a) <= pow2(b),
{
    if a < b {
        vstd::arithmetic::power2::lemma_pow2_strictly_increases(a, b);
    }
}

/// A byte string is worth less than the power of two that has one bit more.
pub proof fn lemma_number_bound(s: Seq<u8>)
    ensures
        number(s) < pow2(8 * s.len()),
    decreases s.len(),
{
    vstd::arithmetic::power2::lemma2_to64();
    if s.len() > 0 {
        lemma_number_bound(s.drop_last());
        let p = pow2((8 * (s.len() - 1)) as nat);
        vstd::arithmetic::power2::lemma_pow2_adds((8 * (s.len() - 1)) as nat, 8);
        assert(number(s) < 256 * p) by (nonlinear_arith)
            requires
                number(s) == number(s.drop_last()) + s.last() as nat * p,
                number(s.drop_last()) < p,
                s.last() <= 255,
        ;
        assert(pow2(8 * s.len()) == 256 * p) by (nonlinear_arith)
            requires
                pow2((8 * (s.len() - 1)) as nat + 8) == p * pow2(8),
                pow2(8) == 256,
                8 * s.len() == (8 * (s.len() - 1)) as nat + 8,
        ;
    }
}

/// Zero bytes at the end do not change the number.
pub proof fn lemma_number_drop_zeros(s: Seq<u8>, n: int)
    requires
        0 <= n <= s.len(),
        forall|j: int| n <= j < s.len() ==> s[j] == 0,
    ensures
        number(s) == number(s.take(n)),
    decreases s.len(),
{
    if n < s.len() {
        lemma_number_drop_zeros(s.drop_last(), n);
        assert(s.drop_last().take(n) =~= s.take(n));
        let p = pow2((8 * (s.len() - 1)) as nat);
        assert(s.last() as nat * p == 0) by (nonlinear_arith)
            requires
                s.last() == 0,
        ;
    } else {
        assert(s.take(n) =~= s);
    }
}

/// The highest nonzero byte bounds the number from both sides.
pub proof fn lemma_number_top_byte(s: Seq<u8>, i: int)
    requires
        0 <= i < s.len(),
        forall|j: int| i < j < s.len() ==> s[j] == 0,
    ensures
        s[i] as nat * pow2((8 * i) as nat) <= number(s),
        number(s) < (s[i] + 1) as nat * pow2((8 * i) as nat),
{
    lemma_number_drop_zeros(s, i + 1);
    let h = s.take(i + 1);
    lemma_number_bound(h.drop_last());
    let p = pow2((8 * i) as nat);
    assert(h.last() == s[i]);
    assert((s[i] + 1) as nat * p == s[i] as nat * p + p) by (nonlinear_arith);
}

/// The highest nonzero byte and its highest set bit give the logarithm.
pub proof fn lemma_number_log(s: Seq<u8>, i: int, k: nat)
    requires
        0 <= i < s.len(),
        forall|j: int| i < j < s.len() ==> s[j] == 0,
        k < 8,
        pow2(k) <= s[i] < pow2(k + 1),
    ensures
        pow2((8 * i + k) as nat) <= number(s) < pow2((8 * i + k + 1) as nat),
        number(s) > 0,
        log(2, number(s) as int) == 8 * i + k,
{
    lemma_number_top_byte(s, i);
    let p = pow2((8 * i) as nat);
    let b = s[i] as nat;
    vstd::arithmetic::power2::lemma_pow2_adds((8 * i) as nat, k);
    vstd::arithmetic::power2::lemma_pow2_adds((8 * i) as nat, k + 1);
    assert(pow2((8 * i + k) as nat) <= number(s)) by (nonlinear_arith)
        requires
            pow2((8 * i + k) as nat) == p * pow2(k),
            pow2(k) <= b,
            b * p <= number(s),
    ;
    assert(number(s) < pow2((8 * i + k + 1) as nat)) by (nonlinear_arith)
        requires
            pow2((8 * i + k + 1) as nat) == p * pow2(k + 1),
            b + 1 <= pow2(k + 1),
            number(s) < (b + 1) * p,
    ;
    lemma_log_unique(number(s), (8 * i + k) as nat);
}

/// The number is zero only when every byte is.
pub proof fn lemma_number_zero(s: Seq<u8>)
    ensures
        number(s) == 0 <==> (forall|i: int| 0 <= i < s.len() ==> s[i] == 0),
    decreases s.len(),
{
    if s.len() > 0 {
        lemma_number_zero(s.drop_last());
        let p = pow2((8 * (s.len() - 1)) as nat);
        vstd::arithmetic::power2::lemma_pow2_pos((8 * (s.len() - 1)) as nat);
        if s.last() != 0 {
            assert(s.last() as nat * p > 0) by (nonlinear_arith)
                requires
                    s.last() > 0,
                    p > 0,
            ;
        } else {
            assert(s.last() as nat * p == 0) by (nonlinear_arith)
                requires
                    s.last() == 0,
            ;
            assert forall|i: int| number(s) == 0 && 0 <= i < s.len() implies s[i] == 0 by {
                if i < s.len() - 1 {
                    assert(s.drop_last()[i] == s[i]);
                }
            }
            if forall|i: int| 0 <= i < s.len() ==> s[i] == 0 {
                assert forall|i: int| 0 <= i < s.drop_last().len() implies s.drop_last()[i]
                    == 0 by {
                    assert(s.drop_last()[i] == s[i]);
                }
            }
        }
    }
}

/// The highest byte in which two strings differ decides which is less.
pub proof fn lemma_number_less(a: Seq<u8>, b: Seq<u8>, i: int)
    requires
        a.len() == b.len(),
        0 <= i < a.len(),
        a[i] < b[i],
        forall|j: int| i < j < a.len() ==> a[j] == b[j],
    ensures
        number(a) < number(b),
    decreases a.len(),
{
    let p = pow2((8 * (a.len() - 1)) as nat);
    if i == a.len() - 1 {
        lemma_number_bound(a.drop_last());
        assert(number(a) < number(b)) by (nonlinear_arith)
            requires
                number(a) == number(a.drop_last()) + a.last() as nat * p,
                number(b) == number(b.drop_last()) + b.last() as nat * p,
                number(a.drop_last()) < p,
                a.last() + 1 <= b.last(),
        ;
    } else {
        lemma_number_less(a.drop_last(), b.drop_last(), i);
    }
}

/// Byte strings of one length are worth the same only when they are the same.
pub proof fn lemma_number_injective(a: Seq<u8>, b: Seq<u8>)
    requires
        a.len() == b.len(),
        number(a) == number(b),
    ensures
        a == b,
    decreases a.len(),
{
    if a.len() > 0 {
        let n = a.len() - 1;
        if a[n] < b[n] {
            lemma_number_less(a, b, n);
        } else if b[n] < a[n] {
            lemma_number_less(b, a, n);
        } else {
            lemma_number_injective(a.drop_last(), b.drop_last());
            assert(a =~= a.drop_last().push(a[n]));
            assert(b =~= b.drop_last().push(b[n]));
        }
    } else {
        assert(a =~= b);
    }
}

/// The highest nonzero byte of a number that is not zero.
proof fn lemma_top_byte(s: Seq<u8>) -> (i: int)
    requires
        number(s) != 0,
    ensures
        0 <= i < s.len(),
        s[i] != 0,
        forall|j: int| i < j < s.len() ==> s[j] == 0,
    decreases s.len(),
{
    let n = s.len() - 1;
    if s[n] != 0 {
        n
    } else {
        lemma_number_drop_zeros(s, n);
        assert(s.take(n) =~= s.drop_last());
        let i = lemma_top_byte(s.drop_last());
        assert forall|j: int| i < j < s.len() implies s[j] == 0 by {
            if j < n {
                assert(s.drop_last()[j] == s[j]);
            }
        }
        i
    }
}

/// The highest set bit of a byte that is not zero.
proof fn lemma_top_bit(b: u8) -> (k: nat)
    requires
        b != 0,
    ensures
        k < 8,
        pow2(k) <= b < pow2(k + 1),
{
    vstd::arithmetic::power2::lemma2_to64();
    if b >= 128 {
        7
    } else if b >= 64 {
        6
    } else if b >= 32 {
        5
    } else if b >= 16 {
        4
    } else if b >= 8 {
        3
    } else if b >= 4 {
        2
    } else if b >= 2 {
        1
    } else {
        0
    }
}

/// XOR clears a highest bit that both bytes have and keeps one that only the
/// first has.
proof fn lemma_xor_byte(a: u8, b: u8, k: nat)
    requires
        k < 8,
        pow2(k) <= a < pow2(k + 1),
    ensures
        pow2(k) <= b < pow2(k + 1) ==> (a ^ b) < pow2(k),
        b < pow2(k) ==> pow2(k) <= (a ^ b) < pow2(k + 1),
{
    vstd::arithmetic::power2::lemma2_to64();
    let m: u8 = if k == 0 {
        1
    } else if k == 1 {
        2
    } else if k == 2 {
        4
    } else if k == 3 {
        8
    } else if k == 4 {
        16
    } else if k == 5 {
        32
    } else if k == 6 {
        64
    } else {
        128
    };
    assert(pow2(k) == m && pow2(k + 1) == m + m);
    assert((m == 1 || m == 2 || m == 4 || m == 8 || m == 16 || m == 32 || m == 64 || m == 128) && m
        <= a && a - m < m ==> (m <= b && b - m < m ==> (a ^ b) < m) && (b < m ==> m <= (a ^ b) && (
    a ^ b) - m < m)) by (bit_vector);
}

/// Distances with one logarithm cancel to something smaller; a distance with
/// a smaller one leaves the larger logarithm as it is.
proof fn lemma_xor_log(a: Seq<u8>, b: Seq<u8>)
    requires
        a.len() == b.len(),
        number(a) > 0,
    ensures
        number(b) > 0 && log(2, number(a) as int) == log(2, number(b) as int) ==> number(
            xor_bytes(a, b),
        ) < pow2(log(2, number(a) as int) as nat),
        (number(b) == 0 || log(2, number(b) as int) < log(2, number(a) as int)) ==> pow2(
            log(2, number(a) as int) as nat,
        ) <= number(xor_bytes(a, b)),
{
    let i = lemma_top_byte(a);
    let k = lemma_top_bit(a[i]);
    lemma_number_log(a, i, k);
    let t = (8 * i + k) as nat;
    let p = pow2((8 * i) as nat);
    let x = xor_bytes(a, b);
    vstd::arithmetic::power2::lemma_pow2_adds((8 * i) as nat, k);
    lemma_xor_byte(a[i], b[i], k);
    lemma_number_zero(b);
    if number(b) == 0 || log(2, number(b) as int) <= t {
        if number(b) > 0 {
            let j = lemma_top_byte(b);
            let l = lemma_top_bit(b[j]);
            lemma_number_log(b, j, l);
            assert(8 * j + l <= 8 * i + k);
            assert(j <= i);
            if j == i && l < k {
                lemma_pow2_le(l + 1, k);
            }
        }
        vstd::arithmetic::power2::lemma_pow2_pos(k);
        assert forall|j: int| i < j < x.len() implies x[j] == 0 by {
            assert(0u8 ^ 0u8 == 0u8) by (bit_vector);
            assert(a[j] == 0 && b[j] == 0);
        }
        lemma_number_top_byte(x, i);
        let c = x[i] as nat;
        if c < pow2(k) {
            assert((c + 1) * p <= pow2(k) * p) by (nonlinear_arith)
                requires
                    c + 1 <= pow2(k),
            ;
        } else {
            assert(pow2(k) * p <= c * p) by (nonlinear_arith)
                requires
                    pow2(k) <= c,
            ;
        }
        assert(pow2(k) * p == pow2(t)) by (nonlinear_arith)
            requires
                pow2(t) == p * pow2(k),
        ;
    }
}

/// XOR with a common hash drops out.
pub proof fn lemma_xor_cancel(s: Seq<u8>, a: Seq<u8>, b: Seq<u8>)
    requires
        s.len() == a.len() == b.len(),
    ensures
        xor_bytes(xor_bytes(s, a), xor_bytes(s, b)) == xor_bytes(a, b),
{
    let l = xor_bytes(xor_bytes(s, a), xor_bytes(s, b));
    assert forall|i: int| 0 <= i < l.len() implies l[i] == xor_bytes(a, b)[i] by {
        let x = s[i];
        let y = a[i];
        let z = b[i];
        assert((x ^ y) ^ (x ^ z) == y ^ z) by (bit_vector);
    }
    assert(l =~= xor_bytes(a, b));
}

/// The distance does not depend on the direction.
pub proof fn law_distance_symmetric(a: Seq<u8>, b: Seq<u8>)
    requires
        a.len() == b.len(),
    ensures
        distance(a, b) == distance(b, a),
{
    assert forall|i: int| 0 <= i < a.len() implies xor_bytes(a, b)[i] == xor_bytes(b, a)[i] by {
        let x = a[i];
        let y = b[i];
        assert(x ^ y == y ^ x) by (bit_vector);
    }
    assert(xor_bytes(a, b) =~= xor_bytes(b, a));
}

/// Two hashes are at distance zero exactly when they are the same.
pub proof fn law_distance_zero(a: Seq<u8>, b: Seq<u8>)
    requires
        a.len() == b.len(),
    ensures
        distance(a, b) == 0 <==> a == b,
{
    let x = xor_bytes(a, b);
    lemma_number_zero(x);
    if a == b {
        assert forall|i: int| 0 <= i < x.len() implies x[i] == 0 by {
            let y = a[i];
            assert(y ^ y == 0) by (bit_vector);
        }
    } else if number(x) == 0 {
        assert forall|i: int| 0 <= i < a.len() implies a[i] == b[i] by {
            assert(x[i] == 0);
            let y = a[i];
            let z = b[i];
            assert(y ^ z == 0 ==> y == z) by (bit_vector);
        }
        assert(a =~= b);
    }
}

/// No two hashes are equally far from a third.
pub proof fn law_distance_unique(a: Seq<u8>, b: Seq<u8>, c: Seq<u8>)
    requires
        a.len() == b.len() == c.len(),
        distance(a, c) == distance(b, c),
    ensures
        a == b,
{
    lemma_number_injective(xor_bytes(a, c), xor_bytes(b, c));
    assert forall|i: int| 0 <= i < a.len() implies a[i] == b[i] by {
        assert(xor_bytes(a, c)[i] == xor_bytes(b, c)[i]);
        let x = a[i];
        let y = b[i];
        let z = c[i];
        assert(x ^ z == y ^ z ==> x == y) by (bit_vector);
    }
    assert(a =~= b);
}

/// Ranks number the buckets: there is one for each bit of the hash.
pub proof fn law_rank_bound(d: Seq<u8>)
    requires
        d.len() > 0,
    ensures
        rank(d) < 8 * d.len(),
        rank(d) == 8 * d.len() - 1 <==> number(d) == 0,
{
    if number(d) > 0 {
        let i = lemma_top_byte(d);
        let k = lemma_top_bit(d[i]);
        lemma_number_log(d, i, k);
    }
}

/// The rank says what `floor(log2(d))` is: distances that are not zero share a
/// rank exactly when they share the logarithm. Rank zero is left out, since it
/// holds the two highest bits of the first byte.
pub proof fn law_rank_is_magnitude(d: Seq<u8>, e: Seq<u8>)
    requires
        d.len() == e.len(),
        number(d) > 0,
        number(e) > 0,
        rank(d) != 0,
    ensures
        rank(d) == rank(e) <==> log(2, number(d) as int) == log(2, number(e) as int),
{
    lemma_log_bounds(number(d));
    lemma_log_bounds(number(e));
}

/// The peers in the bucket of a hash are closer to that hash than the peers in
/// all other buckets, whichever hash the buckets are counted from.
pub proof fn law_own_bucket_is_closest(own: Seq<u8>, needle: Seq<u8>, x: Seq<u8>, y: Seq<u8>)
    requires
        own.len() == needle.len() == x.len() == y.len(),
        own.len() > 0,
        rank(xor_bytes(own, needle)) != 0,
        rank(xor_bytes(own, x)) == rank(xor_bytes(own, needle)),
        rank(xor_bytes(own, y)) != rank(xor_bytes(own, needle)),
    ensures
        distance(x, needle) < distance(y, needle),
{
    let dn = xor_bytes(own, needle);
    let dx = xor_bytes(own, x);
    let dy = xor_bytes(own, y);
    law_rank_bound(dn);
    law_rank_bound(dx);
    law_rank_bound(dy);
    lemma_xor_cancel(own, x, needle);
    lemma_xor_cancel(own, y, needle);
    if number(dn) == 0 {
        law_distance_zero(own, needle);
        law_distance_zero(own, x);
        law_distance_zero(own, y);
        law_distance_zero(x, needle);
        law_distance_zero(y, needle);
    } else {
        let t = log(2, number(dn) as int);
        law_rank_is_magnitude(dn, dx);
        lemma_xor_log(dx, dn);
        assert(distance(x, needle) < pow2(t as nat));
        lemma_log_bounds(number(dn));
        lemma_xor_log(dn, dy);
        law_distance_symmetric(dn, dy);
        if number(dy) > 0 {
            let u = log(2, number(dy) as int);
            law_rank_is_magnitude(dn, dy);
            lemma_log_bounds(number(dy));
            lemma_xor_log(dy, dn);
            if u > t {
                lemma_pow2_le(t as nat, u as nat);
            }
        }
    }
}

/// XOR works byte by byte, and undoes itself.
pub proof fn law_xor_is_bytewise(a: Seq<u8>, b: Seq<u8>, i: int)
    requires
        a.len() == b.len(),
        0 <= i < a.len(),
    ensures
        xor_bytes(a, b).len() == a.len(),
        xor_bytes(a, b)[i] == a[i] ^ b[i],
        xor_bytes(xor_bytes(a, b), b) == a,
{
    assert forall|j: int| 0 <= j < a.len() implies xor_bytes(xor_bytes(a, b), b)[j] == a[j] by {
        let x = a[j];
        let y = b[j];
        assert((x ^ y) ^ y == x) by (bit_vector);
    }
    assert(xor_bytes(xor_bytes(a, b), b) =~= a);
}

/// The last byte in which two hashes differ from each other decides which of
/// them is closer to a third: the one whose difference from it is less there.
pub proof fn law_last_difference_decides(a: Seq<u8>, b: Seq<u8>, c: Seq<u8>, i: int)
    requires
        a.len() == b.len() == c.len(),
        0 <= i < a.len(),
        (a[i] ^ c[i]) < (b[i] ^ c[i]),
        forall|j: int| i < j < a.len() ==> a[j] == b[j],
    ensures
        distance(a, c) < distance(b, c),
{
    lemma_number_less(xor_bytes(a, c), xor_bytes(b, c), i);
}

/// What the rank of a distance is: it counts the bits of the bytes before the
/// last one that is not zero, and the zero bits above the highest set bit of that
/// one, less one where there is anything to take it from.
pub proof fn law_rank_of_the_highest_bit(d: Seq<u8>, i: int, k: nat)
    requires
        0 <= i < d.len(),
        forall|j: int| i < j < d.len() ==> d[j] == 0,
        k < 8,
        pow2(k) <= d[i] < pow2(k + 1),
    ensures
        8 * i + (7 - k) > 0 ==> rank(d) == 8 * i + (7 - k) - 1,
        8 * i + (7 - k) == 0 ==> rank(d) == 0,
{
    lemma_number_log(d, i, k);
}

/// No distance at all has the last rank.
pub proof fn law_rank_of_nothing(d: Seq<u8>)
    requires
        d.len() > 0,
        forall|j: int| 0 <= j < d.len() ==> d[j] == 0,
    ensures
        rank(d) == 8 * d.len() - 1,
{
    lemma_number_zero(d);
}

} // verus!
