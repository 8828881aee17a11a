//! Hashes: what they are made from, how they compare and how far apart they
//! are.

use blake2::digest::{FixedOutput, Input};
use blake2::Blake2s;
use std::cmp::Ordering;
use vstd::prelude::*;
use vstd::std_specs::cmp::{PartialEqSpec, PartialOrdSpec};

use crate::text::{base64_encode, base64_text, decimal_list, push_byte_list};
use crate::distance::{
    law_rank_of_the_highest_bit, lemma_number_log, lemma_number_zero, number, rank, xor_bytes,
};
use vstd::arithmetic::power2::pow2;

verus! {

/// The number of bytes in a `Blake2Hash`.
pub const BLAKE2_HASH_SIZE: usize = 32;

/// A hash that names a peer or a block, barring collisions: the 256 bits of
/// BLAKE2s.
#[derive(Copy, Clone, Debug, Eq, Ord, Hash)]
pub struct Blake2Hash(pub [u8; BLAKE2_HASH_SIZE]);

impl View for Blake2Hash {
    type V = Seq<u8>;

    open spec fn view(&self) -> Seq<u8> {
        self.0@
    }
}

/// The BLAKE2s digest of `data`, without a key: 32 bytes.
pub uninterp spec fn blake2s_digest(data: Seq<u8>) -> Seq<u8>;

/// Runs `blake2::Blake2s` (`default`, `input`, `fixed_result`) over `seed`.
/// The digest depends on the bytes of `seed` alone; nothing more is claimed of
/// it.
#[verifier::external_body]
fn blake2s(seed: &[u8]) -> (out: [u8; BLAKE2_HASH_SIZE])
    ensures
        out@ == blake2s_digest(seed@),
{
    let mut hasher = Blake2s::default();
    hasher.input(seed);
    let mut out = [0; BLAKE2_HASH_SIZE];
    out[..].copy_from_slice(hasher.fixed_result().as_slice());
    out
}

/// The hash with the given bytes.
pub open spec fn hash_with(bytes: Seq<u8>) -> Blake2Hash {
    choose|h: Blake2Hash| h@ == bytes
}

/// Whether `a` comes before `b` in the lexicographic order of byte strings of
/// one length: the first byte that differs decides.
pub open spec fn byte_less(a: Seq<u8>, b: Seq<u8>) -> bool {
    exists|i: int|
        0 <= i < a.len() && #[trigger] a[i] < b[i] && (forall|j: int| 0 <= j < i ==> a[j] == b[j])
}

/// The first place where two hashes differ, `BLAKE2_HASH_SIZE` if there is
/// none.
fn first_difference(a: &Blake2Hash, b: &Blake2Hash) -> (i: usize)
    ensures
        i <= BLAKE2_HASH_SIZE,
        forall|j: int| 0 <= j < i ==> a@[j] == b@[j],
        i < BLAKE2_HASH_SIZE ==> a@[i as int] != b@[i as int],
{
    let mut i: usize = 0;
    while i < BLAKE2_HASH_SIZE
        invariant
            i <= BLAKE2_HASH_SIZE,
            forall|j: int| 0 <= j < i ==> a@[j] == b@[j],
        decreases BLAKE2_HASH_SIZE - i,
    {
        if a.0[i] != b.0[i] {
            return i;
        }
        i += 1;
    }
    i
}

impl PartialEq for Blake2Hash {
    fn eq(&self, other: &Self) -> (r: bool) {
        let i = first_difference(self, other);
        assert(i == BLAKE2_HASH_SIZE ==> self@ =~= other@);
        i == BLAKE2_HASH_SIZE
    }
}

impl vstd::std_specs::cmp::PartialEqSpecImpl for Blake2Hash {
    open spec fn obeys_eq_spec() -> bool {
        true
    }

    open spec fn eq_spec(&self, other: &Self) -> bool {
        self@ == other@
    }
}

impl PartialOrd for Blake2Hash {
    fn partial_cmp(&self, other: &Self) -> (r: Option<Ordering>) {
        let i = first_difference(self, other);
        if i == BLAKE2_HASH_SIZE {
            Some(Ordering::Equal)
        } else if self.0[i] < other.0[i] {
            Some(Ordering::Less)
        } else {
            Some(Ordering::Greater)
        }
    }
}

impl vstd::std_specs::cmp::PartialOrdSpecImpl for Blake2Hash {
    open spec fn obeys_partial_cmp_spec() -> bool {
        true
    }

    open spec fn partial_cmp_spec(&self, other: &Self) -> Option<Ordering> {
        if byte_less(self@, other@) {
            Some(Ordering::Less)
        } else if byte_less(other@, self@) {
            Some(Ordering::Greater)
        } else {
            Some(Ordering::Equal)
        }
    }
}

impl std::ops::BitXor for Blake2Hash {
    type Output = Blake2Hash;

    fn bitxor(self, rhs: Self) -> (r: Blake2Hash)
        ensures
            r@ == xor_bytes(self@, rhs@),
    {
        let mut out: [u8; BLAKE2_HASH_SIZE] = [0u8; BLAKE2_HASH_SIZE];
        let mut i: usize = 0;
        while i < BLAKE2_HASH_SIZE
            invariant
                i <= BLAKE2_HASH_SIZE,
                forall|j: int| 0 <= j < i ==> out@[j] == self.0@[j] ^ rhs.0@[j],
            decreases BLAKE2_HASH_SIZE - i,
        {
            out[i] = self.0[i] ^ rhs.0[i];
            i += 1;
        }
        let r = Blake2Hash(out);
        assert(r@ =~= xor_bytes(self@, rhs@));
        assert(hash_with(r@)@ == r@);
        assert(hash_with(r@).0 =~= r.0);
        r
    }
}

impl vstd::std_specs::ops::BitXorSpecImpl for Blake2Hash {
    open spec fn obeys_bitxor_spec() -> bool {
        true
    }

    open spec fn bitxor_req(self, rhs: Self) -> bool {
        true
    }

    open spec fn bitxor_spec(self, rhs: Self) -> Blake2Hash {
        hash_with(xor_bytes(self@, rhs@))
    }
}

impl Blake2Hash {
    /// Makes the hash of the given seed data.
    pub fn new(seed: &[u8]) -> (r: Self)
        ensures
            r@ == blake2s_digest(seed@),
    {
        Blake2Hash(blake2s(seed))
    }

    /// The hash with exactly these bytes, of which there must be
    /// `BLAKE2_HASH_SIZE`.
    pub fn from_bytes(value: &[u8]) -> (r: Self)
        requires
            value@.len() == BLAKE2_HASH_SIZE,
        ensures
            r@ == value@,
    {
        let mut out: [u8; BLAKE2_HASH_SIZE] = [0u8; BLAKE2_HASH_SIZE];
        let mut i: usize = 0;
        while i < BLAKE2_HASH_SIZE
            invariant
                i <= BLAKE2_HASH_SIZE,
                value@.len() == BLAKE2_HASH_SIZE,
                forall|j: int| 0 <= j < i ==> out@[j] == value@[j],
            decreases BLAKE2_HASH_SIZE - i,
        {
            out[i] = value[i];
            i += 1;
        }
        assert(out@ =~= value@);
        Blake2Hash(out)
    }

    /// The maximum power of two that the hash can hold: its number of bits.
    pub fn max_power() -> (r: usize)
        ensures
            r == 8 * BLAKE2_HASH_SIZE,
            r == 256,
    {
        BLAKE2_HASH_SIZE * 8
    }

    /// The hash in base 64.
    pub fn to_base64(&self) -> (r: String)
        ensures
            r@ == base64_text(self@),
    {
        base64_encode(&self.0)
    }

    /// The hash as it is shown in logs: `B` and its bytes.
    pub fn debug_text(&self) -> (r: String)
        ensures
            r@ == "B["@ + decimal_list(self@) + "]"@,
    {
        let mut out = String::from_str("B");
        push_byte_list(&mut out, self.0.as_slice());
        proof {
            reveal_strlit("B");
            reveal_strlit("B[");
            reveal_strlit("]");
        }
        assert(out@ =~= "B["@ + decimal_list(self@) + "]"@);
        out
    }

    /// The rank of this hash as a distance.
    pub fn leading_zeros(&self) -> (r: u32)
        ensures
            r == rank(self@),
            r < 256,
    {
        let mut i: usize = BLAKE2_HASH_SIZE;
        while i > 0
            invariant
                i <= BLAKE2_HASH_SIZE,
                forall|j: int| i <= j < BLAKE2_HASH_SIZE ==> self.0@[j] == 0,
            decreases i,
        {
            let b = self.0[i - 1];
            if b != 0 {
                let k = top_bit(b);
                proof {
                    lemma_number_log(self@, i - 1, k as nat);
                }
                let zeros: u32 = 7 - k;
                let before: u32 = 8 * (i - 1) as u32 + zeros;
                return if before == 0 {
                    0
                } else {
                    before - 1
                };
            }
            i -= 1;
        }
        proof {
            lemma_number_zero(self@);
        }
        255
    }
}

/// The position of the highest set bit of a byte.
fn top_bit(b: u8) -> (k: u32)
    requires
        b != 0,
    ensures
        k < 8,
        pow2(k as nat) <= b < pow2(k as nat + 1),
{
    proof {
        vstd::arithmetic::power2::lemma2_to64();
    }
    if b >= 128 {
        7
    } else if b >= 64 {
        6
    } else if b >= 32 {
        5
    } else if b >= 16 {
        4
    } else if b >= 8 {
        3
    } else if b >= 4 {
        2
    } else if b >= 2 {
        1
    } else {
        0
    }
}

/// The first byte in which two byte strings differ decides their order.
pub proof fn law_first_difference_decides(a: Seq<u8>, b: Seq<u8>, i: int)
    requires
        a.len() == b.len(),
        0 <= i < a.len(),
        a[i] < b[i],
        forall|j: int| 0 <= j < i ==> a[j] == b[j],
    ensures
        byte_less(a, b),
        !byte_less(b, a),
        !byte_less(a, a),
{
    if byte_less(b, a) {
        let k = choose|k: int|
            0 <= k < b.len() && #[trigger] b[k] < a[k] && (forall|j: int|
                0 <= j < k ==> b[j] == a[j]);
        if i < k {
            assert(b[i] == a[i]);
        }
        if k < i {
            assert(a[k] == b[k]);
        }
    }
}

/// Hashes are equal when their bytes are, and are ordered as their bytes are.
pub proof fn law_hashes_compare_by_bytes(a: Blake2Hash, b: Blake2Hash)
    ensures
        a.eq_spec(&b) <==> a.0@ == b.0@,
        a.partial_cmp_spec(&b) == Some(Ordering::Less) <==> byte_less(a.0@, b.0@),
        a.partial_cmp_spec(&b) == Some(Ordering::Equal) <==> a.0@ == b.0@,
        a.partial_cmp_spec(&b) == Some(Ordering::Greater) <==> byte_less(b.0@, a.0@),
{
    lemma_one_comes_first(a.0@, b.0@);
}

/// Two byte strings of one length are the same, or one comes first.
proof fn lemma_one_comes_first(a: Seq<u8>, b: Seq<u8>)
    requires
        a.len() == b.len(),
    ensures
        a == b ==> !byte_less(a, b) && !byte_less(b, a),
        a != b ==> byte_less(a, b) != byte_less(b, a),
{
    if a != b {
        let i = lemma_least_difference(a, b);
        if a[i] < b[i] {
            law_first_difference_decides(a, b, i);
        } else {
            law_first_difference_decides(b, a, i);
        }
    }
}

proof fn lemma_least_difference(a: Seq<u8>, b: Seq<u8>) -> (i: int)
    requires
        a.len() == b.len(),
        a != b,
    ensures
        0 <= i < a.len(),
        a[i] != b[i],
        forall|j: int| 0 <= j < i ==> a[j] == b[j],
    decreases a.len(),
{
    if a.len() == 0 {
        assert(a =~= b);
        0
    } else if a.drop_last() != b.drop_last() {
        let i = lemma_least_difference(a.drop_last(), b.drop_last());
        assert forall|j: int| 0 <= j < i implies a[j] == b[j] by {
            assert(a.drop_last()[j] == b.drop_last()[j]);
        }
        i
    } else {
        let i = a.len() - 1;
        assert(a =~= a.drop_last().push(a[i]));
        assert(b =~= b.drop_last().push(b[i]));
        assert forall|j: int| 0 <= j < i implies a[j] == b[j] by {
            assert(a.drop_last()[j] == b.drop_last()[j]);
        }
        i
    }
}

/// The rank of a hash, told by what goes in and comes out: from the last byte
/// that is not zero, and its highest set bit.
pub proof fn law_leading_zeros_of_the_highest_bit(h: Blake2Hash, r: u32, i: int, k: nat)
    requires
        call_ensures(Blake2Hash::leading_zeros, (&h,), r),
        0 <= i < 32,
        forall|j: int| i < j < 32 ==> h.0@[j] == 0,
        k < 8,
        pow2(k) <= h.0@[i] < pow2(k + 1),
    ensures
        8 * i + (7 - k) > 0 ==> r == 8 * i + (7 - k) - 1,
        8 * i + (7 - k) == 0 ==> r == 0,
{
    law_rank_of_the_highest_bit(h@, i, k);
}

/// A hash keeps the bytes that it is made from.
pub proof fn law_hash_keeps_its_bytes(value: &[u8], h: Blake2Hash, i: int)
    requires
        value@.len() == 32,
        call_ensures(Blake2Hash::from_bytes, (value,), h),
        0 <= i < 32,
    ensures
        h.0@[i] == value@[i],
{
}

} // verus!
