use worlddat::hash::{Blake2Hash, BLAKE2_HASH_SIZE};
use worlddat::rng::Rand64;
use worlddat::types::{Contact, PeerId};

use blake2::digest::{FixedOutput, Input};
use std::cmp::Ordering;

const ABC: [u8; 32] = [
    80, 140, 94, 140, 50, 124, 20, 226, 225, 167, 43, 163, 78, 235, 69, 47, //
    55, 69, 139, 32, 158, 214, 58, 41, 77, 153, 155, 76, 134, 103, 89, 130, //
];

fn with_byte(i: usize, b: u8) -> Blake2Hash {
    let mut bytes = [0u8; BLAKE2_HASH_SIZE];
    bytes[i] = b;
    Blake2Hash(bytes)
}

#[test]
fn hash_of_abc() {
    assert_eq!(Blake2Hash::new(b"abc").0, ABC);
    assert_eq!(PeerId::new(b"abc").bytes(), &ABC[..]);
}

#[test]
fn hash_of_nothing() {
    let h = Blake2Hash::new(b"");
    assert_eq!(h.0[..4], [105, 33, 122, 48]);
    assert_eq!(h.0[28..], [30, 208, 238, 249]);
}

#[test]
fn hash_of_given_bytes() {
    assert_eq!(Blake2Hash::from_bytes(&ABC[..]).0, ABC);
    assert_eq!(PeerId::raw(ABC), PeerId::new(b"abc"));
}

#[test]
fn hashes_have_256_bits() {
    assert_eq!(Blake2Hash::max_power(), 256);
}

#[test]
fn hash_in_base64() {
    assert_eq!(
        Blake2Hash(ABC).to_base64(),
        "UIxejDJ8FOLhpyujTutFLzdFiyCe1jopTZmbTIZnWYI="
    );
    assert_eq!(
        Blake2Hash([255; 32]).to_base64(),
        "//////////////////////////////////////////8="
    );
    let mut bytes = [0u8; 32];
    for i in 0..32 {
        bytes[i] = i as u8;
    }
    assert_eq!(
        PeerId::raw(bytes).to_base64(),
        "AAECAwQFBgcICQoLDA0ODxAREhMUFRYXGBkaGxwdHh8="
    );
}

#[test]
fn hash_in_logs() {
    assert_eq!(
        Blake2Hash(ABC).debug_text(),
        "B[80, 140, 94, 140, 50, 124, 20, 226, 225, 167, 43, 163, 78, 235, 69, 47, \
         55, 69, 139, 32, 158, 214, 58, 41, 77, 153, 155, 76, 134, 103, 89, 130]"
    );
    assert_eq!(
        with_byte(1, 7).debug_text(),
        format!("B{:?}", &with_byte(1, 7).0[..])
    );
}

#[test]
fn peer_id_in_logs() {
    assert_eq!(
        PeerId::new(b"abc").debug_text(),
        "PEERID:UIxejDJ8FOLhpyujTutFLzdFiyCe1jopTZmbTIZnWYI="
    );
}

#[test]
fn xor_of_hashes() {
    let a = Blake2Hash([0b1100; 32]);
    let b = Blake2Hash([0b1010; 32]);
    assert_eq!((a ^ b).0, [0b0110; 32]);
    assert_eq!((b ^ a).0, [0b0110; 32]);
    assert_eq!((a ^ a).0, [0; 32]);
    assert_eq!((a ^ b ^ b).0, a.0);
}

#[test]
fn hashes_are_ordered_by_their_first_difference() {
    let small = with_byte(1, 1);
    let large = with_byte(0, 1);
    assert!(small < large);
    assert!(large > small);
    assert_eq!(small.partial_cmp(&large), Some(Ordering::Less));
    assert_eq!(small.partial_cmp(&small), Some(Ordering::Equal));
    assert!(small == small);
    assert!(small != large);
}

#[test]
fn contacts_are_ordered_by_identity() {
    let a = Contact::new_dummy(PeerId::raw(with_byte(31, 1).0));
    let b = Contact::new_dummy(PeerId::raw(with_byte(30, 1).0));
    assert_eq!(a.cmp(&b), Ordering::Less);
    assert_eq!(b.cmp(&a), Ordering::Greater);
    assert_eq!(a.cmp(&a), Ordering::Equal);
    assert!(a < b);
}

#[test]
fn ranks_of_single_bits() {
    assert_eq!(with_byte(0, 0).leading_zeros(), 255);
    assert_eq!(with_byte(31, 1).leading_zeros(), 254);
    assert_eq!(with_byte(31, 2).leading_zeros(), 253);
    assert_eq!(with_byte(31, 128).leading_zeros(), 247);
    assert_eq!(with_byte(1, 1).leading_zeros(), 14);
    assert_eq!(with_byte(1, 128).leading_zeros(), 7);
    assert_eq!(with_byte(0, 1).leading_zeros(), 6);
    assert_eq!(with_byte(0, 32).leading_zeros(), 1);
    assert_eq!(with_byte(0, 64).leading_zeros(), 0);
    assert_eq!(with_byte(0, 128).leading_zeros(), 0);
}

#[test]
fn only_the_highest_bit_ranks() {
    let mut bytes = [255u8; 32];
    bytes[31] = 1;
    assert_eq!(Blake2Hash(bytes).leading_zeros(), 254);
    bytes[31] = 0;
    bytes[30] = 0;
    bytes[29] = 0b0001_1111;
    assert_eq!(Blake2Hash(bytes).leading_zeros(), 8 * 29 + 3 - 1);
}

#[test]
fn distance_is_symmetric() {
    let a = PeerId::new(b"one");
    let b = PeerId::new(b"another");
    assert_eq!(a.distance_rank(&b), b.distance_rank(&a));
    assert_eq!(a.distance_rank(&a), 255);
}

#[test]
fn draws_are_those_of_the_generator() {
    let mut ours = Rand64::new(235445);
    let mut theirs = oorandom::Rand64::new(235445);
    let mut last = 0;
    for _ in 0..10 {
        let drawn = ours.rand_u64();
        assert_eq!(drawn, theirs.rand_u64());
        assert_ne!(drawn, last);
        last = drawn;
    }
}

#[test]
fn random_identity_is_the_hash_of_the_draws() {
    let mut ours = Rand64::new(12345);
    let mut theirs = oorandom::Rand64::new(12345);
    for _ in 0..3 {
        let mut words = [0u64; 32];
        for w in words.iter_mut() {
            *w = theirs.rand_u64();
        }
        let mut hasher = blake2::Blake2s::default();
        hasher.input(bytemuck::bytes_of(&words));
        let expected = hasher.fixed_result();
        assert_eq!(
            PeerId::new_insecure_random(&mut ours).bytes(),
            expected.as_slice()
        );
    }
}

#[test]
fn ranks_follow_the_magnitude() {
    // Distances with the same highest bit have one rank, others another.
    let mut low = [0u8; 32];
    low[7] = 0b0000_0100;
    let mut high = [255u8; 32];
    for b in high.iter_mut().skip(8) {
        *b = 0;
    }
    high[7] = 0b0000_0111;
    assert_eq!(
        Blake2Hash(low).leading_zeros(),
        Blake2Hash(high).leading_zeros()
    );
    high[7] = 0b0000_1000;
    assert_ne!(
        Blake2Hash(low).leading_zeros(),
        Blake2Hash(high).leading_zeros()
    );
    let mut seen = vec![];
    for i in 0..32 {
        for k in 0..8 {
            let rank = with_byte(i, 1 << k).leading_zeros();
            assert!(rank < 255);
            seen.push(rank);
        }
    }
    seen.sort();
    seen.dedup();
    // All but the two highest bits of the first byte have ranks of their own.
    assert_eq!(seen.len(), 255);
}
