//! The generator behind insecure random identities.

use vstd::arithmetic::power2::pow2;
use vstd::prelude::*;

verus! {

/// The state that `oorandom::Rand64` starts from for a seed.
pub uninterp spec fn rand64_start(seed: u128) -> (u128, u128);

/// What `oorandom::Rand64` draws in a state, and the state it leaves.
pub uninterp spec fn rand64_step(state: (u128, u128)) -> (u64, (u128, u128));

/// Runs `oorandom::Rand64::new` and reads the state back with `state`. The
/// state depends on the seed alone.
#[verifier::external_body]
fn oorandom_new(seed: u128) -> (r: (u128, u128))
    ensures
        r == rand64_start(seed),
{
    oorandom::Rand64::new(seed).state()
}

/// Resumes the generator with `oorandom::Rand64::from_state`, runs `rand_u64`
/// and reads the state back with `state`. The draw and the state that follows
/// depend on the state before alone.
#[verifier::external_body]
fn oorandom_draw(state: (u128, u128)) -> (r: (u64, (u128, u128)))
    ensures
        r == rand64_step(state),
{
    let mut rng = oorandom::Rand64::from_state(state);
    let drawn = rng.rand_u64();
    (drawn, rng.state())
}

/// The words that a generator draws next, in order.
pub open spec fn draws(state: (u128, u128), n: nat) -> Seq<u64>
    decreases n,
{
    if n == 0 {
        seq![]
    } else {
        draws(state, (n - 1) as nat).push(rand64_step(state_after(state, (n - 1) as nat)).0)
    }
}

/// The state of a generator after it has drawn `n` words.
pub open spec fn state_after(state: (u128, u128), n: nat) -> (u128, u128)
    decreases n,
{
    if n == 0 {
        state
    } else {
        rand64_step(state_after(state, (n - 1) as nat)).1
    }
}

/// A small, fast generator that is not fit for secrets.
#[derive(Debug)]
pub struct Rand64 {
    state: u128,
    inc: u128,
}

impl View for Rand64 {
    type V = (u128, u128);

    closed spec fn view(&self) -> (u128, u128) {
        (self.state, self.inc)
    }
}

impl Rand64 {
    /// A generator for the given seed.
    pub fn new(seed: u128) -> (r: Self)
        ensures
            r@ == rand64_start(seed),
    {
        let (state, inc) = oorandom_new(seed);
        Rand64 { state, inc }
    }

    /// Draws a word.
    pub fn rand_u64(&mut self) -> (r: u64)
        ensures
            (r, final(self)@) == rand64_step(old(self)@),
    {
        let (drawn, (state, inc)) = oorandom_draw((self.state, self.inc));
        self.state = state;
        self.inc = inc;
        drawn
    }
}

/// The bytes of the words, each with its lowest byte first.
pub open spec fn bytes_lowest_first(words: Seq<u64>) -> Seq<u8> {
    Seq::new(
        8 * words.len(),
        |i: int| (words[i / 8] as nat / pow2((8 * (i % 8)) as nat) % 256) as u8,
    )
}

/// The bytes of the words, each with its highest byte first.
pub open spec fn bytes_highest_first(words: Seq<u64>) -> Seq<u8> {
    Seq::new(
        8 * words.len(),
        |i: int| (words[i / 8] as nat / pow2((8 * (7 - i % 8)) as nat) % 256) as u8,
    )
}

/// Runs `bytemuck::bytes_of`, which reads the memory of the words as bytes:
/// the words in order, the bytes of each in the order of the machine.
#[verifier::external_body]
pub(crate) fn bytes_of_words(words: &[u64; 32]) -> (r: &[u8])
    ensures
        r@ == bytes_lowest_first(words@) || r@ == bytes_highest_first(words@),
{
    bytemuck::bytes_of(words)
}

/// A generator draws one word after the other: the next, and then those that
/// follow from the state that it leaves.
pub proof fn law_draws_one_by_one(state: (u128, u128), n: nat)
    ensures
        draws(state, 0).len() == 0,
        state_after(state, 0) == state,
        draws(state, n).len() == n,
        draws(state, n + 1) == seq![rand64_step(state).0] + draws(rand64_step(state).1, n),
        state_after(state, n + 1) == state_after(rand64_step(state).1, n),
    decreases n,
{
    let next = rand64_step(state).1;
    reveal_with_fuel(draws, 2);
    reveal_with_fuel(state_after, 2);
    if n > 0 {
        let m = (n - 1) as nat;
        law_draws_one_by_one(state, m);
        assert(draws(state, n + 1) == draws(state, n).push(rand64_step(state_after(state, n)).0));
        assert(draws(next, n) == draws(next, m).push(rand64_step(state_after(next, m)).0));
    }
    assert(draws(state, n + 1) =~= seq![rand64_step(state).0] + draws(next, n));
}

} // verus!
