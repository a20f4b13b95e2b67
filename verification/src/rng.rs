//! The seeded random source that every generation step draws from.
use rand::Rng;
use rand::SeedableRng;
use rand_xorshift::XorShiftRng;
use std::ops::Range;
use vstd::prelude::*;

verus! {

/// The xorshift generator of `rand_xorshift`. Nothing is known of a value of
/// it but what the functions below say.
#[verifier::external_type_specification]
#[verifier::external_body]
pub struct ExXorShiftRng(XorShiftRng);

/// The four state words that a generator holds, in the order `x`, `y`, `z`, `w`.
pub uninterp spec fn xorshift_words(rng: XorShiftRng) -> Seq<u32>;

/// What `gen_range(0, bound)` over `u64` yields on a generator that holds
/// `words`: the number drawn, and the words that the generator holds afterwards.
pub uninterp spec fn uniform_below(words: Seq<u32>, bound: int) -> (int, Seq<u32>);

/// The `i`-th 32-bit word of a seed, counted from the least significant one.
pub open spec fn seed_word(seed: u128, i: int) -> u32 {
    if i == 0 {
        (seed & 0xffff_ffff) as u32
    } else if i == 1 {
        ((seed >> 32) & 0xffff_ffff) as u32
    } else if i == 2 {
        ((seed >> 64) & 0xffff_ffff) as u32
    } else {
        ((seed >> 96) & 0xffff_ffff) as u32
    }
}

/// The state that a seed gives: its four words, or a fixed state for the zero
/// seed, which the generator cannot run on.
pub open spec fn seeded_words(seed: u128) -> Seq<u32> {
    if seed == 0 {
        seq![0xBAD_5EEDu32, 0xBAD_5EEDu32, 0xBAD_5EEDu32, 0xBAD_5EEDu32]
    } else {
        seq![seed_word(seed, 0), seed_word(seed, 1), seed_word(seed, 2), seed_word(seed, 3)]
    }
}

/// The outcome of one draw from `low..high` on the state `words`: the number,
/// and the state afterwards.
pub open spec fn ranged(words: Seq<u32>, low: int, high: int) -> (int, Seq<u32>) {
    let drawn = uniform_below(words, high - low);
    (low + drawn.0, drawn.1)
}

/// The outcome of one draw that succeeds once in `p_inv` times.
pub open spec fn happens(words: Seq<u32>, p_inv: int) -> (bool, Seq<u32>) {
    let drawn = uniform_below(words, p_inv);
    (drawn.0 == 0, drawn.1)
}

/// `XorShiftRng::from_seed` on the little-endian bytes of `seed`: the generator
/// starts from the seed's four little-endian words, or from the preset words
/// when all of them are zero.
#[verifier::external_body]
fn xorshift_from_seed(seed: u128) -> (rng: XorShiftRng)
    ensures
        xorshift_words(rng) == seeded_words(seed),
{
    XorShiftRng::from_seed(seed.to_le_bytes())
}

/// `Rng::gen_range(0, bound)` over `u64`: the number drawn is below `bound` and,
/// like the generator's next state, depends on the state before and on `bound`
/// alone.
#[verifier::external_body]
fn xorshift_below(rng: &mut XorShiftRng, bound: u64) -> (drawn: u64)
    requires
        bound > 0,
    ensures
        drawn < bound,
        drawn == uniform_below(xorshift_words(*old(rng)), bound as int).0,
        xorshift_words(*final(rng)) == uniform_below(xorshift_words(*old(rng)), bound as int).1,
{
    rng.gen_range(0u64, bound)
}

/// A seeded random source. Its view is the state of the generator inside.
pub struct RngHandle {
    inner: XorShiftRng,
}

impl View for RngHandle {
    type V = Seq<u32>;

    closed spec fn view(&self) -> Seq<u32> {
        xorshift_words(self.inner)
    }
}

impl RngHandle {
    /// A source that starts from `seed`.
    pub fn from_seed(seed: u128) -> (rng: RngHandle)
        ensures
            rng@ == seeded_words(seed),
    {
        RngHandle { inner: xorshift_from_seed(seed) }
    }

    /// Draws a number below `bound`.
    pub fn below(&mut self, bound: u64) -> (drawn: u64)
        requires
            bound > 0,
        ensures
            drawn < bound,
            drawn == uniform_below(old(self)@, bound as int).0,
            final(self)@ == uniform_below(old(self)@, bound as int).1,
    {
        xorshift_below(&mut self.inner, bound)
    }

    /// Draws a number from the half-open `range`.
    pub fn range(&mut self, range: Range<usize>) -> (drawn: usize)
        requires
            range.start < range.end,
        ensures
            range.start <= drawn < range.end,
            drawn == ranged(old(self)@, range.start as int, range.end as int).0,
            final(self)@ == ranged(old(self)@, range.start as int, range.end as int).1,
    {
        let width: u64 = (range.end - range.start) as u64;
        let offset: u64 = self.below(width);
        range.start + offset as usize
    }

    /// Draws a number from the half-open `range` of signed numbers.
    pub fn range_i32(&mut self, range: Range<i32>) -> (drawn: i32)
        requires
            range.start < range.end,
        ensures
            range.start <= drawn < range.end,
            drawn == ranged(old(self)@, range.start as int, range.end as int).0,
            final(self)@ == ranged(old(self)@, range.start as int, range.end as int).1,
    {
        let width: u64 = (range.end as i64 - range.start as i64) as u64;
        let offset: u64 = self.below(width);
        (range.start as i64 + offset as i64) as i32
    }

    /// Decides an event that happens once in `p_inv` times.
    pub fn does_happen(&mut self, p_inv: u64) -> (hit: bool)
        requires
            p_inv > 0,
        ensures
            hit == happens(old(self)@, p_inv as int).0,
            final(self)@ == happens(old(self)@, p_inv as int).1,
            p_inv == 1 ==> hit,
    {
        self.below(p_inv) == 0
    }

    /// Picks one of `values`, each with the same chance; nothing is drawn for
    /// an empty slice.
    pub fn pick<'a, T>(&mut self, values: &'a [T]) -> (picked: Option<&'a T>)
        ensures
            values@.len() == 0 ==> picked.is_none() && final(self)@ == old(self)@,
            values@.len() > 0 ==> {
                let drawn = ranged(old(self)@, 0, values@.len() as int);
                &&& 0 <= drawn.0 < values@.len()
                &&& picked == Some(&values@[drawn.0])
                &&& final(self)@ == drawn.1
            },
    {
        if values.len() == 0 {
            None
        } else {
            let i: usize = self.range(0..values.len());
            Some(&values[i])
        }
    }
}

} // verus!
