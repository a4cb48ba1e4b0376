//! The one source of chance: positions in a ChaCha8 key stream.
//!
//! A stream is a seed and a word position, both plain values, so a run resumes
//! exactly where it was left and every draw is a function of those two.

use crate::num::{
    law_counts_keep_their_order, law_more_times_is_no_less, law_products_commute, lemma_nearest_exact, lemma_signed,
    lemma_small_ints_are_exact, nearest, num, of_int, product_of, Num, NOTHING, ONE,
};
use rand::{Rng, RngCore, SeedableRng};
use rand_chacha::ChaCha8Rng;
use vstd::arithmetic::power2::*;
use vstd::prelude::*;

verus! {

/// The 32-bit word at a position of the key stream of a seed.
pub uninterp spec fn chacha_word(seed: u64, pos: u64) -> u32;

/// A number drawn from an inclusive range of 64-bit integers at a position of
/// the key stream, and the position after it.
pub uninterp spec fn chacha_range(seed: u64, pos: u64, low: i64, high: i64) -> (i64, u64);

/// The same for an index below a count.
pub uninterp spec fn chacha_index(seed: u64, pos: u64, count: u64) -> (u64, u64);

/// The same for an inclusive range of 32-bit integers, which take one word at a time.
pub uninterp spec fn chacha_small_range(seed: u64, pos: u64, low: i32, high: i32) -> (i32, u64);

/// `ChaCha8Rng::next_u32`, at word `pos` of the generator that
/// `seed_from_u64(seed)` gives. The claim is that the word depends on the seed
/// and the position alone.
#[verifier::external_body]
fn next_word(seed: u64, pos: u64) -> (w: u32)
    ensures
        w == chacha_word(seed, pos),
{
    let mut rng = ChaCha8Rng::seed_from_u64(seed);
    rng.set_word_pos(pos as u128);
    rng.next_u32()
}

/// `Rng::gen_range` over an inclusive range of `i64`, at word `pos` of the
/// generator that `seed_from_u64(seed)` gives, with the position it leaves the
/// generator at. The claim is that both depend on the seed, the position and
/// the bounds alone, and that the number lies within the bounds.
#[verifier::external_body]
fn next_in_range(seed: u64, pos: u64, low: i64, high: i64) -> (r: (i64, u64))
    requires
        low <= high,
    ensures
        r == chacha_range(seed, pos, low, high),
        low <= r.0 <= high,
{
    let mut rng = ChaCha8Rng::seed_from_u64(seed);
    rng.set_word_pos(pos as u128);
    let v = rng.gen_range(low..=high);
    (v, rng.get_word_pos() as u64)
}

/// `Rng::gen_range` over the `u64` values below a count, at word `pos` of the
/// generator that `seed_from_u64(seed)` gives, with the position it leaves the
/// generator at. The claim is that both depend on the seed, the position and
/// the count alone, and that the number lies below the count.
#[verifier::external_body]
fn next_index(seed: u64, pos: u64, count: u64) -> (r: (u64, u64))
    requires
        count > 0,
    ensures
        r == chacha_index(seed, pos, count),
        r.0 < count,
{
    let mut rng = ChaCha8Rng::seed_from_u64(seed);
    rng.set_word_pos(pos as u128);
    let v = rng.gen_range(0..count);
    (v, rng.get_word_pos() as u64)
}

/// `Rng::gen_range` over an inclusive range of `i32`, at word `pos` of the
/// generator that `seed_from_u64(seed)` gives, with the position it leaves the
/// generator at. The claim is that both depend on the seed, the position and
/// the bounds alone, and that the number lies within the bounds.
#[verifier::external_body]
fn next_in_small_range(seed: u64, pos: u64, low: i32, high: i32) -> (r: (i32, u64))
    requires
        low <= high,
    ensures
        r == chacha_small_range(seed, pos, low, high),
        low <= r.0 <= high,
{
    let mut rng = ChaCha8Rng::seed_from_u64(seed);
    rng.set_word_pos(pos as u128);
    let v = rng.gen_range(low..=high);
    (v, rng.get_word_pos() as u64)
}

/// How many words are read ahead at a time.
pub const READ_AHEAD: u64 = 64;

/// `Rng::fill` over 64 words, from word `pos` of the generator that
/// `seed_from_u64(seed)` gives. The claim is that it writes the words that
/// `next_u32` would have given one after the other from there.
#[verifier::external_body]
fn next_words(seed: u64, pos: u64) -> (words: Vec<u32>)
    requires
        pos + 64 <= u64::MAX,
    ensures
        words@.len() == 64,
        forall|i: int| 0 <= i < 64 ==> #[trigger] words@[i] == chacha_word(seed, (pos + i) as u64),
{
    let mut rng = ChaCha8Rng::seed_from_u64(seed);
    rng.set_word_pos(pos as u128);
    let mut words = vec![0u32; 64];
    rng.fill(&mut words[..]);
    words
}

/// 2^-24
pub const UNIT_SCALE: u32 = 0x3380_0000;

/// The number in `[0, 1)` that the upper 24 bits of a word stand for.
pub open spec fn unit_of(word: u32) -> Num {
    num(UNIT_SCALE) * of_int((word / 256) as int)
}

/// A position in the key stream of a seed.
#[derive(Debug, Clone, Copy, PartialEq, Eq, Structural)]
pub struct Stream {
    pub seed: u64,
    pub pos: u64,
}

/// A position one further on; the stream is a cycle.
pub open spec fn next_pos(pos: u64) -> u64 {
    if pos == u64::MAX {
        0
    } else {
        (pos + 1) as u64
    }
}

/// Words of a key stream that were read ahead. What is on it changes how fast a
/// draw is made, never what is drawn.
#[derive(Debug)]
pub struct Tape {
    pub seed: u64,
    pub start: u64,
    pub words: Vec<u32>,
}

impl Tape {
    pub open spec fn wf(&self) -> bool {
        &&& self.words@.len() <= READ_AHEAD
        &&& self.start + READ_AHEAD <= u64::MAX
        &&& forall|i: int|
            0 <= i < self.words@.len() ==> #[trigger] self.words@[i] == chacha_word(
                self.seed,
                (self.start + i) as u64,
            )
    }

    pub fn blank() -> (r: Self)
        ensures
            r.wf(),
            r.words@.len() == 0,
    {
        Tape { seed: 0, start: 0, words: Vec::new() }
    }
}

impl Stream {
    pub fn seeded(seed: u64) -> (s: Stream)
        ensures
            s == (Stream { seed, pos: 0 }),
    {
        Stream { seed, pos: 0 }
    }

    pub open spec fn word_here(self) -> u32 {
        chacha_word(self.seed, self.pos)
    }

    /// The stream after one word.
    pub open spec fn stepped(self) -> Stream {
        Stream { pos: next_pos(self.pos), ..self }
    }

    fn word(&mut self) -> (w: u32)
        ensures
            w == old(self).word_here(),
            *final(self) == old(self).stepped(),
    {
        let w = next_word(self.seed, self.pos);
        self.pos = if self.pos == u64::MAX {
            0
        } else {
            self.pos + 1
        };
        w
    }

    /// The same word, read ahead with those that follow it.
    fn word_from(&mut self, tape: &mut Tape) -> (w: u32)
        requires
            old(tape).wf(),
        ensures
            w == old(self).word_here(),
            *final(self) == old(self).stepped(),
            final(tape).wf(),
    {
        if self.pos >= u64::MAX - READ_AHEAD {
            return self.word();
        }
        let held = tape.words.len() as u64;
        if tape.seed != self.seed || self.pos < tape.start || self.pos - tape.start >= held {
            tape.seed = self.seed;
            tape.start = self.pos;
            tape.words = next_words(self.seed, self.pos);
        }
        let at = self.pos - tape.start;
        let w = tape.words[at as usize];
        assert(tape.start + at == self.pos);
        self.pos = self.pos + 1;
        w
    }

    pub open spec fn unit_here(self) -> Num {
        unit_of(self.word_here())
    }

    /// A number in `[0, 1)`.
    pub fn unit(&mut self) -> (r: Num)
        ensures
            r == old(self).unit_here(),
            *final(self) == old(self).stepped(),
    {
        let w = self.word();
        num(UNIT_SCALE) * Num::from_u64((w / 256) as u64)
    }

    /// The same number, for somebody who draws many in a row.
    pub fn unit_from(&mut self, tape: &mut Tape) -> (r: Num)
        requires
            old(tape).wf(),
        ensures
            r == old(self).unit_here(),
            *final(self) == old(self).stepped(),
            final(tape).wf(),
    {
        let w = self.word_from(tape);
        num(UNIT_SCALE) * Num::from_u64((w / 256) as u64)
    }

    pub open spec fn coin_here(self) -> bool {
        self.word_here() >= 0x8000_0000
    }

    /// A fair coin: the highest bit of a word.
    pub fn coin(&mut self) -> (r: bool)
        ensures
            r == old(self).coin_here(),
            *final(self) == old(self).stepped(),
    {
        self.word() >= 0x8000_0000
    }

    pub open spec fn range_here(self, low: int, high: int) -> int {
        chacha_range(self.seed, self.pos, low as i64, high as i64).0 as int
    }

    pub open spec fn ranged(self, low: int, high: int) -> Stream {
        Stream { pos: chacha_range(self.seed, self.pos, low as i64, high as i64).1, ..self }
    }

    /// An integer between `low` and `high`, both included.
    pub fn range(&mut self, low: i64, high: i64) -> (r: i64)
        requires
            low <= high,
        ensures
            r == old(self).range_here(low as int, high as int),
            low <= r <= high,
            *final(self) == old(self).ranged(low as int, high as int),
    {
        let (v, pos) = next_in_range(self.seed, self.pos, low, high);
        self.pos = pos;
        v
    }

    pub open spec fn index_here(self, n: nat) -> nat {
        chacha_index(self.seed, self.pos, n as u64).0 as nat
    }

    pub open spec fn indexed(self, n: nat) -> Stream {
        Stream { pos: chacha_index(self.seed, self.pos, n as u64).1, ..self }
    }

    /// An index below `n`.
    pub fn index(&mut self, n: usize) -> (r: usize)
        requires
            n > 0,
        ensures
            r == old(self).index_here(n as nat),
            r < n,
            *final(self) == old(self).indexed(n as nat),
    {
        let (v, pos) = next_index(self.seed, self.pos, n as u64);
        self.pos = pos;
        v as usize
    }

    pub open spec fn small_range_here(self, low: int, high: int) -> int {
        chacha_small_range(self.seed, self.pos, low as i32, high as i32).0 as int
    }

    pub open spec fn small_ranged(self, low: int, high: int) -> Stream {
        Stream { pos: chacha_small_range(self.seed, self.pos, low as i32, high as i32).1, ..self }
    }

    /// A small integer between `low` and `high`, both included.
    pub fn small_range(&mut self, low: i32, high: i32) -> (r: i32)
        requires
            low <= high,
        ensures
            r == old(self).small_range_here(low as int, high as int),
            low <= r <= high,
            *final(self) == old(self).small_ranged(low as int, high as int),
    {
        let (v, pos) = next_in_small_range(self.seed, self.pos, low, high);
        self.pos = pos;
        v
    }
}

/// Every draw of a number lies in `[0, 1)`.
pub proof fn law_draws_are_below_one(word: u32)
    ensures
        num(NOTHING).le(unit_of(word)),
        unit_of(word).lt(num(ONE)),
{
    let k = (word / 256) as nat;
    let most = 0xff_ffffnat;
    let scale = num(UNIT_SCALE);
    let c = pow2(149);
    law_counts_keep_their_order(k, most);
    law_more_times_is_no_less(of_int(k as int), of_int(most as int), scale);
    assert(scale * of_int(k as int) == of_int(k as int) * scale && scale * of_int(most as int) == of_int(most as int)
        * scale) by {
        law_products_commute(scale, of_int(k as int));
        law_products_commute(scale, of_int(most as int));
    }
    lemma_small_ints_are_exact(most);
    lemma_pow2_pos(149);
    lemma2_to64();
    lemma_pow2_adds(23, 102);
    assert(scale.units() == pow2(125));
    let p = of_int(most as int).units() * scale.units();
    assert(p == c * (most * pow2(125))) by (nonlinear_arith)
        requires
            p == (most * c) * pow2(125),
    ;
    lemma_nearest_exact(p, c, most, 125);
    reveal(product_of);
    lemma_signed(false, nearest(p, c));
}

} // verus!
