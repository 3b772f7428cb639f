//! Word frequency learned from the user's history.
//!
//! Each word keeps how many times it was seen and the generation it was
//! first seen at; its count halves every `half_life` generations.

use crate::model::WordId;
use vstd::arithmetic::power2::pow2;
use vstd::bits::lemma_u64_shr_is_div;
use vstd::prelude::*;

verus! {

/// The count of a word seen `c_i` times since generation `b_i`, at
/// generation `g`: halved once per `h` generations, and linearly in between.
pub open spec fn spec_true_count(h: u64, g: u64, c_i: u32, b_i: u64) -> int {
    let elapsed = g - b_i;
    let base = c_i as int / pow2((elapsed / h as int) as nat) as int;
    base - (base * (elapsed % h as int)) / (2 * h)
}

/// The counting can be done: a positive half life of at most `u32::MAX`
/// generations, a first sighting not after now, and fewer than 64 halvings.
pub open spec fn count_ok(h: u64, g: u64, b_i: u64) -> bool {
    0 < h <= u32::MAX && b_i <= g && (g - b_i) / (h as int) < 64
}

/// Linear approximation (first order) of the decayed count.
pub fn true_count(h: u64, g: u64, c_i: u32, b_i: u64) -> (r: u32)
    requires
        count_ok(h, g, b_i),
    ensures
        r == spec_true_count(h, g, c_i, b_i),
{
    let elapsed = g - b_i;
    let num_halvings = elapsed / h;
    let reminder = elapsed % h;
    proof {
        lemma_u64_shr_is_div(c_i as u64, num_halvings);
        vstd::arithmetic::power2::lemma_pow2_pos(num_halvings as nat);
    }
    let base = (c_i as u64) >> num_halvings;
    proof {
        assert(base <= c_i) by {
            vstd::arithmetic::div_mod::lemma_div_is_ordered_by_denominator(c_i as int, 1, pow2(num_halvings as nat) as int);
        }
        assert(base * reminder <= 0xffffffff * 0xffffffff) by (nonlinear_arith)
            requires
                base <= 0xffffffff,
                reminder < h,
                h <= 0xffffffff,
        ;
        assert((base * reminder) / (2 * h) <= base) by (nonlinear_arith)
            requires
                reminder < h,
                h > 0,
        ;
    }
    (base - (base * reminder) / (2 * h)) as u32
}

/// Before a whole half life has passed, the count falls linearly from
/// `c_i`: by `c_i * e / (2 * h)` after `e` generations.
pub proof fn lemma_true_count_first_half_life(h: u64, g: u64, c_i: u32, b_i: u64)
    requires
        0 < h,
        b_i <= g,
        g - b_i < h,
    ensures
        spec_true_count(h, g, c_i, b_i) == c_i - (c_i * (g - b_i)) / (2 * h),
{
    let e = g - b_i;
    assert(e / (h as int) == 0) by (nonlinear_arith)
        requires
            0 <= e < h,
    ;
    assert(e % (h as int) == e) by (nonlinear_arith)
        requires
            0 <= e < h,
    ;
    vstd::arithmetic::power2::lemma2_to64();
    assert(pow2((e / h as int) as nat) == 1);
    assert(c_i as int / 1 == c_i);
    let base = c_i as int / pow2((e / h as int) as nat) as int;
    assert(base == c_i);
}

/// A half life later, a word counts as if it had been seen half as often:
/// the count halves once per half life, and the fall within a half life is
/// the same in every one.
pub proof fn lemma_true_count_half_life_later(h: u64, g: u64, c_i: u32, b_i: u64)
    requires
        0 < h,
        b_i <= g,
        g + h <= u64::MAX,
    ensures
        spec_true_count(h, (g + h) as u64, c_i, b_i) == spec_true_count(h, g, c_i / 2, b_i),
{
    let e = g - b_i;
    let e2 = (g + h) as u64 - b_i;
    assert(e2 == e + h);
    let k = e / (h as int);
    assert(e2 / (h as int) == k + 1 && e2 % (h as int) == e % (h as int)) by {
        vstd::arithmetic::div_mod::lemma_fundamental_div_mod(e, h as int);
        vstd::arithmetic::div_mod::lemma_div_plus_one(e, h as int);
        vstd::arithmetic::div_mod::lemma_mod_add_multiples_vanish(e, h as int);
        assert(e + h == (h as int) + e);
    }
    assert(k >= 0) by {
        vstd::arithmetic::div_mod::lemma_div_pos_is_pos(e, h as int);
    }
    vstd::arithmetic::power2::lemma_pow2_pos(k as nat);
    vstd::arithmetic::power2::lemma_pow2_adds(1, k as nat);
    vstd::arithmetic::power2::lemma2_to64();
    assert(pow2((k + 1) as nat) == 2 * pow2(k as nat));
    vstd::arithmetic::div_mod::lemma_div_denominator(c_i as int, 2, pow2(k as nat) as int);
    assert(c_i as int / pow2((k + 1) as nat) as int == (c_i as int / 2) / pow2(k as nat) as int);
    assert((c_i / 2) as int == c_i as int / 2);
}

/// How a word was seen.
#[derive(Debug, Clone, Copy, PartialEq, Eq, Structural)]
struct HistoryCount {
    /// How many times the word was seen.
    c_i: u32,
    /// The generation the word was first seen at.
    b_i: u64,
}

/// Word frequency learned from user history.
#[derive(Debug, Clone)]
pub struct HistoryFreq {
    half_life: u32,
    generation: u64,
    history: Vec<(WordId, HistoryCount)>,
}

impl HistoryFreq {
    /// The default half life, in generations.
    pub const HALF_LIFE: u32 = 50_000;

    /// The half life, in generations.
    pub closed spec fn spec_half_life(&self) -> u32 {
        self.half_life
    }

    /// The current generation.
    pub closed spec fn spec_generation(&self) -> u64 {
        self.generation
    }

    /// The sightings of each word: its word id, count and first generation.
    pub closed spec fn spec_history(&self) -> Seq<(WordId, u32, u64)> {
        self.history@.map_values(|e: (WordId, HistoryCount)| (e.0, e.1.c_i, e.1.b_i))
    }

    /// Creates an empty history.
    pub fn new() -> (f: HistoryFreq)
        ensures
            f.spec_half_life() == Self::HALF_LIFE,
            f.spec_generation() == 0,
            f.spec_history() == Seq::<(WordId, u32, u64)>::empty(),
    {
        let f = HistoryFreq { half_life: Self::HALF_LIFE, generation: 0, history: Vec::new() };
        proof {
            assert(f.spec_history() =~= Seq::<(WordId, u32, u64)>::empty());
        }
        f
    }
}

} // verus!
