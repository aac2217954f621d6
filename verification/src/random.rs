//! The xorshift64* generator behind every seeded scene.
use vstd::prelude::*;

verus! {

/// Multiplier that turns a state into an output word.
pub const STAR: u64 = 0x2545_F491_4F6C_DD1D;

/// The state that follows `x`.
pub open spec fn next_state(x: u64) -> u64 {
    let x = x ^ (x >> 12);
    let x = x ^ (x << 25);
    x ^ (x >> 27)
}

/// The state `n` steps after `x`.
pub open spec fn state_after(x: u64, n: nat) -> u64
    decreases n,
{
    if n == 0 {
        x
    } else {
        next_state(state_after(x, (n - 1) as nat))
    }
}

/// The output word of state `x`.
pub open spec fn word(x: u64) -> u64 {
    x.wrapping_mul(STAR)
}

/// The upper 32 bits of the output word.
pub open spec fn high32(x: u64) -> u32 {
    (word(x) >> 32) as u32
}

/// The upper 31 bits of the output word.
pub open spec fn high31(x: u64) -> u32 {
    (word(x) >> 33) as u32
}

/// One step of the generator.
pub fn advance(x: u64) -> (y: u64)
    ensures
        y == next_state(x),
{
    let x = x ^ (x >> 12);
    let x = x ^ (x << 25);
    x ^ (x >> 27)
}

/// The upper 32 bits of a state's output word.
pub fn draw32(x: u64) -> (v: u32)
    ensures
        v == high32(x),
{
    (x.wrapping_mul(STAR) >> 32) as u32
}

/// The upper 31 bits of a state's output word.
pub fn draw31(x: u64) -> (v: u32)
    ensures
        v == high31(x),
        v < 0x8000_0000,
{
    let w = x.wrapping_mul(STAR);
    proof {
        lemma_high31(w);
    }
    (w >> 33) as u32
}

proof fn lemma_high31(w: u64)
    ensures
        ((w >> 33) as u32) < 0x8000_0000,
{
    assert(((w >> 33) as u32) < 0x8000_0000) by (bit_vector);
}

/// Shifting a state before drawing and drawing before shifting agree: the
/// state `n + 1` steps on is the state `n` steps after the next one.
pub proof fn lemma_state_after_next(x: u64, n: nat)
    ensures
        state_after(next_state(x), n) == state_after(x, n + 1),
    decreases n,
{
    if n == 0 {
        reveal_with_fuel(state_after, 2);
    } else {
        lemma_state_after_next(x, (n - 1) as nat);
    }
}

/// Steps add up.
pub proof fn lemma_state_after_add(x: u64, m: nat, n: nat)
    ensures
        state_after(state_after(x, m), n) == state_after(x, m + n),
    decreases n,
{
    if n > 0 {
        lemma_state_after_add(x, m, (n - 1) as nat);
        assert((m + n - 1) as nat == m + (n - 1) as nat);
    }
}

/// A generator that starts from a nonzero state never falls into zero, the
/// one state it could not leave. Seeds have their low bit set for this reason.
pub proof fn law_never_zero(x: u64, n: nat)
    requires
        x != 0,
    ensures
        state_after(x, n) != 0,
    decreases n,
{
    if n > 0 {
        law_never_zero(x, (n - 1) as nat);
        let y = state_after(x, (n - 1) as nat);
        let y1 = y ^ (y >> 12);
        let y2 = y1 ^ (y1 << 25);
        lemma_shifts(y);
        lemma_shifts(y1);
        lemma_shifts(y2);
    }
}

proof fn lemma_shifts(y: u64)
    ensures
        y != 0 ==> (y ^ (y >> 12)) != 0 && (y ^ (y << 25)) != 0 && (y ^ (y >> 27)) != 0,
{
    assert(y != 0 ==> (y ^ (y >> 12)) != 0 && (y ^ (y << 25)) != 0 && (y ^ (y >> 27)) != 0)
        by (bit_vector);
}

/// No two states have the same successor: the one before can be worked out again,
/// by shifting back what each of the three steps shifted.
pub proof fn law_steps_back(x: u64)
    ensures
        ({
            let z = next_state(x);
            let z = z ^ (z >> 27) ^ (z >> 54);
            let z = z ^ (z << 25) ^ (z << 50);
            z ^ (z >> 12) ^ (z >> 24) ^ (z >> 36) ^ (z >> 48) ^ (z >> 60)
        }) == x,
{
    let a = x ^ (x >> 12);
    let b = a ^ (a << 25);
    let z = b ^ (b >> 27);
    assert({
        &&& b == z ^ (z >> 27) ^ (z >> 54)
        &&& a == b ^ (b << 25) ^ (b << 50)
        &&& x == a ^ (a >> 12) ^ (a >> 24) ^ (a >> 36) ^ (a >> 48) ^ (a >> 60)
    }) by (bit_vector)
        requires
            a == x ^ (x >> 12),
            b == a ^ (a << 25),
            z == b ^ (b >> 27),
    ;
}

/// Every step moves on from the one before.
pub proof fn law_one_step_more(x: u64, n: nat)
    ensures
        state_after(x, 0) == x,
        state_after(x, n + 1) == next_state(state_after(x, n)),
{
}

/// A draw is a state times the multiplier, without what overflows 64 bits, divided
/// by `2^32` or by `2^33` and rounded down.
pub proof fn law_draws_are_high_bits(x: u64)
    ensures
        ({
            let w = (x * 0x2545_F491_4F6C_DD1D) % 0x1_0000_0000_0000_0000;
            &&& high32(x) * 0x1_0000_0000 <= w < high32(x) * 0x1_0000_0000 + 0x1_0000_0000
            &&& high31(x) * 0x2_0000_0000 <= w < high31(x) * 0x2_0000_0000 + 0x2_0000_0000
        }),
        high31(x) == high32(x) / 2,
{
    let w = word(x);
    assert(w as int == (x * 0x2545_F491_4F6C_DD1D) % 0x1_0000_0000_0000_0000) by {
        assert(word(x) == x.wrapping_mul(STAR));
    }
    assert(w >> 32 == w / 0x1_0000_0000 && w >> 33 == w / 0x2_0000_0000 && (w >> 32) as u32 == w
        >> 32 && (w >> 33) as u32 == w >> 33) by (bit_vector);
}

} // verus!
