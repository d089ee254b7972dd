//! A small deterministic generator (xorshift64*), so that generated data is
//! the same on every run.

use vstd::prelude::*;

verus! {

/// The multiplier that scrambles the state into an output.
pub const SCRAMBLE: u64 = 0x2545_f491_4f6c_dd1d;

/// One xorshift step of the state: shift right 12, left 25, right 27,
/// each xor-ed into the state.
pub open spec fn xorshift(x: u64) -> u64 {
    let a = x ^ (x >> 12u64);
    let b = a ^ (a << 25u64);
    b ^ (b >> 27u64)
}

/// The output for a state: the state times [`SCRAMBLE`], modulo 2^64.
pub open spec fn scramble(state: u64) -> u64 {
    state.wrapping_mul(SCRAMBLE)
}

/// The state after `k` steps from `x`.
pub open spec fn state_after(x: u64, k: nat) -> u64
    decreases k,
{
    if k == 0 {
        x
    } else {
        xorshift(state_after(x, (k - 1) as nat))
    }
}

/// A xorshift64* generator; the field is its state.
pub struct Rng(pub u64);

impl Rng {
    /// Advances the state by one xorshift step and returns the scrambled new
    /// state.
    pub fn next(&mut self) -> (r: u64)
        ensures
            final(self).0 == xorshift(old(self).0),
            r == scramble(final(self).0),
    {
        let x: u64 = self.0;
        let a: u64 = x ^ (x >> 12u64);
        let b: u64 = a ^ (a << 25u64);
        self.0 = b ^ (b >> 27u64);
        self.0.wrapping_mul(SCRAMBLE)
    }

    /// A number below `n`: the next output modulo `n`.
    pub fn below(&mut self, n: usize) -> (r: usize)
        requires
            n > 0,
        ensures
            final(self).0 == xorshift(old(self).0),
            r == scramble(final(self).0) % (n as u64),
            r < n,
    {
        let v: u64 = self.next();
        let m: u64 = n as u64;
        (v % m) as usize
    }
}

/// A state that is not zero stays not zero: each of the three steps keeps
/// the highest or the lowest set bit, so the generator never falls into the
/// all-zero state, from which it could not leave.
pub proof fn lemma_state_stays_nonzero(x: u64)
    requires
        x != 0,
    ensures
        xorshift(x) != 0,
{
    let a = x ^ (x >> 12u64);
    assert(x != 0 ==> x ^ (x >> 12u64) != 0) by (bit_vector);
    let b = a ^ (a << 25u64);
    assert(a != 0 ==> a ^ (a << 25u64) != 0) by (bit_vector);
    assert(b != 0 ==> b ^ (b >> 27u64) != 0) by (bit_vector);
}

/// From a state that is not zero, no number of steps reaches zero.
pub proof fn lemma_states_never_zero(x: u64, k: nat)
    requires
        x != 0,
    ensures
        state_after(x, k) != 0,
    decreases k,
{
    if k > 0 {
        lemma_states_never_zero(x, (k - 1) as nat);
        lemma_state_stays_nonzero(state_after(x, (k - 1) as nat));
    }
}

/// Multiplying by `c` modulo 2^64 is undone by multiplying by `ci`, where
/// `c * ci` is 1 modulo 2^64.
pub proof fn lemma_wrapping_mul_undone(x: u64, c: u64, ci: u64)
    requires
        (c as int * ci as int) % 0x1_0000_0000_0000_0000int == 1,
    ensures
        x.wrapping_mul(c).wrapping_mul(ci) == x,
{
    let m: int = 0x1_0000_0000_0000_0000int;
    let w = x.wrapping_mul(c);
    assert(w as int == (x as int * c as int) % m);
    vstd::arithmetic::div_mod::lemma_mul_mod_noop_left(x as int * c as int, ci as int, m);
    vstd::arithmetic::mul::lemma_mul_is_associative(x as int, c as int, ci as int);
    vstd::arithmetic::div_mod::lemma_mul_mod_noop_right(x as int, c as int * ci as int, m);
    vstd::arithmetic::div_mod::lemma_small_mod(x as nat, m as nat);
    assert(w.wrapping_mul(ci) as int == (w as int * ci as int) % m);
}

/// The inverse of [`SCRAMBLE`] modulo 2^64.
pub const UNSCRAMBLE: u64 = 0x5907_1d96_d81e_cd35;

/// Scrambling is undone by multiplying by [`UNSCRAMBLE`].
pub proof fn lemma_scramble_undone(x: u64)
    ensures
        scramble(x).wrapping_mul(UNSCRAMBLE) == x,
{
    assert((SCRAMBLE as int * UNSCRAMBLE as int) % 0x1_0000_0000_0000_0000int == 1) by (nonlinear_arith);
    lemma_wrapping_mul_undone(x, SCRAMBLE, UNSCRAMBLE);
}

/// Different states scramble to different outputs, and a state that is not
/// zero never gives the output zero.
pub proof fn lemma_scramble_injective(x: u64, y: u64)
    ensures
        x != y ==> scramble(x) != scramble(y),
        x != 0 ==> scramble(x) != 0,
{
    lemma_scramble_undone(x);
    lemma_scramble_undone(y);
    lemma_scramble_undone(0);
    assert(scramble(0) == 0);
}

/// Different states step to different states: each of the three xor-shifts
/// can be undone.
pub proof fn lemma_xorshift_injective(x: u64, y: u64)
    ensures
        x != y ==> xorshift(x) != xorshift(y),
{
    assert(forall|a: u64, b: u64| a != b ==> #[trigger] (a ^ (a >> 12u64)) != #[trigger] (b ^ (b >> 12u64))) by (bit_vector);
    assert(forall|a: u64, b: u64| a != b ==> #[trigger] (a ^ (a << 25u64)) != #[trigger] (b ^ (b << 25u64))) by (bit_vector);
    assert(forall|a: u64, b: u64| a != b ==> #[trigger] (a ^ (a >> 27u64)) != #[trigger] (b ^ (b >> 27u64))) by (bit_vector);
}

/// Two generators in different states never merge, and give different
/// outputs at each step.
pub proof fn lemma_next_injective(x: u64, y: u64)
    requires
        x != y,
    ensures
        xorshift(x) != xorshift(y),
        scramble(xorshift(x)) != scramble(xorshift(y)),
{
    lemma_xorshift_injective(x, y);
    lemma_scramble_injective(xorshift(x), xorshift(y));
}

} // verus!
