//! A deterministic, direction-reversible linear congruential generator.
//!
//! `forward` steps the state to `(MULTIPLIER * state + INCREMENT) % MODULUS`;
//! `backward` applies the exact algebraic inverse, so the state stream can be
//! replayed in either direction.  The step is a bijection on `[0, MODULUS)`,
//! which `lemma_roundtrip` proves for arbitrarily long runs.
use vstd::prelude::*;

verus! {

use vstd::arithmetic::div_mod::{
    lemma_mul_mod_noop_left,
    lemma_mul_mod_noop_right,
    lemma_add_mod_noop,
    lemma_small_mod,
};

pub const MULTIPLIER: u64 = 1103515245;
pub const INCREMENT: u64 = 12345;
pub const MODULUS: u64 = 2147483648;
pub const INVERSE_MULTIPLIER: u64 = 1857678181;

#[derive(Clone, PartialEq, Eq, PartialOrd, Ord, Structural, Debug)]
pub struct Rng {
    state: u64,
}

/// One generator step: the linear congruential map on `[0, MODULUS)`.
pub open spec fn step_forward(s: u64) -> u64 {
    ((MULTIPLIER * s + INCREMENT) % (MODULUS as int)) as u64
}

/// The inverse step: undoes `step_forward` on `[0, MODULUS)`.
pub open spec fn step_backward(s: u64) -> u64 {
    ((INVERSE_MULTIPLIER * ((s + MODULUS - INCREMENT) % (MODULUS as int))) % (
    MODULUS as int)) as u64
}

/// State after `n` forward steps from `s`.
pub open spec fn iter_forward(s: u64, n: nat) -> u64
    decreases n,
{
    if n == 0 {
        s
    } else {
        step_forward(iter_forward(s, (n - 1) as nat))
    }
}

/// State after `n` backward steps from `s`.
pub open spec fn iter_backward(s: u64, n: nat) -> u64
    decreases n,
{
    if n == 0 {
        s
    } else {
        step_backward(iter_backward(s, (n - 1) as nat))
    }
}

impl Rng {
    pub const VERSION: u32 = 1;

    pub const RAND_MAX: u64 = MODULUS - 1;

    /// The current state, for contracts.
    pub closed spec fn state(&self) -> u64 {
        self.state
    }

    /// Well-formedness: the state is reduced modulo `MODULUS`.
    pub closed spec fn inv(&self) -> bool {
        self.state < MODULUS
    }

    pub fn with_seed(seed: u64) -> (r: Rng)
        ensures
            r.inv(),
            r.state() == seed % MODULUS,
    {
        Rng { state: seed % MODULUS }
    }

    /// Returns the current state and advances one step.
    pub fn forward(&mut self) -> (r: u64)
        requires
            old(self).inv(),
        ensures
            final(self).inv(),
            r == old(self).state(),
            r < MODULUS,
            final(self).state() == step_forward(old(self).state()),
    {
        let here = self.state;
        self.state = (MULTIPLIER * self.state + INCREMENT) % MODULUS;
        here
    }

    /// Retreats one step and returns the new (earlier) state.
    pub fn backward(&mut self) -> (r: u64)
        requires
            old(self).inv(),
        ensures
            final(self).inv(),
            final(self).state() == step_backward(old(self).state()),
            r == final(self).state(),
            r < MODULUS,
    {
        self.state = (INVERSE_MULTIPLIER * ((self.state + MODULUS - INCREMENT) % MODULUS))
            % MODULUS;
        self.state
    }
}

/// `step_forward` never leaves `[0, MODULUS)`.
pub proof fn lemma_step_forward_bounded(s: u64)
    ensures
        step_forward(s) < MODULUS,
{
}

/// `step_backward` never leaves `[0, MODULUS)`.
pub proof fn lemma_step_backward_bounded(s: u64)
    ensures
        step_backward(s) < MODULUS,
{
}

/// `step_backward` undoes `step_forward`: the step is injective.
pub proof fn lemma_backward_forward(s: u64)
    requires
        s < MODULUS,
    ensures
        step_backward(step_forward(s)) == s,
{
    let m = MODULUS as int;
    let a = MULTIPLIER as int;
    let ai = INVERSE_MULTIPLIER as int;
    let c = INCREMENT as int;
    let f = (a * s + c) % m;
    // (f + m - c) % m == (a * s) % m
    assert((f + (m - c)) % m == ((a * s + c) + (m - c)) % m) by {
        lemma_add_mod_noop(a * s + c, m - c, m);
        lemma_small_mod((m - c) as nat, m as nat);
    }
    assert((a * s + c) + (m - c) == a * s + m);
    assert((a * s + m) % m == (a * s) % m) by {
        lemma_add_mod_noop(a * s, m, m);
        lemma_small_mod(((a * s) % m) as nat, m as nat);
    }
    // ai * ((a * s) % m) % m == (ai * (a * s)) % m == ((ai * a) % m * s) % m == s
    assert((ai * ((a * s) % m)) % m == (ai * (a * s)) % m) by {
        lemma_mul_mod_noop_right(ai, a * s, m);
    }
    assert(ai * (a * s) == (ai * a) * s) by (nonlinear_arith);
    assert(((ai * a) * s) % m == (((ai * a) % m) * s) % m) by {
        lemma_mul_mod_noop_left(ai * a, s as int, m);
    }
    assert(1857678181int * 1103515245int == 2049976193037369345int);
    assert((ai * a) % m == 1);
    assert((1 * s) % m == s) by {
        lemma_small_mod(s as nat, m as nat);
    }
}

/// `step_forward` undoes `step_backward`: the step is surjective.
pub proof fn lemma_forward_backward(s: u64)
    requires
        s < MODULUS,
    ensures
        step_forward(step_backward(s)) == s,
{
    let m = MODULUS as int;
    let a = MULTIPLIER as int;
    let ai = INVERSE_MULTIPLIER as int;
    let c = INCREMENT as int;
    let t = (s + m - c) % m;
    let b = (ai * t) % m;
    // a * b % m == (a * ai) % m * t % m == t
    assert((a * b) % m == (a * (ai * t)) % m) by {
        lemma_mul_mod_noop_right(a, ai * t, m);
    }
    assert(a * (ai * t) == (a * ai) * t) by (nonlinear_arith);
    assert(((a * ai) * t) % m == (((a * ai) % m) * t) % m) by {
        lemma_mul_mod_noop_left(a * ai, t, m);
    }
    assert(1103515245int * 1857678181int == 2049976193037369345int);
    assert((a * ai) % m == 1);
    assert((1 * t) % m == t) by {
        lemma_small_mod(t as nat, m as nat);
    }
    // (a * b + c) % m == (t + c) % m == (s + m) % m == s
    assert((((a * b) % m) + c) % m == ((a * b) + c) % m) by {
        lemma_add_mod_noop(a * b, c, m);
        lemma_small_mod(c as nat, m as nat);
    }
    assert((t + c) % m == ((s + m - c) + c) % m) by {
        lemma_add_mod_noop(s + m - c, c, m);
        lemma_small_mod(c as nat, m as nat);
    }
    assert((s + m) % m == s) by {
        lemma_add_mod_noop(s as int, m, m);
        lemma_small_mod(s as nat, m as nat);
    }
}

/// Every forward iterate stays in `[0, MODULUS)`.
pub proof fn lemma_iter_forward_bounded(s: u64, n: nat)
    requires
        s < MODULUS,
    ensures
        iter_forward(s, n) < MODULUS,
    decreases n,
{
    if n > 0 {
        lemma_iter_forward_bounded(s, (n - 1) as nat);
    }
}

/// Generator bijectivity: `n` forward steps followed by `k <= n` backward
/// steps land exactly on the state after `n - k` forward steps, so the
/// backward stream mirrors the forward stream in reverse order, and `k == n`
/// restores the original state.
pub proof fn lemma_roundtrip(s: u64, n: nat, k: nat)
    requires
        s < MODULUS,
        k <= n,
    ensures
        iter_backward(iter_forward(s, n), k) == iter_forward(s, (n - k) as nat),
    decreases k,
{
    if k > 0 {
        lemma_roundtrip(s, n, (k - 1) as nat);
        let prev = iter_forward(s, (n - (k - 1)) as nat);
        assert(prev == step_forward(iter_forward(s, (n - k) as nat)));
        lemma_iter_forward_bounded(s, (n - k) as nat);
        lemma_backward_forward(iter_forward(s, (n - k) as nat));
    }
}

} // verus!
