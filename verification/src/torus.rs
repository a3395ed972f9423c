//! The discretized torus `Z / 2^64` on which every ciphertext coefficient lives, with the
//! facts about wrapping machine arithmetic that the rest of the crate builds on.
use vstd::arithmetic::div_mod::*;
use vstd::prelude::*;

verus! {

/// The torus modulus `q = 2^64`.
pub open spec fn torus_q() -> int {
    0x1_0000_0000_0000_0000
}

/// Canonical representative of `x` on the torus, in `[0, 2^64)`.
pub open spec fn tmod(x: int) -> int {
    x % torus_q()
}

/// Centered representative of a torus element, in `[-2^63, 2^63)`.
pub open spec fn centered(x: u64) -> int {
    if x < 0x8000_0000_0000_0000 {
        x as int
    } else {
        x - torus_q()
    }
}

/// Signed representative of the torus class of `x`, in `[-2^63, 2^63)`.
pub open spec fn signed_rep(x: int) -> int {
    if tmod(x) < 0x8000_0000_0000_0000 {
        tmod(x)
    } else {
        tmod(x) - torus_q()
    }
}

/// A small integer is its own signed representative.
pub proof fn lemma_signed_rep_small(x: int)
    requires
        -0x8000_0000_0000_0000 <= x < 0x8000_0000_0000_0000,
    ensures
        signed_rep(x) == x,
{
    if x >= 0 {
        lemma_tmod_small(x);
    } else {
        lemma_mod_add_multiples_vanish(x, torus_q());
        lemma_tmod_small(x + torus_q());
    }
}

/// The signed representative lies in the torus class of `x`.
pub proof fn lemma_signed_rep_congruent(x: int)
    ensures
        tmod(signed_rep(x)) == tmod(x),
        -0x8000_0000_0000_0000 <= signed_rep(x) < 0x8000_0000_0000_0000,
{
    lemma_tmod_range(x);
    lemma_mod_twice(x, torus_q());
    if tmod(x) >= 0x8000_0000_0000_0000 {
        lemma_tmod_multiple(tmod(x) - torus_q(), 1);
    }
}

/// Adding a multiple of `2^64` does not change the torus class.
pub proof fn lemma_tmod_multiple(x: int, k: int)
    ensures
        tmod(x + torus_q() * k) == tmod(x),
        tmod(x - torus_q() * k) == tmod(x),
{
    lemma_mod_multiples_vanish(k, x, torus_q());
    lemma_mod_multiples_vanish(-k, x, torus_q());
    assert(torus_q() * (-k) + x == x - torus_q() * k) by (nonlinear_arith);
}

pub proof fn lemma_tmod_range(x: int)
    ensures
        0 <= tmod(x) < torus_q(),
{
    lemma_mod_bound(x, torus_q());
}

pub proof fn lemma_tmod_small(x: int)
    requires
        0 <= x < torus_q(),
    ensures
        tmod(x) == x,
{
    lemma_small_mod(x as nat, torus_q() as nat);
}

pub proof fn lemma_wrapping_add(x: u64, y: u64)
    ensures
        vstd::wrapping::u64_specs::wrapping_add(x, y) as int == tmod(x + y),
{
    if x + y >= torus_q() {
        lemma_mod_sub_multiples_vanish(x + y, torus_q());
        lemma_tmod_small(x + y - torus_q());
    } else {
        lemma_tmod_small(x + y);
    }
}

pub proof fn lemma_wrapping_sub(x: u64, y: u64)
    ensures
        vstd::wrapping::u64_specs::wrapping_sub(x, y) as int == tmod(x - y),
{
    if x - y < 0 {
        lemma_mod_add_multiples_vanish(x - y, torus_q());
        lemma_tmod_small(x - y + torus_q());
    } else {
        lemma_tmod_small(x - y);
    }
}

pub proof fn lemma_wrapping_mul(x: u64, y: u64)
    ensures
        vstd::wrapping::u64_specs::wrapping_mul(x, y) as int == tmod(x * y),
{
    lemma_mod_bound(x * y, torus_q());
}

/// Reducing a summand first does not change the sum on the torus.
pub proof fn lemma_tmod_add(x: int, y: int)
    ensures
        tmod(tmod(x) + y) == tmod(x + y),
        tmod(x + tmod(y)) == tmod(x + y),
{
    lemma_add_mod_noop(x, y, torus_q());
    lemma_add_mod_noop(tmod(x), y, torus_q());
    lemma_add_mod_noop(x, tmod(y), torus_q());
    lemma_mod_twice(x, torus_q());
    lemma_mod_twice(y, torus_q());
}

/// Reducing either operand first does not change a difference on the torus.
pub proof fn lemma_tmod_sub(x: int, y: int)
    ensures
        tmod(tmod(x) - y) == tmod(x - y),
        tmod(x - tmod(y)) == tmod(x - y),
{
    lemma_sub_mod_noop(x, y, torus_q());
    lemma_sub_mod_noop(tmod(x), y, torus_q());
    lemma_sub_mod_noop(x, tmod(y), torus_q());
    lemma_mod_twice(x, torus_q());
    lemma_mod_twice(y, torus_q());
}

/// Reducing a factor first does not change a product on the torus.
pub proof fn lemma_tmod_mul(x: int, y: int)
    ensures
        tmod(tmod(x) * y) == tmod(x * y),
        tmod(x * tmod(y)) == tmod(x * y),
{
    lemma_mul_mod_noop_general(x, y, torus_q());
}

/// Two's-complement reinterpretation of a signed word is its torus class.
pub proof fn lemma_i64_as_u64(d: i64)
    ensures
        #[verifier::truncate] (d as u64) as int == tmod(d as int),
{
    if d >= 0 {
        lemma_tmod_small(d as int);
    } else {
        assert((d as u64) as int == d + 0x1_0000_0000_0000_0000) by (bit_vector)
            requires
                d < 0,
        ;
        lemma_mod_add_multiples_vanish(d as int, torus_q());
        lemma_tmod_small(d + torus_q());
    }
}

} // verus!
