//! Signed gadget decomposition of torus elements in base `2^baselog`.
use crate::torus::{
    centered, lemma_signed_rep_small, lemma_tmod_add, lemma_tmod_multiple, lemma_tmod_range, lemma_tmod_small,
    lemma_wrapping_add, lemma_wrapping_sub, signed_rep, tmod, torus_q,
};
use vstd::arithmetic::div_mod::*;
use vstd::arithmetic::power2::*;
use vstd::bits::*;
use vstd::prelude::*;

verus! {

/// Capacity of the digit array returned by [`decompose`].
pub const MAX_L: usize = 8;

/// Half of the base `2^b`.
pub open spec fn half_base(b: nat) -> int {
    pow2(b) as int / 2
}

/// `Σ_{u<t} (B/2)·B^u` with `B = 2^b`: the carry bias of the first `t` balanced digits.
pub open spec fn half_sum(b: nat, t: nat) -> int
    decreases t,
{
    if t == 0 {
        0
    } else {
        half_sum(b, (t - 1) as nat) + half_base(b) * pow2(((t - 1) * b) as nat)
    }
}

/// What is left of `s` once its `t` least significant balanced base-`2^b` digits are taken off.
pub open spec fn bal_state(s: int, b: nat, t: nat) -> int {
    (s + half_sum(b, t)) / (pow2(t * b) as int)
}

/// The `t`-th least significant balanced base-`2^b` digit of `s`, in `[-2^b/2, 2^b/2)`.
pub open spec fn bal_digit(s: int, b: nat, t: nat) -> int {
    (bal_state(s, b, t) + half_base(b)) % (pow2(b) as int) - half_base(b)
}

/// `v` rounded to the nearest multiple of `2^shift` (ties upward), divided by `2^shift`, as the
/// machine computes it (`((v >> (shift - 1)) + 1) >> 1` with a wrapping increment).
pub open spec fn rounded_top(v: u64, shift: nat) -> int {
    tmod(v as int / (pow2((shift - 1) as nat) as int) + 1) / 2
}

/// Number of digits that [`decompose`] writes.
pub open spec fn written_levels(l: usize) -> int {
    if l < MAX_L {
        l as int
    } else {
        MAX_L as int
    }
}

/// Entry `j` of `decompose(v, l, baselog)`: the `written_levels(l)` digits of the rounded top
/// `l·baselog` bits of `v`, most significant first, then zeros (`l` enters the bit count as a
/// `u32`, as the machine computes it).
pub open spec fn decompose_digit(v: u64, l: usize, baselog: u32, j: int) -> int {
    let tl = written_levels(l);
    if 0 <= j < tl {
        if baselog == 0 {
            -1
        } else {
            bal_digit(
                rounded_top(v, (64 - (#[verifier::truncate] (l as u32)) * baselog) as nat),
                baselog as nat,
                (tl - 1 - j) as nat,
            )
        }
    } else {
        0
    }
}

proof fn lemma_pow2_mul(x: nat, y: nat)
    ensures
        pow2(x) * pow2(y) == pow2(x + y),
        pow2(x) > 0,
{
    lemma_pow2_adds(x, y);
    lemma_pow2_pos(x);
}

/// `(x + B/2) / B` and `(x + B/2) % B - B/2` from the quotient and remainder of `x`.
proof fn lemma_half_carry(x: int, base: int)
    requires
        x >= 0,
        base >= 2,
        base % 2 == 0,
    ensures
        (x + base / 2) / base == x / base + (if x % base >= base / 2 { 1int } else { 0int }),
        (x + base / 2) % base - base / 2 == (if x % base >= base / 2 {
            x % base - base
        } else {
            x % base
        }),
{
    let q = x / base;
    let r = x % base;
    lemma_fundamental_div_mod(x, base);
    lemma_mod_bound(x, base);
    assert(x + base / 2 == (q + 1) * base + (r + base / 2 - base)) by (nonlinear_arith)
        requires
            x == base * q + r,
    ;
    assert(x + base / 2 == q * base + (r + base / 2)) by (nonlinear_arith)
        requires
            x == base * q + r,
    ;
    if r >= base / 2 {
        lemma_fundamental_div_mod_converse(x + base / 2, base, q + 1, r + base / 2 - base);
    } else {
        lemma_fundamental_div_mod_converse(x + base / 2, base, q, r + base / 2);
    }
}

/// One balanced digit step: the remaining value shifts down by one digit with carry.
proof fn lemma_bal_step(s: int, b: nat, t: nat)
    requires
        s >= 0,
        b >= 1,
    ensures
        bal_state(s, b, t) >= 0,
        bal_state(s, b, t + 1) == (bal_state(s, b, t) + half_base(b)) / (pow2(b) as int),
    decreases t,
{
    lemma_half_sum_nonneg(b, t);
    let p = pow2(t * b) as int;
    let bb = pow2(b) as int;
    lemma_pow2_pos(t * b);
    lemma_pow2_pos(b);
    let x = s + half_sum(b, t);
    lemma_div_pos_is_pos(x, p);
    assert(half_sum(b, t + 1) == half_sum(b, t) + half_base(b) * p);
    // (x/p + h) == (x + h·p) / p
    lemma_fundamental_div_mod(x, p);
    lemma_mod_bound(x, p);
    assert(x + half_base(b) * p == p * (x / p + half_base(b)) + x % p) by (nonlinear_arith)
        requires
            x == p * (x / p) + x % p,
    ;
    lemma_fundamental_div_mod_converse(x + half_base(b) * p, p, x / p + half_base(b), x % p);
    lemma_div_denominator(x + half_base(b) * p, p, bb);
    lemma_pow2_mul(t * b, b);
    assert((t + 1) * b == t * b + b) by (nonlinear_arith);
}

proof fn lemma_half_sum_nonneg(b: nat, t: nat)
    ensures
        half_sum(b, t) >= 0,
    decreases t,
{
    if t > 0 {
        lemma_half_sum_nonneg(b, (t - 1) as nat);
        lemma_pow2_pos(((t - 1) * b) as nat);
        lemma_pow2_pos(b);
        assert(half_base(b) * pow2(((t - 1) * b) as nat) >= 0) by (nonlinear_arith)
            requires
                half_base(b) >= 0,
        ;
    }
}

proof fn lemma_u64_as_i64(x: u64)
    ensures
        #[verifier::truncate] (x as i64) as int == centered(x),
{
    if x < 0x8000_0000_0000_0000 {
        assert((x as i64) as int == x) by (bit_vector)
            requires
                x < 0x8000_0000_0000_0000u64,
        ;
    } else {
        assert((x as i64) as int == x - 0x1_0000_0000_0000_0000) by (bit_vector)
            requires
                x >= 0x8000_0000_0000_0000u64,
        ;
    }
}

/// The first `lev` digits of `decompose(v, l, baselog)` weighted by the gadget vector, most
/// significant first: `Σ_{i<lev} d_i·2^(64 - (i+1)·baselog)`.
pub open spec fn gadget_recompose(v: u64, l: usize, baselog: u32, lev: nat) -> int
    decreases lev,
{
    if lev == 0 {
        0
    } else {
        gadget_recompose(v, l, baselog, (lev - 1) as nat) + decompose_digit(
            v,
            l,
            baselog,
            lev - 1,
        ) * pow2((64 - lev * baselog) as nat)
    }
}

/// A balanced digit and the part above it reassemble the value left before it.
proof fn lemma_bal_unfold(s: int, b: nat, u: nat)
    requires
        s >= 0,
        b >= 1,
    ensures
        bal_state(s, b, u) == bal_digit(s, b, u) + (pow2(b) as int) * bal_state(s, b, u + 1),
{
    lemma_bal_step(s, b, u);
    lemma_pow2_pos(b);
    lemma_fundamental_div_mod(bal_state(s, b, u) + half_base(b), pow2(b) as int);
}

/// The top `lev` weighted digits equal the value left below level `l - lev`, shifted into
/// place, minus the carry out of the top digit (a multiple of `2^64`).
proof fn lemma_gadget_prefix(v: u64, l: usize, baselog: u32, lev: nat)
    requires
        1 <= baselog,
        1 <= l <= MAX_L,
        l * baselog <= 63,
        lev <= l,
    ensures
        gadget_recompose(v, l, baselog, lev) == (pow2((64 - lev * baselog) as nat) as int)
            * bal_state(rounded_top(v, (64 - l * baselog) as nat), baselog as nat, (l - lev) as nat)
            - (pow2(64) as int) * bal_state(
            rounded_top(v, (64 - l * baselog) as nat),
            baselog as nat,
            l as nat,
        ),
    decreases lev,
{
    let b = baselog as nat;
    let s0 = rounded_top(v, (64 - l * baselog) as nat);
    lemma_tmod_range(v as int / (pow2((64 - l * baselog - 1) as nat) as int) + 1);
    if lev == 0 {
        assert(0 * baselog == 0);
    } else {
        let i = (lev - 1) as nat;
        lemma_gadget_prefix(v, l, baselog, i);
        let u = (l - 1 - i) as nat;
        lemma_bal_unfold(s0, b, u);
        assert(lev * baselog <= 63 && 64 - lev * baselog + b == 64 - i * baselog) by (
        nonlinear_arith)
            requires
                lev <= l,
                l * baselog <= 63,
                i + 1 == lev,
                b == baselog,
        ;
        lemma_pow2_mul((64 - lev * baselog) as nat, b);
        let w = pow2((64 - lev * baselog) as nat) as int;
        let d = bal_digit(s0, b, u);
        assert(decompose_digit(v, l, baselog, i as int) == d);
        assert(u + 1 == l - i);
        assert(w * bal_state(s0, b, u) == w * d + (w * pow2(b)) * bal_state(s0, b, u + 1))
            by (nonlinear_arith)
            requires
                bal_state(s0, b, u) == d + pow2(b) * bal_state(s0, b, u + 1),
        ;
        assert(d * w == w * d) by (nonlinear_arith);
    }
}

/// Rounding `v` to the nearest multiple of `2^s` moves it by at most half a step.
proof fn lemma_rounded_top_error(v: u64, s: nat)
    requires
        1 <= s <= 63,
    ensures
        -(pow2((s - 1) as nat) as int) < signed_rep(pow2(s) * rounded_top(v, s) - v) <= pow2(
            (s - 1) as nat,
        ),
{
    let h = pow2((s - 1) as nat) as int;
    lemma_pow2_pos((s - 1) as nat);
    lemma_pow2_unfold(s);
    lemma2_to64();
    lemma2_to64_rest();
    if s - 1 < 62 {
        lemma_pow2_strictly_increases((s - 1) as nat, 62);
    }
    assert(h <= 0x4000_0000_0000_0000);
    let f = v as int / h;
    let r = v as int % h;
    lemma_fundamental_div_mod(v as int, h);
    lemma_mod_bound(v as int, h);
    lemma_div_pos_is_pos(v as int, h);
    if f + 1 < torus_q() {
        lemma_tmod_small(f + 1);
        let g = (f + 1) / 2;
        lemma_fundamental_div_mod(f + 1, 2);
        let e = 2 * h * g - v;
        if (f + 1) % 2 == 0 {
            assert(e == h - r) by (nonlinear_arith)
                requires
                    f + 1 == 2 * g,
                    v == h * f + r,
                    e == 2 * h * g - v,
            ;
        } else {
            assert(e == -r) by (nonlinear_arith)
                requires
                    f + 1 == 2 * g + 1,
                    v == h * f + r,
                    e == 2 * h * g - v,
            ;
        }
        lemma_signed_rep_small(e);
    } else {
        // only possible when h == 1 and v == 2^64 - 1; the top wraps to zero
        assert(h == 1) by (nonlinear_arith)
            requires
                v == h * f + r,
                0 <= r,
                h >= 1,
                f + 1 >= 0x1_0000_0000_0000_0000,
                v < 0x1_0000_0000_0000_0000,
        ;
        lemma_mod_self_0(torus_q());
        assert(rounded_top(v, s) == 0);
        lemma_signed_rep_small(1);
        lemma_tmod_multiple(1, 1);
        assert(pow2(s) * rounded_top(v, s) - v == 1 - torus_q() * 1);
    }
}

/// Law: the digits of `decompose` reassemble `v` up to half a quantum. With `s = 64 - l·b`,
/// `Σ_j d_j·2^(64 - (j+1)·b) ≡ v + e (mod 2^64)` for some `e` in `(-2^(s-1), 2^(s-1)]`.
pub proof fn lemma_decompose_recomposes(v: u64, l: usize, baselog: u32)
    requires
        1 <= baselog,
        1 <= l <= MAX_L,
        l * baselog <= 63,
    ensures
        -(pow2((63 - l * baselog) as nat) as int) < signed_rep(
            gadget_recompose(v, l, baselog, l as nat) - v,
        ) <= pow2((63 - l * baselog) as nat),
{
    let s = (64 - l * baselog) as nat;
    let b = baselog as nat;
    let s0 = rounded_top(v, s);
    assert(l * baselog >= 1) by (nonlinear_arith)
        requires
            l >= 1,
            baselog >= 1,
    ;
    lemma_tmod_range(v as int / (pow2((s - 1) as nat) as int) + 1);
    lemma_gadget_prefix(v, l, baselog, l as nat);
    lemma2_to64();
    lemma2_to64_rest();
    assert(0 * b == 0);
    assert(bal_state(s0, b, 0) == s0);
    let st = bal_state(s0, b, l as nat);
    assert(gadget_recompose(v, l, baselog, l as nat) == pow2(s) * s0 - torus_q() * st);
    lemma_tmod_multiple(pow2(s) * s0 - v, st);
    lemma_rounded_top_error(v, s);
    assert((s - 1) as nat == (63 - l * baselog) as nat);
}

/// Balanced gadget decomposition of `v` into `l` signed digits in base `2^baselog`: the top
/// `l·baselog` bits of `v`, rounded to nearest, written most significant digit first.
pub fn decompose(v: u64, l: usize, baselog: u32) -> (out: [i64; MAX_L])
    requires
        (#[verifier::truncate] (l as u32)) * baselog <= 63,
        baselog < 64,
    ensures
        forall|j: int| 0 <= j < MAX_L ==> out[j] as int == decompose_digit(v, l, baselog, j),
{
    let bits: u32 = (l as u32) * baselog;
    let shift: u32 = 64 - bits;
    let ghost s0 = rounded_top(v, shift as nat);
    proof {
        lemma_u64_shr_is_div(v, (shift - 1) as u64);
        lemma_wrapping_add(v >> ((shift - 1) as u64), 1);
        lemma_tmod_range(v as int / (pow2((shift - 1) as nat) as int) + 1);
        lemma2_to64();
    }
    let mut state: u64 = (v >> (shift - 1)).wrapping_add(1) >> 1;
    proof {
        lemma_u64_shr_is_div((v >> ((shift - 1) as u64)).wrapping_add(1), 1);
        assert(state as int == s0);
        assert(0 * (baselog as nat) == 0);
        assert(bal_state(s0, baselog as nat, 0) == s0);
    }
    let mut out = [0i64; 8];
    let base: u64 = 1u64 << baselog;
    let half: u64 = base >> 1;
    proof {
        lemma_u64_pow2_no_overflow(baselog as nat);
        lemma_u64_shl_is_mul(1, baselog as u64);
        lemma_u64_shr_is_div(base, 1);
        assert(low_bits_mask(baselog as nat) == base - 1);
    }
    let tl: usize = if l < MAX_L {
        l
    } else {
        MAX_L
    };
    let mut t: usize = 0;
    while t < tl
        invariant
            0 <= t <= tl,
            tl == written_levels(l),
            (#[verifier::truncate] (l as u32)) * baselog <= 63,
            baselog < 64,
            shift == 64 - (#[verifier::truncate] (l as u32)) * baselog,
            s0 == rounded_top(v, shift as nat),
            base == pow2(baselog as nat),
            half == base / 2,
            base >= 1,
            baselog >= 1 ==> state as int == bal_state(s0, baselog as nat, t as nat),
            baselog == 0 ==> state as int == s0 + t,
            0 <= s0 <= 0x8000_0000_0000_0000,
            forall|j: int|
                0 <= j < MAX_L ==> out[j] as int == (if tl - t <= j < tl {
                    decompose_digit(v, l, baselog, j)
                } else {
                    0
                }),
        decreases tl - t,
    {
        let idx = tl - 1 - t;
        let ghost st = state as int;
        proof {
            lemma_u64_low_bits_mask_is_mod(state, baselog as nat);
            lemma_u64_shr_is_div(state, baselog as u64);
            lemma2_to64();
        }
        let mut digit = state & (base - 1);
        state = state >> baselog;
        proof {
            assert(digit as int == st % (base as int));
            assert(state as int == st / (base as int));
            lemma_mod_bound(st, base as int);
            if baselog >= 1 {
                lemma_pow2_unfold(baselog as nat);
                lemma_div_is_ordered_by_denominator(st, 2, base as int);
            }
        }
        if digit >= half {
            proof {
                lemma_wrapping_sub(digit, base);
                lemma_mod_add_multiples_vanish(digit - base, torus_q());
                lemma_tmod_small(digit - base + torus_q());
            }
            digit = digit.wrapping_sub(base);
            proof {
                lemma_wrapping_add(state, 1);
                lemma_tmod_small(state + 1);
            }
            state = state.wrapping_add(1);
        }
        proof {
            lemma_u64_as_i64(digit);
            if baselog >= 1 {
                lemma_bal_step(s0, baselog as nat, t as nat);
                lemma_half_carry(st, base as int);
            }
        }
        out[idx] = digit as i64;
        t = t + 1;
    }
    out
}

/// Weight of gadget level `lev`: `2^(64 - (lev+1)·b)`.
pub open spec fn level_weight(b: nat, lev: nat) -> int {
    pow2((64 - (lev + 1) * b) as nat) as int
}

/// `Σ_{lev<t} (B/2)·2^(64 - (lev+1)·b)`: the bias that centers every branchless digit.
pub open spec fn level_offset(b: nat, t: nat) -> int
    decreases t,
{
    if t == 0 {
        0
    } else {
        level_offset(b, (t - 1) as nat) + half_base(b) * level_weight(b, (t - 1) as nat)
    }
}

/// Digit of level `lev` in the branchless decomposition of `c`: the `lev`-th base-`2^b` digit
/// (most significant first) of `c + offset` on the torus, minus `2^b / 2`.
pub open spec fn branchless_digit(c: u64, b: nat, offset: u64, lev: nat) -> int {
    (tmod(c + offset) / level_weight(b, lev)) % (pow2(b) as int) - half_base(b)
}

/// `Σ_{lev<t} branchless_digit(c, b, offset, lev)·2^(64 - (lev+1)·b)`.
pub open spec fn branchless_recompose(c: u64, b: nat, offset: u64, t: nat) -> int
    decreases t,
{
    if t == 0 {
        0
    } else {
        branchless_recompose(c, b, offset, (t - 1) as nat) + branchless_digit(
            c,
            b,
            offset,
            (t - 1) as nat,
        ) * level_weight(b, (t - 1) as nat)
    }
}

/// Half the lowest gadget weight, `2^(63 - t·b)`, which makes the branchless digits round to
/// nearest rather than truncate (none when there are no levels or no bits below them).
pub open spec fn rounding_bias(b: nat, t: nat) -> int {
    if t == 0 || t * b >= 64 {
        0
    } else {
        pow2((63 - t * b) as nat) as int
    }
}

/// The bias of the branchless decomposition: the centering terms
/// `Σ_{i<l} (B/2)·2^(64 - (i+1)·baselog)` plus the rounding term `2^(63 - l·baselog)`, so that
/// the digits round and center with no carry chain (the level count is taken as a `u32`, as
/// the loop bound is).
pub fn decomposition_offset(l: usize, baselog: u32) -> (offset: u64)
    requires
        (#[verifier::truncate] (l as u32)) == 0 || (1 <= baselog && (#[verifier::truncate] (l
            as u32)) * baselog <= 64),
    ensures
        offset as int == level_offset(baselog as nat, (#[verifier::truncate] (l as u32)) as nat)
            + rounding_bias(baselog as nat, (#[verifier::truncate] (l as u32)) as nat),
{
    let lu: u32 = l as u32;
    if lu > 0 {
        proof {
            assert(lu <= 64) by (nonlinear_arith)
                requires
                    lu * baselog <= 64,
                    baselog >= 1,
            ;
            lemma_level_offset_bound(baselog as nat, lu as nat);
            lemma_pow2_pos((64 - lu * baselog) as nat);
        }
    }
    let mut offset = 0u64;
    let mut i: u32 = 0;
    while i < lu
        invariant
            0 <= i <= lu,
            lu > 0 ==> 1 <= baselog && lu * baselog <= 64,
            offset as int == level_offset(baselog as nat, i as nat),
            lu > 0 ==> level_offset(baselog as nat, lu as nat) < pow2(64),
        decreases lu - i,
    {
        proof {
            assert((i + 1) * baselog <= 64 && (i + 1) * baselog >= 1 && baselog <= 64)
                by (nonlinear_arith)
                requires
                    i < lu,
                    lu * baselog <= 64,
                    baselog >= 1,
            ;
            lemma_half_level_weight(baselog as nat, i as nat);
            lemma_u64_pow2_no_overflow((baselog - 1) as nat);
            lemma_u64_shl_is_mul(1, (baselog - 1) as u64);
            let sh = (64 - (i + 1) * baselog) as nat;
            lemma_pow2_unfold(baselog as nat);
            lemma_pow2_mul((baselog - 1) as nat, sh);
            lemma_u64_pow2_no_overflow((63 - i * baselog) as nat);
            lemma_u64_shl_is_mul(1u64 << ((baselog - 1) as u64), sh as u64);
            lemma_level_offset_monotone(baselog as nat, (i + 1) as nat, lu as nat);
            let x = (1u64 << (baselog - 1)) << (64 - (i + 1) * baselog);
            assert(x == pow2((63 - i * baselog) as nat));
            assert(level_offset(baselog as nat, (i + 1) as nat) == offset + x);
            lemma_wrapping_add(offset, x);
            lemma2_to64_rest();
            lemma_tmod_small(offset + x);
        }
        offset = offset.wrapping_add((1u64 << (baselog - 1)) << (64 - (i + 1) * baselog));
        i = i + 1;
    }
    if lu > 0 && lu * baselog < 64 {
        proof {
            lemma_u64_pow2_no_overflow((63 - lu * baselog) as nat);
            lemma_u64_shl_is_mul(1, (63 - lu * baselog) as u64);
            lemma_pow2_unfold((64 - lu * baselog) as nat);
            lemma_level_offset_bound(baselog as nat, lu as nat);
            lemma2_to64_rest();
            assert((64 - lu * baselog) as nat == (63 - lu * baselog) as nat + 1);
        }
        offset = offset + (1u64 << (63 - lu * baselog));
    }
    offset
}

proof fn lemma_level_offset_monotone(b: nat, t: nat, u: nat)
    requires
        t <= u,
    ensures
        0 <= level_offset(b, t) <= level_offset(b, u),
    decreases u,
{
    if u > t {
        lemma_level_offset_monotone(b, t, (u - 1) as nat);
        lemma_pow2_pos((64 - u * b) as nat);
        lemma_pow2_pos(b);
        assert(half_base(b) * level_weight(b, (u - 1) as nat) >= 0) by (nonlinear_arith)
            requires
                half_base(b) >= 0,
                level_weight(b, (u - 1) as nat) >= 0,
        ;
    } else if t > 0 {
        lemma_level_offset_monotone(b, (t - 1) as nat, (t - 1) as nat);
        lemma_pow2_pos((64 - t * b) as nat);
        lemma_pow2_pos(b);
        assert(half_base(b) * level_weight(b, (t - 1) as nat) >= 0) by (nonlinear_arith)
            requires
                half_base(b) >= 0,
                level_weight(b, (t - 1) as nat) >= 0,
        ;
    }
}

/// `(B/2)·2^(64 - (lev+1)·b) == 2^(63 - lev·b)`.
proof fn lemma_half_level_weight(b: nat, lev: nat)
    requires
        b >= 1,
        (lev + 1) * b <= 64,
    ensures
        half_base(b) * level_weight(b, lev) == pow2((63 - lev * b) as nat),
        lev * b <= 63,
{
    assert(lev * b + b == (lev + 1) * b) by (nonlinear_arith);
    lemma_pow2_unfold(b);
    lemma_pow2_mul((b - 1) as nat, (64 - (lev + 1) * b) as nat);
    assert((b - 1) as nat + (64 - (lev + 1) * b) as nat == (63 - lev * b) as nat);
}

/// The bias stays below `2^64`: it is at most `2^64 - 2^(64 - t·b)`.
proof fn lemma_level_offset_bound(b: nat, t: nat)
    requires
        b >= 1,
        t * b <= 64,
    ensures
        level_offset(b, t) <= pow2(64) - pow2((64 - t * b) as nat),
    decreases t,
{
    if t == 0 {
        assert(0 * b == 0);
    } else {
        let u = (t - 1) as nat;
        assert(u * b <= 64 && u * b + b == t * b) by (nonlinear_arith)
            requires
                t * b <= 64,
                u + 1 == t,
        ;
        lemma_level_offset_bound(b, u);
        lemma_half_level_weight(b, u);
        lemma_pow2_unfold((64 - u * b) as nat);
        if (63 - u * b) as nat > (64 - t * b) as nat {
            lemma_pow2_strictly_increases((64 - t * b) as nat, (63 - u * b) as nat);
        }
    }
}

/// `X - X mod 2^(64 - t·b)` is the sum of the `t` top base-`2^b` digits of `X`, each at its
/// level weight.
proof fn lemma_top_digits(x: int, b: nat, t: nat)
    requires
        0 <= x < pow2(64),
        b >= 1,
        t * b <= 64,
    ensures
        x - x % (pow2((64 - t * b) as nat) as int) == branchless_bits(x, b, t),
    decreases t,
{
    if t == 0 {
        assert(0 * b == 0);
        lemma_small_mod(x as nat, pow2(64));
    } else {
        let u = (t - 1) as nat;
        assert(u * b <= 64 && u * b + b == t * b) by (nonlinear_arith)
            requires
                t * b <= 64,
                u + 1 == t,
        ;
        lemma_top_digits(x, b, u);
        let w = level_weight(b, u);
        assert((64 - (u + 1) * b) as nat + b == (64 - u * b) as nat);
        lemma_pow2_mul((64 - (u + 1) * b) as nat, b);
        lemma_pow2_pos(b);
        lemma_pow2_pos((64 - (u + 1) * b) as nat);
        lemma_mod_breakdown(x, w, pow2(b) as int);
        assert(pow2((64 - u * b) as nat) as int == w * pow2(b));
        assert(x % (pow2((64 - u * b) as nat) as int) == w * ((x / w) % (pow2(b) as int)) + x % w);
        assert(w * ((x / w) % (pow2(b) as int)) == ((x / w) % (pow2(b) as int)) * w)
            by (nonlinear_arith);
        assert((64 - t * b) as nat == (64 - (u + 1) * b) as nat);
    }
}

/// `Σ_{lev<t} ((X / 2^(64-(lev+1)·b)) mod 2^b)·2^(64-(lev+1)·b)`.
pub open spec fn branchless_bits(x: int, b: nat, t: nat) -> int
    decreases t,
{
    if t == 0 {
        0
    } else {
        branchless_bits(x, b, (t - 1) as nat) + (x / level_weight(b, (t - 1) as nat)) % (pow2(b) as int)
            * level_weight(b, (t - 1) as nat)
    }
}

proof fn lemma_branchless_split(c: u64, b: nat, offset: u64, t: nat)
    ensures
        branchless_recompose(c, b, offset, t) == branchless_bits(tmod(c + offset), b, t)
            - level_offset(b, t),
    decreases t,
{
    if t > 0 {
        lemma_branchless_split(c, b, offset, (t - 1) as nat);
        let w = level_weight(b, (t - 1) as nat);
        let x = tmod(c + offset);
        assert(((x / w) % (pow2(b) as int) - half_base(b)) * w == (x / w) % (pow2(b) as int) * w
            - half_base(b) * w) by (nonlinear_arith);
    }
}

/// Every bias term, hence the whole bias, is a multiple of the lowest weight `2^(64 - l·b)`.
proof fn lemma_level_offset_multiple(b: nat, t: nat, l: nat)
    requires
        b >= 1,
        t <= l,
        l * b <= 64,
    ensures
        level_offset(b, t) % (pow2((64 - l * b) as nat) as int) == 0,
    decreases t,
{
    let m = pow2((64 - l * b) as nat) as int;
    lemma_pow2_pos((64 - l * b) as nat);
    if t == 0 {
        lemma_small_mod(0, m as nat);
    } else {
        let u = (t - 1) as nat;
        lemma_level_offset_multiple(b, u, l);
        assert((u + 1) * b <= 64 && (63 - u * b) >= (64 - l * b)) by (nonlinear_arith)
            requires
                u + 1 <= l,
                l * b <= 64,
                b >= 1,
        ;
        lemma_half_level_weight(b, u);
        let e = ((63 - u * b) - (64 - l * b)) as nat;
        lemma_pow2_mul((64 - l * b) as nat, e);
        lemma_fundamental_div_mod(level_offset(b, u), m);
        let k = level_offset(b, u) / m;
        assert(level_offset(b, t) == m * (k + pow2(e)) + 0) by (nonlinear_arith)
            requires
                level_offset(b, u) == m * k,
                level_offset(b, t) == level_offset(b, u) + m * pow2(e),
        ;
        lemma_mod_multiples_vanish(k + pow2(e), 0, m);
        lemma_small_mod(0, m as nat);
    }
}

/// With the centering terms alone, the branchless digits of `c` lie in `[-2^b/2, 2^b/2)` and,
/// weighted by the gadget vector, give back `c` with its low `64 - l·b` bits cleared (mod 2^64).
proof fn lemma_branchless_truncates(c: u64, l: usize, baselog: u32)
    requires
        1 <= baselog,
        l * baselog <= 64,
    ensures
        forall|lev: nat|
            lev < l ==> -half_base(baselog as nat) <= #[trigger] branchless_digit(
                c,
                baselog as nat,
                level_offset(baselog as nat, l as nat) as u64,
                lev,
            ) < half_base(baselog as nat),
        tmod(
            branchless_recompose(
                c,
                baselog as nat,
                level_offset(baselog as nat, l as nat) as u64,
                l as nat,
            ),
        ) == tmod(c - (c as int) % (pow2((64 - l * baselog) as nat) as int)),
{
    let b = baselog as nat;
    let off_int = level_offset(b, l as nat);
    lemma_level_offset_bound(b, l as nat);
    lemma_pow2_pos((64 - l * baselog) as nat);
    lemma2_to64_rest();
    lemma_level_offset_monotone(b, 0, l as nat);
    let off = off_int as u64;
    assert(off as int == off_int);
    let m = pow2((64 - l * baselog) as nat) as int;
    let x = tmod(c + off);
    lemma_tmod_range(c + off);
    lemma_branchless_split(c, b, off, l as nat);
    lemma_top_digits(x, b, l as nat);
    // x = c + off - q·2^64, and both off and 2^64 are multiples of m
    lemma_fundamental_div_mod(c + off, torus_q());
    let q = (c + off) / torus_q();
    lemma_level_offset_multiple(b, l as nat, l as nat);
    lemma_fundamental_div_mod(off_int, m);
    lemma_pow2_mul((64 - l * baselog) as nat, (l * baselog) as nat);
    let k = off_int / m;
    let j = pow2((l * baselog) as nat) as int;
    assert(x == m * (k - q * j) + c) by (nonlinear_arith)
        requires
            x == c + off_int - torus_q() * q,
            off_int == m * k,
            m * j == torus_q(),
    ;
    lemma_mod_multiples_vanish(k - q * j, c as int, m);
    lemma_tmod_multiple(c - (c as int) % m, q);
    assert forall|lev: nat| lev < l implies -half_base(b) <= #[trigger] branchless_digit(
        c,
        b,
        off,
        lev,
    ) < half_base(b) by {
        lemma_pow2_pos(b);
        lemma_pow2_unfold(b);
        lemma_mod_bound(x / level_weight(b, lev), pow2(b) as int);
    }
}

/// `c` rounded to the nearest multiple of `2^shift` (ties upward), over the integers.
pub open spec fn rounded_multiple(c: u64, shift: nat) -> int {
    if shift == 0 {
        c as int
    } else {
        ((c + pow2((shift - 1) as nat)) / (pow2(shift) as int)) * pow2(shift)
    }
}

/// The branchless digits depend on `c` and the bias only through `c + offset` on the torus.
proof fn lemma_branchless_same_sum(c1: u64, o1: u64, c2: u64, o2: u64, b: nat, t: nat)
    requires
        tmod(c1 + o1) == tmod(c2 + o2),
    ensures
        branchless_recompose(c1, b, o1, t) == branchless_recompose(c2, b, o2, t),
        forall|lev: nat| #[trigger] branchless_digit(c1, b, o1, lev) == branchless_digit(c2, b, o2, lev),
    decreases t,
{
    if t > 0 {
        lemma_branchless_same_sum(c1, o1, c2, o2, b, (t - 1) as nat);
    }
}

/// Law: the branchless decomposition rounds and centers. With the bias that
/// [`decomposition_offset`] computes, the digits of `c` lie in `[-2^b/2, 2^b/2)` and, weighted
/// by the gadget vector, give back `c` rounded to the nearest multiple of `2^(64 - l·b)` (ties
/// upward), modulo `2^64`.
pub proof fn lemma_branchless_recomposes(c: u64, l: usize, baselog: u32)
    requires
        1 <= baselog,
        1 <= l,
        l * baselog <= 64,
    ensures
        forall|lev: nat|
            lev < l ==> -half_base(baselog as nat) <= #[trigger] branchless_digit(
                c,
                baselog as nat,
                (level_offset(baselog as nat, l as nat) + rounding_bias(baselog as nat, l as nat))
                    as u64,
                lev,
            ) < half_base(baselog as nat),
        tmod(
            branchless_recompose(
                c,
                baselog as nat,
                (level_offset(baselog as nat, l as nat) + rounding_bias(baselog as nat, l as nat))
                    as u64,
                l as nat,
            ),
        ) == tmod(rounded_multiple(c, (64 - l * baselog) as nat)),
{
    let b = baselog as nat;
    let shift = (64 - l * baselog) as nat;
    let lo = level_offset(b, l as nat);
    let bias = rounding_bias(b, l as nat);
    lemma_level_offset_bound(b, l as nat);
    lemma_level_offset_monotone(b, 0, l as nat);
    lemma2_to64_rest();
    lemma_pow2_pos(shift);
    if shift > 0 {
        lemma_pow2_unfold(shift);
    }
    let off = (lo + bias) as u64;
    assert(off as int == lo + bias);
    // c' = c + bias on the torus carries the rounding; the centering terms do the rest
    let y = c + bias;
    lemma_tmod_range(y);
    let c2 = tmod(y) as u64;
    lemma_tmod_add(y, lo);
    assert(tmod(c + off) == tmod(c2 + (lo as u64)));
    lemma_branchless_same_sum(c, off, c2, lo as u64, b, l as nat);
    lemma_branchless_truncates(c2, l, baselog);
    // c2 - c2 mod 2^shift ≡ y - y mod 2^shift = rounded_multiple(c, shift)
    let m = pow2(shift) as int;
    lemma_fundamental_div_mod(y, torus_q());
    let k = y / torus_q();
    lemma_pow2_mul(shift, (l * baselog) as nat);
    let j = pow2((l * baselog) as nat) as int;
    assert(c2 == m * (-k * j) + y) by (nonlinear_arith)
        requires
            c2 == y - torus_q() * k,
            m * j == torus_q(),
    ;
    lemma_mod_multiples_vanish(-k * j, y, m);
    lemma_fundamental_div_mod(y, m);
    assert(c2 - (c2 as int) % m == m * (y / m) - torus_q() * k);
    lemma_tmod_multiple(m * (y / m), k);
    assert(m * (y / m) == (y / m) * m) by (nonlinear_arith);
    if shift == 0 {
        lemma_div_by_self(1);
        assert(y / 1 == y);
    }
}

/// Branchless signed decomposition of every coefficient of `comp` into `l` gadget levels
/// (`digits[lev][ci]` for level `lev`, weight `2^(64 - (lev+1)·baselog)`), rounded and centered
/// by the bias `offset` that [`decomposition_offset`] computes, with no carry chain.
pub fn decompose_into(
    comp: &[u64],
    l: usize,
    baselog: u32,
    offset: u64,
    digits: &mut Vec<Vec<i64>>,
)
    requires
        baselog < 64,
        l * baselog <= 64,
        baselog == 0 ==> l == 0 || (comp@.len() == 0 && l <= u32::MAX),
        old(digits)@.len() >= l,
        forall|lev: int| 0 <= lev < l ==> old(digits)@[lev]@.len() >= comp@.len(),
    ensures
        final(digits)@.len() == old(digits)@.len(),
        forall|lev: int|
            0 <= lev < final(digits)@.len() ==> #[trigger] final(digits)@[lev]@.len()
                == old(digits)@[lev]@.len(),
        forall|lev: int, ci: int|
            0 <= lev < final(digits)@.len() && 0 <= ci < final(digits)@[lev]@.len()
                ==> #[trigger] final(digits)@[lev]@[ci] as int == if lev < l && ci < comp@.len() {
                branchless_digit(comp@[ci], baselog as nat, offset, lev as nat)
            } else {
                old(digits)@[lev]@[ci] as int
            },
{
    proof {
        lemma_u64_pow2_no_overflow(baselog as nat);
        lemma_u64_shl_is_mul(1, baselog as u64);
        if baselog >= 1 {
            lemma_pow2_unfold(baselog as nat);
            lemma_u64_pow2_no_overflow((baselog - 1) as nat);
        }
    }
    let base = 1u64 << baselog;
    proof {
        lemma_u64_shr_is_div(base, 1);
        lemma2_to64();
    }
    let mask = base - 1;
    let half = (base >> 1) as i64;
    let mut lev: usize = 0;
    while lev < l
        invariant
            base == pow2(baselog as nat),
            mask == base - 1,
            half == half_base(baselog as nat),
            baselog < 64,
            l * baselog <= 64,
            baselog == 0 ==> l == 0 || (comp@.len() == 0 && l <= u32::MAX),
            lev <= l,
            digits@.len() == old(digits)@.len(),
            old(digits)@.len() >= l,
            forall|lv: int| 0 <= lv < l ==> old(digits)@[lv]@.len() >= comp@.len(),
            forall|lv: int| 0 <= lv < digits@.len() ==> #[trigger] digits@[lv]@.len() == old(digits)@[lv]@.len(),
            forall|lv: int, ci: int|
                0 <= lv < digits@.len() && 0 <= ci < digits@[lv]@.len()
                    ==> #[trigger] digits@[lv]@[ci] as int == if lv < lev && ci < comp@.len() {
                    branchless_digit(comp@[ci], baselog as nat, offset, lv as nat)
                } else {
                    old(digits)@[lv]@[ci] as int
                },
        decreases l - lev,
    {
        proof {
            if baselog >= 1 {
                assert((lev + 1) * baselog <= 64 && (lev + 1) * baselog >= 1 && lev <= 63)
                    by (nonlinear_arith)
                    requires
                        lev < l,
                        l * baselog <= 64,
                        baselog >= 1,
                ;
            }
        }
        let shift = 64 - (lev as u32 + 1) * baselog;
        let mut ci: usize = 0;
        while ci < comp.len()
            invariant
                baselog < 64,
                lev < l,
                l * baselog <= 64,
                (lev + 1) * baselog <= 64,
                comp@.len() > 0 ==> (lev + 1) * baselog >= 1 && baselog >= 1,
                shift == 64 - (lev + 1) * baselog,
                base == pow2(baselog as nat),
                mask == base - 1,
                half == half_base(baselog as nat),
                0 <= ci <= comp@.len(),
                digits@.len() == old(digits)@.len(),
                old(digits)@.len() >= l,
                forall|lv: int| 0 <= lv < l ==> old(digits)@[lv]@.len() >= comp@.len(),
                forall|lv: int| 0 <= lv < digits@.len() ==> #[trigger] digits@[lv]@.len() == old(digits)@[lv]@.len(),
                forall|lv: int, cj: int|
                    0 <= lv < digits@.len() && 0 <= cj < digits@[lv]@.len()
                        ==> #[trigger] digits@[lv]@[cj] as int == if (lv < lev && cj < comp@.len()) || (lv == lev && cj < ci) {
                        branchless_digit(comp@[cj], baselog as nat, offset, lv as nat)
                    } else {
                        old(digits)@[lv]@[cj] as int
                    },
            decreases comp@.len() - ci,
        {
            let c = comp[ci];
            proof {
                lemma_wrapping_add(c, offset);
                lemma_u64_shr_is_div(c.wrapping_add(offset), shift as u64);
                lemma_u64_low_bits_mask_is_mod(c.wrapping_add(offset) >> (shift as u64), baselog as nat);
                lemma_mod_bound((c.wrapping_add(offset) >> (shift as u64)) as int, base as int);
                if baselog < 63 {
                    lemma_pow2_strictly_increases(baselog as nat, 63);
                }
                lemma2_to64_rest();
                assert(((c.wrapping_add(offset) >> shift) & mask) as int == (tmod(c + offset)
                    / level_weight(baselog as nat, lev as nat)) % (base as int));
            }
            digits[lev][ci] = (((c.wrapping_add(offset) >> shift) & mask) as i64) - half;
            ci = ci + 1;
        }
        lev = lev + 1;
    }
}

} // verus!
