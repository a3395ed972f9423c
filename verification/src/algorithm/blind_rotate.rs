//! Modulus switching and the blind rotation it drives: the switched phase of an LWE sample,
//! the rounding error of the switch, and the accumulator that a chain of exact CMux steps
//! produces from the test polynomial.
use crate::algorithm::glwe::glwe_rotate;
use crate::algorithm::pbs::{
    box_width, initial_accumulator, lemma_div_strictly_bounded, lemma_log2_2n,
    lemma_test_poly_applies_lut, log2_2n, message_modulus, mod_switch_value, test_poly_inputs,
    test_vector,
};
use crate::algorithm::poly::{lemma_rotate_compose, neg, rotate};
use crate::harness::params::{common_len, delta_of, dot, lwe_phase, Params};
use crate::torus::{
    lemma_signed_rep_congruent, lemma_signed_rep_small, lemma_tmod_add, lemma_tmod_multiple,
    lemma_tmod_range, lemma_tmod_small, signed_rep, tmod, torus_q,
};
use vstd::arithmetic::div_mod::*;
use vstd::arithmetic::power2::*;
use vstd::prelude::*;

verus! {

/// One step of `Z_{2^L}` in torus units: `w = 2^(64 - L)`.
pub open spec fn ms_unit(log2_2n: u32) -> int {
    pow2((64 - log2_2n) as nat) as int
}

/// Rounding error of switching `x` to modulus `2^L`: `x̃·w - x` as a signed torus element.
pub open spec fn ms_error(x: u64, log2_2n: u32) -> int {
    signed_rep(mod_switch_value(x, log2_2n) * ms_unit(log2_2n) - x)
}

proof fn lemma_ms_unit(log2_2n: u32)
    requires
        1 <= log2_2n <= 63,
    ensures
        ms_unit(log2_2n) * pow2(log2_2n as nat) == torus_q(),
        2 <= ms_unit(log2_2n) <= 0x8000_0000_0000_0000,
        ms_unit(log2_2n) == 2 * pow2((63 - log2_2n) as nat),
{
    let s = (64 - log2_2n) as nat;
    lemma_pow2_adds(s, log2_2n as nat);
    lemma2_to64_rest();
    lemma_pow2_unfold(s);
    lemma_pow2_pos((63 - log2_2n) as nat);
    if s < 63 {
        lemma_pow2_strictly_increases(s, 63);
    }
}

/// Law: modulus switching rounds to the nearest step. The switched value `x̃` lies in
/// `[0, 2^L)`, and `x̃·w` equals `x` plus a rounding error in `(-w/2, w/2]` on the torus.
pub proof fn lemma_ms_rounding(x: u64, log2_2n: u32)
    requires
        1 <= log2_2n <= 63,
    ensures
        0 <= mod_switch_value(x, log2_2n) < pow2(log2_2n as nat),
        tmod(mod_switch_value(x, log2_2n) * ms_unit(log2_2n)) == tmod(x + ms_error(x, log2_2n)),
        -(ms_unit(log2_2n) / 2) < ms_error(x, log2_2n) <= ms_unit(log2_2n) / 2,
{
    let w = ms_unit(log2_2n);
    let half = pow2((63 - log2_2n) as nat) as int;
    lemma_ms_unit(log2_2n);
    let y = x + half;
    let t = tmod(y);
    let c: int = if y < torus_q() { 0 } else { 1 };
    if y < torus_q() {
        lemma_tmod_small(y);
    } else {
        lemma_mod_sub_multiples_vanish(y, torus_q());
        lemma_tmod_small(y - torus_q());
    }
    assert(t == y - c * torus_q());
    let v = mod_switch_value(x, log2_2n);
    assert(v == t / w);
    lemma_fundamental_div_mod(t, w);
    lemma_mod_bound(t, w);
    lemma_div_pos_is_pos(t, w);
    lemma_div_strictly_bounded(t, w, pow2(log2_2n as nat) as int);
    // v·w - x = half - t % w - c·q, with half - t % w in (-w/2, w/2]
    let r = half - t % w;
    assert(v * w - x == r - c * torus_q()) by (nonlinear_arith)
        requires
            t == w * (t / w) + t % w,
            v == t / w,
            t == x + half - c * torus_q(),
            r == half - t % w,
    ;
    lemma_tmod_multiple(r, c);
    lemma_signed_rep_congruent(r - c * torus_q());
    lemma_signed_rep_small(r);
    // x + ε ≡ x + (v·w - x) = v·w
    lemma_tmod_add(x as int, r);
    lemma_tmod_multiple(v * w, c);
    assert(x + r == v * w + c * torus_q());
}

/// `Σ_{j<t} s_j · ã_j`: the key paired with the mask switched to modulus `2^L`.
pub open spec fn switched_dot(a: Seq<u64>, s: Seq<u64>, log2_2n: u32, t: nat) -> int
    decreases t,
{
    if t == 0 {
        0
    } else {
        switched_dot(a, s, log2_2n, (t - 1) as nat) + s[t - 1] * mod_switch_value(
            a[t - 1],
            log2_2n,
        )
    }
}

/// `Σ_{j<t} s_j · ε(a_j)`: the key paired with the rounding errors of the mask.
pub open spec fn switched_mask_error(a: Seq<u64>, s: Seq<u64>, log2_2n: u32, t: nat) -> int
    decreases t,
{
    if t == 0 {
        0
    } else {
        switched_mask_error(a, s, log2_2n, (t - 1) as nat) + s[t - 1] * ms_error(a[t - 1], log2_2n)
    }
}

/// The switched phase `φ̃ = (b̃ - Σ_j s_j·ã_j) mod 2^L` of an LWE sample `(a, b)` under `s`.
pub open spec fn switched_phase(a: Seq<u64>, b: u64, s: Seq<u64>, log2_2n: u32) -> int {
    (mod_switch_value(b, log2_2n) - switched_dot(a, s, log2_2n, common_len(a, s))) % (pow2(
        log2_2n as nat,
    ) as int)
}

proof fn lemma_switched_dot(a: Seq<u64>, s: Seq<u64>, log2_2n: u32, t: nat)
    requires
        1 <= log2_2n <= 63,
        t <= a.len(),
        t <= s.len(),
    ensures
        tmod(switched_dot(a, s, log2_2n, t) * ms_unit(log2_2n)) == tmod(
            dot(a, s, t) + switched_mask_error(a, s, log2_2n, t),
        ),
    decreases t,
{
    if t > 0 {
        let u = (t - 1) as nat;
        lemma_switched_dot(a, s, log2_2n, u);
        lemma_ms_rounding(a[u as int], log2_2n);
        let w = ms_unit(log2_2n);
        let sd = switched_dot(a, s, log2_2n, u);
        let v = mod_switch_value(a[u as int], log2_2n);
        let x = a[u as int] as int;
        let sj = s[u as int] as int;
        let eps = ms_error(a[u as int], log2_2n);
        let prev = dot(a, s, u) + switched_mask_error(a, s, log2_2n, u);
        assert((sd + sj * v) * w == sd * w + sj * (v * w)) by (nonlinear_arith);
        // sj·(v·w) ≡ sj·(x + ε)
        crate::torus::lemma_tmod_mul(sj, v * w);
        crate::torus::lemma_tmod_mul(sj, x + eps);
        // sd·w + sj·(v·w) ≡ prev + sj·(x + ε)
        lemma_tmod_add(sd * w, sj * (v * w));
        lemma_tmod_add(prev, sj * (v * w));
        lemma_tmod_add(prev, sj * (x + eps));
        lemma_tmod_add(prev, tmod(sj * (v * w)));
        assert(prev + sj * (x + eps) == dot(a, s, t) + switched_mask_error(a, s, log2_2n, t))
            by (nonlinear_arith)
            requires
                prev == dot(a, s, u) + switched_mask_error(a, s, log2_2n, u),
                dot(a, s, t) == dot(a, s, u) + x * sj,
                switched_mask_error(a, s, log2_2n, t) == switched_mask_error(a, s, log2_2n, u)
                    + sj * eps,
        ;
    }
}

/// Law: modulus switching keeps the phase up to rounding. Scaled back by `w = 2^(64-L)`, the
/// switched phase of `(a, b)` under `s` is, on the torus, the phase of `(a, b)` plus the
/// rounding error of `b` minus the key-weighted rounding errors of the mask.
pub proof fn lemma_mod_switch_phase(a: Seq<u64>, b: u64, s: Seq<u64>, log2_2n: u32)
    requires
        1 <= log2_2n <= 63,
    ensures
        0 <= switched_phase(a, b, s, log2_2n) < pow2(log2_2n as nat),
        tmod(switched_phase(a, b, s, log2_2n) * ms_unit(log2_2n)) == tmod(
            lwe_phase(s, a, b) + ms_error(b, log2_2n) - switched_mask_error(
                a,
                s,
                log2_2n,
                common_len(a, s),
            ),
        ),
{
    let len = common_len(a, s);
    let w = ms_unit(log2_2n);
    let m = pow2(log2_2n as nat) as int;
    lemma_ms_unit(log2_2n);
    lemma_pow2_pos(log2_2n as nat);
    lemma_ms_rounding(b, log2_2n);
    lemma_switched_dot(a, s, log2_2n, len);
    let bt = mod_switch_value(b, log2_2n);
    let sd = switched_dot(a, s, log2_2n, len);
    let x = bt - sd;
    let phi = switched_phase(a, b, s, log2_2n);
    lemma_fundamental_div_mod(x, m);
    lemma_mod_bound(x, m);
    // φ̃·w = x·w - (x / 2^L)·q
    assert(phi * w == x * w - torus_q() * (x / m)) by (nonlinear_arith)
        requires
            x == m * (x / m) + phi,
            w * m == torus_q(),
    ;
    lemma_tmod_multiple(x * w, x / m);
    // x·w = b̃·w - sd·w ≡ (b + ε_b) - (<a, s> + E)
    let eb = ms_error(b, log2_2n);
    let dt = dot(a, s, len);
    let me = switched_mask_error(a, s, log2_2n, len);
    assert(x * w == bt * w - sd * w) by (nonlinear_arith)
        requires
            x == bt - sd,
    ;
    crate::torus::lemma_tmod_sub(bt * w, sd * w);
    crate::torus::lemma_tmod_sub(b + eb, sd * w);
    crate::torus::lemma_tmod_sub(b + eb, dt + me);
    crate::torus::lemma_tmod_sub(tmod(b + eb), sd * w);
    crate::torus::lemma_tmod_sub(b + eb, tmod(sd * w));
    // the target: phase + ε_b - E, with phase = tmod(b - <a, s>)
    lemma_tmod_range(b - dt);
    lemma_tmod_add(b - dt, eb - me);
    assert(b + eb - (dt + me) == b - dt + (eb - me));
    assert(lwe_phase(s, a, b) + eb - me == tmod(b - dt) + (eb - me));
}

/// The powers of two behind the box geometry, for `2N = 2^L` and `2^mb <= N`: the message
/// bits stay below `L`, a box is `2^(L - mb)` switched steps wide, and one box is `Δ` on the
/// torus.
proof fn lemma_box_geometry(p: Params)
    requires
        1 <= p.message_bits,
        2 * p.poly <= usize::MAX,
        pow2(log2_2n(p) as nat) == 2 * p.poly,
        2 * message_modulus(p) <= p.poly,
    ensures
        1 <= log2_2n(p) <= 63,
        p.message_bits < log2_2n(p),
        box_width(p) == pow2((log2_2n(p) - p.message_bits) as nat),
        box_width(p) / 2 == pow2((log2_2n(p) - p.message_bits - 1) as nat),
        box_width(p) * ms_unit(log2_2n(p)) == delta_of(p.message_bits),
        (box_width(p) / 2) * ms_unit(log2_2n(p)) == delta_of(p.message_bits) / 2,
        message_modulus(p) * delta_of(p.message_bits) * 2 == torus_q(),
        delta_of(p.message_bits) >= 2,
{
    let mb = p.message_bits as nat;
    let pe = message_modulus(p);
    lemma_pow2_pos((mb - 1) as nat);
    assert(p.poly >= 1);
    lemma_log2_2n(p);
    let l = log2_2n(p) as nat;
    lemma_pow2_unfold(l);
    lemma_pow2_unfold(mb);
    // 2^mb <= N = 2^(L-1) forces mb <= L - 1
    if mb > (l - 1) as nat {
        lemma_pow2_strictly_increases((l - 1) as nat, mb);
    }
    let bl = (l - mb) as nat;
    lemma_pow2_adds(bl, (mb - 1) as nat);
    assert(bl + (mb - 1) == l - 1);
    lemma_pow2_pos(bl);
    lemma_div_multiples_vanish(pow2(bl) as int, pe);
    assert(pow2(bl) * pe == pe * pow2(bl)) by (nonlinear_arith);
    lemma_pow2_unfold(bl);
    lemma_pow2_adds(bl, (64 - l) as nat);
    lemma_pow2_adds((bl - 1) as nat, (64 - l) as nat);
    assert(bl + (64 - l) == 64 - mb);
    let d = (64 - mb) as nat;
    lemma_pow2_unfold(d);
    lemma_pow2_adds((mb - 1) as nat, d);
    lemma2_to64_rest();
    lemma_pow2_pos((d - 1) as nat);
    lemma_pow2_unfold((d - 1) as nat);
    if d - 1 > 1 {
        lemma_pow2_strictly_increases(1, (d - 1) as nat);
    }
}

/// Law: a small enough error lands the switched phase in the message's box. With `2N = 2^L`
/// and at least two test-vector coefficients per message, if `(a, b)` has phase `m·Δ + e`
/// under `s` (`m` below the message modulus) and `e` plus the switching error
/// `ε_b - Σ_j s_j·ε(a_j)` lies within half a plaintext step, then `(φ̃ + box/2) mod 2N` falls
/// in `[m·box, (m+1)·box)`: the box the test polynomial gives `lut[m]`.
pub proof fn lemma_switched_phase_in_box(
    p: Params,
    a: Seq<u64>,
    b: u64,
    s: Seq<u64>,
    m: u64,
    e: int,
)
    requires
        1 <= p.message_bits,
        2 * p.poly <= usize::MAX,
        pow2(log2_2n(p) as nat) == 2 * p.poly,
        2 * message_modulus(p) <= p.poly,
        m < message_modulus(p),
        lwe_phase(s, a, b) as int == tmod(m * delta_of(p.message_bits) + e),
        -(delta_of(p.message_bits) / 2) <= e + ms_error(b, log2_2n(p)) - switched_mask_error(
            a,
            s,
            log2_2n(p),
            common_len(a, s),
        ) < delta_of(p.message_bits) / 2,
    ensures
        0 <= switched_phase(a, b, s, log2_2n(p)) < 2 * p.poly,
        m * box_width(p) <= (switched_phase(a, b, s, log2_2n(p)) + box_width(p) / 2) % (2
            * p.poly as int) < (m + 1) * box_width(p),
{
    let l = log2_2n(p);
    lemma_box_geometry(p);
    lemma_mod_switch_phase(a, b, s, l);
    lemma_ms_unit(l);
    let w = ms_unit(l);
    let n2 = 2 * p.poly as int;
    let bx = box_width(p);
    let h = bx / 2;
    let dl = delta_of(p.message_bits);
    let phi = switched_phase(a, b, s, l);
    let big_e = e + ms_error(b, l) - switched_mask_error(a, s, l, common_len(a, s));
    let md = m * dl;
    let x = phi + h;
    let y = x % n2;
    lemma_fundamental_div_mod(x, n2);
    lemma_mod_bound(x, n2);
    // y·w ≡ φ̃·w + Δ/2 on the torus
    assert(y * w == phi * w + dl / 2 - torus_q() * (x / n2)) by (nonlinear_arith)
        requires
            x == n2 * (x / n2) + y,
            x == phi + h,
            h * w == dl / 2,
            w * n2 == torus_q(),
    ;
    lemma_tmod_multiple(phi * w + dl / 2, x / n2);
    lemma_tmod_add(phi * w, dl / 2);
    let ph = lwe_phase(s, a, b) as int;
    let rest = ms_error(b, l) - switched_mask_error(a, s, l, common_len(a, s));
    lemma_tmod_add(ph + rest, dl / 2);
    lemma_tmod_add(md + e, rest + dl / 2);
    lemma_tmod_add(ph, rest + dl / 2);
    assert(ph + rest + dl / 2 == ph + (rest + dl / 2));
    assert(md + e + (rest + dl / 2) == md + dl / 2 + big_e);
    // m·Δ + Δ/2 + E lies in [m·Δ, (m+1)·Δ) ⊂ [0, q)
    let z = md + dl / 2 + big_e;
    assert(0 <= md && md + dl <= torus_q()) by (nonlinear_arith)
        requires
            0 <= m < message_modulus(p),
            md == m * dl,
            dl >= 2,
            message_modulus(p) * dl * 2 == torus_q(),
    ;
    lemma_tmod_small(z);
    assert(0 <= y * w < torus_q()) by (nonlinear_arith)
        requires
            0 <= y < n2,
            w > 0,
            w * n2 == torus_q(),
    ;
    lemma_tmod_small(y * w);
    assert(y * w == z);
    // divide by w: Δ = box·w
    assert(m * bx <= y < (m + 1) * bx) by (nonlinear_arith)
        requires
            md <= y * w < md + dl,
            md == m * dl,
            dl == bx * w,
            w > 0,
    ;
}

/// The accumulator after the first `t` steps of a blind rotation whose CMux steps are exact
/// (the external product returns `s_j · (X^(ã_j)·acc - acc)`): step `j` multiplies every
/// component by `X^(ã_j)` when `s_j = 1` and keeps the accumulator when `s_j = 0`.
pub open spec fn blind_rotate_ideal(
    acc: Seq<Seq<u64>>,
    a: Seq<u64>,
    s: Seq<u64>,
    log2_2n: u32,
    n: int,
    t: nat,
) -> Seq<Seq<u64>>
    decreases t,
{
    if t == 0 {
        acc
    } else {
        let prev = blind_rotate_ideal(acc, a, s, log2_2n, n, (t - 1) as nat);
        if s[t - 1] == 1 {
            glwe_rotate(prev, mod_switch_value(a[t - 1], log2_2n), n)
        } else {
            prev
        }
    }
}

/// Law: exact CMux steps compose into one rotation. With a binary key and `2N = 2^L`, the first
/// `t` steps of the blind rotation multiply every component by `X^(Σ_{j<t} s_j·ã_j)`.
pub proof fn lemma_blind_rotate_ideal(
    acc: Seq<Seq<u64>>,
    a: Seq<u64>,
    s: Seq<u64>,
    log2_2n: u32,
    n: int,
    t: nat,
)
    requires
        1 <= log2_2n <= 63,
        pow2(log2_2n as nat) == 2 * n,
        forall|c: int| 0 <= c < acc.len() ==> (#[trigger] acc[c]).len() == n,
        t <= a.len(),
        t <= s.len(),
        forall|j: int| 0 <= j < t ==> #[trigger] s[j] <= 1,
    ensures
        blind_rotate_ideal(acc, a, s, log2_2n, n, t) == glwe_rotate(
            acc,
            switched_dot(a, s, log2_2n, t),
            n,
        ),
    decreases t,
{
    let m = 2 * n;
    lemma_pow2_pos(log2_2n as nat);
    if t == 0 {
        assert forall|c: int| 0 <= c < acc.len() implies #[trigger] glwe_rotate(acc, 0, n)[c]
            == acc[c] by {
            lemma_small_mod(0, m as nat);
            assert(rotate(acc[c], 0) =~= acc[c]);
        }
        assert(glwe_rotate(acc, 0, n) =~= acc);
    } else {
        let u = (t - 1) as nat;
        lemma_blind_rotate_ideal(acc, a, s, log2_2n, n, u);
        let sd = switched_dot(a, s, log2_2n, u);
        let at = mod_switch_value(a[u as int], log2_2n);
        lemma_ms_rounding(a[u as int], log2_2n);
        assert(s[u as int] <= 1);
        if s[u as int] == 1 {
            lemma_small_mod(at as nat, m as nat);
            lemma_add_mod_noop(sd, at, m);
            lemma_mod_bound(sd, m);
            lemma_mod_twice(sd + at, m);
            let prev = glwe_rotate(acc, sd, n);
            assert forall|c: int| 0 <= c < acc.len() implies #[trigger] glwe_rotate(
                prev,
                at,
                n,
            )[c] == glwe_rotate(acc, sd + at, n)[c] by {
                lemma_rotate_compose(acc[c], sd % m, at);
            }
            assert(glwe_rotate(prev, at, n) =~= glwe_rotate(acc, sd + at, n));
        }
    }
}

/// Multiplying a zero polynomial by a monomial leaves it zero.
proof fn lemma_rotate_zero(n: nat, r: int)
    requires
        0 <= r < 2 * n,
    ensures
        rotate(Seq::new(n, |j: int| 0u64), r) == Seq::new(n, |j: int| 0u64),
{
    assert(neg(0) == 0) by {
        lemma_tmod_small(0);
    }
    assert(rotate(Seq::new(n, |j: int| 0u64), r) =~= Seq::new(n, |j: int| 0u64));
}

/// Law: with exact CMux steps the blind rotation applies the LUT. Start from the accumulator
/// that [`crate::algorithm::pbs::bootstrap_accumulator`] builds for `(a, b)` and multiply it
/// by `X^(ã_j)` for every key bit `s_j = 1`. If `(a, b)` has phase `m·Δ + e` under the binary
/// key `s` and `e` plus the switching error `ε_b - Σ_j s_j·ε(a_j)` stays within half a
/// plaintext step (with `2N = 2^L` and at least two test-vector coefficients per message),
/// the result is a trivial GLWE (zero masks) whose body has constant coefficient `lut[m]·Δ`.
pub proof fn lemma_blind_rotation_applies_lut(
    p: Params,
    lut: Seq<u64>,
    a: Seq<u64>,
    b: u64,
    s: Seq<u64>,
    m: u64,
    e: int,
)
    requires
        test_poly_inputs(p, lut),
        pow2(log2_2n(p) as nat) == 2 * p.poly,
        2 * message_modulus(p) <= p.poly,
        forall|j: int| 0 <= j < common_len(a, s) ==> #[trigger] s[j] <= 1,
        m < message_modulus(p),
        lwe_phase(s, a, b) as int == tmod(m * delta_of(p.message_bits) + e),
        -(delta_of(p.message_bits) / 2) <= e + ms_error(b, log2_2n(p)) - switched_mask_error(
            a,
            s,
            log2_2n(p),
            common_len(a, s),
        ) < delta_of(p.message_bits) / 2,
    ensures
        ({
            let acc = blind_rotate_ideal(
                initial_accumulator(p, lut, b),
                a,
                s,
                log2_2n(p),
                p.poly as int,
                common_len(a, s),
            );
            &&& acc.len() == p.k + 1
            &&& forall|c: int| 0 <= c < p.k ==> #[trigger] acc[c] == Seq::new(
                p.poly as nat,
                |j: int| 0u64,
            )
            &&& acc[p.k as int][0] == tmod(lut[m as int] * delta_of(p.message_bits)) as u64
        }),
{
    let l = log2_2n(p);
    let n = p.poly as int;
    let m2 = 2 * n;
    let len = common_len(a, s);
    let acc0 = initial_accumulator(p, lut, b);
    let tv = test_vector(p, lut);
    lemma_box_geometry(p);
    lemma_switched_phase_in_box(p, a, b, s, m, e);
    lemma_blind_rotate_ideal(acc0, a, s, l, n, len);
    let sd = switched_dot(a, s, l, len);
    let bt = mod_switch_value(b, l);
    lemma_ms_rounding(b, l);
    let phi = switched_phase(a, b, s, l);
    let r0 = (2 * p.poly - box_width(p) / 2) % m2;
    let r1 = (2 * p.poly - bt) % m2;
    let u = sd % m2;
    lemma_mod_bound(sd, m2);
    lemma_mod_bound(2 * p.poly - bt, m2);
    lemma_mod_bound(2 * p.poly - box_width(p) / 2, m2);
    // X^(-b̃) then X^(Σ s_j·ã_j) is X^(-φ̃)
    lemma_rotate_compose(rotate(tv, r0), r1, u);
    lemma_add_mod_noop(m2 - bt, sd, m2);
    lemma_sub_mod_noop(m2, bt - sd, m2);
    lemma_mod_self_0(m2);
    lemma_mod_add_multiples_vanish(-phi, m2);
    assert(m2 - bt + sd == m2 - (bt - sd));
    assert((r1 + u) % m2 == (m2 - phi) % m2);
    lemma_test_poly_applies_lut(p, lut, phi, m as int);
    // the masks stay zero
    assert forall|c: int| 0 <= c < p.k implies #[trigger] glwe_rotate(acc0, sd, n)[c] == Seq::new(
        p.poly as nat,
        |j: int| 0u64,
    ) by {
        lemma_rotate_zero(p.poly as nat, u);
    }
}

} // verus!
