//! The integer side of the programmable bootstrap: modulus switching, the LUT test
//! polynomial, the accumulator set-up, key switching and the final extraction.
use crate::algorithm::glwe::{
    extract_key_shape, extracted_mask, glwe_mask_key_coeff0, lemma_sample_extract_phase,
    sample_extract, Glwe,
};
use crate::algorithm::gadget::{
    decompose, decompose_digit, gadget_recompose, lemma_decompose_recomposes, MAX_L,
};
use crate::algorithm::poly::{lemma_rotate_compose, mul_monomial, rot_at, rotate};
use crate::harness::params::{
    common_len, decode_phase, delta_of, dot, lemma_decode_near, lwe_phase, Lut, Lwe, Params,
};
use crate::torus::{
    lemma_tmod_add, lemma_tmod_mul, lemma_tmod_multiple, lemma_tmod_range, lemma_tmod_small,
    lemma_tmod_sub, lemma_wrapping_add, lemma_wrapping_mul, lemma_wrapping_sub, signed_rep, tmod,
};
use vstd::arithmetic::div_mod::*;
use vstd::arithmetic::power2::*;
use vstd::bits::*;
use vstd::prelude::*;

verus! {

/// `x` switched from modulus `2^64` to modulus `2^log2_2n`: `round(x · 2^log2_2n / 2^64)`
/// reduced modulo `2^log2_2n`.
pub open spec fn mod_switch_value(x: u64, log2_2n: u32) -> int {
    tmod(x + pow2((63 - log2_2n) as nat)) / (pow2((64 - log2_2n) as nat) as int)
}

/// `mod_switch(x)` into `[0, 2N)` (round `x · 2N / q`), with `2N = 2^log2_2n`.
pub fn mod_switch(x: u64, log2_2n: u32) -> (r: usize)
    requires
        1 <= log2_2n <= 63,
        log2_2n < usize::BITS,
    ensures
        r as int == mod_switch_value(x, log2_2n),
        r < pow2(log2_2n as nat),
{
    let shift = 64 - log2_2n;
    proof {
        lemma_u64_pow2_no_overflow((shift - 1) as nat);
        lemma_u64_shl_is_mul(1, (shift - 1) as u64);
        lemma_wrapping_add(x, 1u64 << ((shift - 1) as u64));
        lemma_u64_shr_is_div(x.wrapping_add(1u64 << ((shift - 1) as u64)), shift as u64);
        lemma_pow2_adds(shift as nat, log2_2n as nat);
        lemma2_to64_rest();
        lemma_pow2_pos(shift as nat);
        let v = x.wrapping_add(1u64 << ((shift - 1) as u64));
        lemma_div_strictly_bounded(v as int, pow2(shift as nat) as int, pow2(log2_2n as nat) as int);
        lemma_usize_pow2_no_overflow(log2_2n as nat);
        lemma_usize_shl_is_mul(1, log2_2n as usize);
        let q = (v >> (shift as u64));
        assert(q < pow2(log2_2n as nat));
        lemma_u64_low_bits_mask_is_mod(q, log2_2n as nat);
        lemma_small_mod(q as nat, pow2(log2_2n as nat));
    }
    let q = x.wrapping_add(1u64 << (shift - 1)) >> shift;
    proof {
        assert((q as usize) as int == q);
        lemma_usize_low_bits_mask_is_mod(q as usize, log2_2n as nat);
        lemma_small_mod(q as nat, pow2(log2_2n as nat));
    }
    (q as usize) & ((1 << log2_2n) - 1)
}

/// `v < d·m` gives `v / d < m`.
pub(crate) proof fn lemma_div_strictly_bounded(v: int, d: int, m: int)
    requires
        0 <= v < d * m,
        d > 0,
    ensures
        v / d < m,
{
    lemma_fundamental_div_mod(v, d);
    lemma_mod_bound(v, d);
    if v / d >= m {
        assert(d * (v / d) >= d * m) by (nonlinear_arith)
            requires
                v / d >= m,
                d > 0,
        ;
    }
}

/// The gadget weight `2^(64 - (lev+1)·baselog)` of decomposition level `lev`.
pub fn gadget_weight(lev: usize, baselog: u32) -> (w: u64)
    requires
        1 <= (lev + 1) * baselog <= 64,
    ensures
        w == pow2((64 - (lev + 1) * baselog) as nat),
{
    proof {
        assert(lev < 64) by (nonlinear_arith)
            requires
                (lev + 1) * baselog <= 64,
                (lev + 1) * baselog >= 1,
        ;
        lemma_u64_pow2_no_overflow((64 - (lev + 1) * baselog) as nat);
        lemma_u64_shl_is_mul(1, (64 - (lev + 1) * baselog) as u64);
    }
    1u64 << (64 - (lev as u32 + 1) * baselog)
}

/// Usable message modulus `2^(message_bits - 1)`.
pub open spec fn message_modulus(p: Params) -> int {
    pow2((p.message_bits - 1) as nat) as int
}

/// Width of the run of test-vector coefficients that encodes one message: `N / p_eff`.
pub open spec fn box_width(p: Params) -> int {
    p.poly as int / message_modulus(p)
}

/// The test vector before centering: coefficient `i` holds `lut[(i / box) mod p_eff] · Δ`.
pub open spec fn test_vector(p: Params, lut: Seq<u64>) -> Seq<u64> {
    Seq::new(
        p.poly as nat,
        |i: int|
            tmod(lut[(i / box_width(p)) % message_modulus(p)] * delta_of(p.message_bits)) as u64,
    )
}

/// What [`build_test_poly`] accepts: a valid message width, at least one coefficient per
/// message, ring indices that fit a machine word, and a LUT entry for every message.
pub open spec fn test_poly_inputs(p: Params, lut: Seq<u64>) -> bool {
    &&& 1 <= p.message_bits <= 64
    &&& p.poly >= message_modulus(p)
    &&& 2 * p.poly <= usize::MAX
    &&& lut.len() >= message_modulus(p)
}

/// Build the accumulator test polynomial encoding LUT `f` (half-box centered, redundant): the
/// test vector multiplied by `X^(2N - box/2)`.
pub fn build_test_poly(p: &Params, lut: &Lut) -> (tv: Vec<u64>)
    requires
        test_poly_inputs(*p, lut.values@),
    ensures
        tv@ == rotate(
            test_vector(*p, lut.values@),
            (2 * p.poly - box_width(*p) / 2) % (2 * p.poly as int),
        ),
{
    let n = p.poly;
    let pm = p.msg_modulus();
    proof {
        lemma_pow2_pos((p.message_bits - 1) as nat);
    }
    let p_eff = pm as usize;
    let box_size = n / p_eff;
    let delta = p.delta();
    proof {
        lemma_div_is_ordered(p_eff as int, n as int, p_eff as int);
        lemma_div_by_self(p_eff as int);
    }
    let mut tv: Vec<u64> = Vec::new();
    let mut i: usize = 0;
    while i < n
        invariant
            i <= n,
            n == p.poly,
            p_eff as int == message_modulus(*p),
            box_size as int == box_width(*p),
            box_size >= 1,
            p_eff >= 1,
            delta == delta_of(p.message_bits),
            lut.values@.len() >= p_eff,
            tv@ == test_vector(*p, lut.values@).subrange(0, i as int),
        decreases n - i,
    {
        let m = (i / box_size) % p_eff;
        proof {
            lemma_mod_bound((i / box_size) as int, p_eff as int);
            lemma_wrapping_mul(lut.values@[m as int], delta);
        }
        tv.push(lut.values[m].wrapping_mul(delta));
        proof {
            assert(tv@ =~= test_vector(*p, lut.values@).subrange(0, i + 1));
        }
        i = i + 1;
    }
    proof {
        assert(tv@ =~= test_vector(*p, lut.values@));
        lemma_div_is_ordered_by_denominator(n as int, 1, p_eff as int);
    }
    mul_monomial(tv.as_slice(), 2 * n - box_size / 2)
}

/// `acc - d · row` on LWE samples, with `acc` given as (mask, body); mask coordinates beyond
/// the row's mask are left as they are.
pub open spec fn lwe_sub_scaled(acc: (Seq<u64>, u64), d: int, row: Lwe) -> (Seq<u64>, u64) {
    (
        Seq::new(
            acc.0.len(),
            |t: int|
                if t < row.a@.len() {
                    tmod(acc.0[t] - d * row.a@[t]) as u64
                } else {
                    acc.0[t]
                },
        ),
        tmod(acc.1 - d * row.b) as u64,
    )
}

/// Key-switching state after the rows of the first `j` input coefficients and the first `lev`
/// levels of coefficient `j`: starting from `(0^n, b)`, every digit `d` of `a_j` subtracts
/// `d · ksk[j][lev]`.
pub open spec fn ks_state(p: Params, ksk: Seq<Vec<Lwe>>, ct_a: Seq<u64>, ct_b: u64, j: nat, lev: nat) -> (
    Seq<u64>,
    u64,
)
    decreases j, lev,
{
    if lev == 0 {
        if j == 0 {
            (Seq::new(p.n as nat, |t: int| 0u64), ct_b)
        } else {
            ks_state(p, ksk, ct_a, ct_b, (j - 1) as nat, p.ks_l as nat)
        }
    } else {
        lwe_sub_scaled(
            ks_state(p, ksk, ct_a, ct_b, j, (lev - 1) as nat),
            decompose_digit(ct_a[j as int], p.ks_l, p.ks_baselog, lev - 1),
            ksk[j as int]@[lev - 1],
        )
    }
}

/// What [`key_switch`] accepts: decomposition parameters it can index, and a key-switching
/// key row for every level of every input coefficient.
pub open spec fn key_switch_inputs(p: Params, ksk: Seq<Vec<Lwe>>, ct_a: Seq<u64>) -> bool {
    &&& ct_a.len() > 0 ==> p.ks_l <= MAX_L && p.ks_l * p.ks_baselog <= 63 && p.ks_baselog < 64
    &&& ksk.len() >= ct_a.len()
    &&& forall|j: int| 0 <= j < ct_a.len() ==> (#[trigger] ksk[j])@.len() >= p.ks_l
}

/// Key-switch an LWE under the flattened GLWE key back to the input key (dim `n`).
pub fn key_switch(p: &Params, ksk: &[Vec<Lwe>], ct: &Lwe) -> (out: Lwe)
    requires
        key_switch_inputs(*p, ksk@, ct.a@),
    ensures
        (out.a@, out.b) == ks_state(*p, ksk@, ct.a@, ct.b, ct.a@.len(), 0),
{
    let mut a: Vec<u64> = Vec::new();
    let mut z: usize = 0;
    while z < p.n
        invariant
            z <= p.n,
            a@ == Seq::new(z as nat, |t: int| 0u64),
        decreases p.n - z,
    {
        a.push(0);
        z = z + 1;
        assert(a@ =~= Seq::new(z as nat, |t: int| 0u64));
    }
    let mut b = ct.b;
    let mut j: usize = 0;
    while j < ct.a.len()
        invariant
            key_switch_inputs(*p, ksk@, ct.a@),
            j <= ct.a@.len(),
            (a@, b) == ks_state(*p, ksk@, ct.a@, ct.b, j as nat, 0),
            a@.len() == p.n,
        decreases ct.a@.len() - j,
    {
        let digits = decompose(ct.a[j], p.ks_l, p.ks_baselog);
        let mut lev: usize = 0;
        while lev < p.ks_l
            invariant
                key_switch_inputs(*p, ksk@, ct.a@),
                j < ct.a@.len(),
                lev <= p.ks_l,
                forall|t: int|
                    0 <= t < MAX_L ==> digits[t] as int == decompose_digit(
                        ct.a@[j as int],
                        p.ks_l,
                        p.ks_baselog,
                        t,
                    ),
                (a@, b) == ks_state(*p, ksk@, ct.a@, ct.b, j as nat, lev as nat),
                a@.len() == p.n,
            decreases p.ks_l - lev,
        {
            let d = digits[lev];
            let row = &ksk[j][lev];
            let du = d as u64;
            proof {
                crate::torus::lemma_i64_as_u64(d);
                lemma_wrapping_mul(du, row.b);
                lemma_wrapping_sub(b, du.wrapping_mul(row.b));
                lemma_tmod_mul(d as int, row.b as int);
                lemma_tmod_range(d * row.b);
                lemma_tmod_sub(b as int, d * row.b);
            }
            b = b.wrapping_sub(du.wrapping_mul(row.b));
            let len = if a.len() < row.a.len() {
                a.len()
            } else {
                row.a.len()
            };
            let ghost a0 = a@;
            let mut t: usize = 0;
            while t < len
                invariant
                    len <= a@.len(),
                    len <= row.a@.len(),
                    len == a0.len() || len == row.a@.len(),
                    a@.len() == a0.len(),
                    du as int == tmod(d as int),
                    t <= len,
                    forall|u: int|
                        0 <= u < a0.len() ==> #[trigger] a@[u] == if u < t {
                            tmod(a0[u] - d * row.a@[u]) as u64
                        } else {
                            a0[u]
                        },
                decreases len - t,
            {
                proof {
                    lemma_wrapping_mul(du, row.a@[t as int]);
                    lemma_wrapping_sub(a@[t as int], du.wrapping_mul(row.a@[t as int]));
                    lemma_tmod_mul(d as int, row.a@[t as int] as int);
                    lemma_tmod_range(d * row.a@[t as int]);
                    lemma_tmod_sub(a0[t as int] as int, d * row.a@[t as int]);
                }
                a.set(t, a[t].wrapping_sub(du.wrapping_mul(row.a[t])));
                t = t + 1;
            }
            proof {
                let next = lwe_sub_scaled((a0, ks_state(*p, ksk@, ct.a@, ct.b, j as nat, lev as nat).1), d as int, *row);
                assert(a@ =~= next.0);
            }
            lev = lev + 1;
        }
        j = j + 1;
    }
    Lwe { a, b }
}

/// `log2(2N)` as the bootstrap computes it: the number of trailing zero bits of `2N`.
pub open spec fn log2_2n(p: Params) -> u32 {
    vstd::std_specs::bits::u64_trailing_zeros((2 * p.poly) as u64)
}

pub(crate) proof fn lemma_log2_2n(p: Params)
    requires
        p.poly >= 1,
        2 * p.poly <= usize::MAX,
    ensures
        1 <= log2_2n(p) <= 63,
        log2_2n(p) < usize::BITS,
        pow2(log2_2n(p) as nat) <= 2 * p.poly,
{
    let x = (2 * p.poly) as u64;
    vstd::std_specs::bits::axiom_u64_trailing_zeros(x);
    let tz = log2_2n(p);
    assert(x != 0);
    assert(x & 1 == 0) by (bit_vector)
        requires
            x == 2 * ((x / 2) as u64),
    ;
    if tz == 0 {
        assert(x >> 0u64 == x) by (bit_vector);
    }
    lemma_u64_shr_is_div(x, tz as u64);
    assert((x >> (tz as u64)) & 1 == 1);
    assert((x >> (tz as u64)) >= 1) by (bit_vector)
        requires
            (x >> (tz as u64)) & 1 == 1,
    ;
    lemma_pow2_pos(tz as nat);
    lemma_fundamental_div_mod(x as int, pow2(tz as nat) as int);
    lemma_mod_bound(x as int, pow2(tz as nat) as int);
    assert(pow2(tz as nat) <= x) by (nonlinear_arith)
        requires
            x as int == pow2(tz as nat) * (x as int / pow2(tz as nat) as int) + x as int % pow2(
                tz as nat,
            ) as int,
            x as int / pow2(tz as nat) as int >= 1,
            x as int % pow2(tz as nat) as int >= 0,
            pow2(tz as nat) > 0,
    ;
    lemma2_to64();
    if tz >= usize::BITS {
        lemma_pow2_strictly_increases(usize::BITS as nat, tz as nat);
    }
}

/// The accumulator the bootstrap starts from: `k` zero masks and the body
/// `X^(-b̃) · X^(-box/2) · tv(lut)`, where `b̃` is `b` switched to modulus `2N`.
pub open spec fn initial_accumulator(p: Params, lut: Seq<u64>, b: u64) -> Seq<Seq<u64>> {
    Seq::new(p.k as nat, |c: int| Seq::new(p.poly as nat, |j: int| 0u64)).push(
        rotate(
            rotate(test_vector(p, lut), (2 * p.poly - box_width(p) / 2) % (2 * p.poly as int)),
            (2 * p.poly - mod_switch_value(b, log2_2n(p))) % (2 * p.poly as int),
        ),
    )
}

/// Step 1 of the bootstrap: the trivial GLWE accumulator holding the test polynomial of `lut`
/// multiplied by `X^(-b̃)`, where `b̃` is the body of `ct` switched to modulus `2N`.
pub fn bootstrap_accumulator(p: &Params, ct: &Lwe, lut: &Lut) -> (acc: Glwe)
    requires
        test_poly_inputs(*p, lut.values@),
    ensures
        acc.has_shape(p.k as nat, p.poly as nat),
        acc@ == initial_accumulator(*p, lut.values@, ct.b),
{
    let n = p.poly;
    proof {
        lemma_pow2_pos((p.message_bits - 1) as nat);
        lemma_log2_2n(*p);
    }
    let log2 = (2 * n as u64).trailing_zeros();
    let test = build_test_poly(p, lut);
    let b_tilde = mod_switch(ct.b, log2);
    Glwe::trivial(p.k, mul_monomial(test.as_slice(), 2 * n - b_tilde))
}

/// Step 3 of the bootstrap: sample-extract the constant coefficient of the accumulator, then
/// key-switch it back to the input LWE key.
pub fn bootstrap_extract(p: &Params, acc: &Glwe, ksk: &[Vec<Lwe>]) -> (out: Lwe)
    requires
        p.k > 0 ==> p.poly >= 1,
        p.k * p.poly <= usize::MAX,
        acc.mask@.len() >= p.k,
        forall|i: int| 0 <= i < p.k ==> (#[trigger] acc.mask@[i])@.len() >= p.poly,
        acc.body@.len() >= 1,
        key_switch_inputs(
            *p,
            ksk@,
            extracted_mask(acc.mask@, p.k as int, p.poly as int),
        ),
    ensures
        (out.a@, out.b) == ks_state(
            *p,
            ksk@,
            extracted_mask(acc.mask@, p.k as int, p.poly as int),
            acc.body@[0],
            (p.k * p.poly) as nat,
            0,
        ),
{
    let extracted = sample_extract(p, acc);
    key_switch(p, ksk, &extracted)
}

/// `x mod m` for `0 <= x < 2m`.
proof fn lemma_mod_once(x: int, m: int)
    requires
        m > 0,
        0 <= x < 2 * m,
    ensures
        x % m == if x < m {
            x
        } else {
            x - m
        },
{
    if x < m {
        lemma_small_mod(x as nat, m as nat);
    } else {
        lemma_mod_sub_multiples_vanish(x, m);
        lemma_small_mod((x - m) as nat, m as nat);
    }
}

/// Law: the test polynomial applies the LUT. When a rotation `φ ∈ [0, 2N)` falls in the box
/// of message `m` — `(φ + box/2) mod 2N ∈ [m·box, (m+1)·box)` — the constant coefficient of
/// `X^(-φ) · build_test_poly(lut)` is `lut[m]·Δ`. This is what turns the blind-rotated
/// accumulator of an encryption of `m` into an encryption of `f(m)`.
pub proof fn lemma_test_poly_applies_lut(p: Params, lut: Seq<u64>, phi: int, m: int)
    requires
        test_poly_inputs(p, lut),
        0 <= phi < 2 * p.poly,
        0 <= m < message_modulus(p),
        m * box_width(p) <= (phi + box_width(p) / 2) % (2 * p.poly as int) < (m + 1) * box_width(p),
    ensures
        rotate(
            rotate(test_vector(p, lut), (2 * p.poly - box_width(p) / 2) % (2 * p.poly as int)),
            (2 * p.poly - phi) % (2 * p.poly as int),
        )[0] == tmod(lut[m] * delta_of(p.message_bits)) as u64,
{
    let n = p.poly as int;
    let bx = box_width(p);
    let pe = message_modulus(p);
    lemma_pow2_pos((p.message_bits - 1) as nat);
    lemma_div_is_ordered(pe, n, pe);
    lemma_div_by_self(pe);
    lemma_div_is_ordered_by_denominator(n, 1, pe);
    // m·box + box <= pe·box <= N
    lemma_fundamental_div_mod(n, pe);
    lemma_mod_bound(n, pe);
    assert((m + 1) * bx <= n) by (nonlinear_arith)
        requires
            m + 1 <= pe,
            bx >= 0,
            n == pe * bx + n % pe,
            n % pe >= 0,
    ;
    let tv = test_vector(p, lut);
    let r = (2 * n - bx / 2) % (2 * n);
    let s = (2 * n - phi) % (2 * n);
    lemma_mod_once(2 * n - bx / 2, 2 * n);
    lemma_mod_once(2 * n - phi, 2 * n);
    lemma_rotate_compose(tv, r, s);
    let t = (r + s) % (2 * n);
    lemma_mod_once(r + s, 2 * n);
    let psi = (phi + bx / 2) % (2 * n);
    lemma_mod_once(phi + bx / 2, 2 * n);
    // the coefficient that lands at 0 is tv[psi]
    assert(rot_at(tv, t, 0) == tv[psi]);
    assert((m + 1) * bx == m * bx + bx) by (nonlinear_arith);
    assert(bx >= 1);
    lemma_fundamental_div_mod_converse(psi, bx, m, psi - m * bx);
    lemma_small_mod(m as nat, pe as nat);
}

/// `Σ d_{j,lev} · phase_key(ksk[j][lev])` over the same rows, in the same order, as
/// [`ks_state`].
pub open spec fn ks_phase_sum(
    p: Params,
    ksk: Seq<Vec<Lwe>>,
    ct_a: Seq<u64>,
    key: Seq<u64>,
    j: nat,
    lev: nat,
) -> int
    decreases j, lev,
{
    if lev == 0 {
        if j == 0 {
            0
        } else {
            ks_phase_sum(p, ksk, ct_a, key, (j - 1) as nat, p.ks_l as nat)
        }
    } else {
        ks_phase_sum(p, ksk, ct_a, key, j, (lev - 1) as nat) + decompose_digit(
            ct_a[j as int],
            p.ks_l,
            p.ks_baselog,
            lev - 1,
        ) * lwe_phase(key, ksk[j as int]@[lev - 1].a@, ksk[j as int]@[lev - 1].b)
    }
}

/// The inner product is linear in the mask: subtracting `d·row` subtracts `d·<row, key>`.
proof fn lemma_dot_sub_scaled(acc: Seq<u64>, d: int, row: Lwe, key: Seq<u64>, t: nat)
    requires
        t <= key.len(),
        t <= acc.len(),
    ensures
        tmod(dot(lwe_sub_scaled((acc, 0u64), d, row).0, key, t)) == tmod(
            dot(acc, key, t) - d * dot(row.a@, key, if t < row.a@.len() { t } else { row.a@.len() }),
        ),
    decreases t,
{
    let na = lwe_sub_scaled((acc, 0u64), d, row).0;
    if t > 0 {
        let u = (t - 1) as nat;
        lemma_dot_sub_scaled(acc, d, row, key, u);
        let ru = if u < row.a@.len() { u } else { row.a@.len() };
        let rt = if t < row.a@.len() { t } else { row.a@.len() };
        let x = dot(acc, key, u) - d * dot(row.a@, key, ru);
        crate::torus::lemma_tmod_add(dot(na, key, u), na[u as int] * key[u as int]);
        crate::torus::lemma_tmod_add(x, na[u as int] * key[u as int]);
        if u < row.a@.len() {
            let v = acc[u as int] - d * row.a@[u as int];
            lemma_tmod_mul(v, key[u as int] as int);
            crate::torus::lemma_tmod_add(x, v * key[u as int]);
            assert(x + v * key[u as int] == dot(acc, key, t) - d * dot(row.a@, key, rt))
                by (nonlinear_arith)
                requires
                    x == dot(acc, key, u) - d * dot(row.a@, key, ru),
                    v == acc[u as int] - d * row.a@[u as int],
                    dot(acc, key, t) == dot(acc, key, u) + acc[u as int] * key[u as int],
                    dot(row.a@, key, rt) == dot(row.a@, key, ru) + row.a@[u as int] * key[u as int],
            ;
        } else {
            assert(rt == ru);
        }
    }
}

/// One key-switching step moves the phase by `-d · phase(row)`.
proof fn lemma_phase_sub_scaled(acc: (Seq<u64>, u64), d: int, row: Lwe, key: Seq<u64>)
    requires
        key.len() <= acc.0.len(),
    ensures
        lwe_phase(key, lwe_sub_scaled(acc, d, row).0, lwe_sub_scaled(acc, d, row).1) as int
            == tmod(lwe_phase(key, acc.0, acc.1) - d * lwe_phase(key, row.a@, row.b)),
{
    let k = key.len();
    let next = lwe_sub_scaled(acc, d, row);
    assert(next.0 == lwe_sub_scaled((acc.0, 0u64), d, row).0);
    lemma_dot_sub_scaled(acc.0, d, row, key, k);
    let rk = common_len(row.a@, key);
    let da = dot(acc.0, key, k);
    let dr = dot(row.a@, key, rk);
    let dn = dot(next.0, key, k);
    assert(common_len(next.0, key) == k);
    assert(common_len(acc.0, key) == k);
    // phase(next) = (acc.b - d·row.b) - <next.a, key> ≡ (acc.b - <acc.a, key>) - d·(row.b - <row.a, key>)
    crate::torus::lemma_tmod_range(acc.1 - d * row.b);
    lemma_tmod_sub(acc.1 - d * row.b, dn);
    lemma_tmod_sub_congruent(acc.1 - d * row.b, dn, da - d * dr);
    assert(acc.1 - d * row.b - (da - d * dr) == acc.1 - da - d * (row.b - dr)) by (nonlinear_arith);
    // phase(acc) - d·phase(row), reduced
    crate::torus::lemma_tmod_range(acc.1 - da);
    crate::torus::lemma_tmod_range(row.b - dr);
    lemma_tmod_mul(d, row.b - dr);
    crate::torus::lemma_tmod_sub(acc.1 - da, d * tmod(row.b - dr));
    crate::torus::lemma_tmod_sub(tmod(acc.1 - da), d * tmod(row.b - dr));
    lemma_tmod_sub_congruent(acc.1 - da, d * tmod(row.b - dr), d * (row.b - dr));
}

/// Subtracting congruent values gives congruent results.
proof fn lemma_tmod_sub_congruent(x: int, y: int, z: int)
    requires
        tmod(y) == tmod(z),
    ensures
        tmod(x - y) == tmod(x - z),
{
    crate::torus::lemma_tmod_sub(x, y);
    crate::torus::lemma_tmod_sub(x, z);
}

/// Law: key switching is linear in the phase. Under any key `s` no longer than the output
/// dimension, the phase of the key-switched sample is the input body minus
/// `Σ_{j,lev} d_{j,lev} · phase_s(ksk[j][lev])`, where `d_{j,lev}` are the gadget digits of
/// `a_j`. With `phase_s(ksk[j][lev]) = s'_j·2^(64-(lev+1)·b) + e_{j,lev}` this is the input
/// phase under `s'` up to the decomposition and key-switching noise.
pub proof fn lemma_key_switch_phase(
    p: Params,
    ksk: Seq<Vec<Lwe>>,
    ct_a: Seq<u64>,
    ct_b: u64,
    key: Seq<u64>,
    j: nat,
    lev: nat,
)
    requires
        key.len() <= p.n,
    ensures
        ks_state(p, ksk, ct_a, ct_b, j, lev).0.len() == p.n,
        lwe_phase(
            key,
            ks_state(p, ksk, ct_a, ct_b, j, lev).0,
            ks_state(p, ksk, ct_a, ct_b, j, lev).1,
        ) as int == tmod(ct_b - ks_phase_sum(p, ksk, ct_a, key, j, lev)),
    decreases j, lev,
{
    if lev == 0 {
        if j == 0 {
            let z = Seq::new(p.n as nat, |t: int| 0u64);
            lemma_dot_zero(z, key, common_len(z, key));
        } else {
            lemma_key_switch_phase(p, ksk, ct_a, ct_b, key, (j - 1) as nat, p.ks_l as nat);
        }
    } else {
        let prev = ks_state(p, ksk, ct_a, ct_b, j, (lev - 1) as nat);
        lemma_key_switch_phase(p, ksk, ct_a, ct_b, key, j, (lev - 1) as nat);
        let d = decompose_digit(ct_a[j as int], p.ks_l, p.ks_baselog, lev - 1);
        let row = ksk[j as int]@[lev - 1];
        lemma_phase_sub_scaled(prev, d, row, key);
        let sp = ks_phase_sum(p, ksk, ct_a, key, j, (lev - 1) as nat);
        let pr = lwe_phase(key, row.a@, row.b) as int;
        crate::torus::lemma_tmod_sub(ct_b - sp, d * pr);
        assert(ct_b - sp - d * pr == ct_b - (sp + d * pr));
    }
}

proof fn lemma_dot_zero(z: Seq<u64>, key: Seq<u64>, t: nat)
    requires
        t <= z.len(),
        forall|i: int| 0 <= i < z.len() ==> z[i] == 0,
    ensures
        dot(z, key, t) == 0,
    decreases t,
{
    if t > 0 {
        lemma_dot_zero(z, key, (t - 1) as nat);
    }
}

/// Decomposition error of input coefficient `a`: the gadget-recomposed value minus `a`, as a
/// signed torus element.
pub open spec fn ks_digit_error(p: Params, a: u64) -> int {
    signed_rep(gadget_recompose(a, p.ks_l, p.ks_baselog, p.ks_l as nat) - a)
}

/// `Σ_{j<J} s_j · ε_j`: the decomposition errors of the first `J` input coefficients, each
/// weighted by its input-key coefficient.
pub open spec fn ks_rounding_error(p: Params, ct_a: Seq<u64>, key_in: Seq<u64>, j: nat) -> int
    decreases j,
{
    if j == 0 {
        0
    } else {
        ks_rounding_error(p, ct_a, key_in, (j - 1) as nat) + key_in[j - 1] * ks_digit_error(
            p,
            ct_a[j - 1],
        )
    }
}

/// `Σ d_{j,lev} · e_{j,lev}` over the rows [`ks_state`] visits, in the same order: the
/// key-switching-key noise carried into the output.
pub open spec fn ks_noise(p: Params, ct_a: Seq<u64>, noise: Seq<Seq<int>>, j: nat, lev: nat) -> int
    decreases j, lev,
{
    if lev == 0 {
        if j == 0 {
            0
        } else {
            ks_noise(p, ct_a, noise, (j - 1) as nat, p.ks_l as nat)
        }
    } else {
        ks_noise(p, ct_a, noise, j, (lev - 1) as nat) + decompose_digit(
            ct_a[j as int],
            p.ks_l,
            p.ks_baselog,
            lev - 1,
        ) * noise[j as int][lev - 1]
    }
}

/// `Σ_{j<J} s_j · R_j`, with `R_j` the full gadget recomposition of `a_j`.
spec fn ks_key_recompose(p: Params, ct_a: Seq<u64>, key_in: Seq<u64>, j: nat) -> int
    decreases j,
{
    if j == 0 {
        0
    } else {
        ks_key_recompose(p, ct_a, key_in, (j - 1) as nat) + key_in[j - 1] * gadget_recompose(
            ct_a[j - 1],
            p.ks_l,
            p.ks_baselog,
            p.ks_l as nat,
        )
    }
}

/// Every key-switching-key row `(j, lev)` has phase `s_j · 2^(64-(lev+1)·b) + e_{j,lev}` under
/// the output key: it encrypts input-key coefficient `j` times the gadget weight.
pub open spec fn ksk_encrypts_key(
    p: Params,
    ksk: Seq<Vec<Lwe>>,
    len: nat,
    key_in: Seq<u64>,
    key_out: Seq<u64>,
    noise: Seq<Seq<int>>,
) -> bool {
    forall|j: int, lev: int|
        0 <= j < len && 0 <= lev < p.ks_l ==> tmod(
            #[trigger] lwe_phase(key_out, ksk[j]@[lev].a@, ksk[j]@[lev].b) as int,
        ) == tmod(key_in[j] * pow2((64 - (lev + 1) * p.ks_baselog) as nat) + noise[j][lev])
}

proof fn lemma_ks_phase_sum_expand(
    p: Params,
    ksk: Seq<Vec<Lwe>>,
    ct_a: Seq<u64>,
    key_in: Seq<u64>,
    key_out: Seq<u64>,
    noise: Seq<Seq<int>>,
    j: nat,
    lev: nat,
)
    requires
        ksk_encrypts_key(p, ksk, ct_a.len(), key_in, key_out, noise),
        j <= ct_a.len(),
        lev <= p.ks_l,
        lev > 0 ==> j < ct_a.len(),
    ensures
        tmod(ks_phase_sum(p, ksk, ct_a, key_out, j, lev)) == tmod(
            ks_key_recompose(p, ct_a, key_in, j) + key_in[j as int] * gadget_recompose(
                ct_a[j as int],
                p.ks_l,
                p.ks_baselog,
                lev,
            ) + ks_noise(p, ct_a, noise, j, lev),
        ),
    decreases j, lev,
{
    if lev == 0 {
        if j == 0 {
            crate::torus::lemma_tmod_small(0);
        } else {
            let jp = (j - 1) as nat;
            lemma_ks_phase_sum_expand(p, ksk, ct_a, key_in, key_out, noise, jp, p.ks_l as nat);
        }
    } else {
        let lp = (lev - 1) as nat;
        lemma_ks_phase_sum_expand(p, ksk, ct_a, key_in, key_out, noise, j, lp);
        let d = decompose_digit(ct_a[j as int], p.ks_l, p.ks_baselog, lp as int);
        let row = ksk[j as int]@[lp as int];
        let ph = lwe_phase(key_out, row.a@, row.b) as int;
        let w = pow2((64 - lev * p.ks_baselog) as nat) as int;
        let sj = key_in[j as int] as int;
        let e = noise[j as int][lp as int];
        assert(tmod(ph) == tmod(sj * w + e));
        let prev = ks_phase_sum(p, ksk, ct_a, key_out, j, lp);
        let kr = ks_key_recompose(p, ct_a, key_in, j);
        let g = gadget_recompose(ct_a[j as int], p.ks_l, p.ks_baselog, lp);
        let nz = ks_noise(p, ct_a, noise, j, lp);
        // prev + d·ph ≡ (kr + sj·g + nz) + d·(sj·w + e)
        lemma_tmod_add(prev, d * ph);
        lemma_tmod_add(kr + sj * g + nz, d * ph);
        lemma_tmod_mul(d, ph);
        lemma_tmod_mul(d, sj * w + e);
        lemma_tmod_add(kr + sj * g + nz, d * (sj * w + e));
        lemma_tmod_add(kr + sj * g + nz, tmod(d * ph));
        assert(kr + sj * g + nz + d * (sj * w + e) == kr + sj * (g + d * w) + (nz + d * e))
            by (nonlinear_arith);
        assert((lp + 1) * p.ks_baselog == lev * p.ks_baselog);
    }
}

proof fn lemma_ks_key_recompose(p: Params, ct_a: Seq<u64>, key_in: Seq<u64>, j: nat)
    requires
        j <= ct_a.len(),
        j <= key_in.len(),
    ensures
        tmod(ks_key_recompose(p, ct_a, key_in, j)) == tmod(
            dot(ct_a, key_in, j) + ks_rounding_error(p, ct_a, key_in, j),
        ),
    decreases j,
{
    if j > 0 {
        let i = (j - 1) as nat;
        lemma_ks_key_recompose(p, ct_a, key_in, i);
        let a = ct_a[i as int] as int;
        let s = key_in[i as int] as int;
        let r = gadget_recompose(ct_a[i as int], p.ks_l, p.ks_baselog, p.ks_l as nat);
        let eps = ks_digit_error(p, ct_a[i as int]);
        // tmod(r) == tmod(a + eps)
        lemma_tmod_range(r - a);
        if tmod(r - a) >= 0x8000_0000_0000_0000 {
            lemma_tmod_multiple(r - a, 1);
        }
        lemma_tmod_add(r - a, a);
        lemma_tmod_add(eps, a);
        assert(tmod(r) == tmod(a + eps)) by {
            crate::torus::lemma_tmod_range(r - a);
            lemma_tmod_add(tmod(r - a), a);
            lemma_tmod_multiple(eps + a, 1);
        }
        let kp = ks_key_recompose(p, ct_a, key_in, i);
        let dp = dot(ct_a, key_in, i);
        let ep = ks_rounding_error(p, ct_a, key_in, i);
        lemma_tmod_add(kp, s * r);
        lemma_tmod_add(dp + ep, s * r);
        lemma_tmod_mul(s, r);
        lemma_tmod_mul(s, a + eps);
        lemma_tmod_add(dp + ep, s * (a + eps));
        lemma_tmod_add(dp + ep, tmod(s * r));
        assert(dp + ep + s * (a + eps) == (dp + a * s) + (ep + s * eps)) by (nonlinear_arith);
    }
}

/// Law: key switching keeps the message. If every key-switching-key row `(j, lev)` encrypts
/// `s_j · 2^(64-(lev+1)·b)` under the output key with noise `e_{j,lev}`, the key-switched
/// sample has, under the output key, the phase of the input under the input key minus
/// `Σ_j s_j·ε_j` (each `ε_j` the rounding of `a_j` to `l·b` bits, `|ε_j| <= 2^(63 - l·b)`) and
/// minus `Σ_{j,lev} d_{j,lev}·e_{j,lev}`.
pub proof fn lemma_key_switch_keeps_phase(
    p: Params,
    ksk: Seq<Vec<Lwe>>,
    ct_a: Seq<u64>,
    ct_b: u64,
    key_in: Seq<u64>,
    key_out: Seq<u64>,
    noise: Seq<Seq<int>>,
)
    requires
        key_out.len() <= p.n,
        key_in.len() >= ct_a.len(),
        ksk_encrypts_key(p, ksk, ct_a.len(), key_in, key_out, noise),
    ensures
        lwe_phase(
            key_out,
            ks_state(p, ksk, ct_a, ct_b, ct_a.len(), 0).0,
            ks_state(p, ksk, ct_a, ct_b, ct_a.len(), 0).1,
        ) as int == tmod(
            lwe_phase(key_in, ct_a, ct_b) - ks_rounding_error(p, ct_a, key_in, ct_a.len())
                - ks_noise(p, ct_a, noise, ct_a.len(), 0),
        ),
        1 <= p.ks_baselog && 1 <= p.ks_l <= MAX_L && p.ks_l * p.ks_baselog <= 63 ==> forall|j: int|
            0 <= j < ct_a.len() ==> -(pow2((63 - p.ks_l * p.ks_baselog) as nat) as int)
                < #[trigger] ks_digit_error(p, ct_a[j]) <= pow2(
                (63 - p.ks_l * p.ks_baselog) as nat,
            ),
{
    let len = ct_a.len();
    lemma_key_switch_phase(p, ksk, ct_a, ct_b, key_out, len, 0);
    lemma_ks_phase_sum_expand(p, ksk, ct_a, key_in, key_out, noise, len, 0);
    lemma_ks_key_recompose(p, ct_a, key_in, len);
    let sum = ks_phase_sum(p, ksk, ct_a, key_out, len, 0);
    let kr = ks_key_recompose(p, ct_a, key_in, len);
    let nz = ks_noise(p, ct_a, noise, len, 0);
    let dt = dot(ct_a, key_in, len);
    let er = ks_rounding_error(p, ct_a, key_in, len);
    assert(common_len(ct_a, key_in) == len);
    assert(gadget_recompose(ct_a[len as int], p.ks_l, p.ks_baselog, 0) == 0);
    // ct_b - sum ≡ ct_b - (kr + nz) ≡ ct_b - dt - er - nz ≡ phase_in - er - nz
    lemma_tmod_sub(ct_b as int, sum);
    lemma_tmod_sub(ct_b as int, kr + nz);
    lemma_tmod_add(kr, nz);
    lemma_tmod_add(dt + er, nz);
    lemma_tmod_sub(ct_b as int, dt + er + nz);
    lemma_tmod_sub(ct_b as int, tmod(kr + nz));
    lemma_tmod_sub(ct_b as int, tmod(dt + er + nz));
    lemma_tmod_add(tmod(kr), nz);
    lemma_tmod_add(tmod(dt + er), nz);
    lemma_tmod_sub(ct_b - dt, er + nz);
    lemma_tmod_sub(tmod(ct_b - dt), er + nz);
    assert(ct_b - (dt + er + nz) == ct_b - dt - (er + nz));
    assert(lwe_phase(key_in, ct_a, ct_b) as int == tmod(ct_b - dt)) by {
        lemma_tmod_range(ct_b - dt);
    }
    if 1 <= p.ks_baselog && 1 <= p.ks_l <= MAX_L && p.ks_l * p.ks_baselog <= 63 {
        assert forall|j: int| 0 <= j < len implies -(pow2(
            (63 - p.ks_l * p.ks_baselog) as nat,
        ) as int) < #[trigger] ks_digit_error(p, ct_a[j]) <= pow2(
            (63 - p.ks_l * p.ks_baselog) as nat,
        ) by {
            lemma_decompose_recomposes(ct_a[j], p.ks_l, p.ks_baselog);
        }
    }
}

/// Law: the tail of the bootstrap decrypts to the accumulator's message. Suppose the
/// accumulator's GLWE phase has constant coefficient `m·Δ + e` under the GLWE key, the
/// key-switching key encrypts the flattened GLWE key under the LWE key `s` with noise
/// `e_{j,lev}`, and the total error — `e` minus the key-switch rounding `Σ_j s'_j·ε_j` and minus
/// `Σ_{j,lev} d_{j,lev}·e_{j,lev}` — lies within half a plaintext step. Then the sample that
/// [`bootstrap_extract`] returns for that accumulator decrypts to `m` under `s`.
pub proof fn lemma_bootstrap_extract_decrypts(
    p: Params,
    mask: Seq<Vec<u64>>,
    body0: u64,
    glwe_key: Seq<Seq<u64>>,
    flat: Seq<u64>,
    ksk: Seq<Vec<Lwe>>,
    lwe_key: Seq<u64>,
    noise: Seq<Seq<int>>,
    m: u64,
    e: int,
)
    requires
        p.poly >= 1,
        1 <= p.message_bits <= 63,
        m < pow2(p.message_bits as nat),
        extract_key_shape(mask, glwe_key, flat, p.k as nat, p.poly as nat),
        lwe_key.len() <= p.n,
        ksk_encrypts_key(p, ksk, (p.k * p.poly) as nat, flat, lwe_key, noise),
        tmod(body0 - glwe_mask_key_coeff0(mask, glwe_key, p.k as nat)) == tmod(
            m * delta_of(p.message_bits) + e,
        ),
        -(delta_of(p.message_bits) / 2) <= e - ks_rounding_error(
            p,
            extracted_mask(mask, p.k as int, p.poly as int),
            flat,
            (p.k * p.poly) as nat,
        ) - ks_noise(p, extracted_mask(mask, p.k as int, p.poly as int), noise, (p.k * p.poly) as nat, 0)
            < delta_of(p.message_bits) / 2,
    ensures
        ({
            let out = ks_state(
                p,
                ksk,
                extracted_mask(mask, p.k as int, p.poly as int),
                body0,
                (p.k * p.poly) as nat,
                0,
            );
            decode_phase(p.message_bits, lwe_phase(lwe_key, out.0, out.1)) == m
        }),
{
    let k = p.k as nat;
    let n = p.poly as nat;
    let ext = extracted_mask(mask, p.k as int, p.poly as int);
    let len = (p.k * p.poly) as nat;
    assert(ext.len() == len);
    lemma_sample_extract_phase(mask, body0, glwe_key, flat, k, n);
    lemma_key_switch_keeps_phase(p, ksk, ext, body0, flat, lwe_key, noise);
    let g = glwe_mask_key_coeff0(mask, glwe_key, k);
    let r = ks_rounding_error(p, ext, flat, len);
    let nz = ks_noise(p, ext, noise, len, 0);
    let md = m * delta_of(p.message_bits);
    let out = ks_state(p, ksk, ext, body0, len, 0);
    let ph = lwe_phase(lwe_key, out.0, out.1);
    // ph ≡ (body0 - g) - r - nz ≡ (m·Δ + e) - r - nz
    lemma_tmod_sub(body0 - g, r + nz);
    lemma_tmod_sub(md + e, r + nz);
    assert(tmod(lwe_phase(flat, ext, body0) - r - nz) == tmod(body0 - g - (r + nz)));
    assert(ph as int == tmod(md + (e - r - nz)));
    lemma_decode_near(p.message_bits, m, e - r - nz, ph);
}

} // verus!
