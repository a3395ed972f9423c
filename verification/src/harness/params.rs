//! TFHE parameters, LWE ciphertext and key types, the reproducible generator, and the
//! encryption oracle (encode, encrypt, phase, decode).
use crate::torus::{
    centered, lemma_tmod_add, lemma_tmod_range, lemma_tmod_small, lemma_tmod_sub,
    lemma_wrapping_add, lemma_wrapping_mul, lemma_wrapping_sub, tmod, torus_q,
};
use vstd::arithmetic::div_mod::*;
use vstd::arithmetic::power2::*;
use vstd::bits::*;
use vstd::prelude::*;

verus! {

/// Number of message bits (padding bit included) that every parameter set must use.
pub const REQUIRED_MESSAGE_BITS: u32 = 3;

/// A TFHE parameter set. `message_bits` includes the padding bit, so the usable message
/// modulus is `2^(message_bits - 1)`. Noise standard deviations are in whole torus units.
#[derive(Clone, Copy)]
pub struct Params {
    /// Input / output LWE dimension (length of the blind rotation).
    pub n: usize,
    /// GLWE dimension.
    pub k: usize,
    /// Ring degree `N`.
    pub poly: usize,
    /// Bootstrap-key decomposition levels.
    pub pbs_l: usize,
    /// Bootstrap-key decomposition base log.
    pub pbs_baselog: u32,
    /// Key-switch decomposition levels.
    pub ks_l: usize,
    /// Key-switch decomposition base log.
    pub ks_baselog: u32,
    /// Total message bits, padding bit included.
    pub message_bits: u32,
    /// Standard deviation of LWE noise.
    pub lwe_sigma: u64,
    /// Standard deviation of GLWE noise.
    pub glwe_sigma: u64,
}

/// `Δ = 2^(64 - message_bits)`, the plaintext scaling.
pub open spec fn delta_of(message_bits: u32) -> int {
    pow2((64 - message_bits) as nat) as int
}

impl Params {
    /// Δ = q / 2^message_bits (the plaintext scaling).
    pub fn delta(&self) -> (d: u64)
        requires
            1 <= self.message_bits <= 64,
        ensures
            d == delta_of(self.message_bits),
    {
        proof {
            lemma_u64_pow2_no_overflow((64 - self.message_bits) as nat);
            lemma_u64_shl_is_mul(1, (64 - self.message_bits) as u64);
        }
        1u64 << (64 - self.message_bits)
    }

    /// Usable message modulus (after the padding bit): `2^(message_bits - 1)`.
    pub fn msg_modulus(&self) -> (m: u64)
        requires
            1 <= self.message_bits <= 64,
        ensures
            m == pow2((self.message_bits - 1) as nat),
    {
        proof {
            lemma_u64_pow2_no_overflow((self.message_bits - 1) as nat);
            lemma_u64_shl_is_mul(1, (self.message_bits - 1) as u64);
        }
        1u64 << (self.message_bits - 1)
    }
}

/// The fixed reference parameter set (4 messages, small noise).
pub fn params() -> (p: Params)
    ensures
        p.n == 500 && p.k == 1 && p.poly == 1024,
        p.pbs_l == 2 && p.pbs_baselog == 12 && p.ks_l == 5 && p.ks_baselog == 4,
        p.message_bits == 3 && p.lwe_sigma == 64 && p.glwe_sigma == 64,
{
    Params {
        n: 500,
        k: 1,
        poly: 1024,
        pbs_l: 2,
        pbs_baselog: 12,
        ks_l: 5,
        ks_baselog: 4,
        message_bits: 3,
        lwe_sigma: 64,
        glwe_sigma: 64,
    }
}

/// LWE ciphertext: `b = <a, s> + μ + e`.
#[derive(Clone)]
pub struct Lwe {
    pub a: Vec<u64>,
    pub b: u64,
}

/// The LWE secret key `s ∈ {0,1}^n`.
pub struct SecretKey {
    pub lwe: Vec<u64>,
}

/// A look-up table for the programmable bootstrap: `values[m] = f(m)`.
#[derive(Clone)]
pub struct Lut {
    pub values: Vec<u64>,
}

/// `Σ_{i<t} a[i]·s[i]` over the integers.
pub open spec fn dot(a: Seq<u64>, s: Seq<u64>, t: nat) -> int
    decreases t,
{
    if t == 0 {
        0
    } else {
        dot(a, s, (t - 1) as nat) + a[t - 1] * s[t - 1]
    }
}

/// Length of the common prefix of two vectors (what a zipped traversal visits).
pub open spec fn common_len(a: Seq<u64>, s: Seq<u64>) -> nat {
    if a.len() < s.len() {
        a.len()
    } else {
        s.len()
    }
}

/// The phase `b - <a, s>` of an LWE sample on the torus.
pub open spec fn lwe_phase(key: Seq<u64>, a: Seq<u64>, b: u64) -> u64 {
    tmod(b - dot(a, key, common_len(a, key))) as u64
}

/// The body `μ + e + <a, s>` of an LWE encryption of the torus value `mu` with noise `noise`.
pub open spec fn lwe_body(key: Seq<u64>, mu: u64, a: Seq<u64>, noise: u64) -> u64 {
    tmod(mu + noise + dot(a, key, common_len(a, key))) as u64
}

/// Decoding of a phase: round to the nearest multiple of `Δ` and keep `message_bits` bits.
pub open spec fn decode_phase(message_bits: u32, ph: u64) -> int {
    (tmod(ph + delta_of(message_bits) / 2) / pow2((64 - message_bits) as nat) as int) % (pow2(
        message_bits as nat,
    ) as int)
}

/// Golden-ratio increment of the splitmix64 generator.
pub open spec fn golden() -> int {
    0x9E37_79B9_7F4A_7C15
}

/// The splitmix64 output function applied to a state.
pub open spec fn splitmix_mix(z: u64) -> u64 {
    let z1 = tmod((z ^ (z >> 30u64)) * 0xBF58_476D_1CE4_E5B9int) as u64;
    let z2 = tmod((z1 ^ (z1 >> 27u64)) * 0x94D0_49BB_1331_11EBint) as u64;
    z2 ^ (z2 >> 31u64)
}

/// Generator state after `k` steps from state `s`.
pub open spec fn rng_state(s: u64, k: nat) -> u64 {
    tmod(s + k * golden()) as u64
}

/// The `k`-th output (counting from 0) of the generator started in state `s`.
pub open spec fn rng_output(s: u64, k: nat) -> u64 {
    splitmix_mix(rng_state(s, k + 1))
}

/// Small reproducible PRNG (splitmix64).
pub struct Rng(u64);

impl View for Rng {
    type V = u64;

    closed spec fn view(&self) -> u64 {
        self.0
    }
}

/// Law: the generator state advances by the golden-ratio increment at every draw.
pub proof fn lemma_rng_state_step(s: u64, k: nat)
    ensures
        rng_state(s, k + 1) as int == tmod(rng_state(s, k) + golden()),
        rng_state(s, 0) == s,
{
    lemma_tmod_range(s + k * golden());
    lemma_tmod_add(s + k * golden(), golden());
    assert(s + k * golden() + golden() == s + (k + 1) * golden()) by (nonlinear_arith);
    lemma_tmod_small(s as int);
}

/// Multiplying by `c` and then by `c_inv` on the torus is the identity when
/// `c·c_inv = 1 + k·2^64`.
proof fn lemma_mul_undo(x: u64, c: int, c_inv: int, k: int)
    requires
        c * c_inv == 1 + k * torus_q(),
    ensures
        tmod(tmod(x * c) * c_inv) == x,
{
    crate::torus::lemma_tmod_mul(x * c, c_inv);
    assert(x * c * c_inv == x + torus_q() * (x * k)) by (nonlinear_arith)
        requires
            c * c_inv == 1 + k * torus_q(),
    ;
    crate::torus::lemma_tmod_multiple(x as int, x * k);
    lemma_tmod_small(x as int);
}

/// The inverse of [`splitmix_mix`]: each xor-shift and each odd multiplier undone in turn.
pub open spec fn splitmix_unmix(r: u64) -> u64 {
    let z2 = r ^ (r >> 31u64) ^ (r >> 62u64);
    let y1 = tmod(z2 * 0x319642B2D24D8EC3int) as u64;
    let z1 = y1 ^ (y1 >> 27u64) ^ (y1 >> 54u64);
    let y0 = tmod(z1 * 0x96DE1B173F119089int) as u64;
    y0 ^ (y0 >> 30u64) ^ (y0 >> 60u64)
}

/// Law: the splitmix64 output function is a bijection on 64-bit words: [`splitmix_unmix`]
/// undoes it, so two different states never give the same output.
pub proof fn lemma_splitmix_mix_injective(x: u64, y: u64)
    ensures
        splitmix_unmix(splitmix_mix(x)) == x,
        splitmix_mix(x) == splitmix_mix(y) ==> x == y,
{
    assert forall|z: u64| (#[trigger] splitmix_unmix(splitmix_mix(z))) == z by {
        let w0 = z ^ (z >> 30u64);
        let z1 = tmod(w0 * 0xBF58_476D_1CE4_E5B9int) as u64;
        let w1 = z1 ^ (z1 >> 27u64);
        let z2 = tmod(w1 * 0x94D0_49BB_1331_11EBint) as u64;
        let r = z2 ^ (z2 >> 31u64);
        assert(r ^ (r >> 31u64) ^ (r >> 62u64) == z2) by (bit_vector)
            requires
                r == z2 ^ (z2 >> 31u64),
        ;
        lemma_tmod_range(w1 * 0x94D0_49BB_1331_11EBint);
        lemma_mul_undo(w1, 0x94D0_49BB_1331_11EBint, 0x319642B2D24D8EC3int, 2077064247507883091);
        let y1 = tmod(z2 * 0x319642B2D24D8EC3int) as u64;
        assert(y1 == w1);
        assert(y1 ^ (y1 >> 27u64) ^ (y1 >> 54u64) == z1) by (bit_vector)
            requires
                y1 == z1 ^ (z1 >> 27u64),
        ;
        lemma_tmod_range(w0 * 0xBF58_476D_1CE4_E5B9int);
        lemma_mul_undo(w0, 0xBF58_476D_1CE4_E5B9int, 0x96DE1B173F119089int, 8125545580553827436);
        let y0 = tmod(z1 * 0x96DE1B173F119089int) as u64;
        assert(y0 == w0);
        assert(y0 ^ (y0 >> 30u64) ^ (y0 >> 60u64) == z) by (bit_vector)
            requires
                y0 == z ^ (z >> 30u64),
        ;
    }
    assert(splitmix_unmix(splitmix_mix(x)) == x);
    assert(splitmix_unmix(splitmix_mix(y)) == y);
}

/// The odd increment keeps states fewer than `2^64` steps apart distinct.
proof fn lemma_rng_states_distinct(s: u64, i: nat, j: nat)
    requires
        i < j,
        j - i < torus_q(),
    ensures
        rng_state(s, i) != rng_state(s, j),
{
    let d = j - i;
    let g = golden();
    let gi = 0xF1DE_83E1_9937_733Dint;
    assert(g * gi == 1 + 10771413168148108919int * torus_q());
    // equal states would make d·g vanish on the torus
    if rng_state(s, i) == rng_state(s, j) {
        lemma_tmod_range(s + i * g);
        lemma_tmod_range(s + j * g);
        lemma_tmod_sub(s + j * g, s + i * g);
        crate::torus::lemma_tmod_sub(tmod(s + j * g), s + i * g);
        assert(s + j * g - (s + i * g) == d * g) by (nonlinear_arith)
            requires
                d == j - i,
        ;
        assert(tmod(d * g) == 0) by {
            crate::torus::lemma_tmod_sub(tmod(s + j * g), tmod(s + i * g));
            lemma_tmod_small(0);
        }
        crate::torus::lemma_tmod_mul(d * g, gi);
        lemma_tmod_small(0);
        assert(d * g * gi == d + torus_q() * (d * 10771413168148108919int)) by (nonlinear_arith)
            requires
                g * gi == 1 + 10771413168148108919int * torus_q(),
        ;
        crate::torus::lemma_tmod_multiple(d as int, d * 10771413168148108919int);
        lemma_tmod_small(d as int);
    }
}

/// Law: the generator never repeats within a period. The odd increment makes the states of
/// any two draws fewer than `2^64` apart differ, and since the output function is a
/// bijection, so do their outputs: `x_i != x_j` for all `i != j < 2^64`.
pub proof fn lemma_rng_draws_distinct(s: u64, i: nat, j: nat)
    requires
        i < j,
        j - i < torus_q(),
    ensures
        rng_state(s, i) != rng_state(s, j),
        rng_output(s, i) != rng_output(s, j),
{
    lemma_rng_states_distinct(s, i, j);
    lemma_rng_states_distinct(s, i + 1, j + 1);
    lemma_splitmix_mix_injective(rng_state(s, i + 1), rng_state(s, j + 1));
}

impl Rng {
    /// A generator seeded with `seed` (forced odd).
    pub fn new(seed: u64) -> (r: Rng)
        ensures
            r@ == seed | 1,
    {
        Rng(seed | 1)
    }

    /// The next 64-bit output.
    pub fn next_u64(&mut self) -> (r: u64)
        ensures
            final(self)@ as int == tmod(old(self)@ + golden()),
            r == splitmix_mix(final(self)@),
    {
        proof {
            lemma_wrapping_add(self.0, 0x9E37_79B9_7F4A_7C15);
        }
        self.0 = self.0.wrapping_add(0x9E37_79B9_7F4A_7C15);
        let mut z = self.0;
        proof {
            lemma_wrapping_mul(z ^ (z >> 30u64), 0xBF58_476D_1CE4_E5B9);
        }
        z = (z ^ (z >> 30)).wrapping_mul(0xBF58_476D_1CE4_E5B9);
        proof {
            lemma_wrapping_mul(z ^ (z >> 27u64), 0x94D0_49BB_1331_11EB);
        }
        z = (z ^ (z >> 27)).wrapping_mul(0x94D0_49BB_1331_11EB);
        z ^ (z >> 31)
    }

    /// The low bit of the next output.
    pub fn next_bit(&mut self) -> (r: u64)
        ensures
            final(self)@ as int == tmod(old(self)@ + golden()),
            r == splitmix_mix(final(self)@) % 2,
            r <= 1,
    {
        let x = self.next_u64();
        assert(x & 1 == x % 2) by (bit_vector);
        x & 1
    }
}

/// Draw the `n` uniform mask coefficients of a fresh LWE sample.
pub fn sample_mask(rng: &mut Rng, n: usize) -> (a: Vec<u64>)
    ensures
        a@ == Seq::new(n as nat, |i: int| rng_output(old(rng)@, i as nat)),
        final(rng)@ == rng_state(old(rng)@, n as nat),
{
    let mut a: Vec<u64> = Vec::new();
    let mut i: usize = 0;
    proof {
        lemma_rng_state_step(rng@, 0);
    }
    while i < n
        invariant
            i <= n,
            rng@ == rng_state(old(rng)@, i as nat),
            a@ == Seq::new(i as nat, |j: int| rng_output(old(rng)@, j as nat)),
        decreases n - i,
    {
        proof {
            lemma_rng_state_step(old(rng)@, i as nat);
        }
        let x = rng.next_u64();
        a.push(x);
        proof {
            lemma_tmod_range(rng_state(old(rng)@, i as nat) + golden());
            assert(a@ =~= Seq::new((i + 1) as nat, |j: int| rng_output(old(rng)@, j as nat)));
        }
        i = i + 1;
    }
    a
}

/// Generate the LWE secret key: `n` bits from the generator seeded with `seed`.
pub fn gen_secret_key(p: Params, seed: u64) -> (sk: SecretKey)
    ensures
        sk.lwe@ == Seq::new(p.n as nat, |i: int| (rng_output(seed | 1, i as nat) % 2) as u64),
{
    let mut rng = Rng::new(seed);
    let mut lwe: Vec<u64> = Vec::new();
    let mut i: usize = 0;
    proof {
        lemma_rng_state_step(rng@, 0);
    }
    while i < p.n
        invariant
            i <= p.n,
            rng@ == rng_state(seed | 1, i as nat),
            lwe@ == Seq::new(i as nat, |j: int| (rng_output(seed | 1, j as nat) % 2) as u64),
        decreases p.n - i,
    {
        proof {
            lemma_rng_state_step(seed | 1, i as nat);
        }
        let bit = rng.next_bit();
        lwe.push(bit);
        proof {
            lemma_tmod_range(rng_state(seed | 1, i as nat) + golden());
            assert(lwe@ =~= Seq::new(
                (i + 1) as nat,
                |j: int| (rng_output(seed | 1, j as nat) % 2) as u64,
            ));
        }
        i = i + 1;
    }
    SecretKey { lwe }
}

/// LWE encryption of the torus value `mu` under `key` with mask `a` and noise `noise`.
pub fn lwe_encrypt_with_noise(key: &Vec<u64>, mu: u64, a: Vec<u64>, noise: u64) -> (ct: Lwe)
    ensures
        ct.a@ == a@,
        ct.b == lwe_body(key@, mu, a@, noise),
{
    let mut b = mu.wrapping_add(noise);
    proof {
        lemma_wrapping_add(mu, noise);
    }
    let len = if a.len() < key.len() {
        a.len()
    } else {
        key.len()
    };
    let mut i: usize = 0;
    while i < len
        invariant
            len == common_len(a@, key@),
            i <= len,
            b as int == tmod(mu + noise + dot(a@, key@, i as nat)),
        decreases len - i,
    {
        proof {
            lemma_wrapping_mul(a@[i as int], key@[i as int]);
            lemma_wrapping_add(b, (a@[i as int] * key@[i as int]) as u64);
            lemma_tmod_add(mu + noise + dot(a@, key@, i as nat), a@[i as int] * key@[i as int]);
            lemma_tmod_add(b as int, a@[i as int] * key@[i as int]);
            lemma_tmod_range(a@[i as int] * key@[i as int]);
            lemma_tmod_add(b as int + tmod(a@[i as int] * key@[i as int]) - tmod(a@[i as int] * key@[i as int]), a@[i as int] * key@[i as int]);
        }
        b = b.wrapping_add(a[i].wrapping_mul(key[i]));
        i = i + 1;
    }
    proof {
        lemma_tmod_range(mu + noise + dot(a@, key@, len as nat));
    }
    Lwe { a, b }
}

/// Encrypt a message `m` as the torus value `m·Δ` under `sk` with mask `a` and noise `noise`
/// (the noise a Gaussian sampler drew after the mask).
pub fn encrypt_with_noise(p: Params, sk: &SecretKey, message: u64, a: Vec<u64>, noise: u64) -> (ct: Lwe)
    requires
        1 <= p.message_bits <= 64,
    ensures
        ct.a@ == a@,
        ct.b == lwe_body(sk.lwe@, tmod(message * delta_of(p.message_bits)) as u64, a@, noise),
{
    let d = p.delta();
    let mu = message.wrapping_mul(d);
    proof {
        lemma_wrapping_mul(message, d);
    }
    lwe_encrypt_with_noise(&sk.lwe, mu, a, noise)
}

/// The phase `b − <a, s>` of an LWE under `sk`.
pub fn phase(sk: &SecretKey, ct: &Lwe) -> (ph: u64)
    ensures
        ph == lwe_phase(sk.lwe@, ct.a@, ct.b),
{
    let mut ph = ct.b;
    let len = if ct.a.len() < sk.lwe.len() {
        ct.a.len()
    } else {
        sk.lwe.len()
    };
    proof {
        lemma_tmod_small(ct.b as int);
    }
    let mut i: usize = 0;
    while i < len
        invariant
            len == common_len(ct.a@, sk.lwe@),
            i <= len,
            ph as int == tmod(ct.b - dot(ct.a@, sk.lwe@, i as nat)),
        decreases len - i,
    {
        proof {
            let prod = ct.a@[i as int] * sk.lwe@[i as int];
            lemma_wrapping_mul(ct.a@[i as int], sk.lwe@[i as int]);
            lemma_wrapping_sub(ph, tmod(prod) as u64);
            lemma_tmod_range(prod);
            lemma_tmod_sub(ct.b - dot(ct.a@, sk.lwe@, i as nat), prod);
            lemma_tmod_sub(ph as int, prod);
        }
        ph = ph.wrapping_sub(ct.a[i].wrapping_mul(sk.lwe[i]));
        i = i + 1;
    }
    proof {
        lemma_tmod_range(ct.b - dot(ct.a@, sk.lwe@, len as nat));
    }
    ph
}

/// Decode a phase to a message in `[0, 2^message_bits)`.
pub fn decode(p: Params, ph: u64) -> (m: u64)
    requires
        1 <= p.message_bits <= 63,
    ensures
        m as int == decode_phase(p.message_bits, ph),
{
    let d = p.delta();
    proof {
        lemma_u64_shr_is_div(d, 1);
        lemma2_to64();
        lemma_wrapping_add(ph, d >> 1u64);
        lemma_u64_shr_is_div(ph.wrapping_add(d >> 1), (64 - p.message_bits) as u64);
        lemma_u64_pow2_no_overflow(p.message_bits as nat);
        lemma_u64_shl_is_mul(1, p.message_bits as u64);
        lemma_u64_low_bits_mask_is_mod(
            ph.wrapping_add(d >> 1) >> ((64 - p.message_bits) as u64),
            p.message_bits as nat,
        );
    }
    (ph.wrapping_add(d >> 1) >> (64 - p.message_bits)) & ((1 << p.message_bits) - 1)
}

/// Decrypt + decode an LWE under `sk`.
pub fn decrypt(p: Params, sk: &SecretKey, ct: &Lwe) -> (m: u64)
    requires
        1 <= p.message_bits <= 63,
    ensures
        m as int == decode_phase(p.message_bits, lwe_phase(sk.lwe@, ct.a@, ct.b)),
{
    decode(p, phase(sk, ct))
}

/// Residual noise of `ct`: the circular distance of its phase from the ideal
/// `expected_message · Δ` (lower = cleaner refresh).
pub fn output_noise(p: Params, sk: &SecretKey, ct: &Lwe, expected_message: u64) -> (e: u64)
    requires
        1 <= p.message_bits <= 64,
    ensures
        ({
            let ideal = tmod(expected_message * delta_of(p.message_bits));
            let ph = lwe_phase(sk.lwe@, ct.a@, ct.b);
            let up = tmod(ph - ideal);
            let down = tmod(ideal - ph);
            e as int == if up <= down {
                up
            } else {
                down
            }
        }),
{
    let d = p.delta();
    let ideal = expected_message.wrapping_mul(d);
    let ph = phase(sk, ct);
    proof {
        lemma_wrapping_mul(expected_message, d);
        lemma_wrapping_sub(ph, ideal);
        lemma_wrapping_sub(ideal, ph);
    }
    let up = ph.wrapping_sub(ideal);
    let down = ideal.wrapping_sub(ph);
    if up <= down {
        up
    } else {
        down
    }
}

/// Signed residual noise of `ct`: its phase minus the ideal `expected_message · Δ`, as a
/// centered signed word.
pub fn output_noise_signed(p: Params, sk: &SecretKey, ct: &Lwe, expected_message: u64) -> (e: i64)
    requires
        1 <= p.message_bits <= 64,
    ensures
        e as int == centered(
            tmod(lwe_phase(sk.lwe@, ct.a@, ct.b) - tmod(expected_message * delta_of(p.message_bits)))
                as u64,
        ),
{
    let d = p.delta();
    let ideal = expected_message.wrapping_mul(d);
    let ph = phase(sk, ct);
    proof {
        lemma_wrapping_mul(expected_message, d);
        lemma_wrapping_sub(ph, ideal);
    }
    let diff = ph.wrapping_sub(ideal);
    proof {
        if diff < 0x8000_0000_0000_0000 {
            assert((diff as i64) as int == diff) by (bit_vector)
                requires
                    diff < 0x8000_0000_0000_0000u64,
            ;
        } else {
            assert((diff as i64) as int == diff - 0x1_0000_0000_0000_0000) by (bit_vector)
                requires
                    diff >= 0x8000_0000_0000_0000u64,
            ;
        }
    }
    diff as i64
}

/// Law: the phase of an encryption is its plaintext plus its noise: under the key it was made
/// with, `(a, lwe_body(key, μ, a, e))` has phase `μ + e` on the torus, whatever the mask.
pub proof fn lemma_encryption_phase(key: Seq<u64>, mu: u64, a: Seq<u64>, noise: u64)
    ensures
        lwe_phase(key, a, lwe_body(key, mu, a, noise)) as int == tmod(mu + noise),
{
    let dt = dot(a, key, common_len(a, key));
    lemma_tmod_range(mu + noise + dt);
    lemma_tmod_sub(mu + noise + dt, dt);
    lemma_tmod_range(lwe_body(key, mu, a, noise) - dt);
}

/// Law: decoding is exact within half a plaintext step. A phase equal on the torus to
/// `m·Δ + e`, with `m < 2^message_bits` and `-Δ/2 <= e < Δ/2`, decodes to `m`.
pub proof fn lemma_decode_near(message_bits: u32, message: u64, e: int, ph: u64)
    requires
        1 <= message_bits <= 63,
        message < pow2(message_bits as nat),
        -(delta_of(message_bits) / 2) <= e < delta_of(message_bits) / 2,
        ph as int == tmod(message * delta_of(message_bits) + e),
    ensures
        decode_phase(message_bits, ph) == message,
{
    let d = delta_of(message_bits);
    let s = (64 - message_bits) as nat;
    let mb = message_bits as nat;
    lemma_pow2_mul_64(s, mb);
    lemma_pow2_pos(s);
    lemma_pow2_pos(mb);
    let md = message * d;
    assert(0 <= md && md + d <= torus_q()) by (nonlinear_arith)
        requires
            0 <= message < pow2(mb),
            md == message * d,
            d == pow2(s),
            d > 0,
            pow2(s) * pow2(mb) == torus_q(),
    ;
    lemma_tmod_add(md + e, d / 2);
    // m·Δ + e + Δ/2 lies in [m·Δ, (m+1)·Δ) ⊂ [0, 2^64)
    lemma_pow2_unfold(s);
    lemma_tmod_small(md + e + d / 2);
    assert(tmod(ph + d / 2) == md + e + d / 2);
    lemma_fundamental_div_mod_converse(md + e + d / 2, d, message as int, e + d / 2);
    lemma_small_mod(message as nat, pow2(mb));
}

/// Law: an LWE encryption of a message `m < 2^message_bits` whose noise lies within half a
/// plaintext step (`-Δ/2 <= e < Δ/2`) decrypts back to `m`, whatever the mask and key.
pub proof fn lemma_decrypt_encrypt(
    message_bits: u32,
    key: Seq<u64>,
    message: u64,
    a: Seq<u64>,
    noise: u64,
)
    requires
        1 <= message_bits <= 63,
        message < pow2(message_bits as nat),
        -(delta_of(message_bits) / 2) <= centered(noise) < delta_of(message_bits) / 2,
    ensures
        decode_phase(
            message_bits,
            lwe_phase(
                key,
                a,
                lwe_body(key, tmod(message * delta_of(message_bits)) as u64, a, noise),
            ),
        ) == message,
{
    let d = delta_of(message_bits);
    let s = (64 - message_bits) as nat;
    let mb = message_bits as nat;
    lemma_pow2_mul_64(s, mb);
    lemma_pow2_pos(s);
    let md = message * d;
    assert(0 <= md && md + d <= torus_q()) by (nonlinear_arith)
        requires
            0 <= message < pow2(mb),
            md == message * d,
            d == pow2(s),
            d > 0,
            pow2(s) * pow2(mb) == torus_q(),
    ;
    lemma_tmod_small(md);
    let body = lwe_body(key, md as u64, a, noise);
    // the phase is m·Δ + e on the torus
    lemma_encryption_phase(key, md as u64, a, noise);
    let e = centered(noise);
    assert(tmod(md + noise) == tmod(md + e)) by {
        if noise >= 0x8000_0000_0000_0000 {
            crate::torus::lemma_tmod_multiple(md + e, 1);
        }
    }
    lemma_decode_near(message_bits, message, e, lwe_phase(key, a, body));
}

proof fn lemma_pow2_mul_64(s: nat, mb: nat)
    requires
        s + mb == 64,
    ensures
        pow2(s) * pow2(mb) == torus_q(),
{
    lemma_pow2_adds(s, mb);
    lemma2_to64_rest();
}

} // verus!
