use bootstrap::algorithm::gadget::{decompose, decompose_into, decomposition_offset, MAX_L};
use bootstrap::algorithm::glwe::{
    cmux_accumulate, cmux_prepare, glwe_mul_monomial_into, poly_add_assign, sample_extract, Glwe,
};
use bootstrap::algorithm::keys::{add_gadget_term, flatten_key, gen_glwe_key, ks_plaintext};
use bootstrap::algorithm::params;
use bootstrap::algorithm::pbs::{
    bootstrap_accumulator, bootstrap_extract, build_test_poly, gadget_weight, key_switch,
    mod_switch,
};
use bootstrap::algorithm::poly::{mul_monomial, mul_monomial_into};
use bootstrap::harness::fixtures;
use bootstrap::harness::params::{
    decrypt, encrypt_with_noise, gen_secret_key, lwe_encrypt_with_noise, phase, sample_mask, Lut,
    Lwe, Params, Rng, SecretKey,
};

fn neg(x: u64) -> u64 {
    0u64.wrapping_sub(x)
}

fn recompose(digits: &[i64], l: usize, baselog: u32) -> u64 {
    let mut acc = 0u64;
    for j in 0..l {
        let w = 1u64 << (64 - (j as u32 + 1) * baselog);
        acc = acc.wrapping_add((digits[j] as u64).wrapping_mul(w));
    }
    acc
}

fn test_params(poly: usize, message_bits: u32) -> Params {
    Params {
        n: 4,
        k: 1,
        poly,
        pbs_l: 3,
        pbs_baselog: 7,
        ks_l: 3,
        ks_baselog: 4,
        message_bits,
        lwe_sigma: 1,
        glwe_sigma: 1,
    }
}

#[test]
fn submission_params() {
    let p = params();
    assert_eq!((p.n, p.k, p.poly), (700, 1, 1024));
    assert_eq!((p.pbs_l, p.pbs_baselog, p.ks_l, p.ks_baselog), (3, 7, 4, 5));
    assert_eq!(p.message_bits, 3);
    assert_eq!(p.lwe_sigma, 1u64 << 48);
    assert_eq!(p.glwe_sigma, 1u64 << 39);
}

#[test]
fn decompose_exact_values() {
    let d = decompose(1u64 << 63, 1, 1);
    assert_eq!(d, [-1, 0, 0, 0, 0, 0, 0, 0]);
    let d = decompose(0x1234_5678_9ABC_DEF0, 2, 8);
    assert_eq!(&d[..2], &[0x12, 0x34]);
    // rounding up carries into the upper digit
    let d = decompose(0x12FF_8000_0000_0000, 2, 8);
    assert_eq!(&d[..2], &[0x13, 0]);
    // a digit at or above half the base is balanced down
    let d = decompose(0x01F0_0000_0000_0000, 2, 8);
    assert_eq!(&d[..2], &[0x02, -0x10]);
    assert_eq!(MAX_L, 8);
}

#[test]
fn decompose_recomposes_within_half_a_quantum() {
    let mut r = Rng::new(3);
    for &(l, b) in &[(3usize, 7u32), (4, 5), (2, 12), (8, 7), (1, 63), (63, 1)] {
        for _ in 0..200 {
            let v = r.next_u64();
            let d = decompose(v, l, b);
            let lw = if l < MAX_L { l } else { MAX_L };
            for (j, x) in d.iter().enumerate() {
                if j >= lw {
                    assert_eq!(*x, 0);
                } else {
                    assert!(-(1i128 << (b - 1)) <= *x as i128 && (*x as i128) < (1i128 << (b - 1)));
                }
            }
            if l <= MAX_L {
                let s = 64 - l as u32 * b;
                let err = recompose(&d, l, b).wrapping_sub(v) as i64 as i128;
                assert!(-(1i128 << (s - 1)) < err && err <= (1i128 << (s - 1)), "v={v:#x}");
            }
        }
    }
    // the wrap-around corner: everything rounds to zero
    assert_eq!(decompose(u64::MAX, 63, 1), [0; 8]);
}

#[test]
fn branchless_digits_recompose_rounded_value() {
    let (l, b) = (3usize, 7u32);
    let offset = decomposition_offset(l, b);
    assert_eq!(offset, (1u64 << 63) + (1u64 << 56) + (1u64 << 49) + (1u64 << 42));
    let mut r = Rng::new(11);
    let comp: Vec<u64> = (0..16).map(|_| r.next_u64()).collect();
    let mut digits = vec![vec![99i64; 20]; 4];
    decompose_into(&comp, l, b, offset, &mut digits);
    for ci in 0..16 {
        let ds: Vec<i64> = (0..l).map(|lev| digits[lev][ci]).collect();
        for &x in &ds {
            assert!((-64..64).contains(&x));
        }
        let shift = 64 - 21;
        let rounded = ((comp[ci] as u128 + (1u128 << (shift - 1))) >> shift << shift) as u64;
        assert_eq!(recompose(&ds, l, b), rounded);
    }
    // untouched entries keep their values
    assert_eq!(digits[0][16], 99);
    assert_eq!(digits[3][0], 99);
    // one level of one bit: 2^62 rounds up to 2^63
    let off1 = decomposition_offset(1, 1);
    assert_eq!(off1, (1u64 << 63) + (1u64 << 62));
    let mut d1 = vec![vec![0i64; 1]];
    decompose_into(&[1u64 << 62], 1, 1, off1, &mut d1);
    assert_eq!(recompose(&d1[0], 1, 1), 1u64 << 63);
    // all 64 bits: nothing to round
    assert_eq!(decomposition_offset(8, 8), recompose(&[128; 8], 8, 8));
}

#[test]
fn monomial_rotation_is_negacyclic() {
    let p = [1u64, 2, 3, 4];
    assert_eq!(mul_monomial(&p, 0), vec![1, 2, 3, 4]);
    assert_eq!(mul_monomial(&p, 1), vec![neg(4), 1, 2, 3]);
    assert_eq!(mul_monomial(&p, 4), vec![neg(1), neg(2), neg(3), neg(4)]);
    assert_eq!(mul_monomial(&p, 5), vec![4, neg(1), neg(2), neg(3)]);
    assert_eq!(mul_monomial(&p, 8), vec![1, 2, 3, 4]);
    assert_eq!(mul_monomial(&p, 9), mul_monomial(&p, 1));
}

#[test]
fn rotation_in_place_matches_allocating_rotation() {
    let p: Vec<u64> = (1..=8).collect();
    for r in 0..20usize {
        let mut dst = vec![0u64; 8];
        mul_monomial_into(&p, r, &mut dst);
        assert_eq!(dst, mul_monomial(&p, r), "r={r}");
    }
    // a longer destination keeps its tail when the rotation wraps
    let mut dst = vec![7u64; 10];
    mul_monomial_into(&p, 11, &mut dst);
    assert_eq!(&dst[..8], &mul_monomial(&p, 11)[..]);
    assert_eq!(&dst[8..], &[7, 7]);
}

#[test]
fn rotations_compose() {
    let p: Vec<u64> = (10..18).collect();
    for r in 0..16usize {
        for s in 0..16usize {
            let twice = mul_monomial(&mul_monomial(&p, r), s);
            assert_eq!(twice, mul_monomial(&p, (r + s) % 16));
        }
    }
}

#[test]
fn mod_switch_rounds_to_2n() {
    assert_eq!(mod_switch(0, 11), 0);
    assert_eq!(mod_switch(1u64 << 63, 11), 1024);
    assert_eq!(mod_switch(u64::MAX, 11), 0);
    assert_eq!(mod_switch((1u64 << 53) - (1u64 << 52), 11), 1);
    assert_eq!(mod_switch((1u64 << 52) - 1, 11), 0);
    assert_eq!(mod_switch(1u64 << 62, 4), 4);
}

#[test]
fn test_polynomial_encodes_the_lut() {
    let p = test_params(8, 2);
    let d = 1u64 << 62;
    let tp = build_test_poly(&p, &Lut { values: vec![0, 1] });
    assert_eq!(tp, vec![0, 0, d, d, d, d, 0, 0]);
    // constant coefficient after X^(-phi): lut[m]·Δ for phi near m·box (box = 4)
    for phi in 0..16usize {
        let m = ((phi + 2) % 16) / 4;
        let want = if m < 2 { [0, d][m] } else { 0 };
        let rotated = mul_monomial(&tp, 16 - phi);
        if m < 2 {
            assert_eq!(rotated[0], want, "phi={phi}");
        }
    }
}

#[test]
fn accumulator_starts_at_the_rotated_test_polynomial() {
    let p = test_params(8, 2);
    let d = 1u64 << 62;
    let lut = Lut { values: vec![0, 1] };
    let ct = Lwe { a: vec![0; 4], b: d };
    let acc = bootstrap_accumulator(&p, &ct, &lut);
    assert_eq!(acc.mask, vec![vec![0u64; 8]]);
    assert_eq!(acc.body, mul_monomial(&build_test_poly(&p, &lut), 12));
    assert_eq!(acc.body[0], d);
}

#[test]
fn glwe_components_and_trivial() {
    let mut g = Glwe::trivial(2, vec![5, 6]);
    assert_eq!(g.mask, vec![vec![0, 0], vec![0, 0]]);
    assert_eq!(g.comp(1), &[0, 0]);
    assert_eq!(g.comp(2), &[5, 6]);
    assert_eq!(g.comp(9), &[5, 6]);
    g.comp_mut(0)[1] = 3;
    g.comp_mut(7)[0] = 4;
    assert_eq!(g.mask[0], vec![0, 3]);
    assert_eq!(g.body, vec![4, 6]);
}

#[test]
fn glwe_rotation_rotates_every_component() {
    let src = Glwe { mask: vec![vec![1, 2, 3, 4]], body: vec![5, 6, 7, 8] };
    let mut dst = Glwe::trivial(1, vec![0; 4]);
    glwe_mul_monomial_into(&src, 3, &mut dst);
    assert_eq!(dst.mask[0], mul_monomial(&[1, 2, 3, 4], 3));
    assert_eq!(dst.body, mul_monomial(&[5, 6, 7, 8], 3));
}

#[test]
fn cmux_selects_between_rotated_and_unchanged() {
    let acc = Glwe { mask: vec![vec![1, 2, 3, 4]], body: vec![9, 8, 7, 6] };
    let mut rotated = Glwe::trivial(1, vec![0; 4]);
    let mut diff = Glwe::trivial(1, vec![0; 4]);
    cmux_prepare(&acc, 6, &mut rotated, &mut diff);
    assert_eq!(rotated.body, mul_monomial(&acc.body, 6));
    assert_eq!(diff.body[0], rotated.body[0].wrapping_sub(acc.body[0]));
    // selector 1: add the difference back
    let mut one = acc.clone();
    cmux_accumulate(&mut one, &diff);
    assert_eq!(one.mask, rotated.mask);
    assert_eq!(one.body, rotated.body);
    // selector 0: add nothing
    let mut zero = acc.clone();
    cmux_accumulate(&mut zero, &Glwe::trivial(1, vec![0; 4]));
    assert_eq!(zero.body, acc.body);
}

#[test]
fn sample_extract_keeps_the_constant_phase() {
    let p = test_params(4, 2);
    let glwe = Glwe { mask: vec![vec![1, 2, 3, 4]], body: vec![9, 0, 0, 0] };
    let ct = sample_extract(&p, &glwe);
    assert_eq!(ct.a, vec![1, neg(4), neg(3), neg(2)]);
    assert_eq!(ct.b, 9);
    // body[0] - (mask·key)[0] with key = 1 + X + X^3: 9 - (1 - 2 - 4) = 14
    let sk = SecretKey { lwe: vec![1, 1, 0, 1] };
    assert_eq!(phase(&sk, &ct), 14);
}

#[test]
fn key_switch_moves_a_ciphertext_to_the_output_key() {
    let p = test_params(4, 3);
    let in_key = vec![1u64, 0, 1, 1];
    let out_key = vec![0u64, 1, 1, 0];
    let mut rng = Rng::new(77);
    let ksk: Vec<Vec<Lwe>> = (0..4)
        .map(|j| {
            (0..p.ks_l)
                .map(|lev| {
                    let mu = ks_plaintext(in_key[j], lev, p.ks_baselog);
                    let a = sample_mask(&mut rng, p.n);
                    lwe_encrypt_with_noise(&out_key, mu, a, 0)
                })
                .collect()
        })
        .collect();
    let in_sk = SecretKey { lwe: in_key.clone() };
    let out_sk = SecretKey { lwe: out_key.clone() };
    for m in 0..8u64 {
        let a = sample_mask(&mut rng, 4);
        let ct = encrypt_with_noise(p, &in_sk, m, a, 12345);
        assert_eq!(decrypt(p, &in_sk, &ct), m);
        let out = key_switch(&p, &ksk, &ct);
        assert_eq!(out.a.len(), 4);
        assert_eq!(decrypt(p, &out_sk, &out), m, "m={m}");
    }
    // extraction followed by key switching
    let glwe = Glwe { mask: vec![vec![0, 0, 0, 0]], body: vec![5u64 << 61, 0, 0, 0] };
    let out = bootstrap_extract(&p, &glwe, &ksk);
    assert_eq!(decrypt(p, &out_sk, &out), 5);
}

#[test]
fn key_generation_helpers() {
    let mut rng = Rng::new(42);
    let key = gen_glwe_key(&mut rng, 2, 4);
    assert_eq!(key, vec![vec![0, 1, 1, 1], vec![1, 0, 0, 0]]);
    assert_eq!(flatten_key(&key), vec![0, 1, 1, 1, 1, 0, 0, 0]);
    assert_eq!(gadget_weight(2, 7), 1u64 << 43);
    assert_eq!(ks_plaintext(1, 0, 5), 1u64 << 59);
    assert_eq!(ks_plaintext(0, 3, 5), 0);
    let mut g = Glwe::trivial(1, vec![1, 2]);
    add_gadget_term(&mut g, 1, 1, 0, 7);
    assert_eq!(g.body, vec![1 + (1u64 << 57), 2]);
    add_gadget_term(&mut g, 0, 3, 1, 7);
    assert_eq!(g.mask[0], vec![3u64 << 50, 0]);
}

#[test]
fn polynomial_accumulation_over_common_length() {
    let mut a = vec![1u64, 2, 3];
    poly_add_assign(&mut a, &[10, 20]);
    assert_eq!(a, vec![11, 22, 3]);
    let mut b = vec![u64::MAX];
    poly_add_assign(&mut b, &[2, 5]);
    assert_eq!(b, vec![1]);
}

/// Negacyclic product `a · s` in `Z_q[X] / (X^N + 1)`, computed exactly.
fn ring_mul_exact(a: &[u64], s: &[u64]) -> Vec<u64> {
    let n = a.len();
    let mut out = vec![0u64; n];
    for (j, &sj) in s.iter().enumerate() {
        if sj == 0 {
            continue;
        }
        for (i, &ai) in a.iter().enumerate() {
            let t = (ai).wrapping_mul(sj);
            if i + j < n {
                out[i + j] = out[i + j].wrapping_add(t);
            } else {
                out[i + j - n] = out[i + j - n].wrapping_sub(t);
            }
        }
    }
    out
}

#[test]
fn exact_cmux_chain_and_extraction_apply_every_fixture_lut() {
    let p = bootstrap::algorithm::params();
    let sk = gen_secret_key(p, 0x5EED_5EED);
    let mut rng = Rng::new(0xB0_07);
    let glwe_key = gen_glwe_key(&mut rng, p.k, p.poly);
    let flat = flatten_key(&glwe_key);
    // a noiseless key-switching key from the flattened GLWE key to the LWE key
    let ksk: Vec<Vec<Lwe>> = (0..flat.len())
        .map(|j| {
            (0..p.ks_l)
                .map(|lev| {
                    let mu = ks_plaintext(flat[j], lev, p.ks_baselog);
                    lwe_encrypt_with_noise(&sk.lwe, mu, sample_mask(&mut rng, p.n), 0)
                })
                .collect()
        })
        .collect();
    let log2_2n = (2 * p.poly).trailing_zeros();
    let delta = p.delta();
    for fx in fixtures::all() {
        let m = fx.message;
        let a = sample_mask(&mut rng, p.n);
        let ct = encrypt_with_noise(p, &sk, m, a, 1u64 << 40);
        let mut acc = bootstrap_accumulator(&p, &ct, &fx.lut);
        let mut rotated = Glwe::trivial(p.k, vec![0u64; p.poly]);
        let mut diff = Glwe::trivial(p.k, vec![0u64; p.poly]);
        // blind rotation with exact products: the GGSW of s_i selects the difference or nothing
        for i in 0..p.n {
            cmux_prepare(&acc, mod_switch(ct.a[i], log2_2n), &mut rotated, &mut diff);
            if sk.lwe[i] == 1 {
                cmux_accumulate(&mut acc, &diff);
            }
        }
        let want = fx.lut.values[m as usize];
        assert_eq!(acc.mask, vec![vec![0u64; p.poly]; p.k], "{}", fx.name);
        assert_eq!(acc.body[0], want.wrapping_mul(delta), "{}", fx.name);
        // re-randomise with a noiseless GLWE encryption of zero, then extract and key-switch
        let mut body = acc.body.clone();
        for c in 0..p.k {
            let mask = sample_mask(&mut rng, p.poly);
            poly_add_assign(&mut body, &ring_mul_exact(&mask, &glwe_key[c]));
            poly_add_assign(&mut acc.mask[c], &mask);
        }
        acc.body = body;
        let out = bootstrap_extract(&p, &acc, &ksk);
        assert_eq!(out.a.len(), p.n);
        assert_eq!(decrypt(p, &sk, &out), want, "{}", fx.name);
    }
}

#[test]
fn mod_switch_error_is_within_half_a_step() {
    let mut r = Rng::new(21);
    for &log2 in &[1u32, 4, 11, 20, 63] {
        let w = 1u64 << (64 - log2);
        for _ in 0..500 {
            let x = r.next_u64();
            let xt = mod_switch(x, log2);
            assert!((xt as u64) < (1u64 << log2));
            let err = (xt as u64).wrapping_mul(w).wrapping_sub(x) as i64 as i128;
            assert!(-((w / 2) as i128) < err && err <= (w / 2) as i128, "x={x:#x} L={log2}");
        }
    }
}
