use bootstrap::harness::eval::{fixture_ok, median, message_width_ok};
use bootstrap::harness::fixtures::{all, msg_modulus, timing_lut, TIMING_MESSAGE, TIMING_SEED};
use bootstrap::harness::params::{
    decode, decrypt, encrypt_with_noise, gen_secret_key, lwe_encrypt_with_noise, output_noise,
    output_noise_signed, params, phase, sample_mask, Lwe, Params, Rng, SecretKey,
    REQUIRED_MESSAGE_BITS,
};

fn small_params(message_bits: u32) -> Params {
    Params {
        n: 8,
        k: 1,
        poly: 16,
        pbs_l: 2,
        pbs_baselog: 8,
        ks_l: 3,
        ks_baselog: 4,
        message_bits,
        lwe_sigma: 64,
        glwe_sigma: 64,
    }
}

#[test]
fn reference_params_and_scaling() {
    let p = params();
    assert_eq!(p.n, 500);
    assert_eq!(p.message_bits, 3);
    assert_eq!(p.delta(), 1u64 << 61);
    assert_eq!(p.msg_modulus(), 4);
    assert_eq!(REQUIRED_MESSAGE_BITS, 3);
}

#[test]
fn rng_matches_splitmix64() {
    let mut r = Rng::new(0);
    assert_eq!(r.next_u64(), 0x910a_2dec_8902_5cc1);
    assert_eq!(r.next_u64(), 0xbeeb_8da1_658e_ec67);
    assert_eq!(r.next_u64(), 0xf893_a2ee_fb32_555e);
    // seed 1 gives the same odd state as seed 0
    let mut r1 = Rng::new(1);
    assert_eq!(r1.next_u64(), 0x910a_2dec_8902_5cc1);
}

#[test]
fn next_bit_is_the_low_bit() {
    let mut r = Rng::new(0);
    let bits: Vec<u64> = (0..8).map(|_| r.next_bit()).collect();
    assert_eq!(bits, vec![1, 1, 0, 1, 1, 0, 1, 1]);
}

#[test]
fn secret_key_is_binary_and_reproducible() {
    let p = small_params(2);
    let sk = gen_secret_key(p, 42);
    assert_eq!(sk.lwe, vec![0, 1, 1, 1, 1, 0, 0, 0]);
    let again = gen_secret_key(p, 42);
    assert_eq!(sk.lwe, again.lwe);
}

#[test]
fn sample_mask_draws_generator_outputs() {
    let mut r = Rng::new(0);
    let a = sample_mask(&mut r, 2);
    assert_eq!(a, vec![0x910a_2dec_8902_5cc1, 0xbeeb_8da1_658e_ec67]);
    assert_eq!(r.next_u64(), 0xf893_a2ee_fb32_555e);
}

#[test]
fn phase_of_an_encryption_is_message_plus_noise() {
    let key = vec![1, 0, 1];
    let ct = lwe_encrypt_with_noise(&key, 1000, vec![5, 7, 11], 3);
    assert_eq!(ct.b, 1000 + 3 + 5 + 11);
    let sk = SecretKey { lwe: key };
    assert_eq!(phase(&sk, &ct), 1003);
    // wrapping: a negative phase
    let ct2 = Lwe { a: vec![10, 0, 0], b: 3 };
    assert_eq!(phase(&sk, &ct2), 3u64.wrapping_sub(10));
}

#[test]
fn decode_rounds_to_the_nearest_step() {
    let p = small_params(3);
    let d = p.delta();
    assert_eq!(decode(p, 0), 0);
    assert_eq!(decode(p, 2 * d + d / 2 - 1), 2);
    assert_eq!(decode(p, 2 * d + d / 2), 3);
    assert_eq!(decode(p, 0u64.wrapping_sub(d / 2)), 0);
    assert_eq!(decode(p, 0u64.wrapping_sub(d / 2 + 1)), 7);
}

#[test]
fn decrypt_inverts_encrypt_with_small_noise() {
    let p = small_params(3);
    let sk = gen_secret_key(p, 7);
    let half = p.delta() / 2;
    for m in 0..8u64 {
        for &e in &[0u64, 1, half - 1, 0u64.wrapping_sub(half), 0u64.wrapping_sub(1)] {
            let mut r = Rng::new(100 + m);
            let a = sample_mask(&mut r, p.n);
            let ct = encrypt_with_noise(p, &sk, m, a, e);
            assert_eq!(decrypt(p, &sk, &ct), m, "m={m} e={e}");
        }
    }
}

#[test]
fn noise_beyond_half_a_step_changes_the_message() {
    let p = small_params(3);
    let sk = gen_secret_key(p, 7);
    let mut r = Rng::new(5);
    let a = sample_mask(&mut r, p.n);
    let ct = encrypt_with_noise(p, &sk, 2, a, p.delta() / 2);
    assert_eq!(decrypt(p, &sk, &ct), 3);
}

#[test]
fn output_noise_measures_distance_to_ideal() {
    let p = small_params(3);
    let sk = gen_secret_key(p, 9);
    let mut r = Rng::new(9);
    let a = sample_mask(&mut r, p.n);
    let ct = encrypt_with_noise(p, &sk, 5, a.clone(), 0u64.wrapping_sub(77));
    assert_eq!(output_noise(p, &sk, &ct, 5), 77);
    assert_eq!(output_noise_signed(p, &sk, &ct, 5), -77);
    let ct2 = encrypt_with_noise(p, &sk, 5, a, 1234);
    assert_eq!(output_noise(p, &sk, &ct2, 5), 1234);
    assert_eq!(output_noise_signed(p, &sk, &ct2, 5), 1234);
}

#[test]
fn fixtures_cover_every_message_under_two_luts() {
    assert_eq!(msg_modulus(), 4);
    let fx = all();
    assert_eq!(fx.len(), 8);
    let names: Vec<&str> = fx.iter().map(|f| f.name.as_str()).collect();
    assert_eq!(
        names,
        vec![
            "identity/m0", "increment/m0", "identity/m1", "increment/m1", "identity/m2",
            "increment/m2", "identity/m3", "increment/m3",
        ]
    );
    let messages: Vec<u64> = fx.iter().map(|f| f.message).collect();
    assert_eq!(messages, vec![0, 0, 1, 1, 2, 2, 3, 3]);
    let wants: Vec<u64> = fx.iter().map(|f| f.lut.values[f.message as usize]).collect();
    assert_eq!(wants, vec![0, 1, 1, 2, 2, 3, 3, 0]);
    let seeds: Vec<u64> = fx.iter().map(|f| f.seed).collect();
    assert_eq!(seeds, vec![0x1000, 0x2000, 0x1001, 0x2001, 0x1002, 0x2002, 0x1003, 0x2003]);
    assert_eq!(fx[0].lut.values, vec![0, 1, 2, 3]);
    assert_eq!(fx[1].lut.values, vec![1, 2, 3, 0]);
}

#[test]
fn timing_input_is_identity_on_message_one() {
    assert_eq!(timing_lut().values, vec![0, 1, 2, 3]);
    assert_eq!(TIMING_MESSAGE, 1);
    assert_eq!(TIMING_SEED, 0xC0FF_EE00);
}

#[test]
fn scoring_gates_and_median() {
    let mut p = params();
    assert!(message_width_ok(&p));
    p.message_bits = 2;
    assert!(!message_width_ok(&p));
    let fx = all();
    assert!(fixture_ok(&fx[1].lut, 3, 0));
    assert!(!fixture_ok(&fx[1].lut, 3, 3));
    assert!(fixture_ok(&fx[0].lut, 2, 2));
    let mut times = vec![9u64, 3, 7, 1, 5, 3, 8];
    assert_eq!(median(&mut times), 5);
    assert_eq!(times, vec![1, 3, 3, 5, 7, 8, 9]);
    let mut one = vec![42u64];
    assert_eq!(median(&mut one), 42);
    let mut even = vec![4u64, 1, 3, 2];
    assert_eq!(median(&mut even), 3);
}

#[test]
fn generator_draws_do_not_repeat() {
    let mut r = Rng::new(0x5EED);
    let mut seen: Vec<u64> = (0..4096).map(|_| r.next_u64()).collect();
    seen.sort_unstable();
    seen.dedup();
    assert_eq!(seen.len(), 4096);
    // the state advances by the golden-ratio increment
    let mut a = Rng::new(6);
    let mut b = Rng::new(7);
    for _ in 0..5 {
        assert_eq!(a.next_u64(), b.next_u64());
    }
}
