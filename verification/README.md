# bootstrap

A TFHE programmable bootstrap (CGGI blind rotation, sample extraction, key switching) over
the torus `Z / 2^64`, with its integer logic verified in Verus.

- `src/torus.rs` — the torus modulus and the facts about wrapping arithmetic.
- `src/harness/params.rs` — parameter sets, LWE ciphertexts and keys, the splitmix64
  generator, encryption with a given mask and noise, phase, decoding, noise measures.
- `src/harness/fixtures.rs` — the scored correctness fixtures and the timing input.
- `src/harness/eval.rs` — the integer decisions of the scoring run: the message-width gate,
  the per-fixture check, and the median of the measured times.
- `src/algorithm.rs` — the parameter set of the bootstrap.
- `src/algorithm/gadget.rs` — balanced and branchless (rounding) gadget decomposition.
- `src/algorithm/poly.rs` — negacyclic monomial multiplication.
- `src/algorithm/glwe.rs` — GLWE ciphertexts, CMux steps, sample extraction.
- `src/algorithm/keys.rs` — GLWE key generation and gadget plaintexts of the key material.
- `src/algorithm/pbs.rs` — modulus switching, the LUT test polynomial, the accumulator,
  key switching, and what the extracted, key-switched sample decrypts to.
- `src/algorithm/blind_rotate.rs` — the phase after modulus switching, and the accumulator
  that a chain of exact CMux steps produces from the test polynomial.
- `app/` — the f64 negacyclic FFT, the Gaussian sampler, key generation and the bootstrap
  loop around the Fourier-domain external product, the security estimator, and the CLI.
