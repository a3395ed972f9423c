//! TFHE programmable-bootstrap toolkit over the torus `Z / 2^64`.
//!
//! `harness` holds the parameter set, the LWE ciphertext and key types, the reproducible
//! random-number generator and the encryption oracle; `algorithm` holds the integer side of
//! the programmable bootstrap (gadget decomposition, negacyclic rotations, accumulator set-up,
//! CMux bookkeeping, sample extraction and key switching).

pub mod algorithm;
pub mod harness;
pub mod torus;
