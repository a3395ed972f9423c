//! The programmable bootstrap: a CGGI blind rotation over a negacyclic accumulator, sample
//! extraction and key switching. This module holds the parameter choice and the integer
//! steps; the Fourier-domain external product is supplied by the caller.
pub mod blind_rotate;
pub mod gadget;
pub mod glwe;
pub mod keys;
pub mod pbs;
pub mod phase;
pub mod poly;

use crate::harness::params::Params;
use vstd::prelude::*;

verus! {

/// The parameter set this bootstrap targets: LWE dimension 700, one GLWE polynomial of
/// degree 1024, a 3-level base-2^7 bootstrap gadget, a 4-level base-2^5 key-switch gadget,
/// a 3-bit message width (four messages plus the padding bit), and noise 2^48 (LWE) / 2^39 (GLWE).
pub fn params() -> (p: Params)
    ensures
        p.n == 700 && p.k == 1 && p.poly == 1024,
        p.pbs_l == 3 && p.pbs_baselog == 7 && p.ks_l == 4 && p.ks_baselog == 5,
        p.message_bits == 3,
        p.lwe_sigma == 0x1_0000_0000_0000 && p.glwe_sigma == 0x80_0000_0000,
{
    Params {
        n: 700,
        k: 1,
        poly: 1024,
        pbs_l: 3,
        pbs_baselog: 7,
        ks_l: 4,
        ks_baselog: 5,
        message_bits: 3,
        lwe_sigma: 0x1_0000_0000_0000,
        glwe_sigma: 0x80_0000_0000,
    }
}

} // verus!
