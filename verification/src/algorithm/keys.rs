//! The integer steps of key generation: the internal GLWE key, its flattening, and the
//! gadget plaintexts that the bootstrap and key-switching keys encrypt.
use crate::algorithm::glwe::Glwe;
use crate::algorithm::phase::{glwe_key_fits, glwe_phase, lemma_gadget_term_phase};
use crate::harness::params::{rng_output, rng_state, Rng};
use crate::torus::{lemma_tmod_range, lemma_wrapping_add, lemma_wrapping_mul, tmod};
use vstd::arithmetic::power2::*;
use vstd::bits::*;
use vstd::prelude::*;

verus! {

/// Draw a binary GLWE key: `k` polynomials of `n` bits, row by row from the generator.
pub fn gen_glwe_key(rng: &mut Rng, k: usize, n: usize) -> (key: Vec<Vec<u64>>)
    requires
        k * n <= usize::MAX,
    ensures
        key@.len() == k,
        forall|i: int, j: int|
            0 <= i < k && 0 <= j < n ==> (#[trigger] key@[i]@[j]) as int == rng_output(
                old(rng)@,
                (i * n + j) as nat,
            ) % 2,
        forall|i: int| 0 <= i < k ==> (#[trigger] key@[i])@.len() == n,
        final(rng)@ == rng_state(old(rng)@, (k * n) as nat),
{
    let mut key: Vec<Vec<u64>> = Vec::new();
    let mut i: usize = 0;
    proof {
        crate::harness::params::lemma_rng_state_step(rng@, 0);
    }
    while i < k
        invariant
            i <= k,
            k * n <= usize::MAX,
            key@.len() == i,
            forall|i2: int, j: int|
                0 <= i2 < i && 0 <= j < n ==> (#[trigger] key@[i2]@[j]) as int == rng_output(
                    old(rng)@,
                    (i2 * n + j) as nat,
                ) % 2,
            forall|i2: int| 0 <= i2 < i ==> (#[trigger] key@[i2])@.len() == n,
            rng@ == rng_state(old(rng)@, (i * n) as nat),
        decreases k - i,
    {
        let mut row: Vec<u64> = Vec::new();
        let mut j: usize = 0;
        while j < n
            invariant
                j <= n,
                row@.len() == j,
                forall|j2: int|
                    0 <= j2 < j ==> (#[trigger] row@[j2]) as int == rng_output(
                        old(rng)@,
                        (i * n + j2) as nat,
                    ) % 2,
                rng@ == rng_state(old(rng)@, (i * n + j) as nat),
            decreases n - j,
        {
            proof {
                crate::harness::params::lemma_rng_state_step(old(rng)@, (i * n + j) as nat);
                lemma_tmod_range(rng@ + crate::harness::params::golden());
            }
            row.push(rng.next_bit());
            j = j + 1;
        }
        key.push(row);
        proof {
            assert((i + 1) * n == i * n + n) by (nonlinear_arith);
        }
        i = i + 1;
    }
    key
}

/// The GLWE key flattened into one LWE key of dimension `k·n` (polynomial `i`, coefficient
/// `j` at position `i·n + j`).
pub fn flatten_key(key: &Vec<Vec<u64>>) -> (flat: Vec<u64>)
    ensures
        flat@ == key@.map_values(|row: Vec<u64>| row@).flatten(),
{
    let mut flat: Vec<u64> = Vec::new();
    let mut i: usize = 0;
    while i < key.len()
        invariant
            i <= key@.len(),
            flat@ == key@.subrange(0, i as int).map_values(|row: Vec<u64>| row@).flatten(),
        decreases key@.len() - i,
    {
        let row = &key[i];
        let ghost before = flat@;
        let mut j: usize = 0;
        while j < row.len()
            invariant
                j <= row@.len(),
                flat@ == before + row@.subrange(0, j as int),
            decreases row@.len() - j,
        {
            flat.push(row[j]);
            j = j + 1;
            assert(flat@ =~= before + row@.subrange(0, j as int));
        }
        proof {
            let rows = key@.subrange(0, i + 1).map_values(|r: Vec<u64>| r@);
            assert(key@.subrange(0, i as int).map_values(|r: Vec<u64>| r@) =~= rows.drop_last());
            assert(row@.subrange(0, row@.len() as int) =~= row@);
            rows.drop_last().lemma_flatten_push(rows.last());
            assert(rows =~= rows.drop_last().push(rows.last()));
            assert(rows.last() == row@);
        }
        i = i + 1;
    }
    proof {
        assert(key@.subrange(0, key@.len() as int) =~= key@);
    }
    flat
}

/// The plaintext of key-switching key row `(j, lev)`: key bit `s_j` times the gadget weight
/// `2^(64 - (lev+1)·baselog)`, on the torus.
pub fn ks_plaintext(key_bit: u64, lev: usize, baselog: u32) -> (mu: u64)
    requires
        1 <= (lev + 1) * baselog <= 64,
    ensures
        mu as int == tmod(key_bit * pow2((64 - (lev + 1) * baselog) as nat)),
{
    let w = crate::algorithm::pbs::gadget_weight(lev, baselog);
    proof {
        lemma_wrapping_mul(key_bit, w);
    }
    key_bit.wrapping_mul(w)
}

/// Add `mu · 2^(64 - (lev+1)·baselog)` to the constant coefficient of component `i` of `g`:
/// the gadget term of GGSW row `(i, lev)` encrypting the scalar `mu`.
pub fn add_gadget_term(g: &mut Glwe, i: usize, mu: u64, lev: usize, baselog: u32)
    requires
        1 <= (lev + 1) * baselog <= 64,
        old(g)@[old(g).comp_index(i as int)].len() >= 1,
    ensures
        final(g).mask@.len() == old(g).mask@.len(),
        final(g)@ == old(g)@.update(
            old(g).comp_index(i as int),
            old(g)@[old(g).comp_index(i as int)].update(
                0,
                tmod(
                    old(g)@[old(g).comp_index(i as int)][0] + mu * pow2(
                        (64 - (lev + 1) * baselog) as nat,
                    ),
                ) as u64,
            ),
        ),
        forall|key: Seq<Seq<u64>>|
            #[trigger] glwe_key_fits(old(g)@, key, old(g)@[old(g).comp_index(i as int)].len())
                ==> forall|t: int|
                0 <= t < old(g)@[old(g).comp_index(i as int)].len() ==> #[trigger] glwe_phase(
                    final(g)@,
                    key,
                )[t] as int == if i >= old(g).mask@.len() {
                    tmod(glwe_phase(old(g)@, key)[t] + if t == 0 {
                        mu * pow2((64 - (lev + 1) * baselog) as nat)
                    } else {
                        0
                    })
                } else {
                    tmod(
                        glwe_phase(old(g)@, key)[t] - mu * pow2((64 - (lev + 1) * baselog) as nat)
                            * key[i as int][t],
                    )
                },
{
    let ghost ci = g.comp_index(i as int);
    let ghost n = g@[ci].len();
    let ghost dlt = mu * pow2((64 - (lev + 1) * baselog) as nat);
    let weight = crate::algorithm::pbs::gadget_weight(lev, baselog);
    let c = g.comp_mut(i);
    proof {
        lemma_wrapping_mul(mu, weight);
        lemma_wrapping_add(c@[0], mu.wrapping_mul(weight));
        crate::torus::lemma_tmod_add(c@[0] as int, mu * weight);
    }
    c[0] = c[0].wrapping_add(mu.wrapping_mul(weight));
    proof {
        assert(g@ == old(g)@.update(ci, old(g)@[ci].update(0, tmod(old(g)@[ci][0] + dlt) as u64)));
        assert forall|key: Seq<Seq<u64>>| #[trigger] glwe_key_fits(old(g)@, key, n) implies forall|
            t: int,
        |
            0 <= t < n ==> #[trigger] glwe_phase(g@, key)[t] as int == if i >= old(g).mask@.len() {
                tmod(glwe_phase(old(g)@, key)[t] + if t == 0 {
                    dlt
                } else {
                    0
                })
            } else {
                tmod(glwe_phase(old(g)@, key)[t] - dlt * key[i as int][t])
            } by {
            lemma_gadget_term_phase(old(g)@, key, n, ci, dlt);
        }
    }
}

} // verus!
