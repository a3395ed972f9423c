//! GLWE ciphertexts (`k` mask polynomials and a body) and the integer steps of a CMux.
use crate::algorithm::phase::{
    glwe_key_fits, glwe_phase, lemma_glwe_add_phase, lemma_glwe_rotate_phase,
    lemma_glwe_sub_phase,
};
use crate::algorithm::poly::{mul_monomial_into, neg, rotate, rotated_into, rotation_fits};
use crate::harness::params::{common_len, dot, lwe_phase, Lwe, Params};
use crate::torus::{lemma_tmod_range, lemma_wrapping_add, lemma_wrapping_sub, tmod};
use vstd::prelude::*;

verus! {

/// GLWE ciphertext: `k` mask polynomials + a body, degree `< N`.
#[derive(Clone)]
pub struct Glwe {
    pub mask: Vec<Vec<u64>>,
    pub body: Vec<u64>,
}

/// Coefficient-wise torus difference of two polynomials.
pub open spec fn poly_sub(a: Seq<u64>, b: Seq<u64>) -> Seq<u64> {
    Seq::new(a.len(), |j: int| tmod(a[j] - b[j]) as u64)
}

/// Coefficient-wise torus sum of two polynomials.
pub open spec fn poly_add(a: Seq<u64>, b: Seq<u64>) -> Seq<u64> {
    Seq::new(a.len(), |j: int| tmod(a[j] + b[j]) as u64)
}

impl View for Glwe {
    /// The `k + 1` components: the masks, then the body.
    type V = Seq<Seq<u64>>;

    open spec fn view(&self) -> Seq<Seq<u64>> {
        self.mask@.map_values(|m: Vec<u64>| m@).push(self.body@)
    }
}

impl Glwe {
    /// Position in the view of component `i` as [`Glwe::comp`] resolves it: a mask when
    /// `i < k`, the body otherwise.
    pub open spec fn comp_index(&self, i: int) -> int {
        if i < self.mask@.len() {
            i
        } else {
            self.mask@.len() as int
        }
    }

    /// `k` masks and a body, every component of length `n`.
    pub open spec fn has_shape(&self, k: nat, n: nat) -> bool {
        &&& self.mask@.len() == k
        &&& forall|c: int| 0 <= c <= k ==> (#[trigger] self@[c]).len() == n
    }

    /// The trivial (noiseless, zero-mask) GLWE of `body` with `k` masks.
    pub fn trivial(k: usize, body: Vec<u64>) -> (g: Glwe)
        ensures
            g.has_shape(k as nat, body@.len()),
            g@ == Seq::new(k as nat, |c: int| Seq::new(body@.len(), |j: int| 0u64)).push(body@),
    {
        let n = body.len();
        let mut mask: Vec<Vec<u64>> = Vec::new();
        let mut c: usize = 0;
        while c < k
            invariant
                c <= k,
                n == body@.len(),
                mask@.len() == c,
                forall|d: int| 0 <= d < c ==> (#[trigger] mask@[d])@ == Seq::new(n as nat, |j: int| 0u64),
            decreases k - c,
        {
            let mut z: Vec<u64> = Vec::new();
            let mut j: usize = 0;
            while j < n
                invariant
                    j <= n,
                    z@ == Seq::new(j as nat, |t: int| 0u64),
                decreases n - j,
            {
                z.push(0);
                j = j + 1;
                assert(z@ =~= Seq::new(j as nat, |t: int| 0u64));
            }
            mask.push(z);
            c = c + 1;
        }
        let g = Glwe { mask, body };
        assert(g@[k as int] == body@);
        assert(g@ =~= Seq::new(k as nat, |c: int| Seq::new(n as nat, |j: int| 0u64)).push(body@));
        g
    }

    /// Component `i`: mask `i` when `i < k`, the body otherwise.
    pub fn comp(&self, i: usize) -> (c: &[u64])
        ensures
            c@ == self@[self.comp_index(i as int)],
    {
        if i < self.mask.len() {
            self.mask[i].as_slice()
        } else {
            self.body.as_slice()
        }
    }

    /// Mutable component `i`: mask `i` when `i < k`, the body otherwise.
    pub fn comp_mut(&mut self, i: usize) -> (c: &mut [u64])
        ensures
            c@ == old(self)@[old(self).comp_index(i as int)],
            final(self).mask@.len() == old(self).mask@.len(),
            final(self)@ == old(self)@.update(old(self).comp_index(i as int), final(c)@),
    {
        if i < self.mask.len() {
            self.mask[i].as_mut_slice()
        } else {
            self.body.as_mut_slice()
        }
    }
}

/// `dst = X^r · src` (negacyclic monomial rotation of every component). Each component of
/// `dst` is overwritten on the length of the matching `src` component.
pub fn glwe_mul_monomial_into(src: &Glwe, r: usize, dst: &mut Glwe)
    requires
        old(dst).mask@.len() >= src.mask@.len(),
        forall|c: int|
            0 <= c < src.mask@.len() ==> rotation_fits(
                src.mask@[c]@.len() as int,
                r as int,
                (#[trigger] old(dst).mask@[c])@.len() as int,
            ),
        rotation_fits(src.body@.len() as int, r as int, old(dst).body@.len() as int),
    ensures
        final(dst).mask@.len() == old(dst).mask@.len(),
        forall|c: int|
            0 <= c < final(dst).mask@.len() ==> (#[trigger] final(dst).mask@[c])@ == if c
                < src.mask@.len() {
                rotated_into(src.mask@[c]@, r as int, old(dst).mask@[c]@)
            } else {
                old(dst).mask@[c]@
            },
        final(dst).body@ == rotated_into(src.body@, r as int, old(dst).body@),
{
    let mut c: usize = 0;
    while c < src.mask.len()
        invariant
            c <= src.mask@.len(),
            dst.mask@.len() == old(dst).mask@.len(),
            old(dst).mask@.len() >= src.mask@.len(),
            forall|d: int|
                0 <= d < src.mask@.len() ==> rotation_fits(
                    src.mask@[d]@.len() as int,
                    r as int,
                    (#[trigger] old(dst).mask@[d])@.len() as int,
                ),
            forall|d: int|
                0 <= d < dst.mask@.len() ==> (#[trigger] dst.mask@[d])@ == if d < c {
                    rotated_into(src.mask@[d]@, r as int, old(dst).mask@[d]@)
                } else {
                    old(dst).mask@[d]@
                },
            dst.body@ == old(dst).body@,
        decreases src.mask@.len() - c,
    {
        mul_monomial_into(src.mask[c].as_slice(), r, dst.mask[c].as_mut_slice());
        c = c + 1;
    }
    mul_monomial_into(src.body.as_slice(), r, dst.body.as_mut_slice());
}

/// Component-wise torus difference of two GLWE views.
pub open spec fn glwe_sub(a: Seq<Seq<u64>>, b: Seq<Seq<u64>>) -> Seq<Seq<u64>> {
    Seq::new(a.len(), |c: int| poly_sub(a[c], b[c]))
}

/// Component-wise torus sum of two GLWE views.
pub open spec fn glwe_add(a: Seq<Seq<u64>>, b: Seq<Seq<u64>>) -> Seq<Seq<u64>> {
    Seq::new(a.len(), |c: int| poly_add(a[c], b[c]))
}

/// Every component multiplied by `X^r` (`r` taken modulo `2N`).
pub open spec fn glwe_rotate(a: Seq<Seq<u64>>, r: int, n: int) -> Seq<Seq<u64>> {
    Seq::new(a.len(), |c: int| rotate(a[c], r % (2 * n)))
}

/// `dst[c] = a[c] - b[c]` for every component `c < k + 1`, all of shape `(k, n)`.
fn glwe_sub_into(a: &Glwe, b: &Glwe, dst: &mut Glwe, k: usize, n: usize)
    requires
        k < usize::MAX,
        a.has_shape(k as nat, n as nat),
        b.has_shape(k as nat, n as nat),
        old(dst).has_shape(k as nat, n as nat),
    ensures
        final(dst).has_shape(k as nat, n as nat),
        final(dst)@ == glwe_sub(a@, b@),
{
    let mut c: usize = 0;
    while c < k + 1
        invariant
            k < usize::MAX,
            c <= k + 1,
            a.has_shape(k as nat, n as nat),
            b.has_shape(k as nat, n as nat),
            dst.has_shape(k as nat, n as nat),
            forall|d: int| 0 <= d < k + 1 ==> #[trigger] dst@[d] == if d < c {
                poly_sub(a@[d], b@[d])
            } else {
                old(dst)@[d]
            },
        decreases k + 1 - c,
    {
        let ac = a.comp(c);
        let bc = b.comp(c);
        let ghost before = dst@;
        let dc = dst.comp_mut(c);
        let mut j: usize = 0;
        while j < n
            invariant
                j <= n,
                ac@.len() == n,
                bc@.len() == n,
                dc@.len() == n,
                forall|t: int| 0 <= t < n ==> #[trigger] dc@[t] == if t < j {
                    tmod(ac@[t] - bc@[t]) as u64
                } else {
                    before[c as int][t]
                },
            decreases n - j,
        {
            proof {
                lemma_wrapping_sub(ac@[j as int], bc@[j as int]);
            }
            dc[j] = ac[j].wrapping_sub(bc[j]);
            j = j + 1;
        }
        proof {
            assert(dc@ =~= poly_sub(a@[c as int], b@[c as int]));
        }
        c = c + 1;
    }
    proof {
        assert(dst@ =~= glwe_sub(a@, b@));
    }
}

/// A full-length rotation into a destination of the same length is the rotation itself.
proof fn lemma_rotated_into_same_len(src: Seq<u64>, r: int, dst: Seq<u64>)
    requires
        dst.len() == src.len(),
    ensures
        rotated_into(src, r, dst) == rotate(src, r % (2 * src.len() as int)),
{
    assert(rotated_into(src, r, dst) =~= rotate(src, r % (2 * src.len() as int)));
}

/// First half of a CMux step: `rotated = X^a_tilde · acc` and `diff = rotated - acc`, the GLWE
/// that the bootstrap-key GGSW multiplies. All three ciphertexts have `k` masks of length `n`.
pub fn cmux_prepare(acc: &Glwe, a_tilde: usize, rotated: &mut Glwe, diff: &mut Glwe)
    requires
        acc.mask@.len() < usize::MAX,
        0 < acc.body@.len(),
        acc.has_shape(acc.mask@.len(), acc.body@.len()),
        old(rotated).has_shape(acc.mask@.len(), acc.body@.len()),
        old(diff).has_shape(acc.mask@.len(), acc.body@.len()),
    ensures
        final(rotated).has_shape(acc.mask@.len(), acc.body@.len()),
        final(diff).has_shape(acc.mask@.len(), acc.body@.len()),
        final(rotated)@ == glwe_rotate(acc@, a_tilde as int, acc.body@.len() as int),
        final(diff)@ == glwe_sub(final(rotated)@, acc@),
        forall|key: Seq<Seq<u64>>|
            #[trigger] glwe_key_fits(acc@, key, acc.body@.len()) ==> {
                &&& glwe_phase(final(rotated)@, key) == rotate(
                    glwe_phase(acc@, key),
                    a_tilde as int % (2 * acc.body@.len() as int),
                )
                &&& forall|t: int|
                    0 <= t < acc.body@.len() ==> #[trigger] glwe_phase(final(diff)@, key)[t] as int
                        == tmod(glwe_phase(final(rotated)@, key)[t] - glwe_phase(acc@, key)[t])
            },
{
    let k = acc.mask.len();
    let n = acc.body.len();
    proof {
        assert forall|c: int| 0 <= c < acc.mask@.len() implies rotation_fits(
            acc.mask@[c]@.len() as int,
            a_tilde as int,
            (#[trigger] old(rotated).mask@[c])@.len() as int,
        ) by {
            assert(acc@[c] == acc.mask@[c]@);
            assert(old(rotated)@[c] == old(rotated).mask@[c]@);
        }
        assert(acc@[k as int] == acc.body@);
        assert(old(rotated)@[k as int] == old(rotated).body@);
    }
    glwe_mul_monomial_into(acc, a_tilde, rotated);
    proof {
        assert forall|c: int| 0 <= c <= k implies #[trigger] rotated@[c] == rotate(
            acc@[c],
            a_tilde as int % (2 * n as int),
        ) by {
            if c < k {
                assert(rotated@[c] == rotated.mask@[c]@);
                assert(acc@[c] == acc.mask@[c]@);
                assert(old(rotated)@[c] == old(rotated).mask@[c]@);
                lemma_rotated_into_same_len(acc.mask@[c]@, a_tilde as int, old(rotated).mask@[c]@);
            } else {
                assert(rotated@[c] == rotated.body@);
                lemma_rotated_into_same_len(acc.body@, a_tilde as int, old(rotated).body@);
            }
        }
        assert(rotated@ =~= glwe_rotate(acc@, a_tilde as int, n as int));
    }
    glwe_sub_into(rotated, acc, diff, k, n);
    proof {
        assert forall|key: Seq<Seq<u64>>| #[trigger] glwe_key_fits(acc@, key, n as nat) implies {
            &&& glwe_phase(rotated@, key) == rotate(
                glwe_phase(acc@, key),
                a_tilde as int % (2 * n as int),
            )
            &&& forall|t: int|
                0 <= t < n ==> #[trigger] glwe_phase(diff@, key)[t] as int == tmod(
                    glwe_phase(rotated@, key)[t] - glwe_phase(acc@, key)[t],
                )
        } by {
            lemma_glwe_rotate_phase(acc@, key, n as nat, a_tilde as int);
            assert(glwe_key_fits(rotated@, key, n as nat));
            lemma_glwe_sub_phase(rotated@, acc@, key, n as nat);
        }
    }
}

/// Second half of a CMux step: `acc += prod` component-wise on the torus.
pub fn cmux_accumulate(acc: &mut Glwe, prod: &Glwe)
    requires
        old(acc).mask@.len() < usize::MAX,
        old(acc).has_shape(old(acc).mask@.len(), old(acc).body@.len()),
        prod.has_shape(old(acc).mask@.len(), old(acc).body@.len()),
    ensures
        final(acc).has_shape(old(acc).mask@.len(), old(acc).body@.len()),
        final(acc)@ == glwe_add(old(acc)@, prod@),
        forall|key: Seq<Seq<u64>>|
            #[trigger] glwe_key_fits(old(acc)@, key, old(acc).body@.len()) ==> forall|t: int|
                0 <= t < old(acc).body@.len() ==> #[trigger] glwe_phase(final(acc)@, key)[t] as int
                    == tmod(glwe_phase(old(acc)@, key)[t] + glwe_phase(prod@, key)[t]),
{
    let k = acc.mask.len();
    let n = acc.body.len();
    let mut c: usize = 0;
    while c < k + 1
        invariant
            k < usize::MAX,
            c <= k + 1,
            k == old(acc).mask@.len(),
            n == old(acc).body@.len(),
            prod.has_shape(k as nat, n as nat),
            acc.has_shape(k as nat, n as nat),
            forall|d: int| 0 <= d < k + 1 ==> #[trigger] acc@[d] == if d < c {
                poly_add(old(acc)@[d], prod@[d])
            } else {
                old(acc)@[d]
            },
        decreases k + 1 - c,
    {
        let pc = prod.comp(c);
        let ghost before = acc@;
        let ac = acc.comp_mut(c);
        let mut j: usize = 0;
        while j < n
            invariant
                j <= n,
                pc@.len() == n,
                ac@.len() == n,
                forall|t: int| 0 <= t < n ==> #[trigger] ac@[t] == if t < j {
                    tmod(before[c as int][t] + pc@[t]) as u64
                } else {
                    before[c as int][t]
                },
            decreases n - j,
        {
            proof {
                lemma_wrapping_add(ac@[j as int], pc@[j as int]);
            }
            ac[j] = ac[j].wrapping_add(pc[j]);
            j = j + 1;
        }
        proof {
            assert(ac@ =~= poly_add(old(acc)@[c as int], prod@[c as int]));
        }
        c = c + 1;
    }
    proof {
        assert(acc@ =~= glwe_add(old(acc)@, prod@));
        assert forall|key: Seq<Seq<u64>>|
            #[trigger] glwe_key_fits(old(acc)@, key, n as nat) implies forall|t: int|
            0 <= t < n ==> #[trigger] glwe_phase(acc@, key)[t] as int == tmod(
                glwe_phase(old(acc)@, key)[t] + glwe_phase(prod@, key)[t],
            ) by {
            assert(glwe_key_fits(prod@, key, n as nat));
            lemma_glwe_add_phase(old(acc)@, prod@, key, n as nat);
        }
    }
}

/// Law: a CMux selects. Adding back the difference `rotated - acc` gives `rotated` (selector
/// bit 1); adding a zero ciphertext leaves `acc` unchanged (selector bit 0).
pub proof fn lemma_cmux_selects(acc: Seq<Seq<u64>>, rotated: Seq<Seq<u64>>)
    requires
        rotated.len() == acc.len(),
        forall|c: int| 0 <= c < acc.len() ==> (#[trigger] rotated[c]).len() == acc[c].len(),
    ensures
        glwe_add(acc, glwe_sub(rotated, acc)) == rotated,
        glwe_add(acc, Seq::new(acc.len(), |c: int| Seq::new(acc[c].len(), |j: int| 0u64)))
            == acc,
{
    assert forall|c: int| 0 <= c < acc.len() implies #[trigger] glwe_add(
        acc,
        glwe_sub(rotated, acc),
    )[c] == rotated[c] by {
        assert forall|j: int| 0 <= j < acc[c].len() implies #[trigger] poly_add(
            acc[c],
            poly_sub(rotated[c], acc[c]),
        )[j] == rotated[c][j] by {
            let x = acc[c][j];
            let y = rotated[c][j];
            lemma_tmod_range(y - x);
            crate::torus::lemma_tmod_add(y - x, x as int);
            crate::torus::lemma_tmod_small(y as int);
            assert(tmod(x + tmod(y - x)) == tmod(y - x + x));
        }
        assert(poly_add(acc[c], poly_sub(rotated[c], acc[c])) =~= rotated[c]);
    }
    assert(glwe_add(acc, glwe_sub(rotated, acc)) =~= rotated);
    let z = Seq::new(acc.len(), |c: int| Seq::new(acc[c].len(), |j: int| 0u64));
    assert forall|c: int| 0 <= c < acc.len() implies #[trigger] glwe_add(acc, z)[c] == acc[c] by {
        assert forall|j: int| 0 <= j < acc[c].len() implies #[trigger] poly_add(acc[c], z[c])[j]
            == acc[c][j] by {
            crate::torus::lemma_tmod_small(acc[c][j] as int);
        }
        assert(poly_add(acc[c], z[c]) =~= acc[c]);
    }
    assert(glwe_add(acc, z) =~= acc);
}

/// Extract the constant coefficient of a GLWE into an LWE under the flattened GLWE key:
/// `a[i·N] = mask_i[0]`, `a[i·N + j] = -mask_i[N - j]` for `0 < j < N`, `b = body[0]`.
pub fn sample_extract(p: &Params, glwe: &Glwe) -> (ct: Lwe)
    requires
        p.k > 0 ==> p.poly >= 1,
        p.k * p.poly <= usize::MAX,
        glwe.mask@.len() >= p.k,
        forall|i: int| 0 <= i < p.k ==> (#[trigger] glwe.mask@[i])@.len() >= p.poly,
        glwe.body@.len() >= 1,
    ensures
        ct.a@.len() == p.k * p.poly,
        forall|i: int, j: int|
            0 <= i < p.k && 0 <= j < p.poly ==> #[trigger] ct.a@[i * p.poly + j] == if j == 0 {
                glwe.mask@[i]@[0]
            } else {
                neg(glwe.mask@[i]@[p.poly - j])
            },
        ct.a@ == extracted_mask(glwe.mask@, p.k as int, p.poly as int),
        ct.b == glwe.body@[0],
{
    let k = p.k;
    let n = p.poly;
    let mut a: Vec<u64> = Vec::new();
    let mut i: usize = 0;
    while i < k
        invariant
            i <= k,
            k > 0 ==> n >= 1,
            k * n <= usize::MAX,
            glwe.mask@.len() >= k,
            forall|i2: int| 0 <= i2 < k ==> (#[trigger] glwe.mask@[i2])@.len() >= n,
            a@.len() == i * n,
            forall|i2: int, j: int|
                0 <= i2 < i && 0 <= j < n ==> #[trigger] a@[i2 * n + j] == if j == 0 {
                    glwe.mask@[i2]@[0]
                } else {
                    neg(glwe.mask@[i2]@[n - j])
                },
        decreases k - i,
    {
        let m = &glwe.mask[i];
        let ghost base = a@;
        proof {
            assert(i * n + n <= k * n) by (nonlinear_arith)
                requires
                    i < k,
            ;
        }
        a.push(m[0]);
        let mut j: usize = 1;
        while j < n
            invariant
                1 <= j <= n,
                m@.len() >= n,
                base.len() == i * n,
                i * n + n <= usize::MAX,
                a@.len() == i * n + j,
                forall|t: int| 0 <= t < base.len() ==> #[trigger] a@[t] == base[t],
                a@[i * n] == m@[0],
                forall|t: int| 1 <= t < j ==> #[trigger] a@[i * n + t] == neg(m@[n - t]),
            decreases n - j,
        {
            proof {
                crate::torus::lemma_wrapping_sub(0, m@[n - j]);
                lemma_tmod_range(-(m@[n - j] as int));
            }
            a.push(0u64.wrapping_sub(m[n - j]));
            j = j + 1;
        }
        proof {
            assert forall|i2: int, j2: int|
                0 <= i2 < i + 1 && 0 <= j2 < n implies #[trigger] a@[i2 * n + j2] == if j2 == 0 {
                glwe.mask@[i2]@[0]
            } else {
                neg(glwe.mask@[i2]@[n - j2])
            } by {
                if i2 < i {
                    assert(i2 * n + j2 < i * n) by (nonlinear_arith)
                        requires
                            i2 < i,
                            j2 < n,
                    ;
                }
            }
            assert((i + 1) * n == i * n + n) by (nonlinear_arith);
        }
        i = i + 1;
    }
    proof {
        assert forall|t: int| 0 <= t < k * n implies #[trigger] a@[t] == extracted_mask(
            glwe.mask@,
            k as int,
            n as int,
        )[t] by {
            let i = t / (n as int);
            let j = t % (n as int);
            vstd::arithmetic::div_mod::lemma_fundamental_div_mod(t, n as int);
            vstd::arithmetic::div_mod::lemma_mod_bound(t, n as int);
            vstd::arithmetic::div_mod::lemma_div_pos_is_pos(t, n as int);
            assert(t == i * n + j) by (nonlinear_arith)
                requires
                    t == (n as int) * i + j,
            ;
            if i >= k {
                assert(i * n + j >= k * n) by (nonlinear_arith)
                    requires
                        i >= k,
                        j >= 0,
                        n >= 1,
                ;
            }
        }
        assert(a@ =~= extracted_mask(glwe.mask@, k as int, n as int));
    }
    Lwe { a, b: glwe.body[0] }
}

/// The mask of the LWE extracted from the constant coefficient of a GLWE with masks `mask`
/// (`k` polynomials of degree `< n`): coefficient `i·n + j` is `mask_i[0]` for `j = 0` and
/// `-mask_i[n - j]` otherwise.
pub open spec fn extracted_mask(mask: Seq<Vec<u64>>, k: int, n: int) -> Seq<u64> {
    Seq::new(
        (k * n) as nat,
        |t: int|
            if t % n == 0 {
                mask[t / n]@[0]
            } else {
                neg(mask[t / n]@[n - t % n])
            },
    )
}

/// Coefficient `d` of the negacyclic extension of `a`: `a[d]` for `0 <= d < n`, `-a[d + n]`
/// for `-n <= d < 0` (since `X^n = -1`).
pub open spec fn signed_coeff(a: Seq<u64>, d: int) -> int {
    if d >= 0 {
        a[d] as int
    } else {
        -(a[d + a.len()] as int)
    }
}

/// `Σ_{j<u} s[j] · a_signed(t - j)`: the first `u` terms of coefficient `t` of `a · s` in
/// `Z[X] / (X^n + 1)`.
pub open spec fn negacyclic_coeff_upto(a: Seq<u64>, s: Seq<u64>, t: int, u: nat) -> int
    decreases u,
{
    if u == 0 {
        0
    } else {
        negacyclic_coeff_upto(a, s, t, (u - 1) as nat) + s[u - 1] * signed_coeff(a, t - (u - 1))
    }
}

/// Coefficient `t` of the negacyclic product `a · s` (over the integers).
pub open spec fn negacyclic_coeff(a: Seq<u64>, s: Seq<u64>, t: int) -> int {
    negacyclic_coeff_upto(a, s, t, s.len())
}

/// `Σ_{i<k} (mask_i · key_i)[0]`: the constant coefficient of `<mask, key>`.
pub open spec fn glwe_mask_key_coeff0(mask: Seq<Vec<u64>>, key: Seq<Seq<u64>>, k: nat) -> int
    decreases k,
{
    if k == 0 {
        0
    } else {
        glwe_mask_key_coeff0(mask, key, (k - 1) as nat) + negacyclic_coeff(
            mask[k - 1]@,
            key[k - 1],
            0,
        )
    }
}

/// `k` masks and `k` key polynomials of length `n`, and `flat` the key flattened to `k·n`
/// coefficients (`flat[i·n + j] = key_i[j]`).
pub open spec fn extract_key_shape(
    mask: Seq<Vec<u64>>,
    key: Seq<Seq<u64>>,
    flat: Seq<u64>,
    k: nat,
    n: nat,
) -> bool {
    &&& mask.len() >= k
    &&& key.len() >= k
    &&& forall|c: int| 0 <= c < k ==> (#[trigger] mask[c])@.len() == n && key[c].len() == n
    &&& flat.len() == k * n
    &&& forall|c: int, j: int|
        0 <= c < k && 0 <= j < n ==> flat[c * n + j] == #[trigger] key[c][j]
}

/// `Σ_{j<u} x[base + j]·y[base + j]`.
spec fn block_dot(x: Seq<u64>, y: Seq<u64>, base: int, u: nat) -> int
    decreases u,
{
    if u == 0 {
        0
    } else {
        block_dot(x, y, base, (u - 1) as nat) + x[base + u - 1] * y[base + u - 1]
    }
}

proof fn lemma_dot_split(x: Seq<u64>, y: Seq<u64>, base: nat, u: nat)
    ensures
        dot(x, y, base + u) == dot(x, y, base) + block_dot(x, y, base as int, u),
    decreases u,
{
    if u > 0 {
        lemma_dot_split(x, y, base, (u - 1) as nat);
        assert((base + u - 1) as nat == base + (u - 1) as nat);
    }
}

proof fn lemma_extract_block(
    mask: Seq<Vec<u64>>,
    key: Seq<Seq<u64>>,
    flat: Seq<u64>,
    k: nat,
    n: nat,
    i: nat,
    u: nat,
)
    requires
        n >= 1,
        i < k,
        u <= n,
        extract_key_shape(mask, key, flat, k, n),
    ensures
        tmod(block_dot(extracted_mask(mask, k as int, n as int), flat, (i * n) as int, u)) == tmod(
            negacyclic_coeff_upto(mask[i as int]@, key[i as int], 0, u),
        ),
    decreases u,
{
    if u > 0 {
        let j = (u - 1) as nat;
        lemma_extract_block(mask, key, flat, k, n, i, j);
        let ext = extracted_mask(mask, k as int, n as int);
        let t: int = (i * n + j) as int;
        assert(t < k * n) by (nonlinear_arith)
            requires
                t == i * n + j,
                i < k,
                j < n,
        ;
        vstd::arithmetic::div_mod::lemma_fundamental_div_mod_converse(t, n as int, i as int, j as int);
        let m = mask[i as int]@;
        let s = key[i as int];
        assert(flat[t] == s[j as int]);
        let e = ext[t];
        // ext[t] ≡ a_signed(-j) on the torus
        assert(tmod(e as int) == tmod(signed_coeff(m, 0 - j))) by {
            if j == 0 {
            } else {
                crate::torus::lemma_tmod_range(-(m[n - j] as int));
                crate::torus::lemma_tmod_small(tmod(-(m[n - j] as int)));
            }
        }
        let prev_b = block_dot(ext, flat, (i * n) as int, j);
        let prev_c = negacyclic_coeff_upto(m, s, 0, j);
        crate::torus::lemma_tmod_mul(e as int, s[j as int] as int);
        crate::torus::lemma_tmod_mul(signed_coeff(m, 0 - j), s[j as int] as int);
        assert(e * s[j as int] == s[j as int] * e) by (nonlinear_arith);
        assert(signed_coeff(m, 0 - j) * s[j as int] == s[j as int] * signed_coeff(m, 0 - j))
            by (nonlinear_arith);
        assert(tmod(e * flat[t]) == tmod(s[j as int] * signed_coeff(m, 0 - j)));
        crate::torus::lemma_tmod_add(prev_b, e * flat[t]);
        crate::torus::lemma_tmod_add(prev_c, e * flat[t]);
        crate::torus::lemma_tmod_add(tmod(prev_c), e * flat[t]);
        crate::torus::lemma_tmod_add(prev_c, s[j as int] * signed_coeff(m, 0 - j));
        crate::torus::lemma_tmod_add(prev_c, tmod(e * flat[t]));
        assert((i * n + u - 1) == t);
    }
}

proof fn lemma_extract_blocks(
    mask: Seq<Vec<u64>>,
    key: Seq<Seq<u64>>,
    flat: Seq<u64>,
    k: nat,
    n: nat,
    i: nat,
)
    requires
        n >= 1,
        i <= k,
        extract_key_shape(mask, key, flat, k, n),
    ensures
        tmod(dot(extracted_mask(mask, k as int, n as int), flat, i * n)) == tmod(
            glwe_mask_key_coeff0(mask, key, i),
        ),
    decreases i,
{
    let ext = extracted_mask(mask, k as int, n as int);
    if i == 0 {
        assert(0 * n == 0);
    } else {
        let c0 = (i - 1) as nat;
        lemma_extract_blocks(mask, key, flat, k, n, c0);
        assert(c0 * n + n == i * n) by (nonlinear_arith)
            requires
                c0 + 1 == i,
        ;
        lemma_dot_split(ext, flat, c0 * n, n);
        lemma_extract_block(mask, key, flat, k, n, c0, n);
        let d0 = dot(ext, flat, c0 * n);
        let bd = block_dot(ext, flat, (c0 * n) as int, n);
        let g0 = glwe_mask_key_coeff0(mask, key, c0);
        let nc = negacyclic_coeff(mask[c0 as int]@, key[c0 as int], 0);
        crate::torus::lemma_tmod_add(d0, bd);
        crate::torus::lemma_tmod_add(g0, bd);
        crate::torus::lemma_tmod_add(g0, nc);
        crate::torus::lemma_tmod_add(tmod(d0), bd);
        crate::torus::lemma_tmod_add(tmod(g0), bd);
        crate::torus::lemma_tmod_add(g0, tmod(bd));
        crate::torus::lemma_tmod_add(g0, tmod(nc));
    }
}

/// Law: sample extraction keeps the phase. Under the flattened GLWE key (`flat[i·n + j] =
/// key_i[j]`), the phase of the extracted LWE is the constant coefficient of the GLWE phase,
/// `body[0] - Σ_i (mask_i · key_i)[0]` in `Z_q[X] / (X^n + 1)`.
pub proof fn lemma_sample_extract_phase(
    mask: Seq<Vec<u64>>,
    body0: u64,
    key: Seq<Seq<u64>>,
    flat: Seq<u64>,
    k: nat,
    n: nat,
)
    requires
        n >= 1,
        extract_key_shape(mask, key, flat, k, n),
    ensures
        lwe_phase(flat, extracted_mask(mask, k as int, n as int), body0) as int == tmod(
            body0 - glwe_mask_key_coeff0(mask, key, k),
        ),
{
    let ext = extracted_mask(mask, k as int, n as int);
    lemma_extract_blocks(mask, key, flat, k, n, k);
    assert(common_len(ext, flat) == k * n);
    let d = dot(ext, flat, k * n);
    let g = glwe_mask_key_coeff0(mask, key, k);
    crate::torus::lemma_tmod_range(body0 - d);
    crate::torus::lemma_tmod_sub(body0 as int, d);
    crate::torus::lemma_tmod_sub(body0 as int, g);
}

/// `a[j] += b[j]` on the torus over the common length of `a` and `b`.
pub fn poly_add_assign(a: &mut [u64], b: &[u64])
    ensures
        final(a)@.len() == old(a)@.len(),
        forall|j: int|
            0 <= j < old(a)@.len() ==> #[trigger] final(a)@[j] == if j < b@.len() {
                tmod(old(a)@[j] + b@[j]) as u64
            } else {
                old(a)@[j]
            },
{
    let len = if a.len() < b.len() {
        a.len()
    } else {
        b.len()
    };
    let mut j: usize = 0;
    while j < len
        invariant
            len <= a@.len(),
            len <= b@.len(),
            len == old(a)@.len() || len == b@.len(),
            a@.len() == old(a)@.len(),
            j <= len,
            forall|t: int|
                0 <= t < old(a)@.len() ==> #[trigger] a@[t] == if t < j {
                    tmod(old(a)@[t] + b@[t]) as u64
                } else {
                    old(a)@[t]
                },
        decreases len - j,
    {
        proof {
            lemma_wrapping_add(a@[j as int], b@[j as int]);
        }
        a[j] = a[j].wrapping_add(b[j]);
        j = j + 1;
    }
}

} // verus!
