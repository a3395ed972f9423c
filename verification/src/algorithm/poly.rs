//! Negacyclic monomial multiplication in `Z_q[X] / (X^N + 1)`, `q = 2^64`.
use crate::torus::{lemma_tmod_range, lemma_tmod_small, lemma_wrapping_add, lemma_wrapping_sub, tmod, torus_q};
use vstd::arithmetic::div_mod::*;
use vstd::prelude::*;

verus! {

/// Torus negation `-x mod 2^64`.
pub open spec fn neg(x: u64) -> u64 {
    tmod(-x) as u64
}

/// Coefficient `j` of `X^r · p` modulo `X^N + 1` (`N = p.len()`, `0 <= r < 2N`): coefficients
/// that wrap past `X^N` once come back negated, those that wrap twice come back unchanged.
pub open spec fn rot_at(p: Seq<u64>, r: int, j: int) -> u64 {
    let n = p.len() as int;
    if j >= r {
        p[j - r]
    } else if j + n >= r {
        neg(p[j + n - r])
    } else {
        p[j + 2 * n - r]
    }
}

/// Index of the coefficient of `p` that lands at `j` in `X^r · p` (`0 <= r < 2N`).
pub open spec fn rot_source(n: int, r: int, j: int) -> int {
    if j >= r {
        j - r
    } else if j + n >= r {
        j + n - r
    } else {
        j + 2 * n - r
    }
}

/// `X^r · p` modulo `X^N + 1`, for `0 <= r < 2N`.
pub open spec fn rotate(p: Seq<u64>, r: int) -> Seq<u64> {
    Seq::new(p.len(), |j: int| rot_at(p, r, j))
}

/// `dst` after its first `N = src.len()` coefficients are overwritten by `X^r · src`
/// (`r` reduced modulo `2N`); the rest of `dst` is kept.
pub open spec fn rotated_into(src: Seq<u64>, r: int, dst: Seq<u64>) -> Seq<u64> {
    Seq::new(
        dst.len(),
        |j: int|
            if j < src.len() {
                rot_at(src, r % (2 * src.len() as int), j)
            } else {
                dst[j]
            },
    )
}

/// The lengths for which the in-place rotation of a length-`n` source into a length-`m`
/// destination is defined: `n > 0`, `m >= n`, and `m == n` when the reduced rotation is below
/// `n` (the copied tail must fill `dst` exactly).
pub open spec fn rotation_fits(n: int, r: int, m: int) -> bool {
    &&& 0 < n
    &&& n <= m
    &&& r % (2 * n) < n ==> m == n
}

pub proof fn lemma_neg_neg(x: u64)
    ensures
        neg(neg(x)) == x,
{
    lemma_tmod_range(-x);
    if x == 0 {
        lemma_tmod_small(0);
    } else {
        lemma_mod_add_multiples_vanish(-x, torus_q());
        lemma_tmod_small(torus_q() - x);
        lemma_mod_sub_multiples_vanish(x - torus_q() + torus_q(), torus_q());
        lemma_tmod_small(x as int);
        assert(-(torus_q() - x) == x - torus_q());
        lemma_mod_add_multiples_vanish(x - torus_q(), torus_q());
    }
}

proof fn lemma_neg_is_wrapping(x: u64)
    ensures
        vstd::wrapping::u64_specs::wrapping_sub(0, x) == neg(x),
{
    lemma_wrapping_sub(0, x);
    lemma_tmod_range(-x);
}

/// `r mod 2N` for a ring of `n` coefficients, computed without overflow (when `2n` exceeds the
/// machine word, `r` is already below it).
fn reduce_exponent(r: usize, n: usize) -> (rr: usize)
    requires
        n > 0,
    ensures
        rr as int == r as int % (2 * n as int),
        rr < 2 * n,
{
    if n <= usize::MAX / 2 {
        r % (2 * n)
    } else {
        proof {
            lemma_small_mod(r as nat, (2 * n) as nat);
        }
        r
    }
}

/// `X^r · p mod (X^N + 1)` for any `r` (reduced modulo `2N`).
pub fn mul_monomial(p: &[u64], r: usize) -> (out: Vec<u64>)
    requires
        p@.len() > 0,
    ensures
        out@ == rotate(p@, r as int % (2 * p@.len() as int)),
{
    let n = p.len();
    let r = reduce_exponent(r, n);
    let mut out: Vec<u64> = Vec::new();
    let mut z: usize = 0;
    while z < n
        invariant
            z <= n,
            out@.len() == z,
            forall|j: int| 0 <= j < z ==> out@[j] == 0,
        decreases n - z,
    {
        out.push(0);
        z = z + 1;
    }
    let mut i: usize = 0;
    while i < n
        invariant
            n == p@.len(),
            r < 2 * n,
            i <= n,
            out@.len() == n,
            forall|j: int|
                0 <= j < n ==> #[trigger] out@[j] == if rot_source(n as int, r as int, j) < i {
                    rot_at(p@, r as int, j)
                } else {
                    0
                },
        decreases n - i,
    {
        proof {
            lemma_neg_is_wrapping(p@[i as int]);
        }
        // coefficient i lands at i + r, wrapping past X^N once (negated) or twice (kept)
        let (pos, v) = if r < n {
            if i < n - r {
                (i + r, p[i])
            } else {
                (i - (n - r), 0u64.wrapping_sub(p[i]))
            }
        } else {
            let s = r - n;
            if i < n - s {
                (i + s, 0u64.wrapping_sub(p[i]))
            } else {
                (i - (n - s), p[i])
            }
        };
        proof {
            assert(rot_source(n as int, r as int, pos as int) == i);
            assert(rot_at(p@, r as int, pos as int) == v);
            assert(out@[pos as int] == 0);
            lemma_wrapping_add(0, v);
            lemma_tmod_small(v as int);
            assert forall|j: int| 0 <= j < n && j != pos implies #[trigger] rot_source(n as int, r as int, j) != i by {}
        }
        out.set(pos, out[pos].wrapping_add(v));
        i = i + 1;
    }
    proof {
        assert(out@ =~= rotate(p@, r as int));
    }
    out
}

/// Allocation-free `dst = X^r · src mod (X^N + 1)`: the non-wrapping part is copied as one
/// contiguous run, the wrapped part is negated.
pub fn mul_monomial_into(src: &[u64], r: usize, dst: &mut [u64])
    requires
        rotation_fits(src@.len() as int, r as int, old(dst)@.len() as int),
    ensures
        final(dst)@ == rotated_into(src@, r as int, old(dst)@),
{
    let n = src.len();
    let rr = reduce_exponent(r, n);
    if rr < n {
        let r = rr;
        let mut i: usize = 0;
        while i < n - r
            invariant
                n == src@.len(),
                r < n,
                dst@.len() == n,
                i <= n - r,
                forall|j: int|
                    0 <= j < n ==> #[trigger] dst@[j] == if r <= j < r + i {
                        src@[j - r]
                    } else {
                        old(dst)@[j]
                    },
            decreases n - r - i,
        {
            dst[r + i] = src[i];
            i = i + 1;
        }
        let mut i: usize = 0;
        while i < r
            invariant
                n == src@.len(),
                r < n,
                dst@.len() == n,
                i <= r,
                forall|j: int|
                    0 <= j < n ==> #[trigger] dst@[j] == if r <= j {
                        src@[j - r]
                    } else if j < i {
                        neg(src@[j + n - r])
                    } else {
                        old(dst)@[j]
                    },
            decreases r - i,
        {
            proof {
                lemma_neg_is_wrapping(src@[n - r + i]);
            }
            dst[i] = 0u64.wrapping_sub(src[n - r + i]);
            i = i + 1;
        }
    } else {
        let r = rr - n;
        let mut i: usize = 0;
        while i < n - r
            invariant
                n == src@.len(),
                r < n,
                dst@.len() >= n,
                dst@.len() == old(dst)@.len(),
                i <= n - r,
                forall|j: int|
                    0 <= j < dst@.len() ==> #[trigger] dst@[j] == if r <= j < r + i {
                        neg(src@[j - r])
                    } else {
                        old(dst)@[j]
                    },
            decreases n - r - i,
        {
            proof {
                lemma_neg_is_wrapping(src@[i as int]);
            }
            dst[r + i] = 0u64.wrapping_sub(src[i]);
            i = i + 1;
        }
        let mut i: usize = 0;
        while i < r
            invariant
                n == src@.len(),
                r < n,
                dst@.len() >= n,
                dst@.len() == old(dst)@.len(),
                i <= r,
                forall|j: int|
                    0 <= j < dst@.len() ==> #[trigger] dst@[j] == if r <= j < n {
                        neg(src@[j - r])
                    } else if j < i {
                        src@[n - r + j]
                    } else {
                        old(dst)@[j]
                    },
            decreases r - i,
        {
            dst[i] = src[n - r + i];
            i = i + 1;
        }
    }
    proof {
        assert(final(dst)@ =~= rotated_into(src@, r as int, old(dst)@));
    }
}

/// Law: multiplying by `X^r` and then by `X^s` is multiplying by `X^(r+s)`, the exponent taken
/// modulo `2N` (`X^(2N) = 1` in `Z_q[X] / (X^N + 1)`).
pub proof fn lemma_rotate_compose(p: Seq<u64>, r: int, s: int)
    requires
        p.len() > 0,
        0 <= r < 2 * p.len(),
        0 <= s < 2 * p.len(),
    ensures
        rotate(rotate(p, r), s) == rotate(p, (r + s) % (2 * p.len() as int)),
{
    let n = p.len() as int;
    let t = (r + s) % (2 * n);
    if r + s < 2 * n {
        lemma_small_mod((r + s) as nat, (2 * n) as nat);
    } else {
        lemma_mod_sub_multiples_vanish(r + s, 2 * n);
        lemma_small_mod((r + s - 2 * n) as nat, (2 * n) as nat);
    }
    assert forall|j: int| 0 <= j < n implies #[trigger] rot_at(rotate(p, r), s, j) == rot_at(
        p,
        t,
        j,
    ) by {
        let k1 = rot_source(n, s, j);
        let k2 = rot_source(n, r, k1);
        lemma_neg_neg(p[k2]);
    }
    assert(rotate(rotate(p, r), s) =~= rotate(p, t));
}

/// Law: `X^0 · p = p` and `X^N · p = -p`.
pub proof fn lemma_rotate_identity_and_half_turn(p: Seq<u64>)
    requires
        p.len() > 0,
    ensures
        rotate(p, 0) == p,
        rotate(p, p.len() as int) == Seq::new(p.len(), |j: int| neg(p[j])),
{
    assert(rotate(p, 0) =~= p);
    assert(rotate(p, p.len() as int) =~= Seq::new(p.len(), |j: int| neg(p[j])));
}

} // verus!
