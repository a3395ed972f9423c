//! The phase of a GLWE ciphertext, `body - Σ_c mask_c · key_c` in `Z_q[X] / (X^N + 1)`, and
//! how the CMux steps move it: adding or subtracting ciphertexts adds or subtracts phases, and
//! multiplying every component by `X^r` multiplies the phase by `X^r`.
use crate::algorithm::glwe::{
    glwe_add, glwe_rotate, glwe_sub, negacyclic_coeff, negacyclic_coeff_upto, signed_coeff,
};
use crate::algorithm::poly::{neg, rot_at, rotate};
use crate::torus::{lemma_tmod_add, lemma_tmod_mul, lemma_tmod_range, lemma_tmod_small, lemma_tmod_sub, tmod};
use vstd::arithmetic::div_mod::*;
use vstd::prelude::*;

verus! {

/// Coefficient `d` of the negacyclic extension of `a` to every integer index: since
/// `X^n = -1`, index `q·n + m` (`0 <= m < n`) holds `(-1)^q · a[m]`.
pub open spec fn ext_coeff(a: Seq<u64>, d: int) -> int {
    let n = a.len() as int;
    if (d / n) % 2 == 0 {
        a[d % n] as int
    } else {
        -(a[d % n] as int)
    }
}

/// `Σ_{v<u} s[v] · ext(a, t - v)`: the first `u` terms of coefficient `t` of `a · s`, with `t`
/// any integer.
pub open spec fn ext_product(a: Seq<u64>, s: Seq<u64>, t: int, u: nat) -> int
    decreases u,
{
    if u == 0 {
        0
    } else {
        ext_product(a, s, t, (u - 1) as nat) + s[u - 1] * ext_coeff(a, t - (u - 1))
    }
}

/// On `[-n, n)` the extension is the signed coefficient.
proof fn lemma_ext_signed(a: Seq<u64>, d: int)
    requires
        a.len() >= 1,
        -(a.len() as int) <= d < a.len(),
    ensures
        ext_coeff(a, d) == signed_coeff(a, d),
{
    let n = a.len() as int;
    if d >= 0 {
        lemma_fundamental_div_mod_converse(d, n, 0, d);
    } else {
        lemma_fundamental_div_mod_converse(d, n, -1, d + n);
    }
}

/// Shifting the index by `k·n` multiplies the extension by `(-1)^k`.
proof fn lemma_ext_shift(a: Seq<u64>, x: int, k: int)
    requires
        a.len() >= 1,
    ensures
        ext_coeff(a, x + k * a.len()) == if k % 2 == 0 {
            ext_coeff(a, x)
        } else {
            -ext_coeff(a, x)
        },
{
    let n = a.len() as int;
    lemma_fundamental_div_mod(x, n);
    lemma_mod_bound(x, n);
    let q = x / n;
    let m = x % n;
    assert(x + k * n == n * (q + k) + m) by (nonlinear_arith)
        requires
            x == n * q + m,
    ;
    lemma_fundamental_div_mod_converse(x + k * n, n, q + k, m);
    lemma_add_mod_noop(q, k, 2);
    lemma_mod_bound(q, 2);
    lemma_mod_bound(k, 2);
    lemma_mod_bound(q + k, 2);
    if q % 2 == 0 && k % 2 == 0 {
        lemma_small_mod(0, 2);
    } else if q % 2 == 1 && k % 2 == 1 {
        lemma_mod_self_0(2);
    } else {
        lemma_small_mod(1, 2);
    }
}

/// For `0 <= t < n` the extended product is the negacyclic coefficient.
proof fn lemma_nc_ext(a: Seq<u64>, s: Seq<u64>, t: int, u: nat)
    requires
        a.len() >= 1,
        0 <= t < a.len(),
        u <= a.len(),
    ensures
        negacyclic_coeff_upto(a, s, t, u) == ext_product(a, s, t, u),
    decreases u,
{
    if u > 0 {
        lemma_nc_ext(a, s, t, (u - 1) as nat);
        lemma_ext_signed(a, t - (u - 1));
    }
}

/// Shifting `t` by `n` negates the extended product.
proof fn lemma_ext_product_period(a: Seq<u64>, s: Seq<u64>, t: int, u: nat)
    requires
        a.len() >= 1,
    ensures
        ext_product(a, s, t + a.len(), u) == -ext_product(a, s, t, u),
    decreases u,
{
    if u > 0 {
        lemma_ext_product_period(a, s, t, (u - 1) as nat);
        lemma_ext_shift(a, t - (u - 1), 1);
        assert(t + a.len() - (u - 1) == t - (u - 1) + 1 * a.len());
        assert(s[u - 1] * (-ext_coeff(a, t - (u - 1))) == -(s[u - 1] * ext_coeff(a, t - (u - 1))))
            by (nonlinear_arith);
    }
}

/// Multiplying by `X^r` shifts the extension by `r` (on the torus).
proof fn lemma_ext_rotate(a: Seq<u64>, r: int, d: int)
    requires
        a.len() >= 1,
        0 <= r < 2 * a.len(),
    ensures
        tmod(ext_coeff(rotate(a, r), d)) == tmod(ext_coeff(a, d - r)),
{
    let n = a.len() as int;
    let ra = rotate(a, r);
    lemma_fundamental_div_mod(d, n);
    lemma_mod_bound(d, n);
    let k = d / n;
    let m = d % n;
    // the coefficient of X^r·a at m is ext(a, m - r), up to the torus
    assert(tmod(ra[m] as int) == tmod(ext_coeff(a, m - r))) by {
        if m >= r {
            lemma_ext_signed(a, m - r);
        } else if m + n >= r {
            lemma_ext_signed(a, m - r);
            lemma_tmod_range(-(a[m + n - r] as int));
            lemma_tmod_small(tmod(-(a[m + n - r] as int)));
        } else {
            lemma_ext_shift(a, m - r + 2 * n, -2);
            lemma_ext_signed(a, m - r + 2 * n);
            assert(m - r + 2 * n + (-2) * n == m - r);
        }
    }
    // ext(ra, d) = (-1)^k ra[m] and ext(a, d - r) = (-1)^k ext(a, m - r)
    lemma_ext_shift(ra, m, k);
    lemma_ext_shift(a, m - r, k);
    assert(m + k * n == d) by (nonlinear_arith)
        requires
            d == n * k + m,
    ;
    assert(m - r + k * n == d - r);
    lemma_small_mod(m as nat, n as nat);
    lemma_fundamental_div_mod_converse(m, n, 0, m);
    assert(ext_coeff(ra, m) == ra[m] as int);
    if k % 2 != 0 {
        lemma_tmod_sub(0, ra[m] as int);
        lemma_tmod_sub(0, ext_coeff(a, m - r));
    }
}

/// Multiplying `a` by `X^r` shifts its products by `r` (on the torus).
proof fn lemma_ext_product_rotate(a: Seq<u64>, s: Seq<u64>, r: int, t: int, u: nat)
    requires
        a.len() >= 1,
        0 <= r < 2 * a.len(),
    ensures
        tmod(ext_product(rotate(a, r), s, t, u)) == tmod(ext_product(a, s, t - r, u)),
    decreases u,
{
    if u > 0 {
        let v = (u - 1) as nat;
        lemma_ext_product_rotate(a, s, r, t, v);
        let ra = rotate(a, r);
        let x = ext_coeff(ra, t - v);
        let y = ext_coeff(a, t - r - v);
        lemma_ext_rotate(a, r, t - v);
        assert(t - v - r == t - r - v);
        lemma_tmod_mul(s[v as int] as int, x);
        lemma_tmod_mul(s[v as int] as int, y);
        let p1 = ext_product(ra, s, t, v);
        let p2 = ext_product(a, s, t - r, v);
        lemma_tmod_add(p1, s[v as int] * x);
        lemma_tmod_add(p2, s[v as int] * y);
        lemma_tmod_add(tmod(p1), s[v as int] * x);
        lemma_tmod_add(tmod(p2), s[v as int] * y);
        lemma_tmod_add(p1, tmod(s[v as int] * x));
        lemma_tmod_add(p2, tmod(s[v as int] * y));
    }
}

/// A polynomial congruent coefficient-wise to `a + sg·b` (`sg = ±1`) has products congruent
/// to those of `a` plus `sg` times those of `b`.
proof fn lemma_ext_product_combine(
    a: Seq<u64>,
    b: Seq<u64>,
    c: Seq<u64>,
    s: Seq<u64>,
    sg: int,
    t: int,
    u: nat,
)
    requires
        a.len() >= 1,
        b.len() == a.len(),
        c.len() == a.len(),
        sg == 1 || sg == -1,
        forall|i: int| 0 <= i < a.len() ==> tmod(#[trigger] c[i] as int) == tmod(a[i] + sg * b[i]),
    ensures
        tmod(ext_product(c, s, t, u)) == tmod(
            ext_product(a, s, t, u) + sg * ext_product(b, s, t, u),
        ),
    decreases u,
{
    if u > 0 {
        let v = (u - 1) as nat;
        lemma_ext_product_combine(a, b, c, s, sg, t, v);
        let n = a.len() as int;
        let d = t - v;
        let m = d % n;
        lemma_mod_bound(d, n);
        let ea = ext_coeff(a, d);
        let eb = ext_coeff(b, d);
        let ec = ext_coeff(c, d);
        assert(tmod(c[m] as int) == tmod(a[m] + sg * b[m]));
        assert(tmod(ec) == tmod(ea + sg * eb)) by {
            if (d / n) % 2 != 0 {
                lemma_tmod_sub(0, c[m] as int);
                lemma_tmod_sub(0, a[m] + sg * b[m]);
                assert(-(a[m] + sg * b[m]) == ea + sg * eb);
            }
        }
        let sv = s[v as int] as int;
        lemma_tmod_mul(sv, ec);
        lemma_tmod_mul(sv, ea + sg * eb);
        let pa = ext_product(a, s, t, v);
        let pb = ext_product(b, s, t, v);
        let pc = ext_product(c, s, t, v);
        lemma_tmod_add(pc, sv * ec);
        lemma_tmod_add(tmod(pc), sv * ec);
        lemma_tmod_add(pa + sg * pb, sv * ec);
        lemma_tmod_add(pa + sg * pb, tmod(sv * ec));
        lemma_tmod_add(pa + sg * pb, sv * (ea + sg * eb));
        lemma_tmod_add(pa + sg * pb, tmod(sv * (ea + sg * eb)));
        assert(pa + sg * pb + sv * (ea + sg * eb) == (pa + sv * ea) + sg * (pb + sv * eb))
            by (nonlinear_arith);
    }
}

/// `Σ_{c<i} (g[c] · key[c])_t`: coefficient `t` of the first `i` mask-times-key products.
pub open spec fn mask_key_coeff(g: Seq<Seq<u64>>, key: Seq<Seq<u64>>, i: nat, t: int) -> int
    decreases i,
{
    if i == 0 {
        0
    } else {
        mask_key_coeff(g, key, (i - 1) as nat, t) + negacyclic_coeff(g[i - 1], key[i - 1], t)
    }
}

/// The phase of a GLWE given by its components (`k` masks, then the body) under the key
/// `key`: coefficient `t` is `body[t] - Σ_c (mask_c · key_c)_t` on the torus.
pub open spec fn glwe_phase(g: Seq<Seq<u64>>, key: Seq<Seq<u64>>) -> Seq<u64> {
    let k = (g.len() - 1) as nat;
    Seq::new(g[k as int].len(), |t: int| tmod(g[k as int][t] - mask_key_coeff(g, key, k, t)) as u64)
}

/// `g` has at least the body, every component has `n >= 1` coefficients, and `key` holds a
/// polynomial of `n` coefficients for every mask.
pub open spec fn glwe_key_fits(g: Seq<Seq<u64>>, key: Seq<Seq<u64>>, n: nat) -> bool {
    &&& g.len() >= 1
    &&& n >= 1
    &&& forall|c: int| 0 <= c < g.len() ==> (#[trigger] g[c]).len() == n
    &&& key.len() + 1 >= g.len()
    &&& forall|c: int| 0 <= c < g.len() - 1 ==> (#[trigger] key[c]).len() == n
}

/// `Σ_{c<i} (g[c] · key[c])_t` with `t` any integer.
spec fn key_product(g: Seq<Seq<u64>>, key: Seq<Seq<u64>>, i: nat, t: int) -> int
    decreases i,
{
    if i == 0 {
        0
    } else {
        key_product(g, key, (i - 1) as nat, t) + ext_product(
            g[i - 1],
            key[i - 1],
            t,
            key[i - 1].len(),
        )
    }
}

proof fn lemma_tmod_cong(x1: int, y1: int, x2: int, y2: int)
    requires
        tmod(x1) == tmod(y1),
        tmod(x2) == tmod(y2),
    ensures
        tmod(x1 + x2) == tmod(y1 + y2),
        tmod(x1 - x2) == tmod(y1 - y2),
{
    lemma_tmod_add(x1, x2);
    lemma_tmod_add(y1, y2);
    lemma_tmod_add(x1, tmod(x2));
    lemma_tmod_add(y1, tmod(y2));
    lemma_tmod_sub(x1, x2);
    lemma_tmod_sub(y1, y2);
    lemma_tmod_sub(x1, tmod(x2));
    lemma_tmod_sub(y1, tmod(y2));
}

proof fn lemma_mask_key_ext(g: Seq<Seq<u64>>, key: Seq<Seq<u64>>, n: nat, i: nat, t: int)
    requires
        glwe_key_fits(g, key, n),
        i < g.len(),
        0 <= t < n,
    ensures
        mask_key_coeff(g, key, i, t) == key_product(g, key, i, t),
    decreases i,
{
    if i > 0 {
        lemma_mask_key_ext(g, key, n, (i - 1) as nat, t);
        assert(g[i - 1].len() == n);
        assert(key[i - 1].len() == n);
        lemma_nc_ext(g[i - 1], key[i - 1], t, key[i - 1].len());
    }
}

proof fn lemma_key_product_period(g: Seq<Seq<u64>>, key: Seq<Seq<u64>>, n: nat, i: nat, t: int)
    requires
        glwe_key_fits(g, key, n),
        i < g.len(),
    ensures
        key_product(g, key, i, t + n) == -key_product(g, key, i, t),
    decreases i,
{
    if i > 0 {
        lemma_key_product_period(g, key, n, (i - 1) as nat, t);
        assert(g[i - 1].len() == n);
        lemma_ext_product_period(g[i - 1], key[i - 1], t, key[i - 1].len());
    }
}

proof fn lemma_key_product_rotate(
    g: Seq<Seq<u64>>,
    key: Seq<Seq<u64>>,
    n: nat,
    r: int,
    i: nat,
    t: int,
)
    requires
        glwe_key_fits(g, key, n),
        i < g.len(),
        0 <= r < 2 * n,
    ensures
        tmod(key_product(Seq::new(g.len(), |c: int| rotate(g[c], r)), key, i, t)) == tmod(
            key_product(g, key, i, t - r),
        ),
    decreases i,
{
    if i > 0 {
        let f = Seq::new(g.len(), |c: int| rotate(g[c], r));
        lemma_key_product_rotate(g, key, n, r, (i - 1) as nat, t);
        assert(g[i - 1].len() == n);
        assert(f[i - 1] == rotate(g[i - 1], r));
        lemma_ext_product_rotate(g[i - 1], key[i - 1], r, t, key[i - 1].len());
        lemma_tmod_cong(
            key_product(f, key, (i - 1) as nat, t),
            key_product(g, key, (i - 1) as nat, t - r),
            ext_product(f[i - 1], key[i - 1], t, key[i - 1].len()),
            ext_product(g[i - 1], key[i - 1], t - r, key[i - 1].len()),
        );
    }
}

proof fn lemma_key_product_combine(
    a: Seq<Seq<u64>>,
    b: Seq<Seq<u64>>,
    f: Seq<Seq<u64>>,
    key: Seq<Seq<u64>>,
    n: nat,
    sg: int,
    i: nat,
    t: int,
)
    requires
        glwe_key_fits(a, key, n),
        glwe_key_fits(b, key, n),
        glwe_key_fits(f, key, n),
        i < a.len(),
        b.len() == a.len(),
        f.len() == a.len(),
        sg == 1 || sg == -1,
        forall|c: int, j: int|
            0 <= c < a.len() && 0 <= j < n ==> tmod(#[trigger] f[c][j] as int) == tmod(
                a[c][j] + sg * b[c][j],
            ),
    ensures
        tmod(key_product(f, key, i, t)) == tmod(
            key_product(a, key, i, t) + sg * key_product(b, key, i, t),
        ),
    decreases i,
{
    if i > 0 {
        let c = i - 1;
        lemma_key_product_combine(a, b, f, key, n, sg, (i - 1) as nat, t);
        assert(a[c].len() == n && b[c].len() == n && f[c].len() == n);
        assert forall|j: int| 0 <= j < a[c].len() implies tmod(#[trigger] f[c][j] as int) == tmod(
            a[c][j] + sg * b[c][j],
        ) by {}
        lemma_ext_product_combine(a[c], b[c], f[c], key[c], sg, t, key[c].len());
        let ka = key_product(a, key, (i - 1) as nat, t);
        let kb = key_product(b, key, (i - 1) as nat, t);
        let ea = ext_product(a[c], key[c], t, key[c].len());
        let eb = ext_product(b[c], key[c], t, key[c].len());
        lemma_tmod_cong(
            key_product(f, key, (i - 1) as nat, t),
            ka + sg * kb,
            ext_product(f[c], key[c], t, key[c].len()),
            ea + sg * eb,
        );
        assert(ka + sg * kb + (ea + sg * eb) == (ka + ea) + sg * (kb + eb)) by (nonlinear_arith);
    }
}

/// The phase of a componentwise combination `f ≡ a + sg·b` (`sg = ±1`) is `phase(a) + sg·phase(b)`.
proof fn lemma_phase_combine(
    a: Seq<Seq<u64>>,
    b: Seq<Seq<u64>>,
    f: Seq<Seq<u64>>,
    key: Seq<Seq<u64>>,
    n: nat,
    sg: int,
)
    requires
        glwe_key_fits(a, key, n),
        glwe_key_fits(b, key, n),
        glwe_key_fits(f, key, n),
        b.len() == a.len(),
        f.len() == a.len(),
        sg == 1 || sg == -1,
        forall|c: int, j: int|
            0 <= c < a.len() && 0 <= j < n ==> tmod(#[trigger] f[c][j] as int) == tmod(
                a[c][j] + sg * b[c][j],
            ),
    ensures
        glwe_phase(f, key).len() == n,
        forall|t: int|
            0 <= t < n ==> #[trigger] glwe_phase(f, key)[t] as int == tmod(
                glwe_phase(a, key)[t] + sg * glwe_phase(b, key)[t],
            ),
{
    let k = (a.len() - 1) as nat;
    assert forall|t: int| 0 <= t < n implies #[trigger] glwe_phase(f, key)[t] as int == tmod(
        glwe_phase(a, key)[t] + sg * glwe_phase(b, key)[t],
    ) by {
        lemma_mask_key_ext(a, key, n, k, t);
        lemma_mask_key_ext(b, key, n, k, t);
        lemma_mask_key_ext(f, key, n, k, t);
        lemma_key_product_combine(a, b, f, key, n, sg, k, t);
        let ka = key_product(a, key, k, t);
        let kb = key_product(b, key, k, t);
        let kf = key_product(f, key, k, t);
        let ba = a[k as int][t] as int;
        let bb = b[k as int][t] as int;
        let bf = f[k as int][t] as int;
        // phase(f) ≡ bf - kf ≡ (ba + sg·bb) - (ka + sg·kb)
        lemma_tmod_cong(bf, ba + sg * bb, kf, ka + sg * kb);
        lemma_tmod_range(bf - kf);
        lemma_tmod_range(ba - ka);
        lemma_tmod_range(bb - kb);
        lemma_tmod_small(tmod(bf - kf));
        let pa = tmod(ba - ka);
        let pb = tmod(bb - kb);
        lemma_tmod_mul(sg, bb - kb);
        lemma_tmod_cong(pa, ba - ka, sg * pb, sg * (bb - kb));
        assert(ba + sg * bb - (ka + sg * kb) == (ba - ka) + sg * (bb - kb)) by (nonlinear_arith);
        assert(glwe_phase(a, key)[t] as int == pa);
        assert(glwe_phase(b, key)[t] as int == pb);
    }
}

/// Law: adding GLWE ciphertexts adds their phases. Under any key that fits, coefficient `t` of
/// the phase of `a + b` (componentwise, masks and body) is the torus sum of the phases'.
pub proof fn lemma_glwe_add_phase(a: Seq<Seq<u64>>, b: Seq<Seq<u64>>, key: Seq<Seq<u64>>, n: nat)
    requires
        glwe_key_fits(a, key, n),
        glwe_key_fits(b, key, n),
        b.len() == a.len(),
    ensures
        glwe_phase(glwe_add(a, b), key).len() == n,
        forall|t: int|
            0 <= t < n ==> #[trigger] glwe_phase(glwe_add(a, b), key)[t] as int == tmod(
                glwe_phase(a, key)[t] + glwe_phase(b, key)[t],
            ),
{
    let f = glwe_add(a, b);
    assert forall|c: int, j: int| 0 <= c < a.len() && 0 <= j < n implies tmod(
        #[trigger] f[c][j] as int,
    ) == tmod(a[c][j] + 1 * b[c][j]) by {
        lemma_tmod_range(a[c][j] + b[c][j]);
        lemma_tmod_small(tmod(a[c][j] + b[c][j]));
    }
    lemma_phase_combine(a, b, f, key, n, 1);
}

/// Law: subtracting GLWE ciphertexts subtracts their phases. Under any key that fits,
/// coefficient `t` of the phase of `a - b` (componentwise) is the torus difference of the
/// phases'.
pub proof fn lemma_glwe_sub_phase(a: Seq<Seq<u64>>, b: Seq<Seq<u64>>, key: Seq<Seq<u64>>, n: nat)
    requires
        glwe_key_fits(a, key, n),
        glwe_key_fits(b, key, n),
        b.len() == a.len(),
    ensures
        glwe_phase(glwe_sub(a, b), key).len() == n,
        forall|t: int|
            0 <= t < n ==> #[trigger] glwe_phase(glwe_sub(a, b), key)[t] as int == tmod(
                glwe_phase(a, key)[t] - glwe_phase(b, key)[t],
            ),
{
    let f = glwe_sub(a, b);
    assert forall|c: int, j: int| 0 <= c < a.len() && 0 <= j < n implies tmod(
        #[trigger] f[c][j] as int,
    ) == tmod(a[c][j] + (-1) * b[c][j]) by {
        lemma_tmod_range(a[c][j] - b[c][j]);
        lemma_tmod_small(tmod(a[c][j] - b[c][j]));
    }
    lemma_phase_combine(a, b, f, key, n, -1);
    assert forall|t: int| 0 <= t < n implies #[trigger] glwe_phase(f, key)[t] as int == tmod(
        glwe_phase(a, key)[t] - glwe_phase(b, key)[t],
    ) by {
        assert(glwe_phase(a, key)[t] + (-1) * glwe_phase(b, key)[t] == glwe_phase(a, key)[t]
            - glwe_phase(b, key)[t]);
    }
}

/// Law: multiplying every component of a GLWE by `X^r` multiplies its phase by `X^r`. Under
/// any key that fits, the phase of the rotated ciphertext (masks and body rotated) is the
/// phase of the input rotated by `r mod 2N`.
pub proof fn lemma_glwe_rotate_phase(a: Seq<Seq<u64>>, key: Seq<Seq<u64>>, n: nat, r: int)
    requires
        glwe_key_fits(a, key, n),
    ensures
        glwe_phase(glwe_rotate(a, r, n as int), key) == rotate(
            glwe_phase(a, key),
            r % (2 * n as int),
        ),
{
    let n2 = 2 * n as int;
    lemma_mod_bound(r, n2);
    let rr = r % n2;
    let f = glwe_rotate(a, r, n as int);
    let g = Seq::new(a.len(), |c: int| rotate(a[c], rr));
    assert(f =~= g);
    let k = (a.len() - 1) as nat;
    let pa = glwe_phase(a, key);
    let pf = glwe_phase(f, key);
    assert(glwe_key_fits(f, key, n));
    assert forall|t: int| 0 <= t < n implies #[trigger] pf[t] == rot_at(pa, rr, t) by {
        lemma_mask_key_ext(f, key, n, k, t);
        lemma_key_product_rotate(a, key, n, rr, k, t);
        let kf = key_product(f, key, k, t);
        let x = t - rr;
        let body = a[k as int];
        let fb = f[k as int][t] as int;
        lemma_tmod_range(fb - kf);
        lemma_tmod_small(tmod(fb - kf));
        if t >= rr {
            lemma_mask_key_ext(a, key, n, k, x);
            lemma_tmod_cong(fb, body[x] as int, kf, key_product(a, key, k, x));
        } else if t + n >= rr {
            let y = x + n;
            lemma_mask_key_ext(a, key, n, k, y);
            lemma_key_product_period(a, key, n, k, x);
            let ky = key_product(a, key, k, y);
            lemma_tmod_range(-(body[y] as int));
            lemma_tmod_small(tmod(-(body[y] as int)));
            lemma_tmod_cong(fb, -(body[y] as int), kf, key_product(a, key, k, x));
            lemma_tmod_range(body[y] - ky);
            lemma_tmod_sub(0, body[y] - ky);
            assert(-(body[y] as int) - key_product(a, key, k, x) == 0 - (body[y] - ky));
        } else {
            let y = x + 2 * n;
            lemma_mask_key_ext(a, key, n, k, y);
            lemma_key_product_period(a, key, n, k, x);
            lemma_key_product_period(a, key, n, k, x + n);
            assert(x + n + n == y);
            lemma_tmod_cong(fb, body[y] as int, kf, key_product(a, key, k, x));
        }
    }
    assert(pf =~= rotate(pa, rr));
}

/// The all-zero polynomial contributes nothing to a product.
proof fn lemma_nc_zero(a: Seq<u64>, s: Seq<u64>, t: int, u: nat)
    requires
        forall|j: int| 0 <= j < a.len() ==> a[j] == 0,
        -(a.len() as int) <= t - u + 1,
        t < a.len(),
    ensures
        negacyclic_coeff_upto(a, s, t, u) == 0,
    decreases u,
{
    if u > 0 {
        lemma_nc_zero(a, s, t, (u - 1) as nat);
        assert(signed_coeff(a, t - (u - 1)) == 0);
        assert(s[u - 1] * 0 == 0);
    }
}

/// The constant polynomial `δ` times `s` has coefficient `t` equal to `δ·s[t]`.
proof fn lemma_nc_unit(a: Seq<u64>, s: Seq<u64>, t: int, u: nat)
    requires
        a.len() >= 1,
        forall|j: int| 0 < j < a.len() ==> a[j] == 0,
        0 <= t < a.len(),
        u <= a.len(),
    ensures
        negacyclic_coeff_upto(a, s, t, u) == if t < u {
            s[t] * a[0]
        } else {
            0
        },
    decreases u,
{
    if u > 0 {
        let v = u - 1;
        lemma_nc_unit(a, s, t, (u - 1) as nat);
        if v != t {
            assert(signed_coeff(a, t - v) == 0);
            assert(s[v] * 0 == 0);
        }
    }
}

/// The mask-times-key sum of a GLWE whose only non-zero coefficient is coefficient 0 of
/// component `ci`.
proof fn lemma_mask_key_unit(b: Seq<Seq<u64>>, key: Seq<Seq<u64>>, n: nat, ci: int, i: nat, t: int)
    requires
        glwe_key_fits(b, key, n),
        0 <= ci < b.len(),
        forall|c: int, j: int|
            0 <= c < b.len() && 0 <= j < n && (c != ci || j != 0) ==> #[trigger] b[c][j] == 0,
        i < b.len(),
        0 <= t < n,
    ensures
        mask_key_coeff(b, key, i, t) == if ci < i {
            key[ci][t] * b[ci][0]
        } else {
            0
        },
    decreases i,
{
    if i > 0 {
        let c = i - 1;
        lemma_mask_key_unit(b, key, n, ci, (i - 1) as nat, t);
        assert(b[c].len() == n && key[c].len() == n);
        if c == ci {
            lemma_nc_unit(b[c], key[c], t, key[c].len());
        } else {
            lemma_nc_zero(b[c], key[c], t, key[c].len());
        }
    }
}

/// Law: adding `d` to coefficient 0 of one component of a GLWE (a gadget term of a GGSW row)
/// moves its phase by `d` at coefficient 0 when the component is the body, and by
/// `-d · key_ci` when it is mask `ci`.
pub proof fn lemma_gadget_term_phase(g: Seq<Seq<u64>>, key: Seq<Seq<u64>>, n: nat, ci: int, d: int)
    requires
        glwe_key_fits(g, key, n),
        0 <= ci < g.len(),
    ensures
        ({
            let h = g.update(ci, g[ci].update(0, tmod(g[ci][0] + d) as u64));
            &&& glwe_phase(h, key).len() == n
            &&& forall|t: int|
                0 <= t < n ==> #[trigger] glwe_phase(h, key)[t] as int == if ci == g.len() - 1 {
                    tmod(glwe_phase(g, key)[t] + if t == 0 {
                        d
                    } else {
                        0
                    })
                } else {
                    tmod(glwe_phase(g, key)[t] - d * key[ci][t])
                }
        }),
{
    let h = g.update(ci, g[ci].update(0, tmod(g[ci][0] + d) as u64));
    let dd = tmod(d) as u64;
    lemma_tmod_range(d);
    let b = Seq::new(
        g.len(),
        |c: int| Seq::new(n, |j: int| if c == ci && j == 0 { dd } else { 0u64 }),
    );
    assert(glwe_key_fits(h, key, n));
    assert(glwe_key_fits(b, key, n));
    assert forall|c: int, j: int| 0 <= c < g.len() && 0 <= j < n implies tmod(
        #[trigger] h[c][j] as int,
    ) == tmod(g[c][j] + 1 * b[c][j]) by {
        if c == ci && j == 0 {
            lemma_tmod_range(g[c][0] + d);
            lemma_tmod_small(tmod(g[c][0] + d));
            lemma_tmod_add(g[c][0] as int, d);
        } else {
            lemma_tmod_small(h[c][j] as int);
        }
    }
    lemma_phase_combine(g, b, h, key, n, 1);
    let k = (g.len() - 1) as nat;
    assert forall|t: int| 0 <= t < n implies #[trigger] glwe_phase(h, key)[t] as int == if ci
        == g.len() - 1 {
        tmod(glwe_phase(g, key)[t] + if t == 0 {
            d
        } else {
            0
        })
    } else {
        tmod(glwe_phase(g, key)[t] - d * key[ci][t])
    } by {
        lemma_mask_key_unit(b, key, n, ci, k, t);
        let pg = glwe_phase(g, key)[t] as int;
        let pb = glwe_phase(b, key)[t] as int;
        lemma_tmod_range(pb);
        if ci == k {
            // phase(b) is d at coefficient 0 and 0 elsewhere
            let e: int = if t == 0 { d } else { 0 };
            assert(tmod(pb) == tmod(e)) by {
                lemma_tmod_small(dd as int);
                lemma_tmod_small(0);
                lemma_tmod_range(b[k as int][t] - 0);
                lemma_tmod_small(tmod(b[k as int][t] as int));
                if t == 0 {
                    lemma_tmod_small(tmod(d));
                }
            }
            lemma_tmod_cong(pg, pg, pb, e);
        } else {
            // phase(b) is -d·key_ci
            assert(b[k as int][t] == 0);
            assert(mask_key_coeff(b, key, k, t) == key[ci][t] * dd);
            lemma_tmod_small(tmod(0 - key[ci][t] * dd));
            lemma_tmod_mul(key[ci][t] as int, d);
            lemma_tmod_sub(0, key[ci][t] * dd);
            lemma_tmod_sub(0, key[ci][t] * d);
            assert(tmod(pb) == tmod(-(d * key[ci][t]))) by {
                assert(key[ci][t] * d == d * key[ci][t]) by (nonlinear_arith);
                assert(0 - key[ci][t] * d == -(d * key[ci][t]));
            }
            lemma_tmod_cong(pg, pg, pb, -(d * key[ci][t]));
        }
    }
}

} // verus!
