//! The cycle structure of the probe walk. Once the perturbation word has
//! shifted away (thirteen steps), the walk is `i ↦ 5·i + 1 (mod 2^k)`,
//! whose multiplier is 1 mod 4 and whose increment is odd, so it runs
//! through all `2^k` slots in a single cycle. A probe therefore reaches
//! every slot of the table — in particular an empty one, whenever one
//! exists — well within the probe budget.

use vstd::prelude::*;
use vstd::arithmetic::power2::pow2;
use vstd::arithmetic::power2::lemma_pow2_pos;
use vstd::arithmetic::power2::lemma_pow2_unfold;
use vstd::arithmetic::power2::lemma_pow2_adds;
use vstd::arithmetic::power2::lemma_pow2_strictly_increases;
use vstd::arithmetic::power2::lemma2_to64;
use vstd::arithmetic::power2::lemma2_to64_rest;
use vstd::arithmetic::div_mod::lemma_add_mod_noop;
use vstd::arithmetic::div_mod::lemma_mul_mod_noop_right;
use vstd::arithmetic::div_mod::lemma_mod_mod;
use vstd::arithmetic::div_mod::lemma_mod_twice;
use vstd::arithmetic::div_mod::lemma_mod_multiples_vanish;
use vstd::bits::lemma_u64_low_bits_mask_is_mod;
use vstd::bits::low_bits_mask;
use vstd::set_lib::set_int_range;
use vstd::set_lib::lemma_int_range;
use vstd::set_lib::lemma_len_subset;
use crate::entry::Entry;
use crate::key::TableKey;
use crate::probe::probe_index;
use crate::probe::shifted_hash;
use crate::probe::lemma_probe_index_bounded;
use crate::model::PROBE_LIMIT;
use crate::model::spec_is_pow2;
use crate::model::num_full;
use crate::model::num_tomb;
use crate::model::lemma_no_tombs;

verus! {

/// The bare recurrence: `n` steps of `i ↦ (5·i + 1) mod m` from `x`.
pub open spec fn lcg_iter(x: nat, n: nat, m: nat) -> nat
    decreases n,
{
    if n == 0 {
        x
    } else {
        lcg_iter((5 * x + 1) % m, (n - 1) as nat, m)
    }
}

spec fn pow5(n: nat) -> nat
    decreases n,
{
    if n == 0 {
        1
    } else {
        5 * pow5((n - 1) as nat)
    }
}

proof fn lemma_lcg_bound(x: nat, n: nat, m: nat)
    requires
        m > 0,
        x < m,
    ensures
        lcg_iter(x, n, m) < m,
    decreases n,
{
    if n > 0 {
        lemma_lcg_bound((5 * x + 1) % m, (n - 1) as nat, m);
    }
}

proof fn lemma_lcg_add(x: nat, a: nat, b: nat, m: nat)
    requires
        m > 0,
    ensures
        lcg_iter(x, a + b, m) == lcg_iter(lcg_iter(x, a, m), b, m),
    decreases a,
{
    if a > 0 {
        lemma_lcg_add((5 * x + 1) % m, (a - 1) as nat, b, m);
        assert(((a + b) - 1) as nat == (a - 1) as nat + b);
        assert(lcg_iter(x, a + b, m) == lcg_iter((5 * x + 1) % m, ((a + b) - 1) as nat, m));
        assert(lcg_iter(x, a, m) == lcg_iter((5 * x + 1) % m, (a - 1) as nat, m));
    }
}

/// One affine step is insensitive to first reducing its argument.
proof fn lemma_affine_mod(y: nat, m: nat)
    requires
        m > 0,
    ensures
        (5 * (y % m) + 1) % m == (5 * y + 1) % m,
{
    lemma_mul_mod_noop_right(5, y as int, m as int);
    lemma_add_mod_noop((5 * (y % m)) as int, 1, m as int);
    lemma_add_mod_noop((5 * y) as int, 1, m as int);
    lemma_mod_twice((5 * y) as int, m as int);
}

proof fn lemma_add_left_mod(a: nat, b: nat, m: nat)
    requires
        m > 0,
    ensures
        (a % m + b) % m == (a + b) % m,
{
    lemma_add_mod_noop(a as int, b as int, m as int);
    lemma_add_mod_noop((a % m) as int, b as int, m as int);
    lemma_mod_twice(a as int, m as int);
}

/// Projection: the walk modulo `2^(k+1)`, reduced modulo `2^k`, is the
/// walk modulo `2^k`.
proof fn lemma_lcg_proj(x: nat, n: nat, k: nat)
    requires
        x < pow2(k + 1),
    ensures
        lcg_iter(x, n, pow2(k + 1)) % pow2(k) == lcg_iter(x % pow2(k), n, pow2(k)),
    decreases n,
{
    lemma_pow2_pos(k);
    lemma_pow2_pos(k + 1);
    let m = pow2(k);
    let m2 = pow2(k + 1);
    if n == 0 {
    } else {
        let x1 = (5 * x + 1) % m2;
        assert(m2 == 2 * m) by {
            lemma_pow2_unfold(k + 1);
        }
        assert(x1 % m == (5 * x + 1) % m) by {
            lemma_mod_mod((5 * x + 1) as int, m as int, 2);
            assert(m as int * 2 == m2 as int);
        }
        assert((5 * (x % m) + 1) % m == (5 * x + 1) % m) by {
            lemma_affine_mod(x, m);
        }
        lemma_lcg_proj(x1, (n - 1) as nat, k);
        assert(lcg_iter(x % m, n, m) == lcg_iter((5 * (x % m) + 1) % m, (n - 1) as nat, m));
        assert((5 * (x % m) + 1) % m == x1 % m);
    }
}

proof fn lemma_pow5_mod4(n: nat)
    ensures
        pow5(n) % 4 == 1,
        pow5(n) >= 1,
    decreases n,
{
    if n > 0 {
        lemma_pow5_mod4((n - 1) as nat);
        let p = pow5((n - 1) as nat);
        assert(pow5(n) == 5 * p);
        assert((5 * p) % 4 == 1) by {
            assert(5 * p == 4 * p + p);
            lemma_mod_multiples_vanish(p as int, p as int, 4);
        }
    }
}

/// Shifting the start by `d` shifts step `j` by `5^j · d`, modulo `m`.
proof fn lemma_lcg_shift(x: nat, d: nat, j: nat, m: nat)
    requires
        m > 0,
        x < m,
    ensures
        lcg_iter((x + d) % m, j, m) == (lcg_iter(x, j, m) + pow5(j) * d) % m,
    decreases j,
{
    if j == 0 {
        lemma_add_left_mod(x, d, m);
        assert((x % m + d) % m == (x + d) % m);
        lemma_small_mod_self(x, m);
        assert(pow5(0) == 1);
        assert(lcg_iter((x + d) % m, 0, m) == (x + d) % m);
        assert(lcg_iter(x, 0, m) == x);
        assert((lcg_iter(x, 0, m) + pow5(0) * d) % m == (x + d) % m);
    } else {
        let x1 = (5 * x + 1) % m;
        // the step out of (x + d) % m lands on (x1 + 5d) % m
        assert((5 * ((x + d) % m) + 1) % m == (x1 + 5 * d) % m) by {
            lemma_affine_mod(x + d, m);
            assert((5 * (x + d) + 1) % m == ((5 * x + 1) + 5 * d) % m);
            lemma_add_left_mod(5 * x + 1, 5 * d, m);
        }
        assert(lcg_iter((x + d) % m, j, m) == lcg_iter((x1 + 5 * d) % m, (j - 1) as nat, m));
        lemma_lcg_shift(x1, 5 * d, (j - 1) as nat, m);
        assert(lcg_iter((x1 + 5 * d) % m, (j - 1) as nat, m) == (lcg_iter(x1, (j - 1) as nat, m)
            + pow5((j - 1) as nat) * (5 * d)) % m);
        assert(pow5((j - 1) as nat) * (5 * d) == pow5(j) * d) by (nonlinear_arith)
            requires
                pow5(j) == 5 * pow5((j - 1) as nat),
        ;
        assert(lcg_iter(x, j, m) == lcg_iter(x1, (j - 1) as nat, m));
        assert(lcg_iter((x + d) % m, j, m) == (lcg_iter(x, j, m) + pow5(j) * d) % m);
    }
}

/// Half the modulus in steps lands exactly half the modulus away.
proof fn lemma_lcg_half(k: nat, x: nat)
    requires
        1 <= k,
        x < pow2(k),
    ensures
        lcg_iter(x, pow2((k - 1) as nat), pow2(k)) == (x + pow2((k - 1) as nat)) % pow2(k),
    decreases k,
{
    lemma_pow2_pos(k);
    lemma_pow2_pos((k - 1) as nat);
    let m2 = pow2(k);
    if k == 1 {
        assert(pow2(0) == 1 && pow2(1) == 2) by {
            lemma2_to64();
        }
        assert(lcg_iter(x, 1, 2) == lcg_iter((5 * x + 1) % 2, 0, 2));
        assert(lcg_iter(x, 1, 2) == (5 * x + 1) % 2);
        assert((5 * x + 1) % 2 == (x + 1) % 2) by {
            assert(5 * x + 1 == 2 * (2 * x) + (x + 1));
            lemma_mod_multiples_vanish((2 * x) as int, (x + 1) as int, 2);
        }
    } else {
        let km = (k - 1) as nat;  // k - 1 >= 1
        let t = pow2((km - 1) as nat);  // 2^(k-2)
        let m = pow2(km);  // 2^(k-1)
        assert(m == 2 * t) by {
            lemma_pow2_unfold(km);
        }
        assert(m2 == 2 * m) by {
            lemma_pow2_unfold(k);
        }
        let yt = lcg_iter(x, t, m2);
        lemma_lcg_bound(x, t, m2);
        // project one level and apply the half-step fact there
        assert(yt % m == (x % m + t) % m) by {
            lemma_lcg_proj(x, t, (k - 1) as nat);
            lemma_lcg_half(km, x % m);
        }
        // the displacement after t steps is t plus a multiple of m
        let d = if yt >= x {
            (yt - x) as nat
        } else {
            (yt + m2 - x) as nat
        };
        assert(yt == (x + d) % m2) by {
            if yt >= x {
                assert(x + d == yt);
                lemma_small_mod_self(yt, m2);
            } else {
                assert(x + d == yt + m2);
                lemma_mod_multiples_vanish(1, yt as int, m2 as int);
                lemma_small_mod_self(yt, m2);
            }
        }
        assert(d < m2);
        assert(d % m == t) by {
            // yt == x + d - b*m2 for b in {0,1}; reduce mod m
            if yt >= x {
                assert(yt == x + d);
                lemma_add_left_mod2(x, d, m);
            } else {
                assert(yt + m2 == x + d);
                assert((yt + m2) % m == yt % m) by {
                    assert(yt + m2 == m * 2 + yt);
                    lemma_mod_multiples_vanish(2, yt as int, m as int);
                }
                lemma_add_left_mod2(x, d, m);
            }
            // (x % m + d % m) % m == (x % m + t) % m and both d % m, t < m
            assert((x % m + d % m) % m == (x % m + t) % m);
            lemma_cancel_left(x % m, d % m, t, m);
        }
        // so d is an odd multiple of 2^(k-2)
        let b = (d - t) as nat / m;
        assert(d == t + b * m && b < 2) by {
            assert(d % m == t);
            lemma_fundamental(d, t, m);
        }
        assert(d == t * (1 + 2 * b)) by {
            assert(m == 2 * t);
            assert(t + b * (2 * t) == t * (1 + 2 * b)) by (nonlinear_arith);
        }
        // two half-walks compose: offset (1 + 5^t) * d
        lemma_lcg_add(x, t, t, m2);
        assert(lcg_iter(x, t + t, m2) == lcg_iter(yt, t, m2));
        assert(lcg_iter(yt, t, m2) == lcg_iter((x + d) % m2, t, m2));
        lemma_lcg_shift(x, d, t, m2);
        assert(lcg_iter((x + d) % m2, t, m2) == (yt + pow5(t) * d) % m2);
        assert((yt + pow5(t) * d) % m2 == ((x + d) % m2 + pow5(t) * d) % m2);
        lemma_add_left_mod(x + d, pow5(t) * d, m2);
        assert(((x + d) % m2 + pow5(t) * d) % m2 == (x + d + pow5(t) * d) % m2);
        // (1 + 5^t) is twice an odd number
        lemma_pow5_mod4(t);
        let q = (pow5(t) - 1) as nat / 4;
        assert(pow5(t) == 4 * q + 1) by {
            lemma_fundamental(pow5(t), 1, 4);
        }
        // assemble: d * (1 + 5^t) == m * odd == m + a multiple of m2
        let w = b + q + 2 * b * q;
        assert(d + pow5(t) * d == m + w * m2) by (nonlinear_arith)
            requires
                d == t * (1 + 2 * b),
                pow5(t) == 4 * q + 1,
                m == 2 * t,
                m2 == 2 * m,
                w == b + q + 2 * b * q,
        ;
        assert((x + d + pow5(t) * d) % m2 == (x + m) % m2) by {
            assert(x + d + pow5(t) * d == m2 * w + (x + m)) by (nonlinear_arith)
                requires
                    d + pow5(t) * d == m + w * m2,
            ;
            lemma_mod_multiples_vanish(w as int, (x + m) as int, m2 as int);
        }
        assert(t + t == m);
    }
}

proof fn lemma_small_mod_self(x: nat, m: nat)
    requires
        m > 0,
        x < m,
    ensures
        x % m == x,
{
    vstd::arithmetic::div_mod::lemma_small_mod(x, m);
}

proof fn lemma_add_left_mod2(a: nat, b: nat, m: nat)
    requires
        m > 0,
    ensures
        (a + b) % m == (a % m + b % m) % m,
{
    lemma_add_mod_noop(a as int, b as int, m as int);
}

/// From `u % m == v % m` with both sides shifted by the same summand under
/// one mod, cancel to equality of small values.
proof fn lemma_cancel_left(a: nat, u: nat, v: nat, m: nat)
    requires
        m > 0,
        u < m,
        v < m,
        (a + u) % m == (a + v) % m,
    ensures
        u == v,
{
    lemma_fundamental(a + u, ((a + u) % m) as nat, m);
    lemma_fundamental(a + v, ((a + v) % m) as nat, m);
    let qu = (a + u - (a + u) % m) as nat / m;
    let qv = (a + v - (a + v) % m) as nat / m;
    assert(a + u == qu * m + (a + u) % m);
    assert(a + v == qv * m + (a + v) % m);
    assert(u + qv * m == v + qu * m);
    if qu > qv {
        assert(u == v + (qu - qv) * m) by (nonlinear_arith)
            requires
                u + qv * m == v + qu * m,
                qu > qv,
        ;
        assert((qu - qv) * m >= m) by (nonlinear_arith)
            requires
                qu - qv >= 1,
                m > 0,
        ;
    } else if qv > qu {
        assert(v == u + (qv - qu) * m) by (nonlinear_arith)
            requires
                u + qv * m == v + qu * m,
                qv > qu,
        ;
        assert((qv - qu) * m >= m) by (nonlinear_arith)
            requires
                qv - qu >= 1,
                m > 0,
        ;
    }
}

/// `x == (x / m') * m + (x % m)` packaged for nat use: from `x % m == r`,
/// `x == r + b*m` with `b == (x - r) / m`.
proof fn lemma_fundamental(x: nat, r: nat, m: nat)
    requires
        m > 0,
        x % m == r,
    ensures
        r <= x,
        x == r + ((x - r) as nat / m) * m,
        x < m + r ==> (x - r) as nat / m == 0,
        m + r <= x && x < 2 * m + r ==> (x - r) as nat / m == 1,
    decreases x,
{
    vstd::arithmetic::div_mod::lemma_fundamental_div_mod(x as int, m as int);
    let q = x as int / m as int;
    assert(q * m == m as int * q) by (nonlinear_arith);
    assert(x as int == q * m + r);
    assert(q >= 0) by (nonlinear_arith)
        requires
            x as int == q * m + r,
            r < m,
            m > 0,
            x >= 0,
    ;
    assert((x - r) as int == q * m);
    assert((x - r) as int == m as int * q);
    assert((x - r) as nat / m == q) by {
        vstd::arithmetic::div_mod::lemma_div_multiples_vanish(q, m as int);
    }
    assert(x == r + ((x - r) as nat / m) * m);
    if x < m + r {
        assert(q == 0) by (nonlinear_arith)
            requires
                x as int == q * m + r,
                x < m + r,
                q >= 0,
                m > 0,
        ;
    }
    if m + r <= x && x < 2 * m + r {
        assert(q == 1) by (nonlinear_arith)
            requires
                x as int == q * m + r,
                m + r <= x,
                x < 2 * m + r,
                q >= 0,
                m > 0,
        ;
    }
}

/// The walk does not return to its start before `2^k` steps.
proof fn lemma_lcg_no_early_return(k: nat, x: nat, n: nat)
    requires
        x < pow2(k),
        0 < n < pow2(k),
    ensures
        lcg_iter(x, n, pow2(k)) != x,
    decreases k,
{
    let m = pow2(k);
    lemma_pow2_pos(k);
    if k == 0 {
        assert(pow2(0) == 1) by {
            lemma2_to64();
        }
    } else {
        let t = pow2((k - 1) as nat);
        assert(m == 2 * t) by {
            lemma_pow2_unfold(k);
        }
        if lcg_iter(x, n, m) == x {
            let xp = x % t;
            lemma_pow2_pos((k - 1) as nat);
            assert(lcg_iter(xp, n, t) == xp) by {
                lemma_lcg_proj(x, n, (k - 1) as nat);
            }
            if n < t {
                lemma_lcg_no_early_return((k - 1) as nat, xp, n);
            } else if n == t {
                lemma_lcg_half(k, x);
                assert(lcg_iter(x, t, m) == (x + t) % m);
                assert((x + t) % m != x) by {
                    if x + t < m {
                        lemma_small_mod_self(x + t, m);
                    } else {
                        assert(x + t == m + ((x + t) - m));
                        lemma_mod_multiples_vanish(1, ((x + t) - m) as int, m as int);
                        lemma_small_mod_self(((x + t) - m) as nat, m);
                    }
                }
            } else {
                let r = (n - t) as nat;
                // a full 2^(k-1) steps returns modulo 2^(k-1)
                assert(lcg_iter(xp, t, t) == xp) by {
                    if k == 1 {
                        assert(pow2(0) == 1) by {
                            lemma2_to64();
                        }
                        assert(t == 1);
                        lemma_lcg_bound(xp, t, t);
                        assert(xp < 1);
                    } else {
                        let t2 = pow2((k - 2) as nat);
                        assert(t == 2 * t2) by {
                            lemma_pow2_unfold((k - 1) as nat);
                        }
                        lemma_lcg_add(xp, t2, t2, t);
                        lemma_lcg_half((k - 1) as nat, xp);
                        let y = lcg_iter(xp, t2, t);
                        lemma_lcg_bound(xp, t2, t);
                        lemma_lcg_half((k - 1) as nat, y);
                        assert(lcg_iter(y, t2, t) == (y + t2) % t);
                        assert(y == (xp + t2) % t);
                        lemma_add_left_mod(xp + t2, t2, t);
                        assert((y + t2) % t == (xp + t2 + t2) % t);
                        assert(xp + t2 + t2 == t * 1 + xp);
                        lemma_mod_multiples_vanish(1, xp as int, t as int);
                        lemma_small_mod_self(xp, t);
                    }
                }
                lemma_lcg_add(xp, t, r, t);
                assert(lcg_iter(xp, n, t) == lcg_iter(xp, r, t));
                if r > 0 {
                    assert(r < t);
                    lemma_lcg_no_early_return((k - 1) as nat, xp, r);
                } else {
                    assert(n == t);
                }
            }
        }
    }
}

spec fn orbit_set(x: nat, m: nat, c: nat) -> Set<int> {
    Set::new(|v: int| exists|n: nat| n < c && lcg_iter(x, n, m) as int == v)
}

proof fn lemma_orbit_card(x: nat, k: nat, c: nat)
    requires
        x < pow2(k),
        c <= pow2(k),
    ensures
        orbit_set(x, pow2(k), c).finite(),
        orbit_set(x, pow2(k), c).len() == c,
    decreases c,
{
    let m = pow2(k);
    lemma_pow2_pos(k);
    if c == 0 {
        assert(orbit_set(x, m, 0) =~= Set::<int>::empty());
    } else {
        lemma_orbit_card(x, k, (c - 1) as nat);
        let v = lcg_iter(x, (c - 1) as nat, m) as int;
        assert(orbit_set(x, m, c) =~= orbit_set(x, m, (c - 1) as nat).insert(v)) by {
            assert forall|w: int| orbit_set(x, m, c).contains(w) implies orbit_set(
                x,
                m,
                (c - 1) as nat,
            ).insert(v).contains(w) by {
                let n = choose|n: nat| n < c && lcg_iter(x, n, m) as int == w;
                if n < c - 1 {
                } else {
                    assert(w == v);
                }
            }
            assert forall|w: int| orbit_set(x, m, (c - 1) as nat).insert(v).contains(w) implies orbit_set(
                x,
                m,
                c,
            ).contains(w) by {
                if w == v {
                    assert(lcg_iter(x, (c - 1) as nat, m) as int == w);
                } else {
                    let n = choose|n: nat| n < c - 1 && lcg_iter(x, n, m) as int == w;
                    assert(n < c && lcg_iter(x, n, m) as int == w);
                }
            }
        }
        assert(!orbit_set(x, m, (c - 1) as nat).contains(v)) by {
            if orbit_set(x, m, (c - 1) as nat).contains(v) {
                let n = choose|n: nat| n < c - 1 && lcg_iter(x, n, m) as int == v;
                let y = lcg_iter(x, n, m);
                lemma_lcg_bound(x, n, m);
                lemma_lcg_add(x, n, (c - 1 - n) as nat, m);
                assert(lcg_iter(y, (c - 1 - n) as nat, m) == y);
                lemma_lcg_no_early_return(k, y, (c - 1 - n) as nat);
            }
        }
    }
}

/// The walk visits every residue within `2^k` steps.
proof fn lemma_lcg_covers(x: nat, k: nat, e: nat)
    requires
        x < pow2(k),
        e < pow2(k),
    ensures
        exists|n: nat| n < pow2(k) && lcg_iter(x, n, pow2(k)) == e,
{
    let m = pow2(k);
    lemma_pow2_pos(k);
    if !(exists|n: nat| n < m && lcg_iter(x, n, m) == e) {
        let s = orbit_set(x, m, m);
        lemma_orbit_card(x, k, m);
        let r = set_int_range(0, m as int);
        lemma_int_range(0, m as int);
        let r2 = r.remove(e as int);
        assert(r.contains(e as int));
        assert(r2.len() == m - 1);
        assert(s.subset_of(r2)) by {
            assert forall|w: int| s.contains(w) implies r2.contains(w) by {
                let n = choose|n: nat| n < m && lcg_iter(x, n, m) as int == w;
                lemma_lcg_bound(x, n, m);
                assert(0 <= w < m);
                assert(w != e as int);
            }
        }
        lemma_len_subset(s, r2);
        assert(false);
    }
}

/// After thirteen steps the perturbation word is gone.
proof fn lemma_shifted_zero(h: u64, j: nat)
    requires
        j >= 13,
    ensures
        shifted_hash(h, j) == 0,
    decreases j,
{
    if j == 13 {
        assert(shifted_hash(h, 0) == h);
        assert(shifted_hash(h, 1) == shifted_hash(h, 0) >> 5u64);
        assert(shifted_hash(h, 2) == shifted_hash(h, 1) >> 5u64);
        assert(shifted_hash(h, 3) == shifted_hash(h, 2) >> 5u64);
        assert(shifted_hash(h, 4) == shifted_hash(h, 3) >> 5u64);
        assert(shifted_hash(h, 5) == shifted_hash(h, 4) >> 5u64);
        assert(shifted_hash(h, 6) == shifted_hash(h, 5) >> 5u64);
        assert(shifted_hash(h, 7) == shifted_hash(h, 6) >> 5u64);
        assert(shifted_hash(h, 8) == shifted_hash(h, 7) >> 5u64);
        assert(shifted_hash(h, 9) == shifted_hash(h, 8) >> 5u64);
        assert(shifted_hash(h, 10) == shifted_hash(h, 9) >> 5u64);
        assert(shifted_hash(h, 11) == shifted_hash(h, 10) >> 5u64);
        assert(shifted_hash(h, 12) == shifted_hash(h, 11) >> 5u64);
        assert(shifted_hash(h, 13) == shifted_hash(h, 12) >> 5u64);
        assert(h >> 5u64 >> 5u64 >> 5u64 >> 5u64 >> 5u64 >> 5u64 >> 5u64 >> 5u64 >> 5u64 >> 5u64
            >> 5u64 >> 5u64 >> 5u64 == 0u64) by (bit_vector);
    } else {
        lemma_shifted_zero(h, (j - 1) as nat);
        assert(shifted_hash(h, j) == shifted_hash(h, (j - 1) as nat) >> 5u64);
        assert(0u64 >> 5u64 == 0u64) by (bit_vector);
    }
}

/// Once the perturbation word is gone, a probe step is the bare recurrence.
proof fn lemma_probe_pure_tail(h: u64, mask: u64, k: nat, n: nat)
    requires
        mask as nat + 1 == pow2(k),
        k < 64,
    ensures
        probe_index(h, mask, 13 + n) as nat == lcg_iter(
            probe_index(h, mask, 13) as nat,
            n,
            pow2(k),
        ),
    decreases n,
{
    lemma_pow2_pos(k);
    if n > 0 {
        lemma_probe_pure_tail(h, mask, k, (n - 1) as nat);
        let i = probe_index(h, mask, 13 + (n - 1) as nat);
        lemma_shifted_zero(h, 13 + (n - 1) as nat);
        assert(probe_index(h, mask, 13 + n) == vstd::wrapping::u64_specs::wrapping_add(
            vstd::wrapping::u64_specs::wrapping_add(
                vstd::wrapping::u64_specs::wrapping_mul(5, i),
                1,
            ),
            0,
        ) & mask);
        let big: nat = 0x1_0000_0000_0000_0000;
        assert(pow2(64) == big) by {
            lemma2_to64_rest();
        }
        let w1 = vstd::wrapping::u64_specs::wrapping_mul(5, i);
        assert(w1 as nat == (5 * i as nat) % big);
        let w2 = vstd::wrapping::u64_specs::wrapping_add(w1, 1);
        assert(w2 as nat == (5 * i as nat + 1) % big) by {
            lemma_add_left_mod(5 * i as nat, 1, big);
            if w1 == u64::MAX {
                assert(w1 as nat + 1 == big);
                assert(big % big == 0) by {
                    lemma_mod_multiples_vanish(1, 0, big as int);
                }
            } else {
                lemma_small_mod_self(w1 as nat + 1, big);
            }
        }
        let w3 = vstd::wrapping::u64_specs::wrapping_add(w2, 0);
        assert(w3 == w2);
        assert(mask as nat == low_bits_mask(k));
        lemma_u64_low_bits_mask_is_mod(w3, k);
        assert((w3 & mask) as nat == w3 as nat % pow2(k)) by {
            assert(pow2(k) <= pow2(63)) by {
                if k < 63 {
                    lemma_pow2_strictly_increases(k, 63);
                }
            }
            assert(pow2(63) == 0x8000_0000_0000_0000) by {
                lemma2_to64_rest();
            }
        }
        assert(w3 as nat % pow2(k) == (5 * i as nat + 1) % pow2(k)) by {
            lemma_pow2_adds(k, (64 - k) as nat);
            lemma_pow2_pos((64 - k) as nat);
            lemma_mod_mod((5 * i as nat + 1) as int, pow2(k) as int, pow2((64 - k) as nat) as int);
            assert(pow2(k) as int * pow2((64 - k) as nat) as int == big as int);
        }
        // the walk takes one more bare step
        let x13 = probe_index(h, mask, 13) as nat;
        lemma_lcg_add(x13, (n - 1) as nat, 1, pow2(k));
        assert(lcg_iter(x13, n, pow2(k)) == lcg_iter(lcg_iter(x13, (n - 1) as nat, pow2(k)), 1, pow2(k)));
        assert(lcg_iter(i as nat, 1, pow2(k)) == lcg_iter((5 * i as nat + 1) % pow2(k), 0, pow2(k)));
        assert(lcg_iter(i as nat, 1, pow2(k)) == (5 * i as nat + 1) % pow2(k));
    }
}

/// The probe path for any digest reaches any slot of the table, well
/// within the probe budget.
pub proof fn lemma_probe_path_hits(h: u64, mask: u64, e: u64)
    requires
        spec_is_pow2(mask as nat + 1),
        mask < 0xffff_ffff_ffff_ffff,
        e <= mask,
    ensures
        exists|j: nat| j < PROBE_LIMIT as nat && probe_index(h, mask, j) == e,
{
    let k = choose|k: nat| mask as nat + 1 == pow2(k);
    assert(mask as nat + 1 == pow2(k)) by {
        lemma_pow2_exponent(mask as nat + 1);
    }
    assert(k < 64) by {
        if k >= 64 {
            assert(pow2(64) <= pow2(k)) by {
                if k > 64 {
                    lemma_pow2_strictly_increases(64, k);
                }
            }
            assert(pow2(64) == 0x1_0000_0000_0000_0000) by {
                lemma2_to64_rest();
            }
        }
    }
    let x13 = probe_index(h, mask, 13) as nat;
    lemma_probe_index_bounded(h, mask, 13);
    let n = choose|n: nat| n < pow2(k) && lcg_iter(x13, n, pow2(k)) == e as nat;
    assert(n < pow2(k) && lcg_iter(x13, n, pow2(k)) == e as nat) by {
        lemma_lcg_covers(x13, k, e as nat);
    }
    lemma_probe_pure_tail(h, mask, k, n);
    assert(probe_index(h, mask, 13 + n) == e);
    assert(13 + n < PROBE_LIMIT as nat) by {
        assert(pow2(k) <= pow2(63)) by {
            if k < 63 {
                lemma_pow2_strictly_increases(k, 63);
            }
        }
        assert(pow2(63) == 0x8000_0000_0000_0000) by {
            lemma2_to64_rest();
        }
    }
}

proof fn lemma_pow2_exponent(n: nat)
    requires
        spec_is_pow2(n),
    ensures
        exists|k: nat| n == pow2(k),
    decreases n,
{
    if n == 1 {
        assert(pow2(0) == 1) by {
            lemma2_to64();
        }
        assert(n == pow2(0));
    } else {
        lemma_pow2_exponent(n / 2);
        let k = choose|k: nat| n / 2 == pow2(k);
        assert(n == pow2(k + 1)) by {
            lemma_pow2_unfold(k + 1);
        }
    }
}

/// A table with fewer live entries than slots, and no tombstones, has an
/// empty slot.
proof fn lemma_exists_empty_slot<K, V>(s: Seq<Entry<K, V>>)
    requires
        num_full(s) < s.len(),
        forall|i: int| 0 <= i < s.len() ==> !(#[trigger] s[i]).spec_is_tomb(),
    ensures
        exists|i: int| 0 <= i < s.len() && (#[trigger] s[i]).spec_is_empty(),
    decreases s.len(),
{
    if s.last().spec_is_empty() {
        assert(s[s.len() - 1].spec_is_empty());
    } else {
        assert(!s[s.len() - 1].spec_is_tomb());
        assert(s.last().spec_is_full());
        assert forall|i: int| 0 <= i < s.drop_last().len() implies !(#[trigger] s.drop_last()[i]).spec_is_tomb() by {
            assert(s.drop_last()[i] == s[i]);
        }
        lemma_exists_empty_slot(s.drop_last());
        let i = choose|i: int| 0 <= i < s.drop_last().len() && (#[trigger] s.drop_last()[i]).spec_is_empty();
        assert(s[i] == s.drop_last()[i]);
    }
}

/// A probe for any key and digest stops within the probe budget on a table
/// that has an empty slot: the walk reaches it, and an empty slot stops
/// every probe.
pub proof fn lemma_probe_finds_slot<K: TableKey, V>(s: Seq<Entry<K, V>>, mask: u64, k: K, h: u64)
    requires
        s.len() == mask as int + 1,
        mask < 0xffff_ffff_ffff_ffff,
        spec_is_pow2(mask as nat + 1),
        num_full(s) < s.len(),
        num_tomb(s) == 0,
    ensures
        exists|j: nat|
            j < PROBE_LIMIT as nat && s[(#[trigger] probe_index(h, mask, j)) as int].spec_matches(
                k,
                h,
            ),
{
    lemma_no_tombs(s);
    lemma_exists_empty_slot(s);
    let e = choose|i: int| 0 <= i < s.len() && (#[trigger] s[i]).spec_is_empty();
    lemma_probe_path_hits(h, mask, e as u64);
    let j = choose|j: nat| j < PROBE_LIMIT as nat && probe_index(h, mask, j) == e as u64;
    assert(s[probe_index(h, mask, j) as int].spec_is_empty());
    assert(s[probe_index(h, mask, j) as int].spec_matches(k, h));
}

} // verus!
