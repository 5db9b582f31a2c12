//! Width selection for floats, on IEEE-754 bit patterns.
use vstd::prelude::*;
use vstd::arithmetic::div_mod::{lemma_fundamental_div_mod, lemma_fundamental_div_mod_converse};

verus! {

pub open spec fn p2(k: nat) -> nat
    decreases k,
{
    if k == 0 {
        1
    } else {
        2 * p2((k - 1) as nat)
    }
}

/// The position of the highest set bit of `k` (0 for 0 and 1).
pub open spec fn top_bit(k: nat) -> nat
    decreases k,
{
    if k <= 1 {
        0
    } else {
        1 + top_bit(k / 2)
    }
}

pub open spec fn sign64(x: u64) -> nat {
    (x as nat) / 0x8000_0000_0000_0000
}

pub open spec fn exp64(x: u64) -> nat {
    ((x as nat) / 0x10_0000_0000_0000) % 2048
}

pub open spec fn frac64(x: u64) -> nat {
    (x as nat) % 0x10_0000_0000_0000
}

pub open spec fn sign32(n: u32) -> nat {
    (n as nat) / 0x8000_0000
}

pub open spec fn exp32(n: u32) -> nat {
    ((n as nat) / 0x80_0000) % 256
}

pub open spec fn frac32(n: u32) -> nat {
    (n as nat) % 0x80_0000
}

/// A binary64 bit pattern is infinite or NaN.
pub open spec fn non_finite64(x: u64) -> bool {
    exp64(x) == 2047
}

/// The binary32 bit pattern of the same number as the binary64 pattern `x`, where
/// binary32 holds that number exactly (zero, normal or subnormal); `None` otherwise,
/// and for infinities and NaN.
pub open spec fn narrow(x: u64) -> Option<u32> {
    let s = sign64(x);
    let e = exp64(x);
    let m = frac64(x);
    if e == 0 && m == 0 {
        Some((s * 0x8000_0000) as u32)
    } else if e == 0 || e == 2047 {
        None
    } else if 897 <= e <= 1150 {
        if m % 0x2000_0000 == 0 {
            Some((s * 0x8000_0000 + (e - 896) * 0x80_0000 + m / 0x2000_0000) as u32)
        } else {
            None
        }
    } else if 874 <= e <= 896 {
        let k = 0x10_0000_0000_0000 + m;
        let sh = (926 - e) as nat;
        if k % p2(sh) == 0 {
            Some((s * 0x8000_0000 + k / p2(sh)) as u32)
        } else {
            None
        }
    } else {
        None
    }
}

/// The binary64 bit pattern of the binary32 pattern `n` widened; a NaN keeps its
/// sign and payload and comes out quiet.
pub open spec fn widen(n: u32) -> u64 {
    let s = sign32(n);
    let e = exp32(n);
    let m = frac32(n);
    let top = s * 0x8000_0000_0000_0000;
    if e == 255 {
        if m == 0 {
            (top + 2047 * 0x10_0000_0000_0000) as u64
        } else if m >= 0x40_0000 {
            (top + 2047 * 0x10_0000_0000_0000 + m * 0x2000_0000) as u64
        } else {
            (top + 2047 * 0x10_0000_0000_0000 + 0x8_0000_0000_0000 + m * 0x2000_0000) as u64
        }
    } else if e == 0 && m == 0 {
        top as u64
    } else if e == 0 {
        let p = top_bit(m);
        (top + (p + 874) * 0x10_0000_0000_0000 + (m - p2(p)) * p2((52 - p) as nat)) as u64
    } else {
        (top + (e + 896) * 0x10_0000_0000_0000 + m * 0x2000_0000) as u64
    }
}

proof fn lemma_p2_mono(a: nat, b: nat)
    requires
        a <= b,
    ensures
        1 <= p2(a) <= p2(b),
    decreases b,
{
    if b > a {
        lemma_p2_mono(a, (b - 1) as nat);
    } else {
        lemma_p2_pos(a);
    }
}

proof fn lemma_p2_add(a: nat, b: nat)
    ensures
        p2(a + b) as int == p2(a) as int * p2(b) as int,
    decreases a,
{
    if a > 0 {
        let am = (a - 1) as nat;
        lemma_p2_add(am, b);
        assert(p2(a + b) == 2 * p2(am + b));
        assert(p2(a) == 2 * p2(am));
        let (x, y, z, w) = (p2(a + b), p2(am + b), p2(am), p2(b));
        assert(x == p2(a) * w) by (nonlinear_arith)
            requires
                x == 2 * y,
                y == z * w,
                p2(a) == 2 * z,
        ;
        assert(p2(a + b) as int == p2(a) as int * p2(b) as int);
    } else {
        assert(p2(0) == 1);
        assert(p2(a + b) as int == p2(a) as int * p2(b) as int) by (nonlinear_arith)
            requires
                p2(a) == 1,
                a + b == b,
        ;
    }
}

proof fn lemma_p2_add_val(a: nat, b: nat, va: nat, vb: nat)
    requires
        p2(a) == va,
        p2(b) == vb,
    ensures
        p2(a + b) == va * vb,
{
    lemma_p2_add(a, b);
}

proof fn lemma_p2_values()
    ensures
        p2(8) == 0x100,
        p2(23) == 0x80_0000,
        p2(29) == 0x2000_0000,
        p2(30) == 0x4000_0000,
        p2(31) == 0x8000_0000,
        p2(32) == 0x1_0000_0000,
        p2(52) == 0x10_0000_0000_0000,
        p2(63) == 0x8000_0000_0000_0000,
{
    reveal_with_fuel(p2, 9);
    lemma_p2_add_val(8, 8, 0x100, 0x100);
    lemma_p2_add_val(16, 7, 0x1_0000, 0x80);
    lemma_p2_add_val(16, 8, 0x1_0000, 0x100);
    lemma_p2_add_val(16, 16, 0x1_0000, 0x1_0000);
    lemma_p2_add_val(23, 6, 0x80_0000, 0x40);
    lemma_p2_add_val(29, 1, 0x2000_0000, 2);
    lemma_p2_add_val(30, 1, 0x4000_0000, 2);
    lemma_p2_add_val(32, 16, 0x1_0000_0000, 0x1_0000);
    lemma_p2_add_val(48, 4, 0x1_0000_0000_0000, 16);
    lemma_p2_add_val(52, 8, 0x10_0000_0000_0000, 0x100);
    lemma_p2_add_val(60, 3, 0x1000_0000_0000_0000, 8);
}

proof fn lemma_p2_pos(k: nat)
    ensures
        p2(k) >= 1,
    decreases k,
{
    if k > 0 {
        lemma_p2_pos((k - 1) as nat);
    }
}

proof fn lemma_p2_bounds(k: nat)
    ensures
        p2(k) >= 1,
        k <= 63 ==> p2(k) <= 0x8000_0000_0000_0000,
{
    lemma_p2_mono(0, k);
    if k <= 63 {
        lemma_p2_mono(k, 63);
        lemma_p2_values();
    }
}

proof fn lemma_top_bit_below(v: nat, k: nat)
    requires
        1 <= k,
        v < p2(k),
    ensures
        top_bit(v) < k,
    decreases k,
{
    if v > 1 {
        assert(k > 1) by {
            if k == 1 {
                reveal_with_fuel(p2, 2);
        assert(p2(1) == 2);
            }
        }
        lemma_top_bit_below(v / 2, (k - 1) as nat);
    }
}

fn pow_two(k: u64) -> (r: u64)
    requires
        k <= 63,
    ensures
        r as nat == p2(k as nat),
{
    let mut r: u64 = 1;
    let mut i: u64 = 0;
    while i < k
        invariant
            i <= k <= 63,
            r as nat == p2(i as nat),
        decreases k - i,
    {
        proof {
            lemma_p2_bounds(i as nat);
            lemma_p2_bounds((i + 1) as nat);
        }
        r = r * 2;
        i = i + 1;
    }
    r
}

proof fn lemma_top_bit(v: nat)
    requires
        v >= 1,
    ensures
        p2(top_bit(v)) <= v < 2 * p2(top_bit(v)),
    decreases v,
{
    if v > 1 {
        lemma_top_bit(v / 2);
    }
}

fn highest_bit(k: u32) -> (r: u64)
    ensures
        r as nat == top_bit(k as nat),
        r < 32,
{
    let mut v: u32 = k;
    let mut p: u64 = 0;
    proof {
        lemma_p2_values();
        if k > 0 {
            lemma_top_bit_below(k as nat, 32);
        }
    }
    while v > 1
        invariant
            top_bit(k as nat) == p + top_bit(v as nat),
            p + top_bit(v as nat) < 32,
        decreases v,
    {
        v = v / 2;
        p = p + 1;
    }
    p
}

/// The binary32 form of `x`, where it holds the same number.
pub fn narrow_f64(x: u64) -> (r: Option<u32>)
    ensures
        r == narrow(x),
{
    let s: u64 = x / 0x8000_0000_0000_0000;
    let e: u64 = (x / 0x10_0000_0000_0000) % 2048;
    let m: u64 = x % 0x10_0000_0000_0000;
    if e == 0 && m == 0 {
        Some((s * 0x8000_0000) as u32)
    } else if e == 0 || e == 2047 {
        None
    } else if 897 <= e && e <= 1150 {
        if m % 0x2000_0000 == 0 {
            Some((s * 0x8000_0000 + (e - 896) * 0x80_0000 + m / 0x2000_0000) as u32)
        } else {
            None
        }
    } else if 874 <= e && e <= 896 {
        let k: u64 = 0x10_0000_0000_0000 + m;
        let d = pow_two(926 - e);
        proof {
            lemma_p2_mono(30, (926 - e) as nat);
            reveal_with_fuel(p2, 31);
        assert(p2(30) == 0x4000_0000);
            assert(k / d < 0x80_0000) by (nonlinear_arith)
                requires
                    k < 0x20_0000_0000_0000,
                    d >= 0x4000_0000,
            ;
        }
        if k % d == 0 {
            Some((s * 0x8000_0000 + k / d) as u32)
        } else {
            None
        }
    } else {
        None
    }
}

/// The binary64 form of the binary32 number `n`.
pub fn widen_f32(n: u32) -> (r: u64)
    ensures
        r == widen(n),
{
    let s: u64 = (n / 0x8000_0000) as u64;
    let e: u64 = ((n / 0x80_0000) % 256) as u64;
    let m: u64 = (n % 0x80_0000) as u64;
    let top: u64 = s * 0x8000_0000_0000_0000;
    if e == 255 {
        if m == 0 {
            top + 2047 * 0x10_0000_0000_0000
        } else if m >= 0x40_0000 {
            top + 2047 * 0x10_0000_0000_0000 + m * 0x2000_0000
        } else {
            top + 2047 * 0x10_0000_0000_0000 + 0x8_0000_0000_0000 + m * 0x2000_0000
        }
    } else if e == 0 && m == 0 {
        top
    } else if e == 0 {
        let p = highest_bit(m as u32);
        proof {
            lemma_top_bit(m as nat);
            lemma_p2_values();
            lemma_top_bit_below(m as nat, 23);
            lemma_p2_add(p as nat, (52 - p) as nat);
            lemma_p2_pos((52 - p) as nat);
        }
        let lo = pow_two(p);
        let hi = pow_two(52 - p);
        proof {
            assert((m - lo) * hi < 0x10_0000_0000_0000) by (nonlinear_arith)
                requires
                    m - lo < lo,
                    lo * hi == 0x10_0000_0000_0000,
                    lo >= 1,
                    hi >= 1,
            ;
        }
        top + (p + 874) * 0x10_0000_0000_0000 + (m - lo) * hi
    } else {
        top + (e + 896) * 0x10_0000_0000_0000 + m * 0x2000_0000
    }
}

proof fn lemma_split64(x: u64)
    ensures
        sign64(x) <= 1,
        exp64(x) < 2048,
        frac64(x) < 0x10_0000_0000_0000,
        x as int == sign64(x) * 0x8000_0000_0000_0000 + exp64(x) * 0x10_0000_0000_0000 + frac64(x),
{
    let xi = x as int;
    let q = xi / 0x10_0000_0000_0000;
    let m = xi % 0x10_0000_0000_0000;
    lemma_fundamental_div_mod(xi, 0x10_0000_0000_0000);
    lemma_fundamental_div_mod(q, 2048);
    let e = q % 2048;
    let t = q / 2048;
    assert(xi == t * 0x8000_0000_0000_0000 + (e * 0x10_0000_0000_0000 + m)) by (nonlinear_arith)
        requires
            xi == 0x10_0000_0000_0000 * q + m,
            q == 2048 * t + e,
    ;
    assert(0 <= e * 0x10_0000_0000_0000 + m < 0x8000_0000_0000_0000) by (nonlinear_arith)
        requires
            0 <= e < 2048,
            0 <= m < 0x10_0000_0000_0000,
    ;
    lemma_fundamental_div_mod_converse(xi, 0x8000_0000_0000_0000, t, e * 0x10_0000_0000_0000 + m);
}

proof fn lemma_join32(n: u32, s: nat, e: nat, f: nat)
    requires
        s <= 1,
        e < 256,
        f < 0x80_0000,
        n as int == s * 0x8000_0000 + e * 0x80_0000 + f,
    ensures
        sign32(n) == s,
        exp32(n) == e,
        frac32(n) == f,
{
    let ni = n as int;
    lemma_fundamental_div_mod_converse(ni, 0x80_0000, (s * 256 + e) as int, f as int);
    lemma_fundamental_div_mod_converse((s * 256 + e) as int, 256, s as int, e as int);
    lemma_fundamental_div_mod_converse(ni, 0x8000_0000, s as int, (e * 0x80_0000 + f) as int);
}

proof fn lemma_top_bit_is(q: nat, t: nat)
    requires
        p2(t) <= q < 2 * p2(t),
    ensures
        top_bit(q) == t,
    decreases t,
{
    if t == 0 {
        assert(q == 1);
    } else {
        let tm = (t - 1) as nat;
        assert(p2(tm) <= q / 2 < 2 * p2(tm));
        lemma_top_bit_is(q / 2, tm);
    }
}

/// Widening the binary32 form of a finite binary64 number gives the number back.
pub proof fn lemma_widen_narrow(x: u64)
    requires
        narrow(x) is Some,
    ensures
        exp32(narrow(x)->Some_0) != 255,
        widen(narrow(x)->Some_0) == x,
{
    let n = narrow(x)->Some_0;
    let s = sign64(x);
    let e = exp64(x);
    let m = frac64(x);
    lemma_split64(x);
    lemma_p2_values();
    if e == 0 && m == 0 {
        lemma_join32(n, s, 0, 0);
    } else if 897 <= e <= 1150 {
        let f = m / 0x2000_0000;
        assert(f < 0x80_0000);
        assert(f * 0x2000_0000 == m) by {
            lemma_fundamental_div_mod(m as int, 0x2000_0000);
        }
        lemma_join32(n, s, (e - 896) as nat, f);
    } else {
        let k = 0x10_0000_0000_0000 + m;
        let sh = (926 - e) as nat;
        let d = p2(sh);
        let q = k / d;
        let t = (52 - sh) as nat;
        lemma_p2_mono(30, sh);
        lemma_fundamental_div_mod(k as int, d as int);
        lemma_p2_add(t, sh);
        lemma_p2_pos(t);
        assert(q * d == k);
        assert(p2(t) <= q < 2 * p2(t)) by (nonlinear_arith)
            requires
                q * d == k,
                p2(t) * d == 0x10_0000_0000_0000,
                0x10_0000_0000_0000 <= k < 0x20_0000_0000_0000,
                d >= 1,
        ;
        assert(q < 0x80_0000) by (nonlinear_arith)
            requires
                q * d == k,
                k < 0x20_0000_0000_0000,
                d >= 0x4000_0000,
        ;
        lemma_join32(n, s, 0, q);
        lemma_top_bit_is(q, t);
        assert((q - p2(t)) * p2(sh) == m) by (nonlinear_arith)
            requires
                q * d == k,
                d == p2(sh),
                p2(t) * d == 0x10_0000_0000_0000,
                k == 0x10_0000_0000_0000 + m,
        ;
    }
}

} // verus!
