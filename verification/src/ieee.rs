//! IEEE-754 binary64 and binary32 numbers, handled as bit patterns.
//!
//! A real number travels through this library as the 64 bits of its double.
//! The two conversions here decide when a double can be stored as a single
//! without loss, and widen a stored single back.
use vstd::prelude::*;
use vstd::arithmetic::power2::*;
use vstd::arithmetic::div_mod::*;
use vstd::arithmetic::mul::*;

verus! {

pub open spec fn double_sign(bits: u64) -> nat {
    bits as nat / 0x8000_0000_0000_0000
}

pub open spec fn double_exponent(bits: u64) -> nat {
    (bits as nat / 0x10_0000_0000_0000) % 0x800
}

pub open spec fn double_fraction(bits: u64) -> nat {
    bits as nat % 0x10_0000_0000_0000
}

pub open spec fn make_double(sign: nat, exponent: nat, fraction: nat) -> u64 {
    (sign * 0x8000_0000_0000_0000 + exponent * 0x10_0000_0000_0000 + fraction) as u64
}

pub open spec fn single_sign(bits: u32) -> nat {
    bits as nat / 0x8000_0000
}

pub open spec fn single_exponent(bits: u32) -> nat {
    (bits as nat / 0x80_0000) % 0x100
}

pub open spec fn single_fraction(bits: u32) -> nat {
    bits as nat % 0x80_0000
}

pub open spec fn make_single(sign: nat, exponent: nat, fraction: nat) -> u32 {
    (sign * 0x8000_0000 + exponent * 0x80_0000 + fraction) as u32
}

/// Position of the highest set bit of `n`; 0 for `n` below 2.
pub open spec fn top_bit(n: nat) -> nat
    decreases n,
{
    if n <= 1 {
        0
    } else {
        1 + top_bit(n / 2)
    }
}

/// The single that denotes the same number as the double `bits`, if there is
/// one and the number is finite. Zero keeps its sign; a normal double needs
/// an exponent in the single's range and 29 trailing zero bits; below that
/// range the significand must be a whole multiple of the smallest single.
pub open spec fn single_of_double(bits: u64) -> Option<u32> {
    let s = double_sign(bits);
    let e = double_exponent(bits);
    let m = double_fraction(bits);
    if e == 0 {
        if m == 0 {
            Some(make_single(s, 0, 0))
        } else {
            None
        }
    } else if 897 <= e <= 1150 {
        if m % 0x2000_0000 == 0 {
            Some(make_single(s, (e - 896) as nat, m / 0x2000_0000))
        } else {
            None
        }
    } else if 874 <= e <= 896 {
        let unit = pow2((926 - e) as nat);
        if (0x10_0000_0000_0000 + m) % unit == 0 {
            Some(make_single(s, 0, (0x10_0000_0000_0000 + m) / unit))
        } else {
            None
        }
    } else {
        None
    }
}

/// The double that denotes the same number as the single `bits`. A NaN stays
/// a NaN: its payload moves to the top of the fraction and the quiet bit is set.
pub open spec fn double_of_single(bits: u32) -> u64 {
    let s = single_sign(bits);
    let e = single_exponent(bits);
    let m = single_fraction(bits);
    if e == 0 {
        if m == 0 {
            make_double(s, 0, 0)
        } else {
            let p = top_bit(m);
            make_double(s, p + 874, ((m - pow2(p)) * pow2((52 - p) as nat)) as nat)
        }
    } else if e == 255 {
        if m == 0 {
            make_double(s, 2047, 0)
        } else if m >= 0x40_0000 {
            make_double(s, 2047, m * 0x2000_0000)
        } else {
            make_double(s, 2047, 0x8_0000_0000_0000 + m * 0x2000_0000)
        }
    } else {
        make_double(s, e + 896, m * 0x2000_0000)
    }
}

pub proof fn lemma_top_bit(n: nat, p: nat)
    requires
        pow2(p) <= n < pow2(p + 1),
    ensures
        top_bit(n) == p,
    decreases p,
{
    lemma2_to64();
    if p == 0 {
        assert(pow2(1) == 2);
    } else {
        lemma_pow2_unfold(p);
        lemma_pow2_unfold(p + 1);
        lemma_top_bit(n / 2, (p - 1) as nat);
    }
}

pub proof fn lemma_top_bit_bounds(n: nat)
    requires
        n >= 1,
    ensures
        pow2(top_bit(n)) <= n < pow2(top_bit(n) + 1),
    decreases n,
{
    lemma2_to64();
    if n <= 1 {
    } else {
        lemma_top_bit_bounds(n / 2);
        lemma_pow2_unfold(top_bit(n));
        lemma_pow2_unfold(top_bit(n) + 1);
    }
}

/// A double that was stored as a single comes back bit for bit.
pub proof fn lemma_single_roundtrip(bits: u64)
    requires
        single_of_double(bits) is Some,
    ensures
        double_of_single(single_of_double(bits)->0) == bits,
{
    let s = double_sign(bits);
    let e = double_exponent(bits);
    let m = double_fraction(bits);
    let single = single_of_double(bits)->0;
    assert(s <= 1);
    assert(bits as nat == s * 0x8000_0000_0000_0000 + e * 0x10_0000_0000_0000 + m);
    if e == 0 {
        assert(single as nat == s * 0x8000_0000);
    } else if 897 <= e <= 1150 {
        let f = m / 0x2000_0000;
        assert(f < 0x80_0000);
        assert(single as nat == s * 0x8000_0000 + (e - 896) * 0x80_0000 + f);
        assert(single_sign(single) == s);
        assert(single_exponent(single) == e - 896);
        assert(single_fraction(single) == f);
        assert(f * 0x2000_0000 == m);
    } else {
        let t = (926 - e) as nat;
        let unit = pow2(t);
        let sig: nat = 0x10_0000_0000_0000 + m;
        let k = sig / unit;
        let p = (52 - t) as nat;
        lemma2_to64();
        lemma2_to64_rest();
        lemma_pow2_pos(t);
        lemma_pow2_adds(p, t);
        lemma_pow2_adds(p + 1, t);
        assert(pow2(52) == 0x10_0000_0000_0000);
        assert(pow2(53) == 0x20_0000_0000_0000);
        lemma_fundamental_div_mod(sig as int, unit as int);
        assert(sig == unit * k);
        assert(pow2(p) <= k < pow2(p + 1)) by (nonlinear_arith)
            requires
                sig == unit * k,
                pow2(p) * unit <= sig < pow2(p + 1) * unit,
                unit > 0,
        ;
        assert(p + 1 <= 23);
        if p + 1 < 23 {
            lemma_pow2_strictly_increases(p + 1, 23);
        }
        assert(pow2(23) == 0x80_0000);
        assert(k < 0x80_0000);
        assert(single as nat == s * 0x8000_0000 + k);
        assert(single_sign(single) == s);
        assert(single_exponent(single) == 0);
        assert(single_fraction(single) == k);
        lemma_top_bit(k, p);
        assert((k - pow2(p)) * pow2(t) == m) by (nonlinear_arith)
            requires
                sig == unit * k,
                unit == pow2(t),
                pow2(p) * pow2(t) == 0x10_0000_0000_0000,
                sig == 0x10_0000_0000_0000 + m,
        ;
        assert(p + 874 == e);
        assert((52 - p) as nat == t);
    }
}

/// Every finite single is the narrowing of its double: the doubles that
/// can be stored as singles are exactly the widened finite singles.
pub proof fn law_widened_narrows(bits: u32)
    requires
        single_exponent(bits) != 255,
    ensures
        single_of_double(double_of_single(bits)) == Some(bits),
{
    let s = single_sign(bits);
    let e = single_exponent(bits);
    let m = single_fraction(bits);
    let wide = double_of_single(bits);
    assert(s <= 1);
    assert(bits as nat == s * 0x8000_0000 + e * 0x80_0000 + m);
    lemma2_to64();
    lemma2_to64_rest();
    if e == 0 {
        if m == 0 {
            assert(wide as nat == s * 0x8000_0000_0000_0000);
        } else {
            let p = top_bit(m);
            lemma_top_bit_bounds(m);
            assert(pow2(23) == 0x80_0000);
            if p > 23 {
                lemma_pow2_strictly_increases(23, p);
            }
            assert(p <= 22);
            let t = (52 - p) as nat;
            let unit = pow2(t);
            lemma_pow2_pos(t);
            lemma_pow2_adds(p, t);
            assert(pow2(52) == 0x10_0000_0000_0000);
            let fraction = ((m - pow2(p)) * unit) as nat;
            assert(fraction + 0x10_0000_0000_0000 == m * unit) by (nonlinear_arith)
                requires
                    fraction == (m - pow2(p)) * unit,
                    pow2(p) * unit == 0x10_0000_0000_0000,
            ;
            assert(fraction < 0x10_0000_0000_0000) by (nonlinear_arith)
                requires
                    fraction + 0x10_0000_0000_0000 == m * unit,
                    m < 2 * pow2(p),
                    pow2(p) * unit == 0x10_0000_0000_0000,
                    unit > 0,
            ;
            assert(wide as nat == s * 0x8000_0000_0000_0000 + (p + 874) * 0x10_0000_0000_0000
                + fraction);
            assert(double_sign(wide) == s);
            assert(double_exponent(wide) == p + 874);
            assert(double_fraction(wide) == fraction);
            assert((926 - (p + 874)) as nat == t);
            let sig: nat = 0x10_0000_0000_0000 + fraction;
            assert(sig == unit * m) by (nonlinear_arith)
                requires
                    sig == m * unit,
            ;
            lemma_fundamental_div_mod_converse(sig as int, unit as int, m as int, 0);
        }
    } else {
        let fraction = m * 0x2000_0000;
        assert(wide as nat == s * 0x8000_0000_0000_0000 + (e + 896) * 0x10_0000_0000_0000
            + fraction);
        assert(double_sign(wide) == s);
        assert(double_exponent(wide) == e + 896);
        assert(double_fraction(wide) == fraction);
    }
}

/// Two to the power `t`, for a shift that stays inside 64 bits.
pub fn power_of_two(t: u32) -> (r: u64)
    requires
        t <= 63,
    ensures
        r as nat == pow2(t as nat),
{
    let mut r: u64 = 1;
    let mut j: u32 = 0;
    proof {
        lemma2_to64();
    }
    while j < t
        invariant
            j <= t <= 63,
            r as nat == pow2(j as nat),
        decreases t - j,
    {
        proof {
            lemma_pow2_unfold((j + 1) as nat);
            lemma2_to64_rest();
            if j + 1 < 63 {
                lemma_pow2_strictly_increases((j + 1) as nat, 63);
            }
        }
        r = r * 2;
        j += 1;
    }
    r
}

/// Narrows a double to a single when that loses nothing.
pub fn narrow(bits: u64) -> (r: Option<u32>)
    ensures
        r == single_of_double(bits),
{
    let s: u64 = bits / 0x8000_0000_0000_0000;
    let e: u64 = (bits / 0x10_0000_0000_0000) % 0x800;
    let m: u64 = bits % 0x10_0000_0000_0000;
    if e == 0 {
        if m == 0 {
            Some((s * 0x8000_0000) as u32)
        } else {
            None
        }
    } else if 897 <= e && e <= 1150 {
        if m % 0x2000_0000 == 0 {
            Some((s * 0x8000_0000 + (e - 896) * 0x80_0000 + m / 0x2000_0000) as u32)
        } else {
            None
        }
    } else if 874 <= e && e <= 896 {
        let unit = power_of_two((926 - e) as u32);
        let sig: u64 = 0x10_0000_0000_0000 + m;
        proof {
            lemma_pow2_pos((926 - e) as nat);
            lemma2_to64();
            lemma2_to64_rest();
            lemma_pow2_strictly_increases(29, (926 - e) as nat);
            lemma_fundamental_div_mod(sig as int, unit as int);
            assert(sig / unit < 0x100_0000) by (nonlinear_arith)
                requires
                    sig == unit * (sig / unit) + sig % unit,
                    sig % unit >= 0,
                    unit > 0x2000_0000,
                    sig < 0x20_0000_0000_0000,
            ;
        }
        if sig % unit == 0 {
            Some((s * 0x8000_0000 + sig / unit) as u32)
        } else {
            None
        }
    } else {
        None
    }
}

/// Widens a single to the double of the same value.
pub fn widen(bits: u32) -> (r: u64)
    ensures
        r == double_of_single(bits),
{
    let s: u64 = (bits / 0x8000_0000) as u64;
    let e: u64 = ((bits / 0x80_0000) % 0x100) as u64;
    let m: u64 = (bits % 0x80_0000) as u64;
    if e == 0 {
        if m == 0 {
            s * 0x8000_0000_0000_0000
        } else {
            let mut p: u32 = 0;
            let mut top: u64 = 1;
            proof {
                lemma2_to64();
            }
            while top * 2 <= m
                invariant
                    top as nat == pow2(p as nat),
                    1 <= top <= m < 0x80_0000,
                    p <= 22,
                decreases m - top,
            {
                proof {
                    lemma2_to64();
                    lemma_pow2_unfold((p + 1) as nat);
                }
                top = top * 2;
                p += 1;
            }
            let scale = power_of_two(52 - p);
            proof {
                lemma_pow2_unfold((p + 1) as nat);
                lemma_top_bit(m as nat, p as nat);
                lemma_pow2_adds(p as nat, (52 - p) as nat);
                lemma2_to64_rest();
                assert(pow2(52) == 0x10_0000_0000_0000);
                assert((m - top) * scale < 0x10_0000_0000_0000) by (nonlinear_arith)
                    requires
                        top * scale == 0x10_0000_0000_0000,
                        m < 2 * top,
                        top <= m,
                        scale > 0,
                ;
                lemma_pow2_pos((52 - p) as nat);
            }
            s * 0x8000_0000_0000_0000 + (p as u64 + 874) * 0x10_0000_0000_0000 + (m - top) * scale
        }
    } else if e == 255 {
        if m == 0 {
            s * 0x8000_0000_0000_0000 + 2047 * 0x10_0000_0000_0000
        } else if m >= 0x40_0000 {
            s * 0x8000_0000_0000_0000 + 2047 * 0x10_0000_0000_0000 + m * 0x2000_0000
        } else {
            s * 0x8000_0000_0000_0000 + 2047 * 0x10_0000_0000_0000 + 0x8_0000_0000_0000 + m
                * 0x2000_0000
        }
    } else {
        s * 0x8000_0000_0000_0000 + (e + 896) * 0x10_0000_0000_0000 + m * 0x2000_0000
    }
}

} // verus!
