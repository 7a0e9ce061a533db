//! Dates as instants.
//!
//! A date is an instant: a Unix timestamp of whole seconds and
//! nanoseconds. The binary form stores it as the double that counts
//! seconds from 2001-01-01T00:00:00Z, which is 978,307,200 seconds after
//! 1970-01-01T00:00:00Z. Here that double is made from a timestamp, and
//! turned back into one, in exact integer arithmetic.
use vstd::prelude::*;
use vstd::arithmetic::power2::*;
use vstd::arithmetic::div_mod::*;
use vstd::arithmetic::mul::*;
use crate::ieee::{
    double_exponent, double_fraction, double_sign, lemma_top_bit_bounds, make_double,
    power_of_two, top_bit,
};

verus! {

/// For `0 < a < den`: minus the number of doublings that bring `a` up to `den`.
pub open spec fn log2_down(a: nat, den: nat) -> int
    decreases
        (if a < den {
            den - a
        } else {
            0
        }),
{
    if 0 < a < den {
        log2_down(2 * a, den) - 1
    } else {
        0
    }
}

/// For `a >= den > 0`: the number of doublings of `den` that stay at or below `a`.
pub open spec fn log2_up(a: nat, den: nat) -> int
    decreases
        (if a >= den {
            a - den
        } else {
            0
        }),
{
    if 0 < den && 2 * den <= a {
        log2_up(a, 2 * den) + 1
    } else {
        0
    }
}

/// The power of two at or just below the ratio `a / den`: the `e` with
/// `2^e <= a / den < 2^(e + 1)`.
pub open spec fn binade(a: nat, den: nat) -> int {
    if a < den {
        log2_down(a, den)
    } else {
        log2_up(a, den)
    }
}

/// The whole number nearest to `p / q`; of two equally near, the even one.
pub open spec fn round_half_even(p: nat, q: nat) -> nat {
    let m = p / q;
    let r = p % q;
    if 2 * r > q || (2 * r == q && m % 2 == 1) {
        m + 1
    } else {
        m
    }
}

/// The double nearest to `a / den`, with the sign bit `sign`: the ratio
/// is scaled into the 53 bits of a significand, rounded to the nearest
/// whole number (to the even one of two), and a significand that reaches
/// 2^53 moves on to the next power of two.
pub open spec fn nearest_double(sign: nat, a: nat, den: nat) -> u64 {
    let e = binade(a, den);
    let p = if e <= 52 {
        a * pow2((52 - e) as nat)
    } else {
        a
    };
    let q = if e <= 52 {
        den
    } else {
        den * pow2((e - 52) as nat)
    };
    let m = round_half_even(p, q);
    if m == 0x20_0000_0000_0000 {
        make_double(sign, (e + 1024) as nat, 0)
    } else {
        make_double(sign, (e + 1023) as nat, (m - 0x10_0000_0000_0000) as nat)
    }
}

/// The bits of the double nearest to the seconds from the reference epoch
/// to the instant `secs` seconds and `nanos` nanoseconds after
/// 1970-01-01T00:00:00Z.
pub open spec fn reference_seconds(secs: int, nanos: int) -> u64 {
    let n = (secs - 978_307_200) * 1_000_000_000 + nanos;
    if n == 0 {
        0
    } else if n < 0 {
        nearest_double(1, (-n) as nat, 1_000_000_000)
    } else {
        nearest_double(0, n as nat, 1_000_000_000)
    }
}

/// The bits of the double nearest to `a / den`.
pub fn nearest_double_bits(sign: u64, a: u128, den: u128) -> (bits: u64)
    requires
        sign <= 1,
        0 < a < 0x4000_0000_0000_0000_0000_0000,
        0 < den <= 0x4000_0000,
    ensures
        bits == nearest_double(sign as nat, a as nat, den as nat),
{
    let mut e: i32 = 0;
    let p: u128;
    let q: u128;
    proof {
        lemma2_to64();
        lemma2_to64_rest();
    }
    if a < den {
        let mut x: u128 = a;
        assert(x == a * pow2((-e) as nat)) by {
            assert(pow2(0) == 1);
            assert(a * 1 == a) by (nonlinear_arith);
        }
        while x < den
            invariant
                0 < a <= x < 2 * den,
                0 < den <= 0x4000_0000,
                -31 <= e <= 0,
                x == a * pow2((-e) as nat),
                log2_down(a as nat, den as nat) == log2_down(x as nat, den as nat) + e,
            decreases
                    (if x < den {
                        den - x
                    } else {
                        0
                    }),
        {
            proof {
                lemma2_to64();
                lemma_pow2_unfold((-e + 1) as nat);
                assert(2 * (a * pow2((-e) as nat)) == a * (2 * pow2((-e) as nat)))
                    by (nonlinear_arith);
                if e == -31 {
                    assert(pow2(31) == 0x8000_0000);
                    assert(a * 0x8000_0000 >= 0x8000_0000) by (nonlinear_arith)
                        requires
                            a >= 1,
                    ;
                }
            }
            x = 2 * x;
            e = e - 1;
        }
        proof {
            lemma_pow2_adds((-e) as nat, 52);
            assert(a * pow2((52 - e) as nat) == x * pow2(52)) by (nonlinear_arith)
                requires
                    x == a * pow2((-e) as nat),
                    pow2((52 - e) as nat) == pow2((-e) as nat) * pow2(52),
            ;
            assert(pow2(52) == 0x10_0000_0000_0000);
        }
        p = x * 0x10_0000_0000_0000;
        q = den;
    } else {
        let mut y: u128 = den;
        assert(y == den * pow2(e as nat)) by {
            assert(pow2(0) == 1);
            assert(den * 1 == den) by (nonlinear_arith);
        }
        while a >= 2 * y
            invariant
                0 < den <= y <= a < 0x4000_0000_0000_0000_0000_0000,
                0 <= e <= 94,
                y == den * pow2(e as nat),
                log2_up(a as nat, den as nat) == log2_up(a as nat, y as nat) + e,
            decreases a - y,
        {
            proof {
                lemma2_to64();
                lemma2_to64_rest();
                lemma_pow2_unfold((e + 1) as nat);
                assert(2 * (den * pow2(e as nat)) == den * (2 * pow2(e as nat)))
                    by (nonlinear_arith);
                if e == 94 {
                    lemma_pow2_adds(64, 30);
                    assert(pow2(94) == 0x4000_0000_0000_0000_0000_0000);
                    assert(den * pow2(94) >= pow2(94)) by (nonlinear_arith)
                        requires
                            den >= 1,
                    ;
                }
            }
            y = 2 * y;
            e = e + 1;
        }
        if e <= 52 {
            let scale = power_of_two((52 - e) as u32) as u128;
            proof {
                lemma_pow2_adds(e as nat, (52 - e) as nat);
                assert(pow2(52) == 0x10_0000_0000_0000);
                assert(a * scale < den * 0x20_0000_0000_0000) by (nonlinear_arith)
                    requires
                        a < 2 * y,
                        y == den * pow2(e as nat),
                        pow2(e as nat) * scale == 0x10_0000_0000_0000,
                        scale > 0,
                ;
                assert(a * scale >= den * 0x10_0000_0000_0000) by (nonlinear_arith)
                    requires
                        a >= y,
                        y == den * pow2(e as nat),
                        pow2(e as nat) * scale == 0x10_0000_0000_0000,
                        scale > 0,
                ;
                assert(den * 0x20_0000_0000_0000 <= 0x4000_0000 * 0x20_0000_0000_0000)
                    by (nonlinear_arith)
                    requires
                        den <= 0x4000_0000,
                ;
            }
            p = a * scale;
            q = den;
        } else {
            let scale = power_of_two((e - 52) as u32) as u128;
            proof {
                lemma_pow2_adds((e - 52) as nat, 52);
                assert(pow2(52) == 0x10_0000_0000_0000);
                assert(den * scale * 0x10_0000_0000_0000 == y) by (nonlinear_arith)
                    requires
                        y == den * pow2(e as nat),
                        pow2(e as nat) == scale * 0x10_0000_0000_0000,
                ;
                assert(den * scale <= y) by (nonlinear_arith)
                    requires
                        den * scale * 0x10_0000_0000_0000 == y,
                        den * scale >= 0,
                ;
            }
            p = a;
            q = den * scale;
        }
    }
    proof {
        assert(q > 0);
        assert(q * 0x10_0000_0000_0000 <= p < q * 0x20_0000_0000_0000) by (nonlinear_arith)
            requires
                a < den ==> (p == (a * pow2((-e) as nat)) * 0x10_0000_0000_0000 && q == den && den
                    <= a * pow2((-e) as nat) < 2 * den),
                a >= den && e <= 52 ==> (q == den && den * 0x10_0000_0000_0000 <= p < den
                    * 0x20_0000_0000_0000),
                a >= den && e > 52 ==> (p == a && q * 0x10_0000_0000_0000 <= a < 2 * (q
                    * 0x10_0000_0000_0000)),
        ;
        lemma_fundamental_div_mod(p as int, q as int);
        assert(0x10_0000_0000_0000 <= p / q < 0x20_0000_0000_0000) by (nonlinear_arith)
            requires
                q > 0,
                q * 0x10_0000_0000_0000 <= p < q * 0x20_0000_0000_0000,
                p == q * (p / q) + p % q,
                0 <= p % q < q,
        ;
    }
    let m0: u128 = p / q;
    let r: u128 = p % q;
    let m: u128 = if 2 * r > q || (2 * r == q && m0 % 2 == 1) {
        m0 + 1
    } else {
        m0
    };
    if m == 0x20_0000_0000_0000 {
        sign * 0x8000_0000_0000_0000 + ((e + 1024) as u64) * 0x10_0000_0000_0000
    } else {
        sign * 0x8000_0000_0000_0000 + ((e + 1023) as u64) * 0x10_0000_0000_0000 + (m
            - 0x10_0000_0000_0000) as u64
    }
}

/// The date of the instant `secs` seconds and `nanos` nanoseconds after
/// 1970-01-01T00:00:00Z, as the bits of the double that the binary form stores.
pub fn date_from_timestamp(secs: i64, nanos: u32) -> (bits: u64)
    ensures
        bits == reference_seconds(secs as int, nanos as int),
{
    let n: i128 = (secs as i128 - 978_307_200) * 1_000_000_000 + nanos as i128;
    if n == 0 {
        0
    } else if n < 0 {
        nearest_double_bits(1, (-n) as u128, 1_000_000_000)
    } else {
        nearest_double_bits(0, n as u128, 1_000_000_000)
    }
}

/// The Unix timestamp of a date: the whole seconds, and the
/// nanoseconds into the second, of the instant that lies the date's
/// number of seconds after the reference epoch. The seconds are rounded
/// down, and so are the nanoseconds. A double that is no number, or is
/// infinite, has none.
pub open spec fn timestamp_of(bits: u64) -> Option<(int, int)> {
    let e = double_exponent(bits);
    let f = double_fraction(bits);
    if e == 2047 {
        None
    } else {
        let m: int = if e == 0 {
            f as int
        } else {
            0x10_0000_0000_0000 + f as int
        };
        let signed: int = if double_sign(bits) == 1 {
            -m
        } else {
            m
        };
        if e >= 1075 {
            Some((signed * pow2((e - 1075) as nat) + 978_307_200, 0int))
        } else {
            let d = pow2(
                if e == 0 {
                    1074
                } else {
                    (1075 - e) as nat
                },
            );
            let total = signed + 978_307_200 * d;
            Some((total / (d as int), ((total % (d as int)) * 1_000_000_000) / (d as int)))
        }
    }
}

/// The nanoseconds of a timestamp are fewer than a second's.
pub proof fn lemma_timestamp_nanos(bits: u64)
    ensures
        timestamp_of(bits) matches Some((secs, nanos)) ==> 0 <= nanos < 1_000_000_000,
{
    let e = double_exponent(bits);
    if e != 2047 && e < 1075 {
        let shift: nat = if e == 0 {
            1074
        } else {
            (1075 - e) as nat
        };
        let d = pow2(shift) as int;
        lemma_pow2_pos(shift);
        let f = double_fraction(bits);
        let m: int = if e == 0 {
            f as int
        } else {
            0x10_0000_0000_0000 + f as int
        };
        let signed: int = if double_sign(bits) == 1 {
            -m
        } else {
            m
        };
        let total = signed + 978_307_200 * d;
        let part = total % d;
        lemma_mod_bound(total, d);
        lemma_fundamental_div_mod(part * 1_000_000_000, d);
        let q = (part * 1_000_000_000) / d;
        let r = (part * 1_000_000_000) % d;
        lemma_mod_bound(part * 1_000_000_000, d);
        assert(0 <= q < 1_000_000_000) by (nonlinear_arith)
            requires
                part * 1_000_000_000 == d * q + r,
                0 <= r < d,
                0 <= part < d,
                d > 0,
        ;
    }
}

/// Two to the power `t`, in 128 bits.
fn power_of_two_wide(t: u32) -> (r: u128)
    requires
        t <= 126,
    ensures
        r as nat == pow2(t as nat),
        r > 0,
{
    let mut r: u128 = 1;
    let mut j: u32 = 0;
    proof {
        lemma2_to64();
    }
    while j < t
        invariant
            j <= t <= 126,
            r as nat == pow2(j as nat),
            r > 0,
        decreases t - j,
    {
        proof {
            lemma2_to64();
            lemma2_to64_rest();
            lemma_pow2_unfold((j + 1) as nat);
            lemma_pow2_adds(64, 62);
            assert(pow2(126) == 0x4000_0000_0000_0000_0000_0000_0000_0000);
            if j + 1 < 126 {
                lemma_pow2_strictly_increases((j + 1) as nat, 126);
            }
        }
        r = r * 2;
        j += 1;
    }
    r
}

/// The Unix timestamp of a date, where its seconds fit 64 bits.
pub fn timestamp_exact(bits: u64) -> (r: Option<(i64, u32)>)
    ensures
        match timestamp_of(bits) {
            Some((secs, nanos)) => 0 <= nanos < 1_000_000_000 && (if i64::MIN <= secs
                <= i64::MAX {
                r == Some((secs as i64, nanos as u32))
            } else {
                r is None
            }),
            None => r is None,
        },
{
    let sign: u64 = bits / 0x8000_0000_0000_0000;
    let e: u64 = (bits / 0x10_0000_0000_0000) % 0x800;
    let f: u64 = bits % 0x10_0000_0000_0000;
    if e == 2047 {
        return None;
    }
    let m: u64 = if e == 0 {
        f
    } else {
        0x10_0000_0000_0000 + f
    };
    proof {
        lemma2_to64();
        lemma2_to64_rest();
    }
    if e >= 1075 {
        let k = e - 1075;
        let ghost scale = pow2(k as nat);
        if k > 12 {
            proof {
                lemma_pow2_strictly_increases(12, k as nat);
                assert(pow2(12) == 0x1000);
                assert(m * scale >= 0x10_0000_0000_0000 * 0x1000) by (nonlinear_arith)
                    requires
                        m >= 0x10_0000_0000_0000,
                        scale >= 0x1000,
                ;
                assert((-(m as int)) * scale == -(m * scale)) by (nonlinear_arith);
            }
            return None;
        }
        let factor = power_of_two(k as u32) as i128;
        proof {
            if k < 12 {
                lemma_pow2_strictly_increases(k as nat, 12);
            }
            assert(pow2(12) == 0x1000);
            assert(m * factor <= 0x20_0000_0000_0000 * 0x1000) by (nonlinear_arith)
                requires
                    0 <= m < 0x20_0000_0000_0000,
                    0 < factor <= 0x1000,
            ;
            assert((-(m as int)) * factor == -(m * factor)) by (nonlinear_arith);
        }
        let size: i128 = m as i128 * factor;
        let secs: i128 = if sign == 1 {
            978_307_200 - size
        } else {
            978_307_200 + size
        };
        if secs < -0x8000_0000_0000_0000 || secs > 0x7FFF_FFFF_FFFF_FFFF {
            None
        } else {
            Some((secs as i64, 0))
        }
    } else {
        let shift: u32 = if e == 0 {
            1074
        } else {
            (1075 - e) as u32
        };
        let ghost d = pow2(shift as nat);
        let ghost signed: int = if sign == 1 {
            -(m as int)
        } else {
            m as int
        };
        let ghost total = signed + 978_307_200 * d;
        proof {
            lemma_pow2_pos(shift as nat);
        }
        if m == 0 {
            proof {
                lemma_fundamental_div_mod_converse(total, d as int, 978_307_200, 0);
            }
            return Some((978_307_200, 0));
        }
        if shift > 96 {
            proof {
                lemma_pow2_strictly_increases(96, shift as nat);
                lemma_pow2_adds(64, 32);
                assert(pow2(96) == 0x1_0000_0000_0000_0000_0000_0000);
                assert(m * 1_000_000_000 < 0x1_0000_0000_0000_0000_0000_0000) by (nonlinear_arith)
                    requires
                        0 < m < 0x20_0000_0000_0000,
                ;
            }
            if sign == 0 {
                proof {
                    lemma_fundamental_div_mod_converse(total, d as int, 978_307_200, m as int);
                    lemma_fundamental_div_mod_converse(
                        m * 1_000_000_000,
                        d as int,
                        0,
                        m * 1_000_000_000,
                    );
                }
                Some((978_307_200, 0))
            } else {
                proof {
                    lemma_fundamental_div_mod_converse(total, d as int, 978_307_199, d - m);
                    assert((d - m) * 1_000_000_000 == 999_999_999 * d + (d - m * 1_000_000_000))
                        by (nonlinear_arith);
                    lemma_fundamental_div_mod_converse(
                        (d - m) * 1_000_000_000,
                        d as int,
                        999_999_999,
                        d - m * 1_000_000_000,
                    );
                }
                Some((978_307_199, 999_999_999))
            }
        } else {
            let unit: u128 = power_of_two_wide(shift);
            let whole: u128 = m as u128 / unit;
            let part: u128 = m as u128 % unit;
            proof {
                lemma_pow2_adds(64, 32);
                assert(pow2(96) == 0x1_0000_0000_0000_0000_0000_0000);
                if shift < 96 {
                    lemma_pow2_strictly_increases(shift as nat, 96);
                }
                lemma_fundamental_div_mod(m as int, unit as int);
                assert(whole <= m) by (nonlinear_arith)
                    requires
                        m == unit * whole + part,
                        unit >= 1,
                        part >= 0,
                        whole >= 0,
                ;
            }
            if sign == 0 {
                proof {
                    assert(total == (978_307_200 + whole) * unit + part) by (nonlinear_arith)
                        requires
                            total == m + 978_307_200 * unit,
                            m == unit * whole + part,
                    ;
                    lemma_fundamental_div_mod_converse(
                        total,
                        unit as int,
                        978_307_200 + whole,
                        part as int,
                    );
                    assert(part * 1_000_000_000 < unit * 1_000_000_000) by (nonlinear_arith)
                        requires
                            part < unit,
                    ;
                    assert(unit * 1_000_000_000 <= 0x1_0000_0000_0000_0000_0000_0000
                        * 1_000_000_000) by (nonlinear_arith)
                        requires
                            unit <= 0x1_0000_0000_0000_0000_0000_0000,
                    ;
                    lemma_fundamental_div_mod(part * 1_000_000_000, unit as int);
                    assert((part * 1_000_000_000) / (unit as int) < 1_000_000_000)
                        by (nonlinear_arith)
                        requires
                            part * 1_000_000_000 < unit * 1_000_000_000,
                            part * 1_000_000_000 == unit * ((part * 1_000_000_000) / (
                            unit as int)) + (part * 1_000_000_000) % (unit as int),
                            (part * 1_000_000_000) % (unit as int) >= 0,
                            unit > 0,
                    ;
                }
                let nanos: u128 = part * 1_000_000_000 / unit;
                Some(((978_307_200 + whole) as i64, nanos as u32))
            } else if part == 0 {
                proof {
                    assert(total == (978_307_200 - whole) * unit + 0) by (nonlinear_arith)
                        requires
                            total == -(m as int) + 978_307_200 * unit,
                            m == unit * whole + part,
                            part == 0,
                    ;
                    lemma_fundamental_div_mod_converse(
                        total,
                        unit as int,
                        978_307_200 - whole,
                        0,
                    );
                }
                Some(((978_307_200 - whole as i128) as i64, 0))
            } else {
                let rest: u128 = unit - part;
                proof {
                    assert(total == (978_307_199 - whole) * unit + rest) by (nonlinear_arith)
                        requires
                            total == -(m as int) + 978_307_200 * unit,
                            m == unit * whole + part,
                            rest == unit - part,
                    ;
                    lemma_fundamental_div_mod_converse(
                        total,
                        unit as int,
                        978_307_199 - whole,
                        rest as int,
                    );
                    assert(rest * 1_000_000_000 < unit * 1_000_000_000) by (nonlinear_arith)
                        requires
                            rest < unit,
                    ;
                    assert(unit * 1_000_000_000 <= 0x1_0000_0000_0000_0000_0000_0000
                        * 1_000_000_000) by (nonlinear_arith)
                        requires
                            unit <= 0x1_0000_0000_0000_0000_0000_0000,
                    ;
                    lemma_fundamental_div_mod(rest * 1_000_000_000, unit as int);
                    assert((rest * 1_000_000_000) / (unit as int) < 1_000_000_000)
                        by (nonlinear_arith)
                        requires
                            rest * 1_000_000_000 < unit * 1_000_000_000,
                            rest * 1_000_000_000 == unit * ((rest * 1_000_000_000) / (
                            unit as int)) + (rest * 1_000_000_000) % (unit as int),
                            (rest * 1_000_000_000) % (unit as int) >= 0,
                            unit > 0,
                    ;
                }
                let nanos: u128 = rest * 1_000_000_000 / unit;
                Some(((978_307_199 - whole as i128) as i64, nanos as u32))
            }
        }
    }
}

/// Whether chrono has an instant for the timestamp: what
/// `chrono::DateTime::from_timestamp` says of it.
pub uninterp spec fn representable(secs: int, nanos: int) -> bool;

/// Calls `chrono::DateTime::from_timestamp`. Believed: whether it returns
/// an instant is a function of the two numbers alone.
#[verifier::external_body]
pub(crate) fn timestamp_exists(secs: i64, nanos: u32) -> (ok: bool)
    ensures
        ok == representable(secs as int, nanos as int),
{
    chrono::DateTime::from_timestamp(secs, nanos).is_some()
}

/// The Unix timestamp that `chrono::DateTime::parse_from_rfc3339` reads
/// from `text`; `None` where it reports an error.
pub uninterp spec fn rfc3339_instant(text: Seq<char>) -> Option<(i64, u32)>;

/// Calls `chrono::DateTime::parse_from_rfc3339`, and on the instant it
/// returns `timestamp` and `timestamp_subsec_nanos`. Believed: whether the
/// text is read, and as which timestamp, is a function of the text alone.
#[verifier::external_body]
pub(crate) fn timestamp_from_rfc3339(text: &str) -> (r: Option<(i64, u32)>)
    ensures
        r == rfc3339_instant(text@),
{
    match chrono::DateTime::parse_from_rfc3339(text) {
        Ok(instant) => Some((instant.timestamp(), instant.timestamp_subsec_nanos())),
        Err(_) => None,
    }
}

/// The text that the `Display` of `chrono::DateTime<Utc>` shows for the
/// instant of a timestamp, such as `2001-01-01 00:00:00 UTC`.
pub uninterp spec fn instant_text(secs: int, nanos: int) -> Seq<char>;

/// Formats the instant of a timestamp with the `Display` of
/// `chrono::DateTime<Utc>`. Believed: the text is a function of the two
/// numbers alone. The timestamp must be one that chrono has an instant for.
#[verifier::external_body]
pub(crate) fn text_of_timestamp(secs: i64, nanos: u32) -> (text: String)
    requires
        representable(secs as int, nanos as int),
    ensures
        text@ == instant_text(secs as int, nanos as int),
{
    format!("{}", chrono::DateTime::from_timestamp(secs, nanos).unwrap())
}

/// The instant of a date: its Unix timestamp, if the seconds fit 64 bits
/// and chrono has an instant for it.
pub open spec fn instant_of(bits: u64) -> Option<(int, int)> {
    match timestamp_of(bits) {
        Some((secs, nanos)) => if i64::MIN <= secs <= i64::MAX && representable(secs, nanos) {
            Some((secs, nanos))
        } else {
            None
        },
        None => None,
    }
}

/// Whether a timestamp comes back from its double exactly: the double
/// nearest to it, turned into a timestamp again, is the same timestamp.
pub open spec fn exact(secs: i64, nanos: u32) -> bool {
    timestamp_of(reference_seconds(secs as int, nanos as int)) == Some(
        (secs as int, nanos as int),
    )
}

/// One timestamp for each double that is the double of a timestamp: the
/// timestamp that the double turns into, where that one has this double;
/// otherwise some timestamp that has it.
pub open spec fn stamp_of_bits(bits: u64) -> (i64, u32) {
    match timestamp_of(bits) {
        Some((secs, nanos)) => if i64::MIN <= secs <= i64::MAX && 0 <= nanos <= u32::MAX
            && reference_seconds(secs, nanos) == bits {
            (secs as i64, nanos as u32)
        } else {
            choose|t: (i64, u32)| reference_seconds(t.0 as int, t.1 as int) == bits
        },
        None => choose|t: (i64, u32)| reference_seconds(t.0 as int, t.1 as int) == bits,
    }
}

/// The timestamp that stands for all timestamps with the same double as
/// this one. An exact timestamp stands for itself.
pub open spec fn canon(secs: i64, nanos: u32) -> (i64, u32) {
    stamp_of_bits(reference_seconds(secs as int, nanos as int))
}

/// A timestamp and the one that stands for it have the same double.
pub proof fn lemma_canon_double(secs: i64, nanos: u32)
    ensures
        reference_seconds(canon(secs, nanos).0 as int, canon(secs, nanos).1 as int)
            == reference_seconds(secs as int, nanos as int),
{
    let bits = reference_seconds(secs as int, nanos as int);
    let witness = (secs, nanos);
    assert(reference_seconds(witness.0 as int, witness.1 as int) == bits);
}

/// An exact timestamp stands for itself.
pub proof fn lemma_canon_exact(secs: i64, nanos: u32)
    requires
        exact(secs, nanos),
    ensures
        canon(secs, nanos) == (secs, nanos),
{
}

/// Two timestamps are stood for by the same one exactly when they have
/// the same double.
pub proof fn lemma_canon_same(a: (i64, u32), b: (i64, u32))
    ensures
        canon(a.0, a.1) == canon(b.0, b.1) <==> reference_seconds(a.0 as int, a.1 as int)
            == reference_seconds(b.0 as int, b.1 as int),
{
    lemma_canon_double(a.0, a.1);
    lemma_canon_double(b.0, b.1);
}

/// The timestamp, if it stands for an instant.
pub fn checked_timestamp(exact: Option<(i64, u32)>, exists: bool) -> (r: Option<(i64, u32)>)
    ensures
        r == (if exists {
            exact
        } else {
            None
        }),
{
    if exists {
        exact
    } else {
        None
    }
}

/// The instant of a date as a Unix timestamp: seconds, and nanoseconds
/// into the second.
pub fn timestamp_of_date(bits: u64) -> (r: Option<(i64, u32)>)
    ensures
        match r {
            Some((secs, nanos)) => instant_of(bits) == Some((secs as int, nanos as int)),
            None => instant_of(bits) is None,
        },
{
    match timestamp_exact(bits) {
        Some((secs, nanos)) => checked_timestamp(
            Some((secs, nanos)),
            timestamp_exists(secs, nanos),
        ),
        None => None,
    }
}

/// The binade of a ratio that lies between two powers of two.
pub proof fn lemma_log2_up(a: nat, den: nat, e: nat)
    requires
        den > 0,
        den * pow2(e) <= a < den * pow2(e + 1),
    ensures
        log2_up(a, den) == e,
    decreases e,
{
    lemma2_to64();
    if e == 0 {
        assert(den * 1 == den && den * 2 == 2 * den) by (nonlinear_arith);
    } else {
        lemma_pow2_unfold(e);
        lemma_pow2_unfold(e + 1);
        lemma_pow2_pos((e - 1) as nat);
        assert(den * pow2(e) == (2 * den) * pow2((e - 1) as nat)) by (nonlinear_arith)
            requires
                pow2(e) == 2 * pow2((e - 1) as nat),
        ;
        assert(den * pow2(e + 1) == (2 * den) * pow2(e)) by (nonlinear_arith)
            requires
                pow2(e + 1) == 2 * pow2(e),
        ;
        assert((2 * den) * pow2((e - 1) as nat) >= 2 * den) by (nonlinear_arith)
            requires
                pow2((e - 1) as nat) >= 1,
                den > 0,
        ;
        lemma_log2_up(a, 2 * den, (e - 1) as nat);
    }
}

/// The fields of a double that was put together from them.
pub proof fn lemma_make_double(sign: nat, exponent: nat, fraction: nat)
    requires
        sign <= 1,
        exponent < 2048,
        fraction < 0x10_0000_0000_0000,
    ensures
        double_sign(make_double(sign, exponent, fraction)) == sign,
        double_exponent(make_double(sign, exponent, fraction)) == exponent,
        double_fraction(make_double(sign, exponent, fraction)) == fraction,
{
}

/// Whole seconds keep their instant: a timestamp without nanoseconds, at
/// most 2^53 seconds from the reference epoch, comes back from its date
/// exactly.
pub proof fn law_whole_seconds(secs: int)
    requires
        -0x20_0000_0000_0000 <= secs - 978_307_200 <= 0x20_0000_0000_0000,
    ensures
        timestamp_of(reference_seconds(secs, 0)) == Some((secs, 0int)),
{
    let apart = secs - 978_307_200;
    let den: nat = 1_000_000_000;
    let bits = reference_seconds(secs, 0);
    lemma2_to64();
    lemma2_to64_rest();
    if apart == 0 {
        let d = pow2(1074);
        lemma_pow2_pos(1074);
        lemma_fundamental_div_mod_converse((978_307_200 * d) as int, d as int, 978_307_200, 0);
    } else {
        let sign: nat = if apart < 0 {
            1
        } else {
            0
        };
        let n: nat = if apart < 0 {
            (-apart) as nat
        } else {
            apart as nat
        };
        let a: nat = n * den;
        assert(bits == nearest_double(sign, a, den)) by {
            assert((-apart) * 1_000_000_000 == -(apart * 1_000_000_000)) by (nonlinear_arith);
        }
        let e = top_bit(n);
        lemma_top_bit_bounds(n);
        assert(den * pow2(e) <= a < den * pow2(e + 1)) by (nonlinear_arith)
            requires
                a == n * den,
                pow2(e) <= n < pow2(e + 1),
                den > 0,
        ;
        lemma_log2_up(a, den, e);
        assert(a >= den) by (nonlinear_arith)
            requires
                a == n * den,
                n >= 1,
        ;
        assert(binade(a, den) == e);
        if e > 53 {
            lemma_pow2_strictly_increases(53, e);
            assert(pow2(53) == 0x20_0000_0000_0000);
        }
        assert(pow2(53) == 0x20_0000_0000_0000);
        assert(pow2(52) == 0x10_0000_0000_0000);
        if e <= 52 {
            let scale = pow2((52 - e) as nat);
            lemma_pow2_pos((52 - e) as nat);
            lemma_pow2_adds(e, (52 - e) as nat);
            lemma_pow2_adds(e + 1, (52 - e) as nat);
            let m = n * scale;
            assert(0x10_0000_0000_0000 <= m < 0x20_0000_0000_0000) by (nonlinear_arith)
                requires
                    m == n * scale,
                    pow2(e) <= n < pow2(e + 1),
                    pow2(e) * scale == 0x10_0000_0000_0000,
                    pow2(e + 1) * scale == 0x20_0000_0000_0000,
                    scale > 0,
            ;
            let p = a * scale;
            assert(p == den * m) by (nonlinear_arith)
                requires
                    p == a * scale,
                    a == n * den,
                    m == n * scale,
            ;
            lemma_fundamental_div_mod_converse(p as int, den as int, m as int, 0);
            assert(round_half_even(p, den) == m);
            let fraction = (m - 0x10_0000_0000_0000) as nat;
            assert(bits == make_double(sign, (e + 1023) as nat, fraction));
            lemma_make_double(sign, (e + 1023) as nat, fraction);
            if e == 52 {
                assert(pow2(0) == 1);
                assert(scale == 1);
                assert(m == n) by (nonlinear_arith)
                    requires
                        m == n * scale,
                        scale == 1,
                ;
                assert(m * 1 == m && (-(m as int)) * 1 == -(m as int)) by (nonlinear_arith);
            } else {
                let signed: int = if sign == 1 {
                    -(m as int)
                } else {
                    m as int
                };
                let total = signed + 978_307_200 * scale;
                assert(total == secs * scale) by (nonlinear_arith)
                    requires
                        total == signed + 978_307_200 * scale,
                        m == n * scale,
                        sign == 1 ==> signed == -(m as int) && n == -(secs - 978_307_200),
                        sign == 0 ==> signed == m as int && n == secs - 978_307_200,
                        sign <= 1,
                ;
                assert(secs * scale == scale * secs) by (nonlinear_arith);
                lemma_fundamental_div_mod_converse(total, scale as int, secs, 0);
                assert((1075 - (e + 1023)) as nat == (52 - e) as nat);
            }
        } else {
            assert(e == 53);
            lemma_pow2_unfold(54);
            assert(n == 0x20_0000_0000_0000);
            assert(pow2(1) == 2);
            let q = den * 2;
            assert(a == q * 0x10_0000_0000_0000) by (nonlinear_arith)
                requires
                    a == n * den,
                    n == 0x20_0000_0000_0000,
                    q == den * 2,
            ;
            lemma_fundamental_div_mod_converse(a as int, q as int, 0x10_0000_0000_0000, 0);
            assert(round_half_even(a, q) == 0x10_0000_0000_0000);
            assert(bits == make_double(sign, 1076, 0));
            lemma_make_double(sign, 1076, 0);
            assert((1076 - 1075) as nat == 1);
            assert(0x10_0000_0000_0000 * pow2(1) == 0x20_0000_0000_0000 && (
            -0x10_0000_0000_0000) * pow2(1) == -0x20_0000_0000_0000) by (nonlinear_arith)
                requires
                    pow2(1) == 2,
            ;
        }
    }
}

} // verus!
