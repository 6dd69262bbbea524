//! Probabilities as exact cutoffs over 64-bit draws.
//!
//! Flipping a coin of bias `p` means drawing a word `x` and asking whether
//! `x / 2^64`, computed in binary64 arithmetic, is less than `p`. The answer
//! is monotone in `x`, so it is the same as asking whether `x` is below one
//! fixed integer. [`Rate`] is that integer; [`Rate::from_bits`] computes it
//! from the binary64 encoding of `p`.

use vstd::arithmetic::power2::*;
use vstd::prelude::*;

verus! {

/// Cutoff of a 50% chance.
pub const CUTOFF_FIFTY: u64 = 0x7FFF_FFFF_FFFF_FE00;

/// Cutoff of a 40% chance.
pub const CUTOFF_FORTY: u64 = 0x6666_6666_6666_6600;

/// Cutoff of a 15% chance.
pub const CUTOFF_FIFTEEN: u64 = 0x2666_6666_6666_6501;

/// Cutoff of a 5% chance.
pub const CUTOFF_FIVE: u64 = 0x0CCC_CCCC_CCCC_CCC0;

/// The least significand of a normal binary64 number.
pub open spec fn low_significand() -> nat {
    0x10_0000_0000_0000
}

/// Biased exponent field of a binary64 encoding.
pub open spec fn exponent_field(bits: u64) -> nat {
    (bits as nat / low_significand()) % 2048
}

/// Fraction field of a binary64 encoding.
pub open spec fn fraction_field(bits: u64) -> nat {
    bits as nat % low_significand()
}

/// Integer significand of a binary64 encoding.
pub open spec fn significand(bits: u64) -> nat {
    if exponent_field(bits) == 0 {
        fraction_field(bits)
    } else {
        low_significand() + fraction_field(bits)
    }
}

/// The exponent that goes with [`significand`]: the encoded magnitude is
/// `significand * 2^(scale - 1075)`.
pub open spec fn scale(bits: u64) -> nat {
    if exponent_field(bits) == 0 {
        1
    } else {
        exponent_field(bits)
    }
}

/// Whether the encoded number lies in `[0, 1]` (negative zero does).
pub open spec fn in_unit_interval(bits: u64) -> bool {
    if bits < 0x8000_0000_0000_0000 {
        bits <= 0x3FF0_0000_0000_0000
    } else {
        bits == 0x8000_0000_0000_0000
    }
}

/// Distance between neighbouring binary64 numbers in the binade of `x`, for
/// the integers that binary64 does not hold exactly; one for the others.
pub open spec fn ulp(x: nat) -> nat
    decreases x,
{
    if x < 2 * low_significand() {
        1
    } else {
        2 * ulp(x / 2)
    }
}

/// `x` converted to binary64: the nearest representable integer, ties to the
/// even significand.
pub open spec fn nearest(x: nat) -> nat {
    let k = ulp(x);
    let q = x / k;
    let r = x % k;
    if 2 * r < k || (2 * r == k && q % 2 == 0) {
        q * k
    } else {
        (q + 1) * k
    }
}

/// Whether the draw `x`, taken as a binary64 fraction of `2^64`, is less than
/// the number that `bits` encodes. Both sides are multiplied by `2^1075`.
pub open spec fn falls_below(x: u64, bits: u64) -> bool {
    nearest(x as nat) * pow2(1011) < significand(bits) * pow2(scale(bits))
}

/// The least integer whose binary64 conversion is not below `m * 2^e`.
spec fn cut(m: nat, e: nat) -> int {
    let k = pow2(e);
    if e == 0 {
        m as int
    } else if m == low_significand() {
        if e == 1 {
            (m * k) as int
        } else {
            m * k - k / 4
        }
    } else {
        m * k - k / 2 + m % 2
    }
}

proof fn lemma_ulp(x: nat) -> (j: nat)
    ensures
        ulp(x) == pow2(j),
        x < 2 * low_significand() * pow2(j),
        j > 0 ==> low_significand() * pow2(j) <= x,
    decreases x,
{
    if x < 2 * low_significand() {
        vstd::arithmetic::power2::lemma2_to64();
        0
    } else {
        let i = lemma_ulp(x / 2);
        vstd::arithmetic::power2::lemma_pow2_unfold(i + 1);
        vstd::arithmetic::power2::lemma_pow2_pos(i);
        if i == 0 {
            vstd::arithmetic::power2::lemma2_to64();
        }
        let low = low_significand();
        let p = pow2(i);
        assert(2 * low * (2 * p) == 2 * (2 * low * p) && low * (2 * p) == 2 * (low * p))
            by (nonlinear_arith);
        i + 1
    }
}

/// A power of two above the first is twice a power of two, and one above the
/// second four times one.
proof fn lemma_pow2_halves(e: nat)
    ensures
        pow2(e) > 0,
        e >= 1 ==> pow2(e) == 2 * (pow2(e) / 2) && pow2(e) / 2 > 0,
        e >= 2 ==> pow2(e) == 4 * (pow2(e) / 4) && pow2(e) / 4 > 0,
{
    vstd::arithmetic::power2::lemma_pow2_pos(e);
    if e >= 1 {
        vstd::arithmetic::power2::lemma_pow2_unfold(e);
        vstd::arithmetic::power2::lemma_pow2_pos((e - 1) as nat);
    }
    if e >= 2 {
        vstd::arithmetic::power2::lemma_pow2_unfold((e - 1) as nat);
        vstd::arithmetic::power2::lemma_pow2_pos((e - 2) as nat);
    }
}

/// Where rounding `x` lands, in terms of quotient and remainder by its ulp.
proof fn lemma_nearest(x: nat)
    ensures
        ulp(x) > 0,
        x == (x / ulp(x)) * ulp(x) + x % ulp(x),
        x % ulp(x) < ulp(x),
        nearest(x) == (x / ulp(x)) * ulp(x) || nearest(x) == (x / ulp(x)) * ulp(x) + ulp(x),
{
    let j = lemma_ulp(x);
    vstd::arithmetic::power2::lemma_pow2_pos(j);
    let k = ulp(x);
    vstd::arithmetic::div_mod::lemma_fundamental_div_mod(x as int, k as int);
    let q = x / k;
    assert(k * q == q * k) by (nonlinear_arith);
    assert((q + 1) * k == q * k + k) by (nonlinear_arith);
}

proof fn lemma_cut(x: nat, m: nat, e: nat)
    requires
        low_significand() <= m < 2 * low_significand(),
    ensures
        nearest(x) < m * pow2(e) <==> x < cut(m, e),
{
    let low = low_significand();
    let j = lemma_ulp(x);
    lemma_nearest(x);
    lemma_pow2_halves(e);
    lemma_pow2_halves(j);
    let k = pow2(e);
    let kx = pow2(j);
    let q = x / kx;
    let r = x % kx;
    let y = m * k;
    if j < e {
        let c = pow2((e - j) as nat);
        lemma_pow2_halves((e - j) as nat);
        vstd::arithmetic::power2::lemma_pow2_adds((e - j) as nat, j);
        assert(k == c * kx);
        assert(q < 2 * low) by (nonlinear_arith)
            requires
                x == q * kx + r,
                x < 2 * low * kx,
                kx > 0,
        ;
        assert(q * kx + kx <= 2 * low * kx) by (nonlinear_arith)
            requires
                q < 2 * low,
                kx > 0,
        ;
        if m > low {
            let h = c / 2;
            assert(k / 2 == h * kx) by (nonlinear_arith)
                requires
                    k == c * kx,
                    c == 2 * h,
            ;
            assert(y - k / 2 >= 2 * low * kx && y > 2 * low * kx) by (nonlinear_arith)
                requires
                    y == m * k,
                    k == c * kx,
                    k / 2 == h * kx,
                    c == 2 * h,
                    h >= 1,
                    kx >= 1,
                    m >= low + 1,
                    low >= 1,
            ;
            assert(nearest(x) < m * pow2(e) <==> x < cut(m, e));
        } else if e - j >= 2 {
            let h = c / 4;
            assert(k / 4 == h * kx) by (nonlinear_arith)
                requires
                    k == c * kx,
                    c == 4 * h,
            ;
            assert(y - k / 4 >= 2 * low * kx && y > 2 * low * kx) by (nonlinear_arith)
                requires
                    y == low * k,
                    k == c * kx,
                    k / 4 == h * kx,
                    c == 4 * h,
                    h >= 1,
                    kx >= 1,
                    low >= 1,
            ;
            assert(nearest(x) < m * pow2(e) <==> x < cut(m, e));
        } else {
            vstd::arithmetic::power2::lemma2_to64();
            assert(c == 2);
            assert(y == 2 * low * kx) by (nonlinear_arith)
                requires
                    y == low * k,
                    k == 2 * kx,
            ;
            if q < 2 * low - 1 {
                assert(q * kx + kx + kx <= 2 * low * kx) by (nonlinear_arith)
                    requires
                        q + 2 <= 2 * low,
                        kx > 0,
                ;
            assert(nearest(x) < m * pow2(e) <==> x < cut(m, e));
            } else {
                assert(q * kx + kx == 2 * low * kx) by (nonlinear_arith)
                    requires
                        q == 2 * low - 1,
                ;
                assert(q % 2 == 1);
                assert((q + 1) * kx == q * kx + kx) by (nonlinear_arith);
            assert(nearest(x) < m * pow2(e) <==> x < cut(m, e));
            }
        }
    } else if j == e {
        assert((q + 1) * kx == q * kx + kx) by (nonlinear_arith);
        if e > 0 && m == low {
            assert(q >= low) by (nonlinear_arith)
                requires
                    x == q * kx + r,
                    r < kx,
                    low * kx <= x,
            ;
            assert(q * kx >= low * kx) by (nonlinear_arith)
                requires
                    q >= low,
                    kx > 0,
            ;
            assert(nearest(x) < m * pow2(e) <==> x < cut(m, e));
        } else if q >= m {
            assert(q * kx >= y) by (nonlinear_arith)
                requires
                    q >= m,
                    y == m * kx,
                    kx > 0,
            ;
            if e == 0 {
                vstd::arithmetic::power2::lemma2_to64();
            }
            assert(nearest(x) < m * pow2(e) <==> x < cut(m, e));
        } else if q + 1 < m {
            assert(q * kx + kx + kx <= y) by (nonlinear_arith)
                requires
                    q + 2 <= m,
                    y == m * kx,
                    kx > 0,
            ;
            if e == 0 {
                vstd::arithmetic::power2::lemma2_to64();
            }
        } else {
            assert(q * kx + kx == y) by (nonlinear_arith)
                requires
                    q + 1 == m,
                    y == m * kx,
            ;
            if e == 0 {
                vstd::arithmetic::power2::lemma2_to64();
            }
        }
    } else {
        let c = pow2((j - e) as nat);
        lemma_pow2_halves((j - e) as nat);
        vstd::arithmetic::power2::lemma_pow2_adds((j - e) as nat, e);
        assert(kx == c * k);
        assert(q >= low) by (nonlinear_arith)
            requires
                x == q * kx + r,
                r < kx,
                low * kx <= x,
        ;
        assert(q * kx >= low * kx) by (nonlinear_arith)
            requires
                q >= low,
                kx > 0,
        ;
        assert(low * kx > y) by (nonlinear_arith)
            requires
                kx == c * k,
                c >= 2,
                k >= 1,
                y == m * k,
                m < 2 * low,
        ;
        if e == 0 {
            vstd::arithmetic::power2::lemma2_to64();
        }
    }
}

/// The chance of a coin flip, as the number of 64-bit draws that come up true.
#[derive(Clone, Copy, Debug, PartialEq, Eq, Structural)]
pub struct Rate {
    /// A draw comes up true exactly when it is below this.
    pub cutoff: u64,
}

impl Rate {
    /// The rate of a probability given by its binary64 encoding. `None` outside
    /// `[0, 1]`.
    pub fn from_bits(bits: u64) -> (r: Option<Rate>)
        ensures
            r is Some <==> in_unit_interval(bits),
            r matches Some(rate) ==> forall|x: u64|
                x < rate.cutoff <==> #[trigger] falls_below(x, bits),
    {
        if bits > 0x3FF0_0000_0000_0000 && bits != 0x8000_0000_0000_0000 {
            return None;
        }
        let exp: u64 = (bits / 0x10_0000_0000_0000) % 2048;
        let frac: u64 = bits % 0x10_0000_0000_0000;
        let m: u64 = if exp == 0 {
            frac
        } else {
            0x10_0000_0000_0000 + frac
        };
        let sc: u64 = if exp == 0 {
            1
        } else {
            exp
        };
        assert(sc <= 1023 && (sc == 1023 ==> m == low_significand()));
        if sc >= 1011 {
            let e: u64 = sc - 1011;
            proof {
                vstd::arithmetic::power2::lemma_pow2_adds(e as nat, 1011);
                vstd::arithmetic::power2::lemma_pow2_pos(1011);
                vstd::arithmetic::power2::lemma2_to64();
                vstd::bits::lemma_u64_shl_is_mul(1, e);
                lemma_pow2_halves(e as nat);
                lemma_pow2_small(e as nat);
            }
            let k: u64 = 1u64 << e;
            assert((m - 1) * k + k == m * k) by (nonlinear_arith);
            assert((m - 1) * k + k <= 0x1_0000_0000_0000_0000 && (m != 0x10_0000_0000_0000 ==> (m - 1)
                * k + k < 0x1_0000_0000_0000_0000)) by (nonlinear_arith)
                requires
                    m < 0x20_0000_0000_0000 && k <= 2048 || m == 0x10_0000_0000_0000 && k <= 4096,
                    m >= 1,
            ;
            let base: u64 = (m - 1) * k;
            let cutoff: u64 = if e == 0 {
                m
            } else if m == 0x10_0000_0000_0000 {
                if e == 1 {
                    base + 2
                } else {
                    base + 3 * (k / 4)
                }
            } else {
                base + k / 2 + m % 2
            };
            assert(cutoff == cut(m as nat, e as nat));
            assert forall|x: u64| x < cutoff <==> #[trigger] falls_below(x, bits) by {
                lemma_normal(x, bits, m as nat, e as nat);
            }
            Some(Rate { cutoff })
        } else {
            let d: u64 = 1011 - sc;
            let cutoff: u64 = if d >= 53 {
                if m > 0 {
                    1
                } else {
                    0
                }
            } else {
                proof {
                    vstd::arithmetic::power2::lemma2_to64_rest();
                    vstd::arithmetic::power2::lemma_pow2_strictly_increases(d as nat, 53);
                    vstd::bits::lemma_u64_shl_is_mul(1, d);
                    vstd::arithmetic::power2::lemma_pow2_pos(d as nat);
                }
                let k: u64 = 1u64 << d;
                (m + (k - 1)) / k
            };
            assert forall|x: u64| x < cutoff <==> #[trigger] falls_below(x, bits) by {
                lemma_small(x as nat, m as nat, d as nat, cutoff as nat);
                vstd::arithmetic::power2::lemma_pow2_adds(d as nat, sc as nat);
                vstd::arithmetic::power2::lemma_pow2_pos(sc as nat);
                let a = nearest(x as nat);
                let q = pow2(d as nat);
                let p = pow2(sc as nat);
                assert(a * pow2(1011) == (a * q) * p) by (nonlinear_arith)
                    requires
                        pow2(1011) == q * p,
                ;
                assert(a * q < m as nat <==> (a * q) * p < m as nat * p) by (nonlinear_arith)
                    requires
                        p > 0,
                ;
            }
            Some(Rate { cutoff })
        }
    }
}

/// The draws below a number in the top binades are those below its cut.
proof fn lemma_normal(x: u64, bits: u64, m: nat, e: nat)
    requires
        scale(bits) == e + 1011,
        significand(bits) == m,
        low_significand() <= m < 2 * low_significand(),
    ensures
        x < cut(m, e) <==> falls_below(x, bits),
{
    lemma_cut(x as nat, m, e);
    vstd::arithmetic::power2::lemma_pow2_adds(e, 1011);
    vstd::arithmetic::power2::lemma_pow2_pos(1011);
    let a = nearest(x as nat);
    let b = m * pow2(e);
    let p = pow2(1011);
    assert(m * pow2(e + 1011) == b * p) by (nonlinear_arith)
        requires
            b == m * pow2(e),
            pow2(e + 1011) == pow2(e) * p,
    ;
    assert(a < b <==> a * p < b * p) by (nonlinear_arith)
        requires
            p > 0,
    ;
}

/// The named cutoffs are those of the decimal probabilities 0.5, 0.4, 0.15 and
/// 0.05 in their binary64 encodings.
pub proof fn lemma_named_cutoffs()
    ensures
        forall|x: u64| x < CUTOFF_FIFTY <==> #[trigger] falls_below(x, 0x3FE0_0000_0000_0000),
        forall|x: u64| x < CUTOFF_FORTY <==> #[trigger] falls_below(x, 0x3FD9_9999_9999_999A),
        forall|x: u64| x < CUTOFF_FIFTEEN <==> #[trigger] falls_below(x, 0x3FC3_3333_3333_3333),
        forall|x: u64| x < CUTOFF_FIVE <==> #[trigger] falls_below(x, 0x3FA9_9999_9999_999A),
{
    vstd::arithmetic::power2::lemma2_to64();
    assert forall|x: u64| x < CUTOFF_FIFTY <==> #[trigger] falls_below(x, 0x3FE0_0000_0000_0000) by {
        lemma_normal(x, 0x3FE0_0000_0000_0000, 0x10000000000000, 11);
    }
    assert forall|x: u64| x < CUTOFF_FORTY <==> #[trigger] falls_below(x, 0x3FD9_9999_9999_999A) by {
        lemma_normal(x, 0x3FD9_9999_9999_999A, 0x1999999999999a, 10);
    }
    assert forall|x: u64| x < CUTOFF_FIFTEEN <==> #[trigger] falls_below(x, 0x3FC3_3333_3333_3333) by {
        lemma_normal(x, 0x3FC3_3333_3333_3333, 0x13333333333333, 9);
    }
    assert forall|x: u64| x < CUTOFF_FIVE <==> #[trigger] falls_below(x, 0x3FA9_9999_9999_999A) by {
        lemma_normal(x, 0x3FA9_9999_9999_999A, 0x1999999999999a, 7);
    }
}

proof fn lemma_pow2_small(e: nat)
    requires
        e <= 12,
    ensures
        pow2(e) <= 4096,
        e <= 11 ==> pow2(e) <= 2048,
{
    vstd::arithmetic::power2::lemma2_to64();
    if e < 12 {
        vstd::arithmetic::power2::lemma_pow2_strictly_increases(e, 12);
    }
    if e < 11 {
        vstd::arithmetic::power2::lemma_pow2_strictly_increases(e, 11);
    }
}

/// Below the binades where rounding matters, the cutoff is a plain ceiling.
proof fn lemma_small(x: nat, m: nat, d: nat, cutoff: nat)
    requires
        m < 2 * low_significand(),
        d >= 1,
        d >= 53 ==> cutoff == (if m > 0 { 1nat } else { 0nat }),
        d < 53 ==> cutoff == (m + pow2(d) - 1) / pow2(d) as int,
    ensures
        nearest(x) * pow2(d) < m <==> x < cutoff,
{
    lemma_nearest(x);
    let j = lemma_ulp(x);
    lemma_pow2_halves(j);
    lemma_pow2_halves(d);
    vstd::arithmetic::power2::lemma2_to64();
    vstd::arithmetic::power2::lemma2_to64_rest();
    let p = pow2(d);
    let a = nearest(x);
    if j == 0 {
        assert(ulp(x) == 1);
        assert(a == x);
    } else {
        let q = x / ulp(x);
        let k = ulp(x);
        assert(k >= 2);
        let low = low_significand();
        let r = x % k;
        assert(q >= low) by (nonlinear_arith)
            requires
                x == q * k + r,
                r < k,
                low * k <= x,
        ;
        assert(q * k >= 2 * low) by (nonlinear_arith)
            requires
                q >= low,
                k >= 2,
        ;
    }
    assert(a * p >= 2 * low_significand() || x < 2 * low_significand()) by (nonlinear_arith)
        requires
            a >= 2 * low_significand() || x < 2 * low_significand(),
            p >= 1,
    ;
    if d >= 53 {
        if d > 53 {
            vstd::arithmetic::power2::lemma_pow2_strictly_increases(53, d);
        }
        if a >= 1 {
            assert(a * p >= p) by (nonlinear_arith)
                requires
                    a >= 1,
            ;
        } else {
            assert(a * p == 0) by (nonlinear_arith)
                requires
                    a == 0,
            ;
        }
    } else {
        let t = (m + p - 1) as int;
        vstd::arithmetic::div_mod::lemma_fundamental_div_mod(t, p as int);
        let c = t / p as int;
        let r = t % p as int;
        assert(cutoff == c);
        assert(p * c + r == m + p - 1);
        assert(c <= m) by (nonlinear_arith)
            requires
                p * c + r == m + p - 1,
                0 <= r < p,
                p >= 1,
        ;
        assert(a * p < m <==> a < c) by (nonlinear_arith)
            requires
                p * c + r == m + p - 1,
                0 <= r < p,
                p >= 1,
        ;
    }
}

/// Rounding: what an integer is rounded to is a multiple of the distance between
/// neighbours, no more than half of it away, and of two that are equally near
/// the even one.
pub proof fn lemma_rounds_to_nearest(x: nat) -> (q: nat)
    ensures
        nearest(x) == q * ulp(x),
        ulp(x) > 0,
        -(ulp(x) as int) <= 2 * (nearest(x) - x) <= ulp(x),
        2 * (nearest(x) - x) == ulp(x) || 2 * (x - nearest(x)) == ulp(x) ==> q % 2 == 0,
{
    lemma_nearest(x);
    let k = ulp(x);
    let q = x / k;
    let r = x % k;
    assert((q + 1) * k == q * k + k) by (nonlinear_arith);
    if 2 * r < k || (2 * r == k && q % 2 == 0) {
        q
    } else {
        q + 1
    }
}

/// Neighbours are one apart among the integers of up to 53 bits, and beyond
/// them that power of two which leaves 53 bits.
pub proof fn lemma_neighbours(x: nat)
    ensures
        x < 0x20_0000_0000_0000 ==> ulp(x) == 1 && nearest(x) == x,
        x >= 0x20_0000_0000_0000 ==> 0x10_0000_0000_0000 * ulp(x) <= x < 0x20_0000_0000_0000 * ulp(
            x,
        ) && exists|j: nat| ulp(x) == #[trigger] pow2(j),
{
    let j = lemma_ulp(x);
    let low = low_significand();
    vstd::arithmetic::power2::lemma2_to64();
    assert(2 * low * pow2(j) == 0x20_0000_0000_0000 * pow2(j)) by (nonlinear_arith)
        requires
            low == 0x10_0000_0000_0000,
    ;
    assert(pow2(0) == 1);
}

/// A word that encodes a number is taken for a chance exactly if that number is
/// from zero to one, zero of either sign.
pub proof fn lemma_chances(bits: u64)
    ensures
        bits < 0x8000_0000_0000_0000 ==> (in_unit_interval(bits) <==> significand(bits) * pow2(
            scale(bits),
        ) <= pow2(1075)),
        bits >= 0x8000_0000_0000_0000 ==> (in_unit_interval(bits) <==> significand(
            (bits - 0x8000_0000_0000_0000) as u64,
        ) == 0),
{
    if bits < 0x8000_0000_0000_0000 {
        let e = scale(bits);
        let m = significand(bits);
        let low = low_significand();
        vstd::arithmetic::power2::lemma2_to64_rest();
        vstd::arithmetic::power2::lemma_pow2_adds(52, 1023);
        assert(pow2(1075) == low * pow2(1023));
        vstd::arithmetic::power2::lemma_pow2_pos(1023);
        vstd::arithmetic::power2::lemma_pow2_unfold(1023);
        if e < 1023 {
            if e < 1022 {
                vstd::arithmetic::power2::lemma_pow2_strictly_increases(e, 1022);
            }
            assert(m < 2 * low);
            assert(m * pow2(e) <= 2 * low * pow2(1022)) by (nonlinear_arith)
                requires
                    m < 2 * low,
                    pow2(e) <= pow2(1022),
            ;
            assert(2 * low * pow2(1022) == low * (2 * pow2(1022))) by (nonlinear_arith);
            assert(bits <= 0x3FF0_0000_0000_0000);
        } else if e == 1023 {
            assert(m * pow2(1023) <= low * pow2(1023) <==> m <= low) by (nonlinear_arith)
                requires
                    pow2(1023) > 0,
            ;
        } else {
            vstd::arithmetic::power2::lemma_pow2_strictly_increases(1023, e);
            assert(m * pow2(e) > low * pow2(1023)) by (nonlinear_arith)
                requires
                    m >= low,
                    low > 0,
                    pow2(e) > pow2(1023),
                    pow2(1023) > 0,
            ;
            assert(bits > 0x3FF0_0000_0000_0000);
        }
    }
}

/// How a word encodes a number: its low 52 bits are the fraction, the next 11 the
/// exponent and the top one the sign. Numbers with an exponent have a leading one
/// before their fraction, and those without share the least exponent.
pub proof fn lemma_fields(bits: u64)
    ensures
        ({
            let unsigned = if bits < 0x8000_0000_0000_0000 {
                bits as int
            } else {
                bits - 0x8000_0000_0000_0000
            };
            &&& unsigned == exponent_field(bits) * 0x10_0000_0000_0000 + fraction_field(bits)
            &&& fraction_field(bits) < 0x10_0000_0000_0000
            &&& exponent_field(bits) > 0 ==> significand(bits) == 0x10_0000_0000_0000
                + fraction_field(bits) && scale(bits) == exponent_field(bits)
            &&& exponent_field(bits) == 0 ==> significand(bits) == unsigned && scale(bits) == 1
        }),
{
}

/// What a coin compares: a drawn word, rounded, over two to the 64th, with the
/// encoded number, which is its significand times two to the scale less 1075.
pub proof fn lemma_falls_below(x: u64, bits: u64)
    ensures
        falls_below(x, bits) <==> nearest(x as nat) * pow2(1075) < significand(bits) * pow2(
            scale(bits),
        ) * pow2(64),
{
    vstd::arithmetic::power2::lemma_pow2_adds(1011, 64);
    vstd::arithmetic::power2::lemma_pow2_pos(64);
    let a = nearest(x as nat);
    let b = significand(bits) * pow2(scale(bits));
    let (p, q) = (pow2(1011), pow2(64));
    assert(a * (p * q) == (a * p) * q) by (nonlinear_arith);
    assert(a * p < b <==> (a * p) * q < b * q) by (nonlinear_arith)
        requires
            q > 0,
    ;
}

} // verus!
