//! Single-precision values held as their IEEE 754 bit patterns.
//!
//! Gain-map parameters are single-precision numbers. What this library does with
//! them (turning a fraction of two integers into one, quantizing one to a fixed
//! denominator, comparing, testing a range) is integer arithmetic on the bits, and
//! is stated that way. A caller that wants a number converts with `from_bits` and
//! `to_bits`.

use vstd::arithmetic::power2::{
    lemma2_to64, lemma2_to64_rest, lemma_pow2_adds, lemma_pow2_pos, lemma_pow2_strictly_increases,
    lemma_pow2_unfold, pow2,
};
use vstd::prelude::*;

use crate::rounding::{
    fits, nearest_int, round_ratio, rounded, rounding_is_unique, rounds_to, scaled,
};

verus! {

/// A single-precision number, as its bit pattern.
#[derive(Clone, Copy, Debug, PartialEq, Eq, Structural)]
pub struct Binary32 {
    pub bits: u32,
}

impl Binary32 {
    /// Whether the sign bit is set.
    pub open spec fn negative(self) -> bool {
        self.bits >= 0x8000_0000
    }

    /// The biased exponent field.
    pub open spec fn biased(self) -> int {
        (self.bits % 0x8000_0000) as int / 0x80_0000
    }

    /// The fraction field.
    pub open spec fn fraction(self) -> int {
        (self.bits % 0x80_0000) as int
    }

    #[verifier::opaque]
    pub open spec fn is_nan(self) -> bool {
        self.biased() == 255 && self.fraction() != 0
    }

    pub open spec fn is_zero(self) -> bool {
        self.bits % 0x8000_0000 == 0
    }

    /// The integer whose product with `2^exponent()` is the magnitude.
    pub open spec fn significand(self) -> nat {
        if self.biased() == 0 {
            self.fraction() as nat
        } else {
            (0x80_0000 + self.fraction()) as nat
        }
    }

    /// The power of two that scales `significand()`. An infinity reads as the next
    /// power past the largest finite value.
    pub open spec fn exponent(self) -> int {
        if self.biased() == 0 {
            -149
        } else {
            self.biased() - 150
        }
    }

    /// Numeric equality: the two zeros are equal, and nothing equals a NaN.
    pub open spec fn equals(self, other: Binary32) -> bool {
        !self.is_nan() && !other.is_nan() && (self.bits == other.bits || (self.is_zero()
            && other.is_zero()))
    }

    /// The magnitude times 65536, rounded to an integer with ties away from zero.
    #[verifier::opaque]
    pub open spec fn magnitude_in_65536ths(self) -> nat {
        let k = -(self.exponent() + 16);
        if k <= 0 {
            self.significand() * pow2((-k) as nat)
        } else {
            (self.significand() + pow2((k - 1) as nat)) / pow2(k as nat)
        }
    }

    /// The magnitude times 10000, rounded to an integer with ties to even.
    pub open spec fn in_ten_thousandths(self) -> nat {
        let (a, b) = scaled(10000 * self.significand(), 1, -self.exponent());
        nearest_int(a, b)
    }

    /// The value in 65536ths, rounded with ties away from zero and limited to the
    /// signed 32-bit range. A NaN gives 0.
    pub open spec fn signed_65536ths(self) -> int {
        let n = self.magnitude_in_65536ths() as int;
        if self.is_nan() {
            0
        } else if self.negative() {
            if n > 0x8000_0000 {
                -0x8000_0000
            } else {
                -n
            }
        } else {
            if n > 0x7fff_ffff {
                0x7fff_ffff
            } else {
                n
            }
        }
    }

    /// The value in 65536ths, rounded with ties away from zero and limited to the
    /// unsigned 32-bit range. A NaN or a negative value gives 0.
    pub open spec fn unsigned_65536ths(self) -> int {
        let n = self.magnitude_in_65536ths() as int;
        if self.is_nan() || self.negative() {
            0
        } else if n > 0xffff_ffff {
            0xffff_ffff
        } else {
            n
        }
    }

    /// The value, where it is a whole number from 0 to 31.
    pub open spec fn whole(self) -> Option<nat> {
        let unit = pow2((-self.exponent()) as nat);
        if self.is_zero() {
            Some(0)
        } else if !self.negative() && -23 <= self.exponent() <= -19 && self.significand() % unit
            == 0 {
            Some(self.significand() / unit)
        } else {
            None
        }
    }

    /// The value, where it is a whole number from 0 to 31.
    pub fn to_whole(self) -> (n: Option<u32>)
        ensures
            match n {
                Some(k) => self.whole() == Some(k as nat) && k < 32,
                None => self.whole() is None,
            },
    {
        let low: u32 = self.bits % 0x8000_0000;
        let biased: u32 = low / 0x80_0000;
        if low == 0 {
            return Some(0);
        }
        if self.bits >= 0x8000_0000 || biased < 127 || biased > 131 {
            return None;
        }
        let significand: u32 = 0x80_0000 + self.bits % 0x80_0000;
        let unit: u64 = two_to(150 - biased);
        assert(self.biased() == biased);
        assert(self.significand() == significand);
        proof {
            lemma2_to64();
        }
        assert(unit >= 0x8_0000) by {
            if biased < 131 {
                lemma_pow2_strictly_increases(19, (150 - biased) as nat);
            }
        }
        if significand as u64 % unit == 0 {
            let k: u64 = significand as u64 / unit;
            assert(k < 32) by (nonlinear_arith)
                requires
                    k == significand as u64 / unit,
                    significand < 0x100_0000,
                    unit >= 0x8_0000,
            ;
            Some(k as u32)
        } else {
            None
        }
    }

    /// Tests numeric equality.
    pub fn same_number(self, other: Binary32) -> (b: bool)
        ensures
            b == self.equals(other),
    {
        let a: u32 = self.bits % 0x8000_0000;
        let c: u32 = other.bits % 0x8000_0000;
        proof {
            self.lemma_nan();
            other.lemma_nan();
        }
        a <= 0x7f80_0000 && c <= 0x7f80_0000 && (self.bits == other.bits || (a == 0 && c == 0))
    }

    proof fn lemma_nan(self)
        ensures
            self.is_nan() == (self.bits % 0x8000_0000 > 0x7f80_0000),
    {
        reveal(Binary32::is_nan);
    }

    /// The magnitude in 65536ths, limited to 2^32.
    fn magnitude(self) -> (n: u64)
        ensures
            n == if self.magnitude_in_65536ths() > 0x1_0000_0000 {
                0x1_0000_0000
            } else {
                self.magnitude_in_65536ths() as int
            },
    {
        proof {
            reveal(Binary32::magnitude_in_65536ths);
        }
        let biased: u32 = self.bits % 0x8000_0000 / 0x80_0000;
        let fraction: u32 = self.bits % 0x80_0000;
        let m: u64 = if biased == 0 {
            fraction as u64
        } else {
            0x80_0000 + fraction as u64
        };
        let e: i32 = if biased == 0 {
            -149
        } else {
            biased as i32 - 150
        };
        assert(m == self.significand() && e == self.exponent());
        let k: i32 = -(e + 16);
        if k <= 0 {
            if k <= -9 {
                proof {
                    lemma2_to64();
                    if -k > 9 {
                        lemma_pow2_strictly_increases(9, (-k) as nat);
                    }
                    let f = pow2((-k) as nat);
                    assert(m * f >= 0x80_0000 * 512) by (nonlinear_arith)
                        requires
                            m >= 0x80_0000,
                            f >= 512,
                    ;
                }
                0x1_0000_0000
            } else {
                let f: u64 = two_to((-k) as u32);
                proof {
                    lemma2_to64();
                    if -k < 9 {
                        lemma_pow2_strictly_increases((-k) as nat, 9);
                    }
                    assert(m * f < 0x100_0000 * 512) by (nonlinear_arith)
                        requires
                            m < 0x100_0000,
                            f <= 512,
                    ;
                }
                let n: u64 = m * f;
                if n > 0x1_0000_0000 {
                    0x1_0000_0000
                } else {
                    n
                }
            }
        } else {
            proof {
                lemma_pow2_unfold(k as nat);
                lemma_pow2_pos((k - 1) as nat);
            }
            if k > 25 {
                proof {
                    lemma2_to64();
                    lemma_pow2_strictly_increases(24, (k - 1) as nat);
                    let h = pow2((k - 1) as nat) as int;
                    assert((m + h) / (2 * h) == 0) by (nonlinear_arith)
                        requires
                            0 <= m < h,
                    ;
                }
                0
            } else {
                let half: u64 = two_to((k - 1) as u32);
                proof {
                    lemma2_to64();
                    if k - 1 < 24 {
                        lemma_pow2_strictly_increases((k - 1) as nat, 24);
                    }
                    let h = half as int;
                    assert((m + h) / (2 * h) <= m + h) by (nonlinear_arith)
                        requires
                            h >= 1,
                            m >= 0,
                    ;
                }
                (m + half) / (2 * half)
            }
        }
    }

    /// The magnitude as a count of ten-thousandths, ties to even.
    pub fn to_ten_thousandths(self) -> (n: u64)
        requires
            self.biased() < 150,
        ensures
            n == self.in_ten_thousandths(),
    {
        let biased: u32 = self.bits % 0x8000_0000 / 0x80_0000;
        let fraction: u32 = self.bits % 0x80_0000;
        let m: u64 = if biased == 0 {
            fraction as u64
        } else {
            0x80_0000 + fraction as u64
        };
        let k: u32 = if biased == 0 {
            149
        } else {
            150 - biased
        };
        assert(m == self.significand() && k == -self.exponent());
        let a: u64 = 10000 * m;
        proof {
            lemma2_to64_rest();
            lemma_pow2_pos(k as nat);
            assert(1 * pow2(k as nat) == pow2(k as nat)) by (nonlinear_arith);
        }
        if k >= 40 {
            proof {
                if k > 40 {
                    lemma_pow2_strictly_increases(40, k as nat);
                }
                lemma_small_quotient(a as int, pow2(k as nat) as int);
                assert(self.in_ten_thousandths() == nearest_int(a as nat, pow2(k as nat)));
            }
            0
        } else {
            let b: u64 = two_to(k);
            let q: u64 = a / b;
            let r: u64 = a % b;
            if 2 * r > b || (2 * r == b && q % 2 == 1) {
                q + 1
            } else {
                q
            }
        }
    }

    /// The value as a count of 65536ths, limited to the signed 32-bit range.
    pub fn to_signed_65536ths(self) -> (n: i32)
        ensures
            n == self.signed_65536ths(),
    {
        proof {
            self.lemma_nan();
        }
        if self.bits % 0x8000_0000 > 0x7f80_0000 {
            return 0;
        }
        let n: u64 = self.magnitude();
        if self.bits >= 0x8000_0000 {
            if n > 0x8000_0000 {
                -0x8000_0000
            } else {
                (-(n as i64)) as i32
            }
        } else {
            if n > 0x7fff_ffff {
                0x7fff_ffff
            } else {
                n as i32
            }
        }
    }

    /// The value as a count of 65536ths, limited to the unsigned 32-bit range.
    pub fn to_unsigned_65536ths(self) -> (n: u32)
        ensures
            n == self.unsigned_65536ths(),
    {
        proof {
            self.lemma_nan();
        }
        if self.bits % 0x8000_0000 > 0x7f80_0000 || self.bits >= 0x8000_0000 {
            return 0;
        }
        let n: u64 = self.magnitude();
        if n > 0xffff_ffff {
            0xffff_ffff
        } else {
            n as u32
        }
    }
}

proof fn lemma_small_quotient(a: int, b: int)
    by (nonlinear_arith)
    requires
        0 <= a < b,
    ensures
        a / b == 0,
        a % b == a,
{
}

/// `2^k`.
pub fn two_to(k: u32) -> (n: u64)
    requires
        k <= 40,
    ensures
        n == pow2(k as nat),
        1 <= n <= 0x100_0000_0000,
{
    let mut n: u64 = 1;
    let mut i: u32 = 0;
    proof {
        lemma2_to64();
    }
    while i < k
        invariant
            i <= k <= 40,
            n == pow2(i as nat),
            n >= 1,
        decreases k - i,
    {
        proof {
            lemma_pow2_unfold((i + 1) as nat);
            lemma_pow2_strictly_increases(i as nat, 64);
            lemma_pow2_strictly_increases(i as nat, 63);
            lemma_pow2_adds(32, 31);
            lemma2_to64();
        }
        n = n * 2;
        i = i + 1;
    }
    proof {
        if k < 40 {
            lemma_pow2_strictly_increases(k as nat, 40);
        }
        lemma_pow2_adds(32, 8);
        lemma2_to64();
    }
    n
}

/// The single-precision quotient of two integers: each is rounded to single
/// precision, and so is their quotient.
#[verifier::opaque]
pub open spec fn quotient_bits(num: nat, den: nat) -> u32 {
    if num == 0 {
        0
    } else {
        let (mn, en) = rounded(num, 1, 24);
        let (md, ed) = rounded(den, 1, 24);
        let (m, e) = rounded(mn, md, 24);
        ((e + en - ed + 150) * 0x80_0000 + (m - 0x80_0000)) as u32
    }
}

/// `num / den` in single precision, for a signed numerator.
pub open spec fn ratio(num: int, den: nat) -> Binary32 {
    if num < 0 {
        Binary32 { bits: (quotient_bits((-num) as nat, den) + 0x8000_0000) as u32 }
    } else {
        Binary32 { bits: quotient_bits(num as nat, den) }
    }
}

fn quotient(num: u32, den: u32) -> (bits: u32)
    requires
        den > 0,
    ensures
        bits == quotient_bits(num as nat, den as nat),
{
    proof {
        reveal(quotient_bits);
        lemma2_to64();
    }
    if num == 0 {
        return 0;
    }
    let (mn, en): (u64, i32) = round_ratio(num as u128, 1, 24);
    let (md, ed): (u64, i32) = round_ratio(den as u128, 1, 24);
    let (m, e): (u64, i32) = round_ratio(mn as u128, md as u128, 24);
    let bits: i64 = (e as i64 + en as i64 - ed as i64 + 150) * 0x80_0000 + (m as i64 - 0x80_0000);
    bits as u32
}

/// Divides two integers in single precision.
pub fn divide(num: i64, den: u32) -> (v: Binary32)
    requires
        -0x8000_0000 <= num <= 0xffff_ffff,
        den > 0,
    ensures
        v == ratio(num as int, den as nat),
{
    if num < 0 {
        let b: u32 = quotient((-num) as u32, den);
        Binary32 { bits: (b as u64 + 0x8000_0000) as u32 }
    } else {
        Binary32 { bits: quotient(num as u32, den) }
    }
}

impl Binary32 {
    /// The number as a multiple of the smallest one there is, `2^-149`.
    pub open spec fn units(self) -> int {
        let n = (self.significand() * pow2((self.exponent() + 149) as nat)) as int;
        if self.negative() {
            -n
        } else {
            n
        }
    }
}

/// A number below `2^24` shifted up to 24 bits.
proof fn lemma_full(n: nat) -> (j: nat)
    requires
        0 < n < 0x100_0000,
    ensures
        j <= 23,
        0x80_0000 <= n * pow2(j) < 0x100_0000,
        n >= 0x80_0000 ==> j == 0,
        n < 0x80_0000 ==> j > 0,
        n <= 0x40_0000 ==> j >= 1 && (j == 1 ==> n == 0x40_0000),
    decreases 0x100_0000 - n,
{
    lemma2_to64();
    if n >= 0x80_0000 {
        assert(n * pow2(0) == n) by (nonlinear_arith)
            requires
                pow2(0) == 1,
        ;
        0
    } else {
        let i = lemma_full(2 * n);
        lemma_pow2_unfold(i + 1);
        assert(n * pow2(i + 1) == (2 * n) * pow2(i)) by (nonlinear_arith)
            requires
                pow2(i + 1) == 2 * pow2(i),
        ;
        if i >= 23 {
            lemma_pow2_unfold(i);
            if i > 23 {
                lemma_pow2_strictly_increases(23, i);
            }
            assert((2 * n) * pow2(i) >= 2 * 0x80_0000) by (nonlinear_arith)
                requires
                    n >= 1,
                    pow2(i) >= 0x80_0000,
            ;
        }
        i + 1
    }
}

/// An integer below `2^24` is a single-precision number.
proof fn lemma_whole_rounds(n: nat, j: nat)
    requires
        0x80_0000 <= n * pow2(j) < 0x100_0000,
    ensures
        rounded(n, 1, 24) == ((n * pow2(j)) as nat, -(j as int)),
{
    lemma2_to64();
    lemma_pow2_pos(j);
    let k = -(j as int);
    let m = (n * pow2(j)) as nat;
    assert(n > 0) by (nonlinear_arith)
        requires
            n * pow2(j) > 0,
    ;
    assert(scaled(n, 1, k) == (m, 1nat)) by {
        if j == 0 {
            assert(m == n && 1 * pow2(0) == 1) by (nonlinear_arith)
                requires
                    m == n * pow2(j),
                    j == 0,
                    pow2(0) == 1,
            ;
        }
    }
    let w = (m, k);
    assert(pow2(23) * 1 == 0x80_0000 && pow2(24) * 1 == 0x100_0000);
    assert(fits(n, 1, 24, k));
    assert(nearest_int(m, 1) == m);
    assert(rounds_to(n, 1, 24, w.0, w.1));
    let r = rounded(n, 1, 24);
    assert(rounds_to(n, 1, 24, r.0, r.1));
    rounding_is_unique(n, 1, 24, m, k, r.0, r.1);
}

/// A full significand over a power of two is itself.
proof fn lemma_full_rounds(m: nat)
    requires
        0x80_0000 <= m < 0x100_0000,
    ensures
        rounded(m, 0x80_0000, 24) == (m, -23int),
{
    lemma2_to64();
    let (a, b) = scaled(m, 0x80_0000, -23);
    assert(a == m * 0x80_0000 && b == 0x80_0000);
    assert(fits(m, 0x80_0000, 24, -23));
    assert(nearest_int(a, b) == m) by {
        assert(a / b == m && a % b == 0) by (nonlinear_arith)
            requires
                a == m * 0x80_0000,
                b == 0x80_0000,
        ;
    }
    let w = (m, -23int);
    assert(rounds_to(m, 0x80_0000, 24, w.0, w.1));
    let r = rounded(m, 0x80_0000, 24);
    assert(rounds_to(m, 0x80_0000, 24, r.0, r.1));
    rounding_is_unique(m, 0x80_0000, 24, m, -23, r.0, r.1);
}

/// A count of 65536ths below `2^24` is a single-precision number.
proof fn lemma_ratio_is_exact(n: nat)
    requires
        n < 0x100_0000,
    ensures
        ({
            let q = Binary32 { bits: quotient_bits(n, 65536) };
            &&& q.bits < 0x8000_0000
            &&& q.units() == n * pow2(133)
            &&& n <= 0x40_0000 ==> q.bits <= 0x4280_0000
        }),
{
    reveal(quotient_bits);
    lemma2_to64();
    let q = Binary32 { bits: quotient_bits(n, 65536) };
    if n == 0 {
        assert(0 * pow2((q.exponent() + 149) as nat) == 0 && 0 * pow2(133) == 0);
    } else {
        let j = lemma_full(n);
        let m = (n * pow2(j)) as nat;
        lemma_whole_rounds(n, j);
        lemma_whole_rounds(65536, 7);
        lemma_full_rounds(m);
        assert(q.bits == (134 - j) * 0x80_0000 + (m - 0x80_0000));
        assert(q.biased() == 134 - j);
        assert(q.fraction() == m - 0x80_0000);
        assert(q.significand() == m);
        assert(q.exponent() + 149 == 133 - j);
        lemma_pow2_adds(j, (133 - j) as nat);
        assert((n * pow2(j)) * pow2((133 - j) as nat) == n * (pow2(j) * pow2((133 - j) as nat)))
            by (nonlinear_arith);
        if n == 0x40_0000 {
            assert(j == 1) by {
                if j > 1 {
                    lemma_pow2_strictly_increases(1, j);
                    assert(n * pow2(j) >= 0x40_0000 * 4) by (nonlinear_arith)
                        requires
                            n == 0x40_0000,
                            pow2(j) >= 4,
                    ;
                }
            }
            assert(m == 0x80_0000);
        }
    }
}

/// Rounding to 65536ths moves a number by at most half of one.
proof fn lemma_magnitude_is_close(v: Binary32)
    ensures
        ({
            let n = (v.magnitude_in_65536ths() * pow2(133)) as int;
            let u = (v.significand() * pow2((v.exponent() + 149) as nat)) as int;
            -(pow2(132) as int) <= n - u <= pow2(132)
        }),
{
    reveal(Binary32::magnitude_in_65536ths);
    lemma_pow2_pos(132);
    let sig = v.significand();
    let k = -(v.exponent() + 16);
    let n = v.magnitude_in_65536ths();
    if k <= 0 {
        lemma_pow2_adds((-k) as nat, 133);
        assert((sig * pow2((-k) as nat)) * pow2(133) == sig * (pow2((-k) as nat) * pow2(133)))
            by (nonlinear_arith);
    } else {
        let f = pow2((133 - k) as nat) as int;
        let h = pow2((k - 1) as nat) as int;
        lemma_pow2_pos((133 - k) as nat);
        lemma_pow2_pos((k - 1) as nat);
        lemma_pow2_unfold(k as nat);
        lemma_pow2_adds(k as nat, (133 - k) as nat);
        lemma_pow2_adds((k - 1) as nat, (133 - k) as nat);
        let d = n * (2 * h) - sig;
        assert(-h <= d <= h) by (nonlinear_arith)
            requires
                n == (sig + h) / (2 * h),
                h > 0,
                sig >= 0,
                d == n * (2 * h) - sig,
        ;
        assert(n * pow2(133) - sig * f == d * f) by (nonlinear_arith)
            requires
                pow2(133) == (2 * h) * f,
                d == n * (2 * h) - sig,
        ;
        assert(-(h * f) <= d * f <= h * f) by (nonlinear_arith)
            requires
                -h <= d <= h,
                f > 0,
        ;
    }
}

/// A magnitude of at most 64 is at most `2^22` 65536ths.
proof fn lemma_magnitude_fits(v: Binary32)
    requires
        v.bits % 0x8000_0000 <= 0x4280_0000,
    ensures
        v.magnitude_in_65536ths() <= 0x40_0000,
        !v.is_nan(),
{
    reveal(Binary32::magnitude_in_65536ths);
    reveal(Binary32::is_nan);
    lemma2_to64();
    let sig = v.significand();
    let k = -(v.exponent() + 16);
    assert(v.biased() <= 133);
    assert(k >= 1);
    assert(k == 1 ==> sig == 0x80_0000);
    let h = pow2((k - 1) as nat) as int;
    lemma_pow2_unfold(k as nat);
    lemma_pow2_pos((k - 1) as nat);
    if k == 1 {
        assert((0x80_0000 + 1) / 2 == 0x40_0000int);
    } else {
        if k > 2 {
            lemma_pow2_strictly_increases(1, (k - 1) as nat);
        }
        assert((sig + h) / (2 * h) <= 0x40_0000) by (nonlinear_arith)
            requires
                h >= 2,
                0 <= sig < 0x100_0000,
        ;
    }
}

/// What a number is once it is rounded to 65536ths and read again: at most half of one from
/// where it was, and still at most 64.
pub proof fn rounding_to_65536ths_is_close(v: Binary32)
    requires
        v.bits % 0x8000_0000 <= 0x4280_0000,
    ensures
        ({
            let q = ratio(v.signed_65536ths(), 65536);
            &&& -(pow2(132) as int) <= q.units() - v.units() <= pow2(132)
            &&& q.bits % 0x8000_0000 <= 0x4280_0000
        }),
        !v.negative() || v.is_zero() ==> {
            let q = ratio(v.unsigned_65536ths(), 65536);
            &&& -(pow2(132) as int) <= q.units() - v.units() <= pow2(132)
            &&& q.bits % 0x8000_0000 <= 0x4280_0000
        },
{
    lemma_magnitude_fits(v);
    lemma_magnitude_is_close(v);
    let n = v.magnitude_in_65536ths();
    lemma_ratio_is_exact(n);
    lemma_ratio_is_exact(0);
    lemma_pow2_pos(132);
    let p = Binary32 { bits: quotient_bits(n, 65536) };
    let m = Binary32 { bits: (quotient_bits(n, 65536) + 0x8000_0000) as u32 };
    assert(m.biased() == p.biased() && m.fraction() == p.fraction());
    assert(m.units() == -p.units());
    if v.is_zero() {
        assert(v.significand() == 0);
        assert(0 * pow2((v.exponent() + 149) as nat) == 0 && 0 * pow2(133) == 0);
    }
    if n == 0 {
        assert(0 * pow2(133) == 0);
    }
}

/// A fraction of a number below `2^24` over a power of two up to `2^23` is exactly that: so many
/// halves, quarters or other such parts, below zero or above.
pub proof fn a_fraction_over_a_power_of_two_is_exact(n: int, k: nat)
    requires
        -0x100_0000 < n < 0x100_0000,
        k <= 23,
    ensures
        ratio(n, pow2(k)).units() == n * pow2((149 - k) as nat),
{
    if n < 0 {
        let p = Binary32 { bits: quotient_bits((-n) as nat, pow2(k)) };
        let m = ratio(n, pow2(k));
        lemma_over_a_power((-n) as nat, k);
        assert(m.bits == p.bits + 0x8000_0000);
        assert(m.biased() == p.biased() && m.fraction() == p.fraction());
        assert(m.units() == -p.units());
        assert(n * pow2((149 - k) as nat) == -((-n) * pow2((149 - k) as nat))) by (nonlinear_arith);
    } else {
        lemma_over_a_power(n as nat, k);
    }
}

proof fn lemma_over_a_power(n: nat, k: nat)
    requires
        n < 0x100_0000,
        k <= 23,
    ensures
        ({
            let q = Binary32 { bits: quotient_bits(n, pow2(k)) };
            q.bits < 0x8000_0000 && q.units() == n * pow2((149 - k) as nat)
        }),
{
    reveal(quotient_bits);
    lemma2_to64();
    let q = Binary32 { bits: quotient_bits(n, pow2(k)) };
    if n == 0 {
        assert(0 * pow2((q.exponent() + 149) as nat) == 0 && 0 * pow2((149 - k) as nat) == 0);
    } else {
        let j = lemma_full(n);
        let m = (n * pow2(j)) as nat;
        let i = (23 - k) as nat;
        lemma_pow2_adds(k, i);
        assert(pow2(k) * pow2(i) == 0x80_0000);
        lemma_whole_rounds(n, j);
        lemma_whole_rounds(pow2(k), i);
        lemma_full_rounds(m);
        assert(q.bits == (150 - k - j) * 0x80_0000 + (m - 0x80_0000));
        assert(q.biased() == 150 - k - j);
        assert(q.fraction() == m - 0x80_0000);
        assert(q.significand() == m);
        assert(q.exponent() + 149 == 149 - k - j);
        let rest = (149 - k - j) as nat;
        lemma_pow2_adds(j, rest);
        assert((n * pow2(j)) * pow2(rest) == n * (pow2(j) * pow2(rest))) by (nonlinear_arith);
    }
}

} // verus!
