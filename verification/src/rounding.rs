//! Rounding a ratio of integers to a fixed number of significant bits.
//!
//! IEEE 754 arithmetic on values that are neither tiny nor huge is exactly this:
//! take the exact quotient, keep the leading bits, round to nearest and send ties
//! to the even neighbour. Stating it over integers keeps the results of divisions
//! and products that were specified in floating point exact.

use vstd::arithmetic::power2::{
    lemma2_to64, lemma2_to64_rest, lemma_pow2_adds, lemma_pow2_pos, lemma_pow2_strictly_increases,
    lemma_pow2_unfold, pow2,
};
use vstd::prelude::*;

verus! {

/// `num / den` scaled down by `2^e`, as a pair of integers with the same ratio.
pub open spec fn scaled(num: nat, den: nat, e: int) -> (nat, nat) {
    if e >= 0 {
        (num, den * pow2(e as nat))
    } else {
        (num * pow2((-e) as nat), den)
    }
}

/// Whether `num / den`, scaled down by `2^e`, has exactly `p` integer bits.
pub open spec fn fits(num: nat, den: nat, p: nat, e: int) -> bool {
    let (a, b) = scaled(num, den, e);
    pow2((p - 1) as nat) * b <= a < pow2(p) * b
}

/// `a / b` to the nearest integer, ties to even.
pub open spec fn nearest_int(a: nat, b: nat) -> nat {
    let q = a / b;
    let r = a % b;
    if 2 * r > b || (2 * r == b && q % 2 == 1) {
        q + 1
    } else {
        q
    }
}

/// `m * 2^e` is `num / den` rounded to `p` significant bits.
pub open spec fn rounds_to(num: nat, den: nat, p: nat, m: nat, e: int) -> bool {
    if num == 0 {
        m == 0 && e == 0
    } else {
        exists|k: int| #[trigger]
            fits(num, den, p, k) && {
                let (a, b) = scaled(num, den, k);
                let n = nearest_int(a, b);
                if n == pow2(p) {
                    m == pow2((p - 1) as nat) && e == k + 1
                } else {
                    m == n && e == k
                }
            }
    }
}

/// The significand and exponent of `num / den` rounded to `p` significant bits.
pub open spec fn rounded(num: nat, den: nat, p: nat) -> (nat, int) {
    choose|me: (nat, int)| #[trigger] rounds_to(num, den, p, me.0, me.1)
}

proof fn lemma_no_later_fit(num: nat, den: nat, p: nat, k1: int, k2: int)
    requires
        p >= 1,
        k1 < k2,
        fits(num, den, p, k1),
    ensures
        !fits(num, den, p, k2),
{
    let (a1, b1) = scaled(num, den, k1);
    let (a2, b2) = scaled(num, den, k2);
    let lo = pow2((p - 1) as nat);
    lemma_pow2_unfold(p);
    assert(pow2(p) == 2 * lo);
    let d = (k2 - k1) as nat;
    lemma_pow2_unfold(d);
    lemma_pow2_pos((d - 1) as nat);
    let f = pow2(d);
    assert(f >= 2);
    if k1 >= 0 {
        lemma_pow2_adds(k1 as nat, d);
        let g = pow2(k1 as nat);
        assert(b2 == b1 * f) by (nonlinear_arith)
            requires
                b1 == den * g,
                b2 == den * (g * f),
        ;
        assert(b2 >= 2 * b1) by (nonlinear_arith)
            requires
                b2 == b1 * f,
                f >= 2,
        ;
    } else if k2 < 0 {
        lemma_pow2_adds((-k2) as nat, d);
        let g = pow2((-k2) as nat);
        assert(a1 == a2 * f) by (nonlinear_arith)
            requires
                a1 == num * (g * f),
                a2 == num * g,
        ;
        assert(a1 >= 2 * a2) by (nonlinear_arith)
            requires
                a1 == a2 * f,
                f >= 2,
        ;
    } else {
        lemma_pow2_unfold((-k1) as nat);
        lemma_pow2_pos((-k1 - 1) as nat);
        lemma_pow2_pos(k2 as nat);
        let g = pow2((-k1) as nat);
        let h = pow2(k2 as nat);
        assert(a1 >= 2 * num) by (nonlinear_arith)
            requires
                a1 == num * g,
                g >= 2,
        ;
        assert(b2 >= den) by (nonlinear_arith)
            requires
                b2 == den * h,
                h >= 1,
        ;
    }
    if b2 >= 2 * b1 && a1 == a2 {
        assert(a2 < lo * b2) by (nonlinear_arith)
            requires
                a2 < (2 * lo) * b1,
                b2 >= 2 * b1,
        ;
    } else if a1 >= 2 * a2 {
        assert(a2 < lo * b2) by (nonlinear_arith)
            requires
                a1 < (2 * lo) * b1,
                a1 >= 2 * a2,
                b2 >= b1,
        ;
    }
}

/// A ratio rounds to one significand and one exponent only.
pub proof fn rounding_is_unique(num: nat, den: nat, p: nat, m1: nat, e1: int, m2: nat, e2: int)
    requires
        p >= 1,
        rounds_to(num, den, p, m1, e1),
        rounds_to(num, den, p, m2, e2),
    ensures
        m1 == m2,
        e1 == e2,
{
    if num > 0 {
        let k1 = choose|k: int| #[trigger]
            fits(num, den, p, k) && {
                let (a, b) = scaled(num, den, k);
                let n = nearest_int(a, b);
                if n == pow2(p) {
                    m1 == pow2((p - 1) as nat) && e1 == k + 1
                } else {
                    m1 == n && e1 == k
                }
            };
        let k2 = choose|k: int| #[trigger]
            fits(num, den, p, k) && {
                let (a, b) = scaled(num, den, k);
                let n = nearest_int(a, b);
                if n == pow2(p) {
                    m2 == pow2((p - 1) as nat) && e2 == k + 1
                } else {
                    m2 == n && e2 == k
                }
            };
        if k1 < k2 {
            lemma_no_later_fit(num, den, p, k1, k2);
        } else if k2 < k1 {
            lemma_no_later_fit(num, den, p, k2, k1);
        }
    }
}

/// Rounds `num / den` to 24 or 53 significant bits, ties to even.
pub fn round_ratio(num: u128, den: u128, p: u32) -> (r: (u64, i32))
    requires
        p == 24 || p == 53,
        num < 0x10_0000_0000_0000_0000_0000_0000,
        0 < den < 0x1_0000_0000_0000_0000,
    ensures
        rounds_to(num as nat, den as nat, p as nat, r.0 as nat, r.1 as int),
        (r.0 as nat, r.1 as int) == rounded(num as nat, den as nat, p as nat),
        num > 0 ==> pow2((p - 1) as nat) <= r.0 < pow2(p as nat),
        -121 <= r.1 <= 121,
{
    if num == 0 {
        proof {
            assert(rounds_to(0, den as nat, p as nat, 0, 0));
            let me: (nat, int) = (0, 0);
            assert(rounds_to(0, den as nat, p as nat, me.0, me.1));
        }
        return (0, 0);
    }
    let lo: u128 = if p == 24 {
        0x80_0000
    } else {
        0x10_0000_0000_0000
    };
    proof {
        lemma2_to64();
        lemma2_to64_rest();
        assert(pow2((p - 1) as nat) == lo);
        assert(pow2(p as nat) == 2 * lo);
        assert(0x10_0000_0000_0000 * 0x1_0000_0000_0000_0000 == 0x10_0000_0000_0000_0000_0000_0000_0000u128);
    }
    let mut a: u128 = num;
    let mut b: u128 = den;
    let mut e: i32 = 0;
    assert(lo * den <= 0x10_0000_0000_0000 * 0x1_0000_0000_0000_0000) by (nonlinear_arith)
        requires
            lo <= 0x10_0000_0000_0000,
            den <= 0x1_0000_0000_0000_0000,
    ;
    let low: u128 = lo * den;
    if num < low {
        assert(num * pow2(0) == num) by {
            lemma2_to64();
        }
        while a < low
            invariant
                0 < num,
                num <= a,
                low == lo * den,
                low <= 0x10_0000_0000_0000_0000_0000_0000_0000,
                num < low,
                a < 2 * low,
                b == den,
                -120 <= e <= 0,
                a == num * pow2((-e) as nat),
                pow2((-e) as nat) <= a,
            decreases 2 * low - a,
        {
            proof {
                lemma_pow2_unfold((1 - e) as nat);
                let g = pow2((-e) as nat);
                assert(num * (2 * g) == 2 * (num * g)) by (nonlinear_arith);
                if e == -120 {
                    lemma_pow2_adds(64, 56);
                    lemma2_to64_rest();
                    lemma2_to64();
                }
            }
            a = a * 2;
            e = e - 1;
        }
    } else {
        assert(den * pow2(0) == den) by {
            lemma2_to64();
        }
        let mut top: u128 = 2 * low;
        while a >= top
            invariant
                a == num,
                0 < den,
                num < 0x10_0000_0000_0000_0000_0000_0000,
                0 <= e <= 120,
                b == den * pow2(e as nat),
                top == 2 * (lo * b),
                lo * b <= a,
                lo >= 1,
                pow2(e as nat) <= b,
            decreases num - b,
        {
            proof {
                lemma_pow2_unfold((e + 1) as nat);
                let g = pow2(e as nat);
                assert(den * (2 * g) == 2 * (den * g)) by (nonlinear_arith);
                assert(lo * (2 * b) == 2 * (lo * b)) by (nonlinear_arith);
                assert(b <= lo * b) by (nonlinear_arith)
                    requires
                        lo >= 1,
                        b >= 0,
                ;
                if e == 120 {
                    lemma_pow2_adds(64, 56);
                    lemma2_to64_rest();
                    lemma2_to64();
                }
            }
            b = b * 2;
            e = e + 1;
            top = top * 2;
            proof {
                lemma_pow2_pos((e - 1) as nat);
                assert(b <= lo * b) by (nonlinear_arith)
                    requires
                        lo >= 1,
                        b >= 0,
                ;
            }
        }
    }
    proof {
        assert(scaled(num as nat, den as nat, e as int) == (a as nat, b as nat));
        assert(fits(num as nat, den as nat, p as nat, e as int)) by (nonlinear_arith)
            requires
                scaled(num as nat, den as nat, e as int) == (a as nat, b as nat),
                pow2((p - 1) as nat) == lo,
                pow2(p as nat) == 2 * lo,
                lo * b <= a < 2 * (lo * b),
        ;
    }
    let q: u128 = a / b;
    let r: u128 = a % b;
    proof {
        assert(lo <= q < 2 * lo) by (nonlinear_arith)
            requires
                q == a / b,
                b > 0,
                lo * b <= a < 2 * (lo * b),
        ;
    }
    let n: u128 = if r > b - r || (r == b - r && q % 2 == 1) {
        q + 1
    } else {
        q
    };
    assert(n == nearest_int(a as nat, b as nat));
    let res: (u64, i32) = if n == 2 * lo {
        (lo as u64, e + 1)
    } else {
        (n as u64, e)
    };
    proof {
        assert(rounds_to(num as nat, den as nat, p as nat, res.0 as nat, res.1 as int));
        let me: (nat, int) = (res.0 as nat, res.1 as int);
        assert(rounds_to(num as nat, den as nat, p as nat, me.0, me.1));
        let c = rounded(num as nat, den as nat, p as nat);
        rounding_is_unique(num as nat, den as nat, p as nat, me.0, me.1, c.0, c.1);
    }
    res
}

/// `2^k`.
pub fn power_of_two(k: u32) -> (n: u64)
    requires
        k <= 62,
    ensures
        n == pow2(k as nat),
        1 <= n <= 0x4000_0000_0000_0000,
{
    let mut n: u64 = 1;
    let mut i: u32 = 0;
    proof {
        lemma2_to64();
        lemma2_to64_rest();
    }
    while i < k
        invariant
            i <= k <= 62,
            n == pow2(i as nat),
            n >= 1,
            pow2(62) == 0x4000_0000_0000_0000,
        decreases k - i,
    {
        proof {
            lemma_pow2_unfold((i + 1) as nat);
            if i + 1 < 62 {
                lemma_pow2_strictly_increases((i + 1) as nat, 62);
            }
        }
        n = n * 2;
        i = i + 1;
    }
    proof {
        if k < 62 {
            lemma_pow2_strictly_increases(k as nat, 62);
        }
    }
    n
}

/// How large the exponent of a rounded ratio can be: the significand has `p` bits, so
/// the exponent makes up for the rest of the ratio's size.
pub proof fn exponent_is_bounded(num: nat, den: nat, p: nat, m: nat, e: int, a: nat, b: nat)
    requires
        p >= 1,
        0 < num < pow2(a),
        0 < den < pow2(b),
        rounds_to(num, den, p, m, e),
    ensures
        e <= a - p + 1,
        -(p + b) < e,
{
    let k = choose|k: int| #[trigger]
        fits(num, den, p, k) && {
            let (x, y) = scaled(num, den, k);
            let n = nearest_int(x, y);
            if n == pow2(p) {
                m == pow2((p - 1) as nat) && e == k + 1
            } else {
                m == n && e == k
            }
        };
    let (x, y) = scaled(num, den, k);
    let lo = pow2((p - 1) as nat);
    lemma_pow2_pos((p - 1) as nat);
    if k >= 0 {
        let f = pow2(k as nat);
        lemma_pow2_pos(k as nat);
        assert(lo * f <= num) by (nonlinear_arith)
            requires
                lo * (den * f) <= num,
                den >= 1,
                lo > 0,
                f > 0,
        ;
        lemma_pow2_adds((p - 1) as nat, k as nat);
        if p - 1 + k >= a {
            lemma_pow2_monotonic(a, (p - 1 + k) as nat);
        }
    } else {
        let f = pow2((-k) as nat);
        lemma_pow2_pos((-k) as nat);
        assert(f <= num * f) by (nonlinear_arith)
            requires
                num >= 1,
                f > 0,
        ;
        assert(pow2(p) * den <= pow2(p) * pow2(b)) by (nonlinear_arith)
            requires
                den < pow2(b),
        ;
        lemma_pow2_adds(p, b);
        if -k >= p + b {
            lemma_pow2_monotonic(p + b, (-k) as nat);
        }
        lemma_pow2_adds(a, (-k) as nat);
        assert(lo < pow2(a) * f) by (nonlinear_arith)
            requires
                lo * den <= num * f,
                den >= 1,
                num < pow2(a),
                f > 0,
                lo > 0,
        ;
        if p - 1 >= a - k {
            lemma_pow2_monotonic((a - k) as nat, (p - 1) as nat);
        }
    }
}

proof fn lemma_pow2_monotonic(a: nat, b: nat)
    requires
        a <= b,
    ensures
        pow2(a) <= pow2(b),
{
    if a < b {
        lemma_pow2_strictly_increases(a, b);
    }
}

proof fn lemma_nearest_scales(a: nat, b: nat, c: nat)
    requires
        b > 0,
        c > 0,
    ensures
        nearest_int(a * c, b * c) == nearest_int(a, b),
{
    let (q, r) = (a / b, a % b);
    assert(a == q * b + r) by (nonlinear_arith)
        requires
            q == a / b,
            r == a % b,
            b > 0,
    ;
    assert(a * c == q * (b * c) + r * c) by (nonlinear_arith)
        requires
            a == q * b + r,
    ;
    assert(0 <= r * c < b * c) by (nonlinear_arith)
        requires
            0 <= r < b,
            c > 0,
    ;
    lemma_divides((a * c) as int, (b * c) as int, q as int, (r * c) as int);
    assert(2 * (r * c) == (2 * r) * c) by (nonlinear_arith);
    assert((2 * r > b) == ((2 * r) * c > b * c)) by (nonlinear_arith)
        requires
            c > 0,
    ;
    assert((2 * r == b) == ((2 * r) * c == b * c)) by (nonlinear_arith)
        requires
            c > 0,
    ;
}

proof fn lemma_divides(a: int, b: int, q: int, r: int)
    requires
        b > 0,
        a == q * b + r,
        0 <= r < b,
    ensures
        a / b == q,
        a % b == r,
{
    assert(a / b == q && a % b == r) by (nonlinear_arith)
        requires
            b > 0,
            a == q * b + r,
            0 <= r < b,
    ;
}

/// The nearest integer is the same when the ratio is known only to lie in the same place
/// between two even numbers.
proof fn lemma_nearest_by_bits(x: nat, f: nat, den: nat, k: nat)
    requires
        0 <= f < den,
        k >= 2,
    ensures
        ({
            let s: nat = if f > 0 {
                1
            } else {
                0
            };
            nearest_int((2 * x) * den + 2 * f, den * pow2(k)) == nearest_int(2 * x + s, pow2(k))
        }),
{
    let s: nat = if f > 0 {
        1
    } else {
        0
    };
    let n = 2 * x + s;
    let b = pow2(k);
    let h = pow2((k - 1) as nat);
    let g = pow2((k - 2) as nat);
    lemma_pow2_unfold(k);
    lemma_pow2_unfold((k - 1) as nat);
    lemma_pow2_pos((k - 2) as nat);
    assert(b == 2 * h && h == 2 * g && g > 0);
    let (q, r) = (n / b, n % b);
    assert(n == q * b + r && 0 <= r < b) by (nonlinear_arith)
        requires
            q == n / b,
            r == n % b,
            b > 0,
    ;
    // The remainder is odd exactly when there is something below the last bit.
    assert(q * b == 2 * (q * h)) by (nonlinear_arith)
        requires
            b == 2 * h,
    ;
    let u = r - s;
    assert(u % 2 == 0 && u >= 0 && u <= b - 2) by {
        assert(r - s == 2 * (x - q * h));
    }
    let a2 = ((2 * x) * den + 2 * f) as int;
    let r2 = u * den + 2 * f;
    assert(a2 == q * (den * b) + r2) by (nonlinear_arith)
        requires
            a2 == (2 * x) * den + 2 * f,
            2 * x == q * b + u,
            r2 == u * den + 2 * f,
    ;
    assert(0 <= r2 < den * b) by (nonlinear_arith)
        requires
            0 <= u <= b - 2,
            r2 == u * den + 2 * f,
            0 <= f < den,
    ;
    assert(den * b > 0) by (nonlinear_arith)
        requires
            den > 0,
            b > 0,
    ;
    lemma_divides(a2, (den * b) as int, q as int, r2);
    // Both are on the same side of the half.
    assert(den * b == 2 * (h * den)) by (nonlinear_arith)
        requires
            b == 2 * h,
    ;
    if u >= h + 2 {
        assert(r2 > h * den) by (nonlinear_arith)
            requires
                u >= h + 2,
                r2 == u * den + 2 * f,
                den > 0,
                f >= 0,
        ;
    } else if u == h {
        assert(r2 == h * den + 2 * f) by (nonlinear_arith)
            requires
                u == h,
                r2 == u * den + 2 * f,
        ;
    } else {
        assert(u != h + 1);
        assert(u <= h - 2);
        assert(r2 < h * den) by (nonlinear_arith)
            requires
                u <= h - 2,
                r2 == u * den + 2 * f,
                0 <= f < den,
        ;
    }
}

/// The leading bits of a ratio, and whether anything follows them, decide how it is
/// rounded.
pub proof fn leading_bits_decide(
    num: nat,
    den: nat,
    p: nat,
    t: nat,
    x: nat,
    f: nat,
    m: nat,
    e: int,
)
    requires
        p >= 1,
        num * pow2(t) == x * den + f,
        f < den,
        x >= pow2(p + 1),
        rounds_to(
            2 * x + if f > 0 {
                1nat
            } else {
                0
            },
            1,
            p,
            m,
            e,
        ),
    ensures
        rounds_to(num, den, p, m, e - (t + 1)),
{
    let s: nat = if f > 0 {
        1
    } else {
        0
    };
    let n: nat = 2 * x + s;
    lemma_pow2_pos(p + 1);
    lemma_pow2_unfold(p + 1);
    let k = choose|k: int| #[trigger]
        fits(n, 1, p, k) && {
            let (a, b) = scaled(n, 1, k);
            let v = nearest_int(a, b);
            if v == pow2(p) {
                m == pow2((p - 1) as nat) && e == k + 1
            } else {
                m == v && e == k
            }
        };
    let top = pow2(p);
    assert(n >= 4 * top && top > 0) by {
        lemma_pow2_pos(p);
    }
    assert(k >= 2) by {
        let (a, b) = scaled(n, 1, k);
        assert(a < top * b);
        if k < 0 {
            lemma_pow2_pos((-k) as nat);
            assert(a >= n) by (nonlinear_arith)
                requires
                    a == n * pow2((-k) as nat),
                    pow2((-k) as nat) >= 1,
                    n >= 0,
            ;
            assert(b == 1 && top * b == top);
        } else if k < 2 {
            lemma2_to64();
            assert(b <= 2);
            assert(top * b <= 2 * top) by (nonlinear_arith)
                requires
                    b <= 2,
                    top > 0,
            ;
        }
    }
    let kk = k as nat;
    let b = pow2(kk);
    let a2 = num * pow2(t + 1);
    let b2 = den * b;
    lemma_pow2_pos(kk);
    lemma_pow2_unfold(t + 1);
    assert(a2 == (2 * x) * den + 2 * f) by (nonlinear_arith)
        requires
            a2 == num * (2 * pow2(t)),
            num * pow2(t) == x * den + f,
    ;
    lemma_nearest_by_bits(x, f, den, kk);
    assert(1 * pow2(kk) == pow2(kk));
    assert(nearest_int(a2, b2) == nearest_int(n, b));
    // The bounds of the fit are even, so they hold of the ratio as of its leading bits.
    let lo = pow2((p - 1) as nat);
    lemma_pow2_unfold(p);
    lemma_pow2_pos((p - 1) as nat);
    lemma_pow2_unfold(kk);
    let h = pow2((kk - 1) as nat);
    assert(lo * b <= 2 * x && 2 * x + 2 <= (2 * lo) * b) by {
        assert(lo * b == 2 * (lo * h)) by (nonlinear_arith)
            requires
                b == 2 * h,
        ;
        assert((2 * lo) * b == 2 * (lo * b)) by (nonlinear_arith);
    }
    assert(lo * b2 <= a2 && a2 < pow2(p) * b2) by (nonlinear_arith)
        requires
            lo * b <= 2 * x,
            2 * x + 2 <= (2 * lo) * b,
            pow2(p) == 2 * lo,
            b2 == den * b,
            a2 == (2 * x) * den + 2 * f,
            0 <= f < den,
    ;
    let e2 = k - (t + 1);
    let (a0, b0) = scaled(num, den, e2);
    if e2 >= 0 {
        let c = pow2(t + 1);
        lemma_pow2_pos(t + 1);
        lemma_pow2_pos(e2 as nat);
        lemma_pow2_adds(e2 as nat, t + 1);
        assert(b2 == b0 * c) by (nonlinear_arith)
            requires
                b2 == den * (pow2(e2 as nat) * c),
                b0 == den * pow2(e2 as nat),
        ;
        assert(b0 > 0) by (nonlinear_arith)
            requires
                b0 == den * pow2(e2 as nat),
                den > 0,
                pow2(e2 as nat) > 0,
        ;
        lemma_fit_scales(a0, b0, p, c);
        lemma_nearest_scales(a0, b0, c);
    } else {
        let c = b;
        lemma_pow2_adds((-e2) as nat, kk);
        assert(a2 == a0 * c) by (nonlinear_arith)
            requires
                a2 == num * (pow2((-e2) as nat) * c),
                a0 == num * pow2((-e2) as nat),
        ;
        lemma_fit_scales(a0, b0, p, c);
        lemma_nearest_scales(a0, b0, c);
    }
    assert(fits(num, den, p, e2));
    assert(num > 0) by (nonlinear_arith)
        requires
            num * pow2(t) == x * den + f,
            x > 0,
            den > 0,
            f >= 0,
    ;
}

proof fn lemma_fit_scales(a: nat, b: nat, p: nat, c: nat)
    requires
        c > 0,
        p >= 1,
    ensures
        (pow2((p - 1) as nat) * b <= a < pow2(p) * b) == (pow2((p - 1) as nat) * (b * c) <= a * c
            < pow2(p) * (b * c)),
{
    let (lo, hi) = (pow2((p - 1) as nat), pow2(p));
    assert((lo * b <= a) == (lo * (b * c) <= a * c)) by (nonlinear_arith)
        requires
            c > 0,
    ;
    assert((a < hi * b) == (a * c < hi * (b * c))) by (nonlinear_arith)
        requires
            c > 0,
    ;
}

/// The last doubling of `den` that is not above `num`.
proof fn lemma_doublings(num: nat, den: nat, i: nat) -> (j: nat)
    requires
        den > 0,
        den * pow2(i) <= num,
    ensures
        den * pow2(j) <= num < den * pow2(j + 1),
    decreases num - den * pow2(i),
{
    if num < den * pow2(i + 1) {
        i
    } else {
        lemma_pow2_unfold(i + 1);
        lemma_pow2_pos(i);
        assert(den * pow2(i + 1) > den * pow2(i)) by (nonlinear_arith)
            requires
                pow2(i + 1) == 2 * pow2(i),
                pow2(i) > 0,
                den > 0,
        ;
        lemma_doublings(num, den, i + 1)
    }
}

/// The first doubling of `num` that is not below `den`.
proof fn lemma_doublings_up(num: nat, den: nat, i: nat) -> (j: nat)
    requires
        num > 0,
        num * pow2(i) < den,
    ensures
        den <= num * pow2(j) < 2 * den,
    decreases den - num * pow2(i),
{
    lemma_pow2_unfold(i + 1);
    lemma_pow2_pos(i);
    assert(num * pow2(i + 1) == 2 * (num * pow2(i))) by (nonlinear_arith)
        requires
            pow2(i + 1) == 2 * pow2(i),
    ;
    if num * pow2(i + 1) >= den {
        i + 1
    } else {
        assert(num * pow2(i) > 0) by (nonlinear_arith)
            requires
                num > 0,
                pow2(i) > 0,
        ;
        lemma_doublings_up(num, den, i + 1)
    }
}

/// Every ratio has an exponent at which it fits.
proof fn lemma_fit_exists(num: nat, den: nat, p: nat) -> (k: int)
    requires
        num > 0,
        den > 0,
        p >= 1,
    ensures
        fits(num, den, p, k),
{
    let q = (p - 1) as nat;
    let lo = pow2(q);
    lemma_pow2_unfold(p);
    lemma_pow2_pos(q);
    if num >= den {
        lemma2_to64();
        let i = lemma_doublings(num, den, 0);
        lemma_pow2_unfold(i + 1);
        let k = i - q;
        if k >= 0 {
            lemma_pow2_adds(q, k as nat);
            let g = pow2(k as nat);
            assert(lo * (den * g) == den * pow2(i)) by (nonlinear_arith)
                requires
                    pow2(i) == lo * g,
            ;
            assert((2 * lo) * (den * g) == den * (2 * pow2(i))) by (nonlinear_arith)
                requires
                    pow2(i) == lo * g,
            ;
        } else {
            let g = pow2((-k) as nat);
            lemma_pow2_adds(i, (-k) as nat);
            lemma_pow2_pos((-k) as nat);
            assert(lo * den <= num * g && num * g < (2 * lo) * den) by (nonlinear_arith)
                requires
                    den * pow2(i) <= num,
                    num < den * (2 * pow2(i)),
                    lo == pow2(i) * g,
                    g > 0,
            ;
        }
        k
    } else {
        lemma2_to64();
        let i = lemma_doublings_up(num, den, 0);
        let k = -(i + q) as int;
        lemma_pow2_adds(i, q);
        let a = num * pow2(i);
        assert(num * pow2(i + q) == a * lo) by (nonlinear_arith)
            requires
                pow2(i + q) == pow2(i) * lo,
                a == num * pow2(i),
        ;
        assert(lo * den <= a * lo && a * lo < (2 * lo) * den) by (nonlinear_arith)
            requires
                den <= a < 2 * den,
                lo > 0,
        ;
        if k == 0 {
            assert(i + q == 0);
            assert(den * pow2(0) == den) by (nonlinear_arith)
                requires
                    pow2(0) == 1,
            ;
            assert(num * pow2(0) == num) by (nonlinear_arith)
                requires
                    pow2(0) == 1,
            ;
        }
        k
    }
}

/// Every ratio can be rounded.
pub proof fn a_ratio_rounds(num: nat, den: nat, p: nat)
    requires
        den > 0,
        p >= 1,
    ensures
        rounds_to(num, den, p, rounded(num, den, p).0, rounded(num, den, p).1),
{
    let me: (nat, int) = if num == 0 {
        (0, 0)
    } else {
        let k = lemma_fit_exists(num, den, p);
        let (a, b) = scaled(num, den, k);
        let n = nearest_int(a, b);
        if n == pow2(p) {
            (pow2((p - 1) as nat), k + 1)
        } else {
            (n, k)
        }
    };
    assert(rounds_to(num, den, p, me.0, me.1));
}

/// A rounded significand has all its bits, and the ratio is where its exponent says.
pub proof fn a_significand_is_full(num: nat, den: nat, p: nat, m: nat, e: int) -> (k: int)
    requires
        num > 0,
        den > 0,
        p >= 1,
        rounds_to(num, den, p, m, e),
    ensures
        pow2((p - 1) as nat) <= m < pow2(p),
        fits(num, den, p, k),
        k <= e <= k + 1,
{
    let k = choose|k: int| #[trigger]
        fits(num, den, p, k) && {
            let (a, b) = scaled(num, den, k);
            let n = nearest_int(a, b);
            if n == pow2(p) {
                m == pow2((p - 1) as nat) && e == k + 1
            } else {
                m == n && e == k
            }
        };
    let (a, b) = scaled(num, den, k);
    let (lo, hi) = (pow2((p - 1) as nat), pow2(p));
    lemma_pow2_unfold(p);
    lemma_pow2_pos((p - 1) as nat);
    assert(b > 0) by {
        if k >= 0 {
            lemma_pow2_pos(k as nat);
            assert(den * pow2(k as nat) > 0) by (nonlinear_arith)
                requires
                    den > 0,
                    pow2(k as nat) > 0,
            ;
        }
    }
    let q = a / b;
    assert(lo <= q < hi) by (nonlinear_arith)
        requires
            q == a / b,
            lo * b <= a < hi * b,
            b > 0,
    ;
    k
}

} // verus!
