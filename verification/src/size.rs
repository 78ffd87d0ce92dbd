//! Byte sizes as people write them: `4MB`, `4 MiB`, `3.5m`, `1500000`.
//!
//! The number is taken as the double-precision value nearest to it, and so is its product
//! with the unit; what is left of a byte is dropped. Both are stated over integers here,
//! so that every size is what that arithmetic makes of it, to the byte.

use vstd::arithmetic::div_mod::lemma_div_denominator;
use vstd::arithmetic::power2::{
    lemma2_to64, lemma2_to64_rest, lemma_pow2_adds, lemma_pow2_pos, lemma_pow2_strictly_increases,
    lemma_pow2_unfold, pow2,
};
use vstd::prelude::*;
use vstd::string::StrSliceExecFns;

use crate::rounding::{
    a_ratio_rounds, a_significand_is_full, exponent_is_bounded, fits, leading_bits_decide, nearest_int,
    power_of_two, round_ratio, rounded, rounding_is_unique, rounds_to, scaled,
};
use crate::text::{join_text, lowered, quote, quoted, to_lower, trim, trimmed};

verus! {

/// Why a size could not be taken.
#[derive(Clone, Debug, PartialEq, Eq)]
pub enum SizeError {
    /// There is nothing there.
    Empty,
    /// What stands before the unit is not a number.
    NotANumber(String),
    /// The number is past every double-precision one. The text is the whole size.
    NotFinite(String),
    /// What stands behind the number is not a unit.
    UnknownUnit(String),
    /// More bytes than can be counted. The text is the whole size.
    TooLarge(String),
}

/// Why a size could not be taken, its texts as sequences.
pub enum SizeFault {
    Empty,
    NotANumber(Seq<char>),
    NotFinite(Seq<char>),
    UnknownUnit(Seq<char>),
    TooLarge(Seq<char>),
}

impl View for SizeError {
    type V = SizeFault;

    open spec fn view(&self) -> SizeFault {
        match self {
            SizeError::Empty => SizeFault::Empty,
            SizeError::NotANumber(t) => SizeFault::NotANumber(t@),
            SizeError::NotFinite(t) => SizeFault::NotFinite(t@),
            SizeError::UnknownUnit(t) => SizeFault::UnknownUnit(t@),
            SizeError::TooLarge(t) => SizeFault::TooLarge(t@),
        }
    }
}

impl SizeFault {
    pub open spec fn says(self) -> Seq<char> {
        match self {
            SizeFault::Empty => "empty size"@,
            SizeFault::NotANumber(t) => "not a number: "@ + quoted(t),
            SizeFault::NotFinite(t) => "size must be finite and non-negative: "@ + quoted(t),
            SizeFault::UnknownUnit(t) => "unknown size unit: "@ + quoted(t),
            SizeFault::TooLarge(t) => "size too large: "@ + quoted(t),
        }
    }
}

/// A text before a quoted one.
fn with_quoted(before: &str, t: &String) -> (s: String)
    ensures
        s@ == before@ + quoted(t@),
{
    let q = quote(t.as_str());
    join_text(before, q.as_str())
}

impl SizeError {
    /// What went wrong.
    pub fn message(&self) -> (s: String)
        ensures
            s@ == self@.says(),
    {
        match self {
            SizeError::Empty => "empty size".to_owned(),
            SizeError::NotANumber(t) => with_quoted("not a number: ", t),
            SizeError::NotFinite(t) => with_quoted("size must be finite and non-negative: ", t),
            SizeError::UnknownUnit(t) => with_quoted("unknown size unit: ", t),
            SizeError::TooLarge(t) => with_quoted("size too large: ", t),
        }
    }
}

/// Whether a character can stand in a number.
pub open spec fn in_number(c: char) -> bool {
    ('0' <= c && c <= '9') || c == '.'
}

/// How many characters from position `i` on make up the number.
pub open spec fn number_end(t: Seq<char>, i: int) -> int
    decreases t.len() - i,
{
    if i < t.len() && in_number(t[i]) {
        number_end(t, i + 1)
    } else {
        i
    }
}

/// The digits of a number, how many points it has, and how many digits stand behind one.
pub struct Scan {
    pub digits: Seq<u8>,
    pub points: int,
    pub places: int,
}

/// The first `n` characters of a number.
pub open spec fn scanned(t: Seq<char>, n: int) -> Scan
    decreases n,
{
    if n <= 0 {
        Scan { digits: seq![], points: 0, places: 0 }
    } else {
        let before = scanned(t, n - 1);
        if t[n - 1] == '.' {
            Scan { points: before.points + 1, ..before }
        } else {
            Scan {
                digits: before.digits.push((t[n - 1] as int - 48) as u8),
                places: before.places + if before.points > 0 {
                    1int
                } else {
                    0
                },
                ..before
            }
        }
    }
}

/// The number that digits make.
pub open spec fn value_of_digits(d: Seq<u8>) -> nat
    decreases d.len(),
{
    if d.len() == 0 {
        0
    } else {
        value_of_digits(d.drop_last()) * 10 + d.last() as nat
    }
}

/// `10^k`.
pub open spec fn ten_to(k: nat) -> nat
    decreases k,
{
    if k == 0 {
        1
    } else {
        10 * ten_to((k - 1) as nat)
    }
}

/// How many bytes a unit is.
pub open spec fn unit_size(unit: Seq<char>) -> Option<nat> {
    if unit == ""@ || unit == "b"@ {
        Some(1)
    } else if unit == "k"@ || unit == "kb"@ {
        Some(1000)
    } else if unit == "kib"@ {
        Some(1024)
    } else if unit == "m"@ || unit == "mb"@ {
        Some(1000000)
    } else if unit == "mib"@ {
        Some(1048576)
    } else if unit == "g"@ || unit == "gb"@ {
        Some(1000000000)
    } else if unit == "gib"@ {
        Some(1073741824)
    } else {
        None
    }
}

/// `m * 2^e` without what is left of a whole number.
pub open spec fn whole(m: nat, e: int) -> nat {
    if e >= 0 {
        m * pow2(e as nat)
    } else {
        m / pow2((-e) as nat)
    }
}

/// Whether `m * 2^e` is more than `2^64`.
pub open spec fn exceeds(m: nat, e: int) -> bool {
    if e >= 0 {
        m * pow2(e as nat) > pow2(64)
    } else {
        m > pow2(64) * pow2((-e) as nat)
    }
}

/// The product of a number, `num / den` in double precision, and a unit, in double
/// precision too.
pub open spec fn product(num: nat, den: nat, unit: nat) -> (nat, int) {
    let (m, e) = rounded(num, den, 53);
    let (n, k) = rounded(m * unit, 1, 53);
    (n, k + e)
}

/// The bytes of a number of units, unless they are more than can be counted.
pub open spec fn bytes_of(num: nat, den: nat, unit: nat) -> Option<u64> {
    let (m, e) = product(num, den, unit);
    if exceeds(m, e) {
        None
    } else if whole(m, e) > u64::MAX {
        Some(u64::MAX)
    } else {
        Some(whole(m, e) as u64)
    }
}

/// Whether `num / den` is past every double-precision number: at least halfway from the
/// largest of them, `2^1024 - 2^971`, to `2^1024`.
pub open spec fn overflows(num: nat, den: nat) -> bool {
    num >= (pow2(1024) - pow2(970)) * den
}

/// What a size says, or why it cannot be taken.
pub open spec fn size_said(s: Seq<char>) -> Result<u64, SizeFault> {
    let t = trimmed(s);
    let n = number_end(t, 0);
    let number = scanned(t, n);
    let unit = lowered(trimmed(t.skip(n)));
    if t.len() == 0 {
        Err(SizeFault::Empty)
    } else if number.digits.len() == 0 || number.points > 1 {
        Err(SizeFault::NotANumber(t.take(n)))
    } else if overflows(value_of_digits(number.digits), ten_to(number.places as nat)) {
        Err(SizeFault::NotFinite(s))
    } else {
        match unit_size(unit) {
            None => Err(SizeFault::UnknownUnit(unit)),
            Some(size) => match bytes_of(
                value_of_digits(number.digits),
                ten_to(number.places as nat),
                size,
            ) {
                Some(n) => Ok(n),
                None => Err(SizeFault::TooLarge(s)),
            },
        }
    }
}

proof fn lemma_ten_to_pos(k: nat)
    ensures
        ten_to(k) > 0,
    decreases k,
{
    if k > 0 {
        lemma_ten_to_pos((k - 1) as nat);
    }
}

spec fn are_digits(d: Seq<u8>) -> bool {
    forall|i: int| 0 <= i < d.len() ==> #[trigger] d[i] < 10
}

proof fn lemma_value_bound(d: Seq<u8>)
    requires
        are_digits(d),
    ensures
        value_of_digits(d) < ten_to(d.len()),
    decreases d.len(),
{
    if d.len() > 0 {
        let less = d.drop_last();
        assert(are_digits(less));
        lemma_value_bound(less);
        assert(d.last() < 10);
    }
}

/// The digits before the point and those behind it.
proof fn lemma_value_splits(d: Seq<u8>, n: int)
    requires
        0 <= n <= d.len(),
    ensures
        value_of_digits(d) == value_of_digits(d.take(n)) * ten_to((d.len() - n) as nat)
            + value_of_digits(d.skip(n)),
    decreases d.len() - n,
{
    if n == d.len() {
        assert(d.take(n) =~= d);
        assert(d.skip(n) =~= seq![]);
        let v = value_of_digits(d);
        assert(v * ten_to(0) == v) by (nonlinear_arith)
            requires
                ten_to(0) == 1,
        ;
    } else {
        let less = d.drop_last();
        lemma_value_splits(less, n);
        assert(less.take(n) =~= d.take(n));
        assert(less.skip(n) =~= d.skip(n).drop_last());
        assert(d.skip(n).last() == d.last());
        assert(value_of_digits(d.skip(n)) == value_of_digits(d.skip(n).drop_last()) * 10
            + d.last());
        let a = value_of_digits(d.take(n));
        let k = (less.len() - n) as nat;
        assert((d.len() - n) as nat == k + 1);
        assert(a * ten_to(k + 1) == (a * ten_to(k)) * 10) by (nonlinear_arith)
            requires
                ten_to(k + 1) == 10 * ten_to(k),
        ;
        let b = value_of_digits(less.skip(n));
        assert(value_of_digits(d) == (a * ten_to(k) + b) * 10 + d.last());
    }
}

proof fn lemma_value_grows(d: Seq<u8>, a: int, b: int)
    requires
        0 <= a <= b <= d.len(),
    ensures
        value_of_digits(d.take(a)) <= value_of_digits(d.take(b)),
    decreases b,
{
    if a < b {
        lemma_value_grows(d, a, b - 1);
        assert(d.take(b).drop_last() =~= d.take(b - 1));
    }
}

/// `2^66`: an integer part this large is more bytes than can be counted.
pub const HUGE: u128 = 0x4_0000_0000_0000_0000;

/// The number that the first `n` digits make, unless it is huge.
fn integer_part(d: &Vec<u8>, n: usize) -> (r: Option<u128>)
    requires
        n <= d@.len(),
        are_digits(d@),
    ensures
        match r {
            Some(v) => v == value_of_digits(d@.take(n as int)) && v < HUGE,
            None => value_of_digits(d@.take(n as int)) >= HUGE,
        },
{
    let mut v: u128 = 0;
    let mut i: usize = 0;
    assert(d@.take(0) =~= seq![]);
    while i < n
        invariant
            i <= n <= d@.len(),
            are_digits(d@),
            v == value_of_digits(d@.take(i as int)),
            v < HUGE,
        decreases n - i,
    {
        proof {
            assert(d@.take(i + 1).drop_last() =~= d@.take(i as int));
            assert(d@[i as int] < 10);
            lemma_value_grows(d@, i + 1, n as int);
        }
        v = v * 10 + d[i] as u128;
        if v >= HUGE {
            return None;
        }
        i = i + 1;
    }
    Some(v)
}

proof fn lemma_first_digit(d: Seq<u8>, i: int)
    requires
        0 <= i < d.len(),
    ensures
        value_of_digits(d.skip(i)) == d[i] * ten_to((d.len() - i - 1) as nat) + value_of_digits(
            d.skip(i + 1),
        ),
{
    let v = d.skip(i);
    lemma_value_splits(v, 1);
    assert(v.take(1).drop_last() =~= seq![]);
    assert(v.take(1).last() == d[i]);
    assert(value_of_digits(v.take(1)) == d[i]) by {
        assert(value_of_digits(v.take(1)) == value_of_digits(v.take(1).drop_last()) * 10
            + v.take(1).last());
    }
    assert(v.skip(1) =~= d.skip(i + 1));
}

/// Doubles the fraction that digits behind a point make. What comes before the point is
/// handed back.
fn double(d: &mut Vec<u8>) -> (carry: bool)
    requires
        are_digits(old(d)@),
    ensures
        final(d)@.len() == old(d)@.len(),
        are_digits(final(d)@),
        2 * value_of_digits(old(d)@) == value_of_digits(final(d)@) + if carry {
            ten_to(old(d)@.len())
        } else {
            0
        },
{
    let n: usize = d.len();
    let ghost all = d@;
    let mut carry: u8 = 0;
    let mut i: usize = n;
    assert(all.skip(n as int) =~= seq![]);
    while i > 0
        invariant
            i <= n == all.len(),
            d@.len() == n,
            are_digits(all),
            are_digits(d@),
            carry <= 1,
            forall|k: int| 0 <= k < i ==> #[trigger] d@[k] == all[k],
            2 * value_of_digits(all.skip(i as int)) == value_of_digits(d@.skip(i as int)) + carry
                * ten_to((n - i) as nat),
        decreases i,
    {
        let ghost before = d@;
        let ghost c0 = carry as int;
        i = i - 1;
        assert(d@[i as int] == all[i as int] && all[i as int] < 10);
        let v: u8 = d[i] * 2 + carry;
        let kept: u8 = v % 10;
        carry = v / 10;
        d.set(i, kept);
        proof {
            lemma_first_digit(all, i as int);
            lemma_first_digit(d@, i as int);
            assert(d@.skip(i + 1) =~= before.skip(i + 1));
            let p = ten_to((n - i - 1) as nat) as int;
            assert(ten_to((n - i) as nat) == 10 * p);
            let a = all[i as int] as int;
            assert(2 * (a * p) + c0 * p == kept * p + carry * (10 * p)) by (nonlinear_arith)
                requires
                    2 * a + c0 == kept + 10 * carry,
            ;
            assert forall|k: int| 0 <= k < n implies #[trigger] d@[k] < 10 by {
                if k != i {
                    assert(d@[k] == before[k]);
                }
            }
        }
    }
    assert(all.skip(0) =~= all);
    assert(d@.skip(0) =~= d@);
    carry == 1
}

/// Halves the number that digits make.
fn halve(d: &mut Vec<u8>)
    requires
        are_digits(old(d)@),
    ensures
        final(d)@.len() == old(d)@.len(),
        are_digits(final(d)@),
        value_of_digits(final(d)@) == value_of_digits(old(d)@) / 2,
{
    let n: usize = d.len();
    let ghost all = d@;
    let mut left: u8 = 0;
    let mut i: usize = 0;
    assert(all.take(0) =~= seq![] && d@.take(0) =~= seq![]);
    while i < n
        invariant
            i <= n == all.len(),
            d@.len() == n,
            are_digits(all),
            are_digits(d@),
            left <= 1,
            forall|k: int| i <= k < n ==> #[trigger] d@[k] == all[k],
            value_of_digits(all.take(i as int)) == 2 * value_of_digits(d@.take(i as int)) + left,
        decreases n - i,
    {
        let ghost before = d@;
        assert(d@[i as int] == all[i as int] && all[i as int] < 10);
        let v: u8 = left * 10 + d[i];
        left = v % 2;
        d.set(i, v / 2);
        proof {
            assert(all.take(i + 1).drop_last() =~= all.take(i as int));
            assert(d@.take(i + 1).drop_last() =~= before.take(i as int));
            assert forall|k: int| 0 <= k < n implies #[trigger] d@[k] < 10 by {
                if k != i {
                    assert(d@[k] == before[k]);
                }
            }
        }
        i = i + 1;
    }
    assert(all.take(n as int) =~= all);
    assert(d@.take(n as int) =~= d@);
}

/// Whether a number, given by its digits and how many of them stand behind the point, is
/// past every double-precision one.
fn is_infinite(d: &Vec<u8>, places: usize) -> (b: bool)
    requires
        are_digits(d@),
        places <= d@.len(),
    ensures
        b == overflows(value_of_digits(d@), ten_to(places as nat)),
{
    let n: usize = d.len() - places;
    let ghost integer = value_of_digits(d@.take(n as int));
    let mut v: Vec<u8> = Vec::new();
    let mut i: usize = 0;
    while i < n
        invariant
            i <= n <= d@.len(),
            v@ =~= d@.take(i as int),
        decreases n - i,
    {
        v.push(d[i]);
        i = i + 1;
    }
    let mut k: u32 = 0;
    proof {
        lemma2_to64();
    }
    while k < 970
        invariant
            k <= 970,
            v@.len() == n,
            are_digits(v@),
            value_of_digits(v@) == integer / pow2(k as nat),
        decreases 970 - k,
    {
        halve(&mut v);
        proof {
            lemma_pow2_pos(k as nat);
            lemma_pow2_unfold((k + 1) as nat);
            lemma_div_denominator(integer as int, pow2(k as nat) as int, 2);
            assert(pow2(k as nat) * 2 == pow2((k + 1) as nat));
        }
        k = k + 1;
    }
    proof {
        lemma_powers();
        lemma_value_splits(d@, n as int);
        assert(are_digits(d@.skip(n as int)));
        lemma_value_bound(d@.skip(n as int));
        lemma_ten_to_pos(places as nat);
        lemma_overflow(
            integer,
            ten_to(places as nat),
            value_of_digits(d@.skip(n as int)),
        );
        assert(v@.take(n as int) =~= v@);
    }
    match integer_part(&v, n) {
        Some(q) => q >= 0x3f_ffff_ffff_ffff,
        None => true,
    }
}

/// A number is past every double-precision one when its integer part has `2^54 - 1` in it
/// `2^970` times.
proof fn lemma_overflow(integer: nat, den: nat, rest: nat)
    requires
        rest < den,
    ensures
        overflows(integer * den + rest, den) == (integer / pow2(970) >= 0x3f_ffff_ffff_ffff),
{
    lemma_powers();
    lemma_pow2_pos(970);
    lemma_pow2_adds(970, 54);
    let p = pow2(970) as int;
    let t = pow2(1024) - pow2(970);
    let num = integer * den + rest;
    assert(t == 0x3f_ffff_ffff_ffff * p);
    assert((num >= t * den) == (integer >= t)) by (nonlinear_arith)
        requires
            num == integer * den + rest,
            0 <= rest < den,
    ;
    assert((integer as int / p >= 0x3f_ffff_ffff_ffff) == (integer >= 0x3f_ffff_ffff_ffff * p))
        by (nonlinear_arith)
        requires
            p > 0,
    ;
}

/// A number below `2^66` is not past every double-precision one.
proof fn lemma_finite(num: nat, den: nat)
    requires
        den > 0,
        num < HUGE * den,
    ensures
        !overflows(num, den),
{
    lemma_powers();
    lemma_pow2_adds(970, 54);
    lemma_pow2_strictly_increases(66, 970);
    let t = pow2(1024) - pow2(970);
    assert(t >= HUGE) by (nonlinear_arith)
        requires
            t == 0x3f_ffff_ffff_ffff * pow2(970),
            pow2(970) >= HUGE,
    ;
    assert(t * den >= HUGE * den) by (nonlinear_arith)
        requires
            t >= HUGE,
            den > 0,
    ;
}

fn any_left(d: &Vec<u8>) -> (b: bool)
    requires
        are_digits(d@),
    ensures
        b == (value_of_digits(d@) > 0),
{
    let mut i: usize = 0;
    assert(d@.take(0) =~= seq![]);
    while i < d.len()
        invariant
            i <= d@.len(),
            are_digits(d@),
            value_of_digits(d@.take(i as int)) == 0,
        decreases d@.len() - i,
    {
        proof {
            assert(d@.take(i + 1).drop_last() =~= d@.take(i as int));
            lemma_value_grows(d@, i + 1, d@.len() as int);
            assert(d@.take(d@.len() as int) =~= d@);
        }
        if d[i] != 0 {
            return true;
        }
        i = i + 1;
    }
    assert(d@.take(d@.len() as int) =~= d@);
    false
}

/// The first bits of a number: as many before the point as there are and `t` behind it,
/// and whether anything follows them.
fn leading_bits(integer: u128, fraction: &mut Vec<u8>, t: u32, Ghost(num): Ghost<nat>) -> (r: (
    u128,
    bool,
))
    requires
        are_digits(old(fraction)@),
        num == integer * ten_to(old(fraction)@.len()) + value_of_digits(old(fraction)@),
        t <= 90,
        (integer + 1) * pow2(t as nat) <= pow2(98),
    ensures
        ({
            let den = ten_to(old(fraction)@.len());
            let f = value_of_digits(final(fraction)@);
            &&& num * pow2(t as nat) == r.0 * den + f
            &&& f < den
            &&& r.1 == (f > 0)
            &&& r.0 + 1 <= (integer + 1) * pow2(t as nat)
        }),
{
    let ghost n = fraction@.len();
    let ghost den = ten_to(n);
    let mut x: u128 = integer;
    let mut j: u32 = 0;
    proof {
        lemma_value_bound(fraction@);
        lemma2_to64();
        assert(num * 1 == num);
        assert((integer + 1) * 1 == integer + 1);
    }
    while j < t
        invariant
            j <= t <= 90,
            n == fraction@.len(),
            den == ten_to(n),
            are_digits(fraction@),
            num * pow2(j as nat) == x * den + value_of_digits(fraction@),
            value_of_digits(fraction@) < den,
            x + 1 <= (integer + 1) * pow2(j as nat),
            (integer + 1) * pow2(t as nat) <= pow2(98),
        decreases t - j,
    {
        let ghost f = value_of_digits(fraction@);
        proof {
            lemma_pow2_unfold((j + 1) as nat);
            lemma_small_power(j as nat, t as nat, integer as nat);
        }
        let carry: bool = double(fraction);
        let ghost g = value_of_digits(fraction@);
        let ghost c: int = if carry {
            1
        } else {
            0
        };
        let ghost x0 = x as int;
        x = x * 2 + if carry {
            1
        } else {
            0
        };
        proof {
            lemma_value_bound(fraction@);
            let p = pow2(j as nat) as int;
            assert(num * (2 * p) == (2 * x0 + c) * den + g) by (nonlinear_arith)
                requires
                    num * p == x0 * den + f,
                    2 * f == g + c * den,
            ;
            assert((integer + 1) * (2 * p) == 2 * ((integer + 1) * p)) by (nonlinear_arith);
        }
        j = j + 1;
    }
    (x, any_left(fraction))
}

/// A number below `2^98 / 2^t` stays below `2^98` when it is doubled at most `t` times.
proof fn lemma_small_power(j: nat, t: nat, integer: nat)
    requires
        j < t,
        (integer + 1) * pow2(t) <= pow2(98),
    ensures
        2 * ((integer + 1) * pow2(j)) <= 0x4_0000_0000_0000_0000_0000_0000,
{
    lemma_pow2_unfold(j + 1);
    assert(pow2(98) == 0x4_0000_0000_0000_0000_0000_0000) by {
        lemma2_to64_rest();
        lemma2_to64();
        lemma_pow2_adds(64, 34);
        lemma_pow2_adds(32, 2);
    }
    if j + 1 < t {
        lemma_pow2_strictly_increases(j + 1, t);
    }
    assert(2 * ((integer + 1) * pow2(j)) <= (integer + 1) * pow2(t)) by (nonlinear_arith)
        requires
            2 * pow2(j) <= pow2(t),
    ;
}

/// A number in double precision.
enum Double {
    /// `m * 2^e`.
    At(u64, i32),
    /// Zero, or so small that no unit makes a byte of it.
    Tiny,
    /// At least `2^66`.
    Huge,
}

/// What of a number is known by its double-precision value.
spec fn is_double(num: nat, den: nat, v: Double) -> bool {
    match v {
        Double::At(m, e) => rounds_to(num, den, 53, m as nat, e as int) && pow2(52) <= m
            < pow2(53) && -220 <= e <= 121 && num > 0 && num < HUGE * den,
        Double::Tiny => num * pow2(90) < pow2(55) * den && num < HUGE * den,
        Double::Huge => num >= HUGE * den,
    }
}

/// The powers of two that bound the cases.
proof fn lemma_powers()
    ensures
        pow2(0) == 1,
        pow2(32) == 0x1_0000_0000,
        pow2(33) == 0x2_0000_0000,
        pow2(52) == 0x10_0000_0000_0000,
        pow2(53) == 0x20_0000_0000_0000,
        pow2(54) == 0x40_0000_0000_0000,
        pow2(55) == 0x80_0000_0000_0000,
        pow2(64) == 0x1_0000_0000_0000_0000,
        pow2(66) == HUGE,
        pow2(90) == 0x400_0000_0000_0000_0000_0000,
        pow2(98) == 0x4_0000_0000_0000_0000_0000_0000,
{
    lemma2_to64();
    lemma2_to64_rest();
    lemma_pow2_adds(64, 2);
    lemma_pow2_adds(64, 26);
    lemma_pow2_adds(64, 34);
    lemma_pow2_adds(32, 2);
}

/// The leading bits of a number are at least those of its integer part.
proof fn lemma_bits_reach(num: nat, den: nat, p: nat, x: nat, f: nat, integer: nat)
    requires
        num * p == x * den + f,
        f < den,
        num >= integer * den,
        p > 0,
    ensures
        x >= integer * p,
{
    let y = (integer * p) as int;
    assert(x + 1 > y) by (nonlinear_arith)
        requires
            num * p == x * den + f,
            f < den,
            num >= integer * den,
            y == integer * p,
            p > 0,
    ;
}

/// The double-precision value of a number, given by its digits and how many of them stand
/// behind the point.
fn to_double(d: &Vec<u8>, places: usize) -> (v: Double)
    requires
        are_digits(d@),
        places <= d@.len(),
    ensures
        is_double(value_of_digits(d@), ten_to(places as nat), v),
{
    let n: usize = d.len() - places;
    let ghost num = value_of_digits(d@);
    let ghost den = ten_to(places as nat);
    let mut fraction: Vec<u8> = Vec::new();
    let mut i: usize = n;
    while i < d.len()
        invariant
            n <= i <= d@.len(),
            n == d@.len() - places,
            fraction@ =~= d@.subrange(n as int, i as int),
        decreases d@.len() - i,
    {
        fraction.push(d[i]);
        i = i + 1;
    }
    proof {
        lemma_value_splits(d@, n as int);
        assert(fraction@ =~= d@.skip(n as int));
        lemma_powers();
        lemma_ten_to_pos(places as nat);
        lemma_value_bound(fraction@);
    }
    let integer: u128 = match integer_part(d, n) {
        Some(v) => v,
        None => {
            assert(num >= HUGE * den) by (nonlinear_arith)
                requires
                    num >= value_of_digits(d@.take(n as int)) * den,
                    value_of_digits(d@.take(n as int)) >= HUGE,
            ;
            return Double::Huge;
        },
    };
    assert(num < HUGE * den) by (nonlinear_arith)
        requires
            num == integer * den + value_of_digits(fraction@),
            value_of_digits(fraction@) < den,
            integer < HUGE,
    ;
    let t: u32 = if integer >= 0x2_0000_0000 {
        32
    } else if integer > 0 {
        64
    } else {
        90
    };
    proof {
        assert((integer + 1) * pow2(t as nat) <= pow2(98)) by (nonlinear_arith)
            requires
                t == 32 ==> pow2(t as nat) == 0x1_0000_0000,
                t == 64 ==> pow2(t as nat) == 0x1_0000_0000_0000_0000,
                t == 90 ==> pow2(t as nat) == 0x400_0000_0000_0000_0000_0000,
                t == 32 || t == 64 || t == 90,
                integer < HUGE,
                t == 64 ==> integer < 0x2_0000_0000,
                t == 90 ==> integer == 0,
                pow2(98) == 0x4_0000_0000_0000_0000_0000_0000,
        ;
    }
    let (x, more) = leading_bits(integer, &mut fraction, t, Ghost(num));
    let ghost f = value_of_digits(fraction@);
    if integer == 0 && x < 0x80_0000_0000_0000 {
        assert(num * pow2(90) < pow2(55) * den) by (nonlinear_arith)
            requires
                num * pow2(90) == x * den + f,
                f < den,
                x + 1 <= pow2(55),
        ;
        return Double::Tiny;
    }
    proof {
        if integer > 0 {
            let p = pow2(t as nat);
            assert(num >= integer * den);
            lemma_bits_reach(num, den, p, x as nat, f, integer as nat);
            assert(integer * p >= pow2(54)) by (nonlinear_arith)
                requires
                    t == 32 ==> integer >= 0x2_0000_0000 && p == 0x1_0000_0000,
                    t == 64 ==> integer >= 1 && p == 0x1_0000_0000_0000_0000,
                    t == 32 || t == 64,
                    pow2(54) == 0x40_0000_0000_0000,
            ;
        }
    }
    let bits: u128 = 2 * x + if more {
        1
    } else {
        0
    };
    let (m, e) = round_ratio(bits, 1, 53);
    proof {
        leading_bits_decide(num, den, 53, t as nat, x as nat, f, m as nat, e as int);
        assert(num > 0) by (nonlinear_arith)
            requires
                num * pow2(t as nat) == x * den + f,
                x > 0,
                den > 0,
                f >= 0,
        ;
    }
    Double::At(m, e - (t as i32 + 1))
}

/// The bytes of a number of units, from its double-precision value.
fn count_bytes(m: u64, e: i32, unit: u64, Ghost(num): Ghost<nat>, Ghost(den): Ghost<nat>) -> (r: Option<
    u64,
>)
    requires
        rounds_to(num, den, 53, m as nat, e as int),
        pow2(52) <= m < pow2(53),
        -220 <= e <= 121,
        1 <= unit <= 0x4000_0000,
        den > 0,
    ensures
        r == bytes_of(num, den, unit as nat),
{
    proof {
        lemma_powers();
        a_ratio_rounds(num, den, 53);
        let c = rounded(num, den, 53);
        rounding_is_unique(num, den, 53, m as nat, e as int, c.0, c.1);
        assert(0 < m * unit <= 0x20_0000_0000_0000 * 0x4000_0000) by (nonlinear_arith)
            requires
                0 < m <= 0x20_0000_0000_0000,
                1 <= unit <= 0x4000_0000,
        ;
    }
    let (n, k) = round_ratio(m as u128 * unit as u128, 1, 53);
    let total: i32 = k + e;
    proof {
        lemma_pow2_pos(52);
        lemma_pow2_unfold(53);
    }
    if total >= 12 {
        proof {
            let f = pow2(total as nat);
            if total > 12 {
                lemma_pow2_strictly_increases(12, total as nat);
            }
            lemma_pow2_adds(52, 12);
            lemma_pow2_pos(12);
            if total > 12 {
                lemma_pow2_unfold(13);
                if total > 13 {
                    lemma_pow2_strictly_increases(13, total as nat);
                }
                assert(n * f > pow2(64)) by (nonlinear_arith)
                    requires
                        n >= pow2(52),
                        f >= 2 * pow2(12),
                        pow2(64) == pow2(52) * pow2(12),
                        pow2(52) > 0,
                        pow2(12) > 0,
                ;
            } else {
                assert((n * f > pow2(64)) == (n > pow2(52))) by (nonlinear_arith)
                    requires
                        f == pow2(12),
                        pow2(64) == pow2(52) * pow2(12),
                        pow2(12) > 0,
                ;
                assert(n == pow2(52) ==> n * f == pow2(64)) by (nonlinear_arith)
                    requires
                        f == pow2(12),
                        pow2(64) == pow2(52) * pow2(12),
                ;
            }
        }
        if total > 12 || n > 0x10_0000_0000_0000 {
            return None;
        }
        return Some(u64::MAX);
    }
    if total >= 0 {
        let f: u64 = power_of_two(total as u32);
        proof {
            lemma_pow2_adds(53, 11);
            if total < 11 {
                lemma_pow2_strictly_increases(total as nat, 11);
            }
            assert(n * f < pow2(64)) by (nonlinear_arith)
                requires
                    n < pow2(53),
                    f <= pow2(11),
                    f > 0,
                    pow2(64) == pow2(53) * pow2(11),
            ;
            assert(0 <= n * f) by (nonlinear_arith);
        }
        return Some(n * f);
    }
    let down: u32 = (-total) as u32;
    proof {
        lemma_pow2_pos(down as nat);
        let g = pow2(down as nat);
        assert(n <= pow2(64) * g) by (nonlinear_arith)
            requires
                n < pow2(53),
                pow2(53) <= pow2(64),
                g >= 1,
        ;
        assert(n as nat / g <= n) by (nonlinear_arith)
            requires
                g >= 1,
                n >= 0,
        ;
        if down > 62 {
            lemma_pow2_strictly_increases(62, down as nat);
            lemma_pow2_strictly_increases(53, 62);
            assert(n as nat / g == 0) by (nonlinear_arith)
                requires
                    0 <= n < g,
            ;
        }
    }
    if down > 62 {
        return Some(0);
    }
    Some(n / power_of_two(down))
}

/// A number of at least `2^66` is too many bytes, whatever the unit.
proof fn lemma_huge(num: nat, den: nat, unit: nat)
    requires
        den > 0,
        num >= HUGE * den,
        unit >= 1,
    ensures
        bytes_of(num, den, unit) is None,
{
    lemma_powers();
    a_ratio_rounds(num, den, 53);
    let (m, e) = rounded(num, den, 53);
    assert(num > 0) by (nonlinear_arith)
        requires
            num >= HUGE * den,
            den > 0,
    ;
    let k = a_significand_is_full(num, den, 53, m, e);
    let (a, b) = scaled(num, den, k);
    assert(k >= 14) by {
        if k < 0 {
            let g = pow2((-k) as nat);
            lemma_pow2_pos((-k) as nat);
            assert(num * g >= pow2(53) * den) by (nonlinear_arith)
                requires
                    num >= HUGE * den,
                    g >= 1,
                    pow2(53) <= HUGE,
            ;
        } else if k < 14 {
            let g = pow2(k as nat);
            if k < 13 {
                lemma_pow2_strictly_increases(k as nat, 13);
            }
            lemma_pow2_adds(53, 13);
            assert(num >= pow2(53) * (den * g)) by (nonlinear_arith)
                requires
                    num >= HUGE * den,
                    HUGE == pow2(53) * pow2(13),
                    g <= pow2(13),
            ;
        }
    }
    let w = m * unit;
    assert(w >= m) by (nonlinear_arith)
        requires
            w == m * unit,
            unit >= 1,
    ;
    a_ratio_rounds(w, 1, 53);
    let (n, j) = rounded(w, 1, 53);
    let i = a_significand_is_full(w, 1, 53, n, j);
    assert(i >= 0) by {
        if i < 0 {
            let g = pow2((-i) as nat);
            lemma_pow2_unfold((-i) as nat);
            lemma_pow2_pos((-i - 1) as nat);
            assert(w * g >= 2 * pow2(52)) by (nonlinear_arith)
                requires
                    w >= pow2(52),
                    g >= 2,
            ;
            lemma_pow2_unfold(53);
        }
    }
    let total = j + e;
    let f = pow2(total as nat);
    lemma_pow2_adds(52, 13);
    lemma_pow2_adds(52, 12);
    lemma_pow2_unfold(13);
    lemma_pow2_pos(12);
    lemma_pow2_strictly_increases(13, total as nat);
    assert(n * f > pow2(64)) by (nonlinear_arith)
        requires
            n >= pow2(52),
            f >= 2 * pow2(12),
            pow2(64) == pow2(52) * pow2(12),
            pow2(52) > 0,
            pow2(12) > 0,
    ;
}

/// A number below `2^-35` is no byte, whatever the unit.
proof fn lemma_tiny(num: nat, den: nat, unit: nat)
    requires
        den > 0,
        num * pow2(90) < pow2(55) * den,
        1 <= unit <= 0x4000_0000,
    ensures
        bytes_of(num, den, unit) == Some(0u64),
{
    lemma_powers();
    a_ratio_rounds(num, den, 53);
    let (m, e) = rounded(num, den, 53);
    let w = m * unit;
    a_ratio_rounds(w, 1, 53);
    let (n, j) = rounded(w, 1, 53);
    if num == 0 {
        assert(w == 0) by (nonlinear_arith)
            requires
                w == m * unit,
                m == 0,
        ;
        assert(n * pow2(0) == 0) by (nonlinear_arith)
            requires
                n == 0,
        ;
    } else {
        let k = a_significand_is_full(num, den, 53, m, e);
        assert(k < -87) by {
            if k >= 0 {
                let g = pow2(k as nat);
                lemma_pow2_pos(k as nat);
                assert(num >= pow2(52) * den) by (nonlinear_arith)
                    requires
                        pow2(52) * (den * g) <= num,
                        g >= 1,
                ;
                assert(num * pow2(90) >= pow2(55) * den) by (nonlinear_arith)
                    requires
                        num >= pow2(52) * den,
                        pow2(90) >= pow2(55),
                        pow2(52) >= 1,
                        pow2(55) >= 1,
                ;
            } else if k >= -87 {
                let g = pow2((-k) as nat);
                lemma_pow2_pos((-k) as nat);
                lemma_pow2_adds((-k) as nat, (90 + k) as nat);
                let c = pow2((90 + k) as nat);
                lemma2_to64();
                if 90 + k > 3 {
                    lemma_pow2_strictly_increases(3, (90 + k) as nat);
                }
                lemma_pow2_adds(52, 3);
                assert(num * pow2(90) >= pow2(55) * den) by (nonlinear_arith)
                    requires
                        pow2(52) * den <= num * g,
                        pow2(90) == g * c,
                        c >= pow2(3),
                        pow2(55) == pow2(52) * pow2(3),
                ;
            }
        }
        assert(0 < w < 0x20_0000_0000_0000 * 0x4000_0000) by (nonlinear_arith)
            requires
                w == m * unit,
                0 < m < 0x20_0000_0000_0000,
                1 <= unit <= 0x4000_0000,
        ;
        assert(pow2(83) == 0x20_0000_0000_0000 * 0x4000_0000) by {
            lemma_pow2_adds(53, 30);
            lemma2_to64();
        }
        lemma2_to64();
        exponent_is_bounded(w, 1, 53, n, j, 83, 1);
        let i = a_significand_is_full(w, 1, 53, n, j);
        let total = j + e;
        let g = pow2((-total) as nat);
        lemma_pow2_strictly_increases(53, (-total) as nat);
        assert(n / g == 0) by (nonlinear_arith)
            requires
                0 <= n < g,
        ;
        assert(n <= pow2(64) * g) by (nonlinear_arith)
            requires
                0 <= n < g,
                pow2(64) >= 1,
        ;
    }
}

/// The digits of the number a text starts with, how many points it has, how many digits
/// stand behind one, and where it ends.
fn scan_number(t: &str) -> (r: (Vec<u8>, usize, usize, usize))
    ensures
        ({
            let n = number_end(t@, 0);
            let want = scanned(t@, n);
            &&& r.0@ == want.digits
            &&& r.1 == want.points
            &&& r.2 == want.places
            &&& r.3 == n
            &&& n <= t@.len()
            &&& are_digits(r.0@)
            &&& r.2 <= r.0@.len()
        }),
{
    let len: usize = t.unicode_len();
    let mut digits: Vec<u8> = Vec::new();
    let mut points: usize = 0;
    let mut places: usize = 0;
    let mut i: usize = 0;
    while i < len
        invariant_except_break
            number_end(t@, 0) == number_end(t@, i as int),
        invariant
            i <= len == t@.len(),
            digits@ == scanned(t@, i as int).digits,
            points == scanned(t@, i as int).points,
            places == scanned(t@, i as int).places,
            points <= i,
            places <= digits@.len() <= i,
            are_digits(digits@),
        ensures
            i == number_end(t@, 0),
        decreases len - i,
    {
        let c: char = t.get_char(i);
        if c == '.' {
            points = points + 1;
        } else if '0' <= c && c <= '9' {
            digits.push((c as u32 - 48) as u8);
            if points > 0 {
                places = places + 1;
            }
        } else {
            break;
        }
        i = i + 1;
    }
    (digits, points, places, i)
}

/// How many bytes a unit is.
fn read_unit(unit: &String) -> (r: Option<u64>)
    ensures
        match r {
            Some(n) => unit_size(unit@) == Some(n as nat) && 1 <= n <= 0x4000_0000,
            None => unit_size(unit@) is None,
        },
{
    if *unit == "".to_owned() || *unit == "b".to_owned() {
        Some(1)
    } else if *unit == "k".to_owned() || *unit == "kb".to_owned() {
        Some(1000)
    } else if *unit == "kib".to_owned() {
        Some(1024)
    } else if *unit == "m".to_owned() || *unit == "mb".to_owned() {
        Some(1000000)
    } else if *unit == "mib".to_owned() {
        Some(1048576)
    } else if *unit == "g".to_owned() || *unit == "gb".to_owned() {
        Some(1000000000)
    } else if *unit == "gib".to_owned() {
        Some(1073741824)
    } else {
        None
    }
}

/// Parses a human byte size: `4MB`, `4 MiB`, `3.5m`, `1500000`.
///
/// `MB`/`M` are decimal (10^6) and `MiB` binary (2^20), per IEC -- a user who types `4MB`
/// for an email attachment limit means 4,000,000.
pub fn parse_size(s: &str) -> (r: Result<u64, SizeError>)
    ensures
        match r {
            Ok(n) => size_said(s@) == Ok::<u64, SizeFault>(n),
            Err(e) => size_said(s@) == Err::<u64, SizeFault>(e@),
        },
{
    let t = trim(s);
    let len: usize = t.unicode_len();
    if len == 0 {
        return Err(SizeError::Empty);
    }
    let (digits, points, places, end) = scan_number(t);
    if digits.len() == 0 || points > 1 {
        let number = t.substring_char(0, end);
        assert(number@ =~= t@.take(end as int));
        return Err(SizeError::NotANumber(number.to_owned()));
    }
    let ghost num = value_of_digits(digits@);
    let ghost den = ten_to(places as nat);
    let v = to_double(&digits, places);
    proof {
        lemma_ten_to_pos(places as nat);
        if num < HUGE * den {
            lemma_finite(num, den);
        }
    }
    let infinite: bool = match v {
        Double::Huge => is_infinite(&digits, places),
        _ => false,
    };
    if infinite {
        return Err(SizeError::NotFinite(s.to_owned()));
    }
    let rest = t.substring_char(end, len);
    assert(rest@ =~= t@.skip(end as int));
    let unit: String = to_lower(trim(rest));
    let size: u64 = match read_unit(&unit) {
        Some(n) => n,
        None => {
            return Err(SizeError::UnknownUnit(unit));
        },
    };
    let bytes = match v {
        Double::At(m, e) => count_bytes(m, e, size, Ghost(num), Ghost(den)),
        Double::Tiny => {
            proof {
                lemma_tiny(num, den, size as nat);
            }
            Some(0)
        },
        Double::Huge => {
            proof {
                lemma_huge(num, den, size as nat);
            }
            None
        },
    };
    match bytes {
        Some(n) => Ok(n),
        None => Err(SizeError::TooLarge(s.to_owned())),
    }
}

/// A whole number below `2^53`, doubled any number of times, loses nothing to rounding.
proof fn lemma_exact(y: nat, i: nat) -> (c: nat)
    requires
        0 < y < pow2(53),
    ensures
        rounded(y * pow2(i), 1, 53) == ((y * pow2(c), i - c)),
        pow2(52) <= y * pow2(c) < pow2(53),
{
    lemma_powers();
    a_ratio_rounds(y, 1, 53);
    let (m0, e0) = rounded(y, 1, 53);
    let k0 = a_significand_is_full(y, 1, 53, m0, e0);
    assert(k0 <= 0) by {
        if k0 > 0 {
            lemma_pow2_unfold(k0 as nat);
            lemma_pow2_pos((k0 - 1) as nat);
            lemma_pow2_unfold(53);
            assert(pow2(52) * (1 * pow2(k0 as nat)) >= 2 * pow2(52)) by (nonlinear_arith)
                requires
                    pow2(k0 as nat) >= 2,
                    pow2(52) > 0,
            ;
        }
    }
    let c = (-k0) as nat;
    let z = y * pow2(c);
    assert(pow2(52) <= z < pow2(53)) by {
        if k0 == 0 {
            assert(y * pow2(0) == y) by (nonlinear_arith)
                requires
                    pow2(0) == 1,
            ;
        }
    }
    let x = y * pow2(i);
    let k = i - c;
    lemma_pow2_pos(i);
    let (a, b) = scaled(x, 1, k);
    if k >= 0 {
        lemma_pow2_adds(c, k as nat);
        lemma_pow2_pos(k as nat);
        assert(a == z * b) by (nonlinear_arith)
            requires
                a == y * pow2(i),
                b == pow2(k as nat),
                pow2(i) == pow2(c) * b,
                z == y * pow2(c),
        ;
    } else {
        lemma_pow2_adds(i, (-k) as nat);
        assert(a == z * b) by (nonlinear_arith)
            requires
                a == (y * pow2(i)) * pow2((-k) as nat),
                b == 1,
                pow2(c) == pow2(i) * pow2((-k) as nat),
                z == y * pow2(c),
        ;
    }
    assert(b > 0);
    assert(a / b == z && a % b == 0) by (nonlinear_arith)
        requires
            a == z * b,
            b > 0,
    ;
    assert(nearest_int(a, b) == z);
    assert(pow2(52) * b <= a && a < pow2(53) * b) by (nonlinear_arith)
        requires
            a == z * b,
            b > 0,
            pow2(52) <= z < pow2(53),
    ;
    assert(fits(x, 1, 53, k));
    assert(x > 0) by (nonlinear_arith)
        requires
            x == y * pow2(i),
            y > 0,
            pow2(i) > 0,
    ;
    assert(rounds_to(x, 1, 53, z, k));
    a_ratio_rounds(x, 1, 53);
    let r = rounded(x, 1, 53);
    rounding_is_unique(x, 1, 53, z, k, r.0, r.1);
    c
}

/// A whole number of units that comes to fewer than `2^53` bytes is exactly as many bytes
/// as it says: `4MB` is 4,000,000 and `4MiB` is 4 times 1,048,576.
pub proof fn whole_sizes_are_exact(number: nat, unit: nat)
    requires
        0 < number * unit < pow2(53),
        unit > 0,
    ensures
        bytes_of(number, 1, unit) == Some((number * unit) as u64),
{
    lemma_powers();
    assert(0 < number <= number * unit) by (nonlinear_arith)
        requires
            0 < number * unit,
            unit > 0,
    ;
    assert(number * pow2(0) == number) by (nonlinear_arith)
        requires
            pow2(0) == 1,
    ;
    let c = lemma_exact(number, 0);
    let y = number * unit;
    let w = (number * pow2(c)) * unit;
    assert(w == y * pow2(c)) by (nonlinear_arith)
        requires
            w == (number * pow2(c)) * unit,
            y == number * unit,
    ;
    let d = lemma_exact(y, c);
    let z = y * pow2(d);
    assert(product(number, 1, unit) == ((z, -(d as int))));
    lemma_pow2_pos(d);
    assert(z / pow2(d) == y) by (nonlinear_arith)
        requires
            z == y * pow2(d),
            pow2(d) > 0,
    ;
    if d == 0 {
        assert(z * pow2(0) == z && z == y) by (nonlinear_arith)
            requires
                pow2(0) == 1,
                z == y * pow2(0),
        ;
    } else {
        assert(z <= pow2(64) * pow2(d)) by (nonlinear_arith)
            requires
                z < pow2(53),
                pow2(53) <= pow2(64),
                pow2(d) >= 1,
        ;
    }
}

} // verus!
