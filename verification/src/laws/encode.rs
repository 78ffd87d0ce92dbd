//! What the search for a quality that fits a budget asks of the engine, and what it finds.

use vstd::arithmetic::power2::{
    lemma2_to64, lemma_pow2_adds, lemma_pow2_pos, lemma_pow2_strictly_increases, lemma_pow2_unfold,
    pow2,
};
use vstd::prelude::*;

use crate::encode::{
    answers_as, at_quality, encode_within_budget, floor_quality, grows, half_up, may_answer,
    may_fail, scaled_quality, the_search_is_optimal, top_quality, Budgeted, EncodeOptions,
    GainMapEncoder,
};
use crate::meta::{GainMapMeta, GainPlane, Rgb};
use crate::rounding::{
    a_ratio_rounds, a_significand_is_full, exponent_is_bounded, fits, nearest_int, rounded,
    rounds_to, scaled,
};

verus! {

/// Whether two sets of options are the same but for the two qualities.
pub open spec fn same_but_for_quality(a: EncodeOptions, b: EncodeOptions) -> bool {
    &&& a.flavor == b.flavor
    &&& a.exif == b.exif
    &&& a.xmp == b.xmp
    &&& a.iptc == b.iptc
    &&& a.opaque_items == b.opaque_items
    &&& a.orientation == b.orientation
    &&& a.primaries == b.primaries
    &&& a.linear_headroom == b.linear_headroom
}

/// The quality that a search starts from: what was asked for, one at least.
pub open spec fn full_quality(opts: EncodeOptions) -> int {
    if opts.base_quality >= 1 {
        opts.base_quality as int
    } else {
        1
    }
}

/// The quality that a search does not go below: what was asked for, one at least, and full
/// quality at most.
pub open spec fn least_quality(opts: EncodeOptions, min_quality: u8) -> int {
    if min_quality < 1 {
        1
    } else if min_quality > full_quality(opts) {
        full_quality(opts)
    } else {
        min_quality as int
    }
}

/// Whether `v` is `q * gain / hi` to the nearest whole number, but for what single precision loses.
pub open spec fn is_share(v: int, q: int, gain: int, hi: int) -> bool {
    -43 * hi <= 84 * (v * hi - q * gain) <= 43 * hi
}

/// Whether a quality of the gain plane goes along with that of the base.
pub open spec fn keeps_proportion(g: u8, q: u8, opts: EncodeOptions) -> bool {
    exists|v: int| #[trigger]
        is_share(v, q as int, opts.gain_quality as int, full_quality(opts)) && g == if v < 1 {
            1
        } else if v > 100 {
            100
        } else {
            v
        }
}

proof fn lemma_options(opts: EncodeOptions, q: u8)
    ensures
        same_but_for_quality(at_quality(opts, top_quality(opts), q), opts),
        at_quality(opts, top_quality(opts), q).base_quality == q,
        keeps_proportion(at_quality(opts, top_quality(opts), q).gain_quality, q, opts),
        top_quality(opts) == full_quality(opts),
        forall|m: u8| #[trigger] floor_quality(opts, m) == least_quality(opts, m),
{
    let v = the_gain_keeps_its_proportion(q, opts.gain_quality, top_quality(opts));
    assert(is_share(v, q as int, opts.gain_quality as int, full_quality(opts)));
}

/// What a search gives is what the engine made of the very planes, metadata and options that the
/// caller gave, all of them but for the two qualities, of which the gain plane's goes along with the
/// base's. The base is of the quality that is
/// reported, between the least and the full one; that it fits is reported when it does; and only
/// what is of the least quality may be over the budget.
pub proof fn a_search_gives_what_the_engine_made<E: GainMapEncoder>(
    engine: &E,
    base: &Rgb,
    gain: &GainPlane,
    meta: &GainMapMeta,
    opts: &EncodeOptions,
    max_bytes: u64,
    min_quality: u8,
    b: Budgeted,
)
    requires
        call_ensures(
            encode_within_budget::<E>,
            (engine, base, gain, meta, opts, max_bytes, min_quality),
            Ok(b),
        ),
    ensures
        exists|o: EncodeOptions| #[trigger]
            call_ensures(E::encode, (engine, base, gain, meta, &o), Ok(b.bytes))
                && o.base_quality == b.quality && same_but_for_quality(o, *opts) && keeps_proportion(
                o.gain_quality,
                b.quality,
                *opts,
            ),
        least_quality(*opts, min_quality) <= b.quality <= full_quality(*opts),
        b.within_budget <==> b.bytes@.len() <= max_bytes,
        !b.within_budget ==> b.quality == least_quality(*opts, min_quality),
{
    lemma_options(*opts, b.quality);
    assert(floor_quality(*opts, min_quality) == least_quality(*opts, min_quality));
    let o = at_quality(*opts, top_quality(*opts), b.quality);
    assert(may_answer(engine, base, gain, meta, *opts, b.quality, Ok(b.bytes)));
    assert(call_ensures(E::encode, (engine, base, gain, meta, &o), Ok(b.bytes)));
}

/// A search fails only as the engine fails on the planes, metadata and options that the caller
/// gave, at some quality between the least and the full one.
pub proof fn a_search_fails_as_the_engine_does<E: GainMapEncoder>(
    engine: &E,
    base: &Rgb,
    gain: &GainPlane,
    meta: &GainMapMeta,
    opts: &EncodeOptions,
    max_bytes: u64,
    min_quality: u8,
    e: E::Error,
)
    requires
        call_ensures(
            encode_within_budget::<E>,
            (engine, base, gain, meta, opts, max_bytes, min_quality),
            Err(e),
        ),
    ensures
        exists|o: EncodeOptions| #[trigger]
            call_ensures(E::encode, (engine, base, gain, meta, &o), Err(e))
                && least_quality(*opts, min_quality) <= o.base_quality <= full_quality(*opts)
                && same_but_for_quality(o, *opts),
{
    let lo = floor_quality(*opts, min_quality);
    assert(may_fail(engine, base, gain, meta, *opts, lo, e));
    let q = choose|q: u8|
        lo <= q <= top_quality(*opts) && #[trigger] may_answer(
            engine,
            base,
            gain,
            meta,
            *opts,
            q,
            Err(e),
        );
    lemma_options(*opts, q);
    assert(floor_quality(*opts, min_quality) == least_quality(*opts, min_quality));
    let o = at_quality(*opts, top_quality(*opts), q);
    assert(call_ensures(E::encode, (engine, base, gain, meta, &o), Err(e)));
}

/// With an engine whose files do not shrink as quality grows, a search finds the highest quality
/// that fits the budget, and reports that none does only when none does.
pub proof fn a_search_finds_the_highest_quality_that_fits<E: GainMapEncoder>(
    engine: &E,
    base: &Rgb,
    gain: &GainPlane,
    meta: &GainMapMeta,
    opts: &EncodeOptions,
    max_bytes: u64,
    min_quality: u8,
    sizes: spec_fn(u8) -> nat,
    r: Result<Budgeted, E::Error>,
)
    requires
        call_ensures(
            encode_within_budget::<E>,
            (engine, base, gain, meta, opts, max_bytes, min_quality),
            r,
        ),
        forall|o: EncodeOptions, x: Result<Vec<u8>, E::Error>| #[trigger]
            call_ensures(E::encode, (engine, base, gain, meta, &o), x) && same_but_for_quality(
                o,
                *opts,
            ) ==> (x matches Ok(v) && v@.len() == sizes(o.base_quality)),
        forall|a: u8, b: u8|
            least_quality(*opts, min_quality) <= a <= b <= full_quality(*opts) ==> #[trigger] sizes(
                a,
            ) <= #[trigger] sizes(b),
    ensures
        r matches Ok(b) && if b.within_budget {
            b.bytes@.len() <= max_bytes && forall|q: u8|
                b.quality < q <= full_quality(*opts) ==> #[trigger] sizes(q) > max_bytes
        } else {
            forall|q: u8|
                least_quality(*opts, min_quality) <= q <= full_quality(*opts) ==> #[trigger] sizes(
                    q,
                ) > max_bytes
        },
{
    let lo = floor_quality(*opts, min_quality);
    let hi = top_quality(*opts);
    let f = |q: u8| Ok::<nat, E::Error>(sizes(q));
    lemma_options(*opts, hi);
    assert(lo == least_quality(*opts, min_quality));
    assert(answers_as(engine, base, gain, meta, *opts, f)) by {
        assert forall|q: u8, x: Result<Vec<u8>, E::Error>| #[trigger]
            may_answer(engine, base, gain, meta, *opts, q, x) implies match x {
            Ok(v) => f(q) == Ok::<nat, E::Error>(v@.len()),
            Err(e) => f(q) == Err::<nat, E::Error>(e),
        } by {
            lemma_options(*opts, q);
            let o = at_quality(*opts, hi, q);
            assert(call_ensures(E::encode, (engine, base, gain, meta, &o), x));
        }
    }
    assert(grows(sizes, lo, hi));
    the_search_is_optimal(sizes, f, max_bytes as nat, lo, hi);
}

/// A quotient that is rounded is within half of its last place.
proof fn lemma_rounded_quotient(num: nat, den: nat, m: nat, e: int)
    requires
        num > 0,
        den > 0,
        e <= 0,
        rounds_to(num, den, 24, m, e),
    ensures
        -(den as int) <= 2 * (m * den - num * pow2((-e) as nat)) <= den,
{
    let k = choose|k: int| #[trigger]
        fits(num, den, 24, k) && {
            let (a, b) = scaled(num, den, k);
            let n = nearest_int(a, b);
            if n == pow2(24) {
                m == pow2(23) && e == k + 1
            } else {
                m == n && e == k
            }
        };
    lemma2_to64();
    let (a, b) = scaled(num, den, k);
    let n = nearest_int(a, b);
    if e == k {
        if k == 0 {
            assert(den * pow2(0) == den) by (nonlinear_arith)
                requires
                    pow2(0) == 1,
            ;
            assert(num * pow2(0) == num) by (nonlinear_arith)
                requires
                    pow2(0) == 1,
            ;
        }
        lemma_nearest(a, b);
        assert(m * den == n * b);
    } else {
        lemma_pow2_unfold((-k) as nat);
        let t = pow2((-e) as nat);
        lemma_nearest(a, b);
        assert(a == 2 * (num * t)) by (nonlinear_arith)
            requires
                a == num * (2 * t),
        ;
        assert(n * b == 2 * (m * den)) by (nonlinear_arith)
            requires
                n == 2 * m,
                b == den,
        ;
    }
}

proof fn lemma_nearest(a: nat, b: nat)
    requires
        b > 0,
    ensures
        -(b as int) <= 2 * (nearest_int(a, b) * b - a) <= b,
{
    let q = a / b;
    let r = a % b;
    assert(a == q * b + r && 0 <= r < b) by (nonlinear_arith)
        requires
            q == a / b,
            r == a % b,
            b > 0,
    ;
    assert((q + 1) * b == q * b + b) by (nonlinear_arith);
}

/// A whole number that is rounded is within half of its last place, and exact where that is less
/// than one.
proof fn lemma_rounded_whole(num: nat, m: nat, f: int)
    requires
        num > 0,
        rounds_to(num, 1, 24, m, f),
    ensures
        f < 0 ==> m == num * pow2((-f) as nat),
        f >= 0 ==> -(pow2(f as nat) as int) <= 2 * (m * pow2(f as nat) - num) <= pow2(f as nat),
{
    let k = choose|k: int| #[trigger]
        fits(num, 1, 24, k) && {
            let (a, b) = scaled(num, 1, k);
            let n = nearest_int(a, b);
            if n == pow2(24) {
                m == pow2(23) && f == k + 1
            } else {
                m == n && f == k
            }
        };
    lemma2_to64();
    let (a, b) = scaled(num, 1, k);
    let n = nearest_int(a, b);
    if k < 0 {
        assert(a / 1 == a && a % 1 == 0);
        assert(n == a);
        assert(f == k);
    } else {
        let t = pow2(k as nat);
        assert(1 * t == t);
        lemma_pow2_pos(k as nat);
        lemma_nearest(a, b);
        if f == k + 1 {
            lemma_pow2_unfold(f as nat);
            assert(m * pow2(f as nat) == n * t) by (nonlinear_arith)
                requires
                    n == 2 * m,
                    pow2(f as nat) == 2 * t,
            ;
        }
    }
}

/// Halves go up: what is rounded so is within a half.
proof fn lemma_half_up(n: nat, k: nat)
    ensures
        ({
            let v = half_up(n, -(k as int));
            -(pow2(k) as int) <= 2 * (v * pow2(k) - n) <= pow2(k)
        }),
{
    let t = pow2(k);
    lemma_pow2_pos(k);
    if k == 0 {
        lemma2_to64();
        assert(half_up(n, 0) == n) by {
            assert(n * pow2(0) == n) by (nonlinear_arith)
                requires
                    pow2(0) == 1,
            ;
        }
        assert(n * t == n) by (nonlinear_arith)
            requires
                t == 1,
        ;
    } else {
        let v = half_up(n, -(k as int));
        assert(v == (2 * n + t) / (2 * t));
        assert(2 * t * v <= 2 * n + t && 2 * n + t < 2 * t * v + 2 * t) by (nonlinear_arith)
            requires
                v == (2 * n + t) / (2 * t),
                t > 0,
        ;
        assert(2 * t * v == 2 * (v * t)) by (nonlinear_arith);
    }
}

/// The exact proportion, from the three roundings on the way to it.
proof fn lemma_proportion(
    v: int,
    q: int,
    gain: int,
    hi: int,
    m: int,
    n: int,
    big: int,
    small: int,
    part: int,
)
    by (nonlinear_arith)
    requires
        0 < hi,
        0 <= q <= 255,
        32768 <= big,
        1 <= small <= 512,
        big == small * part,
        -hi <= 2 * (m * hi - gain * big) <= hi,
        -small <= 2 * (n * small - q * m) <= small,
        -part <= 2 * (v * part - n) <= part,
    ensures
        -43 * hi <= 84 * (v * hi - q * gain) <= 43 * hi,
{
    assert(-big <= 2 * (v * big - n * small) <= big) by {
        assert((v * part - n) * small == v * big - n * small);
        assert(part * small == big);
    }
    assert(-(big + small) <= 2 * (v * big - q * m) <= big + small);
    assert(-(big + small) * hi <= 2 * (v * big - q * m) * hi <= (big + small) * hi);
    assert(-hi * q <= 2 * (m * hi - gain * big) * q <= hi * q);
    assert((v * big - q * m) * hi + (m * hi - gain * big) * q == big * (v * hi - q * gain));
    assert(-(big + small + q) * hi <= 2 * (big * (v * hi - q * gain)) <= (big + small + q) * hi);
    assert(42 * (small + q) <= big);
    assert(42 * ((big + small + q) * hi) <= 43 * (big * hi));
    assert(-43 * (big * hi) <= 84 * (big * (v * hi - q * gain)) <= 43 * (big * hi));
}

/// The quality of the gain plane goes along with that of the base: it is `q * gain / hi` to the
/// nearest whole number, but for what single precision loses, and between 1 and 100.
pub proof fn the_gain_keeps_its_proportion(q: u8, gain: u8, hi: u8) -> (v: int)
    requires
        hi > 0,
    ensures
        is_share(v, q as int, gain as int, hi as int),
        scaled_quality(q, gain, hi) == if v < 1 {
            1
        } else if v > 100 {
            100
        } else {
            v
        },
{
    let ratio = rounded(gain as nat, hi as nat, 24);
    let (m, e) = ratio;
    let product = rounded((q * m) as nat, 1, 24);
    let (n, f) = product;
    let v = half_up(n, e + f);
    lemma2_to64();
    a_ratio_rounds(gain as nat, hi as nat, 24);
    a_ratio_rounds((q * m) as nat, 1, 24);
    if gain == 0 {
        assert(m == 0 && e == 0);
        assert(q * m == 0) by (nonlinear_arith)
            requires
                m == 0,
        ;
        assert(n == 0 && f == 0);
        assert(0 * pow2(0) == 0);
        assert(v == 0);
    } else if q == 0 {
        assert(q * m == 0) by (nonlinear_arith)
            requires
                q == 0,
        ;
        assert(n == 0 && f == 0);
        exponent_is_bounded(gain as nat, hi as nat, 24, m, e, 8, 8);
        lemma_half_up(0, (-e) as nat);
        lemma_pow2_pos((-e) as nat);
        let t = pow2((-e) as nat);
        assert(v == 0) by (nonlinear_arith)
            requires
                -t <= 2 * (v * t - 0) <= t,
                t > 0,
                v >= 0,
        ;
    } else {
        exponent_is_bounded(gain as nat, hi as nat, 24, m, e, 8, 8);
        a_significand_is_full(gain as nat, hi as nat, 24, m, e);
        assert(0 < q * m < 0x100 * 0x100_0000) by (nonlinear_arith)
            requires
                0 < q < 0x100,
                0 < m < 0x100_0000,
        ;
        exponent_is_bounded((q * m) as nat, 1, 24, n, f, 32, 1);
        let big = pow2((-e) as nat);
        lemma_rounded_quotient(gain as nat, hi as nat, m, e);
        lemma_rounded_whole((q * m) as nat, n, f);
        if -e > 15 {
            lemma_pow2_strictly_increases(15, (-e) as nat);
        }
        if f >= 0 {
            let small = pow2(f as nat);
            let part = pow2((-(e + f)) as nat);
            lemma_pow2_adds(f as nat, (-(e + f)) as nat);
            lemma_pow2_pos(f as nat);
            if f < 9 {
                lemma_pow2_strictly_increases(f as nat, 9);
            }
            lemma_half_up(n, (-(e + f)) as nat);
            lemma_proportion(
                v as int,
                q as int,
                gain as int,
                hi as int,
                m as int,
                n as int,
                big as int,
                small as int,
                part as int,
            );
        } else {
            let k = (-(e + f)) as nat;
            let scale = pow2((-f) as nat);
            lemma_pow2_adds((-e) as nat, (-f) as nat);
            lemma_pow2_pos((-f) as nat);
            lemma_half_up(n, k);
            let whole = (q * m) as int;
            assert(-(big as int) <= 2 * (v * big - whole) <= big) by (nonlinear_arith)
                requires
                    pow2(k) == big * scale,
                    n == whole * scale,
                    scale > 0,
                    -(pow2(k) as int) <= 2 * (v * pow2(k) - n) <= pow2(k),
            ;
            assert(whole * 1 == whole);
            assert(big == 1 * big);
            lemma_proportion(
                v as int,
                q as int,
                gain as int,
                hi as int,
                m as int,
                whole,
                big as int,
                1,
                big as int,
            );
        }
    }
    v as int
}

/// At full quality the gain plane is of the quality that was asked for.
pub proof fn at_full_quality_the_gain_is_as_asked_for(gain: u8, hi: u8)
    requires
        hi > 0,
        1 <= gain <= 100,
    ensures
        scaled_quality(hi, gain, hi) == gain,
{
    let v = the_gain_keeps_its_proportion(hi, gain, hi);
    assert(v == gain) by (nonlinear_arith)
        requires
            -43 * hi <= 84 * (v * hi - hi * gain) <= 43 * hi,
            hi > 0,
    ;
}

} // verus!
