//! Encoder-facing contracts: which gain-map flavor to emit, and how to hit a
//! byte budget.

use vstd::arithmetic::power2::{lemma2_to64, pow2};
use vstd::prelude::*;

use crate::colour::Primaries;
use crate::meta::{GainMapMeta, GainPlane, Rgb};
use crate::opaque::{MetadataSupport, OpaqueItem};
use crate::orient::HeifTransform;
use crate::rounding::{exponent_is_bounded, power_of_two, round_ratio, rounded};

verus! {

/// Which gain-map signaling to write.
///
/// These are not interchangeable in the wild: a consumer that only knows
/// Apple's auxiliary-image convention ignores a `tmap`, and an ISO 21496-1
/// consumer ignores the Apple URN. A file that renders correctly everywhere
/// carries **both**, which is why [`Flavor::Both`] is the default.
#[derive(Clone, Copy, Debug, PartialEq, Eq, Structural)]
pub enum Flavor {
    /// `urn:com:apple:photo:2020:aux:hdrgainmap` auxiliary image, an `auxl`
    /// reference back to the base, and the MakerApple headroom tags.
    Apple,
    /// ISO 21496-1: a `tmap` derived item whose `dimg` lists the base and the
    /// gain map, carrying the C.2.2 metadata payload, plus the `tmap` brand in
    /// `ftyp`. The interoperable, vendor-neutral form.
    Iso,
    /// Both of the above over one shared gain-map image item. Costs a few hundred
    /// bytes of extra boxes and no extra pixel data.
    Both,
}

impl Default for Flavor {
    fn default() -> (f: Flavor)
        ensures
            f == Flavor::Both,
    {
        Flavor::Both
    }
}

impl Flavor {
    /// Whether Apple's signaling is written.
    pub open spec fn apple(self) -> bool {
        self is Apple || self is Both
    }

    /// Whether ISO 21496-1 signaling is written.
    pub open spec fn iso(self) -> bool {
        self is Iso || self is Both
    }

    /// Whether Apple's signaling is written.
    pub fn writes_apple(self) -> (b: bool)
        ensures
            b == self.apple(),
    {
        match self {
            Flavor::Apple | Flavor::Both => true,
            Flavor::Iso => false,
        }
    }

    /// Whether ISO 21496-1 signaling is written.
    pub fn writes_iso(self) -> (b: bool)
        ensures
            b == self.iso(),
    {
        match self {
            Flavor::Iso | Flavor::Both => true,
            Flavor::Apple => false,
        }
    }
}

/// Knobs an engine honors when muxing.
///
/// Borrows the metadata rather than owning it so the type stays `Copy`:
/// [`encode_within_budget`] derives a fresh `EncodeOptions` per quality it tries, and
/// a block that is 20 KB on an iPhone capture should not be cloned once per
/// binary-search step.
#[derive(Clone, Copy, Debug)]
pub struct EncodeOptions<'a> {
    pub flavor: Flavor,
    /// Base-image quality, `1..=100`. Engine-specific in meaning.
    pub base_quality: u8,
    /// Gain-plane quality, `1..=100`. Can run lower than the base: the plane is a
    /// smooth, low-frequency correction, and Apple ships it at half resolution for
    /// the same reason.
    pub gain_quality: u8,
    /// The source's Exif block to carry through, as a standalone TIFF structure with
    /// no `exif_tiff_header_offset` prefix. `None` writes no Exif.
    ///
    /// An engine that cannot carry it must say so rather than drop it quietly; see
    /// [`GainMapEncoder::metadata_support`].
    pub exif: Option<&'a [u8]>,
    /// The source's own XMP packet: keywords, caption, rating, IPTC, rights --
    /// everything a photographer typed rather than the camera recorded.
    ///
    /// An engine must *merge* rather than replace, since it also has a headroom packet
    /// of its own to state; [`merge_headroom_into`](crate::xmp::merge_headroom_into) is
    /// that merge. `None` means the source had none, and the engine writes only its own
    /// packet.
    pub xmp: Option<&'a [u8]>,
    /// The source's IPTC-IIM block, for a backend that needs it apart from the Exif
    /// block it also lives in.
    pub iptc: Option<&'a [u8]>,
    /// Non-image metadata items to copy through untouched, e.g. Apple's Photographic
    /// Styles plist. Empty is the norm for non-HEIF sources.
    pub opaque_items: &'a [OpaqueItem],
    /// How the stored pixels have to be transformed for display, from the source's
    /// Exif `Orientation`.
    ///
    /// No engine rotates pixels, so a rotated source stays correct only if the
    /// container says so -- and it has to say the same thing the Exif tag in the same
    /// file says.
    pub orientation: HeifTransform,
    /// The primaries of the base's pixels, which the container has to declare.
    pub primaries: Primaries,
    /// What the XMP copy of the headroom states where `alt_headroom` of the metadata is not a
    /// whole number of stops from 0 to 31: `2^alt_headroom`, a linear factor in decimal with
    /// six places.
    ///
    /// Every copy of the headroom in a file has to agree. Such a whole number of stops is
    /// written from the metadata, whatever is given here. The exponential of any other is floating
    /// point and not taken here, so an Apple flavor is not written without this text, and
    /// whoever gives it owes that it is the headroom of the very metadata the encode is given.
    pub linear_headroom: Option<&'a str>,
}

/// No items.
fn no_items<'a>() -> (s: &'a [OpaqueItem])
    ensures
        s@.len() == 0,
{
    &[]
}

impl<'a> Default for EncodeOptions<'a> {
    /// Both flavors at quality 85, and no metadata.
    fn default() -> (o: EncodeOptions<'a>)
        ensures
            o.flavor == Flavor::Both,
            o.base_quality == 85,
            o.gain_quality == 85,
            o.exif is None,
            o.xmp is None,
            o.iptc is None,
            o.opaque_items@.len() == 0,
            o.orientation == (HeifTransform { rotate_ccw_quarters: 0, mirror_axis: None }),
            o.primaries == Primaries::Bt709,
            o.linear_headroom is None,
    {
        EncodeOptions {
            flavor: Flavor::Both,
            base_quality: 85,
            gain_quality: 85,
            exif: None,
            xmp: None,
            iptc: None,
            opaque_items: no_items(),
            orientation: HeifTransform { rotate_ccw_quarters: 0, mirror_axis: None },
            primaries: Primaries::Bt709,
            linear_headroom: None,
        }
    }
}

/// A backend that can mux a base image plus a gain map into one container.
///
/// Backends share this so their outputs can be compared with each other and with an
/// iPhone reference file.
pub trait GainMapEncoder {
    type Error;

    /// Label for logs and benchmark tables, e.g. `"apple-imageio"`.
    fn name(&self) -> &'static str;

    /// Which of [`EncodeOptions`]' metadata fields this backend actually writes.
    ///
    /// Defaults to [`MetadataSupport::none`] so a backend has to claim each capability
    /// rather than inherit it. The point is that a caller can tell the user what was
    /// dropped, instead of a field being silently ignored by an engine that never
    /// looked at it.
    fn metadata_support(&self) -> (m: MetadataSupport)
        default_ensures
            m == MetadataSupport::each(false),
    {
        MetadataSupport::none()
    }

    fn encode(
        &self,
        base: &Rgb,
        gain: &GainPlane,
        meta: &GainMapMeta,
        opts: &EncodeOptions,
    ) -> Result<Vec<u8>, Self::Error>;
}

/// Outcome of a budgeted encode.
#[derive(Debug)]
pub struct Budgeted {
    pub bytes: Vec<u8>,
    /// The `base_quality` that produced `bytes`.
    pub quality: u8,
    /// How many encodes the search ran.
    pub attempts: u32,
    /// Whether `bytes.len() <= max_bytes`. False means even `min_quality` overshot,
    /// and `bytes` is the smallest output found -- the caller decides whether to
    /// downscale or fail.
    pub within_budget: bool,
}

/// `n * 2^k` to the nearest integer, halves away from zero.
pub open spec fn half_up(n: nat, k: int) -> nat {
    if k >= 0 {
        n * pow2(k as nat)
    } else {
        (2 * n + pow2((-k) as nat)) / (2 * pow2((-k) as nat))
    }
}

/// The gain quality that goes with base quality `q`, when `gain` goes with `hi`: the
/// quotient and the product in single precision, to the nearest integer and into
/// `1..=100`.
pub open spec fn scaled_quality(q: u8, gain: u8, hi: u8) -> u8 {
    let ratio = rounded(gain as nat, hi as nat, 24);
    let product = rounded((q * ratio.0) as nat, 1, 24);
    let v = half_up(product.0, ratio.1 + product.1);
    if v < 1 {
        1
    } else if v > 100 {
        100
    } else {
        v as u8
    }
}

/// The gain quality that goes with base quality `q`.
fn scale_quality(q: u8, gain: u8, hi: u8) -> (r: u8)
    requires
        hi > 0,
    ensures
        r == scaled_quality(q, gain, hi),
{
    let (m, e) = round_ratio(gain as u128, hi as u128, 24);
    proof {
        lemma2_to64();
        if gain > 0 {
            exponent_is_bounded(gain as nat, hi as nat, 24, m as nat, e as int, 8, 8);
        }
        assert(-32 < e <= 0);
        assert(m < 0x100_0000);
        assert(q * m <= 0xff * 0x100_0000) by (nonlinear_arith)
            requires
                q <= 0xff,
                m < 0x100_0000,
        ;
    }
    let (n, f) = round_ratio(q as u128 * m as u128, 1, 24);
    proof {
        if q * m > 0 {
            exponent_is_bounded((q * m) as nat, 1, 24, n as nat, f as int, 32, 1);
        }
        assert(-25 < f <= 9);
        assert(n < 0x100_0000);
    }
    let k: i32 = e + f;
    let v: u64 = if k >= 0 {
        let t: u64 = power_of_two(k as u32);
        proof {
            lemma_small_power(k as nat, 9);
            assert(n * t <= 0x100_0000 * 0x200) by (nonlinear_arith)
                requires
                    n < 0x100_0000,
                    t <= 0x200,
            ;
        }
        n * t
    } else {
        let t: u64 = power_of_two((-k) as u32);
        (2 * n + t) / (2 * t)
    };
    if v < 1 {
        1
    } else if v > 100 {
        100
    } else {
        v as u8
    }
}

proof fn lemma_small_power(k: nat, most: nat)
    requires
        k <= most,
    ensures
        pow2(k) <= pow2(most),
{
    if k < most {
        vstd::arithmetic::power2::lemma_pow2_strictly_increases(k, most);
    }
}

/// The options for one quality of the search, which starts from `hi`.
pub open spec fn at_quality<'a>(opts: EncodeOptions<'a>, hi: u8, q: u8) -> EncodeOptions<'a> {
    EncodeOptions {
        base_quality: q,
        gain_quality: scaled_quality(q, opts.gain_quality, hi),
        ..opts
    }
}

/// The highest quality the search tries.
pub open spec fn top_quality(opts: EncodeOptions) -> u8 {
    if opts.base_quality > 1 {
        opts.base_quality
    } else {
        1
    }
}

/// The lowest quality the search tries.
pub open spec fn floor_quality(opts: EncodeOptions, min_quality: u8) -> u8 {
    if min_quality < 1 {
        1
    } else if min_quality > top_quality(opts) {
        top_quality(opts)
    } else {
        min_quality
    }
}

/// What the search settles on.
pub struct Found {
    pub quality: u8,
    pub attempts: int,
    pub within_budget: bool,
}

/// The bisection between `lo`, which fits, and `hi`, which does not, when quality `q`
/// takes `f(q)` bytes or fails.
pub open spec fn bisected<X>(
    f: spec_fn(u8) -> Result<nat, X>,
    max: nat,
    lo: u8,
    hi: u8,
    attempts: int,
) -> Result<Found, X>
    decreases hi - lo,
{
    if hi - lo <= 1 {
        Ok(Found { quality: lo, attempts, within_budget: true })
    } else {
        let mid = (lo + (hi - lo) / 2) as u8;
        match f(mid) {
            Err(e) => Err(e),
            Ok(n) => if n <= max {
                bisected(f, max, mid, hi, attempts + 1)
            } else {
                bisected(f, max, lo, mid, attempts + 1)
            },
        }
    }
}

/// The whole search: full quality first, then the floor, then the bisection between.
pub open spec fn searched<X>(f: spec_fn(u8) -> Result<nat, X>, max: nat, lo: u8, hi: u8) -> Result<
    Found,
    X,
> {
    match f(hi) {
        Err(e) => Err(e),
        Ok(n) => if n <= max {
            Ok(Found { quality: hi, attempts: 1, within_budget: true })
        } else {
            match f(lo) {
                Err(e) => Err(e),
                Ok(k) => if k > max {
                    Ok(Found { quality: lo, attempts: 2, within_budget: false })
                } else {
                    bisected(f, max, lo, hi, 2)
                },
            }
        },
    }
}

/// `r` is how the engine may answer when asked for quality `q`.
pub open spec fn may_answer<E: GainMapEncoder>(
    engine: &E,
    base: &Rgb,
    gain: &GainPlane,
    meta: &GainMapMeta,
    opts: EncodeOptions,
    q: u8,
    r: Result<Vec<u8>, E::Error>,
) -> bool {
    call_ensures(
        E::encode,
        (engine, base, gain, meta, &at_quality(opts, top_quality(opts), q)),
        r,
    )
}

/// `e` is how the engine may fail at some quality of the search.
pub open spec fn may_fail<E: GainMapEncoder>(
    engine: &E,
    base: &Rgb,
    gain: &GainPlane,
    meta: &GainMapMeta,
    opts: EncodeOptions,
    lo: u8,
    e: E::Error,
) -> bool {
    exists|q: u8|
        lo <= q <= top_quality(opts) && #[trigger] may_answer(
            engine,
            base,
            gain,
            meta,
            opts,
            q,
            Err(e),
        )
}

/// `f` says how the engine answers at each quality: with how many bytes, or with which
/// error.
pub open spec fn answers_as<E: GainMapEncoder>(
    engine: &E,
    base: &Rgb,
    gain: &GainPlane,
    meta: &GainMapMeta,
    opts: EncodeOptions,
    f: spec_fn(u8) -> Result<nat, E::Error>,
) -> bool {
    forall|q: u8, r: Result<Vec<u8>, E::Error>| #[trigger]
        may_answer(engine, base, gain, meta, opts, q, r) ==> match r {
            Ok(v) => f(q) == Ok::<nat, E::Error>(v@.len()),
            Err(e) => f(q) == Err::<nat, E::Error>(e),
        }
}

/// Whether a call of the engine gave something that fits.
pub open spec fn fits<X>(call: (u8, Result<Vec<u8>, X>), max: nat) -> bool {
    call.1 matches Ok(v) && v@.len() <= max
}

/// The quality between two.
pub open spec fn middle(open: (u8, u8)) -> u8 {
    (open.0 + (open.1 - open.0) / 2) as u8
}

/// What the calls of a bisection that starts between `lo` and `hi` leave: the highest
/// quality that fitted, and the lowest that did not.
pub open spec fn left_open<X>(
    calls: Seq<(u8, Result<Vec<u8>, X>)>,
    max: nat,
    lo: u8,
    hi: u8,
) -> (u8, u8)
    decreases calls.len(),
{
    if calls.len() == 0 {
        (lo, hi)
    } else {
        let open = left_open(calls.drop_last(), max, lo, hi);
        if fits(calls.last(), max) {
            (calls.last().0, open.1)
        } else {
            (open.0, calls.last().0)
        }
    }
}

/// Whether call `k` of a bisection is for the quality halfway between what the calls
/// before it left.
pub open spec fn halves<X>(
    calls: Seq<(u8, Result<Vec<u8>, X>)>,
    max: nat,
    lo: u8,
    hi: u8,
    k: int,
) -> bool {
    let open = left_open(calls.take(k), max, lo, hi);
    open.1 - open.0 > 1 && calls[k].0 == middle(open)
}

/// Whether each call of a bisection is for the quality halfway between what the calls
/// before it left.
pub open spec fn bisects<X>(
    calls: Seq<(u8, Result<Vec<u8>, X>)>,
    max: nat,
    lo: u8,
    hi: u8,
) -> bool {
    forall|k: int| 0 <= k < calls.len() ==> #[trigger] halves(calls, max, lo, hi, k)
}

/// Whether these are calls of the search, in their order: full quality, then the floor when
/// that does not fit, then a bisection when the floor does. No call follows one that failed.
pub open spec fn in_turn<X>(
    calls: Seq<(u8, Result<Vec<u8>, X>)>,
    max: nat,
    lo: u8,
    hi: u8,
) -> bool {
    &&& calls.len() >= 1
    &&& calls[0].0 == hi
    &&& calls.len() >= 2 ==> calls[1].0 == lo && !fits(calls[0], max)
    &&& calls.len() >= 3 ==> fits(calls[1], max) && bisects(calls.skip(2), max, lo, hi)
    &&& forall|k: int| 0 <= k < calls.len() - 1 ==> (#[trigger] calls[k]).1 is Ok
    &&& forall|k: int| 0 <= k < calls.len() ==> lo <= (#[trigger] calls[k]).0 <= hi
}

/// Whether the search is over after these calls, and this is what it gives: the failure of
/// the last call, or the answer to the call that settles it.
pub open spec fn settles<X>(
    calls: Seq<(u8, Result<Vec<u8>, X>)>,
    max: nat,
    lo: u8,
    hi: u8,
    r: Result<Budgeted, X>,
) -> bool {
    match r {
        Err(e) => calls.last().1 == Err::<Vec<u8>, X>(e),
        Ok(b) => {
            &&& b.attempts == calls.len()
            &&& calls.contains((b.quality, Ok(b.bytes)))
            &&& if calls.len() == 1 {
                fits(calls[0], max) && b.quality == hi && b.within_budget
            } else if calls.len() == 2 && !fits(calls[1], max) {
                b.quality == lo && !b.within_budget
            } else {
                let open = left_open(calls.skip(2), max, lo, hi);
                open.1 - open.0 <= 1 && b.quality == open.0 && b.within_budget
            }
        },
    }
}

/// Whether the search made these calls of the engine, each with the planes and the metadata
/// as they are and the options for its quality, and gives `r`.
pub open spec fn search_ran<E: GainMapEncoder>(
    engine: &E,
    base: &Rgb,
    gain: &GainPlane,
    meta: &GainMapMeta,
    opts: EncodeOptions,
    max: nat,
    lo: u8,
    calls: Seq<(u8, Result<Vec<u8>, E::Error>)>,
    r: Result<Budgeted, E::Error>,
) -> bool {
    &&& forall|k: int|
        0 <= k < calls.len() ==> may_answer(
            engine,
            base,
            gain,
            meta,
            opts,
            (#[trigger] calls[k]).0,
            calls[k].1,
        )
    &&& in_turn(calls, max, lo, top_quality(opts))
    &&& settles(calls, max, lo, top_quality(opts), r)
}

/// One more call of a bisection.
proof fn lemma_bisects<X>(
    calls: Seq<(u8, Result<Vec<u8>, X>)>,
    max: nat,
    lo: u8,
    hi: u8,
    call: (u8, Result<Vec<u8>, X>),
)
    requires
        bisects(calls, max, lo, hi),
        ({
            let open = left_open(calls, max, lo, hi);
            open.1 - open.0 > 1 && call.0 == middle(open)
        }),
    ensures
        bisects(calls.push(call), max, lo, hi),
        left_open(calls.push(call), max, lo, hi) == {
            let open = left_open(calls, max, lo, hi);
            if fits(call, max) {
                (call.0, open.1)
            } else {
                (open.0, call.0)
            }
        },
{
    let more = calls.push(call);
    assert(more.drop_last() =~= calls);
    assert forall|k: int| 0 <= k < more.len() implies #[trigger] halves(more, max, lo, hi, k) by {
        if k < calls.len() {
            assert(halves(calls, max, lo, hi, k));
            assert(more.take(k) =~= calls.take(k));
        } else {
            assert(more.take(k) =~= calls);
        }
    }
}

/// Encodes at one quality of the search.
fn run<E: GainMapEncoder>(
    engine: &E,
    base: &Rgb,
    gain: &GainPlane,
    meta: &GainMapMeta,
    opts: &EncodeOptions,
    hi: u8,
    q: u8,
) -> (r: Result<Vec<u8>, E::Error>)
    requires
        hi == top_quality(*opts),
    ensures
        may_answer(engine, base, gain, meta, *opts, q, r),
{
    let o = EncodeOptions {
        base_quality: q,
        gain_quality: scale_quality(q, opts.gain_quality, hi),
        ..*opts
    };
    engine.encode(base, gain, meta, &o)
}

/// Encodes the largest-quality output that still fits in `max_bytes`.
///
/// Binary-searches `base_quality` over `min_quality..=opts.base_quality`, carrying
/// `gain_quality` along proportionally so the plane does not stay expensive while the
/// base is starved.
///
/// # Monotonicity assumption
///
/// Binary search is only correct if output size is non-decreasing in quality. That
/// holds in practice but is not guaranteed by any codec: a quantizer step can
/// occasionally cost bytes elsewhere. The consequence of a local inversion is a
/// slightly suboptimal quality pick, never an over-budget result, because every
/// returned candidate is one whose measured size was checked directly -- the search
/// never extrapolates.
pub fn encode_within_budget<E: GainMapEncoder>(
    engine: &E,
    base: &Rgb,
    gain: &GainPlane,
    meta: &GainMapMeta,
    opts: &EncodeOptions,
    max_bytes: u64,
    min_quality: u8,
) -> (r: Result<Budgeted, E::Error>)
    ensures
        match r {
            Ok(b) => {
                &&& may_answer(engine, base, gain, meta, *opts, b.quality, Ok(b.bytes))
                &&& floor_quality(*opts, min_quality) <= b.quality <= top_quality(*opts)
                &&& b.within_budget == (b.bytes@.len() <= max_bytes)
                &&& !b.within_budget ==> b.quality == floor_quality(*opts, min_quality)
            },
            Err(e) => may_fail(
                engine,
                base,
                gain,
                meta,
                *opts,
                floor_quality(*opts, min_quality),
                e,
            ),
        },
        forall|f: spec_fn(u8) -> Result<nat, E::Error>|
            #![trigger answers_as(engine, base, gain, meta, *opts, f)]
            answers_as(engine, base, gain, meta, *opts, f) ==> match r {
                Ok(b) => searched(
                    f,
                    max_bytes as nat,
                    floor_quality(*opts, min_quality),
                    top_quality(*opts),
                ) == Ok::<Found, E::Error>(
                    Found {
                        quality: b.quality,
                        attempts: b.attempts as int,
                        within_budget: b.within_budget,
                    },
                ),
                Err(e) => searched(
                    f,
                    max_bytes as nat,
                    floor_quality(*opts, min_quality),
                    top_quality(*opts),
                ) == Err::<Found, E::Error>(e),
            },
        exists|calls: Seq<(u8, Result<Vec<u8>, E::Error>)>| #[trigger]
            search_ran(
                engine,
                base,
                gain,
                meta,
                *opts,
                max_bytes as nat,
                floor_quality(*opts, min_quality),
                calls,
                r,
            ),
{
    let hi_q: u8 = if opts.base_quality > 1 {
        opts.base_quality
    } else {
        1
    };
    let lo_q: u8 = if min_quality < 1 {
        1
    } else if min_quality > hi_q {
        hi_q
    } else {
        min_quality
    };
    let ghost max = max_bytes as nat;
    // Full quality first: the common case is that it already fits, and that costs one
    // encode instead of log2(range).
    let x = run(engine, base, gain, meta, opts, hi_q, hi_q);
    let ghost mut calls: Seq<(u8, Result<Vec<u8>, E::Error>)> = seq![(hi_q, x)];
    let full = match x {
        Ok(v) => v,
        Err(e) => {
            assert(may_answer(engine, base, gain, meta, *opts, hi_q, Err(e)));
            let r = Err(e);
            assert(search_ran(engine, base, gain, meta, *opts, max, lo_q, calls, r));
            return r;
        },
    };
    if full.len() as u64 <= max_bytes {
        let r = Ok(Budgeted { bytes: full, quality: hi_q, attempts: 1, within_budget: true });
        assert(calls[0] == (hi_q, Ok::<Vec<u8>, E::Error>(full)));
        assert(search_ran(engine, base, gain, meta, *opts, max, lo_q, calls, r));
        return r;
    }
    // Nothing fits below the floor either -> report the floor's output as the smallest
    // there is, rather than silently shipping something oversized at a higher quality.
    let x = run(engine, base, gain, meta, opts, hi_q, lo_q);
    proof {
        calls = calls.push((lo_q, x));
    }
    let floor = match x {
        Ok(v) => v,
        Err(e) => {
            assert(may_answer(engine, base, gain, meta, *opts, lo_q, Err(e)));
            let r = Err(e);
            assert(search_ran(engine, base, gain, meta, *opts, max, lo_q, calls, r));
            return r;
        },
    };
    assert(calls[1] == (lo_q, Ok::<Vec<u8>, E::Error>(floor)));
    if floor.len() as u64 > max_bytes {
        let r = Ok(Budgeted { bytes: floor, quality: lo_q, attempts: 2, within_budget: false });
        assert(search_ran(engine, base, gain, meta, *opts, max, lo_q, calls, r));
        return r;
    }
    let mut best = floor;
    let mut lo: u8 = lo_q;
    let mut hi: u8 = hi_q;
    let mut attempts: u32 = 2;
    assert(calls.skip(2) =~= seq![]);
    while hi - lo > 1
        invariant
            lo_q <= lo <= hi <= hi_q,
            hi_q == top_quality(*opts),
            lo_q == floor_quality(*opts, min_quality),
            max == max_bytes,
            attempts + (hi - lo) <= 300,
            best@.len() <= max_bytes,
            may_answer(engine, base, gain, meta, *opts, lo, Ok(best)),
            forall|f: spec_fn(u8) -> Result<nat, E::Error>|
                #![trigger answers_as(engine, base, gain, meta, *opts, f)]
                answers_as(engine, base, gain, meta, *opts, f) ==> searched(
                    f,
                    max_bytes as nat,
                    lo_q,
                    hi_q,
                ) == bisected(f, max_bytes as nat, lo, hi, attempts as int),
            calls.len() == attempts,
            calls.len() >= 2,
            calls[0].0 == hi_q,
            calls[1].0 == lo_q,
            !fits(calls[0], max),
            fits(calls[1], max),
            bisects(calls.skip(2), max, lo_q, hi_q),
            left_open(calls.skip(2), max, lo_q, hi_q) == (lo, hi),
            calls.contains((lo, Ok(best))),
            forall|k: int|
                0 <= k < calls.len() ==> (#[trigger] calls[k]).1 is Ok && lo_q <= calls[k].0 <= hi_q
                    && may_answer(engine, base, gain, meta, *opts, calls[k].0, calls[k].1),
        decreases hi - lo,
    {
        let mid: u8 = lo + (hi - lo) / 2;
        let x = run(engine, base, gain, meta, opts, hi_q, mid);
        let ghost before = calls;
        proof {
            calls = calls.push((mid, x));
            lemma_bisects(before.skip(2), max, lo_q, hi_q, (mid, x));
            assert(calls.skip(2) =~= before.skip(2).push((mid, x)));
            let j = before.index_of((lo, Ok(best)));
            assert(calls[j] == before[j]);
            assert(calls[before.len() as int] == (mid, x));
        }
        let out = match x {
            Ok(v) => v,
            Err(e) => {
                assert(may_answer(engine, base, gain, meta, *opts, mid, Err(e)));
                let r = Err(e);
                assert(search_ran(engine, base, gain, meta, *opts, max, lo_q, calls, r));
                return r;
            },
        };
        attempts = attempts + 1;
        if out.len() as u64 <= max_bytes {
            best = out;
            lo = mid;
        } else {
            hi = mid;
        }
    }
    let r = Ok(Budgeted { bytes: best, quality: lo, attempts, within_budget: true });
    assert(search_ran(engine, base, gain, meta, *opts, max, lo_q, calls, r));
    r
}

/// Sizes that do not shrink as quality grows.
pub open spec fn grows(sizes: spec_fn(u8) -> nat, lo: u8, hi: u8) -> bool {
    forall|a: u8, b: u8| lo <= a <= b <= hi ==> #[trigger] sizes(a) <= #[trigger] sizes(b)
}

proof fn lemma_bisected_is_optimal<X>(
    sizes: spec_fn(u8) -> nat,
    f: spec_fn(u8) -> Result<nat, X>,
    max: nat,
    lo: u8,
    hi: u8,
    attempts: int,
)
    requires
        lo < hi,
        grows(sizes, lo, hi),
        forall|q: u8| #[trigger] f(q) == Ok::<nat, X>(sizes(q)),
        sizes(lo) <= max,
        sizes(hi) > max,
    ensures
        bisected(f, max, lo, hi, attempts) matches Ok(r) && r.within_budget && lo <= r.quality < hi
            && sizes(r.quality) <= max && sizes((r.quality + 1) as u8) > max,
    decreases hi - lo,
{
    if hi - lo > 1 {
        let mid = (lo + (hi - lo) / 2) as u8;
        assert(f(mid) == Ok::<nat, X>(sizes(mid)));
        if sizes(mid) <= max {
            lemma_bisected_is_optimal(sizes, f, max, mid, hi, attempts + 1);
        } else {
            lemma_bisected_is_optimal(sizes, f, max, lo, mid, attempts + 1);
        }
    }
}

/// With sizes that do not shrink as quality grows, the search finds the highest
/// quality that fits, and reports that none does only when none does.
pub proof fn the_search_is_optimal<X>(
    sizes: spec_fn(u8) -> nat,
    f: spec_fn(u8) -> Result<nat, X>,
    max: nat,
    lo: u8,
    hi: u8,
)
    requires
        lo <= hi,
        grows(sizes, lo, hi),
        forall|q: u8| #[trigger] f(q) == Ok::<nat, X>(sizes(q)),
    ensures
        searched(f, max, lo, hi) matches Ok(r) && lo <= r.quality <= hi && if r.within_budget {
            sizes(r.quality) <= max && forall|q: u8|
                r.quality < q <= hi ==> #[trigger] sizes(q) > max
        } else {
            forall|q: u8| lo <= q <= hi ==> #[trigger] sizes(q) > max
        },
{
    assert(f(hi) == Ok::<nat, X>(sizes(hi)));
    assert(f(lo) == Ok::<nat, X>(sizes(lo)));
    if sizes(hi) > max && sizes(lo) <= max {
        lemma_bisected_is_optimal(sizes, f, max, lo, hi, 2);
        let r = bisected(f, max, lo, hi, 2)->Ok_0;
        let next = (r.quality + 1) as u8;
        assert forall|q: u8| r.quality < q <= hi implies #[trigger] sizes(q) > max by {
            assert(sizes(next) <= sizes(q));
        }
    } else if sizes(hi) > max {
        assert forall|q: u8| lo <= q <= hi implies #[trigger] sizes(q) > max by {
            assert(sizes(lo) <= sizes(q));
        }
    }
}

} // verus!
