//! `hpvca` configuration and pixel packing.
//!
//! Both the base and the gain plane are encoded with [`Parallelism::TilesWpp`]: it
//! saturates cores exactly like a gridded encode while still producing one coded image
//! item (no HEIF `grid`, no `iref`).
//! [`HeifFile::coded_image`](crate::heif::HeifFile::coded_image) refuses a `grid` item,
//! because reassembling tiles into one coded image is a re-encode, not a remux.
//!
//! The gain plane does not go through `hpvca`'s gray entry points: those force a grid
//! for any plane wider or taller than 512 pixels whatever the strategy. It goes
//! through the planar one, as a monochrome picture.

use hpvca::{BitDepth, ChromaFormat, EncodeConfig, EncodeError, ParallelismStrategy, Yuv};
use vstd::prelude::*;

use crate::colour::Primaries;
use crate::heif::engine::{coded_image_from_heic, PlaneCodec};
use crate::heif::model::{coded_of, data_of, file_of, ColourView};
use crate::heif::{Chroma, CodedImage, CodedView, ColourInfo};
use crate::meta::{GainPlane, Rgb};
use crate::portable::{from_engine, Error};

verus! {

/// `hpvca`'s error.
#[verifier::external_type_specification]
#[verifier::external_body]
pub struct ExEncodeError(EncodeError);

/// `hpvca`'s settings.
#[verifier::external_type_specification]
#[verifier::external_body]
pub struct ExEncodeConfig(EncodeConfig);

/// From this `base_quality` on, encode 4:4:4 instead of 4:2:0.
///
/// 4:4:4 avoids chroma-subsampling loss but roughly doubles chroma bits, so it only
/// pays for itself once quality is high enough that those bits would otherwise go
/// mostly unused by heavy quantization anyway.
pub const YUV444_QUALITY_THRESHOLD: u8 = 95;

/// How a picture is split up for encoding.
#[derive(Clone, Copy, Debug, PartialEq, Eq, Structural)]
pub enum Parallelism {
    /// One image, HEVC tiles plus wavefronts.
    TilesWpp,
    /// A HEIF grid of independent images.
    Grid,
}

/// What the codec is told besides the pixels.
#[derive(Clone, Copy, Debug, PartialEq, Eq, Structural)]
pub struct Settings {
    pub quality: u8,
    pub parallelism: Parallelism,
    pub chroma: Chroma,
    pub sao: bool,
}

/// The largest side the codec takes.
pub const MAX_SIDE: u32 = 16384;

/// Dimensions the codec takes.
pub open spec fn sides_fit(width: u32, height: u32) -> bool {
    1 <= width <= MAX_SIDE && 1 <= height <= MAX_SIDE
}

/// `hpvca::EncodeConfig` with its `with_*` setters for some settings, everything else at
/// its default. What it holds is opaque here.
#[verifier::external_body]
fn config(s: Settings) -> EncodeConfig {
    let strategy = match s.parallelism {
        Parallelism::TilesWpp => ParallelismStrategy::TilesWpp,
        Parallelism::Grid => ParallelismStrategy::Grid,
    };
    let chroma = match s.chroma {
        Chroma::Monochrome => ChromaFormat::Monochrome,
        Chroma::Yuv420 => ChromaFormat::Yuv420,
        Chroma::Yuv422 => ChromaFormat::Yuv422,
        Chroma::Yuv444 => ChromaFormat::Yuv444,
    };
    let c = EncodeConfig::default().with_quality(s.quality).with_parallelism(strategy);
    c.with_chroma(chroma).with_sao(s.sao)
}

/// `hpvca::encode_rgb`: refuses dimensions outside `1..=16384` and a buffer of the
/// wrong length. What else is refused depends on the settings, and which bytes come out of a
/// success on the number of hardware threads as well: neither is stated.
#[verifier::external_body]
fn encode_rgb8(rgb: &[u8], width: u32, height: u32, c: &EncodeConfig) -> (r: Result<
    Vec<u8>,
    EncodeError,
>)
    ensures
        !sides_fit(width, height) || rgb@.len() != width * height * 3 ==> r is Err,
{
    hpvca::encode_rgb(rgb, width, height, c)
}

/// `hpvca::encode_rgb10`: refuses dimensions outside `1..=16384` and a buffer of the
/// wrong length. What else is refused depends on the settings, and which bytes come out of a
/// success on the number of hardware threads as well: neither is stated.
#[verifier::external_body]
fn encode_rgb10(rgb: &[u16], width: u32, height: u32, c: &EncodeConfig) -> (r: Result<
    Vec<u8>,
    EncodeError,
>)
    ensures
        !sides_fit(width, height) || rgb@.len() != width * height * 3 ==> r is Err,
{
    hpvca::encode_rgb10(rgb, width, height, c)
}

/// `hpvca::encode_rgb12`: refuses dimensions outside `1..=16384` and a buffer of the
/// wrong length. What else is refused depends on the settings, and which bytes come out of a
/// success on the number of hardware threads as well: neither is stated.
#[verifier::external_body]
fn encode_rgb12(rgb: &[u16], width: u32, height: u32, c: &EncodeConfig) -> (r: Result<
    Vec<u8>,
    EncodeError,
>)
    ensures
        !sides_fit(width, height) || rgb@.len() != width * height * 3 ==> r is Err,
{
    hpvca::encode_rgb12(rgb, width, height, c)
}

/// `hpvca::encode_yuv` on the picture that `hpvca::Yuv::from_planes` makes of one 8-bit
/// luma plane and no chroma: refuses dimensions outside `1..=16384` and a plane of the
/// wrong length. What else is refused depends on the settings, and which bytes come out of
/// a success on the number of hardware threads as well: neither is stated.
#[verifier::external_body]
fn encode_mono(y: Vec<u16>, width: u32, height: u32, c: &EncodeConfig) -> (r: Result<
    Vec<u8>,
    EncodeError,
>)
    requires
        width * height <= usize::MAX,
    ensures
        !sides_fit(width, height) || y@.len() != width * height ==> r is Err,
{
    let mono = ChromaFormat::Monochrome;
    match Yuv::from_planes(y, Vec::new(), Vec::new(), width, height, mono, BitDepth::Eight) {
        Ok(picture) => hpvca::encode_yuv(&picture, c),
        Err(e) => Err(e),
    }
}

/// `hpvca::EncodeError::InvalidInput`.
#[verifier::external_body]
fn invalid_input() -> EncodeError {
    EncodeError::InvalidInput
}

/// The `Display` text of an `hpvca::EncodeError`. What it says is not stated.
#[verifier::external_body]
fn error_text(e: &EncodeError) -> String {
    e.to_string()
}

/// `text` is how the codec tells of a failure.
pub closed spec fn is_told(e: EncodeError, text: String) -> bool {
    call_ensures(error_text, (&e,), text)
}

/// How the codec tells of a failure.
pub(crate) fn tell(e: &EncodeError) -> (text: String)
    ensures
        is_told(*e, text),
{
    error_text(e)
}

/// Picks 4:4:4 over 4:2:0 for the base image once quality is high enough that chroma
/// subsampling would be the visible bottleneck.
pub fn choose_base_chroma(base_quality: u8) -> (c: Chroma)
    ensures
        c == if base_quality >= YUV444_QUALITY_THRESHOLD {
            Chroma::Yuv444
        } else {
            Chroma::Yuv420
        },
{
    if base_quality >= YUV444_QUALITY_THRESHOLD {
        Chroma::Yuv444
    } else {
        Chroma::Yuv420
    }
}

/// The settings for a quality: that quality in `1..=100`, one image item, and no sample
/// adaptive offset, which costs much time and saves no bytes here.
pub open spec fn settings_of(quality: u8, chroma: Chroma) -> Settings {
    Settings {
        quality: if quality < 1 {
            1
        } else if quality > 100 {
            100
        } else {
            quality
        },
        parallelism: Parallelism::TilesWpp,
        chroma,
        sao: false,
    }
}

/// The settings for a quality.
pub fn config_for(quality: u8, chroma: Chroma) -> (s: Settings)
    ensures
        s == settings_of(quality, chroma),
{
    Settings {
        quality: if quality < 1 {
            1
        } else if quality > 100 {
            100
        } else {
            quality
        },
        parallelism: Parallelism::TilesWpp,
        chroma,
        sao: false,
    }
}

/// Samples narrowed to eight bits.
pub open spec fn narrowed(data: Seq<u16>) -> Seq<u8> {
    Seq::new(data.len(), |i: int| (data[i] % 256) as u8)
}

/// Samples widened to sixteen bits.
pub open spec fn widened(data: Seq<u8>) -> Seq<u16> {
    Seq::new(data.len(), |i: int| data[i] as u16)
}

/// Narrows samples to eight bits, as an 8-bit encoder wants them. Loses nothing of
/// samples that are at most 255.
pub fn narrow(data: &[u16]) -> (v: Vec<u8>)
    ensures
        v@ == narrowed(data@),
{
    let mut v: Vec<u8> = Vec::new();
    let mut i: usize = 0;
    while i < data.len()
        invariant
            i <= data@.len(),
            v@.len() == i,
            forall|k: int| 0 <= k < i ==> #[trigger] v@[k] == (data@[k] % 256) as u8,
        decreases data@.len() - i,
    {
        v.push((data[i] % 256) as u8);
        i = i + 1;
    }
    assert(v@ =~= narrowed(data@));
    v
}

/// Widens samples to sixteen bits.
pub fn widen(data: &[u8]) -> (v: Vec<u16>)
    ensures
        v@ == widened(data@),
{
    let mut v: Vec<u16> = Vec::new();
    let mut i: usize = 0;
    while i < data.len()
        invariant
            i <= data@.len(),
            v@.len() == i,
            forall|k: int| 0 <= k < i ==> #[trigger] v@[k] == data@[k] as u16,
        decreases data@.len() - i,
    {
        v.push(data[i] as u16);
        i = i + 1;
    }
    assert(v@ =~= widened(data@));
    v
}

/// The settings the base is encoded with.
pub open spec fn base_settings(quality: u8) -> Settings {
    settings_of(
        quality,
        if quality >= YUV444_QUALITY_THRESHOLD {
            Chroma::Yuv444
        } else {
            Chroma::Yuv420
        },
    )
}

/// The settings the gain plane is encoded with.
pub open spec fn gain_settings(quality: u8) -> Settings {
    settings_of(quality, Chroma::Monochrome)
}

spec fn configured(s: Settings, c: EncodeConfig) -> bool {
    call_ensures(config, (s,), c)
}

spec fn answered8(p: &[u8], base: Rgb, c: EncodeConfig, r: Result<Vec<u8>, EncodeError>) -> bool {
    call_ensures(encode_rgb8, (p, base.width, base.height, &c), r)
}

spec fn answered10(p: &[u16], base: Rgb, c: EncodeConfig, r: Result<Vec<u8>, EncodeError>) -> bool {
    call_ensures(encode_rgb10, (p, base.width, base.height, &c), r)
}

spec fn answered12(p: &[u16], base: Rgb, c: EncodeConfig, r: Result<Vec<u8>, EncodeError>) -> bool {
    call_ensures(encode_rgb12, (p, base.width, base.height, &c), r)
}

spec fn answered_mono(
    y: Vec<u16>,
    gain: GainPlane,
    c: EncodeConfig,
    r: Result<Vec<u8>, EncodeError>,
) -> bool {
    call_ensures(encode_mono, (y, gain.width, gain.height, &c), r)
}

/// `r` is how the codec answered when it was handed the base with the settings for a
/// quality: narrowed samples at eight bits, the samples as they are at ten and twelve.
pub closed spec fn base_handed_over(base: Rgb, quality: u8, r: Result<Vec<u8>, EncodeError>) -> bool {
    if base.bits == 8 {
        exists|p: &[u8], c: EncodeConfig|
            p@ == narrowed(base.data@) && configured(base_settings(quality), c)
                && #[trigger] answered8(p, base, c, r)
    } else if base.bits == 10 {
        exists|p: &[u16], c: EncodeConfig|
            p@ == base.data@ && configured(base_settings(quality), c) && #[trigger] answered10(
                p,
                base,
                c,
                r,
            )
    } else if base.bits == 12 {
        exists|p: &[u16], c: EncodeConfig|
            p@ == base.data@ && configured(base_settings(quality), c) && #[trigger] answered12(
                p,
                base,
                c,
                r,
            )
    } else {
        r is Err
    }
}

/// `r` is how the codec answered when it was handed the gain plane as one monochrome
/// picture, with the settings for a quality.
pub closed spec fn gain_handed_over(
    gain: GainPlane,
    quality: u8,
    r: Result<Vec<u8>, EncodeError>,
) -> bool {
    if gain.data@.len() != gain.width * gain.height {
        r is Err
    } else {
        exists|y: Vec<u16>, c: EncodeConfig|
            y@ == widened(gain.data@) && configured(gain_settings(quality), c)
                && #[trigger] answered_mono(y, gain, c, r)
    }
}

/// Encodes the SDR base as a single-item HEIC.
///
/// The codec takes exactly 8-, 10- and 12-bit RGB; any other depth is refused.
pub fn encode_base_heic(base: &Rgb, quality: u8) -> (r: Result<Vec<u8>, EncodeError>)
    ensures
        base_handed_over(*base, quality, r),
        base.bits != 8 && base.bits != 10 && base.bits != 12 ==> r is Err,
        !sides_fit(base.width, base.height) ==> r is Err,
        base.data@.len() != base.width * base.height * 3 ==> r is Err,
{
    let c = config(config_for(quality, choose_base_chroma(quality)));
    assert(configured(base_settings(quality), c));
    if base.bits == 8 {
        let packed = narrow(base.data.as_slice());
        let p = packed.as_slice();
        let r = encode_rgb8(p, base.width, base.height, &c);
        assert(answered8(p, *base, c, r));
        r
    } else if base.bits == 10 {
        let p = base.data.as_slice();
        let r = encode_rgb10(p, base.width, base.height, &c);
        assert(answered10(p, *base, c, r));
        r
    } else if base.bits == 12 {
        let p = base.data.as_slice();
        let r = encode_rgb12(p, base.width, base.height, &c);
        assert(answered12(p, *base, c, r));
        r
    } else {
        Err(invalid_input())
    }
}

/// Encodes the gain plane as monochrome 8-bit, per the convention that a gain map is
/// single-channel.
pub fn encode_gain_heic(gain: &GainPlane, quality: u8) -> (r: Result<Vec<u8>, EncodeError>)
    ensures
        gain_handed_over(*gain, quality, r),
        !sides_fit(gain.width, gain.height) ==> r is Err,
        gain.data@.len() != gain.width * gain.height ==> r is Err,
{
    proof {
        assert(gain.width * gain.height <= 0xffff_ffff * 0xffff_ffff) by (nonlinear_arith)
            requires
                gain.width <= 0xffff_ffff,
                gain.height <= 0xffff_ffff,
        ;
    }
    if gain.width as u64 * gain.height as u64 != gain.data.len() as u64 {
        return Err(invalid_input());
    }
    let y = widen(gain.data.as_slice());
    let ghost plane = y;
    let c = config(config_for(quality, Chroma::Monochrome));
    assert(configured(gain_settings(quality), c));
    let r = encode_mono(y, gain.width, gain.height, &c);
    assert(answered_mono(plane, *gain, c, r));
    r
}

/// The pure-Rust plane codec: no platform frameworks, no GPL, no media block.
///
/// Slower than a platform encoder, and the only backend available where there is no
/// hardware path.
#[derive(Debug, Default, Clone, Copy)]
pub struct HpvcaCodec;

/// What is made of the codec's own HEIC for a plane.
pub open spec fn taken_out(heic: Seq<u8>, plane: Seq<char>, r: Result<CodedImage, Error>) -> bool {
    match file_of(heic) {
        Err(x) => r matches Err(e) && e == Error::Mux(x),
        Ok(f) => match f.primary {
            None => r matches Err(e) && (e matches Error::Encode(m) && m@ == plane + ": "@
                + "encoder output has no primary item"@),
            Some(id) => match coded_of(f, id) {
                Err(x) => r matches Err(e) && e == Error::Mux(x),
                Ok(c) => r matches Ok(image) && image@ == c,
            },
        },
    }
}

/// Takes the coded image out of the codec's own HEIC for a plane.
pub fn take_out(heic: &[u8], plane: &'static str) -> (r: Result<CodedImage, Error>)
    ensures
        taken_out(heic@, plane@, r),
{
    match coded_image_from_heic(heic, plane) {
        Ok(c) => Ok(c),
        Err(e) => Err(from_engine(e)),
    }
}

impl PlaneCodec for HpvcaCodec {
    type Error = Error;

    fn name(&self) -> (s: &'static str)
        ensures
            s@ == "portable-hpvca"@,
    {
        "portable-hpvca"
    }

    /// `hpvca` converts RGB with the **BT.601** matrix. The primaries are the loader's
    /// decision, not this codec's: it codes whatever RGB it is handed and cannot tell
    /// one set of primaries from another.
    fn base_colour(&self, primaries: Primaries) -> (c: ColourInfo)
        ensures
            c@ == (ColourView::Nclx {
                primaries: primaries.code(),
                transfer: 13,
                matrix: 6,
                full_range: true,
            }),
    {
        ColourInfo::Nclx { primaries: primaries.nclx(), transfer: 13, matrix: 6, full_range: true }
    }

    fn encode_base(&self, base: &Rgb, quality: u8) -> (r: Result<CodedImage, Error>)
        ensures
            exists|x: Result<Vec<u8>, EncodeError>| #[trigger]
                base_handed_over(*base, quality, x) && match x {
                    Ok(heic) => taken_out(heic@, "base"@, r),
                    Err(f) => r matches Err(Error::Encode(t)) && is_told(f, t),
                },
    {
        // A whole HEIC comes back rather than a bare bitstream, so the coded HEVC has
        // to come out before it can be placed next to the gain plane in one file.
        let x = encode_base_heic(base, quality);
        assert(base_handed_over(*base, quality, x));
        match x {
            Ok(heic) => take_out(heic.as_slice(), "base"),
            Err(e) => Err(Error::Encode(tell(&e))),
        }
    }

    fn encode_gain(&self, gain: &GainPlane, quality: u8) -> (r: Result<CodedImage, Error>)
        ensures
            exists|x: Result<Vec<u8>, EncodeError>| #[trigger]
                gain_handed_over(*gain, quality, x) && match x {
                    Ok(heic) => taken_out(heic@, "gain"@, r),
                    Err(f) => r matches Err(Error::Encode(t)) && is_told(f, t),
                },
    {
        let x = encode_gain_heic(gain, quality);
        assert(gain_handed_over(*gain, quality, x));
        match x {
            Ok(heic) => take_out(heic.as_slice(), "gain"),
            Err(e) => Err(Error::Encode(tell(&e))),
        }
    }

    fn message(e: Error) -> (s: String)
        ensures
            s@ == e.says(),
    {
        e.message()
    }
}

/// `r` is an answer of the codec to a picture of one luma sample per pixel, at some settings.
pub closed spec fn mono_answered(
    y: Seq<u16>,
    width: u32,
    height: u32,
    s: Settings,
    r: Result<Vec<u8>, EncodeError>,
) -> bool {
    exists|v: Vec<u16>, c: EncodeConfig|
        #![trigger call_ensures(encode_mono, (v, width, height, &c), r)]
        v@ == y && call_ensures(config, (s,), c) && call_ensures(
            encode_mono,
            (v, width, height, &c),
            r,
        )
}

/// `r` is an answer of the codec to a picture of three 8-bit samples per pixel.
pub closed spec fn rgb8_answered(
    p: Seq<u8>,
    width: u32,
    height: u32,
    s: Settings,
    r: Result<Vec<u8>, EncodeError>,
) -> bool {
    exists|v: &[u8], c: EncodeConfig|
        #![trigger call_ensures(encode_rgb8, (v, width, height, &c), r)]
        v@ == p && call_ensures(config, (s,), c) && call_ensures(
            encode_rgb8,
            (v, width, height, &c),
            r,
        )
}

/// `r` is an answer of the codec to a picture of three 10-bit samples per pixel.
pub closed spec fn rgb10_answered(
    p: Seq<u16>,
    width: u32,
    height: u32,
    s: Settings,
    r: Result<Vec<u8>, EncodeError>,
) -> bool {
    exists|v: &[u16], c: EncodeConfig|
        #![trigger call_ensures(encode_rgb10, (v, width, height, &c), r)]
        v@ == p && call_ensures(config, (s,), c) && call_ensures(
            encode_rgb10,
            (v, width, height, &c),
            r,
        )
}

/// `r` is an answer of the codec to a picture of three 12-bit samples per pixel.
pub closed spec fn rgb12_answered(
    p: Seq<u16>,
    width: u32,
    height: u32,
    s: Settings,
    r: Result<Vec<u8>, EncodeError>,
) -> bool {
    exists|v: &[u16], c: EncodeConfig|
        #![trigger call_ensures(encode_rgb12, (v, width, height, &c), r)]
        v@ == p && call_ensures(config, (s,), c) && call_ensures(
            encode_rgb12,
            (v, width, height, &c),
            r,
        )
}

/// Whether settings ask for a quality, for a chroma format, and for one image item without
/// sample adaptive offset. The codec knows the qualities from 1 to 100; one that is out of
/// that range is the nearest that is in it.
pub open spec fn asks_for(s: Settings, quality: u8, chroma: Chroma) -> bool {
    &&& s.chroma == chroma
    &&& s.parallelism is TilesWpp
    &&& !s.sao
    &&& 1 <= s.quality <= 100
    &&& 1 <= quality <= 100 ==> s.quality == quality
    &&& quality == 0 ==> s.quality == 1
    &&& quality > 100 ==> s.quality == 100
}

/// What the answers are said to be is what the codec's own calls are: the same samples, in
/// the same order, at the same size, with the settings made into the codec's.
proof fn an_answer_is_that_of_a_call(
    y: Seq<u16>,
    p: Seq<u8>,
    width: u32,
    height: u32,
    s: Settings,
    r: Result<Vec<u8>, EncodeError>,
)
    ensures
        mono_answered(y, width, height, s, r) <==> exists|v: Vec<u16>, c: EncodeConfig|
            #![trigger call_ensures(encode_mono, (v, width, height, &c), r)]
            v@.len() == y.len() && (forall|i: int| 0 <= i < y.len() ==> #[trigger] v@[i] == y[i])
                && call_ensures(config, (s,), c) && call_ensures(
                encode_mono,
                (v, width, height, &c),
                r,
            ),
        rgb8_answered(p, width, height, s, r) <==> exists|v: &[u8], c: EncodeConfig|
            #![trigger call_ensures(encode_rgb8, (v, width, height, &c), r)]
            v@.len() == p.len() && (forall|i: int| 0 <= i < p.len() ==> #[trigger] v@[i] == p[i])
                && call_ensures(config, (s,), c) && call_ensures(
                encode_rgb8,
                (v, width, height, &c),
                r,
            ),
        rgb10_answered(y, width, height, s, r) <==> exists|v: &[u16], c: EncodeConfig|
            #![trigger call_ensures(encode_rgb10, (v, width, height, &c), r)]
            v@.len() == y.len() && (forall|i: int| 0 <= i < y.len() ==> #[trigger] v@[i] == y[i])
                && call_ensures(config, (s,), c) && call_ensures(
                encode_rgb10,
                (v, width, height, &c),
                r,
            ),
        rgb12_answered(y, width, height, s, r) <==> exists|v: &[u16], c: EncodeConfig|
            #![trigger call_ensures(encode_rgb12, (v, width, height, &c), r)]
            v@.len() == y.len() && (forall|i: int| 0 <= i < y.len() ==> #[trigger] v@[i] == y[i])
                && call_ensures(config, (s,), c) && call_ensures(
                encode_rgb12,
                (v, width, height, &c),
                r,
            ),
{
    assert forall|a: Seq<u16>, b: Seq<u16>|
        a.len() == b.len() && (forall|i: int| 0 <= i < b.len() ==> #[trigger] a[i] == b[i]) implies a
        == b by {
        assert(a =~= b);
    }
    assert forall|a: Seq<u8>, b: Seq<u8>|
        a.len() == b.len() && (forall|i: int| 0 <= i < b.len() ==> #[trigger] a[i] == b[i]) implies a
        == b by {
        assert(a =~= b);
    }
}

/// A gain plane is handed to the codec as it is: one luma sample for every sample of the
/// plane, in its place and with its value, at its width and height, as a monochrome picture at
/// the quality that was asked for. Only one with too few or too many samples is not.
pub proof fn the_gain_plane_is_handed_over_as_it_is(
    gain: GainPlane,
    quality: u8,
    r: Result<Vec<u8>, EncodeError>,
)
    requires
        gain_handed_over(gain, quality, r),
    ensures
        gain.data@.len() != gain.width * gain.height ==> r is Err,
        gain.data@.len() == gain.width * gain.height ==> exists|y: Seq<u16>, s: Settings| #[trigger]
            mono_answered(y, gain.width, gain.height, s, r) && asks_for(
                s,
                quality,
                Chroma::Monochrome,
            ) && y.len() == gain.data@.len() && forall|i: int|
                0 <= i < y.len() ==> #[trigger] y[i] == gain.data@[i],
{
    if gain.data@.len() == gain.width * gain.height {
        let (v, c) = choose|v: Vec<u16>, c: EncodeConfig|
            v@ == widened(gain.data@) && configured(gain_settings(quality), c)
                && #[trigger] answered_mono(v, gain, c, r);
        let s = gain_settings(quality);
        assert(call_ensures(encode_mono, (v, gain.width, gain.height, &c), r));
        assert(call_ensures(config, (s,), c));
        assert(mono_answered(v@, gain.width, gain.height, s, r));
    }
}

/// A base is handed to the codec as it is: every sample in its place and with its value, at
/// its width, height and depth, in 4:4:4 from quality 95 on and in 4:2:0 below. The samples of
/// an 8-bit base are bytes; of a larger one its low byte is handed over. Only one of another
/// depth is not.
pub proof fn the_base_is_handed_over_as_it_is(
    base: Rgb,
    quality: u8,
    r: Result<Vec<u8>, EncodeError>,
)
    requires
        base_handed_over(base, quality, r),
    ensures
        base.bits != 8 && base.bits != 10 && base.bits != 12 ==> r is Err,
        base.bits == 8 ==> exists|p: Seq<u8>, s: Settings| #[trigger]
            rgb8_answered(p, base.width, base.height, s, r) && asks_for(
                s,
                quality,
                if quality >= 95 {
                    Chroma::Yuv444
                } else {
                    Chroma::Yuv420
                },
            ) && p.len() == base.data@.len() && forall|i: int|
                0 <= i < p.len() ==> (base.data@[i] <= 255 ==> #[trigger] p[i] == base.data@[i])
                    && (base.data@[i] - p[i]) % 256 == 0,
        base.bits == 10 ==> exists|s: Settings| #[trigger]
            rgb10_answered(base.data@, base.width, base.height, s, r) && asks_for(
                s,
                quality,
                if quality >= 95 {
                    Chroma::Yuv444
                } else {
                    Chroma::Yuv420
                },
            ),
        base.bits == 12 ==> exists|s: Settings| #[trigger]
            rgb12_answered(base.data@, base.width, base.height, s, r) && asks_for(
                s,
                quality,
                if quality >= 95 {
                    Chroma::Yuv444
                } else {
                    Chroma::Yuv420
                },
            ),
{
    let s = base_settings(quality);
    if base.bits == 8 {
        let (v, c) = choose|v: &[u8], c: EncodeConfig|
            v@ == narrowed(base.data@) && configured(s, c) && #[trigger] answered8(v, base, c, r);
        assert(call_ensures(encode_rgb8, (v, base.width, base.height, &c), r));
        assert(call_ensures(config, (s,), c));
        assert(rgb8_answered(v@, base.width, base.height, s, r));
    } else if base.bits == 10 {
        let (v, c) = choose|v: &[u16], c: EncodeConfig|
            v@ == base.data@ && configured(s, c) && #[trigger] answered10(v, base, c, r);
        assert(call_ensures(encode_rgb10, (v, base.width, base.height, &c), r));
        assert(call_ensures(config, (s,), c));
        assert(rgb10_answered(base.data@, base.width, base.height, s, r));
    } else if base.bits == 12 {
        let (v, c) = choose|v: &[u16], c: EncodeConfig|
            v@ == base.data@ && configured(s, c) && #[trigger] answered12(v, base, c, r);
        assert(call_ensures(encode_rgb12, (v, base.width, base.height, &c), r));
        assert(call_ensures(config, (s,), c));
        assert(rgb12_answered(base.data@, base.width, base.height, s, r));
    }
}

/// A plane that the codec coded is taken out of its file whole: the data and the decoder
/// configuration are those of the file's primary item.
pub proof fn a_coded_plane_is_the_primary_item(
    heic: Seq<u8>,
    plane: Seq<char>,
    image: CodedImage,
)
    requires
        taken_out(heic, plane, Ok(image)),
    ensures
        file_of(heic) matches Ok(f) && f.primary matches Some(id) && coded_of(f, id) == Ok::<
            CodedView,
            crate::heif::Error,
        >(
            CodedView {
                width: image.width,
                height: image.height,
                bit_depth: image.bit_depth,
                chroma: image.chroma,
                hvcc: image.hvcc@,
                data: image.data@,
            },
        ) && data_of(f, id) == Ok::<Seq<u8>, crate::heif::Error>(image.data@),
{
}

} // verus!
