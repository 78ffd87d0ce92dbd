//! Decoding SDR and HDR sources.
//!
//! # Colour-space assumptions
//!
//! An unmanaged image file carries no single right answer for "what is linear light here"
//! -- that's a property of a colour profile that is not read. One assumption is picked per
//! format:
//!
//! - **Floating-point TIFF** -- scene-linear with `1.0` at SDR diffuse white and samples
//!   above it carrying real headroom.
//! - **16-bit TIFF** -- PQ (ST 2084) encoded.
//! - **Any other TIFF, PNG, JPEG** -- plain sRGB-encoded SDR with *no* headroom. An 8-bit
//!   TIFF has no headroom to recover, and reading its codes as PQ is actively wrong.
//!
//! An SDR source is always sRGB: display-referred by definition, so there is no headroom
//! question there.
//!
//! Get the assumption wrong for a given file and the image decodes without error but is
//! simply wrong. What the curves make of a sample takes floating point and happens
//! elsewhere; which curve applies is decided here.

use std::io::Cursor;

use image::{DynamicImage, ImageFormat, ImageReader};
use vstd::prelude::*;

use crate::meta::Rgb;
use crate::portable::Error;
use crate::text::{around, join_text, lowered, put_around, quote, quoted, to_lower};

verus! {

/// An image as the `image` crate decoded it.
#[verifier::external_type_specification]
#[verifier::external_body]
pub struct ExDynamicImage(DynamicImage);

/// What the extension of a file's name says of it.
#[derive(Clone, Copy, Debug, PartialEq, Eq, Structural)]
pub enum SourceKind {
    Tiff,
    /// PNG or JPEG.
    Plain,
}

/// How the samples of a decoded TIFF are stored.
#[derive(Clone, Copy, Debug, PartialEq, Eq, Structural)]
pub enum SampleKind {
    /// 32-bit floating point, colour.
    Float,
    /// 16-bit integers, colour or grey.
    Sixteen,
    /// Anything else.
    Other,
}

/// How samples become light.
#[derive(Clone, Copy, Debug, PartialEq, Eq, Structural)]
pub enum Reading {
    /// As they are.
    Linear,
    /// Through the ST 2084 curve.
    Pq,
    /// Through the sRGB curve, without headroom.
    Srgb,
}

/// Interleaved RGB samples, as wide as they have to be.
#[derive(Debug)]
pub enum Samples {
    /// Single-precision floating point, each as its bit pattern.
    Float(Vec<u32>),
    Sixteen(Vec<u16>),
    Eight(Vec<u8>),
}

/// A decoded HDR source.
#[derive(Debug)]
pub struct Decoded {
    pub width: u32,
    pub height: u32,
    pub samples: Samples,
}

/// What an extension says, whatever its case.
pub open spec fn kind_of(extension: Option<Seq<char>>) -> Option<SourceKind> {
    match extension {
        None => None,
        Some(e) => {
            let e = lowered(e);
            if e == "tif"@ || e == "tiff"@ {
                Some(SourceKind::Tiff)
            } else if e == "png"@ || e == "jpg"@ || e == "jpeg"@ {
                Some(SourceKind::Plain)
            } else {
                None
            }
        },
    }
}

/// The characters of an optional text.
pub open spec fn opt_str(t: Option<&str>) -> Option<Seq<char>> {
    match t {
        Some(s) => Some(s@),
        None => None,
    }
}

/// What an extension says, whatever its case.
pub fn source_kind(extension: Option<&str>) -> (r: Option<SourceKind>)
    ensures
        r == kind_of(opt_str(extension)),
{
    match extension {
        None => None,
        Some(e) => {
            let e: String = to_lower(e);
            if e == "tif".to_owned() || e == "tiff".to_owned() {
                Some(SourceKind::Tiff)
            } else if e == "png".to_owned() || e == "jpg".to_owned() || e == "jpeg".to_owned() {
                Some(SourceKind::Plain)
            } else {
                None
            }
        },
    }
}

/// What is said of an extension that is not known.
pub open spec fn unknown_extension(who: Seq<char>, extension: Option<Seq<char>>) -> Seq<char> {
    who + ": unsupported extension "@ + (match extension {
        Some(e) => "Some("@ + quoted(lowered(e)) + ")"@,
        None => "None"@,
    }) + " (want tif/tiff/png/jpg/jpeg)"@
}

fn refuse_extension(who: &str, extension: Option<&str>) -> (e: Error)
    ensures
        e matches Error::UnsupportedInput(m) && m@ == unknown_extension(who@, opt_str(extension)),
{
    let mut t = join_text(who, ": unsupported extension ");
    match extension {
        Some(e) => {
            let low = to_lower(e);
            let q = quote(low.as_str());
            let mut inner = join_text("Some(", q.as_str());
            inner.append(")");
            t.append(inner.as_str());
        },
        None => {
            t.append("None");
        },
    }
    t.append(" (want tif/tiff/png/jpg/jpeg)");
    Error::UnsupportedInput(t)
}

/// How the samples of a source become light: by its extension, and for a TIFF by its
/// samples. Sample format, not extension, decides the transfer function: a float TIFF
/// routed through PQ loses its headroom and gains a false one.
pub open spec fn reading_of(extension: Option<Seq<char>>, samples: SampleKind) -> Option<Reading> {
    match kind_of(extension) {
        None => None,
        Some(SourceKind::Plain) => Some(Reading::Srgb),
        Some(SourceKind::Tiff) => match samples {
            SampleKind::Float => Some(Reading::Linear),
            SampleKind::Sixteen => Some(Reading::Pq),
            SampleKind::Other => Some(Reading::Srgb),
        },
    }
}

/// How the samples of a source become light.
pub fn hdr_reading(extension: Option<&str>, samples: SampleKind) -> (r: Result<Reading, Error>)
    ensures
        match r {
            Ok(x) => reading_of(opt_str(extension), samples) == Some(x),
            Err(e) => reading_of(opt_str(extension), samples) is None && (
            e matches Error::UnsupportedInput(m) && m@ == unknown_extension(
                "load_hdr"@,
                opt_str(extension),
            )),
        },
{
    match source_kind(extension) {
        None => Err(refuse_extension("load_hdr", extension)),
        Some(SourceKind::Plain) => Ok(Reading::Srgb),
        Some(SourceKind::Tiff) => match samples {
            SampleKind::Float => Ok(Reading::Linear),
            SampleKind::Sixteen => Ok(Reading::Pq),
            SampleKind::Other => Ok(Reading::Srgb),
        },
    }
}

/// Largest image accepted, in pixels. A decoder's own limit bounds the buffer for the
/// file's *original* format; widening happens after that, so a 1-byte-per-pixel greyscale
/// source that decodes inside the limit can still demand many times that.
pub const MAX_PIXELS: u64 = 0x2000_0000;

/// What is said of an image with too many pixels.
pub open spec fn too_many_pixels(width: u32, height: u32) -> Seq<char> {
    around(
        around(around(""@, width as nat, "x"@), height as nat, " is "@),
        (width * height) as nat,
        " pixels, over the 536870912-pixel limit"@,
    )
}

/// Refuses an image with too many pixels.
pub fn check_size(width: u32, height: u32) -> (r: Result<(), Error>)
    ensures
        match r {
            Ok(_) => width * height <= MAX_PIXELS,
            Err(e) => width * height > MAX_PIXELS && (e matches Error::UnsupportedInput(m) && m@
                == too_many_pixels(width, height)),
        },
{
    assert(0 <= width * height <= 0xffff_ffff * 0xffff_ffff) by (nonlinear_arith)
        requires
            width <= 0xffff_ffff,
            height <= 0xffff_ffff,
    ;
    let n: u64 = width as u64 * height as u64;
    if n > MAX_PIXELS {
        let a = put_around("", width as u128, "x");
        let b = put_around(a.as_str(), height as u128, " is ");
        return Err(
            Error::UnsupportedInput(
                put_around(b.as_str(), n as u128, " pixels, over the 536870912-pixel limit"),
            ),
        );
    }
    Ok(())
}

/// `image::ImageReader` over bytes in memory: the format is guessed from the first of them
/// with `with_guessed_format`, the one that `image::ImageFormat::from_extension` names
/// stands where the guess finds none, and `decode` does the rest. What is wrong is said in
/// the decoder's words. Which image comes back, and whether one does, is up to the decoders
/// and to what hooks the process has registered with them: nothing is stated. That none of
/// them panics, whatever the bytes are, is taken from those decoders: it is not proved here.
#[verifier::external_body]
fn decode(bytes: &[u8], extension: Option<&str>) -> (r: Result<DynamicImage, String>) {
    let mut reader = ImageReader::new(Cursor::new(bytes));
    if let Some(format) = extension.and_then(ImageFormat::from_extension) {
        reader.set_format(format);
    }
    match reader.with_guessed_format() {
        Ok(known) => known.decode().map_err(|e| e.to_string()),
        Err(e) => Err(e.to_string()),
    }
}

/// `DynamicImage::width` and `DynamicImage::height`. What they are of an image that is
/// opaque here is not stated.
#[verifier::external_body]
fn image_size(img: &DynamicImage) -> (r: (u32, u32)) {
    (img.width(), img.height())
}

/// How `DynamicImage` stores its samples, by its variant. Which one an image that is opaque
/// here is, is not stated.
#[verifier::external_body]
fn sample_kind(img: &DynamicImage) -> (r: SampleKind) {
    match img {
        DynamicImage::ImageRgb32F(_) => SampleKind::Float,
        DynamicImage::ImageRgba32F(_) => SampleKind::Float,
        DynamicImage::ImageRgb16(_) => SampleKind::Sixteen,
        DynamicImage::ImageRgba16(_) => SampleKind::Sixteen,
        DynamicImage::ImageLuma16(_) => SampleKind::Sixteen,
        DynamicImage::ImageLumaA16(_) => SampleKind::Sixteen,
        _ => SampleKind::Other,
    }
}

/// `DynamicImage::to_rgb8`: the sides and interleaved 8-bit RGB, three samples for every
/// pixel. Which samples is not stated.
#[verifier::external_body]
fn to_rgb8(img: &DynamicImage) -> (r: (u32, u32, Vec<u8>))
    ensures
        r.2@.len() == r.0 * r.1 * 3,
{
    let rgb = img.to_rgb8();
    (rgb.width(), rgb.height(), rgb.pixels().flat_map(|p| p.0).collect())
}

/// `DynamicImage::to_rgb16`: the sides and interleaved 16-bit RGB, three samples for every
/// pixel. Which samples is not stated.
#[verifier::external_body]
fn to_rgb16(img: &DynamicImage) -> (r: (u32, u32, Vec<u16>))
    ensures
        r.2@.len() == r.0 * r.1 * 3,
{
    let rgb = img.to_rgb16();
    (rgb.width(), rgb.height(), rgb.pixels().flat_map(|p| p.0).collect())
}

/// `DynamicImage::to_rgb32f`: the sides and interleaved floating-point RGB, three samples
/// for every pixel, each as its bit pattern. Which samples is not stated.
#[verifier::external_body]
fn to_rgb_bits(img: &DynamicImage) -> (r: (u32, u32, Vec<u32>))
    ensures
        r.2@.len() == r.0 * r.1 * 3,
{
    let rgb = img.to_rgb32f();
    (rgb.width(), rgb.height(), rgb.pixels().flat_map(|p| p.0).map(|v| v.to_bits()).collect())
}

/// Decoded 8-bit samples as an image.
pub fn rgb_of(width: u32, height: u32, samples: &Vec<u8>) -> (r: Rgb)
    ensures
        r.width == width,
        r.height == height,
        r.bits == 8,
        r.data@ == samples@.map_values(|b: u8| b as u16),
{
    let mut data: Vec<u16> = Vec::new();
    let mut i: usize = 0;
    while i < samples.len()
        invariant
            i <= samples@.len(),
            data@.len() == i,
            forall|k: int| 0 <= k < i ==> #[trigger] data@[k] == samples@[k] as u16,
        decreases samples@.len() - i,
    {
        data.push(samples[i] as u16);
        i = i + 1;
    }
    assert(data@ =~= samples@.map_values(|b: u8| b as u16));
    Rgb { width, height, bits: 8, data }
}

/// What is made of a decoded image in 8-bit RGB.
spec fn sdr_of(img: DynamicImage, r: Result<Rgb, Error>) -> bool {
    exists|p: (u32, u32, Vec<u8>)| #[trigger]
        call_ensures(to_rgb8, (&img,), p) && {
            &&& r matches Ok(x)
            &&& x.width == p.0
            &&& x.height == p.1
            &&& x.bits == 8
            &&& x.data@ == p.2@.map_values(|b: u8| b as u16)
        }
}

/// `r` is the image that the decoder made of these bytes, in 8-bit RGB with its sides and
/// samples as they are, or what the decoder said.
pub closed spec fn sdr_from(bytes: &[u8], extension: Option<&str>, r: Result<Rgb, Error>) -> bool {
    exists|x: Result<DynamicImage, String>| #[trigger]
        call_ensures(decode, (bytes, extension), x) && match x {
            Ok(img) => sdr_of(img, r),
            Err(m) => r == Err::<Rgb, Error>(Error::Decode(m)),
        }
}

/// Decodes an SDR source, assumed sRGB-encoded.
pub fn load_sdr(bytes: &[u8], extension: Option<&str>) -> (r: Result<Rgb, Error>)
    ensures
        match r {
            Ok(x) => {
                &&& kind_of(opt_str(extension)) is Some
                &&& x.bits == 8
                &&& x.data@.len() == x.width * x.height * 3
                &&& forall|k: int| 0 <= k < x.data@.len() ==> #[trigger] x.data@[k] <= 255
            },
            Err(Error::UnsupportedInput(m)) => kind_of(opt_str(extension)) is None && m@
                == unknown_extension("load_sdr"@, opt_str(extension)),
            Err(e) => kind_of(opt_str(extension)) is Some && e is Decode,
        },
        kind_of(opt_str(extension)) is Some ==> sdr_from(bytes, extension, r),
{
    if source_kind(extension).is_none() {
        return Err(refuse_extension("load_sdr", extension));
    }
    let x = decode(bytes, extension);
    assert(call_ensures(decode, (bytes, extension), x));
    match x {
        Ok(img) => {
            let p = to_rgb8(&img);
            assert(call_ensures(to_rgb8, (&img,), p));
            let r = Ok(rgb_of(p.0, p.1, &p.2));
            assert(sdr_of(img, r));
            r
        },
        Err(m) => Err(Error::Decode(m)),
    }
}

spec fn eight_of(img: DynamicImage, d: Decoded) -> bool {
    exists|p: (u32, u32, Vec<u8>)| #[trigger]
        call_ensures(to_rgb8, (&img,), p) && d == (Decoded {
            width: p.0,
            height: p.1,
            samples: Samples::Eight(p.2),
        })
}

spec fn sixteen_of(img: DynamicImage, d: Decoded) -> bool {
    exists|p: (u32, u32, Vec<u16>)| #[trigger]
        call_ensures(to_rgb16, (&img,), p) && d == (Decoded {
            width: p.0,
            height: p.1,
            samples: Samples::Sixteen(p.2),
        })
}

spec fn float_of(img: DynamicImage, d: Decoded) -> bool {
    exists|p: (u32, u32, Vec<u32>)| #[trigger]
        call_ensures(to_rgb_bits, (&img,), p) && d == (Decoded {
            width: p.0,
            height: p.1,
            samples: Samples::Float(p.2),
        })
}

/// What is made of a decoded TIFF: refused when it has too many pixels, and else read as
/// its samples say.
spec fn tiff_of(img: DynamicImage, r: Result<(Reading, Decoded), Error>) -> bool {
    exists|size: (u32, u32), k: SampleKind|
        #![trigger call_ensures(image_size, (&img,), size), call_ensures(sample_kind, (&img,), k)]
        call_ensures(image_size, (&img,), size) && call_ensures(sample_kind, (&img,), k)
            && if size.0 * size.1 > MAX_PIXELS {
            r matches Err(Error::UnsupportedInput(m)) && m@ == too_many_pixels(size.0, size.1)
        } else {
            r matches Ok(x) && match k {
                SampleKind::Float => x.0 == Reading::Linear && float_of(img, x.1),
                SampleKind::Sixteen => x.0 == Reading::Pq && sixteen_of(img, x.1),
                SampleKind::Other => x.0 == Reading::Srgb && eight_of(img, x.1),
            }
        }
}

/// `r` is what the decoder made of these bytes. A TIFF is refused when it has too many
/// pixels, and else its samples are as wide as they are stored and read as that says; of
/// anything else, 8-bit samples are read through the sRGB curve. Or `r` is what the decoder
/// said.
pub closed spec fn hdr_from(
    bytes: &[u8],
    extension: Option<&str>,
    r: Result<(Reading, Decoded), Error>,
) -> bool {
    exists|x: Result<DynamicImage, String>| #[trigger]
        call_ensures(decode, (bytes, extension), x) && match x {
            Ok(img) => if kind_of(opt_str(extension)) == Some(SourceKind::Tiff) {
                tiff_of(img, r)
            } else {
                r matches Ok(y) && y.0 == Reading::Srgb && eight_of(img, y.1)
            },
            Err(m) => r == Err::<(Reading, Decoded), Error>(Error::Decode(m)),
        }
}

/// Three samples for every pixel.
pub open spec fn is_full(d: Decoded) -> bool {
    d.width * d.height * 3 == match d.samples {
        Samples::Float(v) => v@.len(),
        Samples::Sixteen(v) => v@.len(),
        Samples::Eight(v) => v@.len(),
    }
}

/// Whether samples are stored as a reading takes them.
pub open spec fn suits(reading: Reading, samples: Samples) -> bool {
    match reading {
        Reading::Linear => samples is Float,
        Reading::Pq => samples is Sixteen,
        Reading::Srgb => samples is Eight,
    }
}

fn eight(img: &DynamicImage) -> (d: Decoded)
    ensures
        eight_of(*img, d),
        is_full(d),
        d.samples is Eight,
{
    let p = to_rgb8(img);
    assert(call_ensures(to_rgb8, (img,), p));
    Decoded { width: p.0, height: p.1, samples: Samples::Eight(p.2) }
}

fn sixteen(img: &DynamicImage) -> (d: Decoded)
    ensures
        sixteen_of(*img, d),
        is_full(d),
        d.samples is Sixteen,
{
    let p = to_rgb16(img);
    assert(call_ensures(to_rgb16, (img,), p));
    Decoded { width: p.0, height: p.1, samples: Samples::Sixteen(p.2) }
}

fn float(img: &DynamicImage) -> (d: Decoded)
    ensures
        float_of(*img, d),
        is_full(d),
        d.samples is Float,
{
    let p = to_rgb_bits(img);
    assert(call_ensures(to_rgb_bits, (img,), p));
    Decoded { width: p.0, height: p.1, samples: Samples::Float(p.2) }
}

/// Decodes an HDR source to its samples, and says how they become light.
pub fn load_hdr_samples(bytes: &[u8], extension: Option<&str>) -> (r: Result<
    (Reading, Decoded),
    Error,
>)
    ensures
        kind_of(opt_str(extension)) is Some ==> hdr_from(bytes, extension, r),
        kind_of(opt_str(extension)) is None ==> (r matches Err(Error::UnsupportedInput(m)) && m@
            == unknown_extension("load_hdr"@, opt_str(extension))),
        kind_of(opt_str(extension)) == Some(SourceKind::Plain) ==> match r {
            Ok(x) => x.0 == Reading::Srgb,
            Err(e) => e is Decode,
        },
        r matches Ok(x) ==> is_full(x.1) && suits(x.0, x.1.samples),
{
    let kind = match source_kind(extension) {
        Some(kind) => kind,
        None => {
            return Err(refuse_extension("load_hdr", extension));
        },
    };
    let x = decode(bytes, extension);
    assert(call_ensures(decode, (bytes, extension), x));
    let img = match x {
        Ok(img) => img,
        Err(m) => {
            return Err(Error::Decode(m));
        },
    };
    if kind == SourceKind::Plain {
        return Ok((Reading::Srgb, eight(&img)));
    }
    let size = image_size(&img);
    let k = sample_kind(&img);
    assert(call_ensures(image_size, (&img,), size));
    assert(call_ensures(sample_kind, (&img,), k));
    // Before the samples are widened, which is what the limit is for.
    if let Err(e) = check_size(size.0, size.1) {
        let r = Err(e);
        assert(tiff_of(img, r));
        return r;
    }
    let r = match hdr_reading(extension, k) {
        Ok(Reading::Linear) => Ok((Reading::Linear, float(&img))),
        Ok(Reading::Pq) => Ok((Reading::Pq, sixteen(&img))),
        Ok(Reading::Srgb) => Ok((Reading::Srgb, eight(&img))),
        Err(e) => Err(e),
    };
    assert(tiff_of(img, r));
    r
}

spec fn pq_of(img: DynamicImage, r: Result<Decoded, Error>) -> bool {
    exists|size: (u32, u32)| #[trigger]
        call_ensures(image_size, (&img,), size) && if size.0 * size.1 > MAX_PIXELS {
            r matches Err(Error::UnsupportedInput(m)) && m@ == too_many_pixels(size.0, size.1)
        } else {
            r matches Ok(d) && sixteen_of(img, d)
        }
}

/// `r` is what the decoder made of these bytes in 16-bit samples, refused when it has too
/// many pixels, or what the decoder said.
pub closed spec fn pq_from(
    bytes: &[u8],
    extension: Option<&str>,
    r: Result<Decoded, Error>,
) -> bool {
    exists|x: Result<DynamicImage, String>| #[trigger]
        call_ensures(decode, (bytes, extension), x) && match x {
            Ok(img) => pq_of(img, r),
            Err(m) => r == Err::<Decoded, Error>(Error::Decode(m)),
        }
}

/// Decodes a source to 16-bit samples that are to be read as PQ, whatever it is: forces
/// that reading even of a float TIFF, which [`load_hdr_samples`] would take as linear.
pub fn load_hdr_tiff_pq_samples(bytes: &[u8], extension: Option<&str>) -> (r: Result<
    Decoded,
    Error,
>)
    ensures
        pq_from(bytes, extension, r),
        r matches Ok(d) ==> is_full(d) && d.samples is Sixteen,
{
    let x = decode(bytes, extension);
    assert(call_ensures(decode, (bytes, extension), x));
    match x {
        Ok(img) => {
            let size = image_size(&img);
            assert(call_ensures(image_size, (&img,), size));
            let r = match check_size(size.0, size.1) {
                Ok(_) => Ok(sixteen(&img)),
                Err(e) => Err(e),
            };
            assert(pq_of(img, r));
            r
        },
        Err(m) => Err(Error::Decode(m)),
    }
}

/// An SDR image is the decoder's: its sides are those of the decoded picture, and its samples
/// are the picture's 8-bit samples, one by one.
proof fn an_sdr_image_is_the_decoded_one(
    bytes: &[u8],
    extension: Option<&str>,
    r: Result<Rgb, Error>,
)
    requires
        call_ensures(load_sdr, (bytes, extension), r),
        r is Ok,
    ensures
        exists|img: DynamicImage, p: (u32, u32, Vec<u8>)|
            #![trigger call_ensures(to_rgb8, (&img,), p)]
            call_ensures(decode, (bytes, extension), Ok(img)) && call_ensures(to_rgb8, (&img,), p)
                && {
                let x = r->Ok_0;
                &&& x.width == p.0 && x.height == p.1
                &&& x.data@.len() == p.2@.len()
                &&& forall|k: int| 0 <= k < p.2@.len() ==> #[trigger] x.data@[k] == p.2@[k]
            },
{
    let x = choose|x: Result<DynamicImage, String>| #[trigger]
        call_ensures(decode, (bytes, extension), x) && match x {
            Ok(img) => sdr_of(img, r),
            Err(m) => r == Err::<Rgb, Error>(Error::Decode(m)),
        };
    assert(x is Ok);
    let img = x->Ok_0;
    assert(call_ensures(decode, (bytes, extension), Ok::<DynamicImage, String>(img)));
    let p = choose|p: (u32, u32, Vec<u8>)| #[trigger]
        call_ensures(to_rgb8, (&img,), p) && {
            &&& r matches Ok(x)
            &&& x.width == p.0
            &&& x.height == p.1
            &&& x.bits == 8
            &&& x.data@ == p.2@.map_values(|b: u8| b as u16)
        };
    assert(call_ensures(to_rgb8, (&img,), p));
}

/// An HDR image is the decoder's: the decoded picture's samples as they are, floating-point
/// ones with linear light, 16-bit ones with PQ and 8-bit ones with the sRGB curve. A TIFF's
/// are as wide as they are stored.
proof fn an_hdr_image_is_the_decoded_one(
    bytes: &[u8],
    extension: Option<&str>,
    r: Result<(Reading, Decoded), Error>,
)
    requires
        call_ensures(load_hdr_samples, (bytes, extension), r),
        r is Ok,
    ensures
        exists|img: DynamicImage|
            #![trigger call_ensures(decode, (bytes, extension), Ok::<DynamicImage, String>(img))]
            call_ensures(decode, (bytes, extension), Ok(img)) && {
                let d = r->Ok_0.1;
                match d.samples {
                    Samples::Float(v) => r->Ok_0.0 == Reading::Linear && call_ensures(
                        to_rgb_bits,
                        (&img,),
                        (d.width, d.height, v),
                    ) && call_ensures(sample_kind, (&img,), SampleKind::Float),
                    Samples::Sixteen(v) => r->Ok_0.0 == Reading::Pq && call_ensures(
                        to_rgb16,
                        (&img,),
                        (d.width, d.height, v),
                    ) && call_ensures(sample_kind, (&img,), SampleKind::Sixteen),
                    Samples::Eight(v) => r->Ok_0.0 == Reading::Srgb && call_ensures(
                        to_rgb8,
                        (&img,),
                        (d.width, d.height, v),
                    ),
                }
            },
{
    let x = choose|x: Result<DynamicImage, String>| #[trigger]
        call_ensures(decode, (bytes, extension), x) && match x {
            Ok(img) => if kind_of(opt_str(extension)) == Some(SourceKind::Tiff) {
                tiff_of(img, r)
            } else {
                r matches Ok(y) && y.0 == Reading::Srgb && eight_of(img, y.1)
            },
            Err(m) => r == Err::<(Reading, Decoded), Error>(Error::Decode(m)),
        };
    assert(x is Ok);
    let img = x->Ok_0;
    assert(call_ensures(decode, (bytes, extension), Ok::<DynamicImage, String>(img)));
}

/// A source that is to be read as PQ is the decoder's, in 16-bit samples as they are.
proof fn a_pq_image_is_the_decoded_one(
    bytes: &[u8],
    extension: Option<&str>,
    r: Result<Decoded, Error>,
)
    requires
        call_ensures(load_hdr_tiff_pq_samples, (bytes, extension), r),
        r is Ok,
    ensures
        exists|img: DynamicImage|
            #![trigger call_ensures(decode, (bytes, extension), Ok::<DynamicImage, String>(img))]
            call_ensures(decode, (bytes, extension), Ok(img)) && (
            r->Ok_0.samples matches Samples::Sixteen(v) && call_ensures(
                to_rgb16,
                (&img,),
                (r->Ok_0.width, r->Ok_0.height, v),
            )),
{
    let x = choose|x: Result<DynamicImage, String>| #[trigger]
        call_ensures(decode, (bytes, extension), x) && match x {
            Ok(img) => pq_of(img, r),
            Err(m) => r == Err::<Decoded, Error>(Error::Decode(m)),
        };
    assert(x is Ok);
    let img = x->Ok_0;
    assert(call_ensures(decode, (bytes, extension), Ok::<DynamicImage, String>(img)));
}

} // verus!
