//! An encoder assembled from a swappable plane codec plus [`mux`].
//!
//! The muxer is the part worth owning; the HEVC encoder is not. [`PlaneCodec`] is that
//! seam: a platform's media block and a software fallback are interchangeable behind
//! it, and [`MuxEngine`] is the container half that neither of them has to
//! reimplement.

use vstd::arithmetic::power2::pow2;
use vstd::prelude::*;

use crate::binary32::two_to;
use crate::bytes::to_owned_bytes;
use crate::colour::Primaries;
use crate::encode::{EncodeOptions, GainMapEncoder};
use crate::heif::model::{coded_of, file_of, ColourView};
use crate::heif::write::{mux, mux_bytes, writable, MuxRequest, MuxView};
use crate::heif::{views, Chroma, CodedImage, CodedView, ColourInfo, Error, HeifFile, Unsupported};
use crate::meta::{GainMapMeta, GainPlane, Rgb};
use crate::opaque::{MetadataSupport, OpaqueItem};
use crate::text::{around, join_text, put_around};
use crate::xmp::{headroom_packet, merge_headroom_into, merged, packet};

verus! {

/// A HEVC encoder for the two planes a gain-map HEIC holds.
///
/// Implementors must return **one coded image item**, never a HEIF `grid`:
/// [`HeifFile::coded_image`] refuses a grid because reassembling tiles into a single
/// bitstream is a re-encode, not a remux.
pub trait PlaneCodec {
    type Error;

    /// Identifies the backend in output and benchmark reports.
    fn name(&self) -> &'static str;

    /// The `colr` that describes what [`PlaneCodec::encode_base`] *actually produced*,
    /// for pixels in `primaries`.
    ///
    /// An encoder fed RGB picks its own RGB->YCbCr matrix, and the container has to
    /// declare the one that was used -- a decoder applies the inverse of whatever the
    /// `colr` claims. Get it wrong and every pixel decodes through the wrong matrix: a
    /// *constant* error, immune to bitrate. Hence no default: a new backend must state
    /// its matrix rather than inherit someone else's.
    fn base_colour(&self, primaries: Primaries) -> ColourInfo;

    /// Encodes the SDR base.
    fn encode_base(&self, base: &Rgb, quality: u8) -> Result<CodedImage, Self::Error>;

    /// Encodes the gain plane, which should come back [`Chroma::Monochrome`].
    fn encode_gain(&self, gain: &GainPlane, quality: u8) -> Result<CodedImage, Self::Error>;

    /// What a failure says.
    fn message(e: Self::Error) -> String;
}

/// What went wrong while turning two planes into a file.
#[derive(Debug)]
pub enum MuxEngineError {
    /// The plane codec failed. The text is the codec's own message, since each backend
    /// has its own error type.
    Encode { plane: &'static str, message: String },
    Mux(Error),
}

impl MuxEngineError {
    pub open spec fn says(self) -> Seq<char> {
        match self {
            MuxEngineError::Encode { plane, message } => plane@ + " encode: "@ + message@,
            MuxEngineError::Mux(e) => "mux: "@ + e.says(),
        }
    }

    /// What went wrong.
    pub fn message(&self) -> (s: String)
        ensures
            s@ == self.says(),
    {
        match self {
            MuxEngineError::Encode { plane, message } => {
                let mut s = join_text(plane, " encode: ");
                s.append(message.as_str());
                s
            },
            MuxEngineError::Mux(e) => {
                let t = e.message();
                join_text("mux: ", t.as_str())
            },
        }
    }

    /// `self` is the failure of the codec on `plane` with this message.
    pub open spec fn is_encode(self, plane: Seq<char>, text: Seq<char>) -> bool {
        self matches MuxEngineError::Encode { plane: p, message: m } && p@ == plane && m@ == text
    }
}

/// Any [`PlaneCodec`] plus the muxer.
#[derive(Debug, Default, Clone, Copy)]
pub struct MuxEngine<C>(pub C);

impl<C> MuxEngine<C> {
    pub fn new(codec: C) -> (e: MuxEngine<C>)
        ensures
            e.0 == codec,
    {
        MuxEngine(codec)
    }
}

pub open spec fn opt_slice(s: Option<&[u8]>) -> Option<Seq<u8>> {
    match s {
        Some(b) => Some(b@),
        None => None,
    }
}

/// `2^stops`, with six decimals.
pub open spec fn linear_text(stops: nat) -> Seq<char> {
    around(""@, pow2(stops), ".000000"@)
}

/// The linear headroom that a file for Apple's readers states: the one in its metadata
/// where that is a whole number of stops, and the text that was given where not.
pub open spec fn stated_headroom(meta: GainMapMeta, opts: EncodeOptions) -> Option<Seq<char>> {
    match meta.alt_headroom.whole() {
        Some(stops) => Some(linear_text(stops)),
        None => match opts.linear_headroom {
            Some(given) => Some(given@),
            None => None,
        },
    }
}

/// Whether nothing says what headroom to state in a file that has to state it.
pub open spec fn lacks_headroom(meta: GainMapMeta, opts: EncodeOptions) -> bool {
    opts.flavor.apple() && stated_headroom(meta, opts) is None
}

/// The XMP packet of the output. Apple writes the headroom three times and all three
/// agree; a consumer reading the XMP copy rather than the `tmap` must not get a
/// different number. Only stated for flavors that claim Apple compatibility, since it
/// is Apple's namespace: grafted onto the source's packet where that can be done, and
/// in a packet of its own where not. Other flavors keep the source's packet as it is.
pub open spec fn output_xmp(meta: GainMapMeta, opts: EncodeOptions) -> Option<Seq<u8>> {
    if opts.flavor.apple() {
        let headroom = stated_headroom(meta, opts)->Some_0;
        match opts.xmp {
            Some(source) => match merged(source@, headroom) {
                Some(v) => Some(v),
                None => Some(packet(headroom)),
            },
            None => Some(packet(headroom)),
        }
    } else {
        opt_slice(opts.xmp)
    }
}

/// What is asked of the muxer for two coded planes.
///
/// The `tmap` describes the reconstructed HDR image, not the SDR base: Display P3
/// primaries with the PQ transfer.
pub open spec fn request_of(
    base: CodedView,
    gain: CodedView,
    colour: ColourView,
    meta: GainMapMeta,
    opts: EncodeOptions,
) -> MuxView {
    MuxView {
        base,
        gain,
        meta,
        flavor: opts.flavor,
        base_colour: Some(colour),
        tmap_colour: Some(
            ColourView::Nclx { primaries: 12, transfer: 16, matrix: 6, full_range: true },
        ),
        exif: opt_slice(opts.exif),
        xmp: output_xmp(meta, opts),
        extra_items: views(opts.opaque_items@),
        clli: None,
        orientation: opts.orientation,
    }
}

fn copy_opt(s: Option<&[u8]>) -> (v: Option<Vec<u8>>)
    ensures
        crate::heif::write::opt_bytes(v) == opt_slice(s),
{
    match s {
        Some(b) => Some(to_owned_bytes(b)),
        None => None,
    }
}

pub(crate) fn copy_text(t: &Option<String>) -> (r: Option<String>)
    ensures
        crate::heif::opt_text(r) == crate::heif::opt_text(*t),
{
    match t {
        Some(s) => Some(s.clone()),
        None => None,
    }
}

fn copy_item(x: &OpaqueItem) -> (r: OpaqueItem)
    ensures
        r@ == x@,
{
    OpaqueItem {
        item_type: x.item_type,
        name: x.name.clone(),
        content_type: copy_text(&x.content_type),
        uri_type: copy_text(&x.uri_type),
        hidden: x.hidden,
        data: to_owned_bytes(x.data.as_slice()),
    }
}

fn copy_items(items: &[OpaqueItem]) -> (r: Vec<OpaqueItem>)
    ensures
        views(r@) == views(items@),
{
    let mut r: Vec<OpaqueItem> = Vec::new();
    let mut i: usize = 0;
    while i < items.len()
        invariant
            i <= items@.len(),
            r@.len() == i,
            forall|k: int| 0 <= k < i ==> (#[trigger] r@[k])@ == items@[k]@,
        decreases items@.len() - i,
    {
        let x = copy_item(&items[i]);
        r.push(x);
        i = i + 1;
    }
    assert(views(r@) =~= views(items@));
    r
}

/// What comes of writing two coded planes into one file.
pub open spec fn is_assembled(
    base: CodedView,
    gain: CodedView,
    colour: ColourView,
    meta: GainMapMeta,
    opts: EncodeOptions,
    r: Result<Vec<u8>, MuxEngineError>,
) -> bool {
    let q = request_of(base, gain, colour, meta, opts);
    match r {
        Ok(v) => !lacks_headroom(meta, opts) && writable(q) && v@ == mux_bytes(q),
        Err(e) => e == MuxEngineError::Mux(
            Error::Unsupported(
                if lacks_headroom(meta, opts) {
                    Unsupported::NoHeadroom
                } else {
                    Unsupported::TooLarge
                },
            ),
        ) && (lacks_headroom(meta, opts) || !writable(q)),
    }
}

/// The linear headroom to state.
fn headroom_to_state(meta: &GainMapMeta, opts: &EncodeOptions) -> (t: Option<String>)
    ensures
        match t {
            Some(s) => stated_headroom(*meta, *opts) == Some(s@),
            None => stated_headroom(*meta, *opts) is None,
        },
{
    match meta.alt_headroom.to_whole() {
        Some(stops) => Some(put_around("", two_to(stops) as u128, ".000000")),
        None => match opts.linear_headroom {
            Some(given) => Some(given.to_owned()),
            None => None,
        },
    }
}

/// Writes two coded planes into one file, with everything the options carry.
pub fn assemble(
    base: CodedImage,
    gain: CodedImage,
    colour: ColourInfo,
    meta: &GainMapMeta,
    opts: &EncodeOptions,
) -> (r: Result<Vec<u8>, MuxEngineError>)
    ensures
        is_assembled(base@, gain@, colour@, *meta, *opts, r),
{
    let ghost q = request_of(base@, gain@, colour@, *meta, *opts);
    let xmp = if opts.flavor.writes_apple() {
        let headroom = match headroom_to_state(meta, opts) {
            Some(t) => t,
            None => {
                return Err(MuxEngineError::Mux(Error::Unsupported(Unsupported::NoHeadroom)));
            },
        };
        match opts.xmp {
            Some(source) => match merge_headroom_into(source, headroom.as_str()) {
                Some(v) => Some(v),
                None => Some(headroom_packet(headroom.as_str())),
            },
            None => Some(headroom_packet(headroom.as_str())),
        }
    } else {
        copy_opt(opts.xmp)
    };
    let req = MuxRequest {
        base,
        gain,
        meta: *meta,
        flavor: opts.flavor,
        base_colour: Some(colour),
        tmap_colour: Some(
            ColourInfo::Nclx { primaries: 12, transfer: 16, matrix: 6, full_range: true },
        ),
        exif: copy_opt(opts.exif),
        xmp,
        extra_items: copy_items(opts.opaque_items),
        clli: None,
        orientation: opts.orientation,
    };
    assert(req@ == q);
    match mux(&req) {
        Ok(v) => Ok(v),
        Err(e) => Err(MuxEngineError::Mux(e)),
    }
}

/// What a codec may call itself.
pub open spec fn name_may_be<C: PlaneCodec>(codec: &C, s: &'static str) -> bool {
    call_ensures(C::name, (codec,), s)
}

/// How a codec may answer for the base.
pub open spec fn base_may_be<C: PlaneCodec>(
    codec: &C,
    base: &Rgb,
    quality: u8,
    r: Result<CodedImage, C::Error>,
) -> bool {
    call_ensures(C::encode_base, (codec, base, quality), r)
}

/// How a codec may answer for the gain plane.
pub open spec fn gain_may_be<C: PlaneCodec>(
    codec: &C,
    gain: &GainPlane,
    quality: u8,
    r: Result<CodedImage, C::Error>,
) -> bool {
    call_ensures(C::encode_gain, (codec, gain, quality), r)
}

/// What a codec may declare of the base.
pub open spec fn colour_may_be<C: PlaneCodec>(codec: &C, p: Primaries, c: ColourInfo) -> bool {
    call_ensures(C::base_colour, (codec, p), c)
}

/// What a codec may say of a failure.
pub open spec fn message_may_be<C: PlaneCodec>(e: C::Error, m: String) -> bool {
    call_ensures(C::message, (e,), m)
}

/// What the engine may answer, given what its codec may answer: the codec's failure on
/// the base, then on the gain plane, then whatever writing the two gives.
pub open spec fn engine_may_answer<C: PlaneCodec>(
    codec: &C,
    base: &Rgb,
    gain: &GainPlane,
    meta: GainMapMeta,
    opts: EncodeOptions,
    r: Result<Vec<u8>, MuxEngineError>,
) -> bool {
    ||| exists|x: C::Error, m: String|
        #![trigger message_may_be::<C>(x, m)]
        base_may_be(codec, base, opts.base_quality, Err(x)) && message_may_be::<C>(x, m)
            && (r matches Err(e) && e.is_encode("base"@, m@))
    ||| exists|b: CodedImage, x: C::Error, m: String|
        #![trigger base_may_be(codec, base, opts.base_quality, Ok(b)), message_may_be::<C>(x, m)]
        base_may_be(codec, base, opts.base_quality, Ok(b)) && gain_may_be(
            codec,
            gain,
            opts.gain_quality,
            Err(x),
        ) && message_may_be::<C>(x, m) && (r matches Err(e) && e.is_encode("gain"@, m@))
    ||| exists|b: CodedImage, g: CodedImage, c: ColourInfo|
        #![trigger base_may_be(codec, base, opts.base_quality, Ok(b)), gain_may_be(codec, gain, opts.gain_quality, Ok(g)), colour_may_be(codec, opts.primaries, c)]
        base_may_be(codec, base, opts.base_quality, Ok(b)) && gain_may_be(
            codec,
            gain,
            opts.gain_quality,
            Ok(g),
        ) && colour_may_be(codec, opts.primaries, c) && is_assembled(b@, g@, c@, meta, opts, r)
}

impl<C: PlaneCodec> GainMapEncoder for MuxEngine<C> {
    type Error = MuxEngineError;

    /// The codec's name: the muxer is the same behind every codec.
    fn name(&self) -> (s: &'static str)
        ensures
            name_may_be(&self.0, s),
    {
        self.0.name()
    }

    /// Everything: the block, the packet and the items go into the file as they are.
    fn metadata_support(&self) -> (m: MetadataSupport)
        ensures
            m == MetadataSupport::each(true),
    {
        MetadataSupport::all()
    }

    fn encode(
        &self,
        base: &Rgb,
        gain: &GainPlane,
        meta: &GainMapMeta,
        opts: &EncodeOptions,
    ) -> (r: Result<Vec<u8>, MuxEngineError>)
        ensures
            engine_may_answer(&self.0, base, gain, *meta, *opts, r),
    {
        let b = match self.0.encode_base(base, opts.base_quality) {
            Ok(b) => b,
            Err(x) => {
                assert(base_may_be(&self.0, base, opts.base_quality, Err(x)));
                let ghost failure = x;
                let message = C::message(x);
                assert(message_may_be::<C>(failure, message));
                return Err(MuxEngineError::Encode { plane: "base", message });
            },
        };
        assert(base_may_be(&self.0, base, opts.base_quality, Ok(b)));
        let g = match self.0.encode_gain(gain, opts.gain_quality) {
            Ok(g) => g,
            Err(x) => {
                assert(gain_may_be(&self.0, gain, opts.gain_quality, Err(x)));
                let ghost failure = x;
                let message = C::message(x);
                assert(message_may_be::<C>(failure, message));
                return Err(MuxEngineError::Encode { plane: "gain", message });
            },
        };
        assert(gain_may_be(&self.0, gain, opts.gain_quality, Ok(g)));
        let c = self.0.base_colour(opts.primaries);
        assert(colour_may_be(&self.0, opts.primaries, c));
        assemble(b, g, c, meta, opts)
    }
}

/// Pulls the coded image back out of a self-contained single-item HEIC.
///
/// Some encoders hand back a whole HEIF file rather than a bare bitstream. That
/// container is not the multi-item gain-map file being built, so the coded HEVC and its
/// `hvcC` have to come back out before [`mux`] can place them alongside the other
/// plane.
pub fn coded_image_from_heic(heic: &[u8], plane: &'static str) -> (r: Result<
    CodedImage,
    MuxEngineError,
>)
    ensures
        match file_of(heic@) {
            Err(x) => r matches Err(e) && e == MuxEngineError::Mux(x),
            Ok(f) => match f.primary {
                None => r matches Err(e) && e.is_encode(
                    plane@,
                    "encoder output has no primary item"@,
                ),
                Some(id) => match coded_of(f, id) {
                    Err(x) => r matches Err(e) && e == MuxEngineError::Mux(x),
                    Ok(c) => r matches Ok(image) && image@ == c,
                },
            },
        },
{
    let file = match HeifFile::parse(heic) {
        Ok(f) => f,
        Err(x) => {
            return Err(MuxEngineError::Mux(x));
        },
    };
    match file.primary_item() {
        None => Err(
            MuxEngineError::Encode {
                plane,
                message: "encoder output has no primary item".to_owned(),
            },
        ),
        Some(id) => match file.coded_image(id) {
            Ok(c) => Ok(c),
            Err(x) => Err(MuxEngineError::Mux(x)),
        },
    }
}

/// Chroma sampling for a plane the codec describes only as mono-or-not.
pub fn chroma_for(monochrome: bool) -> (c: Chroma)
    ensures
        c == if monochrome {
            Chroma::Monochrome
        } else {
            Chroma::Yuv420
        },
{
    if monochrome {
        Chroma::Monochrome
    } else {
        Chroma::Yuv420
    }
}

} // verus!
