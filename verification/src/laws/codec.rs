//! Which pictures the codec is handed, and what is taken of what it makes of them.

use hpvca::EncodeError;
use vstd::prelude::*;

use crate::colour::Primaries;
use crate::heif::engine::PlaneCodec;
use crate::heif::model::{data_of, file_of, ColourView};
use crate::heif::{Chroma, CodedImage, ColourInfo, Error};
use crate::meta::{GainPlane, Rgb};
use crate::portable::codec::{
    a_coded_plane_is_the_primary_item, asks_for, base_handed_over, encode_base_heic,
    encode_gain_heic, gain_handed_over, mono_answered, rgb10_answered, rgb12_answered,
    rgb8_answered, the_base_is_handed_over_as_it_is, the_gain_plane_is_handed_over_as_it_is,
    HpvcaCodec, Settings,
};

verus! {

/// Whether `r` is the codec's answer to a gain plane as it is: luma sample `i` is sample `i` of the
/// plane.
pub open spec fn is_answer_to_gain(
    gain: GainPlane,
    quality: u8,
    r: Result<Vec<u8>, EncodeError>,
) -> bool {
    exists|y: Seq<u16>, s: Settings| #[trigger]
        mono_answered(y, gain.width, gain.height, s, r) && asks_for(s, quality, Chroma::Monochrome)
            && y.len() == gain.data@.len() && forall|i: int|
            0 <= i < y.len() ==> #[trigger] y[i] == gain.data@[i]
}

/// The chroma format of the base: 4:4:4 from quality 95 on.
pub open spec fn base_chroma(quality: u8) -> Chroma {
    if quality >= 95 {
        Chroma::Yuv444
    } else {
        Chroma::Yuv420
    }
}

/// Whether `r` is the codec's answer to a base as it is, sample by sample.
pub open spec fn is_answer_to_base(
    base: Rgb,
    quality: u8,
    r: Result<Vec<u8>, EncodeError>,
) -> bool {
    if base.bits == 8 {
        exists|p: Seq<u8>, s: Settings| #[trigger]
            rgb8_answered(p, base.width, base.height, s, r) && asks_for(
                s,
                quality,
                base_chroma(quality),
            ) && p.len() == base.data@.len() && forall|i: int|
                0 <= i < p.len() ==> (base.data@[i] <= 255 ==> #[trigger] p[i] == base.data@[i])
    } else if base.bits == 10 {
        exists|s: Settings| #[trigger]
            rgb10_answered(base.data@, base.width, base.height, s, r) && asks_for(
                s,
                quality,
                base_chroma(quality),
            )
    } else {
        base.bits == 12 && exists|s: Settings| #[trigger]
            rgb12_answered(base.data@, base.width, base.height, s, r) && asks_for(
                s,
                quality,
                base_chroma(quality),
            )
    }
}

proof fn lemma_gain(gain: GainPlane, quality: u8, r: Result<Vec<u8>, EncodeError>)
    requires
        gain_handed_over(gain, quality, r),
        gain.data@.len() == gain.width * gain.height,
    ensures
        is_answer_to_gain(gain, quality, r),
{
    the_gain_plane_is_handed_over_as_it_is(gain, quality, r);
    let (y, s) = choose|y: Seq<u16>, s: Settings| #[trigger]
        mono_answered(y, gain.width, gain.height, s, r) && asks_for(s, quality, Chroma::Monochrome)
            && y.len() == gain.data@.len() && forall|i: int|
            0 <= i < y.len() ==> #[trigger] y[i] == gain.data@[i];
    assert(mono_answered(y, gain.width, gain.height, s, r));
}

proof fn lemma_base(base: Rgb, quality: u8, r: Result<Vec<u8>, EncodeError>)
    requires
        base_handed_over(base, quality, r),
        base.bits == 8 || base.bits == 10 || base.bits == 12,
    ensures
        is_answer_to_base(base, quality, r),
{
    the_base_is_handed_over_as_it_is(base, quality, r);
    if base.bits == 8 {
        let (p, s) = choose|p: Seq<u8>, s: Settings| #[trigger]
            rgb8_answered(p, base.width, base.height, s, r) && asks_for(
                s,
                quality,
                base_chroma(quality),
            ) && p.len() == base.data@.len() && forall|i: int|
                0 <= i < p.len() ==> (base.data@[i] <= 255 ==> #[trigger] p[i] == base.data@[i])
                    && (base.data@[i] - p[i]) % 256 == 0;
        assert(rgb8_answered(p, base.width, base.height, s, r));
    }
}

/// A gain plane is encoded as it is: highlights stay highlights. Only one with too few or too many
/// samples is refused unseen.
pub proof fn a_gain_plane_is_encoded_as_it_is(
    gain: &GainPlane,
    quality: u8,
    r: Result<Vec<u8>, EncodeError>,
)
    requires
        call_ensures(encode_gain_heic, (gain, quality), r),
    ensures
        if gain.data@.len() == gain.width * gain.height {
            is_answer_to_gain(*gain, quality, r)
        } else {
            r is Err
        },
{
    if gain.data@.len() == gain.width * gain.height {
        lemma_gain(*gain, quality, r);
    }
}

/// A base of 8, 10 or 12 bits is encoded as it is, and one of any other depth is refused.
pub proof fn a_base_is_encoded_as_it_is(base: &Rgb, quality: u8, r: Result<Vec<u8>, EncodeError>)
    requires
        call_ensures(encode_base_heic, (base, quality), r),
    ensures
        if base.bits == 8 || base.bits == 10 || base.bits == 12 {
            is_answer_to_base(*base, quality, r)
        } else {
            r is Err
        },
{
    if base.bits == 8 || base.bits == 10 || base.bits == 12 {
        lemma_base(*base, quality, r);
    }
}

/// Whether a coded image is the primary item of a file that the codec made.
pub open spec fn is_primary_of(heic: Seq<u8>, image: CodedImage) -> bool {
    file_of(heic) matches Ok(f) && f.primary matches Some(id) && data_of(f, id) == Ok::<
        Seq<u8>,
        Error,
    >(image.data@)
}

/// A coded gain plane is the primary item of what the codec made of the plane as it is, at the
/// quality that was asked for.
pub proof fn a_coded_gain_plane_is_the_codecs(
    codec: &HpvcaCodec,
    gain: &GainPlane,
    quality: u8,
    image: CodedImage,
)
    requires
        call_ensures(<HpvcaCodec as PlaneCodec>::encode_gain, (codec, gain, quality), Ok(image)),
    ensures
        exists|heic: Vec<u8>| #[trigger]
            is_answer_to_gain(*gain, quality, Ok(heic)) && is_primary_of(heic@, image),
{
    let x = choose|x: Result<Vec<u8>, EncodeError>| #[trigger]
        gain_handed_over(*gain, quality, x) && match x {
            Ok(heic) => crate::portable::codec::taken_out(heic@, "gain"@, Ok(image)),
            Err(f) => false,
        };
    let heic = x->Ok_0;
    the_gain_plane_is_handed_over_as_it_is(*gain, quality, x);
    lemma_gain(*gain, quality, x);
    a_coded_plane_is_the_primary_item(heic@, "gain"@, image);
    assert(is_answer_to_gain(*gain, quality, Ok(heic)));
}

/// A coded base is the primary item of what the codec made of the base as it is, at the quality
/// that was asked for.
pub proof fn a_coded_base_is_the_codecs(
    codec: &HpvcaCodec,
    base: &Rgb,
    quality: u8,
    image: CodedImage,
)
    requires
        call_ensures(<HpvcaCodec as PlaneCodec>::encode_base, (codec, base, quality), Ok(image)),
    ensures
        exists|heic: Vec<u8>| #[trigger]
            is_answer_to_base(*base, quality, Ok(heic)) && is_primary_of(heic@, image),
{
    let x = choose|x: Result<Vec<u8>, EncodeError>| #[trigger]
        base_handed_over(*base, quality, x) && match x {
            Ok(heic) => crate::portable::codec::taken_out(heic@, "base"@, Ok(image)),
            Err(f) => false,
        };
    let heic = x->Ok_0;
    the_base_is_handed_over_as_it_is(*base, quality, x);
    lemma_base(*base, quality, x);
    a_coded_plane_is_the_primary_item(heic@, "base"@, image);
    assert(is_answer_to_base(*base, quality, Ok(heic)));
}

/// The codec makes YCbCr by the matrix of BT.601 (6), over the full range, of sRGB-encoded samples
/// (13), whatever their primaries, which are declared by their code.
pub proof fn the_codec_declares_what_it_did(codec: &HpvcaCodec, p: Primaries, c: ColourInfo)
    requires
        call_ensures(<HpvcaCodec as PlaneCodec>::base_colour, (codec, p), c),
    ensures
        c@ == (ColourView::Nclx {
            primaries: match p {
                Primaries::Bt709 => 1,
                Primaries::DisplayP3 => 12,
                Primaries::Bt2020 => 9,
            },
            transfer: 13,
            matrix: 6,
            full_range: true,
        }),
{
}

} // verus!
