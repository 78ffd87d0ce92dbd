//! The portable encoder: HEVC by `hpvca`, container by the muxer here.
//!
//! No platform frameworks, no GPL codec. `hpvca` encodes the base and the gain plane
//! as two independent single-item HEICs; [`mux`](crate::heif::write::mux) then
//! assembles them into one multi-item gain-map file.

pub mod apple;
pub mod block;
pub mod carried;
pub mod codec;
pub mod exif;
pub mod gainmap_tiff;
pub mod input;
pub mod realigned;
pub mod sidecar;
pub mod tiff;

use hpvca::EncodeError;
use vstd::prelude::*;

use crate::encode::{EncodeOptions, GainMapEncoder};
use crate::heif;
use crate::heif::engine::{engine_may_answer, MuxEngine, MuxEngineError};
use crate::meta::{GainMapMeta, GainPlane, Rgb};
use crate::opaque::MetadataSupport;
use crate::portable::codec::{encode_gain_heic, gain_handed_over, is_told, sides_fit, tell, HpvcaCodec};
use crate::text::join_text;

verus! {

/// Why a source could not be read or an output not be written.
#[derive(Debug)]
pub enum Error {
    Encode(String),
    Mux(heif::Error),
    /// A source file's format is not one of the decoders there are.
    UnsupportedInput(String),
    Decode(String),
}

impl Error {
    pub open spec fn says(self) -> Seq<char> {
        match self {
            Error::Encode(m) => "hevc encode: "@ + m@,
            Error::Mux(e) => "mux: "@ + e.says(),
            Error::UnsupportedInput(m) => "unsupported input: "@ + m@,
            Error::Decode(m) => "decode: "@ + m@,
        }
    }

    /// What went wrong.
    pub fn message(&self) -> (s: String)
        ensures
            s@ == self.says(),
    {
        match self {
            Error::Encode(m) => join_text("hevc encode: ", m.as_str()),
            Error::Mux(e) => {
                let t = e.message();
                join_text("mux: ", t.as_str())
            },
            Error::UnsupportedInput(m) => join_text("unsupported input: ", m.as_str()),
            Error::Decode(m) => join_text("decode: ", m.as_str()),
        }
    }

    /// `self` is what an engine's failure becomes.
    pub open spec fn is_from(self, e: MuxEngineError) -> bool {
        match e {
            MuxEngineError::Encode { plane, message } => self matches Error::Encode(m) && m@
                == plane@ + ": "@ + message@,
            MuxEngineError::Mux(x) => self == Error::Mux(x),
        }
    }
}

/// What an engine's failure becomes.
pub fn from_engine(e: MuxEngineError) -> (r: Error)
    ensures
        r.is_from(e),
{
    match e {
        MuxEngineError::Encode { plane, message } => {
            let mut s = join_text(plane, ": ");
            s.append(message.as_str());
            Error::Encode(s)
        },
        MuxEngineError::Mux(x) => Error::Mux(x),
    }
}

/// The portable encoder: [`HpvcaCodec`] wired into [`MuxEngine`].
#[derive(Debug, Default, Clone, Copy)]
pub struct PortableEngine;

/// What the portable encoder may answer.
pub open spec fn portable_may_answer(
    base: &Rgb,
    gain: &GainPlane,
    meta: GainMapMeta,
    opts: EncodeOptions,
    r: Result<Vec<u8>, Error>,
) -> bool {
    exists|x: Result<Vec<u8>, MuxEngineError>| #[trigger]
        engine_may_answer(&HpvcaCodec, base, gain, meta, opts, x) && match x {
            Ok(v) => r == Ok::<Vec<u8>, Error>(v),
            Err(e) => r matches Err(f) && f.is_from(e),
        }
}

impl GainMapEncoder for PortableEngine {
    type Error = Error;

    fn name(&self) -> (s: &'static str)
        ensures
            s@ == "portable-hpvca"@,
    {
        "portable-hpvca"
    }

    fn metadata_support(&self) -> (m: MetadataSupport)
        ensures
            m == MetadataSupport::each(true),
    {
        MuxEngine::new(HpvcaCodec).metadata_support()
    }

    fn encode(
        &self,
        base: &Rgb,
        gain: &GainPlane,
        meta: &GainMapMeta,
        opts: &EncodeOptions,
    ) -> (r: Result<Vec<u8>, Error>)
        ensures
            portable_may_answer(base, gain, *meta, *opts, r),
    {
        let x = MuxEngine::new(HpvcaCodec).encode(base, gain, meta, opts);
        assert(engine_may_answer(&HpvcaCodec, base, gain, *meta, *opts, x));
        match x {
            Ok(v) => Ok(v),
            Err(e) => Err(from_engine(e)),
        }
    }
}

/// The codec's own single-item HEIC for the gain plane, before the muxer re-wraps it,
/// so that its `pixi`/`hvcC` can be inspected separately.
pub fn debug_encode_gain_heic(gain: &GainPlane, quality: u8) -> (r: Result<Vec<u8>, Error>)
    ensures
        match r {
            Ok(v) => gain_handed_over(*gain, quality, Ok(v)),
            Err(e) => e matches Error::Encode(t) && exists|x: EncodeError|
                #![trigger gain_handed_over(*gain, quality, Err(x))]
                gain_handed_over(*gain, quality, Err(x)) && is_told(x, t),
        },
        !sides_fit(gain.width, gain.height) ==> r is Err,
        gain.data@.len() != gain.width * gain.height ==> r is Err,
{
    match encode_gain_heic(gain, quality) {
        Ok(v) => Ok(v),
        Err(e) => Err(Error::Encode(tell(&e))),
    }
}

} // verus!
