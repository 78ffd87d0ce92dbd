//! Shared image and gain-map types.

use vstd::arithmetic::power2::{lemma2_to64, lemma_pow2_pos, lemma_pow2_strictly_increases, pow2};
use vstd::prelude::*;

use crate::binary32::{two_to, Binary32};

verus! {

/// Interleaved RGB, one `u16` per sample, values in `0..=(1 << bits) - 1`.
///
/// `u16` regardless of depth so 8- and 10-bit bases share one path; the encoder
/// narrows when it must.
#[derive(Clone, Debug)]
pub struct Rgb {
    pub width: u32,
    pub height: u32,
    pub bits: u8,
    pub data: Vec<u16>,
}

impl Rgb {
    /// Largest sample value at this depth. Depths past 16 saturate at what a
    /// sample can hold.
    pub fn max_value(&self) -> (v: u16)
        requires
            self.bits < 32,
        ensures
            v == if self.bits >= 16 {
                0xffff
            } else {
                pow2(self.bits as nat) - 1
            },
    {
        if self.bits >= 16 {
            0xffff
        } else {
            proof {
                lemma2_to64();
                lemma_pow2_strictly_increases(self.bits as nat, 16);
                lemma_pow2_pos(self.bits as nat);
            }
            (two_to(self.bits as u32) - 1) as u16
        }
    }

    /// How many samples the dimensions call for.
    pub fn expected_len(&self) -> (n: usize)
        requires
            self.width * self.height * 3 <= usize::MAX,
        ensures
            n == self.width * self.height * 3,
    {
        assert(self.width * self.height <= self.width * self.height * 3);
        self.width as usize * self.height as usize * 3
    }
}

/// The gain-map plane itself. Single channel: Apple's is monochrome, and ISO
/// 21496-1 permits 1 or 3. Often stored at half the base resolution.
#[derive(Clone, Debug)]
pub struct GainPlane {
    pub width: u32,
    pub height: u32,
    pub data: Vec<u8>,
}

impl GainPlane {
    /// How many samples the dimensions call for.
    pub fn expected_len(&self) -> (n: usize)
        requires
            self.width * self.height <= usize::MAX,
        ensures
            n == self.width * self.height,
    {
        self.width as usize * self.height as usize
    }
}

/// One parameter, per colour channel. A monochrome map has one value three times.
#[derive(Clone, Copy, Debug, PartialEq, Eq, Structural)]
pub struct Channels {
    pub r: Binary32,
    pub g: Binary32,
    pub b: Binary32,
}

/// Flavor-neutral gain-map parameters.
///
/// `*_log2` are base-2 log gains, in ISO 21496-1's sense.
#[derive(Clone, Copy, Debug, PartialEq, Eq, Structural)]
pub struct GainMapMeta {
    /// log2 gain applied where the map reads 0.
    pub min_log2: Channels,
    /// log2 gain applied where the map reads max.
    pub max_log2: Channels,
    pub gamma: Channels,
    /// Added to base samples before applying gain, to keep 0 from pinning.
    pub base_offset: Channels,
    /// Added to the reconstructed alternate samples.
    pub alt_offset: Channels,
    /// log2 headroom of the base image. Zero for an SDR base.
    pub base_headroom: Binary32,
    /// log2 headroom once the gain map is fully applied.
    pub alt_headroom: Binary32,
    /// Run the gain-map math in the base image's color space rather than the
    /// alternate's.
    pub use_base_color_space: bool,
}

impl Channels {
    /// The same value in all three channels.
    pub open spec fn all(v: Binary32) -> Channels {
        Channels { r: v, g: v, b: v }
    }

    /// The same value in all three channels.
    pub fn uniform(v: Binary32) -> (c: Channels)
        ensures
            c == Channels::all(v),
    {
        Channels { r: v, g: v, b: v }
    }
}

/// The bit pattern of 1/64.
pub const ONE_64TH: u32 = 0x3c80_0000;

/// The bit pattern of 1.
pub const ONE: u32 = 0x3f80_0000;

/// The bit pattern of 2.
pub const TWO: u32 = 0x4000_0000;

impl Default for GainMapMeta {
    /// SDR base, ~2 stops of headroom, gamma 1.0: a sane starting point, not
    /// a spec default.
    fn default() -> (m: GainMapMeta)
        ensures
            m == (GainMapMeta {
                min_log2: Channels::all(Binary32 { bits: 0 }),
                max_log2: Channels::all(Binary32 { bits: TWO }),
                gamma: Channels::all(Binary32 { bits: ONE }),
                base_offset: Channels::all(Binary32 { bits: ONE_64TH }),
                alt_offset: Channels::all(Binary32 { bits: ONE_64TH }),
                base_headroom: Binary32 { bits: 0 },
                alt_headroom: Binary32 { bits: TWO },
                use_base_color_space: true,
            }),
    {
        GainMapMeta {
            min_log2: Channels::uniform(Binary32 { bits: 0 }),
            max_log2: Channels::uniform(Binary32 { bits: TWO }),
            gamma: Channels::uniform(Binary32 { bits: ONE }),
            base_offset: Channels::uniform(Binary32 { bits: ONE_64TH }),
            alt_offset: Channels::uniform(Binary32 { bits: ONE_64TH }),
            base_headroom: Binary32 { bits: 0 },
            alt_headroom: Binary32 { bits: TWO },
            use_base_color_space: true,
        }
    }
}

} // verus!
