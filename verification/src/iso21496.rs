//! ISO 21496-1 gain-map metadata (clause C.2.2), as bytes and back.
//!
//! The payload is container-agnostic: HEIC and AVIF both carry these exact bytes
//! as a `tmap` item's payload, and JXL carries them inside its `jhgm` box. Every
//! field is byte-aligned: two version numbers, one flags byte, then fractions of
//! two big-endian 32-bit integers.

use vstd::arithmetic::power2::pow2;
use vstd::prelude::*;

use crate::binary32::{divide, ratio, rounding_to_65536ths_is_close, Binary32};
use crate::bytes::{be16, be16_bytes, be32, be32_bytes, get_be16, get_be32, push_be16, push_be32};
use crate::bytes::{group_encoded_lengths, lemma_be16_read_back, lemma_be32_read_back};
use crate::meta::{Channels, GainMapMeta};

verus! {

broadcast use group_encoded_lengths;

/// The denominator every fraction is written over: values quantize to the nearest
/// multiple of 1/65536 regardless of magnitude.
pub const RATIONAL_DENOM: u32 = 0x1_0000;

/// The bit pattern of 64, the widest magnitude accepted from a file. 64 stops is
/// 1.8e19:1, orders of magnitude beyond any camera, display, or file format in use.
pub const MAX_ABS_LOG2: u32 = 0x4280_0000;

/// A field of the metadata, as error messages name it.
#[derive(Clone, Copy, Debug, PartialEq, Eq, Structural)]
pub enum Field {
    BaseHdrHeadroom,
    AlternateHdrHeadroom,
    GainMapMin,
    GainMapMax,
    Gamma,
    BaseOffset,
    AlternateOffset,
}

/// Why a payload was refused.
#[derive(Clone, Copy, Debug, PartialEq, Eq, Structural)]
pub enum ParseError {
    /// Fewer bytes than the declared layout requires.
    Truncated,
    /// `minimum_version` was nonzero; only version 0's layout is known.
    UnsupportedVersion(u16),
    /// A fraction's denominator was 0.
    ZeroDenominator,
    /// A quantity far outside anything a real capture produces. Rejecting it here
    /// keeps an overflowing exponential from being the pixel path's problem.
    OutOfRange { field: Field, value: Binary32 },
}

/// Whether a value's magnitude is past what is accepted. True of infinities and
/// NaNs, whose bit patterns are larger still.
pub open spec fn beyond_range(v: Binary32) -> bool {
    v.bits % 0x8000_0000 > MAX_ABS_LOG2
}

/// The 32-bit two's-complement pattern of `n`.
pub open spec fn twos(n: int) -> u32 {
    if n < 0 {
        (n + 0x1_0000_0000) as u32
    } else {
        n as u32
    }
}

/// The signed value of a 32-bit two's-complement pattern.
pub open spec fn signed(v: u32) -> int {
    if v >= 0x8000_0000 {
        v - 0x1_0000_0000
    } else {
        v as int
    }
}

/// A numerator and its denominator, written out.
pub open spec fn fraction_bytes(n: u32) -> Seq<u8> {
    be32_bytes(n) + be32_bytes(RATIONAL_DENOM)
}

/// The five parameters of one channel.
pub struct OneChannel {
    pub min_log2: Binary32,
    pub max_log2: Binary32,
    pub gamma: Binary32,
    pub base_offset: Binary32,
    pub alt_offset: Binary32,
}

impl GainMapMeta {
    /// The parameters of channel `c`, counted red, green, blue.
    pub open spec fn channel(self, c: int) -> OneChannel {
        let pick = |v: Channels|
            if c == 0 {
                v.r
            } else if c == 1 {
                v.g
            } else {
                v.b
            };
        OneChannel {
            min_log2: pick(self.min_log2),
            max_log2: pick(self.max_log2),
            gamma: pick(self.gamma),
            base_offset: pick(self.base_offset),
            alt_offset: pick(self.alt_offset),
        }
    }

    /// Whether all three channels carry the same parameters, in which case one is
    /// written for all.
    pub open spec fn one_channel_suffices(self) -> bool {
        same_in_all(self.min_log2) && same_in_all(self.max_log2) && same_in_all(self.gamma)
            && same_in_all(self.base_offset) && same_in_all(self.alt_offset)
    }
}

#[verifier::opaque]
pub open spec fn same_in_all(v: Channels) -> bool {
    v.r.equals(v.g) && v.r.equals(v.b)
}

/// One channel's fractions. Gamma is unsigned, the others signed.
pub open spec fn channel_bytes(c: OneChannel) -> Seq<u8> {
    fraction_bytes(twos(c.min_log2.signed_65536ths())) + fraction_bytes(
        twos(c.max_log2.signed_65536ths()),
    ) + fraction_bytes(c.gamma.unsigned_65536ths() as u32) + fraction_bytes(
        twos(c.base_offset.signed_65536ths()),
    ) + fraction_bytes(twos(c.alt_offset.signed_65536ths()))
}

/// The flags byte: multichannel in bit 7, base colour space in bit 6.
pub open spec fn flags_of(meta: GainMapMeta) -> u8 {
    ((if meta.one_channel_suffices() {
        0int
    } else {
        0x80
    }) + (if meta.use_base_color_space {
        0x40int
    } else {
        0
    })) as u8
}

/// Everything before the channels: versions, flags and the two headrooms.
pub open spec fn head_bytes(meta: GainMapMeta) -> Seq<u8> {
    be16_bytes(0) + be16_bytes(0) + seq![flags_of(meta)] + fraction_bytes(
        meta.base_headroom.unsigned_65536ths() as u32,
    ) + fraction_bytes(meta.alt_headroom.unsigned_65536ths() as u32)
}

/// The C.2.2 payload of `meta`.
pub open spec fn serialized(meta: GainMapMeta) -> Seq<u8> {
    if meta.one_channel_suffices() {
        head_bytes(meta) + channel_bytes(meta.channel(0))
    } else {
        head_bytes(meta) + channel_bytes(meta.channel(0)) + channel_bytes(meta.channel(1))
            + channel_bytes(meta.channel(2))
    }
}

fn same_in_all_channels(v: &Channels) -> (b: bool)
    ensures
        b == same_in_all(*v),
{
    proof {
        reveal(same_in_all);
    }
    v.r.same_number(v.g) && v.r.same_number(v.b)
}

/// Tests whether all three channels carry identical parameters.
fn channels_identical(meta: &GainMapMeta) -> (b: bool)
    ensures
        b == meta.one_channel_suffices(),
{
    same_in_all_channels(&meta.min_log2) && same_in_all_channels(&meta.max_log2)
        && same_in_all_channels(&meta.gamma) && same_in_all_channels(&meta.base_offset)
        && same_in_all_channels(&meta.alt_offset)
}

fn push_signed(buf: &mut Vec<u8>, v: Binary32)
    ensures
        final(buf)@ == old(buf)@ + fraction_bytes(twos(v.signed_65536ths())),
{
    let n: i32 = v.to_signed_65536ths();
    let u: u32 = if n < 0 {
        (n as i64 + 0x1_0000_0000) as u32
    } else {
        n as u32
    };
    push_be32(buf, u);
    push_be32(buf, RATIONAL_DENOM);
    assert(buf@ =~= old(buf)@ + fraction_bytes(twos(v.signed_65536ths())));
}

fn push_unsigned(buf: &mut Vec<u8>, v: Binary32)
    ensures
        final(buf)@ == old(buf)@ + fraction_bytes(v.unsigned_65536ths() as u32),
{
    push_be32(buf, v.to_unsigned_65536ths());
    push_be32(buf, RATIONAL_DENOM);
    assert(buf@ =~= old(buf)@ + fraction_bytes(v.unsigned_65536ths() as u32));
}

fn push_channel(
    buf: &mut Vec<u8>,
    min_log2: Binary32,
    max_log2: Binary32,
    gamma: Binary32,
    base_offset: Binary32,
    alt_offset: Binary32,
)
    ensures
        final(buf)@ == old(buf)@ + channel_bytes(
            OneChannel { min_log2, max_log2, gamma, base_offset, alt_offset },
        ),
{
    push_signed(buf, min_log2);
    push_signed(buf, max_log2);
    push_unsigned(buf, gamma);
    push_signed(buf, base_offset);
    push_signed(buf, alt_offset);
    assert(buf@ =~= old(buf)@ + channel_bytes(
        OneChannel { min_log2, max_log2, gamma, base_offset, alt_offset },
    ));
}

/// Serializes clause C.2.2 `GainMapMetadata` (not the outer `ToneMapImage`
/// version byte, which callers put in front themselves).
pub fn serialize(meta: &GainMapMeta) -> (buf: Vec<u8>)
    ensures
        buf@ == serialized(*meta),
{
    let single: bool = channels_identical(meta);
    let mut buf: Vec<u8> = Vec::new();
    push_be16(&mut buf, 0);
    push_be16(&mut buf, 0);
    let multi: u8 = if single {
        0
    } else {
        0x80
    };
    let base_space: u8 = if meta.use_base_color_space {
        0x40
    } else {
        0
    };
    buf.push(multi + base_space);
    push_unsigned(&mut buf, meta.base_headroom);
    push_unsigned(&mut buf, meta.alt_headroom);
    assert(buf@ =~= head_bytes(*meta));
    push_channel(
        &mut buf,
        meta.min_log2.r,
        meta.max_log2.r,
        meta.gamma.r,
        meta.base_offset.r,
        meta.alt_offset.r,
    );
    assert(buf@ =~= head_bytes(*meta) + channel_bytes(meta.channel(0)));
    if !single {
        push_channel(
            &mut buf,
            meta.min_log2.g,
            meta.max_log2.g,
            meta.gamma.g,
            meta.base_offset.g,
            meta.alt_offset.g,
        );
        push_channel(
            &mut buf,
            meta.min_log2.b,
            meta.max_log2.b,
            meta.gamma.b,
            meta.base_offset.b,
            meta.alt_offset.b,
        );
    }
    buf
}

/// Whether fraction `i` of a payload has a signed numerator. The two headrooms
/// come first, then five fractions per channel with gamma third.
pub open spec fn is_signed(i: int) -> bool {
    i >= 2 && (i - 2) % 5 != 2
}

/// Fraction `i` of a payload, as a number.
pub open spec fn fraction(s: Seq<u8>, i: int) -> Result<Binary32, ParseError> {
    let at = 5 + 8 * i;
    if at + 8 > s.len() {
        Err(ParseError::Truncated)
    } else if be32(s, at + 4) == 0 {
        Err(ParseError::ZeroDenominator)
    } else if is_signed(i) {
        Ok(ratio(signed(be32(s, at)), be32(s, at + 4) as nat))
    } else {
        Ok(ratio(be32(s, at) as int, be32(s, at + 4) as nat))
    }
}

/// The first problem among fractions `i..n`.
pub open spec fn first_failure(s: Seq<u8>, i: int, n: int) -> Option<ParseError>
    decreases n - i,
{
    if i >= n {
        None
    } else {
        match fraction(s, i) {
            Err(e) => Some(e),
            Ok(_) => first_failure(s, i + 1, n),
        }
    }
}

/// A channel's parameter `j`, replicated from the first channel when there is
/// only one.
pub open spec fn parameter(s: Seq<u8>, multi: bool, j: int) -> Channels {
    let at = |c: int|
        match fraction(s, 2 + j + if multi { 5 * c } else { 0 }) {
            Ok(v) => v,
            Err(_) => Binary32 { bits: 0 },
        };
    Channels { r: at(0), g: at(1), b: at(2) }
}

/// The parameters a payload whose fractions are all readable states.
pub open spec fn stated(s: Seq<u8>) -> GainMapMeta {
    let multi = s[4] >= 0x80;
    GainMapMeta {
        min_log2: parameter(s, multi, 0),
        max_log2: parameter(s, multi, 1),
        gamma: parameter(s, multi, 2),
        base_offset: parameter(s, multi, 3),
        alt_offset: parameter(s, multi, 4),
        base_headroom: fraction(s, 0)->Ok_0,
        alt_headroom: fraction(s, 1)->Ok_0,
        use_base_color_space: s[4] % 0x80 >= 0x40,
    }
}

/// The first of one channel's parameters that is past the accepted range.
pub open spec fn channel_violation(c: OneChannel) -> Option<ParseError> {
    if beyond_range(c.min_log2) {
        Some(ParseError::OutOfRange { field: Field::GainMapMin, value: c.min_log2 })
    } else if beyond_range(c.max_log2) {
        Some(ParseError::OutOfRange { field: Field::GainMapMax, value: c.max_log2 })
    } else if beyond_range(c.gamma) {
        Some(ParseError::OutOfRange { field: Field::Gamma, value: c.gamma })
    } else if beyond_range(c.base_offset) {
        Some(ParseError::OutOfRange { field: Field::BaseOffset, value: c.base_offset })
    } else if beyond_range(c.alt_offset) {
        Some(ParseError::OutOfRange { field: Field::AlternateOffset, value: c.alt_offset })
    } else {
        None
    }
}

/// The first parameter that is past the accepted range: headrooms first, then
/// each channel in turn.
pub open spec fn violation(m: GainMapMeta) -> Option<ParseError> {
    if beyond_range(m.base_headroom) {
        Some(ParseError::OutOfRange { field: Field::BaseHdrHeadroom, value: m.base_headroom })
    } else if beyond_range(m.alt_headroom) {
        Some(ParseError::OutOfRange { field: Field::AlternateHdrHeadroom, value: m.alt_headroom })
    } else if channel_violation(m.channel(0)) is Some {
        channel_violation(m.channel(0))
    } else if channel_violation(m.channel(1)) is Some {
        channel_violation(m.channel(1))
    } else {
        channel_violation(m.channel(2))
    }
}

/// How many fractions a payload with flags byte `flags` holds.
pub open spec fn fraction_count(flags: u8) -> int {
    if flags >= 0x80 {
        17
    } else {
        7
    }
}

/// What a payload states, or why it is refused.
pub open spec fn parsed(s: Seq<u8>) -> Result<GainMapMeta, ParseError> {
    if s.len() < 4 {
        Err(ParseError::Truncated)
    } else if be16(s, 0) != 0 {
        Err(ParseError::UnsupportedVersion(be16(s, 0)))
    } else if s.len() < 5 {
        Err(ParseError::Truncated)
    } else {
        match first_failure(s, 0, fraction_count(s[4])) {
            Some(e) => Err(e),
            None => match violation(stated(s)) {
                Some(e) => Err(e),
                None => Ok(stated(s)),
            },
        }
    }
}

fn check_range(field: Field, value: Binary32) -> (r: Result<(), ParseError>)
    ensures
        r == if beyond_range(value) {
            Err::<(), ParseError>(ParseError::OutOfRange { field, value })
        } else {
            Ok::<(), ParseError>(())
        },
{
    if value.bits % 0x8000_0000 > MAX_ABS_LOG2 {
        Err(ParseError::OutOfRange { field, value })
    } else {
        Ok(())
    }
}

fn check_channel(
    min_log2: Binary32,
    max_log2: Binary32,
    gamma: Binary32,
    base_offset: Binary32,
    alt_offset: Binary32,
) -> (r: Result<(), ParseError>)
    ensures
        match channel_violation(OneChannel { min_log2, max_log2, gamma, base_offset, alt_offset }) {
            Some(e) => r == Err::<(), ParseError>(e),
            None => r is Ok,
        },
{
    check_range(Field::GainMapMin, min_log2)?;
    check_range(Field::GainMapMax, max_log2)?;
    check_range(Field::Gamma, gamma)?;
    check_range(Field::BaseOffset, base_offset)?;
    check_range(Field::AlternateOffset, alt_offset)
}

fn check_all(m: &GainMapMeta) -> (r: Result<(), ParseError>)
    ensures
        match violation(*m) {
            Some(e) => r == Err::<(), ParseError>(e),
            None => r is Ok,
        },
{
    check_range(Field::BaseHdrHeadroom, m.base_headroom)?;
    check_range(Field::AlternateHdrHeadroom, m.alt_headroom)?;
    check_channel(m.min_log2.r, m.max_log2.r, m.gamma.r, m.base_offset.r, m.alt_offset.r)?;
    check_channel(m.min_log2.g, m.max_log2.g, m.gamma.g, m.base_offset.g, m.alt_offset.g)?;
    check_channel(m.min_log2.b, m.max_log2.b, m.gamma.b, m.base_offset.b, m.alt_offset.b)
}

fn read_fraction(s: &[u8], i: usize) -> (r: Result<Binary32, ParseError>)
    requires
        i < 17,
    ensures
        r == fraction(s@, i as int),
{
    let at: usize = 5 + 8 * i;
    if s.len() < at + 8 {
        return Err(ParseError::Truncated);
    }
    let n: u32 = get_be32(s, at);
    let d: u32 = get_be32(s, at + 4);
    if d == 0 {
        return Err(ParseError::ZeroDenominator);
    }
    if i >= 2 && (i - 2) % 5 != 2 && n >= 0x8000_0000 {
        Ok(divide(n as i64 - 0x1_0000_0000, d))
    } else {
        Ok(divide(n as i64, d))
    }
}

/// Parses clause C.2.2 `GainMapMetadata`. Inverse of [`serialize`].
pub fn parse(bytes: &[u8]) -> (r: Result<GainMapMeta, ParseError>)
    ensures
        r == parsed(bytes@),
{
    if bytes.len() < 4 {
        return Err(ParseError::Truncated);
    }
    let minimum_version: u16 = get_be16(bytes, 0);
    if minimum_version != 0 {
        return Err(ParseError::UnsupportedVersion(minimum_version));
    }
    if bytes.len() < 5 {
        return Err(ParseError::Truncated);
    }
    let flags: u8 = bytes[4];
    let multi: bool = flags >= 0x80;
    let count: usize = if multi {
        17
    } else {
        7
    };
    let mut v: Vec<Binary32> = Vec::new();
    let mut i: usize = 0;
    while i < count
        invariant
            i <= count <= 17,
            v@.len() == i,
            bytes@.len() >= 5,
            be16(bytes@, 0) == 0,
            count == fraction_count(bytes@[4]),
            forall|k: int| 0 <= k < i ==> fraction(bytes@, k) == Ok::<Binary32, ParseError>(v@[k]),
            first_failure(bytes@, 0, count as int) == first_failure(
                bytes@,
                i as int,
                count as int,
            ),
        decreases count - i,
    {
        match read_fraction(bytes, i) {
            Ok(x) => {
                v.push(x);
            },
            Err(e) => {
                return Err(e);
            },
        }
        i = i + 1;
    }
    let c1: usize = if multi {
        5
    } else {
        0
    };
    let c2: usize = 2 * c1;
    let m = GainMapMeta {
        min_log2: Channels { r: v[2], g: v[2 + c1], b: v[2 + c2] },
        max_log2: Channels { r: v[3], g: v[3 + c1], b: v[3 + c2] },
        gamma: Channels { r: v[4], g: v[4 + c1], b: v[4 + c2] },
        base_offset: Channels { r: v[5], g: v[5 + c1], b: v[5 + c2] },
        alt_offset: Channels { r: v[6], g: v[6 + c1], b: v[6 + c2] },
        base_headroom: v[0],
        alt_headroom: v[1],
        use_base_color_space: flags % 0x80 >= 0x40,
    };
    assert(m == stated(bytes@));
    check_all(&m)?;
    Ok(m)
}

/// A signed parameter as a payload can state it.
pub open spec fn quantized_signed(v: Binary32) -> Binary32 {
    ratio(v.signed_65536ths(), RATIONAL_DENOM as nat)
}

/// An unsigned parameter as a payload can state it.
pub open spec fn quantized_unsigned(v: Binary32) -> Binary32 {
    ratio(v.unsigned_65536ths(), RATIONAL_DENOM as nat)
}

/// One parameter of every channel, as a payload can state it.
pub open spec fn quantized_channels(
    v: Channels,
    one: bool,
    q: spec_fn(Binary32) -> Binary32,
) -> Channels {
    Channels {
        r: q(v.r),
        g: if one {
            q(v.r)
        } else {
            q(v.g)
        },
        b: if one {
            q(v.r)
        } else {
            q(v.b)
        },
    }
}

/// `meta` with every value replaced by the multiple of 1/65536 it is written as.
pub open spec fn quantized(m: GainMapMeta) -> GainMapMeta {
    let one = m.one_channel_suffices();
    let s = |v: Binary32| quantized_signed(v);
    let u = |v: Binary32| quantized_unsigned(v);
    GainMapMeta {
        min_log2: quantized_channels(m.min_log2, one, s),
        max_log2: quantized_channels(m.max_log2, one, s),
        gamma: quantized_channels(m.gamma, one, u),
        base_offset: quantized_channels(m.base_offset, one, s),
        alt_offset: quantized_channels(m.alt_offset, one, s),
        base_headroom: quantized_unsigned(m.base_headroom),
        alt_headroom: quantized_unsigned(m.alt_headroom),
        use_base_color_space: m.use_base_color_space,
    }
}

proof fn lemma_fraction_at(s: Seq<u8>, i: int, n: u32)
    requires
        0 <= i,
        5 + 8 * i + 8 <= s.len(),
        s.subrange(5 + 8 * i, 5 + 8 * i + 8) == fraction_bytes(n),
    ensures
        fraction(s, i) == Ok::<Binary32, ParseError>(
            ratio(
                if is_signed(i) {
                    signed(n)
                } else {
                    n as int
                },
                RATIONAL_DENOM as nat,
            ),
        ),
{
    let at = 5 + 8 * i;
    let w = s.subrange(at, at + 8);
    assert(s.subrange(at, at + 4) =~= w.subrange(0, 4));
    assert(s.subrange(at + 4, at + 8) =~= w.subrange(4, 8));
    assert(w.subrange(0, 4) =~= be32_bytes(n));
    assert(w.subrange(4, 8) =~= be32_bytes(RATIONAL_DENOM));
    lemma_be32_read_back(n, s, at);
    lemma_be32_read_back(RATIONAL_DENOM, s, at + 4);
}

/// Five fractions in a row, found at their places in a payload.
proof fn lemma_five_at(s: Seq<u8>, i: int, n0: u32, n1: u32, n2: u32, n3: u32, n4: u32)
    requires
        0 <= i,
        5 + 8 * i + 40 <= s.len(),
        s.subrange(5 + 8 * i, 5 + 8 * i + 40) == fraction_bytes(n0) + fraction_bytes(n1)
            + fraction_bytes(n2) + fraction_bytes(n3) + fraction_bytes(n4),
    ensures
        s.subrange(5 + 8 * i, 5 + 8 * i + 8) == fraction_bytes(n0),
        s.subrange(5 + 8 * (i + 1), 5 + 8 * (i + 1) + 8) == fraction_bytes(n1),
        s.subrange(5 + 8 * (i + 2), 5 + 8 * (i + 2) + 8) == fraction_bytes(n2),
        s.subrange(5 + 8 * (i + 3), 5 + 8 * (i + 3) + 8) == fraction_bytes(n3),
        s.subrange(5 + 8 * (i + 4), 5 + 8 * (i + 4) + 8) == fraction_bytes(n4),
{
    let at = 5 + 8 * i;
    let w = s.subrange(at, at + 40);
    let (f0, f1, f2, f3, f4) = (
        fraction_bytes(n0),
        fraction_bytes(n1),
        fraction_bytes(n2),
        fraction_bytes(n3),
        fraction_bytes(n4),
    );
    assert(f0.len() == 8 && f1.len() == 8 && f2.len() == 8 && f3.len() == 8 && f4.len() == 8);
    assert(s.subrange(at, at + 8) =~= w.subrange(0, 8));
    assert(s.subrange(at + 8, at + 16) =~= w.subrange(8, 16));
    assert(s.subrange(at + 16, at + 24) =~= w.subrange(16, 24));
    assert(s.subrange(at + 24, at + 32) =~= w.subrange(24, 32));
    assert(s.subrange(at + 32, at + 40) =~= w.subrange(32, 40));
    assert((f0 + f1 + f2 + f3 + f4).subrange(0, 8) =~= f0);
    assert((f0 + f1 + f2 + f3 + f4).subrange(8, 16) =~= f1);
    assert((f0 + f1 + f2 + f3 + f4).subrange(16, 24) =~= f2);
    assert((f0 + f1 + f2 + f3 + f4).subrange(24, 32) =~= f3);
    assert((f0 + f1 + f2 + f3 + f4).subrange(32, 40) =~= f4);
}

/// The fractions of channel `c` read as `ch` quantized.
spec fn channel_read(s: Seq<u8>, c: int, ch: OneChannel) -> bool {
    &&& fraction(s, 2 + 5 * c) == Ok::<Binary32, ParseError>(quantized_signed(ch.min_log2))
    &&& fraction(s, 3 + 5 * c) == Ok::<Binary32, ParseError>(quantized_signed(ch.max_log2))
    &&& fraction(s, 4 + 5 * c) == Ok::<Binary32, ParseError>(quantized_unsigned(ch.gamma))
    &&& fraction(s, 5 + 5 * c) == Ok::<Binary32, ParseError>(quantized_signed(ch.base_offset))
    &&& fraction(s, 6 + 5 * c) == Ok::<Binary32, ParseError>(quantized_signed(ch.alt_offset))
}

/// The fractions of one channel, found at their places in a payload.
proof fn lemma_channel_at(s: Seq<u8>, c: int, ch: OneChannel)
    requires
        0 <= c <= 2,
        21 + 40 * c + 40 <= s.len(),
        s.subrange(21 + 40 * c, 21 + 40 * c + 40) == channel_bytes(ch),
    ensures
        channel_read(s, c, ch),
{
    let n0 = twos(ch.min_log2.signed_65536ths());
    let n1 = twos(ch.max_log2.signed_65536ths());
    let n2 = ch.gamma.unsigned_65536ths() as u32;
    let n3 = twos(ch.base_offset.signed_65536ths());
    let n4 = twos(ch.alt_offset.signed_65536ths());
    lemma_five_at(s, 2 + 5 * c, n0, n1, n2, n3, n4);
    lemma_fraction_at(s, 2 + 5 * c, n0);
    lemma_fraction_at(s, 3 + 5 * c, n1);
    lemma_fraction_at(s, 4 + 5 * c, n2);
    lemma_fraction_at(s, 5 + 5 * c, n3);
    lemma_fraction_at(s, 6 + 5 * c, n4);
}

/// A payload is 61 bytes for one channel and 141 for three.
pub proof fn serialized_length(m: GainMapMeta)
    ensures
        serialized(m).len() == if m.one_channel_suffices() {
            61int
        } else {
            141
        },
{
}

proof fn lemma_layout(h: Seq<u8>, n0: u32, n1: u32, f: u8)
    requires
        h == be16_bytes(0) + be16_bytes(0) + seq![f] + fraction_bytes(n0) + fraction_bytes(n1),
    ensures
        h.len() == 21,
        h.subrange(0, 2) == be16_bytes(0),
        h[4] == f,
        h.subrange(5, 13) == fraction_bytes(n0),
        h.subrange(13, 21) == fraction_bytes(n1),
{
    assert(h.subrange(0, 2) =~= be16_bytes(0));
    assert(h.subrange(5, 13) =~= fraction_bytes(n0));
    assert(h.subrange(13, 21) =~= fraction_bytes(n1));
}

proof fn lemma_none_fails(s: Seq<u8>, n: int)
    requires
        n == 7 || n == 17,
        fraction(s, 0) is Ok,
        fraction(s, 1) is Ok,
        fraction(s, 2) is Ok,
        fraction(s, 3) is Ok,
        fraction(s, 4) is Ok,
        fraction(s, 5) is Ok,
        fraction(s, 6) is Ok,
        n == 17 ==> fraction(s, 7) is Ok && fraction(s, 8) is Ok && fraction(s, 9) is Ok
            && fraction(s, 10) is Ok && fraction(s, 11) is Ok && fraction(s, 12) is Ok && fraction(
            s,
            13,
        ) is Ok && fraction(s, 14) is Ok && fraction(s, 15) is Ok && fraction(s, 16) is Ok,
    ensures
        first_failure(s, 0, n) is None,
{
    reveal_with_fuel(first_failure, 18);
}

/// The fractions of a serialized payload, all readable.
proof fn lemma_payload_fractions(m: GainMapMeta)
    ensures
        ({
            let s = serialized(m);
            &&& s.len() >= 61
            &&& be16(s, 0) == 0
            &&& s[4] == flags_of(m)
            &&& fraction(s, 0) == Ok::<Binary32, ParseError>(quantized_unsigned(m.base_headroom))
            &&& fraction(s, 1) == Ok::<Binary32, ParseError>(quantized_unsigned(m.alt_headroom))
            &&& channel_read(s, 0, m.channel(0))
            &&& !m.one_channel_suffices() ==> channel_read(s, 1, m.channel(1)) && channel_read(
                s,
                2,
                m.channel(2),
            )
        }),
{
    let s = serialized(m);
    let one = m.one_channel_suffices();
    let n0 = m.base_headroom.unsigned_65536ths() as u32;
    let n1 = m.alt_headroom.unsigned_65536ths() as u32;
    let h = head_bytes(m);
    let (c0, c1, c2) = (
        channel_bytes(m.channel(0)),
        channel_bytes(m.channel(1)),
        channel_bytes(m.channel(2)),
    );
    lemma_layout(h, n0, n1, flags_of(m));
    assert(c0.len() == 40 && c1.len() == 40 && c2.len() == 40);
    assert(s.subrange(0, 2) =~= h.subrange(0, 2));
    assert(s.subrange(5, 13) =~= h.subrange(5, 13));
    assert(s.subrange(13, 21) =~= h.subrange(13, 21));
    lemma_be16_read_back(0, s, 0);
    lemma_fraction_at(s, 0, n0);
    lemma_fraction_at(s, 1, n1);
    assert(s.subrange(21, 61) =~= c0);
    lemma_channel_at(s, 0, m.channel(0));
    if !one {
        assert(s.subrange(61, 101) =~= c1);
        lemma_channel_at(s, 1, m.channel(1));
        assert(s.subrange(101, 141) =~= c2);
        lemma_channel_at(s, 2, m.channel(2));
    }
}

proof fn lemma_payload_states(s: Seq<u8>, m: GainMapMeta, one: bool)
    requires
        one == m.one_channel_suffices(),
        s[4] == flags_of(m),
        fraction(s, 0) == Ok::<Binary32, ParseError>(quantized_unsigned(m.base_headroom)),
        fraction(s, 1) == Ok::<Binary32, ParseError>(quantized_unsigned(m.alt_headroom)),
        channel_read(s, 0, m.channel(0)),
        !one ==> channel_read(s, 1, m.channel(1)),
        !one ==> channel_read(s, 2, m.channel(2)),
    ensures
        stated(s) == quantized(m),
        first_failure(s, 0, fraction_count(s[4])) is None,
{
    assert((s[4] >= 0x80) == !one);
    assert((s[4] % 0x80 >= 0x40) == m.use_base_color_space);
    if one {
        lemma_none_fails(s, 7);
    } else {
        lemma_none_fails(s, 17);
    }
}

/// Parsing what was serialized gives every parameter back, to the multiple of
/// 1/65536 it was written as; the only other outcome is the refusal of a parameter
/// past the accepted range.
pub proof fn parse_reads_back_what_serialize_wrote(m: GainMapMeta)
    ensures
        parsed(serialized(m)) == match violation(quantized(m)) {
            Some(e) => Err::<GainMapMeta, ParseError>(e),
            None => Ok::<GainMapMeta, ParseError>(quantized(m)),
        },
{
    lemma_payload_fractions(m);
    lemma_payload_states(serialized(m), m, m.one_channel_suffices());
}

/// Whether two numbers are within half of a 65536th of each other, `2^-17`.
pub open spec fn is_close(a: Binary32, b: Binary32) -> bool {
    -(pow2(132) as int) <= a.units() - b.units() <= pow2(132)
}

/// Whether one parameter of every channel is close to another's.
pub open spec fn are_close(a: Channels, b: Channels) -> bool {
    is_close(a.r, b.r) && is_close(a.g, b.g) && is_close(a.b, b.b)
}

/// Whether a number is not below zero.
pub open spec fn not_below_zero(v: Binary32) -> bool {
    !v.negative() || v.is_zero()
}

/// Whether every parameter that is written without a sign needs none.
pub open spec fn needs_no_sign(m: GainMapMeta) -> bool {
    &&& not_below_zero(m.gamma.r) && not_below_zero(m.gamma.g) && not_below_zero(m.gamma.b)
    &&& not_below_zero(m.base_headroom)
    &&& not_below_zero(m.alt_headroom)
}

/// Whether every parameter of one is close to the other's.
pub open spec fn is_close_to(a: GainMapMeta, b: GainMapMeta) -> bool {
    &&& are_close(a.min_log2, b.min_log2)
    &&& are_close(a.max_log2, b.max_log2)
    &&& are_close(a.gamma, b.gamma)
    &&& are_close(a.base_offset, b.base_offset)
    &&& are_close(a.alt_offset, b.alt_offset)
    &&& is_close(a.base_headroom, b.base_headroom)
    &&& is_close(a.alt_headroom, b.alt_headroom)
}

/// Whether one parameter is the same in all channels, bit for bit.
pub open spec fn is_uniform(v: Channels) -> bool {
    v.r == v.g && v.r == v.b
}

/// Numbers that are equal are as many units.
proof fn lemma_equal_units(a: Binary32, b: Binary32)
    requires
        a.equals(b),
    ensures
        a.units() == b.units(),
        a.negative() && !a.is_zero() <==> b.negative() && !b.is_zero(),
{
    if a.bits != b.bits {
        assert(a.significand() == 0 && b.significand() == 0);
        assert(0 * pow2((a.exponent() + 149) as nat) == 0);
        assert(0 * pow2((b.exponent() + 149) as nat) == 0);
    }
}

proof fn lemma_signed_channels(v: Channels, one: bool)
    requires
        !beyond_range(v.r) && !beyond_range(v.g) && !beyond_range(v.b),
        one ==> same_in_all(v),
    ensures
        ({
            let q = quantized_channels(v, one, |x: Binary32| quantized_signed(x));
            &&& are_close(q, v)
            &&& !beyond_range(q.r) && !beyond_range(q.g) && !beyond_range(q.b)
            &&& one ==> is_uniform(q)
        }),
{
    reveal(same_in_all);
    rounding_to_65536ths_is_close(v.r);
    rounding_to_65536ths_is_close(v.g);
    rounding_to_65536ths_is_close(v.b);
    if one {
        lemma_equal_units(v.r, v.g);
        lemma_equal_units(v.r, v.b);
    }
}

proof fn lemma_unsigned_channels(v: Channels, one: bool)
    requires
        !beyond_range(v.r) && !beyond_range(v.g) && !beyond_range(v.b),
        not_below_zero(v.r) && not_below_zero(v.g) && not_below_zero(v.b),
        one ==> same_in_all(v),
    ensures
        ({
            let q = quantized_channels(v, one, |x: Binary32| quantized_unsigned(x));
            &&& are_close(q, v)
            &&& !beyond_range(q.r) && !beyond_range(q.g) && !beyond_range(q.b)
            &&& one ==> is_uniform(q)
        }),
{
    reveal(same_in_all);
    rounding_to_65536ths_is_close(v.r);
    rounding_to_65536ths_is_close(v.g);
    rounding_to_65536ths_is_close(v.b);
    if one {
        lemma_equal_units(v.r, v.g);
        lemma_equal_units(v.r, v.b);
    }
}

spec fn channels_within(v: Channels) -> bool {
    !beyond_range(v.r) && !beyond_range(v.g) && !beyond_range(v.b)
}

spec fn all_within(m: GainMapMeta) -> bool {
    &&& channels_within(m.min_log2)
    &&& channels_within(m.max_log2)
    &&& channels_within(m.gamma)
    &&& channels_within(m.base_offset)
    &&& channels_within(m.alt_offset)
    &&& !beyond_range(m.base_headroom)
    &&& !beyond_range(m.alt_headroom)
}

/// Nothing is refused exactly when everything is within the range.
proof fn lemma_within(m: GainMapMeta)
    ensures
        violation(m) is None <==> all_within(m),
{
}

spec fn all_uniform(m: GainMapMeta) -> bool {
    is_uniform(m.min_log2) && is_uniform(m.max_log2) && is_uniform(m.gamma) && is_uniform(
        m.base_offset,
    ) && is_uniform(m.alt_offset)
}

#[verifier::spinoff_prover]
proof fn lemma_quantized(m: GainMapMeta)
    requires
        all_within(m),
        needs_no_sign(m),
    ensures
        all_within(quantized(m)),
        is_close_to(quantized(m), m),
        m.one_channel_suffices() ==> all_uniform(quantized(m)),
{
    let one = m.one_channel_suffices();
    lemma_signed_channels(m.min_log2, one);
    lemma_signed_channels(m.max_log2, one);
    lemma_unsigned_channels(m.gamma, one);
    lemma_signed_channels(m.base_offset, one);
    lemma_signed_channels(m.alt_offset, one);
    rounding_to_65536ths_is_close(m.base_headroom);
    rounding_to_65536ths_is_close(m.alt_headroom);
}

/// Metadata within the accepted range comes back from a payload, every parameter within
/// `2^-17` of what it was, and channels that were the same are the same.
#[verifier::spinoff_prover]
pub proof fn what_is_written_comes_back_close(m: GainMapMeta)
    requires
        violation(m) is None,
        needs_no_sign(m),
    ensures
        parsed(serialized(m)) matches Ok(back) && {
            &&& is_close_to(back, m)
            &&& back.use_base_color_space == m.use_base_color_space
            &&& m.one_channel_suffices() ==> is_uniform(back.min_log2) && is_uniform(back.max_log2)
                && is_uniform(back.gamma) && is_uniform(back.base_offset) && is_uniform(
                back.alt_offset,
            )
        },
{
    let q = quantized(m);
    assert(violation(q) is None && is_close_to(q, m) && (m.one_channel_suffices() ==> all_uniform(
        q,
    ))) by {
        lemma_within(m);
        lemma_quantized(m);
        lemma_within(q);
    }
    assert(parsed(serialized(m)) == Ok::<GainMapMeta, ParseError>(q)) by {
        parse_reads_back_what_serialize_wrote(m);
    }
}

} // verus!
