//! Round-trip and cross-implementation checks of the gain-map metadata payload.
//!
//! The oracle is `ultrahdr-core`: its `Iso21496Format::JxlJhgm` variant is the same bare
//! payload, with no version byte before it. It encodes fractions with other denominators,
//! so fields are compared and not bytes.

use tohdr::binary32::Binary32;
use tohdr::iso21496::{parse, serialize, Field, ParseError};
use tohdr::meta::{Channels, GainMapMeta};
use ultrahdr_core::{parse_iso21496_fmt, serialize_iso21496_fmt, GainMapChannel, Iso21496Format};

/// The metadata as floating-point numbers.
#[derive(Clone, Copy, Debug)]
struct Meta {
    min_log2: [f32; 3],
    max_log2: [f32; 3],
    gamma: [f32; 3],
    base_offset: [f32; 3],
    alt_offset: [f32; 3],
    base_headroom: f32,
    alt_headroom: f32,
    use_base_color_space: bool,
}

fn bits(v: f32) -> Binary32 {
    Binary32 { bits: v.to_bits() }
}

fn channels(v: [f32; 3]) -> Channels {
    Channels { r: bits(v[0]), g: bits(v[1]), b: bits(v[2]) }
}

fn number(v: Binary32) -> f32 {
    f32::from_bits(v.bits)
}

fn numbers(c: Channels) -> [f32; 3] {
    [number(c.r), number(c.g), number(c.b)]
}

impl Meta {
    fn packed(&self) -> GainMapMeta {
        GainMapMeta {
            min_log2: channels(self.min_log2),
            max_log2: channels(self.max_log2),
            gamma: channels(self.gamma),
            base_offset: channels(self.base_offset),
            alt_offset: channels(self.alt_offset),
            base_headroom: bits(self.base_headroom),
            alt_headroom: bits(self.alt_headroom),
            use_base_color_space: self.use_base_color_space,
        }
    }

    fn read(m: &GainMapMeta) -> Meta {
        Meta {
            min_log2: numbers(m.min_log2),
            max_log2: numbers(m.max_log2),
            gamma: numbers(m.gamma),
            base_offset: numbers(m.base_offset),
            alt_offset: numbers(m.alt_offset),
            base_headroom: number(m.base_headroom),
            alt_headroom: number(m.alt_headroom),
            use_base_color_space: m.use_base_color_space,
        }
    }
}

const TOL: f32 = 5e-4;

fn assert_meta_close(a: &Meta, b: &Meta) {
    for c in 0..3 {
        assert!(
            (a.min_log2[c] - b.min_log2[c]).abs() < TOL,
            "min_log2[{c}]: {} vs {}",
            a.min_log2[c],
            b.min_log2[c]
        );
        assert!(
            (a.max_log2[c] - b.max_log2[c]).abs() < TOL,
            "max_log2[{c}]: {} vs {}",
            a.max_log2[c],
            b.max_log2[c]
        );
        assert!(
            (a.gamma[c] - b.gamma[c]).abs() < TOL,
            "gamma[{c}]: {} vs {}",
            a.gamma[c],
            b.gamma[c]
        );
        assert!(
            (a.base_offset[c] - b.base_offset[c]).abs() < TOL,
            "base_offset[{c}]: {} vs {}",
            a.base_offset[c],
            b.base_offset[c]
        );
        assert!(
            (a.alt_offset[c] - b.alt_offset[c]).abs() < TOL,
            "alt_offset[{c}]: {} vs {}",
            a.alt_offset[c],
            b.alt_offset[c]
        );
    }
    assert!((a.base_headroom - b.base_headroom).abs() < TOL);
    assert!((a.alt_headroom - b.alt_headroom).abs() < TOL);
    assert_eq!(a.use_base_color_space, b.use_base_color_space);
}

/// Test metas: SDR base, HDR base, monochrome, per-channel-differing, gamma
/// != 1, negative min_log2.
fn test_metas() -> Vec<Meta> {
    vec![
        // SDR base, default-ish.
        Meta {
            min_log2: [0.0; 3],
            max_log2: [2.0; 3],
            gamma: [1.0; 3],
            base_offset: [1.0 / 64.0; 3],
            alt_offset: [1.0 / 64.0; 3],
            base_headroom: 0.0,
            alt_headroom: 2.0,
            use_base_color_space: true,
        },
        // HDR base (base_headroom > 0), alt is SDR-ish.
        Meta {
            min_log2: [-1.5; 3],
            max_log2: [0.0; 3],
            gamma: [1.0; 3],
            base_offset: [1.0 / 64.0; 3],
            alt_offset: [1.0 / 64.0; 3],
            base_headroom: 3.0,
            alt_headroom: 0.0,
            use_base_color_space: false,
        },
        // Monochrome (all channels identical, non-default values).
        Meta {
            min_log2: [-0.25; 3],
            max_log2: [3.5; 3],
            gamma: [1.0; 3],
            base_offset: [0.01; 3],
            alt_offset: [0.02; 3],
            base_headroom: 0.0,
            alt_headroom: 1.75,
            use_base_color_space: true,
        },
        // Per-channel differing (forces multichannel encoding).
        Meta {
            min_log2: [0.0, -0.5, 0.25],
            max_log2: [2.0, 2.5, 3.0],
            gamma: [1.0, 1.2, 0.8],
            base_offset: [1.0 / 64.0, 1.0 / 32.0, 1.0 / 128.0],
            alt_offset: [1.0 / 64.0, 1.0 / 16.0, 1.0 / 256.0],
            base_headroom: 0.0,
            alt_headroom: 2.3,
            use_base_color_space: true,
        },
        // Gamma != 1.
        Meta {
            min_log2: [0.0; 3],
            max_log2: [4.0; 3],
            gamma: [2.2; 3],
            base_offset: [1.0 / 64.0; 3],
            alt_offset: [1.0 / 64.0; 3],
            base_headroom: 0.0,
            alt_headroom: 4.0,
            use_base_color_space: true,
        },
        // Negative min_log2.
        Meta {
            min_log2: [-3.25; 3],
            max_log2: [1.0; 3],
            gamma: [1.0; 3],
            base_offset: [1.0 / 64.0; 3],
            alt_offset: [1.0 / 64.0; 3],
            base_headroom: 0.5,
            alt_headroom: 1.0,
            use_base_color_space: true,
        },
    ]
}

#[test]
fn round_trip_within_tolerance() {
    for meta in test_metas() {
        let bytes = serialize(&meta.packed());
        let parsed = Meta::read(&parse(&bytes).expect("parse should succeed"));
        assert_meta_close(&meta, &parsed);
    }
}

/// Known-vector test: every value below is exactly representable at our
/// fixed denominator (1/64 = 1024/65536), so serialize() must produce exact
/// expected bytes, not just round-trip approximately.
#[test]
fn serialize_matches_expected_bytes_for_exact_values() {
    let meta = Meta {
        min_log2: [0.0; 3],
        max_log2: [2.0; 3],
        gamma: [1.0; 3],
        base_offset: [1.0 / 64.0; 3],
        alt_offset: [1.0 / 64.0; 3],
        base_headroom: 0.0,
        alt_headroom: 2.0,
        use_base_color_space: true,
    };
    let bytes = serialize(&meta.packed());

    let mut expected = Vec::new();
    expected.extend_from_slice(&0u16.to_be_bytes()); // minimum_version
    expected.extend_from_slice(&0u16.to_be_bytes()); // writer_version
    expected.push(0x40); // is_multichannel=0, use_base_colour_space=1, reserved=0
    expected.extend_from_slice(&0u32.to_be_bytes()); // base_headroom num = 0
    expected.extend_from_slice(&65536u32.to_be_bytes()); // base_headroom den
    expected.extend_from_slice(&131072u32.to_be_bytes()); // alt_headroom num = 2 * 65536
    expected.extend_from_slice(&65536u32.to_be_bytes()); // alt_headroom den
    expected.extend_from_slice(&0i32.to_be_bytes()); // min_log2 num = 0
    expected.extend_from_slice(&65536u32.to_be_bytes());
    expected.extend_from_slice(&131072i32.to_be_bytes()); // max_log2 num = 2 * 65536
    expected.extend_from_slice(&65536u32.to_be_bytes());
    expected.extend_from_slice(&65536u32.to_be_bytes()); // gamma num = 1 * 65536
    expected.extend_from_slice(&65536u32.to_be_bytes());
    expected.extend_from_slice(&1024i32.to_be_bytes()); // base_offset num = 65536/64
    expected.extend_from_slice(&65536u32.to_be_bytes());
    expected.extend_from_slice(&1024i32.to_be_bytes()); // alt_offset num = 65536/64
    expected.extend_from_slice(&65536u32.to_be_bytes());

    assert_eq!(bytes, expected);
    assert_eq!(bytes.len(), 4 + 1 + 16 + 40);
}

#[test]
fn parse_rejects_unsupported_minimum_version() {
    let mut bytes = serialize(&GainMapMeta::default());
    bytes[0] = 0;
    bytes[1] = 1; // minimum_version = 1
    let err = parse(&bytes).unwrap_err();
    assert_eq!(err, ParseError::UnsupportedVersion(1));
}

#[test]
fn parse_rejects_truncated_input() {
    let bytes = serialize(&GainMapMeta::default());
    let err = parse(&bytes[..bytes.len() - 1]).unwrap_err();
    assert_eq!(err, ParseError::Truncated);
}

fn to_oracle_channel(meta: &Meta, c: usize) -> GainMapChannel {
    GainMapChannel {
        min: meta.min_log2[c] as f64,
        max: meta.max_log2[c] as f64,
        gamma: meta.gamma[c] as f64,
        base_offset: meta.base_offset[c] as f64,
        alternate_offset: meta.alt_offset[c] as f64,
    }
}

fn to_oracle(meta: &Meta) -> ultrahdr_core::GainMapMetadata {
    // `GainMapParams` is `#[non_exhaustive]`: build via `Default` + field
    // assignment rather than a full struct literal.
    let mut p = ultrahdr_core::GainMapMetadata::default();
    p.channels = [
        to_oracle_channel(meta, 0),
        to_oracle_channel(meta, 1),
        to_oracle_channel(meta, 2),
    ];
    p.base_hdr_headroom = meta.base_headroom as f64;
    p.alternate_hdr_headroom = meta.alt_headroom as f64;
    p.use_base_color_space = meta.use_base_color_space;
    p.backward_direction = false;
    p
}

fn from_oracle_channel(c: &GainMapChannel) -> (f32, f32, f32, f32, f32) {
    (
        c.min as f32,
        c.max as f32,
        c.gamma as f32,
        c.base_offset as f32,
        c.alternate_offset as f32,
    )
}

fn from_oracle(p: &ultrahdr_core::GainMapMetadata) -> Meta {
    let mut min_log2 = [0.0f32; 3];
    let mut max_log2 = [0.0f32; 3];
    let mut gamma = [0.0f32; 3];
    let mut base_offset = [0.0f32; 3];
    let mut alt_offset = [0.0f32; 3];
    for c in 0..3 {
        let (mn, mx, g, bo, ao) = from_oracle_channel(&p.channels[c]);
        min_log2[c] = mn;
        max_log2[c] = mx;
        gamma[c] = g;
        base_offset[c] = bo;
        alt_offset[c] = ao;
    }
    Meta {
        min_log2,
        max_log2,
        gamma,
        base_offset,
        alt_offset,
        base_headroom: p.base_hdr_headroom as f32,
        alt_headroom: p.alternate_hdr_headroom as f32,
        use_base_color_space: p.use_base_color_space,
    }
}

/// Oracle check (a): our bytes, parsed by ultrahdr-core's decoder.
#[test]
fn oracle_parses_our_bytes() {
    for meta in test_metas() {
        let bytes = serialize(&meta.packed());
        let parsed = parse_iso21496_fmt(&bytes, Iso21496Format::JxlJhgm)
            .expect("ultrahdr-core should parse our bytes");
        let parsed_meta = from_oracle(&parsed);
        assert_meta_close(&meta, &parsed_meta);
    }
}

/// Oracle check (b): ultrahdr-core's bytes, parsed by our decoder.
#[test]
fn we_parse_oracle_bytes() {
    for meta in test_metas() {
        let oracle_params = to_oracle(&meta);
        let bytes = serialize_iso21496_fmt(&oracle_params, Iso21496Format::JxlJhgm);
        let parsed = Meta::read(&parse(&bytes).expect("our parser should parse ultrahdr-core bytes"));
        assert_meta_close(&meta, &parsed);
    }
}

/// A payload on disk is one byte longer than the bare struct: the version of the image
/// that wraps it inside a `tmap` item.
const TONE_MAP_IMAGE_VERSION_LEN: usize = 1;

fn fraction(v: &mut Vec<u8>, num: i32, den: u32) {
    v.extend_from_slice(&num.to_be_bytes());
    v.extend_from_slice(&den.to_be_bytes());
}

/// What an iPhone writes: every fraction over 1_000_000, one channel.
fn apple_payload() -> Vec<u8> {
    let mut raw = vec![0, 0, 0, 0, 0, 0x40];
    fraction(&mut raw, 0, 1_000_000);
    fraction(&mut raw, 2_287_109, 1_000_000);
    fraction(&mut raw, -1_963, 1_000_000);
    fraction(&mut raw, 2_287_109, 1_000_000);
    fraction(&mut raw, 825_684, 1_000_000);
    fraction(&mut raw, 10, 1_000_000);
    fraction(&mut raw, 10, 1_000_000);
    raw
}

/// A three-channel payload that declares more headroom than its map holds.
fn three_channel_payload() -> Vec<u8> {
    let mut raw = vec![0, 0, 0, 0, 0, 0xc0];
    fraction(&mut raw, 0, 1_000_000);
    fraction(&mut raw, 3_568_470, 1_000_000);
    for _ in 0..3 {
        fraction(&mut raw, 0, 1_000_000);
        fraction(&mut raw, 1_960_000, 1_000_000);
        fraction(&mut raw, 1_000_000, 1_000_000);
        fraction(&mut raw, 10, 1_000_000);
        fraction(&mut raw, 10, 1_000_000);
    }
    raw
}

#[test]
fn parses_real_apple_payload() {
    let raw = apple_payload();
    assert_eq!(raw.len(), 62);
    assert_eq!(raw[0], 0, "ToneMapImage version");

    let packed = parse(&raw[TONE_MAP_IMAGE_VERSION_LEN..]).expect("an iPhone payload must parse");
    let m = Meta::read(&packed);

    assert!((m.alt_headroom - 2.287109).abs() < 1e-6, "{}", m.alt_headroom);
    assert_eq!(m.base_headroom, 0.0);
    assert!((m.min_log2[0] - -0.001963).abs() < 1e-6);
    assert!((m.max_log2[0] - 2.287109).abs() < 1e-6);
    assert!((m.gamma[0] - 0.825684).abs() < 1e-6);
    assert!((m.base_offset[0] - 1.0e-5).abs() < 1e-9);
    assert!((m.alt_offset[0] - 1.0e-5).abs() < 1e-9);
    assert!(m.use_base_color_space, "flags byte 0x40");

    // Apple's own file holds the invariant the washed-out exports break.
    assert_eq!(m.max_log2[0], m.alt_headroom);

    // The bytes written from here survive a round trip through the same values. They are
    // not byte-identical to Apple's: other denominators.
    let again = Meta::read(&parse(&serialize(&packed)).unwrap());
    assert!((again.alt_headroom - m.alt_headroom).abs() < 5e-4);
    assert!((again.gamma[0] - m.gamma[0]).abs() < 5e-4);
}

#[test]
fn parses_real_three_channel_payload() {
    let raw = three_channel_payload();
    assert_eq!(raw.len(), 142, "1 version byte + 141-byte 3-channel struct");

    let m = Meta::read(
        &parse(&raw[TONE_MAP_IMAGE_VERSION_LEN..]).expect("3-channel payload must parse"),
    );

    // The defect, asserted: 3.568 stops declared, 1.96 actually encoded.
    assert!((m.alt_headroom - 3.56847).abs() < 1e-6, "{}", m.alt_headroom);
    assert!((m.max_log2[0] - 1.96).abs() < 1e-6, "{}", m.max_log2[0]);
    assert!(
        m.alt_headroom - m.max_log2[0] > 1.6,
        "over-declared headroom is what a renderer under-applies"
    );
    // Flagged multichannel, yet all three channels are identical.
    assert_eq!(m.min_log2[0], m.min_log2[2]);
    assert_eq!(m.gamma[0], m.gamma[2]);
}

/// A crafted payload can encode a log2 range near 32768, of which every sample's gain is
/// infinite. Parsing rejects values no real capture can produce.
#[test]
fn iso_parse_rejects_absurd_log2_ranges() {
    let meta = GainMapMeta {
        max_log2: channels([30000.0; 3]),
        alt_headroom: bits(30000.0),
        ..GainMapMeta::default()
    };
    let parsed = parse(&serialize(&meta));
    assert!(parsed.is_err(), "a 30000-stop headroom must be rejected");
    match parsed.unwrap_err() {
        ParseError::OutOfRange { field, value } => {
            assert_eq!(field, Field::AlternateHdrHeadroom);
            assert_eq!(number(value), 30000.0);
        }
        other => panic!("unexpected {other:?}"),
    }
}

#[test]
fn a_zero_denominator_is_rejected() {
    let mut bytes = serialize(&GainMapMeta::default());
    bytes[9..13].copy_from_slice(&[0; 4]);
    assert_eq!(parse(&bytes).unwrap_err(), ParseError::ZeroDenominator);
}

/// What was written once is written the same again.
#[test]
fn writing_what_was_read_changes_nothing() {
    for meta in test_metas() {
        let once = serialize(&meta.packed());
        let twice = serialize(&parse(&once).unwrap());
        assert_eq!(once, twice);
    }
}

/// Every parameter comes back within half of a 65536th, and what was the same in all channels
/// is the same.
#[test]
fn what_comes_back_is_within_half_a_step() {
    for v in [0.0f32, 1.0 / 3.0, 0.1, 2.0 / 65536.0 / 3.0, 63.999_99, 64.0, 1e-7] {
        let meta = GainMapMeta {
            min_log2: Channels::uniform(Binary32 { bits: (-v).to_bits() }),
            max_log2: Channels::uniform(Binary32 { bits: v.to_bits() }),
            gamma: Channels::uniform(Binary32 { bits: v.to_bits() }),
            alt_headroom: Binary32 { bits: v.to_bits() },
            ..GainMapMeta::default()
        };
        let back = parse(&serialize(&meta)).unwrap();
        let near = |b: Binary32, want: f32| {
            (f32::from_bits(b.bits) as f64 - want as f64).abs() <= 1.0 / 131072.0
        };
        assert!(near(back.min_log2.r, -v) && near(back.max_log2.g, v), "{v}");
        assert!(near(back.gamma.b, v) && near(back.alt_headroom, v), "{v}");
        assert_eq!(back.max_log2.r, back.max_log2.b);
    }
}
