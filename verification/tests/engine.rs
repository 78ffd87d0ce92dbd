use tohdr::binary32::Binary32;
use tohdr::colour::Primaries;
use tohdr::encode::{encode_within_budget, EncodeOptions, Flavor, GainMapEncoder};
use tohdr::heif::engine::{chroma_for, coded_image_from_heic, MuxEngine, PlaneCodec};
use tohdr::heif::{Chroma, CodedImage, ColourInfo, HeifFile};
use tohdr::meta::{GainMapMeta, GainPlane, Rgb};
use tohdr::opaque::MetadataSupport;
use tohdr::portable::codec::HpvcaCodec;
use tohdr::portable::PortableEngine;
use tohdr::xmp::{headroom_packet, merge_headroom_into};

/// A codec that fails on demand.
struct Failing {
    fail_base: bool,
}

impl PlaneCodec for Failing {
    type Error = String;

    fn name(&self) -> &'static str {
        "failing-test-codec"
    }

    fn base_colour(&self, primaries: Primaries) -> ColourInfo {
        ColourInfo::Nclx {
            primaries: primaries.nclx(),
            transfer: 13,
            matrix: 6,
            full_range: true,
        }
    }

    fn encode_base(&self, _base: &Rgb, _quality: u8) -> Result<CodedImage, String> {
        if self.fail_base {
            Err("base is broken".into())
        } else {
            Ok(stub(4, 4, Chroma::Yuv420))
        }
    }

    fn encode_gain(&self, _gain: &GainPlane, _quality: u8) -> Result<CodedImage, String> {
        Err("gain is broken".into())
    }

    fn message(e: String) -> String {
        e
    }
}

fn stub(width: u32, height: u32, chroma: Chroma) -> CodedImage {
    CodedImage {
        width,
        height,
        bit_depth: 8,
        chroma,
        hvcc: Vec::new(),
        data: Vec::new(),
    }
}

fn inputs() -> (Rgb, GainPlane, GainMapMeta) {
    (
        Rgb {
            width: 4,
            height: 4,
            bits: 8,
            data: vec![0u16; 4 * 4 * 3],
        },
        GainPlane {
            width: 2,
            height: 2,
            data: vec![128u8; 4],
        },
        GainMapMeta::default(),
    )
}

#[test]
fn engine_takes_its_name_from_the_codec() {
    assert_eq!(
        MuxEngine::new(Failing { fail_base: false }).name(),
        "failing-test-codec"
    );
}

#[test]
fn base_failure_names_the_base_plane() {
    let (base, gain, meta) = inputs();
    let err = MuxEngine::new(Failing { fail_base: true })
        .encode(&base, &gain, &meta, &EncodeOptions::default())
        .unwrap_err()
        .message();
    assert!(err.contains("base encode"), "{err}");
    assert!(err.contains("base is broken"), "{err}");
}

#[test]
fn gain_failure_names_the_gain_plane() {
    let (base, gain, meta) = inputs();
    let err = MuxEngine::new(Failing { fail_base: false })
        .encode(&base, &gain, &meta, &EncodeOptions::default())
        .unwrap_err()
        .message();
    assert!(err.contains("gain encode"), "{err}");
    assert!(err.contains("gain is broken"), "{err}");
}

#[test]
fn chroma_follows_the_monochrome_flag() {
    assert_eq!(chroma_for(true), Chroma::Monochrome);
    assert_eq!(chroma_for(false), Chroma::Yuv420);
}

#[test]
fn coded_image_from_garbage_is_an_error_not_a_panic() {
    assert!(coded_image_from_heic(b"not a heic file at all", "base").is_err());
}

/// A codec that hands fixed pictures on, so that what the engine puts around them shows.
struct Fixed;

impl PlaneCodec for Fixed {
    type Error = String;

    fn name(&self) -> &'static str {
        "fixed"
    }

    fn base_colour(&self, primaries: Primaries) -> ColourInfo {
        ColourInfo::Nclx { primaries: primaries.nclx(), transfer: 13, matrix: 6, full_range: true }
    }

    fn encode_base(&self, base: &Rgb, quality: u8) -> Result<CodedImage, String> {
        let mut c = stub(base.width, base.height, Chroma::Yuv420);
        c.hvcc = vec![0; 23];
        c.hvcc[16] = 1;
        c.data = vec![quality; 10];
        Ok(c)
    }

    fn encode_gain(&self, gain: &GainPlane, quality: u8) -> Result<CodedImage, String> {
        let mut c = stub(gain.width, gain.height, Chroma::Monochrome);
        c.hvcc = vec![0; 23];
        c.data = vec![quality; 6];
        Ok(c)
    }

    fn message(e: String) -> String {
        e
    }
}

#[test]
fn the_engine_hands_everything_to_the_muxer() {
    let (base, gain, meta) = inputs();
    let exif = b"MM\0\x2a\0\0\0\x08\0\0\0\0\0\0".to_vec();
    let opts = EncodeOptions {
        base_quality: 77,
        gain_quality: 55,
        exif: Some(&exif),
        primaries: Primaries::DisplayP3,
        ..EncodeOptions::default()
    };
    let bytes = MuxEngine::new(Fixed).encode(&base, &gain, &meta, &opts).unwrap();
    let f = HeifFile::parse(&bytes).unwrap();
    let primary = f.primary_item().unwrap();
    assert_eq!(f.item_data(primary).unwrap(), &[77; 10]);
    let g = f.gain_map().unwrap();
    assert_eq!(f.item_data(g.image_item).unwrap(), &[55; 6]);
    assert_eq!(g.meta, Some(meta));
    let e = f.items().iter().find(|i| i.item_type == *b"Exif").unwrap();
    assert_eq!(&f.item_data(e.id).unwrap()[4..], &exif[..]);
    let x = f.items().iter().find(|i| i.item_type == *b"mime").unwrap();
    assert_eq!(f.item_data(x.id).unwrap(), &headroom_packet("4.000000")[..]);
}

#[test]
fn a_source_packet_is_merged_with() {
    let (base, gain, mut meta) = inputs();
    meta.alt_headroom = Binary32 { bits: 2.5f32.to_bits() };
    let source = headroom_packet("2.000000");
    let opts = EncodeOptions {
        xmp: Some(&source),
        linear_headroom: Some("5.656854"),
        ..EncodeOptions::default()
    };
    let bytes = MuxEngine::new(Fixed).encode(&base, &gain, &meta, &opts).unwrap();
    let f = HeifFile::parse(&bytes).unwrap();
    let x = f.items().iter().find(|i| i.item_type == *b"mime").unwrap();
    let want = merge_headroom_into(&source, "5.656854").unwrap();
    assert_eq!(f.item_data(x.id).unwrap(), &want[..]);
}

/// What the XMP of an encode states, or what went wrong.
fn xmp_of(stops: f32, opts: &EncodeOptions) -> Result<Option<Vec<u8>>, String> {
    let (base, gain, mut meta) = inputs();
    meta.alt_headroom = Binary32 { bits: stops.to_bits() };
    let bytes =
        MuxEngine::new(Fixed).encode(&base, &gain, &meta, opts).map_err(|e| e.message())?;
    let f = HeifFile::parse(&bytes).unwrap();
    let x = f.items().iter().find(|i| i.item_type == *b"mime");
    Ok(x.map(|x| f.item_data(x.id).unwrap().to_vec()))
}

/// A whole number of stops is stated from the metadata, whatever text is given.
#[test]
fn whole_stops_are_stated_from_the_metadata() {
    for (stops, text) in [
        (0.0, "1.000000"),
        (-0.0, "1.000000"),
        (1.0, "2.000000"),
        (2.0, "4.000000"),
        (3.0, "8.000000"),
        (5.0, "32.000000"),
        (31.0, "2147483648.000000"),
    ] {
        assert_eq!(format!("{:.6}", f32::exp2(stops)), text);
        assert_eq!(xmp_of(stops, &EncodeOptions::default()), Ok(Some(headroom_packet(text))));
        let other = EncodeOptions { linear_headroom: Some("7.0"), ..EncodeOptions::default() };
        assert_eq!(xmp_of(stops, &other), Ok(Some(headroom_packet(text))));
    }
}

/// Any other headroom is stated as given, and an Apple flavor is not written without.
#[test]
fn a_headroom_that_was_not_given_is_asked_for() {
    for stops in [0.5, 2.287109, 32.0, -1.0, f32::NAN, f32::INFINITY, 1e-40] {
        let given = EncodeOptions { linear_headroom: Some("4.880770"), ..EncodeOptions::default() };
        assert_eq!(xmp_of(stops, &given), Ok(Some(headroom_packet("4.880770"))));
        for flavor in [Flavor::Apple, Flavor::Both] {
            let opts = EncodeOptions { flavor, ..EncodeOptions::default() };
            assert_eq!(
                xmp_of(stops, &opts).unwrap_err(),
                "mux: unsupported: an Apple flavor without the text of its headroom"
            );
        }
    }
}

/// A flavor that is not Apple's keeps the source's packet, and needs no headroom.
#[test]
fn other_flavors_state_no_headroom() {
    let source = headroom_packet("2.000000");
    let plain = EncodeOptions { flavor: Flavor::Iso, ..EncodeOptions::default() };
    assert_eq!(xmp_of(0.5, &plain), Ok(None));
    let opts = EncodeOptions { xmp: Some(&source), ..plain };
    assert_eq!(xmp_of(0.5, &opts), Ok(Some(source.clone())));
    assert_eq!(xmp_of(2.0, &opts), Ok(Some(source)));
}

#[test]
fn an_engine_has_a_default_where_its_codec_has() {
    assert_eq!(MuxEngine::<HpvcaCodec>::default().name(), HpvcaCodec::default().name());
    assert_eq!(PortableEngine::default().name(), "portable-hpvca");
}

#[test]
fn the_muxing_engine_carries_everything() {
    assert_eq!(MuxEngine::new(Fixed).metadata_support(), MetadataSupport::all());
}

/// A codec whose output grows with quality, to watch the search for a budget.
#[test]
fn the_best_quality_within_a_budget_is_found() {
    let (base, gain, meta) = inputs();
    let engine = Sized8;
    let opts = EncodeOptions { base_quality: 90, gain_quality: 90, ..EncodeOptions::default() };
    let got = encode_within_budget(&engine, &base, &gain, &meta, &opts, 400, 10).unwrap();
    assert!(got.within_budget);
    assert_eq!(got.quality, 50, "eight bytes for every step of quality");
    assert_eq!(got.bytes.len(), 400);

    let whole = encode_within_budget(&engine, &base, &gain, &meta, &opts, 10_000, 10).unwrap();
    assert_eq!((whole.quality, whole.attempts, whole.within_budget), (90, 1, true));

    let none = encode_within_budget(&engine, &base, &gain, &meta, &opts, 8, 10).unwrap();
    assert_eq!((none.quality, none.within_budget), (10, false));
}

struct Sized8;

impl GainMapEncoder for Sized8 {
    type Error = String;

    fn name(&self) -> &'static str {
        "sized"
    }

    fn encode(
        &self,
        _base: &Rgb,
        _gain: &GainPlane,
        _meta: &GainMapMeta,
        opts: &EncodeOptions<'_>,
    ) -> Result<Vec<u8>, String> {
        Ok(vec![0; opts.base_quality as usize * 8])
    }
}

/// An engine that keeps a record of what it is asked, and fails at one quality.
struct Recording {
    asked: std::cell::RefCell<Vec<(u8, u8)>>,
    fails_at: u8,
}

impl GainMapEncoder for Recording {
    type Error = u8;

    fn name(&self) -> &'static str {
        "recording"
    }

    fn encode(
        &self,
        _: &Rgb,
        _: &GainPlane,
        _: &GainMapMeta,
        opts: &EncodeOptions,
    ) -> Result<Vec<u8>, u8> {
        self.asked.borrow_mut().push((opts.base_quality, opts.gain_quality));
        if opts.base_quality == self.fails_at {
            return Err(opts.base_quality);
        }
        Ok(vec![0; 10 * opts.base_quality as usize])
    }
}

/// Full quality first, then the floor, then halves of what is left.
#[test]
fn the_search_asks_in_its_order() {
    let (base, gain, meta) = inputs();
    let opts = EncodeOptions { base_quality: 90, gain_quality: 45, ..EncodeOptions::default() };
    let engine = Recording { asked: Default::default(), fails_at: 0 };
    let got = encode_within_budget(&engine, &base, &gain, &meta, &opts, 505, 10).unwrap();
    assert_eq!((got.quality, got.attempts), (50, 8));
    let asked: Vec<u8> = engine.asked.borrow().iter().map(|a| a.0).collect();
    assert_eq!(asked, vec![90, 10, 50, 70, 60, 55, 52, 51]);
    assert_eq!(engine.asked.borrow()[1], (10, 5), "the gain quality goes along");

    let engine = Recording { asked: Default::default(), fails_at: 70 };
    let e = encode_within_budget(&engine, &base, &gain, &meta, &opts, 505, 10).unwrap_err();
    assert_eq!(e, 70);
    let asked: Vec<u8> = engine.asked.borrow().iter().map(|a| a.0).collect();
    assert_eq!(asked, vec![90, 10, 50, 70], "nothing is asked after a failure");
}
