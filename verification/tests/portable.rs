use tohdr::encode::{EncodeOptions, GainMapEncoder};
use tohdr::heif::HeifFile;
use tohdr::meta::{GainMapMeta, GainPlane, Rgb};
use tohdr::opaque::MetadataSupport;
use tohdr::portable::{debug_encode_gain_heic, Error, PortableEngine};

fn scene_rgb8(w: u32, h: u32) -> Vec<u16> {
    let mut v = Vec::with_capacity((w * h * 3) as usize);
    for y in 0..h {
        for x in 0..w {
            let fx = x as f32 / w as f32;
            let fy = y as f32 / h as f32;
            v.push((fx * 255.0) as u16);
            v.push((fy * 255.0) as u16);
            v.push(128);
        }
    }
    v
}

/// End-to-end: base + gain -> two hpvca HEICs -> parse and mux.
#[test]
fn full_pipeline_mux() {
    let (w, h) = (64, 48);
    let base = Rgb {
        width: w,
        height: h,
        bits: 8,
        data: scene_rgb8(w, h),
    };
    let gain = GainPlane {
        width: w / 2,
        height: h / 2,
        data: vec![128u8; (w / 2 * h / 2) as usize],
    };
    let meta = GainMapMeta::default();
    let opts = EncodeOptions::default();
    let engine = PortableEngine;
    let bytes = engine.encode(&base, &gain, &meta, &opts).expect("mux");
    assert!(!bytes.is_empty());
}

#[test]
fn the_portable_engine_writes_a_readable_gain_map() {
    let (w, h) = (64, 48);
    let base = Rgb { width: w, height: h, bits: 8, data: scene_rgb8(w, h) };
    let gain = GainPlane { width: 32, height: 24, data: vec![128u8; 32 * 24] };
    let meta = GainMapMeta::default();
    let bytes = PortableEngine.encode(&base, &gain, &meta, &EncodeOptions::default()).unwrap();
    let f = HeifFile::parse(&bytes).unwrap();
    let g = f.gain_map().expect("a gain map");
    assert!(g.apple_aux && g.tmap_item.is_some());
    assert_eq!(g.meta, Some(meta));
    let plane = f.coded_image(g.image_item).unwrap();
    assert_eq!((plane.width, plane.height), (32, 24));
    assert_eq!(PortableEngine.name(), "portable-hpvca");
    assert_eq!(PortableEngine.metadata_support(), MetadataSupport::all());
}

#[test]
fn a_failing_plane_is_named() {
    let base = Rgb { width: 4, height: 4, bits: 9, data: vec![0; 48] };
    let gain = GainPlane { width: 4, height: 4, data: vec![0; 16] };
    let e = PortableEngine
        .encode(&base, &gain, &GainMapMeta::default(), &EncodeOptions::default())
        .unwrap_err();
    assert!(e.message().starts_with("hevc encode: base: "), "{}", e.message());

    let short = GainPlane { width: 4, height: 4, data: vec![0; 15] };
    assert!(matches!(debug_encode_gain_heic(&short, 80), Err(Error::Encode(_))));
}
