use image::{ImageBuffer, ImageFormat, Rgb as ImgRgb};
use std::io::Cursor;
use tohdr::portable::input::{
    check_size, hdr_reading, load_hdr_samples, load_hdr_tiff_pq_samples, load_sdr, rgb_of, source_kind,
    Reading, SampleKind, Samples, SourceKind,
};
use tohdr::portable::Error;

fn png8(w: u32, h: u32, value: [u8; 3]) -> Vec<u8> {
    let img: ImageBuffer<ImgRgb<u8>, Vec<u8>> = ImageBuffer::from_pixel(w, h, ImgRgb(value));
    let mut out = Cursor::new(Vec::new());
    img.write_to(&mut out, ImageFormat::Png).expect("write png");
    out.into_inner()
}

#[test]
fn load_sdr_png_roundtrip_shape_and_range() {
    let png = png8(8, 6, [128, 128, 128]);
    let rgb = load_sdr(&png, Some("png")).expect("decode");
    assert_eq!((rgb.width, rgb.height, rgb.bits), (8, 6, 8));
    assert_eq!(rgb.data.len(), rgb.expected_len());
    assert!(rgb.data.iter().all(|&v| v <= rgb.max_value()));
}

#[test]
fn unsupported_extension_errors() {
    assert!(matches!(
        hdr_reading(Some("bmp"), SampleKind::Other),
        Err(Error::UnsupportedInput(_))
    ));
    assert!(matches!(load_sdr(b"", Some("bmp")), Err(Error::UnsupportedInput(_))));
    assert_eq!(
        load_hdr_samples(b"", Some("bmp")).unwrap_err().message(),
        "unsupported input: load_hdr: unsupported extension Some(\"bmp\") (want tif/tiff/png/jpg/jpeg)"
    );
    assert_eq!(
        load_sdr(b"", Some("BMP")).unwrap_err().message(),
        "unsupported input: load_sdr: unsupported extension Some(\"bmp\") (want tif/tiff/png/jpg/jpeg)"
    );
    assert_eq!(
        load_sdr(b"", None).unwrap_err().message(),
        "unsupported input: load_sdr: unsupported extension None (want tif/tiff/png/jpg/jpeg)"
    );
}

/// The samples come out in the order of the file, red first.
#[test]
fn a_decoded_image_keeps_its_samples() {
    let rgb = load_sdr(&png8(2, 1, [10, 20, 30]), Some("PNG")).unwrap();
    assert_eq!(rgb.data, vec![10, 20, 30, 10, 20, 30]);
    let tiff: ImageBuffer<ImgRgb<u16>, Vec<u16>> = ImageBuffer::from_pixel(1, 1, ImgRgb([0, 257 * 100, 65535]));
    let mut out = Cursor::new(Vec::new());
    tiff.write_to(&mut out, ImageFormat::Tiff).unwrap();
    assert_eq!(load_sdr(&out.into_inner(), Some("tiff")).unwrap().data, vec![0, 100, 255]);
}

#[test]
fn what_does_not_decode_is_an_error() {
    assert!(matches!(load_sdr(b"not an image", Some("png")), Err(Error::Decode(_))));
    assert!(matches!(load_hdr_samples(b"not an image", Some("tif")), Err(Error::Decode(_))));
    assert!(matches!(load_hdr_tiff_pq_samples(b"not an image", Some("tif")), Err(Error::Decode(_))));
}

/// The sides of an image are not each other's.
#[test]
fn a_decoded_image_keeps_its_sides() {
    let rgb = load_sdr(&png8(5, 2, [1, 2, 3]), Some("png")).unwrap();
    assert_eq!((rgb.width, rgb.height), (5, 2));
    let (_, d) = load_hdr_samples(&png8(5, 2, [1, 2, 3]), Some("png")).unwrap();
    assert_eq!((d.width, d.height), (5, 2));
}

/// The extension stands in where the first bytes say nothing: what comes of a file with
/// no signature is its format's own complaint, not that there is no format.
#[test]
fn an_extension_names_the_format_of_a_file_without_a_signature() {
    let e = load_sdr(b"not an image", Some("png")).unwrap_err().message();
    assert!(e.to_lowercase().contains("png"), "{e}");
    let e = load_sdr(b"not an image", Some("TIF")).unwrap_err().message();
    assert!(e.to_lowercase().contains("tiff"), "{e}");
    // A wrong extension yields to the signature.
    assert!(load_sdr(&png8(1, 1, [1, 2, 3]), Some("jpg")).is_ok());
}

fn tiff_of_floats(w: u32, h: u32, px: &[[f32; 3]]) -> Vec<u8> {
    let mut img: ImageBuffer<ImgRgb<f32>, Vec<f32>> = ImageBuffer::new(w, h);
    for (i, p) in img.pixels_mut().enumerate() {
        *p = ImgRgb(px[i % px.len()]);
    }
    let mut out = Cursor::new(Vec::new());
    img.write_to(&mut out, ImageFormat::Tiff).expect("write f32 tiff");
    out.into_inner()
}

fn encoded16(w: u32, h: u32, value: [u16; 3], format: ImageFormat) -> Vec<u8> {
    let img: ImageBuffer<ImgRgb<u16>, Vec<u16>> = ImageBuffer::from_pixel(w, h, ImgRgb(value));
    let mut out = Cursor::new(Vec::new());
    img.write_to(&mut out, format).expect("write 16-bit image");
    out.into_inner()
}

/// A float TIFF keeps its headroom: two distinct above-white levels stay two.
#[test]
fn a_float_tiff_is_read_as_linear_light() {
    let tiff = tiff_of_floats(2, 1, &[[8.0, 8.0, 8.0], [2.0, -0.5, 0.25]]);
    let (reading, d) = load_hdr_samples(&tiff, Some("tiff")).unwrap();
    assert_eq!(reading, Reading::Linear);
    assert_eq!((d.width, d.height), (2, 1));
    match d.samples {
        Samples::Float(bits) => {
            let v: Vec<f32> = bits.into_iter().map(f32::from_bits).collect();
            assert_eq!(v, vec![8.0, 8.0, 8.0, 2.0, -0.5, 0.25]);
        }
        other => panic!("{other:?}"),
    }
}

#[test]
fn a_sixteen_bit_tiff_is_read_as_pq() {
    let tiff = encoded16(1, 2, [0, 1000, 65535], ImageFormat::Tiff);
    let (reading, d) = load_hdr_samples(&tiff, Some("TIF")).unwrap();
    assert_eq!((reading, d.width, d.height), (Reading::Pq, 1, 2));
    match d.samples {
        Samples::Sixteen(v) => assert_eq!(v, vec![0, 1000, 65535, 0, 1000, 65535]),
        other => panic!("{other:?}"),
    }
}

/// Neither an 8-bit TIFF nor a PNG of any depth has headroom to recover.
#[test]
fn everything_else_is_read_as_srgb() {
    let img: ImageBuffer<ImgRgb<u8>, Vec<u8>> = ImageBuffer::from_pixel(1, 1, ImgRgb([128, 0, 255]));
    let mut out = Cursor::new(Vec::new());
    img.write_to(&mut out, ImageFormat::Tiff).unwrap();
    let (reading, d) = load_hdr_samples(&out.into_inner(), Some("tif")).unwrap();
    assert_eq!(reading, Reading::Srgb);
    assert!(matches!(d.samples, Samples::Eight(v) if v == vec![128, 0, 255]));
    let png = encoded16(1, 1, [0, 257 * 100, 65535], ImageFormat::Png);
    let (reading, d) = load_hdr_samples(&png, Some("png")).unwrap();
    assert_eq!(reading, Reading::Srgb);
    assert!(matches!(d.samples, Samples::Eight(v) if v == vec![0, 100, 255]));
}

/// The PQ reading stays reachable for a float file when it is asked for.
#[test]
fn pq_can_be_forced_on_a_float_tiff() {
    let tiff = tiff_of_floats(1, 1, &[[1.0, 0.0, 8.0]]);
    let d = load_hdr_tiff_pq_samples(&tiff, Some("tif")).unwrap();
    assert!(matches!(d.samples, Samples::Sixteen(v) if v == vec![65535, 0, 65535]));
}

/// Sample format, not extension, decides how a TIFF is read.
#[test]
fn each_kind_of_source_has_its_reading() {
    for (ext, samples, want) in [
        ("tif", SampleKind::Float, Reading::Linear),
        ("TIFF", SampleKind::Sixteen, Reading::Pq),
        ("tiff", SampleKind::Other, Reading::Srgb),
        ("png", SampleKind::Sixteen, Reading::Srgb),
        ("jpg", SampleKind::Other, Reading::Srgb),
        ("JPEG", SampleKind::Float, Reading::Srgb),
    ] {
        assert_eq!(hdr_reading(Some(ext), samples).unwrap(), want, "{ext}");
    }
    assert_eq!(source_kind(Some("Tif")), Some(SourceKind::Tiff));
    assert_eq!(source_kind(Some("heic")), None);
    assert_eq!(source_kind(None), None);
}

#[test]
fn an_image_with_too_many_pixels_is_refused() {
    assert!(check_size(32768, 16384).is_ok());
    assert_eq!(
        check_size(32768, 16385).unwrap_err().message(),
        "unsupported input: 32768x16385 is 536903680 pixels, over the 536870912-pixel limit"
    );
    assert!(check_size(u32::MAX, u32::MAX).is_err());
}

#[test]
fn samples_become_wider_and_nothing_else() {
    let r = rgb_of(1, 2, &vec![0, 1, 2, 253, 254, 255]);
    assert_eq!((r.width, r.height, r.bits), (1, 2, 8));
    assert_eq!(r.data, vec![0u16, 1, 2, 253, 254, 255]);
}

const DEFAULT_REFERENCE_WHITE_NITS: f32 = 203.0;

fn srgb_to_linear(c: f32) -> f32 {
    if c <= 0.04045 {
        c / 12.92
    } else {
        ((c + 0.055) / 1.055).powf(2.4)
    }
}

fn pq_to_nits(n: f32) -> f32 {
    let (m1, m2) = (2610.0 / 16384.0, 2523.0 / 4096.0 * 128.0);
    let (c1, c2, c3) = (3424.0 / 4096.0, 2413.0 / 4096.0 * 32.0, 2392.0 / 4096.0 * 32.0);
    let np = (n as f64).clamp(0.0, 1.0).powf(1.0 / m2);
    let (num, den) = ((np - c1).max(0.0), c2 - c3 * np);
    let l: f64 = if den <= 0.0 { 0.0 } else { (num / den).powf(1.0 / m1) };
    (l * 10000.0) as f32
}

/// The light of decoded samples. The library says which curve applies; the curves are
/// floating point and belong to its caller, for whom this and the two above stand in.
fn light(samples: Samples) -> Vec<f32> {
    match samples {
        Samples::Float(v) => v.into_iter().map(|b| f32::from_bits(b).max(0.0)).collect(),
        Samples::Sixteen(v) => v
            .into_iter()
            .map(|s| pq_to_nits(s as f32 / u16::MAX as f32) / DEFAULT_REFERENCE_WHITE_NITS)
            .collect(),
        Samples::Eight(v) => v.into_iter().map(|s| srgb_to_linear(s as f32 / 255.0)).collect(),
    }
}

fn load_hdr(bytes: &[u8], extension: &str) -> (u32, u32, Vec<f32>) {
    let (_, d) = load_hdr_samples(bytes, Some(extension)).expect("decode");
    (d.width, d.height, light(d.samples))
}

#[test]
fn tiff_full_white_code_produces_headroom_above_one() {
    let (w, h, data) = load_hdr(&encoded16(4, 4, [u16::MAX; 3], ImageFormat::Tiff), "tiff");
    assert_eq!((w, h), (4, 4));
    // Full-code PQ is 10000 nits; at the default 203-nit reference white that's real
    // headroom, not merely SDR white.
    assert!(data.iter().all(|&v| v > 1.0));
}

#[test]
fn float_tiff_is_linear_not_pq() {
    // Two distinct above-white levels, so a clamp shows up as them merging.
    let tiff = tiff_of_floats(4, 2, &[[8.0, 8.0, 8.0], [2.0, 2.0, 2.0]]);
    let (_, _, data) = load_hdr(&tiff, "tiff");
    let max = data.iter().cloned().fold(f32::NEG_INFINITY, f32::max);
    assert!((max - 8.0).abs() < 1e-3, "expected the 8x peak, got {max}");
    assert!(
        (max - 10000.0 / DEFAULT_REFERENCE_WHITE_NITS).abs() > 1.0,
        "decoded to the PQ plateau: the float TIFF took the integer path"
    );
    assert!(
        data.iter().any(|&v| (v - 2.0).abs() < 1e-3),
        "the lower highlight level was crushed away"
    );
}

#[test]
fn explicit_pq_entry_point_still_forces_pq_on_a_float_tiff() {
    let tiff = tiff_of_floats(2, 2, &[[1.0, 1.0, 1.0]]);
    let data = light(load_hdr_tiff_pq_samples(&tiff, Some("tiff")).expect("decode").samples);
    let max = data.iter().cloned().fold(f32::NEG_INFINITY, f32::max);
    assert!((max - 10000.0 / DEFAULT_REFERENCE_WHITE_NITS).abs() < 1.0);
}

#[test]
fn negative_float_samples_clamp_to_zero() {
    let (_, _, data) = load_hdr(&tiff_of_floats(2, 2, &[[-0.5, 0.25, 3.0]]), "tiff");
    assert!(data.iter().all(|&v| v >= 0.0));
    assert!(data.iter().any(|&v| (v - 3.0).abs() < 1e-3));
}

#[test]
fn eight_bit_tiff_is_srgb_not_pq() {
    let img: ImageBuffer<ImgRgb<u8>, Vec<u8>> = ImageBuffer::from_pixel(4, 4, ImgRgb([128; 3]));
    let mut out = Cursor::new(Vec::new());
    img.write_to(&mut out, ImageFormat::Tiff).expect("write 8-bit tiff");
    let (_, _, data) = load_hdr(&out.into_inner(), "tiff");
    let want = srgb_to_linear(128.0 / 255.0);
    assert!(
        (data[0] - want).abs() < 1e-4,
        "8-bit TIFF mid-grey should be sRGB {want:.4}, got {:.4}",
        data[0]
    );
    assert!(data.iter().all(|&x| x <= 1.0 + 1e-6), "an 8-bit source cannot carry headroom");
}

#[test]
fn sixteen_bit_tiff_still_takes_the_pq_path() {
    let (_, _, data) = load_hdr(&encoded16(4, 4, [u16::MAX; 3], ImageFormat::Tiff), "tiff");
    let max = data.iter().cloned().fold(f32::NEG_INFINITY, f32::max);
    assert!((max - 10000.0 / DEFAULT_REFERENCE_WHITE_NITS).abs() < 1.0);
}

#[test]
fn tiff_zero_code_is_black() {
    let (_, _, data) = load_hdr(&encoded16(4, 4, [0; 3], ImageFormat::Tiff), "tiff");
    assert!(data.iter().all(|&v| v.abs() < 1e-6));
}

#[test]
fn png_load_hdr_has_no_headroom() {
    let (_, _, data) = load_hdr(&png8(4, 4, [255; 3]), "png");
    // sRGB no-headroom assumption: full-code white is exactly 1.0, never above it.
    assert!(data.iter().all(|&v| (v - 1.0).abs() < 1e-4));
}
