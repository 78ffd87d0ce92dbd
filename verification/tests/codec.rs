use tohdr::colour::Primaries;
use tohdr::heif::engine::PlaneCodec;
use tohdr::heif::{Chroma, ColourInfo};
use tohdr::meta::{GainPlane, Rgb};
use tohdr::portable::codec::{
    choose_base_chroma, encode_base_heic, encode_gain_heic, narrow, widen, HpvcaCodec,
};

/// A diagonal gradient plus a hot corner, so there is real structure to compress.
fn scene_rgb8(w: u32, h: u32) -> Vec<u8> {
    let mut v = Vec::with_capacity((w * h * 3) as usize);
    for y in 0..h {
        for x in 0..w {
            let fx = x as f32 / w as f32;
            let fy = y as f32 / h as f32;
            let d = ((fx - 0.8).powi(2) + (fy - 0.2).powi(2)).sqrt();
            let hot = (1.0 - (d * 4.0).min(1.0)).powi(2);
            let r = (fx * 200.0 + hot * 55.0).min(255.0);
            let g = ((fx + fy) * 100.0 + hot * 100.0).min(255.0);
            let b = (fy * 220.0 + hot * 35.0).min(255.0);
            v.extend_from_slice(&[r as u8, g as u8, b as u8]);
        }
    }
    v
}

fn scene_gray8(w: u32, h: u32) -> Vec<u8> {
    let mut v = Vec::with_capacity((w * h) as usize);
    for y in 0..h {
        for x in 0..w {
            let fx = x as f32 / w as f32;
            let fy = y as f32 / h as f32;
            let d = ((fx - 0.8).powi(2) + (fy - 0.2).powi(2)).sqrt();
            v.push(((1.0 - (d * 3.0).min(1.0)) * 255.0) as u8);
        }
    }
    v
}

/// First box in any well-formed ISOBMFF/HEIF file is `ftyp`, size-prefixed.
fn looks_like_isobmff(bytes: &[u8]) -> bool {
    bytes.len() > 12 && &bytes[4..8] == b"ftyp"
}

/// This codec's output must be declared BT.601.
#[test]
fn declares_the_bt601_matrix_it_actually_writes() {
    for p in Primaries::all() {
        match PlaneCodec::base_colour(&HpvcaCodec, p) {
            ColourInfo::Nclx { matrix, primaries, transfer, .. } => {
                assert_eq!(matrix, 6, "hpvca writes BT.601");
                assert_eq!(transfer, 13);
                // The matrix is the codec's fact and must not move with the
                // primaries; the primaries are the caller's and must.
                assert_eq!(primaries, p.nclx(), "{p:?} was not passed through");
            }
            other => panic!("expected an nclx declaration, got {other:?}"),
        }
    }
}

#[test]
fn chroma_threshold() {
    assert_eq!(choose_base_chroma(80), Chroma::Yuv420);
    assert_eq!(choose_base_chroma(94), Chroma::Yuv420);
    assert_eq!(choose_base_chroma(95), Chroma::Yuv444);
    assert_eq!(choose_base_chroma(100), Chroma::Yuv444);
}

#[test]
fn base_8bit_encodes_to_a_real_heic() {
    let (w, h) = (64, 48);
    let base = Rgb {
        width: w,
        height: h,
        bits: 8,
        data: scene_rgb8(w, h).into_iter().map(|b| b as u16).collect(),
    };
    let bytes = encode_base_heic(&base, 80).expect("encode");
    assert!(looks_like_isobmff(&bytes));
    assert!(!bytes.is_empty());
}

#[test]
fn base_10bit_encodes_to_a_real_heic() {
    let (w, h) = (64, 48);
    let data: Vec<u16> = scene_rgb8(w, h).into_iter().map(|b| (b as u16) << 2).collect();
    let base = Rgb {
        width: w,
        height: h,
        bits: 10,
        data,
    };
    let bytes = encode_base_heic(&base, 90).expect("encode");
    assert!(looks_like_isobmff(&bytes));
}

#[test]
fn base_12bit_encodes_to_a_real_heic() {
    let (w, h) = (64, 48);
    let data: Vec<u16> = scene_rgb8(w, h).into_iter().map(|b| (b as u16) << 4).collect();
    let base = Rgb {
        width: w,
        height: h,
        bits: 12,
        data,
    };
    let bytes = encode_base_heic(&base, 90).expect("encode");
    assert!(looks_like_isobmff(&bytes));
}

#[test]
fn unsupported_base_bit_depth_errors_without_panicking() {
    let base = Rgb {
        width: 4,
        height: 4,
        bits: 16,
        data: vec![0u16; 4 * 4 * 3],
    };
    assert!(encode_base_heic(&base, 80).is_err());
}

#[test]
fn gain_plane_small_encodes_to_a_real_heic() {
    let (w, h) = (32, 24);
    let gain = GainPlane {
        width: w,
        height: h,
        data: scene_gray8(w, h),
    };
    let bytes = encode_gain_heic(&gain, 80).expect("encode");
    assert!(looks_like_isobmff(&bytes));
}

/// The regression this module exists to prevent: a gain plane larger than
/// hpvca's 512px tile threshold must still come out as a single item, not
/// a `grid`.
#[test]
fn gain_plane_over_tile_threshold_has_no_grid_fourcc() {
    let (w, h) = (600, 400); // > hpvca's 512px TILE_SIZE on both axes
    let gain = GainPlane {
        width: w,
        height: h,
        data: scene_gray8(w, h),
    };
    let bytes = encode_gain_heic(&gain, 80).expect("encode");
    assert!(looks_like_isobmff(&bytes));
    assert!(
        !bytes.windows(4).any(|w| w == b"grid"),
        "gain plane over the tile threshold produced a HEIF grid"
    );
}

#[test]
fn higher_quality_does_not_shrink_output() {
    let (w, h) = (64, 48);
    let base = Rgb {
        width: w,
        height: h,
        bits: 8,
        data: scene_rgb8(w, h).into_iter().map(|b| b as u16).collect(),
    };
    let low = encode_base_heic(&base, 40).expect("encode");
    let high = encode_base_heic(&base, 90).expect("encode");
    assert!(high.len() >= low.len());
}

#[test]
fn both_planes_come_out_as_single_items_of_their_size() {
    let (w, h) = (64, 48);
    let base = Rgb {
        width: w,
        height: h,
        bits: 8,
        data: scene_rgb8(w, h).into_iter().map(|b| b as u16).collect(),
    };
    let coded = HpvcaCodec.encode_base(&base, 80).unwrap();
    assert_eq!((coded.width, coded.height, coded.bit_depth), (w, h, 8));
    assert_eq!(coded.chroma, Chroma::Yuv420);
    assert!(!coded.data.is_empty() && !coded.hvcc.is_empty());

    let fine = HpvcaCodec.encode_base(&base, 95).unwrap();
    assert_eq!(fine.chroma, Chroma::Yuv444);

    let gain = GainPlane { width: w, height: h, data: scene_gray8(w, h) };
    let coded = HpvcaCodec.encode_gain(&gain, 80).unwrap();
    assert_eq!(coded.chroma, Chroma::Monochrome);
    assert_eq!((coded.width, coded.height, coded.bit_depth), (w, h, 8));
}

#[test]
fn a_plane_of_the_wrong_size_is_refused_not_padded() {
    let gain = GainPlane { width: 8, height: 8, data: vec![0; 63] };
    assert!(encode_gain_heic(&gain, 80).is_err());
    let base = Rgb { width: 8, height: 8, bits: 8, data: vec![0; 8 * 8 * 3 - 1] };
    assert!(encode_base_heic(&base, 80).is_err());
    let none = Rgb { width: 0, height: 8, bits: 8, data: Vec::new() };
    assert!(encode_base_heic(&none, 80).is_err());
    let long = Rgb { width: 16385, height: 1, bits: 8, data: vec![0; 16385 * 3] };
    assert!(encode_base_heic(&long, 80).is_err());
    let none = GainPlane { width: 8, height: 0, data: Vec::new() };
    assert!(encode_gain_heic(&none, 80).is_err());
    let long = GainPlane { width: 16385, height: 1, data: vec![0; 16385] };
    assert!(encode_gain_heic(&long, 80).is_err());
}

#[test]
fn samples_are_narrowed_and_widened_one_for_one() {
    assert_eq!(narrow(&[0, 1, 254, 255]), vec![0u8, 1, 254, 255]);
    assert_eq!(widen(&[0, 7, 255]), vec![0u16, 7, 255]);
}
