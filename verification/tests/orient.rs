use tohdr::orient::{heif_transform, HeifTransform};

/// Exif's own definition of an orientation, as a coordinate map.
fn exif_maps(orientation: u8, w: i32, h: i32, x: i32, y: i32) -> (i32, i32) {
    match orientation {
        1 => (x, y),
        2 => (w - 1 - x, y),
        3 => (w - 1 - x, h - 1 - y),
        4 => (x, h - 1 - y),
        5 => (y, x),
        6 => (h - 1 - y, x),
        7 => (h - 1 - y, w - 1 - x),
        8 => (y, w - 1 - x),
        _ => (x, y),
    }
}

/// HEIF's definition, composed: rotate anti-clockwise, then mirror.
///
/// Each step also carries the dimensions forward, because a quarter turn
/// swaps them and the mirror that follows is about the *rotated* image's
/// axis — which is exactly the detail that makes 5 and 7 easy to get wrong.
fn heif_maps(t: HeifTransform, w: i32, h: i32, x: i32, y: i32) -> (i32, i32) {
    let (mut w, mut h, mut x, mut y) = (w, h, x, y);
    for _ in 0..t.rotate_ccw_quarters {
        // (x, y) -> (y, w-1-x), and the image becomes h x w.
        let (nx, ny) = (y, w - 1 - x);
        (w, h, x, y) = (h, w, nx, ny);
    }
    // axis 0 flips vertically, axis 1 horizontally — the measured reading,
    // not the one the spec's phrasing first suggests.
    match t.mirror_axis {
        Some(0) => y = h - 1 - y,
        Some(1) => x = w - 1 - x,
        _ => {}
    }
    (x, y)
}

/// The property the whole module exists for, checked on coordinates instead
/// of by reading the arithmetic: for all eight orientations and every pixel
/// of a deliberately non-square image, the boxes we emit land each pixel
/// exactly where Exif says it goes.
#[test]
fn every_orientation_composes_to_the_exif_mapping() {
    // 5x3, so a transposed result is 3x5 and a wrong dimension swap shows up
    // as an out-of-range coordinate rather than a coincidence.
    const W: i32 = 5;
    const H: i32 = 3;
    for o in 1u8..=8 {
        let t = heif_transform(o);
        for y in 0..H {
            for x in 0..W {
                assert_eq!(
                    heif_maps(t, W, H, x, y),
                    exif_maps(o, W, H, x, y),
                    "orientation {o} disagrees at ({x}, {y}) with {t:?}"
                );
            }
        }
    }
}

#[test]
fn upright_and_nonsense_both_mean_no_transform() {
    assert!(heif_transform(1).is_identity());
    assert!(heif_transform(0).is_identity());
    assert!(heif_transform(9).is_identity());
    assert!(heif_transform(255).is_identity());
}

/// The four values that need a mirror are exactly the ones Exif defines with
/// a reflection; a rotation-only file must not gain an `imir`.
#[test]
fn only_the_reflecting_orientations_get_a_mirror() {
    for o in [1u8, 3, 6, 8] {
        assert_eq!(heif_transform(o).mirror_axis, None, "orientation {o}");
    }
    for o in [2u8, 4, 5, 7] {
        assert!(heif_transform(o).mirror_axis.is_some(), "orientation {o}");
    }
}

/// A quarter turn is a quarter turn: the two pure rotations must not be the
/// same box, which a sign error in the anti-clockwise convention would make
/// them.
#[test]
fn the_two_quarter_turns_are_opposites() {
    assert_eq!(heif_transform(6).rotate_ccw_quarters, 3);
    assert_eq!(heif_transform(8).rotate_ccw_quarters, 1);
    assert_eq!(heif_transform(3).rotate_ccw_quarters, 2);
}
