//! Exif `Orientation` as a HEIF container transform.
//!
//! Nothing here rotates pixels, so a rotated source stays correct only if the
//! container says how to display it -- and that must agree with the Exif tag in
//! the same file, or two conformant viewers show the photo different ways up.
//!
//! HEIF gives `irot` (anti-clockwise quarter turns) and `imir`, applied
//! rotation-then-mirror. 5 and 7 are diagonal reflections and need both boxes.
//!
//! **`imir`'s `axis` names the direction the image is flipped in, so `axis = 0`
//! swaps top and bottom** -- not, as the wording of the standard suggests, a
//! reflection about a vertical axis.

use vstd::prelude::*;

verus! {

/// A HEIF rotation-and-mirror pair.
#[derive(Clone, Copy, Debug, PartialEq, Eq, Structural)]
pub struct HeifTransform {
    /// `irot`'s angle field: quarter turns anti-clockwise, `0..=3`.
    pub rotate_ccw_quarters: u8,
    /// `imir`'s axis field, when a mirror is needed at all: `0` flips the image
    /// vertically (top and bottom swap), `1` flips it horizontally (left and
    /// right swap).
    pub mirror_axis: Option<u8>,
}

impl Default for HeifTransform {
    /// The identity.
    fn default() -> (t: HeifTransform)
        ensures
            t == (HeifTransform { rotate_ccw_quarters: 0, mirror_axis: None }),
    {
        HeifTransform { rotate_ccw_quarters: 0, mirror_axis: None }
    }
}

impl HeifTransform {
    /// Whether this is the identity, i.e. what an unrotated capture needs.
    pub fn is_identity(self) -> (b: bool)
        ensures
            b == (self.rotate_ccw_quarters == 0 && self.mirror_axis is None),
    {
        self.rotate_ccw_quarters == 0 && self.mirror_axis.is_none()
    }
}

/// Where Exif says the pixel stored at `(x, y)` of a `w` by `h` image is shown,
/// for each orientation.
pub open spec fn exif_maps(orientation: u8, w: int, h: int, x: int, y: int) -> (int, int) {
    if orientation == 2 {
        (w - 1 - x, y)
    } else if orientation == 3 {
        (w - 1 - x, h - 1 - y)
    } else if orientation == 4 {
        (x, h - 1 - y)
    } else if orientation == 5 {
        (y, x)
    } else if orientation == 6 {
        (h - 1 - y, x)
    } else if orientation == 7 {
        (h - 1 - y, w - 1 - x)
    } else if orientation == 8 {
        (y, w - 1 - x)
    } else {
        (x, y)
    }
}

/// Where `(x, y)` of a `w` by `h` image lands after anti-clockwise quarter turns
/// and then a mirror. Each turn swaps the dimensions, and the mirror is about the
/// *rotated* image.
pub open spec fn heif_maps(turns: nat, mirror: Option<u8>, w: int, h: int, x: int, y: int) -> (
    int,
    int,
)
    decreases turns,
{
    if turns > 0 {
        heif_maps((turns - 1) as nat, mirror, h, w, y, w - 1 - x)
    } else if mirror == Some(0u8) {
        (x, h - 1 - y)
    } else if mirror == Some(1u8) {
        (w - 1 - x, y)
    } else {
        (x, y)
    }
}

/// The container transform for an Exif `Orientation`.
pub open spec fn transform_for(orientation: u8) -> HeifTransform {
    let (turns, mirror): (u8, Option<u8>) = if orientation == 2 {
        (0, Some(1))
    } else if orientation == 3 {
        (2, None)
    } else if orientation == 4 {
        (0, Some(0))
    } else if orientation == 5 {
        (1, Some(0))
    } else if orientation == 6 {
        (3, None)
    } else if orientation == 7 {
        (1, Some(1))
    } else if orientation == 8 {
        (1, None)
    } else {
        (0, None)
    };
    HeifTransform { rotate_ccw_quarters: turns, mirror_axis: mirror }
}

/// For every orientation and every pixel of an image of any size, the boxes land
/// the pixel exactly where Exif says it goes. An orientation outside `1..=8` leaves
/// pixels where they are.
pub proof fn every_orientation_composes(o: u8, w: int, h: int, x: int, y: int)
    ensures
        heif_maps(
            transform_for(o).rotate_ccw_quarters as nat,
            transform_for(o).mirror_axis,
            w,
            h,
            x,
            y,
        ) == exif_maps(o, w, h, x, y),
{
    reveal_with_fuel(heif_maps, 4);
}

/// A mirror is used exactly by the orientations Exif defines with a reflection.
pub proof fn only_reflections_mirror(o: u8)
    ensures
        transform_for(o).mirror_axis is Some <==> o == 2 || o == 4 || o == 5 || o == 7,
{
}

/// The container transform equivalent to an Exif `Orientation`.
///
/// Anything outside `1..=8` is the identity: an out-of-range tag is a damaged
/// one, and declaring no transform matches what the pixels actually are.
pub fn heif_transform(exif_orientation: u8) -> (t: HeifTransform)
    ensures
        t == transform_for(exif_orientation),
{
    let (rotate_ccw_quarters, mirror_axis): (u8, Option<u8>) = match exif_orientation {
        2 => (0, Some(1)),
        3 => (2, None),
        4 => (0, Some(0)),
        5 => (1, Some(0)),
        6 => (3, None),
        7 => (1, Some(1)),
        8 => (1, None),
        // 1, and anything a damaged file put there.
        _ => (0, None),
    };
    HeifTransform { rotate_ccw_quarters, mirror_axis }
}

} // verus!
