//! Where an orientation has to bring the edges of a picture.

use vstd::prelude::*;

use crate::orient::{heif_maps, heif_transform, HeifTransform};

verus! {

/// Where the boxes of a transform bring the pixel stored at `(x, y)` of a `w` by `h` picture.
pub open spec fn brought_to(t: HeifTransform, w: int, h: int, x: int, y: int) -> (int, int) {
    heif_maps(t.rotate_ccw_quarters as nat, t.mirror_axis, w, h, x, y)
}

/// Exif says of an orientation on which side of the shown picture the first stored row and the
/// first stored column are. For 1 to 8 the row is at the top, top, bottom, bottom, left, right,
/// right and left, and the column at the left, right, right, left, top, top, bottom and bottom.
/// From 5 on the sides have changed places. Anything else is shown as it is stored.
pub proof fn the_first_row_and_column_are_on_their_sides(
    o: u8,
    t: HeifTransform,
    w: int,
    h: int,
    x: int,
    y: int,
)
    requires
        call_ensures(heif_transform, (o,), t),
    ensures
        ({
            let row = brought_to(t, w, h, x, 0);
            let column = brought_to(t, w, h, 0, y);
            &&& o == 1 || o == 2 ==> row.1 == 0
            &&& o == 3 || o == 4 ==> row.1 == h - 1
            &&& o == 5 || o == 8 ==> row.0 == 0
            &&& o == 6 || o == 7 ==> row.0 == h - 1
            &&& o == 1 || o == 4 ==> column.0 == 0
            &&& o == 2 || o == 3 ==> column.0 == w - 1
            &&& o == 5 || o == 6 ==> column.1 == 0
            &&& o == 7 || o == 8 ==> column.1 == w - 1
            &&& !(1 <= o <= 8) ==> brought_to(t, w, h, x, y) == (x, y)
            &&& t.rotate_ccw_quarters <= 3
            &&& t.mirror_axis matches Some(axis) ==> axis <= 1
            &&& (t.rotate_ccw_quarters % 2 == 1) == (5 <= o <= 8)
        }),
{
    reveal_with_fuel(heif_maps, 4);
}

} // verus!
