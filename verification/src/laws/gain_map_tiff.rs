//! What is read of a TIFF that pairs a rendition with its gain map.

pub mod accepted;

use vstd::prelude::*;

use crate::colour::primaries_of;
use crate::iso21496::{parsed, ParseError};
use crate::laws::number16;
use crate::meta::GainMapMeta;
use crate::portable::gainmap_tiff::{
    codes, gain_ifd_from, gain_ifd_of, is_gain_ifd, layout_of, narrowing_is_nearest, one, plane_of,
    read_bytes, row_at, row_bytes_of, row_codes, tiff_pair, tiff_xmp, without_padding, GainMapTiff,
    PairView, PlaneView, Refusal,
};
use crate::portable::tiff::{
    find_tag, first_integer, ifd_of, integers_of, opened, value_of, Fault, IfdView,
};
use crate::portable::Error;

verus! {

/// How many rows an image's strips have: as many as tag 278 states, one at least, and all of
/// them where it is missing.
pub open spec fn rows_per_strip(s: Seq<u8>, le: bool, ifd: IfdView, height: int) -> int {
    match find_tag(ifd.entries, 278, 0) {
        None => if height < 1 {
            1
        } else {
            height
        },
        Some(e) => match first_integer(s, le, Some(e)) {
            Some(n) => if n < 1 {
                1
            } else {
                n as int
            },
            None => 1,
        },
    }
}

/// Whether `v` is an image of three 16-bit samples for each pixel: as wide as tag 256 of its
/// IFD states, as high as tag 257 does, row by row in the strips that tag 273 places.
pub open spec fn is_image(
    s: Seq<u8>,
    le: bool,
    ifd: IfdView,
    width: int,
    height: int,
    v: Seq<u16>,
) -> bool {
    &&& first_integer(s, le, find_tag(ifd.entries, 256, 0)) == Some(width as u32)
    &&& first_integer(s, le, find_tag(ifd.entries, 257, 0)) == Some(height as u32)
    &&& v.len() == height * (3 * width)
    &&& find_tag(ifd.entries, 273, 0) matches Some(e) && integers_of(s, le, e) matches Ok(strips)
        && forall|y: int, i: int|
        0 <= y < height && 0 <= i < 3 * width ==> #[trigger] v[y * (3 * width) + i] == number16(
            le,
            s,
            strips[y / rows_per_strip(s, le, ifd, height)] + (y % rows_per_strip(
                s,
                le,
                ifd,
                height,
            )) * (6 * width) + 2 * i,
        )
}

proof fn lemma_row_codes(s: Seq<u8>, le: bool, p: PlaneView, y: int, n: int, i: int)
    requires
        0 <= i < n,
    ensures
        row_codes(s, le, p, y, n).len() == n,
        row_codes(s, le, p, y, n)[i] == number16(le, s, row_at(p, y) + 2 * i),
    decreases n,
{
    if i < n - 1 {
        lemma_row_codes(s, le, p, y, n - 1, i);
    } else if n > 1 {
        lemma_row_codes(s, le, p, y, n - 1, 0);
    } else {
        assert(row_codes(s, le, p, y, 0).len() == 0);
    }
}

proof fn lemma_codes(s: Seq<u8>, le: bool, p: PlaneView, n: int, y: int, i: int)
    requires
        0 <= y < n,
        0 <= i < 3 * p.layout.width,
    ensures
        codes(s, le, p, n).len() == n * (3 * p.layout.width),
        0 <= y * (3 * p.layout.width) + i < n * (3 * p.layout.width),
        codes(s, le, p, n)[y * (3 * p.layout.width) + i] == number16(
            le,
            s,
            row_at(p, y) + 2 * i,
        ),
    decreases n,
{
    let w = 3 * p.layout.width;
    lemma_row_codes(s, le, p, n - 1, w, i);
    assert(y * w + i < n * w && 0 <= y * w + i) by (nonlinear_arith)
        requires
            0 <= y < n,
            0 <= i < w,
    ;
    assert((n - 1) * w + w == n * w) by (nonlinear_arith);
    if y < n - 1 {
        lemma_codes(s, le, p, n - 1, y, i);
    } else if n > 1 {
        lemma_codes(s, le, p, n - 1, n - 2, i);
    } else {
        assert(codes(s, le, p, 0).len() == 0);
        assert(0 * w == 0) by (nonlinear_arith);
    }
}

proof fn lemma_plane(s: Seq<u8>, le: bool, ifd: IfdView, what: Seq<char>, p: PlaneView)
    requires
        plane_of(s, le, ifd, what) == Ok::<PlaneView, Refusal>(p),
        p.bits == 16,
    ensures
        p.layout.width > 0,
        p.layout.height > 0,
        is_image(
            s,
            le,
            ifd,
            p.layout.width as int,
            p.layout.height as int,
            codes(s, le, p, p.layout.height as int),
        ),
{
    let w = p.layout.width as int;
    let h = p.layout.height as int;
    let v = codes(s, le, p, h);
    let l = layout_of(s, le, ifd, what)->Ok_0;
    assert(l == p.layout);
    assert(one(s, le, ifd, 256, None, what)->Ok_0 == l.width);
    assert(one(s, le, ifd, 257, None, what)->Ok_0 == l.height);
    assert(rows_per_strip(s, le, ifd, h) == l.rows_per_strip);
    lemma_codes(s, le, p, h, 0, 0);
    let e = find_tag(ifd.entries, 273, 0)->Some_0;
    assert(integers_of(s, le, e)->Ok_0 == p.offsets);
    assert(row_bytes_of(l, 16) == 6 * w);
    assert forall|y: int, i: int| 0 <= y < h && 0 <= i < 3 * w implies #[trigger] v[y * (3 * w) + i]
        == number16(
        le,
        s,
        p.offsets[y / rows_per_strip(s, le, ifd, h)] + (y % rows_per_strip(s, le, ifd, h)) * (6
            * w) + 2 * i,
    ) by {
        lemma_codes(s, le, p, h, y, i);
    }
}

proof fn lemma_gain_ifd(s: Seq<u8>, le: bool, offsets: Seq<u32>, i: int, gain: IfdView) -> (k: int)
    requires
        0 <= i,
        gain_ifd_from(s, le, offsets, i) matches Ok(Some(x)) && x == gain,
    ensures
        i <= k < offsets.len(),
        ifd_of(s, le, offsets[k] as int) == Ok::<IfdView, Fault>(gain),
        first_integer(s, le, find_tag(gain.entries, 262, 0)) == Some(52553u32),
        find_tag(gain.entries, 52557, 0) is Some,
    decreases offsets.len() - i,
{
    let x = ifd_of(s, le, offsets[i] as int)->Ok_0;
    if is_gain_ifd(s, le, x) {
        i
    } else {
        lemma_gain_ifd(s, le, offsets, i + 1, gain)
    }
}

/// A pair that is read is what its two IFDs state. The rendition is the image of the first.
/// The gain map is that of an IFD that tag 330 places and whose tag 262 is 52553, and what is
/// declared of it is the metadata in its tag 52557 behind four bytes. The primaries are those
/// of the profile in the first IFD's tag 34675.
pub proof fn a_pair_is_what_its_ifds_state(s: Seq<u8>, p: PairView) -> (found: (IfdView, IfdView))
    requires
        tiff_pair(s) matches Ok(Some(x)) && x == p,
    ensures
        ({
            let (ifd0, gain) = found;
            let le = opened(s)->Some_0.0;
            &&& opened(s) matches Some(t) && ifd_of(s, le, t.1) == Ok::<IfdView, Fault>(ifd0)
            &&& p.width > 0 && p.height > 0
            &&& is_image(s, le, ifd0, p.width as int, p.height as int, p.base)
            &&& is_image(s, le, gain, p.width as int, p.height as int, p.gain)
            &&& match find_tag(ifd0.entries, 34675, 0) {
                Some(e) => match value_of(s, e) {
                    Ok(b) => p.primaries == primaries_of(b),
                    Err(_) => p.primaries is None,
                },
                None => p.primaries is None,
            }
            &&& find_tag(gain.entries, 52557, 0) matches Some(e) && value_of(s, e) matches Ok(raw)
                && raw.len() > 4 && parsed(raw.skip(4)) == Ok::<GainMapMeta, ParseError>(
                p.declared,
            )
            &&& find_tag(ifd0.entries, 330, 0) matches Some(e) && integers_of(s, le, e) matches Ok(
                offsets,
            ) && exists|k: int|
                0 <= k < offsets.len() && ifd_of(s, le, #[trigger] offsets[k] as int) == Ok::<
                    IfdView,
                    Fault,
                >(gain)
            &&& first_integer(s, le, find_tag(gain.entries, 262, 0)) == Some(52553u32)
        }),
{
    let t = opened(s)->Some_0;
    let le = t.0;
    let ifd0 = ifd_of(s, le, t.1)->Ok_0;
    let gain = gain_ifd_of(s, le, ifd0)->Ok_0->Some_0;
    let e = find_tag(ifd0.entries, 330, 0)->Some_0;
    let offsets = integers_of(s, le, e)->Ok_0;
    let k = lemma_gain_ifd(s, le, offsets, 0, gain);
    assert(ifd_of(s, le, offsets[k] as int) == Ok::<IfdView, Fault>(gain));
    let b = plane_of(s, le, ifd0, "base image"@)->Ok_0;
    let g = plane_of(s, le, gain, "gain map"@)->Ok_0;
    lemma_plane(s, le, ifd0, "base image"@, b);
    lemma_plane(s, le, gain, "gain map"@, g);
    let raw = value_of(s, find_tag(gain.entries, 52557, 0)->Some_0)->Ok_0;
    assert(raw.subrange(4, raw.len() as int) =~= raw.skip(4));
    (ifd0, gain)
}

/// A pair is handed over as it was read: the samples of both images, the declared metadata
/// and the primaries as they are, and a rendition in which every sample is the 8-bit code
/// that is nearest on the scale that takes full to full.
pub proof fn a_pair_is_handed_over_as_it_was_read(t: GainMapTiff, p: PairView)
    requires
        t.holds(p),
    ensures
        t.base_codes@ == p.base,
        t.gain_codes@ == p.gain,
        t.declared == p.declared,
        t.primaries == p.primaries,
        t.base.width == p.width,
        t.base.height == p.height,
        t.base.bits == 8,
        t.base.data@.len() == p.base.len(),
        forall|i: int|
            0 <= i < p.base.len() ==> (#[trigger] t.base.data@[i]) <= 255 && -32768 <= 65535
                * t.base.data@[i] - 255 * p.base[i] <= 32767,
{
    assert forall|i: int| 0 <= i < p.base.len() implies (#[trigger] t.base.data@[i]) <= 255
        && -32768 <= 65535 * t.base.data@[i] - 255 * p.base[i] <= 32767 by {
        narrowing_is_nearest(p.base[i]);
    }
}

/// What is read of a file is a pair, handed over as it stands in the file.
pub proof fn what_is_read_is_a_pair(
    bytes: &[u8],
    r: Result<Option<GainMapTiff>, Error>,
) -> (p: PairView)
    requires
        call_ensures(read_bytes, (bytes,), r),
        r matches Ok(Some(_)),
    ensures
        tiff_pair(bytes@) matches Ok(Some(x)) && x == p,
        r->Ok_0->Some_0.holds(p),
{
    tiff_pair(bytes@)->Ok_0->Some_0
}

proof fn lemma_without_padding(b: Seq<u8>)
    ensures
        ({
            let v = without_padding(b);
            &&& v.len() <= b.len()
            &&& v == b.take(v.len() as int)
            &&& v.len() > 0 ==> v.last() != 0
            &&& forall|i: int| v.len() <= i < b.len() ==> b[i] == 0
        }),
    decreases b.len(),
{
    let v = without_padding(b);
    if b.len() > 0 && b.last() == 0 {
        lemma_without_padding(b.drop_last());
        assert(b.take(v.len() as int) =~= b.drop_last().take(v.len() as int));
        assert forall|i: int| v.len() <= i < b.len() implies b[i] == 0 by {
            if i < b.len() - 1 {
                assert(b.drop_last()[i] == 0);
            }
        }
    } else {
        assert(b.take(b.len() as int) =~= b);
    }
}

/// The XMP packet of a TIFF is the value of tag 700 of its first IFD, up to the zeros that it
/// is padded with.
pub proof fn a_tiffs_packet_is_that_of_its_first_ifd(s: Seq<u8>, v: Seq<u8>)
    requires
        tiff_xmp(s) == Some(v),
    ensures
        opened(s) matches Some(t) && ifd_of(s, t.0, t.1) matches Ok(ifd0) && find_tag(
            ifd0.entries,
            700,
            0,
        ) matches Some(e) && value_of(s, e) matches Ok(b) && 0 < v.len() <= b.len() && v == b.take(
            v.len() as int,
        ) && v.last() != 0 && forall|i: int| v.len() <= i < b.len() ==> b[i] == 0,
{
    let t = opened(s)->Some_0;
    let ifd0 = ifd_of(s, t.0, t.1)->Ok_0;
    let b = value_of(s, find_tag(ifd0.entries, 700, 0)->Some_0)->Ok_0;
    lemma_without_padding(b);
}

} // verus!
