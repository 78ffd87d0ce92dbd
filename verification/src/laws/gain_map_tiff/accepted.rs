//! Which TIFFs have to be read as a pair.

use vstd::prelude::*;

use crate::iso21496::{parsed, ParseError};
use crate::meta::GainMapMeta;
use crate::portable::gainmap_tiff::{
    all_are, counts_refused, depth_of, gain_ifd_from, gain_ifd_of, layout_of, metadata_of, one,
    pair_of, pair_refused, plane_of, read_bytes, row_bytes_of, rows_in, strip_count, strips_refused,
    tiff_pair, GainMapTiff, Layout, Refusal,
};
use crate::portable::tiff::{
    find_tag, first_integer, ifd_of, integers_of, opened, value_of, Fault, IfdView,
};
use crate::portable::Error;

verus! {

/// Whether the first number of a tag is `v`.
pub open spec fn states(s: Seq<u8>, le: bool, ifd: IfdView, tag: u16, v: u32) -> bool {
    find_tag(ifd.entries, tag, 0) matches Some(e) && integers_of(s, le, e) matches Ok(x) && x.len()
        > 0 && x[0] == v
}

/// Whether a tag states `v`, or is not there.
pub open spec fn states_or_omits(s: Seq<u8>, le: bool, ifd: IfdView, tag: u16, v: u32) -> bool {
    find_tag(ifd.entries, tag, 0) is None || states(s, le, ifd, tag, v)
}

/// How many of `h` rows are in strip `i` of those with `per` rows each.
pub open spec fn rows_of_strip(h: int, per: int, i: int) -> int {
    if (i + 1) * per <= h {
        per
    } else {
        h - i * per
    }
}

/// Whether an IFD is that of an image of `w` by `h` pixels, each three whole numbers of 16 bits
/// side by side and not compressed, in strips that are all in the file.
pub open spec fn is_in_order(
    s: Seq<u8>,
    le: bool,
    ifd: IfdView,
    w: u32,
    h: u32,
    per: u32,
    strips: Seq<u32>,
) -> bool {
    &&& w > 0 && h > 0 && per > 0
    &&& states(s, le, ifd, 256, w)
    &&& states(s, le, ifd, 257, h)
    &&& states(s, le, ifd, 277, 3)
    &&& states_or_omits(s, le, ifd, 259, 1)
    &&& states_or_omits(s, le, ifd, 284, 1)
    &&& states_or_omits(s, le, ifd, 339, 1)
    &&& states(s, le, ifd, 278, per)
    &&& find_tag(ifd.entries, 258, 0) matches Some(e) && integers_of(s, le, e) matches Ok(bits)
        && bits.len() > 0 && forall|k: int| 0 <= k < bits.len() ==> #[trigger] bits[k] == 16
    &&& find_tag(ifd.entries, 273, 0) matches Some(e) && integers_of(s, le, e) == Ok::<
        Seq<u32>,
        Fault,
    >(strips)
    &&& (strips.len() - 1) * per < h <= strips.len() * per
    &&& forall|i: int|
        0 <= i < strips.len() ==> (#[trigger] strips[i]) + rows_of_strip(
            h as int,
            per as int,
            i,
        ) * (6 * w) <= s.len()
    &&& find_tag(ifd.entries, 279, 0) is None || (find_tag(ifd.entries, 279, 0) matches Some(e)
        && integers_of(s, le, e) matches Ok(counts) && forall|i: int|
        0 <= i < counts.len() ==> (#[trigger] counts[i]) as int % (6 * w) == 0)
}

proof fn lemma_layout(
    s: Seq<u8>,
    le: bool,
    ifd: IfdView,
    w: u32,
    h: u32,
    per: u32,
    strips: Seq<u32>,
    what: Seq<char>,
)
    requires
        is_in_order(s, le, ifd, w, h, per, strips),
    ensures
        layout_of(s, le, ifd, what) == Ok::<Layout, Refusal>(
            Layout {
                width: w,
                height: h,
                samples: 3,
                compression: 1,
                planar: 1,
                sample_format: 1,
                rows_per_strip: per,
            },
        ),
        depth_of(s, le, ifd, what) == Ok::<u32, Refusal>(16),
{
    assert(one(s, le, ifd, 256, None, what) == Ok::<u32, Refusal>(w));
    assert(one(s, le, ifd, 257, None, what) == Ok::<u32, Refusal>(h));
    assert(one(s, le, ifd, 277, Some(1), what) == Ok::<u32, Refusal>(3));
    assert(one(s, le, ifd, 259, Some(1), what) == Ok::<u32, Refusal>(1));
    assert(one(s, le, ifd, 284, Some(1), what) == Ok::<u32, Refusal>(1));
    assert(one(s, le, ifd, 339, Some(1), what) == Ok::<u32, Refusal>(1));
    assert(one(s, le, ifd, 278, Some(h), what) == Ok::<u32, Refusal>(per));
    let bits = integers_of(s, le, find_tag(ifd.entries, 258, 0)->Some_0)->Ok_0;
    assert(all_are(bits, bits[0]));
}

proof fn lemma_strips(
    s: Seq<u8>,
    l: Layout,
    row: int,
    offsets: Seq<u32>,
    i: int,
    what: Seq<char>,
)
    requires
        0 <= i <= offsets.len(),
        forall|k: int|
            0 <= k < offsets.len() ==> (#[trigger] offsets[k]) + rows_in(l, k) * row <= s.len(),
    ensures
        strips_refused(s, l, row, offsets, i, what) is None,
    decreases offsets.len() - i,
{
    if i < offsets.len() {
        lemma_strips(s, l, row, offsets, i + 1, what);
    }
}

proof fn lemma_counts(counts: Seq<u32>, row: int, i: int, n: int, what: Seq<char>)
    requires
        0 <= i <= counts.len(),
        row > 0,
        forall|k: int| 0 <= k < counts.len() ==> (#[trigger] counts[k]) as int % row == 0,
    ensures
        counts_refused(counts, row, i, n, what) is None,
    decreases counts.len() - i,
{
    if i < counts.len() && i < n {
        assert(counts[i] as int % row == 0);
        lemma_counts(counts, row, i + 1, n, what);
    }
}

proof fn lemma_plane(
    s: Seq<u8>,
    le: bool,
    ifd: IfdView,
    w: u32,
    h: u32,
    per: u32,
    strips: Seq<u32>,
    what: Seq<char>,
)
    requires
        is_in_order(s, le, ifd, w, h, per, strips),
    ensures
        plane_of(s, le, ifd, what) is Ok,
        ({
            let p = plane_of(s, le, ifd, what)->Ok_0;
            &&& p.bits == 16
            &&& p.layout.sample_format == 1
            &&& p.layout.width == w && p.layout.height == h
        }),
{
    lemma_layout(s, le, ifd, w, h, per, strips, what);
    let l = layout_of(s, le, ifd, what)->Ok_0;
    let row = row_bytes_of(l, 16);
    assert(row == 6 * w);
    let n = strips.len() as int;
    assert(strip_count(l) == n) by (nonlinear_arith)
        requires
            strip_count(l) == (h + per - 1) / per as int,
            (n - 1) * per < h <= n * per,
            per > 0,
    ;
    assert forall|k: int| 0 <= k < n implies (#[trigger] strips[k]) + rows_in(l, k) * row
        <= s.len() by {
        assert(rows_in(l, k) == rows_of_strip(h as int, per as int, k)) by (nonlinear_arith)
            requires
                0 <= k < n,
                (n - 1) * per < h <= n * per,
                per > 0,
                rows_in(l, k) == (if k + 1 == n {
                    h - k * per
                } else {
                    per as int
                }),
                rows_of_strip(h as int, per as int, k) == (if (k + 1) * per <= h {
                    per as int
                } else {
                    h - k * per
                }),
        ;
    }
    lemma_strips(s, l, row, strips, 0, what);
    if let Some(e) = find_tag(ifd.entries, 279, 0) {
        let counts = integers_of(s, le, e)->Ok_0;
        lemma_counts(counts, row, 0, strip_count(l), what);
    }
}

proof fn lemma_gain(s: Seq<u8>, le: bool, offsets: Seq<u32>, i: int, k: int, gain: IfdView)
    requires
        0 <= i <= k < offsets.len(),
        ifd_of(s, le, offsets[k] as int) == Ok::<IfdView, Fault>(gain),
        first_integer(s, le, find_tag(gain.entries, 262, 0)) == Some(52553u32),
        find_tag(gain.entries, 52557, 0) is Some,
        forall|j: int|
            i <= j < k ==> (ifd_of(s, le, #[trigger] offsets[j] as int) matches Ok(x)
                && first_integer(s, le, find_tag(x.entries, 262, 0)) != Some(52553u32)),
    ensures
        gain_ifd_from(s, le, offsets, i) == Ok::<Option<IfdView>, Refusal>(Some(gain)),
    decreases k - i,
{
    if i < k {
        assert(ifd_of(s, le, offsets[i] as int) is Ok);
        lemma_gain(s, le, offsets, i + 1, k, gain);
    }
}

/// A TIFF is read as a pair when both of its images are in order and of the same size, its gain
/// map is among the IFDs that tag 330 places behind none that is one, and its metadata can be
/// read and declares no headroom for the base.
pub proof fn a_pair_in_order_is_read(
    bytes: &[u8],
    r: Result<Option<GainMapTiff>, Error>,
    ifd0: IfdView,
    offsets: Seq<u32>,
    k: int,
    gain: IfdView,
    w: u32,
    h: u32,
    base_strips: (u32, Seq<u32>),
    gain_strips: (u32, Seq<u32>),
    raw: Seq<u8>,
    m: GainMapMeta,
)
    requires
        call_ensures(read_bytes, (bytes,), r),
        opened(bytes@) is Some,
        ({
            let s = bytes@;
            let (le, first) = opened(s)->Some_0;
            &&& ifd_of(s, le, first) == Ok::<IfdView, Fault>(ifd0)
            &&& find_tag(ifd0.entries, 330, 0) matches Some(e) && integers_of(s, le, e) == Ok::<
                Seq<u32>,
                Fault,
            >(offsets)
            &&& 0 <= k < offsets.len()
            &&& ifd_of(s, le, offsets[k] as int) == Ok::<IfdView, Fault>(gain)
            &&& first_integer(s, le, find_tag(gain.entries, 262, 0)) == Some(52553u32)
            &&& forall|j: int|
                0 <= j < k ==> (ifd_of(s, le, #[trigger] offsets[j] as int) matches Ok(x)
                    && first_integer(s, le, find_tag(x.entries, 262, 0)) != Some(52553u32))
            &&& find_tag(gain.entries, 52557, 0) matches Some(e) && value_of(s, e) == Ok::<
                Seq<u8>,
                Fault,
            >(raw)
            &&& raw.len() > 4
            &&& parsed(raw.skip(4)) == Ok::<GainMapMeta, ParseError>(m)
            &&& m.base_headroom.bits == 0 || m.base_headroom.bits == 0x8000_0000
            &&& is_in_order(s, le, ifd0, w, h, base_strips.0, base_strips.1)
            &&& is_in_order(s, le, gain, w, h, gain_strips.0, gain_strips.1)
        }),
    ensures
        r matches Ok(Some(t)) && t.declared == m && t.base.width == w && t.base.height == h,
{
    let s = bytes@;
    let (le, first) = opened(s)->Some_0;
    lemma_gain(s, le, offsets, 0, k, gain);
    assert(gain_ifd_of(s, le, ifd0) == Ok::<Option<IfdView>, Refusal>(Some(gain)));
    assert(raw.subrange(4, raw.len() as int) =~= raw.skip(4));
    assert(metadata_of(s, gain) == Ok::<GainMapMeta, Refusal>(m));
    lemma_plane(s, le, ifd0, w, h, base_strips.0, base_strips.1, "base image"@);
    lemma_plane(s, le, gain, w, h, gain_strips.0, gain_strips.1, "gain map"@);
    let b = plane_of(s, le, ifd0, "base image"@)->Ok_0;
    let g = plane_of(s, le, gain, "gain map"@)->Ok_0;
    assert(pair_refused(b, g) is None);
    assert(pair_of(s, le, ifd0, gain) is Ok);
    assert(tiff_pair(s) is Ok);
}

/// A file that is no TIFF, or one without an IFD beside its first, is left to others.
pub proof fn a_file_without_a_second_image_is_left_alone(
    bytes: &[u8],
    r: Result<Option<GainMapTiff>, Error>,
)
    requires
        call_ensures(read_bytes, (bytes,), r),
        opened(bytes@) matches Some(t) ==> (ifd_of(bytes@, t.0, t.1) matches Ok(ifd0) && find_tag(
            ifd0.entries,
            330,
            0,
        ) is None),
    ensures
        r matches Ok(None),
{
}

} // verus!
