//! Reading the gain map out of a Lightroom Classic "HDR Output" TIFF.
//!
//! Lightroom writes a *pair* in one TIFF, not a single HDR image:
//!
//! - `IFD0` -- the SDR rendition, 16-bit, with the export's ICC profile, which decides
//!   what the output declares.
//! - a SubIFD via tag 330, `PhotometricInterpretation = 52553` -- a full-resolution
//!   3-channel 16-bit gain map, plus tag 52557 holding ISO 21496-1 metadata behind a
//!   4-byte zero prefix.
//!
//! Nothing is tone-mapped here: the headroom is Adobe's and the base is Lightroom's own
//! rendition. What the two planes state is handed on sample by sample; turning them into
//! an HDR image takes floating point and happens elsewhere.
//!
//! Two inputs are rejected rather than guessed at: the 32-bit float variant (same map,
//! roles reversed), and any compression.

use vstd::prelude::*;

use crate::bytes::{get_word16, span, to_owned_bytes, word16};
use crate::colour::{primaries_from_icc, primaries_of, Primaries};
use crate::iso21496::{beyond_range, parse, parsed};
use crate::meta::{GainMapMeta, Rgb};
use crate::portable::tiff::{
    find_tag, first_integer, ifd_of, integers_of, opened, value_of, EntryView, Ifd, IfdView, Tiff,
};
use crate::portable::Error;
use crate::text::{
    around, four_places, four_places_text, hex_pairs, hex_text, join_text, list_text, listed,
    put_around,
};

verus! {

/// `PhotometricInterpretation` on the gain-map SubIFD, read off a real export.
pub const PHOTOMETRIC_GAIN_MAP: u32 = 52553;

/// TIFF tag carrying ISO 21496-1 metadata on the gain-map SubIFD.
pub const TAG_GAIN_MAP_METADATA: u16 = 52557;

/// Bytes of that tag before the payload begins, observed as zeros.
pub const METADATA_PREFIX_LEN: usize = 4;

/// The embedded ICC profile, which is the file's only statement of what its pixels mean.
pub const TAG_ICC_PROFILE: u16 = 34675;

/// `0x02BC`, a TIFF's XMP packet.
pub const TAG_XMP: u16 = 700;

pub const TAG_IMAGE_WIDTH: u16 = 256;

pub const TAG_IMAGE_LENGTH: u16 = 257;

pub const TAG_BITS_PER_SAMPLE: u16 = 258;

pub const TAG_COMPRESSION: u16 = 259;

pub const TAG_PHOTOMETRIC: u16 = 262;

pub const TAG_STRIP_OFFSETS: u16 = 273;

pub const TAG_SAMPLES_PER_PIXEL: u16 = 277;

pub const TAG_ROWS_PER_STRIP: u16 = 278;

pub const TAG_STRIP_BYTE_COUNTS: u16 = 279;

pub const TAG_PLANAR_CONFIG: u16 = 284;

pub const TAG_SUB_IFDS: u16 = 330;

pub const TAG_SAMPLE_FORMAT: u16 = 339;

/// Why a file is refused, and in which words.
pub enum Refusal {
    /// The file is broken.
    Decode(Seq<char>),
    /// The file is of a kind that is not taken.
    Unsupported(Seq<char>),
}

/// Whether an error is a refusal put into words.
pub open spec fn refuses(e: Error, r: Refusal) -> bool {
    match r {
        Refusal::Decode(t) => e matches Error::Decode(m) && m@ == t,
        Refusal::Unsupported(t) => e matches Error::UnsupportedInput(m) && m@ == t,
    }
}

/// Whether a result is the one that is wanted.
pub open spec fn agrees<T>(r: Result<T, Error>, want: Result<T, Refusal>) -> bool {
    match (r, want) {
        (Ok(a), Ok(b)) => a == b,
        (Err(e), Err(f)) => refuses(e, f),
        _ => false,
    }
}

fn decode_error(m: String) -> (e: Error)
    ensures
        refuses(e, Refusal::Decode(m@)),
{
    Error::Decode(m)
}

fn unsupported(m: String) -> (e: Error)
    ensures
        refuses(e, Refusal::Unsupported(m@)),
{
    Error::UnsupportedInput(m)
}

/// The integers of an entry.
pub open spec fn numbers(s: Seq<u8>, le: bool, e: EntryView) -> Result<Seq<u32>, Refusal> {
    match integers_of(s, le, e) {
        Ok(v) => Ok(v),
        Err(f) => Err(Refusal::Decode(f.says())),
    }
}

/// The first number of a tag, zero when it has none, with a value for when it is missing.
pub open spec fn one(
    s: Seq<u8>,
    le: bool,
    ifd: IfdView,
    tag: u16,
    default: Option<u32>,
    what: Seq<char>,
) -> Result<u32, Refusal> {
    match find_tag(ifd.entries, tag, 0) {
        Some(e) => match numbers(s, le, e) {
            Err(r) => Err(r),
            Ok(v) => Ok(
                if v.len() > 0 {
                    v[0]
                } else {
                    0
                },
            ),
        },
        None => match default {
            Some(v) => Ok(v),
            None => Err(
                Refusal::Decode(what + around(": TIFF tag "@, tag as nat, " is missing"@)),
            ),
        },
    }
}

fn read_one(tiff: &Tiff, ifd: &Ifd, tag: u16, default: Option<u32>, what: &str) -> (r: Result<
    u32,
    Error,
>)
    ensures
        agrees(r, one(tiff.bytes@, tiff.little_endian, ifd@, tag, default, what@)),
{
    match ifd.get(tag) {
        Some(e) => match tiff.integers(&e) {
            Ok(v) => Ok(
                if v.len() > 0 {
                    v[0]
                } else {
                    0
                },
            ),
            Err(f) => Err(decode_error(f.message())),
        },
        None => match default {
            Some(v) => Ok(v),
            None => {
                let t = put_around(": TIFF tag ", tag as u128, " is missing");
                Err(decode_error(join_text(what, t.as_str())))
            },
        },
    }
}

/// What the single numbers of an image say.
#[derive(Clone, Copy, Debug, PartialEq, Eq, Structural)]
pub struct Layout {
    pub width: u32,
    pub height: u32,
    pub samples: u32,
    pub compression: u32,
    pub planar: u32,
    pub sample_format: u32,
    pub rows_per_strip: u32,
}

/// What the single numbers of an image say, the first that cannot be read refusing it.
pub open spec fn layout_of(s: Seq<u8>, le: bool, ifd: IfdView, what: Seq<char>) -> Result<
    Layout,
    Refusal,
> {
    match one(s, le, ifd, TAG_IMAGE_WIDTH, None, what) {
        Err(r) => Err(r),
        Ok(width) => match one(s, le, ifd, TAG_IMAGE_LENGTH, None, what) {
            Err(r) => Err(r),
            Ok(height) => match one(s, le, ifd, TAG_SAMPLES_PER_PIXEL, Some(1), what) {
                Err(r) => Err(r),
                Ok(samples) => match one(s, le, ifd, TAG_COMPRESSION, Some(1), what) {
                    Err(r) => Err(r),
                    Ok(compression) => match one(s, le, ifd, TAG_PLANAR_CONFIG, Some(1), what) {
                        Err(r) => Err(r),
                        Ok(planar) => match one(s, le, ifd, TAG_SAMPLE_FORMAT, Some(1), what) {
                            Err(r) => Err(r),
                            Ok(sample_format) => match one(
                                s,
                                le,
                                ifd,
                                TAG_ROWS_PER_STRIP,
                                Some(height),
                                what,
                            ) {
                                Err(r) => Err(r),
                                Ok(per) => Ok(
                                    Layout {
                                        width,
                                        height,
                                        samples,
                                        compression,
                                        planar,
                                        sample_format,
                                        rows_per_strip: if per == 0 {
                                            1
                                        } else {
                                            per
                                        },
                                    },
                                ),
                            },
                        },
                    },
                },
            },
        },
    }
}

fn read_layout(tiff: &Tiff, ifd: &Ifd, what: &str) -> (r: Result<Layout, Error>)
    ensures
        agrees(r, layout_of(tiff.bytes@, tiff.little_endian, ifd@, what@)),
{
    let width: u32 = match read_one(tiff, ifd, TAG_IMAGE_WIDTH, None, what) {
        Ok(v) => v,
        Err(e) => {
            return Err(e);
        },
    };
    let height: u32 = match read_one(tiff, ifd, TAG_IMAGE_LENGTH, None, what) {
        Ok(v) => v,
        Err(e) => {
            return Err(e);
        },
    };
    let samples: u32 = match read_one(tiff, ifd, TAG_SAMPLES_PER_PIXEL, Some(1), what) {
        Ok(v) => v,
        Err(e) => {
            return Err(e);
        },
    };
    let compression: u32 = match read_one(tiff, ifd, TAG_COMPRESSION, Some(1), what) {
        Ok(v) => v,
        Err(e) => {
            return Err(e);
        },
    };
    let planar: u32 = match read_one(tiff, ifd, TAG_PLANAR_CONFIG, Some(1), what) {
        Ok(v) => v,
        Err(e) => {
            return Err(e);
        },
    };
    let sample_format: u32 = match read_one(tiff, ifd, TAG_SAMPLE_FORMAT, Some(1), what) {
        Ok(v) => v,
        Err(e) => {
            return Err(e);
        },
    };
    let per: u32 = match read_one(tiff, ifd, TAG_ROWS_PER_STRIP, Some(height), what) {
        Ok(v) => v,
        Err(e) => {
            return Err(e);
        },
    };
    Ok(
        Layout {
            width,
            height,
            samples,
            compression,
            planar,
            sample_format,
            rows_per_strip: if per == 0 {
                1
            } else {
                per
            },
        },
    )
}

/// Whether the first `n` numbers are all `b`.
pub open spec fn all_are(v: Seq<u32>, b: u32) -> bool {
    forall|k: int| 0 <= k < v.len() ==> #[trigger] v[k] == b
}

/// The bit depth of an image's samples, which have to have the same.
pub open spec fn depth_of(s: Seq<u8>, le: bool, ifd: IfdView, what: Seq<char>) -> Result<
    u32,
    Refusal,
> {
    match find_tag(ifd.entries, TAG_BITS_PER_SAMPLE, 0) {
        None => Err(Refusal::Decode(what + ": BitsPerSample is missing"@)),
        Some(e) => match numbers(s, le, e) {
            Err(r) => Err(r),
            Ok(v) => if v.len() == 0 {
                Ok(0)
            } else if all_are(v, v[0]) {
                Ok(v[0])
            } else {
                Err(
                    Refusal::Unsupported(
                        what + ": mixed bit depths per sample (["@ + listed(v, v.len() as int)
                            + "])"@,
                    ),
                )
            },
        },
    }
}

fn read_depth(tiff: &Tiff, ifd: &Ifd, what: &str) -> (r: Result<u32, Error>)
    ensures
        agrees(r, depth_of(tiff.bytes@, tiff.little_endian, ifd@, what@)),
{
    let e = match ifd.get(TAG_BITS_PER_SAMPLE) {
        Some(e) => e,
        None => {
            return Err(decode_error(join_text(what, ": BitsPerSample is missing")));
        },
    };
    let v = match tiff.integers(&e) {
        Ok(v) => v,
        Err(f) => {
            return Err(decode_error(f.message()));
        },
    };
    if v.len() == 0 {
        return Ok(0);
    }
    let bits: u32 = v[0];
    let mut i: usize = 0;
    while i < v.len()
        invariant
            i <= v@.len(),
            v@.len() > 0,
            bits == v@[0],
            forall|k: int| 0 <= k < i ==> #[trigger] v@[k] == bits,
            depth_of(tiff.bytes@, tiff.little_endian, ifd@, what@) == if all_are(v@, v@[0]) {
                Ok::<u32, Refusal>(v@[0])
            } else {
                Err(
                    Refusal::Unsupported(
                        what@ + ": mixed bit depths per sample (["@ + listed(v@, v@.len() as int)
                            + "])"@,
                    ),
                )
            },
        decreases v@.len() - i,
    {
        if v[i] != bits {
            let mut t = join_text(what, ": mixed bit depths per sample ([");
            let list = list_text(&v);
            t.append(list.as_str());
            t.append("])");
            return Err(unsupported(t));
        }
        i = i + 1;
    }
    Ok(bits)
}

/// What about an image's layout is not taken.
pub open spec fn layout_refused(l: Layout, what: Seq<char>) -> Option<Refusal> {
    if l.compression != 1 {
        Some(
            Refusal::Unsupported(
                what + around(
                    ": TIFF compression "@,
                    l.compression as nat,
                    "; only uncompressed is supported, so export with Compression: None"@,
                ),
            ),
        )
    } else if l.planar != 1 {
        Some(
            Refusal::Unsupported(
                what + around(
                    ": PlanarConfiguration "@,
                    l.planar as nat,
                    "; only chunky (1) is supported"@,
                ),
            ),
        )
    } else if l.samples != 3 {
        Some(
            Refusal::Unsupported(
                what + around(": "@, l.samples as nat, " samples per pixel; expected 3"@),
            ),
        )
    } else if l.width == 0 || l.height == 0 {
        Some(
            Refusal::Decode(
                what + around(
                    around(": "@, l.width as nat, "x"@),
                    l.height as nat,
                    " image"@,
                ),
            ),
        )
    } else {
        None
    }
}

fn check_layout(l: &Layout, what: &str) -> (r: Option<Error>)
    ensures
        match r {
            Some(e) => layout_refused(*l, what@) matches Some(f) && refuses(e, f),
            None => layout_refused(*l, what@) is None,
        },
{
    if l.compression != 1 {
        let t = put_around(
            ": TIFF compression ",
            l.compression as u128,
            "; only uncompressed is supported, so export with Compression: None",
        );
        return Some(unsupported(join_text(what, t.as_str())));
    }
    if l.planar != 1 {
        let t = put_around(
            ": PlanarConfiguration ",
            l.planar as u128,
            "; only chunky (1) is supported",
        );
        return Some(unsupported(join_text(what, t.as_str())));
    }
    if l.samples != 3 {
        let t = put_around(": ", l.samples as u128, " samples per pixel; expected 3");
        return Some(unsupported(join_text(what, t.as_str())));
    }
    if l.width == 0 || l.height == 0 {
        let head = put_around(": ", l.width as u128, "x");
        let t = put_around(head.as_str(), l.height as u128, " image");
        return Some(decode_error(join_text(what, t.as_str())));
    }
    None
}

/// How many strips an image has.
pub open spec fn strip_count(l: Layout) -> int {
    (l.height + l.rows_per_strip - 1) / l.rows_per_strip as int
}

/// Bytes of one row.
pub open spec fn row_bytes_of(l: Layout, bits: u32) -> int {
    l.width * 3 * (bits / 8)
}

/// Rows in strip `i`.
pub open spec fn rows_in(l: Layout, i: int) -> int {
    if i + 1 == strip_count(l) {
        l.height - i * l.rows_per_strip
    } else {
        l.rows_per_strip as int
    }
}

/// What the first strip from `i` on that is not all in the file is refused for.
pub open spec fn strips_refused(
    s: Seq<u8>,
    l: Layout,
    row: int,
    offsets: Seq<u32>,
    i: int,
    what: Seq<char>,
) -> Option<Refusal>
    decreases offsets.len() - i,
{
    if i >= offsets.len() {
        None
    } else if offsets[i] + rows_in(l, i) * row > s.len() {
        Some(
            Refusal::Decode(
                what + around(
                    around(
                        around(
                            around(": strip "@, i as nat, " at offset "@),
                            offsets[i] as nat,
                            " needs "@,
                        ),
                        (rows_in(l, i) * row) as nat,
                        " bytes, past the "@,
                    ),
                    s.len(),
                    "-byte end of the file"@,
                ),
            ),
        )
    } else {
        strips_refused(s, l, row, offsets, i + 1, what)
    }
}

/// What the first stated length from `i` on that is not a number of rows is refused for.
pub open spec fn counts_refused(counts: Seq<u32>, row: int, i: int, n: int, what: Seq<char>) -> Option<
    Refusal,
>
    decreases counts.len() - i,
{
    if i >= counts.len() || i >= n || row == 0 {
        None
    } else if counts[i] as int % row != 0 {
        Some(
            Refusal::Decode(
                what + around(
                    around(
                        around(": strip "@, i as nat, " byte count "@),
                        counts[i] as nat,
                        " is not a multiple of the "@,
                    ),
                    row as nat,
                    "-byte row stride"@,
                ),
            ),
        )
    } else {
        counts_refused(counts, row, i + 1, n, what)
    }
}

/// One uncompressed, chunky, strip-organized image of a TIFF.
pub struct PlaneView {
    pub layout: Layout,
    pub bits: u32,
    pub offsets: Seq<u32>,
}

/// The strips of an image, all of them in the file.
pub open spec fn strips_of(
    s: Seq<u8>,
    le: bool,
    ifd: IfdView,
    l: Layout,
    row: int,
    what: Seq<char>,
) -> Result<Seq<u32>, Refusal> {
    match find_tag(ifd.entries, TAG_STRIP_OFFSETS, 0) {
        None => Err(Refusal::Decode(what + ": StripOffsets is missing"@)),
        Some(e) => match numbers(s, le, e) {
            Err(r) => Err(r),
            Ok(offsets) => if offsets.len() != strip_count(l) {
                Err(
                    Refusal::Decode(
                        what + around(
                            around(
                                around(
                                    around(": "@, offsets.len(), " strip offsets for "@),
                                    l.height as nat,
                                    " rows at "@,
                                ),
                                l.rows_per_strip as nat,
                                " rows/strip (expected "@,
                            ),
                            strip_count(l) as nat,
                            ")"@,
                        ),
                    ),
                )
            } else {
                match strips_refused(s, l, row, offsets, 0, what) {
                    Some(r) => Err(r),
                    None => match find_tag(ifd.entries, TAG_STRIP_BYTE_COUNTS, 0) {
                        None => Ok(offsets),
                        Some(c) => match numbers(s, le, c) {
                            Err(r) => Err(r),
                            Ok(counts) => match counts_refused(
                                counts,
                                row,
                                0,
                                strip_count(l),
                                what,
                            ) {
                                Some(r) => Err(r),
                                None => Ok(offsets),
                            },
                        },
                    },
                }
            },
        },
    }
}

/// An image of a TIFF, or why it is refused.
pub open spec fn plane_of(s: Seq<u8>, le: bool, ifd: IfdView, what: Seq<char>) -> Result<
    PlaneView,
    Refusal,
> {
    match layout_of(s, le, ifd, what) {
        Err(r) => Err(r),
        Ok(layout) => match depth_of(s, le, ifd, what) {
            Err(r) => Err(r),
            Ok(bits) => match layout_refused(layout, what) {
                Some(r) => Err(r),
                None => match strips_of(
                    s,
                    le,
                    ifd,
                    layout,
                    row_bytes_of(layout, bits),
                    what,
                ) {
                    Err(r) => Err(r),
                    Ok(offsets) => Ok(PlaneView { layout, bits, offsets }),
                },
            },
        },
    }
}

/// Bytes of one row.
fn row_length(l: &Layout, bits: u32) -> (n: u64)
    ensures
        n == row_bytes_of(*l, bits),
        n <= 0x6000_0000_0000_0000,
{
    let each: u64 = bits as u64 / 8;
    assert(each <= 0x1fff_ffff);
    assert(l.width * 3 * each <= 0xffff_ffff * 3 * 0x1fff_ffff) by (nonlinear_arith)
        requires
            l.width <= 0xffff_ffff,
            each <= 0x1fff_ffff,
    ;
    assert(0 <= l.width * 3 * each) by (nonlinear_arith)
        requires
            l.width >= 0,
            each >= 0,
    ;
    l.width as u64 * 3 * each
}

/// How many strips an image has.
fn count_strips(l: &Layout) -> (n: u64)
    requires
        l.rows_per_strip > 0,
        l.height > 0,
    ensures
        n == strip_count(*l),
        0 < n <= l.height,
        (n - 1) * l.rows_per_strip < l.height <= n * l.rows_per_strip,
{
    let n: u64 = (l.height as u64 + l.rows_per_strip as u64 - 1) / l.rows_per_strip as u64;
    proof {
        lemma_strip_count(*l);
    }
    n
}

proof fn lemma_strip_count(l: Layout)
    requires
        l.rows_per_strip > 0,
        l.height > 0,
    ensures
        0 < strip_count(l) <= l.height,
        (strip_count(l) - 1) * l.rows_per_strip < l.height <= strip_count(l) * l.rows_per_strip,
{
    let (h, p, n) = (l.height as int, l.rows_per_strip as int, strip_count(l));
    assert(n * p <= h + p - 1 < n * p + p) by (nonlinear_arith)
        requires
            n == (h + p - 1) / p,
            p > 0,
    ;
    assert((n - 1) * p == n * p - p) by (nonlinear_arith);
    assert(n > 0) by (nonlinear_arith)
        requires
            h <= n * p,
            h > 0,
            p > 0,
    ;
    assert(n <= h) by (nonlinear_arith)
        requires
            (n - 1) * p < h,
            p >= 1,
            n > 0,
    ;
}

/// How many rows are in strip `i`.
fn count_rows(l: &Layout, n: u64, i: u64) -> (rows: u32)
    requires
        l.rows_per_strip > 0,
        l.height > 0,
        n == strip_count(*l),
        i < n,
    ensures
        rows == rows_in(*l, i as int),
        0 < rows <= l.rows_per_strip,
{
    proof {
        lemma_strip_count(*l);
        assert(i == n - 1 ==> i * l.rows_per_strip == (n - 1) * l.rows_per_strip);
        assert((n - 1) * l.rows_per_strip == n * l.rows_per_strip - l.rows_per_strip)
            by (nonlinear_arith);
    }
    if i + 1 == n {
        l.height - (i * l.rows_per_strip as u64) as u32
    } else {
        l.rows_per_strip
    }
}

/// Every strip is all in the file.
fn check_strips(
    tiff: &Tiff,
    l: &Layout,
    row: u64,
    n: u64,
    offsets: &Vec<u32>,
    what: &str,
) -> (r: Option<Error>)
    requires
        l.rows_per_strip > 0,
        l.height > 0,
        n == strip_count(*l),
        offsets@.len() == n,
        row <= 0x6000_0000_0000_0000,
    ensures
        match r {
            Some(e) => strips_refused(tiff.bytes@, *l, row as int, offsets@, 0, what@) matches Some(
                f,
            ) && refuses(e, f),
            None => strips_refused(tiff.bytes@, *l, row as int, offsets@, 0, what@) is None,
        },
{
    let len: usize = tiff.bytes.len();
    let mut i: usize = 0;
    while i < offsets.len()
        invariant
            l.rows_per_strip > 0,
            l.height > 0,
            n == strip_count(*l),
            offsets@.len() == n,
            row <= 0x6000_0000_0000_0000,
            len == tiff.bytes@.len(),
            i <= offsets@.len(),
            strips_refused(tiff.bytes@, *l, row as int, offsets@, 0, what@) == strips_refused(
                tiff.bytes@,
                *l,
                row as int,
                offsets@,
                i as int,
                what@,
            ),
        decreases offsets@.len() - i,
    {
        let rows: u32 = count_rows(l, n, i as u64);
        assert(0 <= rows * row <= 0xffff_ffff * 0x6000_0000_0000_0000) by (nonlinear_arith)
            requires
                rows <= 0xffff_ffff,
                row <= 0x6000_0000_0000_0000,
        ;
        let need: u128 = rows as u128 * row as u128;
        if offsets[i] as u128 + need > len as u128 {
            let a = put_around(": strip ", i as u128, " at offset ");
            let b = put_around(a.as_str(), offsets[i] as u128, " needs ");
            let c = put_around(b.as_str(), need, " bytes, past the ");
            let d = put_around(c.as_str(), len as u128, "-byte end of the file");
            return Some(decode_error(join_text(what, d.as_str())));
        }
        i = i + 1;
    }
    None
}

/// Every stated length of a strip is a number of rows.
fn check_counts(counts: &Vec<u32>, row: u64, n: u64, what: &str) -> (r: Option<Error>)
    ensures
        match r {
            Some(e) => counts_refused(counts@, row as int, 0, n as int, what@) matches Some(f)
                && refuses(e, f),
            None => counts_refused(counts@, row as int, 0, n as int, what@) is None,
        },
{
    if row == 0 {
        return None;
    }
    let mut i: usize = 0;
    while i < counts.len() && (i as u64) < n
        invariant
            i <= counts@.len(),
            i <= n,
            row > 0,
            counts_refused(counts@, row as int, 0, n as int, what@) == counts_refused(
                counts@,
                row as int,
                i as int,
                n as int,
                what@,
            ),
        decreases counts@.len() - i,
    {
        if counts[i] as u64 % row != 0 {
            let a = put_around(": strip ", i as u128, " byte count ");
            let b = put_around(a.as_str(), counts[i] as u128, " is not a multiple of the ");
            let c = put_around(b.as_str(), row as u128, "-byte row stride");
            return Some(decode_error(join_text(what, c.as_str())));
        }
        i = i + 1;
    }
    None
}

/// Whether a result is a list that is wanted.
pub open spec fn lists(r: Result<Vec<u32>, Error>, want: Result<Seq<u32>, Refusal>) -> bool {
    match (r, want) {
        (Ok(a), Ok(b)) => a@ == b,
        (Err(e), Err(f)) => refuses(e, f),
        _ => false,
    }
}

fn read_strips(tiff: &Tiff, ifd: &Ifd, l: &Layout, row: u64, what: &str) -> (r: Result<
    Vec<u32>,
    Error,
>)
    requires
        l.rows_per_strip > 0,
        l.height > 0,
        row <= 0x6000_0000_0000_0000,
    ensures
        lists(r, strips_of(tiff.bytes@, tiff.little_endian, ifd@, *l, row as int, what@)),
{
    let e = match ifd.get(TAG_STRIP_OFFSETS) {
        Some(e) => e,
        None => {
            return Err(decode_error(join_text(what, ": StripOffsets is missing")));
        },
    };
    let offsets = match tiff.integers(&e) {
        Ok(v) => v,
        Err(f) => {
            return Err(decode_error(f.message()));
        },
    };
    let n: u64 = count_strips(l);
    if offsets.len() as u64 != n {
        let a = put_around(": ", offsets.len() as u128, " strip offsets for ");
        let b = put_around(a.as_str(), l.height as u128, " rows at ");
        let c = put_around(b.as_str(), l.rows_per_strip as u128, " rows/strip (expected ");
        let d = put_around(c.as_str(), n as u128, ")");
        return Err(decode_error(join_text(what, d.as_str())));
    }
    if let Some(e) = check_strips(tiff, l, row, n, &offsets, what) {
        return Err(e);
    }
    if let Some(c) = ifd.get(TAG_STRIP_BYTE_COUNTS) {
        let counts = match tiff.integers(&c) {
            Ok(v) => v,
            Err(f) => {
                return Err(decode_error(f.message()));
            },
        };
        if let Some(e) = check_counts(&counts, row, n, what) {
            return Err(e);
        }
    }
    Ok(offsets)
}

/// One uncompressed, chunky, strip-organized image inside the TIFF.
struct Plane {
    layout: Layout,
    bits: u32,
    strip_offsets: Vec<u32>,
}

impl View for Plane {
    type V = PlaneView;

    closed spec fn view(&self) -> PlaneView {
        PlaneView { layout: self.layout, bits: self.bits, offsets: self.strip_offsets@ }
    }
}

/// Reads an image's layout and checks every strip, so that no pixel is out of reach later.
fn read_plane(tiff: &Tiff, ifd: &Ifd, what: &str) -> (r: Result<Plane, Error>)
    ensures
        match (r, plane_of(tiff.bytes@, tiff.little_endian, ifd@, what@)) {
            (Ok(a), Ok(b)) => a@ == b,
            (Err(e), Err(f)) => refuses(e, f),
            _ => false,
        },
{
    let layout = match read_layout(tiff, ifd, what) {
        Ok(l) => l,
        Err(e) => {
            return Err(e);
        },
    };
    let bits: u32 = match read_depth(tiff, ifd, what) {
        Ok(b) => b,
        Err(e) => {
            return Err(e);
        },
    };
    if let Some(e) = check_layout(&layout, what) {
        return Err(e);
    }
    let row: u64 = row_length(&layout, bits);
    match read_strips(tiff, ifd, &layout, row, what) {
        Ok(strip_offsets) => Ok(Plane { layout, bits, strip_offsets }),
        Err(e) => Err(e),
    }
}

/// Where row `y` starts.
pub open spec fn row_at(p: PlaneView, y: int) -> int {
    let per = p.layout.rows_per_strip as int;
    p.offsets[y / per] + (y % per) * row_bytes_of(p.layout, p.bits)
}

/// The first `n` 16-bit samples of row `y`.
pub open spec fn row_codes(s: Seq<u8>, le: bool, p: PlaneView, y: int, n: int) -> Seq<u16>
    decreases n,
{
    if n <= 0 {
        seq![]
    } else {
        row_codes(s, le, p, y, n - 1).push(word16(le, s, row_at(p, y) + 2 * (n - 1)))
    }
}

/// The 16-bit samples of the first `n` rows.
pub open spec fn codes(s: Seq<u8>, le: bool, p: PlaneView, n: int) -> Seq<u16>
    decreases n,
{
    if n <= 0 {
        seq![]
    } else {
        codes(s, le, p, n - 1) + row_codes(s, le, p, n - 1, 3 * p.layout.width)
    }
}

/// Whether every strip of an image is in the file.
pub open spec fn plane_is_in(s: Seq<u8>, p: PlaneView) -> bool {
    let l = p.layout;
    &&& l.rows_per_strip > 0
    &&& l.height > 0
    &&& p.offsets.len() == strip_count(l)
    &&& forall|i: int|
        0 <= i < p.offsets.len() ==> #[trigger] p.offsets[i] + rows_in(l, i) * row_bytes_of(
            l,
            p.bits,
        ) <= s.len()
}

proof fn lemma_strips_in(
    s: Seq<u8>,
    l: Layout,
    row: int,
    offsets: Seq<u32>,
    a: int,
    i: int,
    what: Seq<char>,
)
    requires
        0 <= a <= i < offsets.len(),
        strips_refused(s, l, row, offsets, a, what) is None,
    ensures
        offsets[i] + rows_in(l, i) * row <= s.len(),
    decreases offsets.len() - a,
{
    if a < i {
        lemma_strips_in(s, l, row, offsets, a + 1, i, what);
    }
}

/// An image that is not refused is all in the file.
proof fn lemma_plane_is_in(s: Seq<u8>, le: bool, ifd: IfdView, what: Seq<char>)
    ensures
        plane_of(s, le, ifd, what) matches Ok(p) ==> plane_is_in(s, p) && p.layout.width > 0
            && p.layout.samples == 3,
{
    if let Ok(p) = plane_of(s, le, ifd, what) {
        let l = p.layout;
        let row = row_bytes_of(l, p.bits);
        assert forall|i: int| 0 <= i < p.offsets.len() implies #[trigger] p.offsets[i] + rows_in(
            l,
            i,
        ) * row <= s.len() by {
            lemma_strips_in(s, l, row, p.offsets, 0, i, what);
        }
    }
}

/// A row of an image that is in the file is in the file.
proof fn lemma_row_is_in(s: Seq<u8>, p: PlaneView, y: int)
    requires
        plane_is_in(s, p),
        0 <= y < p.layout.height,
    ensures
        ({
            let per = p.layout.rows_per_strip as int;
            &&& 0 <= y / per < p.offsets.len()
            &&& 0 <= y % per < per
            &&& 0 <= (y % per) * row_bytes_of(p.layout, p.bits)
            &&& 0 <= row_at(p, y)
            &&& row_at(p, y) + row_bytes_of(p.layout, p.bits) <= s.len()
        }),
{
    let l = p.layout;
    let per = l.rows_per_strip as int;
    let h = l.height as int;
    let n = strip_count(l);
    let row = row_bytes_of(l, p.bits);
    let (q, w) = (y / per, y % per);
    lemma_strip_count(l);
    assert(q * per + w == y && 0 <= w < per && q >= 0) by (nonlinear_arith)
        requires
            q == y / per,
            w == y % per,
            per > 0,
            y >= 0,
    ;
    assert(q < n) by (nonlinear_arith)
        requires
            q * per + w == y,
            0 <= w,
            y < h,
            h <= n * per,
            per > 0,
    ;
    assert(row >= 0) by {
        assert(l.width * 3 * (p.bits / 8) >= 0) by (nonlinear_arith);
    }
    assert(w < rows_in(l, q)) by {
        if q + 1 == n {
            assert(rows_in(l, q) == h - q * per);
        }
    }
    assert(0 <= w * row && w * row + row <= rows_in(l, q) * row) by (nonlinear_arith)
        requires
            0 <= w,
            w + 1 <= rows_in(l, q),
            row >= 0,
    ;
    assert(p.offsets[q] + rows_in(l, q) * row <= s.len());
}

/// The samples of a 16-bit image.
fn read_codes(tiff: &Tiff, p: &Plane) -> (v: Vec<u16>)
    requires
        plane_is_in(tiff.bytes@, p@),
        p@.bits == 16,
    ensures
        v@ == codes(tiff.bytes@, tiff.little_endian, p@, p@.layout.height as int),
{
    let ghost s = tiff.bytes@;
    let ghost le = tiff.little_endian;
    let mut out: Vec<u16> = Vec::new();
    let len: usize = tiff.bytes.len();
    let per: u32 = p.layout.rows_per_strip;
    let row: u64 = row_length(&p.layout, p.bits);
    let mut y: u32 = 0;
    while y < p.layout.height
        invariant
            s == tiff.bytes@,
            le == tiff.little_endian,
            len == s.len(),
            plane_is_in(s, p@),
            p@.bits == 16,
            per == p.layout.rows_per_strip,
            row == row_bytes_of(p.layout, p.bits),
            y <= p.layout.height,
            out@ == codes(s, le, p@, y as int),
        decreases p.layout.height - y,
    {
        proof {
            lemma_row_is_in(s, p@, y as int);
            assert(row == 6 * p.layout.width);
        }
        let within: u64 = (y % per) as u64;
        assert(within * row <= s.len());
        let start: usize = p.strip_offsets[(y / per) as usize] as usize + (within * row) as usize;
        let ghost before = out@;
        let n: u64 = 3 * p.layout.width as u64;
        let mut i: u64 = 0;
        while i < n
            invariant
                s == tiff.bytes@,
                le == tiff.little_endian,
                len == s.len(),
                n == 3 * p.layout.width,
                start == row_at(p@, y as int),
                start + 2 * n <= len,
                i <= n,
                out@ == before + row_codes(s, le, p@, y as int, i as int),
            decreases n - i,
        {
            out.push(get_word16(tiff.little_endian, tiff.bytes, start + 2 * i as usize));
            assert(out@ =~= before + row_codes(s, le, p@, y as int, i + 1));
            i = i + 1;
        }
        y = y + 1;
    }
    out
}

/// A 16-bit code as an 8-bit one: a pure requantization, rounded and not truncated --
/// a shift would bias every sample downward by up to half a code.
pub open spec fn narrowed(v: u16) -> u16 {
    ((v * 255 + 32767) / 65535) as u16
}

fn narrow_codes(v: &Vec<u16>) -> (r: Vec<u16>)
    ensures
        r@ == v@.map_values(|c: u16| narrowed(c)),
{
    let mut r: Vec<u16> = Vec::new();
    let mut i: usize = 0;
    while i < v.len()
        invariant
            i <= v@.len(),
            r@.len() == i,
            forall|k: int| 0 <= k < i ==> #[trigger] r@[k] == narrowed(v@[k]),
        decreases v@.len() - i,
    {
        let c: u32 = v[i] as u32;
        r.push(((c * 255 + 32767) / 65535) as u16);
        i = i + 1;
    }
    assert(r@ =~= v@.map_values(|c: u16| narrowed(c)));
    r
}

/// Narrowing goes to the nearest 8-bit code, on the scale that takes full to full.
pub proof fn narrowing_is_nearest(v: u16)
    ensures
        narrowed(v) <= 255,
        -32768 <= 65535 * narrowed(v) - 255 * v <= 32767,
        narrowed(0) == 0,
        narrowed(65535) == 255,
{
}

/// Narrowing keeps the order of codes.
pub proof fn narrowing_is_monotonic(a: u16, b: u16)
    requires
        a <= b,
    ensures
        narrowed(a) <= narrowed(b),
{
    let (x, y) = (a * 255 + 32767, b * 255 + 32767);
    assert(x / 65535 <= y / 65535);
}

/// Whether an IFD is the one of a gain map.
pub open spec fn is_gain_ifd(s: Seq<u8>, le: bool, x: IfdView) -> bool {
    &&& first_integer(s, le, find_tag(x.entries, TAG_PHOTOMETRIC, 0)) == Some(PHOTOMETRIC_GAIN_MAP)
    &&& find_tag(x.entries, TAG_GAIN_MAP_METADATA, 0) is Some
}

/// The first IFD of a gain map among those at some offsets, from the `i`th on. One that
/// cannot be read before it is found refuses the file.
pub open spec fn gain_ifd_from(s: Seq<u8>, le: bool, offsets: Seq<u32>, i: int) -> Result<
    Option<IfdView>,
    Refusal,
>
    decreases offsets.len() - i,
{
    if i >= offsets.len() {
        Ok(None)
    } else {
        match ifd_of(s, le, offsets[i] as int) {
            Err(f) => Err(Refusal::Decode(f.says())),
            Ok(x) => if is_gain_ifd(s, le, x) {
                Ok(Some(x))
            } else {
                gain_ifd_from(s, le, offsets, i + 1)
            },
        }
    }
}

/// The IFD of a TIFF's gain map. Absent tag 330 there is none, and nothing to say about
/// the file.
pub open spec fn gain_ifd_of(s: Seq<u8>, le: bool, ifd0: IfdView) -> Result<
    Option<IfdView>,
    Refusal,
> {
    match find_tag(ifd0.entries, TAG_SUB_IFDS, 0) {
        None => Ok(None),
        Some(e) => match numbers(s, le, e) {
            Err(r) => Err(r),
            Ok(offsets) => gain_ifd_from(s, le, offsets, 0),
        },
    }
}

fn find_gain_ifd(tiff: &Tiff, ifd0: &Ifd) -> (r: Result<Option<Ifd>, Error>)
    ensures
        match (r, gain_ifd_of(tiff.bytes@, tiff.little_endian, ifd0@)) {
            (Ok(Some(a)), Ok(Some(b))) => a@ == b,
            (Ok(None), Ok(None)) => true,
            (Err(e), Err(f)) => refuses(e, f),
            _ => false,
        },
{
    let ghost s = tiff.bytes@;
    let ghost le = tiff.little_endian;
    let e = match ifd0.get(TAG_SUB_IFDS) {
        Some(e) => e,
        None => {
            return Ok(None);
        },
    };
    let offsets = match tiff.integers(&e) {
        Ok(v) => v,
        Err(f) => {
            return Err(decode_error(f.message()));
        },
    };
    let mut i: usize = 0;
    while i < offsets.len()
        invariant
            s == tiff.bytes@,
            le == tiff.little_endian,
            i <= offsets@.len(),
            gain_ifd_of(s, le, ifd0@) == gain_ifd_from(s, le, offsets@, i as int),
        decreases offsets@.len() - i,
    {
        let candidate = match tiff.read_ifd(offsets[i] as usize) {
            Ok(x) => x,
            Err(f) => {
                return Err(decode_error(f.message()));
            },
        };
        let photometric = tiff.first_of(candidate.get(TAG_PHOTOMETRIC));
        let is_gain: bool = match photometric {
            Some(v) => v == PHOTOMETRIC_GAIN_MAP,
            None => false,
        };
        if is_gain && candidate.get(TAG_GAIN_MAP_METADATA).is_some() {
            return Ok(Some(candidate));
        }
        i = i + 1;
    }
    Ok(None)
}

/// What a gain map's metadata tag states.
pub open spec fn metadata_of(s: Seq<u8>, gain: IfdView) -> Result<GainMapMeta, Refusal> {
    let e = find_tag(gain.entries, TAG_GAIN_MAP_METADATA, 0)->Some_0;
    match value_of(s, e) {
        Err(f) => Err(Refusal::Decode(f.says())),
        Ok(raw) => if raw.len() <= METADATA_PREFIX_LEN {
            Err(
                Refusal::Decode(
                    around(
                        "gain-map metadata tag 52557 is "@,
                        raw.len(),
                        " bytes, too short to hold a 4-byte prefix plus ISO 21496-1 metadata"@,
                    ),
                ),
            )
        } else {
            match parsed(raw.subrange(METADATA_PREFIX_LEN as int, raw.len() as int)) {
                Ok(m) => Ok(m),
                // The head of the tag is shown: if the prefix ever changes, that is the
                // one fact needed to work out what it changed to.
                Err(p) => Err(
                    Refusal::Decode(
                        "gain-map metadata tag 52557 did not parse as ISO 21496-1 after the 4-byte prefix: "@
                            + p.says() + ". First bytes: "@ + hex_pairs(
                            raw,
                            if raw.len() < 12 {
                                raw.len() as int
                            } else {
                                12
                            },
                        ),
                    ),
                ),
            }
        },
    }
}

fn read_metadata(tiff: &Tiff, gain: &Ifd) -> (r: Result<GainMapMeta, Error>)
    requires
        find_tag(gain@.entries, TAG_GAIN_MAP_METADATA, 0) is Some,
    ensures
        agrees(r, metadata_of(tiff.bytes@, gain@)),
        r matches Ok(m) ==> !beyond_range(m.base_headroom) && !beyond_range(m.alt_headroom),
{
    let e = gain.get(TAG_GAIN_MAP_METADATA).unwrap();
    let raw = match tiff.bytes_of(&e) {
        Ok(b) => b,
        Err(f) => {
            return Err(decode_error(f.message()));
        },
    };
    let len: usize = raw.len();
    if len <= METADATA_PREFIX_LEN {
        return Err(
            decode_error(
                put_around(
                    "gain-map metadata tag 52557 is ",
                    len as u128,
                    " bytes, too short to hold a 4-byte prefix plus ISO 21496-1 metadata",
                ),
            ),
        );
    }
    match parse(span(raw, METADATA_PREFIX_LEN, len)) {
        Ok(m) => Ok(m),
        Err(p) => {
            let why = p.message();
            let head = hex_text(
                raw,
                if len < 12 {
                    len
                } else {
                    12
                },
            );
            let mut t = join_text(
                "gain-map metadata tag 52557 did not parse as ISO 21496-1 after the 4-byte prefix: ",
                why.as_str(),
            );
            t.append(". First bytes: ");
            t.append(head.as_str());
            Err(decode_error(t))
        },
    }
}

/// What is taken of the two images, in the order in which it is looked at.
pub open spec fn pair_refused(base: PlaneView, gain: PlaneView) -> Option<Refusal> {
    let (b, g) = (base.layout, gain.layout);
    if b.sample_format != 1 || base.bits != 16 {
        Some(
            Refusal::Unsupported(
                around(
                    around(
                        "Lightroom HDR TIFF base image is "@,
                        base.bits as nat,
                        "-bit sample format "@,
                    ),
                    b.sample_format as nat,
                    " (expected 16-bit integer); only the Bit Depth 16 export is supported"@,
                ),
            ),
        )
    } else if gain.bits != 16 || g.sample_format != 1 {
        Some(
            Refusal::Unsupported(
                around(
                    around("gain map is "@, gain.bits as nat, "-bit sample format "@),
                    g.sample_format as nat,
                    ", expected 16-bit integer"@,
                ),
            ),
        )
    } else if g.width != b.width || g.height != b.height {
        Some(
            Refusal::Unsupported(
                around(
                    around(
                        around(
                            around("gain map is "@, g.width as nat, "x"@),
                            g.height as nat,
                            " against a "@,
                        ),
                        b.width as nat,
                        "x"@,
                    ),
                    b.height as nat,
                    " base; only a full-resolution map is supported, which is what LrC 15.4.1 writes"@,
                ),
            ),
        )
    } else {
        None
    }
}

fn check_pair(base: &Plane, gain: &Plane) -> (r: Option<Error>)
    ensures
        match r {
            Some(e) => pair_refused(base@, gain@) matches Some(f) && refuses(e, f),
            None => pair_refused(base@, gain@) is None,
        },
{
    let (b, g) = (base.layout, gain.layout);
    if b.sample_format != 1 || base.bits != 16 {
        let head = put_around(
            "Lightroom HDR TIFF base image is ",
            base.bits as u128,
            "-bit sample format ",
        );
        return Some(
            unsupported(
                put_around(
                    head.as_str(),
                    b.sample_format as u128,
                    " (expected 16-bit integer); only the Bit Depth 16 export is supported",
                ),
            ),
        );
    }
    if gain.bits != 16 || g.sample_format != 1 {
        let head = put_around("gain map is ", gain.bits as u128, "-bit sample format ");
        return Some(
            unsupported(
                put_around(head.as_str(), g.sample_format as u128, ", expected 16-bit integer"),
            ),
        );
    }
    if g.width != b.width || g.height != b.height {
        let x = put_around("gain map is ", g.width as u128, "x");
        let y = put_around(x.as_str(), g.height as u128, " against a ");
        let z = put_around(y.as_str(), b.width as u128, "x");
        return Some(
            unsupported(
                put_around(
                    z.as_str(),
                    b.height as u128,
                    " base; only a full-resolution map is supported, which is what LrC 15.4.1 writes",
                ),
            ),
        );
    }
    None
}

/// A Lightroom HDR TIFF, as the samples of its two images.
#[derive(Clone, Debug)]
pub struct GainMapTiff {
    /// The samples of the base, 16-bit sRGB codes, interleaved RGB.
    pub base_codes: Vec<u16>,
    /// The samples of the map, 16-bit gain codes, interleaved RGB.
    pub gain_codes: Vec<u16>,
    /// Lightroom's own SDR rendition, narrowed to 8 bits in the sRGB-encoded domain. Not
    /// tone-mapped.
    pub base: Rgb,
    /// What the file declares, verbatim, before anything is derived.
    pub declared: GainMapMeta,
    /// The primaries of the base, read from the embedded ICC profile.
    ///
    /// `None` when the TIFF carries no profile, or one that is not known. `None` is not
    /// "assume sRGB": assuming would produce a file whose pixels and label disagree, which
    /// is undetectable downstream, so the caller has to decide what to do about it.
    pub primaries: Option<Primaries>,
}

/// What a Lightroom HDR TIFF holds.
pub struct PairView {
    pub width: u32,
    pub height: u32,
    pub base: Seq<u16>,
    pub gain: Seq<u16>,
    pub declared: GainMapMeta,
    pub primaries: Option<Primaries>,
}

impl GainMapTiff {
    /// Whether this is what a file holds, and its base the narrowed one.
    pub open spec fn holds(self, p: PairView) -> bool {
        &&& self.base_codes@ == p.base
        &&& self.gain_codes@ == p.gain
        &&& self.base.width == p.width
        &&& self.base.height == p.height
        &&& self.base.bits == 8
        &&& self.base.data@ == p.base.map_values(|c: u16| narrowed(c))
        &&& self.declared == p.declared
        &&& self.primaries == p.primaries
    }
}

/// The primaries a TIFF's embedded profile states.
pub open spec fn profile_of(s: Seq<u8>, ifd0: IfdView) -> Option<Primaries> {
    match find_tag(ifd0.entries, TAG_ICC_PROFILE, 0) {
        None => None,
        Some(e) => match value_of(s, e) {
            Err(_) => None,
            Ok(b) => primaries_of(b),
        },
    }
}

fn read_profile(tiff: &Tiff, ifd0: &Ifd) -> (r: Option<Primaries>)
    ensures
        r == profile_of(tiff.bytes@, ifd0@),
{
    match ifd0.get(TAG_ICC_PROFILE) {
        None => None,
        Some(e) => match tiff.bytes_of(&e) {
            Ok(b) => primaries_from_icc(b),
            Err(_) => None,
        },
    }
}

/// What is said to the 32-bit float variant.
pub open spec fn float_variant(declared: GainMapMeta) -> Seq<char> {
    "this is the 32-bit float variant of Lightroom's HDR TIFF: it declares base_hdr_headroom = "@
        + four_places(declared.base_headroom.in_ten_thousandths())
        + " stops and alternate_hdr_headroom = "@ + four_places(
        declared.alt_headroom.in_ten_thousandths(),
    )
        + ", i.e. IFD0 carries the HDR side and the gain map runs downward to SDR. Re-export from Lightroom with Bit Depth 16, which carries the identical gain map with the SDR rendition as the base and is 1.5x smaller"@
}

fn refuse_float_variant(declared: &GainMapMeta) -> (e: Error)
    requires
        !beyond_range(declared.base_headroom),
        !beyond_range(declared.alt_headroom),
    ensures
        refuses(e, Refusal::Unsupported(float_variant(*declared))),
{
    let base = four_places_text(declared.base_headroom.to_ten_thousandths());
    let alt = four_places_text(declared.alt_headroom.to_ten_thousandths());
    let mut t = join_text(
        "this is the 32-bit float variant of Lightroom's HDR TIFF: it declares base_hdr_headroom = ",
        base.as_str(),
    );
    t.append(" stops and alternate_hdr_headroom = ");
    t.append(alt.as_str());
    t.append(
        ", i.e. IFD0 carries the HDR side and the gain map runs downward to SDR. Re-export from Lightroom with Bit Depth 16, which carries the identical gain map with the SDR rendition as the base and is 1.5x smaller",
    );
    unsupported(t)
}

/// What a file holds that identified itself by its gain map. From there on every problem
/// is an error rather than a polite decline.
pub open spec fn pair_of(s: Seq<u8>, le: bool, ifd0: IfdView, gain: IfdView) -> Result<
    PairView,
    Refusal,
> {
    match metadata_of(s, gain) {
        Err(r) => Err(r),
        Ok(declared) => if declared.base_headroom.bits % 0x8000_0000 != 0 {
            Err(Refusal::Unsupported(float_variant(declared)))
        } else {
            match plane_of(s, le, ifd0, "base image"@) {
                Err(r) => Err(r),
                Ok(b) => match plane_of(s, le, gain, "gain map"@) {
                    Err(r) => Err(r),
                    Ok(g) => match pair_refused(b, g) {
                        Some(r) => Err(r),
                        None => Ok(
                            PairView {
                                width: b.layout.width,
                                height: b.layout.height,
                                base: codes(s, le, b, b.layout.height as int),
                                gain: codes(s, le, g, g.layout.height as int),
                                declared,
                                primaries: profile_of(s, ifd0),
                            },
                        ),
                    },
                },
            }
        },
    }
}

/// What a file holds, if it is a Lightroom gain-map TIFF.
pub open spec fn tiff_pair(s: Seq<u8>) -> Result<Option<PairView>, Refusal> {
    match opened(s) {
        None => Ok(None),
        Some(t) => match ifd_of(s, t.0, t.1) {
            Err(f) => Err(Refusal::Decode(f.says())),
            Ok(ifd0) => match gain_ifd_of(s, t.0, ifd0) {
                Err(r) => Err(r),
                Ok(None) => Ok(None),
                Ok(Some(gain)) => match pair_of(s, t.0, ifd0, gain) {
                    Err(r) => Err(r),
                    Ok(p) => Ok(Some(p)),
                },
            },
        },
    }
}

fn read_pair(tiff: &Tiff, ifd0: &Ifd, gain: &Ifd) -> (r: Result<GainMapTiff, Error>)
    requires
        find_tag(gain@.entries, TAG_GAIN_MAP_METADATA, 0) is Some,
    ensures
        match (r, pair_of(tiff.bytes@, tiff.little_endian, ifd0@, gain@)) {
            (Ok(a), Ok(b)) => a.holds(b),
            (Err(e), Err(f)) => refuses(e, f),
            _ => false,
        },
{
    let declared = match read_metadata(tiff, gain) {
        Ok(m) => m,
        Err(e) => {
            return Err(e);
        },
    };
    if declared.base_headroom.bits % 0x8000_0000 != 0 {
        return Err(refuse_float_variant(&declared));
    }
    let base_plane = match read_plane(tiff, ifd0, "base image") {
        Ok(p) => p,
        Err(e) => {
            return Err(e);
        },
    };
    let gain_plane = match read_plane(tiff, gain, "gain map") {
        Ok(p) => p,
        Err(e) => {
            return Err(e);
        },
    };
    if let Some(e) = check_pair(&base_plane, &gain_plane) {
        return Err(e);
    }
    proof {
        lemma_plane_is_in(tiff.bytes@, tiff.little_endian, ifd0@, "base image"@);
        lemma_plane_is_in(tiff.bytes@, tiff.little_endian, gain@, "gain map"@);
    }
    // Read before the samples, so that a profile problem is reported against the file.
    let primaries = read_profile(tiff, ifd0);
    let base_codes = read_codes(tiff, &base_plane);
    let gain_codes = read_codes(tiff, &gain_plane);
    let data = narrow_codes(&base_codes);
    Ok(
        GainMapTiff {
            base_codes,
            gain_codes,
            base: Rgb {
                width: base_plane.layout.width,
                height: base_plane.layout.height,
                bits: 8,
                data,
            },
            declared,
            primaries,
        },
    )
}

/// Reads a file if it is a Lightroom gain-map TIFF, else `Ok(None)`.
///
/// `Ok(None)` means "not this format, try another loader" and is not an error. An `Err`
/// means the file *is* one of these and something about it could not be honored.
pub fn read_bytes(bytes: &[u8]) -> (r: Result<Option<GainMapTiff>, Error>)
    ensures
        match (r, tiff_pair(bytes@)) {
            (Ok(Some(a)), Ok(Some(b))) => a.holds(b),
            (Ok(None), Ok(None)) => true,
            (Err(e), Err(f)) => refuses(e, f),
            _ => false,
        },
{
    let tiff = match Tiff::open(bytes) {
        Some(t) => t,
        None => {
            return Ok(None);
        },
    };
    let ifd0 = match tiff.read_ifd(tiff.first_ifd) {
        Ok(x) => x,
        Err(f) => {
            return Err(decode_error(f.message()));
        },
    };
    let gain = match find_gain_ifd(&tiff, &ifd0) {
        Ok(Some(x)) => x,
        Ok(None) => {
            return Ok(None);
        },
        Err(e) => {
            return Err(e);
        },
    };
    proof {
        lemma_found_is_gain(bytes@, tiff.little_endian, ifd0@);
    }
    match read_pair(&tiff, &ifd0, &gain) {
        Ok(p) => Ok(Some(p)),
        Err(e) => Err(e),
    }
}

proof fn lemma_gain_from(s: Seq<u8>, le: bool, offsets: Seq<u32>, i: int)
    requires
        0 <= i,
    ensures
        gain_ifd_from(s, le, offsets, i) matches Ok(Some(x)) ==> is_gain_ifd(s, le, x),
    decreases offsets.len() - i,
{
    if i < offsets.len() {
        lemma_gain_from(s, le, offsets, i + 1);
    }
}

proof fn lemma_found_is_gain(s: Seq<u8>, le: bool, ifd0: IfdView)
    ensures
        gain_ifd_of(s, le, ifd0) matches Ok(Some(x)) ==> is_gain_ifd(s, le, x),
{
    if let Some(e) = find_tag(ifd0.entries, TAG_SUB_IFDS, 0) {
        if let Ok(v) = numbers(s, le, e) {
            lemma_gain_from(s, le, v, 0);
        }
    }
}

proof fn lemma_codes_len(s: Seq<u8>, le: bool, p: PlaneView, n: int)
    requires
        0 <= n,
    ensures
        codes(s, le, p, n).len() == n * (3 * p.layout.width),
    decreases n,
{
    if n > 0 {
        lemma_codes_len(s, le, p, n - 1);
        lemma_row_codes_len(s, le, p, n - 1, 3 * p.layout.width);
        let w = 3 * p.layout.width;
        assert((n - 1) * w + w == n * w) by (nonlinear_arith);
    } else {
        assert(0 * (3 * p.layout.width) == 0) by (nonlinear_arith);
    }
}

proof fn lemma_row_codes_len(s: Seq<u8>, le: bool, p: PlaneView, y: int, n: int)
    requires
        0 <= n,
    ensures
        row_codes(s, le, p, y, n).len() == n,
    decreases n,
{
    if n > 0 {
        lemma_row_codes_len(s, le, p, y, n - 1);
    }
}

/// A file that is read gives three samples for every pixel, of the base and of the map.
pub proof fn a_pair_is_full_size(s: Seq<u8>)
    ensures
        tiff_pair(s) matches Ok(Some(p)) ==> {
            &&& p.width > 0 && p.height > 0
            &&& p.base.len() == p.height * (3 * p.width)
            &&& p.gain.len() == p.height * (3 * p.width)
        },
{
    if let Ok(Some(p)) = tiff_pair(s) {
        let t = opened(s)->Some_0;
        let ifd0 = ifd_of(s, t.0, t.1)->Ok_0;
        let gain = gain_ifd_of(s, t.0, ifd0)->Ok_0->Some_0;
        let b = plane_of(s, t.0, ifd0, "base image"@)->Ok_0;
        let g = plane_of(s, t.0, gain, "gain map"@)->Ok_0;
        lemma_plane_is_in(s, t.0, ifd0, "base image"@);
        lemma_codes_len(s, t.0, b, b.layout.height as int);
        lemma_codes_len(s, t.0, g, g.layout.height as int);
    }
}

/// Bytes without the zeros at their end.
pub open spec fn without_padding(b: Seq<u8>) -> Seq<u8>
    decreases b.len(),
{
    if b.len() > 0 && b.last() == 0 {
        without_padding(b.drop_last())
    } else {
        b
    }
}

/// A TIFF's XMP packet, `IFD0` tag `700`. A trailing NUL is common and harmless to strip,
/// where leaving it in would appear inside the copied packet.
pub open spec fn tiff_xmp(s: Seq<u8>) -> Option<Seq<u8>> {
    match opened(s) {
        None => None,
        Some(t) => match ifd_of(s, t.0, t.1) {
            Err(_) => None,
            Ok(ifd0) => match find_tag(ifd0.entries, TAG_XMP, 0) {
                None => None,
                Some(e) => match value_of(s, e) {
                    Err(_) => None,
                    Ok(b) => if without_padding(b).len() > 0 {
                        Some(without_padding(b))
                    } else {
                        None
                    },
                },
            },
        },
    }
}

/// A TIFF's XMP packet.
///
/// Where Lightroom Classic puts keywords, title, caption, rating, creator and rights.
/// `None` for anything that is not a readable TIFF, since a caller asking for XMP has
/// already been told the format.
pub fn ifd0_xmp(bytes: &[u8]) -> (r: Option<Vec<u8>>)
    ensures
        match r {
            Some(v) => tiff_xmp(bytes@) == Some(v@),
            None => tiff_xmp(bytes@) is None,
        },
{
    let tiff = match Tiff::open(bytes) {
        Some(t) => t,
        None => {
            return None;
        },
    };
    let ifd0 = match tiff.read_ifd(tiff.first_ifd) {
        Ok(x) => x,
        Err(_) => {
            return None;
        },
    };
    let e = match ifd0.get(TAG_XMP) {
        Some(e) => e,
        None => {
            return None;
        },
    };
    let raw = match tiff.bytes_of(&e) {
        Ok(b) => b,
        Err(_) => {
            return None;
        },
    };
    let mut end: usize = raw.len();
    assert(raw@.subrange(0, end as int) =~= raw@);
    while end > 0 && raw[end - 1] == 0
        invariant
            end <= raw@.len(),
            without_padding(raw@) == without_padding(raw@.subrange(0, end as int)),
        decreases end,
    {
        assert(raw@.subrange(0, end as int).drop_last() =~= raw@.subrange(0, end - 1));
        end = end - 1;
    }
    if end == 0 {
        return None;
    }
    Some(to_owned_bytes(span(raw, 0, end)))
}

} // verus!
