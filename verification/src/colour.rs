//! Which primaries the pixels are in, and reading the answer out of an embedded ICC
//! profile.
//!
//! Rec.709's primaries sit strictly inside Display P3's, so 709 -> P3 is an exact
//! matrix on linear light that cannot clip. The reverse is not, which is why nothing
//! narrows on its own -- [`Primaries::narrower_than`] lets a caller warn instead.
//!
//! All three sets are D65, so no chromatic adaptation is involved. It appears in one
//! place only: ICC profiles store colorants adapted to the D50 connection space, so
//! recognising one means comparing against adapted references.

use vstd::prelude::*;
use vstd::utf8::encode_utf8;

use crate::bytes::{be16, be32, get_be16, get_be32, same_bytes, span};
use crate::text::{
    decode_lossy, decode_utf16_lossy, join_text, lossy_utf16, quote, quoted, text_of,
};

verus! {

/// Which primaries a linear RGB buffer is expressed in.
///
/// No `Default`, deliberately. A wrong colour space is invisible in the output -- the
/// pixels decode, they are merely the wrong colour -- so there is no value safe
/// enough to inherit silently.
#[derive(Clone, Copy, Debug, PartialEq, Eq, Structural)]
pub enum Primaries {
    /// Rec.709 / sRGB primaries. The narrowest set.
    Bt709,
    /// Display P3 -- same D65 white and sRGB transfer as sRGB, wider red and green.
    DisplayP3,
    /// Rec.2020 primaries. Wider than P3; accepted on input so a Rec.2020 export is
    /// not *misread* as something narrower.
    Bt2020,
}

/// A colour space that [`Primaries::parse`] does not know.
#[derive(Clone, Debug, PartialEq, Eq)]
pub struct UnknownColourSpace {
    /// What was asked for, in lower case and without separators.
    pub name: String,
}

impl UnknownColourSpace {
    /// What went wrong.
    pub fn message(&self) -> (s: String)
        ensures
            s@ == "unknown colour space "@ + quoted(self.name@)
                + " (expected srgb, p3, or rec2020)"@,
    {
        let q = quote(self.name.as_str());
        let mut s = join_text("unknown colour space ", q.as_str());
        s.append(" (expected srgb, p3, or rec2020)");
        s
    }
}

/// An ASCII letter in lower case, any other byte as it is.
pub open spec fn lower(b: u8) -> u8 {
    if 65 <= b <= 90 {
        (b + 32) as u8
    } else {
        b
    }
}

/// What people put between the parts of a name: `-`, `_`, a space or a full stop.
pub open spec fn is_separator(b: u8) -> bool {
    b == 45 || b == 95 || b == 32 || b == 46
}

/// A name in lower case and without separators.
pub open spec fn squeezed(s: Seq<u8>) -> Seq<u8>
    decreases s.len(),
{
    if s.len() == 0 {
        s
    } else if is_separator(s.last()) {
        squeezed(s.drop_last())
    } else {
        squeezed(s.drop_last()).push(lower(s.last()))
    }
}

/// The primaries a squeezed name stands for.
pub open spec fn named(n: Seq<u8>) -> Option<Primaries> {
    if n == encode_utf8("srgb"@) || n == encode_utf8("bt709"@) || n == encode_utf8("rec709"@) || n
        == encode_utf8("709"@) {
        Some(Primaries::Bt709)
    } else if n == encode_utf8("p3"@) || n == encode_utf8("displayp3"@) || n == encode_utf8(
        "dcip3"@,
    ) {
        Some(Primaries::DisplayP3)
    } else if n == encode_utf8("rec2020"@) || n == encode_utf8("bt2020"@) || n == encode_utf8(
        "2020"@,
    ) {
        Some(Primaries::Bt2020)
    } else {
        None
    }
}

fn is(n: &Vec<u8>, name: &str) -> (b: bool)
    ensures
        b == (n@ == encode_utf8(name@)),
{
    same_bytes(n.as_slice(), name.as_bytes())
}

/// A name in lower case and without separators.
fn squeeze(s: &[u8]) -> (n: Vec<u8>)
    ensures
        n@ == squeezed(s@),
{
    let mut n: Vec<u8> = Vec::new();
    let mut i: usize = 0;
    assert(s@.take(0) =~= seq![]);
    while i < s.len()
        invariant
            i <= s@.len(),
            n@ == squeezed(s@.take(i as int)),
        decreases s@.len() - i,
    {
        let b: u8 = s[i];
        proof {
            let t = s@.take(i + 1);
            assert(t.drop_last() =~= s@.take(i as int));
            assert(t.last() == b);
        }
        if !(b == 45 || b == 95 || b == 32 || b == 46) {
            n.push(
                if 65 <= b && b <= 90 {
                    b + 32
                } else {
                    b
                },
            );
        }
        i = i + 1;
    }
    assert(s@.take(s@.len() as int) =~= s@);
    n
}

impl Primaries {
    /// The ISO/IEC 23091-2 code.
    pub open spec fn code(self) -> u16 {
        match self {
            Primaries::Bt709 => 1,
            Primaries::DisplayP3 => 12,
            Primaries::Bt2020 => 9,
        }
    }

    /// The position by area.
    pub open spec fn width(self) -> int {
        match self {
            Primaries::Bt709 => 0,
            Primaries::DisplayP3 => 1,
            Primaries::Bt2020 => 2,
        }
    }

    /// The ISO/IEC 23091-2 `colour_primaries` code for a `colr`/`nclx` box. Display P3
    /// is signalled as SMPTE EG 432-1.
    pub fn nclx(self) -> (c: u16)
        ensures
            c == self.code(),
    {
        match self {
            Primaries::Bt709 => 1,
            Primaries::DisplayP3 => 12,
            Primaries::Bt2020 => 9,
        }
    }

    /// Name for logs and command lines.
    pub fn label(self) -> (s: &'static str)
        ensures
            s@ == match self {
                Primaries::Bt709 => "srgb"@,
                Primaries::DisplayP3 => "p3"@,
                Primaries::Bt2020 => "rec2020"@,
            },
    {
        match self {
            Primaries::Bt709 => "srgb",
            Primaries::DisplayP3 => "p3",
            Primaries::Bt2020 => "rec2020",
        }
    }

    /// Reads a colour space's name, accepting the spellings a person is likely to
    /// type.
    pub fn parse(s: &str) -> (r: Result<Primaries, UnknownColourSpace>)
        ensures
            match r {
                Ok(p) => named(squeezed(encode_utf8(s@))) == Some(p),
                Err(e) => named(squeezed(encode_utf8(s@))) is None && e.name@ == text_of(
                    squeezed(encode_utf8(s@)),
                ),
            },
    {
        let n = squeeze(s.as_bytes());
        if is(&n, "srgb") || is(&n, "bt709") || is(&n, "rec709") || is(&n, "709") {
            Ok(Primaries::Bt709)
        } else if is(&n, "p3") || is(&n, "displayp3") || is(&n, "dcip3") {
            Ok(Primaries::DisplayP3)
        } else if is(&n, "rec2020") || is(&n, "bt2020") || is(&n, "2020") {
            Ok(Primaries::Bt2020)
        } else {
            Err(UnknownColourSpace { name: decode_lossy(n.as_slice()) })
        }
    }

    /// Is `self` the narrower gamut, so that converting `other` into it clips?
    ///
    /// Ordered by area, and containment is strict for every pair that matters here,
    /// with one exception: Display P3's red primary falls marginally outside
    /// Rec.2020's red-green edge, by far less than any decision this answers.
    pub fn narrower_than(self, other: Primaries) -> (b: bool)
        ensures
            b == (self.width() < other.width()),
    {
        self.rank() < other.rank()
    }

    fn rank(self) -> (n: u8)
        ensures
            n == self.width(),
    {
        match self {
            Primaries::Bt709 => 0,
            Primaries::DisplayP3 => 1,
            Primaries::Bt2020 => 2,
        }
    }

    /// Every set of primaries.
    pub fn all() -> (a: [Primaries; 3])
        ensures
            a@ == seq![Primaries::Bt709, Primaries::DisplayP3, Primaries::Bt2020],
    {
        let a: [Primaries; 3] = [Primaries::Bt709, Primaries::DisplayP3, Primaries::Bt2020];
        assert(a@ =~= seq![Primaries::Bt709, Primaries::DisplayP3, Primaries::Bt2020]);
        a
    }
}

pub const CICP: u32 = 0x63696370;

pub const DESC: u32 = 0x64657363;

pub const MLUC: u32 = 0x6d6c7563;

pub const RED: u32 = 0x7258595a;

pub const GREEN: u32 = 0x6758595a;

pub const BLUE: u32 = 0x6258595a;

/// The payload of the first tag with a signature among `count` table entries, from
/// entry `i` on. An entry or a payload that runs past the end of the profile ends the
/// search.
pub open spec fn tag_from(icc: Seq<u8>, sig: u32, i: int, count: int) -> Option<Seq<u8>>
    decreases count - i,
{
    let e = 132 + i * 12;
    if i >= count || e + 4 > icc.len() {
        None
    } else if be32(icc, e) != sig {
        tag_from(icc, sig, i + 1, count)
    } else if e + 12 > icc.len() {
        None
    } else {
        let off = be32(icc, e + 4) as int;
        let len = be32(icc, e + 8) as int;
        if off + len > icc.len() {
            None
        } else {
            Some(icc.subrange(off, off + len))
        }
    }
}

/// The payload of the first tag with a signature: a 128-byte header, a count, then
/// twelve bytes per tag. An absurd count is not believed.
pub open spec fn tag_of(icc: Seq<u8>, sig: u32) -> Option<Seq<u8>> {
    if icc.len() < 132 || be32(icc, 128) > 1024 {
        None
    } else {
        tag_from(icc, sig, 0, be32(icc, 128) as int)
    }
}

/// Finds a tag's payload by its four-byte signature.
fn icc_tag(icc: &[u8], sig: u32) -> (r: Option<&[u8]>)
    ensures
        match r {
            Some(s) => tag_of(icc@, sig) == Some(s@),
            None => tag_of(icc@, sig) is None,
        },
{
    if icc.len() < 132 {
        return None;
    }
    let count: u32 = get_be32(icc, 128);
    if count > 1024 {
        return None;
    }
    let mut i: usize = 0;
    while i < count as usize
        invariant
            i <= count <= 1024,
            icc@.len() >= 132,
            tag_of(icc@, sig) == tag_from(icc@, sig, i as int, count as int),
        decreases count - i,
    {
        let e: usize = 132 + i * 12;
        if e + 4 > icc.len() {
            return None;
        }
        if get_be32(icc, e) == sig {
            if e + 12 > icc.len() {
                return None;
            }
            let off: u32 = get_be32(icc, e + 4);
            let len: u32 = get_be32(icc, e + 8);
            if off as u64 + len as u64 > icc.len() as u64 {
                return None;
            }
            return Some(span(icc, off as usize, off as usize + len as usize));
        }
        i = i + 1;
    }
    None
}

/// A big-endian 32-bit number as a signed one.
pub open spec fn signed32(s: Seq<u8>, i: int) -> int {
    if be32(s, i) >= 0x8000_0000 {
        be32(s, i) - 0x1_0000_0000
    } else {
        be32(s, i) as int
    }
}

/// The smallest and largest value, in 65536ths, that a profile may state for one
/// component of one colorant of a set of primaries: those within 0.004 of the
/// reference after Bradford adaptation to D50. That is loose against the resolution
/// of the format and tight against the gap between the sets.
pub open spec fn colorant_range(p: Primaries, column: int, row: int) -> (int, int) {
    match p {
        Primaries::Bt709 => if column == 0 {
            if row == 0 {
                (28312int, 28836int)
            } else if row == 1 {
                (14318int, 14841int)
            } else {
                (651int, 1175int)
            }
        } else if column == 1 {
            if row == 0 {
                (24975int, 25498int)
            } else if row == 1 {
                (46721int, 47244int)
            } else {
                (6102int, 6626int)
            }
        } else {
            if row == 0 {
                (9118int, 9641int)
            } else if row == 1 {
                (3712int, 4235int)
            } else {
                (46554int, 47077int)
            }
        },
        Primaries::DisplayP3 => if column == 0 {
            if row == 0 {
                (33494int, 34018int)
            } else if row == 1 {
                (15544int, 16067int)
            } else {
                (-330int, 193int)
            }
        } else if column == 1 {
            if row == 0 {
                (18871int, 19394int)
            } else if row == 1 {
                (45105int, 45628int)
            } else {
                (2483int, 3007int)
            }
        } else {
            if row == 0 {
                (10039int, 10563int)
            } else if row == 1 {
                (4102int, 4626int)
            } else {
                (51154int, 51678int)
            }
        },
        Primaries::Bt2020 => if column == 0 {
            if row == 0 {
                (43872int, 44395int)
            } else if row == 1 {
                (18024int, 18547int)
            } else {
                (-388int, 135int)
            }
        } else if column == 1 {
            if row == 0 {
                (10594int, 11117int)
            } else if row == 1 {
                (43997int, 44521int)
            } else {
                (1703int, 2226int)
            }
        } else {
            if row == 0 {
                (7939int, 8462int)
            } else if row == 1 {
                (2729int, 3253int)
            } else {
                (51992int, 52516int)
            }
        },
    }
}

/// Whether one colorant's tag, of at least twenty bytes, is that of `p`.
pub open spec fn colorant_fits(p: Primaries, column: int, tag: Seq<u8>) -> bool {
    forall|row: int|
        0 <= row < 3 ==> (#[trigger] colorant_range(p, column, row)).0 <= signed32(
            tag,
            8 + row * 4,
        ) <= colorant_range(p, column, row).1
}

/// The signature of a colorant's tag.
pub open spec fn colorant_sig(column: int) -> u32 {
    if column == 0 {
        RED
    } else if column == 1 {
        GREEN
    } else {
        BLUE
    }
}

/// Whether a profile's three colorants are those of `p`.
pub open spec fn colorants_fit(p: Primaries, icc: Seq<u8>) -> bool {
    forall|column: int|
        0 <= column < 3 ==> (#[trigger] tag_of(icc, colorant_sig(column)) matches Some(tag)
            && tag.len() >= 20 && colorant_fits(p, column, tag))
}

/// The primaries with an ISO/IEC 23091-2 code.
pub open spec fn coded(code: u8) -> Option<Primaries> {
    if code == 1 {
        Some(Primaries::Bt709)
    } else if code == 12 {
        Some(Primaries::DisplayP3)
    } else if code == 9 {
        Some(Primaries::Bt2020)
    } else {
        None
    }
}

/// The primaries a `cicp` tag states, when there is one that states known ones.
pub open spec fn cicp_primaries(icc: Seq<u8>) -> Option<Primaries> {
    match tag_of(icc, CICP) {
        Some(tag) => if tag.len() > 8 {
            coded(tag[8])
        } else {
            None
        },
        None => None,
    }
}

/// The primaries a profile describes.
pub open spec fn primaries_of(icc: Seq<u8>) -> Option<Primaries> {
    if cicp_primaries(icc) is Some {
        cicp_primaries(icc)
    } else if colorants_fit(Primaries::Bt709, icc) {
        Some(Primaries::Bt709)
    } else if colorants_fit(Primaries::DisplayP3, icc) {
        Some(Primaries::DisplayP3)
    } else if colorants_fit(Primaries::Bt2020, icc) {
        Some(Primaries::Bt2020)
    } else {
        None
    }
}

fn get_signed32(s: &[u8], i: usize) -> (v: i64)
    requires
        i + 4 <= s@.len(),
    ensures
        v == signed32(s@, i as int),
{
    let u: u32 = get_be32(s, i);
    if u >= 0x8000_0000 {
        u as i64 - 0x1_0000_0000
    } else {
        u as i64
    }
}

fn within(v: i64, lo: i64, hi: i64) -> (b: bool)
    ensures
        b == (lo <= v <= hi),
{
    lo <= v && v <= hi
}

/// Whether one colorant's three components are those of `p`.
fn is_colorant(p: Primaries, column: usize, tag: &[u8]) -> (b: bool)
    requires
        column < 3,
        tag@.len() >= 20,
    ensures
        b == colorant_fits(p, column as int, tag@),
{
    let x: i64 = get_signed32(tag, 8);
    let y: i64 = get_signed32(tag, 12);
    let z: i64 = get_signed32(tag, 16);
    let b: bool = match p {
        Primaries::Bt709 => if column == 0 {
            within(x, 28312, 28836) && within(y, 14318, 14841) && within(z, 651, 1175)
        } else if column == 1 {
            within(x, 24975, 25498) && within(y, 46721, 47244) && within(z, 6102, 6626)
        } else {
            within(x, 9118, 9641) && within(y, 3712, 4235) && within(z, 46554, 47077)
        },
        Primaries::DisplayP3 => if column == 0 {
            within(x, 33494, 34018) && within(y, 15544, 16067) && within(z, -330, 193)
        } else if column == 1 {
            within(x, 18871, 19394) && within(y, 45105, 45628) && within(z, 2483, 3007)
        } else {
            within(x, 10039, 10563) && within(y, 4102, 4626) && within(z, 51154, 51678)
        },
        Primaries::Bt2020 => if column == 0 {
            within(x, 43872, 44395) && within(y, 18024, 18547) && within(z, -388, 135)
        } else if column == 1 {
            within(x, 10594, 11117) && within(y, 43997, 44521) && within(z, 1703, 2226)
        } else {
            within(x, 7939, 8462) && within(y, 2729, 3253) && within(z, 51992, 52516)
        },
    };
    proof {
        let c = column as int;
        let r0 = colorant_range(p, c, 0);
        let r1 = colorant_range(p, c, 1);
        let r2 = colorant_range(p, c, 2);
        assert(b == (r0.0 <= x <= r0.1 && r1.0 <= y <= r1.1 && r2.0 <= z <= r2.1));
        if colorant_fits(p, c, tag@) {
            assert(r0.0 <= signed32(tag@, 8 + 0int * 4));
            assert(r1.0 <= signed32(tag@, 8 + 1int * 4));
            assert(r2.0 <= signed32(tag@, 8 + 2int * 4));
        }
        assert forall|row: int| b && 0 <= row < 3 implies (#[trigger] colorant_range(
            p,
            c,
            row,
        )).0 <= signed32(tag@, 8 + row * 4) <= colorant_range(p, c, row).1 by {
            assert(row == 0 || row == 1 || row == 2);
        }
    }
    b
}

/// Whether a profile's three colorants are those of `p`.
fn has_colorants(p: Primaries, red: &[u8], green: &[u8], blue: &[u8], Ghost(icc): Ghost<Seq<u8>>) -> (b:
    bool)
    requires
        red@.len() >= 20,
        green@.len() >= 20,
        blue@.len() >= 20,
        tag_of(icc, RED) == Some(red@),
        tag_of(icc, GREEN) == Some(green@),
        tag_of(icc, BLUE) == Some(blue@),
    ensures
        b == colorants_fit(p, icc),
{
    let b: bool = is_colorant(p, 0, red) && is_colorant(p, 1, green) && is_colorant(p, 2, blue);
    proof {
        assert(colorant_sig(0) == RED && colorant_sig(1) == GREEN && colorant_sig(2) == BLUE);
        if colorants_fit(p, icc) {
            assert(tag_of(icc, colorant_sig(0)) == Some(red@));
            assert(tag_of(icc, colorant_sig(1)) == Some(green@));
            assert(tag_of(icc, colorant_sig(2)) == Some(blue@));
        }
        assert forall|column: int| b && 0 <= column < 3 implies (#[trigger] tag_of(
            icc,
            colorant_sig(column),
        ) matches Some(tag) && tag.len() >= 20 && colorant_fits(p, column, tag)) by {
            assert(column == 0 || column == 1 || column == 2);
        }
    }
    b
}

/// The primaries an ICC profile describes, or `None` if it describes something this
/// crate does not know.
///
/// Two routes, in order: a `cicp` tag stating the ISO/IEC 23091-2 code (ICC v4.4+,
/// which Apple writes), then the `rXYZ`/`gXYZ`/`bXYZ` colorants compared against each
/// known set. The second is what works on the 1998 sRGB profile Lightroom embeds,
/// which predates `cicp`.
///
/// `None` rather than a guess: an Adobe RGB export read as sRGB is undetectably wrong
/// downstream -- just desaturated -- so the caller must be able to refuse.
pub fn primaries_from_icc(icc: &[u8]) -> (r: Option<Primaries>)
    ensures
        r == primaries_of(icc@),
{
    if let Some(cicp) = icc_tag(icc, CICP) {
        if cicp.len() > 8 {
            let code: u8 = cicp[8];
            if code == 1 {
                return Some(Primaries::Bt709);
            }
            if code == 12 {
                return Some(Primaries::DisplayP3);
            }
            if code == 9 {
                return Some(Primaries::Bt2020);
            }
        }
    }
    let red = icc_tag(icc, RED);
    let green = icc_tag(icc, GREEN);
    let blue = icc_tag(icc, BLUE);
    match (red, green, blue) {
        (Some(r), Some(g), Some(b)) => {
            if r.len() >= 20 && g.len() >= 20 && b.len() >= 20 {
                if has_colorants(Primaries::Bt709, r, g, b, Ghost(icc@)) {
                    return Some(Primaries::Bt709);
                }
                if has_colorants(Primaries::DisplayP3, r, g, b, Ghost(icc@)) {
                    return Some(Primaries::DisplayP3);
                }
                if has_colorants(Primaries::Bt2020, r, g, b, Ghost(icc@)) {
                    return Some(Primaries::Bt2020);
                }
                return None;
            }
        },
        _ => {},
    }
    proof {
        assert forall|p: Primaries| !colorants_fit(p, icc@) by {
            assert(colorant_sig(0) == RED && colorant_sig(1) == GREEN && colorant_sig(2) == BLUE);
            if colorants_fit(p, icc@) {
                assert(tag_of(icc@, colorant_sig(0)) is Some);
                assert(tag_of(icc@, colorant_sig(1)) is Some);
                assert(tag_of(icc@, colorant_sig(2)) is Some);
            }
        }
    }
    None
}

/// No profile's colorants fit two sets of primaries, so the order in which they are
/// tried decides nothing.
pub proof fn recognition_is_unambiguous(icc: Seq<u8>, p: Primaries, q: Primaries)
    requires
        colorants_fit(p, icc),
        colorants_fit(q, icc),
    ensures
        p == q,
{
    assert(tag_of(icc, colorant_sig(0)) is Some);
    let tag = tag_of(icc, colorant_sig(0))->Some_0;
    assert(colorant_range(p, 0, 0).0 <= signed32(tag, 8 + 0int * 4) <= colorant_range(p, 0, 0).1);
    assert(colorant_range(q, 0, 0).0 <= signed32(tag, 8 + 0int * 4) <= colorant_range(q, 0, 0).1);
}

/// The bytes before the first zero.
pub open spec fn before_zero(s: Seq<u8>) -> Seq<u8>
    decreases s.len(),
{
    if s.len() == 0 || s[0] == 0 {
        seq![]
    } else {
        seq![s[0]] + before_zero(s.skip(1))
    }
}

/// The big-endian 16-bit numbers of a byte run, a trailing odd byte left out.
pub open spec fn units_of(s: Seq<u8>) -> Seq<u16> {
    Seq::new((s.len() / 2) as nat, |i: int| be16(s, 2 * i))
}

/// `n`, but no more than `most`.
pub open spec fn at_most(n: u32, most: int) -> int {
    if n < most {
        n as int
    } else {
        most
    }
}

/// The description of a profile: the v2 `textDescriptionType` (ASCII,
/// length-prefixed) or the first record of the v4 `mluc` (UTF-16BE).
pub open spec fn description_of(icc: Seq<u8>) -> Option<Seq<char>> {
    match tag_of(icc, DESC) {
        None => None,
        Some(tag) => if tag.len() < 4 {
            None
        } else if be32(tag, 0) == DESC {
            if tag.len() < 12 || 12 + at_most(be32(tag, 8), 256) > tag.len() {
                None
            } else {
                Some(text_of(before_zero(tag.subrange(12, 12 + at_most(be32(tag, 8), 256)))))
            }
        } else if be32(tag, 0) == MLUC {
            if tag.len() < 28 || be32(tag, 24) + at_most(be32(tag, 20), 512) > tag.len() {
                None
            } else {
                let off = be32(tag, 24) as int;
                Some(
                    lossy_utf16(
                        units_of(tag.subrange(off, off + at_most(be32(tag, 20), 512))),
                    ),
                )
            }
        } else {
            None
        },
    }
}

/// The bytes before the first zero.
fn until_zero(s: &[u8]) -> (r: &[u8])
    ensures
        r@ == before_zero(s@),
{
    let mut n: usize = 0;
    assert(s@.skip(0) =~= s@);
    while n < s.len() && s[n] != 0
        invariant
            n <= s@.len(),
            s@.take(n as int) + before_zero(s@.skip(n as int)) == before_zero(s@),
        decreases s@.len() - n,
    {
        proof {
            let t = s@.skip(n as int);
            assert(t[0] == s@[n as int]);
            assert(t.skip(1) =~= s@.skip(n + 1));
            assert(s@.take(n + 1) + before_zero(s@.skip(n + 1)) =~= s@.take(n as int) + (
            seq![t[0]] + before_zero(t.skip(1))));
        }
        n = n + 1;
    }
    proof {
        if n < s@.len() {
            assert(s@.skip(n as int)[0] == 0);
        }
        assert(s@.take(n as int) + Seq::<u8>::empty() =~= s@.take(n as int));
        assert(s@.subrange(0, n as int) =~= s@.take(n as int));
    }
    span(s, 0, n)
}

/// A profile's `desc` tag, for saying which profile could not be interpreted.
///
/// Best-effort: this only ever appears in a message.
pub fn icc_description(icc: &[u8]) -> (r: Option<String>)
    ensures
        match r {
            Some(s) => description_of(icc@) == Some(s@),
            None => description_of(icc@) is None,
        },
{
    let tag = match icc_tag(icc, DESC) {
        Some(t) => t,
        None => {
            return None;
        },
    };
    if tag.len() < 4 {
        return None;
    }
    let kind: u32 = get_be32(tag, 0);
    if kind == DESC {
        if tag.len() < 12 {
            return None;
        }
        let stated: u32 = get_be32(tag, 8);
        let len: usize = if stated < 256 {
            stated as usize
        } else {
            256
        };
        if tag.len() - 12 < len {
            return None;
        }
        let s = until_zero(span(tag, 12, 12 + len));
        Some(decode_lossy(s))
    } else if kind == MLUC {
        if tag.len() < 28 {
            return None;
        }
        let stated: u32 = get_be32(tag, 20);
        let len: u64 = if stated < 512 {
            stated as u64
        } else {
            512
        };
        let off: u32 = get_be32(tag, 24);
        if off as u64 + len > tag.len() as u64 {
            return None;
        }
        let s = span(tag, off as usize, off as usize + len as usize);
        let mut units: Vec<u16> = Vec::new();
        let mut i: usize = 0;
        while i < s.len() / 2
            invariant
                i <= s@.len() / 2,
                units@.len() == i,
                forall|k: int| 0 <= k < i ==> #[trigger] units@[k] == be16(s@, 2 * k),
            decreases s@.len() / 2 - i,
        {
            units.push(get_be16(s, 2 * i));
            i = i + 1;
        }
        assert(units@ =~= units_of(s@));
        Some(decode_utf16_lossy(units.as_slice()))
    } else {
        None
    }
}

} // verus!
