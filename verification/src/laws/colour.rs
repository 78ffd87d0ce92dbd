//! Which colours a profile or a name stands for.

use vstd::prelude::*;

use crate::colour::{
    cicp_primaries, colorant_fits, colorant_range, colorant_sig, colorants_fit, primaries_of,
    recognition_is_unambiguous, signed32, tag_from, tag_of, Primaries,
};
use crate::laws::number32;

verus! {

/// The codes that a container declares primaries by: 1 for those of sRGB, 12 for Display P3,
/// 9 for Rec. 2020.
pub proof fn primaries_are_declared_by_their_codes(p: Primaries)
    ensures
        p.code() == 1 <==> p is Bt709,
        p.code() == 12 <==> p is DisplayP3,
        p.code() == 9 <==> p is Bt2020,
        p.code() == 1 || p.code() == 9 || p.code() == 12,
{
}

/// Wider primaries hold narrower ones: those of sRGB are the narrowest, those of Rec. 2020
/// the widest.
pub proof fn primaries_are_ordered_by_width()
    ensures
        Primaries::Bt709.width() < Primaries::DisplayP3.width(),
        Primaries::DisplayP3.width() < Primaries::Bt2020.width(),
{
}

/// Where entry `i` of a profile's table of tags is.
pub open spec fn entry_place(i: int) -> int {
    132 + 12 * i
}

proof fn lemma_tag_from(icc: Seq<u8>, sig: u32, a: int, i: int, count: int)
    requires
        0 <= a <= i < count,
        entry_place(i) + 12 <= icc.len(),
        number32(false, icc, entry_place(i)) == sig,
        forall|j: int| a <= j < i ==> #[trigger] number32(false, icc, entry_place(j)) != sig,
    ensures
        ({
            let off = number32(false, icc, entry_place(i) + 4);
            let len = number32(false, icc, entry_place(i) + 8);
            tag_from(icc, sig, a, count) == if off + len <= icc.len() {
                Some(icc.subrange(off, off + len))
            } else {
                None
            }
        }),
    decreases i - a,
{
    if a < i {
        assert(number32(false, icc, entry_place(a)) != sig);
        lemma_tag_from(icc, sig, a + 1, i, count);
    }
}

/// A tag of a profile is the run of bytes that the first entry with its signature names, in
/// the table behind the 128 bytes of the header and the count of entries.
pub proof fn a_profile_tag_is_found_in_its_table(icc: Seq<u8>, sig: u32, i: int)
    requires
        icc.len() >= 132,
        number32(false, icc, 128) <= 1024,
        0 <= i < number32(false, icc, 128),
        entry_place(i) + 12 <= icc.len(),
        number32(false, icc, entry_place(i)) == sig,
        forall|j: int| 0 <= j < i ==> #[trigger] number32(false, icc, entry_place(j)) != sig,
    ensures
        ({
            let off = number32(false, icc, entry_place(i) + 4);
            let len = number32(false, icc, entry_place(i) + 8);
            tag_of(icc, sig) == if off + len <= icc.len() {
                Some(icc.subrange(off, off + len))
            } else {
                None
            }
        }),
{
    lemma_tag_from(icc, sig, 0, i, number32(false, icc, 128));
}

/// A profile that states one of the three codes in its `cicp` tag has the primaries of that
/// code, whatever else it states.
pub proof fn a_stated_code_decides(icc: Seq<u8>, tag: Seq<u8>)
    requires
        tag_of(icc, 0x63696370) == Some(tag),
        tag.len() > 8,
    ensures
        tag[8] == 1 ==> primaries_of(icc) == Some(Primaries::Bt709),
        tag[8] == 12 ==> primaries_of(icc) == Some(Primaries::DisplayP3),
        tag[8] == 9 ==> primaries_of(icc) == Some(Primaries::Bt2020),
{
}

/// A component of a colorant, in 65536ths: a signed number at byte 8, 12 or 16 of its tag.
pub open spec fn component(tag: Seq<u8>, row: int) -> int {
    let v = number32(false, tag, 8 + 4 * row);
    if v >= 0x8000_0000 {
        v - 0x1_0000_0000
    } else {
        v
    }
}

/// The red, green and blue colorants of a set of primaries, adapted to D50, in 65536ths.
pub open spec fn reference(p: Primaries, column: int) -> (int, int, int) {
    match p {
        Primaries::Bt709 => if column == 0 {
            (28574, 14580, 913)
        } else if column == 1 {
            (25237, 46983, 6364)
        } else {
            (9380, 3974, 46816)
        },
        Primaries::DisplayP3 => if column == 0 {
            (33756, 15806, -69)
        } else if column == 1 {
            (19133, 45367, 2745)
        } else {
            (10301, 4364, 51416)
        },
        Primaries::Bt2020 => if column == 0 {
            (44134, 18286, -127)
        } else if column == 1 {
            (10856, 44259, 1965)
        } else {
            (8201, 2991, 52254)
        },
    }
}

/// Whether two numbers are at most so far apart.
pub open spec fn close(a: int, b: int, most: int) -> bool {
    b - most <= a <= b + most
}

/// Whether a colorant is at most so far from that of a set of primaries.
pub open spec fn is_near(tag: Seq<u8>, p: Primaries, column: int, most: int) -> bool {
    &&& close(component(tag, 0), reference(p, column).0, most)
    &&& close(component(tag, 1), reference(p, column).1, most)
    &&& close(component(tag, 2), reference(p, column).2, most)
}

/// Whether the colorants that a profile states in `rXYZ`, `gXYZ` and `bXYZ` are at most so
/// far from those of a set of primaries.
pub open spec fn has_colorants_near(icc: Seq<u8>, p: Primaries, most: int) -> bool {
    &&& tag_of(icc, 0x7258595a) matches Some(r) && r.len() >= 20 && is_near(r, p, 0, most)
    &&& tag_of(icc, 0x6758595a) matches Some(g) && g.len() >= 20 && is_near(g, p, 1, most)
    &&& tag_of(icc, 0x6258595a) matches Some(b) && b.len() >= 20 && is_near(b, p, 2, most)
}

/// Whether a profile states one of the three codes.
pub open spec fn states_a_code(icc: Seq<u8>) -> bool {
    tag_of(icc, 0x63696370) matches Some(tag) && tag.len() > 8 && (tag[8] == 1 || tag[8] == 12
        || tag[8] == 9)
}

proof fn lemma_near(tag: Seq<u8>, p: Primaries, column: int)
    requires
        0 <= column < 3,
    ensures
        is_near(tag, p, column, 250) ==> colorant_fits(p, column, tag),
        colorant_fits(p, column, tag) ==> is_near(tag, p, column, 275),
{
    if is_near(tag, p, column, 250) {
        assert forall|row: int| 0 <= row < 3 implies (#[trigger] colorant_range(p, column, row)).0
            <= signed32(tag, 8 + row * 4) <= colorant_range(p, column, row).1 by {
            assert(row == 0 || row == 1 || row == 2);
        }
    }
    if colorant_fits(p, column, tag) {
        assert(colorant_range(p, column, 0).0 <= signed32(tag, 8 + 0int * 4));
        assert(colorant_range(p, column, 1).0 <= signed32(tag, 8 + 1int * 4));
        assert(colorant_range(p, column, 2).0 <= signed32(tag, 8 + 2int * 4));
    }
}

/// A profile that states no code has the primaries whose colorants its own are within 0.0038
/// of. It has none whose colorants they are not within 0.0042 of, and none at all where they
/// are not within that of any.
pub proof fn colorants_decide_where_no_code_does(icc: Seq<u8>, p: Primaries)
    requires
        !states_a_code(icc),
    ensures
        has_colorants_near(icc, p, 250) ==> primaries_of(icc) == Some(p),
        primaries_of(icc) == Some(p) ==> has_colorants_near(icc, p, 275),
{
    assert(colorant_sig(0) == 0x7258595a && colorant_sig(1) == 0x6758595a && colorant_sig(2)
        == 0x6258595a);
    assert(cicp_primaries(icc) is None);
    assert forall|q: Primaries|
        (has_colorants_near(icc, q, 250) ==> #[trigger] colorants_fit(q, icc)) && (colorants_fit(
            q,
            icc,
        ) ==> has_colorants_near(icc, q, 275)) by {
        if let Some(r) = tag_of(icc, 0x7258595a) {
            lemma_near(r, q, 0);
        }
        if let Some(g) = tag_of(icc, 0x6758595a) {
            lemma_near(g, q, 1);
        }
        if let Some(b) = tag_of(icc, 0x6258595a) {
            lemma_near(b, q, 2);
        }
        if has_colorants_near(icc, q, 250) {
            assert forall|column: int| 0 <= column < 3 implies (#[trigger] tag_of(
                icc,
                colorant_sig(column),
            ) matches Some(tag) && tag.len() >= 20 && colorant_fits(q, column, tag)) by {
                assert(column == 0 || column == 1 || column == 2);
            }
        }
        if colorants_fit(q, icc) {
            assert(tag_of(icc, colorant_sig(0)) is Some);
            assert(tag_of(icc, colorant_sig(1)) is Some);
            assert(tag_of(icc, colorant_sig(2)) is Some);
        }
    }
    if has_colorants_near(icc, p, 250) {
        assert(colorants_fit(p, icc));
        assert forall|q: Primaries| #[trigger] colorants_fit(q, icc) implies q == p by {
            recognition_is_unambiguous(icc, p, q);
        }
        assert(colorants_fit(Primaries::Bt709, icc) ==> p is Bt709);
        assert(colorants_fit(Primaries::DisplayP3, icc) ==> p is DisplayP3);
    }
    if primaries_of(icc) == Some(p) {
        assert(colorants_fit(p, icc));
    }
}

} // verus!
