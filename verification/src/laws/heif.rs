//! What the boxes of a HEIF file have to read as.

use vstd::prelude::*;

use crate::heif::boxes::{box_at, wide_value};
use crate::heif::model::{
    assocs_from, brands_of, by_start, chroma_of, collect, data_of, depth_of, extents_from,
    find_kind, find_urn, gain_map_of, iloc_of, infe_of, layout_of, location, locs_from, next_text,
    pitm_of, prop_of, range_of, ref_of, text_at, text_end, uint_at, ColourView, FileView, ItemView,
    LocLayout, LocView, PropView,
};
use crate::heif::read::{hvcc_config, HvccConfig};
use crate::heif::{Chroma, Error, ItemId};
use crate::laws::{four, number16, number32, words_are_the_numbers_their_bytes_make};
use crate::text::text_of;

verus! {

/// Whether the box at `start` has this type, and this many bytes, of which so many are its
/// header.
pub open spec fn is_box(
    s: Seq<u8>,
    start: int,
    end: int,
    kind: int,
    header: int,
    size: int,
) -> bool {
    box_at(s, start, end) matches Some(b) && b.kind == kind && b.start == start + header && b.end
        == start + size
}

/// A box is as long as the number at its start says, which counts the header. One means that
/// the size follows the type in eight bytes, and zero that the box goes on to its parent's end.
/// Its type is the number behind the first.
pub proof fn a_box_is_as_long_as_it_says(s: Seq<u8>, start: int, end: int)
    requires
        0 <= start <= end <= s.len(),
        start + 8 <= end,
    ensures
        ({
            let size = number32(false, s, start);
            let long = 0x1_0000_0000 * number32(false, s, start + 8) + number32(
                false,
                s,
                start + 12,
            );
            let kind = number32(false, s, start + 4);
            &&& size >= 8 && start + size <= end ==> is_box(s, start, end, kind, 8, size)
            &&& size == 0 ==> is_box(s, start, end, kind, 8, end - start)
            &&& size == 1 && long >= 16 && start + long <= end ==> is_box(
                s,
                start,
                end,
                kind,
                16,
                long,
            )
            &&& 2 <= size < 8 || start + size > end ==> box_at(s, start, end) is None
        }),
{
    words_are_the_numbers_their_bytes_make(false, s, start);
    words_are_the_numbers_their_bytes_make(false, s, start + 4);
    words_are_the_numbers_their_bytes_make(false, s, start + 8);
}

/// A text goes on to its zero, and the next one begins behind that.
pub proof fn a_text_ends_with_its_zero(b: Seq<u8>, at: int, zero: int)
    requires
        0 <= at <= zero < b.len(),
        b[zero] == 0,
        forall|i: int| at <= i < zero ==> #[trigger] b[i] != 0,
    ensures
        text_end(b, at) == zero,
        text_at(b, at) == b.subrange(at, zero),
        next_text(b, at) == zero + 1,
    decreases zero - at,
{
    if at < zero {
        a_text_ends_with_its_zero(b, at + 1, zero);
    }
}

/// The primary item is the number behind the version and the flags: two bytes in version 0,
/// four in any other.
pub proof fn the_primary_item_is_the_one_named(b: Seq<u8>)
    ensures
        b.len() >= 6 && b[0] == 0 ==> pitm_of(b) == Ok::<ItemId, Error>(
            number16(false, b, 4) as u32,
        ),
        b.len() >= 8 && b[0] != 0 ==> pitm_of(b) == Ok::<ItemId, Error>(
            number32(false, b, 4) as u32,
        ),
        pitm_of(b) is Ok ==> b.len() >= 6,
{
    words_are_the_numbers_their_bytes_make(false, b, 4);
}

/// An item is stated by its number, in two bytes in version 2 and in four in version 3, two
/// bytes that do not count here, its type, and its name. Behind the name of a `mime` item stands
/// its content type, and behind that of a `uri ` item its URI. The lowest bit of the flags hides
/// it.
pub proof fn an_item_is_what_its_entry_states(b: Seq<u8>)
    requires
        b.len() >= 14,
        b[0] == 2 || b[0] == 3,
    ensures
        ({
            let at: int = if b[0] == 3 {
                14
            } else {
                12
            };
            let item = infe_of(b)->Ok_0;
            let kind = number32(false, b, at - 4);
            &&& infe_of(b) is Ok
            &&& item.id == if b[0] == 3 {
                number32(false, b, 4)
            } else {
                number16(false, b, 4)
            }
            &&& item.kind == kind
            &&& item.name == text_of(text_at(b, at))
            &&& item.hidden == (b[3] % 2 == 1)
            &&& item.content_type == if kind == four('m', 'i', 'm', 'e') {
                Some(text_of(text_at(b, next_text(b, at))))
            } else {
                None
            }
            &&& item.uri_type == if kind == four('u', 'r', 'i', ' ') {
                Some(text_of(text_at(b, next_text(b, at))))
            } else {
                None
            }
        }),
{
    words_are_the_numbers_their_bytes_make(false, b, 4);
    words_are_the_numbers_their_bytes_make(false, b, 8);
    words_are_the_numbers_their_bytes_make(false, b, 10);
}

/// A reference is stated by the item it is from, how many it is to, and those, each in two
/// bytes, or in four.
pub proof fn a_reference_is_to_the_items_it_lists(kind: u32, wide: bool, b: Seq<u8>, n: int, i: int)
    requires
        b.len() >= 6,
        n == if wide {
            number16(false, b, 4)
        } else {
            number16(false, b, 2)
        },
        b.len() >= if wide {
            6 + 4 * n
        } else {
            4 + 2 * n
        },
        0 <= i < n,
    ensures
        ({
            let r = ref_of(kind, wide, b)->Ok_0;
            &&& ref_of(kind, wide, b) is Ok
            &&& r.kind == kind
            &&& r.to.len() == n
            &&& wide ==> r.from == number32(false, b, 0) && r.to[i] == number32(false, b, 6 + 4 * i)
            &&& !wide ==> r.from == number16(false, b, 0) && r.to[i] == number16(
                false,
                b,
                4 + 2 * i,
            )
        }),
{
    words_are_the_numbers_their_bytes_make(false, b, 0);
    words_are_the_numbers_their_bytes_make(false, b, 2);
    words_are_the_numbers_their_bytes_make(false, b, 4);
    words_are_the_numbers_their_bytes_make(false, b, 6 + 4 * i);
    words_are_the_numbers_their_bytes_make(false, b, 4 + 2 * i);
    assert(i * 4 == 4 * i && i * 2 == 2 * i);
    if wide {
        assert((b.len() - 6) / 4 >= n);
    } else {
        assert((b.len() - 4) / 2 >= n);
    }
}

/// What `prop_of` makes of a payload that is long enough.
pub open spec fn is_property(kind: int, b: Seq<u8>, p: PropView) -> bool {
    0 <= kind <= 0xffff_ffff && prop_of(kind as u32, b) == Ok::<PropView, Error>(p)
}

/// The properties of an image are stated in their boxes: its sides, its depths, its decoder's
/// configuration, its turns, its mirror and its light levels.
pub proof fn properties_are_what_their_boxes_state(b: Seq<u8>)
    ensures
        b.len() >= 12 ==> is_property(
            four('i', 's', 'p', 'e'),
            b,
            PropView::Ispe {
                width: number32(false, b, 4) as u32,
                height: number32(false, b, 8) as u32,
            },
        ),
        b.len() >= 5 && b.len() >= 5 + b[4] ==> is_property(
            four('p', 'i', 'x', 'i'),
            b,
            PropView::Pixi(b.subrange(5, 5 + b[4])),
        ),
        is_property(four('h', 'v', 'c', 'C'), b, PropView::HvcC(b)),
        b.len() >= 1 ==> is_property(four('i', 'r', 'o', 't'), b, PropView::Irot(b[0] % 4)),
        b.len() >= 1 ==> is_property(four('i', 'm', 'i', 'r'), b, PropView::Imir(b[0] % 2)),
        b.len() >= 4 ==> is_property(
            four('c', 'l', 'l', 'i'),
            b,
            PropView::Clli {
                max_cll: number16(false, b, 0) as u16,
                max_pall: number16(false, b, 2) as u16,
            },
        ),
        b.len() >= 4 ==> is_property(
            four('a', 'u', 'x', 'C'),
            b,
            PropView::AuxC(text_of(text_at(b, 4))),
        ),
{
    words_are_the_numbers_their_bytes_make(false, b, 0);
    words_are_the_numbers_their_bytes_make(false, b, 2);
    words_are_the_numbers_their_bytes_make(false, b, 4);
    words_are_the_numbers_their_bytes_make(false, b, 8);
}

/// The colour of an image is stated by three codes and whether it takes the whole range behind
/// `nclx`, or by a profile.
pub proof fn a_colour_is_what_its_box_states(b: Seq<u8>)
    ensures
        b.len() >= 11 && number32(false, b, 0) == four('n', 'c', 'l', 'x') ==> is_property(
            four('c', 'o', 'l', 'r'),
            b,
            PropView::Colr(
                ColourView::Nclx {
                    primaries: number16(false, b, 4) as u16,
                    transfer: number16(false, b, 6) as u16,
                    matrix: number16(false, b, 8) as u16,
                    full_range: b[10] >= 128,
                },
            ),
        ),
        b.len() >= 4 && number32(false, b, 0) != four('n', 'c', 'l', 'x') ==> is_property(
            four('c', 'o', 'l', 'r'),
            b,
            PropView::Colr(ColourView::Icc(b.subrange(4, b.len() as int))),
        ),
{
    words_are_the_numbers_their_bytes_make(false, b, 0);
    words_are_the_numbers_their_bytes_make(false, b, 4);
    words_are_the_numbers_their_bytes_make(false, b, 6);
    words_are_the_numbers_their_bytes_make(false, b, 8);
    if b.len() >= 4 {
        assert(b.skip(4) =~= b.subrange(4, b.len() as int));
    }
}

/// An item's properties are listed by their positions, the first being one, in a byte each or
/// in two, the highest bit of which says that the property is essential.
pub proof fn an_association_is_what_its_entry_states(
    b: Seq<u8>,
    wide: bool,
    large: bool,
    k: int,
    at: int,
    i: int,
)
    requires
        k >= 1,
        0 <= at,
        assocs_from(b, wide, large, k, at) is Ok,
        at + 5 <= b.len(),
        0 <= i < b[at + if wide {
            4int
        } else {
            2
        }],
    ensures
        ({
            let entry = assocs_from(b, wide, large, k, at)->Ok_0[0];
            let first: int = at + if wide {
                5int
            } else {
                3
            };
            &&& entry.list.len() == b[first - 1]
            &&& wide ==> entry.item == number32(false, b, at)
            &&& !wide ==> entry.item == number16(false, b, at)
            &&& large ==> entry.list[i].index == number16(false, b, first + 2 * i) % 0x8000
                && entry.list[i].essential == (number16(false, b, first + 2 * i) >= 0x8000)
            &&& !large ==> entry.list[i].index == b[first + i] % 128 && entry.list[i].essential == (
            b[first + i] >= 128)
        }),
{
    let first: int = at + if wide {
        5int
    } else {
        3
    };
    words_are_the_numbers_their_bytes_make(false, b, at);
    words_are_the_numbers_their_bytes_make(false, b, first + 2 * i);
    assert(i * 2 == 2 * i && i * 1 == i);
}

proof fn lemma_four_bytes(b: Seq<u8>, at: int)
    requires
        0 <= at,
        at + 4 <= b.len(),
    ensures
        uint_at(b, at, 4) == number32(false, b, at),
        uint_at(b, at, 0) == 0,
{
    let t = b.subrange(at, at + 4);
    assert(t.drop_last() =~= b.subrange(at, at + 3));
    assert(t.drop_last().drop_last() =~= b.subrange(at, at + 2));
    assert(t.drop_last().drop_last().drop_last() =~= b.subrange(at, at + 1));
    assert(t.drop_last().drop_last().drop_last().drop_last() =~= b.subrange(at, at));
    reveal_with_fuel(wide_value, 5);
    assert(b.subrange(at, at + 0) =~= seq![]);
}

/// The places of the items' data are listed by item. With four bytes for every offset and length
/// and none for a base, an entry is the item's number, in version 2 in four bytes and else in
/// two, from version 1 on the kind of place it is in, a number that does not count here, how many
/// extents there are, and those.
pub proof fn a_place_is_what_its_entry_states(b: Seq<u8>)
    requires
        iloc_of(b) is Ok,
        b[0] <= 2,
        b[4] == 0x44,
        b[5] == 0,
        number16(false, b, 6) > 0,
        b[0] == 2 ==> number32(false, b, 6) > 0,
    ensures
        ({
            let entries = iloc_of(b)->Ok_0;
            let at: int = if b[0] == 2 {
                10
            } else {
                8
            };
            let count: int = if b[0] == 0 {
                12
            } else if b[0] == 1 {
                14
            } else {
                18
            };
            let n = number16(false, b, count);
            &&& entries.len() == if b[0] == 2 {
                number32(false, b, 6)
            } else {
                number16(false, b, 6)
            }
            &&& entries[0].item == if b[0] == 2 {
                number32(false, b, 10)
            } else {
                number16(false, b, 8)
            }
            &&& b[0] == 0 ==> entries[0].method == 0
            &&& b[0] == 1 ==> entries[0].method == number16(false, b, 10) % 16
            &&& b[0] == 2 ==> entries[0].method == number16(false, b, 14) % 16
            &&& entries[0].extents.len() == n
            &&& n > 0 ==> entries[0].extents[0].offset == number32(false, b, count + 2)
                && entries[0].extents[0].length == number32(false, b, count + 6)
        }),
{
    let l = layout_of(b);
    let at: int = if b[0] == 2 {
        10
    } else {
        8
    };
    let count: int = if b[0] == 0 {
        12
    } else if b[0] == 1 {
        14
    } else {
        18
    };
    words_are_the_numbers_their_bytes_make(false, b, 6);
    words_are_the_numbers_their_bytes_make(false, b, 8);
    words_are_the_numbers_their_bytes_make(false, b, 10);
    words_are_the_numbers_their_bytes_make(false, b, 14);
    words_are_the_numbers_their_bytes_make(false, b, count);
    let k = if b[0] == 2 {
        number32(false, b, 6)
    } else {
        number16(false, b, 6)
    };
    lemma_locs_count(b, l, k, at);
    let n = number16(false, b, count);
    assert(count + 2 <= b.len());
    assert(uint_at(b, count, 0) == 0) by {
        assert(b.subrange(count, count + 0) =~= seq![]);
        reveal_with_fuel(wide_value, 1);
    }
    lemma_extents_count(b, l, 0, n, count + 2);
    if n > 0 {
        lemma_four_bytes(b, count + 2);
        lemma_four_bytes(b, count + 6);
    }
}

proof fn lemma_locs_count(b: Seq<u8>, l: LocLayout, k: int, at: int)
    requires
        locs_from(b, l, k, at) is Ok,
        k >= 0,
    ensures
        locs_from(b, l, k, at)->Ok_0.len() == k,
    decreases k,
{
    if k > 0 {
        let w: int = if l.wide {
            4
        } else {
            2
        };
        let c = at + w + (if l.methods {
            2int
        } else {
            0
        }) + 2 + l.base_size;
        let next = c + 2 + crate::bytes::be16(b, c) * (l.index_size + l.offset_size
            + l.length_size);
        lemma_locs_count(b, l, k - 1, next);
    }
}

proof fn lemma_extents_count(b: Seq<u8>, l: LocLayout, base: u64, k: int, at: int)
    requires
        extents_from(b, l, base, k, at) is Ok,
        k >= 0,
    ensures
        extents_from(b, l, base, k, at)->Ok_0.len() == k,
    decreases k,
{
    if k > 0 {
        lemma_extents_count(
            b,
            l,
            base,
            k - 1,
            at + l.index_size + l.offset_size + l.length_size,
        );
    }
}

/// An extent in the file is where it says, and one in the `idat` box is counted from the start
/// of that. An item with one extent has its bytes.
pub proof fn the_data_of_an_item_is_where_its_extent_says(f: FileView, id: ItemId, l: LocView)
    requires
        location(f.locs, id) == Some(l),
        l.extents.len() == 1,
        f.bytes.len() <= usize::MAX,
    ensures
        ({
            let x = l.extents[0];
            let from = f.idat->Some_0.0;
            &&& l.method == 0 && x.offset + x.length <= f.bytes.len() ==> data_of(f, id) == Ok::<
                Seq<u8>,
                Error,
            >(f.bytes.subrange(x.offset as int, x.offset + x.length))
            &&& l.method == 1 && f.idat is Some && 0 <= from && from + x.offset
                <= f.idat->Some_0.1 && from + x.offset + x.length <= f.bytes.len() ==> data_of(
                f,
                id,
            ) == Ok::<Seq<u8>, Error>(
                f.bytes.subrange(from + x.offset, from + x.offset + x.length),
            )
        }),
{
    let x = l.extents[0];
    let g = |i: int| range_of(f, id, l.method, l.extents[i]);
    assert(g(0) == range_of(f, id, l.method, x));
    reveal_with_fuel(collect, 2);
    reveal_with_fuel(by_start, 2);
    if range_of(f, id, l.method, x) is Ok {
        let y = range_of(f, id, l.method, x)->Ok_0;
        assert(seq![y] + seq![] =~= seq![y]);
        assert(collect(g, 0, 1) == Ok::<Seq<(int, int)>, Error>(seq![y]));
        assert(seq![y].drop_last() =~= seq![]);
        assert(by_start(seq![y]) =~= seq![y]);
    }
}

/// `urn:com:apple:photo:2020:aux:hdrgainmap`.
pub open spec fn is_apples(urn: Option<Seq<char>>) -> bool {
    urn == Some("urn:com:apple:photo:2020:aux:hdrgainmap"@)
}

proof fn lemma_urn(items: Seq<ItemView>, i: int, k: int)
    requires
        0 <= i <= k < items.len(),
        is_apples(items[k].aux_urn),
        forall|j: int| i <= j < k ==> !is_apples((#[trigger] items[j]).aux_urn),
    ensures
        find_urn(items, "urn:com:apple:photo:2020:aux:hdrgainmap"@, i) == Some(items[k]),
    decreases k - i,
{
    if i < k {
        lemma_urn(items, i + 1, k);
    }
}

proof fn lemma_no_urn(items: Seq<ItemView>, i: int)
    requires
        0 <= i <= items.len(),
        forall|j: int| i <= j < items.len() ==> !is_apples((#[trigger] items[j]).aux_urn),
    ensures
        find_urn(items, "urn:com:apple:photo:2020:aux:hdrgainmap"@, i) is None,
    decreases items.len() - i,
{
    if i < items.len() {
        lemma_no_urn(items, i + 1);
    }
}

proof fn lemma_kind(items: Seq<ItemView>, kind: u32, i: int, k: int)
    requires
        0 <= i <= k < items.len(),
        items[k].kind == kind,
        forall|j: int| i <= j < k ==> (#[trigger] items[j]).kind != kind,
    ensures
        find_kind(items, kind, i) == Some(items[k]),
    decreases k - i,
{
    if i < k {
        lemma_kind(items, kind, i + 1, k);
    }
}

/// The gain map is the first image with Apple's auxiliary type. Without one it is the second of
/// the two images that the first `tmap` item is made of.
pub proof fn the_gain_map_is_apples_or_the_second_image(f: FileView, k: int)
    requires
        0 <= k < f.items.len(),
    ensures
        is_apples(f.items[k].aux_urn) && (forall|j: int|
            0 <= j < k ==> !is_apples((#[trigger] f.items[j]).aux_urn)) ==> (gain_map_of(
            f,
        ) matches Some(g) && g.image_item == f.items[k].id && g.apple_aux),
        f.items[k].kind == four('t', 'm', 'a', 'p') && (forall|j: int|
            0 <= j < k ==> (#[trigger] f.items[j]).kind != four('t', 'm', 'a', 'p')) ==> {
            &&& gain_map_of(f) matches Some(g) ==> g.tmap_item == Some(f.items[k].id)
            &&& (forall|j: int|
                0 <= j < f.items.len() ==> !is_apples((#[trigger] f.items[j]).aux_urn))
                && f.items[k].derives_from.len() == 2 ==> (gain_map_of(f) matches Some(g)
                && g.image_item == f.items[k].derives_from[1] && !g.apple_aux)
        },
{
    if is_apples(f.items[k].aux_urn) && (forall|j: int|
        0 <= j < k ==> !is_apples((#[trigger] f.items[j]).aux_urn)) {
        lemma_urn(f.items, 0, k);
    }
    if f.items[k].kind == four('t', 'm', 'a', 'p') && (forall|j: int|
        0 <= j < k ==> (#[trigger] f.items[j]).kind != four('t', 'm', 'a', 'p')) {
        lemma_kind(f.items, 0x746d6170, 0, k);
        if forall|j: int| 0 <= j < f.items.len() ==> !is_apples((#[trigger] f.items[j]).aux_urn) {
            lemma_no_urn(f.items, 0);
        }
    }
}

/// A decoder's configuration says how the colour is sampled in the two lowest bits of its byte
/// 16, and how deep it is, less eight, in the three lowest bits of its byte 17.
pub proof fn a_configuration_says_how_an_image_is_coded(h: Seq<u8>, bits: Seq<u8>)
    requires
        h.len() >= 19,
    ensures
        h[16] % 4 == 0 ==> chroma_of(h, bits) == Chroma::Monochrome,
        h[16] % 4 == 1 ==> chroma_of(h, bits) == Chroma::Yuv420,
        h[16] % 4 == 2 ==> chroma_of(h, bits) == Chroma::Yuv422,
        h[16] % 4 == 3 ==> chroma_of(h, bits) == Chroma::Yuv444,
        depth_of(h, bits) == 8 + h[17] % 8,
{
}

/// The same of the function that reads a configuration, which has the profile in the five lowest
/// bits of its byte 1.
pub proof fn a_configuration_is_read_as_it_says(hvcc: &[u8], r: Option<HvccConfig>)
    requires
        call_ensures(hvcc_config, (hvcc,), r),
    ensures
        r is Some <==> hvcc@.len() >= 19,
        r matches Some(c) ==> c.profile_idc == hvcc@[1] % 32 && c.chroma_format == hvcc@[16] % 4
            && c.bit_depth_luma == 8 + hvcc@[17] % 8,
{
}

/// The brands a file keeps to are the numbers behind the first eight bytes of its `ftyp` box.
pub proof fn brands_are_the_numbers_behind_the_first(b: Seq<u8>, i: int)
    requires
        b.len() >= 8,
        0 <= i,
        12 + 4 * i <= b.len(),
    ensures
        i < brands_of(b).len(),
        brands_of(b)[i] == number32(false, b, 8 + 4 * i),
        4 * brands_of(b).len() <= b.len() - 8,
{
    words_are_the_numbers_their_bytes_make(false, b, 8 + 4 * i);
}

} // verus!
