//! What has to become of a `MakerNote`, and of the blocks that travel with it.

use vstd::prelude::*;

use crate::heif::model::{data_of, file_of, find_kind, FileView, ItemView};
use crate::jpeg::exif_of;
use crate::laws::exif::{bytes_at, is_readable};
use crate::laws::tiff::a_value_is_the_bytes_at_its_place;
use crate::laws::{four, number32, words_are_the_numbers_their_bytes_make};
use crate::portable::exif::laws::reach::{a_note_in_reach_is_kept, entries_in_all};
use crate::portable::exif::laws::{
    a_note_keeps_its_place, becomes, ifd0_of, leads_to, order_of, states_tag,
};
use crate::portable::exif::{
    chosen_note, located, maker_note_from_bytes, own_note, settled_plan, sub_ifd, with_exif,
    with_gps, ForeignMakerNote, MakerNoteGraft, NoteView, Origin, RebuiltView,
};
use crate::portable::tiff::{find_tag, ifd_of, opened, EntryView, IfdView};

verus! {

/// A source's own note of more than four bytes, tag 37500 of its Exif IFD, stands in the output
/// at the very place it had in the source, byte for byte, unless the output says that it had to
/// be left out. It is never replaced by an offered one.
pub proof fn a_note_stays_where_it_was(
    s: Seq<u8>,
    iptc: Option<Seq<u8>>,
    companion: Option<NoteView>,
    r: RebuiltView,
    x: IfdView,
    e: EntryView,
) -> (at: int)
    requires
        becomes(s, iptc, companion, r),
        sub_ifd(s, order_of(s), ifd0_of(s), 34665) == Some(x),
        find_tag(x.entries, 37500, 0) == Some(e),
        is_readable(s, e),
        bytes_at(s, e).len() > 4,
        !r.dropped,
    ensures
        leads_to(r.tiff, order_of(s), 8, 34665, at),
        states_tag(r.tiff, order_of(s), at, 37500, e.typ, e.count, bytes_at(s, e)),
        e.value_off + bytes_at(s, e).len() <= r.tiff.len(),
        r.tiff.subrange(e.value_off, e.value_off + bytes_at(s, e).len()) == bytes_at(s, e),
        companion is None ==> r.graft is NotOffered,
        companion is Some ==> r.graft is HostHasOwn,
{
    a_value_is_the_bytes_at_its_place(s, e);
    let m = own_note(s, x)->Some_0;
    assert(chosen_note(s, order_of(s), x, companion).0 == Some(m));
    lemma_graft(s, iptc, companion, r, x);
    a_note_keeps_its_place(s, iptc, companion, r, x, m)
}

/// A source's own note is not left out when it stands behind what the IFDs could come to at the
/// most, and in the first megabyte.
pub proof fn a_note_in_reach_is_not_left_out(
    s: Seq<u8>,
    iptc: Option<Seq<u8>>,
    companion: Option<NoteView>,
    r: RebuiltView,
    x: IfdView,
    e: EntryView,
)
    requires
        becomes(s, iptc, companion, r),
        sub_ifd(s, order_of(s), ifd0_of(s), 34665) == Some(x),
        find_tag(x.entries, 37500, 0) == Some(e),
        is_readable(s, e),
        bytes_at(s, e).len() > 4,
        122 + 12 * entries_in_all(s) <= e.value_off <= 0x10_0000,
    ensures
        !r.dropped,
{
    a_value_is_the_bytes_at_its_place(s, e);
    let m = own_note(s, x)->Some_0;
    a_note_in_reach_is_kept(s, iptc, companion, r, x, m);
}

/// An offered note is carried when the source has none of its own, the byte order is the same,
/// and its place is behind what the IFDs could come to at the most and in the first megabyte.
pub proof fn an_offered_note_in_reach_is_carried(
    s: Seq<u8>,
    iptc: Option<Seq<u8>>,
    c: NoteView,
    r: RebuiltView,
    x: IfdView,
)
    requires
        becomes(s, iptc, Some(c), r),
        sub_ifd(s, order_of(s), ifd0_of(s), 34665) == Some(x),
        find_tag(x.entries, 37500, 0) is None,
        c.little_endian == order_of(s),
        c.bytes.len() > 4,
        122 + 12 * entries_in_all(s) <= c.offset <= 0x10_0000,
    ensures
        r.graft == (MakerNoteGraft::Carried { bytes: c.bytes.len() as usize }),
{
    let m = chosen_note(s, order_of(s), x, Some(c)).0->Some_0;
    a_note_in_reach_is_kept(s, iptc, Some(c), r, x, m);
    an_offered_note_is_carried_to_its_place(s, iptc, c, r, x);
}

proof fn lemma_graft(
    s: Seq<u8>,
    iptc: Option<Seq<u8>>,
    companion: Option<NoteView>,
    r: RebuiltView,
    x: IfdView,
)
    requires
        becomes(s, iptc, companion, r),
        sub_ifd(s, order_of(s), ifd0_of(s), 34665) == Some(x),
    ensures
        ({
            let graft = chosen_note(s, order_of(s), x, companion).1;
            &&& r.graft is Unreachable ==> own_note(s, x) is None && graft is Carried
            &&& !(r.graft is Unreachable) ==> r.graft == graft
            &&& r.dropped ==> own_note(s, x) is Some
        }),
{
    reveal(settled_plan);
    reveal(with_exif);
    reveal(with_gps);
}

/// A note that is offered goes into an output whose source has an Exif IFD in the same byte order
/// and no note of its own. It stands at the place it had where it came from, or the output says
/// that it cannot be reached there. In the other byte order it is refused for that.
pub proof fn an_offered_note_is_carried_to_its_place(
    s: Seq<u8>,
    iptc: Option<Seq<u8>>,
    c: NoteView,
    r: RebuiltView,
    x: IfdView,
)
    requires
        becomes(s, iptc, Some(c), r),
        sub_ifd(s, order_of(s), ifd0_of(s), 34665) == Some(x),
        find_tag(x.entries, 37500, 0) is None,
    ensures
        c.little_endian != order_of(s) ==> r.graft is ByteOrderDiffers,
        c.little_endian == order_of(s) ==> r.graft is Unreachable || r.graft == (
        MakerNoteGraft::Carried { bytes: c.bytes.len() as usize }),
        r.graft is Carried && c.bytes.len() > 4 ==> c.offset + c.bytes.len() <= r.tiff.len()
            && r.tiff.subrange(c.offset, c.offset + c.bytes.len()) == c.bytes && exists|at: int|
            leads_to(r.tiff, order_of(s), 8, 34665, at) && #[trigger] states_tag(
                r.tiff,
                order_of(s),
                at,
                37500,
                c.typ,
                c.count,
                c.bytes,
            ),
        !r.dropped,
{
    assert(own_note(s, x) is None);
    lemma_graft(s, iptc, Some(c), r, x);
    if r.graft is Carried && c.bytes.len() > 4 {
        let m = chosen_note(s, order_of(s), x, Some(c)).0->Some_0;
        let at = a_note_keeps_its_place(s, iptc, Some(c), r, x, m);
        assert(states_tag(r.tiff, order_of(s), at, 37500, c.typ, c.count, c.bytes));
    }
}

/// The note that is taken of a file for another is tag 37500 of its Exif IFD, with the place it
/// has there.
pub proof fn a_note_is_taken_as_it_stands(
    bytes: &[u8],
    r: Option<ForeignMakerNote>,
    b: Seq<u8>,
    le: bool,
    first: int,
    ifd0: IfdView,
    x: IfdView,
    e: EntryView,
)
    requires
        call_ensures(maker_note_from_bytes, (bytes,), r),
        located(bytes@) matches Some(o) && o.0 == b,
        opened(b) == Some((le, first)),
        ifd_of(b, le, first) == Ok::<IfdView, crate::portable::tiff::Fault>(ifd0),
        sub_ifd(b, le, ifd0, 34665) == Some(x),
        find_tag(x.entries, 37500, 0) == Some(e),
        is_readable(b, e),
    ensures
        bytes_at(b, e).len() > 0 ==> (r matches Some(n) && n@ == (NoteView {
            bytes: bytes_at(b, e),
            typ: e.typ,
            count: e.count,
            offset: e.value_off,
            little_endian: le,
        })),
        bytes_at(b, e).len() == 0 ==> r is None,
{
    a_value_is_the_bytes_at_its_place(b, e);
}

/// The Exif block of a JPEG is the one its segments hold.
pub proof fn a_jpegs_block_is_in_its_segments(s: Seq<u8>)
    requires
        s.len() >= 12,
    ensures
        s[0] == 0xff && s[1] == 0xd8 ==> match exif_of(s) {
            Some(b) => located(s) == Some((b, Origin::Jpeg)),
            None => located(s) is None,
        },
{
}

proof fn lemma_first_exif(items: Seq<ItemView>, i: int, k: int)
    requires
        0 <= i <= k < items.len(),
        items[k].kind == four('E', 'x', 'i', 'f'),
        forall|j: int| i <= j < k ==> (#[trigger] items[j]).kind != four('E', 'x', 'i', 'f'),
    ensures
        find_kind(items, 0x45786966, i) == Some(items[k]),
    decreases k - i,
{
    if i < k {
        lemma_first_exif(items, i + 1, k);
    }
}

/// The Exif block of a HEIF file is in its first `Exif` item, behind four bytes that say how many
/// more to pass over, and those.
pub proof fn a_heif_block_is_behind_what_it_skips(s: Seq<u8>, f: FileView, k: int, d: Seq<u8>)
    requires
        s.len() >= 12,
        s[4] == 0x66 && s[5] == 0x74 && s[6] == 0x79 && s[7] == 0x70,
        !(s[0] == 0x49 && s[1] == 0x49) && !(s[0] == 0x4d && s[1] == 0x4d),
        !(s[0] == 0xff && s[1] == 0xd8),
        file_of(s) == Ok::<FileView, crate::heif::Error>(f),
        0 <= k < f.items.len(),
        f.items[k].kind == four('E', 'x', 'i', 'f'),
        forall|j: int| 0 <= j < k ==> (#[trigger] f.items[j]).kind != four('E', 'x', 'i', 'f'),
        data_of(f, f.items[k].id) == Ok::<Seq<u8>, crate::heif::Error>(d),
        d.len() >= 4,
        4 + number32(false, d, 0) + 8 <= d.len(),
    ensures
        located(s) == Some((d.subrange(4 + number32(false, d, 0), d.len() as int), Origin::Heif)),
{
    words_are_the_numbers_their_bytes_make(false, d, 0);
    words_are_the_numbers_their_bytes_make(false, s, 4);
    lemma_first_exif(f.items, 0, k);
}

/// The IPTC block that is reported is the value of tag 33723 of the first IFD, or else the one
/// from outside the block, if there is anything in it.
pub proof fn the_iptc_block_is_the_stated_one(
    s: Seq<u8>,
    iptc: Option<Seq<u8>>,
    companion: Option<NoteView>,
    r: RebuiltView,
)
    requires
        becomes(s, iptc, companion, r),
    ensures
        find_tag(ifd0_of(s).entries, 33723, 0) matches Some(e) ==> is_readable(s, e) && bytes_at(
            s,
            e,
        ).len() > 0 ==> r.iptc == Some(bytes_at(s, e)),
        find_tag(ifd0_of(s).entries, 33723, 0) is None ==> r.iptc == if iptc is Some
            && iptc->Some_0.len() > 0 {
            iptc
        } else {
            None
        },
{
    if let Some(e) = find_tag(ifd0_of(s).entries, 33723, 0) {
        if is_readable(s, e) {
            a_value_is_the_bytes_at_its_place(s, e);
        }
    }
}

} // verus!
