//! What is carried of a source's Exif: the camera, the lens, the exposure, the date and
//! whatever else its IFDs state, tag by tag.

use vstd::prelude::*;

use crate::jpeg::iptc_of;
use crate::laws::tiff::{a_value_is_the_bytes_at_its_place, element_bytes};
use crate::portable::exif::laws::{
    a_block_with_a_tag_is_not_passed_over, becomes, dropped_tags_stay_out, exif_tags_are_carried,
    gps_tags_are_carried, ifd0_of, ifd0_tags_are_carried, interop_tags_are_carried, leads_to,
    order_of, states_tag,
};
use crate::portable::exif::{
    is_dropped, located, note_is_whole, opt_note, read_as, read_bytes, read_bytes_with_maker_note,
    reads_to, rebuilt, sub_ifd, ForeignMakerNote, NoteView, Origin, RebuiltView, SourceExif,
    SourceView,
};
use crate::portable::tiff::{find_tag, first_integer, ifd_of, opened, EntryView, IfdView};
use crate::portable::Error;

verus! {

/// The tags that do not go from a source's first IFD into the output's: where its pixels
/// are, how they are stored, what travels in a part of its own, and the two pointers, which
/// are written anew.
pub open spec fn stays_out_of_ifd0(tag: int) -> bool {
    ||| tag == 273 || tag == 279 || tag == 288 || tag == 289 || tag == 324 || tag == 325
    ||| tag == 330 || tag == 513 || tag == 514 || tag == 519 || tag == 520 || tag == 521
    ||| tag == 559 || tag == 50740
    ||| tag == 254 || tag == 255 || tag == 258 || tag == 259 || tag == 262 || tag == 263
    ||| tag == 264 || tag == 265 || tag == 266 || tag == 277 || tag == 278 || tag == 284
    ||| tag == 290 || tag == 291 || tag == 292 || tag == 293 || tag == 301 || tag == 317
    ||| tag == 320 || tag == 322 || tag == 323 || tag == 332 || tag == 333 || tag == 334
    ||| tag == 336 || tag == 337 || tag == 338 || tag == 339 || tag == 340 || tag == 341
    ||| tag == 342 || tag == 512 || tag == 515 || tag == 517 || tag == 518 || tag == 532
    ||| tag == 50706 || tag == 50707
    ||| tag == 700 || tag == 34675
    ||| tag == 34665 || tag == 34853
}

/// Whether an entry's value can be read: its type is one whose elements have a known length,
/// and the file reaches to the last of them.
pub open spec fn is_readable(s: Seq<u8>, e: EntryView) -> bool {
    element_bytes(e.typ as int) > 0 && e.value_off + e.count * element_bytes(e.typ as int)
        <= s.len()
}

/// The bytes of a value that can be read.
pub open spec fn bytes_at(s: Seq<u8>, e: EntryView) -> Seq<u8> {
    s.subrange(e.value_off, e.value_off + e.count * element_bytes(e.typ as int))
}

/// The tags that are said to be dropped are those that stay out, but for the two pointers.
pub proof fn the_dropped_tags_are_those_that_stay_out(tag: u16, b: bool)
    requires
        call_ensures(is_dropped, (tag,), b),
    ensures
        b <==> stays_out_of_ifd0(tag as int) && tag != 34665 && tag != 34853,
{
}

/// Every entry of the source's first IFD that can be read and whose tag does not stay out is
/// in the output's, with its type, its count and its bytes.
pub proof fn ifd0_entries_are_in_the_output(
    s: Seq<u8>,
    iptc: Option<Seq<u8>>,
    companion: Option<NoteView>,
    r: RebuiltView,
    k: int,
)
    requires
        becomes(s, iptc, companion, r),
        0 <= k < ifd0_of(s).entries.len(),
        is_readable(s, ifd0_of(s).entries[k].1),
        !stays_out_of_ifd0(ifd0_of(s).entries[k].0 as int),
    ensures
        ({
            let (tag, e) = ifd0_of(s).entries[k];
            states_tag(r.tiff, order_of(s), 8, tag, e.typ, e.count, bytes_at(s, e))
        }),
{
    a_value_is_the_bytes_at_its_place(s, ifd0_of(s).entries[k].1);
    ifd0_tags_are_carried(s, iptc, companion, r, k);
}

/// No tag that stays out is in the output's first IFD, but for the pointers to the Exif and
/// the GPS IFD that the output has.
pub proof fn what_stays_out_is_not_in_the_output(
    s: Seq<u8>,
    iptc: Option<Seq<u8>>,
    companion: Option<NoteView>,
    r: RebuiltView,
    j: int,
)
    requires
        becomes(s, iptc, companion, r),
        0 <= j < ifd_of(r.tiff, order_of(s), 8)->Ok_0.entries.len(),
    ensures
        ({
            let tag = ifd_of(r.tiff, order_of(s), 8)->Ok_0.entries[j].0;
            stays_out_of_ifd0(tag as int) ==> tag == 34665 || tag == 34853
        }),
{
    dropped_tags_stay_out(s, iptc, companion, r, j);
}

/// Every entry of the source's Exif IFD that can be read, but for the `MakerNote` (37500) and
/// the pointer to the interoperability IFD (40965), is in the output's Exif IFD, with its
/// type, its count and its bytes: exposure time, aperture, sensitivity, date, lens, and any
/// other, known or not.
pub proof fn exif_entries_are_in_the_output(
    s: Seq<u8>,
    iptc: Option<Seq<u8>>,
    companion: Option<NoteView>,
    r: RebuiltView,
    x: IfdView,
    k: int,
) -> (at: int)
    requires
        becomes(s, iptc, companion, r),
        sub_ifd(s, order_of(s), ifd0_of(s), 34665) == Some(x),
        0 <= k < x.entries.len(),
        is_readable(s, x.entries[k].1),
        x.entries[k].0 != 37500,
        x.entries[k].0 != 40965,
    ensures
        leads_to(r.tiff, order_of(s), 8, 34665, at),
        ({
            let (tag, e) = x.entries[k];
            states_tag(r.tiff, order_of(s), at, tag, e.typ, e.count, bytes_at(s, e))
        }),
{
    a_value_is_the_bytes_at_its_place(s, x.entries[k].1);
    exif_tags_are_carried(s, iptc, companion, r, x, k)
}

/// Every entry of the source's GPS IFD that can be read is in the output's.
pub proof fn gps_entries_are_in_the_output(
    s: Seq<u8>,
    iptc: Option<Seq<u8>>,
    companion: Option<NoteView>,
    r: RebuiltView,
    x: IfdView,
    k: int,
) -> (at: int)
    requires
        becomes(s, iptc, companion, r),
        sub_ifd(s, order_of(s), ifd0_of(s), 34853) == Some(x),
        0 <= k < x.entries.len(),
        is_readable(s, x.entries[k].1),
    ensures
        leads_to(r.tiff, order_of(s), 8, 34853, at),
        ({
            let (tag, e) = x.entries[k];
            states_tag(r.tiff, order_of(s), at, tag, e.typ, e.count, bytes_at(s, e))
        }),
{
    a_value_is_the_bytes_at_its_place(s, x.entries[k].1);
    gps_tags_are_carried(s, iptc, companion, r, x, k)
}

/// Every entry of the source's interoperability IFD that can be read is in the output's,
/// which its Exif IFD leads to.
pub proof fn interop_entries_are_in_the_output(
    s: Seq<u8>,
    iptc: Option<Seq<u8>>,
    companion: Option<NoteView>,
    r: RebuiltView,
    x: IfdView,
    y: IfdView,
    k: int,
) -> (found: (int, int))
    requires
        becomes(s, iptc, companion, r),
        sub_ifd(s, order_of(s), ifd0_of(s), 34665) == Some(x),
        sub_ifd(s, order_of(s), x, 40965) == Some(y),
        0 <= k < y.entries.len(),
        is_readable(s, y.entries[k].1),
    ensures
        leads_to(r.tiff, order_of(s), 8, 34665, found.0),
        leads_to(r.tiff, order_of(s), found.0, 40965, found.1),
        ({
            let (tag, e) = y.entries[k];
            states_tag(r.tiff, order_of(s), found.1, tag, e.typ, e.count, bytes_at(s, e))
        }),
{
    a_value_is_the_bytes_at_its_place(s, y.entries[k].1);
    interop_tags_are_carried(s, iptc, companion, r, x, y, k)
}

/// An IFD that another points at is the one at the place that the pointer states.
pub proof fn a_pointer_is_followed(s: Seq<u8>, le: bool, ifd: IfdView, tag: u16)
    ensures
        sub_ifd(s, le, ifd, tag) == match first_integer(s, le, find_tag(ifd.entries, tag, 0)) {
            Some(at) => match ifd_of(s, le, at as int) {
                Ok(x) => Some(x),
                Err(_) => None,
            },
            None => None,
        },
{
}

/// The orientation that is reported is the one that tag 274 of the first IFD states, where
/// that is one of the eight there are, and upright otherwise.
pub proof fn the_orientation_is_the_stated_one(
    s: Seq<u8>,
    iptc: Option<Seq<u8>>,
    companion: Option<NoteView>,
    r: RebuiltView,
)
    requires
        becomes(s, iptc, companion, r),
    ensures
        1 <= r.orientation <= 8,
        match first_integer(s, order_of(s), find_tag(ifd0_of(s).entries, 274, 0)) {
            Some(v) => r.orientation == v || (r.orientation == 1 && !(1 <= v <= 8)),
            None => r.orientation == 1,
        },
{
}

/// A source with an entry to carry in its first IFD has an Exif block in the output, unless
/// that is too large to be written: it is never passed over.
pub proof fn a_source_with_an_entry_has_a_block(
    s: Seq<u8>,
    iptc: Option<Seq<u8>>,
    companion: Option<NoteView>,
    k: int,
)
    requires
        opened(s) is Some,
        ifd_of(s, order_of(s), opened(s)->Some_0.1) is Ok,
        companion matches Some(c) ==> note_is_whole(c),
        0 <= k < ifd0_of(s).entries.len(),
        is_readable(s, ifd0_of(s).entries[k].1),
        !stays_out_of_ifd0(ifd0_of(s).entries[k].0 as int),
    ensures
        !(rebuilt(s, iptc, companion) == Ok::<Option<RebuiltView>, Seq<char>>(None)),
{
    a_value_is_the_bytes_at_its_place(s, ifd0_of(s).entries[k].1);
    a_block_with_a_tag_is_not_passed_over(s, iptc, companion, k);
}

/// What a source is reported with, field by field.
pub open spec fn reported(x: SourceExif) -> RebuiltView {
    RebuiltView {
        tiff: x.tiff@,
        tag_count: x.tag_count as int,
        iptc: match x.iptc {
            Some(b) => Some(b@),
            None => None,
        },
        orientation: x.orientation,
        dropped: x.dropped_maker_note,
        graft: x.maker_note_graft,
    }
}

/// What is reported of a source is what its block becomes.
#[verifier::rlimit(40)]
pub proof fn a_source_is_reported_as_its_block_becomes(
    s: Seq<u8>,
    companion: Option<NoteView>,
    x: SourceExif,
)
    requires
        reads_to(Ok(Some(x)), read_as(s, companion)),
    ensures
        located(s) is Some,
        x.origin == located(s)->Some_0.1,
        rebuilt(located(s)->Some_0.0, iptc_of(s), companion) == Ok::<
            Option<RebuiltView>,
            Seq<char>,
        >(Some(reported(x))),
{
    let b = located(s)->Some_0.0;
    let made = rebuilt(b, iptc_of(s), companion);
    assert(read_as(s, companion) == match made {
        Err(e) => Err(e),
        Ok(None) => Ok(None),
        Ok(Some(block)) => Ok(Some(SourceView { block, origin: located(s)->Some_0.1 })),
    });
}

/// A file that starts as a TIFF does is taken for one, whatever its length from twelve bytes on.
pub proof fn a_tiff_source_is_located(s: Seq<u8>)
    requires
        s.len() >= 12,
        (s[0] == 73 && s[1] == 73) || (s[0] == 77 && s[1] == 77),
    ensures
        located(s) == Some((s, Origin::Tiff)),
{
}

/// What is read of a file is what becomes of its block, with the note that is offered, or
/// nothing where there is no block or nothing in it.
pub proof fn what_is_read_is_what_becomes_of_the_block(
    bytes: &[u8],
    companion: Option<&ForeignMakerNote>,
    r: Result<Option<SourceExif>, Error>,
)
    requires
        call_ensures(read_bytes_with_maker_note, (bytes, companion), r),
    ensures
        match r {
            Ok(Some(x)) => located(bytes@) is Some && x.origin == located(bytes@)->Some_0.1
                && rebuilt(
                located(bytes@)->Some_0.0,
                iptc_of(bytes@),
                opt_note(companion),
            ) == Ok::<Option<RebuiltView>, Seq<char>>(Some(reported(x))),
            Ok(None) => located(bytes@) matches Some(o) ==> rebuilt(
                o.0,
                iptc_of(bytes@),
                opt_note(companion),
            ) == Ok::<Option<RebuiltView>, Seq<char>>(None),
            Err(_) => located(bytes@) matches Some(o) && rebuilt(
                o.0,
                iptc_of(bytes@),
                opt_note(companion),
            ) is Err,
        },
{
    if let Ok(Some(x)) = r {
        a_source_is_reported_as_its_block_becomes(bytes@, opt_note(companion), x);
    }
}

/// With no note offered, a file reads as it does alone.
pub proof fn reading_without_an_offer_is_reading(
    bytes: &[u8],
    r: Result<Option<SourceExif>, Error>,
)
    requires
        call_ensures(read_bytes, (bytes,), r),
    ensures
        match r {
            Ok(Some(x)) => located(bytes@) is Some && x.origin == located(bytes@)->Some_0.1
                && rebuilt(located(bytes@)->Some_0.0, iptc_of(bytes@), None) == Ok::<
                Option<RebuiltView>,
                Seq<char>,
            >(Some(reported(x))),
            Ok(None) => located(bytes@) matches Some(o) ==> rebuilt(o.0, iptc_of(bytes@), None)
                == Ok::<Option<RebuiltView>, Seq<char>>(None),
            Err(_) => located(bytes@) matches Some(o) && rebuilt(
                o.0,
                iptc_of(bytes@),
                None,
            ) is Err,
        },
{
    if let Ok(Some(x)) = r {
        a_source_is_reported_as_its_block_becomes(bytes@, None, x);
    }
}

} // verus!
