//! What a rebuilt block says when it is read again.

use vstd::prelude::*;

use crate::bytes::group_encoded_lengths;
use crate::jpeg::{
    a_wrapped_block_reads_back, iptc_of, the_carrier_brings_nothing, the_carrier_stays_whole,
    wrapped, MAX_BLOCK,
};
use crate::portable::block::{
    a_block_reads_back, block_bytes, by_tag, entry_read, every_entry_is_written, first_with,
    ifd_at, ifd_read, lemma_block_len, lemma_ifd_starts, lemma_plan_region, plan_fits,
    sorting_keeps_the_first, states_its_value, states_its_values, written_at, PlanEntryView,
    ValueView,
};
use crate::portable::exif::again::{
    a_rebuilt_block_keeps_its_tags, a_rebuilt_block_stays, all_sorted, iptc_is_last, laid,
    lemma_carried_parts, lemma_exif_pointer_again, lemma_find_first, lemma_find_none, lemma_laid,
    lemma_last_again, lemma_note_again, lemma_note_parts, lemma_parts_behind, lemma_plan_kept, lemma_rebuilt_again,
    lemma_root_again, lemma_root_kept, parts_kept, Parts,
};
use crate::portable::exif::laws::{
    a_refusal_has_its_reason, a_refused_graft_changes_nothing, becomes, ifd0_of, is_carried,
    order_of,
};
use crate::portable::exif::{
    all_placed, begun, copied, lemma_found_is_placed, lemma_ifd_placed, located, note_in,
    note_is_whole, orientation_of, own_note, plan_of, planned, read_as, rebuilt, sub_ifd,
    thumbnail_of, LocatedView, MakerNoteGraft, NoteView, Origin, RebuiltView, Rule, SourceView,
    TAG_EXIF_IFD, TAG_MAKER_NOTE, TAG_ORIENTATION,
};
use crate::portable::tiff::{
    find_tag, first_integer, holds_integers, ifd_of, integer_at, integers_of, opened, size_of,
    value_of, EntryView, Fault, IfdView,
};

verus! {

broadcast use group_encoded_lengths;

/// A rebuilt block is located as a TIFF, and there is no IPTC beside it.
proof fn lemma_located_again(
    s: Seq<u8>,
    iptc: Option<Seq<u8>>,
    companion: Option<NoteView>,
    r: RebuiltView,
)
    requires
        becomes(s, iptc, companion, r),
    ensures
        located(r.tiff) == Some((r.tiff, Origin::Tiff)),
        iptc_of(r.tiff) is None,
        r.tiff.len() > 0,
{
    let q = lemma_parts_behind(s, iptc, companion, r);
    let le = order_of(s);
    let all = laid(q, le);
    lemma_laid(q, le);
    lemma_block_len(all, le);
    lemma_plan_region(all);
    lemma_ifd_starts(all, 1);
    assert(ifd_at(all, 0) == 8);
    assert(r.tiff[0] == 0x49 || r.tiff[0] == 0x4d);
}

/// Whether the first of the entries with `Orientation` is carried when any of them is.
///
/// It is in every IFD that states a tag once, as TIFF requires.
pub open spec fn orientation_is_carried(s: Seq<u8>, ifd: IfdView) -> bool {
    forall|j: int, k: int|
        0 <= j < k < ifd.entries.len() && (#[trigger] ifd.entries[j]).0 == TAG_ORIENTATION
            && is_carried(s, #[trigger] ifd.entries[k], Rule::Root) && ifd.entries[k].0
            == TAG_ORIENTATION ==> is_carried(s, ifd.entries[j], Rule::Root)
}

/// The first of the first `n` entries that is carried and has `Orientation`.
spec fn first_carried(s: Seq<u8>, entries: Seq<(u16, EntryView)>, n: int) -> Option<EntryView>
    decreases n,
{
    if n <= 0 {
        None
    } else {
        match first_carried(s, entries, n - 1) {
            Some(e) => Some(e),
            None => if entries[n - 1].0 == TAG_ORIENTATION && is_carried(
                s,
                entries[n - 1],
                Rule::Root,
            ) {
                Some(entries[n - 1].1)
            } else {
                None
            },
        }
    }
}

/// What a planned `Orientation` states.
spec fn planned_orientation(le: bool, entries: Seq<PlanEntryView>) -> u8 {
    match first_with(entries, TAG_ORIENTATION) {
        Some(e) => if holds_integers(e.typ) && e.count > 0 {
            let v = integer_at(e.value->Bytes_0, le, size_of(e.typ), 0);
            if 1 <= v <= 8 {
                v as u8
            } else {
                1
            }
        } else {
            1
        },
        None => 1,
    }
}

proof fn lemma_first_planned(s: Seq<u8>, entries: Seq<(u16, EntryView)>, n: int)
    requires
        0 <= n <= entries.len(),
    ensures
        first_with(planned(s, entries, Rule::Root, n), TAG_ORIENTATION) == match first_carried(
            s,
            entries,
            n,
        ) {
            Some(e) => Some(
                PlanEntryView {
                    tag: TAG_ORIENTATION,
                    typ: e.typ,
                    count: e.count,
                    value: ValueView::Bytes(value_of(s, e)->Ok_0),
                },
            ),
            None => None,
        },
        first_carried(s, entries, n) matches Some(e) ==> size_of(e.typ) > 0 && value_of(s, e) is Ok,
    decreases n,
{
    if n > 0 {
        lemma_first_planned(s, entries, n - 1);
        let before = planned(s, entries, Rule::Root, n - 1);
        let more = copied(s, entries[n - 1], Rule::Root);
        let after = planned(s, entries, Rule::Root, n);
        if more.len() > 0 {
            assert(after.drop_last() =~= before);
            assert(after.last() == more[0]);
        } else {
            assert(after =~= before);
        }
    }
}

proof fn lemma_first_carried(s: Seq<u8>, entries: Seq<(u16, EntryView)>, n: int, f: int)
    requires
        0 <= f < entries.len(),
        0 <= n <= entries.len(),
        entries[f].0 == TAG_ORIENTATION,
        forall|k: int| 0 <= k < f ==> (#[trigger] entries[k]).0 != TAG_ORIENTATION,
        !is_carried(s, entries[f], Rule::Root) ==> forall|k: int|
            0 <= k < entries.len() && (#[trigger] entries[k]).0 == TAG_ORIENTATION ==> !is_carried(
                s,
                entries[k],
                Rule::Root,
            ),
    ensures
        first_carried(s, entries, n) == if f < n && is_carried(s, entries[f], Rule::Root) {
            Some(entries[f].1)
        } else {
            None
        },
    decreases n,
{
    if n > 0 {
        lemma_first_carried(s, entries, n - 1, f);
    }
}

proof fn lemma_none_carried(s: Seq<u8>, entries: Seq<(u16, EntryView)>, n: int)
    requires
        0 <= n <= entries.len(),
        forall|k: int| 0 <= k < entries.len() ==> (#[trigger] entries[k]).0 != TAG_ORIENTATION,
    ensures
        first_carried(s, entries, n) is None,
    decreases n,
{
    if n > 0 {
        lemma_none_carried(s, entries, n - 1);
    }
}

/// The first integer of a value that is there is the first in its bytes, and a value that
/// is not there has none.
proof fn lemma_first_integer(s: Seq<u8>, le: bool, e: EntryView)
    requires
        0 <= e.value_off,
    ensures
        size_of(e.typ) > 0 && value_of(s, e) is Ok ==> first_integer(s, le, Some(e)) == if
            holds_integers(e.typ) && e.count > 0 {
            Some(integer_at(value_of(s, e)->Ok_0, le, size_of(e.typ), 0))
        } else {
            None
        },
        size_of(e.typ) == 0 || value_of(s, e) is Err ==> first_integer(s, le, Some(e)) is None,
{
    let size = size_of(e.typ);
    if holds_integers(e.typ) {
        let n = e.count * size;
        let room = s.len() - e.value_off;
        assert(n >= 0) by (nonlinear_arith)
            requires
                n == e.count * size,
                e.count >= 0,
                size > 0,
        ;
        if room >= 0 {
            assert(room / size < e.count <==> room < n) by (nonlinear_arith)
                requires
                    n == e.count * size,
                    size > 0,
                    room >= 0,
            ;
        }
        if value_of(s, e) is Ok && e.count > 0 {
            assert(n >= size) by (nonlinear_arith)
                requires
                    n == e.count * size,
                    e.count >= 1,
                    size > 0,
            ;
            let b = s.subrange(e.value_off, e.value_off + n);
            assert(forall|j: int| 0 <= j < n ==> #[trigger] b[j] == s[e.value_off + j]);
            assert(integers_of(s, le, e)->Ok_0[0] == integer_at(s, le, size, e.value_off));
            assert(integer_at(s, le, size, e.value_off) == integer_at(b, le, size, 0));
        }
    }
}

/// The orientation of a block is the one that is planned.
proof fn lemma_orientation(s: Seq<u8>, le: bool, ifd: IfdView)
    requires
        all_placed(ifd.entries),
        orientation_is_carried(s, ifd),
    ensures
        orientation_of(s, le, ifd) == planned_orientation(le, plan_of(s, ifd, Rule::Root)),
{
    let es = ifd.entries;
    let n = es.len() as int;
    lemma_first_planned(s, es, n);
    if exists|j: int| 0 <= j < n && (#[trigger] es[j]).0 == TAG_ORIENTATION {
        let j = choose|j: int| 0 <= j < n && (#[trigger] es[j]).0 == TAG_ORIENTATION;
        let f = lemma_find_first(es, TAG_ORIENTATION, 0, j);
        lemma_first_carried(s, es, n, f);
        lemma_first_integer(s, le, es[f].1);
    } else {
        lemma_find_none(es, TAG_ORIENTATION, 0);
        lemma_none_carried(s, es, n);
    }
}

/// An entry of another tag behind the others states no orientation.
proof fn lemma_planned_orientation(le: bool, entries: Seq<PlanEntryView>, e: PlanEntryView)
    requires
        e.tag != TAG_ORIENTATION,
    ensures
        planned_orientation(le, entries.push(e)) == planned_orientation(le, entries),
{
    assert(entries.push(e).drop_last() =~= entries);
}

/// Every `Orientation` that is written is carried when it is read.
proof fn lemma_written_is_carried(q: Parts, le: bool)
    requires
        plan_fits(laid(q, le)),
        states_its_values(laid(q, le)),
        parts_kept(q, le),
    ensures
        orientation_is_carried(block_bytes(laid(q, le), le), ifd_read(laid(q, le), 0)),
{
    let all = laid(q, le);
    let t = block_bytes(all, le);
    let reads = ifd_read(all, 0).entries;
    lemma_laid(q, le);
    a_block_reads_back(all, le);
    every_entry_is_written(all, 0);
    assert forall|j: int| 0 <= j < reads.len() && (#[trigger] reads[j]).0
        == TAG_ORIENTATION implies is_carried(t, reads[j], Rule::Root) by {
        let k = written_at(all, 0, j);
        assert(reads[j] == entry_read(all, 0, j));
        assert(0 <= k < all[0].entries.len());
        assert(all[0].entries[k].tag == TAG_ORIENTATION);
        assert(k < q.root.len());
        assert(all[0].entries[k] == q.root[k]);
        assert(states_its_value(all[0].entries[k]));
        assert(value_of(t, entry_read(all, 0, j).1) is Ok);
    }
}

/// What goes into the first IFD states the orientation of the source.
proof fn lemma_root_orientation(s: Seq<u8>, le: bool, ifd0: IfdView, iptc: Option<Seq<u8>>)
    requires
        all_placed(ifd0.entries),
        orientation_is_carried(s, ifd0),
    ensures
        orientation_of(s, le, ifd0) == planned_orientation(le, begun(s, ifd0, iptc).root),
{
    lemma_orientation(s, le, ifd0);
    let kept = plan_of(s, ifd0, Rule::Root);
    let root = begun(s, ifd0, iptc).root;
    if root.len() > kept.len() {
        assert(root =~= kept.push(root.last()));
        lemma_planned_orientation(le, kept, root.last());
    } else {
        assert(root =~= kept);
    }
}

/// The first IFD of a rebuilt block states the orientation that was reported of its source.
#[verifier::spinoff_prover]
proof fn lemma_orientation_again(
    s: Seq<u8>,
    iptc: Option<Seq<u8>>,
    companion: Option<NoteView>,
    r: RebuiltView,
    q: Parts,
)
    requires
        becomes(s, iptc, companion, r),
        parts_kept(q, order_of(s)),
        plan_fits(laid(q, order_of(s))),
        states_its_values(laid(q, order_of(s))),
        q.root == begun(s, ifd0_of(s), iptc).root,
        r.tiff == block_bytes(laid(q, order_of(s)), order_of(s)),
        ifd_of(r.tiff, order_of(s), 8) == Ok::<IfdView, Fault>(
            ifd_read(laid(q, order_of(s)), 0),
        ),
        orientation_is_carried(s, ifd0_of(s)),
    ensures
        orientation_of(r.tiff, order_of(s), ifd_read(laid(q, order_of(s)), 0)) == orientation_of(
            s,
            order_of(s),
            ifd0_of(s),
        ),
{
    let le = order_of(s);
    let ifd0 = ifd0_of(s);
    let x = ifd_read(laid(q, le), 0);
    assert(orientation_is_carried(r.tiff, x)) by {
        lemma_written_is_carried(q, le);
    }
    assert(all_placed(ifd0.entries)) by {
        lemma_ifd_placed(s, le, opened(s)->Some_0.1);
    }
    assert(all_placed(x.entries)) by {
        lemma_ifd_placed(r.tiff, le, 8);
    }
    assert(begun(r.tiff, x, None).root == by_tag(q.root)) by {
        lemma_root_again(q, le);
    }
    sorting_keeps_the_first(q.root, TAG_ORIENTATION);
    lemma_root_orientation(s, le, ifd0, iptc);
    lemma_root_orientation(r.tiff, le, x, None);
}

/// A rebuilt block states the orientation that was reported of its source, unless that has
/// an `Orientation` that cannot be read before one that can.
#[verifier::spinoff_prover]
pub proof fn a_rebuilt_block_keeps_its_orientation(
    s: Seq<u8>,
    iptc: Option<Seq<u8>>,
    companion: Option<NoteView>,
    r: RebuiltView,
)
    requires
        becomes(s, iptc, companion, r),
        orientation_is_carried(s, ifd0_of(s)),
    ensures
        rebuilt(r.tiff, None, None) matches Ok(Some(again)) && again.orientation == r.orientation,
{
    let q = lemma_parts_behind(s, iptc, companion, r);
    lemma_rebuilt_again(r, q, order_of(s));
    lemma_orientation_again(s, iptc, companion, r, q);
}

/// Whether a block that was read is the rebuilt block `r` of the source `s`: with as many
/// tags, none dropped, and the same orientation, and with the same bytes where that lists
/// its tags in order.
pub open spec fn reads_as(
    s: Seq<u8>,
    iptc: Option<Seq<u8>>,
    r: RebuiltView,
    again: RebuiltView,
) -> bool {
    &&& again.tag_count == r.tag_count
    &&& again.tiff.len() == r.tiff.len()
    &&& !again.dropped
    &&& again.graft is NotOffered
    &&& orientation_is_carried(s, ifd0_of(s)) ==> again.orientation == r.orientation
    &&& all_sorted(s, order_of(s), ifd0_of(s)) && iptc_is_last(s, ifd0_of(s), iptc) ==> again.tiff
        == r.tiff
}

/// A rebuilt block is read as what it is: fed back on its own, or in the JPEG that carries
/// it, it gives the same number of tags and nothing is dropped, and it gives the same bytes
/// where its source lists its tags in ascending order, as TIFF requires.
#[verifier::spinoff_prover]
pub proof fn a_rebuilt_block_reads_as_itself(
    s: Seq<u8>,
    iptc: Option<Seq<u8>>,
    companion: Option<NoteView>,
    r: RebuiltView,
)
    requires
        becomes(s, iptc, companion, r),
    ensures
        read_as(r.tiff, None) matches Ok(Some(b)) && b.origin == Origin::Tiff && reads_as(
            s,
            iptc,
            r,
            b.block,
        ),
        r.tiff.len() <= MAX_BLOCK ==> (read_as(wrapped(r.tiff), None) matches Ok(Some(b))
            && b.origin == Origin::Jpeg && reads_as(s, iptc, r, b.block)),
{
    a_rebuilt_block_keeps_its_tags(s, iptc, companion, r);
    if orientation_is_carried(s, ifd0_of(s)) {
        a_rebuilt_block_keeps_its_orientation(s, iptc, companion, r);
    }
    if all_sorted(s, order_of(s), ifd0_of(s)) && iptc_is_last(s, ifd0_of(s), iptc) {
        a_rebuilt_block_stays(s, iptc, companion, r);
    }
    lemma_located_again(s, iptc, companion, r);
    if r.tiff.len() <= MAX_BLOCK {
        let w = wrapped(r.tiff);
        a_wrapped_block_reads_back(r.tiff);
        the_carrier_stays_whole(r.tiff);
        the_carrier_brings_nothing(r.tiff);
        assert(w.subrange(0, 4)[0] == w[0] && w.subrange(0, 4)[1] == w[1]);
    }
}

/// A `MakerNote` that is found in a file is whole.
pub proof fn a_found_note_is_whole(s: Seq<u8>, c: NoteView)
    requires
        note_in(s) == LocatedView::Found(c),
    ensures
        note_is_whole(c),
        0 <= c.offset,
{
    let x = located(s)->Some_0.0;
    let t = opened(x)->Some_0;
    let ifd0 = ifd_of(x, t.0, t.1)->Ok_0;
    let off = first_integer(x, t.0, find_tag(ifd0.entries, TAG_EXIF_IFD, 0))->Some_0;
    let y = ifd_of(x, t.0, off as int)->Ok_0;
    lemma_ifd_placed(x, t.0, off as int);
    lemma_found_is_placed(y.entries, TAG_MAKER_NOTE, 0);
    let e = find_tag(y.entries, TAG_MAKER_NOTE, 0)->Some_0;
    assert(0 <= e.count * size_of(e.typ)) by (nonlinear_arith)
        requires
            size_of(e.typ) > 0,
            e.count >= 0,
    ;
}

/// A companion's `MakerNote` that is reported as carried is the one that is read from the
/// rebuilt block: the same bytes, type, count and byte order, and, unless it is small enough
/// to live inside its entry, the same offset.
#[verifier::spinoff_prover]
pub proof fn a_carried_note_comes_back(
    s: Seq<u8>,
    iptc: Option<Seq<u8>>,
    companion: NoteView,
    r: RebuiltView,
)
    requires
        becomes(s, iptc, Some(companion), r),
        r.graft is Carried,
    ensures
        r.graft == (MakerNoteGraft::Carried { bytes: companion.bytes.len() as usize }),
        note_in(r.tiff) matches LocatedView::Found(d) && {
            &&& d.bytes == companion.bytes
            &&& d.typ == companion.typ
            &&& d.count == companion.count
            &&& d.little_endian == companion.little_endian
            &&& companion.bytes.len() > 4 ==> d.offset == companion.offset
        },
{
    lemma_located_again(s, iptc, Some(companion), r);
    let q = lemma_parts_behind(s, iptc, Some(companion), r);
    let le = order_of(s);
    let ifd0 = ifd0_of(s);
    let all = laid(q, le);
    lemma_root_kept(s, ifd0, iptc);
    let x = lemma_carried_parts(s, iptc, companion, r, q);
    lemma_plan_kept(s, x, Rule::Exif);
    lemma_note_parts(s, le, x, Some(companion));
    lemma_exif_pointer_again(q, le);
    lemma_note_again(q, le);
}

/// Reading a file with a companion's `MakerNote` offered to it, when the offer is refused:
/// everything is as it is without the offer, and the reason is the one that holds.
pub proof fn a_refused_offer_reads_as_none(s: Seq<u8>, companion: NoteView, a: SourceView)
    requires
        read_as(s, Some(companion)) == Ok::<Option<SourceView>, Seq<char>>(Some(a)),
        !(a.block.graft is Carried),
    ensures
        read_as(s, None) == Ok::<Option<SourceView>, Seq<char>>(
            Some(
                SourceView {
                    block: RebuiltView { graft: MakerNoteGraft::NotOffered, ..a.block },
                    origin: a.origin,
                },
            ),
        ),
        ({
            let x = located(s)->Some_0.0;
            a.block.graft == match sub_ifd(x, order_of(x), ifd0_of(x), TAG_EXIF_IFD) {
                None => MakerNoteGraft::NoExifIfd,
                Some(y) => if own_note(x, y) is Some {
                    MakerNoteGraft::HostHasOwn
                } else if companion.little_endian != order_of(x) {
                    MakerNoteGraft::ByteOrderDiffers
                } else {
                    MakerNoteGraft::Unreachable
                },
            }
        }),
{
    let x = located(s)->Some_0.0;
    a_refused_graft_changes_nothing(x, iptc_of(s), companion, a.block);
    a_refusal_has_its_reason(x, iptc_of(s), companion, a.block);
}

/// A thumbnail that an IFD names is found.
proof fn lemma_thumbnail_found(
    s: Seq<u8>,
    le: bool,
    first: int,
    ifd0: IfdView,
    x: IfdView,
    off: u32,
    len: u32,
)
    requires
        ifd0.next != 0,
        ifd0.next != first,
        ifd_of(s, le, ifd0.next) == Ok::<IfdView, Fault>(x),
        first_integer(s, le, find_tag(x.entries, 513, 0)) == Some(off),
        first_integer(s, le, find_tag(x.entries, 514, 0)) == Some(len),
        len > 0,
        off + len <= s.len(),
    ensures
        thumbnail_of(s, le, first, ifd0) matches Some(t) && t.len() >= 2 && t[t.len() - 2].value
            == ValueView::DataOffset(s.subrange(off as int, off + len)),
{
    reveal(thumbnail_of);
}

/// A thumbnail that is found is one that an IFD names.
proof fn lemma_thumbnail_named(
    s: Seq<u8>,
    le: bool,
    first: int,
    ifd0: IfdView,
    t: Seq<PlanEntryView>,
    data: Seq<u8>,
)
    requires
        thumbnail_of(s, le, first, ifd0) == Some(t),
        t.len() >= 2,
        t[t.len() - 2].value == ValueView::DataOffset(data),
    ensures
        ifd0.next != 0,
        ifd_of(s, le, ifd0.next) matches Ok(y) && first_integer(s, le, find_tag(y.entries, 513, 0))
            matches Some(at) && first_integer(s, le, find_tag(y.entries, 514, 0)) == Some(
            data.len() as u32,
        ) && at + data.len() <= s.len() && s.subrange(at as int, at + data.len()) == data,
{
    reveal(thumbnail_of);
}

/// The thumbnail of a source is in the output: the second IFD there names a run of bytes
/// that are the thumbnail's, by tags 513 and 514 as the source's did.
#[verifier::spinoff_prover]
#[verifier::rlimit(40)]
pub proof fn a_thumbnail_is_in_the_output(
    s: Seq<u8>,
    iptc: Option<Seq<u8>>,
    companion: Option<NoteView>,
    r: RebuiltView,
    x: IfdView,
    off: u32,
    len: u32,
)
    requires
        becomes(s, iptc, companion, r),
        ifd0_of(s).next != 0,
        ifd0_of(s).next != opened(s)->Some_0.1,
        ifd_of(s, order_of(s), ifd0_of(s).next) == Ok::<IfdView, Fault>(x),
        first_integer(s, order_of(s), find_tag(x.entries, 513, 0)) == Some(off),
        first_integer(s, order_of(s), find_tag(x.entries, 514, 0)) == Some(len),
        len > 0,
        off + len <= s.len(),
    ensures
        ({
            let le = order_of(s);
            let first = ifd_of(r.tiff, le, 8)->Ok_0;
            &&& first.next != 0
            &&& ifd_of(r.tiff, le, first.next) matches Ok(y) && first_integer(
                r.tiff,
                le,
                find_tag(y.entries, 513, 0),
            ) matches Some(at) && first_integer(r.tiff, le, find_tag(y.entries, 514, 0)) == Some(len)
                && at + len <= r.tiff.len() && r.tiff.subrange(at as int, at + len) == s.subrange(
                off as int,
                off + len,
            )
        }),
{
    let le = order_of(s);
    let first = opened(s)->Some_0.1;
    let ifd0 = ifd0_of(s);
    let data = s.subrange(off as int, off + len);
    let q = lemma_parts_behind(s, iptc, companion, r);
    lemma_thumbnail_found(s, le, first, ifd0, x, off, len);
    assert(q.thumbnail is Some && q.thumbnail->Some_0.1 == data);
    lemma_last_again(q, le);
    let got = thumbnail_of(r.tiff, le, 8, ifd_read(laid(q, le), 0))->Some_0;
    lemma_thumbnail_named(r.tiff, le, 8, ifd_read(laid(q, le), 0), got, data);
}

} // verus!
