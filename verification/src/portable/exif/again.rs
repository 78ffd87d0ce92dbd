//! What rebuilding a rebuilt block keeps: its tags always, and its bytes where the source
//! lists its tags in order.

pub mod reread;

use vstd::prelude::*;

use crate::bytes::{group_encoded_lengths, lemma_word32_read_back, word32_bytes};
use crate::portable::block::{
    a_block_reads_back, a_front_is_sorted_alone, block_bytes, by_tag, entry_pin, entry_read,
    entry_values, every_entry_is_written, front_ascends, ifd_at, ifd_read, ifd_values, is_written,
    lemma_block_len, lemma_ifd_starts, lemma_plan_region, lemma_tag_order_within,
    lemma_values_start, pin_of, placement, plan_fits, pointed_at_data_is_there, sizes_fit, slot,
    sorted_entries_stay, sorting_keeps_the_entries, states_its_value, states_its_values, tag_order,
    those_below, value_read, written_at, PlanEntryView, PlannedView, ValueView,
};
use crate::portable::exif::laws::{becomes, ifd0_of, is_carried, order_of};
use crate::portable::exif::{
    begun, chosen_note, completed, copied, drafted, keeps, lemma_ifd_placed, lemma_settled_plan,
    orientation_of, own_note, pin_reaches, plain_ifd, plan_of, planned, pointer_to, rebuilt,
    settled_plan, stated, stated_entries, sub_ifd, thumbnail_of, with_exif, with_gps, DraftView,
    MakerNoteGraft, NoteView, RebuiltView, Rule, Settled, TAG_EXIF_IFD, TAG_GPS_IFD,
    TAG_INTEROP_IFD, TAG_IPTC, TAG_MAKER_NOTE, TAG_THUMBNAIL_LENGTH, TAG_THUMBNAIL_OFFSET,
};
use crate::portable::tiff::{
    find_tag, first_integer, ifd_of, integer_at, integers_of, is_inline, opened, size_of, value_of,
    EntryView, Fault, IfdView,
};

verus! {

broadcast use group_encoded_lengths;

/// Whether the first `c` entries are copies that a rule keeps, and no later one is.
spec fn front_is_kept(entries: Seq<PlanEntryView>, rule: Rule, c: int) -> bool {
    &&& 0 <= c <= entries.len()
    &&& forall|k: int|
        0 <= k < c ==> keeps(rule, (#[trigger] entries[k]).tag) && entries[k].value is Bytes
    &&& forall|k: int| c <= k < entries.len() ==> !keeps(rule, (#[trigger] entries[k]).tag)
}

/// The entries at some positions.
spec fn at_positions(entries: Seq<PlanEntryView>, order: Seq<int>) -> Seq<PlanEntryView> {
    Seq::new(order.len(), |j: int| entries[order[j]])
}

proof fn lemma_replanned(
    ifds: Seq<PlannedView>,
    le: bool,
    i: int,
    rule: Rule,
    c: int,
    n: int,
)
    requires
        plan_fits(ifds),
        states_its_values(ifds),
        0 <= i < ifds.len(),
        front_is_kept(ifds[i].entries, rule, c),
        0 <= n <= ifds[i].entries.len(),
    ensures
        planned(block_bytes(ifds, le), ifd_read(ifds, i).entries, rule, n) == at_positions(
            ifds[i].entries,
            those_below(
                tag_order(ifds[i].entries, ifds[i].entries.len() as int),
                c,
                n,
            ),
        ),
    decreases n,
{
    let t = block_bytes(ifds, le);
    let es = ifds[i].entries;
    let order = tag_order(es, es.len() as int);
    let reads = ifd_read(ifds, i).entries;
    if n > 0 {
        lemma_replanned(ifds, le, i, rule, c, n - 1);
        a_block_reads_back(ifds, le);
        every_entry_is_written(ifds, i);
        let k = written_at(ifds, i, n - 1);
        assert(k == order[n - 1]);
        assert(reads[n - 1] == entry_read(ifds, i, n - 1));
        assert(states_its_value(es[k]));
        assert(value_of(t, entry_read(ifds, i, n - 1).1) == Ok::<Seq<u8>, Fault>(
            value_read(ifds, le, i, n - 1),
        ));
        let before = those_below(order, c, n - 1);
        if k < c {
            assert(copied(t, reads[n - 1], rule) =~= seq![es[k]]);
            assert(at_positions(es, before.push(k)) =~= at_positions(es, before) + seq![es[k]]);
        } else {
            assert(copied(t, reads[n - 1], rule) =~= seq![]);
        }
    } else {
        assert(at_positions(es, those_below(order, c, n)) =~= seq![]);
    }
    assert(planned(t, reads, rule, n) =~= at_positions(es, those_below(order, c, n)));
}

/// What is copied of a written IFD is what was copied into it, by ascending tag.
proof fn lemma_plan_again(ifds: Seq<PlannedView>, le: bool, i: int, rule: Rule, c: int)
    requires
        plan_fits(ifds),
        states_its_values(ifds),
        0 <= i < ifds.len(),
        front_is_kept(ifds[i].entries, rule, c),
    ensures
        plan_of(block_bytes(ifds, le), ifd_read(ifds, i), rule) == by_tag(ifds[i].entries.take(c)),
{
    let es = ifds[i].entries;
    let n = es.len() as int;
    let front = es.take(c);
    lemma_replanned(ifds, le, i, rule, c, n);
    a_front_is_sorted_alone(es, c, n);
    let order = tag_order(front, c);
    lemma_tag_order_within(front, c);
    assert(at_positions(es, order) =~= by_tag(front));
}

proof fn lemma_find_first(entries: Seq<(u16, EntryView)>, tag: u16, from: int, j: int) -> (f: int)
    requires
        0 <= from <= j < entries.len(),
        entries[j].0 == tag,
    ensures
        from <= f < entries.len(),
        entries[f].0 == tag,
        find_tag(entries, tag, from) == Some(entries[f].1),
        forall|k: int| from <= k < f ==> (#[trigger] entries[k]).0 != tag,
    decreases j - from,
{
    if entries[from].0 == tag {
        from
    } else {
        lemma_find_first(entries, tag, from + 1, j)
    }
}

proof fn lemma_find_none(entries: Seq<(u16, EntryView)>, tag: u16, from: int)
    requires
        0 <= from,
        forall|j: int| 0 <= j < entries.len() ==> (#[trigger] entries[j]).0 != tag,
    ensures
        find_tag(entries, tag, from) is None,
    decreases entries.len() - from,
{
    if from < entries.len() {
        lemma_find_none(entries, tag, from + 1);
    }
}

/// Whether entry `k` is the only one with its tag.
spec fn only_one(entries: Seq<PlanEntryView>, tag: u16, k: int) -> bool {
    &&& 0 <= k < entries.len()
    &&& forall|j: int| 0 <= j < entries.len() ==> ((#[trigger] entries[j]).tag == tag <==> j == k)
}

/// A tag that one entry has is found in it.
proof fn lemma_found_again(ifds: Seq<PlannedView>, le: bool, i: int, tag: u16, k: int) -> (j: int)
    requires
        plan_fits(ifds),
        states_its_values(ifds),
        0 <= i < ifds.len(),
        only_one(ifds[i].entries, tag, k),
    ensures
        0 <= j < ifds[i].entries.len(),
        written_at(ifds, i, j) == k,
        find_tag(ifd_read(ifds, i).entries, tag, 0) == Some(entry_read(ifds, i, j).1),
        value_of(block_bytes(ifds, le), entry_read(ifds, i, j).1) == Ok::<Seq<u8>, Fault>(
            value_read(ifds, le, i, j),
        ),
{
    let reads = ifd_read(ifds, i).entries;
    a_block_reads_back(ifds, le);
    every_entry_is_written(ifds, i);
    assert(is_written(ifds, i, k));
    let w = choose|j: int|
        0 <= j < ifds[i].entries.len() && #[trigger] written_at(ifds, i, j) == k;
    assert(ifds[i].entries[k].tag == tag);
    assert(reads[w] == entry_read(ifds, i, w));
    let f = lemma_find_first(reads, tag, 0, w);
    assert(reads[f] == entry_read(ifds, i, f));
    assert(0 <= written_at(ifds, i, f) < ifds[i].entries.len());
    assert(ifds[i].entries[written_at(ifds, i, f)].tag == tag);
    assert(value_of(block_bytes(ifds, le), entry_read(ifds, i, f).1) is Ok);
    f
}

/// A tag that no entry has is not found.
proof fn lemma_absent_again(ifds: Seq<PlannedView>, i: int, tag: u16)
    requires
        0 <= i < ifds.len(),
        forall|j: int| 0 <= j < ifds[i].entries.len() ==> (#[trigger] ifds[i].entries[j]).tag != tag,
    ensures
        find_tag(ifd_read(ifds, i).entries, tag, 0) is None,
{
    let reads = ifd_read(ifds, i).entries;
    every_entry_is_written(ifds, i);
    assert forall|j: int| 0 <= j < reads.len() implies (#[trigger] reads[j]).0 != tag by {
        assert(0 <= written_at(ifds, i, j) < ifds[i].entries.len());
        assert(ifds[i].entries[written_at(ifds, i, j)].tag != tag);
    }
    lemma_find_none(reads, tag, 0);
}

/// Four bytes that a LONG stores are its first integer.
proof fn lemma_long_again(ifds: Seq<PlannedView>, le: bool, i: int, tag: u16, k: int, v: u32)
    requires
        plan_fits(ifds),
        states_its_values(ifds),
        0 <= i < ifds.len(),
        only_one(ifds[i].entries, tag, k),
        ifds[i].entries[k].typ == 4,
        ifds[i].entries[k].count == 1,
        !(ifds[i].entries[k].value is Bytes),
        !(ifds[i].entries[k].value is Pinned),
        slot(ifds, le, i, k) == word32_bytes(le, v),
    ensures
        first_integer(
            block_bytes(ifds, le),
            le,
            find_tag(ifd_read(ifds, i).entries, tag, 0),
        ) == Some(v),
{
    let t = block_bytes(ifds, le);
    let j = lemma_found_again(ifds, le, i, tag, k);
    let e = entry_read(ifds, i, j).1;
    assert(value_read(ifds, le, i, j) == word32_bytes(le, v));
    assert(t.subrange(e.value_off, e.value_off + 4) == word32_bytes(le, v));
    assert(0 <= e.value_off) by {
        assert(is_inline(4, 1));
        lemma_plan_region(ifds);
        lemma_ifd_starts(ifds, i);
    }
    lemma_word32_read_back(le, v, t, e.value_off);
    assert(integers_of(t, le, e) is Ok);
    assert(integers_of(t, le, e)->Ok_0[0] == integer_at(t, le, 4, e.value_off + 0 * 4));
}

/// A pointer that one entry has leads to the IFD it was written for.
proof fn lemma_pointer_again(ifds: Seq<PlannedView>, le: bool, i: int, tag: u16, k: int, x: int)
    requires
        plan_fits(ifds),
        states_its_values(ifds),
        0 <= i < ifds.len(),
        0 <= x < ifds.len(),
        only_one(ifds[i].entries, tag, k),
        ifds[i].entries[k] == pointer_to(tag, x),
    ensures
        sub_ifd(block_bytes(ifds, le), le, ifd_read(ifds, i), tag) == Some(ifd_read(ifds, x)),
{
    lemma_long_again(ifds, le, i, tag, k, ifd_at(ifds, x) as u32);
    a_block_reads_back(ifds, le);
    lemma_plan_region(ifds);
    lemma_ifd_starts(ifds, x);
    assert(ifd_of(block_bytes(ifds, le), le, ifd_at(ifds, x)) == Ok::<IfdView, Fault>(
        ifd_read(ifds, x),
    ));
}

/// What a rebuilt block is made of.
struct Parts {
    root: Seq<PlanEntryView>,
    interop: Seq<PlanEntryView>,
    exif: Seq<PlanEntryView>,
    note: Option<PlanEntryView>,
    gps: Seq<PlanEntryView>,
    /// What is copied of `IFD1`, and the thumbnail.
    thumbnail: Option<(Seq<PlanEntryView>, Seq<u8>)>,
}

spec fn has_exif(p: Parts) -> bool {
    p.interop.len() > 0 || p.exif.len() > 0 || p.note is Some
}

/// Where the Exif IFD is in the list.
spec fn exif_place(p: Parts) -> int {
    if p.interop.len() > 0 {
        2
    } else {
        1
    }
}

/// Where the GPS IFD is.
spec fn gps_place(p: Parts) -> int {
    if has_exif(p) {
        exif_place(p) + 1
    } else {
        1
    }
}

/// Where `IFD1` is.
spec fn thumbnail_place(p: Parts) -> int {
    if p.gps.len() > 0 {
        gps_place(p) + 1
    } else {
        gps_place(p)
    }
}

spec fn perhaps<A>(b: bool, x: A) -> Seq<A> {
    if b {
        seq![x]
    } else {
        seq![]
    }
}

spec fn exif_entries(p: Parts) -> Seq<PlanEntryView> {
    let some = p.exif + perhaps(p.interop.len() > 0, pointer_to(TAG_INTEROP_IFD, 1));
    match p.note {
        Some(m) => some.push(m),
        None => some,
    }
}

spec fn root_entries(p: Parts) -> Seq<PlanEntryView> {
    p.root + perhaps(has_exif(p), pointer_to(TAG_EXIF_IFD, exif_place(p))) + perhaps(
        p.gps.len() > 0,
        pointer_to(TAG_GPS_IFD, gps_place(p)),
    )
}

spec fn thumbnail_entries(le: bool, kept: Seq<PlanEntryView>, b: Seq<u8>) -> Seq<PlanEntryView> {
    kept + seq![
        PlanEntryView {
            tag: TAG_THUMBNAIL_OFFSET,
            typ: 4,
            count: 1,
            value: ValueView::DataOffset(b),
        },
        PlanEntryView {
            tag: TAG_THUMBNAIL_LENGTH,
            typ: 4,
            count: 1,
            value: ValueView::Immediate(word32_bytes(le, b.len() as u32)),
        },
    ]
}

/// The IFDs before `IFD1`, `IFD0` among them.
spec fn laid_first(p: Parts, le: bool) -> Seq<PlannedView> {
    seq![
        PlannedView {
            entries: root_entries(p),
            next: if p.thumbnail is Some {
                Some(thumbnail_place(p))
            } else {
                None
            },
        },
    ] + perhaps(p.interop.len() > 0, plain_ifd(p.interop)) + perhaps(
        has_exif(p),
        plain_ifd(exif_entries(p)),
    ) + perhaps(p.gps.len() > 0, plain_ifd(p.gps))
}

/// The IFDs of a block.
spec fn laid(p: Parts, le: bool) -> Seq<PlannedView> {
    match p.thumbnail {
        Some(t) => laid_first(p, le).push(plain_ifd(thumbnail_entries(le, t.0, t.1))),
        None => laid_first(p, le),
    }
}

/// Whether entries are copies that a rule keeps.
spec fn are_kept(entries: Seq<PlanEntryView>, rule: Rule) -> bool {
    front_is_kept(entries, rule, entries.len() as int)
}

/// Whether entries are copies that a rule keeps, by ascending tag.
spec fn kept_in_order(entries: Seq<PlanEntryView>, rule: Rule) -> bool {
    are_kept(entries, rule) && front_ascends(entries, entries.len() as int)
}

/// Whether a `MakerNote` is stored as one is.
spec fn is_note(m: PlanEntryView) -> bool {
    &&& m.tag == TAG_MAKER_NOTE
    &&& match m.value {
        ValueView::Bytes(b) => b.len() <= 4,
        ValueView::Pinned { bytes, offset } => bytes.len() > 4,
        _ => false,
    }
}

/// Whether the parts are copied by their rules, and a `MakerNote` among them can be where it
/// has to be.
spec fn parts_kept(p: Parts, le: bool) -> bool {
    &&& are_kept(p.root, Rule::Root)
    &&& are_kept(p.interop, Rule::All)
    &&& are_kept(p.exif, Rule::Exif)
    &&& are_kept(p.gps, Rule::All)
    &&& (p.note matches Some(m) ==> is_note(m) && (m.value is Pinned ==> pin_reaches(
        laid(p, le),
        m.value->Pinned_offset,
    )))
    &&& (p.thumbnail matches Some(t) ==> are_kept(t.0, Rule::Thumbnail) && 0 < t.1.len()
        <= u32::MAX)
}

/// Whether the parts are by ascending tag.
spec fn in_order(p: Parts) -> bool {
    &&& front_ascends(p.root, p.root.len() as int)
    &&& front_ascends(p.interop, p.interop.len() as int)
    &&& front_ascends(p.exif, p.exif.len() as int)
    &&& front_ascends(p.gps, p.gps.len() as int)
    &&& (p.thumbnail matches Some(t) ==> front_ascends(t.0, t.0.len() as int))
}

/// The parts of a block that is made of some, when it is read: the same by ascending tag.
spec fn read_again(p: Parts) -> Parts {
    Parts {
        root: by_tag(p.root),
        interop: by_tag(p.interop),
        exif: by_tag(p.exif),
        note: p.note,
        gps: by_tag(p.gps),
        thumbnail: match p.thumbnail {
            Some(t) => Some((by_tag(t.0), t.1)),
            None => None,
        },
    }
}

/// Parts that are by ascending tag are read as they are.
proof fn lemma_read_as_is(p: Parts)
    requires
        in_order(p),
    ensures
        read_again(p) == p,
{
    sorted_entries_stay(p.root);
    sorted_entries_stay(p.interop);
    sorted_entries_stay(p.exif);
    sorted_entries_stay(p.gps);
    if let Some(t) = p.thumbnail {
        sorted_entries_stay(t.0);
    }
}

proof fn lemma_front_grows(a: Seq<PlanEntryView>, b: Seq<PlanEntryView>, rule: Rule)
    requires
        are_kept(a, rule),
        forall|k: int| 0 <= k < b.len() ==> !keeps(rule, (#[trigger] b[k]).tag),
    ensures
        front_is_kept(a + b, rule, a.len() as int),
        (a + b).take(a.len() as int) == a,
{
    let all = a + b;
    assert forall|k: int| 0 <= k < a.len() implies keeps(rule, (#[trigger] all[k]).tag)
        && all[k].value is Bytes by {
        assert(all[k] == a[k]);
    }
    assert forall|k: int| a.len() <= k < all.len() implies !keeps(rule, (#[trigger] all[k]).tag) by {
        assert(all[k] == b[k - a.len()]);
    }
    assert(all.take(a.len() as int) =~= a);
}

/// The IFDs are where they are said to be.
proof fn lemma_laid(p: Parts, le: bool)
    ensures
        laid(p, le).len() == thumbnail_place(p) + if p.thumbnail is Some {
            1int
        } else {
            0
        },
        laid(p, le)[0].entries == root_entries(p),
        p.interop.len() > 0 ==> laid(p, le)[1] == plain_ifd(p.interop),
        has_exif(p) ==> laid(p, le)[exif_place(p)] == plain_ifd(exif_entries(p)),
        p.gps.len() > 0 ==> laid(p, le)[gps_place(p)] == plain_ifd(p.gps),
        p.thumbnail matches Some(t) ==> laid(p, le)[thumbnail_place(p)] == plain_ifd(
            thumbnail_entries(le, t.0, t.1),
        ) && laid(p, le)[0].next == Some(thumbnail_place(p)),
        p.thumbnail is None ==> laid(p, le)[0].next is None,
{
}

/// Whether a rule keeps the tags of all entries.
spec fn all_kept(entries: Seq<PlanEntryView>, rule: Rule) -> bool {
    forall|k: int| 0 <= k < entries.len() ==> keeps(rule, (#[trigger] entries[k]).tag)
}

/// The Exif IFD of a block is found.
proof fn lemma_exif_pointer_again(p: Parts, le: bool)
    requires
        all_kept(p.root, Rule::Root),
        plan_fits(laid(p, le)),
        states_its_values(laid(p, le)),
    ensures
        sub_ifd(block_bytes(laid(p, le), le), le, ifd_read(laid(p, le), 0), TAG_EXIF_IFD)
            == if has_exif(p) {
            Some(ifd_read(laid(p, le), exif_place(p)))
        } else {
            None
        },
{
    let all = laid(p, le);
    lemma_laid(p, le);
    let es = all[0].entries;
    let c = p.root.len() as int;
    assert(forall|k: int| 0 <= k < c ==> (#[trigger] es[k]).tag == p.root[k].tag);
    if has_exif(p) {
        assert(only_one(es, TAG_EXIF_IFD, c));
        lemma_pointer_again(all, le, 0, TAG_EXIF_IFD, c, exif_place(p));
    } else {
        lemma_absent_again(all, 0, TAG_EXIF_IFD);
    }
}

/// The `MakerNote` of a block is found.
proof fn lemma_note_again(p: Parts, le: bool)
    requires
        all_kept(p.exif, Rule::Exif),
        p.note matches Some(m) ==> is_note(m),
        plan_fits(laid(p, le)),
        states_its_values(laid(p, le)),
        has_exif(p),
    ensures
        own_note(block_bytes(laid(p, le), le), ifd_read(laid(p, le), exif_place(p))) == p.note,
{
    let all = laid(p, le);
    let t = block_bytes(all, le);
    let i = exif_place(p);
    let x = ifd_read(all, i);
    lemma_laid(p, le);
    let es = all[i].entries;
    let c = p.exif.len() as int;
    assert(forall|k: int| 0 <= k < c ==> (#[trigger] es[k]).tag == p.exif[k].tag);
    match p.note {
        Some(m) => {
            let k = es.len() - 1;
            assert(es[k] == m);
            assert(only_one(es, TAG_MAKER_NOTE, k));
            let j = lemma_found_again(all, le, i, TAG_MAKER_NOTE, k);
            assert(states_its_value(es[k]));
            assert(size_of(m.typ) * m.count == m.count
                * size_of(m.typ)) by (nonlinear_arith);
            assert(own_note(t, x) == Some(m));
        },
        None => {
            lemma_absent_again(all, i, TAG_MAKER_NOTE);
        },
    }
}

/// What the first IFD of a block gives back.
#[verifier::spinoff_prover]
#[verifier::rlimit(40)]
proof fn lemma_root_again(p: Parts, le: bool)
    requires
        parts_kept(p, le),
        plan_fits(laid(p, le)),
        states_its_values(laid(p, le)),
    ensures
        ({
            let all = laid(p, le);
            let t = block_bytes(all, le);
            let ifd0 = ifd_read(all, 0);
            &&& begun(t, ifd0, None).root == by_tag(p.root)
            &&& sub_ifd(t, le, ifd0, TAG_EXIF_IFD) == if has_exif(p) {
                Some(ifd_read(all, exif_place(p)))
            } else {
                None
            }
            &&& sub_ifd(t, le, ifd0, TAG_GPS_IFD) == if p.gps.len() > 0 {
                Some(ifd_read(all, gps_place(p)))
            } else {
                None
            }
        }),
{
    let all = laid(p, le);
    let t = block_bytes(all, le);
    let ifd0 = ifd_read(all, 0);
    lemma_laid(p, le);
    let es = all[0].entries;
    let c = p.root.len() as int;
    let a = perhaps(has_exif(p), pointer_to(TAG_EXIF_IFD, exif_place(p)));
    let b = perhaps(p.gps.len() > 0, pointer_to(TAG_GPS_IFD, gps_place(p)));
    assert(es =~= p.root + (a + b));
    lemma_front_grows(p.root, a + b, Rule::Root);
    lemma_plan_again(all, le, 0, Rule::Root, c);
    assert(begun(t, ifd0, None).root =~= by_tag(p.root));
    lemma_exif_pointer_again(p, le);
    if p.gps.len() > 0 {
        let k = c + a.len();
        assert(only_one(es, TAG_GPS_IFD, k));
        lemma_pointer_again(all, le, 0, TAG_GPS_IFD, k, gps_place(p));
    } else {
        lemma_absent_again(all, 0, TAG_GPS_IFD);
    }
}

/// What the Exif IFD of a block gives back.
proof fn lemma_exif_again(p: Parts, le: bool)
    requires
        parts_kept(p, le),
        plan_fits(laid(p, le)),
        states_its_values(laid(p, le)),
        has_exif(p),
    ensures
        ({
            let all = laid(p, le);
            let t = block_bytes(all, le);
            let x = ifd_read(all, exif_place(p));
            &&& plan_of(t, x, Rule::Exif) == by_tag(p.exif)
            &&& own_note(t, x) == p.note
            &&& sub_ifd(t, le, x, TAG_INTEROP_IFD) == if p.interop.len() > 0 {
                Some(ifd_read(all, 1))
            } else {
                None
            }
            &&& p.interop.len() > 0 ==> plan_of(t, ifd_read(all, 1), Rule::All) == by_tag(
                p.interop,
            )
        }),
{
    let all = laid(p, le);
    let t = block_bytes(all, le);
    let i = exif_place(p);
    let x = ifd_read(all, i);
    lemma_laid(p, le);
    let es = all[i].entries;
    let c = p.exif.len() as int;
    let a = perhaps(p.interop.len() > 0, pointer_to(TAG_INTEROP_IFD, 1));
    let b = match p.note {
        Some(m) => seq![m],
        None => seq![],
    };
    assert(es =~= p.exif + (a + b));
    lemma_front_grows(p.exif, a + b, Rule::Exif);
    lemma_plan_again(all, le, i, Rule::Exif, c);
    if p.interop.len() > 0 {
        assert(only_one(es, TAG_INTEROP_IFD, c));
        lemma_pointer_again(all, le, i, TAG_INTEROP_IFD, c, 1);
        let none = Seq::<PlanEntryView>::empty();
        lemma_front_grows(p.interop, none, Rule::All);
        assert(p.interop + none =~= p.interop);
        lemma_plan_again(all, le, 1, Rule::All, p.interop.len() as int);
    } else {
        lemma_absent_again(all, i, TAG_INTEROP_IFD);
    }
    lemma_note_again(p, le);
}

/// What `IFD1` of a block gives back.
proof fn lemma_thumbnail_again(
    all: Seq<PlannedView>,
    le: bool,
    i: int,
    kept: Seq<PlanEntryView>,
    data: Seq<u8>,
)
    requires
        plan_fits(all),
        states_its_values(all),
        0 < i < all.len(),
        all[0].next == Some(i),
        all[i] == plain_ifd(thumbnail_entries(le, kept, data)),
        are_kept(kept, Rule::Thumbnail),
        0 < data.len() <= u32::MAX,
    ensures
        thumbnail_of(block_bytes(all, le), le, 8, ifd_read(all, 0)) == Some(
            thumbnail_entries(le, by_tag(kept), data),
        ),
{
    let t = block_bytes(all, le);
    let es = all[i].entries;
    let c = kept.len() as int;
    let x = ifd_read(all, i);
    let rest = seq![es[c], es[c + 1]];
    assert(es =~= kept + rest);
    lemma_front_grows(kept, rest, Rule::Thumbnail);
    lemma_plan_again(all, le, i, Rule::Thumbnail, c);
    pointed_at_data_is_there(all, le, i, c);
    let off = placement(all, i, c);
    assert(forall|k: int| 0 <= k < c ==> (#[trigger] es[k]).tag == kept[k].tag);
    assert(only_one(es, TAG_THUMBNAIL_OFFSET, c));
    assert(only_one(es, TAG_THUMBNAIL_LENGTH, c + 1));
    lemma_long_again(all, le, i, TAG_THUMBNAIL_OFFSET, c, off as u32);
    lemma_long_again(all, le, i, TAG_THUMBNAIL_LENGTH, c + 1, data.len() as u32);
    lemma_ifd_starts(all, i);
    lemma_values_start(all, i, c);
    assert(ifd_of(t, le, ifd_at(all, i)) == Ok::<IfdView, Fault>(x)) by {
        a_block_reads_back(all, le);
    }
    assert(thumbnail_of(t, le, 8, ifd_read(all, 0)) is Some) by {
        reveal(thumbnail_of);
    }
    let got = thumbnail_of(t, le, 8, ifd_read(all, 0))->Some_0;
    assert(got =~= thumbnail_entries(le, by_tag(kept), data)) by {
        reveal(thumbnail_of);
    }
}

/// What is copied of the Interoperability IFD.
spec fn interop_of(s: Seq<u8>, le: bool, x: IfdView) -> Seq<PlanEntryView> {
    match sub_ifd(s, le, x, TAG_INTEROP_IFD) {
        Some(y) => plan_of(s, y, Rule::All),
        None => seq![],
    }
}

/// What is copied of the GPS IFD.
spec fn gps_of(s: Seq<u8>, le: bool, ifd0: IfdView) -> Seq<PlanEntryView> {
    match sub_ifd(s, le, ifd0, TAG_GPS_IFD) {
        Some(x) => plan_of(s, x, Rule::All),
        None => seq![],
    }
}

/// Whether these are the parts that a block gives, but for its thumbnail.
spec fn are_parts_of(
    s: Seq<u8>,
    le: bool,
    ifd0: IfdView,
    iptc: Option<Seq<u8>>,
    companion: Option<NoteView>,
    keeping: bool,
    p: Parts,
) -> bool {
    &&& begun(s, ifd0, iptc).root == p.root
    &&& match sub_ifd(s, le, ifd0, TAG_EXIF_IFD) {
        Some(x) => {
            &&& plan_of(s, x, Rule::Exif) == p.exif
            &&& interop_of(s, le, x) == p.interop
            &&& p.note == if keeping {
                chosen_note(s, le, x, companion).0
            } else {
                None
            }
        },
        None => !has_exif(p),
    }
    &&& gps_of(s, le, ifd0) == p.gps
}

/// The IFDs before `IFD1`, without what goes into `IFD0`.
spec fn first_ifds(p: Parts) -> Seq<PlannedView> {
    seq![plain_ifd(seq![])] + perhaps(p.interop.len() > 0, plain_ifd(p.interop)) + perhaps(
        has_exif(p),
        plain_ifd(exif_entries(p)),
    ) + perhaps(p.gps.len() > 0, plain_ifd(p.gps))
}

/// The making of a block whose parts are known.
proof fn lemma_drafted_parts(
    s: Seq<u8>,
    le: bool,
    ifd0: IfdView,
    iptc: Option<Seq<u8>>,
    companion: Option<NoteView>,
    keeping: bool,
    p: Parts,
)
    requires
        are_parts_of(s, le, ifd0, iptc, companion, keeping, p),
    ensures
        ({
            let d = drafted(s, le, ifd0, iptc, companion, keeping);
            &&& d.ifds == first_ifds(p)
            &&& d.root == root_entries(p)
            &&& companion is None ==> d.graft is NotOffered
            &&& d.maker == if p.note matches Some(m) && m.value is Pinned {
                Some((exif_place(p), exif_entries(p).len() - 1))
            } else {
                None
            }
        }),
{
    let a = begun(s, ifd0, iptc);
    let b = with_exif(s, le, ifd0, companion, keeping, a);
    let d = with_gps(s, le, ifd0, b);
    let i = perhaps(p.interop.len() > 0, plain_ifd(p.interop));
    let e = perhaps(has_exif(p), plain_ifd(exif_entries(p)));
    let pe = perhaps(has_exif(p), pointer_to(TAG_EXIF_IFD, exif_place(p)));
    let zero = seq![plain_ifd(Seq::<PlanEntryView>::empty())];
    assert(a.ifds =~= zero);
    assert(b.ifds =~= zero + i + e && b.root =~= p.root + pe && (companion is None
        ==> b.graft is NotOffered) && b.maker == if p.note matches Some(m) && m.value is Pinned {
        Some((exif_place(p), exif_entries(p).len() - 1))
    } else {
        None
    }) by {
        reveal(with_exif);
        if sub_ifd(s, le, ifd0, TAG_EXIF_IFD) is Some {
            let ifds = if p.interop.len() > 0 {
                a.ifds.push(plain_ifd(p.interop))
            } else {
                a.ifds
            };
            assert(ifds.len() == exif_place(p));
            let some = p.exif + (if p.interop.len() > 0 {
                seq![pointer_to(TAG_INTEROP_IFD, ifds.len() - 1)]
            } else {
                seq![]
            });
            assert(some =~= p.exif + perhaps(
                p.interop.len() > 0,
                pointer_to(TAG_INTEROP_IFD, 1),
            ));
            if has_exif(p) {
                assert(b.ifds == ifds.push(plain_ifd(exif_entries(p))));
            }
        }
    }
    reveal(with_gps);
    assert(b.ifds.len() == gps_place(p));
    assert(d.ifds =~= zero + i + e + perhaps(p.gps.len() > 0, plain_ifd(p.gps)));
    assert(d.root =~= root_entries(p));
}

/// Whether two entries are the same, or both plain values.
spec fn alike(a: PlanEntryView, b: PlanEntryView) -> bool {
    a == b || (a.value is Bytes && b.value is Bytes)
}

/// Whether two lists of entries are alike one by one, and take as much of the value area.
spec fn entries_alike(a: Seq<PlanEntryView>, b: Seq<PlanEntryView>) -> bool {
    &&& a.len() == b.len()
    &&& forall|k: int| 0 <= k < a.len() ==> alike(#[trigger] a[k], b[k])
    &&& entry_values(a, a.len() as int).len() == entry_values(b, b.len() as int).len()
}

spec fn ifds_alike(a: Seq<PlannedView>, b: Seq<PlannedView>) -> bool {
    &&& a.len() == b.len()
    &&& forall|i: int| 0 <= i < a.len() ==> entries_alike((#[trigger] a[i]).entries, b[i].entries)
}

proof fn lemma_alike_entries(a: Seq<PlanEntryView>, b: Seq<PlanEntryView>, k: int)
    requires
        a.len() == b.len(),
        forall|j: int| 0 <= j < a.len() ==> alike(#[trigger] a[j], b[j]),
        0 <= k <= a.len(),
    ensures
        entry_pin(a, k) == entry_pin(b, k),
        stated_entries(a, k) == stated_entries(b, k),
    decreases k,
{
    if k > 0 {
        lemma_alike_entries(a, b, k - 1);
        assert(alike(a[k - 1], b[k - 1]));
    }
}

/// Plans that are alike are of the same size, state as many tags and pin the same value.
proof fn lemma_alike(a: Seq<PlannedView>, b: Seq<PlannedView>, n: int)
    requires
        ifds_alike(a, b),
        0 <= n <= a.len(),
    ensures
        ifd_at(a, n) == ifd_at(b, n),
        pin_of(a, n) == pin_of(b, n),
        stated(a, n) == stated(b, n),
        ifd_values(a, n).len() == ifd_values(b, n).len(),
    decreases n,
{
    if n > 0 {
        lemma_alike(a, b, n - 1);
        assert(entries_alike(a[n - 1].entries, b[n - 1].entries));
        lemma_alike_entries(a[n - 1].entries, b[n - 1].entries, a[n - 1].entries.len() as int);
    }
}

proof fn lemma_values_of_both(a: Seq<PlanEntryView>, b: Seq<PlanEntryView>, k: int)
    requires
        0 <= k <= b.len(),
    ensures
        entry_values(a + b, a.len() + k).len() == entry_values(a, a.len() as int).len()
            + entry_values(b, k).len(),
    decreases k,
{
    if k > 0 {
        lemma_values_of_both(a, b, k - 1);
        assert((a + b)[a.len() + k - 1] == b[k - 1]);
    } else {
        lemma_values_of_front(a, b, a.len() as int);
    }
}

proof fn lemma_values_of_front(a: Seq<PlanEntryView>, b: Seq<PlanEntryView>, k: int)
    requires
        0 <= k <= a.len(),
    ensures
        entry_values(a + b, k) == entry_values(a, k),
    decreases k,
{
    if k > 0 {
        lemma_values_of_front(a, b, k - 1);
        assert((a + b)[k - 1] == a[k - 1]);
    }
}

/// Entries by ascending tag before others are like the entries as they were before them.
proof fn lemma_sorted_alike(a: Seq<PlanEntryView>, b: Seq<PlanEntryView>, rule: Rule)
    requires
        are_kept(a, rule),
    ensures
        entries_alike(a + b, by_tag(a) + b),
        are_kept(by_tag(a), rule),
{
    sorting_keeps_the_entries(a);
    let c = by_tag(a);
    assert forall|k: int| 0 <= k < c.len() implies keeps(rule, (#[trigger] c[k]).tag)
        && c[k].value is Bytes by {
        assert(a.contains(c[k]));
        let j = a.index_of(c[k]);
        assert(a[j] == c[k]);
    }
    lemma_values_of_both(a, b, b.len() as int);
    lemma_values_of_both(c, b, b.len() as int);
    assert forall|k: int| 0 <= k < (a + b).len() implies alike(#[trigger] (a + b)[k], (c + b)[k]) by {
        if k < a.len() {
            assert((a + b)[k] == a[k]);
            assert((c + b)[k] == c[k]);
        } else {
            assert((a + b)[k] == (c + b)[k]);
        }
    }
}

/// The plan that a block is read as is like the one it was written from.
proof fn lemma_read_alike(p: Parts, le: bool)
    requires
        parts_kept(p, le),
    ensures
        ifds_alike(laid(p, le), laid(read_again(p), le)),
{
    let q = read_again(p);
    let none = Seq::<PlanEntryView>::empty();
    lemma_laid(p, le);
    lemma_laid(q, le);
    let a = laid(p, le);
    let b = laid(q, le);
    let root = perhaps(has_exif(p), pointer_to(TAG_EXIF_IFD, exif_place(p))) + perhaps(
        p.gps.len() > 0,
        pointer_to(TAG_GPS_IFD, gps_place(p)),
    );
    let exif = perhaps(p.interop.len() > 0, pointer_to(TAG_INTEROP_IFD, 1)) + match p.note {
        Some(m) => seq![m],
        None => none,
    };
    lemma_sorted_alike(p.root, root, Rule::Root);
    lemma_sorted_alike(p.exif, exif, Rule::Exif);
    lemma_sorted_alike(p.interop, none, Rule::All);
    lemma_sorted_alike(p.gps, none, Rule::All);
    assert(root_entries(p) =~= p.root + root && root_entries(q) =~= q.root + root);
    assert(exif_entries(p) =~= p.exif + exif && exif_entries(q) =~= q.exif + exif);
    assert(p.interop + none =~= p.interop && q.interop + none =~= q.interop);
    assert(p.gps + none =~= p.gps && q.gps + none =~= q.gps);
    if let Some(t) = p.thumbnail {
        let last = thumbnail_entries(le, t.0, t.1).skip(t.0.len() as int);
        lemma_sorted_alike(t.0, last, Rule::Thumbnail);
        assert(thumbnail_entries(le, t.0, t.1) =~= t.0 + last);
        assert(thumbnail_entries(le, by_tag(t.0), t.1) =~= by_tag(t.0) + last);
    }
    assert forall|i: int| 0 <= i < a.len() implies entries_alike(
        (#[trigger] a[i]).entries,
        b[i].entries,
    ) by {
        if i > 0 && !(p.interop.len() > 0 && i == 1) && !(has_exif(p) && i == exif_place(p)) && !(
        p.gps.len() > 0 && i == gps_place(p)) {
            assert(p.thumbnail is Some && i == thumbnail_place(p));
        }
    }
}

/// Parts by ascending tag are copied by their rules as they were.
proof fn lemma_read_is_kept(p: Parts, le: bool)
    requires
        parts_kept(p, le),
    ensures
        parts_kept(read_again(p), le),
        in_order(read_again(p)),
{
    let none = Seq::<PlanEntryView>::empty();
    lemma_sorted_alike(p.root, none, Rule::Root);
    lemma_sorted_alike(p.exif, none, Rule::Exif);
    lemma_sorted_alike(p.interop, none, Rule::All);
    lemma_sorted_alike(p.gps, none, Rule::All);
    sorting_keeps_the_entries(p.root);
    sorting_keeps_the_entries(p.exif);
    sorting_keeps_the_entries(p.interop);
    sorting_keeps_the_entries(p.gps);
    if let Some(t) = p.thumbnail {
        lemma_sorted_alike(t.0, none, Rule::Thumbnail);
        sorting_keeps_the_entries(t.0);
    }
    lemma_read_alike(p, le);
    lemma_alike(laid(p, le), laid(read_again(p), le), laid(p, le).len() as int);
}

/// The plan of a block's rebuilding, when that is a block that was written, is the plan it
/// was written from with its parts by ascending tag.
proof fn lemma_planned_again(p: Parts, le: bool)
    requires
        parts_kept(p, le),
        plan_fits(laid(p, le)),
        states_its_values(laid(p, le)),
    ensures
        settled_plan(
            block_bytes(laid(p, le), le),
            le,
            8,
            ifd_read(laid(p, le), 0),
            None,
            None,
        ) == (Settled {
            ifds: laid(read_again(p), le),
            dropped: false,
            graft: MakerNoteGraft::NotOffered,
        }),
{
    let q = read_again(p);
    let all = laid(p, le);
    let t = block_bytes(all, le);
    let ifd0 = ifd_read(all, 0);
    lemma_root_again(p, le);
    if has_exif(p) {
        lemma_exif_again(p, le);
        assert(interop_of(t, le, ifd_read(all, exif_place(p))) =~= q.interop);
    }
    if p.gps.len() > 0 {
        lemma_gps_again(p, le);
    }
    assert(gps_of(t, le, ifd0) =~= q.gps);
    assert(has_exif(q) == has_exif(p));
    lemma_drafted_parts(t, le, ifd0, None, None, true, q);
    lemma_last_again(p, le);
    let d = drafted(t, le, ifd0, None, None, true);
    let last = thumbnail_of(t, le, 8, ifd0);
    lemma_completed_again(q, le, d, last);
    lemma_read_alike(p, le);
    lemma_alike(all, laid(q, le), all.len() as int);
    reveal(settled_plan);
    if p.note is Some && p.note->Some_0.value is Pinned {
        lemma_laid(q, le);
        assert(laid(q, le)[exif_place(q)].entries[exif_entries(q).len() - 1] == q.note->Some_0);
    }
}

proof fn lemma_gps_again(p: Parts, le: bool)
    requires
        parts_kept(p, le),
        plan_fits(laid(p, le)),
        states_its_values(laid(p, le)),
        p.gps.len() > 0,
    ensures
        plan_of(
            block_bytes(laid(p, le), le),
            ifd_read(laid(p, le), gps_place(p)),
            Rule::All,
        ) == by_tag(p.gps),
{
    lemma_laid(p, le);
    let none = Seq::<PlanEntryView>::empty();
    lemma_front_grows(p.gps, none, Rule::All);
    assert(p.gps + none =~= p.gps);
    lemma_plan_again(laid(p, le), le, gps_place(p), Rule::All, p.gps.len() as int);
}

proof fn lemma_last_again(p: Parts, le: bool)
    requires
        parts_kept(p, le),
        plan_fits(laid(p, le)),
        states_its_values(laid(p, le)),
    ensures
        thumbnail_of(block_bytes(laid(p, le), le), le, 8, ifd_read(laid(p, le), 0))
            == match p.thumbnail {
            Some(t) => Some(thumbnail_entries(le, by_tag(t.0), t.1)),
            None => None,
        },
{
    lemma_laid(p, le);
    match p.thumbnail {
        Some(t) => {
            lemma_thumbnail_again(laid(p, le), le, thumbnail_place(p), t.0, t.1);
        },
        None => {
            reveal(thumbnail_of);
        },
    }
}

/// The IFDs put together.
proof fn lemma_completed_again(
    p: Parts,
    le: bool,
    d: DraftView,
    last: Option<Seq<PlanEntryView>>,
)
    requires
        d.ifds == first_ifds(p),
        d.root == root_entries(p),
        last == match p.thumbnail {
            Some(t) => Some(thumbnail_entries(le, t.0, t.1)),
            None => None,
        },
    ensures
        completed(d, last) == laid(p, le),
{
    assert(d.ifds.len() == thumbnail_place(p));
    assert(completed(d, last) =~= laid(p, le));
}

/// The parts that a block gives.
spec fn parts_of(
    s: Seq<u8>,
    le: bool,
    first: int,
    ifd0: IfdView,
    iptc: Option<Seq<u8>>,
    companion: Option<NoteView>,
    keeping: bool,
) -> Parts {
    let x = sub_ifd(s, le, ifd0, TAG_EXIF_IFD);
    Parts {
        root: begun(s, ifd0, iptc).root,
        interop: match x {
            Some(x) => interop_of(s, le, x),
            None => seq![],
        },
        exif: match x {
            Some(x) => plan_of(s, x, Rule::Exif),
            None => seq![],
        },
        note: match x {
            Some(x) => if keeping {
                chosen_note(s, le, x, companion).0
            } else {
                None
            },
            None => None,
        },
        gps: gps_of(s, le, ifd0),
        thumbnail: match thumbnail_of(s, le, first, ifd0) {
            Some(t) => Some((t.take(t.len() - 2), t[t.len() - 2].value->DataOffset_0)),
            None => None,
        },
    }
}

/// A thumbnail is stored as one is.
proof fn lemma_thumbnail_parts(s: Seq<u8>, le: bool, first: int, ifd0: IfdView)
    ensures
        thumbnail_of(s, le, first, ifd0) matches Some(t) ==> {
            let kept = t.take(t.len() - 2);
            let b = t[t.len() - 2].value->DataOffset_0;
            &&& t.len() >= 2
            &&& t == thumbnail_entries(le, kept, b)
            &&& 0 < b.len() <= u32::MAX
            &&& ifd0.next != 0
            &&& ifd_of(s, le, ifd0.next) matches Ok(x) && kept == plan_of(s, x, Rule::Thumbnail)
        },
{
    reveal(thumbnail_of);
    if let Some(t) = thumbnail_of(s, le, first, ifd0) {
        let x = ifd_of(s, le, ifd0.next)->Ok_0;
        let kept = plan_of(s, x, Rule::Thumbnail);
        assert(t.take(t.len() - 2) =~= kept);
        let b = t[t.len() - 2].value->DataOffset_0;
        assert(t =~= thumbnail_entries(le, kept, b));
    }
}

/// The plan of a block's rebuilding is made of its parts: all of them, or without a
/// `MakerNote` that is out of reach.
proof fn lemma_settled_parts(
    s: Seq<u8>,
    le: bool,
    first: int,
    ifd0: IfdView,
    iptc: Option<Seq<u8>>,
    companion: Option<NoteView>,
) -> (q: Parts)
    ensures
        ({
            ||| q == parts_of(s, le, first, ifd0, iptc, companion, true)
            ||| q == parts_of(s, le, first, ifd0, iptc, companion, false)
        }),
        settled_plan(s, le, first, ifd0, iptc, companion).ifds == laid(q, le),
        q.note matches Some(m) ==> m.value is Pinned ==> pin_reaches(
            laid(q, le),
            m.value->Pinned_offset,
        ),
{
    reveal(settled_plan);
    let p = parts_of(s, le, first, ifd0, iptc, companion, true);
    let q = parts_of(s, le, first, ifd0, iptc, companion, false);
    let t = thumbnail_of(s, le, first, ifd0);
    lemma_drafted_parts(s, le, ifd0, iptc, companion, true, p);
    lemma_drafted_parts(s, le, ifd0, iptc, companion, false, q);
    lemma_thumbnail_parts(s, le, first, ifd0);
    lemma_completed_again(p, le, drafted(s, le, ifd0, iptc, companion, true), t);
    lemma_completed_again(q, le, drafted(s, le, ifd0, iptc, companion, false), t);
    lemma_laid(p, le);
    let all = laid(p, le);
    if p.note is Some && p.note->Some_0.value is Pinned {
        let m = p.note->Some_0;
        assert(all[exif_place(p)].entries[exif_entries(p).len() - 1] == m);
        if pin_reaches(all, m.value->Pinned_offset) {
            p
        } else {
            q
        }
    } else {
        p
    }
}

/// Whether an IFD lists the tags that are carried of it in ascending order, as TIFF requires
/// of all of them.
pub open spec fn is_sorted(s: Seq<u8>, x: IfdView, rule: Rule) -> bool {
    forall|a: int, b: int|
        0 <= a <= b < x.entries.len() && is_carried(s, #[trigger] x.entries[a], rule)
            && is_carried(s, #[trigger] x.entries[b], rule) ==> x.entries[a].0 <= x.entries[b].0
}

/// Whether every IFD that is carried lists its tags in ascending order. There is a second
/// IFD only where the first one names it, and it is carried only with a thumbnail.
pub open spec fn all_sorted(s: Seq<u8>, le: bool, ifd0: IfdView) -> bool {
    &&& is_sorted(s, ifd0, Rule::Root)
    &&& (sub_ifd(s, le, ifd0, TAG_EXIF_IFD) matches Some(x) ==> is_sorted(s, x, Rule::Exif) && (
    sub_ifd(s, le, x, TAG_INTEROP_IFD) matches Some(y) ==> is_sorted(s, y, Rule::All)))
    &&& (sub_ifd(s, le, ifd0, TAG_GPS_IFD) matches Some(x) ==> is_sorted(s, x, Rule::All))
    &&& (ifd0.next != 0 && thumbnail_of(s, le, opened(s)->Some_0.1, ifd0) is Some ==> (ifd_of(
        s,
        le,
        ifd0.next,
    ) matches Ok(x) ==> is_sorted(s, x, Rule::Thumbnail)))
}

/// Whether an IPTC block from outside, where one is added, comes after every carried tag
/// of the first IFD.
pub open spec fn iptc_is_last(s: Seq<u8>, ifd0: IfdView, iptc: Option<Seq<u8>>) -> bool {
    find_tag(ifd0.entries, TAG_IPTC, 0) is None && iptc is Some && iptc->Some_0.len() > 0
        ==> forall|k: int|
        0 <= k < ifd0.entries.len() && is_carried(s, #[trigger] ifd0.entries[k], Rule::Root)
            ==> ifd0.entries[k].0 <= TAG_IPTC
}

proof fn lemma_planned_in_order(s: Seq<u8>, x: IfdView, rule: Rule, n: int)
    requires
        is_sorted(s, x, rule),
        0 <= n <= x.entries.len(),
    ensures
        kept_in_order(planned(s, x.entries, rule, n), rule),
    decreases n,
{
    if n > 0 {
        lemma_planned_in_order(s, x, rule, n - 1);
        let before = planned(s, x.entries, rule, n - 1);
        let after = planned(s, x.entries, rule, n);
        let more = copied(s, x.entries[n - 1], rule);
        assert forall|j: int| 0 <= j < after.len() implies keeps(
            rule,
            (#[trigger] after[j]).tag,
        ) && after[j].value is Bytes by {
            if j < before.len() {
                assert(after[j] == before[j]);
            }
        }
        assert forall|a: int, b: int| 0 <= a <= b < after.len() implies (#[trigger] after[a]).tag
            <= (#[trigger] after[b]).tag by {
            if b < before.len() {
                assert(after[a] == before[a] && after[b] == before[b]);
            } else {
                assert(after[b] == more[0]);
                assert(is_carried(s, x.entries[n - 1], rule));
                if a < before.len() {
                    assert(after[a] == before[a]);
                    lemma_planned_is_carried(s, x.entries, rule, n - 1, a);
                }
            }
        }
    }
}

proof fn lemma_plan_in_order(s: Seq<u8>, x: IfdView, rule: Rule)
    requires
        is_sorted(s, x, rule),
    ensures
        kept_in_order(plan_of(s, x, rule), rule),
{
    lemma_planned_in_order(s, x, rule, x.entries.len() as int);
}

proof fn lemma_planned_is_carried(
    s: Seq<u8>,
    entries: Seq<(u16, EntryView)>,
    rule: Rule,
    n: int,
    j: int,
)
    requires
        0 <= n <= entries.len(),
        0 <= j < planned(s, entries, rule, n).len(),
    ensures
        exists|k: int|
            0 <= k < n && is_carried(s, #[trigger] entries[k], rule) && entries[k].0 == planned(
                s,
                entries,
                rule,
                n,
            )[j].tag,
    decreases n,
{
    if n > 0 {
        let before = planned(s, entries, rule, n - 1);
        if j < before.len() {
            lemma_planned_is_carried(s, entries, rule, n - 1, j);
        } else {
            assert(is_carried(s, entries[n - 1], rule));
        }
    }
}

/// What goes into the first IFD is by ascending tag.
proof fn lemma_root_in_order(s: Seq<u8>, ifd0: IfdView, iptc: Option<Seq<u8>>)
    requires
        is_sorted(s, ifd0, Rule::Root),
        iptc_is_last(s, ifd0, iptc),
    ensures
        kept_in_order(begun(s, ifd0, iptc).root, Rule::Root),
{
    let kept = plan_of(s, ifd0, Rule::Root);
    let root = begun(s, ifd0, iptc).root;
    lemma_plan_in_order(s, ifd0, Rule::Root);
    if root.len() > kept.len() {
        let e = root.last();
        assert(e.tag == TAG_IPTC);
        assert(root =~= kept.push(e));
        assert forall|j: int| 0 <= j < kept.len() implies (#[trigger] kept[j]).tag <= TAG_IPTC by {
            lemma_planned_is_carried(s, ifd0.entries, Rule::Root, ifd0.entries.len() as int, j);
        }
        assert forall|a: int, b: int| 0 <= a <= b < root.len() implies (#[trigger] root[a]).tag
            <= (#[trigger] root[b]).tag by {
            if a < kept.len() {
                assert(root[a] == kept[a]);
            }
            if b < kept.len() {
                assert(root[b] == kept[b]);
            }
        }
        assert forall|k: int| 0 <= k < root.len() implies keeps(
            Rule::Root,
            (#[trigger] root[k]).tag,
        ) && root[k].value is Bytes by {
            if k < kept.len() {
                assert(root[k] == kept[k]);
            }
        }
    } else {
        assert(root =~= kept);
    }
}

/// A chosen `MakerNote` is stored as one is.
proof fn lemma_note_parts(s: Seq<u8>, le: bool, x: IfdView, companion: Option<NoteView>)
    ensures
        chosen_note(s, le, x, companion).0 matches Some(m) ==> is_note(m),
{
}

proof fn lemma_planned_kept(s: Seq<u8>, entries: Seq<(u16, EntryView)>, rule: Rule, n: int)
    requires
        0 <= n <= entries.len(),
    ensures
        are_kept(planned(s, entries, rule, n), rule),
    decreases n,
{
    if n > 0 {
        lemma_planned_kept(s, entries, rule, n - 1);
    }
}

proof fn lemma_plan_kept(s: Seq<u8>, x: IfdView, rule: Rule)
    ensures
        are_kept(plan_of(s, x, rule), rule),
{
    lemma_planned_kept(s, x.entries, rule, x.entries.len() as int);
}

/// What goes into the first IFD is copied by its rule.
proof fn lemma_root_kept(s: Seq<u8>, ifd0: IfdView, iptc: Option<Seq<u8>>)
    ensures
        are_kept(begun(s, ifd0, iptc).root, Rule::Root),
{
    lemma_plan_kept(s, ifd0, Rule::Root);
}

/// Whether some parts are those that a block has, with its `MakerNote` or without.
spec fn are_its_parts(
    q: Parts,
    s: Seq<u8>,
    iptc: Option<Seq<u8>>,
    companion: Option<NoteView>,
) -> bool {
    let le = order_of(s);
    let first = opened(s)->Some_0.1;
    ||| q == parts_of(s, le, first, ifd0_of(s), iptc, companion, true)
    ||| q == parts_of(s, le, first, ifd0_of(s), iptc, companion, false)
}

/// The parts of a block are copied by their rules.
proof fn lemma_parts_kept(
    s: Seq<u8>,
    iptc: Option<Seq<u8>>,
    companion: Option<NoteView>,
    q: Parts,
)
    requires
        are_its_parts(q, s, iptc, companion),
        q.note matches Some(m) ==> m.value is Pinned ==> pin_reaches(
            laid(q, order_of(s)),
            m.value->Pinned_offset,
        ),
    ensures
        parts_kept(q, order_of(s)),
{
    let le = order_of(s);
    let first = opened(s)->Some_0.1;
    let ifd0 = ifd0_of(s);
    lemma_root_kept(s, ifd0, iptc);
    if let Some(x) = sub_ifd(s, le, ifd0, TAG_EXIF_IFD) {
        lemma_plan_kept(s, x, Rule::Exif);
        lemma_note_parts(s, le, x, companion);
        if let Some(y) = sub_ifd(s, le, x, TAG_INTEROP_IFD) {
            lemma_plan_kept(s, y, Rule::All);
        }
    }
    if let Some(x) = sub_ifd(s, le, ifd0, TAG_GPS_IFD) {
        lemma_plan_kept(s, x, Rule::All);
    }
    lemma_thumbnail_parts(s, le, first, ifd0);
    if thumbnail_of(s, le, first, ifd0) is Some {
        lemma_plan_kept(s, ifd_of(s, le, ifd0.next)->Ok_0, Rule::Thumbnail);
    }
}

/// The first IFD of a block is found where its header says.
proof fn lemma_first_again(all: Seq<PlannedView>, le: bool)
    requires
        plan_fits(all),
        states_its_values(all),
        all.len() > 0,
    ensures
        opened(block_bytes(all, le)) == Some((le, 8int)),
        ifd_of(block_bytes(all, le), le, 8) == Ok::<IfdView, Fault>(ifd_read(all, 0)),
{
    a_block_reads_back(all, le);
    assert(ifd_at(all, 0) == 8);
    assert(ifd_of(block_bytes(all, le), le, ifd_at(all, 0)) == Ok::<IfdView, Fault>(
        ifd_read(all, 0),
    ));
}

/// What a rebuilt block is made from, and that it is small enough.
proof fn lemma_what_is_rebuilt(
    s: Seq<u8>,
    iptc: Option<Seq<u8>>,
    companion: Option<NoteView>,
    r: RebuiltView,
)
    requires
        becomes(s, iptc, companion, r),
    ensures
        ({
            let all = settled_plan(
                s,
                order_of(s),
                opened(s)->Some_0.1,
                ifd0_of(s),
                iptc,
                companion,
            ).ifds;
            &&& opened(s) is Some
            &&& ifd_of(s, order_of(s), opened(s)->Some_0.1) == Ok::<IfdView, Fault>(ifd0_of(s))
            &&& sizes_fit(all)
            &&& r.tiff == block_bytes(all, order_of(s))
            &&& r.tag_count == stated(all, all.len() as int)
            &&& r.tag_count != 0
        }),
{
}

/// The plan behind a rebuilt block.
#[verifier::spinoff_prover]
proof fn lemma_plan_behind(
    s: Seq<u8>,
    iptc: Option<Seq<u8>>,
    companion: Option<NoteView>,
    r: RebuiltView,
)
    requires
        becomes(s, iptc, companion, r),
    ensures
        ({
            let le = order_of(s);
            let all = settled_plan(
                s,
                le,
                opened(s)->Some_0.1,
                ifd0_of(s),
                iptc,
                companion,
            ).ifds;
            &&& plan_fits(all)
            &&& states_its_values(all)
            &&& r.tiff == block_bytes(all, le)
            &&& r.tag_count == stated(all, all.len() as int)
            &&& r.tag_count != 0
            &&& opened(r.tiff) == Some((le, 8int))
            &&& ifd_of(r.tiff, le, 8) == Ok::<IfdView, Fault>(ifd_read(all, 0))
        }),
{
    let le = order_of(s);
    let first = opened(s)->Some_0.1;
    let ifd0 = ifd0_of(s);
    lemma_ifd_placed(s, le, first);
    lemma_settled_plan(s, le, first, ifd0, iptc, companion);
    let all = settled_plan(s, le, first, ifd0, iptc, companion).ifds;
    lemma_what_is_rebuilt(s, iptc, companion, r);
    assert(plan_fits(all) && states_its_values(all));
    lemma_first_again(all, le);
}

/// The parts behind a rebuilt block.
#[verifier::spinoff_prover]
proof fn lemma_parts_behind(
    s: Seq<u8>,
    iptc: Option<Seq<u8>>,
    companion: Option<NoteView>,
    r: RebuiltView,
) -> (q: Parts)
    requires
        becomes(s, iptc, companion, r),
    ensures
        ({
            let le = order_of(s);
            let all = laid(q, le);
            &&& parts_kept(q, le)
            &&& plan_fits(all)
            &&& states_its_values(all)
            &&& are_its_parts(q, s, iptc, companion)
            &&& q.root == begun(s, ifd0_of(s), iptc).root
            &&& settled_plan(
                s,
                le,
                opened(s)->Some_0.1,
                ifd0_of(s),
                iptc,
                companion,
            ).ifds == all
            &&& r.tiff == block_bytes(all, le)
            &&& r.tag_count == stated(all, all.len() as int)
            &&& r.tag_count != 0
            &&& opened(r.tiff) == Some((le, 8int))
            &&& ifd_of(r.tiff, le, 8) == Ok::<IfdView, Fault>(ifd_read(all, 0))
        }),
{
    lemma_plan_behind(s, iptc, companion, r);
    let q = lemma_settled_parts(
        s,
        order_of(s),
        opened(s)->Some_0.1,
        ifd0_of(s),
        iptc,
        companion,
    );
    lemma_parts_kept(s, iptc, companion, q);
    q
}

/// The parts of a block whose IFDs list their tags in ascending order do so too.
proof fn lemma_parts_in_order(
    s: Seq<u8>,
    iptc: Option<Seq<u8>>,
    companion: Option<NoteView>,
    q: Parts,
)
    requires
        are_its_parts(q, s, iptc, companion),
        all_sorted(s, order_of(s), ifd0_of(s)),
        iptc_is_last(s, ifd0_of(s), iptc),
    ensures
        in_order(q),
{
    let le = order_of(s);
    let first = opened(s)->Some_0.1;
    let ifd0 = ifd0_of(s);
    lemma_root_in_order(s, ifd0, iptc);
    if let Some(x) = sub_ifd(s, le, ifd0, TAG_EXIF_IFD) {
        lemma_plan_in_order(s, x, Rule::Exif);
        if let Some(y) = sub_ifd(s, le, x, TAG_INTEROP_IFD) {
            lemma_plan_in_order(s, y, Rule::All);
        }
    }
    if let Some(x) = sub_ifd(s, le, ifd0, TAG_GPS_IFD) {
        lemma_plan_in_order(s, x, Rule::All);
    }
    lemma_thumbnail_parts(s, le, first, ifd0);
    if thumbnail_of(s, le, first, ifd0) is Some {
        lemma_plan_in_order(s, ifd_of(s, le, ifd0.next)->Ok_0, Rule::Thumbnail);
    }
}

/// A carried graft is the `MakerNote` among a block's parts.
proof fn lemma_carried_parts(
    s: Seq<u8>,
    iptc: Option<Seq<u8>>,
    companion: NoteView,
    r: RebuiltView,
    q: Parts,
) -> (x: IfdView)
    requires
        becomes(s, iptc, Some(companion), r),
        r.graft is Carried,
        settled_plan(
            s,
            order_of(s),
            opened(s)->Some_0.1,
            ifd0_of(s),
            iptc,
            Some(companion),
        ).ifds == laid(q, order_of(s)),
        are_its_parts(q, s, iptc, Some(companion)),
    ensures
        sub_ifd(s, order_of(s), ifd0_of(s), TAG_EXIF_IFD) == Some(x),
        own_note(s, x) is None,
        q.exif == plan_of(s, x, Rule::Exif),
        q.note == chosen_note(s, order_of(s), x, Some(companion)).0,
        companion.little_endian == order_of(s),
        r.graft == chosen_note(s, order_of(s), x, Some(companion)).1,
{
    reveal(settled_plan);
    let le = order_of(s);
    let first = opened(s)->Some_0.1;
    let ifd0 = ifd0_of(s);
    let p = parts_of(s, le, first, ifd0, iptc, Some(companion), true);
    let d = drafted(s, le, ifd0, iptc, Some(companion), true);
    lemma_drafted_parts(s, le, ifd0, iptc, Some(companion), true, p);
    lemma_thumbnail_parts(s, le, first, ifd0);
    let t = thumbnail_of(s, le, first, ifd0);
    lemma_completed_again(p, le, d, t);
    assert(d.graft is Carried ==> sub_ifd(s, le, ifd0, TAG_EXIF_IFD) is Some) by {
        reveal(with_exif);
        reveal(with_gps);
    }
    let x = sub_ifd(s, le, ifd0, TAG_EXIF_IFD)->Some_0;
    assert(d.graft == chosen_note(s, le, x, Some(companion)).1 && (d.graft is Carried
        ==> d.is_graft)) by {
        reveal(with_exif);
        reveal(with_gps);
    }
    lemma_laid(p, le);
    lemma_laid(q, le);
    lemma_note_counts(p, q, le);
    x
}

/// Parts that give the same IFDs have the same `MakerNote`.
proof fn lemma_note_counts(p: Parts, q: Parts, le: bool)
    requires
        laid(p, le) == laid(q, le),
        p.exif == q.exif,
        p.interop == q.interop,
        p.gps == q.gps,
        p.root == q.root,
        p.thumbnail == q.thumbnail,
        q.note == p.note || q.note is None,
    ensures
        p.note == q.note,
{
    lemma_laid(p, le);
    lemma_laid(q, le);
    if p.note is Some && q.note is None {
        if has_exif(q) {
            assert(exif_entries(p).len() == exif_entries(q).len() + 1);
        } else {
            assert(laid(p, le).len() == laid(q, le).len() + 1);
        }
    }
}

/// What a rebuilt block becomes when it is rebuilt: the block of the same parts, each by
/// ascending tag.
#[verifier::spinoff_prover]
proof fn lemma_rebuilt_again(r: RebuiltView, q: Parts, le: bool)
    requires
        parts_kept(q, le),
        plan_fits(laid(q, le)),
        states_its_values(laid(q, le)),
        r.tiff == block_bytes(laid(q, le), le),
        r.tag_count == stated(laid(q, le), laid(q, le).len() as int),
        r.tag_count != 0,
        opened(r.tiff) == Some((le, 8int)),
        ifd_of(r.tiff, le, 8) == Ok::<IfdView, Fault>(ifd_read(laid(q, le), 0)),
    ensures
        rebuilt(r.tiff, None, None) matches Ok(Some(again)) && {
            &&& again.tiff == block_bytes(laid(read_again(q), le), le)
            &&& again.tag_count == r.tag_count
            &&& !again.dropped
            &&& again.graft is NotOffered
            &&& again.orientation == orientation_of(r.tiff, le, ifd_read(laid(q, le), 0))
        },
{
    let a = laid(q, le);
    let b = laid(read_again(q), le);
    lemma_planned_again(q, le);
    lemma_read_alike(q, le);
    lemma_alike(a, b, a.len() as int);
    assert(sizes_fit(b)) by {
        assert forall|i: int| 0 <= i < b.len() implies (#[trigger] b[i]).entries.len() <= 0xffff by {
            assert(entries_alike(a[i].entries, b[i].entries));
        }
    }
}

/// Rebuilding a rebuilt block loses nothing: a second pass over what was written carries
/// every tag that it states, and drops nothing.
///
/// The bytes may change: where a source lists its tags out of order, the first pass sorts
/// the entries and the second the values behind them. [`a_rebuilt_block_stays`] says when
/// they do not.
pub proof fn a_rebuilt_block_keeps_its_tags(
    s: Seq<u8>,
    iptc: Option<Seq<u8>>,
    companion: Option<NoteView>,
    r: RebuiltView,
)
    requires
        becomes(s, iptc, companion, r),
    ensures
        rebuilt(r.tiff, None, None) matches Ok(Some(again)) && again.tag_count == r.tag_count
            && again.tiff.len() == r.tiff.len() && !again.dropped && again.graft is NotOffered,
{
    let q = lemma_parts_behind(s, iptc, companion, r);
    let le = order_of(s);
    lemma_rebuilt_again(r, q, order_of(s));
    lemma_read_alike(q, le);
    lemma_alike(laid(q, le), laid(read_again(q), le), laid(q, le).len() as int);
    lemma_block_len(laid(q, le), le);
    lemma_planned_again(q, le);
    lemma_ifd_placed(r.tiff, le, 8);
    lemma_settled_plan(r.tiff, le, 8, ifd_read(laid(q, le), 0), None, None);
    lemma_block_len(laid(read_again(q), le), le);
}

/// Rebuilding a rebuilt block changes nothing: a second pass over what was written gives
/// the same bytes, with nothing dropped.
///
/// That takes a source whose IFDs list the tags that are carried in ascending order, as TIFF
/// requires: otherwise the second pass lays the values out in the order of the tags.
pub proof fn a_rebuilt_block_stays(
    s: Seq<u8>,
    iptc: Option<Seq<u8>>,
    companion: Option<NoteView>,
    r: RebuiltView,
)
    requires
        becomes(s, iptc, companion, r),
        all_sorted(s, order_of(s), ifd0_of(s)),
        iptc_is_last(s, ifd0_of(s), iptc),
    ensures
        rebuilt(r.tiff, None, None) matches Ok(Some(again)) && again.tiff == r.tiff
            && again.tag_count == r.tag_count && !again.dropped && again.graft is NotOffered,
{
    let q = lemma_parts_behind(s, iptc, companion, r);
    lemma_parts_in_order(s, iptc, companion, q);
    lemma_read_as_is(q);
    lemma_rebuilt_again(r, q, order_of(s));
}

/// A second pass settles a block: whatever order its source lists its tags in, every pass
/// after the second gives the bytes that the second gave.
pub proof fn a_second_pass_settles_a_block(
    s: Seq<u8>,
    iptc: Option<Seq<u8>>,
    companion: Option<NoteView>,
    r: RebuiltView,
    again: RebuiltView,
)
    requires
        becomes(s, iptc, companion, r),
        becomes(r.tiff, None, None, again),
    ensures
        rebuilt(again.tiff, None, None) matches Ok(Some(third)) && third.tiff == again.tiff
            && third.tag_count == again.tag_count && !third.dropped && third.graft is NotOffered,
{
    let q = lemma_parts_behind(s, iptc, companion, r);
    let le = order_of(s);
    let p = read_again(q);
    lemma_rebuilt_again(r, q, order_of(s));
    lemma_planned_again(q, le);
    lemma_read_alike(q, le);
    lemma_alike(laid(q, le), laid(p, le), laid(q, le).len() as int);
    lemma_read_is_kept(q, le);
    lemma_ifd_placed(r.tiff, le, 8);
    lemma_settled_plan(r.tiff, le, 8, ifd_read(laid(q, le), 0), None, None);
    lemma_first_again(laid(p, le), le);
    lemma_read_as_is(p);
    lemma_rebuilt_again(again, p, le);
}

} // verus!
