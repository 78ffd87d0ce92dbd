//! What holds of every block that is rebuilt: the tags it carries, the tags it leaves out,
//! and where it keeps a `MakerNote`.

pub mod reach;

use vstd::prelude::*;

use crate::bytes::{group_encoded_lengths, lemma_word32_read_back, word32_bytes};
use crate::portable::block::{
    a_block_reads_back, a_pinned_value_keeps_its_place, block_bytes, entry_read,
    every_entry_is_written, ifd_at, ifd_read, is_written, lemma_ifd_starts, lemma_pin_is,
    plan_fits,
    states_its_values, value_read, written_at, PlanEntryView, PlannedView, ValueView,
};
use crate::portable::exif::{
    all_placed, begun, chosen_note, completed, copied, drafted, dropped, keeps,
    lemma_completed_shape, lemma_drafted_shape, lemma_ifd_placed, lemma_settled_plan,
    lemma_stated_entries_grow, lemma_stated_grow, lemma_thumbnail, note_is_whole, own_note,
    pin_reaches, plain_ifd, plan_of, planned, pointer_to, rebuilt, settled_plan, shaped, stated, sub_ifd, thumbnail_of,
    with_exif, with_gps, DraftView, MakerNoteGraft, NoteView, RebuiltView, Rule, Settled,
    TAG_EXIF_IFD, TAG_GPS_IFD, TAG_INTEROP_IFD, TAG_MAKER_NOTE,
};
use crate::portable::tiff::{
    find_tag, first_integer, ifd_of, integer_at, integers_of, opened, size_of, value_of, EntryView,
    Fault, IfdView,
};

verus! {

broadcast use group_encoded_lengths;

/// Whether an entry of a block has this tag, type and count, and this value.
pub open spec fn entry_states(
    t: Seq<u8>,
    x: (u16, EntryView),
    tag: u16,
    typ: u16,
    count: u32,
    b: Seq<u8>,
) -> bool {
    x.0 == tag && x.1.typ == typ && x.1.count == count && value_of(t, x.1) == Ok::<
        Seq<u8>,
        Fault,
    >(b)
}

/// Whether the IFD at `at` states a tag: there is an entry with this type, count and value.
pub open spec fn states_tag(
    t: Seq<u8>,
    le: bool,
    at: int,
    tag: u16,
    typ: u16,
    count: u32,
    b: Seq<u8>,
) -> bool {
    &&& ifd_of(t, le, at) is Ok
    &&& exists|j: int|
        0 <= j < ifd_of(t, le, at)->Ok_0.entries.len() && entry_states(
            t,
            #[trigger] ifd_of(t, le, at)->Ok_0.entries[j],
            tag,
            typ,
            count,
            b,
        )
}

/// Whether the IFD at `at` has a pointer that leads to `target`.
pub open spec fn leads_to(t: Seq<u8>, le: bool, at: int, tag: u16, target: int) -> bool {
    &&& ifd_of(t, le, at) is Ok
    &&& exists|j: int|
        0 <= j < ifd_of(t, le, at)->Ok_0.entries.len() && entry_leads(
            t,
            le,
            #[trigger] ifd_of(t, le, at)->Ok_0.entries[j],
            tag,
            target,
        )
}

pub open spec fn entry_leads(
    t: Seq<u8>,
    le: bool,
    x: (u16, EntryView),
    tag: u16,
    target: int,
) -> bool {
    x.0 == tag && first_integer(t, le, Some(x.1)) == Some(target as u32)
}

/// The bytes a value stores.
spec fn stored(v: ValueView) -> Seq<u8> {
    match v {
        ValueView::Bytes(b) => b,
        ValueView::Pinned { bytes, offset } => bytes,
        _ => seq![],
    }
}

proof fn lemma_stated_tag(ifds: Seq<PlannedView>, le: bool, i: int, e: PlanEntryView)
    requires
        plan_fits(ifds),
        states_its_values(ifds),
        0 <= i < ifds.len(),
        ifds[i].entries.contains(e),
        e.value is Bytes || e.value is Pinned,
    ensures
        states_tag(
            block_bytes(ifds, le),
            le,
            ifd_at(ifds, i),
            e.tag,
            e.typ,
            e.count,
            stored(e.value),
        ),
{
    let t = block_bytes(ifds, le);
    let k = ifds[i].entries.index_of(e);
    a_block_reads_back(ifds, le);
    every_entry_is_written(ifds, i);
    assert(is_written(ifds, i, k));
    let j = choose|j: int|
        0 <= j < ifds[i].entries.len() && #[trigger] written_at(ifds, i, j) == k;
    let x = ifd_of(t, le, ifd_at(ifds, i))->Ok_0;
    assert(x == ifd_read(ifds, i));
    assert(x.entries[j] == entry_read(ifds, i, j));
    assert(entry_states(t, x.entries[j], e.tag, e.typ, e.count, stored(e.value)));
}

proof fn lemma_pointer_leads(ifds: Seq<PlannedView>, le: bool, tag: u16, from: int, i: int)
    requires
        plan_fits(ifds),
        states_its_values(ifds),
        0 <= from < ifds.len(),
        ifds[from].entries.contains(pointer_to(tag, i)),
    ensures
        leads_to(block_bytes(ifds, le), le, ifd_at(ifds, from), tag, ifd_at(ifds, i)),
{
    let t = block_bytes(ifds, le);
    let e = pointer_to(tag, i);
    let k = ifds[from].entries.index_of(e);
    a_block_reads_back(ifds, le);
    every_entry_is_written(ifds, from);
    assert(is_written(ifds, from, k));
    let j = choose|j: int|
        0 <= j < ifds[from].entries.len() && #[trigger] written_at(ifds, from, j) == k;
    let x = ifd_of(t, le, ifd_at(ifds, from))->Ok_0;
    assert(x == ifd_read(ifds, from));
    let r = entry_read(ifds, from, j);
    assert(x.entries[j] == r);
    let w = word32_bytes(le, ifd_at(ifds, i) as u32);
    assert(value_read(ifds, le, from, j) == w);
    assert(value_of(t, r.1) == Ok::<Seq<u8>, Fault>(w));
    lemma_ifd_starts(ifds, from);
    assert(t.subrange(r.1.value_off, r.1.value_off + 4) == w);
    lemma_word32_read_back(le, ifd_at(ifds, i) as u32, t, r.1.value_off);
    assert(integers_of(t, le, r.1) is Ok);
    assert(integers_of(t, le, r.1)->Ok_0[0] == integer_at(t, le, 4, r.1.value_off + 0 * 4));
    assert(entry_leads(t, le, x.entries[j], tag, ifd_at(ifds, i)));
}

/// What a rule keeps is planned.
proof fn lemma_planned_holds(
    s: Seq<u8>,
    entries: Seq<(u16, EntryView)>,
    rule: Rule,
    n: int,
    k: int,
)
    requires
        0 <= k < n <= entries.len(),
        copied(s, entries[k], rule).len() > 0,
    ensures
        planned(s, entries, rule, n).contains(copied(s, entries[k], rule)[0]),
    decreases n,
{
    let e = copied(s, entries[k], rule)[0];
    let all = planned(s, entries, rule, n);
    let before = planned(s, entries, rule, n - 1);
    if k == n - 1 {
        assert(all[before.len() as int] == e);
    } else {
        lemma_planned_holds(s, entries, rule, n - 1, k);
        let j = before.index_of(e);
        assert(all[j] == e);
    }
}

proof fn lemma_push_contains<A>(v: Seq<A>, x: A, y: A)
    ensures
        v.contains(y) ==> v.push(x).contains(y),
        v.push(x).contains(x),
{
    let w = v.push(x);
    assert(w[v.len() as int] == x);
    if v.contains(y) {
        let j = v.index_of(y);
        assert(w[j] == y);
    }
}

/// What `IFD0` is to hold, it holds once the plan is complete.
proof fn lemma_root_is_kept(d: DraftView, t: Option<Seq<PlanEntryView>>, e: PlanEntryView)
    requires
        shaped(d),
        d.root.contains(e),
    ensures
        completed(d, t)[0].entries.contains(e),
{
    assert(completed(d, t)[0].entries == d.root);
}

/// What an IFD other than `IFD0` is to hold, it holds once the plan is complete.
proof fn lemma_ifd_is_kept(d: DraftView, t: Option<Seq<PlanEntryView>>, i: int, e: PlanEntryView)
    requires
        shaped(d),
        0 < i < d.ifds.len(),
        d.ifds[i].entries.contains(e),
    ensures
        i < completed(d, t).len(),
        completed(d, t)[i].entries.contains(e),
{
    assert(completed(d, t)[i] == d.ifds[i]);
}

/// Later steps only add to earlier ones.
proof fn lemma_steps_add(
    s: Seq<u8>,
    le: bool,
    ifd0: IfdView,
    companion: Option<NoteView>,
    keeping: bool,
    a: DraftView,
)
    requires
        shaped(a),
    ensures
        ({
            let b = with_exif(s, le, ifd0, companion, keeping, a);
            let c = with_gps(s, le, ifd0, b);
            &&& forall|e: PlanEntryView| #[trigger] a.root.contains(e) ==> b.root.contains(e)
            &&& forall|e: PlanEntryView| #[trigger] b.root.contains(e) ==> c.root.contains(e)
            &&& forall|i: int| 0 <= i < b.ifds.len() ==> #[trigger] c.ifds[i] == b.ifds[i]
            &&& b.ifds.len() <= c.ifds.len()
            &&& c.maker == b.maker
            &&& c.graft == b.graft
            &&& c.is_graft == b.is_graft
        }),
{
    reveal(with_exif);
    reveal(with_gps);
    let b = with_exif(s, le, ifd0, companion, keeping, a);
    let c = with_gps(s, le, ifd0, b);
    assert forall|e: PlanEntryView| #[trigger] a.root.contains(e) implies b.root.contains(e) by {
        if b.root != a.root {
            lemma_push_contains(a.root, b.root.last(), e);
            assert(b.root =~= a.root.push(b.root.last()));
        }
    }
    assert forall|e: PlanEntryView| #[trigger] b.root.contains(e) implies c.root.contains(e) by {
        if c.root != b.root {
            lemma_push_contains(b.root, c.root.last(), e);
            assert(c.root =~= b.root.push(c.root.last()));
        }
    }
}

/// The byte order of a block.
pub open spec fn order_of(s: Seq<u8>) -> bool {
    opened(s)->Some_0.0
}

/// The first IFD of a block.
pub open spec fn ifd0_of(s: Seq<u8>) -> IfdView {
    ifd_of(s, opened(s)->Some_0.0, opened(s)->Some_0.1)->Ok_0
}

/// Whether an entry is one that is carried: the rule keeps its tag, its type has a known
/// size, and its value is there.
pub open spec fn is_carried(s: Seq<u8>, x: (u16, EntryView), rule: Rule) -> bool {
    keeps(rule, x.0) && size_of(x.1.typ) > 0 && value_of(s, x.1) is Ok
}

/// Whether `r` is what becomes of the block `s`.
pub open spec fn becomes(
    s: Seq<u8>,
    iptc: Option<Seq<u8>>,
    companion: Option<NoteView>,
    r: RebuiltView,
) -> bool {
    &&& rebuilt(s, iptc, companion) == Ok::<Option<RebuiltView>, Seq<char>>(Some(r))
    &&& companion matches Some(c) ==> note_is_whole(c)
}

spec fn plan_behind(s: Seq<u8>, iptc: Option<Seq<u8>>, companion: Option<NoteView>) -> Settled {
    settled_plan(s, order_of(s), opened(s)->Some_0.1, ifd0_of(s), iptc, companion)
}

/// The plan behind a rebuilt block, with its `MakerNote` or without.
proof fn lemma_behind(
    s: Seq<u8>,
    iptc: Option<Seq<u8>>,
    companion: Option<NoteView>,
    r: RebuiltView,
) -> (keeping: bool)
    requires
        becomes(s, iptc, companion, r),
    ensures
        ({
            let p = plan_behind(s, iptc, companion);
            let a = begun(s, ifd0_of(s), iptc);
            let b = with_exif(s, order_of(s), ifd0_of(s), companion, keeping, a);
            let d = drafted(s, order_of(s), ifd0_of(s), iptc, companion, keeping);
            let t = thumbnail_of(s, order_of(s), opened(s)->Some_0.1, ifd0_of(s));
            &&& opened(s) is Some
            &&& all_placed(ifd0_of(s).entries)
            &&& 0 <= ifd0_of(s).next
            &&& p.ifds.len() > 0
            &&& plan_fits(p.ifds)
            &&& states_its_values(p.ifds)
            &&& r.tiff == block_bytes(p.ifds, order_of(s))
            &&& r.graft == p.graft
            &&& r.dropped == p.dropped
            &&& p.ifds == completed(d, t)
            &&& shaped(a)
            &&& shaped(b)
            &&& shaped(d)
            &&& !keeping ==> r.dropped || r.graft is Unreachable
        }),
{
    reveal(settled_plan);
    let le = order_of(s);
    let first = opened(s)->Some_0.1;
    let ifd0 = ifd0_of(s);
    lemma_ifd_placed(s, le, first);
    lemma_settled_plan(s, le, first, ifd0, iptc, companion);
    lemma_drafted_shape(s, le, first, ifd0, iptc, companion, true);
    lemma_drafted_shape(s, le, first, ifd0, iptc, companion, false);
    let d = drafted(s, le, ifd0, iptc, companion, true);
    let all = completed(d, thumbnail_of(s, le, first, ifd0));
    match d.maker {
        None => true,
        Some(at) => pin_reaches(all, all[at.0].entries[at.1].value->Pinned_offset),
    }
}

/// A rebuilt block is a TIFF in the source's byte order, and its IFDs are read back where
/// they were written.
pub proof fn a_rebuilt_block_is_a_tiff(
    s: Seq<u8>,
    iptc: Option<Seq<u8>>,
    companion: Option<NoteView>,
    r: RebuiltView,
)
    requires
        becomes(s, iptc, companion, r),
    ensures
        opened(s) is Some,
        opened(r.tiff) == Some((order_of(s), 8int)),
        ifd_of(r.tiff, order_of(s), 8) is Ok,
        r.tag_count > 0,
{
    lemma_behind(s, iptc, companion, r);
    let p = plan_behind(s, iptc, companion);
    a_block_reads_back(p.ifds, order_of(s));
    assert(ifd_at(p.ifds, 0) == 8);
    assert(ifd_of(r.tiff, order_of(s), ifd_at(p.ifds, 0)) is Ok);
    lemma_stated_is_some(p.ifds, p.ifds.len() as int);
}

proof fn lemma_stated_is_some(ifds: Seq<PlannedView>, n: int)
    requires
        0 <= n,
    ensures
        0 <= stated(ifds, n),
    decreases n,
{
    if n > 0 {
        lemma_stated_is_some(ifds, n - 1);
        lemma_stated_entries_grow(ifds[n - 1].entries, 0, ifds[n - 1].entries.len() as int);
    }
}

/// Every tag of the source's first IFD that is not on the denylist, whatever it is, is in
/// the rebuilt first IFD with the type, count and value it had.
pub proof fn ifd0_tags_are_carried(
    s: Seq<u8>,
    iptc: Option<Seq<u8>>,
    companion: Option<NoteView>,
    r: RebuiltView,
    k: int,
)
    requires
        becomes(s, iptc, companion, r),
        0 <= k < ifd0_of(s).entries.len(),
        is_carried(s, ifd0_of(s).entries[k], Rule::Root),
    ensures
        ({
            let x = ifd0_of(s).entries[k];
            states_tag(
                r.tiff,
                order_of(s),
                8,
                x.0,
                x.1.typ,
                x.1.count,
                value_of(s, x.1)->Ok_0,
            )
        }),
{
    let keeping = lemma_behind(s, iptc, companion, r);
    let le = order_of(s);
    let ifd0 = ifd0_of(s);
    let x = ifd0.entries[k];
    let p = plan_behind(s, iptc, companion);
    let a = begun(s, ifd0, iptc);
    let d = drafted(s, le, ifd0, iptc, companion, keeping);
    let t = thumbnail_of(s, le, opened(s)->Some_0.1, ifd0);
    let e = copied(s, x, Rule::Root)[0];
    let kept = plan_of(s, ifd0, Rule::Root);
    lemma_planned_holds(s, ifd0.entries, Rule::Root, ifd0.entries.len() as int, k);
    let j = kept.index_of(e);
    assert(a.root[j] == e);
    assert(a.root.contains(e));
    lemma_steps_add(s, le, ifd0, companion, keeping, a);
    lemma_root_is_kept(d, t, e);
    lemma_stated_tag(p.ifds, le, 0, e);
    assert(ifd_at(p.ifds, 0) == 8);
}

/// An IPTC block from outside goes into the first IFD of a source that has none there, as tag
/// 33723 in bytes of no particular kind.
pub proof fn an_outside_iptc_block_is_carried(
    s: Seq<u8>,
    iptc: Seq<u8>,
    companion: Option<NoteView>,
    r: RebuiltView,
)
    requires
        becomes(s, Some(iptc), companion, r),
        find_tag(ifd0_of(s).entries, 33723, 0) is None,
        iptc.len() > 0,
    ensures
        states_tag(r.tiff, order_of(s), 8, 33723, 7, iptc.len() as u32, iptc),
{
    let keeping = lemma_behind(s, Some(iptc), companion, r);
    let le = order_of(s);
    let ifd0 = ifd0_of(s);
    let p = plan_behind(s, Some(iptc), companion);
    let a = begun(s, ifd0, Some(iptc));
    let d = drafted(s, le, ifd0, Some(iptc), companion, keeping);
    let t = thumbnail_of(s, le, opened(s)->Some_0.1, ifd0);
    let e = PlanEntryView {
        tag: 33723,
        typ: 7,
        count: iptc.len() as u32,
        value: ValueView::Bytes(iptc),
    };
    let kept = plan_of(s, ifd0, Rule::Root);
    assert(a.root[kept.len() as int] == e);
    assert(a.root.contains(e));
    lemma_steps_add(s, le, ifd0, companion, keeping, a);
    lemma_root_is_kept(d, t, e);
    lemma_stated_tag(p.ifds, le, 0, e);
    assert(ifd_at(p.ifds, 0) == 8);
}

/// What the step that adds the Exif IFD adds: the IFD, and the pointer to it.
proof fn lemma_exif_is_added(
    s: Seq<u8>,
    le: bool,
    ifd0: IfdView,
    companion: Option<NoteView>,
    keeping: bool,
    a: DraftView,
    e: PlanEntryView,
)
    requires
        shaped(a),
        sub_ifd(s, le, ifd0, TAG_EXIF_IFD) is Some,
        ({
            let x = sub_ifd(s, le, ifd0, TAG_EXIF_IFD)->Some_0;
            ||| plan_of(s, x, Rule::Exif).contains(e)
            ||| keeping && chosen_note(s, le, x, companion).0 == Some(e)
        }),
    ensures
        ({
            let b = with_exif(s, le, ifd0, companion, keeping, a);
            let i = b.ifds.len() - 1;
            &&& 0 < i
            &&& b.ifds[i].entries.contains(e)
            &&& b.root.contains(pointer_to(TAG_EXIF_IFD, i))
        }),
{
    reveal(with_exif);
    let x = sub_ifd(s, le, ifd0, TAG_EXIF_IFD)->Some_0;
    let b = with_exif(s, le, ifd0, companion, keeping, a);
    let note = if keeping {
        chosen_note(s, le, x, companion).0
    } else {
        None
    };
    let interop = match sub_ifd(s, le, x, TAG_INTEROP_IFD) {
        Some(y) => plan_of(s, y, Rule::All),
        None => seq![],
    };
    let ifds = if interop.len() > 0 {
        a.ifds.push(plain_ifd(interop))
    } else {
        a.ifds
    };
    let kept = plan_of(s, x, Rule::Exif);
    let some = kept + (if interop.len() > 0 {
        seq![pointer_to(TAG_INTEROP_IFD, ifds.len() - 1)]
    } else {
        seq![]
    });
    let entries = match note {
        Some(m) => some.push(m),
        None => some,
    };
    assert(entries.contains(e)) by {
        if kept.contains(e) {
            let j = kept.index_of(e);
            assert(entries[j] == e);
        } else {
            assert(entries[some.len() as int] == e);
        }
    }
    let i = b.ifds.len() - 1;
    assert(b.ifds[i] == plain_ifd(entries));
    lemma_push_contains(a.root, pointer_to(TAG_EXIF_IFD, i), pointer_to(TAG_EXIF_IFD, i));
}

/// Every tag of the source's Exif IFD -- the camera, the lens, the exposure, the date --
/// is in an Exif IFD that the rebuilt first IFD leads to, with the type, count and value
/// it had.
pub proof fn exif_tags_are_carried(
    s: Seq<u8>,
    iptc: Option<Seq<u8>>,
    companion: Option<NoteView>,
    r: RebuiltView,
    x: IfdView,
    k: int,
) -> (at: int)
    requires
        becomes(s, iptc, companion, r),
        sub_ifd(s, order_of(s), ifd0_of(s), TAG_EXIF_IFD) == Some(x),
        0 <= k < x.entries.len(),
        is_carried(s, x.entries[k], Rule::Exif),
    ensures
        leads_to(r.tiff, order_of(s), 8, TAG_EXIF_IFD, at),
        states_tag(
            r.tiff,
            order_of(s),
            at,
            x.entries[k].0,
            x.entries[k].1.typ,
            x.entries[k].1.count,
            value_of(s, x.entries[k].1)->Ok_0,
        ),
{
    let keeping = lemma_behind(s, iptc, companion, r);
    let le = order_of(s);
    let ifd0 = ifd0_of(s);
    let p = plan_behind(s, iptc, companion);
    let a = begun(s, ifd0, iptc);
    let b = with_exif(s, le, ifd0, companion, keeping, a);
    let d = drafted(s, le, ifd0, iptc, companion, keeping);
    let t = thumbnail_of(s, le, opened(s)->Some_0.1, ifd0);
    let e = copied(s, x.entries[k], Rule::Exif)[0];
    lemma_planned_holds(s, x.entries, Rule::Exif, x.entries.len() as int, k);
    lemma_exif_is_added(s, le, ifd0, companion, keeping, a, e);
    lemma_steps_add(s, le, ifd0, companion, keeping, a);
    let i = b.ifds.len() - 1;
    assert(d.ifds[i] == b.ifds[i]);
    lemma_ifd_is_kept(d, t, i, e);
    lemma_root_is_kept(d, t, pointer_to(TAG_EXIF_IFD, i));
    lemma_stated_tag(p.ifds, le, i, e);
    assert(ifd_at(p.ifds, 0) == 8);
    lemma_pointer_leads(p.ifds, le, TAG_EXIF_IFD, 0, i);
    ifd_at(p.ifds, i)
}

/// Every tag of the source's GPS IFD is in a GPS IFD that the rebuilt first IFD leads to,
/// with the type, count and value it had.
pub proof fn gps_tags_are_carried(
    s: Seq<u8>,
    iptc: Option<Seq<u8>>,
    companion: Option<NoteView>,
    r: RebuiltView,
    x: IfdView,
    k: int,
) -> (at: int)
    requires
        becomes(s, iptc, companion, r),
        sub_ifd(s, order_of(s), ifd0_of(s), TAG_GPS_IFD) == Some(x),
        0 <= k < x.entries.len(),
        is_carried(s, x.entries[k], Rule::All),
    ensures
        leads_to(r.tiff, order_of(s), 8, TAG_GPS_IFD, at),
        states_tag(
            r.tiff,
            order_of(s),
            at,
            x.entries[k].0,
            x.entries[k].1.typ,
            x.entries[k].1.count,
            value_of(s, x.entries[k].1)->Ok_0,
        ),
{
    let keeping = lemma_behind(s, iptc, companion, r);
    reveal(with_gps);
    let le = order_of(s);
    let ifd0 = ifd0_of(s);
    let p = plan_behind(s, iptc, companion);
    let a = begun(s, ifd0, iptc);
    let b = with_exif(s, le, ifd0, companion, keeping, a);
    let d = drafted(s, le, ifd0, iptc, companion, keeping);
    let t = thumbnail_of(s, le, opened(s)->Some_0.1, ifd0);
    let e = copied(s, x.entries[k], Rule::All)[0];
    let kept = plan_of(s, x, Rule::All);
    lemma_planned_holds(s, x.entries, Rule::All, x.entries.len() as int, k);
    lemma_steps_add(s, le, ifd0, companion, keeping, a);
    assert(kept.contains(e));
    let i = b.ifds.len() as int;
    assert(d.ifds[i] == plain_ifd(kept));
    lemma_push_contains(b.root, pointer_to(TAG_GPS_IFD, i), pointer_to(TAG_GPS_IFD, i));
    lemma_ifd_is_kept(d, t, i, e);
    lemma_root_is_kept(d, t, pointer_to(TAG_GPS_IFD, i));
    lemma_stated_tag(p.ifds, le, i, e);
    assert(ifd_at(p.ifds, 0) == 8);
    lemma_pointer_leads(p.ifds, le, TAG_GPS_IFD, 0, i);
    ifd_at(p.ifds, i)
}

/// Copying the Exif IFD adds its interoperability IFD, and what leads there.
proof fn lemma_interop_is_added(
    s: Seq<u8>,
    le: bool,
    ifd0: IfdView,
    companion: Option<NoteView>,
    keeping: bool,
    a: DraftView,
    e: PlanEntryView,
)
    requires
        shaped(a),
        sub_ifd(s, le, ifd0, TAG_EXIF_IFD) is Some,
        ({
            let x = sub_ifd(s, le, ifd0, TAG_EXIF_IFD)->Some_0;
            &&& sub_ifd(s, le, x, TAG_INTEROP_IFD) is Some
            &&& plan_of(s, sub_ifd(s, le, x, TAG_INTEROP_IFD)->Some_0, Rule::All).contains(e)
        }),
    ensures
        ({
            let b = with_exif(s, le, ifd0, companion, keeping, a);
            let i = b.ifds.len() - 1;
            &&& 1 < i
            &&& b.ifds[i - 1].entries.contains(e)
            &&& b.ifds[i].entries.contains(pointer_to(TAG_INTEROP_IFD, i - 1))
            &&& b.root.contains(pointer_to(TAG_EXIF_IFD, i))
        }),
{
    reveal(with_exif);
    let x = sub_ifd(s, le, ifd0, TAG_EXIF_IFD)->Some_0;
    let b = with_exif(s, le, ifd0, companion, keeping, a);
    let interop = plan_of(s, sub_ifd(s, le, x, TAG_INTEROP_IFD)->Some_0, Rule::All);
    assert(interop.len() > 0);
    let ifds = a.ifds.push(plain_ifd(interop));
    let i = ifds.len() as int;
    assert(b.ifds[i - 1] == plain_ifd(interop));
    let n = plan_of(s, x, Rule::Exif).len() as int;
    assert(b.ifds[i].entries[n] == pointer_to(TAG_INTEROP_IFD, i - 1));
    lemma_push_contains(a.root, pointer_to(TAG_EXIF_IFD, i), pointer_to(TAG_EXIF_IFD, i));
}

/// Every tag of the source's interoperability IFD is in one that the rebuilt Exif IFD leads
/// to, with the type, count and value it had: the rebuilt first IFD leads to `exif`, and
/// the IFD there leads to `at`.
pub proof fn interop_tags_are_carried(
    s: Seq<u8>,
    iptc: Option<Seq<u8>>,
    companion: Option<NoteView>,
    r: RebuiltView,
    x: IfdView,
    y: IfdView,
    k: int,
) -> (found: (int, int))
    requires
        becomes(s, iptc, companion, r),
        sub_ifd(s, order_of(s), ifd0_of(s), TAG_EXIF_IFD) == Some(x),
        sub_ifd(s, order_of(s), x, TAG_INTEROP_IFD) == Some(y),
        0 <= k < y.entries.len(),
        is_carried(s, y.entries[k], Rule::All),
    ensures
        ({
            let (exif, at) = found;
            &&& leads_to(r.tiff, order_of(s), 8, TAG_EXIF_IFD, exif)
            &&& leads_to(r.tiff, order_of(s), exif, TAG_INTEROP_IFD, at)
            &&& states_tag(
                r.tiff,
                order_of(s),
                at,
                y.entries[k].0,
                y.entries[k].1.typ,
                y.entries[k].1.count,
                value_of(s, y.entries[k].1)->Ok_0,
            )
        }),
{
    let keeping = lemma_behind(s, iptc, companion, r);
    let le = order_of(s);
    let ifd0 = ifd0_of(s);
    let p = plan_behind(s, iptc, companion);
    let a = begun(s, ifd0, iptc);
    let b = with_exif(s, le, ifd0, companion, keeping, a);
    let d = drafted(s, le, ifd0, iptc, companion, keeping);
    let t = thumbnail_of(s, le, opened(s)->Some_0.1, ifd0);
    let e = copied(s, y.entries[k], Rule::All)[0];
    lemma_planned_holds(s, y.entries, Rule::All, y.entries.len() as int, k);
    lemma_interop_is_added(s, le, ifd0, companion, keeping, a, e);
    lemma_steps_add(s, le, ifd0, companion, keeping, a);
    let i = b.ifds.len() - 1;
    assert(d.ifds[i] == b.ifds[i]);
    assert(d.ifds[i - 1] == b.ifds[i - 1]);
    lemma_ifd_is_kept(d, t, i - 1, e);
    lemma_ifd_is_kept(d, t, i, pointer_to(TAG_INTEROP_IFD, i - 1));
    lemma_root_is_kept(d, t, pointer_to(TAG_EXIF_IFD, i));
    lemma_stated_tag(p.ifds, le, i - 1, e);
    assert(ifd_at(p.ifds, 0) == 8);
    lemma_pointer_leads(p.ifds, le, TAG_EXIF_IFD, 0, i);
    lemma_pointer_leads(p.ifds, le, TAG_INTEROP_IFD, i, i - 1);
    (ifd_at(p.ifds, i), ifd_at(p.ifds, i - 1))
}

spec fn none_dropped(entries: Seq<PlanEntryView>) -> bool {
    forall|k: int| 0 <= k < entries.len() ==> !dropped((#[trigger] entries[k]).tag)
}

proof fn lemma_planned_drops(s: Seq<u8>, entries: Seq<(u16, EntryView)>, n: int)
    requires
        0 <= n <= entries.len(),
    ensures
        none_dropped(planned(s, entries, Rule::Root, n)),
    decreases n,
{
    if n > 0 {
        lemma_planned_drops(s, entries, n - 1);
    }
}

/// No tag on the denylist is in the rebuilt first IFD: nothing there addresses pixels that
/// are not in the output, or describes how the source's were laid out.
pub proof fn dropped_tags_stay_out(
    s: Seq<u8>,
    iptc: Option<Seq<u8>>,
    companion: Option<NoteView>,
    r: RebuiltView,
    j: int,
)
    requires
        becomes(s, iptc, companion, r),
        0 <= j < ifd_of(r.tiff, order_of(s), 8)->Ok_0.entries.len(),
    ensures
        !dropped(ifd_of(r.tiff, order_of(s), 8)->Ok_0.entries[j].0),
{
    let keeping = lemma_behind(s, iptc, companion, r);
    let le = order_of(s);
    let ifd0 = ifd0_of(s);
    let p = plan_behind(s, iptc, companion);
    let a = begun(s, ifd0, iptc);
    let b = with_exif(s, le, ifd0, companion, keeping, a);
    let d = drafted(s, le, ifd0, iptc, companion, keeping);
    let t = thumbnail_of(s, le, opened(s)->Some_0.1, ifd0);
    lemma_planned_drops(s, ifd0.entries, ifd0.entries.len() as int);
    assert(none_dropped(a.root));
    assert(none_dropped(d.root)) by {
        reveal(with_exif);
        reveal(with_gps);
        assert(none_dropped(b.root));
    }
    assert(p.ifds[0].entries == d.root);
    a_block_reads_back(p.ifds, le);
    every_entry_is_written(p.ifds, 0);
    assert(ifd_at(p.ifds, 0) == 8);
    assert(ifd_of(r.tiff, le, ifd_at(p.ifds, 0)) == Ok::<IfdView, Fault>(ifd_read(p.ifds, 0)));
    let k = written_at(p.ifds, 0, j);
    assert(!dropped(p.ifds[0].entries[k].tag));
}

/// A `MakerNote` too long to live in its entry, the source's own unless it is reported as
/// dropped or a companion's that is reported as carried, is in the Exif IFD, and its bytes
/// lie at exactly the offset they had in the file they come from -- the one their own
/// pointers are written against.
pub proof fn a_note_keeps_its_place(
    s: Seq<u8>,
    iptc: Option<Seq<u8>>,
    companion: Option<NoteView>,
    r: RebuiltView,
    x: IfdView,
    m: PlanEntryView,
) -> (at: int)
    requires
        becomes(s, iptc, companion, r),
        sub_ifd(s, order_of(s), ifd0_of(s), TAG_EXIF_IFD) == Some(x),
        chosen_note(s, order_of(s), x, companion).0 == Some(m),
        m.value is Pinned,
        !r.dropped,
        !(r.graft is Unreachable),
    ensures
        ({
            let b = m.value->Pinned_bytes;
            let offset = m.value->Pinned_offset;
            &&& leads_to(r.tiff, order_of(s), 8, TAG_EXIF_IFD, at)
            &&& states_tag(r.tiff, order_of(s), at, TAG_MAKER_NOTE, m.typ, m.count, b)
            &&& 8 <= offset
            &&& offset + b.len() <= r.tiff.len()
            &&& r.tiff.subrange(offset, offset + b.len()) == b
        }),
{
    let keeping = lemma_behind(s, iptc, companion, r);
    let le = order_of(s);
    let ifd0 = ifd0_of(s);
    let p = plan_behind(s, iptc, companion);
    let a = begun(s, ifd0, iptc);
    let b = with_exif(s, le, ifd0, companion, keeping, a);
    let d = drafted(s, le, ifd0, iptc, companion, keeping);
    let t = thumbnail_of(s, le, opened(s)->Some_0.1, ifd0);
    lemma_exif_is_added(s, le, ifd0, companion, keeping, a, m);
    lemma_steps_add(s, le, ifd0, companion, keeping, a);
    let i = b.ifds.len() - 1;
    assert(d.ifds[i] == b.ifds[i]);
    assert(d.maker == Some((i, d.ifds[i].entries.len() - 1)) && d.ifds[i].entries.last() == m)
        by {
        reveal(with_exif);
    }
    let all = completed(d, t);
    lemma_thumbnail(s, le, opened(s)->Some_0.1, ifd0, d.ifds.len() as int + 1);
    lemma_completed_shape(d, t);
    assert(all[i] == d.ifds[i]);
    assert(p.ifds == all);
    let j = d.root.index_of(pointer_to(TAG_EXIF_IFD, i));
    assert(all[0].entries[j] == pointer_to(TAG_EXIF_IFD, i));
    lemma_stated_tag(p.ifds, le, i, m);
    assert(ifd_at(p.ifds, 0) == 8);
    lemma_pointer_leads(p.ifds, le, TAG_EXIF_IFD, 0, i);
    lemma_pin_is(p.ifds, Some(i), p.ifds.len() as int);
    a_pinned_value_keeps_its_place(p.ifds, le);
    ifd_at(p.ifds, i)
}

/// A refused graft leaves everything else exactly as it would have been without an offer,
/// for every reason there is.
pub proof fn a_refused_graft_changes_nothing(
    s: Seq<u8>,
    iptc: Option<Seq<u8>>,
    companion: NoteView,
    r: RebuiltView,
)
    requires
        rebuilt(s, iptc, Some(companion)) == Ok::<Option<RebuiltView>, Seq<char>>(Some(r)),
        !(r.graft is Carried),
    ensures
        rebuilt(s, iptc, None) == Ok::<Option<RebuiltView>, Seq<char>>(
            Some(RebuiltView { graft: MakerNoteGraft::NotOffered, ..r }),
        ),
{
    reveal(settled_plan);
    reveal(with_exif);
    reveal(with_gps);
    let p = plan_behind(s, iptc, Some(companion));
    let q = plan_behind(s, iptc, None);
    assert(q.ifds == p.ifds && q.dropped == p.dropped && q.graft is NotOffered);
}

/// Why a graft was refused: there is no Exif IFD that can be read, or it has a `MakerNote`
/// of its own, or the byte orders differ, or else the note is out of reach. One that was
/// offered is never reported as not offered.
pub proof fn a_refusal_has_its_reason(
    s: Seq<u8>,
    iptc: Option<Seq<u8>>,
    companion: NoteView,
    r: RebuiltView,
)
    requires
        rebuilt(s, iptc, Some(companion)) == Ok::<Option<RebuiltView>, Seq<char>>(Some(r)),
        !(r.graft is Carried),
    ensures
        r.graft == match sub_ifd(s, order_of(s), ifd0_of(s), TAG_EXIF_IFD) {
            None => MakerNoteGraft::NoExifIfd,
            Some(x) => if own_note(s, x) is Some {
                MakerNoteGraft::HostHasOwn
            } else if companion.little_endian != order_of(s) {
                MakerNoteGraft::ByteOrderDiffers
            } else {
                MakerNoteGraft::Unreachable
            },
        },
{
    reveal(settled_plan);
    reveal(with_exif);
    reveal(with_gps);
}

/// A plan whose first IFD states a tag is not empty.
proof fn lemma_something_is_stated(ifds: Seq<PlannedView>, e: PlanEntryView)
    requires
        ifds.len() > 0,
        ifds[0].entries.contains(e),
        !(e.value is IfdPointer),
    ensures
        stated(ifds, ifds.len() as int) > 0,
{
    let es = ifds[0].entries;
    let j = es.index_of(e);
    lemma_stated_entries_grow(es, 0, j);
    lemma_stated_entries_grow(es, j + 1, es.len() as int);
    assert(stated(ifds, 0) == 0);
    assert(stated(ifds, 1) > 0);
    lemma_stated_grow(ifds, 1, ifds.len() as int);
}

/// A block whose first IFD has a tag to carry is never passed over as one with nothing in it.
pub proof fn a_block_with_a_tag_is_not_passed_over(
    s: Seq<u8>,
    iptc: Option<Seq<u8>>,
    companion: Option<NoteView>,
    k: int,
)
    requires
        opened(s) is Some,
        ifd_of(s, order_of(s), opened(s)->Some_0.1) is Ok,
        companion matches Some(c) ==> note_is_whole(c),
        0 <= k < ifd0_of(s).entries.len(),
        is_carried(s, ifd0_of(s).entries[k], Rule::Root),
    ensures
        !(rebuilt(s, iptc, companion) == Ok::<Option<RebuiltView>, Seq<char>>(None)),
{
    let le = order_of(s);
    let first = opened(s)->Some_0.1;
    let ifd0 = ifd0_of(s);
    let a = begun(s, ifd0, iptc);
    let t = thumbnail_of(s, le, first, ifd0);
    let e = copied(s, ifd0.entries[k], Rule::Root)[0];
    let kept = plan_of(s, ifd0, Rule::Root);
    lemma_ifd_placed(s, le, first);
    lemma_planned_holds(s, ifd0.entries, Rule::Root, ifd0.entries.len() as int, k);
    let j = kept.index_of(e);
    assert(a.root[j] == e);
    assert(a.root.contains(e));
    lemma_drafted_shape(s, le, first, ifd0, iptc, companion, true);
    lemma_drafted_shape(s, le, first, ifd0, iptc, companion, false);
    lemma_steps_add(s, le, ifd0, companion, true, a);
    lemma_steps_add(s, le, ifd0, companion, false, a);
    let d1 = drafted(s, le, ifd0, iptc, companion, true);
    let d2 = drafted(s, le, ifd0, iptc, companion, false);
    lemma_root_is_kept(d1, t, e);
    lemma_root_is_kept(d2, t, e);
    lemma_something_is_stated(completed(d1, t), e);
    lemma_something_is_stated(completed(d2, t), e);
    reveal(settled_plan);
}

} // verus!
