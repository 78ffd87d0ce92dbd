//! Which `MakerNote`s can be kept at their place.

use vstd::prelude::*;

use crate::portable::block::{ifd_at, region_end, PlanEntryView, PlannedView, ValueView};
use crate::portable::exif::laws::{becomes, ifd0_of, order_of};
use crate::portable::exif::{
    begun, chosen_note, completed, copied, drafted, pin_reaches, plain_ifd, plan_of, planned,
    settled_plan, sub_ifd, thumbnail_of, with_exif, with_gps, DraftView, NoteView, RebuiltView, Rule,
};
use crate::portable::tiff::{ifd_of, opened, EntryView, IfdView};

verus! {

/// How many entries an IFD has that may not be there.
pub open spec fn entry_count(x: Option<IfdView>) -> int {
    match x {
        Some(x) => x.entries.len() as int,
        None => 0,
    }
}

/// How many entries the IFDs of a block have: the first, the Exif, the GPS and the
/// interoperability IFD, and the one the first is followed by.
pub open spec fn entries_in_all(s: Seq<u8>) -> int {
    let le = order_of(s);
    let ifd0 = ifd0_of(s);
    ifd0.entries.len() + entry_count(sub_ifd(s, le, ifd0, 34665)) + entry_count(
        sub_ifd(s, le, ifd0, 34853),
    ) + (match sub_ifd(s, le, ifd0, 34665) {
        Some(x) => entry_count(sub_ifd(s, le, x, 40965)),
        None => 0,
    }) + (match ifd_of(s, le, ifd0.next) {
        Ok(x) => x.entries.len() as int,
        Err(_) => 0,
    })
}

proof fn lemma_planned_len(s: Seq<u8>, entries: Seq<(u16, EntryView)>, rule: Rule, n: int)
    requires
        0 <= n,
    ensures
        planned(s, entries, rule, n).len() <= n,
    decreases n,
{
    if n > 0 {
        lemma_planned_len(s, entries, rule, n - 1);
        assert(copied(s, entries[n - 1], rule).len() <= 1);
    }
}

proof fn lemma_same_front(a: Seq<PlannedView>, b: Seq<PlannedView>, i: int)
    requires
        0 <= i <= a.len(),
        i <= b.len(),
        forall|k: int| 0 <= k < i ==> #[trigger] a[k] == b[k],
    ensures
        ifd_at(a, i) == ifd_at(b, i),
    decreases i,
{
    if i > 0 {
        lemma_same_front(a, b, i - 1);
    }
}

proof fn lemma_push(ifds: Seq<PlannedView>, x: PlannedView)
    ensures
        region_end(ifds.push(x)) == region_end(ifds) + 6 + 12 * x.entries.len(),
{
    lemma_same_front(ifds.push(x), ifds, ifds.len() as int);
}

proof fn lemma_root(ifds: Seq<PlannedView>, x: PlannedView, i: int)
    requires
        1 <= i <= ifds.len(),
    ensures
        ifd_at(ifds.update(0, x), i) == ifd_at(ifds, i) + 12 * x.entries.len() - 12
            * ifds[0].entries.len(),
    decreases i,
{
    reveal_with_fuel(ifd_at, 2);
    if i > 1 {
        lemma_root(ifds, x, i - 1);
    }
}

/// How far the IFDs of a draft reach, once its first one is filled.
spec fn reach(d: DraftView) -> int {
    region_end(d.ifds) + 12 * d.root.len()
}

proof fn lemma_begun(s: Seq<u8>, ifd0: IfdView, iptc: Option<Seq<u8>>)
    ensures
        ({
            let d = begun(s, ifd0, iptc);
            &&& reach(d) <= 14 + 12 * (ifd0.entries.len() + 1)
            &&& d.ifds.len() == 1 && d.ifds[0].entries.len() == 0
            &&& d.maker is None
            &&& region_end(d.ifds) == 14
        }),
{
    lemma_planned_len(s, ifd0.entries, Rule::Root, ifd0.entries.len() as int);
    reveal_with_fuel(ifd_at, 2);
}

proof fn lemma_exif(
    s: Seq<u8>,
    le: bool,
    ifd0: IfdView,
    companion: Option<NoteView>,
    d: DraftView,
    x: IfdView,
    m: PlanEntryView,
)
    requires
        d.ifds.len() == 1,
        d.ifds[0].entries.len() == 0,
        d.maker is None,
        sub_ifd(s, le, ifd0, 34665) == Some(x),
        chosen_note(s, le, x, companion).0 == Some(m),
        m.value is Pinned,
    ensures
        ({
            let e = with_exif(s, le, ifd0, companion, true, d);
            &&& reach(e) <= reach(d) + 24 + 12 * (x.entries.len() + 2 + entry_count(
                sub_ifd(s, le, x, 40965),
            ))
            &&& e.ifds.len() >= 2 && e.ifds[0].entries.len() == 0
            &&& e.maker matches Some(at) && 1 <= at.0 < e.ifds.len() && 0 <= at.1
                < e.ifds[at.0].entries.len() && e.ifds[at.0].entries[at.1] == m
        }),
{
    reveal(with_exif);
    lemma_planned_len(s, x.entries, Rule::Exif, x.entries.len() as int);
    let interop = match sub_ifd(s, le, x, 40965) {
        Some(y) => plan_of(s, y, Rule::All),
        None => seq![],
    };
    if let Some(y) = sub_ifd(s, le, x, 40965) {
        lemma_planned_len(s, y.entries, Rule::All, y.entries.len() as int);
    }
    lemma_push(d.ifds, plain_ifd(interop));
    let ifds = if interop.len() > 0 {
        d.ifds.push(plain_ifd(interop))
    } else {
        d.ifds
    };
    let e = with_exif(s, le, ifd0, companion, true, d);
    lemma_push(ifds, e.ifds.last());
    assert(e.ifds =~= ifds.push(e.ifds.last()));
}

proof fn lemma_gps(s: Seq<u8>, le: bool, ifd0: IfdView, d: DraftView, m: PlanEntryView)
    requires
        d.ifds.len() >= 2,
        d.ifds[0].entries.len() == 0,
        d.maker matches Some(at) && 1 <= at.0 < d.ifds.len() && 0 <= at.1
            < d.ifds[at.0].entries.len() && d.ifds[at.0].entries[at.1] == m,
    ensures
        ({
            let e = with_gps(s, le, ifd0, d);
            &&& reach(e) <= reach(d) + 18 + 12 * entry_count(sub_ifd(s, le, ifd0, 34853))
            &&& e.ifds.len() >= 2 && e.ifds[0].entries.len() == 0
            &&& e.maker matches Some(at) && 1 <= at.0 < e.ifds.len() && 0 <= at.1
                < e.ifds[at.0].entries.len() && e.ifds[at.0].entries[at.1] == m
        }),
{
    reveal(with_gps);
    if let Some(x) = sub_ifd(s, le, ifd0, 34853) {
        lemma_planned_len(s, x.entries, Rule::All, x.entries.len() as int);
        lemma_push(d.ifds, plain_ifd(plan_of(s, x, Rule::All)));
    }
}

proof fn lemma_grows(ifds: Seq<PlannedView>, i: int)
    requires
        1 <= i <= ifds.len(),
    ensures
        ifd_at(ifds, i) >= 14,
    decreases i,
{
    reveal_with_fuel(ifd_at, 2);
    if i > 1 {
        lemma_grows(ifds, i - 1);
    }
}

proof fn lemma_completed(
    s: Seq<u8>,
    le: bool,
    first: int,
    ifd0: IfdView,
    d: DraftView,
    m: PlanEntryView,
)
    requires
        d.ifds.len() >= 2,
        d.ifds[0].entries.len() == 0,
        d.maker matches Some(at) && 1 <= at.0 < d.ifds.len() && 0 <= at.1
            < d.ifds[at.0].entries.len() && d.ifds[at.0].entries[at.1] == m,
    ensures
        ({
            let all = completed(d, thumbnail_of(s, le, first, ifd0));
            let at = d.maker->Some_0;
            &&& 14 <= region_end(all) <= reach(d) + 30 + 12 * (match ifd_of(s, le, ifd0.next) {
                Ok(x) => x.entries.len() as int,
                Err(_) => 0,
            })
            &&& all[at.0].entries[at.1] == m
        }),
{
    reveal(thumbnail_of);
    let t = thumbnail_of(s, le, first, ifd0);
    let all = completed(d, t);
    if let Some(v) = t {
        let x = ifd_of(s, le, ifd0.next)->Ok_0;
        lemma_planned_len(s, x.entries, Rule::Thumbnail, x.entries.len() as int);
        lemma_push(d.ifds, plain_ifd(v));
        let more = d.ifds.push(plain_ifd(v));
        lemma_root(more, all[0], more.len() as int);
        assert(all =~= more.update(0, all[0]));
    } else {
        lemma_root(d.ifds, all[0], d.ifds.len() as int);
        assert(all =~= d.ifds.update(0, all[0]));
    }
    lemma_grows(all, all.len() as int);
}

/// A note that stands behind what the IFDs could come to at the most, and not more than a
/// megabyte from the start, is not left out, whether it is the block's own or an offered one.
pub proof fn a_note_in_reach_is_kept(
    s: Seq<u8>,
    iptc: Option<Seq<u8>>,
    companion: Option<NoteView>,
    r: RebuiltView,
    x: IfdView,
    m: PlanEntryView,
)
    requires
        becomes(s, iptc, companion, r),
        sub_ifd(s, order_of(s), ifd0_of(s), 34665) == Some(x),
        chosen_note(s, order_of(s), x, companion).0 == Some(m),
        m.value matches ValueView::Pinned { offset, .. } && 122 + 12 * entries_in_all(s) <= offset
            <= 0x10_0000,
    ensures
        !r.dropped,
        !(r.graft is Unreachable),
{
    let le = order_of(s);
    let ifd0 = ifd0_of(s);
    let first = opened(s)->Some_0.1;
    let a = begun(s, ifd0, iptc);
    let b = with_exif(s, le, ifd0, companion, true, a);
    let d = drafted(s, le, ifd0, iptc, companion, true);
    lemma_begun(s, ifd0, iptc);
    lemma_exif(s, le, ifd0, companion, a, x, m);
    lemma_gps(s, le, ifd0, b, m);
    lemma_completed(s, le, first, ifd0, d, m);
    let all = completed(d, thumbnail_of(s, le, first, ifd0));
    assert(pin_reaches(all, m.value->Pinned_offset));
    lemma_settled(s, iptc, companion, x);
}

proof fn lemma_settled(s: Seq<u8>, iptc: Option<Seq<u8>>, companion: Option<NoteView>, x: IfdView)
    requires
        sub_ifd(s, order_of(s), ifd0_of(s), 34665) == Some(x),
    ensures
        ({
            let le = order_of(s);
            let ifd0 = ifd0_of(s);
            let first = opened(s)->Some_0.1;
            let d = drafted(s, le, ifd0, iptc, companion, true);
            let all = completed(d, thumbnail_of(s, le, first, ifd0));
            let p = settled_plan(s, le, first, ifd0, iptc, companion);
            d.maker matches Some(at) ==> pin_reaches(
                all,
                all[at.0].entries[at.1].value->Pinned_offset,
            ) ==> !p.dropped && !(p.graft is Unreachable)
        }),
{
    reveal(settled_plan);
    reveal(with_exif);
    reveal(with_gps);
}

} // verus!
