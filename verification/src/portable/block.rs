//! A planned TIFF structure, and the bytes it is written as: the header, the IFDs in
//! order, then one shared value area.

use vstd::prelude::*;

use crate::bytes::{
    group_encoded_lengths, lemma_word16_read_back, lemma_word32_read_back, push_all, push_word16,
    push_word32, word16_bytes, word32_bytes,
};
use crate::portable::tiff::{
    entries_from, entry_at, ifd_of, is_inline, opened, size_of, value_of, EntryView, Fault, IfdView,
};

verus! {

broadcast use group_encoded_lengths;

/// One entry's value.
pub enum ValueView {
    /// Stored in the entry itself when it fits in four bytes, in the value area
    /// otherwise.
    Bytes(Seq<u8>),
    /// Four bytes, always inside the entry.
    Immediate(Seq<u8>),
    /// Placed at exactly `offset`, because the value's own contents are addressed
    /// relative to the TIFF header.
    Pinned { bytes: Seq<u8>, offset: int },
    /// Placed wherever there is room, with the entry holding a LONG *pointing* at it.
    DataOffset(Seq<u8>),
    /// Position in the list of IFDs, in which 0 is always `IFD0`.
    IfdPointer(int),
}

pub struct PlanEntryView {
    pub tag: u16,
    pub typ: u16,
    pub count: u32,
    pub value: ValueView,
}

pub struct PlannedView {
    pub entries: Seq<PlanEntryView>,
    /// Position of the IFD this one chains to.
    pub next: Option<int>,
}

/// One entry's value, borrowed from the source.
#[derive(Clone, Copy, Debug)]
pub enum Value<'a> {
    /// Copied from the source; stored in the entry itself when it fits in four bytes,
    /// in the value area otherwise.
    Bytes(&'a [u8]),
    /// Four bytes computed here rather than copied, always inside the entry.
    Immediate([u8; 4]),
    /// Copied from the source and placed at exactly `offset`, because the value's own
    /// contents are addressed relative to the TIFF header.
    Pinned { bytes: &'a [u8], offset: usize },
    /// Placed wherever there is room, with the entry holding a LONG *pointing* at it:
    /// the `IFD1` thumbnail, which is the one value TIFF addresses this way rather than
    /// storing inline.
    DataOffset(&'a [u8]),
    /// Index into the list of IFDs, in which 0 is always `IFD0`.
    IfdPointer(usize),
}

impl<'a> View for Value<'a> {
    type V = ValueView;

    open spec fn view(&self) -> ValueView {
        match *self {
            Value::Bytes(b) => ValueView::Bytes(b@),
            Value::Immediate(b) => ValueView::Immediate(b@),
            Value::Pinned { bytes, offset } => ValueView::Pinned {
                bytes: bytes@,
                offset: offset as int,
            },
            Value::DataOffset(b) => ValueView::DataOffset(b@),
            Value::IfdPointer(i) => ValueView::IfdPointer(i as int),
        }
    }
}

#[derive(Clone, Copy, Debug)]
pub struct PlanEntry<'a> {
    pub tag: u16,
    pub typ: u16,
    pub count: u32,
    pub value: Value<'a>,
}

impl<'a> View for PlanEntry<'a> {
    type V = PlanEntryView;

    open spec fn view(&self) -> PlanEntryView {
        PlanEntryView { tag: self.tag, typ: self.typ, count: self.count, value: self.value@ }
    }
}

#[derive(Clone, Debug)]
pub struct PlannedIfd<'a> {
    pub entries: Vec<PlanEntry<'a>>,
    /// Index of the IFD this one chains to via its trailing `next_ifd` field.
    pub next: Option<usize>,
}

/// The entries some planned ones stand for.
pub open spec fn plan_views(v: Seq<PlanEntry>) -> Seq<PlanEntryView> {
    Seq::new(v.len(), |i: int| v[i]@)
}

impl<'a> View for PlannedIfd<'a> {
    type V = PlannedView;

    open spec fn view(&self) -> PlannedView {
        PlannedView {
            entries: plan_views(self.entries@),
            next: match self.next {
                Some(i) => Some(i as int),
                None => None,
            },
        }
    }
}

/// The IFDs some planned ones stand for.
pub open spec fn ifd_views(v: Seq<PlannedIfd>) -> Seq<PlannedView> {
    Seq::new(v.len(), |i: int| v[i]@)
}

/// Where IFD `i` starts: behind the header and the IFDs before it.
pub open spec fn ifd_at(ifds: Seq<PlannedView>, i: int) -> int
    decreases i,
{
    if i <= 0 {
        8
    } else {
        ifd_at(ifds, i - 1) + 6 + 12 * ifds[i - 1].entries.len()
    }
}

/// First offset past the header and every IFD, which is where the value area can
/// start.
pub open spec fn region_end(ifds: Seq<PlannedView>) -> int {
    ifd_at(ifds, ifds.len() as int)
}

/// A value with the byte that keeps the next one at an even offset.
pub open spec fn padded(b: Seq<u8>) -> Seq<u8> {
    if b.len() % 2 == 1 {
        b.push(0)
    } else {
        b
    }
}

/// What a value adds to the shared value area.
pub open spec fn outline(v: ValueView) -> Seq<u8> {
    match v {
        ValueView::Bytes(b) => if b.len() > 4 {
            padded(b)
        } else {
            seq![]
        },
        ValueView::DataOffset(b) => padded(b),
        _ => seq![],
    }
}

/// What the first `k` entries add to the value area.
pub open spec fn entry_values(entries: Seq<PlanEntryView>, k: int) -> Seq<u8>
    decreases k,
{
    if k <= 0 {
        seq![]
    } else {
        entry_values(entries, k - 1) + outline(entries[k - 1].value)
    }
}

/// What the first `n` IFDs add to the value area.
pub open spec fn ifd_values(ifds: Seq<PlannedView>, n: int) -> Seq<u8>
    decreases n,
{
    if n <= 0 {
        seq![]
    } else {
        ifd_values(ifds, n - 1) + entry_values(
            ifds[n - 1].entries,
            ifds[n - 1].entries.len() as int,
        )
    }
}

/// The pinned value among the first `k` entries, the first if there are several.
pub open spec fn entry_pin(entries: Seq<PlanEntryView>, k: int) -> Option<(Seq<u8>, int)>
    decreases k,
{
    if k <= 0 {
        None
    } else if entry_pin(entries, k - 1) is Some {
        entry_pin(entries, k - 1)
    } else {
        match entries[k - 1].value {
            ValueView::Pinned { bytes, offset } => Some((bytes, offset)),
            _ => None,
        }
    }
}

/// The pinned value among the first `n` IFDs.
pub open spec fn pin_of(ifds: Seq<PlannedView>, n: int) -> Option<(Seq<u8>, int)>
    decreases n,
{
    if n <= 0 {
        None
    } else if pin_of(ifds, n - 1) is Some {
        pin_of(ifds, n - 1)
    } else {
        entry_pin(ifds[n - 1].entries, ifds[n - 1].entries.len() as int)
    }
}

/// Where the values that are not pinned start: behind the pinned one, since padding
/// can only ever move on.
pub open spec fn values_at(ifds: Seq<PlannedView>) -> int {
    match pin_of(ifds, ifds.len() as int) {
        Some(p) => p.1 + padded(p.0).len(),
        None => region_end(ifds),
    }
}

/// Where the value of entry `k` of IFD `i` lands, when it is in the value area.
pub open spec fn placement(ifds: Seq<PlannedView>, i: int, k: int) -> int {
    values_at(ifds) + ifd_values(ifds, i).len() + entry_values(ifds[i].entries, k).len()
}

/// The length of the whole block.
pub open spec fn block_end(ifds: Seq<PlannedView>) -> int {
    values_at(ifds) + ifd_values(ifds, ifds.len() as int).len()
}

/// Four zero bytes with `b` at their start.
pub open spec fn left_aligned(b: Seq<u8>) -> Seq<u8> {
    b + Seq::new((4 - b.len()) as nat, |i: int| 0u8)
}

/// The last four bytes of entry `k` of IFD `i`: a value that fits, or where it is.
pub open spec fn slot(ifds: Seq<PlannedView>, le: bool, i: int, k: int) -> Seq<u8> {
    match ifds[i].entries[k].value {
        ValueView::IfdPointer(t) => word32_bytes(le, ifd_at(ifds, t) as u32),
        ValueView::Pinned { bytes, offset } => word32_bytes(le, offset as u32),
        ValueView::DataOffset(_) => word32_bytes(le, placement(ifds, i, k) as u32),
        ValueView::Immediate(b) => b,
        ValueView::Bytes(b) => if b.len() > 4 {
            word32_bytes(le, placement(ifds, i, k) as u32)
        } else {
            left_aligned(b)
        },
    }
}

/// Entry `k` of IFD `i`.
pub open spec fn entry_bytes(ifds: Seq<PlannedView>, le: bool, i: int, k: int) -> Seq<u8> {
    let e = ifds[i].entries[k];
    word16_bytes(le, e.tag) + word16_bytes(le, e.typ) + word32_bytes(le, e.count) + slot(
        ifds,
        le,
        i,
        k,
    )
}

/// Position `k` put among `order` behind every entry whose tag is not larger.
pub open spec fn insert_by_tag(entries: Seq<PlanEntryView>, order: Seq<int>, k: int) -> Seq<int>
    decreases order.len(),
{
    if order.len() == 0 {
        seq![k]
    } else if entries[order.last()].tag <= entries[k].tag {
        order.push(k)
    } else {
        insert_by_tag(entries, order.drop_last(), k).push(order.last())
    }
}

/// The first `n` positions by ascending tag, equal tags in the order of the plan.
pub open spec fn tag_order(entries: Seq<PlanEntryView>, n: int) -> Seq<int>
    decreases n,
{
    if n <= 0 {
        seq![]
    } else {
        insert_by_tag(entries, tag_order(entries, n - 1), n - 1)
    }
}

/// The entries of IFD `i` at the first `n` of some positions.
pub open spec fn entry_table(
    ifds: Seq<PlannedView>,
    le: bool,
    i: int,
    order: Seq<int>,
    n: int,
) -> Seq<u8>
    decreases n,
{
    if n <= 0 {
        seq![]
    } else {
        entry_table(ifds, le, i, order, n - 1) + entry_bytes(ifds, le, i, order[n - 1])
    }
}

/// The entries of IFD `i` in the order TIFF requires: by ascending tag.
pub open spec fn sorted_table(ifds: Seq<PlannedView>, le: bool, i: int) -> Seq<u8> {
    let n = ifds[i].entries.len() as int;
    entry_table(ifds, le, i, tag_order(ifds[i].entries, n), n)
}

/// IFD `i`: how many entries, the entries, where the next IFD is.
pub open spec fn ifd_bytes(ifds: Seq<PlannedView>, le: bool, i: int) -> Seq<u8> {
    word16_bytes(le, ifds[i].entries.len() as u16) + sorted_table(ifds, le, i) + word32_bytes(
        le,
        match ifds[i].next {
            Some(t) => ifd_at(ifds, t) as u32,
            None => 0,
        },
    )
}

/// The first `n` IFDs.
pub open spec fn all_ifds(ifds: Seq<PlannedView>, le: bool, n: int) -> Seq<u8>
    decreases n,
{
    if n <= 0 {
        seq![]
    } else {
        all_ifds(ifds, le, n - 1) + ifd_bytes(ifds, le, n - 1)
    }
}

/// Byte order, magic number, where the first IFD is.
pub open spec fn header_bytes(le: bool) -> Seq<u8> {
    (if le {
        seq![0x49u8, 0x49u8]
    } else {
        seq![0x4du8, 0x4du8]
    }) + word16_bytes(le, 42) + word32_bytes(le, 8)
}

/// The gap in front of the pinned value, and the value.
pub open spec fn pin_bytes(ifds: Seq<PlannedView>) -> Seq<u8> {
    match pin_of(ifds, ifds.len() as int) {
        Some(p) => Seq::new((p.1 - region_end(ifds)) as nat, |i: int| 0u8) + padded(p.0),
        None => seq![],
    }
}

/// The block.
pub open spec fn block_bytes(ifds: Seq<PlannedView>, le: bool) -> Seq<u8> {
    header_bytes(le) + all_ifds(ifds, le, ifds.len() as int) + pin_bytes(ifds) + ifd_values(
        ifds,
        ifds.len() as int,
    )
}

/// Whether a plan is one that [`serialize`] is for: pointers lead to IFDs, immediate
/// values have four bytes, a pinned value lies behind the IFDs, and everything can be
/// stated in the 16-bit counts and 32-bit offsets of the format.
pub open spec fn plan_fits(ifds: Seq<PlannedView>) -> bool {
    &&& forall|i: int| 0 <= i < ifds.len() ==> ifd_fits(ifds, #[trigger] ifds[i])
    &&& (pin_of(ifds, ifds.len() as int) matches Some(p) ==> region_end(ifds) <= p.1)
    &&& block_end(ifds) <= u32::MAX
}

pub open spec fn ifd_fits(ifds: Seq<PlannedView>, d: PlannedView) -> bool {
    &&& d.entries.len() <= 0xffff
    &&& d.next matches Some(t) ==> 0 <= t < ifds.len()
    &&& forall|k: int| 0 <= k < d.entries.len() ==> value_fits(ifds, (#[trigger] d.entries[k]).value)
}

pub open spec fn value_fits(ifds: Seq<PlannedView>, v: ValueView) -> bool {
    match v {
        ValueView::IfdPointer(t) => 0 <= t < ifds.len(),
        ValueView::Immediate(b) => b.len() == 4,
        ValueView::Pinned { bytes, offset } => pin_of(ifds, ifds.len() as int) == Some(
            (bytes, offset),
        ),
        _ => true,
    }
}

proof fn lemma_ifd_at_grows(ifds: Seq<PlannedView>, a: int, b: int)
    requires
        0 <= a <= b,
    ensures
        8 <= ifd_at(ifds, a) <= ifd_at(ifds, b),
    decreases b,
{
    if a < b {
        lemma_ifd_at_grows(ifds, a, b - 1);
    } else if a > 0 {
        lemma_ifd_at_grows(ifds, a - 1, b - 1);
    }
}

proof fn lemma_entry_values_grow(entries: Seq<PlanEntryView>, a: int, b: int)
    requires
        0 <= a <= b,
    ensures
        entry_values(entries, a).len() <= entry_values(entries, b).len(),
    decreases b,
{
    if a < b {
        lemma_entry_values_grow(entries, a, b - 1);
    }
}

proof fn lemma_ifd_values_grow(ifds: Seq<PlannedView>, a: int, b: int)
    requires
        0 <= a <= b,
    ensures
        ifd_values(ifds, a).len() <= ifd_values(ifds, b).len(),
    decreases b,
{
    if a < b {
        lemma_ifd_values_grow(ifds, a, b - 1);
    }
}

/// Where a value lands is inside the block.
proof fn lemma_placement_fits(ifds: Seq<PlannedView>, i: int, k: int)
    requires
        0 <= i < ifds.len(),
        0 <= k <= ifds[i].entries.len(),
    ensures
        values_at(ifds) <= placement(ifds, i, k) <= block_end(ifds),
{
    lemma_entry_values_grow(ifds[i].entries, k, ifds[i].entries.len() as int);
    lemma_ifd_values_grow(ifds, i + 1, ifds.len() as int);
}

/// The IFDs of a plan that can be written end where an offset can say.
pub proof fn lemma_plan_region(ifds: Seq<PlannedView>)
    requires
        plan_fits(ifds),
    ensures
        8 <= region_end(ifds) <= values_at(ifds) <= block_end(ifds) <= u32::MAX,
{
    lemma_ifd_at_grows(ifds, 0, ifds.len() as int);
}

/// Every value starts behind the IFDs, at an offset that can be stated.
pub proof fn lemma_values_start(ifds: Seq<PlannedView>, i: int, k: int)
    requires
        plan_fits(ifds),
        0 <= i < ifds.len(),
        0 <= k <= ifds[i].entries.len(),
    ensures
        8 <= placement(ifds, i, k) <= u32::MAX,
{
    lemma_plan_region(ifds);
    lemma_placement_fits(ifds, i, k);
}

/// Every IFD starts behind the header and before the values.
pub proof fn lemma_ifd_starts(ifds: Seq<PlannedView>, i: int)
    requires
        0 <= i <= ifds.len(),
    ensures
        8 <= ifd_at(ifds, i) <= region_end(ifds),
        0 < i ==> 8 < ifd_at(ifds, i),
{
    lemma_ifd_at_grows(ifds, i, ifds.len() as int);
    if i > 0 {
        lemma_ifd_at_grows(ifds, i - 1, i);
    }
}

/// Where every IFD starts, and where they end.
fn ifd_offsets(ifds: &Vec<PlannedIfd>) -> (r: Vec<u32>)
    requires
        plan_fits(ifd_views(ifds@)),
    ensures
        r@.len() == ifds@.len() + 1,
        forall|i: int| 0 <= i < r@.len() ==> #[trigger] r@[i] == ifd_at(ifd_views(ifds@), i),
{
    let ghost v = ifd_views(ifds@);
    let mut r: Vec<u32> = Vec::new();
    r.push(8);
    let mut i: usize = 0;
    proof {
        lemma_plan_region(v);
    }
    while i < ifds.len()
        invariant
            i <= ifds@.len(),
            v == ifd_views(ifds@),
            plan_fits(v),
            region_end(v) <= u32::MAX,
            r@.len() == i + 1,
            forall|j: int| 0 <= j <= i ==> #[trigger] r@[j] == ifd_at(v, j),
        decreases ifds@.len() - i,
    {
        proof {
            lemma_ifd_at_grows(v, i + 1, v.len() as int);
            assert(v[i as int].entries.len() == ifds@[i as int].entries@.len());
            assert(r@[i as int] == ifd_at(v, i as int));
        }
        let here: u32 = r[i];
        r.push(here + 6 + 12 * ifds[i].entries.len() as u32);
        i = i + 1;
    }
    r
}

/// The pinned value, when there is one.
fn find_pin<'a>(ifds: &Vec<PlannedIfd<'a>>) -> (r: Option<(&'a [u8], usize)>)
    ensures
        match r {
            Some(p) => pin_of(ifd_views(ifds@), ifds@.len() as int) == Some((p.0@, p.1 as int)),
            None => pin_of(ifd_views(ifds@), ifds@.len() as int) is None,
        },
{
    let ghost v = ifd_views(ifds@);
    let mut i: usize = 0;
    while i < ifds.len()
        invariant
            i <= ifds@.len(),
            v == ifd_views(ifds@),
            pin_of(v, i as int) is None,
        decreases ifds@.len() - i,
    {
        let entries = &ifds[i].entries;
        let ghost es = v[i as int].entries;
        assert(es == plan_views(entries@));
        let mut k: usize = 0;
        while k < entries.len()
            invariant
                i < ifds@.len(),
                v == ifd_views(ifds@),
                pin_of(v, i as int) is None,
                entries@ == ifds@[i as int].entries@,
                es == v[i as int].entries,
                es == plan_views(entries@),
                k <= entries@.len(),
                entry_pin(es, k as int) is None,
            decreases entries@.len() - k,
        {
            assert(es[k as int] == entries@[k as int]@);
            if let Value::Pinned { bytes, offset } = entries[k].value {
                proof {
                    assert(entry_pin(es, k + 1) == Some((bytes@, offset as int)));
                    lemma_entry_pin_stays(es, k + 1, es.len() as int);
                    lemma_pin_stays(v, i + 1, v.len() as int);
                }
                return Some((bytes, offset));
            }
            k = k + 1;
        }
        i = i + 1;
    }
    None
}

proof fn lemma_entry_pin_stays(entries: Seq<PlanEntryView>, a: int, b: int)
    requires
        0 <= a <= b,
        entry_pin(entries, a) is Some,
    ensures
        entry_pin(entries, b) == entry_pin(entries, a),
    decreases b,
{
    if a < b {
        lemma_entry_pin_stays(entries, a, b - 1);
    }
}

proof fn lemma_pin_stays(ifds: Seq<PlannedView>, a: int, b: int)
    requires
        0 <= a <= b,
        pin_of(ifds, a) is Some,
    ensures
        pin_of(ifds, b) == pin_of(ifds, a),
    decreases b,
{
    if a < b {
        lemma_pin_stays(ifds, a, b - 1);
    }
}

/// How much a value adds to the value area.
fn outline_len(v: &Value) -> (n: u128)
    ensures
        n == outline(v@).len(),
        n <= usize::MAX + 1,
{
    match *v {
        Value::Bytes(b) => if b.len() > 4 {
            (b.len() as u128) + (b.len() % 2) as u128
        } else {
            0
        },
        Value::DataOffset(b) => (b.len() as u128) + (b.len() % 2) as u128,
        _ => 0,
    }
}

/// Where every value of IFD `i` lands.
fn place_ifd(ifds: &Vec<PlannedIfd>, i: usize, start: u32) -> (r: Vec<u32>)
    requires
        plan_fits(ifd_views(ifds@)),
        i < ifds@.len(),
        start == placement(ifd_views(ifds@), i as int, 0),
    ensures
        r@.len() == ifds@[i as int].entries@.len() + 1,
        forall|k: int| 0 <= k < r@.len() ==> #[trigger] r@[k] == placement(
            ifd_views(ifds@),
            i as int,
            k,
        ),
{
    let ghost v = ifd_views(ifds@);
    let ghost es = v[i as int].entries;
    let entries = &ifds[i].entries;
    let mut r: Vec<u32> = Vec::new();
    r.push(start);
    let mut k: usize = 0;
    while k < entries.len()
        invariant
            plan_fits(v),
            v == ifd_views(ifds@),
            i < ifds@.len(),
            entries@ == ifds@[i as int].entries@,
            es == v[i as int].entries,
            es == plan_views(entries@),
            k <= entries@.len(),
            r@.len() == k + 1,
            forall|j: int| 0 <= j <= k ==> #[trigger] r@[j] == placement(v, i as int, j),
        decreases entries@.len() - k,
    {
        proof {
            lemma_placement_fits(v, i as int, k + 1);
            assert(es[k as int] == entries@[k as int]@);
            assert(entry_values(es, k + 1).len() == entry_values(es, k as int).len() + outline(
                entries@[k as int].value@,
            ).len());
            assert(r@[k as int] == placement(v, i as int, k as int));
        }
        let here: u32 = r[k];
        let more: u128 = outline_len(&entries[k].value);
        r.push((here as u128 + more) as u32);
        k = k + 1;
    }
    r
}

/// What a plan that can be written holds is no larger than its offsets can say.
pub proof fn lemma_value_is_within(ifds: Seq<PlannedView>, i: int, k: int)
    requires
        plan_fits(ifds),
        0 <= i < ifds.len(),
        0 <= k < ifds[i].entries.len(),
    ensures
        outline(ifds[i].entries[k].value).len() <= u32::MAX,
{
    lemma_plan_region(ifds);
    lemma_placement_fits(ifds, i, k + 1);
}

/// First offset past the header and every IFD, when it is a number that can be held.
pub fn ifd_region_end(ifds: &Vec<PlannedIfd>) -> (r: Option<usize>)
    ensures
        match r {
            Some(n) => n == region_end(ifd_views(ifds@)),
            None => region_end(ifd_views(ifds@)) > usize::MAX,
        },
{
    let ghost v = ifd_views(ifds@);
    let mut at: usize = 8;
    let mut i: usize = 0;
    while i < ifds.len()
        invariant
            i <= ifds@.len(),
            v == ifd_views(ifds@),
            at == ifd_at(v, i as int),
        decreases ifds@.len() - i,
    {
        assert(v[i as int].entries.len() == ifds@[i as int].entries@.len());
        let end: u128 = at as u128 + 6 + 12 * ifds[i].entries.len() as u128;
        proof {
            lemma_ifd_at_grows(v, i + 1, v.len() as int);
        }
        if end > usize::MAX as u128 {
            return None;
        }
        at = end as usize;
        i = i + 1;
    }
    Some(at)
}

/// Whether a plan can be stated in the 16-bit counts and 32-bit offsets of the format.
pub open spec fn sizes_fit(ifds: Seq<PlannedView>) -> bool {
    &&& forall|i: int| 0 <= i < ifds.len() ==> (#[trigger] ifds[i]).entries.len() <= 0xffff
    &&& block_end(ifds) <= u32::MAX
}

/// Whether a plan can be stated in the 16-bit counts and 32-bit offsets of the format.
pub fn can_be_stated(ifds: &Vec<PlannedIfd>) -> (b: bool)
    ensures
        b == sizes_fit(ifd_views(ifds@)),
{
    let ghost v = ifd_views(ifds@);
    let n: usize = ifds.len();
    let start: u128 = match find_pin(ifds) {
        Some(p) => p.1 as u128 + p.0.len() as u128 + (p.0.len() % 2) as u128,
        None => match ifd_region_end(ifds) {
            Some(e) => e as u128,
            None => usize::MAX as u128 + 1,
        },
    };
    proof {
        lemma_ifd_values_grow(v, 0, n as int);
        lemma_ifd_at_grows(v, 0, n as int);
    }
    if start > u32::MAX as u128 {
        return false;
    }
    let mut at: u128 = start;
    let mut i: usize = 0;
    while i < n
        invariant
            i <= n == ifds@.len(),
            v == ifd_views(ifds@),
            at == values_at(v) + ifd_values(v, i as int).len(),
            at <= u32::MAX,
            forall|j: int| 0 <= j < i ==> (#[trigger] v[j]).entries.len() <= 0xffff,
        decreases n - i,
    {
        let entries = &ifds[i].entries;
        let ghost es = v[i as int].entries;
        assert(es == plan_views(entries@));
        if entries.len() > 0xffff {
            assert(v[i as int].entries.len() > 0xffff);
            return false;
        }
        let ghost base = at;
        let mut k: usize = 0;
        while k < entries.len()
            invariant
                i < n == ifds@.len(),
                v == ifd_views(ifds@),
                es == v[i as int].entries,
                es == plan_views(entries@),
                base == values_at(v) + ifd_values(v, i as int).len(),
                k <= entries@.len(),
                at == base + entry_values(es, k as int).len(),
                at <= u32::MAX,
            decreases entries@.len() - k,
        {
            assert(es[k as int] == entries@[k as int]@);
            proof {
                lemma_placement_fits(v, i as int, k + 1);
            }
            at = at + outline_len(&entries[k].value);
            if at > u32::MAX as u128 {
                return false;
            }
            k = k + 1;
        }
        i = i + 1;
    }
    true
}

/// Whether a value is not pinned and points nowhere but at one of `n` IFDs.
pub open spec fn is_loose(v: ValueView, n: int) -> bool {
    match v {
        ValueView::IfdPointer(t) => 0 <= t < n,
        ValueView::Immediate(b) => b.len() == 4,
        ValueView::Pinned { bytes, offset } => false,
        _ => true,
    }
}

/// Whether none of the first `k` entries is pinned or points outside of `n` IFDs.
pub open spec fn entries_loose(entries: Seq<PlanEntryView>, k: int, n: int) -> bool {
    forall|j: int| 0 <= j < k ==> is_loose((#[trigger] entries[j]).value, n)
}

proof fn lemma_loose_entries_no_pin(entries: Seq<PlanEntryView>, k: int, n: int)
    requires
        0 <= k <= entries.len(),
        entries_loose(entries, k, n),
    ensures
        entry_pin(entries, k) is None,
    decreases k,
{
    if k > 0 {
        lemma_loose_entries_no_pin(entries, k - 1, n);
        assert(is_loose(entries[k - 1].value, n));
    }
}

/// Whether an IFD is not pinned to a place, and points at none but the `n` there are.
pub open spec fn ifd_loose(d: PlannedView, n: int) -> bool {
    &&& d.next matches Some(t) ==> 0 <= t < n
    &&& entries_loose(d.entries, d.entries.len() as int, n)
}

/// Whether an IFD is so but for its last entry, which is pinned.
pub open spec fn ifd_pins_last(d: PlannedView, n: int) -> bool {
    &&& d.next matches Some(t) ==> 0 <= t < n
    &&& d.entries.len() > 0
    &&& entries_loose(d.entries, d.entries.len() - 1, n)
    &&& d.entries.last().value is Pinned
}

/// Whether no IFD is pinned to a place but IFD `at`, where one is given, by its last
/// entry.
pub open spec fn pins_at(ifds: Seq<PlannedView>, at: Option<int>) -> bool {
    &&& (at matches Some(i) ==> 0 <= i < ifds.len())
    &&& forall|j: int|
        0 <= j < ifds.len() ==> if at == Some(j) {
            ifd_pins_last(#[trigger] ifds[j], ifds.len() as int)
        } else {
            ifd_loose(ifds[j], ifds.len() as int)
        }
}

/// The pinned value of such a plan is the one that was given.
pub proof fn lemma_pin_is(ifds: Seq<PlannedView>, at: Option<int>, n: int)
    requires
        pins_at(ifds, at),
        0 <= n <= ifds.len(),
    ensures
        pin_of(ifds, n) == match at {
            Some(i) => if i < n {
                Some(
                    (
                        ifds[i].entries.last().value->Pinned_bytes,
                        ifds[i].entries.last().value->Pinned_offset,
                    ),
                )
            } else {
                None
            },
            None => None,
        },
    decreases n,
{
    if n > 0 {
        lemma_pin_is(ifds, at, n - 1);
        let es = ifds[n - 1].entries;
        let m = ifds.len() as int;
        if at == Some(n - 1) {
            assert(ifd_pins_last(ifds[n - 1], m));
            lemma_loose_entries_no_pin(es, es.len() - 1, m);
            assert(es.last() == es[es.len() - 1]);
        } else {
            assert(ifd_loose(ifds[n - 1], m));
            lemma_loose_entries_no_pin(es, es.len() as int, m);
        }
    }
}

/// A plan with at most one pinned value, in reach, can be written when it can be stated.
pub proof fn lemma_plan_fits(ifds: Seq<PlannedView>, at: Option<int>)
    requires
        pins_at(ifds, at),
        sizes_fit(ifds),
        at matches Some(i) ==> region_end(ifds)
            <= ifds[i].entries.last().value->Pinned_offset,
    ensures
        plan_fits(ifds),
{
    let n = ifds.len() as int;
    lemma_pin_is(ifds, at, n);
    assert forall|i: int| 0 <= i < n implies ifd_fits(ifds, #[trigger] ifds[i]) by {
        let d = ifds[i];
        if at == Some(i) {
            assert(ifd_pins_last(d, n));
        } else {
            assert(ifd_loose(d, n));
        }
        assert forall|k: int| 0 <= k < d.entries.len() implies value_fits(
            ifds,
            (#[trigger] d.entries[k]).value,
        ) by {
            if k < d.entries.len() - 1 {
                assert(is_loose(d.entries[k].value, n));
            } else {
                assert(d.entries.last() == d.entries[k]);
            }
        }
    }
}

/// The position order some indices stand for.
pub open spec fn positions(v: Seq<usize>) -> Seq<int> {
    Seq::new(v.len(), |i: int| v[i] as int)
}

/// Every index is below `n`.
pub open spec fn all_below(v: Seq<usize>, n: int) -> bool {
    forall|i: int| 0 <= i < v.len() ==> #[trigger] v[i] < n
}

/// Puts position `k` among the others behind every entry whose tag is not larger.
fn insert_position(entries: &Vec<PlanEntry>, order: &mut Vec<usize>, k: usize)
    requires
        k < entries@.len(),
        old(order)@.len() == k,
        all_below(old(order)@, k as int),
    ensures
        positions(final(order)@) == insert_by_tag(
            plan_views(entries@),
            positions(old(order)@),
            k as int,
        ),
        final(order)@.len() == k + 1,
        all_below(final(order)@, k + 1),
{
    let ghost es = plan_views(entries@);
    let ghost w = positions(order@);
    let ghost start = order@;
    let mut j: usize = order.len();
    assert(w.take(w.len() as int) =~= w);
    assert(w.skip(w.len() as int) =~= seq![]);
    assert(insert_by_tag(es, w, k as int) + Seq::<int>::empty() =~= insert_by_tag(
        es,
        w,
        k as int,
    ));
    while j > 0 && entries[order[j - 1]].tag > entries[k].tag
        invariant
            j <= order@.len(),
            order@ == start,
            start.len() == k,
            all_below(start, k as int),
            k < entries@.len(),
            es == plan_views(entries@),
            w == positions(start),
            insert_by_tag(es, w, k as int) == insert_by_tag(es, w.take(j as int), k as int)
                + w.skip(j as int),
        decreases j,
    {
        proof {
            let t = w.take(j as int);
            assert(t.last() == w[j - 1]);
            assert(t.drop_last() =~= w.take(j - 1));
            assert(es[w[j - 1]] == entries@[start[j - 1] as int]@);
            assert(es[k as int] == entries@[k as int]@);
            let front = insert_by_tag(es, w.take(j - 1), k as int);
            assert(front.push(t.last()) + w.skip(j as int) =~= front + w.skip(j - 1));
        }
        j = j - 1;
    }
    proof {
        let t = w.take(j as int);
        if j > 0 {
            assert(t.last() == w[j - 1]);
            assert(es[w[j - 1]] == entries@[start[j - 1] as int]@);
            assert(es[k as int] == entries@[k as int]@);
        }
        assert(insert_by_tag(es, t, k as int) =~= t.push(k as int));
    }
    order.insert(j, k);
    proof {
        assert(order@ == start.insert(j as int, k));
        assert(positions(order@) =~= w.take(j as int).push(k as int) + w.skip(j as int));
        assert forall|i: int| 0 <= i < order@.len() implies #[trigger] order@[i] < k + 1 by {
            if i < j {
                assert(order@[i] == start[i]);
            } else if i > j {
                assert(order@[i] == start[i - 1]);
            }
        }
    }
}

/// The positions of some entries by ascending tag.
fn sort_positions(entries: &Vec<PlanEntry>) -> (order: Vec<usize>)
    ensures
        positions(order@) == tag_order(plan_views(entries@), entries@.len() as int),
        order@.len() == entries@.len(),
        all_below(order@, entries@.len() as int),
{
    let ghost es = plan_views(entries@);
    let mut order: Vec<usize> = Vec::new();
    let mut k: usize = 0;
    assert(positions(order@) =~= tag_order(es, 0));
    while k < entries.len()
        invariant
            k <= entries@.len(),
            es == plan_views(entries@),
            positions(order@) == tag_order(es, k as int),
            order@.len() == k,
            all_below(order@, k as int),
        decreases entries@.len() - k,
    {
        insert_position(entries, &mut order, k);
        k = k + 1;
    }
    order
}

/// Appends `b` and zeros up to four bytes.
fn push_left_aligned(buf: &mut Vec<u8>, b: &[u8])
    requires
        b@.len() <= 4,
    ensures
        final(buf)@ == old(buf)@ + left_aligned(b@),
{
    push_all(buf, b);
    let ghost start = buf@;
    let mut i: usize = b.len();
    let n: usize = b.len();
    while i < 4
        invariant
            n <= i <= 4,
            buf@ == start + Seq::new((i - n) as nat, |j: int| 0u8),
        decreases 4 - i,
    {
        let ghost zeros = Seq::new((i - n) as nat, |j: int| 0u8);
        buf.push(0);
        assert(zeros.push(0u8) =~= Seq::new((i + 1 - n) as nat, |j: int| 0u8));
        assert(buf@ =~= start + zeros.push(0u8));
        i = i + 1;
    }
    assert(buf@ =~= old(buf)@ + left_aligned(b@));
}

/// Appends entry `k` of IFD `i`.
fn push_entry(
    buf: &mut Vec<u8>,
    ifds: &Vec<PlannedIfd>,
    le: bool,
    i: usize,
    k: usize,
    offsets: &Vec<u32>,
    places: &Vec<u32>,
)
    requires
        plan_fits(ifd_views(ifds@)),
        i < ifds@.len(),
        k < ifds@[i as int].entries@.len(),
        offsets@.len() == ifds@.len() + 1,
        forall|j: int| 0 <= j < offsets@.len() ==> #[trigger] offsets@[j] == ifd_at(
            ifd_views(ifds@),
            j,
        ),
        places@.len() == ifds@[i as int].entries@.len() + 1,
        forall|j: int| 0 <= j < places@.len() ==> #[trigger] places@[j] == placement(
            ifd_views(ifds@),
            i as int,
            j,
        ),
    ensures
        final(buf)@ == old(buf)@ + entry_bytes(ifd_views(ifds@), le, i as int, k as int),
{
    let ghost v = ifd_views(ifds@);
    let e = ifds[i].entries[k];
    proof {
        assert(v[i as int] == ifds@[i as int]@);
        assert(v[i as int].entries[k as int] == e@);
        assert(ifd_fits(v, v[i as int]));
        assert(value_fits(v, e@.value));
        assert(places@[k as int] == placement(v, i as int, k as int));
    }
    push_word16(buf, le, e.tag);
    push_word16(buf, le, e.typ);
    push_word32(buf, le, e.count);
    let ghost before = buf@;
    match e.value {
        Value::IfdPointer(t) => {
            assert(offsets@[t as int] == ifd_at(v, t as int));
            push_word32(buf, le, offsets[t]);
        },
        Value::Pinned { bytes, offset } => {
            proof {
                lemma_plan_region(v);
            }
            push_word32(buf, le, offset as u32);
        },
        Value::DataOffset(_) => {
            push_word32(buf, le, places[k]);
        },
        Value::Immediate(b) => {
            push_all(buf, vstd::array::array_as_slice(&b));
        },
        Value::Bytes(b) => {
            if b.len() > 4 {
                push_word32(buf, le, places[k]);
            } else {
                push_left_aligned(buf, b);
            }
        },
    }
    assert(buf@ == before + slot(v, le, i as int, k as int));
    assert(buf@ =~= old(buf)@ + entry_bytes(v, le, i as int, k as int));
}

/// Appends IFD `i`.
fn push_ifd(
    buf: &mut Vec<u8>,
    ifds: &Vec<PlannedIfd>,
    le: bool,
    i: usize,
    offsets: &Vec<u32>,
    places: &Vec<u32>,
)
    requires
        plan_fits(ifd_views(ifds@)),
        i < ifds@.len(),
        offsets@.len() == ifds@.len() + 1,
        forall|j: int| 0 <= j < offsets@.len() ==> #[trigger] offsets@[j] == ifd_at(
            ifd_views(ifds@),
            j,
        ),
        places@.len() == ifds@[i as int].entries@.len() + 1,
        forall|j: int| 0 <= j < places@.len() ==> #[trigger] places@[j] == placement(
            ifd_views(ifds@),
            i as int,
            j,
        ),
    ensures
        final(buf)@ == old(buf)@ + ifd_bytes(ifd_views(ifds@), le, i as int),
{
    let ghost v = ifd_views(ifds@);
    let ghost es = v[i as int].entries;
    let entries = &ifds[i].entries;
    let n: usize = entries.len();
    let order = sort_positions(entries);
    let ghost ord = positions(order@);
    proof {
        assert(v[i as int] == ifds@[i as int]@);
        assert(es == plan_views(entries@));
        assert(ifd_fits(v, v[i as int]));
    }
    push_word16(buf, le, n as u16);
    let ghost start = buf@;
    let mut j: usize = 0;
    assert(start + entry_table(v, le, i as int, ord, 0) =~= start);
    while j < n
        invariant
            j <= n,
            n == entries@.len(),
            n == order@.len(),
            ord == positions(order@),
            all_below(order@, n as int),
            v == ifd_views(ifds@),
            plan_fits(v),
            i < ifds@.len(),
            entries@ == ifds@[i as int].entries@,
            offsets@.len() == ifds@.len() + 1,
            forall|x: int| 0 <= x < offsets@.len() ==> #[trigger] offsets@[x] == ifd_at(v, x),
            places@.len() == entries@.len() + 1,
            forall|x: int|
                0 <= x < places@.len() ==> #[trigger] places@[x] == placement(v, i as int, x),
            buf@ == start + entry_table(v, le, i as int, ord, j as int),
        decreases n - j,
    {
        assert(order@[j as int] < n);
        assert(ord[j as int] == order@[j as int]);
        push_entry(buf, ifds, le, i, order[j], offsets, places);
        proof {
            let t = entry_table(v, le, i as int, ord, j as int);
            let x = entry_bytes(v, le, i as int, ord[j as int]);
            assert(start + t + x =~= start + (t + x));
        }
        j = j + 1;
    }
    match ifds[i].next {
        Some(t) => {
            assert(offsets@[t as int] == ifd_at(v, t as int));
            push_word32(buf, le, offsets[t]);
        },
        None => {
            push_word32(buf, le, 0);
        },
    }
    assert(buf@ =~= old(buf)@ + ifd_bytes(v, le, i as int));
}

/// Appends what the entries of one IFD add to the value area.
fn push_values(buf: &mut Vec<u8>, entries: &Vec<PlanEntry>)
    ensures
        final(buf)@ == old(buf)@ + entry_values(plan_views(entries@), entries@.len() as int),
{
    let ghost es = plan_views(entries@);
    let ghost start = buf@;
    let mut k: usize = 0;
    assert(start + entry_values(es, 0) =~= start);
    while k < entries.len()
        invariant
            k <= entries@.len(),
            es == plan_views(entries@),
            buf@ == start + entry_values(es, k as int),
        decreases entries@.len() - k,
    {
        let ghost before = buf@;
        assert(es[k as int] == entries@[k as int]@);
        match entries[k].value {
            Value::Bytes(b) => {
                if b.len() > 4 {
                    push_padded(buf, b);
                }
            },
            Value::DataOffset(b) => {
                push_padded(buf, b);
            },
            _ => {},
        }
        proof {
            let x = outline(es[k as int].value);
            assert(buf@ =~= before + x);
            assert(start + entry_values(es, k as int) + x =~= start + (entry_values(es, k as int)
                + x));
        }
        k = k + 1;
    }
}

fn push_padded(buf: &mut Vec<u8>, b: &[u8])
    ensures
        final(buf)@ == old(buf)@ + padded(b@),
{
    push_all(buf, b);
    if b.len() % 2 == 1 {
        buf.push(0);
    }
    assert(buf@ =~= old(buf)@ + padded(b@));
}

fn push_zeros(buf: &mut Vec<u8>, n: usize)
    ensures
        final(buf)@ == old(buf)@ + Seq::new(n as nat, |i: int| 0u8),
{
    let ghost start = buf@;
    let mut i: usize = 0;
    assert(buf@ =~= start + Seq::new(0, |j: int| 0u8));
    while i < n
        invariant
            i <= n,
            buf@ == start + Seq::new(i as nat, |j: int| 0u8),
        decreases n - i,
    {
        let ghost zeros = Seq::new(i as nat, |j: int| 0u8);
        buf.push(0);
        assert(zeros.push(0u8) =~= Seq::new((i + 1) as nat, |j: int| 0u8));
        assert(buf@ =~= start + zeros.push(0u8));
        i = i + 1;
    }
}

proof fn lemma_slot_len(ifds: Seq<PlannedView>, le: bool, i: int, k: int)
    requires
        plan_fits(ifds),
        0 <= i < ifds.len(),
        0 <= k < ifds[i].entries.len(),
    ensures
        slot(ifds, le, i, k).len() == 4,
        entry_bytes(ifds, le, i, k).len() == 12,
{
    assert(ifd_fits(ifds, ifds[i]));
    assert(value_fits(ifds, ifds[i].entries[k].value));
}

/// Every position among `order` is one of an entry.
pub open spec fn within(order: Seq<int>, n: int) -> bool {
    forall|i: int| 0 <= i < order.len() ==> 0 <= #[trigger] order[i] < n
}

proof fn lemma_insert_within(entries: Seq<PlanEntryView>, order: Seq<int>, k: int)
    requires
        within(order, k),
        0 <= k,
    ensures
        insert_by_tag(entries, order, k).len() == order.len() + 1,
        within(insert_by_tag(entries, order, k), k + 1),
    decreases order.len(),
{
    if order.len() > 0 && !(entries[order.last()].tag <= entries[k].tag) {
        let front = order.drop_last();
        assert(within(front, k));
        lemma_insert_within(entries, front, k);
        let x = insert_by_tag(entries, front, k);
        assert(order.last() == order[order.len() - 1]);
        assert(x.push(order.last())[x.len() as int] == order.last());
    }
}

pub proof fn lemma_tag_order_within(entries: Seq<PlanEntryView>, n: int)
    requires
        0 <= n,
    ensures
        tag_order(entries, n).len() == n,
        within(tag_order(entries, n), n),
    decreases n,
{
    if n > 0 {
        lemma_tag_order_within(entries, n - 1);
        lemma_insert_within(entries, tag_order(entries, n - 1), n - 1);
    }
}

proof fn lemma_entry_table_len(
    ifds: Seq<PlannedView>,
    le: bool,
    i: int,
    order: Seq<int>,
    n: int,
)
    requires
        plan_fits(ifds),
        0 <= i < ifds.len(),
        0 <= n <= order.len(),
        within(order, ifds[i].entries.len() as int),
    ensures
        entry_table(ifds, le, i, order, n).len() == 12 * n,
    decreases n,
{
    if n > 0 {
        lemma_entry_table_len(ifds, le, i, order, n - 1);
        assert(0 <= order[n - 1] < ifds[i].entries.len());
        lemma_slot_len(ifds, le, i, order[n - 1]);
    }
}

proof fn lemma_ifd_len(ifds: Seq<PlannedView>, le: bool, i: int)
    requires
        plan_fits(ifds),
        0 <= i < ifds.len(),
    ensures
        sorted_table(ifds, le, i).len() == 12 * ifds[i].entries.len(),
        ifd_bytes(ifds, le, i).len() == 6 + 12 * ifds[i].entries.len(),
{
    let n = ifds[i].entries.len() as int;
    lemma_tag_order_within(ifds[i].entries, n);
    lemma_entry_table_len(ifds, le, i, tag_order(ifds[i].entries, n), n);
}

/// The IFDs are as long as their offsets say.
proof fn lemma_all_ifds_len(ifds: Seq<PlannedView>, le: bool, n: int)
    requires
        plan_fits(ifds),
        0 <= n <= ifds.len(),
    ensures
        8 + all_ifds(ifds, le, n).len() == ifd_at(ifds, n),
    decreases n,
{
    if n > 0 {
        lemma_all_ifds_len(ifds, le, n - 1);
        lemma_ifd_len(ifds, le, n - 1);
    }
}

/// Emits the header, the IFDs in order, then one shared value area.
pub fn serialize(ifds: &Vec<PlannedIfd>, le: bool) -> (b: Vec<u8>)
    requires
        plan_fits(ifd_views(ifds@)),
    ensures
        b@ == block_bytes(ifd_views(ifds@), le),
        b@.len() == block_end(ifd_views(ifds@)),
{
    let ghost v = ifd_views(ifds@);
    let n: usize = ifds.len();
    let offsets = ifd_offsets(ifds);
    let pin = find_pin(ifds);
    proof {
        lemma_plan_region(v);
        assert(offsets@[n as int] == ifd_at(v, n as int));
    }
    let mut cursor: u32 = match pin {
        Some((bytes, offset)) => (offset as u64 + (bytes.len() as u64) + (bytes.len()
            % 2) as u64) as u32,
        None => offsets[n],
    };
    assert(cursor == values_at(v));
    let mut b: Vec<u8> = Vec::new();
    if le {
        b.push(0x49);
        b.push(0x49);
    } else {
        b.push(0x4d);
        b.push(0x4d);
    }
    push_word16(&mut b, le, 42);
    push_word32(&mut b, le, 8);
    assert(b@ =~= header_bytes(le));
    let ghost head = b@;
    let mut i: usize = 0;
    assert(head + all_ifds(v, le, 0) =~= head);
    while i < n
        invariant
            i <= n,
            n == ifds@.len(),
            v == ifd_views(ifds@),
            plan_fits(v),
            offsets@.len() == n + 1,
            forall|x: int| 0 <= x < offsets@.len() ==> #[trigger] offsets@[x] == ifd_at(v, x),
            cursor == values_at(v) + ifd_values(v, i as int).len(),
            block_end(v) <= u32::MAX,
            b@ == head + all_ifds(v, le, i as int),
        decreases n - i,
    {
        assert(entry_values(v[i as int].entries, 0).len() == 0);
        let places = place_ifd(ifds, i, cursor);
        push_ifd(&mut b, ifds, le, i, &offsets, &places);
        proof {
            let t = all_ifds(v, le, i as int);
            let x = ifd_bytes(v, le, i as int);
            assert(head + t + x =~= head + (t + x));
            let m = ifds@[i as int].entries@.len() as int;
            assert(v[i as int].entries.len() == m);
            assert(places@[m] == placement(v, i as int, m));
        }
        cursor = places[ifds[i].entries.len()];
        i = i + 1;
    }
    proof {
        lemma_all_ifds_len(v, le, n as int);
    }
    assert(b@.len() == region_end(v));
    if let Some((bytes, offset)) = pin {
        push_zeros(&mut b, offset - offsets[n] as usize);
        push_padded(&mut b, bytes);
    }
    let ghost front = head + all_ifds(v, le, n as int) + pin_bytes(v);
    assert(b@ =~= front);
    let mut j: usize = 0;
    assert(front + ifd_values(v, 0) =~= front);
    while j < n
        invariant
            j <= n,
            n == ifds@.len(),
            v == ifd_views(ifds@),
            b@ == front + ifd_values(v, j as int),
        decreases n - j,
    {
        push_values(&mut b, &ifds[j].entries);
        proof {
            assert(v[j as int].entries == plan_views(ifds@[j as int].entries@));
            let t = ifd_values(v, j as int);
            let x = entry_values(v[j as int].entries, v[j as int].entries.len() as int);
            assert(front + t + x =~= front + (t + x));
        }
        j = j + 1;
    }
    b
}

/// Whether an entry's type and count are those of its value.
pub open spec fn states_its_value(e: PlanEntryView) -> bool {
    match e.value {
        ValueView::Bytes(b) => size_of(e.typ) > 0 && b.len() == e.count * size_of(e.typ),
        ValueView::Pinned { bytes, offset } => size_of(e.typ) > 0 && bytes.len() == e.count
            * size_of(e.typ) && bytes.len() > 4,
        _ => e.typ == 4 && e.count == 1,
    }
}

/// Whether every entry's type and count are those of its value.
pub open spec fn states_its_values(ifds: Seq<PlannedView>) -> bool {
    forall|i: int, k: int|
        0 <= i < ifds.len() && 0 <= k < ifds[i].entries.len() ==> states_its_value(
            #[trigger] ifds[i].entries[k],
        )
}

/// The position of the entry that is written `j`th in IFD `i`.
pub open spec fn written_at(ifds: Seq<PlannedView>, i: int, j: int) -> int {
    tag_order(ifds[i].entries, ifds[i].entries.len() as int)[j]
}

/// Where the value of the entry that is written `j`th in IFD `i` is found.
pub open spec fn value_place(ifds: Seq<PlannedView>, i: int, j: int) -> int {
    let k = written_at(ifds, i, j);
    let e = ifds[i].entries[k];
    if is_inline(e.typ, e.count) {
        ifd_at(ifds, i) + 2 + 12 * j + 8
    } else {
        match e.value {
            ValueView::Pinned { bytes, offset } => offset,
            _ => placement(ifds, i, k),
        }
    }
}

/// The entry that is written `j`th in IFD `i`, as a reader finds it.
pub open spec fn entry_read(ifds: Seq<PlannedView>, i: int, j: int) -> (u16, EntryView) {
    let e = ifds[i].entries[written_at(ifds, i, j)];
    (e.tag, EntryView { typ: e.typ, count: e.count, value_off: value_place(ifds, i, j) })
}

/// IFD `i`, as a reader finds it.
pub open spec fn ifd_read(ifds: Seq<PlannedView>, i: int) -> IfdView {
    IfdView {
        entries: Seq::new(ifds[i].entries.len(), |j: int| entry_read(ifds, i, j)),
        next: match ifds[i].next {
            Some(t) => ifd_at(ifds, t),
            None => 0,
        },
    }
}

/// The value a reader finds in an entry: what was to be stored, or for a pointer the
/// four bytes that say where.
pub open spec fn value_read(ifds: Seq<PlannedView>, le: bool, i: int, j: int) -> Seq<u8> {
    let k = written_at(ifds, i, j);
    match ifds[i].entries[k].value {
        ValueView::Bytes(b) => b,
        ValueView::Pinned { bytes, offset } => bytes,
        _ => slot(ifds, le, i, k),
    }
}

proof fn lemma_all_ifds_slice(ifds: Seq<PlannedView>, le: bool, i: int, n: int)
    requires
        plan_fits(ifds),
        0 <= i < n <= ifds.len(),
    ensures
        ifd_at(ifds, i + 1) - 8 <= all_ifds(ifds, le, n).len(),
        all_ifds(ifds, le, n).subrange(ifd_at(ifds, i) - 8, ifd_at(ifds, i + 1) - 8) == ifd_bytes(
            ifds,
            le,
            i,
        ),
    decreases n,
{
    lemma_all_ifds_len(ifds, le, n);
    lemma_all_ifds_len(ifds, le, n - 1);
    lemma_ifd_at_grows(ifds, i + 1, n);
    lemma_ifd_at_grows(ifds, 0, i);
    let whole = all_ifds(ifds, le, n);
    let front = all_ifds(ifds, le, n - 1);
    let a = ifd_at(ifds, i) - 8;
    let b = ifd_at(ifds, i + 1) - 8;
    if i < n - 1 {
        lemma_all_ifds_slice(ifds, le, i, n - 1);
        lemma_ifd_at_grows(ifds, i + 1, n - 1);
        assert(whole.subrange(a, b) =~= front.subrange(a, b));
    } else {
        lemma_ifd_len(ifds, le, i);
        assert(whole.subrange(a, b) =~= ifd_bytes(ifds, le, i));
    }
}

pub proof fn lemma_block_len(ifds: Seq<PlannedView>, le: bool)
    requires
        plan_fits(ifds),
    ensures
        block_bytes(ifds, le).len() == block_end(ifds),
        8 + all_ifds(ifds, le, ifds.len() as int).len() == region_end(ifds),
        region_end(ifds) + pin_bytes(ifds).len() == values_at(ifds),
{
    lemma_all_ifds_len(ifds, le, ifds.len() as int);
    lemma_plan_region(ifds);
}

/// An IFD lies where the offsets say.
proof fn lemma_ifd_slice(ifds: Seq<PlannedView>, le: bool, i: int)
    requires
        plan_fits(ifds),
        0 <= i < ifds.len(),
    ensures
        8 <= ifd_at(ifds, i),
        ifd_at(ifds, i + 1) == ifd_at(ifds, i) + 6 + 12 * ifds[i].entries.len(),
        ifd_at(ifds, i + 1) <= block_bytes(ifds, le).len(),
        block_bytes(ifds, le).subrange(ifd_at(ifds, i), ifd_at(ifds, i + 1)) == ifd_bytes(
            ifds,
            le,
            i,
        ),
{
    let s = block_bytes(ifds, le);
    let n = ifds.len() as int;
    let tables = all_ifds(ifds, le, n);
    lemma_block_len(ifds, le);
    lemma_plan_region(ifds);
    lemma_all_ifds_slice(ifds, le, i, n);
    lemma_ifd_at_grows(ifds, 0, i);
    lemma_ifd_at_grows(ifds, i + 1, n);
    let a = ifd_at(ifds, i);
    let b = ifd_at(ifds, i + 1);
    assert(s.subrange(a, b) =~= tables.subrange(a - 8, b - 8));
}

proof fn lemma_entry_table_slice(
    ifds: Seq<PlannedView>,
    le: bool,
    i: int,
    order: Seq<int>,
    j: int,
    n: int,
)
    requires
        plan_fits(ifds),
        0 <= i < ifds.len(),
        0 <= j < n <= order.len(),
        within(order, ifds[i].entries.len() as int),
    ensures
        entry_table(ifds, le, i, order, n).len() == 12 * n,
        entry_table(ifds, le, i, order, n).subrange(12 * j, 12 * j + 12) == entry_bytes(
            ifds,
            le,
            i,
            order[j],
        ),
    decreases n,
{
    lemma_entry_table_len(ifds, le, i, order, n);
    lemma_entry_table_len(ifds, le, i, order, n - 1);
    let whole = entry_table(ifds, le, i, order, n);
    let front = entry_table(ifds, le, i, order, n - 1);
    if j < n - 1 {
        lemma_entry_table_slice(ifds, le, i, order, j, n - 1);
        assert(whole.subrange(12 * j, 12 * j + 12) =~= front.subrange(12 * j, 12 * j + 12));
    } else {
        assert(0 <= order[j] < ifds[i].entries.len());
        lemma_slot_len(ifds, le, i, order[j]);
        assert(whole.subrange(12 * j, 12 * j + 12) =~= entry_bytes(ifds, le, i, order[j]));
    }
}

/// An entry lies where its position among the written ones says.
proof fn lemma_entry_slice(ifds: Seq<PlannedView>, le: bool, i: int, j: int)
    requires
        plan_fits(ifds),
        0 <= i < ifds.len(),
        0 <= j < ifds[i].entries.len(),
    ensures
        0 <= written_at(ifds, i, j) < ifds[i].entries.len(),
        ifd_at(ifds, i) + 2 + 12 * j + 12 <= block_bytes(ifds, le).len(),
        block_bytes(ifds, le).subrange(
            ifd_at(ifds, i) + 2 + 12 * j,
            ifd_at(ifds, i) + 2 + 12 * j + 12,
        ) == entry_bytes(ifds, le, i, written_at(ifds, i, j)),
{
    let s = block_bytes(ifds, le);
    let n = ifds[i].entries.len() as int;
    let order = tag_order(ifds[i].entries, n);
    let a = ifd_at(ifds, i);
    lemma_tag_order_within(ifds[i].entries, n);
    lemma_ifd_slice(ifds, le, i);
    lemma_entry_table_slice(ifds, le, i, order, j, n);
    lemma_ifd_len(ifds, le, i);
    let w = ifd_bytes(ifds, le, i);
    let t = sorted_table(ifds, le, i);
    assert(0 <= order[j] < n);
    assert(s.subrange(a + 2 + 12 * j, a + 2 + 12 * j + 12) =~= w.subrange(
        2 + 12 * j,
        2 + 12 * j + 12,
    ));
    assert(w.subrange(2 + 12 * j, 2 + 12 * j + 12) =~= t.subrange(12 * j, 12 * j + 12));
}

/// One entry is read back.
#[verifier::rlimit(50)]
#[verifier::spinoff_prover]
proof fn lemma_entry_reads_back(ifds: Seq<PlannedView>, le: bool, i: int, j: int)
    requires
        plan_fits(ifds),
        states_its_values(ifds),
        0 <= i < ifds.len(),
        0 <= j < ifds[i].entries.len(),
    ensures
        entry_at(block_bytes(ifds, le), le, ifd_at(ifds, i) + 2 + 12 * j) == Ok::<
            (u16, EntryView),
            Fault,
        >(entry_read(ifds, i, j)),
{
    let s = block_bytes(ifds, le);
    let at = ifd_at(ifds, i) + 2 + 12 * j;
    let k = written_at(ifds, i, j);
    lemma_entry_slice(ifds, le, i, j);
    lemma_ifd_slice(ifds, le, i);
    lemma_slot_len(ifds, le, i, k);
    let e = ifds[i].entries[k];
    let w = s.subrange(at, at + 12);
    let x = slot(ifds, le, i, k);
    assert(states_its_value(e));
    assert(s.subrange(at, at + 2) =~= w.subrange(0, 2));
    assert(w.subrange(0, 2) =~= word16_bytes(le, e.tag));
    assert(s.subrange(at + 2, at + 4) =~= w.subrange(2, 4));
    assert(w.subrange(2, 4) =~= word16_bytes(le, e.typ));
    assert(s.subrange(at + 4, at + 8) =~= w.subrange(4, 8));
    assert(w.subrange(4, 8) =~= word32_bytes(le, e.count));
    lemma_word16_read_back(le, e.tag, s, at);
    lemma_word16_read_back(le, e.typ, s, at + 2);
    lemma_word32_read_back(le, e.count, s, at + 4);
    if !is_inline(e.typ, e.count) {
        assert(s.subrange(at + 8, at + 12) =~= w.subrange(8, 12));
        assert(w.subrange(8, 12) =~= x);
        lemma_placement_fits(ifds, i, k);
        lemma_plan_region(ifds);
        assert(ifd_fits(ifds, ifds[i]));
        assert(value_fits(ifds, e.value));
        let place = value_place(ifds, i, j);
        assert(x == word32_bytes(le, place as u32));
        lemma_word32_read_back(le, place as u32, s, at + 8);
    }
}

proof fn lemma_entries_read_back(ifds: Seq<PlannedView>, le: bool, i: int, j: int)
    requires
        plan_fits(ifds),
        states_its_values(ifds),
        0 <= i < ifds.len(),
        0 <= j <= ifds[i].entries.len(),
    ensures
        entries_from(
            block_bytes(ifds, le),
            le,
            ifd_at(ifds, i),
            j,
            ifds[i].entries.len() as int,
        ) == Ok::<Seq<(u16, EntryView)>, Fault>(ifd_read(ifds, i).entries.skip(j)),
    decreases ifds[i].entries.len() - j,
{
    let all = ifd_read(ifds, i).entries;
    if j < ifds[i].entries.len() {
        lemma_entry_reads_back(ifds, le, i, j);
        lemma_entries_read_back(ifds, le, i, j + 1);
        assert(seq![all[j]] + all.skip(j + 1) =~= all.skip(j));
    } else {
        assert(all.skip(j) =~= seq![]);
    }
}

/// One IFD is read back: every entry, by ascending tag, and the IFD it chains to.
proof fn lemma_ifd_reads_back(ifds: Seq<PlannedView>, le: bool, i: int)
    requires
        plan_fits(ifds),
        states_its_values(ifds),
        0 <= i < ifds.len(),
    ensures
        ifd_of(block_bytes(ifds, le), le, ifd_at(ifds, i)) == Ok::<IfdView, Fault>(
            ifd_read(ifds, i),
        ),
{
    let s = block_bytes(ifds, le);
    let at = ifd_at(ifds, i);
    let n = ifds[i].entries.len() as int;
    lemma_ifd_slice(ifds, le, i);
    lemma_ifd_len(ifds, le, i);
    assert(ifd_fits(ifds, ifds[i]));
    let w = ifd_bytes(ifds, le, i);
    assert(s.subrange(at, at + 2) =~= w.subrange(0, 2));
    assert(w.subrange(0, 2) =~= word16_bytes(le, n as u16));
    lemma_word16_read_back(le, n as u16, s, at);
    lemma_entries_read_back(ifds, le, i, 0);
    let all = ifd_read(ifds, i).entries;
    assert(all.skip(0) =~= all);
    let next: u32 = match ifds[i].next {
        Some(t) => ifd_at(ifds, t) as u32,
        None => 0,
    };
    let tail = at + 2 + 12 * n;
    assert(s.subrange(tail, tail + 4) =~= w.subrange(2 + 12 * n, 6 + 12 * n));
    assert(w.subrange(2 + 12 * n, 6 + 12 * n) =~= word32_bytes(le, next));
    lemma_word32_read_back(le, next, s, tail);
    if ifds[i].next is Some {
        lemma_ifd_at_grows(ifds, ifds[i].next->Some_0, ifds.len() as int);
        lemma_plan_region(ifds);
    }
}

proof fn lemma_entry_values_slice(entries: Seq<PlanEntryView>, k: int, n: int)
    requires
        0 <= k < n,
    ensures
        entry_values(entries, k).len() + outline(entries[k].value).len() <= entry_values(
            entries,
            n,
        ).len(),
        entry_values(entries, n).subrange(
            entry_values(entries, k).len() as int,
            (entry_values(entries, k).len() + outline(entries[k].value).len()) as int,
        ) == outline(entries[k].value),
    decreases n,
{
    let a = entry_values(entries, k).len() as int;
    let b = a + outline(entries[k].value).len();
    let whole = entry_values(entries, n);
    if k < n - 1 {
        lemma_entry_values_slice(entries, k, n - 1);
        assert(whole.subrange(a, b) =~= entry_values(entries, n - 1).subrange(a, b));
    } else {
        assert(whole.subrange(a, b) =~= outline(entries[k].value));
    }
}

proof fn lemma_ifd_values_slice(ifds: Seq<PlannedView>, i: int, n: int)
    requires
        0 <= i < n,
    ensures
        ({
            let one = entry_values(ifds[i].entries, ifds[i].entries.len() as int);
            let a = ifd_values(ifds, i).len() as int;
            &&& a + one.len() <= ifd_values(ifds, n).len()
            &&& ifd_values(ifds, n).subrange(a, a + one.len()) == one
        }),
    decreases n,
{
    let one = entry_values(ifds[i].entries, ifds[i].entries.len() as int);
    let a = ifd_values(ifds, i).len() as int;
    let whole = ifd_values(ifds, n);
    if i < n - 1 {
        lemma_ifd_values_slice(ifds, i, n - 1);
        assert(whole.subrange(a, a + one.len()) =~= ifd_values(ifds, n - 1).subrange(
            a,
            a + one.len(),
        ));
    } else {
        assert(whole.subrange(a, a + one.len()) =~= one);
    }
}

/// A value in the value area lies where its placement says.
proof fn lemma_value_slice(ifds: Seq<PlannedView>, le: bool, i: int, k: int)
    requires
        plan_fits(ifds),
        0 <= i < ifds.len(),
        0 <= k < ifds[i].entries.len(),
    ensures
        ({
            let s = block_bytes(ifds, le);
            let x = outline(ifds[i].entries[k].value);
            let at = placement(ifds, i, k);
            &&& 8 <= at
            &&& at + x.len() <= s.len()
            &&& s.subrange(at, at + x.len()) == x
        }),
{
    let s = block_bytes(ifds, le);
    let n = ifds.len() as int;
    let entries = ifds[i].entries;
    let m = entries.len() as int;
    let x = outline(entries[k].value);
    let at = placement(ifds, i, k);
    lemma_block_len(ifds, le);
    lemma_plan_region(ifds);
    lemma_entry_values_slice(entries, k, m);
    lemma_ifd_values_slice(ifds, i, n);
    let one = entry_values(entries, m);
    let all = ifd_values(ifds, n);
    let a = ifd_values(ifds, i).len() as int;
    let b = entry_values(entries, k).len() as int;
    let base = values_at(ifds);
    assert(s.subrange(at, at + x.len()) =~= all.subrange(a + b, a + b + x.len()));
    let part = all.subrange(a, a + one.len());
    assert(all.subrange(a + b, a + b + x.len()) =~= part.subrange(b, b + x.len()));
}

/// A pinned value lies at exactly the offset it has to be at.
pub proof fn a_pinned_value_keeps_its_place(ifds: Seq<PlannedView>, le: bool)
    requires
        plan_fits(ifds),
        pin_of(ifds, ifds.len() as int) is Some,
    ensures
        ({
            let s = block_bytes(ifds, le);
            let p = pin_of(ifds, ifds.len() as int)->Some_0;
            &&& 8 <= p.1
            &&& p.1 + p.0.len() <= s.len()
            &&& s.subrange(p.1, p.1 + p.0.len()) == p.0
        }),
{
    let s = block_bytes(ifds, le);
    let p = pin_of(ifds, ifds.len() as int)->Some_0;
    lemma_block_len(ifds, le);
    lemma_plan_region(ifds);
    let b = pin_bytes(ifds);
    let gap = p.1 - region_end(ifds);
    assert(s.subrange(p.1, p.1 + p.0.len()) =~= b.subrange(gap, gap + p.0.len()));
    assert(b.subrange(gap, gap + p.0.len()) =~= p.0);
}

/// One entry's value is read back.
proof fn lemma_value_reads_back(ifds: Seq<PlannedView>, le: bool, i: int, j: int)
    requires
        plan_fits(ifds),
        states_its_values(ifds),
        0 <= i < ifds.len(),
        0 <= j < ifds[i].entries.len(),
    ensures
        value_of(block_bytes(ifds, le), entry_read(ifds, i, j).1) == Ok::<Seq<u8>, Fault>(
            value_read(ifds, le, i, j),
        ),
{
    let s = block_bytes(ifds, le);
    let k = written_at(ifds, i, j);
    let at = ifd_at(ifds, i) + 2 + 12 * j;
    lemma_entry_slice(ifds, le, i, j);
    lemma_slot_len(ifds, le, i, k);
    lemma_ifd_slice(ifds, le, i);
    let e = ifds[i].entries[k];
    let x = slot(ifds, le, i, k);
    let w = s.subrange(at, at + 12);
    assert(states_its_value(e));
    assert(ifd_fits(ifds, ifds[i]));
    assert(value_fits(ifds, e.value));
    assert(s.subrange(at + 8, at + 12) =~= w.subrange(8, 12));
    assert(w.subrange(8, 12) =~= x);
    assert(size_of(e.typ) * e.count == e.count * size_of(e.typ)) by (nonlinear_arith);
    match e.value {
        ValueView::Bytes(b) => {
            if b.len() > 4 {
                lemma_value_slice(ifds, le, i, k);
                let p = placement(ifds, i, k);
                assert(s.subrange(p, p + b.len()) =~= padded(b).subrange(0, b.len() as int));
                assert(padded(b).subrange(0, b.len() as int) =~= b);
            } else {
                assert(s.subrange(at + 8, at + 8 + b.len()) =~= x.subrange(0, b.len() as int));
                assert(x.subrange(0, b.len() as int) =~= b);
            }
        },
        ValueView::Pinned { bytes, offset } => {
            a_pinned_value_keeps_its_place(ifds, le);
        },
        _ => {
            assert(s.subrange(at + 8, at + 8 + 4) =~= x);
        },
    }
}

/// A written block is a TIFF whose first IFD is the first planned one, and every IFD is
/// read back where it was written: all its entries by ascending tag, each with its type,
/// count and value, and the IFD it chains to.
pub proof fn a_block_reads_back(ifds: Seq<PlannedView>, le: bool)
    requires
        plan_fits(ifds),
        states_its_values(ifds),
    ensures
        opened(block_bytes(ifds, le)) == Some((le, 8int)),
        forall|i: int|
            0 <= i < ifds.len() ==> ifd_of(
                block_bytes(ifds, le),
                le,
                #[trigger] ifd_at(ifds, i),
            ) == Ok::<IfdView, Fault>(ifd_read(ifds, i)),
        forall|i: int, j: int|
            0 <= i < ifds.len() && 0 <= j < ifds[i].entries.len() ==> value_of(
                block_bytes(ifds, le),
                (#[trigger] entry_read(ifds, i, j)).1,
            ) == Ok::<Seq<u8>, Fault>(value_read(ifds, le, i, j)),
{
    let s = block_bytes(ifds, le);
    lemma_block_len(ifds, le);
    lemma_plan_region(ifds);
    let h = header_bytes(le);
    assert(s.subrange(2, 4) =~= word16_bytes(le, 42));
    assert(s.subrange(4, 8) =~= word32_bytes(le, 8));
    lemma_word16_read_back(le, 42, s, 2);
    lemma_word32_read_back(le, 8, s, 4);
    assert(s[0] == h[0] && s[1] == h[1]);
    assert forall|i: int| 0 <= i < ifds.len() implies ifd_of(s, le, #[trigger] ifd_at(ifds, i))
        == Ok::<IfdView, Fault>(ifd_read(ifds, i)) by {
        lemma_ifd_reads_back(ifds, le, i);
    }
    assert forall|i: int, j: int|
        0 <= i < ifds.len() && 0 <= j < ifds[i].entries.len() implies value_of(
        s,
        (#[trigger] entry_read(ifds, i, j)).1,
    ) == Ok::<Seq<u8>, Fault>(value_read(ifds, le, i, j)) by {
        lemma_value_reads_back(ifds, le, i, j);
    }
}

/// A value that the block points at lies where its entry points.
pub proof fn pointed_at_data_is_there(ifds: Seq<PlannedView>, le: bool, i: int, k: int)
    requires
        plan_fits(ifds),
        0 <= i < ifds.len(),
        0 <= k < ifds[i].entries.len(),
        ifds[i].entries[k].value is DataOffset,
    ensures
        ({
            let s = block_bytes(ifds, le);
            let b = ifds[i].entries[k].value->DataOffset_0;
            let at = placement(ifds, i, k);
            &&& at <= u32::MAX
            &&& slot(ifds, le, i, k) == word32_bytes(le, at as u32)
            &&& at + b.len() <= s.len()
            &&& s.subrange(at, at + b.len()) == b
        }),
{
    let s = block_bytes(ifds, le);
    let b = ifds[i].entries[k].value->DataOffset_0;
    let at = placement(ifds, i, k);
    lemma_value_slice(ifds, le, i, k);
    lemma_placement_fits(ifds, i, k);
    assert(s.subrange(at, at + b.len()) =~= padded(b).subrange(0, b.len() as int));
    assert(padded(b).subrange(0, b.len() as int) =~= b);
}

proof fn lemma_insert_contains(entries: Seq<PlanEntryView>, order: Seq<int>, k: int)
    ensures
        forall|x: int|
            #[trigger] insert_by_tag(entries, order, k).contains(x) <==> order.contains(x) || x == k,
    decreases order.len(),
{
    let done = insert_by_tag(entries, order, k);
    if order.len() == 0 {
        assert(done[0] == k);
    } else if entries[order.last()].tag <= entries[k].tag {
        assert(done[order.len() as int] == k);
        assert forall|x: int| #[trigger] done.contains(x) <==> order.contains(x) || x == k by {
            if order.contains(x) {
                let j = order.index_of(x);
                assert(done[j] == x);
            }
        }
    } else {
        let less = order.drop_last();
        let part = insert_by_tag(entries, less, k);
        lemma_insert_contains(entries, less, k);
        assert(done == part.push(order.last()));
        assert(done[part.len() as int] == order.last());
        assert forall|x: int| #[trigger] done.contains(x) <==> order.contains(x) || x == k by {
            if part.contains(x) {
                let j = part.index_of(x);
                assert(done[j] == x);
            }
            if less.contains(x) {
                let j = less.index_of(x);
                assert(order[j] == x);
            }
            if order.contains(x) && x != order.last() {
                let j = order.index_of(x);
                assert(less[j] == x);
            }
            if done.contains(x) {
                let j = done.index_of(x);
                if j < part.len() {
                    assert(part[j] == x);
                    assert(part.contains(x));
                }
            }
        }
    }
}

spec fn ascending(entries: Seq<PlanEntryView>, order: Seq<int>) -> bool {
    forall|a: int, b: int|
        0 <= a <= b < order.len() ==> entries[#[trigger] order[a]].tag
            <= entries[#[trigger] order[b]].tag
}

proof fn lemma_insert_ascending(entries: Seq<PlanEntryView>, order: Seq<int>, k: int)
    requires
        ascending(entries, order),
    ensures
        ascending(entries, insert_by_tag(entries, order, k)),
    decreases order.len(),
{
    let done = insert_by_tag(entries, order, k);
    if order.len() == 0 {
    } else if entries[order.last()].tag <= entries[k].tag {
        assert forall|a: int, b: int| 0 <= a <= b < done.len() implies entries[#[trigger] done[a]].tag
            <= entries[#[trigger] done[b]].tag by {
            if a < order.len() {
                assert(done[a] == order[a]);
                assert(entries[order[a]].tag <= entries[order[order.len() - 1]].tag);
            }
            if b < order.len() {
                assert(done[b] == order[b]);
            }
        }
    } else {
        let less = order.drop_last();
        let part = insert_by_tag(entries, less, k);
        assert(ascending(entries, less)) by {
            assert forall|a: int, b: int| 0 <= a <= b < less.len() implies entries[
            #[trigger] less[a]].tag <= entries[#[trigger] less[b]].tag by {
                assert(less[a] == order[a] && less[b] == order[b]);
            }
        }
        lemma_insert_ascending(entries, less, k);
        lemma_insert_contains(entries, less, k);
        assert forall|a: int, b: int| 0 <= a <= b < done.len() implies entries[#[trigger] done[a]].tag
            <= entries[#[trigger] done[b]].tag by {
            if a < part.len() {
                assert(done[a] == part[a]);
                assert(part.contains(part[a]));
                if part[a] != k {
                    let j = less.index_of(part[a]);
                    assert(less[j] == order[j]);
                    assert(entries[order[j]].tag <= entries[order[order.len() - 1]].tag);
                }
            }
            if b < part.len() {
                assert(done[b] == part[b]);
            }
        }
    }
}

proof fn lemma_tag_order(entries: Seq<PlanEntryView>, n: int)
    requires
        0 <= n,
    ensures
        ascending(entries, tag_order(entries, n)),
        forall|k: int| 0 <= k < n ==> #[trigger] tag_order(entries, n).contains(k),
    decreases n,
{
    if n > 0 {
        lemma_tag_order(entries, n - 1);
        lemma_insert_ascending(entries, tag_order(entries, n - 1), n - 1);
        lemma_insert_contains(entries, tag_order(entries, n - 1), n - 1);
        assert forall|k: int| 0 <= k < n implies #[trigger] tag_order(entries, n).contains(k) by {
            if k < n - 1 {
                assert(tag_order(entries, n - 1).contains(k));
            }
        }
    }
}

/// The entries of an IFD are written in ascending tag order, as TIFF requires.
pub proof fn tags_ascend(ifds: Seq<PlannedView>, i: int, a: int, b: int)
    requires
        0 <= i < ifds.len(),
        0 <= a <= b < ifds[i].entries.len(),
    ensures
        entry_read(ifds, i, a).0 <= entry_read(ifds, i, b).0,
{
    let n = ifds[i].entries.len() as int;
    lemma_tag_order(ifds[i].entries, n);
    lemma_tag_order_within(ifds[i].entries, n);
    let order = tag_order(ifds[i].entries, n);
    assert(ifds[i].entries[order[a]].tag <= ifds[i].entries[order[b]].tag);
}

/// Whether entry `k` of IFD `i` is among those that are written.
pub open spec fn is_written(ifds: Seq<PlannedView>, i: int, k: int) -> bool {
    exists|j: int| 0 <= j < ifds[i].entries.len() && #[trigger] written_at(ifds, i, j) == k
}

/// Every planned entry is written, and only planned ones are.
pub proof fn every_entry_is_written(ifds: Seq<PlannedView>, i: int)
    requires
        0 <= i < ifds.len(),
    ensures
        forall|k: int| 0 <= k < ifds[i].entries.len() ==> #[trigger] is_written(ifds, i, k),
        forall|j: int|
            0 <= j < ifds[i].entries.len() ==> 0 <= #[trigger] written_at(ifds, i, j)
                < ifds[i].entries.len(),
{
    let n = ifds[i].entries.len() as int;
    lemma_tag_order(ifds[i].entries, n);
    lemma_tag_order_within(ifds[i].entries, n);
    let order = tag_order(ifds[i].entries, n);
    assert forall|k: int| 0 <= k < n implies #[trigger] is_written(ifds, i, k) by {
        assert(order.contains(k));
        let j = order.index_of(k);
        assert(written_at(ifds, i, j) == k);
    }
}

/// The positions below `c` among the first `n` of some, in their order.
pub open spec fn those_below(order: Seq<int>, c: int, n: int) -> Seq<int>
    decreases n,
{
    if n <= 0 {
        seq![]
    } else if order[n - 1] < c {
        those_below(order, c, n - 1).push(order[n - 1])
    } else {
        those_below(order, c, n - 1)
    }
}

/// Whether the first `c` entries are by ascending tag.
pub open spec fn front_ascends(entries: Seq<PlanEntryView>, c: int) -> bool {
    forall|a: int, b: int|
        0 <= a <= b < c ==> (#[trigger] entries[a]).tag <= (#[trigger] entries[b]).tag
}

proof fn lemma_those_below_prefix(a: Seq<int>, b: Seq<int>, c: int, n: int)
    requires
        0 <= n <= a.len(),
        n <= b.len(),
        forall|j: int| 0 <= j < n ==> #[trigger] a[j] == b[j],
    ensures
        those_below(a, c, n) == those_below(b, c, n),
    decreases n,
{
    if n > 0 {
        lemma_those_below_prefix(a, b, c, n - 1);
        assert(a[n - 1] == b[n - 1]);
    }
}

/// Putting a later position among others leaves the earlier ones in their order.
proof fn lemma_insert_above(entries: Seq<PlanEntryView>, order: Seq<int>, k: int, c: int)
    requires
        c <= k,
    ensures
        insert_by_tag(entries, order, k).len() == order.len() + 1,
        those_below(insert_by_tag(entries, order, k), c, order.len() as int + 1) == those_below(
            order,
            c,
            order.len() as int,
        ),
    decreases order.len(),
{
    let n = order.len() as int;
    let done = insert_by_tag(entries, order, k);
    if n > 0 {
        if entries[order.last()].tag <= entries[k].tag {
            lemma_those_below_prefix(done, order, c, n);
        } else {
            let less = order.drop_last();
            let part = insert_by_tag(entries, less, k);
            lemma_insert_above(entries, less, k, c);
            lemma_those_below_prefix(done, part, c, n);
            lemma_those_below_prefix(less, order, c, n - 1);
        }
    } else {
        assert(those_below(done, c, 1) == those_below(done, c, 0));
    }
}

proof fn lemma_ascending_stays(entries: Seq<PlanEntryView>, c: int, n: int)
    requires
        0 <= n <= c,
        front_ascends(entries, c),
    ensures
        tag_order(entries, n) == Seq::new(n as nat, |j: int| j),
    decreases n,
{
    if n > 0 {
        lemma_ascending_stays(entries, c, n - 1);
        let before = tag_order(entries, n - 1);
        if n > 1 {
            assert(before.last() == n - 2);
            assert(entries[n - 2].tag <= entries[n - 1].tag);
        }
        assert(tag_order(entries, n) =~= before.push(n - 1));
    }
    assert(tag_order(entries, n) =~= Seq::new(n as nat, |j: int| j));
}

/// Entries by ascending tag, equal tags in their order.
pub open spec fn by_tag(entries: Seq<PlanEntryView>) -> Seq<PlanEntryView> {
    Seq::new(
        entries.len(),
        |j: int| entries[tag_order(entries, entries.len() as int)[j]],
    )
}

/// The order of some positions depends on the tags at them alone.
proof fn lemma_insert_same(
    a: Seq<PlanEntryView>,
    b: Seq<PlanEntryView>,
    order: Seq<int>,
    k: int,
)
    requires
        forall|j: int| 0 <= j < order.len() ==> a[#[trigger] order[j]].tag == b[order[j]].tag,
        a[k].tag == b[k].tag,
    ensures
        insert_by_tag(a, order, k) == insert_by_tag(b, order, k),
    decreases order.len(),
{
    if order.len() > 0 {
        let less = order.drop_last();
        assert(a[order[order.len() - 1]].tag == b[order[order.len() - 1]].tag);
        assert forall|j: int| 0 <= j < less.len() implies a[#[trigger] less[j]].tag
            == b[less[j]].tag by {
            assert(less[j] == order[j]);
        }
        lemma_insert_same(a, b, less, k);
    }
}

proof fn lemma_order_same(a: Seq<PlanEntryView>, b: Seq<PlanEntryView>, n: int)
    requires
        0 <= n,
        forall|j: int| 0 <= j < n ==> (#[trigger] a[j]).tag == b[j].tag,
    ensures
        tag_order(a, n) == tag_order(b, n),
    decreases n,
{
    if n > 0 {
        lemma_order_same(a, b, n - 1);
        let order = tag_order(a, n - 1);
        lemma_tag_order_within(a, n - 1);
        assert forall|j: int| 0 <= j < order.len() implies a[#[trigger] order[j]].tag
            == b[order[j]].tag by {
            assert(a[order[j]].tag == b[order[j]].tag);
        }
        assert(a[n - 1].tag == b[n - 1].tag);
        lemma_insert_same(a, b, order, n - 1);
    }
}

proof fn lemma_those_below_all(order: Seq<int>, c: int, n: int)
    requires
        0 <= n <= order.len(),
        forall|j: int| 0 <= j < n ==> #[trigger] order[j] < c,
    ensures
        those_below(order, c, n) == order.take(n),
    decreases n,
{
    if n > 0 {
        lemma_those_below_all(order, c, n - 1);
        assert(order.take(n - 1).push(order[n - 1]) =~= order.take(n));
    } else {
        assert(order.take(n) =~= seq![]);
    }
}

/// Sorting by tag leaves the entries at the front in the order that sorting them alone
/// gives, whatever is behind them.
pub proof fn a_front_is_sorted_alone(entries: Seq<PlanEntryView>, c: int, n: int)
    requires
        0 <= c <= n <= entries.len(),
    ensures
        tag_order(entries, n).len() == n,
        those_below(tag_order(entries, n), c, n) == tag_order(entries.take(c), c),
    decreases n,
{
    lemma_tag_order_within(entries, n);
    if n == c {
        let order = tag_order(entries, c);
        lemma_those_below_all(order, c, c);
        assert(order.take(c) =~= order);
        lemma_order_same(entries, entries.take(c), c);
    } else {
        lemma_tag_order_within(entries, n - 1);
        a_front_is_sorted_alone(entries, c, n - 1);
        lemma_insert_above(entries, tag_order(entries, n - 1), n - 1, c);
    }
}

/// How much the entries at the first `n` of some positions add to the value area.
spec fn values_of_order(entries: Seq<PlanEntryView>, order: Seq<int>) -> int
    decreases order.len(),
{
    if order.len() == 0 {
        0
    } else {
        values_of_order(entries, order.drop_last()) + outline(entries[order.last()].value).len()
    }
}

proof fn lemma_insert_values(entries: Seq<PlanEntryView>, order: Seq<int>, k: int)
    ensures
        values_of_order(entries, insert_by_tag(entries, order, k)) == values_of_order(
            entries,
            order,
        ) + outline(entries[k].value).len(),
    decreases order.len(),
{
    let done = insert_by_tag(entries, order, k);
    if order.len() == 0 {
        assert(done.drop_last() =~= seq![]);
        assert(values_of_order(entries, seq![]) == 0);
    } else if entries[order.last()].tag <= entries[k].tag {
        assert(done.drop_last() =~= order);
    } else {
        let part = insert_by_tag(entries, order.drop_last(), k);
        lemma_insert_values(entries, order.drop_last(), k);
        assert(done.drop_last() =~= part);
    }
}

proof fn lemma_order_values(entries: Seq<PlanEntryView>, n: int)
    requires
        0 <= n,
    ensures
        values_of_order(entries, tag_order(entries, n)) == entry_values(entries, n).len(),
    decreases n,
{
    if n > 0 {
        lemma_order_values(entries, n - 1);
        lemma_insert_values(entries, tag_order(entries, n - 1), n - 1);
    }
}

proof fn lemma_picked_values(
    entries: Seq<PlanEntryView>,
    order: Seq<int>,
    picked: Seq<PlanEntryView>,
    n: int,
)
    requires
        0 <= n <= order.len(),
        picked.len() == order.len(),
        forall|j: int| 0 <= j < n ==> #[trigger] picked[j] == entries[order[j]],
    ensures
        entry_values(picked, n).len() == values_of_order(entries, order.take(n)),
    decreases n,
{
    if n > 0 {
        lemma_picked_values(entries, order, picked, n - 1);
        assert(order.take(n).drop_last() =~= order.take(n - 1));
        assert(picked[n - 1] == entries[order[n - 1]]);
    } else {
        assert(order.take(n) =~= seq![]);
    }
}

/// Sorting entries by tag keeps them all: each one that is there was there, and together they
/// take as much of the value area.
pub proof fn sorting_keeps_the_entries(entries: Seq<PlanEntryView>)
    ensures
        by_tag(entries).len() == entries.len(),
        forall|j: int| 0 <= j < entries.len() ==> entries.contains(#[trigger] by_tag(entries)[j]),
        entry_values(by_tag(entries), entries.len() as int).len() == entry_values(
            entries,
            entries.len() as int,
        ).len(),
        front_ascends(by_tag(entries), entries.len() as int),
{
    let n = entries.len() as int;
    let order = tag_order(entries, n);
    lemma_tag_order_within(entries, n);
    lemma_tag_order(entries, n);
    lemma_order_values(entries, n);
    lemma_picked_values(entries, order, by_tag(entries), n);
    assert(order.take(n) =~= order);
    assert forall|j: int| 0 <= j < n implies entries.contains(#[trigger] by_tag(entries)[j]) by {
        assert(0 <= order[j] < n);
        assert(entries[order[j]] == by_tag(entries)[j]);
    }
    assert forall|a: int, b: int| 0 <= a <= b < n implies (#[trigger] by_tag(entries)[a]).tag <= (
    #[trigger] by_tag(entries)[b]).tag by {
        assert(entries[order[a]].tag <= entries[order[b]].tag);
    }
}

/// Entries that are by ascending tag already stay as they are.
pub proof fn sorted_entries_stay(entries: Seq<PlanEntryView>)
    requires
        front_ascends(entries, entries.len() as int),
    ensures
        by_tag(entries) == entries,
{
    let n = entries.len() as int;
    lemma_ascending_stays(entries, n, n);
    assert(by_tag(entries) =~= entries);
}

/// The first of some positions whose entry has a tag.
spec fn first_at(entries: Seq<PlanEntryView>, order: Seq<int>, tag: u16) -> Option<int>
    decreases order.len(),
{
    if order.len() == 0 {
        None
    } else {
        match first_at(entries, order.drop_last(), tag) {
            Some(k) => Some(k),
            None => if entries[order.last()].tag == tag {
                Some(order.last())
            } else {
                None
            },
        }
    }
}

proof fn lemma_insert_first(entries: Seq<PlanEntryView>, order: Seq<int>, k: int, tag: u16)
    ensures
        first_at(entries, insert_by_tag(entries, order, k), tag) == match first_at(
            entries,
            order,
            tag,
        ) {
            Some(x) => Some(x),
            None => if entries[k].tag == tag {
                Some(k)
            } else {
                None
            },
        },
    decreases order.len(),
{
    let done = insert_by_tag(entries, order, k);
    if order.len() == 0 {
        assert(done.drop_last() =~= seq![]);
        assert(first_at(entries, seq![], tag) is None);
    } else if entries[order.last()].tag <= entries[k].tag {
        assert(done.drop_last() =~= order);
    } else {
        let part = insert_by_tag(entries, order.drop_last(), k);
        lemma_insert_first(entries, order.drop_last(), k, tag);
        assert(done.drop_last() =~= part);
    }
}

/// The first entry with a tag.
pub open spec fn first_with(entries: Seq<PlanEntryView>, tag: u16) -> Option<PlanEntryView>
    decreases entries.len(),
{
    if entries.len() == 0 {
        None
    } else {
        match first_with(entries.drop_last(), tag) {
            Some(e) => Some(e),
            None => if entries.last().tag == tag {
                Some(entries.last())
            } else {
                None
            },
        }
    }
}

proof fn lemma_order_first(entries: Seq<PlanEntryView>, n: int, tag: u16)
    requires
        0 <= n <= entries.len(),
    ensures
        first_with(entries.take(n), tag) == match first_at(entries, tag_order(entries, n), tag) {
            Some(k) => Some(entries[k]),
            None => None,
        },
    decreases n,
{
    if n > 0 {
        lemma_order_first(entries, n - 1, tag);
        lemma_insert_first(entries, tag_order(entries, n - 1), n - 1, tag);
        assert(entries.take(n).drop_last() =~= entries.take(n - 1));
    }
}

proof fn lemma_picked_first(
    entries: Seq<PlanEntryView>,
    order: Seq<int>,
    picked: Seq<PlanEntryView>,
    n: int,
    tag: u16,
)
    requires
        0 <= n <= order.len(),
        picked.len() == order.len(),
        forall|j: int| 0 <= j < n ==> #[trigger] picked[j] == entries[order[j]],
    ensures
        first_with(picked.take(n), tag) == match first_at(entries, order.take(n), tag) {
            Some(k) => Some(entries[k]),
            None => None,
        },
    decreases n,
{
    if n > 0 {
        lemma_picked_first(entries, order, picked, n - 1, tag);
        assert(order.take(n).drop_last() =~= order.take(n - 1));
        assert(picked.take(n).drop_last() =~= picked.take(n - 1));
        assert(picked[n - 1] == entries[order[n - 1]]);
    }
}

/// Sorting by tag leaves the first entry of every tag the first.
pub proof fn sorting_keeps_the_first(entries: Seq<PlanEntryView>, tag: u16)
    ensures
        first_with(by_tag(entries), tag) == first_with(entries, tag),
{
    let n = entries.len() as int;
    let order = tag_order(entries, n);
    lemma_tag_order_within(entries, n);
    lemma_order_first(entries, n, tag);
    lemma_picked_first(entries, order, by_tag(entries), n, tag);
    assert(order.take(n) =~= order);
    assert(entries.take(n) =~= entries);
    assert(by_tag(entries).take(n) =~= by_tag(entries));
}

} // verus!
