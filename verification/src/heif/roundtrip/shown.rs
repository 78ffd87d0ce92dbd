//! The properties that the items of a written file are read with.

use vstd::prelude::*;

use crate::heif::model::{all_assocs, file_of, prop_at, FileView, PropView};
use crate::heif::roundtrip::{
    a_written_file_reads_back, base_views, clli_views, gain_views, image_views,
    lemma_prop_places, lemma_written_assocs, lemma_written_props, opt_colr_view, tmap_views,
    turn_views, written_props,
};
use crate::heif::write::{
    assoc, base_list, clli_at, gain_at, gain_list, image_list, mux_bytes, tmap_at, tmap_list,
    turn_at, turn_list, writable, MuxView,
};
use crate::heif::{Association, CodedView, Error, ItemId, APPLE_GAINMAP_URN};

verus! {

/// The properties that some associations name, in order.
pub open spec fn named_by(props: Seq<PropView>, list: Seq<Association>) -> Seq<Option<PropView>> {
    Seq::new(list.len(), |i: int| prop_at(props, list[i]))
}

/// The properties that an item is associated with, in order.
pub open spec fn shown(f: FileView, id: ItemId) -> Seq<Option<PropView>> {
    named_by(f.props, all_assocs(f.assocs, id))
}

/// Properties that are there.
pub open spec fn there(v: Seq<PropView>) -> Seq<Option<PropView>> {
    Seq::new(v.len(), |i: int| Some(v[i]))
}

proof fn lemma_named_join(
    props: Seq<PropView>,
    a: Seq<Association>,
    va: Seq<PropView>,
    b: Seq<Association>,
    vb: Seq<PropView>,
)
    requires
        named_by(props, a) == there(va),
        named_by(props, b) == there(vb),
    ensures
        named_by(props, a + b) == there(va + vb),
{
    let n = named_by(props, a + b);
    let t = there(va + vb);
    assert(named_by(props, a).len() == a.len() && there(va).len() == va.len());
    assert(named_by(props, b).len() == b.len() && there(vb).len() == vb.len());
    assert forall|i: int| 0 <= i < n.len() implies n[i] == t[i] by {
        if i < a.len() {
            assert(named_by(props, a)[i] == there(va)[i]);
        } else {
            assert(named_by(props, b)[i - a.len()] == there(vb)[i - a.len()]);
        }
    }
    assert(n =~= t);
}

proof fn lemma_named_one(props: Seq<PropView>, at: int, essential: bool)
    requires
        0 <= at < props.len() < 0x100,
    ensures
        named_by(props, seq![assoc(at, essential)]) == there(seq![props[at]]),
{
    assert(named_by(props, seq![assoc(at, essential)]) =~= there(seq![props[at]]));
}

proof fn lemma_named_none(props: Seq<PropView>)
    ensures
        named_by(props, seq![]) == there(seq![]),
{
    assert(named_by(props, seq![]) =~= there(seq![]));
}

proof fn lemma_named_image(props: Seq<PropView>, at: int, i: CodedView)
    requires
        0 <= at,
        at + 3 <= props.len() < 0x100,
        props[at] == image_views(i)[0],
        props[at + 1] == image_views(i)[1],
        props[at + 2] == image_views(i)[2],
    ensures
        named_by(props, image_list(at)) == there(image_views(i)),
{
    assert(named_by(props, image_list(at)) =~= there(image_views(i)));
}

proof fn lemma_named_turn(q: MuxView)
    ensures
        named_by(written_props(q), turn_list(q)) == there(turn_views(q)),
{
    lemma_written_props(q);
    lemma_prop_places(q);
    let props = written_props(q);
    assert forall|i: int| 0 <= i < turn_list(q).len() implies prop_at(
        props,
        #[trigger] turn_list(q)[i],
    ) == Some(turn_views(q)[i]) by {
        assert(props[turn_at(q) + i] == turn_views(q)[i]);
    }
    assert(named_by(props, turn_list(q)) =~= there(turn_views(q)));
}

proof fn lemma_named_base(q: MuxView)
    ensures
        named_by(written_props(q), base_list(q)) == there(
            image_views(q.base) + opt_colr_view(q.base_colour) + clli_views(q) + turn_views(q),
        ),
{
    lemma_written_props(q);
    lemma_prop_places(q);
    lemma_named_turn(q);
    let props = written_props(q);
    let b = base_views(q);
    let colr = if q.base_colour is Some {
        seq![assoc(3, true)]
    } else {
        seq![]
    };
    let clli = if q.clli is Some {
        seq![assoc(clli_at(q), false)]
    } else {
        seq![]
    };
    assert(props[0] == b[0] && props[1] == b[1] && props[2] == b[2]);
    lemma_named_none(props);
    lemma_named_image(props, 0, q.base);
    if q.base_colour is Some {
        assert(props[3] == b[3]);
        lemma_named_one(props, 3, true);
    }
    if q.clli is Some {
        assert(props[clli_at(q) + 0] == clli_views(q)[0]);
        lemma_named_one(props, clli_at(q), false);
    }
    lemma_named_join(props, image_list(0), image_views(q.base), colr, opt_colr_view(q.base_colour));
    lemma_named_join(
        props,
        image_list(0) + colr,
        image_views(q.base) + opt_colr_view(q.base_colour),
        clli,
        clli_views(q),
    );
    lemma_named_join(
        props,
        image_list(0) + colr + clli,
        image_views(q.base) + opt_colr_view(q.base_colour) + clli_views(q),
        turn_list(q),
        turn_views(q),
    );
}

proof fn lemma_named_gain(q: MuxView)
    ensures
        named_by(written_props(q), gain_list(q)) == there(gain_views(q) + turn_views(q)),
{
    lemma_written_props(q);
    lemma_prop_places(q);
    lemma_named_turn(q);
    let props = written_props(q);
    let at = gain_at(q);
    let g = gain_views(q);
    let urn = if q.flavor.apple() {
        seq![assoc(at + 3, true)]
    } else {
        seq![]
    };
    let more = if q.flavor.apple() {
        seq![PropView::AuxC(APPLE_GAINMAP_URN@)]
    } else {
        seq![]
    };
    assert(props[at + 0] == g[0] && props[at + 1] == g[1] && props[at + 2] == g[2]);
    lemma_named_none(props);
    lemma_named_image(props, at, q.gain);
    if q.flavor.apple() {
        assert(props[at + 3] == g[3]);
        lemma_named_one(props, at + 3, true);
    }
    lemma_named_join(props, image_list(at), image_views(q.gain), urn, more);
    lemma_named_join(
        props,
        image_list(at) + urn,
        image_views(q.gain) + more,
        turn_list(q),
        turn_views(q),
    );
}

proof fn lemma_named_tmap(q: MuxView)
    requires
        q.flavor.iso(),
    ensures
        named_by(written_props(q), tmap_list(q)) == there(tmap_views(q) + turn_views(q)),
{
    lemma_written_props(q);
    lemma_prop_places(q);
    lemma_named_turn(q);
    let props = written_props(q);
    let at = tmap_at(q);
    let t = tmap_views(q);
    let size = PropView::Ispe { width: q.base.width, height: q.base.height };
    let colr = if q.tmap_colour is Some {
        seq![assoc(at + 1, true)]
    } else {
        seq![]
    };
    assert(props[at + 0] == t[0]);
    lemma_named_none(props);
    lemma_named_one(props, at, false);
    if q.tmap_colour is Some {
        assert(props[at + 1] == t[1]);
        lemma_named_one(props, at + 1, true);
    }
    lemma_named_join(
        props,
        seq![assoc(at, false)],
        seq![size],
        colr,
        opt_colr_view(q.tmap_colour),
    );
    lemma_named_join(
        props,
        seq![assoc(at, false)] + colr,
        seq![size] + opt_colr_view(q.tmap_colour),
        turn_list(q),
        turn_views(q),
    );
}

/// Every image item is read with the properties that were asked for and no others: the two
/// coded ones with their size, channels and decoder configuration, the base with its colour,
/// the gain map with Apple's type in the Apple form, the tone map with the size of the base and
/// the colour of what it gives; and each with the transform.
pub proof fn properties_read_back(q: MuxView, f: FileView)
    requires
        writable(q),
        file_of(mux_bytes(q)) == Ok::<FileView, Error>(f),
    ensures
        shown(f, 1) == there(
            image_views(q.base) + opt_colr_view(q.base_colour) + clli_views(q) + turn_views(q),
        ),
        shown(f, 2) == there(
            image_views(q.gain) + (if q.flavor.apple() {
                seq![PropView::AuxC(APPLE_GAINMAP_URN@)]
            } else {
                seq![]
            }) + turn_views(q),
        ),
        q.flavor.iso() ==> shown(f, 3) == there(
            seq![PropView::Ispe { width: q.base.width, height: q.base.height }] + opt_colr_view(
                q.tmap_colour,
            ) + turn_views(q),
        ),
{
    a_written_file_reads_back(q);
    lemma_written_assocs(q, 1);
    lemma_written_assocs(q, 2);
    lemma_written_assocs(q, 3);
    lemma_named_base(q);
    lemma_named_gain(q);
    if q.flavor.iso() {
        lemma_named_tmap(q);
    }
}

/// Whether a property may be passed over: those that only restate what the coded image says.
pub open spec fn may_be_ignored(p: PropView) -> bool {
    p is Ispe || p is Pixi || p is Clli
}

/// Whether associations are essential just where the properties they name may not be ignored.
spec fn well_marked(list: Seq<Association>, v: Seq<PropView>) -> bool {
    list.len() == v.len() && forall|i: int|
        0 <= i < v.len() ==> (#[trigger] list[i]).essential == !may_be_ignored(v[i])
}

proof fn lemma_marked_join(
    a: Seq<Association>,
    va: Seq<PropView>,
    b: Seq<Association>,
    vb: Seq<PropView>,
)
    requires
        well_marked(a, va),
        well_marked(b, vb),
    ensures
        well_marked(a + b, va + vb),
{
    let list = a + b;
    let v = va + vb;
    assert forall|i: int| 0 <= i < v.len() implies (#[trigger] list[i]).essential
        == !may_be_ignored(v[i]) by {
        if i < a.len() {
            assert(a[i].essential == !may_be_ignored(va[i]));
        } else {
            assert(b[i - a.len()].essential == !may_be_ignored(vb[i - a.len()]));
        }
    }
}

proof fn lemma_marked_parts(q: MuxView, at: int, c: CodedView)
    ensures
        well_marked(turn_list(q), turn_views(q)),
        well_marked(image_list(at), image_views(c)),
{
}

proof fn lemma_marked_base(q: MuxView)
    ensures
        well_marked(
            base_list(q),
            image_views(q.base) + opt_colr_view(q.base_colour) + clli_views(q) + turn_views(q),
        ),
{
    lemma_marked_parts(q, 0, q.base);
    let colr = if q.base_colour is Some {
        seq![assoc(3, true)]
    } else {
        seq![]
    };
    let clli = if q.clli is Some {
        seq![assoc(clli_at(q), false)]
    } else {
        seq![]
    };
    lemma_marked_join(image_list(0), image_views(q.base), colr, opt_colr_view(q.base_colour));
    lemma_marked_join(
        image_list(0) + colr,
        image_views(q.base) + opt_colr_view(q.base_colour),
        clli,
        clli_views(q),
    );
    lemma_marked_join(
        image_list(0) + colr + clli,
        image_views(q.base) + opt_colr_view(q.base_colour) + clli_views(q),
        turn_list(q),
        turn_views(q),
    );
}

proof fn lemma_marked_gain(q: MuxView)
    ensures
        well_marked(
            gain_list(q),
            image_views(q.gain) + (if q.flavor.apple() {
                seq![PropView::AuxC(APPLE_GAINMAP_URN@)]
            } else {
                seq![]
            }) + turn_views(q),
        ),
{
    lemma_marked_parts(q, gain_at(q), q.gain);
    let (aux, named) = if q.flavor.apple() {
        (seq![assoc(gain_at(q) + 3, true)], seq![PropView::AuxC(APPLE_GAINMAP_URN@)])
    } else {
        (seq![], seq![])
    };
    lemma_marked_join(image_list(gain_at(q)), image_views(q.gain), aux, named);
    lemma_marked_join(
        image_list(gain_at(q)) + aux,
        image_views(q.gain) + named,
        turn_list(q),
        turn_views(q),
    );
}

proof fn lemma_marked_tmap(q: MuxView)
    ensures
        well_marked(
            tmap_list(q),
            seq![PropView::Ispe { width: q.base.width, height: q.base.height }] + opt_colr_view(
                q.tmap_colour,
            ) + turn_views(q),
        ),
{
    lemma_marked_parts(q, 0, q.base);
    let size = seq![PropView::Ispe { width: q.base.width, height: q.base.height }];
    let first = seq![assoc(tmap_at(q), false)];
    let colr = if q.tmap_colour is Some {
        seq![assoc(tmap_at(q) + 1, true)]
    } else {
        seq![]
    };
    lemma_marked_join(first, size, colr, opt_colr_view(q.tmap_colour));
    lemma_marked_join(
        first + colr,
        size + opt_colr_view(q.tmap_colour),
        turn_list(q),
        turn_views(q),
    );
}

/// Every property of a written image that changes how it is decoded or shown is essential, and
/// no other is.
pub proof fn essential_properties_are_marked(q: MuxView, f: FileView, id: ItemId, i: int)
    requires
        writable(q),
        file_of(mux_bytes(q)) == Ok::<FileView, Error>(f),
        id == 1 || id == 2 || (id == 3 && q.flavor.iso()),
        0 <= i < all_assocs(f.assocs, id).len(),
    ensures
        shown(f, id)[i] matches Some(p) && all_assocs(f.assocs, id)[i].essential
            == !may_be_ignored(p),
{
    properties_read_back(q, f);
    a_written_file_reads_back(q);
    lemma_written_assocs(q, id as int);
    if id == 1 {
        lemma_marked_base(q);
        assert(all_assocs(f.assocs, id) == base_list(q));
    } else if id == 2 {
        lemma_marked_gain(q);
        assert(all_assocs(f.assocs, id) == gain_list(q));
    } else {
        lemma_marked_tmap(q);
        assert(all_assocs(f.assocs, id) == tmap_list(q));
    }
}

} // verus!
