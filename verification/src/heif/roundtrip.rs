//! What the reader makes of a file the muxer wrote.
//!
//! The laws at the end say what [`HeifFile::parse`](crate::heif::HeifFile::parse)
//! and its accessors give back of a request: every item with its references, size
//! and data. The lemmas before them take the boxes one by one.

pub mod shown;

use vstd::prelude::*;
use vstd::utf8::{
    char_is_scalar, char_u32_cast, encode_scalar, encode_utf8, encode_utf8_decode_utf8, encode_utf8_valid_utf8,
};

use crate::bytes::{
    be16_bytes, be32_bytes, group_encoded_lengths, lemma_be16_read_back, lemma_be32_read_back,
};

use crate::heif::boxes::{
    BoxSpan, Chunk, body_fits, box_bytes, boxes_in, boxes_read_back, chunk_bytes, first_of,
    lemma_chunk_is_smaller, lemma_chunk_push, placed, wide_value,
};

use crate::heif::model::{
    AUXC, AUXL, AssocView, CDSC, CLLI, COLR, ColourView, DIMG, FTYP, FileView, GRPL, HDLR, HVC1,
    IDAT, IINF, ILOC, INFE, IPCO, IPMA, IPRP, IREF, ISPE, ItemView, LocLayout, LocView, MDAT,
    META, MIME, MetaView, NCLX, PITM, PIXI, PROF, PropView, RefView, TMAP, URI, after,
    all_assocs, assoc_at, assocs_from, assocs_of, body, brands_of, by_start, chroma_of,
    coded_of, collect, data_of, depth_of, extents_from, file_of, find_id, find_kind, find_urn,
    first_assocs, gain_map_of, id_at, iinf_of, iloc_of, infe_of, ipma_of, iref_of, is_first,
    items_from, last_hvcc, last_pixi, last_size, last_urn, layout_of, lemma_collect_succeeds,
    location, locs_from, next_text, nothing_yet, pitm_of, prop_at, prop_of, props_of, range_of,
    ranges_of, ref_of, resolved, resolved_items, targets, text_at, text_end, tmap_meta, uint_at,
    with_child, with_children,
};

use crate::text::{text_of};

use crate::heif::write::{
    HEIC, MIAF, MIF1, MuxView, Stored, all_props, assoc, auxc_chunk, base_list, base_props,
    channels, clli_at, clli_props, colr_chunk, described, describing_refs, early_children, exif_stored,
    first_describing, ftyp_body, gain_at, gain_list, gain_props, grpl_chunks, ids_bytes,
    iinf_body, iloc_body, iloc_entry, iloc_stored, image_list, image_props, image_refs,
    infe_body, infe_chunks, ipma_body, ipma_entry, iprp_chunks, iref_body, ispe_chunk, joined,
    lemma_ids_len, lemma_iloc_body_len, lemma_iloc_len, lemma_joined_grows, list_bytes,
    mdat_start, meta_children, mux_bytes, opt_colr, pitm_body, pixi_bits, pixi_chunk, ref_chunk,
    stored, stored_infe, stored_of, terminated, tmap_at, tmap_list, tmap_props, tmap_stored,
    turn_at, turn_list, turn_props, writable, xmp_stored, zeros4,
};

use crate::iso21496;
use crate::iso21496::ParseError;
use crate::meta::GainMapMeta;
use crate::opaque::OpaqueView;
use crate::heif::{
    APPLE_GAINMAP_URN, Association, Chroma, CodedView, Error, Extent, GainMapInfo, ItemId,
    views,
};

verus! {

broadcast use group_encoded_lengths;

/// A text without the zero that would end it early when it is written.
pub open spec fn zero_free(text: Seq<char>) -> bool {
    forall|i: int| 0 <= i < text.len() ==> #[trigger] text[i] != '\0'
}

proof fn lemma_scalar_zero_free(c: u32)
    by (bit_vector)
    requires
        0 < c <= 0x10FFFF,
    ensures
        c <= 0x7F ==> (c & 0x7F) as u8 != 0,
        0xC0 | ((c >> 6) & 0x1F) as u8 != 0,
        0xE0 | ((c >> 12) & 0x0F) as u8 != 0,
        0xF0 | ((c >> 18) & 0x7) as u8 != 0,
        0x80 | (c & 0x3F) as u8 != 0,
        0x80 | ((c >> 6) & 0x3F) as u8 != 0,
        0x80 | ((c >> 12) & 0x3F) as u8 != 0,
{
}

/// UTF-8 writes a zero byte for the zero character alone.
proof fn lemma_utf8_zero_free(text: Seq<char>)
    requires
        zero_free(text),
    ensures
        forall|i: int| 0 <= i < encode_utf8(text).len() ==> #[trigger] encode_utf8(text)[i] != 0,
    decreases text.len(),
{
    if text.len() > 0 {
        let rest = text.drop_first();
        assert forall|i: int| 0 <= i < rest.len() implies #[trigger] rest[i] != '\0' by {
            assert(rest[i] == text[i + 1]);
        }
        lemma_utf8_zero_free(rest);
        let c = text[0] as u32;
        assert(text[0] != '\0');
        char_is_scalar(text[0]);
        assert(c <= 0x10FFFF);
        if c == 0 {
            char_u32_cast(text[0], 0u32);
            assert(0u32 as char == '\0');
        }
        lemma_scalar_zero_free(c);
        let head = encode_scalar(c);
        assert(forall|i: int| 0 <= i < head.len() ==> #[trigger] head[i] != 0);
        assert(encode_utf8(text) == head + encode_utf8(rest));
    }
}

/// Zero-terminated text is found up to its terminator.
proof fn lemma_text_end(b: Seq<u8>, at: int, end: int)
    requires
        0 <= at <= end < b.len(),
        forall|i: int| at <= i < end ==> b[i] != 0,
        b[end] == 0,
    ensures
        text_end(b, at) == end,
    decreases end - at,
{
    if at < end {
        lemma_text_end(b, at + 1, end);
    }
}

/// A text written with its terminator is read back.
proof fn lemma_text_reads_back(b: Seq<u8>, at: int, text: Seq<char>)
    requires
        zero_free(text),
        0 <= at,
        at + encode_utf8(text).len() + 1 <= b.len(),
        b.subrange(at, at + encode_utf8(text).len() + 1) == terminated(encode_utf8(text)),
    ensures
        text_of(text_at(b, at)) == text,
        next_text(b, at) == if at + encode_utf8(text).len() + 1 <= b.len() {
            at + encode_utf8(text).len() + 1
        } else {
            b.len() as int
        },
{
    let t = encode_utf8(text);
    let n = t.len() as int;
    let w = b.subrange(at, at + n + 1);
    lemma_utf8_zero_free(text);
    assert forall|i: int| at <= i < at + n implies b[i] != 0 by {
        assert(b[i] == w[i - at]);
        assert(w[i - at] == t[i - at]);
    }
    assert(b[at + n] == w[n]);
    lemma_text_end(b, at, at + n);
    assert(b.subrange(at, at + n) =~= w.subrange(0, n));
    assert(w.subrange(0, n) =~= t);
    encode_utf8_valid_utf8(text);
    encode_utf8_decode_utf8(text);
}

/// The first box of a type, when its position is known.
proof fn lemma_first_of(boxes: Seq<BoxSpan>, kind: u32, i: int)
    requires
        0 <= i < boxes.len(),
        boxes[i].kind == kind,
        forall|j: int| 0 <= j < i ==> (#[trigger] boxes[j]).kind != kind,
    ensures
        first_of(boxes, kind) == Some(boxes[i]),
    decreases i,
{
    if i > 0 {
        let rest = boxes.skip(1);
        assert(boxes[0].kind != kind);
        assert forall|j: int| 0 <= j < i - 1 implies (#[trigger] rest[j]).kind != kind by {
            assert(rest[j] == boxes[j + 1]);
        }
        lemma_first_of(rest, kind, i - 1);
    }
}

/// What the reader makes of one written item, before references and properties are
/// resolved.
pub open spec fn listed(id: u16, x: Stored) -> ItemView {
    let b = infe_body(id, x.kind, x.hidden, x.name, x.tail);
    let more = text_of(text_at(b, next_text(b, 12)));
    ItemView {
        id: id as u32,
        kind: x.kind,
        name: text_of(text_at(b, 12)),
        content_type: if x.kind == MIME {
            Some(more)
        } else {
            None
        },
        uri_type: if x.kind == URI {
            Some(more)
        } else {
            None
        },
        hidden: x.hidden,
        width: None,
        height: None,
        aux_urn: None,
        derives_from: seq![],
        auxiliary_to: seq![],
        describes: seq![],
    }
}

proof fn lemma_infe(id: u16, x: Stored)
    ensures
        infe_of(infe_body(id, x.kind, x.hidden, x.name, x.tail)) == Ok::<ItemView, Error>(
            listed(id, x),
        ),
{
    let b = infe_body(id, x.kind, x.hidden, x.name, x.tail);
    assert(b.subrange(4, 6) =~= be16_bytes(id));
    assert(b.subrange(8, 12) =~= be32_bytes(x.kind));
    lemma_be16_read_back(id, b, 4);
    lemma_be32_read_back(x.kind, b, 8);
    assert(b[0] == 2);
    assert(b.len() >= 13);
    assert(b[3] == if x.hidden {
        1u8
    } else {
        0u8
    });
}

/// Items whose entries are all read give them in order.
proof fn lemma_items_from(s: Seq<u8>, boxes: Seq<BoxSpan>, i: int, xs: Seq<ItemView>)
    requires
        0 <= i <= boxes.len(),
        xs.len() == boxes.len(),
        forall|k: int|
            i <= k < boxes.len() ==> (#[trigger] boxes[k]).kind == INFE && infe_of(
                body(s, boxes[k]),
            ) == Ok::<ItemView, Error>(xs[k]),
    ensures
        items_from(s, boxes, i) == Ok::<Seq<ItemView>, Error>(xs.skip(i)),
    decreases boxes.len() - i,
{
    if i < boxes.len() {
        lemma_items_from(s, boxes, i + 1, xs);
        assert(boxes[i].kind == INFE);
        assert(seq![xs[i]] + xs.skip(i + 1) =~= xs.skip(i));
    } else {
        assert(xs.skip(i) =~= seq![]);
    }
}

/// Identifiers are read back at their places.
proof fn lemma_id_at(ids: Seq<u16>, i: int)
    requires
        0 <= i < ids.len(),
    ensures
        ids_bytes(ids).len() == 2 * ids.len(),
        ids_bytes(ids).subrange(2 * i, 2 * i + 2) == be16_bytes(ids[i]),
    decreases ids.len(),
{
    lemma_ids_len(ids);
    lemma_ids_len(ids.drop_last());
    let b = ids_bytes(ids);
    let front = ids_bytes(ids.drop_last());
    assert(b == front + be16_bytes(ids.last()));
    if i < ids.len() - 1 {
        lemma_id_at(ids.drop_last(), i);
        assert(b.subrange(2 * i, 2 * i + 2) =~= front.subrange(2 * i, 2 * i + 2));
    } else {
        assert(b.subrange(2 * i, 2 * i + 2) =~= be16_bytes(ids.last()));
    }
}

pub open spec fn wide_ids(ids: Seq<u16>) -> Seq<ItemId> {
    Seq::new(ids.len(), |i: int| ids[i] as u32)
}

proof fn lemma_ref(kind: u32, from: u16, to: Seq<u16>)
    requires
        to.len() <= 0xffff,
    ensures
        ref_of(kind, false, ref_chunk(kind, from, to).body) == Ok::<RefView, Error>(
            RefView { kind, from: from as u32, to: wide_ids(to) },
        ),
{
    let b = ref_chunk(kind, from, to).body;
    let n = to.len() as u16;
    let tail = ids_bytes(to);
    lemma_ids_len(to);
    assert(b.subrange(0, 2) =~= be16_bytes(from));
    assert(b.subrange(2, 4) =~= be16_bytes(n));
    lemma_be16_read_back(from, b, 0);
    lemma_be16_read_back(n, b, 2);
    assert forall|i: int| 0 <= i < to.len() implies #[trigger] id_at(b, false, 4 + i * 2)
        == to[i] as u32 by {
        lemma_id_at(to, i);
        assert(b.subrange(4 + i * 2, 4 + i * 2 + 2) =~= tail.subrange(2 * i, 2 * i + 2));
        lemma_be16_read_back(to[i], b, 4 + i * 2);
    }
    let read = Seq::new(to.len(), |i: int| id_at(b, false, 4 + i * 2));
    assert(read =~= wide_ids(to));
    match ref_of(kind, false, b) {
        Ok(r) => {
            assert(r.to =~= read);
        },
        Err(_) => {},
    }
}

proof fn lemma_ispe(w: u32, h: u32)
    ensures
        prop_of(ISPE, ispe_chunk(w, h).body) == Ok::<PropView, Error>(
            PropView::Ispe { width: w, height: h },
        ),
{
    let b = ispe_chunk(w, h).body;
    assert(b.subrange(4, 8) =~= be32_bytes(w));
    assert(b.subrange(8, 12) =~= be32_bytes(h));
    lemma_be32_read_back(w, b, 4);
    lemma_be32_read_back(h, b, 8);
}

proof fn lemma_pixi(c: Chroma, depth: u8)
    ensures
        prop_of(PIXI, pixi_chunk(c, depth).body) == Ok::<PropView, Error>(
            PropView::Pixi(pixi_bits(c, depth)),
        ),
{
    let b = pixi_chunk(c, depth).body;
    assert(b[4] == channels(c));
    assert(b.subrange(5, 5 + b[4]) =~= pixi_bits(c, depth));
}

proof fn lemma_colr(c: ColourView)
    ensures
        prop_of(COLR, colr_chunk(c).body) == Ok::<PropView, Error>(PropView::Colr(c)),
{
    let b = colr_chunk(c).body;
    match c {
        ColourView::Nclx { primaries, transfer, matrix, full_range } => {
            assert(b.subrange(0, 4) =~= be32_bytes(NCLX));
            assert(b.subrange(4, 6) =~= be16_bytes(primaries));
            assert(b.subrange(6, 8) =~= be16_bytes(transfer));
            assert(b.subrange(8, 10) =~= be16_bytes(matrix));
            lemma_be32_read_back(NCLX, b, 0);
            lemma_be16_read_back(primaries, b, 4);
            lemma_be16_read_back(transfer, b, 6);
            lemma_be16_read_back(matrix, b, 8);
            assert(b[10] == if full_range {
                0x80u8
            } else {
                0u8
            });
        },
        ColourView::Icc(p) => {
            assert(b.subrange(0, 4) =~= be32_bytes(PROF));
            lemma_be32_read_back(PROF, b, 0);
            assert(b.skip(4) =~= p);
        },
    }
}

proof fn lemma_auxc()
    ensures
        prop_of(AUXC, auxc_chunk().body) == Ok::<PropView, Error>(
            PropView::AuxC(APPLE_GAINMAP_URN@),
        ),
{
    let b = auxc_chunk().body;
    let t = encode_utf8(APPLE_GAINMAP_URN@);
    reveal_strlit("urn:com:apple:photo:2020:aux:hdrgainmap");
    assert(zero_free(APPLE_GAINMAP_URN@));
    assert(b.subrange(4, (4 + t.len() + 1) as int) =~= terminated(t));
    lemma_text_reads_back(b, 4, APPLE_GAINMAP_URN@);
}

proof fn lemma_clli(c: (u16, u16))
    ensures
        prop_of(CLLI, be16_bytes(c.0) + be16_bytes(c.1)) == Ok::<PropView, Error>(
            PropView::Clli { max_cll: c.0, max_pall: c.1 },
        ),
{
    let b = be16_bytes(c.0) + be16_bytes(c.1);
    assert(b.subrange(0, 2) =~= be16_bytes(c.0));
    assert(b.subrange(2, 4) =~= be16_bytes(c.1));
    lemma_be16_read_back(c.0, b, 0);
    lemma_be16_read_back(c.1, b, 2);
}

pub open spec fn image_views(i: CodedView) -> Seq<PropView> {
    seq![
        PropView::Ispe { width: i.width, height: i.height },
        PropView::Pixi(pixi_bits(i.chroma, i.bit_depth)),
        PropView::HvcC(i.hvcc),
    ]
}

pub open spec fn opt_colr_view(c: Option<ColourView>) -> Seq<PropView> {
    match c {
        Some(x) => seq![PropView::Colr(x)],
        None => seq![],
    }
}

pub open spec fn base_views(q: MuxView) -> Seq<PropView> {
    image_views(q.base) + opt_colr_view(q.base_colour)
}

pub open spec fn gain_views(q: MuxView) -> Seq<PropView> {
    image_views(q.gain) + (if q.flavor.apple() {
        seq![PropView::AuxC(APPLE_GAINMAP_URN@)]
    } else {
        seq![]
    })
}

pub open spec fn tmap_views(q: MuxView) -> Seq<PropView> {
    if q.flavor.iso() {
        seq![PropView::Ispe { width: q.base.width, height: q.base.height }] + opt_colr_view(
            q.tmap_colour,
        )
    } else {
        seq![]
    }
}

pub open spec fn clli_views(q: MuxView) -> Seq<PropView> {
    match q.clli {
        Some(c) => seq![PropView::Clli { max_cll: c.0, max_pall: c.1 }],
        None => seq![],
    }
}

pub open spec fn turn_views(q: MuxView) -> Seq<PropView> {
    (if q.orientation.rotate_ccw_quarters != 0 {
        seq![PropView::Irot((q.orientation.rotate_ccw_quarters % 4) as u8)]
    } else {
        seq![]
    }) + (match q.orientation.mirror_axis {
        Some(a) => seq![PropView::Imir((a % 2) as u8)],
        None => seq![],
    })
}

/// The properties of a written file.
#[verifier::opaque]
pub open spec fn written_props(q: MuxView) -> Seq<PropView> {
    base_views(q) + gain_views(q) + tmap_views(q) + clli_views(q) + turn_views(q)
}

/// Every one of some written properties is read as the view beside it.
#[verifier::opaque]
spec fn reads_as(chunks: Seq<Chunk>, views: Seq<PropView>) -> bool {
    &&& chunks.len() == views.len()
    &&& forall|i: int|
        0 <= i < chunks.len() ==> prop_of((#[trigger] chunks[i]).kind, chunks[i].body) == Ok::<
            PropView,
            Error,
        >(views[i])
}

proof fn lemma_reads_as_join(a: Seq<Chunk>, va: Seq<PropView>, b: Seq<Chunk>, vb: Seq<PropView>)
    requires
        reads_as(a, va),
        reads_as(b, vb),
    ensures
        reads_as(a + b, va + vb),
{
    reveal(reads_as);
}

proof fn lemma_props_read(q: MuxView)
    ensures
        reads_as(all_props(q), written_props(q)),
        reads_as(base_props(q), base_views(q)),
        reads_as(gain_props(q), gain_views(q)),
        reads_as(tmap_props(q), tmap_views(q)),
        reads_as(clli_props(q), clli_views(q)),
        reads_as(turn_props(q), turn_views(q)),
{
    reveal(reads_as);
    reveal(written_props);
    reveal(all_props);
    lemma_ispe(q.base.width, q.base.height);
    lemma_ispe(q.gain.width, q.gain.height);
    lemma_pixi(q.base.chroma, q.base.bit_depth);
    lemma_pixi(q.gain.chroma, q.gain.bit_depth);
    lemma_auxc();
    if q.base_colour is Some {
        lemma_colr(q.base_colour->Some_0);
    }
    if q.tmap_colour is Some {
        lemma_colr(q.tmap_colour->Some_0);
    }
    if q.clli is Some {
        lemma_clli(q.clli->Some_0);
    }
    assert(reads_as(image_props(q.base), image_views(q.base)));
    assert(reads_as(image_props(q.gain), image_views(q.gain)));
    assert(reads_as(base_props(q), base_views(q)));
    assert(reads_as(gain_props(q), gain_views(q)));
    assert(reads_as(tmap_props(q), tmap_views(q)));
    assert(reads_as(clli_props(q), clli_views(q)));
    assert(reads_as(turn_props(q), turn_views(q)));
    lemma_reads_as_join(base_props(q), base_views(q), gain_props(q), gain_views(q));
    lemma_reads_as_join(
        base_props(q) + gain_props(q),
        base_views(q) + gain_views(q),
        tmap_props(q),
        tmap_views(q),
    );
    lemma_reads_as_join(
        base_props(q) + gain_props(q) + tmap_props(q),
        base_views(q) + gain_views(q) + tmap_views(q),
        clli_props(q),
        clli_views(q),
    );
    lemma_reads_as_join(
        base_props(q) + gain_props(q) + tmap_props(q) + clli_props(q),
        base_views(q) + gain_views(q) + tmap_views(q) + clli_views(q),
        turn_props(q),
        turn_views(q),
    );
}

/// Positions that seven bits can state.
spec fn short_list(list: Seq<Association>) -> bool {
    &&& list.len() < 0x80
    &&& forall|i: int| 0 <= i < list.len() ==> (#[trigger] list[i]).index < 0x80
}

/// One written entry of `ipma` is read back, and what follows it after it.
proof fn lemma_ipma_entry(b: Seq<u8>, k: int, at: int, id: u16, list: Seq<Association>)
    requires
        k > 0,
        0 <= at,
        short_list(list),
        at + 3 + list.len() <= b.len(),
        b.subrange(at, at + 3 + list.len()) == ipma_entry(id, list),
    ensures
        assocs_from(b, false, false, k, at) == after(
            seq![AssocView { item: id as u32, list }],
            assocs_from(b, false, false, k - 1, at + 3 + list.len()),
        ),
{
    let w = b.subrange(at, at + 3 + list.len());
    let n = list.len() as int;
    assert(b.subrange(at, at + 2) =~= w.subrange(0, 2));
    assert(w.subrange(0, 2) =~= be16_bytes(id));
    lemma_be16_read_back(id, b, at);
    assert(b[at + 2] == w[2]);
    assert(w[2] == n as u8);
    assert forall|i: int| 0 <= i < n implies #[trigger] assoc_at(b, false, at + 3 + i * 1)
        == list[i] by {
        assert(b[at + 3 + i] == w[3 + i]);
        assert(w[3 + i] == list_bytes(list)[i]);
        assert(list[i].index < 0x80);
    }
    let read = Seq::new(n as nat, |i: int| assoc_at(b, false, at + 3 + i * 1));
    assert(read =~= list);
}

/// The associations of a written file.
#[verifier::opaque]
pub open spec fn written_assocs(q: MuxView) -> Seq<AssocView> {
    seq![
        AssocView { item: 1, list: base_list(q) },
        AssocView { item: 2, list: gain_list(q) },
    ] + (if q.flavor.iso() {
        seq![AssocView { item: 3, list: tmap_list(q) }]
    } else {
        seq![]
    })
}

proof fn lemma_short_join(a: Seq<Association>, b: Seq<Association>)
    requires
        short_list(a),
        short_list(b),
        a.len() + b.len() < 0x80,
    ensures
        short_list(a + b),
{
}

/// Where each group of properties starts.
proof fn lemma_prop_places(q: MuxView)
    ensures
        3 <= gain_at(q) <= 4,
        gain_at(q) == 3 + if q.base_colour is Some {
            1int
        } else {
            0
        },
        gain_at(q) + 3 <= tmap_at(q) <= gain_at(q) + 4,
        tmap_at(q) <= clli_at(q) <= tmap_at(q) + 2,
        clli_at(q) <= turn_at(q) <= clli_at(q) + 1,
        turn_props(q).len() <= 2,
        all_props(q).len() == turn_at(q) + turn_props(q).len(),
{
    reveal(all_props);
    assert(image_props(q.base).len() == 3);
    assert(image_props(q.gain).len() == 3);
    assert(opt_colr(q.base_colour).len() <= 1);
    assert(opt_colr(q.tmap_colour).len() <= 1);
}

proof fn lemma_lists_are_short(q: MuxView)
    ensures
        short_list(base_list(q)),
        short_list(gain_list(q)),
        short_list(tmap_list(q)),
{
    lemma_prop_places(q);
    let turn = turn_list(q);
    assert(short_list(turn));
    let base3 = image_list(0);
    let base_colr = if q.base_colour is Some {
        seq![assoc(3, true)]
    } else {
        seq![]
    };
    let base_clli = if q.clli is Some {
        seq![assoc(clli_at(q), false)]
    } else {
        seq![]
    };
    assert(short_list(base3) && short_list(base_colr) && short_list(base_clli));
    lemma_short_join(base3, base_colr);
    lemma_short_join(base3 + base_colr, base_clli);
    lemma_short_join(base3 + base_colr + base_clli, turn);
    let gain3 = image_list(gain_at(q));
    let gain_urn = if q.flavor.apple() {
        seq![assoc(gain_at(q) + 3, true)]
    } else {
        seq![]
    };
    assert(short_list(gain3) && short_list(gain_urn));
    lemma_short_join(gain3, gain_urn);
    lemma_short_join(gain3 + gain_urn, turn);
    let tmap1 = seq![assoc(tmap_at(q), false)];
    let tmap_colr = if q.tmap_colour is Some {
        seq![assoc(tmap_at(q) + 1, true)]
    } else {
        seq![]
    };
    assert(short_list(tmap1) && short_list(tmap_colr));
    lemma_short_join(tmap1, tmap_colr);
    lemma_short_join(tmap1 + tmap_colr, turn);
}

/// Two or three written entries of `ipma` are read back.
proof fn lemma_ipma_entries(
    b: Seq<u8>,
    iso: bool,
    l1: Seq<Association>,
    l2: Seq<Association>,
    l3: Seq<Association>,
)
    requires
        short_list(l1),
        short_list(l2),
        short_list(l3),
        b == zeros4() + be32_bytes(
            if iso {
                3
            } else {
                2
            },
        ) + ipma_entry(1, l1) + ipma_entry(2, l2) + (if iso {
            ipma_entry(3, l3)
        } else {
            seq![]
        }),
    ensures
        ipma_of(b) == Ok::<Seq<AssocView>, Error>(
            seq![AssocView { item: 1, list: l1 }, AssocView { item: 2, list: l2 }] + (if iso {
                seq![AssocView { item: 3, list: l3 }]
            } else {
                seq![]
            }),
        ),
{
    let count: u32 = if iso {
        3
    } else {
        2
    };
    let b1 = ipma_entry(1, l1);
    let b2 = ipma_entry(2, l2);
    let at2 = 8 + b1.len() as int;
    let at3 = at2 + b2.len() as int;
    assert(b1.len() == 3 + l1.len());
    assert(b2.len() == 3 + l2.len());
    assert(b.subrange(4, 8) =~= be32_bytes(count));
    lemma_be32_read_back(count, b, 4);
    assert(b.subrange(8, at2) =~= b1);
    assert(b.subrange(at2, at3) =~= b2);
    lemma_ipma_entry(b, count as int, 8, 1, l1);
    lemma_ipma_entry(b, count - 1, at2, 2, l2);
    assert(b[0] == 0 && b[3] == 0);
    let e1 = AssocView { item: 1, list: l1 };
    let e2 = AssocView { item: 2, list: l2 };
    let e3 = AssocView { item: 3, list: l3 };
    let none = Seq::<AssocView>::empty();
    if iso {
        let b3 = ipma_entry(3, l3);
        assert(b.subrange(at3, at3 + b3.len()) =~= b3);
        lemma_ipma_entry(b, 1, at3, 3, l3);
        assert(assocs_from(b, false, false, 0, at3 + b3.len()) == Ok::<Seq<AssocView>, Error>(
            none,
        ));
        assert(seq![e1] + (seq![e2] + (seq![e3] + none)) =~= seq![e1, e2] + seq![e3]);
    } else {
        assert(assocs_from(b, false, false, 0, at3) == Ok::<Seq<AssocView>, Error>(none));
        assert(seq![e1] + (seq![e2] + none) =~= seq![e1, e2] + none);
    }
}

/// An `ipma` payload is read as these associations.
#[verifier::opaque]
spec fn ipma_reads(b: Seq<u8>, assocs: Seq<AssocView>) -> bool {
    ipma_of(b) == Ok::<Seq<AssocView>, Error>(assocs)
}

proof fn lemma_ipma(q: MuxView)
    ensures
        ipma_reads(ipma_body(q), written_assocs(q)),
{
    reveal(ipma_reads);
    reveal(written_assocs);
    reveal(ipma_body);
    lemma_lists_are_short(q);
    lemma_ipma_entries(
        ipma_body(q),
        q.flavor.iso(),
        base_list(q),
        gain_list(q),
        tmap_list(q),
    );
}

/// A four-byte number of variable-width reading.
proof fn lemma_uint4(v: u32, b: Seq<u8>, at: int)
    requires
        0 <= at,
        at + 4 <= b.len(),
        b.subrange(at, at + 4) == be32_bytes(v),
    ensures
        uint_at(b, at, 4) == v,
{
    reveal(be32_bytes);
    reveal_with_fuel(wide_value, 5);
    let w = b.subrange(at, at + 4);
    assert(w.drop_last().drop_last().drop_last().drop_last().len() == 0);
    assert(w.drop_last().drop_last().drop_last().last() == w[0]);
    assert(w.drop_last().drop_last().last() == w[1]);
    assert(w.drop_last().last() == w[2]);
    assert(w.last() == w[3]);
}

/// The field widths the muxer writes `iloc` with.
spec fn our_layout() -> LocLayout {
    LocLayout {
        wide: false,
        methods: true,
        offset_size: 4,
        length_size: 4,
        base_size: 0,
        index_size: 0,
    }
}

pub open spec fn one_extent(item: int, method: u8, offset: int, length: int) -> LocView {
    LocView {
        item: item as u32,
        method,
        extents: seq![Extent { offset: offset as u64, length: length as u64 }],
    }
}

/// One written entry of `iloc` is read back, and what follows it after it.
proof fn lemma_iloc_entry(
    b: Seq<u8>,
    k: int,
    at: int,
    id: u16,
    method: u16,
    offset: u32,
    length: u32,
)
    requires
        k > 0,
        0 <= at,
        method < 16,
        at + 16 <= b.len(),
        b.subrange(at, at + 16) == iloc_entry(id, method, offset, length),
    ensures
        locs_from(b, our_layout(), k, at) == after(
            seq![one_extent(id as int, method as u8, offset as int, length as int)],
            locs_from(b, our_layout(), k - 1, at + 16),
        ),
{
    let l = our_layout();
    let w = b.subrange(at, at + 16);
    assert(b.subrange(at, at + 2) =~= w.subrange(0, 2));
    assert(w.subrange(0, 2) =~= be16_bytes(id));
    assert(b.subrange(at + 2, at + 4) =~= w.subrange(2, 4));
    assert(w.subrange(2, 4) =~= be16_bytes(method));
    assert(b.subrange(at + 6, at + 8) =~= w.subrange(6, 8));
    assert(w.subrange(6, 8) =~= be16_bytes(1));
    assert(b.subrange(at + 8, at + 12) =~= w.subrange(8, 12));
    assert(w.subrange(8, 12) =~= be32_bytes(offset));
    assert(b.subrange(at + 12, at + 16) =~= w.subrange(12, 16));
    assert(w.subrange(12, 16) =~= be32_bytes(length));
    lemma_be16_read_back(id, b, at);
    lemma_be16_read_back(method, b, at + 2);
    lemma_be16_read_back(1, b, at + 6);
    lemma_uint4(offset, b, at + 8);
    lemma_uint4(length, b, at + 12);
    assert(uint_at(b, at + 6, 0) == 0);
    let x = Extent { offset: offset as u64, length: length as u64 };
    assert(extents_from(b, l, 0, 0, at + 16) == Ok::<Seq<Extent>, Error>(seq![]));
    assert(seq![x] + Seq::<Extent>::empty() =~= seq![x]);
    assert(extents_from(b, l, 0, 1, at + 8) == Ok::<Seq<Extent>, Error>(seq![x]));
}

/// The entry of one stored item.
proof fn lemma_iloc_stored_at(items: Seq<Stored>, i: int, n: int)
    requires
        0 <= i < n,
    ensures
        iloc_stored(items, n).len() == 16 * n,
        iloc_stored(items, n).subrange(16 * i, 16 * i + 16) == iloc_entry(
            (3 + i) as u16,
            1,
            joined(items, i).len() as u32,
            items[i].data.len() as u32,
        ),
    decreases n,
{
    lemma_iloc_len(items, n);
    lemma_iloc_len(items, n - 1);
    let b = iloc_stored(items, n);
    let front = iloc_stored(items, n - 1);
    if i < n - 1 {
        lemma_iloc_stored_at(items, i, n - 1);
        assert(b.subrange(16 * i, 16 * i + 16) =~= front.subrange(16 * i, 16 * i + 16));
    } else {
        let last = iloc_entry(
            (3 + i) as u16,
            1,
            joined(items, i).len() as u32,
            items[i].data.len() as u32,
        );
        assert(b == front + last);
        assert(b.subrange(16 * i, 16 * i + 16) =~= last);
    }
}

/// Where the data of the stored items lies, counted from the start of `idat`.
pub open spec fn stored_locs(items: Seq<Stored>) -> Seq<LocView> {
    Seq::new(
        items.len(),
        |i: int|
            one_extent(3 + i, 1, joined(items, i).len() as int, items[i].data.len() as int),
    )
}

proof fn lemma_locs_stored(b: Seq<u8>, at: int, items: Seq<Stored>, i: int)
    requires
        0 <= i <= items.len() <= 0xffff - 2,
        0 <= at,
        at + 16 * items.len() == b.len(),
        b.skip(at) == iloc_stored(items, items.len() as int),
        joined(items, items.len() as int).len() <= u32::MAX,
    ensures
        locs_from(b, our_layout(), items.len() - i, at + 16 * i) == Ok::<Seq<LocView>, Error>(
            stored_locs(items).skip(i),
        ),
    decreases items.len() - i,
{
    let n = items.len() as int;
    let all = stored_locs(items);
    if i < n {
        lemma_locs_stored(b, at, items, i + 1);
        lemma_iloc_stored_at(items, i, n);
        lemma_joined_grows(items, i + 1, n);
        let w = b.skip(at);
        let from = at + 16 * i;
        assert(b.subrange(from, from + 16) =~= w.subrange(16 * i, 16 * i + 16));
        assert(joined(items, i + 1).len() == joined(items, i).len() + items[i].data.len());
        lemma_iloc_entry(
            b,
            n - i,
            from,
            (3 + i) as u16,
            1,
            joined(items, i).len() as u32,
            items[i].data.len() as u32,
        );
        assert(seq![all[i]] + all.skip(i + 1) =~= all.skip(i));
    } else {
        assert(all.skip(i) =~= seq![]);
    }
}

/// The locations of a written file whose `mdat` payload starts at `mdat`.
#[verifier::opaque]
pub open spec fn written_locs(q: MuxView, mdat: int) -> Seq<LocView> {
    seq![
        one_extent(1, 0, mdat, q.base.data.len() as int),
        one_extent(2, 0, mdat + q.base.data.len(), q.gain.data.len() as int),
    ] + stored_locs(stored(q))
}

/// A written `iloc` payload is read back.
proof fn lemma_iloc_parts(
    b: Seq<u8>,
    items: Seq<Stored>,
    base_at: u32,
    base_len: u32,
    gain_at: u32,
    gain_len: u32,
)
    requires
        items.len() <= 0xffff - 2,
        joined(items, items.len() as int).len() <= u32::MAX,
        b == seq![1u8, 0u8, 0u8, 0u8, 0x44u8, 0u8] + be16_bytes((2 + items.len()) as u16)
            + iloc_entry(1, 0, base_at, base_len) + iloc_entry(2, 0, gain_at, gain_len)
            + iloc_stored(items, items.len() as int),
    ensures
        iloc_of(b) == Ok::<Seq<LocView>, Error>(
            seq![
                one_extent(1, 0, base_at as int, base_len as int),
                one_extent(2, 0, gain_at as int, gain_len as int),
            ] + stored_locs(items),
        ),
{
    let n = items.len() as int;
    let e1 = iloc_entry(1, 0, base_at, base_len);
    let e2 = iloc_entry(2, 0, gain_at, gain_len);
    assert(e1.len() == 16 && e2.len() == 16);
    lemma_iloc_len(items, n);
    assert(b.subrange(6, 8) =~= be16_bytes((2 + n) as u16));
    lemma_be16_read_back((2 + n) as u16, b, 6);
    assert(b.subrange(8, 24) =~= e1);
    assert(b.subrange(24, 40) =~= e2);
    assert(b.skip(40) =~= iloc_stored(items, n));
    lemma_iloc_entry(b, n + 2, 8, 1, 0, base_at, base_len);
    lemma_iloc_entry(b, n + 1, 24, 2, 0, gain_at, gain_len);
    lemma_locs_stored(b, 40, items, 0);
    let rest = stored_locs(items);
    assert(rest.skip(0) =~= rest);
    assert(b[0] == 1 && b[4] == 0x44 && b[5] == 0);
    assert(layout_of(b) == our_layout());
    let l1 = one_extent(1, 0, base_at as int, base_len as int);
    let l2 = one_extent(2, 0, gain_at as int, gain_len as int);
    assert(seq![l1] + (seq![l2] + rest) =~= seq![l1, l2] + rest);
}

proof fn lemma_iloc(q: MuxView, mdat: int)
    requires
        stored(q).len() <= 0xffff - 2,
        joined(stored(q), stored(q).len() as int).len() <= u32::MAX,
        0 <= mdat,
        mdat + q.base.data.len() + q.gain.data.len() <= u32::MAX,
    ensures
        iloc_of(iloc_body(q, mdat)) == Ok::<Seq<LocView>, Error>(written_locs(q, mdat)),
{
    reveal(iloc_body);
    reveal(written_locs);
    lemma_iloc_parts(
        iloc_body(q, mdat),
        stored(q),
        mdat as u32,
        q.base.data.len() as u32,
        (mdat + q.base.data.len()) as u32,
        q.gain.data.len() as u32,
    );
}

/// What an image's entry says.
pub open spec fn image_entry(hidden: bool) -> Stored {
    Stored { kind: HVC1, hidden, name: seq![], tail: seq![], data: seq![] }
}

/// The items of a written file, before references and properties are resolved.
#[verifier::opaque]
pub open spec fn listed_items(q: MuxView) -> Seq<ItemView> {
    seq![listed(1, image_entry(false)), listed(2, image_entry(true))] + Seq::new(
        stored(q).len(),
        |i: int| listed((3 + i) as u16, stored(q)[i]),
    )
}

/// Every box of a run that is itself short enough fits.
proof fn lemma_all_fit(chunks: Seq<Chunk>)
    requires
        chunk_bytes(chunks).len() <= u32::MAX,
    ensures
        forall|i: int| 0 <= i < chunks.len() ==> body_fits((#[trigger] chunks[i]).body),
{
    assert forall|i: int| 0 <= i < chunks.len() implies body_fits((#[trigger] chunks[i]).body) by {
        lemma_chunk_is_smaller(chunks, i);
    }
}

/// The written items are listed.
proof fn lemma_iinf(s: Seq<u8>, b: BoxSpan, items: Seq<Stored>, xs: Seq<ItemView>)
    requires
        0 <= b.start <= b.end <= s.len(),
        items.len() <= 0xffff - 2,
        body(s, b).len() <= u32::MAX,
        body(s, b) == zeros4() + be16_bytes((2 + items.len()) as u16) + chunk_bytes(
            infe_chunks(items, items.len() as int),
        ),
        xs == seq![listed(1, image_entry(false)), listed(2, image_entry(true))] + Seq::new(
            items.len(),
            |i: int| listed((3 + i) as u16, items[i]),
        ),
    ensures
        iinf_of(s, b) == Ok::<Seq<ItemView>, Error>(xs),
{
    let n = items.len() as int;
    let chunks = infe_chunks(items, n);
    let w = body(s, b);
    lemma_all_fit(chunks);
    assert(s[b.start] == w[0]);
    assert(s.subrange(b.start + 6, b.end) =~= w.skip(6));
    assert(w.skip(6) =~= chunk_bytes(chunks));
    boxes_read_back(s, b.start + 6, b.end, chunks);
    let boxes = placed(chunks, b.start + 6);
    assert forall|k: int| 0 <= k < boxes.len() implies (#[trigger] boxes[k]).kind == INFE
        && infe_of(body(s, boxes[k])) == Ok::<ItemView, Error>(xs[k]) by {
        assert(body(s, boxes[k]) == chunks[k].body);
        if k == 0 {
            lemma_infe(1, image_entry(false));
        } else if k == 1 {
            lemma_infe(2, image_entry(true));
        } else {
            assert(chunks[k] == stored_infe(items, k - 2));
            lemma_infe((3 + (k - 2)) as u16, items[k - 2]);
        }
    }
    lemma_items_from(s, boxes, 0, xs);
    assert(xs.skip(0) =~= xs);
}

pub open spec fn ref_view(kind: u32, from: int, to: Seq<u16>) -> RefView {
    RefView { kind, from: from as u32, to: wide_ids(to) }
}

/// The references between images.
pub open spec fn image_ref_views(q: MuxView) -> Seq<RefView> {
    (if q.flavor.apple() {
        seq![ref_view(AUXL, 2, seq![1u16])]
    } else {
        seq![]
    }) + (if q.flavor.iso() {
        seq![ref_view(DIMG, 3, seq![1u16, 2u16])]
    } else {
        seq![]
    })
}

/// The references of a written file.
#[verifier::opaque]
pub open spec fn written_refs(q: MuxView) -> Seq<RefView> {
    let k = first_describing(q);
    image_ref_views(q) + Seq::new(
        (stored(q).len() - k) as nat,
        |i: int| ref_view(CDSC, 3 + k + i, described(q)),
    )
}

/// Every one of some written references is read as the view beside it.
spec fn refs_read_as(chunks: Seq<Chunk>, views: Seq<RefView>) -> bool {
    &&& chunks.len() == views.len()
    &&& forall|i: int|
        0 <= i < chunks.len() ==> ref_of((#[trigger] chunks[i]).kind, false, chunks[i].body)
            == Ok::<RefView, Error>(views[i])
}

proof fn lemma_refs_read(q: MuxView)
    requires
        stored(q).len() <= 0xffff - 2,
    ensures
        refs_read_as(
            image_refs(q) + describing_refs(q, stored(q).len() as int),
            written_refs(q),
        ),
{
    reveal(written_refs);
    let n = stored(q).len() as int;
    let k = first_describing(q);
    let to = described(q);
    lemma_ref(AUXL, 2, seq![1u16]);
    lemma_ref(DIMG, 3, seq![1u16, 2u16]);
    assert(refs_read_as(image_refs(q), image_ref_views(q)));
    assert(q.flavor.iso() ==> tmap_stored(q).len() == 1);
    assert(k <= n);
    let tail = describing_refs(q, n);
    let views = Seq::new((n - k) as nat, |i: int| ref_view(CDSC, 3 + k + i, to));
    assert forall|i: int| 0 <= i < tail.len() implies ref_of(
        (#[trigger] tail[i]).kind,
        false,
        tail[i].body,
    ) == Ok::<RefView, Error>(views[i]) by {
        lemma_ref(CDSC, (3 + k + i) as u16, to);
    }
    assert(refs_read_as(tail, views));
}

/// The written references are read back.
proof fn lemma_iref(s: Seq<u8>, b: BoxSpan, chunks: Seq<Chunk>, views: Seq<RefView>)
    requires
        0 <= b.start <= b.end <= s.len(),
        body(s, b).len() <= u32::MAX,
        body(s, b) == zeros4() + chunk_bytes(chunks),
        refs_read_as(chunks, views),
    ensures
        iref_of(s, b) == Ok::<Seq<RefView>, Error>(views),
{
    let w = body(s, b);
    lemma_all_fit(chunks);
    assert(s[b.start] == w[0]);
    assert(s.subrange(b.start + 4, b.end) =~= w.skip(4));
    assert(w.skip(4) =~= chunk_bytes(chunks));
    boxes_read_back(s, b.start + 4, b.end, chunks);
    let boxes = boxes_in(s, b.start + 4, b.end);
    let f = |i: int| ref_of(boxes[i].kind, false, body(s, boxes[i]));
    assert forall|k: int| 0 <= k < boxes.len() implies #[trigger] f(k) == Ok::<RefView, Error>(
        views[k],
    ) by {
        assert(boxes[k].kind == chunks[k].kind);
        assert(body(s, boxes[k]) == chunks[k].body);
    }
    lemma_collect_succeeds(f, 0, boxes.len() as int, views);
    assert(views.skip(0) =~= views);
    assert(s[b.start] == 0);
    assert(iref_of(s, b) == collect(f, 0, boxes.len() as int));
}

/// The written properties and associations are read back.
proof fn lemma_iprp(
    s: Seq<u8>,
    b: BoxSpan,
    chunks: Seq<Chunk>,
    views: Seq<PropView>,
    ipma: Seq<u8>,
    assocs: Seq<AssocView>,
)
    requires
        0 <= b.start <= b.end <= s.len(),
        body(s, b).len() <= u32::MAX,
        body(s, b) == chunk_bytes(
            seq![
                Chunk { kind: IPCO, body: chunk_bytes(chunks) },
                Chunk { kind: IPMA, body: ipma },
            ],
        ),
        reads_as(chunks, views),
        ipma_reads(ipma, assocs),
    ensures
        props_of(s, b) == Ok::<Seq<PropView>, Error>(views),
        assocs_of(s, b) == Ok::<Seq<AssocView>, Error>(assocs),
{
    reveal(reads_as);
    reveal(ipma_reads);
    let two = seq![
        Chunk { kind: IPCO, body: chunk_bytes(chunks) },
        Chunk { kind: IPMA, body: ipma },
    ];
    lemma_all_fit(two);
    boxes_read_back(s, b.start, b.end, two);
    let kids = boxes_in(s, b.start, b.end);
    assert(kids[0].kind == IPCO && kids[1].kind == IPMA);
    lemma_first_of(kids, IPCO, 0);
    lemma_first_of(kids, IPMA, 1);
    let c = kids[0];
    assert(body(s, c) == two[0].body);
    assert(body(s, kids[1]) == two[1].body);
    assert(body_fits(two[0].body));
    lemma_all_fit(chunks);
    boxes_read_back(s, c.start, c.end, chunks);
    let boxes = boxes_in(s, c.start, c.end);
    let f = |i: int| prop_of(boxes[i].kind, body(s, boxes[i]));
    assert forall|k: int| 0 <= k < boxes.len() implies #[trigger] f(k) == Ok::<PropView, Error>(
        views[k],
    ) by {
        assert(boxes[k].kind == chunks[k].kind);
        assert(body(s, boxes[k]) == chunks[k].body);
    }
    lemma_collect_succeeds(f, 0, boxes.len() as int, views);
    assert(views.skip(0) =~= views);
    assert(props_of(s, b) == collect(f, 0, boxes.len() as int));
}

proof fn lemma_pitm()
    ensures
        pitm_of(pitm_body()) == Ok::<ItemId, Error>(1),
{
    let b = pitm_body();
    assert(b.subrange(4, 6) =~= be16_bytes(1));
    lemma_be16_read_back(1, b, 4);
}

/// Where `idat` is among the children of `meta`, when it is written.
pub open spec fn idat_position(q: MuxView) -> int {
    5 + grpl_chunks(q).len() as int
}

/// The boxes at `boxes` are the written ones.
spec fn boxes_hold(s: Seq<u8>, boxes: Seq<BoxSpan>, chunks: Seq<Chunk>) -> bool {
    &&& boxes.len() == chunks.len()
    &&& forall|i: int|
        0 <= i < chunks.len() ==> (#[trigger] boxes[i]).kind == chunks[i].kind && 0
            <= boxes[i].start <= boxes[i].end <= s.len() && body(s, boxes[i]) == chunks[i].body
}

proof fn lemma_iinf_child(s: Seq<u8>, b: BoxSpan, m: MetaView, q: MuxView)
    requires
        0 <= b.start <= b.end <= s.len(),
        b.kind == IINF,
        body(s, b) == iinf_body(q),
        body_fits(body(s, b)),
        stored(q).len() <= 0xffff - 2,
    ensures
        with_child(s, m, b) == Ok::<MetaView, Error>(MetaView { items: listed_items(q), ..m }),
{
    reveal(listed_items);
    lemma_iinf(s, b, stored(q), listed_items(q));
}

proof fn lemma_iref_child(s: Seq<u8>, b: BoxSpan, m: MetaView, q: MuxView)
    requires
        0 <= b.start <= b.end <= s.len(),
        b.kind == IREF,
        body(s, b) == iref_body(q),
        body_fits(body(s, b)),
        stored(q).len() <= 0xffff - 2,
    ensures
        with_child(s, m, b) == Ok::<MetaView, Error>(MetaView { refs: written_refs(q), ..m }),
{
    lemma_refs_read(q);
    lemma_iref(
        s,
        b,
        image_refs(q) + describing_refs(q, stored(q).len() as int),
        written_refs(q),
    );
}

proof fn lemma_all_props_read(q: MuxView)
    ensures
        reads_as(all_props(q), written_props(q)),
{
    lemma_props_read(q);
}

proof fn lemma_iprp_step(
    s: Seq<u8>,
    b: BoxSpan,
    m: MetaView,
    chunks: Seq<Chunk>,
    views: Seq<PropView>,
    ipma: Seq<u8>,
    assocs: Seq<AssocView>,
)
    requires
        0 <= b.start <= b.end <= s.len(),
        b.kind == IPRP,
        body_fits(body(s, b)),
        body(s, b) == chunk_bytes(
            seq![
                Chunk { kind: IPCO, body: chunk_bytes(chunks) },
                Chunk { kind: IPMA, body: ipma },
            ],
        ),
        reads_as(chunks, views),
        ipma_reads(ipma, assocs),
    ensures
        with_child(s, m, b) == Ok::<MetaView, Error>(MetaView { props: views, assocs, ..m }),
{
    lemma_iprp(s, b, chunks, views, ipma, assocs);
}

proof fn lemma_iprp_child(s: Seq<u8>, b: BoxSpan, m: MetaView, q: MuxView)
    requires
        0 <= b.start <= b.end <= s.len(),
        b.kind == IPRP,
        body(s, b) == chunk_bytes(iprp_chunks(q)),
        body_fits(body(s, b)),
    ensures
        with_child(s, m, b) == Ok::<MetaView, Error>(
            MetaView { props: written_props(q), assocs: written_assocs(q), ..m },
        ),
{
    lemma_all_props_read(q);
    lemma_ipma(q);
    lemma_iprp_step(s, b, m, all_props(q), written_props(q), ipma_body(q), written_assocs(q));
}

/// The first five children of `meta`, whatever follows them.
spec fn leading(q: MuxView, all: Seq<Chunk>) -> bool {
    &&& all.len() >= 5
    &&& all[0].kind == HDLR
    &&& all[1] == (Chunk { kind: PITM, body: pitm_body() })
    &&& all[2] == (Chunk { kind: IINF, body: iinf_body(q) })
    &&& all[3] == (Chunk { kind: IREF, body: iref_body(q) })
    &&& all[4] == (Chunk { kind: IPRP, body: chunk_bytes(iprp_chunks(q)) })
    &&& forall|i: int| 0 <= i < all.len() ==> body_fits((#[trigger] all[i]).body)
}

proof fn lemma_leading(q: MuxView, mdat: int)
    requires
        chunk_bytes(meta_children(q, mdat)).len() <= u32::MAX,
    ensures
        leading(q, meta_children(q, mdat)),
{
    reveal(early_children);
    lemma_all_fit(meta_children(q, mdat));
}

/// What the children of `meta` before `grpl` state.
proof fn lemma_first_children(s: Seq<u8>, boxes: Seq<BoxSpan>, q: MuxView, all: Seq<Chunk>)
    requires
        boxes_hold(s, boxes, all),
        leading(q, all),
        stored(q).len() <= 0xffff - 2,
    ensures
        with_children(s, boxes, 0, nothing_yet()) == with_children(
            s,
            boxes,
            5,
            MetaView {
                primary: Some(1),
                items: listed_items(q),
                refs: written_refs(q),
                props: written_props(q),
                assocs: written_assocs(q),
                idat: None,
                locs: seq![],
            },
        ),
{
    let m0 = nothing_yet();
    let m1 = MetaView { primary: Some(1), ..m0 };
    let m2 = MetaView { items: listed_items(q), ..m1 };
    let m3 = MetaView { refs: written_refs(q), ..m2 };
    let m4 = MetaView { props: written_props(q), assocs: written_assocs(q), ..m3 };
    assert(boxes[0].kind == HDLR && boxes[1].kind == PITM && boxes[2].kind == IINF
        && boxes[3].kind == IREF && boxes[4].kind == IPRP);
    assert(body_fits(all[2].body) && body_fits(all[3].body) && body_fits(all[4].body));
    assert(with_child(s, m0, boxes[0]) == Ok::<MetaView, Error>(m0));
    lemma_pitm();
    assert(with_child(s, m0, boxes[1]) == Ok::<MetaView, Error>(m1));
    lemma_iinf_child(s, boxes[2], m1, q);
    lemma_iref_child(s, boxes[3], m2, q);
    lemma_iprp_child(s, boxes[4], m3, q);
    assert(with_children(s, boxes, 0, m0) == with_children(s, boxes, 1, m0));
    assert(with_children(s, boxes, 1, m0) == with_children(s, boxes, 2, m1));
    assert(with_children(s, boxes, 2, m1) == with_children(s, boxes, 3, m2));
    assert(with_children(s, boxes, 3, m2) == with_children(s, boxes, 4, m3));
    assert(with_children(s, boxes, 4, m3) == with_children(s, boxes, 5, m4));
}

/// What the children of `meta` state.
#[verifier::rlimit(60)]
#[verifier::spinoff_prover]
proof fn lemma_children(s: Seq<u8>, boxes: Seq<BoxSpan>, q: MuxView, mdat: int)
    requires
        boxes_hold(s, boxes, meta_children(q, mdat)),
        chunk_bytes(meta_children(q, mdat)).len() <= u32::MAX,
        stored(q).len() <= 0xffff - 2,
        0 <= mdat,
        mdat + q.base.data.len() + q.gain.data.len() <= u32::MAX,
    ensures
        with_children(s, boxes, 0, nothing_yet()) == Ok::<MetaView, Error>(
            MetaView {
                primary: Some(1),
                items: listed_items(q),
                refs: written_refs(q),
                props: written_props(q),
                assocs: written_assocs(q),
                idat: if joined(stored(q), stored(q).len() as int).len() > 0 {
                    Some((boxes[idat_position(q)].start, boxes[idat_position(q)].end))
                } else {
                    None
                },
                locs: written_locs(q, mdat),
            },
        ),
{
    reveal(early_children);
    let all = meta_children(q, mdat);
    let data = joined(stored(q), stored(q).len() as int);
    let k = idat_position(q);
    lemma_all_fit(all);
    lemma_leading(q, mdat);
    lemma_first_children(s, boxes, q, all);
    let m4 = MetaView {
        primary: Some(1),
        items: listed_items(q),
        refs: written_refs(q),
        props: written_props(q),
        assocs: written_assocs(q),
        idat: None,
        locs: seq![],
    };
    if q.flavor.iso() {
        assert(all[5].kind == GRPL);
        assert(boxes[5].kind == GRPL);
        assert(with_child(s, m4, boxes[5]) == Ok::<MetaView, Error>(m4));
        assert(with_children(s, boxes, 5, m4) == with_children(s, boxes, 6, m4));
    }
    assert(with_children(s, boxes, 5, m4) == with_children(s, boxes, k, m4));
    let m5 = if data.len() > 0 {
        MetaView { idat: Some((boxes[k].start, boxes[k].end)), ..m4 }
    } else {
        m4
    };
    let last = all.len() - 1;
    if data.len() > 0 {
        assert(all[k].kind == IDAT && all[k].body == data);
        assert(boxes[k].kind == IDAT);
        assert(body_fits(all[k].body));
        assert(with_child(s, m4, boxes[k]) == Ok::<MetaView, Error>(m5));
        assert(with_children(s, boxes, k, m4) == with_children(s, boxes, k + 1, m5));
    }
    assert(with_children(s, boxes, k, m4) == with_children(s, boxes, last, m5));
    assert(all[last].kind == ILOC);
    assert(boxes[last].kind == ILOC);
    assert(body(s, boxes[last]) == all[last].body);
    lemma_iloc(q, mdat);
    let m6 = MetaView { locs: written_locs(q, mdat), ..m5 };
    assert(with_child(s, m5, boxes[last]) == Ok::<MetaView, Error>(m6));
    assert(with_children(s, boxes, last + 1, m6) == Ok::<MetaView, Error>(m6));
}

/// Where the payload of `meta` starts.
pub open spec fn meta_start(q: MuxView) -> int {
    8 + ftyp_body(q).len() as int + 8
}

/// What `meta` of a written file states.
pub open spec fn written_meta(q: MuxView) -> MetaView {
    let kids = placed(meta_children(q, mdat_start(q)), meta_start(q) + 4);
    MetaView {
        primary: Some(1),
        items: listed_items(q),
        refs: written_refs(q),
        props: written_props(q),
        assocs: written_assocs(q),
        idat: if joined(stored(q), stored(q).len() as int).len() > 0 {
            Some((kids[idat_position(q)].start, kids[idat_position(q)].end))
        } else {
            None
        },
        locs: written_locs(q, mdat_start(q)),
    }
}

/// The brands of a written file.
pub open spec fn written_brands(q: MuxView) -> Seq<u32> {
    seq![MIF1, HEIC, MIAF] + (if q.flavor.iso() {
        seq![TMAP]
    } else {
        seq![]
    })
}

/// What the reader makes of a written file.
pub open spec fn written_file(q: MuxView) -> FileView {
    let m = written_meta(q);
    FileView {
        bytes: mux_bytes(q),
        brands: written_brands(q),
        primary: m.primary,
        items: resolved_items(m),
        props: m.props,
        assocs: m.assocs,
        idat: m.idat,
        locs: m.locs,
    }
}

proof fn lemma_brands(q: MuxView)
    ensures
        ftyp_body(q).len() >= 8,
        brands_of(ftyp_body(q)) == written_brands(q),
{
    let b = ftyp_body(q);
    assert(b.subrange(8, 12) =~= be32_bytes(MIF1));
    assert(b.subrange(12, 16) =~= be32_bytes(HEIC));
    assert(b.subrange(16, 20) =~= be32_bytes(MIAF));
    lemma_be32_read_back(MIF1, b, 8);
    lemma_be32_read_back(HEIC, b, 12);
    lemma_be32_read_back(MIAF, b, 16);
    if q.flavor.iso() {
        assert(b.subrange(20, 24) =~= be32_bytes(TMAP));
        lemma_be32_read_back(TMAP, b, 20);
    }
    assert(brands_of(b) =~= written_brands(q));
}

/// Three boxes, the second with four zero bytes before its children.
proof fn lemma_three_boxes(s: Seq<u8>, f: Seq<u8>, kids: Seq<Chunk>, d: Seq<u8>)
    requires
        s == chunk_bytes(
            seq![
                Chunk { kind: FTYP, body: f },
                Chunk { kind: META, body: zeros4() + chunk_bytes(kids) },
                Chunk { kind: MDAT, body: d },
            ],
        ),
        s.len() <= u32::MAX,
    ensures
        first_of(boxes_in(s, 0, s.len() as int), FTYP) == Some(
            BoxSpan { kind: FTYP, start: 8, end: 8 + f.len() as int },
        ),
        s.subrange(8, 8 + f.len() as int) == f,
        first_of(boxes_in(s, 0, s.len() as int), META) == Some(
            BoxSpan {
                kind: META,
                start: f.len() as int + 16,
                end: f.len() as int + 20 + chunk_bytes(kids).len(),
            },
        ),
        s.len() == f.len() as int + 28 + chunk_bytes(kids).len() + d.len(),
        s.skip(f.len() as int + 28 + chunk_bytes(kids).len()) == d,
        boxes_in(s, f.len() as int + 20, f.len() as int + 20 + chunk_bytes(kids).len()) == placed(
            kids,
            f.len() as int + 20,
        ),
        boxes_hold(s, placed(kids, f.len() as int + 20), kids),
        chunk_bytes(kids).len() <= u32::MAX,
{
    let m = zeros4() + chunk_bytes(kids);
    let c0 = Chunk { kind: FTYP, body: f };
    let c1 = Chunk { kind: META, body: m };
    let c2 = Chunk { kind: MDAT, body: d };
    let top = seq![c0, c1, c2];
    lemma_all_fit(top);
    assert(s.subrange(0, s.len() as int) =~= s);
    boxes_read_back(s, 0, s.len() as int, top);
    let boxes = placed(top, 0);
    assert(top.skip(1) =~= seq![c1, c2]);
    assert(seq![c1, c2].skip(1) =~= seq![c2]);
    let none = Seq::<Chunk>::empty();
    assert(seq![c2].skip(1) =~= none);
    assert(chunk_bytes(none) =~= seq![]);
    assert(placed(seq![c2], f.len() as int + 20 + chunk_bytes(kids).len()).len() == 1) by {
        let end = f.len() as int + 20 + chunk_bytes(kids).len() + 8 + d.len();
        assert(placed(none, end) =~= seq![]);
    }
    assert(boxes[0] == (BoxSpan { kind: FTYP, start: 8, end: 8 + f.len() as int }));
    let second = placed(seq![c1, c2], 8 + f.len() as int);
    assert(boxes[1] == second[0]);
    assert(boxes[1] == (BoxSpan {
        kind: META,
        start: f.len() as int + 16,
        end: f.len() as int + 20 + chunk_bytes(kids).len(),
    }));
    assert(boxes[2] == second[1]);
    assert(boxes[2].start == f.len() as int + 28 + chunk_bytes(kids).len());
    lemma_first_of(boxes, FTYP, 0);
    lemma_first_of(boxes, META, 1);
    assert(s.subrange(boxes[0].start, boxes[0].end) == f);
    assert(chunk_bytes(seq![c2]) =~= box_bytes(MDAT, d));
    assert(chunk_bytes(seq![c1, c2]) == box_bytes(META, m) + chunk_bytes(seq![c2]));
    assert(s == box_bytes(FTYP, f) + chunk_bytes(seq![c1, c2]));
    assert(s.len() == f.len() as int + 28 + chunk_bytes(kids).len() + d.len());
    assert(s.subrange(boxes[2].start, boxes[2].end) == d);
    assert(s.skip(boxes[2].start) =~= s.subrange(boxes[2].start, boxes[2].end));
    let at: int = f.len() as int + 20;
    let end = at + chunk_bytes(kids).len();
    let w = s.subrange(boxes[1].start, boxes[1].end);
    assert(w == m);
    assert(s.subrange(at, end) =~= w.skip(4));
    assert(w.skip(4) =~= chunk_bytes(kids));
    lemma_all_fit(kids);
    boxes_read_back(s, at, end, kids);
}

/// A file the muxer writes is one the reader accepts, and states exactly what was
/// asked for.
#[verifier::spinoff_prover]
#[verifier::rlimit(60)]
pub proof fn a_written_file_reads_back(q: MuxView)
    requires
        writable(q),
    ensures
        file_of(mux_bytes(q)) == Ok::<FileView, Error>(written_file(q)),
{
    let s = mux_bytes(q);
    let m = mdat_start(q);
    let kids = meta_children(q, m);
    let f = ftyp_body(q);
    lemma_three_boxes(s, f, kids, q.base.data + q.gain.data);
    lemma_iloc_body_len(q, m);
    lemma_iloc_body_len(q, 0);
    lemma_chunk_push(early_children(q), Chunk { kind: ILOC, body: iloc_body(q, m) });
    assert(m == f.len() as int + 28 + chunk_bytes(kids).len());
    lemma_children(s, placed(kids, f.len() as int + 20), q, m);
    lemma_brands(q);
}

/// The last size, auxiliary type, decoder configuration and channel depths of two
/// lists are the second's, or the first's where the second has none.
proof fn lemma_last_join(props: Seq<PropView>, a: Seq<Association>, b: Seq<Association>)
    ensures
        last_size(props, a + b) == if last_size(props, b) is Some {
            last_size(props, b)
        } else {
            last_size(props, a)
        },
        last_urn(props, a + b) == if last_urn(props, b) is Some {
            last_urn(props, b)
        } else {
            last_urn(props, a)
        },
        last_hvcc(props, a + b) == if last_hvcc(props, b) is Some {
            last_hvcc(props, b)
        } else {
            last_hvcc(props, a)
        },
        last_pixi(props, a + b) == if last_pixi(props, b) is Some {
            last_pixi(props, b)
        } else {
            last_pixi(props, a)
        },
    decreases b.len(),
{
    if b.len() == 0 {
        assert(a + b =~= a);
    } else {
        lemma_last_join(props, a, b.drop_last());
        assert((a + b).drop_last() =~= a + b.drop_last());
        assert((a + b).last() == b.last());
    }
}

/// A property that says nothing of size, auxiliary type, configuration or depths.
spec fn is_plain(p: Option<PropView>) -> bool {
    p matches Some(x) && (x is Colr || x is Clli || x is Irot || x is Imir)
}

proof fn lemma_last_plain(props: Seq<PropView>, list: Seq<Association>)
    requires
        forall|i: int| 0 <= i < list.len() ==> is_plain(prop_at(props, #[trigger] list[i])),
    ensures
        last_size(props, list) is None,
        last_urn(props, list) is None,
        last_hvcc(props, list) is None,
        last_pixi(props, list) is None,
    decreases list.len(),
{
    if list.len() > 0 {
        assert(is_plain(prop_at(props, list[list.len() - 1])));
        lemma_last_plain(props, list.drop_last());
    }
}

/// One image's own properties.
proof fn lemma_last_image(props: Seq<PropView>, at: int, i: CodedView)
    requires
        0 <= at,
        at + 3 <= props.len() < 0x100,
        props[at] == image_views(i)[0],
        props[at + 1] == image_views(i)[1],
        props[at + 2] == image_views(i)[2],
    ensures
        last_size(props, image_list(at)) == Some((i.width, i.height)),
        last_urn(props, image_list(at)) is None,
        last_hvcc(props, image_list(at)) == Some(i.hvcc),
        last_pixi(props, image_list(at)) == Some(pixi_bits(i.chroma, i.bit_depth)),
{
    reveal_with_fuel(last_size, 4);
    reveal_with_fuel(last_urn, 4);
    reveal_with_fuel(last_hvcc, 4);
    reveal_with_fuel(last_pixi, 4);
    let l = image_list(at);
    assert(prop_at(props, l[0]) == Some(props[at]));
    assert(prop_at(props, l[1]) == Some(props[at + 1]));
    assert(prop_at(props, l[2]) == Some(props[at + 2]));
    assert(l.drop_last().drop_last().drop_last().len() == 0);
    assert(l.drop_last().drop_last().last() == l[0]);
    assert(l.drop_last().last() == l[1]);
    assert(l.last() == l[2]);
}

/// What is at each place among the written properties.
proof fn lemma_written_props(q: MuxView)
    ensures
        written_props(q).len() == turn_at(q) + turn_views(q).len(),
        written_props(q).len() < 0x100,
        turn_views(q).len() == turn_props(q).len(),
        forall|i: int|
            0 <= i < base_views(q).len() ==> #[trigger] written_props(q)[i] == base_views(q)[i],
        forall|i: int|
            0 <= i < gain_views(q).len() ==> written_props(q)[gain_at(q) + i]
                == #[trigger] gain_views(q)[i],
        forall|i: int|
            0 <= i < tmap_views(q).len() ==> written_props(q)[tmap_at(q) + i]
                == #[trigger] tmap_views(q)[i],
        forall|i: int|
            0 <= i < clli_views(q).len() ==> written_props(q)[clli_at(q) + i]
                == #[trigger] clli_views(q)[i],
        forall|i: int|
            0 <= i < turn_views(q).len() ==> written_props(q)[turn_at(q) + i]
                == #[trigger] turn_views(q)[i],
        base_views(q).len() == gain_at(q),
        gain_views(q).len() == tmap_at(q) - gain_at(q),
        tmap_views(q).len() == clli_at(q) - tmap_at(q),
        clli_views(q).len() == turn_at(q) - clli_at(q),
{
    lemma_props_read(q);
    lemma_prop_places(q);
    reveal(reads_as);
    reveal(written_props);
}

/// The transform, content light level and colour say nothing of an image's data.
proof fn lemma_turn_plain(q: MuxView)
    ensures
        forall|i: int|
            0 <= i < turn_list(q).len() ==> is_plain(
                prop_at(written_props(q), #[trigger] turn_list(q)[i]),
            ),
{
    lemma_written_props(q);
    lemma_prop_places(q);
    let props = written_props(q);
    assert forall|i: int| 0 <= i < turn_list(q).len() implies is_plain(
        prop_at(props, #[trigger] turn_list(q)[i]),
    ) by {
        assert(props[turn_at(q) + i] == turn_views(q)[i]);
        assert(turn_views(q)[i] is Irot || turn_views(q)[i] is Imir);
        assert(prop_at(props, turn_list(q)[i]) == Some(props[turn_at(q) + i]));
    }
}

proof fn lemma_one_plain(props: Seq<PropView>, at: int, essential: bool)
    requires
        0 <= at < props.len() < 0x100,
        props[at] is Colr || props[at] is Clli || props[at] is Irot || props[at] is Imir,
    ensures
        last_size(props, seq![assoc(at, essential)]) is None,
        last_urn(props, seq![assoc(at, essential)]) is None,
        last_hvcc(props, seq![assoc(at, essential)]) is None,
        last_pixi(props, seq![assoc(at, essential)]) is None,
{
    lemma_last_plain(props, seq![assoc(at, essential)]);
}

/// What the base's associations say.
proof fn lemma_base_list(q: MuxView)
    ensures
        last_size(written_props(q), base_list(q)) == Some((q.base.width, q.base.height)),
        last_urn(written_props(q), base_list(q)) is None,
        last_hvcc(written_props(q), base_list(q)) == Some(q.base.hvcc),
        last_pixi(written_props(q), base_list(q)) == Some(
            pixi_bits(q.base.chroma, q.base.bit_depth),
        ),
{
    let props = written_props(q);
    lemma_written_props(q);
    lemma_prop_places(q);
    lemma_turn_plain(q);
    lemma_last_plain(props, turn_list(q));
    let none = Seq::<Association>::empty();
    lemma_last_plain(props, none);
    let three = image_list(0);
    let colr = if q.base_colour is Some {
        seq![assoc(3, true)]
    } else {
        seq![]
    };
    let clli = if q.clli is Some {
        seq![assoc(clli_at(q), false)]
    } else {
        seq![]
    };
    assert(props[0] == base_views(q)[0] && props[1] == base_views(q)[1] && props[2] == base_views(
        q,
    )[2]);
    lemma_last_image(props, 0, q.base);
    if q.base_colour is Some {
        assert(props[3] == base_views(q)[3]);
        lemma_one_plain(props, 3, true);
    }
    if q.clli is Some {
        assert(props[clli_at(q) + 0] == clli_views(q)[0]);
        lemma_one_plain(props, clli_at(q), false);
    }
    lemma_last_join(props, three, colr);
    lemma_last_join(props, three + colr, clli);
    lemma_last_join(props, three + colr + clli, turn_list(q));
    assert(base_list(q) == three + colr + clli + turn_list(q));
}

/// What the gain map's associations say.
proof fn lemma_gain_list(q: MuxView)
    ensures
        last_size(written_props(q), gain_list(q)) == Some((q.gain.width, q.gain.height)),
        last_urn(written_props(q), gain_list(q)) == if q.flavor.apple() {
            Some(APPLE_GAINMAP_URN@)
        } else {
            None
        },
        last_hvcc(written_props(q), gain_list(q)) == Some(q.gain.hvcc),
        last_pixi(written_props(q), gain_list(q)) == Some(
            pixi_bits(q.gain.chroma, q.gain.bit_depth),
        ),
{
    let props = written_props(q);
    let at = gain_at(q);
    lemma_written_props(q);
    lemma_prop_places(q);
    lemma_turn_plain(q);
    lemma_last_plain(props, turn_list(q));
    lemma_last_plain(props, Seq::<Association>::empty());
    let three = image_list(at);
    let urn = if q.flavor.apple() {
        seq![assoc(at + 3, true)]
    } else {
        seq![]
    };
    let views = gain_views(q);
    assert(props[at + 0] == views[0] && props[at + 1] == views[1] && props[at + 2] == views[2]);
    lemma_last_image(props, at, q.gain);
    if q.flavor.apple() {
        assert(props[at + 3] == views[3]);
        assert(prop_at(props, urn[0]) == Some(props[at + 3]));
        assert(urn.drop_last() =~= Seq::<Association>::empty());
        assert(urn.last() == urn[0]);
    }
    lemma_last_join(props, three, urn);
    lemma_last_join(props, three + urn, turn_list(q));
    assert(gain_list(q) == three + urn + turn_list(q));
}

/// What the tone map's associations say.
proof fn lemma_tmap_list(q: MuxView)
    requires
        q.flavor.iso(),
    ensures
        last_size(written_props(q), tmap_list(q)) == Some((q.base.width, q.base.height)),
        last_urn(written_props(q), tmap_list(q)) is None,
{
    let props = written_props(q);
    let at = tmap_at(q);
    lemma_written_props(q);
    lemma_prop_places(q);
    lemma_turn_plain(q);
    lemma_last_plain(props, turn_list(q));
    lemma_last_plain(props, Seq::<Association>::empty());
    let one = seq![assoc(at, false)];
    let colr = if q.tmap_colour is Some {
        seq![assoc(at + 1, true)]
    } else {
        seq![]
    };
    let views = tmap_views(q);
    assert(props[at + 0] == views[0]);
    assert(prop_at(props, one[0]) == Some(props[at]));
    assert(one.drop_last() =~= Seq::<Association>::empty());
    assert(one.last() == one[0]);
    if q.tmap_colour is Some {
        assert(props[at + 1] == views[1]);
        lemma_one_plain(props, at + 1, true);
    }
    lemma_last_join(props, one, colr);
    lemma_last_join(props, one + colr, turn_list(q));
    assert(tmap_list(q) == one + colr + turn_list(q));
}

/// No reference of a type from an item.
proof fn lemma_no_targets(refs: Seq<RefView>, kind: u32, from: ItemId)
    requires
        forall|i: int|
            0 <= i < refs.len() ==> (#[trigger] refs[i]).kind != kind || refs[i].from != from,
    ensures
        targets(refs, kind, from) == Seq::<ItemId>::empty(),
    decreases refs.len(),
{
    if refs.len() > 0 {
        assert(refs.last() == refs[refs.len() - 1]);
        lemma_no_targets(refs.drop_last(), kind, from);
    }
}

/// One reference of a type from an item.
proof fn lemma_targets_at(refs: Seq<RefView>, kind: u32, from: ItemId, i: int)
    requires
        0 <= i < refs.len(),
        refs[i].kind == kind,
        refs[i].from == from,
        forall|j: int|
            i < j < refs.len() ==> (#[trigger] refs[j]).kind != kind || refs[j].from != from,
    ensures
        targets(refs, kind, from) == refs[i].to,
    decreases refs.len(),
{
    let n = refs.len() - 1;
    assert(refs.last() == refs[n]);
    if i < n {
        lemma_targets_at(refs.drop_last(), kind, from, i);
    }
}

/// What the references of a written file name.
proof fn lemma_written_targets(q: MuxView, id: int)
    requires
        stored(q).len() <= 0xffff - 2,
        1 <= id <= 2 + stored(q).len(),
    ensures
        targets(written_refs(q), AUXL, id as u32) == if q.flavor.apple() && id == 2 {
            seq![1u32]
        } else {
            seq![]
        },
        targets(written_refs(q), DIMG, id as u32) == if q.flavor.iso() && id == 3 {
            seq![1u32, 2u32]
        } else {
            seq![]
        },
        targets(written_refs(q), CDSC, id as u32) == if id >= 3 + first_describing(q) {
            wide_ids(described(q))
        } else {
            seq![]
        },
{
    reveal(written_refs);
    let refs = written_refs(q);
    let k = first_describing(q);
    let a = if q.flavor.apple() {
        1int
    } else {
        0
    };
    let m = image_ref_views(q).len() as int;
    assert(m == a + k);
    assert(q.flavor.iso() ==> tmap_stored(q).len() == 1);
    assert forall|j: int| m <= j < refs.len() implies #[trigger] refs[j] == ref_view(
        CDSC,
        3 + k + (j - m),
        described(q),
    ) by {}
    if q.flavor.apple() {
        assert(refs[0] == ref_view(AUXL, 2, seq![1u16]));
    }
    if q.flavor.iso() {
        assert(refs[a] == ref_view(DIMG, 3, seq![1u16, 2u16]));
    }
    assert(wide_ids(seq![1u16]) =~= seq![1u32]);
    assert(wide_ids(seq![1u16, 2u16]) =~= seq![1u32, 2u32]);
    if q.flavor.apple() && id == 2 {
        lemma_targets_at(refs, AUXL, 2, 0);
    } else {
        lemma_no_targets(refs, AUXL, id as u32);
    }
    if q.flavor.iso() && id == 3 {
        lemma_targets_at(refs, DIMG, 3, a);
    } else {
        lemma_no_targets(refs, DIMG, id as u32);
    }
    if id >= 3 + k {
        lemma_targets_at(refs, CDSC, id as u32, m + id - 3 - k);
    } else {
        lemma_no_targets(refs, CDSC, id as u32);
    }
}

/// The associations of each item.
proof fn lemma_written_assocs(q: MuxView, id: int)
    requires
        1 <= id <= u32::MAX,
    ensures
        all_assocs(written_assocs(q), id as u32) == if id == 1 {
            base_list(q)
        } else if id == 2 {
            gain_list(q)
        } else if id == 3 && q.flavor.iso() {
            tmap_list(q)
        } else {
            seq![]
        },
        id <= 2 ==> first_assocs(written_assocs(q), id as u32) == all_assocs(
            written_assocs(q),
            id as u32,
        ),
{
    reveal(written_assocs);
    lemma_two_or_three(
        AssocView { item: 1, list: base_list(q) },
        AssocView { item: 2, list: gain_list(q) },
        AssocView { item: 3, list: tmap_list(q) },
        q.flavor.iso(),
        id as u32,
    );
}

proof fn lemma_two_or_three(e1: AssocView, e2: AssocView, e3: AssocView, iso: bool, id: ItemId)
    requires
        e1.item == 1,
        e2.item == 2,
        e3.item == 3,
    ensures
        ({
            let all = seq![e1, e2] + (if iso {
                seq![e3]
            } else {
                seq![]
            });
            &&& all_assocs(all, id) == if id == 1 {
                e1.list
            } else if id == 2 {
                e2.list
            } else if id == 3 && iso {
                e3.list
            } else {
                seq![]
            }
            &&& id == 1 ==> first_assocs(all, id) == e1.list
            &&& id == 2 ==> first_assocs(all, id) == e2.list
        }),
{
    let all = seq![e1, e2] + (if iso {
        seq![e3]
    } else {
        seq![]
    });
    let none = Seq::<Association>::empty();
    assert(all_assocs(seq![], id) == none);
    assert(seq![e1].drop_last() =~= seq![]);
    assert(all_assocs(seq![e1], id) =~= if id == 1 {
        e1.list
    } else {
        none
    });
    assert(seq![e1, e2].drop_last() =~= seq![e1]);
    assert(all_assocs(seq![e1, e2], id) =~= if id == 1 {
        e1.list
    } else if id == 2 {
        e2.list
    } else {
        none
    });
    if iso {
        assert(all.drop_last() =~= seq![e1, e2]);
        assert(all_assocs(all, id) =~= all_assocs(seq![e1, e2], id) + if id == 3 {
            e3.list
        } else {
            none
        });
        if id == 3 {
            assert(all_assocs(all, id) =~= e3.list);
        } else {
            assert(all_assocs(all, id) =~= all_assocs(seq![e1, e2], id));
        }
    } else {
        assert(all =~= seq![e1, e2]);
    }
    assert(all.skip(1)[0] == all[1]);
    reveal_with_fuel(first_assocs, 3);
}

/// What a reader sees of an item besides its texts: type, size, auxiliary type and
/// references.
pub open spec fn item_is(
    x: ItemView,
    id: int,
    kind: u32,
    hidden: bool,
    size: Option<(u32, u32)>,
    urn: Option<Seq<char>>,
    derives_from: Seq<ItemId>,
    auxiliary_to: Seq<ItemId>,
    describes: Seq<ItemId>,
) -> bool {
    &&& x.id == id
    &&& x.kind == kind
    &&& x.hidden == hidden
    &&& x.width == match size {
        Some(wh) => Some(wh.0),
        None => None,
    }
    &&& x.height == match size {
        Some(wh) => Some(wh.1),
        None => None,
    }
    &&& x.aux_urn == urn
    &&& x.derives_from == derives_from
    &&& x.auxiliary_to == auxiliary_to
    &&& x.describes == describes
}

/// The identifiers of the listed items count up from 1.
proof fn lemma_listed_ids(q: MuxView)
    requires
        stored(q).len() <= 0xffff - 2,
    ensures
        listed_items(q).len() == 2 + stored(q).len(),
        forall|i: int| 0 <= i < listed_items(q).len() ==> (#[trigger] listed_items(q)[i]).id == i + 1,
        listed_items(q)[0] == listed(1, image_entry(false)),
        listed_items(q)[1] == listed(2, image_entry(true)),
        forall|i: int|
            0 <= i < stored(q).len() ==> listed_items(q)[2 + i] == listed(
                (3 + i) as u16,
                #[trigger] stored(q)[i],
            ),
{
    reveal(listed_items);
}

/// Every item of a written file is read with its type, its size and the items it
/// refers to: the base as the primary item, the gain map as its auxiliary image in
/// the Apple form, the tone map as derived from the two in the ISO form, and every
/// metadata item as describing the photograph.
pub proof fn items_read_back(q: MuxView, f: FileView)
    requires
        writable(q),
        file_of(mux_bytes(q)) == Ok::<FileView, Error>(f),
    ensures
        f.brands == written_brands(q),
        f.primary == Some(1u32),
        f.items.len() == 2 + stored(q).len(),
        item_is(
            f.items[0],
            1,
            HVC1,
            false,
            Some((q.base.width, q.base.height)),
            None,
            seq![],
            seq![],
            seq![],
        ),
        item_is(
            f.items[1],
            2,
            HVC1,
            true,
            Some((q.gain.width, q.gain.height)),
            if q.flavor.apple() {
                Some(APPLE_GAINMAP_URN@)
            } else {
                None
            },
            seq![],
            if q.flavor.apple() {
                seq![1u32]
            } else {
                seq![]
            },
            seq![],
        ),
        q.flavor.iso() ==> item_is(
            f.items[2],
            3,
            TMAP,
            false,
            Some((q.base.width, q.base.height)),
            None,
            seq![1u32, 2u32],
            seq![],
            seq![],
        ),
        forall|i: int|
            first_describing(q) <= i < stored(q).len() ==> item_is(
                f.items[2 + i],
                3 + i,
                (#[trigger] stored(q)[i]).kind,
                stored(q)[i].hidden,
                None,
                None,
                seq![],
                seq![],
                wide_ids(described(q)),
            ),
{
    a_written_file_reads_back(q);
    lemma_listed_ids(q);
    let m = written_meta(q);
    let props = written_props(q);
    let none = Seq::<Association>::empty();
    lemma_last_plain(props, none);
    assert forall|i: int| 0 <= i < m.items.len() implies is_first(m.items, i) by {
        assert forall|j: int| 0 <= j < i implies (#[trigger] m.items[j]).id != m.items[i].id by {
            assert(listed_items(q)[j].id == j + 1);
            assert(listed_items(q)[i].id == i + 1);
        }
    }
    assert(is_first(m.items, 0));
    assert(is_first(m.items, 1));
    assert(m.items[0].id == 1);
    assert(m.items[1].id == 2);
    lemma_written_assocs(q, 1);
    lemma_written_assocs(q, 2);
    lemma_written_targets(q, 1);
    lemma_written_targets(q, 2);
    lemma_base_list(q);
    lemma_gain_list(q);
    assert(f.items[0] == resolved(m, 0));
    assert(f.items[1] == resolved(m, 1));
    if q.flavor.iso() {
        assert(stored(q)[0] == tmap_stored(q)[0]);
        assert(is_first(m.items, 2));
        lemma_written_assocs(q, 3);
        lemma_written_targets(q, 3);
        lemma_tmap_list(q);
        assert(m.items[2 + 0int] == listed(3, stored(q)[0]));
        assert(f.items[2] == resolved(m, 2));
    }
    assert forall|i: int| first_describing(q) <= i < stored(q).len() implies item_is(
        f.items[2 + i],
        3 + i,
        (#[trigger] stored(q)[i]).kind,
        stored(q)[i].hidden,
        None,
        None,
        seq![],
        seq![],
        wide_ids(described(q)),
    ) by {
        assert(is_first(m.items, 2 + i));
        lemma_written_assocs(q, 3 + i);
        lemma_written_targets(q, 3 + i);
        assert(m.items[2 + i] == listed((3 + i) as u16, stored(q)[i]));
        assert(f.items[2 + i] == resolved(m, 2 + i));
    }
}

/// Texts that a reader finds whole.
pub open spec fn texts_are_whole(x: OpaqueView) -> bool {
    &&& zero_free(x.name)
    &&& x.kind == MIME && x.content_type is Some ==> zero_free(x.content_type->Some_0)
    &&& x.kind == URI && x.uri_type is Some ==> zero_free(x.uri_type->Some_0)
}

/// The texts of one written entry are read back.
proof fn lemma_listed_texts(id: u16, x: Stored, name: Seq<char>, more: Seq<char>)
    requires
        x.name == encode_utf8(name),
        zero_free(name),
        zero_free(more),
        x.kind == MIME || x.kind == URI ==> x.tail == terminated(encode_utf8(more)),
    ensures
        listed(id, x).name == name,
        x.kind == MIME ==> listed(id, x).content_type == Some(more),
        x.kind == URI ==> listed(id, x).uri_type == Some(more),
{
    let b = infe_body(id, x.kind, x.hidden, x.name, x.tail);
    let n = x.name.len() as int;
    assert(b.subrange(12, 12 + n + 1) =~= terminated(x.name));
    lemma_text_reads_back(b, 12, name);
    if x.kind == MIME || x.kind == URI {
        let k = encode_utf8(more).len() as int;
        assert(b.subrange(13 + n, 13 + n + k + 1) =~= x.tail);
        lemma_text_reads_back(b, 13 + n, more);
    }
}

/// Resolving references and properties leaves what an entry says.
proof fn lemma_item_as_listed(q: MuxView, f: FileView, k: int)
    requires
        writable(q),
        file_of(mux_bytes(q)) == Ok::<FileView, Error>(f),
        0 <= k < stored(q).len(),
    ensures
        ({
            let item = f.items[2 + k];
            let entry = listed((3 + k) as u16, stored(q)[k]);
            &&& item.kind == entry.kind
            &&& item.hidden == entry.hidden
            &&& item.name == entry.name
            &&& item.content_type == entry.content_type
            &&& item.uri_type == entry.uri_type
        }),
{
    a_written_file_reads_back(q);
    lemma_listed_ids(q);
    let x = stored(q)[k];
    assert(listed_items(q)[2 + k] == listed((3 + k) as u16, x));
    assert(f.items[2 + k] == resolved(written_meta(q), 2 + k));
}

/// An item that was copied through is read with the name and type it was given. One
/// with no content type reads as a plain byte stream, one with no URI type as the
/// empty URI.
#[verifier::rlimit(60)]
#[verifier::spinoff_prover]
pub proof fn texts_read_back(q: MuxView, f: FileView, i: int)
    requires
        writable(q),
        file_of(mux_bytes(q)) == Ok::<FileView, Error>(f),
        0 <= i < q.extra_items.len(),
        texts_are_whole(q.extra_items[i]),
    ensures
        ({
            let x = q.extra_items[i];
            let item = f.items[2 + stored(q).len() - q.extra_items.len() + i];
            &&& item.kind == x.kind
            &&& item.hidden == x.hidden
            &&& item.name == x.name
            &&& x.kind == MIME ==> item.content_type == Some(
                match x.content_type {
                    Some(t) => t,
                    None => "application/octet-stream"@,
                },
            )
            &&& x.kind == URI ==> item.uri_type == Some(
                match x.uri_type {
                    Some(t) => t,
                    None => seq![],
                },
            )
            &&& x.kind != MIME ==> item.content_type is None
            &&& x.kind != URI ==> item.uri_type is None
        }),
{
    let x = q.extra_items[i];
    let k = stored(q).len() - q.extra_items.len() + i;
    reveal_strlit("application/octet-stream");
    let more = if x.kind == MIME {
        match x.content_type {
            Some(t) => t,
            None => "application/octet-stream"@,
        }
    } else if x.kind == URI {
        match x.uri_type {
            Some(t) => t,
            None => seq![],
        }
    } else {
        seq![]
    };
    assert(stored(q)[k] == stored_of(x));
    assert(encode_utf8(Seq::<char>::empty()) =~= seq![]);
    lemma_item_as_listed(q, f, k);
    lemma_listed_texts((3 + k) as u16, stored_of(x), x.name, more);
}

/// The XMP packet is read as an item of the type XMP is stored under.
pub proof fn a_packet_is_typed(q: MuxView, f: FileView)
    requires
        writable(q),
        file_of(mux_bytes(q)) == Ok::<FileView, Error>(f),
        q.xmp is Some,
    ensures
        ({
            let k = tmap_stored(q).len() + exif_stored(q).len();
            &&& k < stored(q).len()
            &&& stored(q)[k as int] == xmp_stored(q)[0]
            &&& f.items[2 + k as int].content_type == Some("application/rdf+xml"@)
        }),
{
    let k = (tmap_stored(q).len() + exif_stored(q).len()) as int;
    let x = xmp_stored(q)[0];
    reveal_strlit("application/rdf+xml");
    assert(stored(q)[k] == x);
    assert(encode_utf8(Seq::<char>::empty()) =~= seq![]);
    lemma_item_as_listed(q, f, k);
    lemma_listed_texts((3 + k) as u16, x, seq![], "application/rdf+xml"@);
}

/// Where one stored item's data lies among the others'.
proof fn lemma_joined_at(items: Seq<Stored>, i: int, n: int)
    requires
        0 <= i < n,
    ensures
        joined(items, i).len() + items[i].data.len() <= joined(items, n).len(),
        joined(items, n).subrange(
            joined(items, i).len() as int,
            (joined(items, i).len() + items[i].data.len()) as int,
        ) == items[i].data,
    decreases n,
{
    let a = joined(items, i).len() as int;
    let b = a + items[i].data.len();
    let whole = joined(items, n);
    if i < n - 1 {
        lemma_joined_at(items, i, n - 1);
        assert(whole.subrange(a, b) =~= joined(items, n - 1).subrange(a, b));
    } else {
        assert(whole.subrange(a, b) =~= items[i].data);
    }
}

proof fn lemma_location(locs: Seq<LocView>, i: int)
    requires
        0 <= i < locs.len(),
        forall|j: int| 0 <= j < i ==> (#[trigger] locs[j]).item != locs[i].item,
    ensures
        location(locs, locs[i].item) == Some(locs[i]),
    decreases i,
{
    if i > 0 {
        let rest = locs.skip(1);
        assert(locs[0].item != locs[i].item);
        assert forall|j: int| 0 <= j < i - 1 implies (#[trigger] rest[j]).item != rest[i
            - 1].item by {
            assert(rest[j] == locs[j + 1]);
        }
        lemma_location(rest, i - 1);
    }
}

/// An item with one extent has that extent's bytes.
proof fn lemma_one_extent_data(f: FileView, id: int, method: u8, offset: int, length: int, a: int)
    requires
        0 <= id <= u32::MAX,
        location(f.locs, id as u32) == Some(one_extent(id, method, offset, length)),
        0 <= offset <= u32::MAX,
        0 <= length <= u32::MAX,
        method <= 1,
        method == 1 ==> f.idat is Some && a == f.idat->Some_0.0 + offset && a
            <= f.idat->Some_0.1,
        method == 0 ==> a == offset,
        0 <= a,
        a + length <= f.bytes.len() <= u32::MAX,
    ensures
        data_of(f, id as u32) == Ok::<Seq<u8>, Error>(f.bytes.subrange(a, a + length)),
{
    let l = one_extent(id, method, offset, length);
    let x = l.extents[0];
    let r = (a, a + length);
    assert(range_of(f, id as u32, method, x) == Ok::<(int, int), Error>(r));
    let g = |i: int| range_of(f, id as u32, l.method, l.extents[i]);
    lemma_collect_succeeds(g, 0, 1, seq![r]);
    assert(seq![r].skip(0) =~= seq![r]);
    assert(ranges_of(f, id as u32, l) == collect(g, 0, 1));
    assert(seq![r].drop_last() =~= seq![]);
    assert(by_start(Seq::<(int, int)>::empty()) =~= seq![]);
    assert(by_start(seq![r]) =~= seq![r]);
}

/// Where the pieces of a written file lie.
proof fn lemma_written_places(q: MuxView)
    requires
        writable(q),
    ensures
        ({
            let f = written_file(q);
            let s = mux_bytes(q);
            let m = mdat_start(q);
            let base_len = q.base.data.len() as int;
            let whole = joined(stored(q), stored(q).len() as int);
            &&& 0 <= m
            &&& s.len() == m + base_len + q.gain.data.len()
            &&& s.subrange(m, m + base_len) == q.base.data
            &&& s.skip(m + base_len) == q.gain.data
            &&& whole.len() > 0 ==> f.idat is Some && 0 <= f.idat->Some_0.0
                <= f.idat->Some_0.1 <= s.len() && s.subrange(f.idat->Some_0.0, f.idat->Some_0.1)
                == whole
        }),
{
    let s = mux_bytes(q);
    let m = mdat_start(q);
    let kids = meta_children(q, m);
    let t = ftyp_body(q);
    let whole = joined(stored(q), stored(q).len() as int);
    let boxes = placed(kids, t.len() as int + 20);
    lemma_three_boxes(s, t, kids, q.base.data + q.gain.data);
    lemma_iloc_body_len(q, m);
    lemma_iloc_body_len(q, 0);
    lemma_chunk_push(early_children(q), Chunk { kind: ILOC, body: iloc_body(q, m) });
    assert(m == t.len() + 28 + chunk_bytes(kids).len());
    let tail = s.skip(m);
    let b = q.base.data.len() as int;
    assert(s.subrange(m, m + b) =~= tail.subrange(0, b));
    assert(tail.subrange(0, b) =~= q.base.data);
    assert(s.skip(m + b) =~= tail.skip(b));
    assert(tail.skip(b) =~= q.gain.data);
    if whole.len() > 0 {
        let k = idat_position(q);
        assert(0 <= k < kids.len() && kids[k] == (Chunk { kind: IDAT, body: whole })) by {
            reveal(early_children);
        }
        assert(body(s, boxes[k]) == whole);
    }
}

/// The data of a stored item, given where the pieces of a file lie.
proof fn lemma_stored_data(f: FileView, items: Seq<Stored>, locs: Seq<LocView>, i: int)
    requires
        f.locs == locs,
        locs.len() == 2 + items.len(),
        locs[0].item == 1,
        locs[1].item == 2,
        forall|j: int| 0 <= j < items.len() ==> locs[2 + j] == #[trigger] stored_locs(items)[j],
        0 <= i < items.len() <= 0xffff - 2,
        f.bytes.len() <= u32::MAX,
        f.idat is Some,
        0 <= f.idat->Some_0.0 <= f.idat->Some_0.1 <= f.bytes.len(),
        f.bytes.subrange(f.idat->Some_0.0, f.idat->Some_0.1) == joined(items, items.len() as int),
    ensures
        data_of(f, (3 + i) as u32) == Ok::<Seq<u8>, Error>(items[i].data),
{
    let n = items.len() as int;
    let whole = joined(items, n);
    let start = f.idat->Some_0.0;
    let from = joined(items, i).len() as int;
    let len = items[i].data.len() as int;
    lemma_joined_at(items, i, n);
    assert(locs[2 + i] == stored_locs(items)[i]);
    assert forall|j: int| 0 <= j < 2 + i implies (#[trigger] locs[j]).item != locs[2 + i].item by {
        if j >= 2 {
            assert(locs[2 + (j - 2)] == stored_locs(items)[j - 2]);
        }
    }
    lemma_location(locs, 2 + i);
    lemma_one_extent_data(f, 3 + i, 1, from, len, start + from);
    assert(f.bytes.subrange(start + from, start + from + len) =~= whole.subrange(from, from + len));
}

/// Every item's data is read back byte for byte.
///
/// The one exception is a file whose stored items are all empty: it has no `idat` to
/// look them up in.
pub proof fn data_reads_back(q: MuxView, f: FileView)
    requires
        writable(q),
        file_of(mux_bytes(q)) == Ok::<FileView, Error>(f),
    ensures
        data_of(f, 1) == Ok::<Seq<u8>, Error>(q.base.data),
        data_of(f, 2) == Ok::<Seq<u8>, Error>(q.gain.data),
        joined(stored(q), stored(q).len() as int).len() > 0 ==> forall|i: int|
            0 <= i < stored(q).len() ==> data_of(f, (3 + i) as u32) == Ok::<Seq<u8>, Error>(
                (#[trigger] stored(q)[i]).data,
            ),
{
    let s = mux_bytes(q);
    let m = mdat_start(q);
    let items = stored(q);
    let locs = written_locs(q, m);
    let b = q.base.data.len() as int;
    let g = q.gain.data.len() as int;
    a_written_file_reads_back(q);
    lemma_written_places(q);
    lemma_location_entries(q, m);
    lemma_location(locs, 0);
    lemma_one_extent_data(f, 1, 0, m, b, m);
    lemma_location(locs, 1);
    lemma_one_extent_data(f, 2, 0, m + b, g, m + b);
    assert(s.subrange(m + b, m + b + g) =~= s.skip(m + b));
    if joined(items, items.len() as int).len() > 0 {
        assert forall|i: int| 0 <= i < items.len() implies data_of(f, (3 + i) as u32) == Ok::<
            Seq<u8>,
            Error,
        >((#[trigger] items[i]).data) by {
            lemma_stored_data(f, items, locs, i);
        }
    }
}

proof fn lemma_location_entries(q: MuxView, m: int)
    ensures
        ({
            let locs = written_locs(q, m);
            let b = q.base.data.len() as int;
            &&& locs.len() == 2 + stored(q).len()
            &&& locs[0] == one_extent(1, 0, m, b)
            &&& locs[1] == one_extent(2, 0, m + b, q.gain.data.len() as int)
            &&& forall|j: int|
                0 <= j < stored(q).len() ==> locs[2 + j] == #[trigger] stored_locs(stored(q))[j]
        }),
{
    reveal(written_locs);
}

/// Both images are read back with their sizes, decoder configurations and data.
/// Their chroma sampling and bit depth are what the decoder configurations state, or
/// what was asked for where those are too short to say.
pub proof fn images_read_back(q: MuxView, f: FileView)
    requires
        writable(q),
        file_of(mux_bytes(q)) == Ok::<FileView, Error>(f),
    ensures
        coded_of(f, 1) == Ok::<CodedView, Error>(
            CodedView {
                bit_depth: depth_of(q.base.hvcc, pixi_bits(q.base.chroma, q.base.bit_depth)),
                chroma: chroma_of(q.base.hvcc, pixi_bits(q.base.chroma, q.base.bit_depth)),
                ..q.base
            },
        ),
        coded_of(f, 2) == Ok::<CodedView, Error>(
            CodedView {
                bit_depth: depth_of(q.gain.hvcc, pixi_bits(q.gain.chroma, q.gain.bit_depth)),
                chroma: chroma_of(q.gain.hvcc, pixi_bits(q.gain.chroma, q.gain.bit_depth)),
                ..q.gain
            },
        ),
{
    a_written_file_reads_back(q);
    items_read_back(q, f);
    data_reads_back(q, f);
    lemma_written_assocs(q, 1);
    lemma_written_assocs(q, 2);
    lemma_base_list(q);
    lemma_gain_list(q);
    assert(find_id(f.items, 1, 0) == Some(f.items[0]));
    assert(find_id(f.items, 2, 1) == Some(f.items[1]));
    assert(find_id(f.items, 2, 0) == Some(f.items[1]));
}

/// No tone map before the position `i`.
proof fn lemma_find_kind(items: Seq<ItemView>, kind: u32, i: int, k: int)
    requires
        0 <= i <= k <= items.len(),
        k < items.len() ==> items[k].kind == kind,
        forall|j: int| i <= j < k ==> (#[trigger] items[j]).kind != kind,
    ensures
        find_kind(items, kind, i) == if k < items.len() {
            Some(items[k])
        } else {
            None
        },
    decreases k - i,
{
    if i < k {
        assert(items[i].kind != kind);
        lemma_find_kind(items, kind, i + 1, k);
    }
}

proof fn lemma_find_urn(items: Seq<ItemView>, urn: Seq<char>, i: int)
    requires
        0 <= i <= items.len(),
        forall|j: int| i <= j < items.len() ==> (#[trigger] items[j]).aux_urn is None,
    ensures
        find_urn(items, urn, i) is None,
    decreases items.len() - i,
{
    if i < items.len() {
        assert(items[i].aux_urn is None);
        lemma_find_urn(items, urn, i + 1);
    }
}

proof fn lemma_tmap_meta(f: FileView, payload: Seq<u8>, r: Result<GainMapMeta, ParseError>)
    requires
        data_of(f, 3) == Ok::<Seq<u8>, Error>(seq![0u8] + payload),
        iso21496::parsed(payload) == r,
    ensures
        tmap_meta(f, 3) == match r {
            Ok(m) => Some(m),
            Err(_) => None,
        },
{
    assert((seq![0u8] + payload).skip(1) =~= payload);
}

/// The tone map's metadata.
proof fn lemma_written_tmap_meta(q: MuxView, f: FileView)
    requires
        writable(q),
        file_of(mux_bytes(q)) == Ok::<FileView, Error>(f),
        q.flavor.iso(),
    ensures
        tmap_meta(f, 3) == if iso21496::violation(iso21496::quantized(q.meta)) is None {
            Some(iso21496::quantized(q.meta))
        } else {
            None
        },
{
    data_reads_back(q, f);
    let items = stored(q);
    assert(items[0] == tmap_stored(q)[0]);
    lemma_joined_at(items, 0, items.len() as int);
    assert(data_of(f, (3 + 0int) as u32) == Ok::<Seq<u8>, Error>(items[0].data));
    iso21496::parse_reads_back_what_serialize_wrote(q.meta);
    lemma_tmap_meta(
        f,
        iso21496::serialized(q.meta),
        iso21496::parsed(iso21496::serialized(q.meta)),
    );
}

/// Auxiliary types and item types as they are found.
proof fn lemma_written_finds(q: MuxView, f: FileView)
    requires
        writable(q),
        file_of(mux_bytes(q)) == Ok::<FileView, Error>(f),
        !q.flavor.iso() ==> forall|i: int|
            0 <= i < q.extra_items.len() ==> (#[trigger] q.extra_items[i]).kind != TMAP,
    ensures
        f.items.len() >= 2,
        f.items[1].id == 2,
        find_urn(f.items, APPLE_GAINMAP_URN@, 0) == if q.flavor.apple() {
            Some(f.items[1])
        } else {
            None
        },
        q.flavor.iso() ==> f.items.len() > 2 && f.items[2].id == 3 && f.items[2].derives_from
            == seq![1u32, 2u32] && find_kind(f.items, TMAP, 0) == Some(f.items[2]),
        !q.flavor.iso() ==> find_kind(f.items, TMAP, 0) is None,
{
    items_read_back(q, f);
    let items = stored(q);
    let n = items.len() as int;
    let urn = APPLE_GAINMAP_URN@;
    let k = first_describing(q);
    assert forall|j: int| 2 + k <= j < f.items.len() implies (#[trigger] f.items[j]).aux_urn
        is None && f.items[j].kind == items[j - 2].kind by {
        let x = items[j - 2];
        assert(f.items[2 + (j - 2)] == f.items[j]);
    }
    lemma_find_urn(f.items, urn, 2 + k);
    if q.flavor.iso() {
        assert(items[0] == tmap_stored(q)[0]);
        assert(find_urn(f.items, urn, 2) == find_urn(f.items, urn, 3));
        lemma_find_kind(f.items, TMAP, 0, 2);
    } else {
        assert forall|j: int| 0 <= j < f.items.len() implies (#[trigger] f.items[j]).kind
            != TMAP by {
            if j >= 2 {
                let before = n - q.extra_items.len();
                if j - 2 >= before {
                    assert(items[j - 2] == stored_of(q.extra_items[j - 2 - before]));
                }
            }
        }
        lemma_find_kind(f.items, TMAP, 0, f.items.len() as int);
    }
    assert(find_urn(f.items, urn, 1) == if q.flavor.apple() {
        Some(f.items[1])
    } else {
        None
    });
    assert(find_urn(f.items, urn, 0) == find_urn(f.items, urn, 1));
}

/// The gain map of a written file is found in either form, and in the ISO form its
/// metadata is what serialising it kept, unless that is out of the range a reader
/// accepts.
///
/// A file in the Apple form alone has no tone map, unless a copied item poses as one.
#[verifier::spinoff_prover]
#[verifier::rlimit(40)]
pub proof fn gain_map_reads_back(q: MuxView, f: FileView)
    requires
        writable(q),
        file_of(mux_bytes(q)) == Ok::<FileView, Error>(f),
        !q.flavor.iso() ==> forall|i: int|
            0 <= i < q.extra_items.len() ==> (#[trigger] q.extra_items[i]).kind != TMAP,
    ensures
        gain_map_of(f) == Some(
            GainMapInfo {
                image_item: 2,
                apple_aux: q.flavor.apple(),
                tmap_item: if q.flavor.iso() {
                    Some(3u32)
                } else {
                    None
                },
                meta: if q.flavor.iso() && iso21496::violation(iso21496::quantized(q.meta)) is None {
                    Some(iso21496::quantized(q.meta))
                } else {
                    None
                },
            },
        ),
{
    lemma_written_finds(q, f);
    if q.flavor.iso() {
        lemma_written_tmap_meta(q, f);
    }
}

} // verus!
