//! What a file that an engine wrote declares, read back from its bytes.

use vstd::prelude::*;

use crate::bytes::be32_bytes;
use crate::encode::{EncodeOptions, Flavor, GainMapEncoder};
use crate::heif::engine::{
    assemble, base_may_be, colour_may_be, engine_may_answer, gain_may_be, is_assembled,
    linear_text, request_of, stated_headroom, MuxEngine, MuxEngineError, PlaneCodec,
};
use crate::heif::model::{data_of, file_of, ColourView, FileView, ItemView, PropView};
use crate::heif::roundtrip::shown::{properties_read_back, shown, there};
use crate::heif::roundtrip::{
    a_packet_is_typed, a_written_file_reads_back, data_reads_back, image_views, items_read_back,
    texts_are_whole, texts_read_back, turn_views, wide_ids,
};
use crate::heif::write::{
    described, exif_stored, first_describing, joined, mux_bytes, pixi_bits, stored, stored_of,
    tmap_stored, writable, xmp_stored, MuxView,
};
use crate::heif::{Chroma, CodedImage, CodedView, ColourInfo, Error, Unsupported};
use crate::iso21496::{
    is_close_to, needs_no_sign, parsed, serialized, violation, what_is_written_comes_back_close,
};
use crate::meta::{GainMapMeta, GainPlane, Rgb};
use crate::opaque::OpaqueView;
use crate::orient::HeifTransform;
use crate::text::decimal;
use crate::xmp::{description, merged, packet};

verus! {

/// The bit depths that a coded image declares: one for each of its channels.
pub open spec fn depths(c: CodedView) -> Seq<u8> {
    match c.chroma {
        Chroma::Monochrome => seq![c.bit_depth],
        _ => seq![c.bit_depth, c.bit_depth, c.bit_depth],
    }
}

/// The transforms that make an image upright: a rotation by so many quarters, then a mirror.
pub open spec fn turns(t: HeifTransform) -> Seq<PropView> {
    (if t.rotate_ccw_quarters == 0 {
        seq![]
    } else {
        seq![PropView::Irot(t.rotate_ccw_quarters)]
    }) + (match t.mirror_axis {
        Some(axis) => seq![PropView::Imir(axis)],
        None => seq![],
    })
}

/// Whether a transform is one there is: up to three quarters, and a mirror at one of two axes.
pub open spec fn is_a_turn(t: HeifTransform) -> bool {
    t.rotate_ccw_quarters <= 3 && (t.mirror_axis matches Some(axis) ==> axis <= 1)
}

/// Whether the form of the standard is written: a `tmap` item.
pub open spec fn has_tone_map(f: Flavor) -> bool {
    f == Flavor::Iso || f == Flavor::Both
}

/// Whether Apple's form is written: an auxiliary image, and the headroom in XMP.
pub open spec fn has_apple_form(f: Flavor) -> bool {
    f == Flavor::Apple || f == Flavor::Both
}

/// What the file says of the two coded images, and which of them is shown.
pub open spec fn holds_the_images(
    f: FileView,
    base: CodedView,
    gain: CodedView,
    colour: ColourView,
    opts: EncodeOptions,
) -> bool {
    &&& f.primary == Some(1u32)
    &&& f.items.len() >= 2
    &&& f.items[0].id == 1 && f.items[0].kind == 0x68766331 && !f.items[0].hidden
    &&& f.items[0].width == Some(base.width) && f.items[0].height == Some(base.height)
    &&& f.items[1].id == 2 && f.items[1].kind == 0x68766331 && f.items[1].hidden
    &&& f.items[1].width == Some(gain.width) && f.items[1].height == Some(gain.height)
    &&& data_of(f, 1) == Ok::<Seq<u8>, Error>(base.data)
    &&& data_of(f, 2) == Ok::<Seq<u8>, Error>(gain.data)
    &&& is_a_turn(opts.orientation) ==> shown(f, 1) == there(
        seq![
            PropView::Ispe { width: base.width, height: base.height },
            PropView::Pixi(depths(base)),
            PropView::HvcC(base.hvcc),
            PropView::Colr(colour),
        ] + turns(opts.orientation),
    )
    &&& is_a_turn(opts.orientation) ==> shown(f, 2) == there(
        seq![
            PropView::Ispe { width: gain.width, height: gain.height },
            PropView::Pixi(depths(gain)),
            PropView::HvcC(gain.hvcc),
        ] + (if has_apple_form(opts.flavor) {
            seq![PropView::AuxC("urn:com:apple:photo:2020:aux:hdrgainmap"@)]
        } else {
            seq![]
        }) + turns(opts.orientation),
    )
    &&& f.items[1].auxiliary_to == if has_apple_form(opts.flavor) {
        seq![1u32]
    } else {
        seq![]
    }
}

/// What the file says of the image that the tone map gives: it is made of the base and the gain
/// map, in that order, is as large as the base, and has the primaries of Display P3 (12), the
/// transfer of PQ (16), the matrix 6 and the full range.
pub open spec fn declares_hdr(f: FileView, base: CodedView, opts: EncodeOptions) -> bool {
    &&& f.items.len() >= 3
    &&& f.items[2].id == 3 && f.items[2].kind == 0x746d6170 && !f.items[2].hidden
    &&& f.items[2].derives_from == seq![1u32, 2u32]
    &&& f.brands.contains(0x746d6170u32)
    &&& is_a_turn(opts.orientation) ==> shown(f, 3) == there(
        seq![
            PropView::Ispe { width: base.width, height: base.height },
            PropView::Colr(
                ColourView::Nclx { primaries: 12, transfer: 16, matrix: 6, full_range: true },
            ),
        ] + turns(opts.orientation),
    )
    &&& exists|k: int|
        0 <= k < shown(f, 3).len() && #[trigger] shown(f, 3)[k] == Some(
            PropView::Colr(
                ColourView::Nclx { primaries: 12, transfer: 16, matrix: 6, full_range: true },
            ),
        )
}

proof fn lemma_turns(q: MuxView)
    requires
        is_a_turn(q.orientation),
    ensures
        turn_views(q) == turns(q.orientation),
{
    assert(turn_views(q) =~= turns(q.orientation));
}

proof fn lemma_depths(c: CodedView)
    ensures
        pixi_bits(c.chroma, c.bit_depth) == depths(c),
        image_views(c) == seq![
            PropView::Ispe { width: c.width, height: c.height },
            PropView::Pixi(depths(c)),
            PropView::HvcC(c.hvcc),
        ],
{
    assert(pixi_bits(c.chroma, c.bit_depth) =~= depths(c));
}

/// A file that is assembled holds the two coded images as they are, the base as the picture that
/// is shown, in the colours that it was said to have and turned as it has to be; and in the form
/// of the standard it declares what the gain map makes of it as a PQ picture in Display P3.
pub proof fn an_assembled_file_declares_its_pictures(
    base: CodedImage,
    gain: CodedImage,
    colour: ColourInfo,
    meta: &GainMapMeta,
    opts: &EncodeOptions,
    v: Vec<u8>,
)
    requires
        call_ensures(assemble, (base, gain, colour, meta, opts), Ok(v)),
    ensures
        file_of(v@) matches Ok(f) && holds_the_images(f, base@, gain@, colour@, *opts) && (
        has_tone_map(opts.flavor) ==> declares_hdr(f, base@, *opts)),
{
    let q = request_of(base@, gain@, colour@, *meta, *opts);
    assert(is_assembled(base@, gain@, colour@, *meta, *opts, Ok(v)));
    lemma_pictures(base@, gain@, colour@, *meta, *opts);
}

#[verifier::spinoff_prover]
#[verifier::rlimit(40)]
proof fn lemma_images(q: MuxView, f: FileView, colour: ColourView, opts: EncodeOptions)
    requires
        writable(q),
        file_of(mux_bytes(q)) == Ok::<FileView, Error>(f),
        q.base_colour == Some(colour),
        q.clli is None,
        q.flavor == opts.flavor,
        q.orientation == opts.orientation,
    ensures
        holds_the_images(f, q.base, q.gain, colour, opts),
{
    items_read_back(q, f);
    data_reads_back(q, f);
    properties_read_back(q, f);
    lemma_depths(q.base);
    lemma_depths(q.gain);
    let base = q.base;
    if is_a_turn(opts.orientation) {
        lemma_turns(q);
        assert(shown(f, 1) =~= there(
            seq![
                PropView::Ispe { width: base.width, height: base.height },
                PropView::Pixi(depths(base)),
                PropView::HvcC(base.hvcc),
                PropView::Colr(colour),
            ] + turns(opts.orientation),
        ));
    }
}

#[verifier::spinoff_prover]
#[verifier::rlimit(40)]
proof fn lemma_hdr(q: MuxView, f: FileView, opts: EncodeOptions)
    requires
        writable(q),
        file_of(mux_bytes(q)) == Ok::<FileView, Error>(f),
        q.tmap_colour == Some(
            ColourView::Nclx { primaries: 12, transfer: 16, matrix: 6, full_range: true },
        ),
        q.flavor == opts.flavor,
        q.orientation == opts.orientation,
        has_tone_map(opts.flavor),
    ensures
        declares_hdr(f, q.base, opts),
{
    items_read_back(q, f);
    properties_read_back(q, f);
    let base = q.base;
    let hdr = ColourView::Nclx { primaries: 12, transfer: 16, matrix: 6, full_range: true };
    assert(f.brands[3] == 0x746d6170u32);
    assert(shown(f, 3)[1] == Some(PropView::Colr(hdr)));
    if is_a_turn(opts.orientation) {
        lemma_turns(q);
        assert(shown(f, 3) =~= there(
            seq![
                PropView::Ispe { width: base.width, height: base.height },
                PropView::Colr(hdr),
            ] + turns(opts.orientation),
        ));
    }
}

proof fn lemma_pictures(
    base: CodedView,
    gain: CodedView,
    colour: ColourView,
    meta: GainMapMeta,
    opts: EncodeOptions,
)
    requires
        writable(request_of(base, gain, colour, meta, opts)),
    ensures
        file_of(mux_bytes(request_of(base, gain, colour, meta, opts))) matches Ok(f)
            && holds_the_images(f, base, gain, colour, opts) && (has_tone_map(opts.flavor)
            ==> declares_hdr(f, base, opts)),
{
    let q = request_of(base, gain, colour, meta, opts);
    a_written_file_reads_back(q);
    let f = file_of(mux_bytes(q))->Ok_0;
    lemma_images(q, f, colour, opts);
    if has_tone_map(opts.flavor) {
        lemma_hdr(q, f, opts);
    }
}

/// A block behind the four zero bytes that say that it starts right there.
pub open spec fn behind_zeros(b: Seq<u8>) -> Seq<u8> {
    seq![0u8, 0u8, 0u8, 0u8] + b
}

/// What an item of metadata describes: the base, and the picture that the tone map gives.
pub open spec fn the_photograph(f: Flavor) -> Seq<u32> {
    if has_tone_map(f) {
        seq![1u32, 3u32]
    } else {
        seq![1u32]
    }
}

/// Whether a file has an item of a type with some data, which describes the photograph.
pub open spec fn carries(f: FileView, k: int, kind: u32, data: Seq<u8>, flavor: Flavor) -> bool {
    &&& 2 <= k < f.items.len()
    &&& f.items[k].kind == kind
    &&& data_of(f, f.items[k].id) == Ok::<Seq<u8>, Error>(data)
    &&& f.items[k].describes == the_photograph(flavor)
}

proof fn lemma_packet_is_long(linear: Seq<char>)
    ensures
        packet(linear).len() > 0,
{
    crate::xmp::a_packet_states_its_headroom(linear);
    reveal_strlit(" </rdf:RDF>\n</x:xmpmeta>\n<?xpacket end=\"w\"?>");
    let tail = " </rdf:RDF>\n</x:xmpmeta>\n<?xpacket end=\"w\"?>"@;
    assert(tail[0] == ' ');
    vstd::utf8::encode_utf8_decode_utf8(tail);
    if vstd::utf8::encode_utf8(tail).len() == 0 {
        assert(vstd::utf8::encode_utf8(tail) =~= seq![]);
        assert(vstd::utf8::decode_utf8(seq![]) =~= seq![]);
    }
}

proof fn lemma_joined_grows(items: Seq<crate::heif::write::Stored>, i: int, n: int)
    requires
        0 <= i < n,
    ensures
        joined(items, n).len() >= items[i].data.len(),
    decreases n,
{
    if i < n - 1 {
        lemma_joined_grows(items, i, n - 1);
    }
}

/// Where a stored item is, and its data, when any of the stored data is there.
proof fn lemma_carries(q: MuxView, f: FileView, i: int, some: int)
    requires
        writable(q),
        file_of(mux_bytes(q)) == Ok::<FileView, Error>(f),
        first_describing(q) <= i < stored(q).len(),
        0 <= some < stored(q).len(),
        stored(q)[some].data.len() > 0,
    ensures
        carries(f, 2 + i, stored(q)[i].kind, stored(q)[i].data, q.flavor),
{
    items_read_back(q, f);
    data_reads_back(q, f);
    lemma_joined_grows(stored(q), some, stored(q).len() as int);
    let x = stored(q)[i];
    assert(f.items[2 + i].id == 3 + i);
    assert(data_of(f, (3 + i) as u32) == Ok::<Seq<u8>, Error>(x.data));
    assert(wide_ids(described(q)) =~= the_photograph(q.flavor));
}

/// Whether an item of a file has the name, the content type and the URI of a carried one.
pub open spec fn keeps_its_texts(item: ItemView, x: OpaqueView) -> bool {
    &&& item.name == x.name
    &&& x.kind == 0x6d696d65 && x.content_type is Some ==> item.content_type == x.content_type
    &&& x.kind == 0x75726920 && x.uri_type is Some ==> item.uri_type == x.uri_type
}

/// Whether a file has the Exif block of some options, and every item that is to be copied.
pub open spec fn carries_the_metadata(f: FileView, opts: EncodeOptions) -> bool {
    &&& opts.exif matches Some(b) ==> exists|k: int| #[trigger]
        carries(f, k, 0x45786966, behind_zeros(b@), opts.flavor)
            && f.items[k].hidden
    &&& forall|i: int|
        0 <= i < opts.opaque_items@.len() ==> {
            let x = #[trigger] opts.opaque_items@[i]@;
            let k = f.items.len() - opts.opaque_items@.len() + i;
            (x.data.len() > 0 || has_tone_map(opts.flavor) ==> carries(
                f,
                k,
                x.kind,
                x.data,
                opts.flavor,
            )) && f.items[k].kind == x.kind && f.items[k].hidden == x.hidden && (
            texts_are_whole(x) ==> keeps_its_texts(f.items[k], x))
        }
}

proof fn lemma_metadata(
    base: CodedView,
    gain: CodedView,
    colour: ColourView,
    meta: GainMapMeta,
    opts: EncodeOptions,
    v: Vec<u8>,
)
    requires
        is_assembled(base, gain, colour, meta, opts, Ok(v)),
    ensures
        file_of(v@) matches Ok(f) && carries_the_metadata(f, opts),
{
    let q = request_of(base, gain, colour, meta, opts);
    a_written_file_reads_back(q);
    let f = file_of(v@)->Ok_0;
    let n = stored(q).len() as int;
    items_read_back(q, f);
    if has_tone_map(opts.flavor) {
        assert(stored(q)[0] == tmap_stored(q)[0]);
    }
    if let Some(b) = opts.exif {
        let k = tmap_stored(q).len() as int;
        assert(stored(q)[k] == exif_stored(q)[0]);
        assert(be32_bytes(0) =~= seq![0u8, 0u8, 0u8, 0u8]) by {
            reveal(be32_bytes);
        }
        lemma_carries(q, f, k, k);
        assert(carries(f, 2 + k, 0x45786966, behind_zeros(b@), opts.flavor));
    }
    assert forall|i: int| 0 <= i < opts.opaque_items@.len() implies {
        let x = #[trigger] opts.opaque_items@[i]@;
        let k = f.items.len() - opts.opaque_items@.len() + i;
        (x.data.len() > 0 || has_tone_map(opts.flavor) ==> carries(
            f,
            k,
            x.kind,
            x.data,
            opts.flavor,
        )) && f.items[k].kind == x.kind && f.items[k].hidden == x.hidden && (texts_are_whole(x)
            ==> keeps_its_texts(f.items[k], x))
    } by {
        let x = opts.opaque_items@[i]@;
        let j = n - q.extra_items.len() + i;
        assert(q.extra_items[i] == x);
        assert(stored(q)[j] == stored_of(x));
        if x.data.len() > 0 {
            lemma_carries(q, f, j, j);
        }
        if has_tone_map(opts.flavor) {
            lemma_carries(q, f, j, 0);
        }
        if texts_are_whole(x) {
            texts_read_back(q, f, i);
        }
    }
}

/// A file that is assembled carries the source's Exif block, behind the four zero bytes that say
/// that it starts at once, and every item that was to be copied through, each describing the
/// photograph.
pub proof fn an_assembled_file_carries_the_metadata(
    base: CodedImage,
    gain: CodedImage,
    colour: ColourInfo,
    meta: &GainMapMeta,
    opts: &EncodeOptions,
    v: Vec<u8>,
)
    requires
        call_ensures(assemble, (base, gain, colour, meta, opts), Ok(v)),
    ensures
        file_of(v@) matches Ok(f) && carries_the_metadata(f, *opts),
{
    lemma_metadata(base@, gain@, colour@, *meta, *opts, v);
}

/// The decimal digits of a power of two, behind which six zeros follow.
pub open spec fn power_text(stops: nat) -> Seq<char> {
    decimal(vstd::arithmetic::power2::pow2(stops)) + ".000000"@
}

/// The headroom that the XMP of a file in Apple's form states: that of the metadata, made
/// linear, where that is a whole number of stops, and the one that was given where not.
pub proof fn the_stated_headroom_is_that_of_the_metadata(meta: GainMapMeta, opts: EncodeOptions)
    ensures
        match meta.alt_headroom.whole() {
            Some(stops) => stated_headroom(meta, opts) == Some(power_text(stops)),
            None => match opts.linear_headroom {
                Some(t) => stated_headroom(meta, opts) == Some(t@),
                None => stated_headroom(meta, opts) is None,
            },
        },
{
    if let Some(stops) = meta.alt_headroom.whole() {
        reveal_strlit("");
        assert(linear_text(stops) =~= power_text(stops));
    }
}

/// Whether a file has the XMP packet that some options call for.
pub open spec fn carries_the_packet(f: FileView, meta: GainMapMeta, opts: EncodeOptions) -> bool {
    &&& has_apple_form(opts.flavor) ==> (stated_headroom(meta, opts) matches Some(t)
        && exists|k: int, d: Seq<u8>| #[trigger]
        carries(f, k, 0x6d696d65, d, opts.flavor) && f.items[k].content_type == Some(
            "application/rdf+xml"@,
        ) && match opts.xmp {
            Some(source) => merged(source@, t) == Some(d) || (merged(source@, t) is None
                && d == packet(t)),
            None => d == packet(t),
        })
    &&& opts.flavor == Flavor::Iso && opts.xmp is Some ==> exists|k: int| #[trigger]
        carries(f, k, 0x6d696d65, opts.xmp->Some_0@, opts.flavor) && f.items[k].content_type
            == Some("application/rdf+xml"@)
}

proof fn lemma_packet(
    base: CodedView,
    gain: CodedView,
    colour: ColourView,
    meta: GainMapMeta,
    opts: EncodeOptions,
    v: Vec<u8>,
)
    requires
        is_assembled(base, gain, colour, meta, opts, Ok(v)),
    ensures
        file_of(v@) matches Ok(f) && carries_the_packet(f, meta, opts),
{
    let q = request_of(base, gain, colour, meta, opts);
    a_written_file_reads_back(q);
    let f = file_of(v@)->Ok_0;
    if q.xmp is Some {
        let d = q.xmp->Some_0;
        let k = (tmap_stored(q).len() + exif_stored(q).len()) as int;
        a_packet_is_typed(q, f);
        assert(stored(q)[k] == xmp_stored(q)[0]);
        if has_tone_map(opts.flavor) {
            assert(stored(q)[0] == tmap_stored(q)[0]);
            lemma_carries(q, f, k, 0);
        } else {
            let t = stated_headroom(meta, opts)->Some_0;
            lemma_packet_is_long(t);
            if let Some(source) = opts.xmp {
                lemma_description_is_long(t);
            }
            lemma_carries(q, f, k, k);
        }
        assert(carries(f, 2 + k, 0x6d696d65, d, opts.flavor));
    }
}

/// A file that is assembled has an XMP packet. In Apple's form it states the headroom: in the
/// source's own packet where that can be merged into, which then keeps every byte it had, and
/// else in one of its own. In the other form it is the source's packet as it is, if there is one.
pub proof fn an_assembled_file_carries_the_packet(
    base: CodedImage,
    gain: CodedImage,
    colour: ColourInfo,
    meta: &GainMapMeta,
    opts: &EncodeOptions,
    v: Vec<u8>,
)
    requires
        call_ensures(assemble, (base, gain, colour, meta, opts), Ok(v)),
    ensures
        file_of(v@) matches Ok(f) && carries_the_packet(f, *meta, *opts),
{
    lemma_packet(base@, gain@, colour@, *meta, *opts, v);
}

proof fn lemma_description_is_long(linear: Seq<char>)
    ensures
        description(linear).len() > 0,
{
    crate::xmp::a_packet_states_its_headroom(linear);
    reveal_strlit("\"/>\n");
    let tail = "\"/>\n"@;
    assert(tail[0] == '"');
    vstd::utf8::encode_utf8_decode_utf8(tail);
    if vstd::utf8::encode_utf8(tail).len() == 0 {
        assert(vstd::utf8::encode_utf8(tail) =~= seq![]);
        assert(vstd::utf8::decode_utf8(seq![]) =~= seq![]);
    }
}

/// Whether a file's third item states the gain's parameters, each as close as 65536ths come.
pub open spec fn states_the_gain(f: FileView, meta: GainMapMeta) -> bool {
    data_of(f, 3) matches Ok(d) && d.len() > 1 && d[0] == 0 && (parsed(d.skip(1)) matches Ok(m)
        && is_close_to(m, meta) && m.use_base_color_space == meta.use_base_color_space)
}

proof fn lemma_gain(
    base: CodedView,
    gain: CodedView,
    colour: ColourView,
    meta: GainMapMeta,
    opts: EncodeOptions,
    v: Vec<u8>,
)
    requires
        is_assembled(base, gain, colour, meta, opts, Ok(v)),
        has_tone_map(opts.flavor),
        violation(meta) is None,
        needs_no_sign(meta),
    ensures
        file_of(v@) matches Ok(f) && states_the_gain(f, meta),
{
    let q = request_of(base, gain, colour, meta, opts);
    a_written_file_reads_back(q);
    let f = file_of(v@)->Ok_0;
    data_reads_back(q, f);
    assert(stored(q)[0] == tmap_stored(q)[0]);
    lemma_joined_grows(stored(q), 0, stored(q).len() as int);
    assert(data_of(f, (3 + 0int) as u32) == Ok::<Seq<u8>, Error>(stored(q)[0].data));
    let d = stored(q)[0].data;
    crate::iso21496::serialized_length(meta);
    assert(d.skip(1) =~= serialized(meta));
    what_is_written_comes_back_close(meta);
}

/// The tone map of a file that is assembled holds the metadata it was given: read back, every
/// parameter is within `2^-17` of what it was.
pub proof fn an_assembled_file_states_its_gain(
    base: CodedImage,
    gain: CodedImage,
    colour: ColourInfo,
    meta: &GainMapMeta,
    opts: &EncodeOptions,
    v: Vec<u8>,
)
    requires
        call_ensures(assemble, (base, gain, colour, meta, opts), Ok(v)),
        has_tone_map(opts.flavor),
        violation(*meta) is None,
        needs_no_sign(*meta),
    ensures
        file_of(v@) matches Ok(f) && states_the_gain(f, *meta),
{
    lemma_gain(base@, gain@, colour@, *meta, *opts, v);
}

/// Nothing but its size, or a headroom that nobody stated, keeps two coded planes from becoming
/// a file.
pub proof fn assembling_fails_only_for_a_reason(
    base: CodedImage,
    gain: CodedImage,
    colour: ColourInfo,
    meta: &GainMapMeta,
    opts: &EncodeOptions,
    e: MuxEngineError,
)
    requires
        call_ensures(assemble, (base, gain, colour, meta, opts), Err(e)),
    ensures
        ({
            let unstated = has_apple_form(opts.flavor) && opts.linear_headroom is None
                && meta.alt_headroom.whole() is None;
            &&& unstated ==> e == MuxEngineError::Mux(Error::Unsupported(Unsupported::NoHeadroom))
            &&& !unstated ==> e == MuxEngineError::Mux(Error::Unsupported(Unsupported::TooLarge))
                && !writable(request_of(base@, gain@, colour@, *meta, *opts))
        }),
{
    assert(is_assembled(base@, gain@, colour@, *meta, *opts, Err(e)));
}

/// A request is written whenever its file can be stated in 32-bit sizes and its items in 16-bit
/// numbers.
pub proof fn only_its_size_keeps_a_file_from_being_written(q: MuxView)
    ensures
        writable(q) <==> mux_bytes(q).len() <= 0xffff_ffff && stored(q).len() <= 65533,
        stored(q).len() == (if has_tone_map(q.flavor) {
            1int
        } else {
            0
        }) + (if q.exif is Some {
            1int
        } else {
            0
        }) + (if q.xmp is Some {
            1int
        } else {
            0
        }) + q.extra_items.len(),
{
}

/// An engine hands each plane to its codec as it is, at the quality that was asked for, and writes
/// what comes back with the colour that the codec declares for the primaries of the picture.
pub proof fn an_engine_writes_what_its_codec_made<C: PlaneCodec>(
    engine: &MuxEngine<C>,
    base: &Rgb,
    gain: &GainPlane,
    meta: &GainMapMeta,
    opts: &EncodeOptions,
    v: Vec<u8>,
)
    requires
        call_ensures(
            <MuxEngine<C> as GainMapEncoder>::encode,
            (engine, base, gain, meta, opts),
            Ok(v),
        ),
    ensures
        exists|b: CodedImage, g: CodedImage, c: ColourInfo|
            #![trigger
                call_ensures(C::encode_base, (&engine.0, base, opts.base_quality), Ok(b)),
                call_ensures(C::encode_gain, (&engine.0, gain, opts.gain_quality), Ok(g)),
                call_ensures(C::base_colour, (&engine.0, opts.primaries), c)
            ]
            call_ensures(C::encode_base, (&engine.0, base, opts.base_quality), Ok(b))
                && call_ensures(C::encode_gain, (&engine.0, gain, opts.gain_quality), Ok(g))
                && call_ensures(C::base_colour, (&engine.0, opts.primaries), c) && (file_of(
                v@,
            ) matches Ok(f) && holds_the_images(f, b@, g@, c@, *opts) && (has_tone_map(opts.flavor)
                ==> declares_hdr(f, b@, *opts)) && carries_the_metadata(f, *opts)
                && carries_the_packet(f, *meta, *opts) && (has_tone_map(opts.flavor) && violation(
                *meta,
            ) is None && needs_no_sign(*meta) ==> states_the_gain(f, *meta))),
{
    assert(engine_may_answer(&engine.0, base, gain, *meta, *opts, Ok(v)));
    let (b, g, c) = choose|b: CodedImage, g: CodedImage, c: ColourInfo|
        #![trigger
            base_may_be(&engine.0, base, opts.base_quality, Ok(b)),
            gain_may_be(&engine.0, gain, opts.gain_quality, Ok(g)),
            colour_may_be(&engine.0, opts.primaries, c)
        ]
        base_may_be(&engine.0, base, opts.base_quality, Ok(b)) && gain_may_be(
            &engine.0,
            gain,
            opts.gain_quality,
            Ok(g),
        ) && colour_may_be(&engine.0, opts.primaries, c) && is_assembled(
            b@,
            g@,
            c@,
            *meta,
            *opts,
            Ok(v),
        );
    lemma_pictures(b@, g@, c@, *meta, *opts);
    lemma_metadata(b@, g@, c@, *meta, *opts, v);
    lemma_packet(b@, g@, c@, *meta, *opts, v);
    if has_tone_map(opts.flavor) && violation(*meta) is None && needs_no_sign(*meta) {
        lemma_gain(b@, g@, c@, *meta, *opts, v);
    }
    assert(call_ensures(C::encode_base, (&engine.0, base, opts.base_quality), Ok(b)));
    assert(call_ensures(C::encode_gain, (&engine.0, gain, opts.gain_quality), Ok(g)));
    assert(call_ensures(C::base_colour, (&engine.0, opts.primaries), c));
}

} // verus!
