//! Gain-map HEIC muxer: [`mux`].
//!
//! A file is three boxes: `ftyp`, `meta` and `mdat`. The two coded images lie in
//! `mdat`; every other item's data (the tone-map payload, Exif, XMP, copied items)
//! lies in `idat` inside `meta`, one after the other. `iloc` states the offsets:
//! file-absolute ones for the images, which depend on the size of everything before
//! `mdat`, and `idat`-relative ones for the rest.

use vstd::prelude::*;
use vstd::utf8::encode_utf8;

use crate::bytes::{
    be16_bytes, be32_bytes, get_be32, group_encoded_lengths, push_all, push_be16, push_be32,
    to_owned_bytes,
};
use crate::encode::Flavor;
use crate::heif::boxes::{
    Chunk, body_fits, box_bytes, chunk_bytes, lemma_chunk_is_smaller, lemma_chunk_push,
    push_box,
};
use crate::heif::model::{
    ALTR, AUXC, AUXL, CDSC, CLLI, COLR, ColourView, DIMG, EXIF, FTYP, GRPL, HDLR, HVC1, HVCC,
    IDAT, IINF, ILOC, IMIR, INFE, IPCO, IPMA, IPRP, IREF, IROT, ISPE, MDAT, META, MIME, NCLX,
    PICT, PITM, PIXI, PROF, TMAP, URI, body, targets,
};
use crate::heif::{
    Association, Chroma, CodedImage, CodedView, ColourInfo, Error, Unsupported, APPLE_GAINMAP_URN,
};
use crate::iso21496;
use crate::meta::GainMapMeta;
use crate::opaque::{OpaqueItem, OpaqueView};
use crate::orient::HeifTransform;

verus! {

broadcast use group_encoded_lengths;

pub const HEIC: u32 = 0x68656963;

pub const MIF1: u32 = 0x6d696631;

pub const MIAF: u32 = 0x6d696166;

/// Everything needed to write a gain-map HEIC.
#[derive(Clone, Debug)]
pub struct MuxRequest {
    /// The SDR base, which becomes the primary item.
    pub base: CodedImage,
    /// The gain map. Typically half the base's resolution and monochrome.
    pub gain: CodedImage,
    pub meta: GainMapMeta,
    pub flavor: Flavor,
    pub base_colour: Option<ColourInfo>,
    /// Colour info for the `tmap` item, describing the *reconstructed* HDR image
    /// rather than the SDR base.
    pub tmap_colour: Option<ColourInfo>,
    /// Exif payload for an `Exif` item, without the leading 4-byte tiff-header
    /// offset (which is written here).
    pub exif: Option<Vec<u8>>,
    /// XMP packet for a `mime` item.
    pub xmp: Option<Vec<u8>>,
    /// Non-image metadata items copied through from a source untouched, each
    /// getting an `infe`, an `idat` extent and a `cdsc` reference to the base and
    /// `tmap`: the same treatment as `Exif` and XMP, because it is the same
    /// relationship: bytes that describe this photograph.
    pub extra_items: Vec<OpaqueItem>,
    /// `clli` content light level: (max content light level, max frame-average).
    pub clli: Option<(u16, u16)>,
    /// How the stored pixels have to be transformed for display, from the
    /// source's Exif `Orientation`. Applied to *every* image item: the base, the
    /// gain map and the `tmap` are spatially aligned, and a transform on one but
    /// not the others would misregister the map against the image it corrects.
    pub orientation: HeifTransform,
}

/// A request, its images, texts and bytes as sequences.
pub struct MuxView {
    pub base: CodedView,
    pub gain: CodedView,
    pub meta: GainMapMeta,
    pub flavor: Flavor,
    pub base_colour: Option<ColourView>,
    pub tmap_colour: Option<ColourView>,
    pub exif: Option<Seq<u8>>,
    pub xmp: Option<Seq<u8>>,
    pub extra_items: Seq<OpaqueView>,
    pub clli: Option<(u16, u16)>,
    pub orientation: HeifTransform,
}

pub open spec fn opt_bytes(v: Option<Vec<u8>>) -> Option<Seq<u8>> {
    match v {
        Some(b) => Some(b@),
        None => None,
    }
}

pub open spec fn opt_colour(c: Option<ColourInfo>) -> Option<ColourView> {
    match c {
        Some(x) => Some(x@),
        None => None,
    }
}

impl View for MuxRequest {
    type V = MuxView;

    open spec fn view(&self) -> MuxView {
        MuxView {
            base: self.base@,
            gain: self.gain@,
            meta: self.meta,
            flavor: self.flavor,
            base_colour: opt_colour(self.base_colour),
            tmap_colour: opt_colour(self.tmap_colour),
            exif: opt_bytes(self.exif),
            xmp: opt_bytes(self.xmp),
            extra_items: crate::heif::views(self.extra_items@),
            clli: self.clli,
            orientation: self.orientation,
        }
    }
}

/// An item whose data lies in `idat`: what its `infe` says, and its bytes.
pub struct Stored {
    pub kind: u32,
    pub hidden: bool,
    pub name: Seq<u8>,
    /// What follows the name in `infe`: the content type or URI type with its
    /// terminating zero, for the item types that have one.
    pub tail: Seq<u8>,
    pub data: Seq<u8>,
}

/// Zero-terminated text.
pub open spec fn terminated(text: Seq<u8>) -> Seq<u8> {
    text + seq![0u8]
}

/// The MIME type an XMP packet is stored under.
pub open spec fn xmp_type() -> Seq<u8> {
    encode_utf8("application/rdf+xml"@)
}

/// The tail of an item copied through from a source.
pub open spec fn tail_of(x: OpaqueView) -> Seq<u8> {
    if x.kind == MIME {
        terminated(
            match x.content_type {
                Some(t) => encode_utf8(t),
                None => encode_utf8("application/octet-stream"@),
            },
        )
    } else if x.kind == URI {
        terminated(
            match x.uri_type {
                Some(t) => encode_utf8(t),
                None => seq![],
            },
        )
    } else {
        seq![]
    }
}

/// An item copied through from a source, as it is stored.
pub open spec fn stored_of(x: OpaqueView) -> Stored {
    Stored {
        kind: x.kind,
        hidden: x.hidden,
        name: encode_utf8(x.name),
        tail: tail_of(x),
        data: x.data,
    }
}

/// The tone-map item: the `ToneMapImage` version byte, then the C.2.2 payload.
pub open spec fn tmap_stored(q: MuxView) -> Seq<Stored> {
    if q.flavor.iso() {
        seq![
            Stored {
                kind: TMAP,
                hidden: false,
                name: seq![],
                tail: seq![],
                data: seq![0u8] + iso21496::serialized(q.meta),
            },
        ]
    } else {
        seq![]
    }
}

/// The Exif item: a zero `exif_tiff_header_offset`, then the block.
pub open spec fn exif_stored(q: MuxView) -> Seq<Stored> {
    match q.exif {
        Some(b) => seq![
            Stored {
                kind: EXIF,
                hidden: true,
                name: seq![],
                tail: seq![],
                data: be32_bytes(0) + b,
            },
        ],
        None => seq![],
    }
}

/// The XMP item.
pub open spec fn xmp_stored(q: MuxView) -> Seq<Stored> {
    match q.xmp {
        Some(b) => seq![
            Stored {
                kind: MIME,
                hidden: true,
                name: seq![],
                tail: terminated(xmp_type()),
                data: b,
            },
        ],
        None => seq![],
    }
}

/// Every item whose data lies in `idat`, in the order of their identifiers, which
/// start at 3.
pub open spec fn stored(q: MuxView) -> Seq<Stored> {
    tmap_stored(q) + exif_stored(q) + xmp_stored(q) + Seq::new(
        q.extra_items.len(),
        |i: int| stored_of(q.extra_items[i]),
    )
}

/// The first `n` items' data, one after the other.
pub open spec fn joined(items: Seq<Stored>, n: int) -> Seq<u8>
    decreases n,
{
    if n <= 0 {
        seq![]
    } else {
        joined(items, n - 1) + items[n - 1].data
    }
}

/// An `infe` payload, version 2.
pub open spec fn infe_body(
    id: u16,
    kind: u32,
    hidden: bool,
    name: Seq<u8>,
    tail: Seq<u8>,
) -> Seq<u8> {
    seq![
        2u8,
        0u8,
        0u8,
        if hidden {
            1u8
        } else {
            0u8
        },
    ] + be16_bytes(id) + be16_bytes(0) + be32_bytes(kind) + terminated(name) + tail
}

/// The `infe` of a stored item.
pub open spec fn stored_infe(items: Seq<Stored>, i: int) -> Chunk {
    let x = items[i];
    Chunk { kind: INFE, body: infe_body((3 + i) as u16, x.kind, x.hidden, x.name, x.tail) }
}

/// The `infe` boxes of the two images and the first `n` stored items.
pub open spec fn infe_chunks(items: Seq<Stored>, n: int) -> Seq<Chunk> {
    seq![
        Chunk { kind: INFE, body: infe_body(1, HVC1, false, seq![], seq![]) },
        Chunk { kind: INFE, body: infe_body(2, HVC1, true, seq![], seq![]) },
    ] + Seq::new(n as nat, |i: int| stored_infe(items, i))
}

pub open spec fn zeros4() -> Seq<u8> {
    seq![0u8, 0u8, 0u8, 0u8]
}

pub open spec fn iinf_body(q: MuxView) -> Seq<u8> {
    let n = stored(q).len() as int;
    zeros4() + be16_bytes((2 + n) as u16) + chunk_bytes(infe_chunks(stored(q), n))
}

/// Item identifiers, written 16 bits each.
pub open spec fn ids_bytes(ids: Seq<u16>) -> Seq<u8>
    decreases ids.len(),
{
    if ids.len() == 0 {
        seq![]
    } else {
        ids_bytes(ids.drop_last()) + be16_bytes(ids.last())
    }
}

/// One reference, as a child of `iref`.
pub open spec fn ref_chunk(kind: u32, from: u16, to: Seq<u16>) -> Chunk {
    Chunk { kind, body: be16_bytes(from) + be16_bytes(to.len() as u16) + ids_bytes(to) }
}

/// What metadata describes: the base, and the tone-mapped image where there is one.
pub open spec fn described(q: MuxView) -> Seq<u16> {
    if q.flavor.iso() {
        seq![1u16, 3u16]
    } else {
        seq![1u16]
    }
}

/// The position of the first stored item that describes the photograph.
pub open spec fn first_describing(q: MuxView) -> int {
    if q.flavor.iso() {
        1
    } else {
        0
    }
}

/// The references between images.
pub open spec fn image_refs(q: MuxView) -> Seq<Chunk> {
    (if q.flavor.apple() {
        seq![ref_chunk(AUXL, 2, seq![1u16])]
    } else {
        seq![]
    }) + (if q.flavor.iso() {
        seq![ref_chunk(DIMG, 3, seq![1u16, 2u16])]
    } else {
        seq![]
    })
}

/// The references of the stored items from the first describing one up to `n`.
pub open spec fn describing_refs(q: MuxView, n: int) -> Seq<Chunk> {
    let k = first_describing(q);
    Seq::new((n - k) as nat, |i: int| ref_chunk(CDSC, (3 + k + i) as u16, described(q)))
}

pub open spec fn iref_body(q: MuxView) -> Seq<u8> {
    zeros4() + chunk_bytes(image_refs(q) + describing_refs(q, stored(q).len() as int))
}

pub open spec fn ispe_chunk(w: u32, h: u32) -> Chunk {
    Chunk { kind: ISPE, body: zeros4() + be32_bytes(w) + be32_bytes(h) }
}

/// How many channels a `pixi` box lists.
pub open spec fn channels(c: Chroma) -> u8 {
    if c is Monochrome {
        1
    } else {
        3
    }
}

pub open spec fn pixi_bits(c: Chroma, depth: u8) -> Seq<u8> {
    if c is Monochrome {
        seq![depth]
    } else {
        seq![depth, depth, depth]
    }
}

pub open spec fn pixi_chunk(c: Chroma, depth: u8) -> Chunk {
    Chunk { kind: PIXI, body: zeros4() + seq![channels(c)] + pixi_bits(c, depth) }
}

/// A `colr` box is not a full box: the colour type sits at its start.
pub open spec fn colr_chunk(c: ColourView) -> Chunk {
    Chunk {
        kind: COLR,
        body: match c {
            ColourView::Nclx { primaries, transfer, matrix, full_range } => be32_bytes(NCLX)
                + be16_bytes(primaries) + be16_bytes(transfer) + be16_bytes(matrix) + seq![
                if full_range {
                    0x80u8
                } else {
                    0u8
                },
            ],
            ColourView::Icc(b) => be32_bytes(PROF) + b,
        },
    }
}

pub open spec fn auxc_chunk() -> Chunk {
    Chunk { kind: AUXC, body: zeros4() + terminated(encode_utf8(APPLE_GAINMAP_URN@)) }
}

pub open spec fn opt_colr(c: Option<ColourView>) -> Seq<Chunk> {
    match c {
        Some(x) => seq![colr_chunk(x)],
        None => seq![],
    }
}

/// The properties of one coded image: size, channels, decoder configuration.
pub open spec fn image_props(i: CodedView) -> Seq<Chunk> {
    seq![
        ispe_chunk(i.width, i.height),
        pixi_chunk(i.chroma, i.bit_depth),
        Chunk { kind: HVCC, body: i.hvcc },
    ]
}

pub open spec fn base_props(q: MuxView) -> Seq<Chunk> {
    image_props(q.base) + opt_colr(q.base_colour)
}

pub open spec fn gain_props(q: MuxView) -> Seq<Chunk> {
    image_props(q.gain) + (if q.flavor.apple() {
        seq![auxc_chunk()]
    } else {
        seq![]
    })
}

/// Every image item, derived ones included, carries a size.
pub open spec fn tmap_props(q: MuxView) -> Seq<Chunk> {
    if q.flavor.iso() {
        seq![ispe_chunk(q.base.width, q.base.height)] + opt_colr(q.tmap_colour)
    } else {
        seq![]
    }
}

pub open spec fn clli_props(q: MuxView) -> Seq<Chunk> {
    match q.clli {
        Some(c) => seq![Chunk { kind: CLLI, body: be16_bytes(c.0) + be16_bytes(c.1) }],
        None => seq![],
    }
}

/// The transform, rotation before mirror. Shared by every image item.
pub open spec fn turn_props(q: MuxView) -> Seq<Chunk> {
    (if q.orientation.rotate_ccw_quarters != 0 {
        seq![Chunk { kind: IROT, body: seq![q.orientation.rotate_ccw_quarters] }]
    } else {
        seq![]
    }) + (match q.orientation.mirror_axis {
        Some(a) => seq![Chunk { kind: IMIR, body: seq![a] }],
        None => seq![],
    })
}

/// Where the gain map's properties start.
pub open spec fn gain_at(q: MuxView) -> int {
    base_props(q).len() as int
}

/// Where the tone map's properties start.
pub open spec fn tmap_at(q: MuxView) -> int {
    gain_at(q) + gain_props(q).len()
}

/// Where the content light level is.
pub open spec fn clli_at(q: MuxView) -> int {
    tmap_at(q) + tmap_props(q).len()
}

/// Where the transform is.
pub open spec fn turn_at(q: MuxView) -> int {
    clli_at(q) + clli_props(q).len()
}

/// Every property, in order.
#[verifier::opaque]
pub open spec fn all_props(q: MuxView) -> Seq<Chunk> {
    base_props(q) + gain_props(q) + tmap_props(q) + clli_props(q) + turn_props(q)
}

pub open spec fn assoc(position: int, essential: bool) -> Association {
    Association { index: (position + 1) as u16, essential }
}

/// The transform's associations, essential because ignoring them shows the image
/// the wrong way up.
pub open spec fn turn_list(q: MuxView) -> Seq<Association> {
    Seq::new(turn_props(q).len(), |i: int| assoc(turn_at(q) + i, true))
}

/// One image's size and channels, which restate what the bitstream says, and its
/// decoder configuration.
pub open spec fn image_list(at: int) -> Seq<Association> {
    seq![assoc(at, false), assoc(at + 1, false), assoc(at + 2, true)]
}

pub open spec fn base_list(q: MuxView) -> Seq<Association> {
    image_list(0) + (if q.base_colour is Some {
        seq![assoc(3, true)]
    } else {
        seq![]
    }) + (if q.clli is Some {
        seq![assoc(clli_at(q), false)]
    } else {
        seq![]
    }) + turn_list(q)
}

pub open spec fn gain_list(q: MuxView) -> Seq<Association> {
    image_list(gain_at(q)) + (if q.flavor.apple() {
        seq![assoc(gain_at(q) + 3, true)]
    } else {
        seq![]
    }) + turn_list(q)
}

pub open spec fn tmap_list(q: MuxView) -> Seq<Association> {
    seq![assoc(tmap_at(q), false)] + (if q.tmap_colour is Some {
        seq![assoc(tmap_at(q) + 1, true)]
    } else {
        seq![]
    }) + turn_list(q)
}

/// Associations, one byte each.
pub open spec fn list_bytes(list: Seq<Association>) -> Seq<u8> {
    Seq::new(
        list.len(),
        |i: int|
            (list[i].index % 0x80 + if list[i].essential {
                0x80int
            } else {
                0
            }) as u8,
    )
}

/// One entry of `ipma`.
pub open spec fn ipma_entry(id: u16, list: Seq<Association>) -> Seq<u8> {
    be16_bytes(id) + seq![list.len() as u8] + list_bytes(list)
}

/// The associations of every image item, by ascending identifier.
#[verifier::opaque]
pub open spec fn ipma_body(q: MuxView) -> Seq<u8> {
    zeros4() + be32_bytes(
        if q.flavor.iso() {
            3
        } else {
            2
        },
    ) + ipma_entry(1, base_list(q)) + ipma_entry(2, gain_list(q)) + (if q.flavor.iso() {
        ipma_entry(3, tmap_list(q))
    } else {
        seq![]
    })
}

pub open spec fn iprp_chunks(q: MuxView) -> Seq<Chunk> {
    seq![
        Chunk { kind: IPCO, body: chunk_bytes(all_props(q)) },
        Chunk { kind: IPMA, body: ipma_body(q) },
    ]
}

/// One entry of `iloc`: identifier, construction method, this file, one extent.
pub open spec fn iloc_entry(id: u16, method: u16, offset: u32, length: u32) -> Seq<u8> {
    be16_bytes(id) + be16_bytes(method) + be16_bytes(0) + be16_bytes(1) + be32_bytes(offset)
        + be32_bytes(length)
}

/// The `iloc` entries of the first `n` stored items.
pub open spec fn iloc_stored(items: Seq<Stored>, n: int) -> Seq<u8>
    decreases n,
{
    if n <= 0 {
        seq![]
    } else {
        iloc_stored(items, n - 1) + iloc_entry(
            (2 + n) as u16,
            1,
            joined(items, n - 1).len() as u32,
            items[n - 1].data.len() as u32,
        )
    }
}

/// The `iloc` payload of a file whose `mdat` payload starts at `mdat`.
#[verifier::opaque]
pub open spec fn iloc_body(q: MuxView, mdat: int) -> Seq<u8> {
    let n = stored(q).len() as int;
    seq![1u8, 0u8, 0u8, 0u8, 0x44u8, 0u8] + be16_bytes((2 + n) as u16) + iloc_entry(
        1,
        0,
        mdat as u32,
        q.base.data.len() as u32,
    ) + iloc_entry(2, 0, (mdat + q.base.data.len()) as u32, q.gain.data.len() as u32) + iloc_stored(
        stored(q),
        n,
    )
}

pub open spec fn hdlr_body() -> Seq<u8> {
    zeros4() + be32_bytes(0) + be32_bytes(PICT) + zeros4() + zeros4() + zeros4() + seq![0u8]
}

pub open spec fn pitm_body() -> Seq<u8> {
    zeros4() + be16_bytes(1)
}

/// The preference of the tone-mapped image over the base. Its group identifier is
/// the first number no item has.
pub open spec fn altr_chunk(q: MuxView) -> Chunk {
    Chunk {
        kind: ALTR,
        body: zeros4() + be32_bytes((3 + stored(q).len()) as u32) + be32_bytes(2) + be32_bytes(3)
            + be32_bytes(1),
    }
}

pub open spec fn grpl_chunks(q: MuxView) -> Seq<Chunk> {
    if q.flavor.iso() {
        seq![Chunk { kind: GRPL, body: chunk_bytes(seq![altr_chunk(q)]) }]
    } else {
        seq![]
    }
}

pub open spec fn idat_chunks(q: MuxView) -> Seq<Chunk> {
    let data = joined(stored(q), stored(q).len() as int);
    if data.len() > 0 {
        seq![Chunk { kind: IDAT, body: data }]
    } else {
        seq![]
    }
}

/// The children of `meta` before `iloc`.
#[verifier::opaque]
pub open spec fn early_children(q: MuxView) -> Seq<Chunk> {
    seq![
        Chunk { kind: HDLR, body: hdlr_body() },
        Chunk { kind: PITM, body: pitm_body() },
        Chunk { kind: IINF, body: iinf_body(q) },
        Chunk { kind: IREF, body: iref_body(q) },
        Chunk { kind: IPRP, body: chunk_bytes(iprp_chunks(q)) },
    ] + grpl_chunks(q) + idat_chunks(q)
}

/// The children of `meta` in a file whose `mdat` payload starts at `mdat`.
pub open spec fn meta_children(q: MuxView, mdat: int) -> Seq<Chunk> {
    early_children(q).push(Chunk { kind: ILOC, body: iloc_body(q, mdat) })
}

pub open spec fn ftyp_body(q: MuxView) -> Seq<u8> {
    be32_bytes(HEIC) + be32_bytes(0) + be32_bytes(MIF1) + be32_bytes(HEIC) + be32_bytes(MIAF) + (
    if q.flavor.iso() {
        be32_bytes(TMAP)
    } else {
        seq![]
    })
}

/// Where the `mdat` payload starts: behind `ftyp`, `meta` and the header of `mdat`
/// itself. `iloc` is as long whatever offsets it states.
pub open spec fn mdat_start(q: MuxView) -> int {
    (8 + ftyp_body(q).len() + 12 + chunk_bytes(early_children(q)).len() + 8 + iloc_body(
        q,
        0,
    ).len() + 8) as int
}

/// The three boxes of a file.
pub open spec fn top_chunks(q: MuxView) -> Seq<Chunk> {
    seq![
        Chunk { kind: FTYP, body: ftyp_body(q) },
        Chunk { kind: META, body: zeros4() + chunk_bytes(meta_children(q, mdat_start(q))) },
        Chunk { kind: MDAT, body: q.base.data + q.gain.data },
    ]
}

/// The file a request makes.
pub open spec fn mux_bytes(q: MuxView) -> Seq<u8> {
    chunk_bytes(top_chunks(q))
}

/// Whether a file can state the request: its size in 32 bits, and its item
/// identifiers in 16.
pub open spec fn writable(q: MuxView) -> bool {
    stored(q).len() <= 0xffff - 2 && mux_bytes(q).len() <= u32::MAX
}

/// An item whose data lies in `idat`.
struct StoredItem {
    kind: u32,
    hidden: bool,
    name: Vec<u8>,
    tail: Vec<u8>,
    data: Vec<u8>,
}

impl View for StoredItem {
    type V = Stored;

    closed spec fn view(&self) -> Stored {
        Stored {
            kind: self.kind,
            hidden: self.hidden,
            name: self.name@,
            tail: self.tail@,
            data: self.data@,
        }
    }
}

/// Text as UTF-8, with a terminating zero.
fn terminated_text(text: &str) -> (v: Vec<u8>)
    ensures
        v@ == terminated(encode_utf8(text@)),
{
    let mut v = to_owned_bytes(text.as_bytes());
    v.push(0);
    assert(v@ =~= terminated(encode_utf8(text@)));
    v
}

/// What follows the name in an opaque item's `infe`.
fn opaque_tail(x: &OpaqueItem) -> (v: Vec<u8>)
    ensures
        v@ == tail_of(x@),
{
    let kind: u32 = get_be32(vstd::array::array_as_slice(&x.item_type), 0);
    if kind == MIME {
        match &x.content_type {
            Some(t) => terminated_text(t.as_str()),
            None => terminated_text("application/octet-stream"),
        }
    } else if kind == URI {
        match &x.uri_type {
            Some(t) => terminated_text(t.as_str()),
            None => {
                let v: Vec<u8> = vec![0];
                assert(v@ =~= terminated(seq![]));
                v
            },
        }
    } else {
        Vec::new()
    }
}

fn opaque_stored(x: &OpaqueItem) -> (s: StoredItem)
    ensures
        s@ == stored_of(x@),
{
    StoredItem {
        kind: get_be32(vstd::array::array_as_slice(&x.item_type), 0),
        hidden: x.hidden,
        name: to_owned_bytes(x.name.as_str().as_bytes()),
        tail: opaque_tail(x),
        data: to_owned_bytes(x.data.as_slice()),
    }
}

/// Every item whose data lies in `idat`.
fn stored_items(req: &MuxRequest) -> (v: Vec<StoredItem>)
    ensures
        crate::heif::views(v@) == stored(req@),
{
    let ghost q = req@;
    let mut v: Vec<StoredItem> = Vec::new();
    if req.flavor.writes_iso() {
        let mut data: Vec<u8> = vec![0];
        let payload = iso21496::serialize(&req.meta);
        push_all(&mut data, payload.as_slice());
        assert(data@ =~= seq![0u8] + iso21496::serialized(q.meta));
        let x = StoredItem {
            kind: TMAP,
            hidden: false,
            name: Vec::new(),
            tail: Vec::new(),
            data,
        };
        assert(x@.name =~= seq![] && x@.tail =~= seq![]);
        v.push(x);
    }
    assert(crate::heif::views(v@) =~= tmap_stored(q));
    match &req.exif {
        Some(b) => {
            let mut data: Vec<u8> = Vec::new();
            push_be32(&mut data, 0);
            push_all(&mut data, b.as_slice());
            assert(data@ =~= be32_bytes(0) + b@);
            let x = StoredItem {
                kind: EXIF,
                hidden: true,
                name: Vec::new(),
                tail: Vec::new(),
                data,
            };
            assert(x@.name =~= seq![] && x@.tail =~= seq![]);
            v.push(x);
        },
        None => {},
    }
    assert(crate::heif::views(v@) =~= tmap_stored(q) + exif_stored(q));
    match &req.xmp {
        Some(b) => {
            let x = StoredItem {
                kind: MIME,
                hidden: true,
                name: Vec::new(),
                tail: terminated_text("application/rdf+xml"),
                data: to_owned_bytes(b.as_slice()),
            };
            assert(x@.name =~= seq![]);
            v.push(x);
        },
        None => {},
    }
    let ghost front = tmap_stored(q) + exif_stored(q) + xmp_stored(q);
    assert(crate::heif::views(v@) =~= front);
    let mut i: usize = 0;
    while i < req.extra_items.len()
        invariant
            i <= req.extra_items@.len(),
            q == req@,
            crate::heif::views(v@) =~= front + Seq::new(
                i as nat,
                |k: int| stored_of(q.extra_items[k]),
            ),
        decreases req.extra_items@.len() - i,
    {
        assert(q.extra_items[i as int] == req.extra_items@[i as int]@);
        let x = opaque_stored(&req.extra_items[i]);
        let ghost before = v@;
        v.push(x);
        proof {
            assert(crate::heif::views(v@) =~= crate::heif::views(before).push(x@));
            let done = Seq::new(i as nat, |k: int| stored_of(q.extra_items[k]));
            let more = Seq::new((i + 1) as nat, |k: int| stored_of(q.extra_items[k]));
            assert(more =~= done.push(x@));
            assert((front + done).push(x@) =~= front + more);
        }
        i = i + 1;
    }
    assert(crate::heif::views(v@) =~= stored(q));
    v
}

fn push_zeros4(buf: &mut Vec<u8>)
    ensures
        final(buf)@ == old(buf)@ + zeros4(),
{
    buf.push(0);
    buf.push(0);
    buf.push(0);
    buf.push(0);
    assert(buf@ =~= old(buf)@ + zeros4());
}

fn make_infe(id: u16, kind: u32, hidden: bool, name: &[u8], tail: &[u8]) -> (b: Vec<u8>)
    ensures
        b@ == infe_body(id, kind, hidden, name@, tail@),
{
    let flag: u8 = if hidden {
        1
    } else {
        0
    };
    let mut b: Vec<u8> = vec![2, 0, 0, flag];
    push_be16(&mut b, id);
    push_be16(&mut b, 0);
    push_be32(&mut b, kind);
    push_all(&mut b, name);
    b.push(0);
    push_all(&mut b, tail);
    assert(b@ =~= infe_body(id, kind, hidden, name@, tail@));
    b
}

/// The largest payload a box header can state.
pub const MAX_BODY: usize = 0xffff_fff7;

/// Appends a box if its size can be stated.
fn put_box(buf: &mut Vec<u8>, kind: u32, body: &[u8]) -> (ok: bool)
    ensures
        ok == body_fits(body@),
        ok ==> final(buf)@ == old(buf)@ + box_bytes(kind, body@),
{
    if body.len() > MAX_BODY {
        return false;
    }
    push_box(buf, kind, body);
    true
}

/// The `iinf` payload, unless one of its boxes is too large to state.
fn make_iinf(items: &Vec<StoredItem>) -> (r: Option<Vec<u8>>)
    requires
        items@.len() <= 0xffff - 2,
    ensures
        ({
            let xs = crate::heif::views(items@);
            let chunks = infe_chunks(xs, xs.len() as int);
            match r {
                Some(b) => b@ == zeros4() + be16_bytes((2 + xs.len()) as u16) + chunk_bytes(chunks),
                None => exists|i: int|
                    0 <= i < chunks.len() && !body_fits((#[trigger] chunks[i]).body),
            }
        }),
{
    let ghost xs = crate::heif::views(items@);
    let n: usize = items.len();
    let mut b: Vec<u8> = Vec::new();
    push_zeros4(&mut b);
    push_be16(&mut b, (2 + n) as u16);
    let ghost head = b@;
    let empty: Vec<u8> = Vec::new();
    let base = make_infe(1, HVC1, false, empty.as_slice(), empty.as_slice());
    let gain = make_infe(2, HVC1, true, empty.as_slice(), empty.as_slice());
    assert(empty@ =~= seq![]);
    push_box(&mut b, INFE, base.as_slice());
    push_box(&mut b, INFE, gain.as_slice());
    proof {
        let two = infe_chunks(xs, 0);
        let none = Seq::<Chunk>::empty();
        lemma_chunk_push(none, two[0]);
        lemma_chunk_push(none.push(two[0]), two[1]);
        assert(two =~= none.push(two[0]).push(two[1]));
        assert(b@ =~= head + chunk_bytes(two));
        assert(head =~= zeros4() + be16_bytes((2 + n) as u16));
    }
    let mut i: usize = 0;
    while i < n
        invariant
            i <= n,
            n == items@.len(),
            n <= 0xffff - 2,
            xs == crate::heif::views(items@),
            head == zeros4() + be16_bytes((2 + n) as u16),
            b@ == head + chunk_bytes(infe_chunks(xs, i as int)),
        decreases n - i,
    {
        let x = &items[i];
        assert(xs[i as int] == x@);
        let body = make_infe(
            (3 + i) as u16,
            x.kind,
            x.hidden,
            x.name.as_slice(),
            x.tail.as_slice(),
        );
        let ghost c = stored_infe(xs, i as int);
        assert(body@ == c.body);
        let ghost before = b@;
        if !put_box(&mut b, INFE, body.as_slice()) {
            proof {
                let chunks = infe_chunks(xs, xs.len() as int);
                assert(chunks[2 + i] == c);
            }
            return None;
        }
        proof {
            let old_chunks = infe_chunks(xs, i as int);
            lemma_chunk_push(old_chunks, c);
            assert(infe_chunks(xs, i + 1) =~= old_chunks.push(c));
            assert(b@ =~= head + chunk_bytes(infe_chunks(xs, i + 1)));
        }
        i = i + 1;
    }
    Some(b)
}

/// Item identifiers, written 16 bits each.
fn push_ids(buf: &mut Vec<u8>, ids: &Vec<u16>)
    ensures
        final(buf)@ == old(buf)@ + ids_bytes(ids@),
{
    let ghost start = buf@;
    let mut i: usize = 0;
    assert(ids@.take(0) =~= seq![]);
    assert(buf@ =~= start + ids_bytes(ids@.take(0)));
    while i < ids.len()
        invariant
            i <= ids@.len(),
            buf@ == start + ids_bytes(ids@.take(i as int)),
        decreases ids@.len() - i,
    {
        proof {
            let t = ids@.take(i + 1);
            assert(t.drop_last() =~= ids@.take(i as int));
            assert(t.last() == ids@[i as int]);
            assert(start + (ids_bytes(ids@.take(i as int)) + be16_bytes(ids@[i as int])) =~= start
                + ids_bytes(ids@.take(i as int)) + be16_bytes(ids@[i as int]));
        }
        push_be16(buf, ids[i]);
        i = i + 1;
    }
    assert(ids@.take(ids@.len() as int) =~= ids@);
}

pub(crate) proof fn lemma_ids_len(ids: Seq<u16>)
    ensures
        ids_bytes(ids).len() == 2 * ids.len(),
    decreases ids.len(),
{
    if ids.len() > 0 {
        lemma_ids_len(ids.drop_last());
    }
}

/// Appends one reference.
fn push_ref(buf: &mut Vec<u8>, kind: u32, from: u16, to: &Vec<u16>)
    requires
        to@.len() <= 2,
    ensures
        final(buf)@ == old(buf)@ + box_bytes(kind, ref_chunk(kind, from, to@).body),
{
    let mut b: Vec<u8> = Vec::new();
    push_be16(&mut b, from);
    push_be16(&mut b, to.len() as u16);
    push_ids(&mut b, to);
    assert(b@ =~= ref_chunk(kind, from, to@).body);
    proof {
        lemma_ids_len(to@);
    }
    push_box(buf, kind, b.as_slice());
}

/// The `iref` payload.
fn make_iref(flavor: Flavor, n: usize, Ghost(q): Ghost<MuxView>) -> (b: Vec<u8>)
    requires
        q.flavor == flavor,
        n == stored(q).len(),
        n <= 0xffff - 2,
        first_describing(q) <= n,
    ensures
        b@ == iref_body(q),
{
    let mut b: Vec<u8> = Vec::new();
    push_zeros4(&mut b);
    assert(b@ =~= zeros4());
    let ghost mut done: Seq<Chunk> = seq![];
    assert(b@ =~= zeros4() + chunk_bytes(done));
    let base: Vec<u16> = vec![1];
    assert(base@ =~= seq![1u16]);
    if flavor.writes_apple() {
        push_ref(&mut b, AUXL, 2, &base);
        proof {
            let c = ref_chunk(AUXL, 2, seq![1u16]);
            lemma_chunk_push(done, c);
            assert(b@ =~= zeros4() + chunk_bytes(done.push(c)));
            done = done.push(c);
        }
    }
    let mut targets: Vec<u16> = vec![1];
    let mut k: usize = 0;
    if flavor.writes_iso() {
        let both: Vec<u16> = vec![1, 2];
        assert(both@ =~= seq![1u16, 2u16]);
        push_ref(&mut b, DIMG, 3, &both);
        proof {
            let c = ref_chunk(DIMG, 3, seq![1u16, 2u16]);
            lemma_chunk_push(done, c);
            assert(b@ =~= zeros4() + chunk_bytes(done.push(c)));
            done = done.push(c);
        }
        targets.push(3);
        k = 1;
    }
    assert(targets@ =~= described(q));
    assert(done =~= image_refs(q));
    assert(done =~= image_refs(q) + describing_refs(q, k as int));
    let mut i: usize = k;
    while i < n
        invariant
            k <= i <= n,
            k == first_describing(q),
            n <= 0xffff - 2,
            targets@ == described(q),
            targets@.len() <= 2,
            done == image_refs(q) + describing_refs(q, i as int),
            b@ == zeros4() + chunk_bytes(done),
        decreases n - i,
    {
        push_ref(&mut b, CDSC, (3 + i) as u16, &targets);
        proof {
            let c = ref_chunk(CDSC, (3 + i) as u16, described(q));
            lemma_chunk_push(done, c);
            assert(b@ =~= zeros4() + chunk_bytes(done.push(c)));
            assert(describing_refs(q, i + 1) =~= describing_refs(q, i as int).push(c));
            assert(done.push(c) =~= image_refs(q) + describing_refs(q, i + 1));
            done = done.push(c);
        }
        i = i + 1;
    }
    b
}

/// Appends one image's size, channels and decoder configuration, unless the last is
/// too large to state.
fn put_image_props(buf: &mut Vec<u8>, i: &CodedImage, Ghost(done): Ghost<Seq<Chunk>>) -> (ok: bool)
    requires
        old(buf)@ == chunk_bytes(done),
    ensures
        ok == body_fits(i.hvcc@),
        ok ==> final(buf)@ == chunk_bytes(done + image_props(i@)),
{
    let ghost cs = image_props(i@);
    let mut b: Vec<u8> = Vec::new();
    push_zeros4(&mut b);
    push_be32(&mut b, i.width);
    push_be32(&mut b, i.height);
    assert(b@ =~= cs[0].body);
    push_box(buf, ISPE, b.as_slice());
    let mut p: Vec<u8> = Vec::new();
    push_zeros4(&mut p);
    match i.chroma {
        Chroma::Monochrome => {
            p.push(1);
            p.push(i.bit_depth);
        },
        _ => {
            p.push(3);
            p.push(i.bit_depth);
            p.push(i.bit_depth);
            p.push(i.bit_depth);
        },
    }
    assert(p@ =~= cs[1].body);
    push_box(buf, PIXI, p.as_slice());
    proof {
        lemma_chunk_push(done, cs[0]);
        lemma_chunk_push(done.push(cs[0]), cs[1]);
        lemma_chunk_push(done.push(cs[0]).push(cs[1]), cs[2]);
        assert(done + cs =~= done.push(cs[0]).push(cs[1]).push(cs[2]));
    }
    put_box(buf, HVCC, i.hvcc.as_slice())
}

fn make_colr(c: &ColourInfo) -> (b: Vec<u8>)
    ensures
        b@ == colr_chunk(c@).body,
{
    let mut b: Vec<u8> = Vec::new();
    match c {
        ColourInfo::Nclx { primaries, transfer, matrix, full_range } => {
            push_be32(&mut b, NCLX);
            push_be16(&mut b, *primaries);
            push_be16(&mut b, *transfer);
            push_be16(&mut b, *matrix);
            b.push(
                if *full_range {
                    0x80
                } else {
                    0
                },
            );
        },
        ColourInfo::Icc(icc) => {
            push_be32(&mut b, PROF);
            push_all(&mut b, icc.as_slice());
        },
    }
    assert(b@ =~= colr_chunk(c@).body);
    b
}

/// Appends a colour, if there is one, unless it is too large to state.
fn put_colour(buf: &mut Vec<u8>, c: &Option<ColourInfo>, Ghost(done): Ghost<Seq<Chunk>>) -> (ok:
    bool)
    requires
        old(buf)@ == chunk_bytes(done),
    ensures
        ok ==> final(buf)@ == chunk_bytes(done + opt_colr(opt_colour(*c))),
        !ok ==> c is Some && !body_fits(colr_chunk(c->Some_0@).body),
{
    match c {
        Some(x) => {
            let b = make_colr(x);
            proof {
                lemma_chunk_push(done, colr_chunk(x@));
                assert(done + opt_colr(opt_colour(*c)) =~= done.push(colr_chunk(x@)));
            }
            put_box(buf, COLR, b.as_slice())
        },
        None => {
            assert(done + opt_colr(opt_colour(*c)) =~= done);
            true
        },
    }
}

/// Whether some box of a run is too large to state.
pub open spec fn some_too_large(chunks: Seq<Chunk>) -> bool {
    exists|i: int| 0 <= i < chunks.len() && !body_fits((#[trigger] chunks[i]).body)
}

/// Appends the base's properties, unless one is too large to state.
fn put_base_props(buf: &mut Vec<u8>, req: &MuxRequest) -> (ok: bool)
    requires
        old(buf)@ == Seq::<u8>::empty(),
    ensures
        ok ==> final(buf)@ == chunk_bytes(base_props(req@)),
        !ok ==> some_too_large(base_props(req@)),
{
    let ghost q = req@;
    let ghost done = Seq::<Chunk>::empty();
    assert(buf@ =~= chunk_bytes(done));
    if !put_image_props(buf, &req.base, Ghost(done)) {
        assert(base_props(q)[2] == Chunk { kind: HVCC, body: q.base.hvcc });
        return false;
    }
    let ghost more = done + image_props(q.base);
    assert(more + opt_colr(q.base_colour) =~= base_props(q));
    if !put_colour(buf, &req.base_colour, Ghost(more)) {
        assert(base_props(q)[3] == colr_chunk(q.base_colour->Some_0));
        return false;
    }
    true
}

/// Appends the gain map's properties, unless one is too large to state.
fn put_gain_props(buf: &mut Vec<u8>, req: &MuxRequest, Ghost(done): Ghost<Seq<Chunk>>) -> (ok: bool)
    requires
        old(buf)@ == chunk_bytes(done),
    ensures
        ok ==> final(buf)@ == chunk_bytes(done + gain_props(req@)),
        !ok ==> some_too_large(gain_props(req@)),
{
    let ghost q = req@;
    if !put_image_props(buf, &req.gain, Ghost(done)) {
        assert(gain_props(q)[2] == Chunk { kind: HVCC, body: q.gain.hvcc });
        return false;
    }
    let ghost more = done + image_props(q.gain);
    if req.flavor.writes_apple() {
        let mut a: Vec<u8> = Vec::new();
        push_zeros4(&mut a);
        let urn = terminated_text(APPLE_GAINMAP_URN);
        push_all(&mut a, urn.as_slice());
        assert(a@ =~= auxc_chunk().body);
        if !put_box(buf, AUXC, a.as_slice()) {
            assert(gain_props(q)[3] == auxc_chunk());
            return false;
        }
        proof {
            lemma_chunk_push(more, auxc_chunk());
            assert(done + gain_props(q) =~= more.push(auxc_chunk()));
        }
    } else {
        assert(done + gain_props(q) =~= more);
    }
    true
}

/// Appends the tone map's properties, unless one is too large to state.
fn put_tmap_props(buf: &mut Vec<u8>, req: &MuxRequest, Ghost(done): Ghost<Seq<Chunk>>) -> (ok: bool)
    requires
        old(buf)@ == chunk_bytes(done),
    ensures
        ok ==> final(buf)@ == chunk_bytes(done + tmap_props(req@)),
        !ok ==> some_too_large(tmap_props(req@)),
{
    let ghost q = req@;
    if !req.flavor.writes_iso() {
        assert(done + tmap_props(q) =~= done);
        return true;
    }
    let mut a: Vec<u8> = Vec::new();
    push_zeros4(&mut a);
    push_be32(&mut a, req.base.width);
    push_be32(&mut a, req.base.height);
    let ghost c = ispe_chunk(q.base.width, q.base.height);
    assert(a@ =~= c.body);
    push_box(buf, ISPE, a.as_slice());
    let ghost more = done.push(c);
    proof {
        lemma_chunk_push(done, c);
        assert(more + opt_colr(q.tmap_colour) =~= done + tmap_props(q));
    }
    if !put_colour(buf, &req.tmap_colour, Ghost(more)) {
        assert(tmap_props(q)[1] == colr_chunk(q.tmap_colour->Some_0));
        return false;
    }
    true
}

/// Appends the content light level and the transform.
fn push_shared_props(buf: &mut Vec<u8>, req: &MuxRequest, Ghost(done): Ghost<Seq<Chunk>>)
    requires
        old(buf)@ == chunk_bytes(done),
    ensures
        final(buf)@ == chunk_bytes(done + clli_props(req@) + turn_props(req@)),
{
    let ghost q = req@;
    let ghost mut more = done;
    match req.clli {
        Some((max_cll, max_pall)) => {
            let mut a: Vec<u8> = Vec::new();
            push_be16(&mut a, max_cll);
            push_be16(&mut a, max_pall);
            assert(a@ =~= be16_bytes(max_cll) + be16_bytes(max_pall));
            push_box(buf, CLLI, a.as_slice());
            proof {
                let c = Chunk { kind: CLLI, body: a@ };
                lemma_chunk_push(more, c);
                more = more.push(c);
            }
        },
        None => {},
    }
    assert(more =~= done + clli_props(q));
    if req.orientation.rotate_ccw_quarters != 0 {
        let a: Vec<u8> = vec![req.orientation.rotate_ccw_quarters];
        assert(a@ =~= seq![q.orientation.rotate_ccw_quarters]);
        push_box(buf, IROT, a.as_slice());
        proof {
            let c = Chunk { kind: IROT, body: a@ };
            lemma_chunk_push(more, c);
            more = more.push(c);
        }
    }
    match req.orientation.mirror_axis {
        Some(axis) => {
            let a: Vec<u8> = vec![axis];
            assert(a@ =~= seq![axis]);
            push_box(buf, IMIR, a.as_slice());
            proof {
                let c = Chunk { kind: IMIR, body: a@ };
                lemma_chunk_push(more, c);
                more = more.push(c);
            }
        },
        None => {},
    }
    assert(more =~= done + clli_props(q) + turn_props(q));
}

/// The `ipco` payload, unless one of the properties is too large to state.
fn make_ipco(req: &MuxRequest) -> (r: Option<Vec<u8>>)
    ensures
        match r {
            Some(b) => b@ == chunk_bytes(all_props(req@)),
            None => some_too_large(all_props(req@)),
        },
{
    let ghost q = req@;
    proof {
        reveal(all_props);
    }
    let ghost all = all_props(q);
    let (b0, b1, b2) = (Ghost(base_props(q)), Ghost(gain_props(q)), Ghost(tmap_props(q)));
    let mut b: Vec<u8> = Vec::new();
    assert(b@ =~= Seq::<u8>::empty());
    if !put_base_props(&mut b, req) {
        proof {
            let i = choose|i: int| 0 <= i < b0@.len() && !body_fits((#[trigger] b0@[i]).body);
            assert(all[i] == b0@[i]);
        }
        return None;
    }
    if !put_gain_props(&mut b, req, b0) {
        proof {
            let i = choose|i: int| 0 <= i < b1@.len() && !body_fits((#[trigger] b1@[i]).body);
            assert(all[b0@.len() + i] == b1@[i]);
        }
        return None;
    }
    if !put_tmap_props(&mut b, req, Ghost(b0@ + b1@)) {
        proof {
            let i = choose|i: int| 0 <= i < b2@.len() && !body_fits((#[trigger] b2@[i]).body);
            assert(all[b0@.len() + b1@.len() + i] == b2@[i]);
        }
        return None;
    }
    push_shared_props(&mut b, req, Ghost(b0@ + b1@ + b2@));
    Some(b)
}

/// Appends the associations of the transform.
fn push_turns(list: &mut Vec<Association>, req: &MuxRequest, at: u16)
    requires
        at == turn_at(req@),
        at <= 100,
    ensures
        final(list)@ == old(list)@ + turn_list(req@),
{
    let mut next: u16 = at + 1;
    if req.orientation.rotate_ccw_quarters != 0 {
        list.push(Association { index: next, essential: true });
        next = next + 1;
    }
    if req.orientation.mirror_axis.is_some() {
        list.push(Association { index: next, essential: true });
    }
    assert(list@ =~= old(list)@ + turn_list(req@));
}

fn image_associations(at: u16) -> (list: Vec<Association>)
    requires
        at <= 100,
    ensures
        list@ == image_list(at as int),
{
    let mut list: Vec<Association> = Vec::new();
    list.push(Association { index: at + 1, essential: false });
    list.push(Association { index: at + 2, essential: false });
    list.push(Association { index: at + 3, essential: true });
    assert(list@ =~= image_list(at as int));
    list
}

/// Appends one entry of `ipma`.
fn push_entry(buf: &mut Vec<u8>, id: u16, list: &Vec<Association>)
    requires
        list@.len() <= 100,
    ensures
        final(buf)@ == old(buf)@ + ipma_entry(id, list@),
{
    let ghost start = buf@;
    push_be16(buf, id);
    buf.push(list.len() as u8);
    let mut i: usize = 0;
    while i < list.len()
        invariant
            i <= list@.len(),
            buf@ =~= start + (be16_bytes(id) + seq![list@.len() as u8] + list_bytes(
                list@.take(i as int),
            )),
        decreases list@.len() - i,
    {
        let a = list[i];
        let high: u8 = if a.essential {
            0x80
        } else {
            0
        };
        let ghost before = buf@;
        buf.push((a.index % 0x80) as u8 + high);
        proof {
            assert(list_bytes(list@.take(i + 1)) =~= list_bytes(list@.take(i as int)).push(
                ((a.index % 0x80) as u8 + high) as u8,
            ));
        }
        i = i + 1;
    }
    assert(list@.take(list@.len() as int) =~= list@);
    assert(buf@ =~= start + ipma_entry(id, list@));
}

/// The base's associations.
fn base_associations(req: &MuxRequest, clli: u16, turn: u16) -> (list: Vec<Association>)
    requires
        clli == clli_at(req@),
        turn == turn_at(req@),
        turn < 100,
    ensures
        list@ == base_list(req@),
        list@.len() <= 7,
{
    let mut list = image_associations(0);
    if req.base_colour.is_some() {
        list.push(Association { index: 4, essential: true });
    }
    if req.clli.is_some() {
        list.push(Association { index: clli + 1, essential: false });
    }
    push_turns(&mut list, req, turn);
    assert(list@ =~= base_list(req@));
    list
}

/// The gain map's associations.
fn gain_associations(req: &MuxRequest, gain: u16, turn: u16) -> (list: Vec<Association>)
    requires
        gain == gain_at(req@),
        turn == turn_at(req@),
        turn < 100,
    ensures
        list@ == gain_list(req@),
        list@.len() <= 6,
{
    let mut list = image_associations(gain);
    if req.flavor.writes_apple() {
        list.push(Association { index: gain + 4, essential: true });
    }
    push_turns(&mut list, req, turn);
    assert(list@ =~= gain_list(req@));
    list
}

/// The tone map's associations.
fn tmap_associations(req: &MuxRequest, tmap: u16, turn: u16) -> (list: Vec<Association>)
    requires
        tmap == tmap_at(req@),
        turn == turn_at(req@),
        turn < 100,
    ensures
        list@ == tmap_list(req@),
        list@.len() <= 4,
{
    let mut list: Vec<Association> = Vec::new();
    list.push(Association { index: tmap + 1, essential: false });
    if req.tmap_colour.is_some() {
        list.push(Association { index: tmap + 2, essential: true });
    }
    push_turns(&mut list, req, turn);
    assert(list@ =~= tmap_list(req@));
    list
}

/// Where the groups of properties behind the base's start: the gain map's, the tone
/// map's, the content light level, the transform.
fn property_places(req: &MuxRequest) -> (r: (u16, u16, u16, u16))
    ensures
        r.0 == gain_at(req@),
        r.1 == tmap_at(req@),
        r.2 == clli_at(req@),
        r.3 == turn_at(req@),
        r.3 < 100,
{
    let gain: u16 = if req.base_colour.is_some() {
        4
    } else {
        3
    };
    let tmap: u16 = gain + if req.flavor.writes_apple() {
        4u16
    } else {
        3
    };
    let clli: u16 = tmap + if req.flavor.writes_iso() {
        if req.tmap_colour.is_some() {
            2u16
        } else {
            1
        }
    } else {
        0
    };
    let turn: u16 = clli + if req.clli.is_some() {
        1u16
    } else {
        0
    };
    (gain, tmap, clli, turn)
}

/// The `ipma` payload.
fn make_ipma(req: &MuxRequest) -> (b: Vec<u8>)
    ensures
        b@ == ipma_body(req@),
        b@.len() <= 1000,
{
    let iso: bool = req.flavor.writes_iso();
    let (gain, tmap, clli, turn) = property_places(req);
    let mut b: Vec<u8> = Vec::new();
    push_zeros4(&mut b);
    push_be32(
        &mut b,
        if iso {
            3
        } else {
            2
        },
    );
    let base_assocs = base_associations(req, clli, turn);
    push_entry(&mut b, 1, &base_assocs);
    let gain_assocs = gain_associations(req, gain, turn);
    push_entry(&mut b, 2, &gain_assocs);
    if iso {
        let tmap_assocs = tmap_associations(req, tmap, turn);
        push_entry(&mut b, 3, &tmap_assocs);
    }
    proof {
        reveal(ipma_body);
    }
    assert(b@ =~= ipma_body(req@));
    b
}

/// Appends one entry of `iloc`.
fn push_location(buf: &mut Vec<u8>, id: u16, method: u16, offset: u32, length: u32)
    ensures
        final(buf)@ == old(buf)@ + iloc_entry(id, method, offset, length),
        iloc_entry(id, method, offset, length).len() == 16,
{
    push_be16(buf, id);
    push_be16(buf, method);
    push_be16(buf, 0);
    push_be16(buf, 1);
    push_be32(buf, offset);
    push_be32(buf, length);
    assert(buf@ =~= old(buf)@ + iloc_entry(id, method, offset, length));
}

/// Sixteen bytes per entry.
pub(crate) proof fn lemma_iloc_len(items: Seq<Stored>, n: int)
    requires
        0 <= n,
    ensures
        iloc_stored(items, n).len() == 16 * n,
    decreases n,
{
    if n > 0 {
        lemma_iloc_len(items, n - 1);
    }
}

/// Every stored item's data, one after the other.
fn make_idat(items: &Vec<StoredItem>) -> (b: Vec<u8>)
    ensures
        b@ == joined(crate::heif::views(items@), items@.len() as int),
{
    let ghost xs = crate::heif::views(items@);
    let mut b: Vec<u8> = Vec::new();
    let mut i: usize = 0;
    assert(b@ =~= joined(xs, 0));
    while i < items.len()
        invariant
            i <= items@.len(),
            xs == crate::heif::views(items@),
            b@ == joined(xs, i as int),
        decreases items@.len() - i,
    {
        assert(xs[i as int] == items@[i as int]@);
        push_all(&mut b, items[i].data.as_slice());
        i = i + 1;
    }
    b
}

pub(crate) proof fn lemma_joined_grows(items: Seq<Stored>, a: int, b: int)
    requires
        0 <= a <= b,
    ensures
        joined(items, a).len() <= joined(items, b).len(),
    decreases b,
{
    if a < b {
        lemma_joined_grows(items, a, b - 1);
    }
}

/// The `iloc` payload of a file whose `mdat` payload starts at `mdat`.
fn make_iloc(
    items: &Vec<StoredItem>,
    mdat: u64,
    base_len: usize,
    gain_len: usize,
    Ghost(q): Ghost<MuxView>,
) -> (b: Vec<u8>)
    requires
        crate::heif::views(items@) == stored(q),
        items@.len() <= 0xffff - 2,
        base_len == q.base.data.len(),
        gain_len == q.gain.data.len(),
        mdat + base_len <= u64::MAX,
        joined(stored(q), items@.len() as int).len() <= u32::MAX,
    ensures
        b@ == iloc_body(q, mdat as int),
        b@.len() == 40 + 16 * items@.len(),
{
    let ghost xs = stored(q);
    let n: usize = items.len();
    let mut b: Vec<u8> = vec![1, 0, 0, 0, 0x44, 0];
    push_be16(&mut b, (2 + n) as u16);
    push_location(&mut b, 1, 0, mdat as u32, base_len as u32);
    push_location(&mut b, 2, 0, (mdat + base_len as u64) as u32, gain_len as u32);
    let ghost head = b@;
    assert(b@ =~= head + iloc_stored(xs, 0));
    let mut i: usize = 0;
    let mut offset: u32 = 0;
    while i < n
        invariant
            i <= n,
            n == items@.len(),
            n <= 0xffff - 2,
            xs == crate::heif::views(items@),
            offset == joined(xs, i as int).len(),
            joined(xs, n as int).len() <= u32::MAX,
            b@ == head + iloc_stored(xs, i as int),
        decreases n - i,
    {
        assert(xs[i as int] == items@[i as int]@);
        let len: usize = items[i].data.len();
        let ghost before = b@;
        push_location(&mut b, (3 + i) as u16, 1, offset, len as u32);
        proof {
            let done = iloc_stored(xs, i as int);
            let entry = iloc_entry((3 + i) as u16, 1, offset, len as u32);
            assert(iloc_stored(xs, i + 1) == done + entry);
            assert(head + (done + entry) =~= head + done + entry);
            lemma_joined_grows(xs, i + 1, n as int);
        }
        offset = offset + len as u32;
        i = i + 1;
    }
    proof {
        lemma_iloc_len(xs, n as int);
        assert(head.len() == 40);
        reveal(iloc_body);
        assert(b@ =~= iloc_body(q, mdat as int));
    }
    b
}

/// A run of boxes with one that is too large is itself too large.
proof fn lemma_too_large(chunks: Seq<Chunk>)
    requires
        some_too_large(chunks),
    ensures
        chunk_bytes(chunks).len() > u32::MAX,
{
    let i = choose|i: int| 0 <= i < chunks.len() && !body_fits((#[trigger] chunks[i]).body);
    lemma_chunk_is_smaller(chunks, i);
}

/// A `meta` box with too much before `iloc` makes the file too large.
proof fn lemma_children_too_large(q: MuxView)
    requires
        chunk_bytes(early_children(q)).len() > u32::MAX,
    ensures
        mux_bytes(q).len() > u32::MAX,
{
    let m = mdat_start(q);
    lemma_chunk_push(early_children(q), Chunk { kind: ILOC, body: iloc_body(q, m) });
    lemma_chunk_is_smaller(top_chunks(q), 1);
}

/// One child of `meta` that is too large makes the file too large.
proof fn lemma_child_too_large(q: MuxView, i: int)
    requires
        0 <= i < early_children(q).len(),
        !body_fits(early_children(q)[i].body),
    ensures
        mux_bytes(q).len() > u32::MAX,
{
    lemma_too_large(early_children(q));
    lemma_children_too_large(q);
}

/// Everything before `iloc` in `meta`, unless some of it is too large to state.
fn make_early_children(req: &MuxRequest, items: &Vec<StoredItem>, idat: &Vec<u8>) -> (r: Option<
    Vec<u8>,
>)
    requires
        crate::heif::views(items@) == stored(req@),
        items@.len() <= 0xffff - 2,
        idat@ == joined(stored(req@), items@.len() as int),
    ensures
        match r {
            Some(b) => b@ == chunk_bytes(early_children(req@)),
            None => mux_bytes(req@).len() > u32::MAX,
        },
{
    let ghost q = req@;
    proof {
        reveal(early_children);
    }
    let ghost all = early_children(q);
    let n: usize = items.len();
    let iinf = match make_iinf(items) {
        Some(b) => b,
        None => {
            proof {
                lemma_too_large(infe_chunks(stored(q), n as int));
                assert(all[2].body == iinf_body(q));
                lemma_child_too_large(q, 2);
            }
            return None;
        },
    };
    assert(iinf@ == iinf_body(q));
    let iref = make_iref(req.flavor, n, Ghost(q));
    let ipco = match make_ipco(req) {
        Some(b) => b,
        None => {
            proof {
                lemma_too_large(all_props(q));
                lemma_chunk_is_smaller(iprp_chunks(q), 0);
                assert(all[4].body == chunk_bytes(iprp_chunks(q)));
                lemma_child_too_large(q, 4);
            }
            return None;
        },
    };
    let ipma = make_ipma(req);
    let mut iprp: Vec<u8> = Vec::new();
    if !put_box(&mut iprp, IPCO, ipco.as_slice()) {
        proof {
            lemma_chunk_is_smaller(iprp_chunks(q), 0);
            assert(all[4].body == chunk_bytes(iprp_chunks(q)));
            lemma_child_too_large(q, 4);
        }
        return None;
    }
    push_box(&mut iprp, IPMA, ipma.as_slice());
    proof {
        let cs = iprp_chunks(q);
        let none = Seq::<Chunk>::empty();
        lemma_chunk_push(none, cs[0]);
        lemma_chunk_push(none.push(cs[0]), cs[1]);
        assert(cs =~= none.push(cs[0]).push(cs[1]));
        assert(iprp@ =~= chunk_bytes(cs));
    }
    let mut b: Vec<u8> = Vec::new();
    let ghost mut done: Seq<Chunk> = seq![];
    assert(b@ =~= chunk_bytes(done));
    let mut hdlr: Vec<u8> = Vec::new();
    push_zeros4(&mut hdlr);
    push_be32(&mut hdlr, 0);
    push_be32(&mut hdlr, PICT);
    push_zeros4(&mut hdlr);
    push_zeros4(&mut hdlr);
    push_zeros4(&mut hdlr);
    hdlr.push(0);
    assert(hdlr@ =~= hdlr_body());
    push_box(&mut b, HDLR, hdlr.as_slice());
    let mut pitm: Vec<u8> = Vec::new();
    push_zeros4(&mut pitm);
    push_be16(&mut pitm, 1);
    assert(pitm@ =~= pitm_body());
    push_box(&mut b, PITM, pitm.as_slice());
    proof {
        lemma_chunk_push(done, all[0]);
        lemma_chunk_push(done.push(all[0]), all[1]);
        lemma_chunk_push(done.push(all[0]).push(all[1]), all[2]);
        lemma_chunk_push(done.push(all[0]).push(all[1]).push(all[2]), all[3]);
        lemma_chunk_push(done.push(all[0]).push(all[1]).push(all[2]).push(all[3]), all[4]);
        done = done.push(all[0]).push(all[1]).push(all[2]).push(all[3]).push(all[4]);
    }
    if !put_box(&mut b, IINF, iinf.as_slice()) {
        proof {
            lemma_child_too_large(q, 2);
        }
        return None;
    }
    if !put_box(&mut b, IREF, iref.as_slice()) {
        proof {
            lemma_child_too_large(q, 3);
        }
        return None;
    }
    if !put_box(&mut b, IPRP, iprp.as_slice()) {
        proof {
            lemma_child_too_large(q, 4);
        }
        return None;
    }
    if req.flavor.writes_iso() {
        let mut altr: Vec<u8> = Vec::new();
        push_zeros4(&mut altr);
        push_be32(&mut altr, (3 + n) as u32);
        push_be32(&mut altr, 2);
        push_be32(&mut altr, 3);
        push_be32(&mut altr, 1);
        assert(altr@ =~= altr_chunk(q).body);
        let mut grpl: Vec<u8> = Vec::new();
        push_box(&mut grpl, ALTR, altr.as_slice());
        proof {
            let none = Seq::<Chunk>::empty();
            lemma_chunk_push(none, altr_chunk(q));
            assert(none.push(altr_chunk(q)) =~= seq![altr_chunk(q)]);
            assert(grpl@ =~= chunk_bytes(seq![altr_chunk(q)]));
        }
        push_box(&mut b, GRPL, grpl.as_slice());
        proof {
            let c = Chunk { kind: GRPL, body: grpl@ };
            lemma_chunk_push(done, c);
            done = done.push(c);
        }
    }
    if idat.len() > 0 {
        if !put_box(&mut b, IDAT, idat.as_slice()) {
            proof {
                lemma_child_too_large(q, all.len() - 1);
            }
            return None;
        }
        proof {
            let c = Chunk { kind: IDAT, body: idat@ };
            lemma_chunk_push(done, c);
            done = done.push(c);
        }
    }
    assert(done =~= all);
    Some(b)
}

fn make_ftyp(iso: bool, Ghost(q): Ghost<MuxView>) -> (b: Vec<u8>)
    requires
        iso == q.flavor.iso(),
    ensures
        b@ == ftyp_body(q),
        b@.len() <= 24,
{
    let mut b: Vec<u8> = Vec::new();
    push_be32(&mut b, HEIC);
    push_be32(&mut b, 0);
    push_be32(&mut b, MIF1);
    push_be32(&mut b, HEIC);
    push_be32(&mut b, MIAF);
    if iso {
        push_be32(&mut b, TMAP);
    }
    assert(b@ =~= ftyp_body(q));
    b
}

/// `iloc` is as long whatever offsets it states.
pub(crate) proof fn lemma_iloc_body_len(q: MuxView, mdat: int)
    ensures
        iloc_body(q, mdat).len() == 40 + 16 * stored(q).len(),
{
    reveal(iloc_body);
    lemma_iloc_len(stored(q), stored(q).len() as int);
}

/// Assembles a gain-map HEIC.
///
/// Emits, per `req.flavor`:
/// - always: `ftyp`, the base image item as `pitm`, the gain-map image item,
///   `ispe`/`pixi`/`hvcC` property associations for both, and `mdat`
/// - [`Flavor::writes_apple`]: an `auxC` on the gain map carrying
///   [`APPLE_GAINMAP_URN`], and an `auxl` `iref` from the gain map to the base
/// - [`Flavor::writes_iso`]: a `tmap` derived item whose `dimg` lists
///   `[base, gain]`, carrying the C.2.2 payload prefixed by its `ToneMapImage`
///   version byte, a `grpl`/`altr` group that prefers it over the base, plus the
///   `tmap` compatible brand in `ftyp`
///
/// Refuses a request whose file would not fit the 32-bit sizes and 16-bit
/// identifiers it is written with.
pub fn mux(req: &MuxRequest) -> (r: Result<Vec<u8>, Error>)
    ensures
        match r {
            Ok(v) => writable(req@) && v@ == mux_bytes(req@),
            Err(e) => !writable(req@) && e == Error::Unsupported(Unsupported::TooLarge),
        },
{
    let ghost q = req@;
    let ghost m = mdat_start(q);
    let items = stored_items(req);
    if items.len() > 0xffff - 2 {
        return Err(Error::Unsupported(Unsupported::TooLarge));
    }
    let n: usize = items.len();
    let idat = make_idat(&items);
    let mut children = match make_early_children(req, &items, &idat) {
        Some(b) => b,
        None => {
            return Err(Error::Unsupported(Unsupported::TooLarge));
        },
    };
    if children.len() > 0xffff_ffff || req.base.data.len() > 0xffff_ffff {
        proof {
            if children@.len() > 0xffff_ffff {
                lemma_children_too_large(q);
            } else {
                lemma_chunk_is_smaller(top_chunks(q), 2);
            }
        }
        return Err(Error::Unsupported(Unsupported::TooLarge));
    }
    proof {
        lemma_iloc_body_len(q, 0);
        lemma_iloc_body_len(q, m);
        if idat@.len() > 0 {
            reveal(early_children);
            let all = early_children(q);
            lemma_chunk_is_smaller(all, all.len() - 1);
        }
    }
    let ftyp = make_ftyp(req.flavor.writes_iso(), Ghost(q));
    let mdat_at: u64 = 8 + ftyp.len() as u64 + 12 + children.len() as u64 + 8 + (40 + 16 * n as u64)
        + 8;
    assert(mdat_at == m);
    let iloc = make_iloc(&items, mdat_at, req.base.data.len(), req.gain.data.len(), Ghost(q));
    push_box(&mut children, ILOC, iloc.as_slice());
    proof {
        lemma_chunk_push(early_children(q), Chunk { kind: ILOC, body: iloc_body(q, m) });
        assert(children@ =~= chunk_bytes(meta_children(q, m)));
    }
    let mut meta: Vec<u8> = Vec::new();
    push_zeros4(&mut meta);
    push_all(&mut meta, children.as_slice());
    let mut mdat: Vec<u8> = Vec::new();
    push_all(&mut mdat, req.base.data.as_slice());
    push_all(&mut mdat, req.gain.data.as_slice());
    let ghost top = top_chunks(q);
    assert(meta@ =~= top[1].body);
    assert(mdat@ =~= top[2].body);
    let mut out: Vec<u8> = Vec::new();
    push_box(&mut out, FTYP, ftyp.as_slice());
    if !put_box(&mut out, META, meta.as_slice()) {
        proof {
            lemma_chunk_is_smaller(top, 1);
        }
        return Err(Error::Unsupported(Unsupported::TooLarge));
    }
    if !put_box(&mut out, MDAT, mdat.as_slice()) {
        proof {
            lemma_chunk_is_smaller(top, 2);
        }
        return Err(Error::Unsupported(Unsupported::TooLarge));
    }
    proof {
        let none = Seq::<Chunk>::empty();
        lemma_chunk_push(none, top[0]);
        lemma_chunk_push(none.push(top[0]), top[1]);
        lemma_chunk_push(none.push(top[0]).push(top[1]), top[2]);
        assert(top =~= none.push(top[0]).push(top[1]).push(top[2]));
        assert(out@ =~= chunk_bytes(top));
    }
    if out.len() > 0xffff_ffff {
        return Err(Error::Unsupported(Unsupported::TooLarge));
    }
    Ok(out)
}

} // verus!
