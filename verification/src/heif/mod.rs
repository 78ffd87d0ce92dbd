//! ISOBMFF/HEIF reading and gain-map muxing.

pub mod boxes;
pub mod engine;
pub mod message;
pub mod model;
pub mod read;
pub mod roundtrip;
pub mod write;

use vstd::array::array_as_slice;
use vstd::prelude::*;
use vstd::utf8::{decode_utf8, valid_utf8};

use crate::bytes::be32;
use crate::heif::model::{
    AssocView, ColourView, FileView, ItemView, LocView, PropView, RefView,
};
use crate::iso21496::ParseError;
use crate::meta::GainMapMeta;
use crate::text::utf8_text;

verus! {

/// HEIF item identifier. 16-bit in `infe` version 2, 32-bit in version 3; the wider
/// form is modelled, and narrowed on write.
pub type ItemId = u32;

/// A four-character code, read as a big-endian number.
#[derive(Clone, Copy, Debug, PartialEq, Eq, Structural)]
pub struct FourCc {
    pub code: u32,
}

/// Present but unusable parts of a file.
#[derive(Clone, Copy, Debug, PartialEq, Eq, Structural)]
pub enum Malformed {
    /// No `iloc` entry names this item.
    NoLocation(ItemId),
    /// The item's `iloc` entry lists no extents.
    NoExtents(ItemId),
    /// An extent's offset does not fit this machine's addresses.
    OffsetOverflow,
    /// An extent's offset into `idat` does not fit this machine's addresses.
    IdatOffsetOverflow,
    /// An extent starts past the end of `idat`.
    PastIdatEnd(ItemId),
    /// An extent's length does not fit this machine's addresses.
    LengthOverflow,
    /// An extent's end does not fit this machine's addresses.
    EndOverflow,
    /// A base offset and an extent offset do not add up to a 64-bit number.
    BaseOffsetOverflow,
    /// No item has this identifier.
    NoSuchItem(ItemId),
}

/// Structurally valid parts of a file that are beyond this library's scope.
#[derive(Clone, Copy, Debug, PartialEq, Eq, Structural)]
pub enum Unsupported {
    /// An `infe` version that is not known.
    InfeVersion(u8),
    /// A way of locating item data that is not implemented.
    ConstructionMethod(u8),
    /// Extents that are not one contiguous run, which would take an owned copy.
    ScatteredExtents,
    /// A `grid` item: reassembling tiles is a re-encode, not a remux.
    Grid,
    /// A file larger than the 32-bit sizes and offsets it is written with.
    TooLarge,
    /// A file for Apple's readers without the text of its headroom.
    NoHeadroom,
}

/// Why a file could not be read or written.
#[derive(Clone, Copy, Debug, PartialEq, Eq, Structural)]
pub enum Error {
    /// A box or field ran past the end of what holds it.
    Truncated { at: usize, need: usize },
    /// A required box was absent.
    MissingBox(FourCc),
    /// Present but unusable, e.g. an `iloc` offset outside the file.
    Malformed(Malformed),
    /// Structurally valid but beyond this library's scope.
    Unsupported(Unsupported),
    /// The ISO 21496-1 payload inside a `tmap` failed to parse.
    Metadata(ParseError),
}

/// One property an item is associated with: its position counted from 1, and
/// whether a reader must understand it.
#[derive(Clone, Copy, Debug, PartialEq, Eq, Structural)]
pub struct Association {
    pub index: u16,
    pub essential: bool,
}

/// One run of an item's data. The offset is into the file or into `idat`, as the
/// item's construction method says.
#[derive(Clone, Copy, Debug, PartialEq, Eq, Structural)]
pub struct Extent {
    pub offset: u64,
    pub length: u64,
}

/// Chroma sampling of a coded image item. A gain map is monochrome; Apple codes
/// it as `L008`, a single 8-bit component.
#[derive(Clone, Copy, Debug, PartialEq, Eq, Structural)]
pub enum Chroma {
    Monochrome,
    Yuv420,
    Yuv422,
    Yuv444,
}

/// One coded HEVC image, ready to be placed as a HEIF item.
///
/// `data` is the coded bitstream in HEIF's length-prefixed form (each NAL unit
/// preceded by a 4-byte big-endian length), *not* Annex-B start codes; `hvcc`
/// is the `hvcC` box payload (excluding its own box header) carrying the
/// parameter sets.
#[derive(Clone, Debug)]
pub struct CodedImage {
    pub width: u32,
    pub height: u32,
    pub bit_depth: u8,
    pub chroma: Chroma,
    pub hvcc: Vec<u8>,
    pub data: Vec<u8>,
}

/// A coded image, its byte runs as sequences.
pub struct CodedView {
    pub width: u32,
    pub height: u32,
    pub bit_depth: u8,
    pub chroma: Chroma,
    pub hvcc: Seq<u8>,
    pub data: Seq<u8>,
}

impl View for CodedImage {
    type V = CodedView;

    open spec fn view(&self) -> CodedView {
        CodedView {
            width: self.width,
            height: self.height,
            bit_depth: self.bit_depth,
            chroma: self.chroma,
            hvcc: self.hvcc@,
            data: self.data@,
        }
    }
}

/// Colour information for a `colr` box.
#[derive(Clone, Debug)]
pub enum ColourInfo {
    /// `nclx`: primaries / transfer / matrix indices plus the full-range flag.
    Nclx { primaries: u16, transfer: u16, matrix: u16, full_range: bool },
    /// `rICC` or `prof`: an embedded ICC profile.
    Icc(Vec<u8>),
}

impl View for ColourInfo {
    type V = ColourView;

    open spec fn view(&self) -> ColourView {
        match self {
            ColourInfo::Nclx { primaries, transfer, matrix, full_range } => ColourView::Nclx {
                primaries: *primaries,
                transfer: *transfer,
                matrix: *matrix,
                full_range: *full_range,
            },
            ColourInfo::Icc(v) => ColourView::Icc(v@),
        }
    }
}

/// A decoded `ipco` entry. `Other` covers property types that are not interpreted
/// (e.g. `iscl`): they still occupy a slot, since `ipma` associations index into
/// `ipco` positionally and every property counts toward that index.
#[derive(Clone, Debug)]
pub enum Prop {
    Ispe { width: u32, height: u32 },
    Pixi { bits: Vec<u8> },
    HvcC(Vec<u8>),
    Colr(ColourInfo),
    AuxC(String),
    Clli { max_cll: u16, max_pall: u16 },
    Irot(u8),
    Imir(u8),
    Other,
}

impl View for Prop {
    type V = PropView;

    open spec fn view(&self) -> PropView {
        match self {
            Prop::Ispe { width, height } => PropView::Ispe { width: *width, height: *height },
            Prop::Pixi { bits } => PropView::Pixi(bits@),
            Prop::HvcC(v) => PropView::HvcC(v@),
            Prop::Colr(c) => PropView::Colr(c@),
            Prop::AuxC(s) => PropView::AuxC(s@),
            Prop::Clli { max_cll, max_pall } => PropView::Clli {
                max_cll: *max_cll,
                max_pall: *max_pall,
            },
            Prop::Irot(v) => PropView::Irot(*v),
            Prop::Imir(v) => PropView::Imir(*v),
            Prop::Other => PropView::Other,
        }
    }
}

/// One `iloc` item entry, offsets already collapsed to base offset plus extent
/// offset.
#[derive(Clone, Debug)]
pub struct IlocItem {
    pub item_id: ItemId,
    pub construction_method: u8,
    pub extents: Vec<Extent>,
}

impl View for IlocItem {
    type V = LocView;

    open spec fn view(&self) -> LocView {
        LocView {
            item: self.item_id,
            method: self.construction_method,
            extents: self.extents@,
        }
    }
}

/// The properties one item is associated with.
#[derive(Clone, Debug)]
pub struct IpmaEntry {
    pub item_id: ItemId,
    pub list: Vec<Association>,
}

impl View for IpmaEntry {
    type V = AssocView;

    open spec fn view(&self) -> AssocView {
        AssocView { item: self.item_id, list: self.list@ }
    }
}

/// One `iref` entry.
#[derive(Clone, Debug)]
pub struct Reference {
    pub kind: u32,
    pub from: ItemId,
    pub to: Vec<ItemId>,
}

impl View for Reference {
    type V = RefView;

    open spec fn view(&self) -> RefView {
        RefView { kind: self.kind, from: self.from, to: self.to@ }
    }
}

/// One entry from `iinf`, with whatever properties and references name it.
#[derive(Clone, Debug)]
pub struct Item {
    pub id: ItemId,
    /// Four-character item type, e.g. `hvc1`, `grid`, `tmap`, `Exif`, `mime`.
    pub item_type: [u8; 4],
    /// `infe`'s `item_name`, empty for most items. Apple's Photographic Styles
    /// plist is named `metadata`.
    pub name: String,
    /// `infe`'s `content_type`, present for `mime` items:
    /// `application/rdf+xml` for an XMP packet.
    pub content_type: Option<String>,
    /// `infe`'s `item_uri_type`, present for `uri ` items and the only thing
    /// that says what such an item holds.
    pub uri_type: Option<String>,
    pub hidden: bool,
    pub width: Option<u32>,
    pub height: Option<u32>,
    /// `auxC` URN, when this item is an auxiliary image.
    pub aux_urn: Option<String>,
    /// Items this one derives from (`dimg`).
    pub derives_from: Vec<ItemId>,
    /// Items this one is auxiliary to (`auxl`).
    pub auxiliary_to: Vec<ItemId>,
    /// Items this one *describes* (`cdsc`). The link that separates metadata
    /// belonging to the photograph from metadata belonging to some auxiliary
    /// image.
    pub describes: Vec<ItemId>,
}

/// The characters of an optional text.
pub open spec fn opt_text(t: Option<String>) -> Option<Seq<char>> {
    match t {
        Some(s) => Some(s@),
        None => None,
    }
}

impl View for Item {
    type V = ItemView;

    open spec fn view(&self) -> ItemView {
        ItemView {
            id: self.id,
            kind: be32(self.item_type@, 0),
            name: self.name@,
            content_type: opt_text(self.content_type),
            uri_type: opt_text(self.uri_type),
            hidden: self.hidden,
            width: self.width,
            height: self.height,
            aux_urn: opt_text(self.aux_urn),
            derives_from: self.derives_from@,
            auxiliary_to: self.auxiliary_to@,
            describes: self.describes@,
        }
    }
}

impl Item {
    /// The item type as text, or `????` when its bytes are not UTF-8.
    pub fn type_str(&self) -> (s: &str)
        ensures
            s@ == if valid_utf8(self.item_type@) {
                decode_utf8(self.item_type@)
            } else {
                "????"@
            },
    {
        match utf8_text(array_as_slice(&self.item_type)) {
            Some(t) => t,
            None => "????",
        }
    }
}

/// The views of some values, in order.
pub open spec fn views<T: View>(v: Seq<T>) -> Seq<T::V> {
    Seq::new(v.len(), |i: int| v[i]@)
}

/// A parsed HEIF file's structure. Borrows the input rather than copying it;
/// item payloads are returned as slices into the original buffer.
#[derive(Debug)]
pub struct HeifFile<'a> {
    pub(crate) bytes: &'a [u8],
    pub(crate) brands: Vec<[u8; 4]>,
    pub(crate) primary_item: Option<ItemId>,
    pub(crate) items: Vec<Item>,
    pub(crate) props: Vec<Prop>,
    pub(crate) ipma: Vec<IpmaEntry>,
    pub(crate) iloc: Vec<IlocItem>,
    /// Absolute file byte range of `idat`'s body, when present.
    pub(crate) idat: Option<(usize, usize)>,
}

impl<'a> View for HeifFile<'a> {
    type V = FileView;

    closed spec fn view(&self) -> FileView {
        FileView {
            bytes: self.bytes@,
            brands: Seq::new(self.brands@.len(), |i: int| be32(self.brands@[i]@, 0)),
            primary: self.primary_item,
            items: views(self.items@),
            props: views(self.props@),
            assocs: views(self.ipma@),
            idat: match self.idat {
                Some(ab) => Some((ab.0 as int, ab.1 as int)),
                None => None,
            },
            locs: views(self.iloc@),
        }
    }
}

/// Where a file's gain map lives and how it is signaled. Both flavors can be
/// present at once and point at the same pixel data.
#[derive(Clone, Copy, Debug, PartialEq, Eq, Structural)]
pub struct GainMapInfo {
    /// The image item holding the gain-map plane.
    pub image_item: ItemId,
    /// Set when an `auxC` with [`APPLE_GAINMAP_URN`] is present.
    pub apple_aux: bool,
    /// The `tmap` derived item, when ISO 21496-1 signaling is present.
    pub tmap_item: Option<ItemId>,
    /// Metadata from the `tmap` payload. `None` for an Apple-only file, whose
    /// parameters live in MakerNote/XMP rather than in the container.
    pub meta: Option<GainMapMeta>,
}

/// Apple's auxiliary-image type URN for a gain map, present since 2020.
pub const APPLE_GAINMAP_URN: &'static str = "urn:com:apple:photo:2020:aux:hdrgainmap";

} // verus!
