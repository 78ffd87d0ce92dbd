//! What a HEIF file says, as mathematics: the items, properties, references and
//! locations a sequence of bytes states, or why it states none.

use vstd::prelude::*;

use crate::bytes::{be16, be32};
use crate::heif::boxes::{boxes_in, first_of, wide_value, BoxSpan};
use crate::heif::{
    Association, Chroma, CodedView, Error, Extent, FourCc, GainMapInfo, ItemId, Malformed,
    Unsupported, APPLE_GAINMAP_URN,
};
use crate::iso21496::parsed;
use crate::meta::GainMapMeta;
use crate::text::text_of;

verus! {

pub const FTYP: u32 = 0x66747970;

pub const META: u32 = 0x6d657461;

pub const MDAT: u32 = 0x6d646174;

pub const HDLR: u32 = 0x68646c72;

pub const PICT: u32 = 0x70696374;

pub const PITM: u32 = 0x7069746d;

pub const IINF: u32 = 0x69696e66;

pub const INFE: u32 = 0x696e6665;

pub const IREF: u32 = 0x69726566;

pub const IPRP: u32 = 0x69707270;

pub const IPCO: u32 = 0x6970636f;

pub const IPMA: u32 = 0x69706d61;

pub const IDAT: u32 = 0x69646174;

pub const ILOC: u32 = 0x696c6f63;

pub const GRPL: u32 = 0x6772706c;

pub const ALTR: u32 = 0x616c7472;

pub const DIMG: u32 = 0x64696d67;

pub const AUXL: u32 = 0x6175786c;

pub const CDSC: u32 = 0x63647363;

pub const ISPE: u32 = 0x69737065;

pub const PIXI: u32 = 0x70697869;

pub const HVCC: u32 = 0x68766343;

pub const COLR: u32 = 0x636f6c72;

pub const NCLX: u32 = 0x6e636c78;

pub const PROF: u32 = 0x70726f66;

pub const AUXC: u32 = 0x61757843;

pub const CLLI: u32 = 0x636c6c69;

pub const IROT: u32 = 0x69726f74;

pub const IMIR: u32 = 0x696d6972;

pub const HVC1: u32 = 0x68766331;

pub const TMAP: u32 = 0x746d6170;

pub const GRID: u32 = 0x67726964;

pub const EXIF: u32 = 0x45786966;

pub const MIME: u32 = 0x6d696d65;

pub const URI: u32 = 0x75726920;

/// One item, with whatever properties and references name it.
pub struct ItemView {
    pub id: ItemId,
    pub kind: u32,
    pub name: Seq<char>,
    pub content_type: Option<Seq<char>>,
    pub uri_type: Option<Seq<char>>,
    pub hidden: bool,
    pub width: Option<u32>,
    pub height: Option<u32>,
    pub aux_urn: Option<Seq<char>>,
    pub derives_from: Seq<ItemId>,
    pub auxiliary_to: Seq<ItemId>,
    pub describes: Seq<ItemId>,
}

/// One reference: its type, the item it is from and those it is to.
pub struct RefView {
    pub kind: u32,
    pub from: ItemId,
    pub to: Seq<ItemId>,
}

/// Colour information of a `colr` box.
pub enum ColourView {
    Nclx { primaries: u16, transfer: u16, matrix: u16, full_range: bool },
    Icc(Seq<u8>),
}

/// One property. `Other` stands for the types that are not interpreted: they still
/// occupy a slot, since associations count positions.
pub enum PropView {
    Ispe { width: u32, height: u32 },
    Pixi(Seq<u8>),
    HvcC(Seq<u8>),
    Colr(ColourView),
    AuxC(Seq<char>),
    Clli { max_cll: u16, max_pall: u16 },
    Irot(u8),
    Imir(u8),
    Other,
}

/// The properties associated with one item.
pub struct AssocView {
    pub item: ItemId,
    pub list: Seq<Association>,
}

/// Where one item's data lies.
pub struct LocView {
    pub item: ItemId,
    pub method: u8,
    pub extents: Seq<Extent>,
}

/// Everything the children of `meta` state.
pub struct MetaView {
    pub primary: Option<ItemId>,
    pub items: Seq<ItemView>,
    pub refs: Seq<RefView>,
    pub props: Seq<PropView>,
    pub assocs: Seq<AssocView>,
    pub idat: Option<(int, int)>,
    pub locs: Seq<LocView>,
}

/// A whole file.
pub struct FileView {
    pub bytes: Seq<u8>,
    pub brands: Seq<u32>,
    pub primary: Option<ItemId>,
    pub items: Seq<ItemView>,
    pub props: Seq<PropView>,
    pub assocs: Seq<AssocView>,
    pub idat: Option<(int, int)>,
    pub locs: Seq<LocView>,
}

/// The report of a read of `need` bytes at `at` that the end cuts short.
pub open spec fn short(at: int, need: int) -> Error {
    Error::Truncated { at: at as usize, need: need as usize }
}

/// The results of `f` on `i..n` in order, or the first failure among them.
pub open spec fn collect<T>(f: spec_fn(int) -> Result<T, Error>, i: int, n: int) -> Result<
    Seq<T>,
    Error,
>
    decreases n - i,
{
    if i >= n {
        Ok(seq![])
    } else {
        match f(i) {
            Err(e) => Err(e),
            Ok(x) => match collect(f, i + 1, n) {
                Err(e) => Err(e),
                Ok(rest) => Ok(seq![x] + rest),
            },
        }
    }
}

/// A result with `front` put before it.
pub open spec fn after<T>(front: Seq<T>, rest: Result<Seq<T>, Error>) -> Result<Seq<T>, Error> {
    match rest {
        Err(e) => Err(e),
        Ok(v) => Ok(front + v),
    }
}

/// Collecting results that are all successes gives them in order.
pub proof fn lemma_collect_succeeds<T>(
    f: spec_fn(int) -> Result<T, Error>,
    i: int,
    n: int,
    xs: Seq<T>,
)
    requires
        0 <= i <= n,
        xs.len() == n,
        forall|k: int| i <= k < n ==> #[trigger] f(k) == Ok::<T, Error>(xs[k]),
    ensures
        collect(f, i, n) == Ok::<Seq<T>, Error>(xs.skip(i)),
    decreases n - i,
{
    if i < n {
        lemma_collect_succeeds(f, i + 1, n, xs);
        assert(f(i) == Ok::<T, Error>(xs[i]));
        assert(seq![xs[i]] + xs.skip(i + 1) =~= xs.skip(i));
    } else {
        assert(xs.skip(i) =~= seq![]);
    }
}

/// Where the zero-terminated text that starts at `at` ends: at its zero, or at the
/// end of the bytes.
pub open spec fn text_end(b: Seq<u8>, at: int) -> int
    decreases b.len() - at,
{
    if at >= b.len() {
        b.len() as int
    } else if b[at] == 0 {
        at
    } else {
        text_end(b, at + 1)
    }
}

/// The bytes of the zero-terminated text that starts at `at`.
pub open spec fn text_at(b: Seq<u8>, at: int) -> Seq<u8> {
    if at >= b.len() {
        seq![]
    } else {
        b.subrange(at, text_end(b, at))
    }
}

/// Where the text after the one that starts at `at` starts.
pub open spec fn next_text(b: Seq<u8>, at: int) -> int {
    if text_end(b, at) >= b.len() {
        b.len() as int
    } else {
        text_end(b, at) + 1
    }
}

/// The compatible brands of an `ftyp` payload.
pub open spec fn brands_of(b: Seq<u8>) -> Seq<u32> {
    Seq::new(((b.len() - 8) / 4) as nat, |i: int| be32(b, 8 + 4 * i))
}

/// The primary item a `pitm` payload names.
pub open spec fn pitm_of(b: Seq<u8>) -> Result<ItemId, Error> {
    if b.len() < 1 {
        Err(short(0, 1))
    } else if b.len() < 4 {
        Err(short(1, 3))
    } else if b[0] == 0 {
        if b.len() < 6 {
            Err(short(4, 2))
        } else {
            Ok(be16(b, 4) as u32)
        }
    } else {
        if b.len() < 8 {
            Err(short(4, 4))
        } else {
            Ok(be32(b, 4))
        }
    }
}

/// The item an `infe` payload states. Versions 0 and 1 have no type field.
pub open spec fn infe_of(b: Seq<u8>) -> Result<ItemView, Error> {
    let wide: int = if b[0] == 3 {
        4
    } else {
        2
    };
    if b.len() < 1 {
        Err(short(0, 1))
    } else if b.len() < 4 {
        Err(short(1, 3))
    } else if b[0] > 3 {
        Err(Error::Unsupported(Unsupported::InfeVersion(b[0])))
    } else if b.len() < 4 + wide {
        Err(short(4, wide))
    } else if b.len() < 6 + wide {
        Err(short(4 + wide, 2))
    } else if b[0] >= 2 && b.len() < 10 + wide {
        Err(short(6 + wide, 4))
    } else {
        let kind = if b[0] >= 2 {
            be32(b, 6 + wide)
        } else {
            0
        };
        let at = if b[0] >= 2 {
            10 + wide
        } else {
            6 + wide
        };
        let more = text_of(text_at(b, next_text(b, at)));
        Ok(
            ItemView {
                id: if b[0] == 3 {
                    be32(b, 4)
                } else {
                    be16(b, 4) as u32
                },
                kind,
                name: text_of(text_at(b, at)),
                content_type: if kind == MIME {
                    Some(more)
                } else {
                    None
                },
                uri_type: if kind == URI {
                    Some(more)
                } else {
                    None
                },
                hidden: b[3] % 2 == 1,
                width: None,
                height: None,
                aux_urn: None,
                derives_from: seq![],
                auxiliary_to: seq![],
                describes: seq![],
            },
        )
    }
}

/// The payload of a box.
pub open spec fn body(s: Seq<u8>, b: BoxSpan) -> Seq<u8> {
    s.subrange(b.start, b.end)
}

/// The items the `infe` boxes among `boxes`, from position `i` on, state.
pub open spec fn items_from(s: Seq<u8>, boxes: Seq<BoxSpan>, i: int) -> Result<
    Seq<ItemView>,
    Error,
>
    decreases boxes.len() - i,
{
    if i >= boxes.len() {
        Ok(seq![])
    } else if boxes[i].kind != INFE {
        items_from(s, boxes, i + 1)
    } else {
        match infe_of(body(s, boxes[i])) {
            Err(e) => Err(e),
            Ok(x) => match items_from(s, boxes, i + 1) {
                Err(e) => Err(e),
                Ok(rest) => Ok(seq![x] + rest),
            },
        }
    }
}

/// The items an `iinf` box lists. What its header claims their number to be is not
/// consulted: its children are.
pub open spec fn iinf_of(s: Seq<u8>, b: BoxSpan) -> Result<Seq<ItemView>, Error> {
    if b.end - b.start < 4 {
        Err(short(b.start, 4))
    } else {
        let first = b.start + 4 + if s[b.start] == 0 {
            2int
        } else {
            4
        };
        items_from(s, boxes_in(s, first, b.end), 0)
    }
}

/// An item identifier of the width `wide` names.
pub open spec fn id_at(b: Seq<u8>, wide: bool, at: int) -> ItemId {
    if wide {
        be32(b, at)
    } else {
        be16(b, at) as u32
    }
}

/// The reference one child of `iref` states.
pub open spec fn ref_of(kind: u32, wide: bool, b: Seq<u8>) -> Result<RefView, Error> {
    let w: int = if wide {
        4
    } else {
        2
    };
    if b.len() < w {
        Err(short(0, w))
    } else if b.len() < w + 2 {
        Err(short(w, 2))
    } else {
        let n = be16(b, w) as int;
        let whole = (b.len() - w - 2) / w;
        if whole < n {
            Err(short(w + 2 + whole * w, w))
        } else {
            Ok(
                RefView {
                    kind,
                    from: id_at(b, wide, 0),
                    to: Seq::new(n as nat, |i: int| id_at(b, wide, w + 2 + i * w)),
                },
            )
        }
    }
}

/// The references an `iref` box lists.
pub open spec fn iref_of(s: Seq<u8>, b: BoxSpan) -> Result<Seq<RefView>, Error> {
    if b.end - b.start < 4 {
        Err(short(b.start, 4))
    } else {
        let boxes = boxes_in(s, b.start + 4, b.end);
        let wide = s[b.start] != 0;
        collect(
            |i: int| ref_of(boxes[i].kind, wide, body(s, boxes[i])),
            0,
            boxes.len() as int,
        )
    }
}

/// The colour a `colr` payload states: a `nclx` triple, or anything else as an ICC
/// profile.
pub open spec fn colr_of(b: Seq<u8>) -> Result<PropView, Error> {
    if b.len() < 4 {
        Err(short(0, 4))
    } else if be32(b, 0) == NCLX {
        if b.len() < 6 {
            Err(short(4, 2))
        } else if b.len() < 8 {
            Err(short(6, 2))
        } else if b.len() < 10 {
            Err(short(8, 2))
        } else if b.len() < 11 {
            Err(short(10, 1))
        } else {
            Ok(
                PropView::Colr(
                    ColourView::Nclx {
                        primaries: be16(b, 4),
                        transfer: be16(b, 6),
                        matrix: be16(b, 8),
                        full_range: b[10] >= 0x80,
                    },
                ),
            )
        }
    } else {
        Ok(PropView::Colr(ColourView::Icc(b.skip(4))))
    }
}

/// The property one child of `ipco` states.
pub open spec fn prop_of(kind: u32, b: Seq<u8>) -> Result<PropView, Error> {
    if kind == HVCC {
        Ok(PropView::HvcC(b))
    } else if kind == ISPE {
        if b.len() < 4 {
            Err(short(0, 4))
        } else if b.len() < 8 {
            Err(short(4, 4))
        } else if b.len() < 12 {
            Err(short(8, 4))
        } else {
            Ok(PropView::Ispe { width: be32(b, 4), height: be32(b, 8) })
        }
    } else if kind == PIXI {
        if b.len() < 4 {
            Err(short(0, 4))
        } else if b.len() < 5 {
            Err(short(4, 1))
        } else if b.len() < 5 + b[4] {
            Err(short(5, b[4] as int))
        } else {
            Ok(PropView::Pixi(b.subrange(5, 5 + b[4])))
        }
    } else if kind == AUXC {
        if b.len() < 4 {
            Err(short(0, 4))
        } else {
            Ok(PropView::AuxC(text_of(text_at(b, 4))))
        }
    } else if kind == COLR {
        colr_of(b)
    } else if kind == CLLI {
        if b.len() < 2 {
            Err(short(0, 2))
        } else if b.len() < 4 {
            Err(short(2, 2))
        } else {
            Ok(PropView::Clli { max_cll: be16(b, 0), max_pall: be16(b, 2) })
        }
    } else if kind == IROT {
        Ok(
            PropView::Irot(
                if b.len() > 0 {
                    b[0] % 4
                } else {
                    0
                },
            ),
        )
    } else if kind == IMIR {
        Ok(
            PropView::Imir(
                if b.len() > 0 {
                    b[0] % 2
                } else {
                    0
                },
            ),
        )
    } else {
        Ok(PropView::Other)
    }
}

/// An association of an `ipma` entry: the property's position counted from 1, and
/// whether it is essential.
pub open spec fn assoc_at(b: Seq<u8>, large: bool, at: int) -> Association {
    if large {
        Association { index: be16(b, at) % 0x8000, essential: be16(b, at) >= 0x8000 }
    } else {
        Association { index: (b[at] % 0x80) as u16, essential: b[at] >= 0x80 }
    }
}

/// The next `k` entries of an `ipma` payload, from `at` on.
pub open spec fn assocs_from(b: Seq<u8>, wide: bool, large: bool, k: int, at: int) -> Result<
    Seq<AssocView>,
    Error,
>
    decreases k,
{
    let w: int = if wide {
        4
    } else {
        2
    };
    let q: int = if large {
        2
    } else {
        1
    };
    if k <= 0 {
        Ok(seq![])
    } else if b.len() < at + w {
        Err(short(at, w))
    } else if b.len() < at + w + 1 {
        Err(short(at + w, 1))
    } else {
        let n = b[at + w] as int;
        let first = at + w + 1;
        let whole = (b.len() - first) / q;
        if whole < n {
            Err(short(first + whole * q, q))
        } else {
            let entry = AssocView {
                item: id_at(b, wide, at),
                list: Seq::new(n as nat, |i: int| assoc_at(b, large, first + i * q)),
            };
            match assocs_from(b, wide, large, k - 1, first + n * q) {
                Err(e) => Err(e),
                Ok(rest) => Ok(seq![entry] + rest),
            }
        }
    }
}

/// The associations an `ipma` payload lists.
pub open spec fn ipma_of(b: Seq<u8>) -> Result<Seq<AssocView>, Error> {
    if b.len() < 1 {
        Err(short(0, 1))
    } else if b.len() < 4 {
        Err(short(1, 3))
    } else if b.len() < 8 {
        Err(short(4, 4))
    } else {
        assocs_from(b, b[0] != 0, b[3] % 2 == 1, be32(b, 4) as int, 8)
    }
}

/// The properties an `iprp` box holds.
pub open spec fn props_of(s: Seq<u8>, b: BoxSpan) -> Result<Seq<PropView>, Error> {
    match first_of(boxes_in(s, b.start, b.end), IPCO) {
        None => Err(Error::MissingBox(FourCc { code: IPCO })),
        Some(c) => {
            let boxes = boxes_in(s, c.start, c.end);
            collect(|i: int| prop_of(boxes[i].kind, body(s, boxes[i])), 0, boxes.len() as int)
        },
    }
}

/// The associations an `iprp` box holds, none when it has no `ipma`.
pub open spec fn assocs_of(s: Seq<u8>, b: BoxSpan) -> Result<Seq<AssocView>, Error> {
    match first_of(boxes_in(s, b.start, b.end), IPMA) {
        None => Ok(seq![]),
        Some(c) => ipma_of(body(s, c)),
    }
}

/// The field widths an `iloc` payload declares.
pub struct LocLayout {
    /// 16-bit identifiers and counts, or 32-bit ones.
    pub wide: bool,
    /// Whether entries state a construction method.
    pub methods: bool,
    pub offset_size: int,
    pub length_size: int,
    pub base_size: int,
    pub index_size: int,
}

/// The low 64 bits of the `n`-byte number at `at`.
pub open spec fn uint_at(b: Seq<u8>, at: int, n: int) -> u64 {
    wide_value(b.subrange(at, at + n))
}

/// The next `k` extents of an `iloc` entry, from `at` on, each moved by `base`.
pub open spec fn extents_from(b: Seq<u8>, l: LocLayout, base: u64, k: int, at: int) -> Result<
    Seq<Extent>,
    Error,
>
    decreases k,
{
    let o = at + l.index_size;
    let n = o + l.offset_size;
    let next = n + l.length_size;
    if k <= 0 {
        Ok(seq![])
    } else if b.len() < o {
        Err(short(at, l.index_size))
    } else if b.len() < n {
        Err(short(o, l.offset_size))
    } else if b.len() < next {
        Err(short(n, l.length_size))
    } else if base + uint_at(b, o, l.offset_size) > u64::MAX {
        Err(Error::Malformed(Malformed::BaseOffsetOverflow))
    } else {
        let x = Extent {
            offset: (base + uint_at(b, o, l.offset_size)) as u64,
            length: uint_at(b, n, l.length_size),
        };
        match extents_from(b, l, base, k - 1, next) {
            Err(e) => Err(e),
            Ok(rest) => Ok(seq![x] + rest),
        }
    }
}

/// The next `k` entries of an `iloc` payload, from `at` on.
pub open spec fn locs_from(b: Seq<u8>, l: LocLayout, k: int, at: int) -> Result<
    Seq<LocView>,
    Error,
>
    decreases k,
{
    let w: int = if l.wide {
        4
    } else {
        2
    };
    let m = at + w;
    let d = m + if l.methods {
        2int
    } else {
        0
    };
    let base = d + 2;
    let c = base + l.base_size;
    let first = c + 2;
    if k <= 0 {
        Ok(seq![])
    } else if b.len() < m {
        Err(short(at, w))
    } else if b.len() < d {
        Err(short(m, 2))
    } else if b.len() < base {
        Err(short(d, 2))
    } else if b.len() < c {
        Err(short(base, l.base_size))
    } else if b.len() < first {
        Err(short(c, 2))
    } else {
        let n = be16(b, c) as int;
        match extents_from(b, l, uint_at(b, base, l.base_size), n, first) {
            Err(e) => Err(e),
            Ok(extents) => {
                let entry = LocView {
                    item: id_at(b, l.wide, at),
                    method: if l.methods {
                        (be16(b, m) % 16) as u8
                    } else {
                        0
                    },
                    extents,
                };
                let next = first + n * (l.index_size + l.offset_size + l.length_size);
                match locs_from(b, l, k - 1, next) {
                    Err(e) => Err(e),
                    Ok(rest) => Ok(seq![entry] + rest),
                }
            },
        }
    }
}

/// The layout an `iloc` payload of at least six bytes declares.
pub open spec fn layout_of(b: Seq<u8>) -> LocLayout {
    LocLayout {
        wide: b[0] == 2,
        methods: b[0] == 1 || b[0] == 2,
        offset_size: b[4] as int / 16,
        length_size: b[4] as int % 16,
        base_size: b[5] as int / 16,
        index_size: if b[0] == 1 || b[0] == 2 {
            b[5] as int % 16
        } else {
            0
        },
    }
}

/// The locations an `iloc` payload lists.
pub open spec fn iloc_of(b: Seq<u8>) -> Result<Seq<LocView>, Error> {
    if b.len() < 1 {
        Err(short(0, 1))
    } else if b.len() < 4 {
        Err(short(1, 3))
    } else if b.len() < 5 {
        Err(short(4, 1))
    } else if b.len() < 6 {
        Err(short(5, 1))
    } else {
        let l = layout_of(b);
        if l.wide {
            if b.len() < 10 {
                Err(short(6, 4))
            } else {
                locs_from(b, l, be32(b, 6) as int, 10)
            }
        } else {
            if b.len() < 8 {
                Err(short(6, 2))
            } else {
                locs_from(b, l, be16(b, 6) as int, 8)
            }
        }
    }
}

/// What is known before any child of `meta` is read.
pub open spec fn nothing_yet() -> MetaView {
    MetaView {
        primary: None,
        items: seq![],
        refs: seq![],
        props: seq![],
        assocs: seq![],
        idat: None,
        locs: seq![],
    }
}

/// What is known after one more child of `meta`. A later child of a type replaces
/// an earlier one; types that nothing here needs are passed over.
pub open spec fn with_child(s: Seq<u8>, m: MetaView, b: BoxSpan) -> Result<MetaView, Error> {
    if b.kind == PITM {
        match pitm_of(body(s, b)) {
            Err(e) => Err(e),
            Ok(x) => Ok(MetaView { primary: Some(x), ..m }),
        }
    } else if b.kind == IINF {
        match iinf_of(s, b) {
            Err(e) => Err(e),
            Ok(x) => Ok(MetaView { items: x, ..m }),
        }
    } else if b.kind == IREF {
        match iref_of(s, b) {
            Err(e) => Err(e),
            Ok(x) => Ok(MetaView { refs: x, ..m }),
        }
    } else if b.kind == IPRP {
        match props_of(s, b) {
            Err(e) => Err(e),
            Ok(x) => match assocs_of(s, b) {
                Err(e) => Err(e),
                Ok(y) => Ok(MetaView { props: x, assocs: y, ..m }),
            },
        }
    } else if b.kind == IDAT {
        Ok(MetaView { idat: Some((b.start, b.end)), ..m })
    } else if b.kind == ILOC {
        match iloc_of(body(s, b)) {
            Err(e) => Err(e),
            Ok(x) => Ok(MetaView { locs: x, ..m }),
        }
    } else {
        Ok(m)
    }
}

/// What is known after the children from position `i` on.
pub open spec fn with_children(s: Seq<u8>, boxes: Seq<BoxSpan>, i: int, m: MetaView) -> Result<
    MetaView,
    Error,
>
    decreases boxes.len() - i,
{
    if i >= boxes.len() {
        Ok(m)
    } else {
        match with_child(s, m, boxes[i]) {
            Err(e) => Err(e),
            Ok(next) => with_children(s, boxes, i + 1, next),
        }
    }
}

/// The targets of the last reference of a type from an item, none when there is no
/// such reference.
pub open spec fn targets(refs: Seq<RefView>, kind: u32, from: ItemId) -> Seq<ItemId>
    decreases refs.len(),
{
    if refs.len() == 0 {
        seq![]
    } else if refs.last().kind == kind && refs.last().from == from {
        refs.last().to
    } else {
        targets(refs.drop_last(), kind, from)
    }
}

/// Every association of an item, over all its entries in order.
pub open spec fn all_assocs(assocs: Seq<AssocView>, item: ItemId) -> Seq<Association>
    decreases assocs.len(),
{
    if assocs.len() == 0 {
        seq![]
    } else {
        all_assocs(assocs.drop_last(), item) + if assocs.last().item == item {
            assocs.last().list
        } else {
            seq![]
        }
    }
}

/// The property an association names, if there is one at that position.
pub open spec fn prop_at(props: Seq<PropView>, a: Association) -> Option<PropView> {
    if 1 <= a.index <= props.len() {
        Some(props[a.index - 1])
    } else {
        None
    }
}

/// The last size among some associated properties.
pub open spec fn last_size(props: Seq<PropView>, list: Seq<Association>) -> Option<(u32, u32)>
    decreases list.len(),
{
    if list.len() == 0 {
        None
    } else {
        match prop_at(props, list.last()) {
            Some(PropView::Ispe { width, height }) => Some((width, height)),
            _ => last_size(props, list.drop_last()),
        }
    }
}

/// The last auxiliary type among some associated properties.
pub open spec fn last_urn(props: Seq<PropView>, list: Seq<Association>) -> Option<Seq<char>>
    decreases list.len(),
{
    if list.len() == 0 {
        None
    } else {
        match prop_at(props, list.last()) {
            Some(PropView::AuxC(urn)) => Some(urn),
            _ => last_urn(props, list.drop_last()),
        }
    }
}

/// Whether no earlier item has the identifier of item `i`. References and
/// properties go to the first item with an identifier.
pub open spec fn is_first(items: Seq<ItemView>, i: int) -> bool {
    forall|j: int| 0 <= j < i ==> (#[trigger] items[j]).id != items[i].id
}

/// Item `i` with the references and properties that name it.
pub open spec fn resolved(m: MetaView, i: int) -> ItemView {
    let item = m.items[i];
    if is_first(m.items, i) {
        let list = all_assocs(m.assocs, item.id);
        ItemView {
            width: match last_size(m.props, list) {
                Some(wh) => Some(wh.0),
                None => None,
            },
            height: match last_size(m.props, list) {
                Some(wh) => Some(wh.1),
                None => None,
            },
            aux_urn: last_urn(m.props, list),
            derives_from: targets(m.refs, DIMG, item.id),
            auxiliary_to: targets(m.refs, AUXL, item.id),
            describes: targets(m.refs, CDSC, item.id),
            ..item
        }
    } else {
        item
    }
}

/// Every item with the references and properties that name it.
pub open spec fn resolved_items(m: MetaView) -> Seq<ItemView> {
    Seq::new(m.items.len(), |i: int| resolved(m, i))
}

/// What a file states, or why it is refused.
pub open spec fn file_of(s: Seq<u8>) -> Result<FileView, Error> {
    let top = boxes_in(s, 0, s.len() as int);
    match first_of(top, FTYP) {
        None => Err(Error::MissingBox(FourCc { code: FTYP })),
        Some(f) => if f.end - f.start < 8 {
            Err(short(f.start, 8))
        } else {
            match first_of(top, META) {
                None => Err(Error::MissingBox(FourCc { code: META })),
                Some(b) => if b.end - b.start < 4 {
                    Err(short(b.start, 4))
                } else {
                    match with_children(s, boxes_in(s, b.start + 4, b.end), 0, nothing_yet()) {
                        Err(e) => Err(e),
                        Ok(m) => Ok(
                            FileView {
                                bytes: s,
                                brands: brands_of(body(s, f)),
                                primary: m.primary,
                                items: resolved_items(m),
                                props: m.props,
                                assocs: m.assocs,
                                idat: m.idat,
                                locs: m.locs,
                            },
                        ),
                    }
                },
            }
        },
    }
}

/// The first location entry for an item.
pub open spec fn location(locs: Seq<LocView>, item: ItemId) -> Option<LocView>
    decreases locs.len(),
{
    if locs.len() == 0 {
        None
    } else if locs[0].item == item {
        Some(locs[0])
    } else {
        location(locs.skip(1), item)
    }
}

/// The byte range of the file one extent of item `id` covers.
pub open spec fn range_of(f: FileView, id: ItemId, method: u8, x: Extent) -> Result<
    (int, int),
    Error,
> {
    if method > 1 {
        Err(Error::Unsupported(Unsupported::ConstructionMethod(method)))
    } else if method == 1 && f.idat is None {
        Err(Error::MissingBox(FourCc { code: IDAT }))
    } else if x.offset > usize::MAX {
        Err(Error::Malformed(Malformed::OffsetOverflow))
    } else {
        let start = if method == 0 {
            x.offset as int
        } else {
            f.idat->Some_0.0 + x.offset
        };
        if start > usize::MAX {
            Err(Error::Malformed(Malformed::IdatOffsetOverflow))
        } else if method == 1 && start > f.idat->Some_0.1 {
            Err(Error::Malformed(Malformed::PastIdatEnd(id)))
        } else if x.length > usize::MAX {
            Err(Error::Malformed(Malformed::LengthOverflow))
        } else if start + x.length > usize::MAX {
            Err(Error::Malformed(Malformed::EndOverflow))
        } else if start + x.length > f.bytes.len() {
            Err(short(start, x.length as int))
        } else {
            Ok((start, start + x.length))
        }
    }
}

/// `x` put into `xs` behind every range that does not start later.
pub open spec fn insert_by_start(xs: Seq<(int, int)>, x: (int, int)) -> Seq<(int, int)>
    decreases xs.len(),
{
    if xs.len() == 0 {
        seq![x]
    } else if xs.last().0 <= x.0 {
        xs.push(x)
    } else {
        insert_by_start(xs.drop_last(), x).push(xs.last())
    }
}

/// Ranges by where they start, equal starts in their given order.
pub open spec fn by_start(xs: Seq<(int, int)>) -> Seq<(int, int)>
    decreases xs.len(),
{
    if xs.len() == 0 {
        xs
    } else {
        insert_by_start(by_start(xs.drop_last()), xs.last())
    }
}

/// Whether each range starts where the one before it ends.
pub open spec fn contiguous(xs: Seq<(int, int)>) -> bool {
    forall|k: int| 1 <= k < xs.len() ==> (#[trigger] xs[k]).0 == xs[k - 1].1
}

/// The byte ranges of an item's extents.
pub open spec fn ranges_of(f: FileView, id: ItemId, l: LocView) -> Result<Seq<(int, int)>, Error> {
    collect(|i: int| range_of(f, id, l.method, l.extents[i]), 0, l.extents.len() as int)
}

/// An item's data: its extents in file order, which have to be one run.
pub open spec fn data_of(f: FileView, id: ItemId) -> Result<Seq<u8>, Error> {
    match location(f.locs, id) {
        None => Err(Error::Malformed(Malformed::NoLocation(id))),
        Some(l) => if l.extents.len() == 0 {
            Err(Error::Malformed(Malformed::NoExtents(id)))
        } else {
            match ranges_of(f, id, l) {
                Err(e) => Err(e),
                Ok(xs) => {
                    let sorted = by_start(xs);
                    if !contiguous(sorted) {
                        Err(Error::Unsupported(Unsupported::ScatteredExtents))
                    } else {
                        Ok(f.bytes.subrange(sorted[0].0, sorted.last().1))
                    }
                },
            }
        },
    }
}

/// The first item from position `i` on whose auxiliary type is `urn`.
pub open spec fn find_urn(items: Seq<ItemView>, urn: Seq<char>, i: int) -> Option<ItemView>
    decreases items.len() - i,
{
    if i >= items.len() {
        None
    } else if items[i].aux_urn == Some(urn) {
        Some(items[i])
    } else {
        find_urn(items, urn, i + 1)
    }
}

/// The first item from position `i` on whose type is `kind`.
pub open spec fn find_kind(items: Seq<ItemView>, kind: u32, i: int) -> Option<ItemView>
    decreases items.len() - i,
{
    if i >= items.len() {
        None
    } else if items[i].kind == kind {
        Some(items[i])
    } else {
        find_kind(items, kind, i + 1)
    }
}

/// The first item from position `i` on whose identifier is `id`.
pub open spec fn find_id(items: Seq<ItemView>, id: ItemId, i: int) -> Option<ItemView>
    decreases items.len() - i,
{
    if i >= items.len() {
        None
    } else if items[i].id == id {
        Some(items[i])
    } else {
        find_id(items, id, i + 1)
    }
}

/// The metadata a `tmap` item's payload states behind its version byte, if it is
/// readable.
pub open spec fn tmap_meta(f: FileView, id: ItemId) -> Option<GainMapMeta> {
    match data_of(f, id) {
        Err(_) => None,
        Ok(p) => if p.len() < 1 {
            None
        } else {
            match parsed(p.skip(1)) {
                Ok(m) => Some(m),
                Err(_) => None,
            }
        },
    }
}

/// Where a file's gain map is: the image with Apple's auxiliary type if there is
/// one, else the second input of a `tmap` that has two.
pub open spec fn gain_map_of(f: FileView) -> Option<GainMapInfo> {
    let apple = find_urn(f.items, APPLE_GAINMAP_URN@, 0);
    let tmap = find_kind(f.items, TMAP, 0);
    let tmap_item = match tmap {
        Some(t) => Some(t.id),
        None => None,
    };
    let meta = match tmap {
        Some(t) => tmap_meta(f, t.id),
        None => None,
    };
    match apple {
        Some(a) => Some(GainMapInfo { image_item: a.id, apple_aux: true, tmap_item, meta }),
        None => match tmap {
            Some(t) => if t.derives_from.len() == 2 {
                Some(
                    GainMapInfo {
                        image_item: t.derives_from[1],
                        apple_aux: false,
                        tmap_item,
                        meta,
                    },
                )
            } else {
                None
            },
            None => None,
        },
    }
}

/// The associations of the first entry for an item.
pub open spec fn first_assocs(assocs: Seq<AssocView>, item: ItemId) -> Seq<Association>
    decreases assocs.len(),
{
    if assocs.len() == 0 {
        seq![]
    } else if assocs[0].item == item {
        assocs[0].list
    } else {
        first_assocs(assocs.skip(1), item)
    }
}

/// The last decoder configuration among some associated properties.
pub open spec fn last_hvcc(props: Seq<PropView>, list: Seq<Association>) -> Option<Seq<u8>>
    decreases list.len(),
{
    if list.len() == 0 {
        None
    } else {
        match prop_at(props, list.last()) {
            Some(PropView::HvcC(v)) => Some(v),
            _ => last_hvcc(props, list.drop_last()),
        }
    }
}

/// The last per-channel bit depths among some associated properties.
pub open spec fn last_pixi(props: Seq<PropView>, list: Seq<Association>) -> Option<Seq<u8>>
    decreases list.len(),
{
    if list.len() == 0 {
        None
    } else {
        match prop_at(props, list.last()) {
            Some(PropView::Pixi(v)) => Some(v),
            _ => last_pixi(props, list.drop_last()),
        }
    }
}

/// The chroma format and luma bit depth an `hvcC` record of sufficient length
/// states.
pub open spec fn hvcc_format(h: Seq<u8>) -> Option<(u8, u8)> {
    if h.len() < 19 {
        None
    } else {
        Some((h[16] % 4, (h[17] % 8 + 8) as u8))
    }
}

/// The chroma sampling of a coded image: the decoder configuration's, or a guess
/// from the number of channels when that is too short to say.
pub open spec fn chroma_of(h: Seq<u8>, bits: Seq<u8>) -> Chroma {
    match hvcc_format(h) {
        Some(c) => if c.0 == 0 {
            Chroma::Monochrome
        } else if c.0 == 1 {
            Chroma::Yuv420
        } else if c.0 == 2 {
            Chroma::Yuv422
        } else {
            Chroma::Yuv444
        },
        None => if bits.len() == 1 {
            Chroma::Monochrome
        } else {
            Chroma::Yuv420
        },
    }
}

/// The bit depth of a coded image: the decoder configuration's, or the first
/// channel's when that is too short to say.
pub open spec fn depth_of(h: Seq<u8>, bits: Seq<u8>) -> u8 {
    match hvcc_format(h) {
        Some(c) => c.1,
        None => if bits.len() > 0 {
            bits[0]
        } else {
            8
        },
    }
}

/// An item's coded image: its data, and the properties of its first association
/// entry.
pub open spec fn coded_of(f: FileView, id: ItemId) -> Result<CodedView, Error> {
    match find_id(f.items, id, 0) {
        None => Err(Error::Malformed(Malformed::NoSuchItem(id))),
        Some(item) => if item.kind == GRID {
            Err(Error::Unsupported(Unsupported::Grid))
        } else {
            match data_of(f, id) {
                Err(e) => Err(e),
                Ok(data) => {
                    let list = first_assocs(f.assocs, id);
                    match last_hvcc(f.props, list) {
                        None => Err(Error::MissingBox(FourCc { code: HVCC })),
                        Some(hvcc) => match last_size(f.props, list) {
                            None => Err(Error::MissingBox(FourCc { code: ISPE })),
                            Some(wh) => {
                                let bits = match last_pixi(f.props, list) {
                                    Some(b) => b,
                                    None => seq![8u8],
                                };
                                Ok(
                                    CodedView {
                                        width: wh.0,
                                        height: wh.1,
                                        bit_depth: depth_of(hvcc, bits),
                                        chroma: chroma_of(hvcc, bits),
                                        hvcc,
                                        data,
                                    },
                                )
                            },
                        },
                    }
                },
            }
        },
    }
}

} // verus!
