//! HEIF/ISOBMFF reader: `HeifFile::parse` and its accessors.
//!
//! Parses just enough of `meta` to locate items, their properties, and their
//! byte ranges: not a general decoder.

use vstd::prelude::*;

use crate::bytes::{be16, be32, get_be32, span, to_owned_bytes};
use crate::heif::boxes::{BoxHeader, Reader, boxes_in, find_box, list_boxes, spans};
use crate::heif::model::{
    AUXC, AUXL, AssocView, CDSC, CLLI, COLR, DIMG, FTYP, FileView, GRID, HVCC, IDAT, IINF, ILOC,
    IMIR, INFE, IPCO, IPMA, IPRP, IREF, IROT, ISPE, ItemView, LocLayout, LocView, META, MIME,
    MetaView, NCLX, PITM, PIXI, PropView, RefView, TMAP, URI, after, all_assocs, assoc_at,
    assocs_from, assocs_of, body, brands_of, by_start, coded_of, collect, colr_of, contiguous,
    data_of, extents_from, file_of, find_id, find_kind, find_urn, first_assocs, gain_map_of,
    hvcc_format, id_at, iinf_of, iloc_of, infe_of, insert_by_start, ipma_of, iref_of, is_first,
    items_from, last_hvcc, last_pixi, last_size, last_urn, layout_of, location, locs_from,
    next_text, nothing_yet, pitm_of, prop_of, props_of, range_of, ranges_of, ref_of, resolved,
    resolved_items, short, targets, text_at, text_end, with_child, with_children,
};
use crate::heif::{
    APPLE_GAINMAP_URN, Association, Chroma, CodedImage, CodedView, ColourInfo, Error, Extent,
    FourCc, GainMapInfo, HeifFile, IlocItem, IpmaEntry, Item, ItemId, Malformed, Prop,
    Reference, Unsupported, opt_text, views,
};
use crate::iso21496;
use crate::meta::GainMapMeta;
use crate::text::{decode_lossy, text_of};

verus! {

/// The end of the zero-terminated text that starts at `at`.
fn find_text_end(b: &[u8], at: usize) -> (end: usize)
    requires
        at <= b@.len(),
    ensures
        end == text_end(b@, at as int),
        at <= end <= b@.len(),
{
    let mut i: usize = at;
    while i < b.len()
        invariant
            at <= i <= b@.len(),
            text_end(b@, at as int) == text_end(b@, i as int),
        decreases b@.len() - i,
    {
        if b[i] == 0 {
            return i;
        }
        i = i + 1;
    }
    i
}

/// The zero-terminated text that starts at `at`, and where the next one starts.
fn read_text(b: &[u8], at: usize) -> (r: (String, usize))
    requires
        at <= b@.len(),
    ensures
        r.0@ == text_of(text_at(b@, at as int)),
        r.1 == next_text(b@, at as int),
        r.1 <= b@.len(),
{
    let end: usize = find_text_end(b, at);
    let raw = span(b, at, end);
    assert(raw@ =~= text_at(b@, at as int));
    let next: usize = if end >= b.len() {
        b.len()
    } else {
        end + 1
    };
    (decode_lossy(raw), next)
}

fn parse_pitm(b: &[u8]) -> (r: Result<ItemId, Error>)
    ensures
        r == pitm_of(b@),
{
    let mut r = Reader::new(b);
    let version: u8 = r.u8()?;
    r.skip(3)?;
    if version == 0 {
        match r.u16() {
            Ok(v) => Ok(v as u32),
            Err(e) => Err(e),
        }
    } else {
        r.u32()
    }
}

fn parse_infe(b: &[u8]) -> (r: Result<Item, Error>)
    ensures
        match r {
            Ok(i) => infe_of(b@) == Ok::<ItemView, Error>(i@),
            Err(e) => infe_of(b@) == Err::<ItemView, Error>(e),
        },
{
    let mut r = Reader::new(b);
    let version: u8 = r.u8()?;
    let flags = r.take(3)?;
    let hidden: bool = flags[2] % 2 == 1;
    assert(flags@[2] == b@[3]);
    if version > 3 {
        return Err(Error::Unsupported(Unsupported::InfeVersion(version)));
    }
    let id: u32 = if version == 3 {
        r.u32()?
    } else {
        r.u16()? as u32
    };
    r.skip(2)?;
    let item_type: [u8; 4] = if version >= 2 {
        r.fixed4()?
    } else {
        [0, 0, 0, 0]
    };
    let ghost wide: int = if version == 3 {
        4
    } else {
        2
    };
    proof {
        if version >= 2 {
            let w = b@.subrange(6 + wide, 10 + wide);
            assert(item_type@ == w);
            assert(w[0] == b@[6 + wide] && w[1] == b@[7 + wide] && w[2] == b@[8 + wide] && w[3]
                == b@[9 + wide]);
            assert(be32(item_type@, 0) == be32(b@, 6 + wide));
        } else {
            assert(be32(item_type@, 0) == 0);
        }
    }
    let kind: u32 = get_be32(vstd::array::array_as_slice(&item_type), 0);
    let (name, next): (String, usize) = read_text(b, r.pos);
    let (more, _rest): (String, usize) = read_text(b, next);
    let mut content_type: Option<String> = None;
    let mut uri_type: Option<String> = None;
    if kind == MIME {
        content_type = Some(more);
    } else if kind == URI {
        uri_type = Some(more);
    }
    let item = Item {
        id,
        item_type,
        name,
        content_type,
        uri_type,
        hidden,
        width: None,
        height: None,
        aux_urn: None,
        derives_from: Vec::new(),
        auxiliary_to: Vec::new(),
        describes: Vec::new(),
    };
    Ok(item)
}

fn parse_iinf(bytes: &[u8], b: &BoxHeader) -> (r: Result<Vec<Item>, Error>)
    requires
        b.body_start <= b.body_end <= bytes@.len(),
    ensures
        match r {
            Ok(v) => iinf_of(bytes@, b@) == Ok::<Seq<ItemView>, Error>(views(v@)),
            Err(e) => iinf_of(bytes@, b@) == Err::<Seq<ItemView>, Error>(e),
        },
{
    if b.body_end - b.body_start < 4 {
        return Err(Error::Truncated { at: b.body_start, need: 4 });
    }
    let count_width: usize = if bytes[b.body_start] == 0 {
        2
    } else {
        4
    };
    let mut out: Vec<Item> = Vec::new();
    if b.body_end - b.body_start < 4 + count_width {
        assert(boxes_in(bytes@, b.body_start + 4 + count_width, b.body_end as int) =~= seq![]);
        assert(views(out@) =~= seq![]);
        return Ok(out);
    }
    let first: usize = b.body_start + 4 + count_width;
    let children = list_boxes(bytes, first, b.body_end);
    let ghost boxes = boxes_in(bytes@, first as int, b.body_end as int);
    let mut i: usize = 0;
    assert(views(out@) =~= seq![]);
    assert(after(views(out@), items_from(bytes@, boxes, 0)) == items_from(bytes@, boxes, 0)) by {
        match items_from(bytes@, boxes, 0) {
            Ok(v) => {
                assert(seq![] + v =~= v);
            },
            Err(_) => {},
        }
    }
    while i < children.len()
        invariant
            i <= children@.len(),
            spans(children@) == boxes,
            iinf_of(bytes@, b@) == items_from(bytes@, boxes, 0),
            after(views(out@), items_from(bytes@, boxes, i as int)) == items_from(
                bytes@,
                boxes,
                0,
            ),
            forall|k: int| 0 <= k < children@.len() ==> (#[trigger] children@[k]).body_start
                <= children@[k].body_end <= bytes@.len(),
        decreases children@.len() - i,
    {
        let c = &children[i];
        assert(boxes[i as int] == c@);
        if c.kind == INFE {
            let ghost before = out@;
            let ghost rest = items_from(bytes@, boxes, i + 1);
            let item = parse_infe(span(bytes, c.body_start, c.body_end))?;
            out.push(item);
            proof {
                assert(views(out@) =~= views(before).push(item@));
                match rest {
                    Ok(v) => {
                        assert(views(before) + (seq![item@] + v) =~= views(out@) + v);
                    },
                    Err(_) => {},
                }
            }
        }
        i = i + 1;
    }
    assert(views(out@) + Seq::<ItemView>::empty() =~= views(out@));
    Ok(out)
}

fn parse_reference(kind: u32, wide: bool, b: &[u8]) -> (r: Result<Reference, Error>)
    ensures
        match r {
            Ok(x) => ref_of(kind, wide, b@) == Ok::<RefView, Error>(x@),
            Err(e) => ref_of(kind, wide, b@) == Err::<RefView, Error>(e),
        },
{
    let ghost w: int = if wide {
        4
    } else {
        2
    };
    let mut r = Reader::new(b);
    let from: u32 = if wide {
        r.u32()?
    } else {
        r.u16()? as u32
    };
    let count: u16 = r.u16()?;
    let mut to: Vec<ItemId> = Vec::new();
    let mut i: u16 = 0;
    while i < count
        invariant
            i <= count,
            r.valid(),
            r.bytes == b,
            w == if wide {
                4int
            } else {
                2
            },
            r.pos == w + 2 + i * w,
            count == be16(b@, w),
            to@.len() == i,
            forall|k: int| 0 <= k < i ==> #[trigger] to@[k] == id_at(b@, wide, w + 2 + k * w),
        decreases count - i,
    {
        let next: Result<u32, Error> = if wide {
            r.u32()
        } else {
            match r.u16() {
                Ok(v) => Ok(v as u32),
                Err(e) => Err(e),
            }
        };
        match next {
            Ok(v) => {
                to.push(v);
            },
            Err(e) => {
                assert((b@.len() - w - 2) / w == i) by (nonlinear_arith)
                    requires
                        w + 2 + i * w <= b@.len() < w + 2 + i * w + w,
                        w == 2 || w == 4,
                ;
                return Err(e);
            },
        }
        assert((i + 1) * w == i * w + w) by (nonlinear_arith);
        i = i + 1;
    }
    assert((b@.len() - w - 2) / w >= count) by (nonlinear_arith)
        requires
            w + 2 + count * w <= b@.len(),
            w == 2 || w == 4,
    ;
    assert(to@ =~= Seq::new(count as nat, |i: int| id_at(b@, wide, w + 2 + i * w)));
    Ok(Reference { kind, from, to })
}

fn parse_iref(bytes: &[u8], b: &BoxHeader) -> (r: Result<Vec<Reference>, Error>)
    requires
        b.body_start <= b.body_end <= bytes@.len(),
    ensures
        match r {
            Ok(v) => iref_of(bytes@, b@) == Ok::<Seq<RefView>, Error>(views(v@)),
            Err(e) => iref_of(bytes@, b@) == Err::<Seq<RefView>, Error>(e),
        },
{
    if b.body_end - b.body_start < 4 {
        return Err(Error::Truncated { at: b.body_start, need: 4 });
    }
    let wide: bool = bytes[b.body_start] != 0;
    let children = list_boxes(bytes, b.body_start + 4, b.body_end);
    let ghost boxes = boxes_in(bytes@, b.body_start + 4, b.body_end as int);
    let ghost f = |i: int| ref_of(boxes[i].kind, wide, body(bytes@, boxes[i]));
    let ghost n = boxes.len() as int;
    let mut out: Vec<Reference> = Vec::new();
    let mut i: usize = 0;
    proof {
        assert(views(out@) =~= seq![]);
        lemma_after_nothing(collect(f, 0, n));
    }
    while i < children.len()
        invariant
            i <= children@.len(),
            n == boxes.len(),
            spans(children@) == boxes,
            f == (|i: int| ref_of(boxes[i].kind, wide, body(bytes@, boxes[i]))),
            iref_of(bytes@, b@) == collect(f, 0, n),
            after(views(out@), collect(f, i as int, n)) == collect(f, 0, n),
            forall|k: int| 0 <= k < children@.len() ==> (#[trigger] children@[k]).body_start
                <= children@[k].body_end <= bytes@.len(),
        decreases children@.len() - i,
    {
        let c = &children[i];
        assert(boxes[i as int] == c@);
        let ghost before = out@;
        let x = parse_reference(c.kind, wide, span(bytes, c.body_start, c.body_end))?;
        out.push(x);
        proof {
            assert(f(i as int) == Ok::<RefView, Error>(x@));
            assert(views(out@) =~= views(before).push(x@));
            lemma_after_push(views(before), x@, collect(f, i + 1, n));
        }
        i = i + 1;
    }
    assert(views(out@) + Seq::<RefView>::empty() =~= views(out@));
    Ok(out)
}

proof fn lemma_after_nothing<T>(r: Result<Seq<T>, Error>)
    ensures
        after(Seq::<T>::empty(), r) == r,
{
    match r {
        Ok(v) => {
            assert(Seq::<T>::empty() + v =~= v);
        },
        Err(_) => {},
    }
}

proof fn lemma_after_push<T>(front: Seq<T>, x: T, rest: Result<Seq<T>, Error>)
    ensures
        after(front.push(x), rest) == match rest {
            Ok(v) => Ok::<Seq<T>, Error>(front + (seq![x] + v)),
            Err(e) => Err::<Seq<T>, Error>(e),
        },
{
    match rest {
        Ok(v) => {
            assert(front.push(x) + v =~= front + (seq![x] + v));
        },
        Err(_) => {},
    }
}

fn parse_colr(b: &[u8]) -> (r: Result<Prop, Error>)
    ensures
        match r {
            Ok(x) => colr_of(b@) == Ok::<PropView, Error>(x@),
            Err(e) => colr_of(b@) == Err::<PropView, Error>(e),
        },
{
    let mut r = Reader::new(b);
    let ctype: u32 = r.u32()?;
    if ctype == NCLX {
        let primaries: u16 = r.u16()?;
        let transfer: u16 = r.u16()?;
        let matrix: u16 = r.u16()?;
        let range: u8 = r.u8()?;
        Ok(
            Prop::Colr(
                ColourInfo::Nclx { primaries, transfer, matrix, full_range: range >= 0x80 },
            ),
        )
    } else {
        let icc = to_owned_bytes(span(b, 4, b.len()));
        assert(icc@ =~= b@.skip(4));
        Ok(Prop::Colr(ColourInfo::Icc(icc)))
    }
}

fn parse_property(kind: u32, b: &[u8]) -> (r: Result<Prop, Error>)
    ensures
        match r {
            Ok(x) => prop_of(kind, b@) == Ok::<PropView, Error>(x@),
            Err(e) => prop_of(kind, b@) == Err::<PropView, Error>(e),
        },
{
    if kind == HVCC {
        Ok(Prop::HvcC(to_owned_bytes(b)))
    } else if kind == ISPE {
        let mut r = Reader::new(b);
        r.skip(4)?;
        let width: u32 = r.u32()?;
        let height: u32 = r.u32()?;
        Ok(Prop::Ispe { width, height })
    } else if kind == PIXI {
        let mut r = Reader::new(b);
        r.skip(4)?;
        let n: u8 = r.u8()?;
        let bits = r.take(n as usize)?;
        Ok(Prop::Pixi { bits: to_owned_bytes(bits) })
    } else if kind == AUXC {
        let mut r = Reader::new(b);
        r.skip(4)?;
        let (urn, _next): (String, usize) = read_text(b, 4);
        Ok(Prop::AuxC(urn))
    } else if kind == COLR {
        parse_colr(b)
    } else if kind == CLLI {
        let mut r = Reader::new(b);
        let max_cll: u16 = r.u16()?;
        let max_pall: u16 = r.u16()?;
        Ok(Prop::Clli { max_cll, max_pall })
    } else if kind == IROT {
        if b.len() > 0 {
            Ok(Prop::Irot(b[0] % 4))
        } else {
            Ok(Prop::Irot(0))
        }
    } else if kind == IMIR {
        if b.len() > 0 {
            Ok(Prop::Imir(b[0] % 2))
        } else {
            Ok(Prop::Imir(0))
        }
    } else {
        Ok(Prop::Other)
    }
}

fn parse_props(bytes: &[u8], b: &BoxHeader) -> (r: Result<Vec<Prop>, Error>)
    requires
        b.body_start <= b.body_end <= bytes@.len(),
    ensures
        match r {
            Ok(v) => props_of(bytes@, b@) == Ok::<Seq<PropView>, Error>(views(v@)),
            Err(e) => props_of(bytes@, b@) == Err::<Seq<PropView>, Error>(e),
        },
{
    let ipco = match find_box(bytes, b.body_start, b.body_end, IPCO) {
        Some(h) => h,
        None => {
            return Err(Error::MissingBox(FourCc { code: IPCO }));
        },
    };
    let children = list_boxes(bytes, ipco.body_start, ipco.body_end);
    let ghost boxes = boxes_in(bytes@, ipco.body_start as int, ipco.body_end as int);
    let ghost f = |i: int| prop_of(boxes[i].kind, body(bytes@, boxes[i]));
    let ghost n = boxes.len() as int;
    let mut out: Vec<Prop> = Vec::new();
    let mut i: usize = 0;
    proof {
        assert(views(out@) =~= seq![]);
        lemma_after_nothing(collect(f, 0, n));
    }
    while i < children.len()
        invariant
            i <= children@.len(),
            n == boxes.len(),
            spans(children@) == boxes,
            f == (|i: int| prop_of(boxes[i].kind, body(bytes@, boxes[i]))),
            props_of(bytes@, b@) == collect(f, 0, n),
            after(views(out@), collect(f, i as int, n)) == collect(f, 0, n),
            forall|k: int| 0 <= k < children@.len() ==> (#[trigger] children@[k]).body_start
                <= children@[k].body_end <= bytes@.len(),
        decreases children@.len() - i,
    {
        let c = &children[i];
        assert(boxes[i as int] == c@);
        let ghost before = out@;
        let x = parse_property(c.kind, span(bytes, c.body_start, c.body_end))?;
        out.push(x);
        proof {
            assert(f(i as int) == Ok::<PropView, Error>(x@));
            assert(views(out@) =~= views(before).push(x@));
            lemma_after_push(views(before), x@, collect(f, i + 1, n));
        }
        i = i + 1;
    }
    assert(views(out@) + Seq::<PropView>::empty() =~= views(out@));
    Ok(out)
}

/// The associations of one `ipma` entry, `n` of them from the cursor on.
fn parse_association_list(r: &mut Reader, large: bool, n: u8) -> (out: Result<
    Vec<Association>,
    Error,
>)
    requires
        old(r).valid(),
    ensures
        final(r).valid(),
        final(r).bytes == old(r).bytes,
        ({
            let b = old(r).bytes@;
            let q: int = if large {
                2
            } else {
                1
            };
            let first = old(r).pos as int;
            let whole = (b.len() - first) / q;
            match out {
                Ok(v) => whole >= n && v@ == Seq::new(
                    n as nat,
                    |i: int| assoc_at(b, large, first + i * q),
                ) && final(r).pos == first + n * q,
                Err(e) => whole < n && e == short(first + whole * q, q),
            }
        }),
{
    let ghost b = r.bytes@;
    let ghost q: int = if large {
        2
    } else {
        1
    };
    let ghost first = r.pos as int;
    let mut list: Vec<Association> = Vec::new();
    let mut i: u8 = 0;
    while i < n
        invariant
            i <= n,
            r.valid(),
            r.bytes@ == b,
            r.bytes == old(r).bytes,
            q == if large {
                2int
            } else {
                1
            },
            r.pos == first + i * q,
            list@.len() == i,
            forall|k: int| 0 <= k < i ==> #[trigger] list@[k] == assoc_at(b, large, first + k * q),
            b == old(r).bytes@,
            first == old(r).pos,
        decreases n - i,
    {
        let next: Result<Association, Error> = if large {
            match r.u16() {
                Ok(v) => Ok(Association { index: v % 0x8000, essential: v >= 0x8000 }),
                Err(e) => Err(e),
            }
        } else {
            match r.u8() {
                Ok(v) => Ok(Association { index: (v % 0x80) as u16, essential: v >= 0x80 }),
                Err(e) => Err(e),
            }
        };
        match next {
            Ok(a) => {
                list.push(a);
            },
            Err(e) => {
                assert((b.len() - first) / q == i) by (nonlinear_arith)
                    requires
                        first + i * q <= b.len() < first + i * q + q,
                        q == 2 || q == 1,
                ;
                return Err(e);
            },
        }
        assert((i + 1) * q == i * q + q) by (nonlinear_arith);
        i = i + 1;
    }
    assert((b.len() - first) / q >= n) by (nonlinear_arith)
        requires
            first + n * q <= b.len(),
            q == 2 || q == 1,
    ;
    assert(list@ =~= Seq::new(n as nat, |i: int| assoc_at(b, large, first + i * q)));
    Ok(list)
}

fn parse_ipma(b: &[u8]) -> (out: Result<Vec<IpmaEntry>, Error>)
    ensures
        match out {
            Ok(v) => ipma_of(b@) == Ok::<Seq<AssocView>, Error>(views(v@)),
            Err(e) => ipma_of(b@) == Err::<Seq<AssocView>, Error>(e),
        },
{
    let mut r = Reader::new(b);
    let version: u8 = r.u8()?;
    let flags = r.take(3)?;
    let large: bool = flags[2] % 2 == 1;
    assert(flags@[2] == b@[3]);
    let wide: bool = version != 0;
    let count: u32 = r.u32()?;
    let mut list: Vec<IpmaEntry> = Vec::new();
    let mut i: u32 = 0;
    proof {
        assert(views(list@) =~= seq![]);
        lemma_after_nothing(assocs_from(b@, wide, large, count as int, 8));
    }
    while i < count
        invariant
            i <= count,
            r.valid(),
            r.bytes == b,
            ipma_of(b@) == after(
                views(list@),
                assocs_from(b@, wide, large, count - i, r.pos as int),
            ),
        decreases count - i,
    {
        let ghost before = list@;
        let ghost at = r.pos as int;
        let item_id: u32 = if wide {
            r.u32()?
        } else {
            r.u16()? as u32
        };
        let n: u8 = r.u8()?;
        let assocs = parse_association_list(&mut r, large, n)?;
        let entry = IpmaEntry { item_id, list: assocs };
        list.push(entry);
        proof {
            assert(views(list@) =~= views(before).push(entry@));
            lemma_after_push(
                views(before),
                entry@,
                assocs_from(b@, wide, large, count - i - 1, r.pos as int),
            );
        }
        i = i + 1;
    }
    assert(views(list@) + Seq::<AssocView>::empty() =~= views(list@));
    Ok(list)
}

/// The extents of one `iloc` entry, `n` of them from the cursor on.
fn parse_extents(
    r: &mut Reader,
    index_size: usize,
    offset_size: usize,
    length_size: usize,
    base: u64,
    n: u16,
    Ghost(l): Ghost<LocLayout>,
) -> (out: Result<Vec<Extent>, Error>)
    requires
        old(r).valid(),
        l.index_size == index_size <= 15,
        l.offset_size == offset_size <= 15,
        l.length_size == length_size <= 15,
    ensures
        final(r).valid(),
        final(r).bytes == old(r).bytes,
        ({
            let all = extents_from(old(r).bytes@, l, base, n as int, old(r).pos as int);
            match out {
                Ok(v) => all == Ok::<Seq<Extent>, Error>(v@) && final(r).pos == old(r).pos + n * (
                l.index_size + l.offset_size + l.length_size),
                Err(e) => all == Err::<Seq<Extent>, Error>(e),
            }
        }),
{
    let ghost b = r.bytes@;
    let ghost first = r.pos as int;
    let ghost step = l.index_size + l.offset_size + l.length_size;
    let mut list: Vec<Extent> = Vec::new();
    let mut i: u16 = 0;
    proof {
        lemma_after_nothing(extents_from(b, l, base, n as int, first));
        assert(list@ =~= seq![]);
    }
    while i < n
        invariant
            i <= n,
            r.valid(),
            r.bytes == old(r).bytes,
            r.bytes@ == b,
            l.index_size == index_size <= 15,
            l.offset_size == offset_size <= 15,
            l.length_size == length_size <= 15,
            step == l.index_size + l.offset_size + l.length_size,
            r.pos == first + i * step,
            extents_from(b, l, base, n as int, first) == after(
                list@,
                extents_from(b, l, base, n - i, r.pos as int),
            ),
            b == old(r).bytes@,
            first == old(r).pos,
        decreases n - i,
    {
        let ghost before = list@;
        let ghost at = r.pos as int;
        r.skip(index_size)?;
        let offset: u64 = r.uint(offset_size)?;
        let length: u64 = r.uint(length_size)?;
        match base.checked_add(offset) {
            Some(sum) => {
                let x = Extent { offset: sum, length };
                list.push(x);
                proof {
                    lemma_after_push(before, x, extents_from(b, l, base, n - i - 1, r.pos as int));
                }
            },
            None => {
                return Err(Error::Malformed(Malformed::BaseOffsetOverflow));
            },
        }
        assert((i + 1) * step == i * step + step) by (nonlinear_arith);
        i = i + 1;
    }
    assert(list@ + Seq::<Extent>::empty() =~= list@);
    Ok(list)
}

fn parse_iloc(b: &[u8]) -> (out: Result<Vec<IlocItem>, Error>)
    ensures
        match out {
            Ok(v) => iloc_of(b@) == Ok::<Seq<LocView>, Error>(views(v@)),
            Err(e) => iloc_of(b@) == Err::<Seq<LocView>, Error>(e),
        },
{
    let mut r = Reader::new(b);
    let version: u8 = r.u8()?;
    r.skip(3)?;
    let b1: u8 = r.u8()?;
    let b2: u8 = r.u8()?;
    let methods: bool = version == 1 || version == 2;
    let wide: bool = version == 2;
    let offset_size: usize = (b1 / 16) as usize;
    let length_size: usize = (b1 % 16) as usize;
    let base_size: usize = (b2 / 16) as usize;
    let index_size: usize = if methods {
        (b2 % 16) as usize
    } else {
        0
    };
    let ghost l = layout_of(b@);
    let count: u32 = if wide {
        r.u32()?
    } else {
        r.u16()? as u32
    };
    let mut list: Vec<IlocItem> = Vec::new();
    let mut i: u32 = 0;
    proof {
        assert(views(list@) =~= seq![]);
        lemma_after_nothing(locs_from(b@, l, count as int, r.pos as int));
    }
    while i < count
        invariant
            i <= count,
            r.valid(),
            r.bytes == b,
            l.wide == wide,
            l.methods == methods,
            l.index_size == index_size <= 15,
            l.offset_size == offset_size <= 15,
            l.length_size == length_size <= 15,
            l.base_size == base_size <= 15,
            iloc_of(b@) == after(views(list@), locs_from(b@, l, count - i, r.pos as int)),
        decreases count - i,
    {
        let ghost before = list@;
        let item_id: u32 = if wide {
            r.u32()?
        } else {
            r.u16()? as u32
        };
        let construction_method: u8 = if methods {
            (r.u16()? % 16) as u8
        } else {
            0
        };
        r.skip(2)?;
        let base: u64 = r.uint(base_size)?;
        let n: u16 = r.u16()?;
        let extents = parse_extents(
            &mut r,
            index_size,
            offset_size,
            length_size,
            base,
            n,
            Ghost(l),
        )?;
        let entry = IlocItem { item_id, construction_method, extents };
        list.push(entry);
        proof {
            assert(views(list@) =~= views(before).push(entry@));
            lemma_after_push(
                views(before),
                entry@,
                locs_from(b@, l, count - i - 1, r.pos as int),
            );
        }
        i = i + 1;
    }
    assert(views(list@) + Seq::<LocView>::empty() =~= views(list@));
    Ok(list)
}

/// What the children of `meta` state.
struct Meta {
    primary: Option<ItemId>,
    items: Vec<Item>,
    refs: Vec<Reference>,
    props: Vec<Prop>,
    assocs: Vec<IpmaEntry>,
    idat: Option<(usize, usize)>,
    locs: Vec<IlocItem>,
}

impl View for Meta {
    type V = MetaView;

    closed spec fn view(&self) -> MetaView {
        MetaView {
            primary: self.primary,
            items: views(self.items@),
            refs: views(self.refs@),
            props: views(self.props@),
            assocs: views(self.assocs@),
            idat: match self.idat {
                Some(ab) => Some((ab.0 as int, ab.1 as int)),
                None => None,
            },
            locs: views(self.locs@),
        }
    }
}

fn parse_assocs(bytes: &[u8], b: &BoxHeader) -> (r: Result<Vec<IpmaEntry>, Error>)
    requires
        b.body_start <= b.body_end <= bytes@.len(),
    ensures
        match r {
            Ok(v) => assocs_of(bytes@, b@) == Ok::<Seq<AssocView>, Error>(views(v@)),
            Err(e) => assocs_of(bytes@, b@) == Err::<Seq<AssocView>, Error>(e),
        },
{
    match find_box(bytes, b.body_start, b.body_end, IPMA) {
        Some(h) => parse_ipma(span(bytes, h.body_start, h.body_end)),
        None => {
            let none: Vec<IpmaEntry> = Vec::new();
            assert(views(none@) =~= seq![]);
            Ok(none)
        },
    }
}

/// Adds one child of `meta` to what is known.
fn add_child(bytes: &[u8], m: &mut Meta, b: &BoxHeader) -> (r: Result<(), Error>)
    requires
        b.body_start <= b.body_end <= bytes@.len(),
    ensures
        match r {
            Ok(_) => with_child(bytes@, old(m)@, b@) == Ok::<MetaView, Error>(final(m)@),
            Err(e) => with_child(bytes@, old(m)@, b@) == Err::<MetaView, Error>(e),
        },
{
    if b.kind == PITM {
        let p: u32 = parse_pitm(span(bytes, b.body_start, b.body_end))?;
        m.primary = Some(p);
    } else if b.kind == IINF {
        m.items = parse_iinf(bytes, b)?;
    } else if b.kind == IREF {
        m.refs = parse_iref(bytes, b)?;
    } else if b.kind == IPRP {
        let props = parse_props(bytes, b)?;
        let assocs = parse_assocs(bytes, b)?;
        m.props = props;
        m.assocs = assocs;
    } else if b.kind == IDAT {
        m.idat = Some((b.body_start, b.body_end));
    } else if b.kind == ILOC {
        m.locs = parse_iloc(span(bytes, b.body_start, b.body_end))?;
    }
    Ok(())
}

/// The targets of the last reference of a type from an item.
fn find_targets(refs: &Vec<Reference>, kind: u32, from: ItemId) -> (r: Vec<ItemId>)
    ensures
        r@ == targets(views(refs@), kind, from),
{
    let ghost all = views(refs@);
    let mut i: usize = refs.len();
    assert(all.take(all.len() as int) =~= all);
    while i > 0
        invariant
            i <= refs@.len(),
            all == views(refs@),
            targets(all, kind, from) == targets(all.take(i as int), kind, from),
        decreases i,
    {
        let x = &refs[i - 1];
        assert(all.take(i as int).last() == x@);
        assert(all.take(i as int).drop_last() =~= all.take(i - 1));
        if x.kind == kind && x.from == from {
            let mut out: Vec<ItemId> = Vec::new();
            let mut k: usize = 0;
            while k < x.to.len()
                invariant
                    k <= x.to@.len(),
                    out@ =~= x.to@.take(k as int),
                decreases x.to@.len() - k,
            {
                out.push(x.to[k]);
                k = k + 1;
            }
            assert(out@ =~= x.to@);
            return out;
        }
        i = i - 1;
    }
    Vec::new()
}

/// Every association of an item, over all its entries in order.
fn gather_assocs(entries: &Vec<IpmaEntry>, item: ItemId) -> (r: Vec<Association>)
    ensures
        r@ == all_assocs(views(entries@), item),
{
    let ghost all = views(entries@);
    let mut out: Vec<Association> = Vec::new();
    let mut i: usize = 0;
    assert(all.take(0) =~= seq![]);
    while i < entries.len()
        invariant
            i <= entries@.len(),
            all == views(entries@),
            out@ == all_assocs(all.take(i as int), item),
        decreases entries@.len() - i,
    {
        let x = &entries[i];
        proof {
            assert(all.take(i + 1).drop_last() =~= all.take(i as int));
            assert(all.take(i + 1).last() == x@);
        }
        let ghost before = out@;
        if x.item_id == item {
            let mut k: usize = 0;
            while k < x.list.len()
                invariant
                    k <= x.list@.len(),
                    out@ =~= before + x.list@.take(k as int),
                decreases x.list@.len() - k,
            {
                out.push(x.list[k]);
                k = k + 1;
            }
            assert(out@ =~= before + x.list@);
        } else {
            assert(out@ =~= before + seq![]);
        }
        i = i + 1;
    }
    assert(all.take(all.len() as int) =~= all);
    out
}

/// The last size among some associated properties.
fn find_size(props: &Vec<Prop>, list: &Vec<Association>) -> (r: Option<(u32, u32)>)
    ensures
        r == last_size(views(props@), list@),
{
    let ghost ps = views(props@);
    let mut i: usize = list.len();
    assert(list@.take(list@.len() as int) =~= list@);
    while i > 0
        invariant
            i <= list@.len(),
            ps == views(props@),
            last_size(ps, list@) == last_size(ps, list@.take(i as int)),
        decreases i,
    {
        let a = list[i - 1];
        assert(list@.take(i as int).last() == a);
        assert(list@.take(i as int).drop_last() =~= list@.take(i - 1));
        if 1 <= a.index && a.index as usize <= props.len() {
            let p = &props[a.index as usize - 1];
            assert(ps[a.index - 1] == p@);
            match p {
                Prop::Ispe { width, height } => {
                    return Some((*width, *height));
                },
                _ => {},
            }
        }
        i = i - 1;
    }
    None
}

/// The last auxiliary type among some associated properties.
fn find_last_urn(props: &Vec<Prop>, list: &Vec<Association>) -> (r: Option<String>)
    ensures
        opt_text(r) == last_urn(views(props@), list@),
{
    let ghost ps = views(props@);
    let mut i: usize = list.len();
    assert(list@.take(list@.len() as int) =~= list@);
    while i > 0
        invariant
            i <= list@.len(),
            ps == views(props@),
            last_urn(ps, list@) == last_urn(ps, list@.take(i as int)),
        decreases i,
    {
        let a = list[i - 1];
        assert(list@.take(i as int).last() == a);
        assert(list@.take(i as int).drop_last() =~= list@.take(i - 1));
        if 1 <= a.index && a.index as usize <= props.len() {
            let p = &props[a.index as usize - 1];
            assert(ps[a.index - 1] == p@);
            match p {
                Prop::AuxC(urn) => {
                    return Some(urn.clone());
                },
                _ => {},
            }
        }
        i = i - 1;
    }
    None
}

fn copy_text(t: &Option<String>) -> (r: Option<String>)
    ensures
        opt_text(r) == opt_text(*t),
{
    match t {
        Some(s) => Some(s.clone()),
        None => None,
    }
}

/// Whether no earlier item has the identifier of item `i`.
fn first_with_its_id(items: &Vec<Item>, i: usize) -> (b: bool)
    requires
        i < items@.len(),
    ensures
        b == is_first(views(items@), i as int),
{
    let ghost vs = views(items@);
    let mut j: usize = 0;
    while j < i
        invariant
            j <= i < items@.len(),
            vs == views(items@),
            forall|k: int| 0 <= k < j ==> (#[trigger] vs[k]).id != vs[i as int].id,
        decreases i - j,
    {
        assert(vs[j as int] == items@[j as int]@ && vs[i as int] == items@[i as int]@);
        if items[j].id == items[i].id {
            return false;
        }
        j = j + 1;
    }
    true
}

/// Item `i` with the references and properties that name it.
fn resolve(m: &Meta, i: usize) -> (item: Item)
    requires
        i < m.items@.len(),
    ensures
        item@ == resolved(m@, i as int),
{
    let x = &m.items[i];
    assert(m@.items[i as int] == x@);
    if first_with_its_id(&m.items, i) {
        let list = gather_assocs(&m.assocs, x.id);
        let size = find_size(&m.props, &list);
        let (width, height): (Option<u32>, Option<u32>) = match size {
            Some(wh) => (Some(wh.0), Some(wh.1)),
            None => (None, None),
        };
        Item {
            id: x.id,
            item_type: x.item_type,
            name: x.name.clone(),
            content_type: copy_text(&x.content_type),
            uri_type: copy_text(&x.uri_type),
            hidden: x.hidden,
            width,
            height,
            aux_urn: find_last_urn(&m.props, &list),
            derives_from: find_targets(&m.refs, DIMG, x.id),
            auxiliary_to: find_targets(&m.refs, AUXL, x.id),
            describes: find_targets(&m.refs, CDSC, x.id),
        }
    } else {
        Item {
            id: x.id,
            item_type: x.item_type,
            name: x.name.clone(),
            content_type: copy_text(&x.content_type),
            uri_type: copy_text(&x.uri_type),
            hidden: x.hidden,
            width: x.width,
            height: x.height,
            aux_urn: copy_text(&x.aux_urn),
            derives_from: copy_ids(&x.derives_from),
            auxiliary_to: copy_ids(&x.auxiliary_to),
            describes: copy_ids(&x.describes),
        }
    }
}

fn copy_ids(v: &Vec<ItemId>) -> (r: Vec<ItemId>)
    ensures
        r@ == v@,
{
    let mut out: Vec<ItemId> = Vec::new();
    let mut k: usize = 0;
    while k < v.len()
        invariant
            k <= v@.len(),
            out@ =~= v@.take(k as int),
        decreases v@.len() - k,
    {
        out.push(v[k]);
        k = k + 1;
    }
    assert(out@ =~= v@);
    out
}

fn parse_brands(b: &[u8]) -> (r: Vec<[u8; 4]>)
    requires
        b@.len() >= 8,
    ensures
        r@.len() == brands_of(b@).len(),
        forall|i: int| 0 <= i < r@.len() ==> be32((#[trigger] r@[i])@, 0) == brands_of(b@)[i],
{
    let mut out: Vec<[u8; 4]> = Vec::new();
    let n: usize = (b.len() - 8) / 4;
    let mut i: usize = 0;
    while i < n
        invariant
            i <= n,
            n == (b@.len() - 8) / 4,
            b@.len() >= 8,
            out@.len() == i,
            forall|k: int| 0 <= k < i ==> be32((#[trigger] out@[k])@, 0) == brands_of(b@)[k],
        decreases n - i,
    {
        assert(8 + 4 * i + 4 <= b.len());
        let p: usize = 8 + 4 * i;
        let v: [u8; 4] = [b[p], b[p + 1], b[p + 2], b[p + 3]];
        assert(be32(v@, 0) == be32(b@, p as int));
        out.push(v);
        i = i + 1;
    }
    out
}

impl<'a> HeifFile<'a> {
    /// Reads a file's structure.
    pub fn parse(bytes: &'a [u8]) -> (r: Result<HeifFile<'a>, Error>)
        ensures
            match r {
                Ok(f) => file_of(bytes@) == Ok::<FileView, Error>(f@),
                Err(e) => file_of(bytes@) == Err::<FileView, Error>(e),
            },
    {
        let len: usize = bytes.len();
        let ftyp = match find_box(bytes, 0, len, FTYP) {
            Some(h) => h,
            None => {
                return Err(Error::MissingBox(FourCc { code: FTYP }));
            },
        };
        if ftyp.body_end - ftyp.body_start < 8 {
            return Err(Error::Truncated { at: ftyp.body_start, need: 8 });
        }
        let brands = parse_brands(span(bytes, ftyp.body_start, ftyp.body_end));
        let meta = match find_box(bytes, 0, len, META) {
            Some(h) => h,
            None => {
                return Err(Error::MissingBox(FourCc { code: META }));
            },
        };
        if meta.body_end - meta.body_start < 4 {
            return Err(Error::Truncated { at: meta.body_start, need: 4 });
        }
        let children = list_boxes(bytes, meta.body_start + 4, meta.body_end);
        let ghost boxes = boxes_in(bytes@, meta.body_start + 4, meta.body_end as int);
        let mut m = Meta {
            primary: None,
            items: Vec::new(),
            refs: Vec::new(),
            props: Vec::new(),
            assocs: Vec::new(),
            idat: None,
            locs: Vec::new(),
        };
        proof {
            assert(m@.items =~= nothing_yet().items);
            assert(m@.refs =~= nothing_yet().refs);
            assert(m@.props =~= nothing_yet().props);
            assert(m@.assocs =~= nothing_yet().assocs);
            assert(m@.locs =~= nothing_yet().locs);
        }
        let ghost all = with_children(bytes@, boxes, 0, nothing_yet());
        let mut i: usize = 0;
        while i < children.len()
            invariant
                i <= children@.len(),
                spans(children@) == boxes,
                with_children(bytes@, boxes, i as int, m@) == all,
                all is Err ==> file_of(bytes@) == Err::<FileView, Error>(all->Err_0),
                forall|k: int| 0 <= k < children@.len() ==> (#[trigger] children@[k]).body_start
                    <= children@[k].body_end <= bytes@.len(),
            decreases children@.len() - i,
        {
            assert(boxes[i as int] == children@[i as int]@);
            add_child(bytes, &mut m, &children[i])?;
            i = i + 1;
        }
        let mut items: Vec<Item> = Vec::new();
        let mut j: usize = 0;
        while j < m.items.len()
            invariant
                j <= m.items@.len(),
                items@.len() == j,
                forall|k: int| 0 <= k < j ==> (#[trigger] items@[k])@ == resolved(m@, k),
            decreases m.items@.len() - j,
        {
            let item = resolve(&m, j);
            items.push(item);
            j = j + 1;
        }
        assert(views(items@) =~= resolved_items(m@));
        let f = HeifFile {
            bytes,
            brands,
            primary_item: m.primary,
            items,
            props: m.props,
            ipma: m.assocs,
            iloc: m.locs,
            idat: m.idat,
        };
        assert(f@.brands =~= brands_of(body(bytes@, ftyp@)));
        Ok(f)
    }
}

/// One extent's byte range of the file.
fn locate_extent(f: &HeifFile, id: ItemId, method: u8, x: Extent) -> (r: Result<
    (usize, usize),
    Error,
>)
    ensures
        match r {
            Ok(ab) => range_of(f@, id, method, x) == Ok::<(int, int), Error>(
                (ab.0 as int, ab.1 as int),
            ) && ab.0 <= ab.1 <= f@.bytes.len(),
            Err(e) => range_of(f@, id, method, x) == Err::<(int, int), Error>(e),
        },
{
    if method > 1 {
        return Err(Error::Unsupported(Unsupported::ConstructionMethod(method)));
    }
    let (base, limit): (usize, usize) = if method == 1 {
        match f.idat {
            Some(ab) => ab,
            None => {
                return Err(Error::MissingBox(FourCc { code: IDAT }));
            },
        }
    } else {
        (0, usize::MAX)
    };
    if x.offset > usize::MAX as u64 {
        return Err(Error::Malformed(Malformed::OffsetOverflow));
    }
    let start: usize = match base.checked_add(x.offset as usize) {
        Some(v) => v,
        None => {
            return Err(Error::Malformed(Malformed::IdatOffsetOverflow));
        },
    };
    if start > limit {
        return Err(Error::Malformed(Malformed::PastIdatEnd(id)));
    }
    if x.length > usize::MAX as u64 {
        return Err(Error::Malformed(Malformed::LengthOverflow));
    }
    let length: usize = x.length as usize;
    let end: usize = match start.checked_add(length) {
        Some(v) => v,
        None => {
            return Err(Error::Malformed(Malformed::EndOverflow));
        },
    };
    if end > f.bytes.len() {
        return Err(Error::Truncated { at: start, need: length });
    }
    Ok((start, end))
}

/// Ranges as mathematical integers.
spec fn wide_ranges(v: Seq<(usize, usize)>) -> Seq<(int, int)> {
    Seq::new(v.len(), |i: int| (v[i].0 as int, v[i].1 as int))
}

/// Puts a range behind every one that does not start later.
fn insert_range(v: &mut Vec<(usize, usize)>, x: (usize, usize))
    ensures
        wide_ranges(final(v)@) == insert_by_start(
            wide_ranges(old(v)@),
            (x.0 as int, x.1 as int),
        ),
        final(v)@.len() == old(v)@.len() + 1,
        forall|i: int|
            0 <= i < final(v)@.len() ==> #[trigger] final(v)@[i] == x || exists|j: int|
                0 <= j < old(v)@.len() && final(v)@[i] == #[trigger] old(v)@[j],
{
    let ghost w = wide_ranges(v@);
    let ghost y = (x.0 as int, x.1 as int);
    let mut j: usize = v.len();
    proof {
        assert(w.take(w.len() as int) =~= w);
        assert(w.skip(w.len() as int) =~= seq![]);
        assert(insert_by_start(w, y) + Seq::<(int, int)>::empty() =~= insert_by_start(w, y));
    }
    while j > 0 && v[j - 1].0 > x.0
        invariant
            j <= v@.len(),
            v@ == old(v)@,
            w == wide_ranges(v@),
            y == (x.0 as int, x.1 as int),
            insert_by_start(w, y) == insert_by_start(w.take(j as int), y) + w.skip(j as int),
        decreases j,
    {
        proof {
            let t = w.take(j as int);
            assert(t.last() == w[j - 1]);
            assert(t.drop_last() =~= w.take(j - 1));
            let i = insert_by_start(w.take(j - 1), y);
            assert(i.push(w[j - 1]) + w.skip(j as int) =~= i + w.skip(j - 1));
        }
        j = j - 1;
    }
    v.insert(j, x);
    proof {
        let t = w.take(j as int);
        if j > 0 {
            assert(t.last() == w[j - 1]);
        } else {
            assert(t =~= seq![]);
        }
        assert(insert_by_start(t, y) =~= t.push(y));
        assert(wide_ranges(v@) =~= t.push(y) + w.skip(j as int));
        assert forall|i: int| 0 <= i < v@.len() implies #[trigger] v@[i] == x || exists|k: int|
            0 <= k < old(v)@.len() && v@[i] == #[trigger] old(v)@[k] by {
            if i < j {
                assert(v@[i] == old(v)@[i]);
            } else if i > j {
                assert(v@[i] == old(v)@[i - 1]);
            }
        }
    }
}

/// The position of the first location entry for an item.
fn find_location(locs: &Vec<IlocItem>, id: ItemId) -> (r: Option<usize>)
    ensures
        match r {
            Some(i) => i < locs@.len() && location(views(locs@), id) == Some(locs@[i as int]@),
            None => location(views(locs@), id) is None,
        },
{
    let ghost all = views(locs@);
    let mut i: usize = 0;
    assert(all.skip(0) =~= all);
    while i < locs.len()
        invariant
            i <= locs@.len(),
            all == views(locs@),
            location(all, id) == location(all.skip(i as int), id),
        decreases locs@.len() - i,
    {
        assert(all[i as int] == locs@[i as int]@);
        assert(all.skip(i as int).skip(1) =~= all.skip(i + 1));
        if locs[i].item_id == id {
            return Some(i);
        }
        i = i + 1;
    }
    None
}

impl<'a> HeifFile<'a> {
    /// The compatible brands `ftyp` lists.
    pub fn brands(&self) -> (r: Vec<[u8; 4]>)
        ensures
            r@.len() == self@.brands.len(),
            forall|i: int| 0 <= i < r@.len() ==> be32((#[trigger] r@[i])@, 0) == self@.brands[i],
    {
        let mut out: Vec<[u8; 4]> = Vec::new();
        let mut k: usize = 0;
        while k < self.brands.len()
            invariant
                k <= self.brands@.len(),
                out@ =~= self.brands@.take(k as int),
            decreases self.brands@.len() - k,
        {
            out.push(self.brands[k]);
            k = k + 1;
        }
        out
    }

    /// The primary item `pitm` names.
    pub fn primary_item(&self) -> (r: Option<ItemId>)
        ensures
            r == self@.primary,
    {
        self.primary_item
    }

    /// Every item, in the order `iinf` lists them.
    pub fn items(&self) -> (r: &[Item])
        ensures
            views(r@) == self@.items,
    {
        self.items.as_slice()
    }

    /// An item's payload, as a slice of the file.
    ///
    /// The slice borrows from the file, so several extents are honored only when
    /// they are one contiguous run. A scattered item is reported rather than
    /// copied.
    pub fn item_data(&self, id: ItemId) -> (r: Result<&'a [u8], Error>)
        ensures
            match r {
                Ok(s) => data_of(self@, id) == Ok::<Seq<u8>, Error>(s@),
                Err(e) => data_of(self@, id) == Err::<Seq<u8>, Error>(e),
            },
    {
        let at: usize = match find_location(&self.iloc, id) {
            Some(i) => i,
            None => {
                return Err(Error::Malformed(Malformed::NoLocation(id)));
            },
        };
        let entry = &self.iloc[at];
        let ghost l = entry@;
        if entry.extents.len() == 0 {
            return Err(Error::Malformed(Malformed::NoExtents(id)));
        }
        let ghost g = |i: int| range_of(self@, id, l.method, l.extents[i]);
        let ghost n = l.extents.len() as int;
        let ghost mut found: Seq<(int, int)> = seq![];
        let mut sorted: Vec<(usize, usize)> = Vec::new();
        let mut i: usize = 0;
        proof {
            lemma_after_nothing(collect(g, 0, n));
            assert(wide_ranges(sorted@) =~= by_start(found));
        }
        while i < entry.extents.len()
            invariant
                i <= entry.extents@.len(),
                l == entry@,
                n == l.extents.len(),
                n > 0,
                g == (|i: int| range_of(self@, id, l.method, l.extents[i])),
                location(self@.locs, id) == Some(l),
                ranges_of(self@, id, l) == collect(g, 0, n),
                collect(g, 0, n) == after(found, collect(g, i as int, n)),
                found.len() == i,
                wide_ranges(sorted@) == by_start(found),
                sorted@.len() == i,
                forall|k: int| 0 <= k < sorted@.len() ==> (#[trigger] sorted@[k]).0 <= sorted@[k].1
                    <= self@.bytes.len(),
            decreases entry.extents@.len() - i,
        {
            let x: (usize, usize) = locate_extent(
                self,
                id,
                entry.construction_method,
                entry.extents[i],
            )?;
            let ghost y = (x.0 as int, x.1 as int);
            assert(g(i as int) == Ok::<(int, int), Error>(y));
            insert_range(&mut sorted, x);
            proof {
                lemma_after_push(found, y, collect(g, i + 1, n));
                assert(found.push(y).drop_last() =~= found);
                found = found.push(y);
            }
            i = i + 1;
        }
        assert(found + Seq::<(int, int)>::empty() =~= found);
        let ghost w = wide_ranges(sorted@);
        let first: usize = sorted[0].0;
        let mut cursor: usize = sorted[0].1;
        let mut k: usize = 1;
        while k < sorted.len()
            invariant
                1 <= k <= sorted@.len(),
                w == wide_ranges(sorted@),
                w == by_start(found),
                first == w[0].0,
                cursor == w[k - 1].1,
                first <= cursor <= self@.bytes.len(),
                n > 0,
                l.extents.len() == n,
                location(self@.locs, id) == Some(l),
                ranges_of(self@, id, l) == Ok::<Seq<(int, int)>, Error>(found),
                forall|j: int| 1 <= j < k ==> (#[trigger] w[j]).0 == w[j - 1].1,
                forall|j: int| 0 <= j < sorted@.len() ==> (#[trigger] sorted@[j]).0 <= sorted@[j].1
                    <= self@.bytes.len(),
            decreases sorted@.len() - k,
        {
            assert(w[k as int] == (sorted@[k as int].0 as int, sorted@[k as int].1 as int));
            if sorted[k].0 != cursor {
                assert(!contiguous(w));
                return Err(Error::Unsupported(Unsupported::ScatteredExtents));
            }
            cursor = sorted[k].1;
            k = k + 1;
        }
        assert(contiguous(w));
        Ok(span(self.bytes, first, cursor))
    }
}

/// The position of the first item whose auxiliary type is Apple's for a gain map.
fn find_apple(items: &Vec<Item>) -> (r: Option<usize>)
    ensures
        match r {
            Some(i) => i < items@.len() && find_urn(views(items@), APPLE_GAINMAP_URN@, 0) == Some(
                items@[i as int]@,
            ),
            None => find_urn(views(items@), APPLE_GAINMAP_URN@, 0) is None,
        },
{
    let urn: String = APPLE_GAINMAP_URN.to_owned();
    let ghost all = views(items@);
    let mut i: usize = 0;
    while i < items.len()
        invariant
            i <= items@.len(),
            urn@ == APPLE_GAINMAP_URN@,
            all == views(items@),
            find_urn(all, APPLE_GAINMAP_URN@, 0) == find_urn(all, APPLE_GAINMAP_URN@, i as int),
        decreases items@.len() - i,
    {
        assert(all[i as int] == items@[i as int]@);
        match &items[i].aux_urn {
            Some(u) => {
                if *u == urn {
                    return Some(i);
                }
            },
            None => {},
        }
        i = i + 1;
    }
    None
}

fn type_code(item: &Item) -> (kind: u32)
    ensures
        kind == item@.kind,
{
    get_be32(vstd::array::array_as_slice(&item.item_type), 0)
}

/// The position of the first item of a type.
fn find_of_kind(items: &Vec<Item>, kind: u32) -> (r: Option<usize>)
    ensures
        match r {
            Some(i) => i < items@.len() && find_kind(views(items@), kind, 0) == Some(
                items@[i as int]@,
            ),
            None => find_kind(views(items@), kind, 0) is None,
        },
{
    let ghost all = views(items@);
    let mut i: usize = 0;
    while i < items.len()
        invariant
            i <= items@.len(),
            all == views(items@),
            find_kind(all, kind, 0) == find_kind(all, kind, i as int),
        decreases items@.len() - i,
    {
        assert(all[i as int] == items@[i as int]@);
        if type_code(&items[i]) == kind {
            return Some(i);
        }
        i = i + 1;
    }
    None
}

/// The position of the first item with an identifier.
fn find_with_id(items: &Vec<Item>, id: ItemId) -> (r: Option<usize>)
    ensures
        match r {
            Some(i) => i < items@.len() && find_id(views(items@), id, 0) == Some(
                items@[i as int]@,
            ),
            None => find_id(views(items@), id, 0) is None,
        },
{
    let ghost all = views(items@);
    let mut i: usize = 0;
    while i < items.len()
        invariant
            i <= items@.len(),
            all == views(items@),
            find_id(all, id, 0) == find_id(all, id, i as int),
        decreases items@.len() - i,
    {
        assert(all[i as int] == items@[i as int]@);
        if items[i].id == id {
            return Some(i);
        }
        i = i + 1;
    }
    None
}

/// The position of the first association entry for an item.
fn find_entry(entries: &Vec<IpmaEntry>, item: ItemId) -> (r: Option<usize>)
    ensures
        match r {
            Some(i) => i < entries@.len() && first_assocs(views(entries@), item)
                == entries@[i as int].list@,
            None => first_assocs(views(entries@), item) == Seq::<Association>::empty(),
        },
{
    let ghost all = views(entries@);
    let mut i: usize = 0;
    assert(all.skip(0) =~= all);
    while i < entries.len()
        invariant
            i <= entries@.len(),
            all == views(entries@),
            first_assocs(all, item) == first_assocs(all.skip(i as int), item),
        decreases entries@.len() - i,
    {
        assert(all[i as int] == entries@[i as int]@);
        assert(all.skip(i as int).skip(1) =~= all.skip(i + 1));
        if entries[i].item_id == item {
            return Some(i);
        }
        i = i + 1;
    }
    None
}

/// The last decoder configuration among some associated properties.
fn find_hvcc(props: &Vec<Prop>, list: &Vec<Association>) -> (r: Option<Vec<u8>>)
    ensures
        match r {
            Some(v) => last_hvcc(views(props@), list@) == Some(v@),
            None => last_hvcc(views(props@), list@) is None,
        },
{
    let ghost ps = views(props@);
    let mut i: usize = list.len();
    assert(list@.take(list@.len() as int) =~= list@);
    while i > 0
        invariant
            i <= list@.len(),
            ps == views(props@),
            last_hvcc(ps, list@) == last_hvcc(ps, list@.take(i as int)),
        decreases i,
    {
        let a = list[i - 1];
        assert(list@.take(i as int).last() == a);
        assert(list@.take(i as int).drop_last() =~= list@.take(i - 1));
        if 1 <= a.index && a.index as usize <= props.len() {
            let p = &props[a.index as usize - 1];
            assert(ps[a.index - 1] == p@);
            match p {
                Prop::HvcC(v) => {
                    return Some(to_owned_bytes(v.as_slice()));
                },
                _ => {},
            }
        }
        i = i - 1;
    }
    None
}

/// The last per-channel bit depths among some associated properties.
fn find_pixi(props: &Vec<Prop>, list: &Vec<Association>) -> (r: Option<Vec<u8>>)
    ensures
        match r {
            Some(v) => last_pixi(views(props@), list@) == Some(v@),
            None => last_pixi(views(props@), list@) is None,
        },
{
    let ghost ps = views(props@);
    let mut i: usize = list.len();
    assert(list@.take(list@.len() as int) =~= list@);
    while i > 0
        invariant
            i <= list@.len(),
            ps == views(props@),
            last_pixi(ps, list@) == last_pixi(ps, list@.take(i as int)),
        decreases i,
    {
        let a = list[i - 1];
        assert(list@.take(i as int).last() == a);
        assert(list@.take(i as int).drop_last() =~= list@.take(i - 1));
        if 1 <= a.index && a.index as usize <= props.len() {
            let p = &props[a.index as usize - 1];
            assert(ps[a.index - 1] == p@);
            match p {
                Prop::Pixi { bits } => {
                    return Some(to_owned_bytes(bits.as_slice()));
                },
                _ => {},
            }
        }
        i = i - 1;
    }
    None
}

/// The fixed-position fields of an `HEVCDecoderConfigurationRecord` that describe
/// the coded format (ISO/IEC 14496-15). Everything past byte 22 is the NAL-unit
/// arrays, which nothing here needs.
#[derive(Clone, Copy, Debug)]
pub struct HvccConfig {
    /// Kept for diagnostics: hpvca codes 4:0:0 under Main Still Picture (3),
    /// which mandates 4:2:0, where Apple uses RExt (4).
    pub profile_idc: u8,
    /// 0 = monochrome, 1 = 4:2:0, 2 = 4:2:2, 3 = 4:4:4.
    pub chroma_format: u8,
    pub bit_depth_luma: u8,
}

/// Reads the fixed header of an `hvcC` payload. `None` if it is too short to
/// contain the fields.
pub fn hvcc_config(hvcc: &[u8]) -> (r: Option<HvccConfig>)
    ensures
        match r {
            Some(c) => hvcc_format(hvcc@) == Some((c.chroma_format, c.bit_depth_luma))
                && c.profile_idc == hvcc@[1] % 32,
            None => hvcc_format(hvcc@) is None,
        },
{
    if hvcc.len() < 19 {
        return None;
    }
    Some(
        HvccConfig {
            profile_idc: hvcc[1] % 32,
            chroma_format: hvcc[16] % 4,
            bit_depth_luma: hvcc[17] % 8 + 8,
        },
    )
}

impl<'a> HeifFile<'a> {
    /// Where the file's gain map is, if it has one.
    ///
    /// A malformed `tmap` payload leaves `meta` empty rather than failing: this
    /// reports *where* the gain map is, not whether its metadata is well-formed.
    pub fn gain_map(&self) -> (r: Option<GainMapInfo>)
        ensures
            r == gain_map_of(self@),
    {
        let apple = find_apple(&self.items);
        let tmap = find_of_kind(&self.items, TMAP);
        let mut tmap_item: Option<ItemId> = None;
        let mut meta: Option<GainMapMeta> = None;
        match tmap {
            Some(t) => {
                let id: ItemId = self.items[t].id;
                tmap_item = Some(id);
                match self.item_data(id) {
                    Ok(p) => {
                        if p.len() >= 1 {
                            let rest = span(p, 1, p.len());
                            assert(rest@ =~= p@.skip(1));
                            match iso21496::parse(rest) {
                                Ok(m) => {
                                    meta = Some(m);
                                },
                                Err(_) => {},
                            }
                        }
                    },
                    Err(_) => {},
                }
            },
            None => {},
        }
        match apple {
            Some(a) => Some(
                GainMapInfo { image_item: self.items[a].id, apple_aux: true, tmap_item, meta },
            ),
            None => match tmap {
                Some(t) => {
                    if self.items[t].derives_from.len() == 2 {
                        Some(
                            GainMapInfo {
                                image_item: self.items[t].derives_from[1],
                                apple_aux: false,
                                tmap_item,
                                meta,
                            },
                        )
                    } else {
                        None
                    }
                },
                None => None,
            },
        }
    }

    /// An item's coded image, for placing in another file.
    ///
    /// Chroma and depth come from `hvcC`, whose fields describe the bitstream;
    /// `pixi` only describes what a writer *said* about it, and is the fallback for
    /// a record too short to say.
    pub fn coded_image(&self, id: ItemId) -> (r: Result<CodedImage, Error>)
        ensures
            match r {
                Ok(c) => coded_of(self@, id) == Ok::<CodedView, Error>(c@),
                Err(e) => coded_of(self@, id) == Err::<CodedView, Error>(e),
            },
    {
        let at: usize = match find_with_id(&self.items, id) {
            Some(i) => i,
            None => {
                return Err(Error::Malformed(Malformed::NoSuchItem(id)));
            },
        };
        if type_code(&self.items[at]) == GRID {
            return Err(Error::Unsupported(Unsupported::Grid));
        }
        let data = self.item_data(id)?;
        let none: Vec<Association> = Vec::new();
        let list: &Vec<Association> = match find_entry(&self.ipma, id) {
            Some(i) => &self.ipma[i].list,
            None => &none,
        };
        assert(list@ == first_assocs(self@.assocs, id));
        let hvcc = match find_hvcc(&self.props, list) {
            Some(v) => v,
            None => {
                return Err(Error::MissingBox(FourCc { code: HVCC }));
            },
        };
        let (width, height): (u32, u32) = match find_size(&self.props, list) {
            Some(wh) => wh,
            None => {
                return Err(Error::MissingBox(FourCc { code: ISPE }));
            },
        };
        let bits: Vec<u8> = match find_pixi(&self.props, list) {
            Some(v) => v,
            None => {
                let v: Vec<u8> = vec![8];
                assert(v@ =~= seq![8u8]);
                v
            },
        };
        let config = hvcc_config(hvcc.as_slice());
        let (chroma, bit_depth): (Chroma, u8) = match config {
            Some(c) => {
                let chroma = if c.chroma_format == 0 {
                    Chroma::Monochrome
                } else if c.chroma_format == 1 {
                    Chroma::Yuv420
                } else if c.chroma_format == 2 {
                    Chroma::Yuv422
                } else {
                    Chroma::Yuv444
                };
                (chroma, c.bit_depth_luma)
            },
            None => {
                let chroma = if bits.len() == 1 {
                    Chroma::Monochrome
                } else {
                    Chroma::Yuv420
                };
                let depth: u8 = if bits.len() > 0 {
                    bits[0]
                } else {
                    8
                };
                (chroma, depth)
            },
        };
        Ok(CodedImage { width, height, bit_depth, chroma, hvcc, data: to_owned_bytes(data) })
    }
}

} // verus!
