//! What the muxer was given alongside the pixels is what the readers here find in the file.

use vstd::prelude::*;

use crate::bytes::{be32, be32_bytes, group_encoded_lengths, lemma_be32_read_back};
use crate::heif::boxes::{box_bytes, chunk_bytes};
use crate::heif::model::{data_of, file_of, find_kind, FileView, EXIF, FTYP, HVC1, MIME, TMAP, URI};
use crate::heif::roundtrip::{
    a_packet_is_typed, a_written_file_reads_back, data_reads_back, items_read_back, texts_are_whole,
    texts_read_back, wide_ids,
};
use crate::heif::write::{
    described as described_by, exif_stored, first_describing, ftyp_body, joined, mux_bytes, stored,
    stored_of, tmap_stored, top_chunks, writable, xmp_stored, MuxView, Stored,
};
use crate::heif::Error;
use crate::opaque::OpaqueView;
use crate::portable::exif::{heif_exif, located, Origin};
use crate::portable::sidecar::{
    carried, described, describing_data, heif_sidecar_of, is_image, nothing, sidecar_of,
    SidecarView, XMP_CONTENT_TYPE,
};

verus! {

broadcast use group_encoded_lengths;

proof fn lemma_joined_covers(items: Seq<Stored>, i: int, n: int)
    requires
        0 <= i < n,
    ensures
        items[i].data.len() <= joined(items, n).len(),
    decreases n,
{
    if i < n - 1 {
        lemma_joined_covers(items, i, n - 1);
    }
}

/// A written file starts like a HEIF file.
proof fn lemma_starts_as_heif(q: MuxView)
    ensures
        ({
            let s = mux_bytes(q);
            &&& s.len() >= 12
            &&& s[0] == 0
            &&& be32(s, 4) == FTYP
        }),
{
    let s = mux_bytes(q);
    let f = ftyp_body(q);
    let c = top_chunks(q);
    assert(chunk_bytes(c) == box_bytes(c[0].kind, c[0].body) + chunk_bytes(c.skip(1)));
    let b = box_bytes(FTYP, f);
    assert(f.len() == 20 || f.len() == 24);
    assert(s[0] == b[0]);
    assert(b[0] == 0) by {
        reveal(be32_bytes);
    }
    assert(s.subrange(4, 8) =~= be32_bytes(FTYP));
    lemma_be32_read_back(FTYP, s, 4);
}

/// What a reader finds of a stored item that describes the photograph.
proof fn lemma_stored_item(q: MuxView, f: FileView, k: int)
    requires
        writable(q),
        file_of(mux_bytes(q)) == Ok::<FileView, Error>(f),
        first_describing(q) <= k < stored(q).len(),
        stored(q)[k].data.len() > 0,
    ensures
        f.items.len() == 2 + stored(q).len(),
        f.items[2 + k].id == 3 + k,
        f.items[2 + k].kind == stored(q)[k].kind,
        f.items[2 + k].describes.contains(1),
        data_of(f, f.items[2 + k].id) == Ok::<Seq<u8>, Error>(stored(q)[k].data),
{
    items_read_back(q, f);
    data_reads_back(q, f);
    lemma_joined_covers(stored(q), k, stored(q).len() as int);
    lemma_describes_first(q);
    assert(data_of(f, (3 + k) as u32) == Ok::<Seq<u8>, Error>(stored(q)[k].data));
}

/// What a reader finds of the images.
proof fn lemma_images(q: MuxView, f: FileView)
    requires
        writable(q),
        file_of(mux_bytes(q)) == Ok::<FileView, Error>(f),
    ensures
        f.primary == Some(1u32),
        f.items.len() == 2 + stored(q).len(),
        f.items[0].kind == HVC1,
        f.items[1].kind == HVC1,
        q.flavor.iso() ==> f.items[2].kind == TMAP,
{
    items_read_back(q, f);
}

proof fn lemma_find_later(f: FileView, k: int, i: int)
    requires
        0 <= i <= k < f.items.len(),
        f.items[k].kind == EXIF,
        forall|j: int| 0 <= j < k ==> (#[trigger] f.items[j]).kind != EXIF,
    ensures
        find_kind(f.items, EXIF, i) == Some(f.items[k]),
    decreases k - i,
{
    if i < k {
        lemma_find_later(f, k, i + 1);
    }
}

/// An Exif block that was written is the one that is found, byte for byte.
pub proof fn a_written_block_is_found(q: MuxView, b: Seq<u8>)
    requires
        writable(q),
        q.exif == Some(b),
        b.len() >= 8,
    ensures
        located(mux_bytes(q)) == Some((b, Origin::Heif)),
{
    let s = mux_bytes(q);
    lemma_starts_as_heif(q);
    a_written_file_reads_back(q);
    let f = file_of(s)->Ok_0;
    lemma_images(q, f);
    let k = tmap_stored(q).len() as int;
    assert(stored(q)[k] == exif_stored(q)[0]);
    lemma_stored_item(q, f, k);
    let d = stored(q)[k].data;
    lemma_find_later(f, 2 + k, 0);
    assert(d.subrange(0, 4) =~= be32_bytes(0));
    lemma_be32_read_back(0, d, 0);
    assert(d.subrange(4, d.len() as int) =~= b);
    assert(heif_exif(s) == Some(b));
}

/// Whether an item is one that is carried from file to file: it is no image and no Exif
/// block, it holds something, it has a content type exactly when it is a MIME item and a
/// URI type exactly when it is a URI item, it is no XMP packet, and its texts have no zero
/// in them.
pub open spec fn is_carriable(x: OpaqueView) -> bool {
    &&& !is_image(x.kind)
    &&& x.kind != EXIF
    &&& x.data.len() > 0
    &&& (x.content_type is Some <==> x.kind == MIME)
    &&& (x.uri_type is Some <==> x.kind == URI)
    &&& x.content_type != Some(XMP_CONTENT_TYPE@)
    &&& texts_are_whole(x)
}

/// What the images and the Exif block add: nothing.
proof fn lemma_images_add_nothing(q: MuxView, f: FileView)
    requires
        writable(q),
        file_of(mux_bytes(q)) == Ok::<FileView, Error>(f),
    ensures
        described(f, 1, (2 + tmap_stored(q).len() + exif_stored(q).len()) as int) == nothing(),
{
    lemma_images(q, f);
    reveal_with_fuel(described, 5);
    let k = tmap_stored(q).len() as int;
    if q.exif is Some {
        assert(stored(q)[k] == exif_stored(q)[0]);
        lemma_stored_item(q, f, k);
    }
}

/// What the XMP packet adds.
proof fn lemma_packet_adds(q: MuxView, f: FileView)
    requires
        writable(q),
        file_of(mux_bytes(q)) == Ok::<FileView, Error>(f),
        q.xmp matches Some(x) ==> x.len() > 0,
    ensures
        described(
            f,
            1,
            (2 + tmap_stored(q).len() + exif_stored(q).len() + xmp_stored(q).len()) as int,
        ) == (SidecarView { xmp: q.xmp, items: seq![] }),
{
    lemma_images_add_nothing(q, f);
    let k = tmap_stored(q).len() + exif_stored(q).len() as int;
    if let Some(x) = q.xmp {
        a_packet_is_typed(q, f);
        lemma_stored_item(q, f, k);
        assert(describing_data(f, 1, f.items[2 + k]) == Some(x));
        reveal_with_fuel(described, 2);
    }
}

/// The primary is among the items that metadata describes.
proof fn lemma_describes_first(q: MuxView)
    ensures
        wide_ids(described_by(q)).contains(1),
{
    assert(wide_ids(described_by(q))[0] == 1);
}

/// What one copied item adds.
proof fn lemma_extra_item(q: MuxView, f: FileView, i: int)
    requires
        writable(q),
        file_of(mux_bytes(q)) == Ok::<FileView, Error>(f),
        0 <= i < q.extra_items.len(),
        is_carriable(q.extra_items[i]),
    ensures
        ({
            let item = f.items[2 + stored(q).len() - q.extra_items.len() + i];
            &&& f.items.len() == 2 + stored(q).len()
            &&& item.content_type != Some(XMP_CONTENT_TYPE@)
            &&& describing_data(f, 1, item) == Some(q.extra_items[i].data)
            &&& carried(item, q.extra_items[i].data) == q.extra_items[i]
        }),
{
    let x = q.extra_items[i];
    let k = stored(q).len() - q.extra_items.len() + i;
    assert(stored(q)[k] == stored_of(x));
    lemma_stored_item(q, f, k);
    texts_read_back(q, f, i);
    assert(carried(f.items[2 + k], x.data) == x);
}

/// What the first `n` copied items add.
proof fn lemma_items_add(q: MuxView, f: FileView, n: int)
    requires
        writable(q),
        file_of(mux_bytes(q)) == Ok::<FileView, Error>(f),
        q.xmp matches Some(x) ==> x.len() > 0,
        forall|i: int| 0 <= i < q.extra_items.len() ==> is_carriable(#[trigger] q.extra_items[i]),
        0 <= n <= q.extra_items.len(),
    ensures
        described(f, 1, 2 + stored(q).len() - q.extra_items.len() + n) == (SidecarView {
            xmp: q.xmp,
            items: q.extra_items.take(n),
        }),
    decreases n,
{
    let base = stored(q).len() - q.extra_items.len();
    if n == 0 {
        lemma_packet_adds(q, f);
        assert(q.extra_items.take(0) =~= seq![]);
    } else {
        lemma_items_add(q, f, n - 1);
        let k = base + n - 1;
        let x = q.extra_items[n - 1];
        assert(is_carriable(x));
        lemma_extra_item(q, f, n - 1);
        assert(q.extra_items.take(n) =~= q.extra_items.take(n - 1).push(x));
    }
}

/// The XMP packet and the metadata items that were written are what a reader takes out of
/// the file again, byte for byte and in order: a file that is converted a second time
/// keeps them.
pub proof fn written_metadata_is_found(q: MuxView)
    requires
        writable(q),
        q.xmp matches Some(x) ==> x.len() > 0,
        forall|i: int| 0 <= i < q.extra_items.len() ==> is_carriable(#[trigger] q.extra_items[i]),
    ensures
        sidecar_of(mux_bytes(q)) == (SidecarView { xmp: q.xmp, items: q.extra_items }),
{
    let s = mux_bytes(q);
    lemma_starts_as_heif(q);
    a_written_file_reads_back(q);
    let f = file_of(s)->Ok_0;
    lemma_images(q, f);
    let n = q.extra_items.len() as int;
    lemma_items_add(q, f, n);
    assert(q.extra_items.take(n) =~= q.extra_items);
    assert(heif_sidecar_of(s) == described(f, 1, f.items.len() as int));
}

} // verus!
