//! What of a source has to be carried alongside its pixels.

use vstd::prelude::*;

use crate::heif::model::{data_of, file_of, FileView, ItemView};
use crate::heif::ItemId;
use crate::laws::four;
use crate::portable::sidecar::{described, read_bytes, sidecar_of, Sidecar};

verus! {

/// Whether an item holds or makes pixels.
pub open spec fn holds_pixels(kind: u32) -> bool {
    ||| kind == four('h', 'v', 'c', '1')
    ||| kind == four('h', 'v', 'c', '2')
    ||| kind == four('a', 'v', '0', '1')
    ||| kind == four('g', 'r', 'i', 'd')
    ||| kind == four('i', 'o', 'v', 'l')
    ||| kind == four('i', 'd', 'e', 'n')
    ||| kind == four('t', 'm', 'a', 'p')
}

/// Whether an item is about the picture `primary` and holds something: neither pixels nor the
/// Exif block.
pub open spec fn is_about(f: FileView, primary: ItemId, item: ItemView) -> bool {
    &&& !holds_pixels(item.kind)
    &&& item.kind != four('E', 'x', 'i', 'f')
    &&& exists|k: int| 0 <= k < item.describes.len() && #[trigger] item.describes[k] == primary
    &&& data_of(f, item.id) is Ok
    &&& data_of(f, item.id)->Ok_0.len() > 0
}

/// Whether an item is stored as an XMP packet.
pub open spec fn is_packet(item: ItemView) -> bool {
    item.content_type == Some("application/rdf+xml"@)
}

proof fn lemma_carried(f: FileView, primary: ItemId, n: int, j: int)
    requires
        0 <= j < n <= f.items.len(),
        is_about(f, primary, f.items[j]),
    ensures
        is_packet(f.items[j]) ==> described(f, primary, n).xmp is Some,
        !is_packet(f.items[j]) ==> exists|k: int|
            0 <= k < described(f, primary, n).items.len() && {
                let o = #[trigger] described(f, primary, n).items[k];
                &&& o.kind == f.items[j].kind
                &&& o.name == f.items[j].name
                &&& o.content_type == f.items[j].content_type
                &&& o.uri_type == f.items[j].uri_type
                &&& o.hidden == f.items[j].hidden
                &&& o.data == data_of(f, f.items[j].id)->Ok_0
            },
    decreases n,
{
    let item = f.items[j];
    let before = described(f, primary, n - 1);
    let all = described(f, primary, n);
    if j < n - 1 {
        lemma_carried(f, primary, n - 1, j);
        if !is_packet(item) {
            let k = choose|k: int|
                0 <= k < before.items.len() && {
                    let o = #[trigger] before.items[k];
                    &&& o.kind == f.items[j].kind
                    &&& o.name == f.items[j].name
                    &&& o.content_type == f.items[j].content_type
                    &&& o.uri_type == f.items[j].uri_type
                    &&& o.hidden == f.items[j].hidden
                    &&& o.data == data_of(f, f.items[j].id)->Ok_0
                };
            assert(all.items[k] == before.items[k]);
        }
    } else {
        assert(item.describes.contains(primary));
        if !is_packet(item) {
            assert(all.items[before.items.len() as int].kind == item.kind);
        }
    }
}

proof fn lemma_nothing_else(f: FileView, primary: ItemId, n: int, k: int)
    requires
        0 <= n <= f.items.len(),
        0 <= k < described(f, primary, n).items.len(),
    ensures
        exists|j: int|
            #![trigger f.items[j]]
            0 <= j < n && is_about(f, primary, f.items[j]) && !is_packet(f.items[j])
                && described(f, primary, n).items[k].data == data_of(f, f.items[j].id)->Ok_0,
    decreases n,
{
    let before = described(f, primary, n - 1);
    if k < before.items.len() {
        lemma_nothing_else(f, primary, n - 1, k);
        let j = choose|j: int|
            #![trigger f.items[j]]
            0 <= j < n - 1 && is_about(f, primary, f.items[j]) && !is_packet(f.items[j])
                && before.items[k].data == data_of(f, f.items[j].id)->Ok_0;
        assert(is_about(f, primary, f.items[j]));
    } else {
        let item = f.items[n - 1];
        let i = choose|i: int| 0 <= i < item.describes.len() && item.describes[i] == primary;
        assert(item.describes[i] == primary);
        assert(is_about(f, primary, f.items[n - 1]));
    }
}

proof fn lemma_packet(f: FileView, primary: ItemId, n: int)
    requires
        0 <= n <= f.items.len(),
        described(f, primary, n).xmp is Some,
    ensures
        exists|j: int|
            #![trigger f.items[j]]
            0 <= j < n && is_about(f, primary, f.items[j]) && is_packet(f.items[j])
                && described(f, primary, n).xmp == Some(data_of(f, f.items[j].id)->Ok_0) && forall|
                i: int,
            |
                0 <= i < j && is_about(f, primary, f.items[i]) ==> !is_packet(
                    #[trigger] f.items[i],
                ),
    decreases n,
{
    let before = described(f, primary, n - 1);
    if before.xmp is Some {
        lemma_packet(f, primary, n - 1);
        let j = choose|j: int|
            #![trigger f.items[j]]
            0 <= j < n - 1 && is_about(f, primary, f.items[j]) && is_packet(f.items[j])
                && before.xmp == Some(data_of(f, f.items[j].id)->Ok_0) && forall|i: int|
                0 <= i < j && is_about(f, primary, f.items[i]) ==> !is_packet(
                    #[trigger] f.items[i],
                );
        assert(is_about(f, primary, f.items[j]));
    } else {
        let item = f.items[n - 1];
        let k = choose|k: int| 0 <= k < item.describes.len() && item.describes[k] == primary;
        assert(item.describes[k] == primary);
        assert(is_about(f, primary, f.items[n - 1]));
        assert forall|i: int| 0 <= i < n - 1 && is_about(f, primary, f.items[i]) implies !is_packet(
            #[trigger] f.items[i],
        ) by {
            lemma_carried(f, primary, n - 1, i);
        }
    }
}

/// Whether a source is a HEIF file: it names its brands first.
pub open spec fn is_heif(s: Seq<u8>) -> bool {
    s.len() >= 12 && s[4] == 0x66 && s[5] == 0x74 && s[6] == 0x79 && s[7] == 0x70 && !(s[0] == 0xff
        && s[1] == 0xd8)
}

/// Every item of a HEIF source that is about its picture is carried: as it is, or as the XMP
/// packet. The packet is that of the first such item, and nothing else is carried.
pub proof fn every_item_about_the_picture_is_carried(
    bytes: &[u8],
    r: Sidecar,
    f: FileView,
    primary: ItemId,
)
    requires
        call_ensures(read_bytes, (bytes,), r),
        is_heif(bytes@),
        file_of(bytes@) == Ok::<FileView, crate::heif::Error>(f),
        f.primary == Some(primary),
    ensures
        forall|j: int|
            0 <= j < f.items.len() && is_about(f, primary, f.items[j]) && !is_packet(
                #[trigger] f.items[j],
            ) ==> exists|k: int|
                0 <= k < r@.items.len() && {
                    let o = #[trigger] r@.items[k];
                    &&& o.kind == f.items[j].kind
                    &&& o.name == f.items[j].name
                    &&& o.content_type == f.items[j].content_type
                    &&& o.uri_type == f.items[j].uri_type
                    &&& o.hidden == f.items[j].hidden
                    &&& o.data == data_of(f, f.items[j].id)->Ok_0
                },
        forall|j: int|
            0 <= j < f.items.len() && is_about(f, primary, f.items[j]) && is_packet(
                #[trigger] f.items[j],
            ) ==> r@.xmp is Some,
        r@.xmp is Some ==> exists|j: int|
            #![trigger f.items[j]]
            0 <= j < f.items.len() && is_about(f, primary, f.items[j]) && is_packet(f.items[j])
                && r@.xmp == Some(data_of(f, f.items[j].id)->Ok_0) && forall|i: int|
                0 <= i < j && is_about(f, primary, f.items[i]) ==> !is_packet(
                    #[trigger] f.items[i],
                ),
        forall|k: int|
            0 <= k < r@.items.len() ==> exists|j: int|
                #![trigger f.items[j]]
                0 <= j < f.items.len() && is_about(f, primary, f.items[j]) && !is_packet(f.items[j])
                    && (#[trigger] r@.items[k]).data == data_of(f, f.items[j].id)->Ok_0,
{
    let n = f.items.len() as int;
    assert(r@ == sidecar_of(bytes@));
    assert(r@ == described(f, primary, n));
    assert forall|j: int|
        0 <= j < n && is_about(f, primary, f.items[j]) && !is_packet(
            #[trigger] f.items[j],
        ) implies exists|k: int|
        0 <= k < r@.items.len() && {
            let o = #[trigger] r@.items[k];
            &&& o.kind == f.items[j].kind
            &&& o.name == f.items[j].name
            &&& o.content_type == f.items[j].content_type
            &&& o.uri_type == f.items[j].uri_type
            &&& o.hidden == f.items[j].hidden
            &&& o.data == data_of(f, f.items[j].id)->Ok_0
        } by {
        lemma_carried(f, primary, n, j);
    }
    assert forall|j: int|
        0 <= j < n && is_about(f, primary, f.items[j]) && is_packet(
            #[trigger] f.items[j],
        ) implies r@.xmp is Some by {
        lemma_carried(f, primary, n, j);
    }
    if r@.xmp is Some {
        lemma_packet(f, primary, n);
    }
    assert forall|k: int| 0 <= k < r@.items.len() implies exists|j: int|
        #![trigger f.items[j]]
        0 <= j < n && is_about(f, primary, f.items[j]) && !is_packet(f.items[j]) && (
        #[trigger] r@.items[k]).data == data_of(f, f.items[j].id)->Ok_0 by {
        lemma_nothing_else(f, primary, n, k);
    }
}

} // verus!
