//! Everything a source says about the photograph that is neither pixels nor Exif: its XMP
//! packet, and any opaque item that describes it.
//!
//! HEIF answers "about the photograph" in the file itself: a `cdsc` reference means *this
//! item describes that one*. A capture's Photographic Styles plist points at the primary
//! image, while XMP items may point at auxiliary images (sky, skin and portrait mattes,
//! the gain map). Carrying those forward would claim mattes the output does not have, so
//! the `cdsc` target *is* the filter -- an item is carried only if it describes the
//! primary.

use vstd::array::array_as_slice;
use vstd::prelude::*;

use crate::bytes::{be32, get_be32, to_owned_bytes};
use crate::heif::engine::copy_text;
use crate::heif::model::{data_of, file_of, FileView, ItemView, EXIF, FTYP, GRID, HVC1, TMAP};
use crate::heif::write::opt_bytes;
use crate::heif::{views, HeifFile, Item, ItemId};
use crate::jpeg::{xmp_of, xmp_payload};
use crate::opaque::{OpaqueItem, OpaqueView};
use crate::portable::gainmap_tiff::{ifd0_xmp, tiff_xmp};

verus! {

/// `hvc2`.
pub const HVC2: u32 = 0x68766332;

/// `av01`.
pub const AV01: u32 = 0x61763031;

/// `iovl`.
pub const IOVL: u32 = 0x696f766c;

/// `iden`.
pub const IDEN: u32 = 0x6964656e;

/// The MIME type an XMP packet is stored under in a HEIF `mime` item.
pub const XMP_CONTENT_TYPE: &'static str = "application/rdf+xml";

/// Item types that carry coded pixels, or derive from items that do. Copying one means
/// copying a bitstream plus its `hvcC`, `ispe` and `pixi` -- a different job from copying
/// metadata.
pub open spec fn is_image(kind: u32) -> bool {
    kind == HVC1 || kind == HVC2 || kind == AV01 || kind == GRID || kind == IOVL || kind == IDEN
        || kind == TMAP
}

/// What a source carried alongside its pixels.
#[derive(Clone, Debug)]
pub struct Sidecar {
    /// The source's XMP packet -- keywords, title, caption, rating, creator and rights,
    /// develop history. `None` when the source has none.
    pub xmp: Option<Vec<u8>>,
    /// Opaque items describing the photograph, to be copied verbatim.
    pub items: Vec<OpaqueItem>,
}

/// What a source carried alongside its pixels.
#[verifier::ext_equal]
pub struct SidecarView {
    pub xmp: Option<Seq<u8>>,
    pub items: Seq<OpaqueView>,
}

impl View for Sidecar {
    type V = SidecarView;

    open spec fn view(&self) -> SidecarView {
        SidecarView { xmp: opt_bytes(self.xmp), items: views(self.items@) }
    }
}

/// Nothing at all.
pub open spec fn nothing() -> SidecarView {
    SidecarView { xmp: None, items: seq![] }
}

impl Default for Sidecar {
    fn default() -> (s: Sidecar)
        ensures
            s@ == nothing(),
    {
        let s = Sidecar { xmp: None, items: Vec::new() };
        assert(s@.items =~= seq![]);
        s
    }
}

/// How many bytes the first `n` items hold.
pub open spec fn items_size(items: Seq<OpaqueView>, n: int) -> int
    decreases n,
{
    if n <= 0 {
        0
    } else {
        items_size(items, n - 1) + items[n - 1].data.len()
    }
}

proof fn lemma_items_size_grows(items: Seq<OpaqueView>, a: int, b: int)
    requires
        0 <= a <= b,
    ensures
        items_size(items, a) <= items_size(items, b),
    decreases b,
{
    if a < b {
        lemma_items_size_grows(items, a, b - 1);
    }
}

impl SidecarView {
    /// How many bytes there are in all.
    pub open spec fn size(self) -> int {
        items_size(self.items, self.items.len() as int) + match self.xmp {
            Some(x) => x.len() as int,
            None => 0int,
        }
    }
}

impl Sidecar {
    /// Whether there is nothing to carry.
    pub fn is_empty(&self) -> (b: bool)
        ensures
            b == (self@.xmp is None && self@.items.len() == 0),
    {
        self.xmp.is_none() && self.items.len() == 0
    }

    /// Total bytes, for a progress line: these are copied whole.
    pub fn bytes(&self) -> (n: usize)
        requires
            self@.size() <= usize::MAX,
        ensures
            n == self@.size(),
    {
        let ghost all = self@.items;
        let mut n: usize = match &self.xmp {
            Some(x) => x.len(),
            None => 0,
        };
        let ghost head = n as int;
        let mut i: usize = 0;
        while i < self.items.len()
            invariant
                i <= self.items@.len(),
                all == views(self.items@),
                head + items_size(all, all.len() as int) <= usize::MAX,
                n == head + items_size(all, i as int),
            decreases self.items@.len() - i,
        {
            proof {
                assert(all[i as int] == self.items@[i as int]@);
                lemma_items_size_grows(all, i + 1, all.len() as int);
            }
            n = n + self.items[i].data.len();
            i = i + 1;
        }
        n
    }
}

/// An item as it is carried.
pub open spec fn carried(item: ItemView, data: Seq<u8>) -> OpaqueView {
    OpaqueView {
        kind: item.kind,
        name: item.name,
        content_type: item.content_type,
        uri_type: item.uri_type,
        hidden: item.hidden,
        data,
    }
}

/// The data of an item that is carried: it is no image and no Exif, it describes the
/// primary, and it holds something that can be reached.
pub open spec fn describing_data(f: FileView, primary: ItemId, item: ItemView) -> Option<Seq<u8>> {
    if is_image(item.kind) || item.kind == EXIF || !item.describes.contains(primary) {
        None
    } else {
        match data_of(f, item.id) {
            Err(_) => None,
            Ok(d) => if d.len() == 0 {
                None
            } else {
                Some(d)
            },
        }
    }
}

/// What the first `n` items of a file add up to. One XMP packet per file: the first.
pub open spec fn described(f: FileView, primary: ItemId, n: int) -> SidecarView
    decreases n,
{
    if n <= 0 {
        nothing()
    } else {
        let before = described(f, primary, n - 1);
        let item = f.items[n - 1];
        match describing_data(f, primary, item) {
            None => before,
            Some(d) => if item.content_type == Some(XMP_CONTENT_TYPE@) {
                SidecarView {
                    xmp: if before.xmp is None {
                        Some(d)
                    } else {
                        before.xmp
                    },
                    ..before
                }
            } else {
                SidecarView { items: before.items.push(carried(item, d)), ..before }
            },
        }
    }
}

/// A HEIF source's XMP packet and its describing items. With no primary item there is
/// nothing for an item to describe.
pub open spec fn heif_sidecar_of(s: Seq<u8>) -> SidecarView {
    match file_of(s) {
        Err(_) => nothing(),
        Ok(f) => match f.primary {
            None => nothing(),
            Some(p) => described(f, p, f.items.len() as int),
        },
    }
}

fn describes(item: &Item, primary: ItemId) -> (b: bool)
    ensures
        b == item.describes@.contains(primary),
{
    let mut i: usize = 0;
    while i < item.describes.len()
        invariant
            i <= item.describes@.len(),
            forall|k: int| 0 <= k < i ==> #[trigger] item.describes@[k] != primary,
        decreases item.describes@.len() - i,
    {
        if item.describes[i] == primary {
            assert(item.describes@[i as int] == primary);
            return true;
        }
        i = i + 1;
    }
    false
}

/// The data of an item that is carried.
fn take_data<'a>(file: &HeifFile<'a>, item: &Item, primary: ItemId) -> (r: Option<&'a [u8]>)
    ensures
        match r {
            Some(d) => describing_data(file@, primary, item@) == Some(d@),
            None => describing_data(file@, primary, item@) is None,
        },
{
    let kind: u32 = get_be32(array_as_slice(&item.item_type), 0);
    if kind == HVC1 || kind == HVC2 || kind == AV01 || kind == GRID || kind == IOVL || kind == IDEN
        || kind == TMAP || kind == EXIF {
        return None;
    }
    if !describes(item, primary) {
        return None;
    }
    match file.item_data(item.id) {
        Ok(d) => if d.len() == 0 {
            None
        } else {
            Some(d)
        },
        Err(_) => None,
    }
}

fn is_xmp(item: &Item) -> (b: bool)
    ensures
        b == (item@.content_type == Some(XMP_CONTENT_TYPE@)),
{
    match &item.content_type {
        Some(t) => {
            let want: String = XMP_CONTENT_TYPE.to_owned();
            *t == want
        },
        None => false,
    }
}

/// A HEIF source's XMP packet and its describing items.
fn heif_sidecar(bytes: &[u8]) -> (r: Sidecar)
    ensures
        r@ == heif_sidecar_of(bytes@),
{
    let file = match HeifFile::parse(bytes) {
        Ok(f) => f,
        Err(_) => {
            return Sidecar::default();
        },
    };
    let primary: ItemId = match file.primary_item() {
        Some(p) => p,
        None => {
            return Sidecar::default();
        },
    };
    let ghost f = file@;
    let mut out = Sidecar::default();
    let items = file.items();
    let mut i: usize = 0;
    while i < items.len()
        invariant
            i <= items@.len(),
            f == file@,
            f.items == views(items@),
            out@ == described(f, primary, i as int),
        decreases items@.len() - i,
    {
        let ghost before = out@;
        let item = &items[i];
        assert(f.items[i as int] == item@);
        if let Some(data) = take_data(&file, item, primary) {
            if is_xmp(item) {
                if out.xmp.is_none() {
                    out.xmp = Some(to_owned_bytes(data));
                }
            } else {
                let x = OpaqueItem {
                    item_type: item.item_type,
                    name: item.name.clone(),
                    content_type: copy_text(&item.content_type),
                    uri_type: copy_text(&item.uri_type),
                    hidden: item.hidden,
                    data: to_owned_bytes(data),
                };
                out.items.push(x);
                assert(views(out.items@) =~= before.items.push(x@));
            }
        }
        assert(out@ == described(f, primary, i + 1));
        i = i + 1;
    }
    out
}

/// What a file carried alongside its pixels.
pub open spec fn sidecar_of(s: Seq<u8>) -> SidecarView {
    if s.len() < 12 {
        nothing()
    } else if s[0] == 0xff && s[1] == 0xd8 {
        SidecarView { xmp: xmp_of(s), items: seq![] }
    } else if be32(s, 4) == FTYP {
        heif_sidecar_of(s)
    } else if (s[0] == 0x49 && s[1] == 0x49) || (s[0] == 0x4d && s[1] == 0x4d) {
        SidecarView { xmp: tiff_xmp(s), items: seq![] }
    } else {
        nothing()
    }
}

/// A file's XMP and describing items.
///
/// Nothing for a file that simply has none, and never fatal for one that cannot be read:
/// metadata is not a reason to refuse a photograph.
pub fn read_bytes(bytes: &[u8]) -> (r: Sidecar)
    ensures
        r@ == sidecar_of(bytes@),
{
    if bytes.len() < 12 {
        return Sidecar::default();
    }
    let (a, b): (u8, u8) = (bytes[0], bytes[1]);
    if a == 0xff && b == 0xd8 {
        let mut out = Sidecar::default();
        out.xmp = match xmp_payload(bytes) {
            Some(p) => Some(to_owned_bytes(p)),
            None => None,
        };
        return out;
    }
    if get_be32(bytes, 4) == FTYP {
        return heif_sidecar(bytes);
    }
    let mut out = Sidecar::default();
    if (a == 0x49 && b == 0x49) || (a == 0x4d && b == 0x4d) {
        out.xmp = ifd0_xmp(bytes);
    }
    out
}

proof fn lemma_described(f: FileView, primary: ItemId, n: int, k: int)
    requires
        0 <= n <= f.items.len(),
        0 <= k < described(f, primary, n).items.len(),
    ensures
        exists|j: int|
            0 <= j < n && #[trigger] f.items[j].describes.contains(primary) && !is_image(
                f.items[j].kind,
            ) && f.items[j].kind != EXIF && described(f, primary, n).items[k] == carried(
                f.items[j],
                data_of(f, f.items[j].id)->Ok_0,
            ),
    decreases n,
{
    let before = described(f, primary, n - 1);
    if k < before.items.len() {
        lemma_described(f, primary, n - 1, k);
        let j = choose|j: int|
            0 <= j < n - 1 && #[trigger] f.items[j].describes.contains(primary) && !is_image(
                f.items[j].kind,
            ) && f.items[j].kind != EXIF && before.items[k] == carried(
                f.items[j],
                data_of(f, f.items[j].id)->Ok_0,
            );
        assert(f.items[j].describes.contains(primary));
    } else {
        assert(f.items[n - 1].describes.contains(primary));
    }
}

/// Every carried item of a HEIF source is one of its items, byte for byte, that describes
/// the primary image, and neither an image nor the Exif block.
pub proof fn carried_items_describe_the_primary(s: Seq<u8>, f: FileView, primary: ItemId, k: int)
    requires
        file_of(s) == Ok::<FileView, crate::heif::Error>(f),
        f.primary == Some(primary),
        0 <= k < heif_sidecar_of(s).items.len(),
    ensures
        exists|j: int|
            0 <= j < f.items.len() && #[trigger] f.items[j].describes.contains(primary)
                && !is_image(f.items[j].kind) && f.items[j].kind != EXIF && heif_sidecar_of(
                s,
            ).items[k] == carried(f.items[j], data_of(f, f.items[j].id)->Ok_0),
{
    lemma_described(f, primary, f.items.len() as int, k);
}

} // verus!
