//! Lifting a source file's Exif block out, so a conversion keeps the camera, lens,
//! exposure and date.
//!
//! Every supported source carries Exif as one contiguous TIFF structure (a HEIF `Exif`
//! item, a JPEG `APP1` payload, or a TIFF's own `IFD0`), so this finds that structure
//! and re-emits it standalone. Selection is a *denylist*, so an unknown tag is carried
//! rather than lost.
//!
//! It is rebuilt rather than copied for two reasons:
//!
//! - A TIFF `IFD0` describes pixels too. Its `StripOffsets` and `SubIFDs` point into a
//!   file the output does not contain, so copying them yields live pointers into
//!   nothing. That is what [`is_dropped`] removes.
//! - A value addressed relative to the TIFF header cannot move. `MakerNote` (`0x927C`)
//!   is the one that matters -- Apple's, Canon's and Sony's all use offsets into the
//!   enclosing TIFF -- so it is padded back to the exact block-relative offset the
//!   source had, and vendor detection is never needed.
//!
//! ICC (`0x8773`) and an `IFD0` XMP packet (`0x02BC`) are left out for a different
//! reason: the `colr` box and the XMP item carry them better.
//!
//! A rendered intermediate has no `MakerNote` at all, so [`maker_note_from_bytes`] reads
//! the original camera file for that one tag and [`read_bytes_with_maker_note`] grafts
//! it in with the same pinning.

pub mod again;
pub mod laws;

use vstd::array::array_as_slice;
use vstd::prelude::*;

use crate::bytes::{
    be32, get_be32, group_encoded_lengths, has_at, push_word32, span, to_owned_bytes, word16, word32_bytes,
};
use crate::heif::engine::opt_slice;
use crate::heif::model::{data_of, file_of, find_kind, EXIF, FTYP};
use crate::heif::write::opt_bytes;
use crate::heif::{views, HeifFile, Item};
use crate::jpeg::{app13_iptc_payload, app1_payload, exif_of, iptc_of};
use crate::portable::block::{
    block_bytes, can_be_stated, entries_loose, ifd_at, ifd_loose, ifd_pins_last, ifd_region_end,
    ifd_views, is_loose, lemma_plan_fits, lemma_plan_region, lemma_value_is_within, pins_at,
    plan_fits, plan_views, region_end, serialize, sizes_fit, states_its_value, states_its_values,
    PlanEntry, PlanEntryView, PlannedIfd, PlannedView, Value, ValueView,
};
use crate::portable::tiff::{
    entries_from, entry_views, find_tag, first_integer, ifd_of, opened, size_of, type_size,
    value_of, EntryView, Fault, Ifd, IfdView, Tiff,
};
use crate::portable::Error;

verus! {

broadcast use group_encoded_lengths;

/// Which container the block came from, so that "the source had no Exif" is
/// distinguishable from "it was dropped".
#[derive(Clone, Copy, Debug, PartialEq, Eq, Structural)]
pub enum Origin {
    /// An `Exif` item in a HEIF/HEIC source.
    Heif,
    /// A JPEG `APP1` segment.
    Jpeg,
    /// A TIFF's own `IFD0`.
    Tiff,
}

impl Origin {
    /// Name for logs.
    pub fn label(&self) -> (s: &'static str)
        ensures
            s@ == match *self {
                Origin::Heif => "heif-exif-item"@,
                Origin::Jpeg => "jpeg-app1"@,
                Origin::Tiff => "tiff-ifd0"@,
            },
    {
        match *self {
            Origin::Heif => "heif-exif-item",
            Origin::Jpeg => "jpeg-app1",
            Origin::Tiff => "tiff-ifd0",
        }
    }
}

/// What became of a companion file's `MakerNote`.
///
/// Every refusal is a distinct reason, and each is reported rather than folded into a
/// single "no": grafting the wrong bytes produces a file that parses and lies, so which
/// check stopped it is the useful half of the answer.
#[derive(Clone, Copy, Debug, PartialEq, Eq, Structural)]
pub enum MakerNoteGraft {
    /// No companion `MakerNote` was supplied.
    NotOffered,
    /// Grafted, pinned at the offset its contents are addressed against.
    Carried { bytes: usize },
    /// The source block has a `MakerNote` of its own, which wins -- it is the one the
    /// rest of that block was written alongside.
    HostHasOwn,
    /// The two blocks disagree about byte order.
    ByteOrderDiffers,
    /// Its offset falls inside the rebuilt block's IFD region, or so far past it that
    /// [`MAX_PIN_PADDING`] of padding would not reach.
    Unreachable,
    /// The source block has no Exif IFD, which is the only IFD a `MakerNote` belongs in.
    NoExifIfd,
}

impl MakerNoteGraft {
    /// Name for logs.
    pub fn label(&self) -> (s: &'static str)
        ensures
            s@ == match *self {
                MakerNoteGraft::NotOffered => "not-offered"@,
                MakerNoteGraft::Carried { bytes } => "carried"@,
                MakerNoteGraft::HostHasOwn => "source-has-own"@,
                MakerNoteGraft::ByteOrderDiffers => "byte-order-differs"@,
                MakerNoteGraft::Unreachable => "unreachable-offset"@,
                MakerNoteGraft::NoExifIfd => "no-exif-ifd"@,
            },
    {
        match *self {
            MakerNoteGraft::NotOffered => "not-offered",
            MakerNoteGraft::Carried { .. } => "carried",
            MakerNoteGraft::HostHasOwn => "source-has-own",
            MakerNoteGraft::ByteOrderDiffers => "byte-order-differs",
            MakerNoteGraft::Unreachable => "unreachable-offset",
            MakerNoteGraft::NoExifIfd => "no-exif-ifd",
        }
    }
}

/// A rebuilt Exif block, ready to hand to a muxer.
#[derive(Clone, Debug)]
pub struct SourceExif {
    /// A complete TIFF structure: 8-byte header, `IFD0`, the sub-IFDs it points at,
    /// `IFD1` when there is a thumbnail, then their values. In the *source's* byte
    /// order, which is what lets every value be copied verbatim.
    pub tiff: Vec<u8>,
    pub origin: Origin,
    /// How many entries survived, excluding the sub-IFD pointers. A `MakerNote` counts
    /// once however many vendor tags a reader finds inside it.
    pub tag_count: usize,
    /// `Orientation` (`0x0112`), `1` when the source states none.
    ///
    /// Reported separately as well as carried in the block because the container has to
    /// declare the same transform.
    pub orientation: u8,
    /// The IPTC-IIM block (`IFD0` tag `33723`), when the source has one. Also carried
    /// inside [`SourceExif::tiff`] as that tag.
    pub iptc: Option<Vec<u8>>,
    /// Set when the source had a `MakerNote` that could not be pinned to its original
    /// offset, so it was left out.
    pub dropped_maker_note: bool,
    /// What became of a companion file's `MakerNote`, when one was offered.
    pub maker_note_graft: MakerNoteGraft,
}

/// `0x0112`.
pub const TAG_ORIENTATION: u16 = 274;

/// `0x0201`, the `IFD1` thumbnail's offset.
pub const TAG_THUMBNAIL_OFFSET: u16 = 513;

/// `0x0202`, the `IFD1` thumbnail's length.
pub const TAG_THUMBNAIL_LENGTH: u16 = 514;

/// `0x8769`, the pointer to Exif's own IFD.
pub const TAG_EXIF_IFD: u16 = 34665;

/// `0x8825`, the pointer to the GPS IFD.
pub const TAG_GPS_IFD: u16 = 34853;

/// `0x927C`, whose contents address themselves.
pub const TAG_MAKER_NOTE: u16 = 37500;

/// `0xA005`, the pointer to the Interoperability IFD.
pub const TAG_INTEROP_IFD: u16 = 40965;

/// `0x83BB`, the IPTC-IIM block.
pub const TAG_IPTC: u16 = 33723;

/// Beyond this much padding, pinning a `MakerNote` costs more than the tag is worth.
pub const MAX_PIN_PADDING: usize = 0x10_0000;

/// Offsets and lengths that address bytes the output does not contain. A reader that
/// knows these tags *will* follow them.
pub open spec fn addresses_pixels(tag: u16) -> bool {
    ||| tag == 273 || tag == 279  // StripOffsets, StripByteCounts
    ||| tag == 288 || tag == 289  // FreeOffsets, FreeByteCounts
    ||| tag == 324 || tag == 325  // TileOffsets, TileByteCounts
    ||| tag == 330  // SubIFDs
    ||| tag == 513 || tag == 514  // JPEGInterchangeFormat and its length
    ||| tag == 519 || tag == 520 || tag == 521  // JPEG tables
    ||| tag == 559  // StripRowCounts
    ||| tag == 50740  // DNGPrivateData

}

/// How the *source's* pixels were laid out. The output's are coded differently whatever
/// arrived, so copying these would state something false rather than lose something
/// true.
pub open spec fn describes_pixels(tag: u16) -> bool {
    ||| tag == 254 || tag == 255  // NewSubfileType, SubfileType
    ||| tag == 258 || tag == 259 || tag == 262  // BitsPerSample, Compression, Photometric
    ||| 263 <= tag <= 266  // Threshholding, CellWidth, CellLength, FillOrder
    ||| tag == 277 || tag == 278 || tag == 284  // SamplesPerPixel, RowsPerStrip, Planar
    ||| 290 <= tag <= 293  // GrayResponse*, T4Options, T6Options
    ||| tag == 301 || tag == 317 || tag == 320  // TransferFunction, Predictor, ColorMap
    ||| tag == 322 || tag == 323  // TileWidth, TileLength
    ||| tag == 332 || tag == 333 || tag == 334 || tag == 336 || tag == 337  // Ink*, DotRange
    ||| 338 <= tag <= 342  // ExtraSamples, SampleFormat, SMin, SMax, TransferRange
    ||| tag == 512 || tag == 515 || tag == 517 || tag == 518  // JPEGProc and others
    ||| tag == 532  // ReferenceBlackWhite
    ||| tag == 50706 || tag == 50707  // DNGVersion, DNGBackwardVersion

}

/// Carried by a part of the output better suited to it: XMP gets its own item, the ICC
/// profile is the `colr` box's job.
pub open spec fn carried_elsewhere(tag: u16) -> bool {
    tag == 700 || tag == 34675
}

/// Tags that must not be copied into the output's `IFD0`.
///
/// A denylist, where the sub-IFDs keep everything: `IFD0` is the one IFD a TIFF source
/// uses to describe its own pixels, so it is the only one where a verbatim copy can
/// produce a dangling pointer or a false claim.
pub open spec fn dropped(tag: u16) -> bool {
    addresses_pixels(tag) || describes_pixels(tag) || carried_elsewhere(tag)
}

/// Tags that must not be copied into the output's `IFD0`.
pub fn is_dropped(tag: u16) -> (b: bool)
    ensures
        b == dropped(tag),
{
    match tag {
        273 | 279 | 288 | 289 | 324 | 325 | 330 | 513 | 514 | 519 | 520 | 521 | 559 | 50740 => true,
        254 | 255 | 258 | 259 | 262 | 263 | 264 | 265 | 266 | 277 | 278 | 284 => true,
        290 | 291 | 292 | 293 | 301 | 317 | 320 | 322 | 323 => true,
        332 | 333 | 334 | 336 | 337 | 338 | 339 | 340 | 341 | 342 => true,
        512 | 515 | 517 | 518 | 532 | 50706 | 50707 => true,
        700 | 34675 => true,
        _ => false,
    }
}

/// Which entries of an IFD are copied as they are.
#[derive(Clone, Copy, Debug, PartialEq, Eq, Structural)]
pub enum Rule {
    /// `IFD0`: everything but the denylist and the pointers.
    Root,
    /// The Exif IFD: everything but the Interoperability pointer and the `MakerNote`.
    Exif,
    /// `IFD1`: everything but where pixels are.
    Thumbnail,
    /// Everything.
    All,
}

pub open spec fn keeps(rule: Rule, tag: u16) -> bool {
    match rule {
        Rule::Root => !dropped(tag) && tag != TAG_EXIF_IFD && tag != TAG_GPS_IFD,
        Rule::Exif => tag != TAG_INTEROP_IFD && tag != TAG_MAKER_NOTE,
        Rule::Thumbnail => tag != TAG_THUMBNAIL_OFFSET && tag != TAG_THUMBNAIL_LENGTH && tag != 273
            && tag != 279 && tag != 324 && tag != 325 && tag != 330,
        Rule::All => true,
    }
}

fn is_kept(rule: Rule, tag: u16) -> (b: bool)
    ensures
        b == keeps(rule, tag),
{
    match rule {
        Rule::Root => !is_dropped(tag) && tag != TAG_EXIF_IFD && tag != TAG_GPS_IFD,
        Rule::Exif => tag != TAG_INTEROP_IFD && tag != TAG_MAKER_NOTE,
        Rule::Thumbnail => tag != TAG_THUMBNAIL_OFFSET && tag != TAG_THUMBNAIL_LENGTH && tag != 273
            && tag != 279 && tag != 324 && tag != 325 && tag != 330,
        Rule::All => true,
    }
}

/// What is copied of one entry: its value, when the rule keeps it, its type has a known
/// size and its bytes are there.
pub open spec fn copied(s: Seq<u8>, x: (u16, EntryView), rule: Rule) -> Seq<PlanEntryView> {
    if !keeps(rule, x.0) || size_of(x.1.typ) == 0 {
        seq![]
    } else {
        match value_of(s, x.1) {
            Err(_) => seq![],
            Ok(b) => seq![
                PlanEntryView {
                    tag: x.0,
                    typ: x.1.typ,
                    count: x.1.count,
                    value: ValueView::Bytes(b),
                },
            ],
        }
    }
}

/// What is copied of the first `n` entries.
pub open spec fn planned(
    s: Seq<u8>,
    entries: Seq<(u16, EntryView)>,
    rule: Rule,
    n: int,
) -> Seq<PlanEntryView>
    decreases n,
{
    if n <= 0 {
        seq![]
    } else {
        planned(s, entries, rule, n - 1) + copied(s, entries[n - 1], rule)
    }
}

/// What is copied of an IFD.
pub open spec fn plan_of(s: Seq<u8>, ifd: IfdView, rule: Rule) -> Seq<PlanEntryView> {
    planned(s, ifd.entries, rule, ifd.entries.len() as int)
}

/// Copies the entries of one IFD that a rule keeps.
fn plan<'a>(tiff: &Tiff<'a>, ifd: &Ifd, rule: Rule) -> (out: Vec<PlanEntry<'a>>)
    ensures
        plan_views(out@) == plan_of(tiff.bytes@, ifd@, rule),
{
    let ghost s = tiff.bytes@;
    let ghost all = ifd@.entries;
    let mut out: Vec<PlanEntry<'a>> = Vec::new();
    let mut i: usize = 0;
    assert(plan_views(out@) =~= planned(s, all, rule, 0));
    while i < ifd.entries.len()
        invariant
            i <= ifd.entries@.len(),
            s == tiff.bytes@,
            all == entry_views(ifd.entries@),
            plan_views(out@) == planned(s, all, rule, i as int),
        decreases ifd.entries@.len() - i,
    {
        let (tag, entry) = ifd.entries[i];
        let ghost before = out@;
        assert(all[i as int] == (tag, entry@));
        if is_kept(rule, tag) && type_size(entry.typ) != 0 {
            if let Ok(bytes) = tiff.bytes_of(&entry) {
                let x = PlanEntry {
                    tag,
                    typ: entry.typ,
                    count: entry.count,
                    value: Value::Bytes(bytes),
                };
                out.push(x);
                assert(plan_views(out@) =~= plan_views(before) + seq![x@]);
            }
        }
        assert(plan_views(out@) =~= plan_views(before) + copied(s, all[i as int], rule));
        i = i + 1;
    }
    out
}

/// A LONG-typed pointer entry, which fits in the entry itself.
pub open spec fn pointer_to(tag: u16, target: int) -> PlanEntryView {
    PlanEntryView { tag, typ: 4, count: 1, value: ValueView::IfdPointer(target) }
}

fn pointer<'a>(tag: u16, target: usize) -> (e: PlanEntry<'a>)
    ensures
        e@ == pointer_to(tag, target as int),
{
    PlanEntry { tag, typ: 4, count: 1, value: Value::IfdPointer(target) }
}

/// The IFD a pointer of another names, when it can be read.
pub open spec fn sub_ifd(s: Seq<u8>, le: bool, ifd: IfdView, tag: u16) -> Option<IfdView> {
    match first_integer(s, le, find_tag(ifd.entries, tag, 0)) {
        None => None,
        Some(off) => match ifd_of(s, le, off as int) {
            Err(_) => None,
            Ok(x) => Some(x),
        },
    }
}

/// The offset a sub-IFD pointer names, or `None` if the tag is absent or does not hold a
/// usable one.
fn sub_ifd_offset(tiff: &Tiff, ifd: &Ifd, tag: u16) -> (r: Option<u32>)
    ensures
        r == first_integer(tiff.bytes@, tiff.little_endian, find_tag(ifd@.entries, tag, 0)),
{
    tiff.first_of(ifd.get(tag))
}

/// The IFD a pointer of another names, when it can be read.
fn read_sub_ifd(tiff: &Tiff, ifd: &Ifd, tag: u16) -> (r: Option<Ifd>)
    ensures
        match r {
            Some(x) => sub_ifd(tiff.bytes@, tiff.little_endian, ifd@, tag) == Some(x@),
            None => sub_ifd(tiff.bytes@, tiff.little_endian, ifd@, tag) is None,
        },
{
    match sub_ifd_offset(tiff, ifd, tag) {
        None => None,
        Some(off) => match tiff.read_ifd(off as usize) {
            Ok(x) => Some(x),
            Err(_) => None,
        },
    }
}

/// A `MakerNote` lifted out of one file so it can be grafted into another's Exif block.
#[derive(Debug)]
pub struct ForeignMakerNote {
    bytes: Vec<u8>,
    /// The entry's declared type and count, carried rather than assumed: a vendor that
    /// writes something other than `UNDEFINED` keeps its own claim.
    typ: u16,
    count: u32,
    /// Where it sat, measured from the TIFF header of the block it came out of. Kept
    /// because the blob's own contents are addressed against it, and pinning is what
    /// makes them true again.
    offset: usize,
    /// Byte order of the block it came out of.
    ///
    /// Most vendor `MakerNote`s carry no byte-order mark of their own, so a reader takes
    /// the order from the enclosing block. Grafting one into a block of the opposite
    /// order would transpose every value it holds while parsing cleanly, which is why
    /// [`MakerNoteGraft::ByteOrderDiffers`] refuses instead.
    little_endian: bool,
}

/// A lifted `MakerNote`, its bytes as a sequence.
pub struct NoteView {
    pub bytes: Seq<u8>,
    pub typ: u16,
    pub count: u32,
    pub offset: int,
    pub little_endian: bool,
}

impl View for ForeignMakerNote {
    type V = NoteView;

    closed spec fn view(&self) -> NoteView {
        NoteView {
            bytes: self.bytes@,
            typ: self.typ,
            count: self.count,
            offset: self.offset as int,
            little_endian: self.little_endian,
        }
    }
}

/// Whether a note is as long as its type and count say, and there at all.
pub open spec fn note_is_whole(n: NoteView) -> bool {
    size_of(n.typ) > 0 && n.bytes.len() == n.count * size_of(n.typ) && n.bytes.len() > 0
}

/// Apple's `MakerNote` signature. Two bytes after it comes its own byte-order mark, and
/// every offset inside it is relative to the `A` of `Apple`.
pub const APPLE_MAKER_SIG: &'static str = "Apple iOS\0\0";

impl ForeignMakerNote {
    #[verifier::type_invariant]
    spec fn whole(self) -> bool {
        note_is_whole(self@)
    }

    /// Size of the blob.
    ///
    /// The only honest measure of it: how many tags a reader finds inside depends on
    /// vendor layout that is not interpreted.
    pub fn len(&self) -> (n: usize)
        ensures
            n == self@.bytes.len(),
    {
        self.bytes.len()
    }

    /// Whether the blob is empty, which it never is.
    pub fn is_empty(&self) -> (b: bool)
        ensures
            b == (self@.bytes.len() == 0),
            !b,
    {
        proof {
            use_type_invariant(self);
        }
        self.bytes.len() == 0
    }

    /// The offset the blob's own pointers are written against.
    pub fn offset(&self) -> (n: usize)
        ensures
            n == self@.offset,
    {
        self.offset
    }

    /// Whether this is Apple's `MakerNote`.
    ///
    /// The one vendor's block a backend writing through a platform's parsed properties
    /// can still carry.
    pub fn is_apple(&self) -> (b: bool)
        ensures
            b == crate::bytes::matches_at(
                self@.bytes,
                0,
                vstd::utf8::encode_utf8(APPLE_MAKER_SIG@),
            ),
    {
        has_at(self.bytes.as_slice(), 0, APPLE_MAKER_SIG.as_bytes())
    }
}

impl Clone for ForeignMakerNote {
    fn clone(&self) -> (r: Self)
        ensures
            r@ == self@,
    {
        proof {
            use_type_invariant(self);
        }
        ForeignMakerNote {
            bytes: to_owned_bytes(self.bytes.as_slice()),
            typ: self.typ,
            count: self.count,
            offset: self.offset,
            little_endian: self.little_endian,
        }
    }
}

/// An entry for a `MakerNote`: pinned at its offset, unless it is small enough to live
/// inside its entry, where relocation is a non-issue.
pub open spec fn note_entry(typ: u16, count: u32, bytes: Seq<u8>, offset: int) -> PlanEntryView {
    PlanEntryView {
        tag: TAG_MAKER_NOTE,
        typ,
        count,
        value: if bytes.len() > 4 {
            ValueView::Pinned { bytes, offset }
        } else {
            ValueView::Bytes(bytes)
        },
    }
}

fn make_note_entry<'a>(typ: u16, count: u32, bytes: &'a [u8], offset: usize) -> (e: PlanEntry<'a>)
    ensures
        e@ == note_entry(typ, count, bytes@, offset as int),
{
    PlanEntry {
        tag: TAG_MAKER_NOTE,
        typ,
        count,
        value: if bytes.len() > 4 {
            Value::Pinned { bytes, offset }
        } else {
            Value::Bytes(bytes)
        },
    }
}

/// An Exif IFD's own `MakerNote`.
pub open spec fn own_note(s: Seq<u8>, exif_ifd: IfdView) -> Option<PlanEntryView> {
    match find_tag(exif_ifd.entries, TAG_MAKER_NOTE, 0) {
        None => None,
        Some(e) => if size_of(e.typ) == 0 {
            None
        } else {
            match value_of(s, e) {
                Err(_) => None,
                Ok(b) => Some(note_entry(e.typ, e.count, b, e.value_off)),
            }
        },
    }
}

fn maker_note<'a>(tiff: &Tiff<'a>, exif_ifd: &Ifd) -> (r: Option<PlanEntry<'a>>)
    ensures
        match r {
            Some(e) => own_note(tiff.bytes@, exif_ifd@) == Some(e@),
            None => own_note(tiff.bytes@, exif_ifd@) is None,
        },
{
    match exif_ifd.get(TAG_MAKER_NOTE) {
        None => None,
        Some(e) => if type_size(e.typ) == 0 {
            None
        } else {
            match tiff.bytes_of(&e) {
                Ok(b) => Some(make_note_entry(e.typ, e.count, b, e.value_off)),
                Err(_) => None,
            }
        },
    }
}

/// A companion file's `MakerNote` as an entry for *this* block.
///
/// The blob is not touched. Every offset inside a vendor `MakerNote` is written against
/// the position it occupied in the file it came from, so the entry claims that same
/// position here and the block is padded out to reach it.
fn graft_maker_note<'a>(c: &'a ForeignMakerNote) -> (e: PlanEntry<'a>)
    ensures
        e@ == note_entry(c@.typ, c@.count, c@.bytes, c@.offset),
{
    make_note_entry(c.typ, c.count, c.bytes.as_slice(), c.offset)
}

/// The `MakerNote` an Exif IFD gets, and what became of a companion's.
pub open spec fn chosen_note(
    s: Seq<u8>,
    le: bool,
    exif_ifd: IfdView,
    companion: Option<NoteView>,
) -> (Option<PlanEntryView>, MakerNoteGraft) {
    match own_note(s, exif_ifd) {
        Some(m) => (
            Some(m),
            if companion is Some {
                MakerNoteGraft::HostHasOwn
            } else {
                MakerNoteGraft::NotOffered
            },
        ),
        None => match companion {
            None => (None, MakerNoteGraft::NotOffered),
            Some(c) => if c.little_endian != le {
                (None, MakerNoteGraft::ByteOrderDiffers)
            } else {
                (
                    Some(note_entry(c.typ, c.count, c.bytes, c.offset)),
                    MakerNoteGraft::Carried { bytes: c.bytes.len() as usize },
                )
            },
        },
    }
}

/// A block in the making.
pub struct DraftView {
    /// The IFDs, of which the first is `IFD0` and filled in last.
    pub ifds: Seq<PlannedView>,
    /// What goes into `IFD0`.
    pub root: Seq<PlanEntryView>,
    /// Where the pinned `MakerNote` is, so that it can be seen whether it fits there.
    pub maker: Option<(int, int)>,
    /// Whether that one is a graft.
    pub is_graft: bool,
    pub graft: MakerNoteGraft,
}

pub open spec fn plain_ifd(entries: Seq<PlanEntryView>) -> PlannedView {
    PlannedView { entries, next: None }
}

/// `IFD0` alone: what is copied of it, and an IPTC block from outside when it has none
/// of its own.
pub open spec fn begun(s: Seq<u8>, ifd0: IfdView, iptc: Option<Seq<u8>>) -> DraftView {
    DraftView {
        ifds: seq![plain_ifd(seq![])],
        root: plan_of(s, ifd0, Rule::Root) + (if find_tag(ifd0.entries, TAG_IPTC, 0) is None
            && iptc is Some && iptc->Some_0.len() > 0 {
            seq![
                PlanEntryView {
                    tag: TAG_IPTC,
                    typ: 7,
                    count: iptc->Some_0.len() as u32,
                    value: ValueView::Bytes(iptc->Some_0),
                },
            ]
        } else {
            seq![]
        }),
        maker: None,
        is_graft: false,
        graft: MakerNoteGraft::NotOffered,
    }
}

/// The Exif IFD and the Interoperability IFD it points at, with the `MakerNote` it gets
/// or, when that one is not to be kept, without.
#[verifier::opaque]
pub open spec fn with_exif(
    s: Seq<u8>,
    le: bool,
    ifd0: IfdView,
    companion: Option<NoteView>,
    keeping: bool,
    d: DraftView,
) -> DraftView {
    match sub_ifd(s, le, ifd0, TAG_EXIF_IFD) {
        None => d,
        Some(x) => {
            let interop = match sub_ifd(s, le, x, TAG_INTEROP_IFD) {
                Some(y) => plan_of(s, y, Rule::All),
                None => seq![],
            };
            let ifds = if interop.len() > 0 {
                d.ifds.push(plain_ifd(interop))
            } else {
                d.ifds
            };
            let some = plan_of(s, x, Rule::Exif) + (if interop.len() > 0 {
                seq![pointer_to(TAG_INTEROP_IFD, ifds.len() - 1)]
            } else {
                seq![]
            });
            let graft = chosen_note(s, le, x, companion).1;
            let note = if keeping {
                chosen_note(s, le, x, companion).0
            } else {
                None
            };
            let entries = match note {
                Some(m) => some.push(m),
                None => some,
            };
            if entries.len() == 0 {
                DraftView { ifds, graft, ..d }
            } else {
                DraftView {
                    ifds: ifds.push(plain_ifd(entries)),
                    root: d.root.push(pointer_to(TAG_EXIF_IFD, ifds.len() as int)),
                    maker: if note is Some && note->Some_0.value is Pinned {
                        Some((ifds.len() as int, entries.len() - 1))
                    } else {
                        None
                    },
                    is_graft: own_note(s, x) is None && note is Some,
                    graft,
                }
            }
        },
    }
}

/// The GPS IFD.
#[verifier::opaque]
pub open spec fn with_gps(s: Seq<u8>, le: bool, ifd0: IfdView, d: DraftView) -> DraftView {
    match sub_ifd(s, le, ifd0, TAG_GPS_IFD) {
        None => d,
        Some(x) => {
            let entries = plan_of(s, x, Rule::All);
            if entries.len() == 0 {
                d
            } else {
                DraftView {
                    ifds: d.ifds.push(plain_ifd(entries)),
                    root: d.root.push(pointer_to(TAG_GPS_IFD, d.ifds.len() as int)),
                    ..d
                }
            }
        },
    }
}

/// Everything but `IFD1`, with the `MakerNote` or without.
pub open spec fn drafted(
    s: Seq<u8>,
    le: bool,
    ifd0: IfdView,
    iptc: Option<Seq<u8>>,
    companion: Option<NoteView>,
    keeping: bool,
) -> DraftView {
    with_gps(s, le, ifd0, with_exif(s, le, ifd0, companion, keeping, begun(s, ifd0, iptc)))
}

/// `IFD1` and its thumbnail, when the source has one stored the way Exif specifies: a
/// self-contained JPEG named by `0x0201`/`0x0202`. A chain that ends, or points back at
/// itself, has none.
///
/// A strip-organized thumbnail is skipped rather than relocated. `IFD1`'s remaining tags
/// describe the thumbnail, and the thumbnail is carried whole, so unlike `IFD0`'s they
/// stay true.
#[verifier::opaque]
pub open spec fn thumbnail_of(s: Seq<u8>, le: bool, first: int, ifd0: IfdView) -> Option<
    Seq<PlanEntryView>,
> {
    if ifd0.next == 0 || ifd0.next == first {
        None
    } else {
        match ifd_of(s, le, ifd0.next) {
            Err(_) => None,
            Ok(x) => match (
                first_integer(s, le, find_tag(x.entries, TAG_THUMBNAIL_OFFSET, 0)),
                first_integer(s, le, find_tag(x.entries, TAG_THUMBNAIL_LENGTH, 0)),
            ) {
                (Some(off), Some(len)) => if len == 0 || off + len > s.len() {
                    None
                } else {
                    Some(
                        plan_of(s, x, Rule::Thumbnail) + seq![
                            PlanEntryView {
                                tag: TAG_THUMBNAIL_OFFSET,
                                typ: 4,
                                count: 1,
                                value: ValueView::DataOffset(s.subrange(off as int, off + len)),
                            },
                            PlanEntryView {
                                tag: TAG_THUMBNAIL_LENGTH,
                                typ: 4,
                                count: 1,
                                value: ValueView::Immediate(word32_bytes(le, len)),
                            },
                        ],
                    )
                },
                _ => None,
            },
        }
    }
}

/// All IFDs in place, `IFD1` last.
pub open spec fn completed(d: DraftView, thumbnail: Option<Seq<PlanEntryView>>) -> Seq<
    PlannedView,
> {
    match thumbnail {
        None => d.ifds.update(0, PlannedView { entries: d.root, next: None }),
        Some(t) => d.ifds.push(plain_ifd(t)).update(
            0,
            PlannedView { entries: d.root, next: Some(d.ifds.len() as int) },
        ),
    }
}

/// Whether a pinned value can be where it has to be: behind every IFD, and not so far
/// that the padding costs more than it is worth.
pub open spec fn pin_reaches(ifds: Seq<PlannedView>, offset: int) -> bool {
    region_end(ifds) <= offset && offset - region_end(ifds) <= MAX_PIN_PADDING
}

/// What is written: the plan, and whether a `MakerNote` had to be left out of it.
pub struct Settled {
    pub ifds: Seq<PlannedView>,
    pub dropped: bool,
    pub graft: MakerNoteGraft,
}

/// The plan with its `MakerNote`, when that one can be where it has to be, and else the
/// plan without: an IFD that would hold nothing else is not there at all.
pub open spec fn settled(
    d: DraftView,
    with_note: Seq<PlannedView>,
    without: Seq<PlannedView>,
    offered: bool,
) -> Settled {
    let late = if offered && d.graft is NotOffered {
        MakerNoteGraft::NoExifIfd
    } else {
        d.graft
    };
    match d.maker {
        None => Settled { ifds: with_note, dropped: false, graft: late },
        Some(at) => if pin_reaches(
            with_note,
            with_note[at.0].entries[at.1].value->Pinned_offset,
        ) {
            Settled { ifds: with_note, dropped: false, graft: late }
        } else {
            Settled {
                ifds: without,
                dropped: !d.is_graft,
                graft: if d.is_graft {
                    MakerNoteGraft::Unreachable
                } else {
                    late
                },
            }
        },
    }
}

/// How many of the first `k` entries are not pointers.
pub open spec fn stated_entries(entries: Seq<PlanEntryView>, k: int) -> int
    decreases k,
{
    if k <= 0 {
        0
    } else {
        stated_entries(entries, k - 1) + if entries[k - 1].value is IfdPointer {
            0int
        } else {
            1
        }
    }
}

/// How many entries of the first `n` IFDs are not pointers.
pub open spec fn stated(ifds: Seq<PlannedView>, n: int) -> int
    decreases n,
{
    if n <= 0 {
        0
    } else {
        stated(ifds, n - 1) + stated_entries(ifds[n - 1].entries, ifds[n - 1].entries.len() as int)
    }
}

/// `Orientation`, `1` when the source states none.
pub open spec fn orientation_of(s: Seq<u8>, le: bool, ifd0: IfdView) -> u8 {
    match first_integer(s, le, find_tag(ifd0.entries, TAG_ORIENTATION, 0)) {
        Some(v) => if 1 <= v <= 8 {
            v as u8
        } else {
            1
        },
        None => 1,
    }
}

/// The IPTC-IIM block: `IFD0`'s own, else the one from outside.
pub open spec fn iptc_found(s: Seq<u8>, ifd0: IfdView, outside: Option<Seq<u8>>) -> Option<
    Seq<u8>,
> {
    let own = match find_tag(ifd0.entries, TAG_IPTC, 0) {
        None => None,
        Some(e) => match value_of(s, e) {
            Ok(b) => Some(b),
            Err(_) => None,
        },
    };
    let any = if own is Some {
        own
    } else {
        outside
    };
    match any {
        Some(b) => if b.len() > 0 {
            Some(b)
        } else {
            None
        },
        None => None,
    }
}

/// What a rebuilt block is.
pub struct RebuiltView {
    pub tiff: Seq<u8>,
    pub tag_count: int,
    pub iptc: Option<Seq<u8>>,
    pub orientation: u8,
    pub dropped: bool,
    pub graft: MakerNoteGraft,
}

/// The plan of a block's rebuilding.
#[verifier::opaque]
pub open spec fn settled_plan(
    s: Seq<u8>,
    le: bool,
    first: int,
    ifd0: IfdView,
    iptc: Option<Seq<u8>>,
    companion: Option<NoteView>,
) -> Settled {
    let d = drafted(s, le, ifd0, iptc, companion, true);
    let t = thumbnail_of(s, le, first, ifd0);
    settled(
        d,
        completed(d, t),
        completed(drafted(s, le, ifd0, iptc, companion, false), t),
        companion is Some,
    )
}

/// What becomes of a block: nothing when it is no TIFF or nothing survives, an error when
/// its first IFD cannot be read or the result is too large for the format.
pub open spec fn rebuilt(s: Seq<u8>, iptc: Option<Seq<u8>>, companion: Option<NoteView>) -> Result<
    Option<RebuiltView>,
    Seq<char>,
> {
    match opened(s) {
        None => Ok(None),
        Some(t) => match ifd_of(s, t.0, t.1) {
            Err(f) => Err(f.says()),
            Ok(ifd0) => {
                let p = settled_plan(s, t.0, t.1, ifd0, iptc, companion);
                let n = stated(p.ifds, p.ifds.len() as int);
                if n == 0 {
                    Ok(None)
                } else if !sizes_fit(p.ifds) {
                    Err("the Exif block is too large to rebuild"@)
                } else {
                    Ok(
                        Some(
                            RebuiltView {
                                tiff: block_bytes(p.ifds, t.0),
                                tag_count: n,
                                iptc: iptc_found(s, ifd0, iptc),
                                orientation: orientation_of(s, t.0, ifd0),
                                dropped: p.dropped,
                                graft: p.graft,
                            },
                        ),
                    )
                }
            },
        },
    }
}

/// A block in the making.
struct Draft<'a> {
    ifds: Vec<PlannedIfd<'a>>,
    root: Vec<PlanEntry<'a>>,
    maker: Option<(usize, usize)>,
    is_graft: bool,
    graft: MakerNoteGraft,
}

impl<'a> View for Draft<'a> {
    type V = DraftView;

    closed spec fn view(&self) -> DraftView {
        DraftView {
            ifds: ifd_views(self.ifds@),
            root: plan_views(self.root@),
            maker: match self.maker {
                Some(at) => Some((at.0 as int, at.1 as int)),
                None => None,
            },
            is_graft: self.is_graft,
            graft: self.graft,
        }
    }
}

/// The note an optional one stands for.
pub open spec fn opt_note(o: Option<&ForeignMakerNote>) -> Option<NoteView> {
    match o {
        Some(n) => Some(n@),
        None => None,
    }
}

/// `IFD0` alone.
fn begin<'a>(tiff: &Tiff<'a>, ifd0: &Ifd, iptc: Option<&'a [u8]>) -> (d: Draft<'a>)
    ensures
        d@ == begun(tiff.bytes@, ifd0@, opt_slice(iptc)),
{
    let mut ifds: Vec<PlannedIfd<'a>> = Vec::new();
    ifds.push(PlannedIfd { entries: Vec::new(), next: None });
    let mut root = plan(tiff, ifd0, Rule::Root);
    let ghost kept = root@;
    // The source's own tag wins: it is the one the rest of its Exif was written against,
    // and a JPEG that has both is stating the same thing twice.
    if ifd0.get(TAG_IPTC).is_none() {
        if let Some(iim) = iptc {
            if iim.len() > 0 {
                root.push(
                    PlanEntry {
                        tag: TAG_IPTC,
                        typ: 7,
                        count: iim.len() as u32,
                        value: Value::Bytes(iim),
                    },
                );
            }
        }
    }
    let d = Draft {
        ifds,
        root,
        maker: None,
        is_graft: false,
        graft: MakerNoteGraft::NotOffered,
    };
    proof {
        let want = begun(tiff.bytes@, ifd0@, opt_slice(iptc));
        assert(plan_views(ifds@[0].entries@) =~= seq![]);
        assert(d@.ifds =~= want.ifds);
        assert(d@.root =~= want.root);
    }
    d
}

/// Adds an IFD of its own to the list.
fn add_ifd<'a>(ifds: &mut Vec<PlannedIfd<'a>>, entries: Vec<PlanEntry<'a>>)
    ensures
        ifd_views(final(ifds)@) == ifd_views(old(ifds)@).push(plain_ifd(plan_views(entries@))),
{
    let ghost before = ifds@;
    ifds.push(PlannedIfd { entries, next: None });
    assert(ifd_views(ifds@) =~= ifd_views(before).push(plain_ifd(plan_views(entries@))));
}

/// Adds an entry to a list.
fn add_entry<'a>(entries: &mut Vec<PlanEntry<'a>>, e: PlanEntry<'a>)
    ensures
        plan_views(final(entries)@) == plan_views(old(entries)@).push(e@),
{
    let ghost before = entries@;
    entries.push(e);
    assert(plan_views(entries@) =~= plan_views(before).push(e@));
}

/// The `MakerNote` an Exif IFD gets, and what became of a companion's.
fn choose_note<'a>(
    tiff: &Tiff<'a>,
    exif_ifd: &Ifd,
    companion: Option<&'a ForeignMakerNote>,
) -> (r: (Option<PlanEntry<'a>>, MakerNoteGraft))
    ensures
        ({
            let want = chosen_note(
                tiff.bytes@,
                tiff.little_endian,
                exif_ifd@,
                opt_note(companion),
            );
            &&& r.1 == want.1
            &&& match r.0 {
                Some(e) => want.0 == Some(e@),
                None => want.0 is None,
            }
        }),
{
    if let Some(m) = maker_note(tiff, exif_ifd) {
        // The source's own tag wins: it is the one the rest of this block was written
        // alongside, and two `MakerNote`s cannot both be tag `0x927C`.
        let graft = if companion.is_some() {
            MakerNoteGraft::HostHasOwn
        } else {
            MakerNoteGraft::NotOffered
        };
        return (Some(m), graft);
    }
    match companion {
        None => (None, MakerNoteGraft::NotOffered),
        Some(c) => if c.little_endian != tiff.little_endian {
            (None, MakerNoteGraft::ByteOrderDiffers)
        } else {
            (Some(graft_maker_note(c)), MakerNoteGraft::Carried { bytes: c.len() })
        },
    }
}

/// The entries of the Interoperability IFD, none when there is none.
fn plan_interop<'a>(tiff: &Tiff<'a>, exif_ifd: &Ifd) -> (r: Vec<PlanEntry<'a>>)
    ensures
        plan_views(r@) == match sub_ifd(
            tiff.bytes@,
            tiff.little_endian,
            exif_ifd@,
            TAG_INTEROP_IFD,
        ) {
            Some(y) => plan_of(tiff.bytes@, y, Rule::All),
            None => seq![],
        },
{
    match read_sub_ifd(tiff, exif_ifd, TAG_INTEROP_IFD) {
        Some(y) => plan(tiff, &y, Rule::All),
        None => {
            let none: Vec<PlanEntry<'a>> = Vec::new();
            assert(plan_views(none@) =~= seq![]);
            none
        },
    }
}

/// The Exif IFD and the Interoperability IFD it points at, with the `MakerNote` it gets
/// or without.
fn add_exif<'a>(
    tiff: &Tiff<'a>,
    ifd0: &Ifd,
    companion: Option<&'a ForeignMakerNote>,
    keeping: bool,
    d: &mut Draft<'a>,
)
    requires
        old(d)@.maker is None,
        !old(d)@.is_graft,
    ensures
        final(d)@ == with_exif(
            tiff.bytes@,
            tiff.little_endian,
            ifd0@,
            opt_note(companion),
            keeping,
            old(d)@,
        ),
{
    proof {
        reveal(with_exif);
    }
    let x = match read_sub_ifd(tiff, ifd0, TAG_EXIF_IFD) {
        Some(x) => x,
        None => {
            return;
        },
    };
    // The Exif IFD holds two things that are not plain values: the Interoperability
    // pointer and the MakerNote.
    let mut entries = plan(tiff, &x, Rule::Exif);
    let interop = plan_interop(tiff, &x);
    let ghost kept = plan_views(entries@);
    let ghost other = plan_views(interop@);
    if interop.len() > 0 {
        let at: usize = d.ifds.len();
        add_ifd(&mut d.ifds, interop);
        add_entry(&mut entries, pointer(TAG_INTEROP_IFD, at));
    }
    let ghost some = kept + (if other.len() > 0 {
        seq![pointer_to(TAG_INTEROP_IFD, d@.ifds.len() - 1)]
    } else {
        seq![]
    });
    assert(plan_views(entries@) =~= some);
    let (note, graft) = choose_note(tiff, &x, companion);
    d.graft = graft;
    // Only a *pinned* entry is a candidate for being left out, and only a `MakerNote` over
    // four bytes long gets pinned -- a shorter one lives inside its entry, where there is
    // no offset to be unreachable.
    let mut pinned: bool = false;
    let mut foreign: bool = false;
    if keeping {
        if let Some(m) = note {
            pinned = match m.value {
                Value::Pinned { .. } => true,
                _ => false,
            };
            foreign = maker_note(tiff, &x).is_none();
            add_entry(&mut entries, m);
        }
    }
    if entries.len() > 0 {
        let at: usize = d.ifds.len();
        let last: usize = entries.len() - 1;
        add_ifd(&mut d.ifds, entries);
        add_entry(&mut d.root, pointer(TAG_EXIF_IFD, at));
        if pinned {
            d.maker = Some((at, last));
        }
        d.is_graft = foreign;
    }
}

/// The GPS IFD.
fn add_gps<'a>(tiff: &Tiff<'a>, ifd0: &Ifd, d: &mut Draft<'a>)
    ensures
        final(d)@ == with_gps(tiff.bytes@, tiff.little_endian, ifd0@, old(d)@),
{
    proof {
        reveal(with_gps);
    }
    if let Some(x) = read_sub_ifd(tiff, ifd0, TAG_GPS_IFD) {
        let entries = plan(tiff, &x, Rule::All);
        if entries.len() > 0 {
            let at: usize = d.ifds.len();
            add_ifd(&mut d.ifds, entries);
            add_entry(&mut d.root, pointer(TAG_GPS_IFD, at));
        }
    }
}

/// A number as four bytes in a byte order.
fn four_bytes(le: bool, v: u32) -> (b: [u8; 4])
    ensures
        b@ == word32_bytes(le, v),
{
    let mut buf: Vec<u8> = Vec::new();
    push_word32(&mut buf, le, v);
    let b = [buf[0], buf[1], buf[2], buf[3]];
    assert(b@ =~= word32_bytes(le, v));
    b
}

/// `IFD1` and its thumbnail, when the source has one stored the way Exif specifies.
fn plan_thumbnail<'a>(tiff: &Tiff<'a>, ifd0: &Ifd) -> (r: Option<Vec<PlanEntry<'a>>>)
    ensures
        ({
            let want = thumbnail_of(
                tiff.bytes@,
                tiff.little_endian,
                tiff.first_ifd as int,
                ifd0@,
            );
            match r {
                Some(v) => want == Some(plan_views(v@)),
                None => want is None,
            }
        }),
{
    proof {
        reveal(thumbnail_of);
    }
    if ifd0.next == 0 || ifd0.next == tiff.first_ifd {
        return None;
    }
    let ifd1 = match tiff.read_ifd(ifd0.next) {
        Ok(x) => x,
        Err(_) => {
            return None;
        },
    };
    let (off, len) = match (
        tiff.first_of(ifd1.get(TAG_THUMBNAIL_OFFSET)),
        tiff.first_of(ifd1.get(TAG_THUMBNAIL_LENGTH)),
    ) {
        (Some(off), Some(len)) => (off, len),
        _ => {
            return None;
        },
    };
    let total: usize = tiff.bytes.len();
    if len == 0 || off as u64 + len as u64 > total as u64 {
        return None;
    }
    let thumb = span(tiff.bytes, off as usize, off as usize + len as usize);
    let mut entries = plan(tiff, &ifd1, Rule::Thumbnail);
    let ghost kept = plan_views(entries@);
    add_entry(
        &mut entries,
        PlanEntry { tag: TAG_THUMBNAIL_OFFSET, typ: 4, count: 1, value: Value::DataOffset(thumb) },
    );
    add_entry(
        &mut entries,
        PlanEntry {
            tag: TAG_THUMBNAIL_LENGTH,
            typ: 4,
            count: 1,
            value: Value::Immediate(four_bytes(tiff.little_endian, len)),
        },
    );
    proof {
        let want = thumbnail_of(tiff.bytes@, tiff.little_endian, tiff.first_ifd as int, ifd0@);
        assert(plan_views(entries@) =~= want->Some_0);
    }
    Some(entries)
}

/// All IFDs in place, `IFD1` last.
fn complete<'a>(d: Draft<'a>, thumbnail: Option<Vec<PlanEntry<'a>>>) -> (r: Vec<PlannedIfd<'a>>)
    requires
        d@.ifds.len() > 0,
    ensures
        ifd_views(r@) == completed(
            d@,
            match thumbnail {
                Some(t) => Some(plan_views(t@)),
                None => None,
            },
        ),
{
    assert(d@.ifds.len() == d.ifds@.len());
    let Draft { ifds, root, .. } = d;
    let mut ifds = ifds;
    let mut next: Option<usize> = None;
    let ghost before = ifd_views(ifds@);
    if let Some(t) = thumbnail {
        next = Some(ifds.len());
        add_ifd(&mut ifds, t);
    }
    let ghost most = ifd_views(ifds@);
    assert(most.len() == ifds@.len());
    let first = PlannedIfd { entries: root, next };
    ifds.set(0, first);
    assert(ifd_views(ifds@) =~= most.update(0, first@));
    ifds
}

/// How many entries are not pointers.
fn count_stated(ifds: &Vec<PlannedIfd>) -> (n: Option<usize>)
    ensures
        match n {
            Some(n) => n == stated(ifd_views(ifds@), ifds@.len() as int),
            None => stated(ifd_views(ifds@), ifds@.len() as int) > usize::MAX,
        },
{
    let ghost v = ifd_views(ifds@);
    let mut n: usize = 0;
    let mut i: usize = 0;
    while i < ifds.len()
        invariant
            i <= ifds@.len(),
            v == ifd_views(ifds@),
            n == stated(v, i as int),
        decreases ifds@.len() - i,
    {
        let entries = &ifds[i].entries;
        let ghost es = v[i as int].entries;
        let ghost before = n;
        assert(es == plan_views(entries@));
        let mut k: usize = 0;
        while k < entries.len()
            invariant
                i < ifds@.len(),
                v == ifd_views(ifds@),
                es == v[i as int].entries,
                es == plan_views(entries@),
                before == stated(v, i as int),
                k <= entries@.len(),
                n == before + stated_entries(es, k as int),
            decreases entries@.len() - k,
        {
            assert(es[k as int] == entries@[k as int]@);
            let points: bool = match entries[k].value {
                Value::IfdPointer(_) => true,
                _ => false,
            };
            if !points {
                proof {
                    lemma_stated_entries_grow(es, k + 1, es.len() as int);
                    lemma_stated_grow(v, i + 1, v.len() as int);
                }
                if n == usize::MAX {
                    return None;
                }
                n = n + 1;
            }
            k = k + 1;
        }
        i = i + 1;
    }
    Some(n)
}

proof fn lemma_stated_entries_grow(entries: Seq<PlanEntryView>, a: int, b: int)
    requires
        0 <= a <= b,
    ensures
        stated_entries(entries, a) <= stated_entries(entries, b),
        0 <= stated_entries(entries, b),
    decreases b,
{
    if a < b {
        lemma_stated_entries_grow(entries, a, b - 1);
    } else if a > 0 {
        lemma_stated_entries_grow(entries, a - 1, b - 1);
    }
}

proof fn lemma_stated_grow(ifds: Seq<PlannedView>, a: int, b: int)
    requires
        0 <= a <= b,
    ensures
        stated(ifds, a) <= stated(ifds, b),
    decreases b,
{
    if a < b {
        lemma_stated_grow(ifds, a, b - 1);
        lemma_stated_entries_grow(ifds[b - 1].entries, 0, ifds[b - 1].entries.len() as int);
    }
}

/// Whether an entry's type and count are those of its value, unless the value is too
/// large to be stated.
spec fn nearly_stated(e: PlanEntryView) -> bool {
    match e.value {
        ValueView::Bytes(b) => size_of(e.typ) > 0 && (b.len() == e.count * size_of(e.typ)
            || b.len() > u32::MAX),
        _ => states_its_value(e),
    }
}

spec fn all_nearly_stated(entries: Seq<PlanEntryView>) -> bool {
    forall|k: int| 0 <= k < entries.len() ==> nearly_stated(#[trigger] entries[k])
}

spec fn ifds_nearly_stated(ifds: Seq<PlannedView>) -> bool {
    forall|i: int| 0 <= i < ifds.len() ==> all_nearly_stated((#[trigger] ifds[i]).entries)
}

/// The IFD of a tentative `MakerNote`.
spec fn place_of(maker: Option<(int, int)>) -> Option<int> {
    match maker {
        Some(at) => Some(at.0),
        None => None,
    }
}

/// What every step of the making of a block keeps.
spec fn shaped(d: DraftView) -> bool {
    let n = d.ifds.len() as int;
    &&& n >= 1
    &&& d.ifds[0] == plain_ifd(seq![])
    &&& pins_at(d.ifds, place_of(d.maker))
    &&& ifds_nearly_stated(d.ifds)
    &&& entries_loose(d.root, d.root.len() as int, n)
    &&& all_nearly_stated(d.root)
    &&& (d.maker matches Some(at) ==> 0 < at.0 < n && at.1 == d.ifds[at.0].entries.len() - 1)
}

/// Whether entries are somewhere in a file.
pub open spec fn all_placed(entries: Seq<(u16, EntryView)>) -> bool {
    forall|k: int| 0 <= k < entries.len() ==> 0 <= (#[trigger] entries[k]).1.value_off
}

proof fn lemma_entries_placed(s: Seq<u8>, le: bool, at: int, i: int, n: int)
    requires
        0 <= at,
        0 <= i <= n,
    ensures
        entries_from(s, le, at, i, n) matches Ok(v) ==> all_placed(v),
    decreases n - i,
{
    if i < n {
        lemma_entries_placed(s, le, at, i + 1, n);
    }
}

proof fn lemma_ifd_placed(s: Seq<u8>, le: bool, at: int)
    requires
        0 <= at,
    ensures
        ifd_of(s, le, at) matches Ok(x) ==> all_placed(x.entries) && 0 <= x.next,
{
    lemma_entries_placed(s, le, at, 0, word16(le, s, at) as int);
}

proof fn lemma_planned(s: Seq<u8>, entries: Seq<(u16, EntryView)>, rule: Rule, n: int, m: int)
    requires
        0 <= n <= entries.len(),
        all_placed(entries),
    ensures
        all_nearly_stated(planned(s, entries, rule, n)),
        entries_loose(planned(s, entries, rule, n), planned(s, entries, rule, n).len() as int, m),
    decreases n,
{
    if n > 0 {
        lemma_planned(s, entries, rule, n - 1, m);
        let more = copied(s, entries[n - 1], rule);
        let e = entries[n - 1].1;
        if more.len() > 0 {
            let b = more[0].value->Bytes_0;
            assert(0 <= e.count * size_of(e.typ)) by (nonlinear_arith)
                requires
                    size_of(e.typ) >= 0,
                    e.count >= 0,
            ;
            assert(value_of(s, e) == Ok::<Seq<u8>, Fault>(b));
        }
    }
}

/// What an IFD of the source adds is loose and states its values.
proof fn lemma_plan_of(s: Seq<u8>, x: IfdView, rule: Rule, m: int)
    requires
        all_placed(x.entries),
    ensures
        all_nearly_stated(plan_of(s, x, rule)),
        entries_loose(plan_of(s, x, rule), plan_of(s, x, rule).len() as int, m),
{
    lemma_planned(s, x.entries, rule, x.entries.len() as int, m);
}

proof fn lemma_push_loose(ifds: Seq<PlannedView>, at: Option<int>, x: PlannedView)
    requires
        pins_at(ifds, at),
        ifd_loose(x, ifds.len() as int + 1),
    ensures
        pins_at(ifds.push(x), at),
{
    let n = ifds.len() as int;
    let more = ifds.push(x);
    assert forall|j: int| 0 <= j < more.len() implies if at == Some(j) {
        ifd_pins_last(#[trigger] more[j], more.len() as int)
    } else {
        ifd_loose(more[j], more.len() as int)
    } by {
        if j < n {
            assert(more[j] == ifds[j]);
            lemma_loosens(ifds[j], n);
        }
    }
}

/// More IFDs to point at leave an IFD as loose as it was.
proof fn lemma_loosens(d: PlannedView, n: int)
    ensures
        ifd_loose(d, n) ==> ifd_loose(d, n + 1),
        ifd_pins_last(d, n) ==> ifd_pins_last(d, n + 1),
        entries_loose(d.entries, d.entries.len() as int, n) ==> entries_loose(
            d.entries,
            d.entries.len() as int,
            n + 1,
        ),
{
    if entries_loose(d.entries, d.entries.len() as int, n) {
        assert forall|j: int| 0 <= j < d.entries.len() implies is_loose(
            (#[trigger] d.entries[j]).value,
            n + 1,
        ) by {
            assert(is_loose(d.entries[j].value, n));
        }
    }
    if ifd_pins_last(d, n) {
        assert forall|j: int| 0 <= j < d.entries.len() - 1 implies is_loose(
            (#[trigger] d.entries[j]).value,
            n + 1,
        ) by {
            assert(is_loose(d.entries[j].value, n));
        }
    }
}

/// A list of entries with one more.
proof fn lemma_push_entry(entries: Seq<PlanEntryView>, e: PlanEntryView, n: int)
    requires
        all_nearly_stated(entries),
        entries_loose(entries, entries.len() as int, n),
        nearly_stated(e),
    ensures
        all_nearly_stated(entries.push(e)),
        entries_loose(entries.push(e), entries.len() as int, n),
        is_loose(e.value, n) ==> entries_loose(entries.push(e), entries.len() as int + 1, n),
{
    let more = entries.push(e);
    assert forall|j: int| 0 <= j < entries.len() implies is_loose((#[trigger] more[j]).value, n) by {
        assert(more[j] == entries[j]);
    }
    assert forall|j: int| 0 <= j < more.len() implies nearly_stated(#[trigger] more[j]) by {
        if j < entries.len() {
            assert(more[j] == entries[j]);
        }
    }
}

/// Adding an IFD and a pointer to it keeps the shape.
proof fn lemma_add_ifd(d: DraftView, entries: Seq<PlanEntryView>, tag: u16)
    requires
        shaped(d),
        all_nearly_stated(entries),
        entries_loose(entries, entries.len() as int, d.ifds.len() as int + 1),
    ensures
        shaped(
            (DraftView {
                ifds: d.ifds.push(plain_ifd(entries)),
                root: d.root.push(pointer_to(tag, d.ifds.len() as int)),
                ..d
            }),
        ),
{
    let n = d.ifds.len() as int;
    lemma_push_loose(d.ifds, place_of(d.maker), plain_ifd(entries));
    lemma_loosens(plain_ifd(d.root), n);
    lemma_push_entry(d.root, pointer_to(tag, n), n + 1);
}

/// What the beginning of a block is.
proof fn lemma_begun_shape(s: Seq<u8>, ifd0: IfdView, iptc: Option<Seq<u8>>)
    requires
        all_placed(ifd0.entries),
    ensures
        shaped(begun(s, ifd0, iptc)),
{
    let d = begun(s, ifd0, iptc);
    let kept = plan_of(s, ifd0, Rule::Root);
    lemma_plan_of(s, ifd0, Rule::Root, 1);
    if d.root.len() > kept.len() {
        let e = d.root.last();
        assert(d.root =~= kept.push(e));
        lemma_push_entry(kept, e, 1);
    } else {
        assert(d.root =~= kept);
    }
}

/// A sub-IFD that was read is somewhere in the file.
pub proof fn lemma_sub_ifd_placed(s: Seq<u8>, le: bool, ifd: IfdView, tag: u16)
    ensures
        sub_ifd(s, le, ifd, tag) matches Some(x) ==> all_placed(x.entries),
{
    if let Some(off) = first_integer(s, le, find_tag(ifd.entries, tag, 0)) {
        lemma_ifd_placed(s, le, off as int);
    }
}

pub proof fn lemma_found_is_placed(entries: Seq<(u16, EntryView)>, tag: u16, i: int)
    requires
        all_placed(entries),
        0 <= i,
    ensures
        find_tag(entries, tag, i) matches Some(e) ==> 0 <= e.value_off,
    decreases entries.len() - i,
{
    if i < entries.len() && entries[i].0 != tag {
        lemma_found_is_placed(entries, tag, i + 1);
    }
}

/// A chosen `MakerNote` states its value.
proof fn lemma_chosen_note(
    s: Seq<u8>,
    le: bool,
    x: IfdView,
    companion: Option<NoteView>,
)
    requires
        all_placed(x.entries),
        companion matches Some(c) ==> note_is_whole(c),
    ensures
        chosen_note(s, le, x, companion).0 matches Some(m) ==> nearly_stated(m) && (
        m.value is Pinned || m.value is Bytes),
{
    lemma_found_is_placed(x.entries, TAG_MAKER_NOTE, 0);
    if let Some(e) = find_tag(x.entries, TAG_MAKER_NOTE, 0) {
        assert(0 <= e.count * size_of(e.typ)) by (nonlinear_arith)
            requires
                size_of(e.typ) >= 0,
                e.count >= 0,
        ;
    }
}

proof fn lemma_exif_shape(
    s: Seq<u8>,
    le: bool,
    ifd0: IfdView,
    companion: Option<NoteView>,
    keeping: bool,
    d: DraftView,
)
    requires
        shaped(d),
        d.maker is None,
        companion matches Some(c) ==> note_is_whole(c),
    ensures
        shaped(with_exif(s, le, ifd0, companion, keeping, d)),
        !keeping ==> with_exif(s, le, ifd0, companion, keeping, d).maker is None,
{
    reveal(with_exif);
    lemma_sub_ifd_placed(s, le, ifd0, TAG_EXIF_IFD);
    if let Some(x) = sub_ifd(s, le, ifd0, TAG_EXIF_IFD) {
        let n = d.ifds.len() as int;
        lemma_sub_ifd_placed(s, le, x, TAG_INTEROP_IFD);
        lemma_chosen_note(s, le, x, companion);
        let interop = match sub_ifd(s, le, x, TAG_INTEROP_IFD) {
            Some(y) => plan_of(s, y, Rule::All),
            None => seq![],
        };
        if let Some(y) = sub_ifd(s, le, x, TAG_INTEROP_IFD) {
            lemma_plan_of(s, y, Rule::All, n + 1);
        }
        let ifds = if interop.len() > 0 {
            d.ifds.push(plain_ifd(interop))
        } else {
            d.ifds
        };
        if interop.len() > 0 {
            lemma_push_loose(d.ifds, None, plain_ifd(interop));
            lemma_loosens(plain_ifd(d.root), n);
        }
        let m = ifds.len() as int;
        assert(pins_at(ifds, None));
        assert(ifds_nearly_stated(ifds));
        assert(entries_loose(d.root, d.root.len() as int, m));
        let kept = plan_of(s, x, Rule::Exif);
        lemma_plan_of(s, x, Rule::Exif, m + 1);
        let some = kept + (if interop.len() > 0 {
            seq![pointer_to(TAG_INTEROP_IFD, m - 1)]
        } else {
            seq![]
        });
        if interop.len() > 0 {
            lemma_push_entry(kept, pointer_to(TAG_INTEROP_IFD, m - 1), m + 1);
            assert(some =~= kept.push(pointer_to(TAG_INTEROP_IFD, m - 1)));
        } else {
            assert(some =~= kept);
        }
        let graft = chosen_note(s, le, x, companion).1;
        let note = if keeping {
            chosen_note(s, le, x, companion).0
        } else {
            None
        };
        let entries = match note {
            Some(e) => some.push(e),
            None => some,
        };
        let mid = DraftView { ifds, graft, ..d };
        assert(shaped(mid));
        if let Some(e) = note {
            lemma_push_entry(some, e, m + 1);
        }
        if entries.len() > 0 {
            let done = with_exif(s, le, ifd0, companion, keeping, d);
            if note is Some && note->Some_0.value is Pinned {
                lemma_pin_last(ifds, entries);
                lemma_loosens(plain_ifd(d.root), m);
                lemma_push_entry(d.root, pointer_to(TAG_EXIF_IFD, m), m + 1);
                assert(ifds_nearly_stated(done.ifds));
            } else {
                lemma_add_ifd(mid, entries, TAG_EXIF_IFD);
            }
        }
    }
}

proof fn lemma_pin_last(ifds: Seq<PlannedView>, entries: Seq<PlanEntryView>)
    requires
        pins_at(ifds, None),
        entries.len() > 0,
        entries_loose(entries, entries.len() - 1, ifds.len() as int + 1),
        entries.last().value is Pinned,
    ensures
        pins_at(ifds.push(plain_ifd(entries)), Some(ifds.len() as int)),
{
    let n = ifds.len() as int;
    let more = ifds.push(plain_ifd(entries));
    assert forall|j: int| 0 <= j < more.len() implies if Some(n) == Some(j) {
        ifd_pins_last(#[trigger] more[j], more.len() as int)
    } else {
        ifd_loose(more[j], more.len() as int)
    } by {
        if j < n {
            assert(more[j] == ifds[j]);
            lemma_loosens(ifds[j], n);
        }
    }
}

proof fn lemma_gps_shape(s: Seq<u8>, le: bool, ifd0: IfdView, d: DraftView)
    requires
        shaped(d),
    ensures
        shaped(with_gps(s, le, ifd0, d)),
{
    reveal(with_gps);
    lemma_sub_ifd_placed(s, le, ifd0, TAG_GPS_IFD);
    if let Some(x) = sub_ifd(s, le, ifd0, TAG_GPS_IFD) {
        lemma_plan_of(s, x, Rule::All, d.ifds.len() as int + 1);
        let entries = plan_of(s, x, Rule::All);
        if entries.len() > 0 {
            lemma_add_ifd(d, entries, TAG_GPS_IFD);
        }
    }
}

proof fn lemma_thumbnail(s: Seq<u8>, le: bool, first: int, ifd0: IfdView, n: int)
    requires
        0 <= ifd0.next,
    ensures
        thumbnail_of(s, le, first, ifd0) matches Some(t) ==> all_nearly_stated(t) && entries_loose(
            t,
            t.len() as int,
            n,
        ),
{
    reveal(thumbnail_of);
    if let Some(t) = thumbnail_of(s, le, first, ifd0) {
        lemma_ifd_placed(s, le, ifd0.next);
        let x = ifd_of(s, le, ifd0.next)->Ok_0;
        let kept = plan_of(s, x, Rule::Thumbnail);
        lemma_plan_of(s, x, Rule::Thumbnail, n);
        let a = t[t.len() - 2];
        let b = t[t.len() - 1];
        lemma_push_entry(kept, a, n);
        lemma_push_entry(kept.push(a), b, n);
        assert(t =~= kept.push(a).push(b));
    }
}

/// What a plan is once it is complete.
proof fn lemma_completed_shape(d: DraftView, t: Option<Seq<PlanEntryView>>)
    requires
        shaped(d),
        t matches Some(es) ==> all_nearly_stated(es) && entries_loose(
            es,
            es.len() as int,
            d.ifds.len() as int + 1,
        ),
    ensures
        pins_at(completed(d, t), place_of(d.maker)),
        ifds_nearly_stated(completed(d, t)),
        d.maker matches Some(at) ==> 0 < at.0 < completed(d, t).len() && at.1 == completed(
            d,
            t,
        )[at.0].entries.len() - 1,
{
    let n = d.ifds.len() as int;
    let at = place_of(d.maker);
    let most = match t {
        Some(es) => d.ifds.push(plain_ifd(es)),
        None => d.ifds,
    };
    if let Some(es) = t {
        lemma_push_loose(d.ifds, at, plain_ifd(es));
        lemma_loosens(plain_ifd(d.root), n);
    }
    let m = most.len() as int;
    let all = completed(d, t);
    assert(pins_at(most, at));
    assert forall|j: int| 0 <= j < all.len() implies if at == Some(j) {
        ifd_pins_last(#[trigger] all[j], m)
    } else {
        ifd_loose(all[j], m)
    } by {
        if j > 0 {
            assert(all[j] == most[j]);
        }
    }
    assert forall|j: int| 0 <= j < all.len() implies all_nearly_stated(
        (#[trigger] all[j]).entries,
    ) by {
        if j > 0 {
            assert(all[j] == most[j]);
        }
    }
}

/// What a plan is once it is complete, with its `MakerNote` or without.
proof fn lemma_drafted_shape(
    s: Seq<u8>,
    le: bool,
    first: int,
    ifd0: IfdView,
    iptc: Option<Seq<u8>>,
    companion: Option<NoteView>,
    keeping: bool,
)
    requires
        all_placed(ifd0.entries),
        0 <= ifd0.next,
        companion matches Some(c) ==> note_is_whole(c),
    ensures
        ({
            let a = begun(s, ifd0, iptc);
            let b = with_exif(s, le, ifd0, companion, keeping, a);
            let d = drafted(s, le, ifd0, iptc, companion, keeping);
            let all = completed(d, thumbnail_of(s, le, first, ifd0));
            &&& shaped(a)
            &&& shaped(b)
            &&& shaped(d)
            &&& !keeping ==> d.maker is None
            &&& pins_at(all, place_of(d.maker))
            &&& ifds_nearly_stated(all)
            &&& all.len() > 0
            &&& (d.maker matches Some(at) ==> 0 < at.0 < all.len() && at.1
                == all[at.0].entries.len() - 1)
        }),
{
    let a = begun(s, ifd0, iptc);
    let b = with_exif(s, le, ifd0, companion, keeping, a);
    let d = drafted(s, le, ifd0, iptc, companion, keeping);
    lemma_begun_shape(s, ifd0, iptc);
    lemma_exif_shape(s, le, ifd0, companion, keeping, a);
    lemma_gps_shape(s, le, ifd0, b);
    assert(d.maker == b.maker) by {
        reveal(with_gps);
    }
    lemma_thumbnail(s, le, first, ifd0, d.ifds.len() as int + 1);
    lemma_completed_shape(d, thumbnail_of(s, le, first, ifd0));
}

proof fn lemma_stated_below(ifds: Seq<PlannedView>, n: int)
    requires
        0 <= n <= ifds.len(),
    ensures
        stated(ifds, n) <= ifd_at(ifds, n),
    decreases n,
{
    if n > 0 {
        lemma_stated_below(ifds, n - 1);
        lemma_stated_entries_below(ifds[n - 1].entries, ifds[n - 1].entries.len() as int);
    }
}

proof fn lemma_stated_entries_below(entries: Seq<PlanEntryView>, k: int)
    requires
        0 <= k,
    ensures
        stated_entries(entries, k) <= k,
    decreases k,
{
    if k > 0 {
        lemma_stated_entries_below(entries, k - 1);
    }
}

/// A settled plan that can be stated can be written, and every entry of it states its
/// value.
proof fn lemma_settled_plan(
    s: Seq<u8>,
    le: bool,
    first: int,
    ifd0: IfdView,
    iptc: Option<Seq<u8>>,
    companion: Option<NoteView>,
)
    requires
        all_placed(ifd0.entries),
        0 <= ifd0.next,
        companion matches Some(c) ==> note_is_whole(c),
    ensures
        ({
            let p = settled_plan(s, le, first, ifd0, iptc, companion);
            &&& p.ifds.len() > 0
            &&& sizes_fit(p.ifds) ==> plan_fits(p.ifds) && states_its_values(p.ifds)
        }),
{
    reveal(settled_plan);
    let d = drafted(s, le, ifd0, iptc, companion, true);
    let t = thumbnail_of(s, le, first, ifd0);
    lemma_drafted_shape(s, le, first, ifd0, iptc, companion, true);
    lemma_drafted_shape(s, le, first, ifd0, iptc, companion, false);
    let all = completed(d, t);
    let p = settled_plan(s, le, first, ifd0, iptc, companion);
    if let Some(at) = d.maker {
        assert(all[at.0].entries.last() == all[at.0].entries[at.1]);
        if sizes_fit(p.ifds) {
            if pin_reaches(all, all[at.0].entries[at.1].value->Pinned_offset) {
                lemma_plan_fits(p.ifds, Some(at.0));
            } else {
                lemma_plan_fits(p.ifds, None);
            }
        }
    } else if sizes_fit(p.ifds) {
        lemma_plan_fits(p.ifds, None);
    }
    if sizes_fit(p.ifds) {
        let v = p.ifds;
        assert forall|i: int, k: int|
            0 <= i < v.len() && 0 <= k < v[i].entries.len() implies states_its_value(
            #[trigger] v[i].entries[k],
        ) by {
            lemma_value_is_within(v, i, k);
            assert(all_nearly_stated(v[i].entries));
            assert(nearly_stated(v[i].entries[k]));
        }
    }
}

/// A rebuilt block.
struct Rebuilt {
    tiff: Vec<u8>,
    tag_count: usize,
    iptc: Option<Vec<u8>>,
    orientation: u8,
    dropped_maker_note: bool,
    maker_note_graft: MakerNoteGraft,
}

impl View for Rebuilt {
    type V = RebuiltView;

    closed spec fn view(&self) -> RebuiltView {
        RebuiltView {
            tiff: self.tiff@,
            tag_count: self.tag_count as int,
            iptc: opt_bytes(self.iptc),
            orientation: self.orientation,
            dropped: self.dropped_maker_note,
            graft: self.maker_note_graft,
        }
    }
}

/// `Orientation`, `1` when the source states none.
fn read_orientation(tiff: &Tiff, ifd0: &Ifd) -> (v: u8)
    ensures
        v == orientation_of(tiff.bytes@, tiff.little_endian, ifd0@),
{
    match tiff.first_of(ifd0.get(TAG_ORIENTATION)) {
        Some(v) => if 1 <= v && v <= 8 {
            v as u8
        } else {
            1
        },
        None => 1,
    }
}

/// The IPTC-IIM block: `IFD0`'s own, else the one from outside.
fn find_iptc(tiff: &Tiff, ifd0: &Ifd, outside: Option<&[u8]>) -> (r: Option<Vec<u8>>)
    ensures
        opt_bytes(r) == iptc_found(tiff.bytes@, ifd0@, opt_slice(outside)),
{
    let own = match ifd0.get(TAG_IPTC) {
        Some(e) => match tiff.bytes_of(&e) {
            Ok(b) => Some(b),
            Err(_) => None,
        },
        None => None,
    };
    let any = match own {
        Some(b) => Some(b),
        None => outside,
    };
    match any {
        Some(b) => if b.len() > 0 {
            Some(to_owned_bytes(b))
        } else {
            None
        },
        None => None,
    }
}

/// Whether the pinned `MakerNote` of a plan, when it has one, can be where it has to be.
///
/// It can only be pinned to an offset the IFDs have not already claimed. Both terms are
/// known before a byte is written, since neither depends on the value area.
fn note_reaches(ifds: &Vec<PlannedIfd>, maker: Option<(usize, usize)>) -> (b: bool)
    requires
        maker matches Some(at) ==> at.0 < ifds@.len() && at.1 < ifds@[at.0 as int].entries@.len()
            && ifds@[at.0 as int].entries@[at.1 as int].value is Pinned,
    ensures
        b == match maker {
            None => true,
            Some(at) => pin_reaches(
                ifd_views(ifds@),
                ifd_views(ifds@)[at.0 as int].entries[at.1 as int].value->Pinned_offset,
            ),
        },
{
    let ghost all = ifd_views(ifds@);
    if let Some((i, k)) = maker {
        if let Value::Pinned { offset, .. } = ifds[i].entries[k].value {
            assert(all[i as int].entries[k as int] == ifds@[i as int].entries@[k as int]@);
            return match ifd_region_end(ifds) {
                Some(end) => end <= offset && offset - end <= MAX_PIN_PADDING,
                None => false,
            };
        }
    }
    true
}

/// Everything but `IFD1`, with the `MakerNote` or without.
fn draft<'a>(
    tiff: &Tiff<'a>,
    ifd0: &Ifd,
    external_iptc: Option<&'a [u8]>,
    companion: Option<&'a ForeignMakerNote>,
    keeping: bool,
) -> (d: Draft<'a>)
    ensures
        d@ == drafted(
            tiff.bytes@,
            tiff.little_endian,
            ifd0@,
            opt_slice(external_iptc),
            opt_note(companion),
            keeping,
        ),
{
    let mut d = begin(tiff, ifd0, external_iptc);
    add_exif(tiff, ifd0, companion, keeping, &mut d);
    add_gps(tiff, ifd0, &mut d);
    d
}

/// The plan of a block's rebuilding: its IFDs, whether a `MakerNote` was dropped, and
/// what became of a graft.
fn make_plan<'a>(
    tiff: &Tiff<'a>,
    ifd0: &Ifd,
    external_iptc: Option<&'a [u8]>,
    companion: Option<&'a ForeignMakerNote>,
) -> (r: (Vec<PlannedIfd<'a>>, bool, MakerNoteGraft))
    requires
        all_placed(ifd0@.entries),
    ensures
        ({
            let want = settled_plan(
                tiff.bytes@,
                tiff.little_endian,
                tiff.first_ifd as int,
                ifd0@,
                opt_slice(external_iptc),
                opt_note(companion),
            );
            ifd_views(r.0@) == want.ifds && r.1 == want.dropped && r.2 == want.graft
        }),
{
    let ghost s = tiff.bytes@;
    let ghost le = tiff.little_endian;
    let ghost first = tiff.first_ifd as int;
    let ghost iptc = opt_slice(external_iptc);
    let ghost note = opt_note(companion);
    proof {
        if let Some(c) = companion {
            use_type_invariant(c);
        }
        lemma_drafted_shape(s, le, first, ifd0@, iptc, note, true);
        lemma_drafted_shape(s, le, first, ifd0@, iptc, note, false);
        reveal(settled_plan);
    }
    let d = draft(tiff, ifd0, external_iptc, companion, true);
    let maker = d.maker;
    let is_graft: bool = d.is_graft;
    let graft = if companion.is_some() && d.graft == MakerNoteGraft::NotOffered {
        MakerNoteGraft::NoExifIfd
    } else {
        d.graft
    };
    let ifds = complete(d, plan_thumbnail(tiff, ifd0));
    proof {
        if let Some(at) = maker {
            let all = ifd_views(ifds@);
            let i = at.0 as int;
            assert(ifd_pins_last(all[i], all.len() as int));
            assert(all[i] == ifds@[i]@);
            assert(all[i].entries.last() == ifds@[i].entries@[at.1 as int]@);
        }
    }
    if note_reaches(&ifds, maker) {
        return (ifds, false, graft);
    }
    // Planned anew rather than edited: the block is then exactly what it would have been
    // without the note, down to an IFD that would hold nothing else.
    let less = draft(tiff, ifd0, external_iptc, companion, false);
    let ifds = complete(less, plan_thumbnail(tiff, ifd0));
    if is_graft {
        (ifds, false, MakerNoteGraft::Unreachable)
    } else {
        (ifds, true, graft)
    }
}

/// Re-emits a block as a standalone Exif TIFF.
///
/// `Ok(None)` when nothing survived, which is the same outcome for the caller as a source
/// with no Exif at all.
fn rebuild<'a>(
    block: &'a [u8],
    external_iptc: Option<&'a [u8]>,
    companion: Option<&'a ForeignMakerNote>,
) -> (r: Result<Option<Rebuilt>, Error>)
    ensures
        ({
            let want = rebuilt(block@, opt_slice(external_iptc), opt_note(companion));
            match r {
                Ok(Some(x)) => want == Ok::<Option<RebuiltView>, Seq<char>>(Some(x@)),
                Ok(None) => want == Ok::<Option<RebuiltView>, Seq<char>>(None),
                Err(e) => e matches Error::Decode(m) && want == Err::<
                    Option<RebuiltView>,
                    Seq<char>,
                >(m@),
            }
        }),
{
    let tiff = match Tiff::open(block) {
        Some(t) => t,
        None => {
            return Ok(None);
        },
    };
    let ifd0 = match tiff.read_ifd(tiff.first_ifd) {
        Ok(x) => x,
        Err(f) => {
            return Err(Error::Decode(f.message()));
        },
    };
    let ghost le = tiff.little_endian;
    let ghost first = tiff.first_ifd as int;
    let ghost iptc = opt_slice(external_iptc);
    let ghost note = opt_note(companion);
    let ghost p = settled_plan(block@, le, first, ifd0@, iptc, note);
    proof {
        if let Some(c) = companion {
            use_type_invariant(c);
        }
        lemma_ifd_placed(block@, le, first);
        lemma_settled_plan(block@, le, first, ifd0@, iptc, note);
    }
    let (ifds, dropped_maker_note, maker_note_graft) = make_plan(
        &tiff,
        &ifd0,
        external_iptc,
        companion,
    );
    let tag_count: usize = match count_stated(&ifds) {
        Some(n) => n,
        None => {
            proof {
                lemma_stated_below(p.ifds, p.ifds.len() as int);
                if sizes_fit(p.ifds) {
                    lemma_plan_region(p.ifds);
                }
            }
            return Err(Error::Decode(too_large()));
        },
    };
    if tag_count == 0 {
        return Ok(None);
    }
    if !can_be_stated(&ifds) {
        return Err(Error::Decode(too_large()));
    }
    Ok(
        Some(
            Rebuilt {
                tiff: serialize(&ifds, tiff.little_endian),
                tag_count,
                iptc: find_iptc(&tiff, &ifd0, external_iptc),
                orientation: read_orientation(&tiff, &ifd0),
                dropped_maker_note,
                maker_note_graft,
            },
        ),
    )
}

fn too_large() -> (s: String)
    ensures
        s@ == "the Exif block is too large to rebuild"@,
{
    "the Exif block is too large to rebuild".to_string()
}

/// The payload of a HEIF `Exif` item, past the big-endian count of bytes to skip between
/// that count and the TIFF header.
///
/// A source that cannot be read as HEIF is not an Exif failure: the caller is about to
/// decode it and will report the real problem.
pub open spec fn heif_exif(s: Seq<u8>) -> Option<Seq<u8>> {
    match file_of(s) {
        Err(_) => None,
        Ok(f) => match find_kind(f.items, EXIF, 0) {
            None => None,
            Some(item) => match data_of(f, item.id) {
                Err(_) => None,
                Ok(d) => if d.len() < 4 || 4 + be32(d, 0) + 8 > d.len() {
                    None
                } else {
                    Some(d.subrange(4 + be32(d, 0), d.len() as int))
                },
            },
        },
    }
}

fn find_exif_item(items: &[Item]) -> (r: Option<usize>)
    ensures
        match r {
            Some(i) => i < items@.len() && find_kind(views(items@), EXIF, 0) == Some(
                items@[i as int]@,
            ),
            None => find_kind(views(items@), EXIF, 0) is None,
        },
{
    let ghost all = views(items@);
    let mut i: usize = 0;
    while i < items.len()
        invariant
            i <= items@.len(),
            all == views(items@),
            find_kind(all, EXIF, 0) == find_kind(all, EXIF, i as int),
        decreases items@.len() - i,
    {
        assert(all[i as int] == items@[i as int]@);
        if get_be32(array_as_slice(&items[i].item_type), 0) == EXIF {
            return Some(i);
        }
        i = i + 1;
    }
    None
}

/// The payload of a HEIF `Exif` item, past its count of bytes to skip.
fn heif_exif_item(bytes: &[u8]) -> (r: Option<&[u8]>)
    ensures
        opt_slice(r) == heif_exif(bytes@),
{
    let file = match HeifFile::parse(bytes) {
        Ok(f) => f,
        Err(_) => {
            return None;
        },
    };
    let items = file.items();
    let id: u32 = match find_exif_item(items) {
        Some(i) => items[i].id,
        None => {
            return None;
        },
    };
    let data = match file.item_data(id) {
        Ok(d) => d,
        Err(_) => {
            return None;
        },
    };
    let len: usize = data.len();
    if len < 4 {
        return None;
    }
    let skip: u32 = get_be32(data, 0);
    if 12 + skip as u64 > len as u64 {
        return None;
    }
    Some(span(data, 4 + skip as usize, len))
}

/// A source's Exif TIFF structure, without interpreting it. TIFF's own magic is the
/// block's magic: a TIFF source *is* the block.
pub open spec fn located(s: Seq<u8>) -> Option<(Seq<u8>, Origin)> {
    if s.len() < 12 {
        None
    } else if (s[0] == 0x49 && s[1] == 0x49) || (s[0] == 0x4d && s[1] == 0x4d) {
        Some((s, Origin::Tiff))
    } else if s[0] == 0xff && s[1] == 0xd8 {
        match exif_of(s) {
            Some(b) => Some((b, Origin::Jpeg)),
            None => None,
        }
    } else if be32(s, 4) == FTYP {
        match heif_exif(s) {
            Some(b) => Some((b, Origin::Heif)),
            None => None,
        }
    } else {
        None
    }
}

/// Finds the source's Exif TIFF structure without interpreting it.
fn locate(bytes: &[u8]) -> (r: Option<(&[u8], Origin)>)
    ensures
        match r {
            Some(x) => located(bytes@) == Some((x.0@, x.1)),
            None => located(bytes@) is None,
        },
{
    if bytes.len() < 12 {
        return None;
    }
    let (a, b): (u8, u8) = (bytes[0], bytes[1]);
    if (a == 0x49 && b == 0x49) || (a == 0x4d && b == 0x4d) {
        return Some((bytes, Origin::Tiff));
    }
    if a == 0xff && b == 0xd8 {
        return match app1_payload(bytes) {
            Some(p) => Some((p, Origin::Jpeg)),
            None => None,
        };
    }
    if get_be32(bytes, 4) == FTYP {
        return match heif_exif_item(bytes) {
            Some(p) => Some((p, Origin::Heif)),
            None => None,
        };
    }
    None
}

/// What a source's Exif becomes, and where it came from.
pub struct SourceView {
    pub block: RebuiltView,
    pub origin: Origin,
}

impl View for SourceExif {
    type V = SourceView;

    open spec fn view(&self) -> SourceView {
        SourceView {
            block: RebuiltView {
                tiff: self.tiff@,
                tag_count: self.tag_count as int,
                iptc: opt_bytes(self.iptc),
                orientation: self.orientation,
                dropped: self.dropped_maker_note,
                graft: self.maker_note_graft,
            },
            origin: self.origin,
        }
    }
}

/// What a source's Exif becomes, with a companion's `MakerNote` offered to it.
pub open spec fn read_as(s: Seq<u8>, companion: Option<NoteView>) -> Result<
    Option<SourceView>,
    Seq<char>,
> {
    match located(s) {
        None => Ok(None),
        Some(x) => match rebuilt(x.0, iptc_of(s), companion) {
            Err(e) => Err(e),
            Ok(None) => Ok(None),
            Ok(Some(block)) => Ok(Some(SourceView { block, origin: x.1 })),
        },
    }
}

/// Whether `r` says what became of a source's Exif.
pub open spec fn reads_to(
    r: Result<Option<SourceExif>, Error>,
    want: Result<Option<SourceView>, Seq<char>>,
) -> bool {
    match r {
        Ok(Some(x)) => want == Ok::<Option<SourceView>, Seq<char>>(Some(x@)),
        Ok(None) => want == Ok::<Option<SourceView>, Seq<char>>(None),
        Err(e) => e matches Error::Decode(m) && want == Err::<Option<SourceView>, Seq<char>>(m@),
    }
}

/// A file's Exif block, or `Ok(None)` if it has none.
///
/// `Ok(None)` covers both "this format carries no Exif" and "this file's Exif is empty",
/// neither of which is a reason to fail a conversion.
pub fn read_bytes(bytes: &[u8]) -> (r: Result<Option<SourceExif>, Error>)
    ensures
        reads_to(r, read_as(bytes@, None)),
{
    read_bytes_with_maker_note(bytes, None)
}

/// A file's Exif block, with `companion`'s `MakerNote` grafted into it.
///
/// The graft is attempted, not assumed: [`SourceExif::maker_note_graft`] says what
/// happened, and every refusal leaves the rest of the block exactly as [`read_bytes`] would
/// have produced it, which [`a_refused_offer_reads_as_none`](again::reread) proves.
pub fn read_bytes_with_maker_note(bytes: &[u8], companion: Option<&ForeignMakerNote>) -> (r: Result<
    Option<SourceExif>,
    Error,
>)
    ensures
        reads_to(r, read_as(bytes@, opt_note(companion))),
{
    let (block, origin) = match locate(bytes) {
        Some(x) => x,
        None => {
            return Ok(None);
        },
    };
    // A JPEG keeps IPTC in an `APP13` segment, outside the Exif block entirely, so a
    // reader that only walks the block loses the photographer's creator, rights and
    // keywords. Lifted here and folded into `IFD0`, which is where a HEIF reader looks
    // for it.
    let external_iptc = app13_iptc_payload(bytes);
    match rebuild(block, external_iptc, companion) {
        Ok(Some(r)) => Ok(
            Some(
                SourceExif {
                    tiff: r.tiff,
                    origin,
                    tag_count: r.tag_count,
                    iptc: r.iptc,
                    orientation: r.orientation,
                    dropped_maker_note: r.dropped_maker_note,
                    maker_note_graft: r.maker_note_graft,
                },
            ),
        ),
        // A source can carry an Exif item that holds nothing worth keeping, which is not
        // an error -- it is the same outcome as carrying none.
        Ok(None) => Ok(None),
        Err(e) => Err(e),
    }
}

/// Whether a slice holds a `MakerNote`, or why the answer is not in this slice.
#[derive(Debug)]
pub enum Located {
    Found(ForeignMakerNote),
    /// The block was read and states no `MakerNote`. A real answer.
    Absent,
    /// Something ran past the end of this slice. Undecided, not negative -- which is the
    /// distinction that keeps a reader of a file's head from paying for a whole-file read
    /// on every source that simply has no `MakerNote`.
    Beyond,
}

/// What a slice says of a `MakerNote`.
pub enum LocatedView {
    Found(NoteView),
    Absent,
    Beyond,
}

impl View for Located {
    type V = LocatedView;

    open spec fn view(&self) -> LocatedView {
        match self {
            Located::Found(n) => LocatedView::Found(n@),
            Located::Absent => LocatedView::Absent,
            Located::Beyond => LocatedView::Beyond,
        }
    }
}

/// What an Exif IFD says of a `MakerNote`. An unrecognized type has no element size, so
/// the value's length is unknowable.
pub open spec fn note_in_ifd(s: Seq<u8>, le: bool, exif_ifd: IfdView) -> LocatedView {
    match find_tag(exif_ifd.entries, TAG_MAKER_NOTE, 0) {
        None => LocatedView::Absent,
        Some(e) => if size_of(e.typ) == 0 {
            LocatedView::Absent
        } else {
            match value_of(s, e) {
                Err(_) => LocatedView::Beyond,
                Ok(b) => if b.len() == 0 {
                    LocatedView::Absent
                } else {
                    LocatedView::Found(
                        NoteView {
                            bytes: b,
                            typ: e.typ,
                            count: e.count,
                            offset: e.value_off,
                            little_endian: le,
                        },
                    )
                },
            }
        },
    }
}

/// What a file says of a `MakerNote`.
pub open spec fn note_in(s: Seq<u8>) -> LocatedView {
    match located(s) {
        None => LocatedView::Beyond,
        Some(x) => match opened(x.0) {
            None => LocatedView::Beyond,
            Some(t) => match ifd_of(x.0, t.0, t.1) {
                Err(_) => LocatedView::Beyond,
                Ok(ifd0) => match first_integer(
                    x.0,
                    t.0,
                    find_tag(ifd0.entries, TAG_EXIF_IFD, 0),
                ) {
                    None => LocatedView::Absent,
                    Some(off) => match ifd_of(x.0, t.0, off as int) {
                        Err(_) => LocatedView::Beyond,
                        Ok(exif_ifd) => note_in_ifd(x.0, t.0, exif_ifd),
                    },
                },
            },
        },
    }
}

fn take_note(tiff: &Tiff, exif_ifd: &Ifd) -> (r: Located)
    requires
        all_placed(exif_ifd@.entries),
    ensures
        r@ == note_in_ifd(tiff.bytes@, tiff.little_endian, exif_ifd@),
{
    let e = match exif_ifd.get(TAG_MAKER_NOTE) {
        Some(e) => e,
        None => {
            return Located::Absent;
        },
    };
    if type_size(e.typ) == 0 {
        return Located::Absent;
    }
    let blob = match tiff.bytes_of(&e) {
        Ok(b) => b,
        Err(_) => {
            return Located::Beyond;
        },
    };
    if blob.len() == 0 {
        return Located::Absent;
    }
    proof {
        assert(0 <= e.count * size_of(e.typ)) by (nonlinear_arith)
            requires
                size_of(e.typ) >= 0,
                e.count >= 0,
        ;
    }
    let bytes = to_owned_bytes(blob);
    Located::Found(
        ForeignMakerNote {
            bytes,
            typ: e.typ,
            count: e.count,
            offset: e.value_off,
            little_endian: tiff.little_endian,
        },
    )
}

/// Whether these bytes hold a `MakerNote`, or why the answer is not in them.
pub fn maker_note_in(bytes: &[u8]) -> (r: Located)
    ensures
        r@ == note_in(bytes@),
{
    let block = match locate(bytes) {
        Some(x) => x.0,
        None => {
            return Located::Beyond;
        },
    };
    let tiff = match Tiff::open(block) {
        Some(t) => t,
        None => {
            return Located::Beyond;
        },
    };
    let ifd0 = match tiff.read_ifd(tiff.first_ifd) {
        Ok(x) => x,
        Err(_) => {
            return Located::Beyond;
        },
    };
    let off: u32 = match sub_ifd_offset(&tiff, &ifd0, TAG_EXIF_IFD) {
        Some(off) => off,
        None => {
            return Located::Absent;
        },
    };
    proof {
        lemma_ifd_placed(block@, tiff.little_endian, off as int);
    }
    match tiff.read_ifd(off as usize) {
        Ok(x) => take_note(&tiff, &x),
        Err(_) => Located::Beyond,
    }
}

/// How much of a companion to read before deciding whether its `MakerNote` is in it. A raw
/// file is tens of megabytes and its Exif block is near the start.
pub const COMPANION_HEAD: u64 = 0x10_0000;

/// What the head of a file says of its `MakerNote`.
#[derive(Debug)]
pub enum HeadAnswer {
    /// The note, or that there is none.
    Settled(Option<ForeignMakerNote>),
    /// The answer lies beyond the head, so the whole file has to be read.
    ReadOn,
}

/// What the head of a file, its first [`COMPANION_HEAD`] bytes or all there are, says of its
/// `MakerNote`.
pub fn maker_note_in_head(head: &[u8]) -> (r: HeadAnswer)
    ensures
        match note_in(head@) {
            LocatedView::Found(n) => r matches HeadAnswer::Settled(Some(m)) && m@ == n,
            LocatedView::Absent => r matches HeadAnswer::Settled(None),
            LocatedView::Beyond => if head@.len() < COMPANION_HEAD {
                r matches HeadAnswer::Settled(None)
            } else {
                r is ReadOn
            },
        },
{
    match maker_note_in(head) {
        Located::Found(n) => HeadAnswer::Settled(Some(n)),
        Located::Absent => HeadAnswer::Settled(None),
        Located::Beyond => if (head.len() as u64) < COMPANION_HEAD {
            HeadAnswer::Settled(None)
        } else {
            HeadAnswer::ReadOn
        },
    }
}

/// The `MakerNote` of a file, for grafting into another file's Exif block.
///
/// `None` covers both "no `MakerNote`" and "these bytes do not reach it"; use
/// [`maker_note_in`] to tell the two apart.
pub fn maker_note_from_bytes(bytes: &[u8]) -> (r: Option<ForeignMakerNote>)
    ensures
        match r {
            Some(n) => note_in(bytes@) == LocatedView::Found(n@),
            None => !(note_in(bytes@) is Found),
        },
{
    match maker_note_in(bytes) {
        Located::Found(n) => Some(n),
        Located::Absent => None,
        Located::Beyond => None,
    }
}

} // verus!
