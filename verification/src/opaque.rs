//! Metadata a source carried that is copied through without being understood, and
//! the declaration of which backend can carry what.
//!
//! An opaque blob is the right model because there is nothing to read: an iPhone
//! capture's `uri ` item holds an undocumented binary plist of Photographic Styles
//! state, and it only has to *not be lost*. So an item is its four `infe` fields
//! plus its bytes.

use vstd::array::array_as_slice;
use vstd::prelude::*;
use vstd::utf8::{decode_utf8, valid_utf8};

use crate::bytes::be32;
use crate::heif::opt_text;
use crate::text::{join_text, trim_end, trimmed_end, utf8_text};

verus! {

/// One non-image item, copied byte for byte.
#[derive(Clone, Debug, PartialEq, Eq)]
pub struct OpaqueItem {
    /// The four-character `infe` item type: `uri `, `mime`, and so on. Never an
    /// image type: an image item would need its own coded data, `hvcC` and
    /// `ispe`, which is a different job than copying metadata.
    pub item_type: [u8; 4],
    /// `infe`'s `item_name`. `"metadata"` for Apple's styles item, empty for
    /// most things.
    pub name: String,
    /// `infe`'s `content_type`, present exactly when `item_type` is `mime`.
    pub content_type: Option<String>,
    /// `infe`'s `item_uri_type`, present exactly when `item_type` is `uri `.
    /// Dropping it would leave a reader unable to tell what the bytes are.
    pub uri_type: Option<String>,
    /// `infe`'s hidden flag, as the source set it.
    pub hidden: bool,
    pub data: Vec<u8>,
}

/// An opaque item, its texts and bytes as sequences.
pub struct OpaqueView {
    pub kind: u32,
    pub name: Seq<char>,
    pub content_type: Option<Seq<char>>,
    pub uri_type: Option<Seq<char>>,
    pub hidden: bool,
    pub data: Seq<u8>,
}

impl View for OpaqueItem {
    type V = OpaqueView;

    open spec fn view(&self) -> OpaqueView {
        OpaqueView {
            kind: be32(self.item_type@, 0),
            name: self.name@,
            content_type: opt_text(self.content_type),
            uri_type: opt_text(self.uri_type),
            hidden: self.hidden,
            data: self.data@,
        }
    }
}

/// A short description of an item: its type, and its name where it has one.
pub open spec fn label_of(item_type: Seq<u8>, name: Seq<char>) -> Seq<char> {
    let kind = trimmed_end(
        if valid_utf8(item_type) {
            decode_utf8(item_type)
        } else {
            "????"@
        },
    );
    if name.len() == 0 {
        kind
    } else {
        kind + ":"@ + name
    }
}

impl OpaqueItem {
    /// A short description for a progress line: `uri:metadata` or `mime`.
    pub fn label(&self) -> (s: String)
        ensures
            s@ == label_of(self.item_type@, self.name@),
    {
        let kind = match utf8_text(array_as_slice(&self.item_type)) {
            Some(t) => trim_end(t),
            None => trim_end("????"),
        };
        if self.name.as_str().unicode_len() == 0 {
            kind.to_owned()
        } else {
            let mut s = join_text(kind, ":");
            s.append(self.name.as_str());
            s
        }
    }
}

/// Which kinds of source metadata a backend actually writes.
///
/// Each field is a claim the backend makes about its own output, defaulting to
/// `false`. That direction matters: a caller can then tell the user what was
/// dropped, where a silently-ignored options field looks identical to a source
/// that never had the metadata.
#[derive(Clone, Copy, Debug, PartialEq, Eq, Structural)]
pub struct MetadataSupport {
    /// Writes [`EncodeOptions::exif`](crate::encode::EncodeOptions::exif).
    pub exif: bool,
    /// Writes [`EncodeOptions::xmp`](crate::encode::EncodeOptions::xmp): the source's
    /// packet, not just our own headroom one.
    pub xmp: bool,
    /// Writes the IPTC-IIM block. Separate from `exif` because it can be handed to a
    /// backend *inside* the Exif block and still not reach the output.
    pub iptc: bool,
    /// Writes [`EncodeOptions::opaque_items`](crate::encode::EncodeOptions::opaque_items).
    pub opaque_items: bool,
    /// Writes a `MakerNote` of any vendor, not just Apple's.
    ///
    /// False for a backend that reaches its writer through *parsed* metadata rather
    /// than the block's bytes.
    pub maker_note: bool,
    /// Largest Exif block this backend can write, when it has a limit.
    ///
    /// `None` means the block goes into the output whole, at any size. A backend that
    /// hands the block to a JPEG carrier is capped by that carrier's 16-bit `APP1`
    /// length instead.
    pub max_exif_block: Option<usize>,
}

impl MetadataSupport {
    /// Every kind of metadata, at any size, or none at all.
    pub open spec fn each(supported: bool) -> MetadataSupport {
        MetadataSupport {
            exif: supported,
            xmp: supported,
            iptc: supported,
            opaque_items: supported,
            maker_note: supported,
            max_exif_block: None,
        }
    }

    /// Carries nothing. What a backend gets until it says otherwise.
    pub fn none() -> (m: MetadataSupport)
        ensures
            m == MetadataSupport::each(false),
    {
        MetadataSupport {
            exif: false,
            xmp: false,
            iptc: false,
            opaque_items: false,
            maker_note: false,
            max_exif_block: None,
        }
    }

    /// Carries everything it can be handed, at any size.
    pub fn all() -> (m: MetadataSupport)
        ensures
            m == MetadataSupport::each(true),
    {
        MetadataSupport {
            exif: true,
            xmp: true,
            iptc: true,
            opaque_items: true,
            maker_note: true,
            max_exif_block: None,
        }
    }
}

impl Default for MetadataSupport {
    fn default() -> (m: MetadataSupport)
        ensures
            m == MetadataSupport::each(false),
    {
        MetadataSupport::none()
    }
}

} // verus!
