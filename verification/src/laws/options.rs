//! What the options of an encode have to mean.

use vstd::prelude::*;

use crate::encode::Flavor;
use crate::opaque::MetadataSupport;

verus! {

/// Apple's signaling is written for Apple and for both, and that of ISO 21496-1 for ISO and for
/// both. Every flavor is told from the others by that.
pub proof fn a_flavor_is_what_it_writes(f: Flavor, apple: bool, iso: bool)
    requires
        call_ensures(Flavor::writes_apple, (f,), apple),
        call_ensures(Flavor::writes_iso, (f,), iso),
    ensures
        f is Apple <==> apple && !iso,
        f is Iso <==> iso && !apple,
        f is Both <==> apple && iso,
        apple == f.apple(),
        iso == f.iso(),
{
}

/// A backend that carries everything claims every kind of metadata, at any size, and one that
/// carries nothing claims none.
pub proof fn all_is_everything_and_none_is_nothing(all: MetadataSupport, none: MetadataSupport)
    requires
        call_ensures(MetadataSupport::all, (), all),
        call_ensures(MetadataSupport::none, (), none),
    ensures
        all.exif && all.xmp && all.iptc && all.opaque_items && all.maker_note,
        all.max_exif_block is None,
        !none.exif && !none.xmp && !none.iptc && !none.opaque_items && !none.maker_note,
{
}

} // verus!
