//! Which sources have to be taken, and how.

use vstd::prelude::*;

use crate::portable::input::{
    check_size, hdr_reading, load_hdr_samples, load_sdr, opt_str, source_kind, Decoded, Reading,
    SampleKind, SourceKind,
};
use crate::meta::Rgb;
use crate::portable::Error;
use crate::text::lowered;

verus! {

/// Whether a letter is `small`, or the capital of it.
pub open spec fn is_letter(c: char, small: char) -> bool {
    c == small || ('A' <= c <= 'Z' && c as int + 32 == small as int)
}

/// Whether an extension is this one, in whatever case.
pub open spec fn is_extension(extension: Option<&str>, small: Seq<char>) -> bool {
    extension matches Some(e) && e@.len() == small.len() && forall|i: int|
        0 <= i < small.len() ==> #[trigger] is_letter(e@[i], small[i])
}

/// Whether an extension is a TIFF's.
pub open spec fn is_tiff(extension: Option<&str>) -> bool {
    is_extension(extension, seq!['t', 'i', 'f']) || is_extension(
        extension,
        seq!['t', 'i', 'f', 'f'],
    )
}

/// Whether an extension is a PNG's or a JPEG's.
pub open spec fn is_plain(extension: Option<&str>) -> bool {
    is_extension(extension, seq!['p', 'n', 'g']) || is_extension(extension, seq!['j', 'p', 'g'])
        || is_extension(extension, seq!['j', 'p', 'e', 'g'])
}

proof fn lemma_extension(extension: Option<&str>, small: Seq<char>)
    requires
        forall|i: int| 0 <= i < small.len() ==> 'a' <= #[trigger] small[i] <= 'z',
    ensures
        is_extension(extension, small) == (opt_str(extension) matches Some(e) && lowered(e)
            == small),
{
    if let Some(e) = extension {
        if is_extension(extension, small) {
            assert forall|i: int| 0 <= i < small.len() implies #[trigger] lowered(e@)[i]
                == small[i] by {
                assert(is_letter(e@[i], small[i]));
            }
            assert(lowered(e@) =~= small);
        }
        if lowered(e@) == small {
            assert forall|i: int| 0 <= i < small.len() implies #[trigger] is_letter(
                e@[i],
                small[i],
            ) by {
                assert(lowered(e@)[i] == small[i]);
            }
        }
    }
}

proof fn lemma_extensions(extension: Option<&str>)
    ensures
        ({
            let e = lowered(opt_str(extension)->Some_0);
            &&& is_tiff(extension) == (extension is Some && (e == "tif"@ || e == "tiff"@))
            &&& is_plain(extension) == (extension is Some && (e == "png"@ || e == "jpg"@ || e
                == "jpeg"@))
            &&& !(is_tiff(extension) && is_plain(extension))
        }),
{
    reveal_strlit("tif");
    reveal_strlit("tiff");
    reveal_strlit("png");
    reveal_strlit("jpg");
    reveal_strlit("jpeg");
    assert("tif"@ =~= seq!['t', 'i', 'f']);
    assert("tiff"@ =~= seq!['t', 'i', 'f', 'f']);
    assert("png"@ =~= seq!['p', 'n', 'g']);
    assert("jpg"@ =~= seq!['j', 'p', 'g']);
    assert("jpeg"@ =~= seq!['j', 'p', 'e', 'g']);
    lemma_extension(extension, seq!['t', 'i', 'f']);
    lemma_extension(extension, seq!['t', 'i', 'f', 'f']);
    lemma_extension(extension, seq!['p', 'n', 'g']);
    lemma_extension(extension, seq!['j', 'p', 'g']);
    lemma_extension(extension, seq!['j', 'p', 'e', 'g']);
}

/// `tif` and `tiff` are TIFFs, `png`, `jpg` and `jpeg` are not, in whatever case, and nothing
/// else is known.
pub proof fn a_source_is_known_by_its_extension(extension: Option<&str>, r: Option<SourceKind>)
    requires
        call_ensures(source_kind, (extension,), r),
    ensures
        r == Some(SourceKind::Tiff) <==> is_tiff(extension),
        r == Some(SourceKind::Plain) <==> is_plain(extension),
        r is None <==> !is_tiff(extension) && !is_plain(extension),
{
    lemma_extensions(extension);
}

/// A TIFF's floating-point samples are linear light and its 16-bit ones are PQ. Whatever else
/// there is goes through the sRGB curve.
pub proof fn samples_decide_how_a_tiff_is_read(
    extension: Option<&str>,
    samples: SampleKind,
    r: Result<Reading, Error>,
)
    requires
        call_ensures(hdr_reading, (extension, samples), r),
    ensures
        r is Ok <==> is_tiff(extension) || is_plain(extension),
        r matches Ok(x) ==> {
            &&& x == Reading::Linear <==> is_tiff(extension) && samples is Float
            &&& x == Reading::Pq <==> is_tiff(extension) && samples is Sixteen
            &&& x == Reading::Srgb <==> is_plain(extension) || samples is Other
        },
{
    lemma_extensions(extension);
}

/// Up to 536870912 pixels are accepted, and no more.
pub proof fn the_pixels_are_counted(width: u32, height: u32, r: Result<(), Error>)
    requires
        call_ensures(check_size, (width, height), r),
    ensures
        r is Ok <==> width * height <= 536870912,
{
}

/// An SDR source with an unknown extension is refused for that, and one with a known extension
/// only in the decoder's words.
pub proof fn a_known_source_is_decoded(
    bytes: &[u8],
    extension: Option<&str>,
    r: Result<Rgb, Error>,
)
    requires
        call_ensures(load_sdr, (bytes, extension), r),
    ensures
        r matches Ok(x) ==> (is_tiff(extension) || is_plain(extension)) && x.bits == 8,
        r matches Err(e) ==> (e is Decode || e is UnsupportedInput) && (e is UnsupportedInput
            <==> !is_tiff(extension) && !is_plain(extension)),
{
    lemma_extensions(extension);
}

/// Nothing but a TIFF is taken for linear light or PQ.
pub proof fn only_a_tiff_is_more_than_srgb(
    bytes: &[u8],
    extension: Option<&str>,
    r: Result<(Reading, Decoded), Error>,
)
    requires
        call_ensures(load_hdr_samples, (bytes, extension), r),
    ensures
        r matches Ok(x) ==> is_tiff(extension) || (is_plain(extension) && x.0 == Reading::Srgb),
        !is_tiff(extension) && !is_plain(extension) ==> (r matches Err(e) && e is UnsupportedInput),
{
    lemma_extensions(extension);
}

} // verus!
