//! Which bytes of a JPEG have to be taken as its metadata.

use vstd::prelude::*;
use vstd::utf8::encode_utf8;

use crate::bytes::matches_at;
use crate::jpeg::{
    app13_iptc_payload, app1_payload, iptc_from, segments_from, segments_of, tagged, tagged_from,
    wrap_in_jpeg, xmp_payload, Segment, EXIF_ID, PHOTOSHOP_ID, XMP_ID,
};
use crate::laws::{number16, number32, words_are_the_numbers_their_bytes_make};

verus! {

/// Whether a whole segment of the header begins at `at`, whose marker is neither the start of
/// scan nor the end of the image.
pub open spec fn is_segment(s: Seq<u8>, at: int) -> bool {
    &&& 0 <= at && at + 4 <= s.len()
    &&& s[at] == 0xff
    &&& s[at + 1] != 0xff && s[at + 1] != 0xda && s[at + 1] != 0xd9
    &&& 2 <= number16(false, s, at + 2)
    &&& at + 2 + number16(false, s, at + 2) <= s.len()
}

/// Whether `at` holds a byte of filling in front of a marker.
pub open spec fn is_filling(s: Seq<u8>, at: int) -> bool {
    0 <= at && at + 1 < s.len() && s[at] == 0xff && s[at + 1] == 0xff
}

/// Whether what stands at `at` is followed by what stands at `next`.
pub open spec fn is_followed_by(s: Seq<u8>, at: int, next: int) -> bool {
    ||| is_filling(s, at) && next == at + 1
    ||| is_segment(s, at) && next == at + 2 + number16(false, s, at + 2)
}

/// Whether a segment with a marker begins at `at` whose body begins with `id`.
pub open spec fn is_marked(s: Seq<u8>, at: int, marker: u8, id: Seq<u8>) -> bool {
    &&& is_segment(s, at)
    &&& s[at + 1] == marker
    &&& number16(false, s, at + 2) >= 2 + id.len()
    &&& forall|i: int| 0 <= i < id.len() ==> #[trigger] s[at + 4 + i] == id[i]
}

/// Whether `path` leads from the first segment of a JPEG on, without a gap, over segments that
/// are not so marked.
pub open spec fn leads_past_others(s: Seq<u8>, path: Seq<int>, marker: u8, id: Seq<u8>) -> bool {
    &&& s.len() >= 4 && s[0] == 0xff && s[1] == 0xd8
    &&& path.len() >= 1 && path[0] == 2
    &&& forall|k: int| 0 <= k < path.len() - 1 ==> goes_on(s, path, marker, id, k)
}

/// Whether step `k` of a path is one to what follows, from something that is not so marked.
pub open spec fn goes_on(s: Seq<u8>, path: Seq<int>, marker: u8, id: Seq<u8>, k: int) -> bool {
    is_followed_by(s, path[k], path[k + 1]) && !is_marked(s, path[k], marker, id)
}

proof fn lemma_behind(s: Seq<u8>, x: Segment, rest: Seq<Segment>, marker: u8, id: Seq<u8>, i: int)
    requires
        0 <= i <= rest.len(),
    ensures
        tagged_from(s, seq![x] + rest, marker, id, i + 1) == tagged_from(s, rest, marker, id, i),
    decreases rest.len() - i,
{
    let all = seq![x] + rest;
    if i < rest.len() {
        assert(all[i + 1] == rest[i]);
        lemma_behind(s, x, rest, marker, id, i + 1);
    }
}

proof fn lemma_matches(s: Seq<u8>, at: int, id: Seq<u8>)
    requires
        0 <= at,
        at + id.len() <= s.len(),
    ensures
        matches_at(s, at, id) == (forall|i: int|
            0 <= i < id.len() ==> #[trigger] s[at + i] == id[i]),
{
    if matches_at(s, at, id) {
        assert forall|i: int| 0 <= i < id.len() implies #[trigger] s[at + i] == id[i] by {
            assert(s.subrange(at, at + id.len())[i] == s[at + i]);
        }
    }
    if forall|i: int| 0 <= i < id.len() ==> #[trigger] s[at + i] == id[i] {
        let t = s.subrange(at, at + id.len());
        assert forall|i: int| 0 <= i < id.len() implies #[trigger] t[i] == id[i] by {
            assert(t[i] == s[at + i]);
        }
        assert(t =~= id);
    }
}

proof fn lemma_one(s: Seq<u8>, at: int, marker: u8, id: Seq<u8>)
    requires
        is_segment(s, at),
    ensures
        ({
            let end = at + 2 + number16(false, s, at + 2);
            let found = tagged_from(s, segments_from(s, at), marker, id, 0);
            &&& is_marked(s, at, marker, id) ==> found == Some((at + 4 + id.len() as int, end))
            &&& !is_marked(s, at, marker, id) ==> found == tagged_from(
                s,
                segments_from(s, end),
                marker,
                id,
                0,
            )
        }),
{
    words_are_the_numbers_their_bytes_make(false, s, at + 2);
    let end = at + 2 + number16(false, s, at + 2);
    let x = Segment { marker: s[at + 1], start: at + 4, end };
    let rest = segments_from(s, end);
    assert(segments_from(s, at) == seq![x] + rest);
    assert((seq![x] + rest)[0] == x);
    lemma_behind(s, x, rest, marker, id, 0);
    if at + 4 + id.len() <= end {
        lemma_matches(s, at + 4, id);
    }
}

proof fn lemma_path(s: Seq<u8>, path: Seq<int>, marker: u8, id: Seq<u8>, k: int)
    requires
        leads_past_others(s, path, marker, id),
        0 <= k < path.len(),
    ensures
        tagged_from(s, segments_of(s), marker, id, 0) == tagged_from(
            s,
            segments_from(s, path[k]),
            marker,
            id,
            0,
        ),
    decreases k,
{
    if k > 0 {
        lemma_path(s, path, marker, id, k - 1);
        assert(goes_on(s, path, marker, id, k - 1));
        if is_segment(s, path[k - 1]) {
            lemma_one(s, path[k - 1], marker, id);
        }
    }
}

/// The first segment with a marker and an identifier is the one that is found.
proof fn lemma_found(s: Seq<u8>, path: Seq<int>, marker: u8, id: Seq<u8>)
    requires
        leads_past_others(s, path, marker, id),
        is_marked(s, path.last(), marker, id),
    ensures
        tagged(s, marker, id) == Some(
            s.subrange(
                path.last() + 4 + id.len(),
                path.last() + 2 + number16(false, s, path.last() + 2),
            ),
        ),
{
    lemma_path(s, path, marker, id, path.len() - 1);
    lemma_one(s, path.last(), marker, id);
}

/// With nothing so marked up to where the header ends, nothing is found.
proof fn lemma_not_found(s: Seq<u8>, path: Seq<int>, marker: u8, id: Seq<u8>)
    requires
        leads_past_others(s, path, marker, id),
        !is_segment(s, path.last()),
        !is_filling(s, path.last()),
        0 <= path.last(),
    ensures
        tagged(s, marker, id) is None,
{
    words_are_the_numbers_their_bytes_make(false, s, path.last() + 2);
    lemma_path(s, path, marker, id, path.len() - 1);
    assert(segments_from(s, path.last()) =~= seq![]);
}

/// `Exif` and two zeros.
pub open spec fn exif_mark() -> Seq<u8> {
    seq![0x45u8, 0x78, 0x69, 0x66, 0, 0]
}

/// `http://ns.adobe.com/xap/1.0/` and a zero.
pub open spec fn xmp_mark() -> Seq<u8> {
    seq![
        0x68u8, 0x74, 0x74, 0x70, 0x3a, 0x2f, 0x2f, 0x6e, 0x73, 0x2e, 0x61, 0x64, 0x6f, 0x62, 0x65,
        0x2e, 0x63, 0x6f, 0x6d, 0x2f, 0x78, 0x61, 0x70, 0x2f, 0x31, 0x2e, 0x30, 0x2f, 0,
    ]
}

/// `Photoshop 3.0` and a zero.
pub open spec fn photoshop_mark() -> Seq<u8> {
    seq![0x50u8, 0x68, 0x6f, 0x74, 0x6f, 0x73, 0x68, 0x6f, 0x70, 0x20, 0x33, 0x2e, 0x30, 0]
}

proof fn lemma_marks()
    ensures
        encode_utf8(EXIF_ID@) == exif_mark(),
        encode_utf8(XMP_ID@) == xmp_mark(),
        encode_utf8(PHOTOSHOP_ID@) == photoshop_mark(),
{
    reveal_strlit("Exif\0\0");
    reveal_strlit("http://ns.adobe.com/xap/1.0/\0");
    reveal_strlit("Photoshop 3.0\0");
    vstd::utf8::is_ascii_chars_encode_utf8(EXIF_ID@);
    vstd::utf8::is_ascii_chars_encode_utf8(XMP_ID@);
    vstd::utf8::is_ascii_chars_encode_utf8(PHOTOSHOP_ID@);
    assert(encode_utf8(EXIF_ID@) =~= exif_mark());
    assert(encode_utf8(XMP_ID@) =~= xmp_mark());
    assert(encode_utf8(PHOTOSHOP_ID@) =~= photoshop_mark());
}

/// The Exif block is the rest of the first segment `e1` that begins with `Exif` and two zeros.
pub proof fn the_exif_block_is_the_first(bytes: &[u8], path: Seq<int>, r: Option<&[u8]>)
    requires
        call_ensures(app1_payload, (bytes,), r),
        leads_past_others(bytes@, path, 0xe1, exif_mark()),
        0 <= path.last(),
    ensures
        is_marked(bytes@, path.last(), 0xe1, exif_mark()) ==> (r matches Some(p) && p@
            == bytes@.subrange(
            path.last() + 10,
            path.last() + 2 + number16(false, bytes@, path.last() + 2),
        )),
        !is_segment(bytes@, path.last()) && !is_filling(bytes@, path.last()) ==> r is None,
{
    lemma_marks();
    if is_marked(bytes@, path.last(), 0xe1, exif_mark()) {
        lemma_found(bytes@, path, 0xe1, exif_mark());
    } else if !is_segment(bytes@, path.last()) && !is_filling(bytes@, path.last()) {
        lemma_not_found(bytes@, path, 0xe1, exif_mark());
    }
}

/// The XMP packet is the rest of the first segment `e1` that begins with XMP's namespace.
pub proof fn the_xmp_packet_is_the_first(bytes: &[u8], path: Seq<int>, r: Option<&[u8]>)
    requires
        call_ensures(xmp_payload, (bytes,), r),
        leads_past_others(bytes@, path, 0xe1, xmp_mark()),
        0 <= path.last(),
    ensures
        is_marked(bytes@, path.last(), 0xe1, xmp_mark()) ==> (r matches Some(p) && p@
            == bytes@.subrange(
            path.last() + 33,
            path.last() + 2 + number16(false, bytes@, path.last() + 2),
        )),
        !is_segment(bytes@, path.last()) && !is_filling(bytes@, path.last()) ==> r is None,
{
    lemma_marks();
    if is_marked(bytes@, path.last(), 0xe1, xmp_mark()) {
        lemma_found(bytes@, path, 0xe1, xmp_mark());
    } else if !is_segment(bytes@, path.last()) && !is_filling(bytes@, path.last()) {
        lemma_not_found(bytes@, path, 0xe1, xmp_mark());
    }
}

/// A size made even.
pub open spec fn evened(n: int) -> int {
    n + n % 2
}

/// Where the size of a resource's data stands: behind its signature, its number and its name,
/// which is as long as its first byte says.
pub open spec fn size_place(p: Seq<u8>, at: int) -> int {
    at + 6 + evened(1 + p[at + 6])
}

/// Whether a whole Photoshop resource begins at `at`: `8BIM`, a number, a name, and its data.
pub open spec fn is_resource(p: Seq<u8>, at: int) -> bool {
    &&& 0 <= at && at + 7 <= p.len()
    &&& p[at] == 0x38 && p[at + 1] == 0x42 && p[at + 2] == 0x49 && p[at + 3] == 0x4d
    &&& size_place(p, at) + 4 <= p.len()
    &&& size_place(p, at) + 4 + number32(false, p, size_place(p, at)) <= p.len()
}

/// Where what follows a resource begins.
pub open spec fn behind_resource(p: Seq<u8>, at: int) -> int {
    size_place(p, at) + 4 + evened(number32(false, p, size_place(p, at)))
}

/// Whether step `k` of a path is one over a resource that is not the one with IPTC-IIM.
pub open spec fn goes_over(p: Seq<u8>, path: Seq<int>, k: int) -> bool {
    &&& is_resource(p, path[k])
    &&& number16(false, p, path[k] + 4) != 0x0404
    &&& path[k + 1] == behind_resource(p, path[k])
    &&& path[k + 1] <= p.len()
}

proof fn lemma_resource_path(p: Seq<u8>, path: Seq<int>, k: int)
    requires
        0 <= k < path.len(),
        path[0] == 0,
        forall|i: int| 0 <= i < path.len() - 1 ==> goes_over(p, path, i),
    ensures
        iptc_from(p, 0) == iptc_from(p, path[k]),
    decreases k,
{
    if k > 0 {
        lemma_resource_path(p, path, k - 1);
        assert(goes_over(p, path, k - 1));
        let at = path[k - 1];
        words_are_the_numbers_their_bytes_make(false, p, at);
        words_are_the_numbers_their_bytes_make(false, p, at + 4);
        words_are_the_numbers_their_bytes_make(false, p, size_place(p, at));
    }
}

/// The IPTC block is the data of the first resource numbered 0404 among those in the first
/// segment `ed` that begins with `Photoshop 3.0`.
pub proof fn the_iptc_block_is_the_first(
    bytes: &[u8],
    path: Seq<int>,
    p: Seq<u8>,
    inner: Seq<int>,
    r: Option<&[u8]>,
)
    requires
        call_ensures(app13_iptc_payload, (bytes,), r),
        leads_past_others(bytes@, path, 0xed, photoshop_mark()),
        is_marked(bytes@, path.last(), 0xed, photoshop_mark()),
        p == bytes@.subrange(
            path.last() + 18,
            path.last() + 2 + number16(false, bytes@, path.last() + 2),
        ),
        inner.len() >= 1,
        inner[0] == 0,
        forall|i: int| 0 <= i < inner.len() - 1 ==> goes_over(p, inner, i),
    ensures
        is_resource(p, inner.last()) && number16(false, p, inner.last() + 4) == 0x0404 ==> (
        r matches Some(d) && d@ == p.subrange(
            size_place(p, inner.last()) + 4,
            size_place(p, inner.last()) + 4 + number32(false, p, size_place(p, inner.last())),
        )),
        inner.last() == p.len() ==> r is None,
{
    lemma_marks();
    lemma_found(bytes@, path, 0xed, photoshop_mark());
    lemma_resource_path(p, inner, inner.len() - 1);
    let at = inner.last();
    words_are_the_numbers_their_bytes_make(false, p, at);
    words_are_the_numbers_their_bytes_make(false, p, at + 4);
    words_are_the_numbers_their_bytes_make(false, p, size_place(p, at));
}

/// A block from one byte to 65527 is put behind the start of the image as a segment `e1`, and
/// what is read of that is the block.
pub proof fn a_wrapped_block_is_the_exif_block(
    block: &[u8],
    w: Option<Vec<u8>>,
    bytes: &[u8],
    r: Option<&[u8]>,
)
    requires
        call_ensures(wrap_in_jpeg, (block,), w),
        w is Some ==> bytes@ == w->Some_0@,
        call_ensures(app1_payload, (bytes,), r),
    ensures
        w is Some == (1 <= block@.len() <= 65527),
        w is Some ==> {
            &&& r matches Some(p) && p@ == block@
            &&& bytes@[0] == 0xff && bytes@[1] == 0xd8 && bytes@[2] == 0xff && bytes@[3] == 0xe1
            &&& bytes@[bytes@.len() - 2] == 0xff && bytes@[bytes@.len() - 1] == 0xd9
        },
{
    if w is Some {
        crate::jpeg::a_wrapped_block_reads_back(block@);
        crate::jpeg::the_carrier_stays_whole(block@);
        let v = bytes@;
        assert(v.subrange(0, 4)[0] == v[0] && v.subrange(0, 4)[1] == v[1]);
        assert(v.subrange(0, 4)[2] == v[2] && v.subrange(0, 4)[3] == v[3]);
    }
}

} // verus!
