//! JPEG's segments, and the `APP1` envelope for an Exif block, read and written.
//!
//! Only the container is here: nothing in this module knows what a TIFF tag is.
//!
//! Writing an `APP1` looks like a JPEG encoder's job until you see why an engine needs
//! it: a platform writer may take Exif only as parsed properties, and the way to have
//! it parse a block is to wrap the block in a decodable image.

use vstd::prelude::*;
use vstd::utf8::encode_utf8;

use crate::bytes::{
    be16, be16_bytes, be32, be32_bytes, get_be16, get_be32, group_encoded_lengths, has_at,
    lemma_be16_read_back, matches_at, push_all, push_be16, push_be32, span,
};

verus! {

broadcast use group_encoded_lengths;

/// Numbers, written 32 bits each.
pub open spec fn words_bytes(ws: Seq<u32>) -> Seq<u8>
    decreases ws.len(),
{
    if ws.len() == 0 {
        seq![]
    } else {
        words_bytes(ws.drop_last()) + be32_bytes(ws.last())
    }
}

/// A valid 1x1 grayscale baseline JPEG, used only as a carrier, every four bytes of it
/// as one number.
///
/// It has to be a *decodable* image, not just a header: a reader that finds no image
/// in a file reports no properties, no matter what metadata is attached.
pub closed spec fn carrier_words() -> Seq<u32> {
    seq![
        0xffd8ffe0, 0x00104a46, 0x49460001, 0x01000001, 0x00010000, 0xffdb0043, 0x0050373c,
        0x463c3250, 0x4641465a, 0x55505f78, 0xc882786e, 0x6e78f5af, 0xb991c8ff, 0xffffffff,
        0xffffffff, 0xffffffff, 0xffffffff, 0xffffffff, 0xffffffff, 0xffffffff, 0xffffffff,
        0xffffffff, 0xffffc000, 0x0b080001, 0x00010101, 0x1100ffc4, 0x001f0000, 0x01050101,
        0x01010101, 0x00000000, 0x00000000, 0x01020304, 0x05060708, 0x090a0bff, 0xc400b510,
        0x00020103, 0x03020403, 0x05050404, 0x0000017d, 0x01020300, 0x04110512, 0x21314106,
        0x13516107, 0x22711432, 0x8191a108, 0x2342b1c1, 0x1552d1f0, 0x24336272, 0x82090a16,
        0x1718191a, 0x25262728, 0x292a3435, 0x36373839, 0x3a434445, 0x46474849, 0x4a535455,
        0x56575859, 0x5a636465, 0x66676869, 0x6a737475, 0x76777879, 0x7a838485, 0x86878889,
        0x8a929394, 0x95969798, 0x999aa2a3, 0xa4a5a6a7, 0xa8a9aab2, 0xb3b4b5b6, 0xb7b8b9ba,
        0xc2c3c4c5, 0xc6c7c8c9, 0xcad2d3d4, 0xd5d6d7d8, 0xd9dae1e2, 0xe3e4e5e6, 0xe7e8e9ea,
        0xf1f2f3f4, 0xf5f6f7f8, 0xf9faffda, 0x00080101, 0x00003f00, 0xa55fffd9,
    ]
}

/// The carrier's bytes.
pub open spec fn carrier() -> Seq<u8> {
    words_bytes(carrier_words())
}

fn carrier_bytes() -> (v: Vec<u8>)
    ensures
        v@ == carrier(),
{
    let words: [u32; 83] = [
        0xffd8ffe0, 0x00104a46, 0x49460001, 0x01000001, 0x00010000, 0xffdb0043, 0x0050373c,
        0x463c3250, 0x4641465a, 0x55505f78, 0xc882786e, 0x6e78f5af, 0xb991c8ff, 0xffffffff,
        0xffffffff, 0xffffffff, 0xffffffff, 0xffffffff, 0xffffffff, 0xffffffff, 0xffffffff,
        0xffffffff, 0xffffc000, 0x0b080001, 0x00010101, 0x1100ffc4, 0x001f0000, 0x01050101,
        0x01010101, 0x00000000, 0x00000000, 0x01020304, 0x05060708, 0x090a0bff, 0xc400b510,
        0x00020103, 0x03020403, 0x05050404, 0x0000017d, 0x01020300, 0x04110512, 0x21314106,
        0x13516107, 0x22711432, 0x8191a108, 0x2342b1c1, 0x1552d1f0, 0x24336272, 0x82090a16,
        0x1718191a, 0x25262728, 0x292a3435, 0x36373839, 0x3a434445, 0x46474849, 0x4a535455,
        0x56575859, 0x5a636465, 0x66676869, 0x6a737475, 0x76777879, 0x7a838485, 0x86878889,
        0x8a929394, 0x95969798, 0x999aa2a3, 0xa4a5a6a7, 0xa8a9aab2, 0xb3b4b5b6, 0xb7b8b9ba,
        0xc2c3c4c5, 0xc6c7c8c9, 0xcad2d3d4, 0xd5d6d7d8, 0xd9dae1e2, 0xe3e4e5e6, 0xe7e8e9ea,
        0xf1f2f3f4, 0xf5f6f7f8, 0xf9faffda, 0x00080101, 0x00003f00, 0xa55fffd9,
    ];
    assert(words@ =~= carrier_words());
    let mut v: Vec<u8> = Vec::new();
    let mut i: usize = 0;
    assert(words@.take(0) =~= seq![]);
    while i < 83
        invariant
            i <= 83,
            words@ == carrier_words(),
            words@.len() == 83,
            v@ == words_bytes(words@.take(i as int)),
        decreases 83 - i,
    {
        proof {
            let t = words@.take(i + 1);
            assert(t.drop_last() =~= words@.take(i as int));
            assert(t.last() == words@[i as int]);
        }
        push_be32(&mut v, words[i]);
        i = i + 1;
    }
    assert(words@.take(words@.len() as int) =~= words@);
    v
}

/// The marker of application segment 1, which carries Exif or XMP.
pub const APP1: u8 = 0xe1;

/// The marker of application segment 13, which carries Photoshop's resources.
pub const APP13: u8 = 0xed;

/// What marks an `APP1` segment as Exif.
pub const EXIF_ID: &'static str = "Exif\0\0";

/// What marks an `APP1` segment as XMP.
pub const XMP_ID: &'static str = "http://ns.adobe.com/xap/1.0/\0";

/// What marks an `APP13` segment as Photoshop's.
pub const PHOTOSHOP_ID: &'static str = "Photoshop 3.0\0";

/// Largest block that fits an `APP1` segment, whose length field counts itself and the
/// identifier in 16 bits.
pub const MAX_BLOCK: usize = 65527;

/// One segment: its marker, and where its body lies.
pub struct Segment {
    pub marker: u8,
    pub start: int,
    pub end: int,
}

/// The header segments from `at` on, up to the start of scan, the end of the image or
/// the first that does not fit.
///
/// Segments are `ff <marker> <16-bit length, counting itself>`. Fill bytes of `ff`
/// before a marker are legal.
pub open spec fn segments_from(s: Seq<u8>, at: int) -> Seq<Segment>
    decreases s.len() - at,
{
    if at + 1 < s.len() && s[at] == 0xff && s[at + 1] == 0xff {
        segments_from(s, at + 1)
    } else if at + 4 > s.len() || s[at] != 0xff || s[at + 1] == 0xda || s[at + 1] == 0xd9 {
        seq![]
    } else {
        let len = be16(s, at + 2) as int;
        let end = at + 2 + len;
        if len < 2 || end > s.len() {
            seq![]
        } else {
            seq![Segment { marker: s[at + 1], start: at + 4, end }] + segments_from(s, end)
        }
    }
}

/// The header segments of a JPEG, none for anything else.
pub open spec fn segments_of(s: Seq<u8>) -> Seq<Segment> {
    if s.len() < 4 || s[0] != 0xff || s[1] != 0xd8 {
        seq![]
    } else {
        segments_from(s, 2)
    }
}

/// A segment's marker and the place of its body.
#[derive(Clone, Copy, Debug)]
pub struct SegmentSpan {
    pub marker: u8,
    pub start: usize,
    pub end: usize,
}

impl View for SegmentSpan {
    type V = Segment;

    open spec fn view(&self) -> Segment {
        Segment { marker: self.marker, start: self.start as int, end: self.end as int }
    }
}

/// The segments some spans stand for.
pub open spec fn segment_views(v: Seq<SegmentSpan>) -> Seq<Segment> {
    Seq::new(v.len(), |i: int| v[i]@)
}

/// Every span lies in a file of `len` bytes.
pub open spec fn spans_fit(v: Seq<SegmentSpan>, len: int) -> bool {
    forall|i: int| 0 <= i < v.len() ==> (#[trigger] v[i]).start <= v[i].end <= len
}

/// The header segments of a JPEG, none for anything else.
pub fn segments(bytes: &[u8]) -> (r: Vec<SegmentSpan>)
    ensures
        segment_views(r@) == segments_of(bytes@),
        spans_fit(r@, bytes@.len() as int),
{
    let mut out: Vec<SegmentSpan> = Vec::new();
    let n: usize = bytes.len();
    if n < 4 || bytes[0] != 0xff || bytes[1] != 0xd8 {
        assert(segment_views(out@) =~= seq![]);
        return out;
    }
    let ghost s = bytes@;
    let mut at: usize = 2;
    assert(segment_views(out@) + segments_from(s, 2) =~= segments_from(s, 2));
    loop
        invariant
            s == bytes@,
            n == s.len(),
            n >= 4,
            s[0] == 0xff,
            s[1] == 0xd8,
            at <= n,
            segment_views(out@) + segments_from(s, at as int) == segments_of(s),
            spans_fit(out@, s.len() as int),
        decreases n - at,
    {
        if n - at >= 2 && bytes[at] == 0xff && bytes[at + 1] == 0xff {
            at = at + 1;
        } else if n - at < 4 || bytes[at] != 0xff || bytes[at + 1] == 0xda || bytes[at + 1]
            == 0xd9 {
            assert(segment_views(out@) + Seq::<Segment>::empty() =~= segment_views(out@));
            return out;
        } else {
            let len: usize = get_be16(bytes, at + 2) as usize;
            if len < 2 || n - at - 2 < len {
                assert(segment_views(out@) + Seq::<Segment>::empty() =~= segment_views(out@));
                return out;
            }
            let ghost before = out@;
            let seg = SegmentSpan { marker: bytes[at + 1], start: at + 4, end: at + 2 + len };
            out.push(seg);
            proof {
                let rest = segments_from(s, seg.end as int);
                assert(segment_views(out@) =~= segment_views(before).push(seg@));
                assert(segment_views(out@) + rest =~= segment_views(before) + (seq![seg@] + rest));
            }
            at = at + 2 + len;
        }
    }
}

/// What follows the identifier in the first segment with a marker that starts with it,
/// from position `i` on.
pub open spec fn tagged_from(
    s: Seq<u8>,
    segs: Seq<Segment>,
    marker: u8,
    id: Seq<u8>,
    i: int,
) -> Option<(int, int)>
    decreases segs.len() - i,
{
    if i >= segs.len() {
        None
    } else if segs[i].marker == marker && segs[i].start + id.len() <= segs[i].end && matches_at(
        s,
        segs[i].start,
        id,
    ) {
        Some((segs[i].start + id.len(), segs[i].end))
    } else {
        tagged_from(s, segs, marker, id, i + 1)
    }
}

/// The payload of the first segment with a marker and an identifier.
pub open spec fn tagged(s: Seq<u8>, marker: u8, id: Seq<u8>) -> Option<Seq<u8>> {
    match tagged_from(s, segments_of(s), marker, id, 0) {
        Some(ab) => Some(s.subrange(ab.0, ab.1)),
        None => None,
    }
}

/// The payload of the first segment with a marker and an identifier.
fn tagged_payload<'a>(bytes: &'a [u8], marker: u8, id: &[u8]) -> (r: Option<&'a [u8]>)
    ensures
        match r {
            Some(p) => tagged(bytes@, marker, id@) == Some(p@),
            None => tagged(bytes@, marker, id@) is None,
        },
{
    let found = segments(bytes);
    let ghost segs = segments_of(bytes@);
    let mut i: usize = 0;
    while i < found.len()
        invariant
            i <= found@.len(),
            segs == segment_views(found@),
            segs == segments_of(bytes@),
            spans_fit(found@, bytes@.len() as int),
            tagged_from(bytes@, segs, marker, id@, 0) == tagged_from(
                bytes@,
                segs,
                marker,
                id@,
                i as int,
            ),
        decreases found@.len() - i,
    {
        let seg = found[i];
        assert(segs[i as int] == seg@);
        if seg.marker == marker && seg.end - seg.start >= id.len() && has_at(bytes, seg.start, id) {
            return Some(span(bytes, seg.start + id.len(), seg.end));
        }
        i = i + 1;
    }
    None
}

/// The Exif block of a JPEG.
pub open spec fn exif_of(s: Seq<u8>) -> Option<Seq<u8>> {
    tagged(s, APP1, encode_utf8(EXIF_ID@))
}

/// The XMP packet of a JPEG.
pub open spec fn xmp_of(s: Seq<u8>) -> Option<Seq<u8>> {
    tagged(s, APP1, encode_utf8(XMP_ID@))
}

/// The payload of the first `Exif\0\0`-tagged `APP1` segment in a JPEG.
pub fn app1_payload(bytes: &[u8]) -> (r: Option<&[u8]>)
    ensures
        match r {
            Some(p) => exif_of(bytes@) == Some(p@),
            None => exif_of(bytes@) is None,
        },
{
    tagged_payload(bytes, APP1, EXIF_ID.as_bytes())
}

/// The XMP `APP1` segment of a JPEG, which is the one tagged with Adobe's namespace URI
/// rather than `Exif\0\0`.
pub fn xmp_payload(bytes: &[u8]) -> (r: Option<&[u8]>)
    ensures
        match r {
            Some(p) => xmp_of(bytes@) == Some(p@),
            None => xmp_of(bytes@) is None,
        },
{
    tagged_payload(bytes, APP1, XMP_ID.as_bytes())
}

/// The signature of a Photoshop resource, `8BIM`.
pub const RESOURCE: u32 = 0x3842494d;

/// The resource that holds IPTC-IIM.
pub const IPTC_RESOURCE: u16 = 0x0404;

/// The data of the first IPTC resource among those from `at` on.
///
/// A resource is a signature, an identifier, a name as a length byte and that many
/// bytes, padded to an even size, then a 32-bit size and that many bytes, padded too.
pub open spec fn iptc_from(s: Seq<u8>, at: int) -> Option<Seq<u8>>
    decreases s.len() - at,
{
    if at + 7 > s.len() || be32(s, at) != RESOURCE {
        None
    } else {
        let named = 1 + s[at + 6];
        let size_at = at + 6 + named + named % 2;
        if size_at + 4 > s.len() {
            None
        } else {
            let size = be32(s, size_at) as int;
            let data = size_at + 4;
            if data + size > s.len() {
                None
            } else if be16(s, at + 4) == IPTC_RESOURCE {
                Some(s.subrange(data, data + size))
            } else if data + size + size % 2 > s.len() {
                None
            } else {
                iptc_from(s, data + size + size % 2)
            }
        }
    }
}

/// The IPTC-IIM block of a JPEG, which keeps it in an `APP13` segment outside the Exif
/// block entirely.
pub open spec fn iptc_of(s: Seq<u8>) -> Option<Seq<u8>> {
    match tagged(s, APP13, encode_utf8(PHOTOSHOP_ID@)) {
        Some(p) => iptc_from(p, 0),
        None => None,
    }
}

/// The IPTC-IIM block of a JPEG's `APP13` segment.
pub fn app13_iptc_payload(bytes: &[u8]) -> (r: Option<&[u8]>)
    ensures
        match r {
            Some(p) => iptc_of(bytes@) == Some(p@),
            None => iptc_of(bytes@) is None,
        },
{
    let p = match tagged_payload(bytes, APP13, PHOTOSHOP_ID.as_bytes()) {
        Some(p) => p,
        None => {
            return None;
        },
    };
    let n: usize = p.len();
    let mut at: usize = 0;
    loop
        invariant
            n == p@.len(),
            at <= n,
            tagged(bytes@, APP13, encode_utf8(PHOTOSHOP_ID@)) == Some(p@),
            iptc_of(bytes@) == iptc_from(p@, at as int),
        decreases n - at,
    {
        if n - at < 7 || get_be32(p, at) != RESOURCE {
            return None;
        }
        let named: usize = 1 + p[at + 6] as usize;
        let even: usize = named + named % 2;
        if n - at - 6 < even || n - at - 6 - even < 4 {
            return None;
        }
        let size_at: usize = at + 6 + even;
        let size: u32 = get_be32(p, size_at);
        let data: usize = size_at + 4;
        if ((n - data) as u64) < size as u64 {
            return None;
        }
        if get_be16(p, at + 4) == IPTC_RESOURCE {
            return Some(span(p, data, data + size as usize));
        }
        let odd: usize = (size % 2) as usize;
        if n - data - (size as usize) < odd {
            // The padding byte is missing, so nothing follows.
            return None;
        }
        at = data + size as usize + odd;
    }
}

/// A block wrapped in the carrier, straight after the start of image, which is where
/// every reader expects it.
pub open spec fn wrapped(block: Seq<u8>) -> Seq<u8> {
    seq![0xffu8, 0xd8u8, 0xffu8, APP1] + be16_bytes((8 + block.len()) as u16) + encode_utf8(
        EXIF_ID@,
    ) + block + carrier().skip(2)
}

/// Wraps `block` in the smallest decodable JPEG that can carry it.
///
/// `None` when the block is empty or cannot fit one `APP1` segment. Splitting across
/// segments is legal for XMP and not for Exif, so there is no larger form to fall back
/// on.
pub fn wrap_in_jpeg(block: &[u8]) -> (r: Option<Vec<u8>>)
    ensures
        match r {
            Some(v) => 1 <= block@.len() <= MAX_BLOCK && v@ == wrapped(block@),
            None => block@.len() == 0 || block@.len() > MAX_BLOCK,
        },
{
    if block.len() == 0 || block.len() > MAX_BLOCK {
        return None;
    }
    let c = carrier_bytes();
    proof {
        lemma_carrier_len();
    }
    let mut out: Vec<u8> = Vec::new();
    out.push(0xff);
    out.push(0xd8);
    out.push(0xff);
    out.push(APP1);
    push_be16(&mut out, (8 + block.len()) as u16);
    push_all(&mut out, EXIF_ID.as_bytes());
    push_all(&mut out, block);
    push_all(&mut out, span(c.as_slice(), 2, c.len()));
    assert(out@ =~= wrapped(block@));
    Some(out)
}

proof fn lemma_words_len(ws: Seq<u32>)
    ensures
        words_bytes(ws).len() == 4 * ws.len(),
    decreases ws.len(),
{
    if ws.len() > 0 {
        lemma_words_len(ws.drop_last());
    }
}

proof fn lemma_carrier_len()
    ensures
        carrier().len() == 332,
{
    lemma_words_len(carrier_words());
}

/// A wrapped block is read back, whatever it holds.
pub proof fn a_wrapped_block_reads_back(block: Seq<u8>)
    requires
        1 <= block.len() <= MAX_BLOCK,
    ensures
        exif_of(wrapped(block)) == Some(block),
{
    let s = wrapped(block);
    let id = encode_utf8(EXIF_ID@);
    let len = (8 + block.len()) as u16;
    reveal_strlit("Exif\0\0");
    assert(id.len() == 6) by {
        vstd::utf8::is_ascii_chars_encode_utf8(EXIF_ID@);
    }
    assert(s.subrange(4, 6) =~= be16_bytes(len));
    lemma_be16_read_back(len, s, 4);
    lemma_carrier_len();
    let first = Segment { marker: APP1, start: 6, end: 4 + len };
    assert(segments_from(s, 2)[0] == first);
    assert(s.subrange(6, 12) =~= id);
    assert(matches_at(s, 6, id));
    assert(s.subrange(12, 4 + len) =~= block);
}

/// The bytes of number `k`.
proof fn lemma_word_at(ws: Seq<u32>, k: int)
    requires
        0 <= k < ws.len(),
    ensures
        words_bytes(ws)[4 * k] == (ws[k] / 0x100_0000) as u8,
        words_bytes(ws)[4 * k + 1] == (ws[k] / 0x1_0000 % 0x100) as u8,
        words_bytes(ws)[4 * k + 2] == (ws[k] / 0x100 % 0x100) as u8,
        words_bytes(ws)[4 * k + 3] == (ws[k] % 0x100) as u8,
    decreases ws.len(),
{
    reveal(be32_bytes);
    lemma_words_len(ws.drop_last());
    if k < ws.len() - 1 {
        lemma_word_at(ws.drop_last(), k);
    }
}

/// Where the carrier's segments begin, and that it ends with the end of the image.
proof fn lemma_carrier_marks()
    ensures
        ({
            let c = carrier();
            &&& c.len() == 332
            &&& c[0] == 0xff && c[1] == 0xd8
            &&& c[2] == 0xff && c[3] == 0xe0 && c[4] == 0 && c[5] == 16
            &&& c[20] == 0xff && c[21] == 0xdb && c[22] == 0 && c[23] == 67
            &&& c[89] == 0xff && c[90] == 0xc0 && c[91] == 0 && c[92] == 11
            &&& c[102] == 0xff && c[103] == 0xc4 && c[104] == 0 && c[105] == 31
            &&& c[135] == 0xff && c[136] == 0xc4 && c[137] == 0 && c[138] == 181
            &&& c[318] == 0xff && c[319] == 0xda
            &&& c[330] == 0xff && c[331] == 0xd9
        }),
{
    let ws = carrier_words();
    lemma_carrier_len();
    lemma_word_at(ws, 0);
    lemma_word_at(ws, 1);
    lemma_word_at(ws, 5);
    lemma_word_at(ws, 22);
    lemma_word_at(ws, 23);
    lemma_word_at(ws, 25);
    lemma_word_at(ws, 26);
    lemma_word_at(ws, 33);
    lemma_word_at(ws, 34);
    lemma_word_at(ws, 79);
    lemma_word_at(ws, 82);
}

/// Whether no segment has a marker.
spec fn none_marked(segs: Seq<Segment>, marker: u8) -> bool {
    forall|k: int| 0 <= k < segs.len() ==> (#[trigger] segs[k]).marker != marker
}

/// The segment at `at`, and those behind it.
proof fn lemma_segment(s: Seq<u8>, at: int, marker: u8, len: u8)
    requires
        0 <= at,
        2 <= len,
        at + 2 + len <= s.len(),
        s[at] == 0xff,
        s[at + 1] == marker,
        marker != 0xff && marker != 0xda && marker != 0xd9,
        s[at + 2] == 0,
        s[at + 3] == len,
        at + 4 <= s.len(),
    ensures
        segments_from(s, at) == seq![
            Segment { marker, start: at + 4, end: at + 2 + len },
        ] + segments_from(s, at + 2 + len),
{
    assert(be16(s, at + 2) == len);
}

/// The carrier has neither an `APP1` segment nor an `APP13`, wherever its segments begin.
proof fn lemma_carrier_segments(s: Seq<u8>, o: int)
    requires
        0 <= o,
        s.len() == o + carrier().len(),
        forall|i: int| 2 <= i < carrier().len() ==> #[trigger] s[o + i] == carrier()[i],
    ensures
        none_marked(segments_from(s, o + 2), APP1),
        none_marked(segments_from(s, o + 2), APP13),
{
    lemma_carrier_marks();
    let c = carrier();
    assert(s[o + 2] == c[2] && s[o + 3] == c[3] && s[o + 4] == c[4] && s[o + 5] == c[5]);
    assert(s[o + 20] == c[20] && s[o + 21] == c[21] && s[o + 22] == c[22] && s[o + 23] == c[23]);
    assert(s[o + 89] == c[89] && s[o + 90] == c[90] && s[o + 91] == c[91] && s[o + 92] == c[92]);
    assert(s[o + 102] == c[102] && s[o + 103] == c[103] && s[o + 104] == c[104] && s[o + 105]
        == c[105]);
    assert(s[o + 135] == c[135] && s[o + 136] == c[136] && s[o + 137] == c[137] && s[o + 138]
        == c[138]);
    assert(s[o + 318] == c[318] && s[o + 319] == c[319]);
    lemma_segment(s, o + 2, 0xe0, 16);
    lemma_segment(s, o + 20, 0xdb, 67);
    lemma_segment(s, o + 89, 0xc0, 11);
    lemma_segment(s, o + 102, 0xc4, 31);
    lemma_segment(s, o + 135, 0xc4, 181);
    assert(segments_from(s, o + 318) =~= seq![]);
}

/// Without a segment of its marker, nothing is found.
proof fn lemma_none_tagged(s: Seq<u8>, segs: Seq<Segment>, marker: u8, id: Seq<u8>, i: int)
    requires
        0 <= i,
        forall|k: int| i <= k < segs.len() ==> (#[trigger] segs[k]).marker != marker,
    ensures
        tagged_from(s, segs, marker, id, i) is None,
    decreases segs.len() - i,
{
    if i < segs.len() {
        lemma_none_tagged(s, segs, marker, id, i + 1);
    }
}

/// A wrapped block is an `APP1` segment in the carrier, straight after the start of image:
/// around it stands one and the same JPEG for every block, which ends where an image ends.
pub proof fn the_carrier_stays_whole(block: Seq<u8>)
    requires
        1 <= block.len() <= MAX_BLOCK,
    ensures
        ({
            let w = wrapped(block);
            let n = block.len() as int;
            &&& w.subrange(0, 4) == seq![0xffu8, 0xd8u8, 0xffu8, 0xe1u8]
            &&& w.subrange(4, 6) == be16_bytes((8 + n) as u16)
            &&& w.subrange(6, 12) == encode_utf8(EXIF_ID@)
            &&& w.subrange(12, 12 + n) == block
            &&& w.take(2) + w.skip(12 + n) == carrier()
            &&& w.len() == 12 + n + 330
            &&& w.subrange(w.len() - 2, w.len() as int) == seq![0xffu8, 0xd9u8]
        }),
{
    lemma_carrier_marks();
    lemma_exif_id();
    let w = wrapped(block);
    let n = block.len() as int;
    assert(w.subrange(0, 4) =~= seq![0xffu8, 0xd8u8, 0xffu8, 0xe1u8]);
    assert(w.subrange(4, 6) =~= be16_bytes((8 + n) as u16));
    assert(w.subrange(6, 12) =~= encode_utf8(EXIF_ID@));
    assert(w.subrange(12, 12 + n) =~= block);
    assert(w.skip(12 + n) =~= carrier().skip(2));
    assert(w.take(2) + w.skip(12 + n) =~= carrier());
    assert(w[w.len() - 2] == carrier()[330] && w[w.len() - 1] == carrier()[331]);
    assert(w.subrange(w.len() - 2, w.len() as int) =~= seq![0xffu8, 0xd9u8]);
}

proof fn lemma_exif_id()
    ensures
        encode_utf8(EXIF_ID@).len() == 6,
        encode_utf8(EXIF_ID@)[0] == 0x45,
{
    reveal_strlit("Exif\0\0");
    vstd::utf8::is_ascii_chars_encode_utf8(EXIF_ID@);
}

proof fn lemma_xmp_id()
    ensures
        encode_utf8(XMP_ID@).len() > 0,
        encode_utf8(XMP_ID@)[0] == 0x68,
{
    reveal_strlit("http://ns.adobe.com/xap/1.0/\0");
    vstd::utf8::is_ascii_chars_encode_utf8(XMP_ID@);
}

/// The carrier has no Exif block of its own: with the segment cut out of a wrapped block
/// there is none, nor is there ever IPTC beside the block.
pub proof fn the_carrier_brings_nothing(block: Seq<u8>)
    requires
        1 <= block.len() <= MAX_BLOCK,
    ensures
        ({
            let w = wrapped(block);
            &&& exif_of(w.take(2) + w.skip(12 + block.len() as int)) is None
            &&& iptc_of(w) is None
        }),
{
    the_carrier_stays_whole(block);
    lemma_carrier_marks();
    lemma_exif_id();
    let c = carrier();
    lemma_carrier_segments(c, 0);
    lemma_none_tagged(c, segments_of(c), APP1, encode_utf8(EXIF_ID@), 0);
    let w = wrapped(block);
    let n = block.len() as int;
    let len = (8 + n) as u16;
    assert forall|i: int| 2 <= i < c.len() implies #[trigger] w[(10 + n) + i] == c[i] by {
        assert(c.skip(2)[i - 2] == c[i]);
    }
    lemma_carrier_segments(w, 10 + n);
    lemma_be16_read_back(len, w, 4);
    let rest = segments_from(w, 12 + n);
    let segs = segments_of(w);
    assert(w[2] == 0xff && w[3] == APP1) by {
        assert(w.subrange(0, 4)[2] == w[2] && w.subrange(0, 4)[3] == w[3]);
    }
    assert(w[0] == 0xff && w[1] == 0xd8) by {
        assert(w.subrange(0, 4)[0] == w[0] && w.subrange(0, 4)[1] == w[1]);
    }
    assert(segs == seq![Segment { marker: APP1, start: 6, end: 4 + len }] + rest);
    assert(none_marked(segs, APP13)) by {
        assert forall|k: int| 0 <= k < segs.len() implies (#[trigger] segs[k]).marker != APP13 by {
            if k > 0 {
                assert(segs[k] == rest[k - 1]);
            }
        }
    }
    lemma_none_tagged(w, segs, APP13, encode_utf8(PHOTOSHOP_ID@), 0);
}

proof fn lemma_tagged_where(s: Seq<u8>, segs: Seq<Segment>, marker: u8, id: Seq<u8>, i: int) -> (k:
    int)
    requires
        0 <= i,
        tagged_from(s, segs, marker, id, i) is Some,
    ensures
        i <= k < segs.len(),
        segs[k].marker == marker,
        matches_at(s, segs[k].start, id),
        tagged_from(s, segs, marker, id, i) == Some((segs[k].start + id.len(), segs[k].end)),
    decreases segs.len() - i,
{
    if segs[i].marker == marker && segs[i].start + id.len() <= segs[i].end && matches_at(
        s,
        segs[i].start,
        id,
    ) {
        i
    } else {
        lemma_tagged_where(s, segs, marker, id, i + 1)
    }
}

/// An Exif block is what follows the identifier in an `APP1` segment marked as Exif, never
/// one that begins with XMP's namespace.
pub proof fn xmp_is_never_exif(s: Seq<u8>) -> (k: int)
    requires
        exif_of(s) is Some,
    ensures
        0 <= k < segments_of(s).len(),
        segments_of(s)[k].marker == APP1,
        matches_at(s, segments_of(s)[k].start, encode_utf8(EXIF_ID@)),
        !matches_at(s, segments_of(s)[k].start, encode_utf8(XMP_ID@)),
        exif_of(s) == Some(s.subrange(segments_of(s)[k].start + 6, segments_of(s)[k].end)),
{
    lemma_exif_id();
    lemma_xmp_id();
    let id = encode_utf8(EXIF_ID@);
    let other = encode_utf8(XMP_ID@);
    let k = lemma_tagged_where(s, segments_of(s), APP1, id, 0);
    let at = segments_of(s)[k].start;
    if matches_at(s, at, other) {
        assert(s.subrange(at, at + id.len())[0] == s[at]);
        assert(s.subrange(at, at + other.len())[0] == s[at]);
    }
    k
}

} // verus!
