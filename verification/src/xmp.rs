//! The XMP copy of the gain-map headroom.
//!
//! Apple states the headroom three times -- ISO 21496-1 `tmap`, MakerApple tags
//! 33/48, and here -- and in its own captures all three agree. Different consumers
//! read different copies, so disagreement means something reads the wrong number.
//!
//! **`HDRGainMapHeadroom` is linear, not stops** -- the multiplier over SDR white. A
//! capture pairs `4.880772` with an ISO `alternate_hdr_headroom` of `2.287109` stops.
//! Writing stops here understates it by an exponent. The functions here take that
//! linear factor as the decimal text to state.

use vstd::prelude::*;
use vstd::utf8::encode_utf8;

use crate::bytes::{has_at, matches_at, push_all, span};
use crate::text::{decimal, decimal_text};

verus! {

/// Apple's XMP namespace for the gain-map headroom.
pub const HDR_GAIN_MAP_NS: &'static str = "http://ns.apple.com/HDRGainMap/1.0/";

/// `HDRGainMapVersion` as Apple's captures carry it. Packed as
/// major<<16 | minor<<8 | ..., so `131072` = `0x00020000`, which exiftool
/// renders as `0.2.0.0`.
pub const HDR_GAIN_MAP_VERSION: u32 = 131_072;

const OPEN: &'static str = "  <rdf:Description rdf:about=\"\"\n    xmlns:HDRGainMap=\"";

const VERSION: &'static str = "\"\n    HDRGainMap:HDRGainMapVersion=\"";

const HEADROOM: &'static str = "\"\n    HDRGainMap:HDRGainMapHeadroom=\"";

const CLOSE: &'static str = "\"/>\n";

const HEAD: &'static str = "<?xpacket begin=\"\" id=\"W5M0MpCehiHzreSzNTczkc9d\"?>\n<x:xmpmeta xmlns:x=\"adobe:ns:meta/\">\n <rdf:RDF xmlns:rdf=\"http://www.w3.org/1999/02/22-rdf-syntax-ns#\">\n";

const TAIL: &'static str = " </rdf:RDF>\n</x:xmpmeta>\n<?xpacket end=\"w\"?>";

/// What ends the list of descriptions of a packet.
pub const RDF_CLOSE: &'static str = "</rdf:RDF>";

/// The `rdf:Description` that states a headroom.
pub closed spec fn description(linear: Seq<char>) -> Seq<u8> {
    encode_utf8(OPEN@) + encode_utf8(HDR_GAIN_MAP_NS@) + encode_utf8(VERSION@) + encode_utf8(
        decimal(HDR_GAIN_MAP_VERSION as nat),
    ) + encode_utf8(HEADROOM@) + encode_utf8(linear) + encode_utf8(CLOSE@)
}

/// A packet that states a headroom and nothing else.
pub closed spec fn packet(linear: Seq<char>) -> Seq<u8> {
    encode_utf8(HEAD@) + description(linear) + encode_utf8(TAIL@)
}

fn headroom_description(linear: &str) -> (v: Vec<u8>)
    ensures
        v@ == description(linear@),
{
    let version = decimal_text(HDR_GAIN_MAP_VERSION as u64);
    let mut v: Vec<u8> = Vec::new();
    push_all(&mut v, OPEN.as_bytes());
    push_all(&mut v, HDR_GAIN_MAP_NS.as_bytes());
    push_all(&mut v, VERSION.as_bytes());
    push_all(&mut v, version.as_str().as_bytes());
    push_all(&mut v, HEADROOM.as_bytes());
    push_all(&mut v, linear.as_bytes());
    push_all(&mut v, CLOSE.as_bytes());
    assert(v@ =~= description(linear@));
    v
}

/// Builds an XMP packet carrying `HDRGainMapHeadroom`, the linear headroom in decimal.
///
/// Emitted with the conventional `xpacket` wrapper and the standard
/// `W5M0MpCehiHzreSzNTczkc9d` id, which is what every XMP toolkit scans for.
pub fn headroom_packet(linear: &str) -> (v: Vec<u8>)
    ensures
        v@ == packet(linear@),
{
    let d = headroom_description(linear);
    let mut v: Vec<u8> = Vec::new();
    push_all(&mut v, HEAD.as_bytes());
    push_all(&mut v, d.as_slice());
    push_all(&mut v, TAIL.as_bytes());
    assert(v@ =~= packet(linear@));
    v
}

/// The last place before `n` at which `s` has `p`.
pub open spec fn last_match(s: Seq<u8>, p: Seq<u8>, n: int) -> Option<int>
    decreases n,
{
    if n <= 0 {
        None
    } else if matches_at(s, n - 1, p) {
        Some(n - 1)
    } else {
        last_match(s, p, n - 1)
    }
}

/// Where a packet's list of descriptions ends: at its last closing tag, since a
/// packet with nested RDF would otherwise get a description inserted into an inner
/// element rather than the document's own.
pub open spec fn insertion_point(source: Seq<u8>) -> Option<int> {
    last_match(source, encode_utf8(RDF_CLOSE@), source.len() as int)
}

/// A packet with a headroom grafted onto it.
pub open spec fn merged(source: Seq<u8>, linear: Seq<char>) -> Option<Seq<u8>> {
    match insertion_point(source) {
        Some(at) => Some(source.take(at) + description(linear) + source.skip(at)),
        None => None,
    }
}

/// Grafts the headroom onto a source's own XMP packet, keeping everything the source
/// said.
///
/// Textual, not parse-and-reserialise: the packet is the photographer's (keywords,
/// IPTC rights, develop history) and a round trip through any partial XMP model drops
/// whatever it does not cover. Inserting one `rdf:Description` before `</rdf:RDF>`
/// leaves every other byte in place, and is well-formed by construction since
/// `rdf:RDF` may hold any number of descriptions.
///
/// An existing `HDRGainMapHeadroom` is appended after, not replaced -- in RDF a later
/// property of the same subject wins, so this states the output's number without
/// editing bytes we did not write.
///
/// `None` when there is no `</rdf:RDF>` to insert before; fall back to
/// [`headroom_packet`] rather than shipping something malformed.
pub fn merge_headroom_into(source: &[u8], linear: &str) -> (r: Option<Vec<u8>>)
    ensures
        match r {
            Some(v) => merged(source@, linear@) == Some(v@),
            None => merged(source@, linear@) is None,
        },
{
    let close = RDF_CLOSE.as_bytes();
    let mut n: usize = source.len();
    while n > 0
        invariant
            n <= source@.len(),
            close@ == encode_utf8(RDF_CLOSE@),
            last_match(source@, close@, source@.len() as int) == last_match(
                source@,
                close@,
                n as int,
            ),
        decreases n,
    {
        if has_at(source, n - 1, close) {
            let d = headroom_description(linear);
            let mut v: Vec<u8> = Vec::new();
            push_all(&mut v, span(source, 0, n - 1));
            push_all(&mut v, d.as_slice());
            push_all(&mut v, span(source, n - 1, source.len()));
            assert(v@ =~= source@.take(n - 1) + description(linear@) + source@.skip(n - 1));
            return Some(v);
        }
        n = n - 1;
    }
    None
}

/// No match above a place means the search may start at that place.
proof fn lemma_last_match(s: Seq<u8>, p: Seq<u8>, at: int, n: int)
    requires
        0 <= at < n,
        matches_at(s, at, p),
        forall|i: int| at < i < n ==> !matches_at(s, i, p),
    ensures
        last_match(s, p, n) == Some(at),
    decreases n,
{
    if at < n - 1 {
        assert(!matches_at(s, n - 1, p));
        lemma_last_match(s, p, at, n - 1);
    }
}

/// Where the last match is, and that there is none behind it.
proof fn lemma_last_match_is_last(s: Seq<u8>, p: Seq<u8>, n: int)
    ensures
        last_match(s, p, n) matches Some(at) ==> 0 <= at < n && matches_at(s, at, p) && forall|
            i: int,
        |
            at < i < n ==> !matches_at(s, i, p),
        last_match(s, p, n) is None ==> forall|i: int| 0 <= i < n ==> !matches_at(s, i, p),
    decreases n,
{
    if n > 0 && !matches_at(s, n - 1, p) {
        lemma_last_match_is_last(s, p, n - 1);
    }
}

/// A merged packet can be merged into again, and the next description lands behind
/// the one just added: nothing of the source moves relative to its closing tag.
pub proof fn a_merged_packet_merges_again(source: Seq<u8>, linear: Seq<char>)
    requires
        merged(source, linear) is Some,
    ensures
        insertion_point(merged(source, linear)->Some_0) == Some(
            insertion_point(source)->Some_0 + description(linear).len(),
        ),
{
    let p = encode_utf8(RDF_CLOSE@);
    let at = insertion_point(source)->Some_0;
    let d = description(linear);
    let out = merged(source, linear)->Some_0;
    let k = d.len() as int;
    lemma_last_match_is_last(source, p, source.len() as int);
    assert forall|i: int| at <= i < source.len() implies matches_at(out, i + k, p) == matches_at(
        source,
        i,
        p,
    ) by {
        if i + p.len() <= source.len() {
            assert(out.subrange(i + k, i + k + p.len()) =~= source.subrange(i, i + p.len()));
        }
    }
    assert(matches_at(source, at, p));
    assert(matches_at(out, at + k, p));
    assert forall|i: int| at + k < i < out.len() implies !matches_at(out, i, p) by {
        assert(!matches_at(source, i - k, p));
        assert(matches_at(out, (i - k) + k, p) == matches_at(source, i - k, p));
    }
    lemma_last_match(out, p, at + k, out.len() as int);
}

/// What a packet and a description say, letter by letter: Apple's namespace, version 131072,
/// and the headroom as the value of `HDRGainMapHeadroom`.
pub proof fn a_packet_states_its_headroom(linear: Seq<char>)
    ensures
        description(linear) == encode_utf8(
            "  <rdf:Description rdf:about=\"\"\n    xmlns:HDRGainMap=\""@,
        ) + encode_utf8("http://ns.apple.com/HDRGainMap/1.0/"@) + encode_utf8(
            "\"\n    HDRGainMap:HDRGainMapVersion=\""@,
        ) + encode_utf8(decimal(131072)) + encode_utf8(
            "\"\n    HDRGainMap:HDRGainMapHeadroom=\""@,
        ) + encode_utf8(linear) + encode_utf8("\"/>\n"@),
        packet(linear) == encode_utf8(
            "<?xpacket begin=\"\" id=\"W5M0MpCehiHzreSzNTczkc9d\"?>\n<x:xmpmeta xmlns:x=\"adobe:ns:meta/\">\n <rdf:RDF xmlns:rdf=\"http://www.w3.org/1999/02/22-rdf-syntax-ns#\">\n"@,
        ) + description(linear) + encode_utf8(
            " </rdf:RDF>\n</x:xmpmeta>\n<?xpacket end=\"w\"?>"@,
        ),
{
}

/// A packet that a headroom is merged into keeps every byte of the source, in order, and has
/// the description right before the source's last `</rdf:RDF>`. Only a source without one is
/// not merged into.
pub proof fn merging_keeps_the_source(source: Seq<u8>, linear: Seq<char>)
    ensures
        match merged(source, linear) {
            Some(v) => exists|at: int|
                0 <= at <= source.len() && #[trigger] v.take(at) == source.take(at)
                    && v.len() == source.len() + description(linear).len() && v.subrange(
                    at,
                    at + description(linear).len(),
                ) == description(linear) && v.skip(at + description(linear).len())
                    == source.skip(at) && matches_at(source, at, encode_utf8("</rdf:RDF>"@))
                    && forall|i: int|
                    at < i < source.len() ==> !matches_at(
                        source,
                        i,
                        encode_utf8("</rdf:RDF>"@),
                    ),
            None => forall|i: int|
                0 <= i < source.len() ==> !matches_at(source, i, encode_utf8("</rdf:RDF>"@)),
        },
{
    lemma_last_match_is_last(source, encode_utf8(RDF_CLOSE@), source.len() as int);
    if let Some(v) = merged(source, linear) {
        let at = insertion_point(source)->Some_0;
        let d = description(linear);
        assert(v.take(at) =~= source.take(at));
        assert(v.subrange(at, at + d.len()) =~= d);
        assert(v.skip(at + d.len()) =~= source.skip(at));
    }
}

} // verus!
