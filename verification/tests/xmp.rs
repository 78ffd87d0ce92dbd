use tohdr::xmp::{
    headroom_packet, merge_headroom_into, HDR_GAIN_MAP_NS, HDR_GAIN_MAP_VERSION,
};

/// Headroom in stops as the linear number a packet states. The library is handed this
/// text: the exponentiation is floating point and belongs to its caller, for whom this
/// stands in.
fn linear(stops: f32) -> String {
    format!("{:.6}", stops.exp2())
}

fn packet_str(stops: f32) -> String {
    String::from_utf8(headroom_packet(&linear(stops))).expect("utf-8")
}

/// Pull the emitted headroom back out as a number. Asserting on the exact
/// decimal string would make these tests fail on a last-digit rounding
/// difference that no consumer cares about.
fn emitted_headroom(stops: f32) -> f64 {
    let s = packet_str(stops);
    let key = "HDRGainMap:HDRGainMapHeadroom=\"";
    let start = s.find(key).expect("headroom attribute present") + key.len();
    let rest = &s[start..];
    let end = rest.find('"').expect("closing quote");
    rest[..end].parse().expect("a number")
}

/// The real numbers from the reference capture: 2.287109 stops alongside an XMP
/// headroom of 4.880772. This lands on 4.880770: f32 `exp2` rounding, 2e-6
/// away.
#[test]
fn reproduces_the_iphone_headroom() {
    let got = emitted_headroom(2.287109);
    assert!(
        (got - 4.880772).abs() < 1e-3,
        "expected ~4.880772 (what the reference capture carries), got {got}"
    );
}

/// Guards the unit mistake this module's docs warn about.
#[test]
fn headroom_is_linear_not_stops() {
    let got = emitted_headroom(3.0);
    assert!((got - 8.0).abs() < 1e-6, "3 stops must emit 8x, got {got}");
}

#[test]
fn zero_stops_is_unity() {
    assert!((emitted_headroom(0.0) - 1.0).abs() < 1e-6);
}

/// exiftool renders the packed version as 0.2.0.0, matching the reference capture.
#[test]
fn version_matches_what_apple_writes() {
    assert_eq!(HDR_GAIN_MAP_VERSION, 0x0002_0000);
    assert!(packet_str(1.0).contains(r#"HDRGainMapVersion="131072""#));
}

/// A Lightroom-shaped packet: the properties a photographer typed, which are
/// the whole reason merging beats replacing.
const LIGHTROOM_XMP: &str = r#"<?xpacket begin="" id="W5M0MpCehiHzreSzNTczkc9d"?>
<x:xmpmeta xmlns:x="adobe:ns:meta/" x:xmptk="Adobe XMP Core 9.1">
 <rdf:RDF xmlns:rdf="http://www.w3.org/1999/02/22-rdf-syntax-ns#">
  <rdf:Description rdf:about=""
xmlns:dc="http://purl.org/dc/elements/1.1/"
xmlns:xmp="http://ns.adobe.com/xap/1.0/"
xmp:Rating="4">
   <dc:subject><rdf:Bag><rdf:li>sunset</rdf:li></rdf:Bag></dc:subject>
   <dc:creator><rdf:Seq><rdf:li>A Photographer</rdf:li></rdf:Seq></dc:creator>
  </rdf:Description>
 </rdf:RDF>
</x:xmpmeta>
<?xpacket end="w"?>"#;

#[test]
fn merging_keeps_every_property_the_source_stated() {
    let merged = merge_headroom_into(LIGHTROOM_XMP.as_bytes(), &linear(2.287109)).expect("mergeable");
    let s = String::from_utf8(merged).unwrap();
    for kept in [
        "xmp:Rating=\"4\"",
        "<rdf:li>sunset</rdf:li>",
        "<rdf:li>A Photographer</rdf:li>",
        "x:xmptk=\"Adobe XMP Core 9.1\"",
    ] {
        assert!(s.contains(kept), "lost {kept}");
    }
    assert!(s.contains("HDRGainMap:HDRGainMapHeadroom="));
    // Still one document with one RDF element and our description inside it.
    assert_eq!(s.matches("<rdf:RDF").count(), 1);
    assert_eq!(s.matches("</rdf:RDF>").count(), 1);
    assert!(
        s.find("HDRGainMap:HDRGainMapHeadroom=").unwrap() < s.find("</rdf:RDF>").unwrap(),
        "the headroom description must land inside rdf:RDF"
    );
    assert_eq!(s.matches("<rdf:Description").count(), 2);
}

/// The merged packet must still carry a readable headroom, in linear units —
/// the same property the standalone packet is tested for.
#[test]
fn the_merged_headroom_is_still_linear() {
    let merged = merge_headroom_into(LIGHTROOM_XMP.as_bytes(), &linear(3.0)).unwrap();
    let s = String::from_utf8(merged).unwrap();
    let key = "HDRGainMap:HDRGainMapHeadroom=\"";
    let start = s.find(key).unwrap() + key.len();
    let v: f64 = s[start..][..s[start..].find('"').unwrap()].parse().unwrap();
    assert!((v - 8.0).abs() < 1e-6, "3 stops must merge in as 8x, got {v}");
}

/// Not-XMP in must not produce almost-XMP out; the caller falls back.
#[test]
fn something_that_is_not_a_packet_is_refused() {
    assert!(merge_headroom_into(b"", &linear(1.0)).is_none());
    assert!(merge_headroom_into(b"\x89PNG\r\n\x1a\n", &linear(1.0)).is_none());
    assert!(merge_headroom_into(b"<x:xmpmeta></x:xmpmeta>", &linear(1.0)).is_none());
}

/// Our own packet is mergeable too, so merging twice cannot corrupt it —
/// which is what a second conversion of an already-converted file does.
#[test]
fn merging_is_idempotent_in_shape() {
    let once = merge_headroom_into(&headroom_packet(&linear(2.0)), &linear(2.0)).unwrap();
    let twice = merge_headroom_into(&once, &linear(2.0)).unwrap();
    let s = String::from_utf8(twice).unwrap();
    assert_eq!(s.matches("</rdf:RDF>").count(), 1);
    assert_eq!(s.matches("<rdf:Description").count(), 3);
}

#[test]
fn packet_is_well_formed_enough_to_be_scanned() {
    let s = packet_str(2.0);
    assert!(s.starts_with("<?xpacket begin="));
    assert!(s.ends_with("<?xpacket end=\"w\"?>"));
    assert!(s.contains("W5M0MpCehiHzreSzNTczkc9d"));
    assert!(s.contains(HDR_GAIN_MAP_NS));
    // Balanced tags, crudely: every element we open, we close.
    for tag in ["x:xmpmeta", "rdf:RDF"] {
        assert_eq!(s.matches(&format!("<{tag}")).count(), 1, "{tag} opened once");
        assert_eq!(s.matches(&format!("</{tag}>")).count(), 1, "{tag} closed");
    }
}
