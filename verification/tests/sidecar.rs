use tohdr::encode::Flavor;
use tohdr::heif::write::{mux, MuxRequest};
use tohdr::heif::{Chroma, CodedImage};
use tohdr::meta::GainMapMeta;
use tohdr::opaque::OpaqueItem;
use tohdr::orient::heif_transform;
use tohdr::portable::sidecar::{read_bytes, Sidecar};

#[test]
fn nothing_in_nothing_out() {
    assert!(read_bytes(b"").is_empty());
    assert!(read_bytes(b"not an image at all").is_empty());
    assert!(read_bytes(&[0xff, 0xd8, 0xff, 0xd9]).is_empty());
}

#[test]
fn a_jpeg_xmp_segment_is_found_past_its_namespace_id() {
    let packet = b"<x:xmpmeta>keywords</x:xmpmeta>";
    let mut seg = b"http://ns.adobe.com/xap/1.0/\0".to_vec();
    seg.extend_from_slice(packet);
    let jpeg = jpeg_with_app1(&[b"Exif\0\0somewhere-else".to_vec(), seg]);
    let got = read_bytes(&jpeg);
    assert_eq!(got.xmp.as_deref(), Some(&packet[..]));
    assert!(got.items.is_empty());
}

/// A JPEG with the given `APP1` payloads, then an empty scan.
fn jpeg_with_app1(payloads: &[Vec<u8>]) -> Vec<u8> {
    let mut out = vec![0xff, 0xd8];
    for p in payloads {
        out.extend_from_slice(&[0xff, 0xe1]);
        out.extend_from_slice(&((p.len() + 2) as u16).to_be_bytes());
        out.extend_from_slice(p);
    }
    out.extend_from_slice(&[0xff, 0xda, 0x00, 0x02, 0xff, 0xd9]);
    out
}

#[test]
fn an_item_bytes_count_covers_both_halves() {
    let s = Sidecar {
        xmp: Some(vec![0; 10]),
        items: vec![OpaqueItem {
            item_type: *b"uri ",
            name: "metadata".into(),
            content_type: None,
            uri_type: None,
            hidden: true,
            data: vec![0; 32],
        }],
    };
    assert_eq!(s.bytes(), 42);
    assert!(!s.is_empty());
}

/// Items that describe the primary image come back; the images and the Exif block do not.
#[test]
fn a_heif_sources_packet_and_items_come_back() {
    let image = |w: u32| CodedImage {
        width: w,
        height: 4,
        bit_depth: 8,
        chroma: Chroma::Yuv420,
        hvcc: vec![0; 23],
        data: vec![9; 5],
    };
    let item = OpaqueItem {
        item_type: *b"uri ",
        name: "metadata".into(),
        content_type: None,
        uri_type: Some("tag:example,2023:styles".into()),
        hidden: true,
        data: vec![7; 32],
    };
    let file = mux(&MuxRequest {
        base: image(8),
        gain: image(4),
        meta: GainMapMeta::default(),
        flavor: Flavor::Both,
        base_colour: None,
        tmap_colour: None,
        exif: Some(b"II\x2a\0\x08\0\0\0\0\0\0\0\0\0".to_vec()),
        xmp: Some(b"<x:xmpmeta/>".to_vec()),
        extra_items: vec![item.clone()],
        clli: None,
        orientation: heif_transform(1),
    })
    .unwrap();
    let got = read_bytes(&file);
    assert_eq!(got.xmp.as_deref(), Some(&b"<x:xmpmeta/>"[..]));
    assert_eq!(got.items, vec![item]);
    assert_eq!(got.bytes(), 12 + 32);
}

#[test]
fn a_tiffs_packet_is_the_one_of_its_first_ifd() {
    let mut t = b"MM\0\x2a\0\0\0\x08".to_vec();
    t.extend_from_slice(&1u16.to_be_bytes());
    t.extend_from_slice(&700u16.to_be_bytes());
    t.extend_from_slice(&7u16.to_be_bytes());
    t.extend_from_slice(&6u32.to_be_bytes());
    t.extend_from_slice(&26u32.to_be_bytes());
    t.extend_from_slice(&0u32.to_be_bytes());
    t.extend_from_slice(b"<xmp/>");
    assert_eq!(read_bytes(&t).xmp.as_deref(), Some(&b"<xmp/>"[..]));
    assert!(Sidecar::default().is_empty());
}
