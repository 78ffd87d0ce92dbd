use tohdr::jpeg::{
    app13_iptc_payload, app1_payload, wrap_in_jpeg, xmp_payload, MAX_BLOCK,
};

#[test]
fn wrap_then_read_returns_the_block() {
    let block = b"MM\0\x2a\0\0\0\x08\0\0\0\0".to_vec();
    let jpeg = wrap_in_jpeg(&block).expect("fits");
    assert_eq!(app1_payload(&jpeg), Some(&block[..]));
}

/// The carrier has to stay a valid JPEG, or ImageIO finds no image in it and
/// returns no properties — the whole point of the wrapper.
#[test]
fn the_carrier_keeps_its_markers() {
    let jpeg = wrap_in_jpeg(b"MM\0\x2a\0\0\0\x08").unwrap();
    assert_eq!(&jpeg[0..2], &[0xff, 0xd8], "SOI");
    assert_eq!(&jpeg[jpeg.len() - 2..], &[0xff, 0xd9], "EOI");
    // Every byte of the original carrier is still present, in order.
    assert!(jpeg.windows(4).any(|w| w == [0xff, 0xc0, 0x00, 0x0b]), "SOF0");
    assert!(jpeg.windows(2).any(|w| w == [0xff, 0xda]), "SOS");
}

#[test]
fn oversize_and_empty_blocks_are_refused() {
    assert!(wrap_in_jpeg(b"").is_none());
    assert!(wrap_in_jpeg(&vec![0u8; MAX_BLOCK]).is_some());
    assert!(wrap_in_jpeg(&vec![0u8; MAX_BLOCK + 1]).is_none());
}

/// The smallest JPEG there is: a baseline frame of one block, and no `APP1`.
fn smallest_jpeg() -> Vec<u8> {
    let carrier = wrap_in_jpeg(b"x").unwrap();
    let mut out = carrier[0..2].to_vec();
    out.extend_from_slice(&carrier[2 + 4 + 6 + 1..]);
    out
}

#[test]
fn a_jpeg_without_exif_yields_none() {
    assert_eq!(app1_payload(&smallest_jpeg()), None);
    assert_eq!(app1_payload(b""), None);
    assert_eq!(app1_payload(b"MM\0\x2a"), None);
}

/// An `APP1` that is XMP, not Exif, must not be mistaken for one.
#[test]
fn xmp_app1_is_not_exif() {
    let mut j = vec![0xff, 0xd8, 0xff, 0xe1];
    let id = b"http://ns.adobe.com/xap/1.0/\0";
    j.extend_from_slice(&((2 + id.len()) as u16).to_be_bytes());
    j.extend_from_slice(id);
    j.extend_from_slice(&[0xff, 0xda, 0x00, 0x02]);
    assert_eq!(app1_payload(&j), None);
}

#[test]
fn every_length_of_block_comes_back() {
    for n in [1usize, 2, 255, 4096, MAX_BLOCK] {
        let block: Vec<u8> = (0..n).map(|i| (i * 7 + 1) as u8).collect();
        let jpeg = wrap_in_jpeg(&block).expect("fits");
        assert_eq!(app1_payload(&jpeg), Some(&block[..]), "{n} bytes");
    }
}

#[test]
fn an_iptc_block_is_found_in_its_photoshop_resource() {
    let mut res = b"Photoshop 3.0\0".to_vec();
    // A resource that is not IPTC, of odd length, then the one that is.
    res.extend_from_slice(b"8BIM");
    res.extend_from_slice(&0x0425u16.to_be_bytes());
    res.extend_from_slice(&[0, 0]);
    res.extend_from_slice(&3u32.to_be_bytes());
    res.extend_from_slice(&[1, 2, 3, 0]);
    res.extend_from_slice(b"8BIM");
    res.extend_from_slice(&0x0404u16.to_be_bytes());
    res.extend_from_slice(&[0, 0]);
    res.extend_from_slice(&5u32.to_be_bytes());
    res.extend_from_slice(b"\x1c\x02\x50ab");
    let mut jpeg = vec![0xff, 0xd8, 0xff, 0xed];
    jpeg.extend_from_slice(&((res.len() + 2) as u16).to_be_bytes());
    jpeg.extend_from_slice(&res);
    jpeg.extend_from_slice(&[0xff, 0xda, 0x00, 0x02, 0xff, 0xd9]);
    assert_eq!(app13_iptc_payload(&jpeg), Some(&b"\x1c\x02\x50ab"[..]));
    assert_eq!(app1_payload(&jpeg), None);
    assert_eq!(xmp_payload(&jpeg), None);
}

/// Around the segment stands the same image for every block, without Exif of its own.
#[test]
fn the_carrier_is_the_same_around_every_block() {
    let cut = |j: &[u8], n: usize| [&j[..2], &j[12 + n..]].concat();
    let a = wrap_in_jpeg(b"abc").unwrap();
    let b = wrap_in_jpeg(&[7; 1000]).unwrap();
    assert_eq!(&a[..4], &[0xff, 0xd8, 0xff, 0xe1]);
    assert_eq!(&a[4..6], &11u16.to_be_bytes());
    assert_eq!(&a[6..12], b"Exif\0\0");
    assert_eq!(&a[12..15], b"abc");
    assert_eq!(cut(&a, 3), cut(&b, 1000));
    assert_eq!(app1_payload(&cut(&a, 3)), None);
    assert_eq!(app13_iptc_payload(&a), None);
    assert_eq!(a.len(), 12 + 3 + 330);
}
