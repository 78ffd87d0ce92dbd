use tohdr::binary32::Binary32;
use tohdr::iso21496::parse;
use tohdr::portable::gainmap_tiff::{
    ifd0_xmp, read_bytes, METADATA_PREFIX_LEN, PHOTOMETRIC_GAIN_MAP, TAG_BITS_PER_SAMPLE,
    TAG_COMPRESSION, TAG_GAIN_MAP_METADATA, TAG_IMAGE_LENGTH, TAG_IMAGE_WIDTH, TAG_PHOTOMETRIC,
    TAG_PLANAR_CONFIG, TAG_ROWS_PER_STRIP, TAG_SAMPLES_PER_PIXEL, TAG_STRIP_BYTE_COUNTS,
    TAG_STRIP_OFFSETS, TAG_SUB_IFDS,
};
use tohdr::portable::tiff::{type_size, Tiff};

fn number(v: Binary32) -> f32 {
    f32::from_bits(v.bits)
}

/// The gain-map SubIFD also carries `NewSubfileType = 32`, the other
/// undocumented marker. Detection does not require it.
const TAG_NEW_SUBFILE_TYPE: u16 = 254;

/// The metadata Adobe wrote into a real 16-bit export, as the C.2.2 bytes
/// with the 4-byte prefix already removed.
fn adobe_payload() -> Vec<u8> {
    let mut v = Vec::new();
    v.extend_from_slice(&0u16.to_be_bytes()); // minimum_version
    v.extend_from_slice(&0u16.to_be_bytes()); // writer_version
    v.push(0xC0); // is_multichannel | use_base_colour_space
    v.extend_from_slice(&0u32.to_be_bytes()); // base_hdr_headroom = 0/1
    v.extend_from_slice(&1u32.to_be_bytes());
    v.extend_from_slice(&92442u32.to_be_bytes()); // alt = 92442/32768
    v.extend_from_slice(&32768u32.to_be_bytes());
    for (min_n, max_n, gamma_n) in [
        (-26724i32, 92165u32, 512666191u32),
        (-24229, 86297, 508598752),
        (-74351, 103866, 860361581),
    ] {
        v.extend_from_slice(&min_n.to_be_bytes());
        v.extend_from_slice(&32768u32.to_be_bytes());
        v.extend_from_slice(&max_n.to_be_bytes());
        v.extend_from_slice(&32768u32.to_be_bytes());
        v.extend_from_slice(&gamma_n.to_be_bytes());
        v.extend_from_slice(&(1u32 << 30).to_be_bytes());
        v.extend_from_slice(&1i32.to_be_bytes()); // base_offset 1/64
        v.extend_from_slice(&64u32.to_be_bytes());
        v.extend_from_slice(&1i32.to_be_bytes()); // alt_offset 1/64
        v.extend_from_slice(&64u32.to_be_bytes());
    }
    v
}

/// Builds a little-endian classic TIFF shaped exactly like a Lightroom
/// "HDR Output" export: 16-bit RGB IFD0, plus a tag-330 SubIFD with
/// photometric 52553 and tag 52557.
struct Builder {
    width: u32,
    height: u32,
    base: Vec<u16>,
    gain: Vec<u16>,
    payload: Vec<u8>,
    photometric_sub: u32,
    base_bits: u16,
    compression: u16,
}

impl Builder {
    fn new(width: u32, height: u32) -> Self {
        let n = (width * height * 3) as usize;
        Self {
            width,
            height,
            base: vec![0; n],
            gain: vec![0; n],
            payload: adobe_payload(),
            photometric_sub: PHOTOMETRIC_GAIN_MAP,
            base_bits: 16,
            compression: 1,
        }
    }

    fn build(&self) -> Vec<u8> {
        // Layout, all offsets computed up front because TIFF entries have
        // to point forward at data that does not exist yet:
        //   header | IFD0 | SubIFD | bits triples | prefix+payload | base | gain
        let ifd0_entries = 12u16;
        let sub_entries = 12u16;
        let ifd0_at = 8usize;
        let ifd0_len = 2 + ifd0_entries as usize * 12 + 4;
        let sub_at = ifd0_at + ifd0_len;
        let sub_len = 2 + sub_entries as usize * 12 + 4;
        // BitsPerSample is three SHORTs = 6 bytes, over TIFF's 4-byte
        // inline limit, so real files store it out of line. Match that
        // rather than cheating with count 1.
        let bits0_at = sub_at + sub_len;
        let bits_sub_at = bits0_at + 6;
        let prefix_at = bits_sub_at + 6;
        let payload_at = prefix_at + METADATA_PREFIX_LEN;
        let base_at = payload_at + self.payload.len();
        let base_bytes = self.base.len() * (self.base_bits as usize / 8);
        let gain_at = base_at + base_bytes;
        let gain_bytes = self.gain.len() * 2;

        let mut ifd0 = Vec::new();
        push_entry(&mut ifd0, TAG_NEW_SUBFILE_TYPE, 4, 1, 0);
        push_entry(&mut ifd0, TAG_IMAGE_WIDTH, 4, 1, self.width);
        push_entry(&mut ifd0, TAG_IMAGE_LENGTH, 4, 1, self.height);
        push_entry(&mut ifd0, TAG_BITS_PER_SAMPLE, 3, 3, bits0_at as u32);
        push_entry(&mut ifd0, TAG_COMPRESSION, 3, 1, self.compression as u32);
        push_entry(&mut ifd0, TAG_PHOTOMETRIC, 3, 1, 2);
        push_entry(&mut ifd0, TAG_STRIP_OFFSETS, 4, 1, base_at as u32);
        push_entry(&mut ifd0, TAG_SAMPLES_PER_PIXEL, 3, 1, 3);
        push_entry(&mut ifd0, TAG_ROWS_PER_STRIP, 4, 1, self.height);
        push_entry(&mut ifd0, TAG_STRIP_BYTE_COUNTS, 4, 1, base_bytes as u32);
        push_entry(&mut ifd0, TAG_PLANAR_CONFIG, 3, 1, 1);
        push_entry(&mut ifd0, TAG_SUB_IFDS, 4, 1, sub_at as u32);
        assert_eq!(ifd0.len(), ifd0_entries as usize * 12);

        let mut sub = Vec::new();
        push_entry(&mut sub, TAG_NEW_SUBFILE_TYPE, 4, 1, 32);
        push_entry(&mut sub, TAG_IMAGE_WIDTH, 4, 1, self.width);
        push_entry(&mut sub, TAG_IMAGE_LENGTH, 4, 1, self.height);
        push_entry(&mut sub, TAG_BITS_PER_SAMPLE, 3, 3, bits_sub_at as u32);
        push_entry(&mut sub, TAG_COMPRESSION, 3, 1, 1);
        push_entry(&mut sub, TAG_PHOTOMETRIC, 3, 1, self.photometric_sub);
        push_entry(&mut sub, TAG_STRIP_OFFSETS, 4, 1, gain_at as u32);
        push_entry(&mut sub, TAG_SAMPLES_PER_PIXEL, 3, 1, 3);
        push_entry(&mut sub, TAG_ROWS_PER_STRIP, 4, 1, self.height);
        push_entry(&mut sub, TAG_STRIP_BYTE_COUNTS, 4, 1, gain_bytes as u32);
        push_entry(&mut sub, TAG_PLANAR_CONFIG, 3, 1, 1);
        assert_eq!(sub.len(), (sub_entries as usize - 1) * 12);
        // The metadata tag last, so its 145-byte count and out-of-line
        // offset are easy to see next to the payload it points at.
        push_entry(
            &mut sub,
            TAG_GAIN_MAP_METADATA,
            7,
            (METADATA_PREFIX_LEN + self.payload.len()) as u32,
            prefix_at as u32,
        );

        let mut out = Vec::new();
        out.extend_from_slice(b"II");
        out.extend_from_slice(&42u16.to_le_bytes());
        out.extend_from_slice(&(ifd0_at as u32).to_le_bytes());
        out.extend_from_slice(&ifd0_entries.to_le_bytes());
        out.extend_from_slice(&ifd0);
        out.extend_from_slice(&0u32.to_le_bytes()); // no next IFD
        assert_eq!(out.len(), sub_at);
        out.extend_from_slice(&sub_entries.to_le_bytes());
        out.extend_from_slice(&sub);
        out.extend_from_slice(&0u32.to_le_bytes());
        assert_eq!(out.len(), bits0_at);
        for _ in 0..3 {
            out.extend_from_slice(&self.base_bits.to_le_bytes());
        }
        for _ in 0..3 {
            out.extend_from_slice(&16u16.to_le_bytes());
        }
        assert_eq!(out.len(), prefix_at);
        out.extend_from_slice(&[0u8; METADATA_PREFIX_LEN]);
        out.extend_from_slice(&self.payload);
        assert_eq!(out.len(), base_at);
        for v in &self.base {
            if self.base_bits == 16 {
                out.extend_from_slice(&v.to_le_bytes());
            } else {
                out.extend_from_slice(&(*v as f32 / 65535.0).to_le_bytes());
            }
        }
        assert_eq!(out.len(), gain_at);
        for v in &self.gain {
            out.extend_from_slice(&v.to_le_bytes());
        }
        out
    }
}

fn push_entry(v: &mut Vec<u8>, tag: u16, typ: u16, count: u32, value: u32) {
    v.extend_from_slice(&tag.to_le_bytes());
    v.extend_from_slice(&typ.to_le_bytes());
    v.extend_from_slice(&count.to_le_bytes());
    // Short inline values sit in the low bytes of the 4-byte field, which
    // is exactly what `to_le_bytes` on the u32 gives for LE files.
    v.extend_from_slice(&value.to_le_bytes());
}

#[test]
fn adobe_payload_parses_to_the_values_read_off_the_real_file() {
    let m = parse(&adobe_payload()).expect("parses");
    assert_eq!(number(m.base_headroom), 0.0);
    assert!((number(m.alt_headroom) - 2.821106).abs() < 1e-5);
    assert!(m.use_base_color_space);
    assert!((number(m.max_log2.r) - 2.812653).abs() < 1e-5);
    assert!((number(m.gamma.b) - 0.801274).abs() < 1e-5);
    for c in [m.base_offset.r, m.base_offset.g, m.base_offset.b] {
        assert!((number(c) - 0.015625).abs() < 1e-6);
    }
}

#[test]
fn plain_tiff_without_the_subifd_is_declined_not_rejected() {
    let mut b = Builder::new(4, 2);
    b.photometric_sub = 2; // an ordinary reduced-resolution page
    let bytes = b.build();
    assert!(read_bytes(&bytes).expect("no error").is_none());
}

#[test]
fn non_tiff_bytes_are_declined() {
    assert!(read_bytes(b"\x89PNG\r\n\x1a\n and then some").unwrap().is_none());
    assert!(read_bytes(b"").unwrap().is_none());
}

#[test]
fn detects_the_gain_map_and_keeps_adobes_declaration() {
    let g = read_bytes(&Builder::new(8, 4).build())
        .expect("reads")
        .expect("is a gain-map TIFF");
    assert_eq!((g.base.width, g.base.height), (8, 4));
    assert_eq!(g.base.bits, 8);
    assert_eq!(g.base_codes.len(), g.base.expected_len());
    assert_eq!(g.gain_codes.len(), g.base.expected_len());
    assert!((number(g.declared.alt_headroom) - 2.821106).abs() < 1e-5);
}

#[test]
fn base_narrows_to_eight_bits_by_rounding() {
    let mut b = Builder::new(4, 1);
    // 0, just under half a code, just over, and full scale.
    b.base = vec![0; 12];
    b.base[0] = 0;
    b.base[1] = 128; // 128*255/65535 = 0.498 -> 0
    b.base[2] = 129; // 0.502 -> 1
    b.base[3] = 65535; // -> 255
    let g = read_bytes(&b.build()).unwrap().unwrap();
    assert_eq!(g.base.data[0], 0);
    assert_eq!(g.base.data[1], 0);
    assert_eq!(g.base.data[2], 1);
    assert_eq!(g.base.data[3], 255);
}

#[test]
fn the_float_variant_is_rejected_with_advice() {
    // Swap the headrooms, as the 32-bit export does.
    let mut payload = adobe_payload();
    payload[5..9].copy_from_slice(&92442u32.to_be_bytes());
    payload[9..13].copy_from_slice(&32768u32.to_be_bytes());
    payload[13..17].copy_from_slice(&0u32.to_be_bytes());
    payload[17..21].copy_from_slice(&1u32.to_be_bytes());
    let mut b = Builder::new(4, 2);
    b.payload = payload;
    let err = read_bytes(&b.build()).expect_err("must reject");
    let msg = err.message();
    assert!(msg.contains("Bit Depth 16"), "{msg}");
    assert!(msg.contains("32-bit float"), "{msg}");
}

#[test]
fn compressed_strips_are_rejected_with_advice() {
    let mut b = Builder::new(4, 2);
    b.compression = 5; // LZW
    let err = read_bytes(&b.build()).expect_err("must reject");
    assert!(err.message().contains("Compression: None"), "{err:?}");
}

#[test]
fn truncated_pixel_data_is_an_error_not_a_panic() {
    let bytes = Builder::new(8, 8).build();
    let cut = &bytes[..bytes.len() - 64];
    let err = read_bytes(cut).expect_err("must reject");
    assert!(err.message().contains("past the"), "{err:?}");
}

#[test]
fn big_endian_files_read_identically() {
    // Same content, both byte orders, must reconstruct to the same pixels.
    let mut b = Builder::new(4, 2);
    b.base = (0..24).map(|i| (i * 2500) as u16).collect();
    b.gain = (0..24).map(|i| (65535 - i * 2000) as u16).collect();
    let le = read_bytes(&b.build()).unwrap().unwrap();
    let be = read_bytes(&to_big_endian(&b.build())).unwrap().unwrap();
    assert_eq!(le.base_codes, be.base_codes);
    assert_eq!(le.gain_codes, be.gain_codes);
    assert_eq!(le.base.data, be.base.data);
}

/// Byte-swaps a TIFF built by [`Builder`]: header, every IFD entry's
/// fixed fields and inline value, and the 16-bit pixel data. Only correct
/// for the specific shapes `Builder` emits, which is all it is used for.
fn to_big_endian(le: &[u8]) -> Vec<u8> {
    let mut out = le.to_vec();
    out[0..2].copy_from_slice(b"MM");
    out[2..4].copy_from_slice(&42u16.to_be_bytes());
    let first = u32::from_le_bytes([le[4], le[5], le[6], le[7]]);
    out[4..8].copy_from_slice(&first.to_be_bytes());

    let swap_ifd = |at: usize, out: &mut Vec<u8>| -> usize {
        let n = u16::from_le_bytes([le[at], le[at + 1]]);
        out[at..at + 2].copy_from_slice(&n.to_be_bytes());
        for i in 0..n as usize {
            let e = at + 2 + i * 12;
            let tag = u16::from_le_bytes([le[e], le[e + 1]]);
            let typ = u16::from_le_bytes([le[e + 2], le[e + 3]]);
            let count = u32::from_le_bytes([le[e + 4], le[e + 5], le[e + 6], le[e + 7]]);
            let val = u32::from_le_bytes([le[e + 8], le[e + 9], le[e + 10], le[e + 11]]);
            out[e..e + 2].copy_from_slice(&tag.to_be_bytes());
            out[e + 2..e + 4].copy_from_slice(&typ.to_be_bytes());
            out[e + 4..e + 8].copy_from_slice(&count.to_be_bytes());
            // An inline SHORT sits in the *high* half of the field when
            // big-endian, so re-encode by width rather than as a u32.
            let inline = type_size(typ) * count as usize <= 4;
            if inline && typ == 3 {
                let v = (val & 0xffff) as u16;
                out[e + 8..e + 10].copy_from_slice(&v.to_be_bytes());
                out[e + 10..e + 12].copy_from_slice(&0u16.to_be_bytes());
            } else {
                out[e + 8..e + 12].copy_from_slice(&val.to_be_bytes());
            }
            // Out-of-line SHORT arrays — BitsPerSample's triple — need
            // their elements swapped too. Missing this made the reader see
            // 16 as 4096 and report a plausible-looking bounds error, so
            // it is worth being explicit rather than special-casing the
            // one tag.
            if !inline && typ == 3 {
                for k in 0..count as usize {
                    let at = val as usize + k * 2;
                    let v = u16::from_le_bytes([le[at], le[at + 1]]);
                    out[at..at + 2].copy_from_slice(&v.to_be_bytes());
                }
            }
        }
        let next = at + 2 + n as usize * 12;
        let nx = u32::from_le_bytes([le[next], le[next + 1], le[next + 2], le[next + 3]]);
        out[next..next + 4].copy_from_slice(&nx.to_be_bytes());
        next + 4
    };
    let after0 = swap_ifd(8, &mut out);
    swap_ifd(after0, &mut out);

    // Pixel data: everything from the base strip onward is 16-bit samples.
    let tiff = Tiff::open(le).unwrap();
    let ifd0 = tiff.read_ifd(tiff.first_ifd).unwrap();
    let base_at = tiff
        .integers(&ifd0.get(TAG_STRIP_OFFSETS).unwrap())
        .unwrap()[0] as usize;
    let mut i = base_at;
    while i + 1 < out.len() {
        out.swap(i, i + 1);
        i += 2;
    }
    out
}

/// The headrooms are told with four places, ties to even.
#[test]
fn the_float_variant_is_told_its_headrooms() {
    let mut b = Builder::new(2, 2);
    // The two headrooms are the first fractions of the payload: 1/32 and 3/2 stops.
    for (at, v) in [(5, 1u32), (9, 32), (13, 3), (17, 2)] {
        b.payload[at..at + 4].copy_from_slice(&v.to_be_bytes());
    }
    let text = said(&b.build());
    assert!(
        text.starts_with(
            "unsupported input: this is the 32-bit float variant of Lightroom's HDR TIFF: it declares \
             base_hdr_headroom = 0.0312 stops and alternate_hdr_headroom = 1.5000, i.e. IFD0 carries"
        ),
        "{text}"
    );
}

#[test]
fn the_samples_of_both_planes_are_handed_on() {
    let mut b = Builder::new(3, 2);
    b.base = (0..18).map(|i| (i * 3001) as u16).collect();
    b.gain = (0..18).map(|i| (60000 - i * 2500) as u16).collect();
    let g = read_bytes(&b.build()).unwrap().unwrap();
    assert_eq!(g.base_codes, b.base);
    assert_eq!(g.gain_codes, b.gain);
    assert_eq!(g.primaries, None);
    let want: Vec<u16> = b.base.iter().map(|v| ((*v as u32 * 255 + 32767) / 65535) as u16).collect();
    assert_eq!(g.base.data, want);
}

/// Sets a value in the entry of a tag, in the IFD at `at`.
fn patch(bytes: &mut [u8], at: usize, tag: u16, value: u32) {
    let n = u16::from_le_bytes([bytes[at], bytes[at + 1]]) as usize;
    for i in 0..n {
        let e = at + 2 + 12 * i;
        if u16::from_le_bytes([bytes[e], bytes[e + 1]]) == tag {
            bytes[e + 8..e + 12].copy_from_slice(&value.to_le_bytes());
            return;
        }
    }
    panic!("no tag {tag}");
}

/// Takes a tag out of the IFD at `at` by giving it a number that means nothing.
fn blank(bytes: &mut [u8], at: usize, tag: u16) {
    let n = u16::from_le_bytes([bytes[at], bytes[at + 1]]) as usize;
    for i in 0..n {
        let e = at + 2 + 12 * i;
        if u16::from_le_bytes([bytes[e], bytes[e + 1]]) == tag {
            bytes[e..e + 2].copy_from_slice(&65000u16.to_le_bytes());
        }
    }
}

fn said(bytes: &[u8]) -> String {
    read_bytes(bytes).expect_err("must reject").message()
}

#[test]
fn every_problem_of_a_plane_is_put_into_words() {
    let whole = Builder::new(4, 2).build();
    let sub = 8 + 2 + 12 * 12 + 4;

    let mut b = whole.clone();
    blank(&mut b, 8, TAG_IMAGE_WIDTH);
    assert_eq!(said(&b), "decode: base image: TIFF tag 256 is missing");

    let mut b = whole.clone();
    blank(&mut b, sub, TAG_BITS_PER_SAMPLE);
    assert_eq!(said(&b), "decode: gain map: BitsPerSample is missing");

    let mut b = whole.clone();
    patch(&mut b, 8, TAG_PLANAR_CONFIG, 2);
    assert_eq!(
        said(&b),
        "unsupported input: base image: PlanarConfiguration 2; only chunky (1) is supported"
    );

    let mut b = whole.clone();
    patch(&mut b, 8, TAG_SAMPLES_PER_PIXEL, 4);
    assert_eq!(said(&b), "unsupported input: base image: 4 samples per pixel; expected 3");

    let mut b = whole.clone();
    patch(&mut b, 8, TAG_IMAGE_LENGTH, 0);
    assert_eq!(said(&b), "decode: base image: 4x0 image");

    let mut b = whole.clone();
    blank(&mut b, 8, TAG_STRIP_OFFSETS);
    assert_eq!(said(&b), "decode: base image: StripOffsets is missing");

    let mut b = whole.clone();
    patch(&mut b, 8, TAG_ROWS_PER_STRIP, 1);
    assert_eq!(
        said(&b),
        "decode: base image: 1 strip offsets for 2 rows at 1 rows/strip (expected 2)"
    );

    let mut b = whole.clone();
    patch(&mut b, 8, TAG_STRIP_BYTE_COUNTS, 25);
    assert_eq!(
        said(&b),
        "decode: base image: strip 0 byte count 25 is not a multiple of the 24-byte row stride"
    );

    // The three depths of the base stand right behind the two IFDs.
    let bits_at = sub + 2 + 12 * 12 + 4;
    let mut b = whole.clone();
    b[bits_at + 2] = 8;
    assert_eq!(
        said(&b),
        "unsupported input: base image: mixed bit depths per sample ([16, 8, 16])"
    );

    let mut b = whole.clone();
    for k in 0..3 {
        b[bits_at + 6 + 2 * k] = 8;
    }
    patch(&mut b, sub, TAG_STRIP_BYTE_COUNTS, 24);
    assert_eq!(
        said(&b),
        "unsupported input: gain map is 8-bit sample format 1, expected 16-bit integer"
    );

    let mut b = whole.clone();
    patch(&mut b, sub, TAG_IMAGE_LENGTH, 1);
    assert_eq!(
        said(&b),
        "unsupported input: gain map is 4x1 against a 4x2 base; only a full-resolution map is supported, which is what LrC 15.4.1 writes"
    );
}

#[test]
fn metadata_that_does_not_parse_shows_its_first_bytes() {
    let mut b = Builder::new(2, 1);
    b.payload[1] = 7;
    let text = said(&b.build());
    assert_eq!(
        text,
        "decode: gain-map metadata tag 52557 did not parse as ISO 21496-1 after the 4-byte prefix: \
         unsupported minimum_version 7. First bytes: 00 00 00 00 00 07 00 00 c0 00 00 00"
    );
    b.payload = Vec::new();
    assert_eq!(
        said(&b.build()),
        "decode: gain-map metadata tag 52557 is 4 bytes, too short to hold a 4-byte prefix plus ISO 21496-1 metadata"
    );
}

/// The XMP packet of a TIFF, without the zeros that pad it.
#[test]
fn a_tiffs_packet_is_read_without_its_padding() {
    let mut t = b"II\x2a\0\x08\0\0\0".to_vec();
    t.extend_from_slice(&1u16.to_le_bytes());
    push_entry(&mut t, 700, 1, 8, 26);
    t.extend_from_slice(&0u32.to_le_bytes());
    t.extend_from_slice(b"<x/>\0\0\0\0");
    assert_eq!(ifd0_xmp(&t).as_deref(), Some(&b"<x/>"[..]));
    let n = t.len();
    for k in n - 8..n {
        t[k] = 0;
    }
    assert_eq!(ifd0_xmp(&t), None);
    assert_eq!(ifd0_xmp(b"nothing"), None);
}
