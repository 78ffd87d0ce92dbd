use tohdr::encode::Flavor;
use tohdr::heif::write::{mux, MuxRequest};
use tohdr::heif::{Chroma, CodedImage};
use tohdr::jpeg::wrap_in_jpeg;
use tohdr::meta::GainMapMeta;
use tohdr::orient::heif_transform;
use tohdr::portable::apple::{
    align_apple_headroom, find_headroom_tags, AppleHeadroom, HeadroomEdit, APPLE_MAKER_IFD_AT,
    APPLE_TAG_GAIN, APPLE_TAG_HEADROOM, PLAIN_DENOMINATOR,
};
use tohdr::portable::exif::{
    maker_note_from_bytes, maker_note_in, maker_note_in_head, read_bytes,
    read_bytes_with_maker_note, HeadAnswer, Located, COMPANION_HEAD, MakerNoteGraft, Origin, APPLE_MAKER_SIG, TAG_EXIF_IFD, TAG_GPS_IFD, TAG_INTEROP_IFD, TAG_IPTC,
    TAG_MAKER_NOTE, TAG_ORIENTATION, TAG_THUMBNAIL_LENGTH, TAG_THUMBNAIL_OFFSET,
};
use tohdr::portable::tiff::{Entry, Tiff};

/// Build a TIFF by hand so the tests state exactly what the reader sees.
struct Build {
    le: bool,
    entries: Vec<(u16, u16, u32, Vec<u8>)>,
    subs: Vec<(u16, Vec<(u16, u16, u32, Vec<u8>)>)>,
    /// `IFD1`'s entries, plus the thumbnail bytes tag 513 must point at.
    ifd1: Option<(Vec<(u16, u16, u32, Vec<u8>)>, Vec<u8>)>,
}

impl Build {
    fn new(le: bool) -> Self {
        Build {
            le,
            entries: Vec::new(),
            subs: Vec::new(),
            ifd1: None,
        }
    }

    fn ascii(mut self, tag: u16, s: &str) -> Self {
        let mut v = s.as_bytes().to_vec();
        v.push(0);
        let n = v.len() as u32;
        self.entries.push((tag, 2, n, v));
        self
    }

    fn short(mut self, tag: u16, v: u16) -> Self {
        let b = if self.le {
            v.to_le_bytes()
        } else {
            v.to_be_bytes()
        };
        self.entries.push((tag, 3, 1, b.to_vec()));
        self
    }

    fn long(mut self, tag: u16, v: u32) -> Self {
        let b = if self.le {
            v.to_le_bytes()
        } else {
            v.to_be_bytes()
        };
        self.entries.push((tag, 4, 1, b.to_vec()));
        self
    }

    fn undefined(mut self, tag: u16, v: &[u8]) -> Self {
        self.entries.push((tag, 7, v.len() as u32, v.to_vec()));
        self
    }

    /// A tag whose type this reader has no size for.
    fn bogus_type(mut self, tag: u16) -> Self {
        self.entries.push((tag, 999, 1, vec![0, 0, 0, 0]));
        self
    }

    fn sub(mut self, ptr_tag: u16, entries: Vec<(u16, u16, u32, Vec<u8>)>) -> Self {
        self.subs.push((ptr_tag, entries));
        self
    }

    fn thumbnail(mut self, jpeg: &[u8]) -> Self {
        self.ifd1 = Some((
            vec![
                (259, 3, 1, vec![6, 0]), // Compression: JPEG
                (513, 4, 1, vec![0, 0, 0, 0]),
                (514, 4, 1, vec![0, 0, 0, 0]),
            ],
            jpeg.to_vec(),
        ));
        self
    }

    fn build(&self) -> Vec<u8> {
        let u16b = |v: u16| {
            if self.le {
                v.to_le_bytes()
            } else {
                v.to_be_bytes()
            }
        };
        let u32b = |v: u32| {
            if self.le {
                v.to_le_bytes()
            } else {
                v.to_be_bytes()
            }
        };

        let n_root = self.entries.len() + self.subs.len();
        let mut at = 8 + 2 + 12 * n_root + 4;
        let mut sub_at = Vec::new();
        for (_, e) in &self.subs {
            sub_at.push(at);
            at += 2 + 12 * e.len() + 4;
        }
        let ifd1_at = self.ifd1.as_ref().map(|(e, _)| {
            let a = at;
            at += 2 + 12 * e.len() + 4;
            a
        });

        // Lay out the out-of-line values after every IFD.
        let mut vals: Vec<u8> = Vec::new();
        let place = |b: &Vec<u8>, at: usize, vals: &mut Vec<u8>| -> [u8; 4] {
            if b.len() <= 4 {
                let mut p = [0u8; 4];
                p[..b.len()].copy_from_slice(b);
                p
            } else {
                let off = at + vals.len();
                vals.extend_from_slice(b);
                if b.len() % 2 == 1 {
                    vals.push(0);
                }
                u32b(off as u32)
            }
        };

        let mut root = Vec::new();
        let mut sorted = self.entries.clone();
        for (i, (ptr, _)) in self.subs.iter().enumerate() {
            sorted.push((*ptr, 4, 1, u32b(sub_at[i] as u32).to_vec()));
        }
        sorted.sort_by_key(|(t, ..)| *t);
        root.extend_from_slice(&u16b(sorted.len() as u16));
        for (tag, typ, count, b) in &sorted {
            root.extend_from_slice(&u16b(*tag));
            root.extend_from_slice(&u16b(*typ));
            root.extend_from_slice(&u32b(*count));
            root.extend_from_slice(&place(b, at, &mut vals));
        }
        root.extend_from_slice(&u32b(ifd1_at.unwrap_or(0) as u32));

        let mut subs_buf = Vec::new();
        for (_, entries) in &self.subs {
            let mut e2 = entries.clone();
            e2.sort_by_key(|(t, ..)| *t);
            subs_buf.extend_from_slice(&u16b(e2.len() as u16));
            for (tag, typ, count, b) in &e2 {
                subs_buf.extend_from_slice(&u16b(*tag));
                subs_buf.extend_from_slice(&u16b(*typ));
                subs_buf.extend_from_slice(&u32b(*count));
                subs_buf.extend_from_slice(&place(b, at, &mut vals));
            }
            subs_buf.extend_from_slice(&u32b(0));
        }

        let mut ifd1_buf = Vec::new();
        if let Some((entries, jpeg)) = &self.ifd1 {
            let thumb_off = at + vals.len();
            vals.extend_from_slice(jpeg);
            if jpeg.len() % 2 == 1 {
                vals.push(0);
            }
            ifd1_buf.extend_from_slice(&u16b(entries.len() as u16));
            for (tag, typ, count, b) in entries {
                ifd1_buf.extend_from_slice(&u16b(*tag));
                ifd1_buf.extend_from_slice(&u16b(*typ));
                ifd1_buf.extend_from_slice(&u32b(*count));
                match *tag {
                    513 => ifd1_buf.extend_from_slice(&u32b(thumb_off as u32)),
                    514 => ifd1_buf.extend_from_slice(&u32b(jpeg.len() as u32)),
                    _ => ifd1_buf.extend_from_slice(&place(b, at, &mut vals)),
                }
            }
            ifd1_buf.extend_from_slice(&u32b(0));
        }

        let mut out = Vec::new();
        out.extend_from_slice(if self.le { b"II" } else { b"MM" });
        out.extend_from_slice(&u16b(42));
        out.extend_from_slice(&u32b(8));
        out.extend_from_slice(&root);
        out.extend_from_slice(&subs_buf);
        out.extend_from_slice(&ifd1_buf);
        out.extend_from_slice(&vals);
        out
    }
}

fn exif_ifd() -> Vec<(u16, u16, u32, Vec<u8>)> {
    vec![
        // DateTimeOriginal, an out-of-line ASCII value.
        (36867, 2, 20, b"2026:06:13 08:29:00\0".to_vec()),
        // ExposureTime, a RATIONAL — two LONGs, byte order matters.
        (33434, 5, 1, vec![1, 0, 0, 0, 100, 0, 0, 0]),
    ]
}

/// Reading back a rebuilt block must find the same tags, which is the
/// property the whole module exists to provide.
#[test]
fn round_trips_through_its_own_reader() {
    let src = Build::new(true)
        .ascii(271, "Apple")
        .ascii(272, "iPhone 17 Pro")
        .short(274, 6)
        .sub(TAG_EXIF_IFD, exif_ifd())
        .build();

    let first = read_bytes(&src).unwrap().expect("source has exif");
    assert_eq!(first.origin, Origin::Tiff);

    // Feed the rebuilt block back in as a JPEG, so the second parse uses a
    // different locate() arm than the first.
    let carrier = wrap_in_jpeg(&first.tiff).expect("fits one APP1");
    let again = read_bytes(&carrier)
        .unwrap()
        .expect("rebuilt block still has exif");
    assert_eq!(again.origin, Origin::Jpeg);
    assert_eq!(again.tag_count, first.tag_count);
    // Idempotent: rebuilding an already-rebuilt block changes nothing.
    assert_eq!(again.tiff, first.tiff);
}

#[test]
fn keeps_make_model_and_the_exif_ifd() {
    let src = Build::new(true)
        .ascii(271, "Apple")
        .ascii(272, "iPhone 17 Pro")
        .sub(TAG_EXIF_IFD, exif_ifd())
        .build();
    let out = read_bytes(&src).unwrap().unwrap();

    let tiff = Tiff::open(&out.tiff).unwrap();
    let ifd0 = tiff.read_ifd(tiff.first_ifd).unwrap();
    let make = tiff.bytes_of(&ifd0.get(271).unwrap()).unwrap();
    assert_eq!(make, b"Apple\0");
    let model = tiff.bytes_of(&ifd0.get(272).unwrap()).unwrap();
    assert_eq!(model, b"iPhone 17 Pro\0");

    let sub_off = tiff.integers(&ifd0.get(TAG_EXIF_IFD).unwrap()).unwrap()[0];
    let sub = tiff.read_ifd(sub_off as usize).unwrap();
    let dto = tiff.bytes_of(&sub.get(36867).unwrap()).unwrap();
    assert_eq!(dto, b"2026:06:13 08:29:00\0");
    // Make, Model, DateTimeOriginal, ExposureTime. The pointer entry is not
    // counted.
    assert_eq!(out.tag_count, 4);
}

/// A RATIONAL is two LONGs, so a byte-order bug shows up here and nowhere
/// else — and emitting in the source's order is what makes it a copy.
#[test]
fn big_endian_rationals_survive() {
    let src = Build::new(false)
        .ascii(271, "Nikon")
        .sub(
            TAG_EXIF_IFD,
            vec![(33434, 5, 1, vec![0, 0, 0, 1, 0, 0, 0, 100])],
        )
        .build();
    let out = read_bytes(&src).unwrap().unwrap();
    assert_eq!(&out.tiff[0..2], b"MM");

    let tiff = Tiff::open(&out.tiff).unwrap();
    let ifd0 = tiff.read_ifd(tiff.first_ifd).unwrap();
    let sub_off = tiff.integers(&ifd0.get(TAG_EXIF_IFD).unwrap()).unwrap()[0];
    let sub = tiff.read_ifd(sub_off as usize).unwrap();
    let rational = tiff.bytes_of(&sub.get(33434).unwrap()).unwrap();
    assert_eq!(rational, &[0, 0, 0, 1, 0, 0, 0, 100]);
}

/// The three classes of [`IFD0_DROP`], one tag each.
#[test]
fn drops_pixel_layout_and_dangling_offsets() {
    let src = Build::new(true)
        .ascii(271, "Apple")
        .short(259, 1) // Compression — pixel layout
        .short(262, 2) // PhotometricInterpretation
        .long(273, 4096) // StripOffsets — a live pointer into nothing
        .short(330, 9) // SubIFDs — the Lightroom gain map
        .undefined(700, b"<x:xmpmeta/>") // XMP — carried as its own item
        .sub(TAG_EXIF_IFD, exif_ifd())
        .build();
    let out = read_bytes(&src).unwrap().unwrap();

    let tiff = Tiff::open(&out.tiff).unwrap();
    let ifd0 = tiff.read_ifd(tiff.first_ifd).unwrap();
    for tag in [259u16, 262, 273, 330, 700] {
        assert!(ifd0.get(tag).is_none(), "tag {tag} should be dropped");
    }
    assert!(ifd0.get(271).is_some(), "Make should survive");
}

/// A tag with no name in this module is carried, which is the whole point of
/// a denylist: the tags we lose should be the ones we chose to lose.
#[test]
fn tags_this_module_has_never_heard_of_are_carried() {
    let src = Build::new(true)
        .ascii(271, "Apple")
        .ascii(42016, "unique-image-id") // ImageUniqueID, never named here
        .undefined(33723, b"iptc-iim-block") // IPTC-NAA
        .short(4242, 7) // and one that is not a real tag at all
        .build();
    let out = read_bytes(&src).unwrap().unwrap();
    let tiff = Tiff::open(&out.tiff).unwrap();
    let ifd0 = tiff.read_ifd(tiff.first_ifd).unwrap();
    assert_eq!(
        tiff.bytes_of(&ifd0.get(42016).unwrap()).unwrap(),
        b"unique-image-id\0"
    );
    assert_eq!(
        tiff.bytes_of(&ifd0.get(33723).unwrap()).unwrap(),
        b"iptc-iim-block"
    );
    assert!(ifd0.get(4242).is_some());
}

/// The property that makes a relocated `MakerNote` still parse: its bytes
/// end up at the same block-relative offset they were written for.
#[test]
fn the_maker_note_keeps_its_original_offset() {
    // Long enough that the pin offset lands well past the output's IFDs.
    let note = b"Apple iOS\0\0\x01MM".repeat(40);
    let src = Build::new(true)
        .ascii(271, "Apple")
        .sub(
            TAG_EXIF_IFD,
            vec![
                (36867, 2, 20, b"2026:06:13 08:29:00\0".to_vec()),
                (TAG_MAKER_NOTE, 7, note.len() as u32, note.clone()),
            ],
        )
        .build();

    // Where the source put it, read straight out of the source.
    let src_tiff = Tiff::open(&src).unwrap();
    let src_ifd0 = src_tiff.read_ifd(src_tiff.first_ifd).unwrap();
    let src_sub = src_tiff
        .read_ifd(
            src_tiff
                .integers(&src_ifd0.get(TAG_EXIF_IFD).unwrap())
                .unwrap()[0] as usize,
        )
        .unwrap();
    let want_off = src_sub.get(TAG_MAKER_NOTE).unwrap().value_off;

    let out = read_bytes(&src).unwrap().unwrap();
    assert!(!out.dropped_maker_note);
    let tiff = Tiff::open(&out.tiff).unwrap();
    let ifd0 = tiff.read_ifd(tiff.first_ifd).unwrap();
    let sub = tiff
        .read_ifd(tiff.integers(&ifd0.get(TAG_EXIF_IFD).unwrap()).unwrap()[0] as usize)
        .unwrap();
    let got = sub.get(TAG_MAKER_NOTE).unwrap();
    assert_eq!(got.value_off, want_off, "MakerNote moved");
    assert_eq!(tiff.bytes_of(&got).unwrap(), &note[..]);
}

/// A pin the output's own IFDs would sit on top of cannot be honored, and
/// then dropping the tag is the only choice that leaves a parseable block.
///
/// Reaching that state takes a source laid out backwards — values first,
/// IFDs after — because a conventional one puts its values past its IFDs and
/// this module only ever *removes* entries, so its IFD region cannot grow
/// past where the source's values began.
#[test]
fn an_unreachable_maker_note_offset_is_reported_not_forced() {
    let mut src = vec![0u8; 320];
    let put16 = |s: &mut Vec<u8>, at: usize, v: u16| {
        s[at..at + 2].copy_from_slice(&v.to_le_bytes())
    };
    let put32 = |s: &mut Vec<u8>, at: usize, v: u32| {
        s[at..at + 4].copy_from_slice(&v.to_le_bytes())
    };
    src[0..2].copy_from_slice(b"II");
    put16(&mut src, 2, 42);
    put32(&mut src, 4, 200); // IFD0 lives at the far end
    src[20..28].copy_from_slice(b"Apple\0\0\0"); // the MakerNote value, at 20
    src[30..36].copy_from_slice(b"Apple\0"); // Make's value
    put16(&mut src, 200, 2);
    put16(&mut src, 202, 271); // Make
    put16(&mut src, 204, 2);
    put32(&mut src, 206, 6);
    put32(&mut src, 210, 30);
    put16(&mut src, 214, TAG_EXIF_IFD);
    put16(&mut src, 216, 4);
    put32(&mut src, 218, 1);
    put32(&mut src, 222, 300);
    put16(&mut src, 300, 1);
    put16(&mut src, 302, TAG_MAKER_NOTE);
    put16(&mut src, 304, 7);
    put32(&mut src, 306, 8);
    put32(&mut src, 310, 20);

    let out = read_bytes(&src).unwrap().unwrap();
    assert!(out.dropped_maker_note);
    let tiff = Tiff::open(&out.tiff).unwrap();
    let ifd0 = tiff.read_ifd(tiff.first_ifd).unwrap();
    // The Exif IFD held nothing else, so its pointer goes with it rather
    // than naming an empty IFD.
    assert!(ifd0.get(TAG_EXIF_IFD).is_none());
    assert!(ifd0.get(271).is_some());
}

// ===================================================================
// Grafting a `MakerNote` out of the original camera file
// ===================================================================

/// A camera file: an Exif IFD whose only interesting tag is the `MakerNote`,
/// plus enough around it to be a real block.
fn raw_with_maker_note(le: bool, note: &[u8]) -> Vec<u8> {
    Build::new(le)
        .ascii(271, "SONY")
        .ascii(272, "ILCE-7RM5")
        .sub(
            TAG_EXIF_IFD,
            vec![
                (36867, 2, 20, b"2026:06:13 08:29:00\0".to_vec()),
                (TAG_MAKER_NOTE, 7, note.len() as u32, note.to_vec()),
            ],
        )
        .build()
}

/// A rendered intermediate: the same photograph's Exif with the vendor block gone.
fn rendered_without_maker_note() -> Vec<u8> {
    Build::new(true)
        .ascii(271, "SONY")
        .ascii(272, "ILCE-7RM5")
        .ascii(305, "Adobe Photoshop Lightroom Classic 15.3")
        .short(274, 1)
        .sub(TAG_EXIF_IFD, exif_ifd())
        .build()
}

fn maker_note_of(block: &[u8]) -> Option<(Entry, Vec<u8>)> {
    let tiff = Tiff::open(block)?;
    let ifd0 = tiff.read_ifd(tiff.first_ifd).unwrap();
    let sub = tiff
        .read_ifd(tiff.integers(&ifd0.get(TAG_EXIF_IFD)?).unwrap()[0] as usize)
        .unwrap();
    let e = sub.get(TAG_MAKER_NOTE)?;
    Some((e, tiff.bytes_of(&e).unwrap().to_vec()))
}

/// The whole point: the blob lands at the offset it had in the raw, byte for
/// byte, so the file-absolute pointers inside it address the same bytes they
/// were written to address. Nothing is rebased, because nothing has to be.
#[test]
fn a_companion_maker_note_lands_at_the_offset_it_came_from() {
    // Long enough to be pinned rather than stored inside its entry.
    let note = b"\x72\x00sony-vendor-block".repeat(8);
    let raw = raw_with_maker_note(true, &note);
    let companion = maker_note_from_bytes(&raw).expect("the raw has one");
    assert_eq!(companion.len(), note.len());
    assert_eq!(
        companion.offset(),
        maker_note_of(&raw).unwrap().0.value_off,
        "the offset carried is the one the raw used"
    );

    let out = read_bytes_with_maker_note(&rendered_without_maker_note(), Some(&companion))
        .unwrap()
        .unwrap();
    assert_eq!(
        out.maker_note_graft,
        MakerNoteGraft::Carried { bytes: note.len() }
    );
    let (entry, bytes) = maker_note_of(&out.tiff).expect("grafted");
    assert_eq!(entry.value_off, companion.offset(), "the blob moved");
    assert_eq!(bytes, note, "the blob was altered");
    assert_eq!(entry.typ, 7, "the raw's own type claim is kept");

    // And the tags that were already there are still there, so the graft
    // added rather than replaced.
    let tiff = Tiff::open(&out.tiff).unwrap();
    let ifd0 = tiff.read_ifd(tiff.first_ifd).unwrap();
    assert_eq!(tiff.bytes_of(&ifd0.get(271).unwrap()).unwrap(), b"SONY\0");
    assert_eq!(
        tiff.bytes_of(&ifd0.get(305).unwrap()).unwrap(),
        b"Adobe Photoshop Lightroom Classic 15.3\0"
    );
}

/// A grafted block has to survive our own reader, and survive it *unmoved* —
/// a second pass that relocated the blob would break it just as thoroughly as
/// never pinning it in the first place.
#[test]
fn a_grafted_block_rebuilds_to_itself() {
    let note = b"\x72\x00sony-vendor-block".repeat(8);
    let companion = maker_note_from_bytes(&raw_with_maker_note(true, &note)).unwrap();
    let first = read_bytes_with_maker_note(&rendered_without_maker_note(), Some(&companion))
        .unwrap()
        .unwrap();

    let again = read_bytes(&first.tiff).unwrap().unwrap();
    assert_eq!(again.tiff, first.tiff, "rebuilding it again changed it");
    // Now it is the block's *own* MakerNote, so that is what is reported.
    assert_eq!(again.maker_note_graft, MakerNoteGraft::NotOffered);
    assert!(!again.dropped_maker_note);
    assert_eq!(maker_note_of(&again.tiff).unwrap().1, note);
}

/// Offered one when the block already has its own: the block's own wins. Its
/// neighbours were written alongside *that* one, and tag `0x927C` can only be
/// there once.
#[test]
fn the_blocks_own_maker_note_beats_a_companions() {
    let mine = b"\x72\x00my-own-vendor-block".repeat(8);
    let theirs = b"\x72\x00someone-elses-block".repeat(8);
    let host = raw_with_maker_note(true, &mine);
    let companion = maker_note_from_bytes(&raw_with_maker_note(true, &theirs)).unwrap();

    let out = read_bytes_with_maker_note(&host, Some(&companion))
        .unwrap()
        .unwrap();
    assert_eq!(out.maker_note_graft, MakerNoteGraft::HostHasOwn);
    assert_eq!(maker_note_of(&out.tiff).unwrap().1, mine);
    // Byte-identical to what no companion at all would have produced.
    assert_eq!(out.tiff, read_bytes(&host).unwrap().unwrap().tiff);
}

/// Sony's `MakerNote` opens with its entry count and carries no byte-order
/// mark, so a reader takes the order from the enclosing block. Grafted across
/// a byte-order boundary it would parse cleanly and report transposed
/// nonsense — the one failure mode worse than losing the tag.
#[test]
fn a_companion_of_the_other_byte_order_is_refused() {
    let note = b"\x00\x72sony-vendor-block".repeat(8);
    let companion = maker_note_from_bytes(&raw_with_maker_note(false, &note)).unwrap();
    let host = rendered_without_maker_note(); // little-endian

    let out = read_bytes_with_maker_note(&host, Some(&companion))
        .unwrap()
        .unwrap();
    assert_eq!(out.maker_note_graft, MakerNoteGraft::ByteOrderDiffers);
    assert!(maker_note_of(&out.tiff).is_none());
    assert_eq!(out.tiff, read_bytes(&host).unwrap().unwrap().tiff);
}

/// Nowhere to put it: a `MakerNote` belongs in the Exif IFD, and inventing
/// one to hold a foreign tag would add a sub-IFD the source never had.
#[test]
fn a_block_with_no_exif_ifd_takes_no_graft() {
    let note = b"\x72\x00sony-vendor-block".repeat(8);
    let companion = maker_note_from_bytes(&raw_with_maker_note(true, &note)).unwrap();
    let host = Build::new(true).ascii(271, "SONY").short(274, 1).build();

    let out = read_bytes_with_maker_note(&host, Some(&companion))
        .unwrap()
        .unwrap();
    assert_eq!(out.maker_note_graft, MakerNoteGraft::NoExifIfd);
    assert_eq!(out.tiff, read_bytes(&host).unwrap().unwrap().tiff);
}

/// A companion whose offset the host's own IFDs already occupy. Padding only
/// ever moves the cursor forward, so this one cannot be honored — and a graft
/// withdrawn is reported as such rather than as the host having dropped a
/// `MakerNote` it never had.
#[test]
fn a_companion_offset_the_ifds_already_claim_is_refused() {
    // Nothing but the Exif IFD, so the blob sits at a very low offset.
    let raw = Build::new(true)
        .sub(TAG_EXIF_IFD, vec![(TAG_MAKER_NOTE, 7, 8, b"vendor!!".to_vec())])
        .build();
    let companion = maker_note_from_bytes(&raw).unwrap();
    let host = rendered_without_maker_note();
    assert!(
        companion.offset() < 8 + 2 + 12 * 5 + 4,
        "the fixture must collide with the host's IFD0 alone, got {}",
        companion.offset()
    );

    let out = read_bytes_with_maker_note(&host, Some(&companion))
        .unwrap()
        .unwrap();
    assert_eq!(out.maker_note_graft, MakerNoteGraft::Unreachable);
    assert!(
        !out.dropped_maker_note,
        "the host had no MakerNote of its own to drop"
    );
    assert!(maker_note_of(&out.tiff).is_none());
    // The Exif IFD keeps its other tags, so its pointer stays.
    let tiff = Tiff::open(&out.tiff).unwrap();
    let ifd0 = tiff.read_ifd(tiff.first_ifd).unwrap();
    assert!(ifd0.get(TAG_EXIF_IFD).is_some());
}

/// A note that is out of reach and would be all there is in the Exif IFD takes that IFD
/// with it: the block is what it would have been without an offer, to the byte.
#[test]
fn a_refused_note_that_was_alone_leaves_nothing_behind() {
    let raw = Build::new(true)
        .sub(TAG_EXIF_IFD, vec![(TAG_MAKER_NOTE, 7, 8, b"vendor!!".to_vec())])
        .build();
    let companion = maker_note_from_bytes(&raw).unwrap();
    let host = Build::new(true).short(274, 6).sub(TAG_EXIF_IFD, vec![]).build();
    let plain = read_bytes(&host).unwrap().unwrap();
    assert_eq!(plain.tiff.len(), 8 + 2 + 12 + 4);
    let far = Build::new(true)
        .undefined(37510, &vec![0; 3_000_000])
        .sub(TAG_EXIF_IFD, vec![(TAG_MAKER_NOTE, 7, 8, b"vendor!!".to_vec())])
        .build();
    let distant = maker_note_from_bytes(&far).unwrap();
    // With a GPS IFD and a thumbnail behind it, what follows moves up.
    let more = Build::new(true)
        .short(274, 6)
        .sub(TAG_EXIF_IFD, vec![])
        .sub(TAG_GPS_IFD, vec![(1, 2, 2, b"N\0".to_vec())])
        .thumbnail(b"\xff\xd8thumb\xff\xd9")
        .build();
    for (host, note) in [(&host, &distant), (&more, &companion), (&more, &distant)] {
        let plain = read_bytes(host).unwrap().unwrap();
        let out = read_bytes_with_maker_note(host, Some(note)).unwrap().unwrap();
        assert_eq!(out.maker_note_graft, MakerNoteGraft::Unreachable);
        assert_eq!(out.tiff, plain.tiff);
        assert_eq!(out.tag_count, plain.tag_count);
        assert_eq!(out.orientation, plain.orientation);
        assert!(!out.dropped_maker_note);
        assert_eq!(read_bytes(&out.tiff).unwrap().unwrap().tiff, out.tiff);
    }
}

/// An own note out of reach that was alone in its Exif IFD goes with it, and is reported.
#[test]
fn a_dropped_note_that_was_alone_takes_its_ifd_along() {
    let src = Build::new(true)
        .short(274, 6)
        .undefined(37510, &vec![0; 3_000_000])
        .sub(TAG_EXIF_IFD, vec![(TAG_MAKER_NOTE, 7, 8, b"vendor!!".to_vec())])
        .build();
    let out = read_bytes(&src).unwrap().unwrap();
    assert!(out.dropped_maker_note);
    let tiff = Tiff::open(&out.tiff).unwrap();
    assert!(tiff.read_ifd(tiff.first_ifd).unwrap().get(TAG_EXIF_IFD).is_none());
    let again = read_bytes(&out.tiff).unwrap().unwrap();
    assert_eq!((again.tiff, again.dropped_maker_note), (out.tiff, false));
}

/// What was grafted is what is read, from the block and from the JPEG that carries it.
#[test]
fn a_grafted_note_is_read_back_and_everything_stays() {
    let note = b"\x72\x00sony-vendor-block".repeat(8);
    let companion = maker_note_from_bytes(&raw_with_maker_note(true, &note)).unwrap();
    let out = read_bytes_with_maker_note(&rendered_without_maker_note(), Some(&companion))
        .unwrap()
        .unwrap();
    assert_eq!(out.maker_note_graft, MakerNoteGraft::Carried { bytes: note.len() });
    let back = maker_note_from_bytes(&out.tiff).unwrap();
    assert_eq!((back.offset(), back.len()), (companion.offset(), companion.len()));
    assert_eq!(maker_note_of(&out.tiff).unwrap().1, note);
    let again = read_bytes(&out.tiff).unwrap().unwrap();
    assert_eq!(again.origin, Origin::Tiff);
    assert_eq!((again.orientation, again.tag_count), (out.orientation, out.tag_count));
    let carried = read_bytes(&wrap_in_jpeg(&out.tiff).unwrap()).unwrap().unwrap();
    assert_eq!(carried.origin, Origin::Jpeg);
    assert_eq!(carried.tiff, out.tiff);
    assert_eq!((carried.orientation, carried.tag_count), (out.orientation, out.tag_count));
}

/// Swaps two entries of the first IFD of a TIFF that [`Build`] made.
fn swap_entries(tiff: &mut [u8], a: usize, b: usize) {
    for k in 0..12 {
        tiff.swap(10 + 12 * a + k, 10 + 12 * b + k);
    }
}

/// A source that lists its tags out of order loses none when it is rebuilt twice, keeps its
/// orientation, and from the second pass on its bytes.
#[test]
fn a_second_pass_settles_a_source_out_of_order() {
    let mut src = Build::new(true)
        .ascii(271, "a maker with a name")
        .short(TAG_ORIENTATION, 6)
        .short(TAG_ORIENTATION, 3)
        .ascii(315, "somebody with a long name")
        .sub(TAG_GPS_IFD, vec![(1, 2, 2, b"N\0".to_vec()), (18, 2, 7, b"WGS-84\0".to_vec())])
        .build();
    swap_entries(&mut src, 0, 3);
    let first = read_bytes(&src).unwrap().unwrap();
    let second = read_bytes(&first.tiff).unwrap().unwrap();
    assert_ne!(second.tiff, first.tiff);
    assert_eq!(second.tiff.len(), first.tiff.len());
    assert_eq!((second.tag_count, second.orientation), (first.tag_count, 6));
    assert!(!second.dropped_maker_note);
    let third = read_bytes(&second.tiff).unwrap().unwrap();
    assert_eq!(third.tiff, second.tiff);
    assert_eq!((third.tag_count, third.orientation), (first.tag_count, 6));
}

/// A large TIFF without a second IFD, its dropped tags out of order, is rebuilt to a block
/// that a second pass leaves as it is.
#[test]
fn a_large_source_in_order_is_rebuilt_once() {
    let mut src = Build::new(false)
        .short(258, 16)
        .short(259, 1)
        .ascii(270, &"caption ".repeat(40_000))
        .ascii(271, "SONY")
        .short(TAG_ORIENTATION, 8)
        .ascii(305, "some software")
        .build();
    swap_entries(&mut src, 0, 1);
    assert!(src.len() > 240_000);
    let first = read_bytes(&src).unwrap().unwrap();
    let second = read_bytes(&first.tiff).unwrap().unwrap();
    assert_eq!(second.tiff, first.tiff);
    assert_eq!((second.tag_count, second.orientation), (first.tag_count, first.orientation));
}

/// The whole file is worth reading only when its head stops short of the note.
#[test]
fn the_head_of_a_file_settles_what_it_can() {
    let note = b"\x72\x00sony-vendor-block".repeat(8);
    let raw = raw_with_maker_note(true, &note);
    match maker_note_in_head(&raw) {
        HeadAnswer::Settled(Some(n)) => assert_eq!(n.len(), note.len()),
        other => panic!("{other:?}"),
    }
    let at = maker_note_of(&raw).unwrap().0.value_off;
    assert!(matches!(maker_note_in_head(&raw[..at + 4]), HeadAnswer::Settled(None)));
    let bare = Build::new(true).ascii(271, "SONY").build();
    assert!(matches!(maker_note_in_head(&bare), HeadAnswer::Settled(None)));
    let far = Build::new(true)
        .undefined(37510, &vec![0; COMPANION_HEAD as usize])
        .sub(TAG_EXIF_IFD, vec![(TAG_MAKER_NOTE, 7, 8, b"vendor!!".to_vec())])
        .build();
    let head = &far[..COMPANION_HEAD as usize];
    assert!(matches!(maker_note_in_head(head), HeadAnswer::ReadOn));
    assert!(maker_note_from_bytes(&far).is_some());
}

/// The distinction that keeps the bounded read honest: a slice that stops
/// short of the blob must say "not here", not "there is none". Only the first
/// answer is worth re-reading the file for, and `read_maker_note` re-reads on
/// exactly that one.
#[test]
fn a_truncated_head_is_undecided_rather_than_negative() {
    let note = b"\x72\x00sony-vendor-block".repeat(8);
    let raw = raw_with_maker_note(true, &note);
    let at = maker_note_of(&raw).unwrap().0.value_off;

    assert!(matches!(maker_note_in(&raw), Located::Found(_)));
    // Cut inside the blob: the IFDs still parse and name bytes that are gone.
    assert!(matches!(maker_note_in(&raw[..at + 4]), Located::Beyond));
    // Cut before the IFDs even resolve.
    assert!(matches!(maker_note_in(&raw[..10]), Located::Beyond));
    // A block that genuinely has none is a real answer, not a short read.
    let bare = Build::new(true).ascii(271, "SONY").build();
    assert!(matches!(maker_note_in(&bare), Located::Absent));
    let no_tag = Build::new(true).sub(TAG_EXIF_IFD, exif_ifd()).build();
    assert!(matches!(maker_note_in(&no_tag), Located::Absent));
}

#[test]
fn gps_is_carried() {
    let src = Build::new(true)
        .ascii(271, "Apple")
        .sub(
            TAG_GPS_IFD,
            vec![(1, 2, 2, b"N\0".to_vec()), (5, 1, 1, vec![0, 0, 0, 0])],
        )
        .build();
    let out = read_bytes(&src).unwrap().unwrap();
    let tiff = Tiff::open(&out.tiff).unwrap();
    let ifd0 = tiff.read_ifd(tiff.first_ifd).unwrap();
    let gps_off = tiff.integers(&ifd0.get(TAG_GPS_IFD).unwrap()).unwrap()[0];
    let gps = tiff.read_ifd(gps_off as usize).unwrap();
    assert_eq!(tiff.bytes_of(&gps.get(1).unwrap()).unwrap(), b"N\0");
}

/// The Interoperability IFD hangs off the *Exif* IFD, not `IFD0`, so it is
/// the one sub-IFD reached two pointers deep.
#[test]
fn the_interop_ifd_is_carried() {
    // Hand-build the nesting the Build helper cannot express: IFD0 -> Exif
    // IFD -> Interop IFD.
    let mut src = vec![];
    src.extend_from_slice(b"II\x2a\x00");
    src.extend_from_slice(&8u32.to_le_bytes());
    // IFD0 at 8: one entry, the Exif pointer.
    src.extend_from_slice(&1u16.to_le_bytes());
    src.extend_from_slice(&TAG_EXIF_IFD.to_le_bytes());
    src.extend_from_slice(&4u16.to_le_bytes());
    src.extend_from_slice(&1u32.to_le_bytes());
    src.extend_from_slice(&26u32.to_le_bytes()); // Exif IFD offset
    src.extend_from_slice(&0u32.to_le_bytes());
    // Exif IFD at 26: one entry, the Interop pointer.
    src.extend_from_slice(&1u16.to_le_bytes());
    src.extend_from_slice(&TAG_INTEROP_IFD.to_le_bytes());
    src.extend_from_slice(&4u16.to_le_bytes());
    src.extend_from_slice(&1u32.to_le_bytes());
    src.extend_from_slice(&44u32.to_le_bytes()); // Interop IFD offset
    src.extend_from_slice(&0u32.to_le_bytes());
    // Interop IFD at 44: InteropIndex = "R98".
    src.extend_from_slice(&1u16.to_le_bytes());
    src.extend_from_slice(&1u16.to_le_bytes());
    src.extend_from_slice(&2u16.to_le_bytes());
    src.extend_from_slice(&4u32.to_le_bytes());
    src.extend_from_slice(b"R98\0");
    src.extend_from_slice(&0u32.to_le_bytes());

    let out = read_bytes(&src).unwrap().unwrap();
    let tiff = Tiff::open(&out.tiff).unwrap();
    let ifd0 = tiff.read_ifd(tiff.first_ifd).unwrap();
    let exif = tiff
        .read_ifd(tiff.integers(&ifd0.get(TAG_EXIF_IFD).unwrap()).unwrap()[0] as usize)
        .unwrap();
    let interop = tiff
        .read_ifd(tiff.integers(&exif.get(TAG_INTEROP_IFD).unwrap()).unwrap()[0] as usize)
        .unwrap();
    assert_eq!(tiff.bytes_of(&interop.get(1).unwrap()).unwrap(), b"R98\0");
}

#[test]
fn orientation_is_carried_and_reported() {
    for want in 1u8..=8 {
        let src = Build::new(true)
            .ascii(271, "Apple")
            .short(TAG_ORIENTATION, want as u16)
            .build();
        let out = read_bytes(&src).unwrap().unwrap();
        assert_eq!(out.orientation, want);
        let tiff = Tiff::open(&out.tiff).unwrap();
        let ifd0 = tiff.read_ifd(tiff.first_ifd).unwrap();
        let e = ifd0.get(TAG_ORIENTATION).expect("orientation kept");
        assert_eq!(tiff.integers(&e).unwrap()[0], want as u32);
    }
}

/// Out of range and absent both mean "upright", so a caller never has to
/// second-guess the number.
#[test]
fn a_nonsense_orientation_reads_as_upright() {
    let src = Build::new(true)
        .ascii(271, "Apple")
        .short(TAG_ORIENTATION, 99)
        .build();
    assert_eq!(read_bytes(&src).unwrap().unwrap().orientation, 1);
    let src = Build::new(true).ascii(271, "Apple").build();
    assert_eq!(read_bytes(&src).unwrap().unwrap().orientation, 1);
}

#[test]
fn the_thumbnail_ifd_survives_with_its_jpeg() {
    // Odd-length on purpose: the thumbnail is the largest value in the
    // block, so anything placed after it would inherit a misalignment.
    let mut jpeg = vec![0xffu8, 0xd8];
    jpeg.extend(std::iter::repeat_n(0x41u8, 61));
    jpeg.extend_from_slice(&[0xff, 0xd9]);
    let jpeg = &jpeg[..];
    let src = Build::new(true)
        .ascii(271, "Apple")
        .sub(TAG_EXIF_IFD, exif_ifd())
        .thumbnail(jpeg)
        .build();
    let out = read_bytes(&src).unwrap().unwrap();

    let tiff = Tiff::open(&out.tiff).unwrap();
    let ifd0 = tiff.read_ifd(tiff.first_ifd).unwrap();
    assert_ne!(ifd0.next, 0, "IFD0 must chain to IFD1");
    let ifd1 = tiff.read_ifd(ifd0.next).unwrap();
    let off = tiff
        .integers(&ifd1.get(TAG_THUMBNAIL_OFFSET).unwrap())
        .unwrap()[0] as usize;
    let len = tiff
        .integers(&ifd1.get(TAG_THUMBNAIL_LENGTH).unwrap())
        .unwrap()[0] as usize;
    assert_eq!(len, jpeg.len());
    assert_eq!(&out.tiff[off..off + len], jpeg);
    // Compression says these bytes are a JPEG, which is true of what was
    // carried, so unlike IFD0's copy it stays.
    assert_eq!(tiff.integers(&ifd1.get(259).unwrap()).unwrap()[0], 6);
}

/// An Apple `MakerNote`: signature, version, its own byte-order mark, then a
/// big-endian IFD whose offsets are relative to the note's first byte.
///
/// Tag 48's value has to be found through the note's own base, not the enclosing
/// block's.
fn apple_maker_note(tag33: (i32, i32), tag48: (i32, i32)) -> Vec<u8> {
    let entries: [(u16, u16, u32, Option<(i32, i32)>); 4] = [
        (2, 7, 4, None),                        // an inline value, before
        (APPLE_TAG_HEADROOM, 10, 1, Some(tag33)),
        (APPLE_TAG_GAIN, 10, 1, Some(tag48)),
        (54, 7, 4, None), // and one after, so removal has to compact
    ];
    let mut mn = Vec::new();
    mn.extend_from_slice(APPLE_MAKER_SIG.as_bytes());
    mn.push(1);
    mn.extend_from_slice(b"MM");
    mn.extend_from_slice(&(entries.len() as u16).to_be_bytes());
    // Values live after the IFD, which is where Apple puts them.
    let mut at = APPLE_MAKER_IFD_AT + 2 + entries.len() * 12 + 4;
    let mut vals = Vec::new();
    for (tag, typ, count, r) in entries {
        mn.extend_from_slice(&tag.to_be_bytes());
        mn.extend_from_slice(&typ.to_be_bytes());
        mn.extend_from_slice(&count.to_be_bytes());
        match r {
            Some((n, d)) => {
                mn.extend_from_slice(&(at as u32).to_be_bytes());
                vals.extend_from_slice(&n.to_be_bytes());
                vals.extend_from_slice(&d.to_be_bytes());
                at += 8;
            }
            None => mn.extend_from_slice(b"XXXX"),
        }
    }
    mn.extend_from_slice(&0u32.to_be_bytes()); // next IFD
    mn.extend_from_slice(&vals);
    mn
}

/// The outer block is little-endian while the note is big-endian, so a
/// reader that used the wrong one reads nonsense.
fn block_with_apple_maker_note(mn: &[u8]) -> Vec<u8> {
    Build::new(true)
        .ascii(271, "Apple")
        .sub(
            TAG_EXIF_IFD,
            vec![(TAG_MAKER_NOTE, 7, mn.len() as u32, mn.to_vec())],
        )
        .build()
}

/// The `MakerNote` copy of the headroom has to say what the output's ISO
/// payload says.
#[test]
fn the_maker_notes_headroom_is_realigned_to_the_output() {
    // Apple's own numbers from the reference capture: 2.2871 stops, where this output
    // derives 2.2681.
    let mn = apple_maker_note((1058474, 1048501), (8699, 165572));
    let src = block_with_apple_maker_note(&mn);
    let mut out = read_bytes(&src).unwrap().unwrap();
    assert!(!out.dropped_maker_note);

    let ours = 2f32.powf(2.268143);
    let before = apple_headroom_in(&out.tiff);
    assert!(
        (before - ours).abs() > HEADROOM_COPIES_TOLERANCE,
        "the source's copy should start out disagreeing, else this proves nothing"
    );
    assert_eq!(
        align(&mut out.tiff, ours),
        AppleHeadroom::Rewritten
    );
    let after = apple_headroom_in(&out.tiff);
    assert!(
        (after - ours).abs() < HEADROOM_COPIES_TOLERANCE,
        "carried MakerApple headroom {after} still disagrees with {ours}"
    );
}

/// Above three stops Apple's formula cannot express the headroom without
/// understating it, so the tags go rather than lie — and the rest of the
/// note survives intact.
#[test]
fn an_inexpressible_headroom_removes_the_pair_and_keeps_the_rest() {
    let mn = apple_maker_note((1, 1), (8699, 165572));
    let src = block_with_apple_maker_note(&mn);
    let mut out = read_bytes(&src).unwrap().unwrap();

    // 3.568 stops: an export's headroom.
    let too_much = 2f32.powf(3.568);
    assert_eq!(
        align(&mut out.tiff, too_much),
        AppleHeadroom::Removed
    );

    let note = carried_maker_note(&out.tiff);
    let entries = note_entries(&note);
    let tags: Vec<u16> = entries.iter().map(|(t, _)| *t).collect();
    assert_eq!(tags, vec![2, 54], "only the headroom pair should be gone");
    // The survivor after the removed pair kept its value, which is the
    // property in-place compaction has to preserve.
    assert_eq!(&note[entries[1].1..entries[1].1 + 4], b"XXXX");
    // And the note is the same length, so the outer entry's count and the
    // pinned offset are both still true.
    assert_eq!(note.len(), mn.len());
}

/// A `MakerNote` from any other vendor is not ours to interpret.
#[test]
fn a_non_apple_maker_note_is_left_alone() {
    let mut mn = b"Nikon\0\x02\x11\0\0MM\0*".to_vec();
    mn.extend_from_slice(&[0u8; 40]);
    let src = block_with_apple_maker_note(&mn);
    let mut out = read_bytes(&src).unwrap().unwrap();
    let before = out.tiff.clone();
    assert_eq!(
        align(&mut out.tiff, 4.0),
        AppleHeadroom::Absent
    );
    assert_eq!(out.tiff, before, "nothing should have been touched");
}

/// The `MakerNote` value carried in a rebuilt block.
fn carried_maker_note(block: &[u8]) -> Vec<u8> {
    let tiff = Tiff::open(block).unwrap();
    let ifd0 = tiff.read_ifd(tiff.first_ifd).unwrap();
    let exif = tiff
        .read_ifd(tiff.integers(&ifd0.get(TAG_EXIF_IFD).unwrap()).unwrap()[0] as usize)
        .unwrap();
    tiff.bytes_of(&exif.get(TAG_MAKER_NOTE).unwrap())
        .unwrap()
        .to_vec()
}

/// What a consumer reading the carried MakerApple tags would compute.
fn apple_headroom_in(block: &[u8]) -> f32 {
    let note = carried_maker_note(block);
    let entries = note_entries(&note);
    let val = |tag: u16| {
        let rel = entries.iter().find(|(t, _)| *t == tag).unwrap().1;
        let n = i32::from_be_bytes(note[rel..rel + 4].try_into().unwrap());
        let d = i32::from_be_bytes(note[rel + 4..rel + 8].try_into().unwrap());
        n as f64 / d as f64
    };
    headroom_from_tags(val(APPLE_TAG_HEADROOM), val(APPLE_TAG_GAIN))
}

/// Nothing worth keeping is the same outcome as no Exif at all, not an
/// error: a conversion must not fail over metadata.
#[test]
fn a_source_with_only_pixel_tags_yields_none() {
    let src = Build::new(true).short(259, 1).short(262, 2).build();
    assert!(read_bytes(&src).unwrap().is_none());
}

#[test]
fn unknown_tag_types_are_skipped_not_guessed() {
    let src = Build::new(true).ascii(271, "Apple").bogus_type(306).build();
    let out = read_bytes(&src).unwrap().unwrap();
    let tiff = Tiff::open(&out.tiff).unwrap();
    let ifd0 = tiff.read_ifd(tiff.first_ifd).unwrap();
    assert!(ifd0.get(306).is_none());
    assert_eq!(out.tag_count, 1);
}

#[test]
fn non_image_input_is_not_an_error() {
    assert!(read_bytes(b"").unwrap().is_none());
    assert!(read_bytes(b"not an image at all").unwrap().is_none());
    // A JPEG whose only segment is a comment, then the scan.
    assert!(read_bytes(&[0xff, 0xd8, 0xff, 0xfe, 0x00, 0x03, 0x41, 0xff, 0xda])
        .unwrap()
        .is_none());
}

/// Odd-length values must not leave the next value on an odd offset.
#[test]
fn odd_length_values_stay_aligned() {
    let src = Build::new(true)
        .ascii(271, "Apple") // 6 bytes, even
        .ascii(272, "Nikon Z") // 8 bytes, even
        .ascii(305, "LrC 15") // 7 bytes, odd
        .ascii(306, "2026:06:13 08:29:00") // 20 bytes
        .build();
    let out = read_bytes(&src).unwrap().unwrap();
    let tiff = Tiff::open(&out.tiff).unwrap();
    let ifd0 = tiff.read_ifd(tiff.first_ifd).unwrap();
    for (tag, want) in [
        (271u16, &b"Apple\0"[..]),
        (272, &b"Nikon Z\0"[..]),
        (305, &b"LrC 15\0"[..]),
        (306, &b"2026:06:13 08:29:00\0"[..]),
    ] {
        let e = ifd0.get(tag).unwrap();
        assert_eq!(e.value_off % 2, 0, "tag {tag} lands on an odd offset");
        assert_eq!(tiff.bytes_of(&e).unwrap(), want, "tag {tag}");
    }
}

/// The tags of a big-endian Apple note, each with where its value is.
fn note_entries(note: &[u8]) -> Vec<(u16, usize)> {
    let n = u16::from_be_bytes([note[14], note[15]]) as usize;
    (0..n)
        .map(|i| {
            let e = 16 + 12 * i;
            let tag = u16::from_be_bytes([note[e], note[e + 1]]);
            let typ = u16::from_be_bytes([note[e + 2], note[e + 3]]);
            let rel = if typ == 10 {
                u32::from_be_bytes([note[e + 8], note[e + 9], note[e + 10], note[e + 11]]) as usize
            } else {
                e + 8
            };
            (tag, rel)
        })
        .collect()
}

const HEADROOM_COPIES_TOLERANCE: f32 = 1e-3;

/// The headroom that a pair of tags states.
fn headroom_from_tags(tag33: f64, tag48: f64) -> f32 {
    let stops = match (tag33 < 1.0, tag48 <= 0.01) {
        (true, true) => -20.0 * tag48 + 1.8,
        (true, false) => -0.101 * tag48 + 1.601,
        (false, true) => -70.0 * tag48 + 3.0,
        (false, false) => -0.303 * tag48 + 2.303,
    };
    2f64.powf(stops.clamp(0.0, 16.0)) as f32
}

/// The tag 48 that goes with a headroom and a tag 33 of one.
fn tag48_for(headroom: f32) -> f64 {
    let stops = (headroom.clamp(1.0, 16.0) as f64).log2();
    let boundary = (70.0 * 2.303 - 0.303 * 3.0) / (70.0 - 0.303);
    if stops >= 3.0 {
        0.0
    } else if stops >= boundary {
        (3.0 - stops) / 70.0
    } else {
        (2.303 - stops) / 0.303
    }
}

/// Makes the note of a block state a headroom, or none where it cannot be stated. The
/// library is handed the edit: which one it is follows from floating-point formulas that
/// belong to its caller, for whom this and the two functions above stand in.
fn align(block: &mut Vec<u8>, headroom: f32) -> AppleHeadroom {
    let edit = match find_headroom_tags(block) {
        None => HeadroomEdit::Remove,
        Some(t) => {
            let want48 = tag48_for(headroom);
            let den48 = if t.d48 <= 0 { PLAIN_DENOMINATOR } else { t.d48 };
            let num48 = (want48 * den48 as f64).round() as i32;
            let tag33 = if t.needs_raising() || t.d33 == 0 {
                1.0
            } else {
                t.n33 as f64 / t.d33 as f64
            };
            let decoded = headroom_from_tags(tag33, num48 as f64 / den48 as f64);
            if (decoded - headroom).abs() >= HEADROOM_COPIES_TOLERANCE {
                HeadroomEdit::Remove
            } else {
                HeadroomEdit::Rewrite { num48, den48 }
            }
        }
    };
    align_apple_headroom(block, edit)
}

/// A tag 33 below one selects the other branch of the formula, so it is raised to one.
#[test]
fn a_low_tag_33_is_raised() {
    let mn = apple_maker_note((3, 4), (8699, 165572));
    let mut out = read_bytes(&block_with_apple_maker_note(&mn)).unwrap().unwrap();
    let before = find_headroom_tags(&out.tiff).expect("the pair is there");
    assert_eq!((before.n33, before.d33, before.d48), (3, 4, 165572));
    let edit = HeadroomEdit::Rewrite { num48: 7, den48: 1000 };
    assert_eq!(align_apple_headroom(&mut out.tiff, edit), AppleHeadroom::Rewritten);
    let note = carried_maker_note(&out.tiff);
    let rel33 = note_entries(&note)[1].1;
    let rel48 = note_entries(&note)[2].1;
    assert_eq!(&note[rel33..rel33 + 8], &[0, 0, 0, 4, 0, 0, 0, 4]);
    assert_eq!(&note[rel48..rel48 + 8], &[0, 0, 0, 7, 0, 0, 0x03, 0xe8]);
}

#[test]
fn only_the_bytes_of_the_note_change() {
    let mn = apple_maker_note((1, 1), (8699, 165572));
    let out = read_bytes(&block_with_apple_maker_note(&mn)).unwrap().unwrap();
    let start = find_headroom_tags(&out.tiff).unwrap().start;
    for edit in [HeadroomEdit::Remove, HeadroomEdit::Rewrite { num48: -1, den48: 1 }] {
        let mut block = out.tiff.clone();
        align_apple_headroom(&mut block, edit);
        assert_eq!(block.len(), out.tiff.len());
        assert_eq!(block[..start], out.tiff[..start]);
        assert_eq!(block[start + mn.len()..], out.tiff[start + mn.len()..]);
        assert_ne!(block, out.tiff);
    }
    let mut gone = out.tiff.clone();
    align_apple_headroom(&mut gone, HeadroomEdit::Remove);
    assert_eq!(find_headroom_tags(&gone), None);
}

#[test]
fn only_an_apple_note_says_it_is_one() {
    let mn = apple_maker_note((1, 1), (1, 2));
    let apple = maker_note_from_bytes(&block_with_apple_maker_note(&mn)).unwrap();
    assert!(apple.is_apple());
    assert!(!apple.is_empty());
    assert_eq!(apple.clone().len(), mn.len());
    let sony = maker_note_from_bytes(&raw_with_maker_note(true, b"SONY DSC \0\0\0")).unwrap();
    assert!(!sony.is_apple());
}

/// The HEIF arm: the block sits behind a count of bytes to skip.
#[test]
fn a_heif_exif_item_is_found() {
    let block = Build::new(false).ascii(271, "Apple").short(274, 8).build();
    let image = |w: u32| CodedImage {
        width: w,
        height: 4,
        bit_depth: 8,
        chroma: Chroma::Yuv420,
        hvcc: vec![0; 23],
        data: vec![9; 5],
    };
    let file = mux(&MuxRequest {
        base: image(8),
        gain: image(4),
        meta: GainMapMeta::default(),
        flavor: Flavor::Both,
        base_colour: None,
        tmap_colour: None,
        exif: Some(block.clone()),
        xmp: None,
        extra_items: Vec::new(),
        clli: None,
        orientation: heif_transform(1),
    })
    .unwrap();
    let out = read_bytes(&file).unwrap().unwrap();
    assert_eq!(out.origin, Origin::Heif);
    assert_eq!(out.origin.label(), "heif-exif-item");
    assert_eq!(out.orientation, 8);
    assert_eq!(out.tag_count, 2);
    assert_eq!(out.tiff, read_bytes(&block).unwrap().unwrap().tiff);
}

/// A JPEG keeps its IPTC outside of the Exif block; it is folded into the first IFD.
#[test]
fn a_jpegs_iptc_is_folded_in() {
    let block = Build::new(true).ascii(271, "Apple").build();
    let carrier = wrap_in_jpeg(&block).unwrap();
    let mut app13 = b"Photoshop 3.0\x008BIM\x04\x04\0\0".to_vec();
    app13.extend_from_slice(&6u32.to_be_bytes());
    app13.extend_from_slice(b"\x1c\x02\x50Bob");
    let mut jpeg = carrier[..2].to_vec();
    jpeg.extend_from_slice(&[0xff, 0xed]);
    jpeg.extend_from_slice(&((app13.len() + 2) as u16).to_be_bytes());
    jpeg.extend_from_slice(&app13);
    jpeg.extend_from_slice(&carrier[2..]);
    let out = read_bytes(&jpeg).unwrap().unwrap();
    assert_eq!(out.iptc.as_deref(), Some(&b"\x1c\x02\x50Bob"[..]));
    let tiff = Tiff::open(&out.tiff).unwrap();
    let ifd0 = tiff.read_ifd(tiff.first_ifd).unwrap();
    assert_eq!(tiff.bytes_of(&ifd0.get(TAG_IPTC).unwrap()).unwrap(), b"\x1c\x02\x50Bob");
}

#[test]
fn a_truncated_first_ifd_is_an_error() {
    let mut src = b"II\x2a\0".to_vec();
    src.extend_from_slice(&60u32.to_le_bytes());
    src.extend_from_slice(&[0; 8]);
    let e = read_bytes(&src).unwrap_err();
    assert_eq!(e.message(), "decode: TIFF truncated: wanted 2 bytes at 60, file is 16 bytes");
}

#[test]
fn every_outcome_of_a_graft_has_its_name() {
    for (g, name) in [
        (MakerNoteGraft::NotOffered, "not-offered"),
        (MakerNoteGraft::Carried { bytes: 1 }, "carried"),
        (MakerNoteGraft::HostHasOwn, "source-has-own"),
        (MakerNoteGraft::ByteOrderDiffers, "byte-order-differs"),
        (MakerNoteGraft::Unreachable, "unreachable-offset"),
        (MakerNoteGraft::NoExifIfd, "no-exif-ifd"),
    ] {
        assert_eq!(g.label(), name);
    }
}

/// Entries are written by ascending tag, wherever the source had them.
#[test]
fn tags_are_written_in_order() {
    let src = Build::new(true)
        .ascii(42016, "unique-image-id")
        .ascii(271, "Apple")
        .short(274, 1)
        .sub(TAG_GPS_IFD, vec![(1, 2, 2, b"N\0".to_vec())])
        .sub(TAG_EXIF_IFD, exif_ifd())
        .build();
    let out = read_bytes(&src).unwrap().unwrap();
    let tiff = Tiff::open(&out.tiff).unwrap();
    let ifd0 = tiff.read_ifd(tiff.first_ifd).unwrap();
    let tags: Vec<u16> = ifd0.entries.iter().map(|(t, _)| *t).collect();
    assert_eq!(tags, vec![271, 274, TAG_EXIF_IFD, TAG_GPS_IFD, 42016]);
}
