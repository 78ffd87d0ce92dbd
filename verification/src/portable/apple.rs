//! Making a carried Apple `MakerNote`'s headroom agree with the output's.
//!
//! Headroom is stated three times -- ISO payload, XMP, MakerApple 33/48 -- and all copies
//! in one file must agree, or a consumer reads the wrong number. The source's tag 48
//! describes the *source's* headroom, so carrying it verbatim imports a wrong
//! declaration.
//!
//! What number tag 48 has to state is computed elsewhere, in floating point. Here is where
//! the two tags are found in a block, and how they are rewritten or removed without moving
//! anything else.

use vstd::prelude::*;

use crate::bytes::{
    get_word16, get_word32, group_encoded_lengths, has_at, matches_at, push_all, push_word16,
    push_word32, span, word16, word16_bytes, word32, word32_bytes,
};
use crate::portable::exif::{
    lemma_found_is_placed, lemma_sub_ifd_placed, sub_ifd, APPLE_MAKER_SIG, TAG_EXIF_IFD, TAG_MAKER_NOTE,
};
use crate::portable::tiff::{
    find_tag, ifd_of, is_inline, opened, size_of, type_size, value_of, Tiff,
};

verus! {

broadcast use group_encoded_lengths;

/// Distance from an Apple `MakerNote`'s first byte to its IFD: the signature, a version
/// byte, and the byte-order mark.
pub const APPLE_MAKER_IFD_AT: usize = 14;

/// `HDRHeadroom` inside Apple's `MakerNote`.
pub const APPLE_TAG_HEADROOM: u16 = 33;

/// `HDRGain` inside Apple's `MakerNote`.
pub const APPLE_TAG_GAIN: u16 = 48;

/// The denominator a rational gets that has none to keep.
pub const PLAIN_DENOMINATOR: i32 = 1_000_000;

/// What became of a carried `MakerNote`'s headroom.
#[derive(Clone, Copy, Debug, PartialEq, Eq, Structural)]
pub enum AppleHeadroom {
    /// No Apple `MakerNote`, or one without the headroom pair. Nothing to do.
    Absent,
    /// Tag 48 now encodes *this* output's headroom rather than the source's.
    Rewritten,
    /// Both tags removed, because no tag 48 can express a headroom this large without
    /// understating it: silence is the only option that never lies.
    Removed,
}

/// What is to become of the two tags.
#[derive(Clone, Copy, Debug, PartialEq, Eq, Structural)]
pub enum HeadroomEdit {
    /// Tag 48 is to state this rational, and tag 33 a number that is not below one.
    Rewrite { num48: i32, den48: i32 },
    /// Both are to go.
    Remove,
}

/// One entry of an Apple `MakerNote`'s IFD. Its value's place and its own are counted from
/// the start of the note -- the very property that makes the note unrelocatable.
#[derive(Clone, Copy, Debug, PartialEq, Eq, Structural)]
pub struct AppleEntry {
    pub tag: u16,
    pub typ: u16,
    pub count: u32,
    pub rel: usize,
    pub at: usize,
}

/// Where the pair of tags is, and what it states.
#[derive(Clone, Copy, Debug, PartialEq, Eq, Structural)]
pub struct HeadroomTags {
    pub little_endian: bool,
    /// Where the note starts in the block.
    pub start: usize,
    /// Where the values are, counted from the start of the note.
    pub at33: usize,
    pub at48: usize,
    pub n33: i32,
    pub d33: i32,
    pub d48: i32,
}

impl HeadroomTags {
    /// Whether tag 33 states a number below one, which selects the branch of the formula
    /// in which tag 48 means something else.
    pub open spec fn is_low(self) -> bool {
        (self.d33 > 0 && self.n33 < self.d33) || (self.d33 < 0 && self.n33 > self.d33)
    }

    /// Whether tag 33 states a number below one, and so has to be raised.
    pub fn needs_raising(&self) -> (b: bool)
        ensures
            b == self.is_low(),
    {
        (self.d33 > 0 && self.n33 < self.d33) || (self.d33 < 0 && self.n33 > self.d33)
    }
}

/// Start and length of the Apple `MakerNote` in an Exif block.
pub open spec fn located_note(s: Seq<u8>) -> Option<(int, int)> {
    match opened(s) {
        None => None,
        Some(t) => match ifd_of(s, t.0, t.1) {
            Err(_) => None,
            Ok(ifd0) => match sub_ifd(s, t.0, ifd0, TAG_EXIF_IFD) {
                None => None,
                Some(x) => match find_tag(x.entries, TAG_MAKER_NOTE, 0) {
                    None => None,
                    Some(e) => match value_of(s, e) {
                        Err(_) => None,
                        Ok(b) => if matches_at(
                            b,
                            0,
                            vstd::utf8::encode_utf8(APPLE_MAKER_SIG@),
                        ) {
                            Some((e.value_off, b.len() as int))
                        } else {
                            None
                        },
                    },
                },
            },
        },
    }
}

/// Byte range of an Apple `MakerNote` inside an Exif block.
fn locate_apple_maker_note(block: &[u8]) -> (r: Option<(usize, usize)>)
    ensures
        match r {
            Some(x) => located_note(block@) == Some((x.0 as int, x.1 as int)) && x.0 + x.1
                <= block@.len(),
            None => located_note(block@) is None,
        },
{
    let tiff = match Tiff::open(block) {
        Some(t) => t,
        None => {
            return None;
        },
    };
    let ifd0 = match tiff.read_ifd(tiff.first_ifd) {
        Ok(x) => x,
        Err(_) => {
            return None;
        },
    };
    let off: u32 = match tiff.first_of(ifd0.get(TAG_EXIF_IFD)) {
        Some(off) => off,
        None => {
            return None;
        },
    };
    let exif_ifd = match tiff.read_ifd(off as usize) {
        Ok(x) => x,
        Err(_) => {
            return None;
        },
    };
    let e = match exif_ifd.get(TAG_MAKER_NOTE) {
        Some(e) => e,
        None => {
            return None;
        },
    };
    match tiff.bytes_of(&e) {
        Ok(b) => if has_at(b, 0, APPLE_MAKER_SIG.as_bytes()) {
            proof {
                assert(0 <= e.count * size_of(e.typ)) by (nonlinear_arith)
                    requires
                        size_of(e.typ) >= 0,
                        e.count >= 0,
                ;
            }
            Some((e.value_off, b.len()))
        } else {
            None
        },
        Err(_) => None,
    }
}

/// Where entry `i` of the note's IFD is, counted from the start of the note.
pub open spec fn apple_entry_at(i: int) -> int {
    APPLE_MAKER_IFD_AT + 2 + 12 * i
}

/// Entry `i` of the IFD of the note that starts at `start`, in the bytes before `end`.
pub open spec fn apple_entry(s: Seq<u8>, start: int, end: int, le: bool, i: int) -> Option<
    AppleEntry,
> {
    let e = apple_entry_at(i);
    let tag = word16(le, s, start + e);
    let typ = word16(le, s, start + e + 2);
    let count = word32(le, s, start + e + 4);
    if start + e + 8 > end {
        None
    } else if is_inline(typ, count) {
        Some(AppleEntry { tag, typ, count, rel: (e + 8) as usize, at: e as usize })
    } else if start + e + 12 > end {
        None
    } else {
        Some(
            AppleEntry {
                tag,
                typ,
                count,
                rel: word32(le, s, start + e + 8) as usize,
                at: e as usize,
            },
        )
    }
}

/// The first `n` entries of the note's IFD.
pub open spec fn first_apple_entries(s: Seq<u8>, start: int, end: int, le: bool, n: int) -> Option<
    Seq<AppleEntry>,
>
    decreases n,
{
    if n <= 0 {
        Some(seq![])
    } else {
        match (
            first_apple_entries(s, start, end, le, n - 1),
            apple_entry(s, start, end, le, n - 1),
        ) {
            (Some(v), Some(e)) => Some(v.push(e)),
            _ => None,
        }
    }
}

/// Every entry of the note's IFD.
pub open spec fn apple_entries(s: Seq<u8>, start: int, end: int, le: bool) -> Option<
    Seq<AppleEntry>,
> {
    if start + APPLE_MAKER_IFD_AT + 2 > end {
        None
    } else {
        first_apple_entries(
            s,
            start,
            end,
            le,
            word16(le, s, start + APPLE_MAKER_IFD_AT) as int,
        )
    }
}

proof fn lemma_entries_fail(s: Seq<u8>, start: int, end: int, le: bool, a: int, b: int)
    requires
        0 <= a <= b,
        first_apple_entries(s, start, end, le, a) is None,
    ensures
        first_apple_entries(s, start, end, le, b) is None,
    decreases b,
{
    if a < b {
        lemma_entries_fail(s, start, end, le, a, b - 1);
    }
}

/// Every entry of an Apple `MakerNote`'s IFD.
///
/// Its own reader because the offsets inside it are relative to the `MakerNote`, not to
/// the enclosing TIFF header.
fn apple_maker_entries(block: &[u8], start: usize, end: usize, le: bool) -> (r: Option<
    Vec<AppleEntry>,
>)
    requires
        start <= end <= block@.len(),
    ensures
        match r {
            Some(v) => apple_entries(block@, start as int, end as int, le) == Some(v@),
            None => apple_entries(block@, start as int, end as int, le) is None,
        },
{
    let ghost s = block@;
    let room: usize = end - start;
    if room < APPLE_MAKER_IFD_AT + 2 {
        return None;
    }
    let n: usize = get_word16(le, block, start + APPLE_MAKER_IFD_AT) as usize;
    let mut out: Vec<AppleEntry> = Vec::new();
    let mut i: usize = 0;
    while i < n
        invariant
            i <= n <= 0xffff,
            s == block@,
            start <= end <= s.len(),
            room == end - start,
            n == word16(le, s, start + APPLE_MAKER_IFD_AT),
            first_apple_entries(s, start as int, end as int, le, i as int) == Some(out@),
        decreases n - i,
    {
        let e: usize = APPLE_MAKER_IFD_AT + 2 + 12 * i;
        proof {
            if apple_entry(s, start as int, end as int, le, i as int) is None {
                lemma_entries_fail(s, start as int, end as int, le, i + 1, n as int);
            }
        }
        if room < e + 8 {
            return None;
        }
        let tag: u16 = get_word16(le, block, start + e);
        let typ: u16 = get_word16(le, block, start + e + 2);
        let count: u32 = get_word32(le, block, start + e + 4);
        let each: u64 = type_size(typ) as u64;
        assert(each * count <= 8 * 0xffff_ffff) by (nonlinear_arith)
            requires
                each <= 8,
                count <= 0xffff_ffff,
        ;
        let rel: usize = if each * count as u64 <= 4 {
            e + 8
        } else {
            if room < e + 12 {
                return None;
            }
            get_word32(le, block, start + e + 8) as usize
        };
        out.push(AppleEntry { tag, typ, count, rel, at: e });
        i = i + 1;
    }
    Some(out)
}

/// The first entry with a tag, from position `i` on.
pub open spec fn find_apple(entries: Seq<AppleEntry>, tag: u16, i: int) -> Option<AppleEntry>
    decreases entries.len() - i,
{
    if i >= entries.len() {
        None
    } else if entries[i].tag == tag {
        Some(entries[i])
    } else {
        find_apple(entries, tag, i + 1)
    }
}

/// The first entry with a tag, if it is a single RATIONAL: the only shape either tag is
/// written in, and at 8 bytes always out of line, so a value offset is a value offset.
pub open spec fn find_rational(entries: Seq<AppleEntry>, tag: u16) -> Option<AppleEntry> {
    match find_apple(entries, tag, 0) {
        Some(e) => if (e.typ == 5 || e.typ == 10) && e.count == 1 {
            Some(e)
        } else {
            None
        },
        None => None,
    }
}

fn find_tag_pair(entries: &Vec<AppleEntry>, tag: u16) -> (r: Option<AppleEntry>)
    ensures
        r == find_rational(entries@, tag),
{
    let mut i: usize = 0;
    while i < entries.len()
        invariant
            i <= entries@.len(),
            find_apple(entries@, tag, 0) == find_apple(entries@, tag, i as int),
        decreases entries@.len() - i,
    {
        if entries[i].tag == tag {
            let e = entries[i];
            return if (e.typ == 5 || e.typ == 10) && e.count == 1 {
                Some(e)
            } else {
                None
            };
        }
        i = i + 1;
    }
    None
}

/// The byte order a note states for itself.
pub open spec fn note_order(s: Seq<u8>, start: int, len: int) -> bool {
    len >= 14 && s[start + 12] == 0x49 && s[start + 13] == 0x49
}

/// The pair of tags in the Apple `MakerNote` of a block, when both are there.
pub open spec fn headroom_pair(s: Seq<u8>) -> Option<HeadroomTags> {
    match located_note(s) {
        None => None,
        Some(note) => {
            let (start, len) = note;
            let le = note_order(s, start, len);
            match apple_entries(s, start, start + len, le) {
                None => None,
                Some(entries) => match (
                    find_rational(entries, APPLE_TAG_HEADROOM),
                    find_rational(entries, APPLE_TAG_GAIN),
                ) {
                    (Some(a), Some(b)) => if a.rel + 8 > len || b.rel + 8 > len {
                        None
                    } else {
                        Some(
                            HeadroomTags {
                                little_endian: le,
                                start: start as usize,
                                at33: a.rel,
                                at48: b.rel,
                                n33: word32(le, s, start + a.rel) as i32,
                                d33: word32(le, s, start + a.rel + 4) as i32,
                                d48: word32(le, s, start + b.rel + 4) as i32,
                            },
                        )
                    },
                    _ => None,
                },
            }
        },
    }
}

/// The pair of tags in the Apple `MakerNote` of a block, when both are there.
pub fn find_headroom_tags(block: &[u8]) -> (r: Option<HeadroomTags>)
    ensures
        r == headroom_pair(block@),
        r matches Some(t) ==> t.start + t.at33 + 8 <= block@.len() && t.start + t.at48 + 8
            <= block@.len(),
{
    let (start, len): (usize, usize) = match locate_apple_maker_note(block) {
        Some(x) => x,
        None => {
            return None;
        },
    };
    let total: usize = block.len();
    assert(start + len <= total);
    let le: bool = len >= 14 && block[start + 12] == 0x49 && block[start + 13] == 0x49;
    let entries = match apple_maker_entries(block, start, start + len, le) {
        Some(v) => v,
        None => {
            return None;
        },
    };
    match (
        find_tag_pair(&entries, APPLE_TAG_HEADROOM),
        find_tag_pair(&entries, APPLE_TAG_GAIN),
    ) {
        (Some(a), Some(b)) => {
            if len < 8 || a.rel > len - 8 || b.rel > len - 8 {
                return None;
            }
            Some(
                HeadroomTags {
                    little_endian: le,
                    start,
                    at33: a.rel,
                    at48: b.rel,
                    n33: get_word32(le, block, start + a.rel) as i32,
                    d33: get_word32(le, block, start + a.rel + 4) as i32,
                    d48: get_word32(le, block, start + b.rel + 4) as i32,
                },
            )
        },
        _ => None,
    }
}

/// A block with a rational written at `p`.
pub open spec fn with_rational(s: Seq<u8>, le: bool, p: int, num: i32, den: i32) -> Seq<u8> {
    s.subrange(0, p) + word32_bytes(le, num as u32) + word32_bytes(le, den as u32) + s.subrange(
        p + 8,
        s.len() as int,
    )
}

fn put_rational(block: &mut Vec<u8>, le: bool, p: usize, num: i32, den: i32)
    requires
        p + 8 <= old(block)@.len(),
    ensures
        final(block)@ == with_rational(old(block)@, le, p as int, num, den),
        final(block)@.len() == old(block)@.len(),
{
    let mut out: Vec<u8> = Vec::new();
    let len: usize = block.len();
    push_all(&mut out, span(block.as_slice(), 0, p));
    push_word32(&mut out, le, num as u32);
    push_word32(&mut out, le, den as u32);
    push_all(&mut out, span(block.as_slice(), p + 8, len));
    assert(out@ =~= with_rational(block@, le, p as int, num, den));
    *block = out;
}

/// Whether an entry stays when the pair is removed.
pub open spec fn stays(e: AppleEntry) -> bool {
    e.tag != APPLE_TAG_HEADROOM && e.tag != APPLE_TAG_GAIN
}

/// How many of the first `n` entries stay.
pub open spec fn staying(entries: Seq<AppleEntry>, n: int) -> int
    decreases n,
{
    if n <= 0 {
        0
    } else {
        staying(entries, n - 1) + if stays(entries[n - 1]) {
            1int
        } else {
            0
        }
    }
}

/// The twelve bytes of each of the first `n` entries that stay.
pub open spec fn packed(s: Seq<u8>, start: int, entries: Seq<AppleEntry>, n: int) -> Seq<u8>
    decreases n,
{
    if n <= 0 {
        seq![]
    } else {
        packed(s, start, entries, n - 1) + if stays(entries[n - 1]) {
            s.subrange(start + entries[n - 1].at, start + entries[n - 1].at + 12)
        } else {
            seq![]
        }
    }
}

/// A block without the pair, when there is room for what closes the IFD.
///
/// Compacting the entry array and decrementing the count is enough: values are reached by
/// explicit offset, so the survivors' values stay exactly where they were, and the bytes
/// freed at the end of the array become slack that nothing points into.
pub open spec fn without_pair(s: Seq<u8>, start: int, le: bool) -> Option<Seq<u8>> {
    match apple_entries(s, start, s.len() as int, le) {
        None => None,
        Some(entries) => {
            let n = entries.len() as int;
            let ifd = start + APPLE_MAKER_IFD_AT;
            let next = ifd + 2 + 12 * n;
            let kept = packed(s, start, entries, n);
            if staying(entries, n) == n || next + 4 > s.len() {
                None
            } else {
                Some(
                    s.subrange(0, ifd) + word16_bytes(le, staying(entries, n) as u16) + kept
                        + s.subrange(next, next + 4) + s.subrange(
                        ifd + 6 + kept.len(),
                        s.len() as int,
                    ),
                )
            }
        },
    }
}

/// What an edit makes of a block, and what is reported of it.
pub open spec fn aligned(s: Seq<u8>, edit: HeadroomEdit) -> (Seq<u8>, AppleHeadroom) {
    match headroom_pair(s) {
        None => (s, AppleHeadroom::Absent),
        Some(t) => match edit {
            HeadroomEdit::Remove => match without_pair(s, t.start as int, t.little_endian) {
                Some(x) => (x, AppleHeadroom::Removed),
                None => (s, AppleHeadroom::Absent),
            },
            HeadroomEdit::Rewrite { num48, den48 } => {
                let a = with_rational(s, t.little_endian, t.start + t.at48, num48, den48);
                let d = if t.d33 <= 0 {
                    PLAIN_DENOMINATOR
                } else {
                    t.d33
                };
                (
                    if t.is_low() {
                        with_rational(a, t.little_endian, t.start + t.at33, d, d)
                    } else {
                        a
                    },
                    AppleHeadroom::Rewritten,
                )
            },
        },
    }
}

proof fn lemma_packed_len(s: Seq<u8>, start: int, entries: Seq<AppleEntry>, n: int)
    requires
        0 <= n <= entries.len(),
        0 <= start,
        forall|k: int|
            0 <= k < entries.len() ==> (#[trigger] entries[k]).at == apple_entry_at(k),
        start + apple_entry_at(n) <= s.len(),
    ensures
        packed(s, start, entries, n).len() == 12 * staying(entries, n),
        0 <= staying(entries, n) <= n,
    decreases n,
{
    if n > 0 {
        lemma_packed_len(s, start, entries, n - 1);
        assert(entries[n - 1].at == apple_entry_at(n - 1));
    }
}

proof fn lemma_entry_places(s: Seq<u8>, start: int, end: int, le: bool, n: int)
    requires
        0 <= n <= 0xffff,
    ensures
        first_apple_entries(s, start, end, le, n) matches Some(v) ==> v.len() == n && forall|k: int|
            0 <= k < n ==> (#[trigger] v[k]).at == apple_entry_at(k),
    decreases n,
{
    if n > 0 {
        lemma_entry_places(s, start, end, le, n - 1);
    }
}

proof fn lemma_staying_grows(entries: Seq<AppleEntry>, a: int, b: int)
    requires
        0 <= a <= b,
    ensures
        staying(entries, b) - staying(entries, a) <= b - a,
        staying(entries, a) <= staying(entries, b),
    decreases b,
{
    if a < b {
        lemma_staying_grows(entries, a, b - 1);
    }
}

/// Drops the pair from an Apple `MakerNote`'s IFD without moving anything else. The
/// note's length is unchanged, which is what keeps the outer entry's byte count and the
/// pinned offset true.
fn remove_apple_entries(block: &mut Vec<u8>, start: usize, le: bool) -> (done: bool)
    requires
        start <= old(block)@.len(),
    ensures
        match without_pair(old(block)@, start as int, le) {
            Some(x) => done && final(block)@ == x,
            None => !done && final(block)@ == old(block)@,
        },
        final(block)@.len() == old(block)@.len(),
{
    let ghost s = block@;
    let len: usize = block.len();
    let entries = match apple_maker_entries(block.as_slice(), start, len, le) {
        Some(v) => v,
        None => {
            return false;
        },
    };
    let n: usize = entries.len();
    let ghost es = entries@;
    proof {
        lemma_entry_places(
            s,
            start as int,
            len as int,
            le,
            word16(le, s, start + APPLE_MAKER_IFD_AT) as int,
        );
    }
    let room: usize = len - start;
    if room < APPLE_MAKER_IFD_AT + 2 + 12 * n + 4 {
        return false;
    }
    let ifd: usize = start + APPLE_MAKER_IFD_AT;
    let next: usize = ifd + 2 + 12 * n;
    let mut kept: Vec<u8> = Vec::new();
    let mut count: u16 = 0;
    let mut i: usize = 0;
    while i < n
        invariant
            i <= n <= 0xffff,
            es == entries@,
            n == es.len(),
            s == block@,
            len == s.len(),
            start <= len,
            start + apple_entry_at(n as int) + 4 <= len,
            forall|k: int| 0 <= k < n ==> (#[trigger] es[k]).at == apple_entry_at(k),
            count == staying(es, i as int),
            count <= i,
            kept@ == packed(s, start as int, es, i as int),
        decreases n - i,
    {
        let e = entries[i];
        assert(es[i as int].at == apple_entry_at(i as int));
        if e.tag != APPLE_TAG_HEADROOM && e.tag != APPLE_TAG_GAIN {
            push_all(&mut kept, span(block.as_slice(), start + e.at, start + e.at + 12));
            count = count + 1;
        }
        assert(kept@ =~= packed(s, start as int, es, i + 1));
        i = i + 1;
    }
    if count as usize == n {
        return false;
    }
    proof {
        lemma_packed_len(s, start as int, es, n as int);
    }
    let mut out: Vec<u8> = Vec::new();
    push_all(&mut out, span(block.as_slice(), 0, ifd));
    push_word16(&mut out, le, count);
    push_all(&mut out, kept.as_slice());
    push_all(&mut out, span(block.as_slice(), next, next + 4));
    push_all(&mut out, span(block.as_slice(), ifd + 6 + kept.len(), len));
    assert(out@ =~= without_pair(s, start as int, le)->Some_0);
    *block = out;
    true
}

/// Makes the carried `MakerNote`'s headroom what an edit says.
///
/// Both tags keep their places, so the note's length never changes and the pin stays
/// valid. Tag 33 only picks a branch at the 1.0 threshold, so a value already there is
/// left as the camera wrote it.
pub fn align_apple_headroom(block: &mut Vec<u8>, edit: HeadroomEdit) -> (r: AppleHeadroom)
    ensures
        final(block)@ == aligned(old(block)@, edit).0,
        r == aligned(old(block)@, edit).1,
        final(block)@.len() == old(block)@.len(),
{
    let t = match find_headroom_tags(block.as_slice()) {
        Some(t) => t,
        None => {
            return AppleHeadroom::Absent;
        },
    };
    let le: bool = t.little_endian;
    let total: usize = block.len();
    assert(t.start + t.at33 + 8 <= total && t.start + t.at48 + 8 <= total);
    match edit {
        HeadroomEdit::Remove => if remove_apple_entries(block, t.start, le) {
            AppleHeadroom::Removed
        } else {
            AppleHeadroom::Absent
        },
        HeadroomEdit::Rewrite { num48, den48 } => {
            put_rational(block, le, t.start + t.at48, num48, den48);
            if t.needs_raising() {
                let d: i32 = if t.d33 <= 0 {
                    PLAIN_DENOMINATOR
                } else {
                    t.d33
                };
                put_rational(block, le, t.start + t.at33, d, d);
            }
            AppleHeadroom::Rewritten
        },
    }
}

proof fn lemma_entries_reach(s: Seq<u8>, start: int, end: int, le: bool, n: int)
    requires
        0 < n,
        first_apple_entries(s, start, end, le, n) is Some,
    ensures
        start + apple_entry_at(n) - 4 <= end,
{
    assert(apple_entry(s, start, end, le, n - 1) is Some);
}

proof fn lemma_find_apple(entries: Seq<AppleEntry>, tag: u16, i: int)
    requires
        0 <= i,
        find_apple(entries, tag, i) is Some,
    ensures
        exists|k: int| i <= k < entries.len() && (#[trigger] entries[k]).tag == tag,
    decreases entries.len() - i,
{
    if entries[i].tag != tag {
        lemma_find_apple(entries, tag, i + 1);
    }
}

/// Two entries that go make two fewer.
proof fn lemma_two_go(entries: Seq<AppleEntry>, n: int, a: int, b: int)
    requires
        0 <= a < n <= entries.len(),
        0 <= b < n,
        a != b,
        !stays(entries[a]),
        !stays(entries[b]),
    ensures
        staying(entries, n) <= n - 2,
{
    let (x, y) = if a < b {
        (a, b)
    } else {
        (b, a)
    };
    lemma_staying_grows(entries, 0, x);
    lemma_staying_grows(entries, x + 1, y);
    lemma_staying_grows(entries, y + 1, n);
}

/// More room to read in leaves what was read as it was.
proof fn lemma_more_room(s: Seq<u8>, start: int, end: int, more: int, le: bool, n: int)
    requires
        end <= more,
        first_apple_entries(s, start, end, le, n) is Some,
    ensures
        first_apple_entries(s, start, more, le, n) == first_apple_entries(s, start, end, le, n),
    decreases n,
{
    if n > 0 {
        lemma_more_room(s, start, end, more, le, n - 1);
        assert(apple_entry(s, start, more, le, n - 1) == apple_entry(s, start, end, le, n - 1));
    }
}

/// Whatever an edit makes of a block, the block is as long as it was and nothing outside
/// of the note is touched; without a note nothing is touched at all.
pub proof fn only_the_note_is_touched(s: Seq<u8>, edit: HeadroomEdit, p: int)
    requires
        0 <= p < s.len() <= usize::MAX,
        located_note(s) matches Some(note) ==> !(note.0 <= p < note.0 + note.1),
    ensures
        aligned(s, edit).0.len() == s.len(),
        aligned(s, edit).0[p] == s[p],
{
    if let Some(t) = headroom_pair(s) {
        let (start, len) = located_note(s)->Some_0;
        let le = t.little_endian;
        let v = apple_entries(s, start, start + len, le)->Some_0;
        let n = word16(le, s, start + APPLE_MAKER_IFD_AT) as int;
        lemma_note_is_inside(s);
        if edit is Remove && without_pair(s, start, le) is Some {
            lemma_more_room(s, start, start + len, s.len() as int, le, n);
            lemma_entry_places(s, start, s.len() as int, le, n);
            lemma_find_apple(v, APPLE_TAG_HEADROOM, 0);
            lemma_find_apple(v, APPLE_TAG_GAIN, 0);
            let a = choose|k: int| 0 <= k < v.len() && (#[trigger] v[k]).tag == APPLE_TAG_HEADROOM;
            let b = choose|k: int| 0 <= k < v.len() && (#[trigger] v[k]).tag == APPLE_TAG_GAIN;
            lemma_two_go(v, n, a, b);
            lemma_packed_len(s, start, v, n);
            lemma_entries_reach(s, start, start + len, le, n);
        }
    }
}

/// A note lies inside its block.
pub proof fn lemma_note_is_inside(s: Seq<u8>)
    ensures
        located_note(s) matches Some(note) ==> 0 <= note.0 && 0 <= note.1 && note.0 + note.1
            <= s.len(),
{
    if let Some(note) = located_note(s) {
        let t = opened(s)->Some_0;
        let x = sub_ifd(s, t.0, ifd_of(s, t.0, t.1)->Ok_0, TAG_EXIF_IFD)->Some_0;
        let e = find_tag(x.entries, TAG_MAKER_NOTE, 0)->Some_0;
        lemma_sub_ifd_placed(s, t.0, ifd_of(s, t.0, t.1)->Ok_0, TAG_EXIF_IFD);
        lemma_found_is_placed(x.entries, TAG_MAKER_NOTE, 0);
        assert(0 <= e.count * size_of(e.typ)) by (nonlinear_arith)
            requires
                size_of(e.typ) >= 0,
                e.count >= 0,
        ;
    }
}

} // verus!
