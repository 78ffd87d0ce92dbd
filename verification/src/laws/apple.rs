//! Where the headroom that an Apple `MakerNote` states has to be found.

use vstd::prelude::*;
use vstd::utf8::{encode_utf8, is_ascii_chars_encode_utf8};

use crate::laws::exif::{bytes_at, is_readable};
use crate::laws::tiff::a_value_is_the_bytes_at_its_place;
use crate::laws::{number16, number32, words_are_the_numbers_their_bytes_make};
use crate::portable::apple::{
    apple_entries, apple_entry, find_apple, find_headroom_tags, first_apple_entries, located_note,
    AppleEntry, HeadroomTags,
};
use crate::portable::exif::{sub_ifd, APPLE_MAKER_SIG};
use crate::portable::tiff::{find_tag, ifd_of, opened, EntryView, Fault, IfdView};

verus! {

/// Whether a note of `len` bytes at `start` states its numbers low byte first: `II` in its bytes
/// 12 and 13.
pub open spec fn is_low_first(s: Seq<u8>, start: int, len: int) -> bool {
    len >= 14 && s[start + 12] == 73 && s[start + 13] == 73
}

/// Where entry `i` of a note's IFD is, which begins behind the note's first 14 bytes.
pub open spec fn entry_place(start: int, i: int) -> int {
    start + 16 + 12 * i
}

/// Whether entry `i` of a note's IFD is for a tag.
pub open spec fn is_for(s: Seq<u8>, start: int, le: bool, i: int, tag: int) -> bool {
    number16(le, s, entry_place(start, i)) == tag
}

/// Whether entry `i` of a note's IFD is one fraction, signed or not, inside the note.
pub open spec fn is_fraction(s: Seq<u8>, start: int, len: int, le: bool, i: int) -> bool {
    let at = entry_place(start, i);
    &&& number16(le, s, at + 2) == 5 || number16(le, s, at + 2) == 10
    &&& number32(le, s, at + 4) == 1
    &&& number32(le, s, at + 8) + 8 <= len
}

proof fn lemma_entry(s: Seq<u8>, start: int, len: int, le: bool, i: int)
    requires
        0 <= i,
        entry_place(start, i) + 12 <= start + len,
    ensures
        apple_entry(s, start, start + len, le, i) matches Some(e) && e.tag == number16(
            le,
            s,
            entry_place(start, i),
        ),
        is_fraction(s, start, len, le, i) ==> (apple_entry(
            s,
            start,
            start + len,
            le,
            i,
        ) matches Some(e) && (e.typ == 5 || e.typ == 10) && e.count == 1 && e.rel == number32(
            le,
            s,
            entry_place(start, i) + 8,
        )),
{
    let at = entry_place(start, i);
    words_are_the_numbers_their_bytes_make(le, s, at);
    words_are_the_numbers_their_bytes_make(le, s, at + 2);
    words_are_the_numbers_their_bytes_make(le, s, at + 4);
    words_are_the_numbers_their_bytes_make(le, s, at + 8);
}

proof fn lemma_entries(s: Seq<u8>, start: int, len: int, le: bool, n: int)
    requires
        0 <= n,
        entry_place(start, n) <= start + len,
    ensures
        first_apple_entries(s, start, start + len, le, n) matches Some(v) && v.len() == n
            && forall|k: int|
            0 <= k < n ==> apple_entry(s, start, start + len, le, k) == Some(#[trigger] v[k]),
    decreases n,
{
    if n > 0 {
        lemma_entries(s, start, len, le, n - 1);
        lemma_entry(s, start, len, le, n - 1);
    }
}

proof fn lemma_first(v: Seq<AppleEntry>, tag: u16, from: int, k: int)
    requires
        0 <= from <= k < v.len(),
        v[k].tag == tag,
        forall|j: int| from <= j < k ==> (#[trigger] v[j]).tag != tag,
    ensures
        find_apple(v, tag, from) == Some(v[k]),
    decreases k - from,
{
    if from < k {
        lemma_first(v, tag, from + 1, k);
    }
}

/// The pair is the first entry for tag 33 and the first for tag 48 of the note's IFD, both
/// fractions, whose places are counted from the start of the note. What is found of them is
/// where they are and what they state.
pub proof fn the_headroom_is_tags_33_and_48(
    block: &[u8],
    r: Option<HeadroomTags>,
    start: int,
    len: int,
    i: int,
    j: int,
)
    requires
        call_ensures(find_headroom_tags, (block,), r),
        located_note(block@) == Some((start, len)),
        0 <= start,
        len >= 16,
        start + len <= block@.len() <= usize::MAX,
        ({
            let s = block@;
            let le = is_low_first(s, start, len);
            let n = number16(le, s, start + 14);
            &&& entry_place(start, n) <= start + len
            &&& 0 <= i < n && is_for(s, start, le, i, 33) && is_fraction(s, start, len, le, i)
            &&& forall|k: int| 0 <= k < i ==> !#[trigger] is_for(s, start, le, k, 33)
            &&& 0 <= j < n && is_for(s, start, le, j, 48) && is_fraction(s, start, len, le, j)
            &&& forall|k: int| 0 <= k < j ==> !#[trigger] is_for(s, start, le, k, 48)
        }),
    ensures
        ({
            let s = block@;
            let le = is_low_first(s, start, len);
            let at33 = number32(le, s, entry_place(start, i) + 8);
            let at48 = number32(le, s, entry_place(start, j) + 8);
            r == Some(
                HeadroomTags {
                    little_endian: le,
                    start: start as usize,
                    at33: at33 as usize,
                    at48: at48 as usize,
                    n33: number32(le, s, start + at33) as u32 as i32,
                    d33: number32(le, s, start + at33 + 4) as u32 as i32,
                    d48: number32(le, s, start + at48 + 4) as u32 as i32,
                },
            )
        }),
{
    let s = block@;
    let le = is_low_first(s, start, len);
    let n = number16(le, s, start + 14);
    words_are_the_numbers_their_bytes_make(le, s, start + 14);
    lemma_entries(s, start, len, le, n);
    let v = apple_entries(s, start, start + len, le)->Some_0;
    assert forall|k: int| 0 <= k < n implies (#[trigger] v[k]).tag == number16(
        le,
        s,
        entry_place(start, k),
    ) by {
        lemma_entry(s, start, len, le, k);
    }
    lemma_entry(s, start, len, le, i);
    lemma_entry(s, start, len, le, j);
    assert forall|k: int| 0 <= k < i implies (#[trigger] v[k]).tag != 33 by {
        assert(!is_for(s, start, le, k, 33));
    }
    assert forall|k: int| 0 <= k < j implies (#[trigger] v[k]).tag != 48 by {
        assert(!is_for(s, start, le, k, 48));
    }
    assert(v[i].tag == 33 && v[j].tag == 48);
    lemma_first(v, 33, 0, i);
    lemma_first(v, 48, 0, j);
    let at33 = number32(le, s, entry_place(start, i) + 8);
    let at48 = number32(le, s, entry_place(start, j) + 8);
    words_are_the_numbers_their_bytes_make(le, s, start + at33);
    words_are_the_numbers_their_bytes_make(le, s, start + at33 + 4);
    words_are_the_numbers_their_bytes_make(le, s, start + at48 + 4);
}

/// The note is tag 37500 of the Exif IFD, when it begins with `Apple iOS` and two zeros.
pub proof fn an_apple_note_is_known_by_its_first_bytes(
    s: Seq<u8>,
    le: bool,
    first: int,
    ifd0: IfdView,
    x: IfdView,
    e: EntryView,
)
    requires
        opened(s) == Some((le, first)),
        ifd_of(s, le, first) == Ok::<IfdView, Fault>(ifd0),
        sub_ifd(s, le, ifd0, 34665) == Some(x),
        find_tag(x.entries, 37500, 0) == Some(e),
        is_readable(s, e),
    ensures
        ({
            let b = bytes_at(s, e);
            let sig = seq![0x41u8, 0x70, 0x70, 0x6c, 0x65, 0x20, 0x69, 0x4f, 0x53, 0, 0];
            if b.len() >= 11 && b.subrange(0, 11) == sig {
                located_note(s) == Some((e.value_off, b.len() as int))
            } else {
                located_note(s) is None
            }
        }),
{
    a_value_is_the_bytes_at_its_place(s, e);
    reveal_strlit("Apple iOS\0\0");
    is_ascii_chars_encode_utf8(APPLE_MAKER_SIG@);
    let sig = seq![0x41u8, 0x70, 0x70, 0x6c, 0x65, 0x20, 0x69, 0x4f, 0x53, 0, 0];
    assert(encode_utf8(APPLE_MAKER_SIG@) =~= sig);
}

} // verus!
