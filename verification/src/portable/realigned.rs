//! What a realigned `MakerNote` states: the headroom it was given, or none.

use vstd::prelude::*;
use vstd::utf8::encode_utf8;

use crate::bytes::{
    group_encoded_lengths, lemma_word16_read_back, lemma_word32_read_back, matches_at, word16,
    word16_bytes, word32, word32_bytes,
};
use crate::portable::apple::{
    aligned, apple_entries, apple_entry, apple_entry_at, find_apple, first_apple_entries,
    headroom_pair, lemma_note_is_inside, located_note, note_order, packed, staying, stays,
    with_rational, without_pair, AppleEntry, HeadroomEdit, HeadroomTags, APPLE_MAKER_IFD_AT,
    APPLE_TAG_HEADROOM, PLAIN_DENOMINATOR,
};
use crate::portable::exif::{APPLE_MAKER_SIG, TAG_EXIF_IFD, TAG_MAKER_NOTE};
use crate::portable::tiff::{
    entries_from, find_tag, first_integer, ifd_of, integer_at, integers_of, opened, value_of,
};

verus! {

broadcast use group_encoded_lengths;

/// Whether two blocks are as long and differ, if at all, from `m` on.
spec fn agree_before(s: Seq<u8>, x: Seq<u8>, m: int) -> bool {
    s.len() == x.len() && m <= s.len() && forall|p: int| 0 <= p < m ==> #[trigger] s[p] == x[p]
}

proof fn lemma_words_agree(s: Seq<u8>, x: Seq<u8>, m: int, le: bool, p: int)
    requires
        agree_before(s, x, m),
        0 <= p,
    ensures
        p + 2 <= m ==> word16(le, s, p) == word16(le, x, p),
        p + 4 <= m ==> word32(le, s, p) == word32(le, x, p),
{
}

/// The end of an IFD with `n` entries, without the pointer to the next.
pub open spec fn table_end(at: int, n: int) -> int {
    at + 2 + 12 * n
}

proof fn lemma_entries_agree(
    s: Seq<u8>,
    x: Seq<u8>,
    m: int,
    le: bool,
    at: int,
    i: int,
    n: int,
)
    requires
        agree_before(s, x, m),
        0 <= at,
        0 <= i,
        table_end(at, n) <= m,
    ensures
        entries_from(x, le, at, i, n) == entries_from(s, le, at, i, n),
    decreases n - i,
{
    if i < n {
        let e = at + 2 + 12 * i;
        lemma_words_agree(s, x, m, le, e);
        lemma_words_agree(s, x, m, le, e + 2);
        lemma_words_agree(s, x, m, le, e + 4);
        lemma_words_agree(s, x, m, le, e + 8);
        lemma_entries_agree(s, x, m, le, at, i + 1, n);
    }
}

proof fn lemma_ifd_agrees(s: Seq<u8>, x: Seq<u8>, m: int, le: bool, at: int)
    requires
        agree_before(s, x, m),
        0 <= at,
        at + 2 <= m,
        table_end(at, word16(le, s, at) as int) + 4 <= m,
    ensures
        ifd_of(x, le, at) == ifd_of(s, le, at),
{
    let n = word16(le, s, at) as int;
    lemma_words_agree(s, x, m, le, at);
    lemma_words_agree(s, x, m, le, table_end(at, n));
    lemma_entries_agree(s, x, m, le, at, 0, n);
}

/// Whether what leads to the `MakerNote` of a block -- the header, the first IFD, and the
/// Exif IFD it points at -- lies before the note, as it does in every block that is
/// written here.
pub open spec fn note_stands_apart(s: Seq<u8>) -> bool {
    &&& opened(s) is Some
    &&& located_note(s) is Some
    &&& {
        let (le, first) = opened(s)->Some_0;
        let start = located_note(s)->Some_0.0;
        let pointer = find_tag(ifd_of(s, le, first)->Ok_0.entries, TAG_EXIF_IFD, 0)->Some_0;
        let exif = first_integer(s, le, Some(pointer))->Some_0 as int;
        &&& 8 <= start
        &&& table_end(first, word16(le, s, first) as int) + 4 <= start
        &&& 0 <= pointer.value_off
        &&& pointer.value_off + 4 <= start
        &&& table_end(exif, word16(le, s, exif) as int) + 4 <= start
    }
}

/// A note that stands apart is found where it was, as long as its head is as it was.
proof fn lemma_located_again(s: Seq<u8>, x: Seq<u8>)
    requires
        note_stands_apart(s),
        agree_before(s, x, located_note(s)->Some_0.0),
        located_note(s)->Some_0.0 + located_note(s)->Some_0.1 <= s.len(),
        forall|p: int|
            located_note(s)->Some_0.0 <= p < located_note(s)->Some_0.0 + 14 && p < located_note(
                s,
            )->Some_0.0 + located_note(s)->Some_0.1 ==> #[trigger] s[p] == x[p],
    ensures
        located_note(x) == located_note(s),
{
    let (le, first) = opened(s)->Some_0;
    let (start, len) = located_note(s)->Some_0;
    lemma_words_agree(s, x, start, true, 2);
    lemma_words_agree(s, x, start, false, 2);
    lemma_words_agree(s, x, start, true, 4);
    lemma_words_agree(s, x, start, false, 4);
    assert(opened(x) == opened(s));
    lemma_ifd_agrees(s, x, start, le, first);
    let ifd0 = ifd_of(s, le, first)->Ok_0;
    let pointer = find_tag(ifd0.entries, TAG_EXIF_IFD, 0)->Some_0;
    let exif = first_integer(s, le, Some(pointer))->Some_0;
    lemma_words_agree(s, x, start, le, pointer.value_off);
    assert(first_integer(x, le, Some(pointer)) == Some(exif)) by {
        let v = integers_of(s, le, pointer)->Ok_0;
        let w = integers_of(x, le, pointer)->Ok_0;
        let size = crate::portable::tiff::size_of(pointer.typ);
        assert(v[0] == integer_at(s, le, size, pointer.value_off + 0 * size));
        assert(w[0] == integer_at(x, le, size, pointer.value_off + 0 * size));
        lemma_words_agree(s, x, start, le, pointer.value_off);
    }
    lemma_ifd_agrees(s, x, start, le, exif as int);
    let ex = ifd_of(s, le, exif as int)->Ok_0;
    let e = find_tag(ex.entries, TAG_MAKER_NOTE, 0)->Some_0;
    let b = value_of(s, e)->Ok_0;
    let c = value_of(x, e)->Ok_0;
    let sig = encode_utf8(APPLE_MAKER_SIG@);
    lemma_sig_len();
    assert(e.value_off == start);
    assert(matches_at(b, 0, sig));
    assert(matches_at(c, 0, sig)) by {
        assert(c.subrange(0, sig.len() as int) =~= b.subrange(0, sig.len() as int)) by {
            assert forall|p: int| 0 <= p < sig.len() implies c[p] == b[p] by {
                assert(s[start + p] == x[start + p]);
            }
        }
    }
}

proof fn lemma_sig_len()
    ensures
        encode_utf8(APPLE_MAKER_SIG@).len() == 11,
{
    reveal_strlit("Apple iOS\0\0");
    vstd::utf8::is_ascii_chars_encode_utf8(APPLE_MAKER_SIG@);
}

/// Whether the two values of the pair lie behind the note's IFD and beside each other.
pub open spec fn values_stand_apart(s: Seq<u8>, t: HeadroomTags) -> bool {
    let n = word16(t.little_endian, s, t.start + APPLE_MAKER_IFD_AT) as int;
    &&& apple_entry_at(n) <= t.at33
    &&& apple_entry_at(n) <= t.at48
    &&& t.at33 + 8 <= t.at48 || t.at48 + 8 <= t.at33
}

proof fn lemma_apple_entries_agree(
    s: Seq<u8>,
    x: Seq<u8>,
    start: int,
    end: int,
    le: bool,
    n: int,
)
    requires
        0 <= start,
        agree_before(s, x, start + apple_entry_at(n)),
        0 <= n,
    ensures
        first_apple_entries(x, start, end, le, n) == first_apple_entries(s, start, end, le, n),
    decreases n,
{
    if n > 0 {
        let m = start + apple_entry_at(n);
        let e = start + apple_entry_at(n - 1);
        lemma_apple_entries_agree(s, x, start, end, le, n - 1);
        lemma_words_agree(s, x, m, le, e);
        lemma_words_agree(s, x, m, le, e + 2);
        lemma_words_agree(s, x, m, le, e + 4);
        lemma_words_agree(s, x, m, le, e + 8);
    }
}

/// A rational that was written is the one that is read.
proof fn lemma_rational(s: Seq<u8>, le: bool, p: int, num: i32, den: i32)
    requires
        0 <= p,
        p + 8 <= s.len(),
    ensures
        ({
            let x = with_rational(s, le, p, num, den);
            &&& x.len() == s.len()
            &&& forall|q: int| 0 <= q < s.len() && !(p <= q < p + 8) ==> #[trigger] x[q] == s[q]
            &&& word32(le, x, p) as i32 == num
            &&& word32(le, x, p + 4) as i32 == den
        }),
{
    let x = with_rational(s, le, p, num, den);
    assert(x.subrange(p, p + 4) =~= word32_bytes(le, num as u32));
    assert(x.subrange(p + 4, p + 8) =~= word32_bytes(le, den as u32));
    lemma_word32_read_back(le, num as u32, x, p);
    lemma_word32_read_back(le, den as u32, x, p + 4);
    lemma_same_sign(num);
    lemma_same_sign(den);
}

proof fn lemma_same_sign(v: i32)
    ensures
        (v as u32) as i32 == v,
{
    assert((v as u32) as i32 == v) by (bit_vector);
}

/// What is not written over is read as it was.
proof fn lemma_words_stay(s: Seq<u8>, x: Seq<u8>, le: bool, p: int, a: int)
    requires
        s.len() == x.len(),
        0 <= a,
        a + 8 <= s.len(),
        a + 8 <= p || p + 8 <= a,
        forall|q: int| 0 <= q < s.len() && !(p <= q < p + 8) ==> #[trigger] x[q] == s[q],
    ensures
        word32(le, x, a) == word32(le, s, a),
        word32(le, x, a + 4) == word32(le, s, a + 4),
{
}

/// The pair of a block is read from its note.
proof fn lemma_pair(s: Seq<u8>, t: HeadroomTags)
    requires
        headroom_pair(s) == Some(t),
        s.len() <= usize::MAX,
        located_note(s) matches Some(note) ==> 0 <= note.0 && note.0 + note.1 <= s.len(),
    ensures
        ({
            let (start, len) = located_note(s)->Some_0;
            &&& located_note(s) is Some
            &&& t.start == start
            &&& t.little_endian == note_order(s, start, len)
            &&& APPLE_MAKER_IFD_AT + 2 <= len
            &&& t.at33 + 8 <= len
            &&& t.at48 + 8 <= len
        }),
{
}

/// A block whose note's IFD is as it was has the pair where it was.
proof fn lemma_pair_again(s: Seq<u8>, x: Seq<u8>, t: HeadroomTags)
    requires
        headroom_pair(s) == Some(t),
        s.len() <= usize::MAX,
        note_stands_apart(s),
        located_note(s)->Some_0.0 + located_note(s)->Some_0.1 <= s.len(),
        agree_before(
            s,
            x,
            t.start + apple_entry_at(
                word16(t.little_endian, s, t.start + APPLE_MAKER_IFD_AT) as int,
            ),
        ),
    ensures
        headroom_pair(x) == Some(
            HeadroomTags {
                n33: word32(t.little_endian, x, t.start + t.at33) as i32,
                d33: word32(t.little_endian, x, t.start + t.at33 + 4) as i32,
                d48: word32(t.little_endian, x, t.start + t.at48 + 4) as i32,
                ..t
            },
        ),
{
    let (start, len) = located_note(s)->Some_0;
    lemma_pair(s, t);
    let le = t.little_endian;
    let n = word16(le, s, start + APPLE_MAKER_IFD_AT) as int;
    assert(agree_before(s, x, start));
    lemma_located_again(s, x);
    lemma_words_agree(s, x, start + apple_entry_at(n), le, start + APPLE_MAKER_IFD_AT);
    lemma_apple_entries_agree(s, x, start, start + len, le, n);
}

/// The pair with tag 48 rewritten.
proof fn lemma_gain_rewritten(s: Seq<u8>, t: HeadroomTags, num48: i32, den48: i32)
    requires
        s.len() <= usize::MAX,
        note_stands_apart(s),
        headroom_pair(s) == Some(t),
        values_stand_apart(s, t),
    ensures
        ({
            let x = with_rational(s, t.little_endian, t.start + t.at48, num48, den48);
            &&& x.len() == s.len()
            &&& agree_before(
                s,
                x,
                t.start + apple_entry_at(
                    word16(t.little_endian, s, t.start + APPLE_MAKER_IFD_AT) as int,
                ),
            )
            &&& headroom_pair(x) == Some(HeadroomTags { d48: den48, ..t })
            &&& word32(t.little_endian, x, t.start + t.at48) as i32 == num48
            &&& word32(t.little_endian, x, t.start + t.at48 + 4) as i32 == den48
        }),
{
    lemma_note_is_inside(s);
    lemma_pair(s, t);
    let le = t.little_endian;
    let a = t.start + t.at48;
    let x = with_rational(s, le, a, num48, den48);
    lemma_rational(s, le, a, num48, den48);
    lemma_words_stay(s, x, le, a, t.start + t.at33);
    lemma_pair_again(s, x, t);
    lemma_pair_again(s, s, t);
}

/// The pair with tag 33 raised as well.
proof fn lemma_headroom_raised(s: Seq<u8>, x: Seq<u8>, t: HeadroomTags, d: i32)
    requires
        s.len() <= usize::MAX,
        note_stands_apart(s),
        headroom_pair(s) == Some(t),
        values_stand_apart(s, t),
        x.len() == s.len(),
        agree_before(
            s,
            x,
            t.start + apple_entry_at(
                word16(t.little_endian, s, t.start + APPLE_MAKER_IFD_AT) as int,
            ),
        ),
    ensures
        ({
            let y = with_rational(x, t.little_endian, t.start + t.at33, d, d);
            &&& headroom_pair(y) == Some(
                HeadroomTags {
                    n33: d,
                    d33: d,
                    d48: word32(t.little_endian, x, t.start + t.at48 + 4) as i32,
                    ..t
                },
            )
            &&& word32(t.little_endian, y, t.start + t.at48) == word32(
                t.little_endian,
                x,
                t.start + t.at48,
            )
        }),
{
    lemma_note_is_inside(s);
    lemma_pair(s, t);
    let le = t.little_endian;
    let b = t.start + t.at33;
    let y = with_rational(x, le, b, d, d);
    lemma_rational(x, le, b, d, d);
    lemma_words_stay(x, y, le, b, t.start + t.at48);
    lemma_pair_again(s, y, t);
}

/// What a rewriting makes of a block.
proof fn lemma_rewritten(s: Seq<u8>, t: HeadroomTags, num48: i32, den48: i32, d: i32)
    requires
        headroom_pair(s) == Some(t),
        d == if t.d33 <= 0 {
            PLAIN_DENOMINATOR
        } else {
            t.d33
        },
    ensures
        aligned(s, HeadroomEdit::Rewrite { num48, den48 }).0 == {
            let x = with_rational(s, t.little_endian, t.start + t.at48, num48, den48);
            if t.is_low() {
                with_rational(x, t.little_endian, t.start + t.at33, d, d)
            } else {
                x
            }
        },
{
}

/// A headroom that was written into a note is the one its pair of tags states: tag 48 the
/// rational it was given, tag 33 a number that is not below one.
pub proof fn a_rewritten_headroom_is_stated(
    s: Seq<u8>,
    t: HeadroomTags,
    num48: i32,
    den48: i32,
)
    requires
        s.len() <= usize::MAX,
        note_stands_apart(s),
        headroom_pair(s) == Some(t),
        values_stand_apart(s, t),
    ensures
        ({
            let x = aligned(s, HeadroomEdit::Rewrite { num48, den48 }).0;
            &&& headroom_pair(x) matches Some(u) && u.d48 == den48 && !u.is_low() && u.at48
                == t.at48 && u.start == t.start
            &&& word32(t.little_endian, x, t.start + t.at48) as i32 == num48
        }),
{
    let d = if t.d33 <= 0 {
        PLAIN_DENOMINATOR
    } else {
        t.d33
    };
    let x = with_rational(s, t.little_endian, t.start + t.at48, num48, den48);
    let y = with_rational(x, t.little_endian, t.start + t.at33, d, d);
    let done = aligned(s, HeadroomEdit::Rewrite { num48, den48 }).0;
    lemma_rewritten(s, t, num48, den48, d);
    if t.is_low() {
        assert(headroom_pair(y) == Some(HeadroomTags { n33: d, d33: d, d48: den48, ..t })
            && word32(t.little_endian, y, t.start + t.at48) as i32 == num48) by {
            lemma_gain_rewritten(s, t, num48, den48);
            lemma_headroom_raised(s, x, t, d);
        }
        assert(done == y);
    } else {
        assert(headroom_pair(x) == Some(HeadroomTags { d48: den48, ..t }) && word32(
            t.little_endian,
            x,
            t.start + t.at48,
        ) as i32 == num48) by {
            lemma_gain_rewritten(s, t, num48, den48);
        }
        assert(done == x);
    }
}

/// The bytes of the entries that stay begin with their tags.
proof fn lemma_packed_tags(
    s: Seq<u8>,
    start: int,
    end: int,
    le: bool,
    entries: Seq<AppleEntry>,
    n: int,
    k: int,
)
    requires
        0 <= start,
        0 <= n <= entries.len(),
        n <= 0xffff,
        start + apple_entry_at(n) <= s.len() <= usize::MAX,
        first_apple_entries(s, start, end, le, n) matches Some(v) && v == entries.take(n),
        0 <= k < staying(entries, n),
    ensures
        packed(s, start, entries, n).len() == 12 * staying(entries, n),
        word16(le, packed(s, start, entries, n), 12 * k) != APPLE_TAG_HEADROOM,
    decreases n,
{
    if n > 0 {
        lemma_front_entries(s, start, end, le, entries, n);
        let e = entries[n - 1];
        let before = packed(s, start, entries, n - 1);
        let whole = packed(s, start, entries, n);
        let at = start + apple_entry_at(n - 1);
        lemma_packed_len_is(s, start, end, le, entries, n - 1);
        if stays(e) && k == staying(entries, n - 1) {
            assert(whole.subrange(12 * k, 12 * k + 2) =~= s.subrange(at, at + 2));
            assert(whole[12 * k] == s[at] && whole[12 * k + 1] == s[at + 1]) by {
                let w = whole.subrange(12 * k, 12 * k + 2);
                let v = s.subrange(at, at + 2);
                assert(w[0] == v[0] && w[1] == v[1]);
            }
            assert(word16(le, whole, 12 * k) == word16(le, s, at));
        } else {
            lemma_packed_tags(s, start, end, le, entries, n - 1, k);
            assert(whole[12 * k] == before[12 * k] && whole[12 * k + 1] == before[12 * k + 1]);
        }
    }
}

/// The entries read so far, and the last of them.
proof fn lemma_front_entries(
    s: Seq<u8>,
    start: int,
    end: int,
    le: bool,
    entries: Seq<AppleEntry>,
    n: int,
)
    requires
        0 < n <= entries.len(),
        n <= 0xffff,
        first_apple_entries(s, start, end, le, n) matches Some(v) && v == entries.take(n),
    ensures
        first_apple_entries(s, start, end, le, n - 1) matches Some(v) && v == entries.take(n - 1),
        apple_entry(s, start, end, le, n - 1) == Some(entries[n - 1]),
        entries[n - 1].tag == word16(le, s, start + apple_entry_at(n - 1)),
        entries[n - 1].at == apple_entry_at(n - 1),
{
    let v = first_apple_entries(s, start, end, le, n)->Some_0;
    let w = first_apple_entries(s, start, end, le, n - 1)->Some_0;
    lemma_entries_len(s, start, end, le, n - 1);
    assert(v == w.push(apple_entry(s, start, end, le, n - 1)->Some_0));
    assert(v[n - 1] == entries[n - 1]);
    assert(w =~= entries.take(n - 1)) by {
        assert forall|j: int| 0 <= j < n - 1 implies w[j] == entries[j] by {
            assert(v[j] == w[j]);
        }
    }
}

proof fn lemma_entries_len(s: Seq<u8>, start: int, end: int, le: bool, n: int)
    requires
        0 <= n,
    ensures
        first_apple_entries(s, start, end, le, n) matches Some(v) ==> v.len() == n,
    decreases n,
{
    if n > 0 {
        lemma_entries_len(s, start, end, le, n - 1);
    }
}

proof fn lemma_packed_len_is(
    s: Seq<u8>,
    start: int,
    end: int,
    le: bool,
    entries: Seq<AppleEntry>,
    n: int,
)
    requires
        0 <= start,
        0 <= n <= entries.len(),
        n <= 0xffff,
        start + apple_entry_at(n) <= s.len(),
        first_apple_entries(s, start, end, le, n) matches Some(v) && v == entries.take(n),
    ensures
        packed(s, start, entries, n).len() == 12 * staying(entries, n),
        0 <= staying(entries, n) <= n,
    decreases n,
{
    if n > 0 {
        lemma_front_entries(s, start, end, le, entries, n);
        lemma_packed_len_is(s, start, end, le, entries, n - 1);
    }
}

proof fn lemma_not_found(entries: Seq<AppleEntry>, tag: u16, i: int)
    requires
        0 <= i,
        forall|k: int| 0 <= k < entries.len() ==> (#[trigger] entries[k]).tag != tag,
    ensures
        find_apple(entries, tag, i) is None,
    decreases entries.len() - i,
{
    if i < entries.len() {
        lemma_not_found(entries, tag, i + 1);
    }
}

/// What removing the pair leaves.
proof fn lemma_removed(s: Seq<u8>, start: int, le: bool, entries: Seq<AppleEntry>)
    requires
        0 <= start,
        start + APPLE_MAKER_IFD_AT + 2 <= s.len() <= usize::MAX,
        apple_entries(s, start, s.len() as int, le) == Some(entries),
        without_pair(s, start, le) is Some,
    ensures
        ({
            let x = without_pair(s, start, le)->Some_0;
            let ifd = start + APPLE_MAKER_IFD_AT;
            let n = entries.len() as int;
            let m = staying(entries, n);
            &&& n == word16(le, s, ifd)
            &&& 0 <= m <= n
            &&& start + apple_entry_at(n) + 4 <= s.len()
            &&& agree_before(s, x, ifd)
            &&& word16(le, x, ifd) == m
            &&& packed(s, start, entries, n).len() == 12 * m
            &&& ifd + 2 + 12 * m <= x.len()
            &&& x.subrange(ifd + 2, ifd + 2 + 12 * m) == packed(s, start, entries, n)
        }),
{
    let end = s.len() as int;
    let n = entries.len() as int;
    let ifd = start + APPLE_MAKER_IFD_AT;
    lemma_entries_len(s, start, end, le, word16(le, s, ifd) as int);
    assert(entries.take(n) =~= entries);
    lemma_packed_len_is(s, start, end, le, entries, n);
    let kept = packed(s, start, entries, n);
    let m = staying(entries, n);
    let x = without_pair(s, start, le)->Some_0;
    assert(x.subrange(ifd, ifd + 2) =~= word16_bytes(le, m as u16));
    lemma_word16_read_back(le, m as u16, x, ifd);
    assert(x.subrange(ifd + 2, ifd + 2 + 12 * m) =~= kept);
}

/// No entry that is left has the first of the two tags.
proof fn lemma_none_left(
    s: Seq<u8>,
    x: Seq<u8>,
    start: int,
    end: int,
    le: bool,
    entries: Seq<AppleEntry>,
    k: int,
)
    requires
        0 <= start,
        start + apple_entry_at(entries.len() as int) <= s.len() <= usize::MAX,
        entries.len() <= 0xffff,
        first_apple_entries(s, start, s.len() as int, le, entries.len() as int) == Some(entries),
        0 <= k < staying(entries, entries.len() as int),
        first_apple_entries(x, start, end, le, staying(entries, entries.len() as int)) is Some,
        ({
            let a = start + apple_entry_at(0);
            let m = staying(entries, entries.len() as int);
            &&& a + 12 * m <= x.len()
            &&& x.subrange(a, a + 12 * m) == packed(s, start, entries, entries.len() as int)
        }),
    ensures
        ({
            let m = staying(entries, entries.len() as int);
            let v = first_apple_entries(x, start, end, le, m)->Some_0;
            &&& k < v.len()
            &&& v[k].tag != APPLE_TAG_HEADROOM
        }),
{
    let n = entries.len() as int;
    let m = staying(entries, n);
    let kept = packed(s, start, entries, n);
    assert(entries.take(n) =~= entries);
    lemma_packed_tags(s, start, s.len() as int, le, entries, n, k);
    lemma_entry_is(x, start, end, le, m, k);
    let at = start + apple_entry_at(k);
    let w = x.subrange(start + apple_entry_at(0), start + apple_entry_at(0) + 12 * m);
    assert(w[12 * k] == x[at] && w[12 * k + 1] == x[at + 1]);
    assert(word16(le, x, at) == word16(le, kept, 12 * k));
}

/// A note from which the pair was removed states no headroom.
pub proof fn a_removed_headroom_is_gone(s: Seq<u8>)
    requires
        s.len() <= usize::MAX,
        note_stands_apart(s),
        aligned(s, HeadroomEdit::Remove).1 is Removed,
    ensures
        headroom_pair(aligned(s, HeadroomEdit::Remove).0) is None,
{
    let t = headroom_pair(s)->Some_0;
    lemma_note_is_inside(s);
    lemma_pair(s, t);
    let (start, len) = located_note(s)->Some_0;
    let le = t.little_endian;
    let entries = apple_entries(s, start, s.len() as int, le)->Some_0;
    let n = entries.len() as int;
    let m = staying(entries, n);
    let x = without_pair(s, start, le)->Some_0;
    lemma_removed(s, start, le, entries);
    lemma_located_again(s, x);
    assert(note_order(x, start, len) == le);
    if let Some(v) = apple_entries(x, start, start + len, le) {
        lemma_entries_len(x, start, start + len, le, m);
        assert forall|k: int| 0 <= k < v.len() implies (#[trigger] v[k]).tag
            != APPLE_TAG_HEADROOM by {
            lemma_none_left(s, x, start, start + len, le, entries, k);
        }
        lemma_not_found(v, APPLE_TAG_HEADROOM, 0);
    }
}

/// One of the entries read.
proof fn lemma_entry_is(s: Seq<u8>, start: int, end: int, le: bool, n: int, k: int)
    requires
        0 <= k < n,
        first_apple_entries(s, start, end, le, n) is Some,
    ensures
        k < first_apple_entries(s, start, end, le, n)->Some_0.len(),
        first_apple_entries(s, start, end, le, n)->Some_0[k].tag == word16(
            le,
            s,
            start + apple_entry_at(k),
        ),
    decreases n,
{
    lemma_entries_len(s, start, end, le, n - 1);
    if k < n - 1 {
        lemma_entry_is(s, start, end, le, n - 1, k);
    }
}

} // verus!
