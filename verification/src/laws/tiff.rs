//! How a TIFF is read: every field is where the format puts it.

use vstd::prelude::*;

use crate::laws::{number16, number32};
use crate::portable::tiff::{
    entries_from, entry_at, find_tag, first_integer, ifd_of, integer_at, integers_of, opened,
    value_of, EntryView, Fault,
};

verus! {

/// How many bytes one element of a field type takes: BYTE, ASCII, SBYTE and UNDEFINED one,
/// SHORT and SSHORT two, LONG, SLONG and FLOAT four, RATIONAL, SRATIONAL and DOUBLE eight.
/// None is known of any other.
pub open spec fn element_bytes(typ: int) -> int {
    if typ == 1 || typ == 2 || typ == 6 || typ == 7 {
        1
    } else if typ == 3 || typ == 8 {
        2
    } else if typ == 4 || typ == 9 || typ == 11 {
        4
    } else if typ == 5 || typ == 10 || typ == 12 {
        8
    } else {
        0
    }
}

/// A TIFF starts with `II` or `MM`, which say in which order its bytes are, 42 in that
/// order, and the place of its first IFD. Nothing else is taken for one.
pub proof fn a_tiff_is_known_by_its_header(s: Seq<u8>)
    ensures
        s.len() >= 8 && s[0] == 73 && s[1] == 73 && s[2] == 42 && s[3] == 0 ==> opened(s) == Some(
            (true, number32(true, s, 4)),
        ),
        s.len() >= 8 && s[0] == 77 && s[1] == 77 && s[2] == 0 && s[3] == 42 ==> opened(s) == Some(
            (false, number32(false, s, 4)),
        ),
        opened(s) is Some ==> s.len() >= 8 && ((s[0] == 73 && s[1] == 73 && s[2] == 42 && s[3] == 0)
            || (s[0] == 77 && s[1] == 77 && s[2] == 0 && s[3] == 42)),
{
}

proof fn lemma_entries(s: Seq<u8>, le: bool, at: int, i: int, n: int)
    requires
        0 <= i,
    ensures
        entries_from(s, le, at, i, n) matches Ok(v) ==> v.len() == if i >= n {
            0
        } else {
            n - i
        } && forall|k: int|
            0 <= k < v.len() ==> entry_at(s, le, at + 2 + 12 * (i + k)) == Ok::<
                (u16, EntryView),
                Fault,
            >(#[trigger] v[k]),
        at + 2 + 12 * n <= s.len() ==> entries_from(s, le, at, i, n) is Ok,
    decreases n - i,
{
    if i < n {
        lemma_entries(s, le, at, i + 1, n);
        if let Ok(v) = entries_from(s, le, at, i, n) {
            let rest = entries_from(s, le, at, i + 1, n)->Ok_0;
            let x = entry_at(s, le, at + 2 + 12 * i)->Ok_0;
            assert(v =~= seq![x] + rest);
            assert forall|k: int| 0 <= k < v.len() implies entry_at(s, le, at + 2 + 12 * (i + k))
                == Ok::<(u16, EntryView), Fault>(#[trigger] v[k]) by {
                if k > 0 {
                    assert(v[k] == rest[k - 1]);
                    assert(at + 2 + 12 * (i + k) == at + 2 + 12 * (i + 1 + (k - 1)));
                }
            }
        }
    }
}

/// An IFD is a count of entries, twelve bytes for each and the place of the next IFD. An
/// entry is a tag, a type, a count of elements and their place, or the elements themselves
/// where they take four bytes at most. One whose entries are all there is read.
pub proof fn an_ifd_is_read_entry_by_entry(s: Seq<u8>, le: bool, at: int)
    requires
        0 <= at,
    ensures
        at + 2 <= s.len() && at + 2 + 12 * number16(le, s, at) <= s.len() ==> ifd_of(
            s,
            le,
            at,
        ) is Ok,
        ifd_of(s, le, at) matches Ok(x) ==> {
            let n = number16(le, s, at);
            &&& at + 2 <= s.len()
            &&& x.entries.len() == n
            &&& x.next == if at + 2 + 12 * n + 4 <= s.len() {
                number32(le, s, at + 2 + 12 * n)
            } else {
                0
            }
            &&& forall|k: int|
                0 <= k < n ==> {
                    let e = at + 2 + 12 * k;
                    let (tag, v) = #[trigger] x.entries[k];
                    &&& tag == number16(le, s, e)
                    &&& v.typ == number16(le, s, e + 2)
                    &&& v.count == number32(le, s, e + 4)
                    &&& v.value_off == if element_bytes(v.typ as int) * v.count <= 4 {
                        e + 8
                    } else {
                        number32(le, s, e + 8)
                    }
                }
        },
{
    if at + 2 <= s.len() {
        let n = number16(le, s, at);
        lemma_entries(s, le, at, 0, n);
        if let Ok(x) = ifd_of(s, le, at) {
            assert forall|k: int| 0 <= k < n implies {
                let e = at + 2 + 12 * k;
                let (tag, v) = #[trigger] x.entries[k];
                &&& tag == number16(le, s, e)
                &&& v.typ == number16(le, s, e + 2)
                &&& v.count == number32(le, s, e + 4)
                &&& v.value_off == if element_bytes(v.typ as int) * v.count <= 4 {
                    e + 8
                } else {
                    number32(le, s, e + 8)
                }
            } by {
                assert(entry_at(s, le, at + 2 + 12 * (0 + k)) == Ok::<(u16, EntryView), Fault>(
                    x.entries[k],
                ));
            }
        }
    }
}

/// The value of an entry of a known type is as many bytes as its elements take, from its
/// place on, and is there when the file reaches that far.
pub proof fn a_value_is_the_bytes_at_its_place(s: Seq<u8>, e: EntryView)
    requires
        element_bytes(e.typ as int) > 0,
    ensures
        e.value_off + e.count * element_bytes(e.typ as int) <= s.len() ==> value_of(s, e) == Ok::<
            Seq<u8>,
            Fault,
        >(s.subrange(e.value_off, e.value_off + e.count * element_bytes(e.typ as int))),
        e.value_off + e.count * element_bytes(e.typ as int) > s.len() ==> value_of(s, e) is Err,
{
}

/// Of the entries with a tag, the first counts.
pub proof fn the_first_entry_of_a_tag_counts(entries: Seq<(u16, EntryView)>, tag: u16, i: int)
    requires
        0 <= i <= entries.len(),
    ensures
        match find_tag(entries, tag, i) {
            Some(e) => exists|k: int|
                i <= k < entries.len() && #[trigger] entries[k] == (tag, e) && forall|j: int|
                    i <= j < k ==> (#[trigger] entries[j]).0 != tag,
            None => forall|j: int| i <= j < entries.len() ==> (#[trigger] entries[j]).0 != tag,
        },
    decreases entries.len() - i,
{
    if i < entries.len() {
        if entries[i].0 == tag {
            assert(entries[i] == (tag, entries[i].1));
        } else {
            the_first_entry_of_a_tag_counts(entries, tag, i + 1);
        }
    }
}

/// The integers of an entry of SHORTs or LONGs are the numbers at its place, one after the
/// other, and its first integer is the first of them.
pub proof fn integers_are_the_numbers_at_their_place(s: Seq<u8>, le: bool, e: EntryView)
    requires
        e.typ == 3 || e.typ == 4,
        0 <= e.value_off,
        e.value_off + e.count * element_bytes(e.typ as int) <= s.len(),
    ensures
        integers_of(s, le, e) matches Ok(v) && v.len() == e.count && forall|k: int|
            0 <= k < v.len() ==> #[trigger] v[k] == if e.typ == 3 {
                number16(le, s, e.value_off + 2 * k)
            } else {
                number32(le, s, e.value_off + 4 * k)
            },
        first_integer(s, le, Some(e)) == if e.count == 0 {
            None
        } else if e.typ == 3 {
            Some(number16(le, s, e.value_off) as u32)
        } else {
            Some(number32(le, s, e.value_off) as u32)
        },
{
    let size = element_bytes(e.typ as int);
    let room = s.len() - e.value_off;
    assert(room / size >= e.count) by (nonlinear_arith)
        requires
            size > 0,
            e.count * size <= room,
    ;
    let v = integers_of(s, le, e)->Ok_0;
    assert forall|k: int| 0 <= k < v.len() implies #[trigger] v[k] == if e.typ == 3 {
        number16(le, s, e.value_off + 2 * k)
    } else {
        number32(le, s, e.value_off + 4 * k)
    } by {
        assert(v[k] == integer_at(s, le, size, e.value_off + k * size));
    }
    if e.count > 0 {
        assert(v[0] == integer_at(s, le, size, e.value_off + 0 * size));
    }
}

} // verus!
