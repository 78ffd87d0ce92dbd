//! A deliberately small TIFF reader.
//!
//! General TIFF readers walk the chain of IFDs, and neither a SubIFD referenced by tag
//! 330 nor an Exif IFD is on that chain. What is needed is little enough to write out:
//! classic TIFF in both byte orders, entries and the bytes they name.

use vstd::prelude::*;

use crate::bytes::{get_word16, get_word32, span, word16, word32};
use crate::text::{decimal, decimal_text, join_text};

verus! {

/// Why part of a TIFF could not be read.
#[derive(Clone, Copy, Debug, PartialEq, Eq, Structural)]
pub enum Fault {
    /// `need` bytes at `at` run past the end of a file of `len` bytes.
    Truncated { need: u64, at: u64, len: u64 },
    /// A tag has this type where an integer was expected.
    NotAnInteger { typ: u16 },
}

impl Fault {
    pub open spec fn says(self) -> Seq<char> {
        match self {
            Fault::Truncated { need, at, len } => "TIFF truncated: wanted "@ + decimal(need as nat)
                + " bytes at "@ + decimal(at as nat) + ", file is "@ + decimal(len as nat)
                + " bytes"@,
            Fault::NotAnInteger { typ } => "TIFF tag has type "@ + decimal(typ as nat)
                + " where an integer was expected"@,
        }
    }

    /// What went wrong.
    pub fn message(&self) -> (s: String)
        ensures
            s@ == self.says(),
    {
        match *self {
            Fault::Truncated { need, at, len } => {
                let need_text = decimal_text(need);
                let at_text = decimal_text(at);
                let len_text = decimal_text(len);
                let mut s = join_text("TIFF truncated: wanted ", need_text.as_str());
                s.append(" bytes at ");
                s.append(at_text.as_str());
                s.append(", file is ");
                s.append(len_text.as_str());
                s.append(" bytes");
                s
            },
            Fault::NotAnInteger { typ } => {
                let typ_text = decimal_text(typ as u64);
                let mut s = join_text("TIFF tag has type ", typ_text.as_str());
                s.append(" where an integer was expected");
                s
            },
        }
    }
}

/// The report of a read of `need` bytes at `at` that the end of `s` cuts short.
pub open spec fn cut(s: Seq<u8>, need: int, at: int) -> Fault {
    Fault::Truncated { need: need as u64, at: at as u64, len: s.len() as u64 }
}

/// Bytes per element of a field type, zero for one that is not known.
pub open spec fn size_of(typ: u16) -> int {
    if typ == 1 || typ == 2 || typ == 6 || typ == 7 {
        1
    } else if typ == 3 || typ == 8 {
        2
    } else if typ == 4 || typ == 9 || typ == 11 {
        4
    } else if typ == 5 || typ == 10 || typ == 12 {
        8
    } else {
        0
    }
}

/// Bytes per element of a field type, zero for one that is not known.
pub fn type_size(typ: u16) -> (n: usize)
    ensures
        n == size_of(typ),
{
    match typ {
        1 | 2 | 6 | 7 => 1,
        3 | 8 => 2,
        4 | 9 | 11 => 4,
        5 | 10 | 12 => 8,
        _ => 0,
    }
}

/// One entry's value: its type, its number of elements, and where they are.
pub struct EntryView {
    pub typ: u16,
    pub count: u32,
    pub value_off: int,
}

/// One IFD: its entries in the order the file lists them, and where the next IFD on its
/// chain is, zero at the end of it.
pub struct IfdView {
    pub entries: Seq<(u16, EntryView)>,
    pub next: int,
}

/// The byte order and first IFD of a classic TIFF. BigTIFF is not one.
pub open spec fn opened(s: Seq<u8>) -> Option<(bool, int)> {
    if s.len() < 8 {
        None
    } else {
        let le = s[0] == 0x49 && s[1] == 0x49;
        let be = s[0] == 0x4d && s[1] == 0x4d;
        if (le || be) && word16(le, s, 2) == 42 {
            Some((le, word32(le, s, 4) as int))
        } else {
            None
        }
    }
}

/// Whether a value of this type and count is stored in its entry.
pub open spec fn is_inline(typ: u16, count: u32) -> bool {
    size_of(typ) * count <= 4
}

/// The entry whose twelve bytes start at `e`.
pub open spec fn entry_at(s: Seq<u8>, le: bool, e: int) -> Result<(u16, EntryView), Fault> {
    let typ = word16(le, s, e + 2);
    let count = word32(le, s, e + 4);
    if e + 2 > s.len() {
        Err(cut(s, 2, e))
    } else if e + 4 > s.len() {
        Err(cut(s, 2, e + 2))
    } else if e + 8 > s.len() {
        Err(cut(s, 4, e + 4))
    } else if is_inline(typ, count) {
        Ok((word16(le, s, e), EntryView { typ, count, value_off: e + 8 }))
    } else if e + 12 > s.len() {
        Err(cut(s, 4, e + 8))
    } else {
        Ok((word16(le, s, e), EntryView { typ, count, value_off: word32(le, s, e + 8) as int }))
    }
}

/// Entries `i..n` of the IFD at `at`.
pub open spec fn entries_from(s: Seq<u8>, le: bool, at: int, i: int, n: int) -> Result<
    Seq<(u16, EntryView)>,
    Fault,
>
    decreases n - i,
{
    if i >= n {
        Ok(seq![])
    } else {
        match entry_at(s, le, at + 2 + 12 * i) {
            Err(e) => Err(e),
            Ok(x) => match entries_from(s, le, at, i + 1, n) {
                Err(e) => Err(e),
                Ok(rest) => Ok(seq![x] + rest),
            },
        }
    }
}

/// The IFD at `at`. A truncated chain pointer is not a reason to lose the entries that
/// did parse: an IFD with no readable successor is simply the last one.
pub open spec fn ifd_of(s: Seq<u8>, le: bool, at: int) -> Result<IfdView, Fault> {
    if at + 2 > s.len() {
        Err(cut(s, 2, at))
    } else {
        let n = word16(le, s, at) as int;
        let tail = at + 2 + 12 * n;
        match entries_from(s, le, at, 0, n) {
            Err(e) => Err(e),
            Ok(entries) => Ok(
                IfdView {
                    entries,
                    next: if tail + 4 <= s.len() {
                        word32(le, s, tail) as int
                    } else {
                        0
                    },
                },
            ),
        }
    }
}

/// The first entry with a tag, from position `i` on.
pub open spec fn find_tag(entries: Seq<(u16, EntryView)>, tag: u16, i: int) -> Option<EntryView>
    decreases entries.len() - i,
{
    if i >= entries.len() {
        None
    } else if entries[i].0 == tag {
        Some(entries[i].1)
    } else {
        find_tag(entries, tag, i + 1)
    }
}

/// The bytes of an entry's value; an unknown type counts as one byte per element.
pub open spec fn value_of(s: Seq<u8>, e: EntryView) -> Result<Seq<u8>, Fault> {
    let size = if size_of(e.typ) == 0 {
        1
    } else {
        size_of(e.typ)
    };
    let n = e.count * size;
    if e.value_off + n > s.len() {
        Err(cut(s, n, e.value_off))
    } else {
        Ok(s.subrange(e.value_off, e.value_off + n))
    }
}

/// The types that hold integers.
pub open spec fn holds_integers(typ: u16) -> bool {
    typ == 1 || typ == 3 || typ == 4 || typ == 8 || typ == 9
}

/// The integer of `size` bytes at `at`, as an unsigned number.
pub open spec fn integer_at(s: Seq<u8>, le: bool, size: int, at: int) -> u32 {
    if size == 1 {
        s[at] as u32
    } else if size == 2 {
        word16(le, s, at) as u32
    } else {
        word32(le, s, at)
    }
}

/// SHORT/LONG (and their signed twins) as unsigned numbers.
pub open spec fn integers_of(s: Seq<u8>, le: bool, e: EntryView) -> Result<Seq<u32>, Fault> {
    let size = size_of(e.typ);
    if !holds_integers(e.typ) {
        Err(Fault::NotAnInteger { typ: e.typ })
    } else {
        let whole = if e.value_off > s.len() {
            0
        } else {
            (s.len() - e.value_off) / size
        };
        if whole < e.count {
            Err(cut(s, size, e.value_off + whole * size))
        } else {
            Ok(Seq::new(e.count as nat, |i: int| integer_at(s, le, size, e.value_off + i * size)))
        }
    }
}

/// The first of an entry's integers, when it has any and they can be read.
pub open spec fn first_integer(s: Seq<u8>, le: bool, e: Option<EntryView>) -> Option<u32> {
    match e {
        None => None,
        Some(x) => match integers_of(s, le, x) {
            Err(_) => None,
            Ok(v) => if v.len() > 0 {
                Some(v[0])
            } else {
                None
            },
        },
    }
}

/// One entry's value: its type, its number of elements, and where they are.
#[derive(Clone, Copy, Debug)]
pub struct Entry {
    pub typ: u16,
    pub count: u32,
    /// Absolute offset of the value bytes. For values of four bytes or fewer TIFF
    /// stores them in the entry itself, and then this points at the entry field -- so
    /// readers need no special case.
    pub value_off: usize,
}

impl View for Entry {
    type V = EntryView;

    open spec fn view(&self) -> EntryView {
        EntryView { typ: self.typ, count: self.count, value_off: self.value_off as int }
    }
}

/// The entries some pairs stand for.
pub open spec fn entry_views(v: Seq<(u16, Entry)>) -> Seq<(u16, EntryView)> {
    Seq::new(v.len(), |i: int| (v[i].0, v[i].1@))
}

#[derive(Clone, Debug)]
pub struct Ifd {
    pub entries: Vec<(u16, Entry)>,
    /// Offset of the next IFD on this chain, `0` at the end of it.
    pub next: usize,
}

impl View for Ifd {
    type V = IfdView;

    open spec fn view(&self) -> IfdView {
        IfdView { entries: entry_views(self.entries@), next: self.next as int }
    }
}

impl Ifd {
    /// The first entry with a tag.
    pub fn get(&self, tag: u16) -> (r: Option<Entry>)
        ensures
            match r {
                Some(e) => find_tag(self@.entries, tag, 0) == Some(e@),
                None => find_tag(self@.entries, tag, 0) is None,
            },
    {
        let ghost all = self@.entries;
        let mut i: usize = 0;
        while i < self.entries.len()
            invariant
                i <= self.entries@.len(),
                all == entry_views(self.entries@),
                find_tag(all, tag, 0) == find_tag(all, tag, i as int),
            decreases self.entries@.len() - i,
        {
            assert(all[i as int] == (self.entries@[i as int].0, self.entries@[i as int].1@));
            if self.entries[i].0 == tag {
                return Some(self.entries[i].1);
            }
            i = i + 1;
        }
        None
    }
}

/// An opened TIFF.
#[derive(Clone, Copy, Debug)]
pub struct Tiff<'a> {
    pub bytes: &'a [u8],
    pub little_endian: bool,
    pub first_ifd: usize,
}

impl<'a> Tiff<'a> {
    /// `None` for anything that is not a classic TIFF, including BigTIFF.
    pub fn open(bytes: &'a [u8]) -> (r: Option<Tiff<'a>>)
        ensures
            match r {
                Some(t) => t.bytes == bytes && opened(bytes@) == Some(
                    (t.little_endian, t.first_ifd as int),
                ),
                None => opened(bytes@) is None,
            },
    {
        if bytes.len() < 8 {
            return None;
        }
        let little_endian: bool = if bytes[0] == 0x49 && bytes[1] == 0x49 {
            true
        } else if bytes[0] == 0x4d && bytes[1] == 0x4d {
            false
        } else {
            return None;
        };
        if get_word16(little_endian, bytes, 2) != 42 {
            return None;
        }
        let first_ifd: usize = get_word32(little_endian, bytes, 4) as usize;
        Some(Tiff { bytes, little_endian, first_ifd })
    }

    fn slice(&self, at: usize, len: u64) -> (r: Result<&'a [u8], Fault>)
        ensures
            match r {
                Ok(v) => at + len <= self.bytes@.len() && v@ == self.bytes@.subrange(
                    at as int,
                    at + len,
                ),
                Err(e) => at + len > self.bytes@.len() && e == cut(
                    self.bytes@,
                    len as int,
                    at as int,
                ),
            },
    {
        if at > self.bytes.len() || len > (self.bytes.len() - at) as u64 {
            return Err(
                Fault::Truncated { need: len, at: at as u64, len: self.bytes.len() as u64 },
            );
        }
        Ok(span(self.bytes, at, at + len as usize))
    }

    fn u16(&self, at: usize) -> (r: Result<u16, Fault>)
        ensures
            match r {
                Ok(v) => at + 2 <= self.bytes@.len() && v == word16(
                    self.little_endian,
                    self.bytes@,
                    at as int,
                ),
                Err(e) => at + 2 > self.bytes@.len() && e == cut(self.bytes@, 2, at as int),
            },
    {
        match self.slice(at, 2) {
            Ok(_) => Ok(get_word16(self.little_endian, self.bytes, at)),
            Err(e) => Err(e),
        }
    }

    fn u32(&self, at: usize) -> (r: Result<u32, Fault>)
        ensures
            match r {
                Ok(v) => at + 4 <= self.bytes@.len() && v == word32(
                    self.little_endian,
                    self.bytes@,
                    at as int,
                ),
                Err(e) => at + 4 > self.bytes@.len() && e == cut(self.bytes@, 4, at as int),
            },
    {
        match self.slice(at, 4) {
            Ok(_) => Ok(get_word32(self.little_endian, self.bytes, at)),
            Err(e) => Err(e),
        }
    }

    /// The entry whose twelve bytes start at `e`.
    fn read_entry(&self, e: usize) -> (r: Result<(u16, Entry), Fault>)
        requires
            e <= self.bytes@.len(),
        ensures
            match r {
                Ok(x) => entry_at(self.bytes@, self.little_endian, e as int) == Ok::<
                    (u16, EntryView),
                    Fault,
                >((x.0, x.1@)) && e + 8 <= self.bytes@.len(),
                Err(f) => entry_at(self.bytes@, self.little_endian, e as int) == Err::<
                    (u16, EntryView),
                    Fault,
                >(f),
            },
    {
        let len: usize = self.bytes.len();
        let tag: u16 = match self.u16(e) {
            Ok(v) => v,
            Err(f) => {
                return Err(f);
            },
        };
        assert(e + 2 <= len);
        let typ: u16 = match self.u16(e + 2) {
            Ok(v) => v,
            Err(f) => {
                return Err(f);
            },
        };
        assert(e + 4 <= len);
        let count: u32 = match self.u32(e + 4) {
            Ok(v) => v,
            Err(f) => {
                return Err(f);
            },
        };
        assert(e + 8 <= len);
        let size: usize = type_size(typ);
        assert(size * count <= 8 * 0xffff_ffff) by (nonlinear_arith)
            requires
                size <= 8,
                count <= 0xffff_ffff,
        ;
        let value_off: usize = if size as u64 * count as u64 <= 4 {
            e + 8
        } else {
            match self.u32(e + 8) {
                Ok(v) => v as usize,
                Err(f) => {
                    return Err(f);
                },
            }
        };
        Ok((tag, Entry { typ, count, value_off }))
    }

    /// The IFD at `at`.
    pub fn read_ifd(&self, at: usize) -> (r: Result<Ifd, Fault>)
        ensures
            match r {
                Ok(x) => ifd_of(self.bytes@, self.little_endian, at as int) == Ok::<IfdView, Fault>(
                    x@,
                ),
                Err(f) => ifd_of(self.bytes@, self.little_endian, at as int) == Err::<
                    IfdView,
                    Fault,
                >(f),
            },
    {
        let ghost s = self.bytes@;
        let ghost le = self.little_endian;
        let n: usize = match self.u16(at) {
            Ok(v) => v as usize,
            Err(f) => {
                return Err(f);
            },
        };
        let mut entries: Vec<(u16, Entry)> = Vec::new();
        let len: usize = self.bytes.len();
        let mut i: usize = 0;
        proof {
            let all = entries_from(s, le, at as int, 0, n as int);
            if all is Ok {
                assert(entry_views(entries@) + all->Ok_0 =~= all->Ok_0);
            }
        }
        while i < n
            invariant
                i <= n <= 0xffff,
                s == self.bytes@,
                le == self.little_endian,
                len == s.len(),
                at + 2 <= s.len(),
                n == word16(le, s, at as int),
                ({
                    let all = entries_from(s, le, at as int, 0, n as int);
                    let rest = entries_from(s, le, at as int, i as int, n as int);
                    match rest {
                        Err(f) => all == Err::<Seq<(u16, EntryView)>, Fault>(f),
                        Ok(v) => all == Ok::<Seq<(u16, EntryView)>, Fault>(
                            entry_views(entries@) + v,
                        ),
                    }
                }),
            decreases n - i,
        {
            let e: u128 = at as u128 + 2 + 12 * i as u128;
            if e > len as u128 {
                return Err(Fault::Truncated { need: 2, at: e as u64, len: len as u64 });
            }
            let ghost before = entries@;
            match self.read_entry(e as usize) {
                Ok(x) => {
                    entries.push(x);
                    proof {
                        let rest = entries_from(s, le, at as int, i + 1, n as int);
                        assert(entry_views(entries@) =~= entry_views(before).push((x.0, x.1@)));
                        if rest is Ok {
                            assert(entry_views(entries@) + rest->Ok_0 =~= entry_views(before) + (
                            seq![(x.0, x.1@)] + rest->Ok_0));
                        }
                    }
                    i = i + 1;
                },
                Err(f) => {
                    return Err(f);
                },
            }
        }
        proof {
            assert(entry_views(entries@) + Seq::<(u16, EntryView)>::empty() =~= entry_views(
                entries@,
            ));
        }
        let tail: u128 = at as u128 + 2 + 12 * n as u128;
        let next: usize = if tail <= len as u128 {
            match self.u32(tail as usize) {
                Ok(v) => v as usize,
                Err(_) => 0,
            }
        } else {
            0
        };
        Ok(Ifd { entries, next })
    }

    /// SHORT/LONG (and their signed twins) as `u32`, which is every numeric tag that is
    /// read.
    pub fn integers(&self, e: &Entry) -> (r: Result<Vec<u32>, Fault>)
        ensures
            match r {
                Ok(v) => integers_of(self.bytes@, self.little_endian, e@) == Ok::<Seq<u32>, Fault>(
                    v@,
                ),
                Err(f) => integers_of(self.bytes@, self.little_endian, e@) == Err::<
                    Seq<u32>,
                    Fault,
                >(f),
            },
    {
        let size: usize = type_size(e.typ);
        if !(e.typ == 1 || e.typ == 3 || e.typ == 4 || e.typ == 8 || e.typ == 9) {
            return Err(Fault::NotAnInteger { typ: e.typ });
        }
        let len: usize = self.bytes.len();
        let whole: usize = if e.value_off > len {
            0
        } else {
            (len - e.value_off) / size
        };
        proof {
            assert(whole * size <= len) by (nonlinear_arith)
                requires
                    e.value_off > len ==> whole == 0,
                    e.value_off <= len ==> whole == (len - e.value_off) / size as int,
                    size > 0,
            ;
            assert(e.value_off <= len ==> e.value_off + whole * size <= len) by (nonlinear_arith)
                requires
                    e.value_off <= len ==> whole == (len - e.value_off) / size as int,
                    size > 0,
            ;
        }
        if (whole as u64) < e.count as u64 {
            assert(e.value_off > len ==> whole * size == 0) by (nonlinear_arith)
                requires
                    e.value_off > len ==> whole == 0,
            ;
            return Err(
                Fault::Truncated {
                    need: size as u64,
                    at: (e.value_off + whole * size) as u64,
                    len: len as u64,
                },
            );
        }
        let mut out: Vec<u32> = Vec::new();
        let mut i: usize = 0;
        let ghost s = self.bytes@;
        let ghost le = self.little_endian;
        while i < e.count as usize
            invariant
                i <= e.count <= whole,
                s == self.bytes@,
                le == self.little_endian,
                size == size_of(e.typ),
                size == 1 || size == 2 || size == 4,
                e.count > 0 ==> e.value_off + whole * size <= len,
                len == s.len(),
                out@.len() == i,
                forall|k: int|
                    0 <= k < i ==> #[trigger] out@[k] == integer_at(
                        s,
                        le,
                        size as int,
                        e.value_off + k * size,
                    ),
            decreases e.count - i,
        {
            assert(0 <= i * size && i * size + size <= whole * size) by (nonlinear_arith)
                requires
                    i < whole,
            ;
            let at: usize = e.value_off + i * size;
            let v: u32 = if size == 1 {
                self.bytes[at] as u32
            } else if size == 2 {
                get_word16(self.little_endian, self.bytes, at) as u32
            } else {
                get_word32(self.little_endian, self.bytes, at)
            };
            out.push(v);
            i = i + 1;
        }
        proof {
            let want = Seq::new(
                e.count as nat,
                |k: int| integer_at(s, le, size as int, e.value_off + k * size),
            );
            assert(out@ =~= want);
        }
        Ok(out)
    }

    /// The first of an entry's integers, when it has any and they can be read.
    pub fn first_of(&self, e: Option<Entry>) -> (r: Option<u32>)
        ensures
            r == first_integer(
                self.bytes@,
                self.little_endian,
                match e {
                    Some(x) => Some(x@),
                    None => None,
                },
            ),
    {
        match e {
            None => None,
            Some(x) => match self.integers(&x) {
                Ok(v) => if v.len() > 0 {
                    Some(v[0])
                } else {
                    None
                },
                Err(_) => None,
            },
        }
    }

    /// The bytes of an entry's value.
    pub fn bytes_of(&self, e: &Entry) -> (r: Result<&'a [u8], Fault>)
        ensures
            match r {
                Ok(v) => value_of(self.bytes@, e@) == Ok::<Seq<u8>, Fault>(v@),
                Err(f) => value_of(self.bytes@, e@) == Err::<Seq<u8>, Fault>(f),
            },
    {
        let size: usize = type_size(e.typ);
        let each: u64 = if size == 0 {
            1
        } else {
            size as u64
        };
        assert(e.count * each <= 0xffff_ffff * 8) by (nonlinear_arith)
            requires
                e.count <= 0xffff_ffff,
                each <= 8,
        ;
        self.slice(e.value_off, e.count as u64 * each)
    }
}

} // verus!
