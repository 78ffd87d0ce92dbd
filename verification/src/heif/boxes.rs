//! Generic ISOBMFF box framing, shared by the reader and the writer.
//!
//! Nothing here knows about HEIF semantics: just the universal box header
//! (`size, type[, largesize]`), a bounds-checked cursor so that the reader reports
//! a truncated or adversarial file instead of running off its end, and the writer's
//! half of the same framing.

use vstd::prelude::*;

use crate::bytes::{
    be16, be32, be32_bytes, be64, get_be16, get_be32, get_be64, group_encoded_lengths,
    lemma_be32_read_back, push_all, push_be32, span,
};
use crate::heif::Error;

verus! {

broadcast use group_encoded_lengths;

/// One box: its four-character type read as a big-endian number, and where its
/// payload lies in the file, header stripped.
pub struct BoxSpan {
    pub kind: u32,
    pub start: int,
    pub end: int,
}

/// The box whose header starts at `start`, inside a parent that ends at `end`.
///
/// Two size encodings are irregular: 1 means that a 64-bit size follows the type,
/// and 0 means that the box runs to the end of its parent.
pub open spec fn box_at(s: Seq<u8>, start: int, end: int) -> Option<BoxSpan> {
    if start + 8 > end || start + 8 > s.len() {
        None
    } else {
        let size32 = be32(s, start);
        let kind = be32(s, start + 4);
        if size32 == 1 && (start + 16 > end || start + 16 > s.len()) {
            None
        } else {
            let header: int = if size32 == 1 {
                16
            } else {
                8
            };
            let size: int = if size32 == 1 {
                be64(s, start + 8) as int
            } else if size32 == 0 {
                end - start
            } else {
                size32 as int
            };
            if size < header || start + size > end || start + size > s.len() {
                None
            } else {
                Some(BoxSpan { kind, start: start + header, end: start + size })
            }
        }
    }
}

/// The sibling boxes from `start` up to `end`, ending at the first header that is
/// malformed, so that padding after the last real box costs nothing before it.
pub open spec fn boxes_in(s: Seq<u8>, start: int, end: int) -> Seq<BoxSpan>
    decreases end - start,
{
    match box_at(s, start, end) {
        Some(b) => seq![b] + boxes_in(s, b.end, end),
        None => seq![],
    }
}

/// The first of some boxes that has type `kind`.
pub open spec fn first_of(boxes: Seq<BoxSpan>, kind: u32) -> Option<BoxSpan>
    decreases boxes.len(),
{
    if boxes.len() == 0 {
        None
    } else if boxes[0].kind == kind {
        Some(boxes[0])
    } else {
        first_of(boxes.skip(1), kind)
    }
}

/// One box header, resolved to absolute byte offsets into the file.
#[derive(Clone, Copy, Debug)]
pub struct BoxHeader {
    pub kind: u32,
    pub body_start: usize,
    pub body_end: usize,
}

impl View for BoxHeader {
    type V = BoxSpan;

    open spec fn view(&self) -> BoxSpan {
        BoxSpan { kind: self.kind, start: self.body_start as int, end: self.body_end as int }
    }
}

/// The boxes some headers stand for.
pub open spec fn spans(headers: Seq<BoxHeader>) -> Seq<BoxSpan> {
    Seq::new(headers.len(), |i: int| headers[i]@)
}

/// Reads one box header at `start`, clamped to `end`.
pub fn read_box_header(bytes: &[u8], start: usize, end: usize) -> (r: Option<BoxHeader>)
    ensures
        match r {
            Some(h) => box_at(bytes@, start as int, end as int) == Some(h@),
            None => box_at(bytes@, start as int, end as int) is None,
        },
{
    let len: usize = bytes.len();
    if start > end || end - start < 8 || start > len || len - start < 8 {
        return None;
    }
    let size32: u32 = get_be32(bytes, start);
    let kind: u32 = get_be32(bytes, start + 4);
    let mut header: usize = 8;
    let size: u64 = if size32 == 1 {
        if end - start < 16 || len - start < 16 {
            return None;
        }
        header = 16;
        get_be64(bytes, start + 8)
    } else if size32 == 0 {
        (end - start) as u64
    } else {
        size32 as u64
    };
    if size < header as u64 || size > (end - start) as u64 || size > (len - start) as u64 {
        return None;
    }
    Some(BoxHeader { kind, body_start: start + header, body_end: start + size as usize })
}

/// Every sibling box from `start` up to `end`.
pub fn list_boxes(bytes: &[u8], start: usize, end: usize) -> (r: Vec<BoxHeader>)
    ensures
        spans(r@) == boxes_in(bytes@, start as int, end as int),
        forall|i: int| 0 <= i < r@.len() ==> (#[trigger] r@[i]).body_start <= r@[i].body_end
            <= bytes@.len(),
{
    let mut out: Vec<BoxHeader> = Vec::new();
    let mut pos: usize = start;
    assert(spans(out@) + boxes_in(bytes@, pos as int, end as int) =~= boxes_in(
        bytes@,
        start as int,
        end as int,
    ));
    loop
        invariant
            spans(out@) + boxes_in(bytes@, pos as int, end as int) == boxes_in(
                bytes@,
                start as int,
                end as int,
            ),
            forall|i: int| 0 <= i < out@.len() ==> (#[trigger] out@[i]).body_start
                <= out@[i].body_end <= bytes@.len(),
        decreases bytes@.len() + 8 - pos,
    {
        match read_box_header(bytes, pos, end) {
            Some(h) => {
                let ghost before = out@;
                let ghost rest = boxes_in(bytes@, h.body_end as int, end as int);
                out.push(h);
                proof {
                    assert(spans(out@) =~= spans(before) + seq![h@]);
                    assert(spans(out@) + rest =~= spans(before) + (seq![h@] + rest));
                }
                pos = h.body_end;
            },
            None => {
                assert(spans(out@) + Seq::<BoxSpan>::empty() =~= spans(out@));
                return out;
            },
        }
    }
}

/// The first box of type `kind` from `start` up to `end`.
pub fn find_box(bytes: &[u8], start: usize, end: usize, kind: u32) -> (r: Option<BoxHeader>)
    ensures
        match r {
            Some(h) => first_of(boxes_in(bytes@, start as int, end as int), kind) == Some(h@)
                && h.body_start <= h.body_end <= bytes@.len(),
            None => first_of(boxes_in(bytes@, start as int, end as int), kind) is None,
        },
{
    let all = list_boxes(bytes, start, end);
    let ghost boxes = boxes_in(bytes@, start as int, end as int);
    let mut i: usize = 0;
    assert(boxes.skip(0) =~= boxes);
    while i < all.len()
        invariant
            i <= all@.len(),
            spans(all@) == boxes,
            boxes == boxes_in(bytes@, start as int, end as int),
            first_of(boxes, kind) == first_of(boxes.skip(i as int), kind),
            forall|k: int| 0 <= k < all@.len() ==> (#[trigger] all@[k]).body_start
                <= all@[k].body_end <= bytes@.len(),
        decreases all@.len() - i,
    {
        assert(boxes.len() == all@.len());
        assert(boxes[i as int] == all@[i as int]@);
        if all[i].kind == kind {
            return Some(all[i]);
        }
        assert(boxes.skip(i as int).skip(1) =~= boxes.skip(i + 1));
        i = i + 1;
    }
    None
}

/// Bounds-checked big-endian cursor over one box's body. A read past the end is
/// [`Error::Truncated`], with the offset into the body and the bytes asked for.
pub struct Reader<'a> {
    pub bytes: &'a [u8],
    pub pos: usize,
}

impl<'a> Reader<'a> {
    /// The cursor stands inside the body or at its end.
    pub open spec fn valid(&self) -> bool {
        self.pos <= self.bytes@.len()
    }

    /// Whether `n` more bytes can be read.
    pub open spec fn has(&self, n: int) -> bool {
        self.pos + n <= self.bytes@.len()
    }

    /// `self` is `before` moved on by `n` bytes.
    pub open spec fn moved(&self, before: &Reader<'a>, n: int) -> bool {
        self.bytes == before.bytes && self.pos == before.pos + n
    }

    pub fn new(bytes: &'a [u8]) -> (r: Reader<'a>)
        ensures
            r.bytes == bytes,
            r.pos == 0,
            r.valid(),
    {
        Reader { bytes, pos: 0 }
    }

    /// How many bytes are left.
    pub fn remaining(&self) -> (n: usize)
        requires
            self.valid(),
        ensures
            n == self.bytes@.len() - self.pos,
    {
        self.bytes.len() - self.pos
    }

    /// The next `n` bytes.
    pub fn take(&mut self, n: usize) -> (r: Result<&'a [u8], Error>)
        requires
            old(self).valid(),
        ensures
            final(self).valid(),
            match r {
                Ok(s) => old(self).has(n as int) && final(self).moved(old(self), n as int) && s@
                    == old(self).bytes@.subrange(old(self).pos as int, old(self).pos + n),
                Err(e) => !old(self).has(n as int) && *final(self) == *old(self) && e
                    == (Error::Truncated { at: old(self).pos, need: n }),
            },
    {
        if n > self.bytes.len() - self.pos {
            return Err(Error::Truncated { at: self.pos, need: n });
        }
        let s = span(self.bytes, self.pos, self.pos + n);
        self.pos = self.pos + n;
        Ok(s)
    }

    /// Passes over the next `n` bytes.
    pub fn skip(&mut self, n: usize) -> (r: Result<(), Error>)
        requires
            old(self).valid(),
        ensures
            final(self).valid(),
            match r {
                Ok(_) => old(self).has(n as int) && final(self).moved(old(self), n as int),
                Err(e) => !old(self).has(n as int) && *final(self) == *old(self) && e
                    == (Error::Truncated { at: old(self).pos, need: n }),
            },
    {
        match self.take(n) {
            Ok(_) => Ok(()),
            Err(e) => Err(e),
        }
    }

    /// The next byte.
    pub fn u8(&mut self) -> (r: Result<u8, Error>)
        requires
            old(self).valid(),
        ensures
            final(self).valid(),
            match r {
                Ok(v) => old(self).has(1) && final(self).moved(old(self), 1) && v
                    == old(self).bytes@[old(self).pos as int],
                Err(e) => !old(self).has(1) && *final(self) == *old(self) && e
                    == (Error::Truncated { at: old(self).pos, need: 1 }),
            },
    {
        match self.take(1) {
            Ok(s) => Ok(s[0]),
            Err(e) => Err(e),
        }
    }

    /// The next two bytes, as a number.
    pub fn u16(&mut self) -> (r: Result<u16, Error>)
        requires
            old(self).valid(),
        ensures
            final(self).valid(),
            match r {
                Ok(v) => old(self).has(2) && final(self).moved(old(self), 2) && v == be16(
                    old(self).bytes@,
                    old(self).pos as int,
                ),
                Err(e) => !old(self).has(2) && *final(self) == *old(self) && e
                    == (Error::Truncated { at: old(self).pos, need: 2 }),
            },
    {
        match self.take(2) {
            Ok(s) => Ok(get_be16(s, 0)),
            Err(e) => Err(e),
        }
    }

    /// The next four bytes, as a number.
    pub fn u32(&mut self) -> (r: Result<u32, Error>)
        requires
            old(self).valid(),
        ensures
            final(self).valid(),
            match r {
                Ok(v) => old(self).has(4) && final(self).moved(old(self), 4) && v == be32(
                    old(self).bytes@,
                    old(self).pos as int,
                ),
                Err(e) => !old(self).has(4) && *final(self) == *old(self) && e
                    == (Error::Truncated { at: old(self).pos, need: 4 }),
            },
    {
        match self.take(4) {
            Ok(s) => Ok(get_be32(s, 0)),
            Err(e) => Err(e),
        }
    }

    /// The next four bytes, as they are.
    pub fn fixed4(&mut self) -> (r: Result<[u8; 4], Error>)
        requires
            old(self).valid(),
        ensures
            final(self).valid(),
            match r {
                Ok(v) => old(self).has(4) && final(self).moved(old(self), 4) && v@
                    == old(self).bytes@.subrange(old(self).pos as int, old(self).pos + 4),
                Err(e) => !old(self).has(4) && *final(self) == *old(self) && e
                    == (Error::Truncated { at: old(self).pos, need: 4 }),
            },
    {
        match self.take(4) {
            Ok(s) => {
                let v: [u8; 4] = [s[0], s[1], s[2], s[3]];
                assert(v@ =~= s@);
                Ok(v)
            },
            Err(e) => Err(e),
        }
    }

    /// Reads a big-endian unsigned integer of `n` bytes, the variable field width
    /// `iloc` uses for offsets, lengths and indices. A field wider than eight bytes
    /// keeps its low 64 bits.
    pub fn uint(&mut self, n: usize) -> (r: Result<u64, Error>)
        requires
            old(self).valid(),
        ensures
            final(self).valid(),
            match r {
                Ok(v) => old(self).has(n as int) && final(self).moved(old(self), n as int) && v
                    == wide_value(
                    old(self).bytes@.subrange(old(self).pos as int, old(self).pos + n),
                ),
                Err(e) => !old(self).has(n as int) && *final(self) == *old(self) && e
                    == (Error::Truncated { at: old(self).pos, need: n }),
            },
    {
        match self.take(n) {
            Ok(s) => {
                let mut acc: u64 = 0;
                let mut i: usize = 0;
                while i < s.len()
                    invariant
                        i <= s@.len(),
                        acc == wide_value(s@.subrange(0, i as int)),
                    decreases s@.len() - i,
                {
                    let next: u64 = (acc % 0x100_0000_0000_0000) * 0x100 + s[i] as u64;
                    proof {
                        let w = s@.subrange(0, i + 1);
                        assert(w.drop_last() =~= s@.subrange(0, i as int));
                        assert(w.last() == s@[i as int]);
                    }
                    acc = next;
                    i = i + 1;
                }
                assert(s@.subrange(0, s@.len() as int) =~= s@);
                Ok(acc)
            },
            Err(e) => Err(e),
        }
    }
}

/// The low 64 bits of a big-endian number of any width.
pub open spec fn wide_value(s: Seq<u8>) -> u64
    decreases s.len(),
{
    if s.len() == 0 {
        0
    } else {
        ((wide_value(s.drop_last()) % 0x100_0000_0000_0000) * 0x100 + s.last()) as u64
    }
}

/// The bytes of a box: size, type, payload.
pub open spec fn box_bytes(kind: u32, body: Seq<u8>) -> Seq<u8> {
    be32_bytes((8 + body.len()) as u32) + be32_bytes(kind) + body
}

/// The largest payload whose size a box header can state in 32 bits.
pub open spec fn body_fits(body: Seq<u8>) -> bool {
    8 + body.len() <= u32::MAX
}

/// Appends a box with type `kind` and payload `body`.
pub fn push_box(buf: &mut Vec<u8>, kind: u32, body: &[u8])
    requires
        body_fits(body@),
    ensures
        final(buf)@ == old(buf)@ + box_bytes(kind, body@),
{
    push_be32(buf, (8 + body.len()) as u32);
    push_be32(buf, kind);
    push_all(buf, body);
    assert(buf@ =~= old(buf)@ + box_bytes(kind, body@));
}

/// A box with its type and payload, before it has a place in a file.
pub struct Chunk {
    pub kind: u32,
    pub body: Seq<u8>,
}

/// Boxes written one after the other.
pub open spec fn chunk_bytes(chunks: Seq<Chunk>) -> Seq<u8>
    decreases chunks.len(),
{
    if chunks.len() == 0 {
        seq![]
    } else {
        box_bytes(chunks[0].kind, chunks[0].body) + chunk_bytes(chunks.skip(1))
    }
}

/// Where boxes written one after the other from `at` on lie.
pub open spec fn placed(chunks: Seq<Chunk>, at: int) -> Seq<BoxSpan>
    decreases chunks.len(),
{
    if chunks.len() == 0 {
        seq![]
    } else {
        let end = at + 8 + chunks[0].body.len();
        seq![BoxSpan { kind: chunks[0].kind, start: at + 8, end }] + placed(chunks.skip(1), end)
    }
}

/// A written box is read back with its type, at its place.
pub proof fn box_reads_back(s: Seq<u8>, at: int, end: int, kind: u32, body: Seq<u8>)
    requires
        0 <= at,
        at + 8 + body.len() <= end <= s.len(),
        body_fits(body),
        s.subrange(at, at + 8 + body.len()) == box_bytes(kind, body),
    ensures
        box_at(s, at, end) == Some(BoxSpan { kind, start: at + 8, end: at + 8 + body.len() }),
        s.subrange(at + 8, at + 8 + body.len()) == body,
{
    let w = s.subrange(at, at + 8 + body.len());
    let size = (8 + body.len()) as u32;
    assert(s.subrange(at, at + 4) =~= w.subrange(0, 4));
    assert(w.subrange(0, 4) =~= be32_bytes(size));
    assert(s.subrange(at + 4, at + 8) =~= w.subrange(4, 8));
    assert(w.subrange(4, 8) =~= be32_bytes(kind));
    lemma_be32_read_back(size, s, at);
    lemma_be32_read_back(kind, s, at + 4);
    assert(s.subrange(at + 8, at + 8 + body.len()) =~= w.subrange(8, (8 + body.len()) as int));
    assert(w.subrange(8, (8 + body.len()) as int) =~= body);
}

/// Boxes written one after the other are read back, every one of them in order
/// and with its payload.
pub proof fn boxes_read_back(s: Seq<u8>, at: int, end: int, chunks: Seq<Chunk>)
    requires
        0 <= at <= end <= s.len(),
        s.subrange(at, end) == chunk_bytes(chunks),
        forall|i: int| 0 <= i < chunks.len() ==> body_fits((#[trigger] chunks[i]).body),
    ensures
        boxes_in(s, at, end) == placed(chunks, at),
        placed(chunks, at).len() == chunks.len(),
        forall|i: int|
            0 <= i < chunks.len() ==> (#[trigger] placed(chunks, at)[i]).kind == chunks[i].kind
                && at <= placed(chunks, at)[i].start <= placed(chunks, at)[i].end <= end
                && s.subrange(placed(chunks, at)[i].start, placed(chunks, at)[i].end)
                == chunks[i].body,
    decreases chunks.len(),
{
    if chunks.len() == 0 {
        assert(at == end);
        assert(boxes_in(s, at, end) =~= placed(chunks, at));
    } else {
        let c = chunks[0];
        let rest = chunks.skip(1);
        let mid = at + 8 + c.body.len();
        let w = s.subrange(at, end);
        let head = box_bytes(c.kind, c.body);
        assert(w == head + chunk_bytes(rest));
        assert(head.len() == 8 + c.body.len());
        assert(s.subrange(at, mid) =~= w.subrange(0, head.len() as int));
        assert(w.subrange(0, head.len() as int) =~= head);
        assert(s.subrange(mid, end) =~= w.subrange(head.len() as int, w.len() as int));
        assert(w.subrange(head.len() as int, w.len() as int) =~= chunk_bytes(rest));
        box_reads_back(s, at, end, c.kind, c.body);
        assert forall|i: int| 0 <= i < rest.len() implies body_fits((#[trigger] rest[i]).body) by {
            assert(rest[i] == chunks[i + 1]);
        }
        boxes_read_back(s, mid, end, rest);
        let p = placed(chunks, at);
        let q = placed(rest, mid);
        assert(p == seq![BoxSpan { kind: c.kind, start: at + 8, end: mid }] + q);
        assert(boxes_in(s, at, end) =~= p);
        assert forall|i: int| 0 <= i < chunks.len() implies (#[trigger] p[i]).kind
            == chunks[i].kind && at <= p[i].start <= p[i].end <= end && s.subrange(
            p[i].start,
            p[i].end,
        ) == chunks[i].body by {
            if i > 0 {
                assert(p[i] == q[i - 1]);
                assert(rest[i - 1] == chunks[i]);
            }
        }
    }
}

/// A box appended to others is written behind them.
pub proof fn lemma_chunk_push(chunks: Seq<Chunk>, c: Chunk)
    ensures
        chunk_bytes(chunks.push(c)) == chunk_bytes(chunks) + box_bytes(c.kind, c.body),
    decreases chunks.len(),
{
    let all = chunks.push(c);
    if chunks.len() == 0 {
        assert(all.skip(1) =~= chunks);
        assert(chunk_bytes(chunks) =~= seq![]);
        assert(chunk_bytes(all) == box_bytes(c.kind, c.body) + chunk_bytes(chunks));
        assert(chunk_bytes(all) =~= chunk_bytes(chunks) + box_bytes(c.kind, c.body));
    } else {
        lemma_chunk_push(chunks.skip(1), c);
        assert(all.skip(1) =~= chunks.skip(1).push(c));
        assert(all[0] == chunks[0]);
        let head = box_bytes(chunks[0].kind, chunks[0].body);
        assert(chunk_bytes(all) == head + chunk_bytes(all.skip(1)));
        assert(chunk_bytes(chunks) == head + chunk_bytes(chunks.skip(1)));
        assert(chunk_bytes(all) =~= chunk_bytes(chunks) + box_bytes(c.kind, c.body));
    }
}

/// A run of boxes is longer than the payload of any one of them.
pub proof fn lemma_chunk_is_smaller(chunks: Seq<Chunk>, i: int)
    requires
        0 <= i < chunks.len(),
    ensures
        chunk_bytes(chunks).len() >= 8 + chunks[i].body.len(),
    decreases chunks.len(),
{
    if i > 0 {
        lemma_chunk_is_smaller(chunks.skip(1), i - 1);
        assert(chunks.skip(1)[i - 1] == chunks[i]);
    }
}

} // verus!
