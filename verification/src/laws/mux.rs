//! What a written file has to begin with, and what it has to prefer.

use vstd::prelude::*;

use crate::bytes::{be32_bytes, group_encoded_lengths, lemma_be32_read_back};
use crate::heif::boxes::{
    body_fits, boxes_in, boxes_read_back, chunk_bytes, lemma_chunk_is_smaller, placed,
};
use crate::heif::write::{
    altr_chunk, early_children, ftyp_body, grpl_chunks, hdlr_body, idat_chunks, mdat_start,
    meta_children, mux, mux_bytes, stored, top_chunks, writable, zeros4, MuxRequest, MuxView,
};
use crate::heif::Error;
use crate::laws::{four, number32, words_are_the_numbers_their_bytes_make};

verus! {

broadcast use group_encoded_lengths;

/// Whether the four bytes at `at` make the number `n`.
pub open spec fn has(s: Seq<u8>, at: int, n: int) -> bool {
    number32(false, s, at) == n
}

proof fn lemma_has(s: Seq<u8>, at: int, v: u32)
    requires
        0 <= at,
        at + 4 <= s.len(),
        s.subrange(at, at + 4) == be32_bytes(v),
    ensures
        has(s, at, v as int),
{
    lemma_be32_read_back(v, s, at);
    words_are_the_numbers_their_bytes_make(false, s, at);
}

/// Where the boxes of a written file are: their payloads are where they should be.
proof fn lemma_top(q: MuxView)
    requires
        writable(q),
    ensures
        ({
            let s = mux_bytes(q);
            let top = boxes_in(s, 0, s.len() as int);
            &&& top.len() == 3
            &&& top[0].kind == four('f', 't', 'y', 'p')
            &&& top[1].kind == four('m', 'e', 't', 'a')
            &&& top[2].kind == four('m', 'd', 'a', 't')
            &&& top[0].start == 8
            &&& forall|i: int|
                0 <= i < 3 ==> 0 <= (#[trigger] top[i]).start <= top[i].end <= s.len()
            &&& s.subrange(top[0].start, top[0].end) == ftyp_body(q)
            &&& s.subrange(top[1].start, top[1].end) == zeros4() + chunk_bytes(
                meta_children(q, mdat_start(q)),
            )
            &&& s.subrange(top[2].start, top[2].end) == q.base.data + q.gain.data
        }),
{
    let s = mux_bytes(q);
    let chunks = top_chunks(q);
    assert(s.subrange(0, s.len() as int) =~= s);
    assert forall|i: int| 0 <= i < chunks.len() implies body_fits((#[trigger] chunks[i]).body) by {
        lemma_chunk_is_smaller(chunks, i);
    }
    boxes_read_back(s, 0, s.len() as int, chunks);
    let top = placed(chunks, 0);
    assert(top[0].kind == chunks[0].kind);
    assert(top[1].kind == chunks[1].kind);
    assert(top[2].kind == chunks[2].kind);
}

proof fn lemma_kids(q: MuxView)
    requires
        writable(q),
    ensures
        ({
            let s = mux_bytes(q);
            let meta = boxes_in(s, 0, s.len() as int)[1];
            let chunks = meta_children(q, mdat_start(q));
            let kids = boxes_in(s, meta.start + 4, meta.end);
            &&& has(s, meta.start, 0)
            &&& kids.len() == chunks.len()
            &&& forall|i: int|
                0 <= i < kids.len() ==> (#[trigger] kids[i]).kind == chunks[i].kind && 0
                    <= kids[i].start <= kids[i].end <= s.len() && s.subrange(
                    kids[i].start,
                    kids[i].end,
                ) == chunks[i].body
        }),
{
    lemma_top(q);
    let s = mux_bytes(q);
    let meta = boxes_in(s, 0, s.len() as int)[1];
    let chunks = meta_children(q, mdat_start(q));
    let w = s.subrange(meta.start, meta.end);
    assert(w.len() == 4 + chunk_bytes(chunks).len());
    assert(s.subrange(meta.start, meta.start + 4) =~= w.subrange(0, 4));
    assert(w.subrange(0, 4) =~= zeros4());
    assert(zeros4() =~= be32_bytes(0)) by {
        reveal(be32_bytes);
    }
    lemma_has(s, meta.start, 0);
    assert(s.subrange(meta.start + 4, meta.end) =~= w.subrange(4, w.len() as int));
    assert(w.subrange(4, w.len() as int) =~= chunk_bytes(chunks));
    assert forall|i: int| 0 <= i < chunks.len() implies body_fits((#[trigger] chunks[i]).body) by {
        lemma_chunk_is_smaller(chunks, i);
    }
    boxes_read_back(s, meta.start + 4, meta.end, chunks);
    let kids = placed(chunks, meta.start + 4);
    assert forall|i: int| 0 <= i < kids.len() implies (#[trigger] kids[i]).kind == chunks[i].kind
        && 0 <= kids[i].start <= kids[i].end <= s.len() && s.subrange(kids[i].start, kids[i].end)
        == chunks[i].body by {
        assert(kids[i].kind == chunks[i].kind);
    }
}

proof fn lemma_word_inside(s: Seq<u8>, a: int, b: int, body: Seq<u8>, at: int, v: u32)
    requires
        0 <= a <= b <= s.len(),
        s.subrange(a, b) == body,
        0 <= at,
        at + 4 <= body.len(),
        body.subrange(at, at + 4) == be32_bytes(v),
    ensures
        has(s, a + at, v as int),
{
    assert(body.len() == b - a);
    assert(s.subrange(a + at, a + at + 4) =~= body.subrange(at, at + 4));
    lemma_has(s, a + at, v);
}

proof fn lemma_ftyp(q: MuxView, s: Seq<u8>, end: int)
    requires
        8 <= end <= s.len(),
        s.subrange(8, end) == ftyp_body(q),
    ensures
        end == if q.flavor.iso() {
            32int
        } else {
            28
        },
        has(s, 8, four('h', 'e', 'i', 'c')),
        has(s, 12, 0),
        has(s, 16, four('m', 'i', 'f', '1')),
        has(s, 20, four('h', 'e', 'i', 'c')),
        has(s, 24, four('m', 'i', 'a', 'f')),
        q.flavor.iso() ==> has(s, 28, four('t', 'm', 'a', 'p')),
{
    let f = ftyp_body(q);
    assert(f.subrange(0, 4) =~= be32_bytes(0x68656963));
    assert(f.subrange(4, 8) =~= be32_bytes(0));
    assert(f.subrange(8, 12) =~= be32_bytes(0x6d696631));
    assert(f.subrange(12, 16) =~= be32_bytes(0x68656963));
    assert(f.subrange(16, 20) =~= be32_bytes(0x6d696166));
    lemma_word_inside(s, 8, end, f, 0, 0x68656963);
    lemma_word_inside(s, 8, end, f, 4, 0);
    lemma_word_inside(s, 8, end, f, 8, 0x6d696631);
    lemma_word_inside(s, 8, end, f, 12, 0x68656963);
    lemma_word_inside(s, 8, end, f, 16, 0x6d696166);
    if q.flavor.iso() {
        assert(f.subrange(20, 24) =~= be32_bytes(0x746d6170));
        lemma_word_inside(s, 8, end, f, 20, 0x746d6170);
    }
}

proof fn lemma_hdlr(s: Seq<u8>, start: int, end: int)
    requires
        0 <= start <= end <= s.len(),
        s.subrange(start, end) == hdlr_body(),
    ensures
        has(s, start + 8, four('p', 'i', 'c', 't')),
{
    let h = hdlr_body();
    assert(h.subrange(8, 12) =~= be32_bytes(0x70696374));
    lemma_word_inside(s, start, end, h, 8, 0x70696374);
}

/// A written file is a HEIC: it says so first, then that it keeps to `mif1`, `heic` and `miaf`,
/// and to `tmap` with a tone-mapped image. Behind that its metadata describes a picture, and the
/// coded images are the base and then the gain map.
pub proof fn a_written_file_says_what_it_is(req: &MuxRequest, r: Result<Vec<u8>, Error>)
    requires
        call_ensures(mux, (req,), r),
        r is Ok,
    ensures
        ({
            let s = r->Ok_0@;
            let top = boxes_in(s, 0, s.len() as int);
            let kids = boxes_in(s, top[1].start + 4, top[1].end);
            &&& top.len() == 3
            &&& top[0].kind == four('f', 't', 'y', 'p')
            &&& top[0].start == 8
            &&& top[0].end == if req.flavor.iso() {
                32int
            } else {
                28
            }
            &&& has(s, 8, four('h', 'e', 'i', 'c'))
            &&& has(s, 12, 0)
            &&& has(s, 16, four('m', 'i', 'f', '1'))
            &&& has(s, 20, four('h', 'e', 'i', 'c'))
            &&& has(s, 24, four('m', 'i', 'a', 'f'))
            &&& req.flavor.iso() ==> has(s, 28, four('t', 'm', 'a', 'p'))
            &&& top[1].kind == four('m', 'e', 't', 'a')
            &&& kids.len() > 0
            &&& kids[0].kind == four('h', 'd', 'l', 'r')
            &&& has(s, kids[0].start + 8, four('p', 'i', 'c', 't'))
            &&& top[2].kind == four('m', 'd', 'a', 't')
            &&& s.subrange(top[2].start, top[2].end) == req.base.data@ + req.gain.data@
        }),
{
    let q = req@;
    let s = mux_bytes(q);
    lemma_top(q);
    lemma_kids(q);
    let top = boxes_in(s, 0, s.len() as int);
    lemma_ftyp(q, s, top[0].end);
    reveal(early_children);
    let kids = boxes_in(s, top[1].start + 4, top[1].end);
    assert(meta_children(q, mdat_start(q))[0].body == hdlr_body());
    assert(kids[0].kind == four('h', 'd', 'l', 'r'));
    lemma_hdlr(s, kids[0].start, kids[0].end);
}

/// Whether a box holds one group of alternatives, of two: item 3 before item 1, under a number
/// that no item has.
pub open spec fn prefers_the_third(s: Seq<u8>, start: int, end: int, items: int) -> bool {
    &&& end == start + 28
    &&& has(s, start, 28)
    &&& has(s, start + 4, four('a', 'l', 't', 'r'))
    &&& has(s, start + 8, 0)
    &&& number32(false, s, start + 12) > items
    &&& has(s, start + 16, 2)
    &&& has(s, start + 20, 3)
    &&& has(s, start + 24, 1)
}

/// A file with a tone-mapped image, item 3, prefers it to its base, item 1. One without states no
/// preference.
pub proof fn the_tone_mapped_image_is_preferred(req: &MuxRequest, r: Result<Vec<u8>, Error>)
    requires
        call_ensures(mux, (req,), r),
        r is Ok,
    ensures
        ({
            let s = r->Ok_0@;
            let meta = boxes_in(s, 0, s.len() as int)[1];
            let kids = boxes_in(s, meta.start + 4, meta.end);
            &&& req.flavor.iso() ==> kids.len() > 5 && kids[5].kind == four('g', 'r', 'p', 'l')
                && prefers_the_third(s, kids[5].start, kids[5].end, 2 + stored(req@).len() as int)
            &&& !req.flavor.iso() ==> forall|i: int|
                0 <= i < kids.len() ==> (#[trigger] kids[i]).kind != four('g', 'r', 'p', 'l')
        }),
{
    let q = req@;
    let s = mux_bytes(q);
    lemma_kids(q);
    reveal(early_children);
    let meta = boxes_in(s, 0, s.len() as int)[1];
    let kids = boxes_in(s, meta.start + 4, meta.end);
    let chunks = meta_children(q, mdat_start(q));
    if q.flavor.iso() {
        let c = altr_chunk(q);
        let g = chunk_bytes(seq![c]);
        assert(chunks[5].kind == 0x6772706c && chunks[5].body == g);
        assert(seq![c].skip(1) =~= seq![]);
        reveal_with_fuel(chunk_bytes, 2);
        assert(c.body.len() == 20);
        assert(g.len() == 28);
        assert(zeros4() =~= be32_bytes(0)) by {
            reveal(be32_bytes);
        }
        let n = (3 + stored(q).len()) as u32;
        assert(g.subrange(0, 4) =~= be32_bytes(28));
        assert(g.subrange(4, 8) =~= be32_bytes(0x616c7472));
        assert(g.subrange(8, 12) =~= be32_bytes(0));
        assert(g.subrange(12, 16) =~= be32_bytes(n));
        assert(g.subrange(16, 20) =~= be32_bytes(2));
        assert(g.subrange(20, 24) =~= be32_bytes(3));
        assert(g.subrange(24, 28) =~= be32_bytes(1));
        let (a, b) = (kids[5].start, kids[5].end);
        lemma_word_inside(s, a, b, g, 0, 28);
        lemma_word_inside(s, a, b, g, 4, 0x616c7472);
        lemma_word_inside(s, a, b, g, 8, 0);
        lemma_word_inside(s, a, b, g, 12, n);
        lemma_word_inside(s, a, b, g, 16, 2);
        lemma_word_inside(s, a, b, g, 20, 3);
        lemma_word_inside(s, a, b, g, 24, 1);
    } else {
        assert forall|i: int| 0 <= i < kids.len() implies (#[trigger] kids[i]).kind != four(
            'g',
            'r',
            'p',
            'l',
        ) by {
            assert(kids[i].kind == chunks[i].kind);
            assert(grpl_chunks(q).len() == 0);
            if i >= 5 && i < chunks.len() - 1 {
                assert(chunks[i] == idat_chunks(q)[i - 5]);
            }
        }
    }
}

} // verus!
