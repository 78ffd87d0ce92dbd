//! Fixed-width integers in byte sequences, in either byte order, and the small
//! buffer operations every reader and writer here is built from.

use vstd::prelude::*;
use vstd::slice::slice_subrange;

verus! {

/// The big-endian 16-bit value at `i`.
pub open spec fn be16(s: Seq<u8>, i: int) -> u16 {
    (s[i] * 0x100 + s[i + 1]) as u16
}

/// The big-endian 32-bit value at `i`.
pub open spec fn be32(s: Seq<u8>, i: int) -> u32 {
    (s[i] * 0x100_0000 + s[i + 1] * 0x1_0000 + s[i + 2] * 0x100 + s[i + 3]) as u32
}

/// The little-endian 16-bit value at `i`.
pub open spec fn le16(s: Seq<u8>, i: int) -> u16 {
    (s[i + 1] * 0x100 + s[i]) as u16
}

/// The little-endian 32-bit value at `i`.
pub open spec fn le32(s: Seq<u8>, i: int) -> u32 {
    (s[i + 3] * 0x100_0000 + s[i + 2] * 0x1_0000 + s[i + 1] * 0x100 + s[i]) as u32
}

/// The big-endian 64-bit value at `i`.
pub open spec fn be64(s: Seq<u8>, i: int) -> u64 {
    (be32(s, i) * 0x1_0000_0000 + be32(s, i + 4)) as u64
}

/// The 16-bit value at `i` in the byte order `le` names.
pub open spec fn word16(le: bool, s: Seq<u8>, i: int) -> u16 {
    if le {
        le16(s, i)
    } else {
        be16(s, i)
    }
}

/// The 32-bit value at `i` in the byte order `le` names.
pub open spec fn word32(le: bool, s: Seq<u8>, i: int) -> u32 {
    if le {
        le32(s, i)
    } else {
        be32(s, i)
    }
}

/// `v` as two big-endian bytes.
#[verifier::opaque]
pub open spec fn be16_bytes(v: u16) -> Seq<u8> {
    seq![(v / 0x100) as u8, (v % 0x100) as u8]
}

/// `v` as four big-endian bytes.
#[verifier::opaque]
pub open spec fn be32_bytes(v: u32) -> Seq<u8> {
    seq![
        (v / 0x100_0000) as u8,
        (v / 0x1_0000 % 0x100) as u8,
        (v / 0x100 % 0x100) as u8,
        (v % 0x100) as u8,
    ]
}

/// `v` as two bytes in the byte order `le` names.
#[verifier::opaque]
pub open spec fn word16_bytes(le: bool, v: u16) -> Seq<u8> {
    if le {
        seq![(v % 0x100) as u8, (v / 0x100) as u8]
    } else {
        be16_bytes(v)
    }
}

/// `v` as four bytes in the byte order `le` names.
#[verifier::opaque]
pub open spec fn word32_bytes(le: bool, v: u32) -> Seq<u8> {
    if le {
        seq![
            (v % 0x100) as u8,
            (v / 0x100 % 0x100) as u8,
            (v / 0x1_0000 % 0x100) as u8,
            (v / 0x100_0000) as u8,
        ]
    } else {
        be32_bytes(v)
    }
}

/// An encoded value is as long as its width says.
pub broadcast proof fn be16_bytes_len(v: u16)
    ensures
        #[trigger] be16_bytes(v).len() == 2,
{
    reveal(be16_bytes);
}

pub broadcast proof fn be32_bytes_len(v: u32)
    ensures
        #[trigger] be32_bytes(v).len() == 4,
{
    reveal(be32_bytes);
}

pub broadcast proof fn word16_bytes_len(le: bool, v: u16)
    ensures
        #[trigger] word16_bytes(le, v).len() == 2,
{
    reveal(word16_bytes);
    reveal(be16_bytes);
}

pub broadcast proof fn word32_bytes_len(le: bool, v: u32)
    ensures
        #[trigger] word32_bytes(le, v).len() == 4,
{
    reveal(word32_bytes);
    reveal(be32_bytes);
}

/// The lengths of encoded values.
pub broadcast group group_encoded_lengths {
    be16_bytes_len,
    be32_bytes_len,
    word16_bytes_len,
    word32_bytes_len,
}

/// Writing a 16-bit value and reading it at the same place gives it back.
pub proof fn lemma_word16_read_back(le: bool, v: u16, s: Seq<u8>, i: int)
    requires
        0 <= i,
        i + 2 <= s.len(),
        s.subrange(i, i + 2) == word16_bytes(le, v),
    ensures
        word16(le, s, i) == v,
{
    reveal(word16_bytes);
    reveal(be16_bytes);
    let w = s.subrange(i, i + 2);
    assert(w[0] == s[i] && w[1] == s[i + 1]);
}

/// Writing a 32-bit value and reading it at the same place gives it back.
pub proof fn lemma_word32_read_back(le: bool, v: u32, s: Seq<u8>, i: int)
    requires
        0 <= i,
        i + 4 <= s.len(),
        s.subrange(i, i + 4) == word32_bytes(le, v),
    ensures
        word32(le, s, i) == v,
{
    reveal(word32_bytes);
    reveal(be32_bytes);
    let w = s.subrange(i, i + 4);
    assert(w[0] == s[i] && w[1] == s[i + 1] && w[2] == s[i + 2] && w[3] == s[i + 3]);
}

/// Writing a big-endian 16-bit value and reading it gives it back.
pub proof fn lemma_be16_read_back(v: u16, s: Seq<u8>, i: int)
    requires
        0 <= i,
        i + 2 <= s.len(),
        s.subrange(i, i + 2) == be16_bytes(v),
    ensures
        be16(s, i) == v,
{
    reveal(word16_bytes);
    lemma_word16_read_back(false, v, s, i);
}

/// Writing a big-endian 32-bit value and reading it gives it back.
pub proof fn lemma_be32_read_back(v: u32, s: Seq<u8>, i: int)
    requires
        0 <= i,
        i + 4 <= s.len(),
        s.subrange(i, i + 4) == be32_bytes(v),
    ensures
        be32(s, i) == v,
{
    reveal(word32_bytes);
    lemma_word32_read_back(false, v, s, i);
}

/// Reads a big-endian 16-bit value.
pub fn get_be16(s: &[u8], i: usize) -> (v: u16)
    requires
        i + 2 <= s@.len(),
    ensures
        v == be16(s@, i as int),
{
    s[i] as u16 * 0x100 + s[i + 1] as u16
}

/// Reads a big-endian 32-bit value.
pub fn get_be32(s: &[u8], i: usize) -> (v: u32)
    requires
        i + 4 <= s@.len(),
    ensures
        v == be32(s@, i as int),
{
    s[i] as u32 * 0x100_0000 + s[i + 1] as u32 * 0x1_0000 + s[i + 2] as u32 * 0x100 + s[i
        + 3] as u32
}

/// Reads a big-endian 64-bit value.
pub fn get_be64(s: &[u8], i: usize) -> (v: u64)
    requires
        i + 8 <= s@.len(),
    ensures
        v == be64(s@, i as int),
{
    assert(i + 8 <= s.len());
    get_be32(s, i) as u64 * 0x1_0000_0000 + get_be32(s, i + 4) as u64
}

/// Reads a 16-bit value in the byte order `le` names.
pub fn get_word16(le: bool, s: &[u8], i: usize) -> (v: u16)
    requires
        i + 2 <= s@.len(),
    ensures
        v == word16(le, s@, i as int),
{
    if le {
        assert(i + 2 <= s.len());
        s[i + 1] as u16 * 0x100 + s[i] as u16
    } else {
        get_be16(s, i)
    }
}

/// Reads a 32-bit value in the byte order `le` names.
pub fn get_word32(le: bool, s: &[u8], i: usize) -> (v: u32)
    requires
        i + 4 <= s@.len(),
    ensures
        v == word32(le, s@, i as int),
{
    if le {
        assert(i + 4 <= s.len());
        s[i + 3] as u32 * 0x100_0000 + s[i + 2] as u32 * 0x1_0000 + s[i + 1] as u32 * 0x100
            + s[i] as u32
    } else {
        get_be32(s, i)
    }
}

/// Appends `v` as two bytes in the byte order `le` names.
pub fn push_word16(buf: &mut Vec<u8>, le: bool, v: u16)
    ensures
        final(buf)@ == old(buf)@ + word16_bytes(le, v),
{
    proof {
        reveal(word16_bytes);
        reveal(be16_bytes);
    }
    if le {
        buf.push((v % 0x100) as u8);
        buf.push((v / 0x100) as u8);
    } else {
        buf.push((v / 0x100) as u8);
        buf.push((v % 0x100) as u8);
    }
    assert(buf@ =~= old(buf)@ + word16_bytes(le, v));
}

/// Appends `v` as four bytes in the byte order `le` names.
pub fn push_word32(buf: &mut Vec<u8>, le: bool, v: u32)
    ensures
        final(buf)@ == old(buf)@ + word32_bytes(le, v),
{
    proof {
        reveal(word32_bytes);
        reveal(be32_bytes);
    }
    if le {
        buf.push((v % 0x100) as u8);
        buf.push((v / 0x100 % 0x100) as u8);
        buf.push((v / 0x1_0000 % 0x100) as u8);
        buf.push((v / 0x100_0000) as u8);
    } else {
        buf.push((v / 0x100_0000) as u8);
        buf.push((v / 0x1_0000 % 0x100) as u8);
        buf.push((v / 0x100 % 0x100) as u8);
        buf.push((v % 0x100) as u8);
    }
    assert(buf@ =~= old(buf)@ + word32_bytes(le, v));
}

/// Appends `v` as two big-endian bytes.
pub fn push_be16(buf: &mut Vec<u8>, v: u16)
    ensures
        final(buf)@ == old(buf)@ + be16_bytes(v),
{
    proof {
        reveal(word16_bytes);
    }
    push_word16(buf, false, v);
}

/// Appends `v` as four big-endian bytes.
pub fn push_be32(buf: &mut Vec<u8>, v: u32)
    ensures
        final(buf)@ == old(buf)@ + be32_bytes(v),
{
    proof {
        reveal(word32_bytes);
    }
    push_word32(buf, false, v);
}

/// Appends a run of bytes.
pub fn push_all(buf: &mut Vec<u8>, more: &[u8])
    ensures
        final(buf)@ == old(buf)@ + more@,
{
    buf.extend_from_slice(more);
    assert(buf@ =~= old(buf)@ + more@);
}

/// Whether `s` has `p` at offset `i`.
pub open spec fn matches_at(s: Seq<u8>, i: int, p: Seq<u8>) -> bool {
    0 <= i && i + p.len() <= s.len() && s.subrange(i, i + p.len()) == p
}

/// Tests whether `s` has `p` at offset `i`.
pub fn has_at(s: &[u8], i: usize, p: &[u8]) -> (b: bool)
    ensures
        b == matches_at(s@, i as int, p@),
{
    if i > s.len() || s.len() - i < p.len() {
        return false;
    }
    let mut k: usize = 0;
    while k < p.len()
        invariant
            k <= p.len(),
            i + p.len() <= s.len(),
            forall|j: int| 0 <= j < k ==> s@[i + j] == p@[j],
        decreases p.len() - k,
    {
        if s[i + k] != p[k] {
            proof {
                if s@.subrange(i as int, i + p@.len()) == p@ {
                    assert(s@.subrange(i as int, i + p@.len())[k as int] == p@[k as int]);
                }
            }
            return false;
        }
        k = k + 1;
    }
    assert(s@.subrange(i as int, i + p@.len()) =~= p@);
    true
}

/// Tests two byte runs for equality.
pub fn same_bytes(a: &[u8], b: &[u8]) -> (r: bool)
    ensures
        r == (a@ == b@),
{
    if a.len() != b.len() {
        return false;
    }
    let r = has_at(a, 0, b);
    assert(a@.subrange(0, a@.len() as int) =~= a@);
    r
}

/// The bytes of `s` from `a` up to `b`.
pub fn span(s: &[u8], a: usize, b: usize) -> (r: &[u8])
    requires
        a <= b <= s@.len(),
    ensures
        r@ == s@.subrange(a as int, b as int),
{
    slice_subrange(s, a, b)
}

/// An owned copy of a byte run.
pub fn to_owned_bytes(s: &[u8]) -> (v: Vec<u8>)
    ensures
        v@ == s@,
{
    let mut v: Vec<u8> = Vec::new();
    push_all(&mut v, s);
    assert(v@ =~= s@);
    v
}

} // verus!
