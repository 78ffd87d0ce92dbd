//! What the operations of this library are for, said of the bytes that go in and come out.
//!
//! The other modules say what each function computes. The laws here say what that has to
//! amount to, in plain numbers and positions: which bytes of a source are in the output, which
//! picture a codec is handed, what a file declares.

pub mod apple;
pub mod codec;
pub mod colour;
pub mod encode;
pub mod engine;
pub mod exif;
pub mod gain_map_tiff;
pub mod heif;
pub mod input;
pub mod iso21496;
pub mod jpeg;
pub mod maker_note;
pub mod mux;
pub mod names;
pub mod options;
pub mod orient;
pub mod par;
pub mod sidecar;
pub mod size;
pub mod text;
pub mod tiff;

use vstd::prelude::*;

use crate::bytes::{
    be16, be16_bytes, be32, be32_bytes, be64, word16, word16_bytes, word32, word32_bytes,
};

verus! {

/// The number four characters make, as a box or an item is named by.
pub open spec fn four(a: char, b: char, c: char, d: char) -> int {
    0x100_0000 * (a as int) + 0x1_0000 * (b as int) + 0x100 * (c as int) + (d as int)
}

/// The number that two bytes make, the low one first or last.
pub open spec fn number16(little_endian: bool, s: Seq<u8>, i: int) -> int {
    if little_endian {
        s[i] + 256 * s[i + 1]
    } else {
        256 * s[i] + s[i + 1]
    }
}

/// The number that four bytes make, the low ones first or last.
pub open spec fn number32(little_endian: bool, s: Seq<u8>, i: int) -> int {
    if little_endian {
        number16(true, s, i) + 65536 * number16(true, s, i + 2)
    } else {
        65536 * number16(false, s, i) + number16(false, s, i + 2)
    }
}

/// What is read of some bytes is the number they make.
pub proof fn words_are_the_numbers_their_bytes_make(little_endian: bool, s: Seq<u8>, i: int)
    ensures
        word16(little_endian, s, i) == number16(little_endian, s, i),
        word32(little_endian, s, i) == number32(little_endian, s, i),
        be16(s, i) == number16(false, s, i),
        be32(s, i) == number32(false, s, i),
        be64(s, i) == 0x1_0000_0000 * number32(false, s, i) + number32(false, s, i + 4),
{
}

/// The bytes that are written of a number make that number.
pub proof fn written_words_make_their_numbers(little_endian: bool, v: u16, w: u32)
    ensures
        word16_bytes(little_endian, v).len() == 2,
        number16(little_endian, word16_bytes(little_endian, v), 0) == v,
        word32_bytes(little_endian, w).len() == 4,
        number32(little_endian, word32_bytes(little_endian, w), 0) == w,
        be16_bytes(v).len() == 2,
        number16(false, be16_bytes(v), 0) == v,
        be32_bytes(w).len() == 4,
        number32(false, be32_bytes(w), 0) == w,
{
    reveal(word16_bytes);
    reveal(word32_bytes);
    reveal(be16_bytes);
    reveal(be32_bytes);
}

} // verus!
