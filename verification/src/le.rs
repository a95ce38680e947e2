//! Little-endian 32-bit words, read and written through `byteorder`.

use vstd::prelude::*;
use byteorder::{ByteOrder, LittleEndian};

verus! {

/// The four bytes of `w`, least significant first.
pub open spec fn le_bytes(w: u32) -> Seq<u8> {
    seq![
        (w % 256) as u8,
        ((w / 256) % 256) as u8,
        ((w / 65536) % 256) as u8,
        (w / 16777216) as u8,
    ]
}

/// The number that four bytes stand for, least significant first.
pub open spec fn le_value(b: Seq<u8>) -> int {
    b[0] + 256 * b[1] + 65536 * b[2] + 16777216 * b[3]
}

/// The signed word whose two's complement bits are `w`.
pub open spec fn bits_i32(w: int) -> i32 {
    if w >= 0x8000_0000 { (w - 0x1_0000_0000) as i32 } else { w as i32 }
}

/// `LittleEndian::read_u32` of `byteorder` on the four bytes at `pos`: the word that
/// they hold, least significant byte first. It panics on fewer than four bytes, which
/// the `requires` leaves out.
#[verifier::external_body]
pub(crate) fn read_u32_at(buf: &[u8], pos: usize) -> (w: u32)
    requires
        pos + 4 <= buf@.len(),
    ensures
        w == le_value(buf@.subrange(pos as int, pos + 4)),
{
    LittleEndian::read_u32(&buf[pos..])
}

/// `LittleEndian::read_i32` of `byteorder` on the four bytes at `pos`: the signed word
/// whose two's complement bits they hold, least significant byte first.
#[verifier::external_body]
pub(crate) fn read_i32_at(buf: &[u8], pos: usize) -> (v: i32)
    requires
        pos + 4 <= buf@.len(),
    ensures
        v == bits_i32(le_value(buf@.subrange(pos as int, pos + 4))),
{
    LittleEndian::read_i32(&buf[pos..])
}

/// `LittleEndian::write_u32` of `byteorder` into a four-byte buffer, whose bytes are then
/// appended to `out`: they are the bytes of `w`, least significant first.
#[verifier::external_body]
pub(crate) fn push_u32(out: &mut Vec<u8>, w: u32)
    ensures
        final(out)@ == old(out)@ + le_bytes(w),
{
    let mut buf = [0u8; 4];
    LittleEndian::write_u32(&mut buf, w);
    out.extend_from_slice(&buf);
}

/// Reading back the four bytes written for a word gives the word.
pub proof fn lemma_le_roundtrip(w: u32)
    ensures
        le_value(le_bytes(w)) == w,
        le_bytes(w).len() == 4,
{
    let b = le_bytes(w);
    assert(b[0] == w % 256);
    assert(b[1] == (w / 256) % 256);
    assert(b[2] == (w / 65536) % 256);
    assert(b[3] == w / 16777216);
    assert(w == w % 256 + 256 * ((w / 256) % 256) + 65536 * ((w / 65536) % 256) + 16777216 * (w / 16777216)) by (nonlinear_arith);
}

} // verus!
