//! Big-endian encodings of `u16` and `u32` used by the on-disk formats.
//!
//! The spec functions fix the byte layout; the executable functions are
//! proved to produce and consume exactly those bytes.

use vstd::arithmetic::div_mod::lemma_fundamental_div_mod;
use vstd::prelude::*;

verus! {

/// The two big-endian bytes of a `u16`.
pub open spec fn u16_be(x: u16) -> Seq<u8> {
    seq![(x / 256) as u8, (x % 256) as u8]
}

/// The value read big-endian from two bytes.
pub open spec fn u16_from_be(b0: u8, b1: u8) -> int {
    b0 * 256 + b1
}

/// The four big-endian bytes of a `u32`, as two 16-bit halves.
pub open spec fn u32_be(x: u32) -> Seq<u8> {
    u16_be((x / 0x10000) as u16) + u16_be((x % 0x10000) as u16)
}

/// The value read big-endian from four bytes.
pub open spec fn u32_from_be(b0: u8, b1: u8, b2: u8, b3: u8) -> int {
    u16_from_be(b0, b1) * 0x10000 + u16_from_be(b2, b3)
}

/// Reading back the two bytes of `u16_be` recovers the value.
pub proof fn lemma_u16_be_round(x: u16)
    ensures
        u16_be(x).len() == 2,
        u16_from_be(u16_be(x)[0], u16_be(x)[1]) == x,
{
    lemma_fundamental_div_mod(x as int, 256);
    assert(x as int / 256 < 256);
    assert((x / 256) as u8 as int == x as int / 256);
    assert((x % 256) as u8 as int == x as int % 256);
}

/// Encoding the value read from two bytes recovers the bytes.
pub proof fn lemma_u16_from_be_round(b0: u8, b1: u8)
    ensures
        0 <= u16_from_be(b0, b1) <= 0xFFFF,
        u16_be(u16_from_be(b0, b1) as u16) == seq![b0, b1],
{
    let x: int = u16_from_be(b0, b1);
    assert(x / 256 == b0 as int && x % 256 == b1 as int) by (nonlinear_arith)
        requires
            x == b0 * 256 + b1,
            0 <= b0 < 256,
            0 <= b1 < 256,
    ;
    assert(u16_be(x as u16) =~= seq![b0, b1]);
}

/// Reading back the four bytes of `u32_be` recovers the value.
pub proof fn lemma_u32_be_round(x: u32)
    ensures
        u32_be(x).len() == 4,
        u32_from_be(u32_be(x)[0], u32_be(x)[1], u32_be(x)[2], u32_be(x)[3]) == x,
{
    let hi: u16 = (x / 0x10000) as u16;
    let lo: u16 = (x % 0x10000) as u16;
    lemma_fundamental_div_mod(x as int, 0x10000);
    assert(x as int / 0x10000 < 0x10000);
    assert(hi as int == x as int / 0x10000);
    assert(lo as int == x as int % 0x10000);
    lemma_u16_be_round(hi);
    lemma_u16_be_round(lo);
    assert(u32_be(x)[0] == u16_be(hi)[0]);
    assert(u32_be(x)[1] == u16_be(hi)[1]);
    assert(u32_be(x)[2] == u16_be(lo)[0]);
    assert(u32_be(x)[3] == u16_be(lo)[1]);
}

/// Append the big-endian bytes of `x`.
pub fn push_u16_be(buf: &mut Vec<u8>, x: u16)
    ensures
        final(buf)@ == old(buf)@ + u16_be(x),
{
    buf.push((x / 256) as u8);
    buf.push((x % 256) as u8);
    assert(buf@ =~= old(buf)@ + u16_be(x));
}

/// Append the big-endian bytes of `x`.
pub fn push_u32_be(buf: &mut Vec<u8>, x: u32)
    ensures
        final(buf)@ == old(buf)@ + u32_be(x),
{
    push_u16_be(buf, (x / 0x10000) as u16);
    push_u16_be(buf, (x % 0x10000) as u16);
    assert(buf@ =~= old(buf)@ + u32_be(x));
}

/// Read a big-endian `u16` from two bytes.
pub fn u16_from_be_pair(b0: u8, b1: u8) -> (x: u16)
    ensures
        x as int == u16_from_be(b0, b1),
{
    (b0 as u16) * 256 + (b1 as u16)
}

/// Read a big-endian `u32` from four bytes.
pub fn u32_from_be_quad(b0: u8, b1: u8, b2: u8, b3: u8) -> (x: u32)
    ensures
        x as int == u32_from_be(b0, b1, b2, b3),
{
    (b0 as u32) * 0x1000000 + (b1 as u32) * 0x10000 + (b2 as u32) * 256 + (b3 as u32)
}

/// Read the big-endian `u16` at position `p` of `data`.
pub fn read_u16_at(data: &[u8], p: usize) -> (x: u16)
    requires
        p + 2 <= data@.len(),
    ensures
        x as int == u16_from_be(data@[p as int], data@[p as int + 1]),
{
    u16_from_be_pair(data[p], data[p + 1])
}

/// Read the big-endian `u32` at position `p` of `data`.
pub fn read_u32_at(data: &[u8], p: usize) -> (x: u32)
    requires
        p + 4 <= data@.len(),
    ensures
        x as int == u32_from_be(
            data@[p as int],
            data@[p as int + 1],
            data@[p as int + 2],
            data@[p as int + 3],
        ),
{
    u32_from_be_quad(data[p], data[p + 1], data[p + 2], data[p + 3])
}

} // verus!
