//! Encoding pixels into IPv6 canvas addresses, and the fixed datagram
//! frame that is sent to each address.

use vstd::prelude::*;

use crate::pixel::Pixel;
use crate::pixel::valid_pixel;

verus! {

/// An IPv6 canvas destination, held as its eight 16-bit segments
/// (most significant first).  The top four segments are the network
/// prefix supplied by configuration; the bottom four are derived from
/// exactly one pixel.
#[derive(Clone, Copy, Debug, PartialEq, Eq, Structural)]
pub struct CanvasAddress {
    pub s0: u16,
    pub s1: u16,
    pub s2: u16,
    pub s3: u16,
    pub s4: u16,
    pub s5: u16,
    pub s6: u16,
    pub s7: u16,
}

/// The fifth segment of an encoded address: bits 12-13 carry the
/// command discriminant (1 = plain pixel, 2 = merged 2x2 block) and
/// bits 0-11 carry the x coordinate.
pub open spec fn segment4(p: Pixel) -> u16 {
    (((if p.big {
        0x2000int
    } else {
        0x1000int
    }) + p.x) as u16)
}

/// The last segment of an encoded address: the green channel in the
/// high byte, the blue channel in the low byte.
pub open spec fn segment7(p: Pixel) -> u16 {
    ((p.g * 256 + p.b) as u16)
}

/// The destination address for one pixel under a given prefix: the
/// prefix's top four segments kept, the bottom four derived from the
/// pixel.
pub open spec fn address_for(prefix: CanvasAddress, p: Pixel) -> CanvasAddress {
    CanvasAddress {
        s0: prefix.s0,
        s1: prefix.s1,
        s2: prefix.s2,
        s3: prefix.s3,
        s4: segment4(p),
        s5: p.y,
        s6: p.r,
        s7: segment7(p),
    }
}

/// Builds canvas addresses for pixels under one configured network
/// prefix.  The prefix's top 64 bits are used; the bottom 64 bits of
/// every produced address come from the encoded pixel alone.
#[derive(Clone, Copy, Debug)]
pub struct Placer {
    pub address: CanvasAddress,
}

impl Placer {
    /// A placer that keeps the top four segments of `address` as the
    /// network prefix of every encoded destination.
    pub fn new(address: CanvasAddress) -> (r: Placer)
        ensures
            r.address == address,
    {
        Placer { address }
    }

    /// The destination address that draws `pixel`: deterministic, no
    /// side effects, exact per segment.
    pub fn build_address(&self, pixel: &Pixel) -> (r: CanvasAddress)
        requires
            valid_pixel(*pixel),
        ensures
            r == address_for(self.address, *pixel),
    {
        CanvasAddress {
            s0: self.address.s0,
            s1: self.address.s1,
            s2: self.address.s2,
            s3: self.address.s3,
            s4: (if pixel.big {
                0x2000
            } else {
                0x1000
            }) + pixel.x,
            s5: pixel.y,
            s6: pixel.r,
            s7: pixel.g * 256 + pixel.b,
        }
    }

    /// The destination address of every pixel of a batch, in batch
    /// order: the pure half of placing a batch (the caller emits one
    /// echo-request frame per returned address).
    pub fn build_batch_addresses(&self, batch: &Vec<Pixel>) -> (r: Vec<CanvasAddress>)
        requires
            forall|i: int| 0 <= i < batch@.len() ==> valid_pixel(batch@[i]),
        ensures
            r@.len() == batch@.len(),
            forall|i: int|
                0 <= i < batch@.len() ==> r@[i] == address_for(self.address, batch@[i]),
    {
        let mut out: Vec<CanvasAddress> = Vec::new();
        let mut i: usize = 0;
        while i < batch.len()
            invariant
                i <= batch@.len(),
                out@.len() == i,
                forall|j: int| 0 <= j < batch@.len() ==> valid_pixel(batch@[j]),
                forall|j: int|
                    0 <= j < i ==> out@[j] == address_for(self.address, batch@[j]),
            decreases batch@.len() - i,
        {
            let a = self.build_address(&batch[i]);
            out.push(a);
            i = i + 1;
        }
        out
    }
}

/// The one datagram payload ever sent: an 8-byte ICMPv6 echo request
/// with type `0x80` and every other byte (code, checksum placeholder,
/// identifier, sequence) zero.
pub fn echo_request_frame() -> (r: Vec<u8>)
    ensures
        r@.len() == 8,
        r@[0] == 0x80u8,
        forall|i: int| 1 <= i < 8 ==> r@[i] == 0u8,
{
    let mut v: Vec<u8> = Vec::new();
    v.push(0x80);
    v.push(0);
    v.push(0);
    v.push(0);
    v.push(0);
    v.push(0);
    v.push(0);
    v.push(0);
    v
}

/// The encoding is losslessly decodable: for every valid pixel, the
/// low 12 bits of the fifth segment give back `x`, its high nibble
/// distinguishes plain from big exactly, and the last segment's two
/// bytes give back `g` and `b`.
pub proof fn lemma_address_decodes(p: Pixel)
    requires
        valid_pixel(p),
    ensures
        segment4(p) & 0x0fff == p.x,
        segment4(p) & 0xf000 == (if p.big {
            0x2000u16
        } else {
            0x1000u16
        }),
        segment7(p) / 256 == p.g,
        segment7(p) % 256 == p.b,
{
    let x = p.x;
    let g = p.g;
    let b = p.b;
    assert(((0x1000 + x) as u16) & 0x0fff == x) by (bit_vector)
        requires
            x < 4096,
    ;
    assert(((0x2000 + x) as u16) & 0x0fff == x) by (bit_vector)
        requires
            x < 4096,
    ;
    assert(((0x1000 + x) as u16) & 0xf000 == 0x1000u16) by (bit_vector)
        requires
            x < 4096,
    ;
    assert(((0x2000 + x) as u16) & 0xf000 == 0x2000u16) by (bit_vector)
        requires
            x < 4096,
    ;
    assert(((g * 256 + b) as u16) / 256 == g && ((g * 256 + b) as u16) % 256 == b) by (bit_vector)
        requires
            g <= 255 && b <= 255,
    ;
}

} // verus!
