//! Big-endian integers at the front of a byte slice.

use vstd::prelude::*;
use vstd::slice::slice_subrange;

use crate::error::Error;

verus! {

/// The 16-bit number whose big-endian bytes are `hi`, `lo`.
pub open spec fn be_u16(hi: u8, lo: u8) -> u16 {
    (hi * 256 + lo) as u16
}

/// The 32-bit number whose big-endian bytes are `a`, `b`, `c`, `d`.
pub open spec fn be_u32(a: u8, b: u8, c: u8, d: u8) -> u32 {
    (a * 16777216 + b * 65536 + c * 256 + d) as u32
}

/// Computes [`be_u16`].
pub fn compose_u16(hi: u8, lo: u8) -> (r: u16)
    ensures
        r == be_u16(hi, lo),
{
    (hi as u16) * 256 + (lo as u16)
}

/// Computes [`be_u32`].
pub fn compose_u32(a: u8, b: u8, c: u8, d: u8) -> (r: u32)
    ensures
        r == be_u32(a, b, c, d),
{
    (a as u32) * 16777216 + (b as u32) * 65536 + (c as u32) * 256 + (d as u32)
}

/// Takes two bytes off the front of `input` and returns them as one
/// big-endian number. With fewer than two bytes left nothing is taken.
pub fn read_be_u16(input: &mut &[u8]) -> (r: Result<u16, Error>)
    ensures
        old(input)@.len() >= 2 ==> r == Ok::<u16, Error>(be_u16(old(input)@[0], old(input)@[1]))
            && final(input)@ == old(input)@.skip(2),
        old(input)@.len() < 2 ==> r == Err::<u16, Error>(Error::UnexpectedEndOfBuffer)
            && *final(input) == *old(input),
{
    let bytes: &[u8] = *input;
    if bytes.len() < 2 {
        return Err(Error::UnexpectedEndOfBuffer);
    }
    let value = compose_u16(bytes[0], bytes[1]);
    *input = slice_subrange(bytes, 2, bytes.len());
    Ok(value)
}

/// Takes four bytes off the front of `input` and returns them as one
/// big-endian number. With fewer than four bytes left nothing is taken.
pub fn read_be_u32(input: &mut &[u8]) -> (r: Result<u32, Error>)
    ensures
        old(input)@.len() >= 4 ==> r == Ok::<u32, Error>(
            be_u32(old(input)@[0], old(input)@[1], old(input)@[2], old(input)@[3]),
        ) && final(input)@ == old(input)@.skip(4),
        old(input)@.len() < 4 ==> r == Err::<u32, Error>(Error::UnexpectedEndOfBuffer)
            && *final(input) == *old(input),
{
    let bytes: &[u8] = *input;
    if bytes.len() < 4 {
        return Err(Error::UnexpectedEndOfBuffer);
    }
    let value = compose_u32(bytes[0], bytes[1], bytes[2], bytes[3]);
    *input = slice_subrange(bytes, 4, bytes.len());
    Ok(value)
}

} // verus!
