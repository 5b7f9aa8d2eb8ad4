//! Encoding of definition levels, and other helpers of the column writer.
use vstd::prelude::*;
use vstd::std_specs::bits::u64_leading_zeros;

use crate::error::ArrowError;

verus! {

/// The version of the data page format that is written.
#[derive(Clone, Copy, Debug, PartialEq, Eq, Structural)]
pub enum Version {
    V1,
    V2,
}

/// The unsigned LEB128 encoding of `x`: seven bits per byte, low bits
/// first, the high bit set on every byte but the last.
pub open spec fn uleb128(x: nat) -> Seq<u8>
    decreases x,
{
    if x < 128 {
        seq![x as u8]
    } else {
        seq![(x % 128 + 128) as u8] + uleb128(x / 128)
    }
}

/// How many bytes hold `n` bits.
pub open spec fn ceil8(n: nat) -> nat {
    if n % 8 == 0 {
        n / 8
    } else {
        n / 8 + 1
    }
}

/// Bit `k` of `bits` as a number; zero past the end.
pub open spec fn bit_value(bits: Seq<bool>, k: int) -> nat {
    if 0 <= k < bits.len() && bits[k] {
        1
    } else {
        0
    }
}

/// Byte `i` of `bits` packed least significant bit first.
pub open spec fn packed_byte(bits: Seq<bool>, i: int) -> nat {
    bit_value(bits, 8 * i) + 2 * bit_value(bits, 8 * i + 1) + 4 * bit_value(bits, 8 * i + 2) + 8
        * bit_value(bits, 8 * i + 3) + 16 * bit_value(bits, 8 * i + 4) + 32 * bit_value(bits, 8 * i + 5)
        + 64 * bit_value(bits, 8 * i + 6) + 128 * bit_value(bits, 8 * i + 7)
}

/// The bit-packed hybrid RLE run that encodes `bits`: a ULEB128 header of
/// twice the byte count plus one (the bit-packed marker), then the bytes.
pub open spec fn hybrid_rle_bools(bits: Seq<bool>) -> Seq<u8> {
    uleb128(2 * ceil8(bits.len()) + 1) + Seq::new(ceil8(bits.len()), |i: int| packed_byte(bits, i) as u8)
}

/// Relies on `parquet2::encoding::hybrid_rle::encode_bool`: it appends to the
/// buffer a ULEB128 header of `2 * ceil8(n) + 1`, then the bits packed least
/// significant bit first; its only errors come from the writer, and
/// appending to a `Vec` does not fail.
#[verifier::external_body]
fn encode_bool(buffer: &mut Vec<u8>, bits: &Vec<bool>) -> (r: Result<(), std::io::Error>)
    ensures
        r.is_ok(),
        final(buffer)@ == old(buffer)@ + hybrid_rle_bools(bits@),
{
    parquet2::encoding::hybrid_rle::encode_bool(buffer, bits.iter().copied())
}

/// The four little-endian bytes of `x`.
pub open spec fn le_bytes_i32(x: i32) -> Seq<u8> {
    let u = x as u32;
    seq![(u % 256) as u8, (u / 256 % 256) as u8, (u / 65536 % 256) as u8, (u / 16777216) as u8]
}

/// What a page of the given version holds for `bits`: in V1 the run is
/// preceded by its length in bytes, as a little-endian `i32`.
pub open spec fn framed_levels(bits: Seq<bool>, version: Version) -> Seq<u8> {
    let run = hybrid_rle_bools(bits);
    match version {
        Version::V1 => le_bytes_i32(run.len() as i32) + run,
        Version::V2 => run,
    }
}

fn encode_iter_v1(buffer: &mut Vec<u8>, bits: &Vec<bool>) -> (r: Result<(), ArrowError>)
    ensures
        r.is_ok(),
        final(buffer)@ == old(buffer)@ + framed_levels(bits@, Version::V1),
{
    let ghost before = buffer@;
    buffer.push(0);
    buffer.push(0);
    buffer.push(0);
    buffer.push(0);
    let start = buffer.len();
    match encode_bool(buffer, bits) {
        Ok(()) => {},
        Err(e) => {
            return Err(ArrowError::Io(e));
        },
    }
    let end = buffer.len();
    let ghost run = hybrid_rle_bools(bits@);
    assert(end - start == run.len());
    let length = end - start;
    #[verifier::truncate]
    let length = (length as i32) as u32;
    buffer.set(start - 4, (length % 256) as u8);
    buffer.set(start - 3, (length / 256 % 256) as u8);
    buffer.set(start - 2, (length / 65536 % 256) as u8);
    buffer.set(start - 1, (length / 16777216) as u8);
    assert(buffer@ =~= before + framed_levels(bits@, Version::V1));
    Ok(())
}

fn encode_iter_v2(buffer: &mut Vec<u8>, bits: &Vec<bool>) -> (r: Result<(), ArrowError>)
    ensures
        r.is_ok(),
        final(buffer)@ == old(buffer)@ + framed_levels(bits@, Version::V2),
{
    match encode_bool(buffer, bits) {
        Ok(()) => Ok(()),
        Err(e) => Err(ArrowError::Io(e)),
    }
}

fn encode_iter(buffer: &mut Vec<u8>, bits: &Vec<bool>, version: Version) -> (r: Result<(), ArrowError>)
    ensures
        r.is_ok(),
        final(buffer)@ == old(buffer)@ + framed_levels(bits@, version),
{
    match version {
        Version::V1 => encode_iter_v1(buffer, bits),
        Version::V2 => encode_iter_v2(buffer, bits),
    }
}

/// The definition levels written for a column: its validity, or all valid.
pub open spec fn def_level_bits(validity: Option<Seq<bool>>, len: nat) -> Seq<bool> {
    match validity {
        Some(v) => v,
        None => Seq::new(len, |i: int| true),
    }
}

/// Writes the definition levels of a column to `writer`: nothing for a
/// required column, else its validity (all valid when it has none, over
/// `len` slots), framed as `version` asks.
pub fn write_def_levels(
    writer: &mut Vec<u8>,
    is_optional: bool,
    validity: Option<&Vec<bool>>,
    len: usize,
    version: Version,
) -> (r: Result<(), ArrowError>)
    ensures
        r.is_ok(),
        !is_optional ==> final(writer)@ == old(writer)@,
        is_optional ==> final(writer)@ == old(writer)@ + framed_levels(
            def_level_bits(
                match validity {
                    Some(v) => Some(v@),
                    None => None,
                },
                len as nat,
            ),
            version,
        ),
{
    if !is_optional {
        return Ok(());
    }
    match validity {
        Some(validity) => encode_iter(writer, validity, version),
        None => {
            let mut bits: Vec<bool> = Vec::with_capacity(len);
            let mut i: usize = 0;
            while i < len
                invariant
                    i <= len,
                    bits@ =~= Seq::new(i as nat, |j: int| true),
                decreases len - i,
            {
                bits.push(true);
                i = i + 1;
            }
            encode_iter(writer, &bits, version)
        },
    }
}

/// How many bits hold `x`: zero for zero.
pub open spec fn bit_width(x: nat) -> nat
    decreases x,
{
    if x == 0 {
        0
    } else {
        1 + bit_width(x / 2)
    }
}

proof fn lemma_leading_zeros(x: u64)
    ensures
        u64_leading_zeros(x) == 64 - bit_width(x as nat),
    decreases x,
{
    reveal(u64_leading_zeros);
    if x != 0 {
        lemma_leading_zeros(x / 2);
    }
}

/// Returns the number of bits needed to bitpack `max`.
pub fn get_bit_width(max: u64) -> (r: u32)
    ensures
        r == bit_width(max as nat),
{
    proof {
        lemma_leading_zeros(max);
    }
    64 - max.leading_zeros()
}

/// An iterator paired with the number of items it has left.
pub struct ExactSizedIter<I> {
    pub iter: I,
    pub remaining: usize,
}

impl<I> ExactSizedIter<I> {
    pub fn new(iter: I, length: usize) -> (r: Self)
        ensures
            r.iter == iter,
            r.remaining == length,
    {
        Self { iter, remaining: length }
    }

    /// The lower and upper bound on the items left, which are equal.
    pub fn size_hint(&self) -> (r: (usize, Option<usize>))
        ensures
            r == (self.remaining, Some(self.remaining)),
    {
        (self.remaining, Some(self.remaining))
    }
}

} // verus!
