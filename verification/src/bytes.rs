//! Fixed-width little-endian byte encoding of the scalar values.
//!
//! A serialized scalar set is the sequence of its layout slots, each
//! encoded as four little-endian bytes. The encoding and its inverse
//! are specified here, together with the decoder used to turn a byte
//! buffer back into the value buffer that a set can be attached to.

use vstd::prelude::*;

verus! {

/// The unsigned 32-bit two's-complement pattern of `v`.
pub open spec fn u32_bits_of_i32(v: i32) -> u32 {
    if v >= 0 {
        v as u32
    } else {
        (v + 0x1_0000_0000int) as u32
    }
}

/// The signed value whose two's-complement pattern is `u`.
pub open spec fn i32_of_u32_bits(u: u32) -> i32 {
    if u < 0x8000_0000 {
        u as i32
    } else {
        (u - 0x1_0000_0000int) as i32
    }
}

/// The four little-endian bytes that encode `v`.
pub open spec fn i32_le_bytes(v: i32) -> Seq<u8> {
    let u = u32_bits_of_i32(v);
    seq![
        (u & 0xff) as u8,
        ((u >> 8u32) & 0xff) as u8,
        ((u >> 16u32) & 0xff) as u8,
        ((u >> 24u32) & 0xff) as u8,
    ]
}

/// The value encoded by four little-endian bytes.
pub open spec fn i32_from_le_bytes(b0: u8, b1: u8, b2: u8, b3: u8) -> i32 {
    i32_of_u32_bits(
        (b0 as u32) | ((b1 as u32) << 8u32) | ((b2 as u32) << 16u32) | ((b3 as u32) << 24u32),
    )
}

/// The values encoded by a buffer of consecutive 4-byte groups; a
/// trailing group shorter than four bytes encodes nothing.
pub open spec fn i32s_from_le_bytes(b: Seq<u8>) -> Seq<i32>
    decreases b.len(),
{
    if b.len() < 4 {
        Seq::empty()
    } else {
        seq![i32_from_le_bytes(b[0], b[1], b[2], b[3])] + i32s_from_le_bytes(b.skip(4))
    }
}

/// Splitting a pattern into bytes and recombining them is the identity.
proof fn lemma_u32_bytes_recombine(u: u32)
    ensures
        ((u & 0xff) as u8 as u32) | ((((u >> 8u32) & 0xff) as u8 as u32) << 8u32) | ((((u
            >> 16u32) & 0xff) as u8 as u32) << 16u32) | ((((u >> 24u32) & 0xff) as u8 as u32)
            << 24u32) == u,
{
    assert(((u & 0xff) as u8 as u32) | ((((u >> 8u32) & 0xff) as u8 as u32) << 8u32) | ((((u
        >> 16u32) & 0xff) as u8 as u32) << 16u32) | ((((u >> 24u32) & 0xff) as u8 as u32)
        << 24u32) == u) by (bit_vector);
}

/// Decoding the four bytes that encode a value yields that value back.
pub proof fn lemma_i32_le_round_trip(v: i32)
    ensures
        i32_le_bytes(v).len() == 4,
        i32_from_le_bytes(i32_le_bytes(v)[0], i32_le_bytes(v)[1], i32_le_bytes(v)[2], i32_le_bytes(v)[3]) == v,
{
    let u = u32_bits_of_i32(v);
    lemma_u32_bytes_recombine(u);
    assert(i32_of_u32_bits(u) == v);
}

/// Relies on byteorder's `WriteBytesExt::write_i32` with the
/// `LittleEndian` order: it appends exactly the four little-endian
/// bytes of `v`, and writing into a `Vec<u8>` cannot fail.
#[verifier::external_body]
pub fn write_i32_le(sink: &mut Vec<u8>, v: i32)
    ensures
        final(sink)@ == old(sink)@ + i32_le_bytes(v),
{
    byteorder::WriteBytesExt::write_i32::<byteorder::LittleEndian>(sink, v).unwrap();
}

/// Relies on byteorder's `LittleEndian::read_i32`: it decodes the
/// first four bytes of `b` as a little-endian two's-complement value.
#[verifier::external_body]
fn read_i32_le(b: &[u8]) -> (r: i32)
    requires
        b@.len() >= 4,
    ensures
        r == i32_from_le_bytes(b@[0], b@[1], b@[2], b@[3]),
{
    <byteorder::LittleEndian as byteorder::ByteOrder>::read_i32(b)
}

/// A buffer whose length is a multiple of four decodes group by group.
pub proof fn lemma_i32s_from_le_bytes_pointwise(b: Seq<u8>)
    requires
        b.len() % 4 == 0,
    ensures
        i32s_from_le_bytes(b).len() == b.len() / 4,
        forall|j: int|
            0 <= j < b.len() / 4 ==> #[trigger] i32s_from_le_bytes(b)[j] == i32_from_le_bytes(
                b[4 * j],
                b[4 * j + 1],
                b[4 * j + 2],
                b[4 * j + 3],
            ),
    decreases b.len(),
{
    if b.len() >= 4 {
        lemma_i32s_from_le_bytes_pointwise(b.skip(4));
    }
}

/// Decodes a byte buffer into the values it encodes, four bytes per
/// value; reports a buffer whose length is not a multiple of four.
pub fn read_i32_values(bytes: &[u8]) -> (r: Option<Vec<i32>>)
    ensures
        r is Some <==> bytes@.len() % 4 == 0,
        r matches Some(vs) ==> vs@ == i32s_from_le_bytes(bytes@),
{
    if bytes.len() % 4 != 0 {
        return None;
    }
    proof {
        lemma_i32s_from_le_bytes_pointwise(bytes@);
    }
    let mut out: Vec<i32> = Vec::new();
    let mut i: usize = 0;
    while i < bytes.len()
        invariant
            bytes@.len() % 4 == 0,
            i % 4 == 0,
            i <= bytes@.len(),
            out@.len() == i / 4,
            forall|j: int|
                0 <= j < out@.len() ==> #[trigger] out@[j] == i32_from_le_bytes(
                    bytes@[4 * j],
                    bytes@[4 * j + 1],
                    bytes@[4 * j + 2],
                    bytes@[4 * j + 3],
                ),
        decreases bytes@.len() - i,
    {
        let v = read_i32_le(&bytes[i..i + 4]);
        out.push(v);
        i = i + 4;
    }
    proof {
        lemma_i32s_from_le_bytes_pointwise(bytes@);
        assert(out@ =~= i32s_from_le_bytes(bytes@));
    }
    Some(out)
}

} // verus!
