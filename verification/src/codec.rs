//! Value codecs: how a dictionary value is written to and read back from the
//! value blob.

use vstd::prelude::*;

verus! {

/// A value that can be stored in the dictionary's value blob.
///
/// The blob records no entry boundaries, so an encoding must be fixed-width
/// or self-delimiting: decoding at the offset where a value was written gives
/// that value back, whatever bytes surround it.
pub trait BinarySerializable: Sized {
    /// The bytes that stand for `self`.
    spec fn spec_encode(&self) -> Seq<u8>;

    /// The value that starts at `offset` in `bytes`, if there is one.
    spec fn spec_decode(bytes: Seq<u8>, offset: int) -> Option<Self>;

    /// Decoding at the start of an encoding returns the encoded value.
    proof fn lemma_decode_encode(&self, prefix: Seq<u8>, suffix: Seq<u8>)
        ensures
            Self::spec_decode(prefix + self.spec_encode() + suffix, prefix.len() as int) == Some(
                *self,
            ),
    ;

    /// A value is only ever decoded from a position inside the buffer.
    proof fn lemma_decode_in_bounds(bytes: Seq<u8>, offset: int)
        ensures
            Self::spec_decode(bytes, offset) is Some ==> 0 <= offset <= bytes.len(),
    ;

    /// Appends the encoding of `self` to `sink`.
    fn serialize(&self, sink: &mut Vec<u8>)
        ensures
            final(sink)@ == old(sink)@ + self.spec_encode(),
    ;

    /// Decodes the value that starts at `offset` in `bytes`.
    fn deserialize(bytes: &[u8], offset: usize) -> (r: Option<Self>)
        ensures
            r == Self::spec_decode(bytes@, offset as int),
    ;
}

/// The four bytes of `x`, least significant first.
pub open spec fn le_bytes_u32(x: u32) -> Seq<u8> {
    seq![
        (x % 256) as u8,
        (x / 256 % 256) as u8,
        (x / 65536 % 256) as u8,
        (x / 16777216) as u8,
    ]
}

/// The number whose four bytes, least significant first, start at `offset`.
pub open spec fn le_value_u32(bytes: Seq<u8>, offset: int) -> u32 {
    (bytes[offset] + bytes[offset + 1] * 256 + bytes[offset + 2] * 65536 + bytes[offset + 3]
        * 16777216) as u32
}

/// The eight bytes of `x`, least significant first.
pub open spec fn le_bytes_u64(x: u64) -> Seq<u8> {
    le_bytes_u32((x % 4294967296) as u32) + le_bytes_u32((x / 4294967296) as u32)
}

/// The number whose eight bytes, least significant first, start at `offset`.
pub open spec fn le_value_u64(bytes: Seq<u8>, offset: int) -> u64 {
    (le_value_u32(bytes, offset) + le_value_u32(bytes, offset + 4) * 4294967296) as u64
}

/// Four little-endian bytes read back give the number they were made from.
pub proof fn lemma_le_u32_round_trip(x: u32, bytes: Seq<u8>, offset: int)
    requires
        0 <= offset,
        offset + 4 <= bytes.len(),
        bytes.subrange(offset, offset + 4) == le_bytes_u32(x),
    ensures
        le_value_u32(bytes, offset) == x,
{
    let part = bytes.subrange(offset, offset + 4);
    assert(bytes[offset] == part[0]);
    assert(bytes[offset + 1] == part[1]);
    assert(bytes[offset + 2] == part[2]);
    assert(bytes[offset + 3] == part[3]);
}

/// Eight little-endian bytes read back give the number they were made from.
pub proof fn lemma_le_u64_round_trip(x: u64, bytes: Seq<u8>, offset: int)
    requires
        0 <= offset,
        offset + 8 <= bytes.len(),
        bytes.subrange(offset, offset + 8) == le_bytes_u64(x),
    ensures
        le_value_u64(bytes, offset) == x,
{
    let part = bytes.subrange(offset, offset + 8);
    let low = (x % 4294967296) as u32;
    let high = (x / 4294967296) as u32;
    assert(bytes.subrange(offset, offset + 4) =~= part.subrange(0, 4));
    assert(bytes.subrange(offset + 4, offset + 8) =~= part.subrange(4, 8));
    assert(part.subrange(0, 4) =~= le_bytes_u32(low));
    assert(part.subrange(4, 8) =~= le_bytes_u32(high));
    lemma_le_u32_round_trip(low, bytes, offset);
    lemma_le_u32_round_trip(high, bytes, offset + 4);
}

fn push_le_u32(sink: &mut Vec<u8>, x: u32)
    ensures
        final(sink)@ == old(sink)@ + le_bytes_u32(x),
{
    sink.push((x % 256) as u8);
    sink.push((x / 256 % 256) as u8);
    sink.push((x / 65536 % 256) as u8);
    sink.push((x / 16777216) as u8);
    assert(sink@ =~= old(sink)@ + le_bytes_u32(x));
}

fn read_le_u32(bytes: &[u8], offset: usize) -> (x: u32)
    requires
        offset + 4 <= bytes@.len(),
    ensures
        x == le_value_u32(bytes@, offset as int),
{
    let b0 = bytes[offset] as u32;
    let b1 = bytes[offset + 1] as u32;
    let b2 = bytes[offset + 2] as u32;
    let b3 = bytes[offset + 3] as u32;
    b0 + b1 * 256 + b2 * 65536 + b3 * 16777216
}

impl BinarySerializable for u32 {
    open spec fn spec_encode(&self) -> Seq<u8> {
        le_bytes_u32(*self)
    }

    open spec fn spec_decode(bytes: Seq<u8>, offset: int) -> Option<u32> {
        if 0 <= offset && offset + 4 <= bytes.len() {
            Some(le_value_u32(bytes, offset))
        } else {
            None
        }
    }

    proof fn lemma_decode_encode(&self, prefix: Seq<u8>, suffix: Seq<u8>) {
        let all = prefix + self.spec_encode() + suffix;
        assert(all.subrange(prefix.len() as int, prefix.len() as int + 4) =~= self.spec_encode());
        lemma_le_u32_round_trip(*self, all, prefix.len() as int);
    }

    proof fn lemma_decode_in_bounds(bytes: Seq<u8>, offset: int) {
    }

    fn serialize(&self, sink: &mut Vec<u8>) {
        push_le_u32(sink, *self);
    }

    fn deserialize(bytes: &[u8], offset: usize) -> (r: Option<u32>) {
        if bytes.len() < 4 || offset > bytes.len() - 4 {
            return None;
        }
        Some(read_le_u32(bytes, offset))
    }
}

impl BinarySerializable for u64 {
    open spec fn spec_encode(&self) -> Seq<u8> {
        le_bytes_u64(*self)
    }

    open spec fn spec_decode(bytes: Seq<u8>, offset: int) -> Option<u64> {
        if 0 <= offset && offset + 8 <= bytes.len() {
            Some(le_value_u64(bytes, offset))
        } else {
            None
        }
    }

    proof fn lemma_decode_encode(&self, prefix: Seq<u8>, suffix: Seq<u8>) {
        let all = prefix + self.spec_encode() + suffix;
        assert(all.subrange(prefix.len() as int, prefix.len() as int + 8) =~= self.spec_encode());
        lemma_le_u64_round_trip(*self, all, prefix.len() as int);
    }

    proof fn lemma_decode_in_bounds(bytes: Seq<u8>, offset: int) {
    }

    fn serialize(&self, sink: &mut Vec<u8>) {
        push_le_u32(sink, (*self % 4294967296) as u32);
        push_le_u32(sink, (*self / 4294967296) as u32);
        assert(sink@ =~= old(sink)@ + le_bytes_u64(*self));
    }

    fn deserialize(bytes: &[u8], offset: usize) -> (r: Option<u64>) {
        if bytes.len() < 8 || offset > bytes.len() - 8 {
            return None;
        }
        let low = read_le_u32(bytes, offset) as u64;
        let high = read_le_u32(bytes, offset + 4) as u64;
        Some(low + high * 4294967296)
    }
}

} // verus!
