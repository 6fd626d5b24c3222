//! Block codec: fixed-width little-endian integers and CRC-32 framing.

use vstd::prelude::*;
use vstd::bytes::{
    lemma_auto_spec_u32_to_from_le_bytes, lemma_auto_spec_u64_to_from_le_bytes,
    spec_u32_from_le_bytes, spec_u32_to_le_bytes, spec_u64_from_le_bytes, spec_u64_to_le_bytes,
    u32_from_le_bytes, u32_to_le_bytes, u64_from_le_bytes, u64_to_le_bytes,
};
use vstd::slice::{slice_index_get, slice_subrange};

verus! {

pub const CRC_OFFSET: usize = 0;

pub const LEN_OFFSET: usize = 4;

pub const TYPE_OFFSET: usize = 8;

pub const PAYLOAD_OFFSET: usize = 9;

pub const NUM_HEADER_BYTES: usize = 9;

/// Errors surfaced by the store.
#[derive(Clone, Copy, Debug, PartialEq, Eq, Structural)]
pub enum Error {
    /// A message with no bytes was handed to `produce` or `append`.
    EmptyMessage,
    /// A chunk's stored CRC does not match the CRC of its framed bytes.
    CrcMismatch,
    /// A segment footer does not start with the magic byte.
    MissingMagic,
    /// The bytes at hand are too short to hold what was asked for.
    ShortRead,
}

/// Tag of one framed chunk within a block.
#[derive(Clone, Copy, Debug, PartialEq, Eq, Structural)]
pub enum ChunkType {
    /// Uninitialized trailing space: end of valid data in a block.
    Null,
    /// A complete message in one chunk.
    Full,
    /// First fragment of a message spanning several blocks.
    Start,
    /// Interior fragment.
    Middle,
    /// Last fragment.
    End,
}

/// The on-disk encoding of a chunk type tag.
pub open spec fn chunk_type_byte(t: ChunkType) -> u8 {
    match t {
        ChunkType::Null => 0,
        ChunkType::Full => 1,
        ChunkType::Start => 2,
        ChunkType::Middle => 3,
        ChunkType::End => 4,
    }
}

impl ChunkType {
    /// Decode a type byte; bytes above 4 encode no chunk type.
    pub fn from_byte(x: u8) -> (t: ChunkType)
        requires
            x <= 4,
        ensures
            chunk_type_byte(t) == x,
    {
        match x {
            0 => ChunkType::Null,
            1 => ChunkType::Full,
            2 => ChunkType::Start,
            3 => ChunkType::Middle,
            _ => ChunkType::End,
        }
    }

    /// The byte this tag is written as.
    pub fn as_byte(self) -> (b: u8)
        ensures
            b == chunk_type_byte(self),
    {
        match self {
            ChunkType::Null => 0,
            ChunkType::Full => 1,
            ChunkType::Start => 2,
            ChunkType::Middle => 3,
            ChunkType::End => 4,
        }
    }
}

/// `s` with the bytes at `[i, i + w.len())` replaced by `w`.
pub open spec fn splice(s: Seq<u8>, i: int, w: Seq<u8>) -> Seq<u8>
    recommends
        0 <= i,
        i + w.len() <= s.len(),
{
    s.take(i) + w + s.skip(i + w.len() as int)
}

/// A value that can be written to and read back from a byte buffer at a
/// given offset, in little-endian order.
pub trait Persistable: Sized + Copy {
    /// The little-endian encoding of this value.
    spec fn le_bytes(self) -> Seq<u8>;

    /// The value encoded by a byte sequence of length `byte_size()`.
    spec fn of_le_bytes(s: Seq<u8>) -> Self;

    /// Width of the encoding in bytes.
    spec fn byte_size() -> usize;

    /// The encoding has the fixed width.
    proof fn lemma_le_bytes_len(self)
        ensures
            self.le_bytes().len() == Self::byte_size(),
            Self::byte_size() >= 1,
    ;

    /// Decoding an encoding gives the value back: the codec round-trip law.
    proof fn lemma_le_round_trip(self)
        ensures
            Self::of_le_bytes(self.le_bytes()) == self,
    ;

    /// Write the encoding into `buffer` at `index`; fails exactly when the
    /// encoding does not fit.
    fn write_bytes(self, buffer: &mut Vec<u8>, index: usize) -> (r: Result<(), &'static str>)
        ensures
            final(buffer)@.len() == old(buffer)@.len(),
            r is Ok <==> index + Self::byte_size() <= old(buffer)@.len(),
            r is Ok ==> final(buffer)@ == splice(old(buffer)@, index as int, self.le_bytes()),
            r is Err ==> final(buffer)@ == old(buffer)@,
    ;

    /// Read a value from `buffer` at `index`; fails exactly when there are
    /// not enough bytes.
    fn read_bytes(buffer: &[u8], index: usize) -> (r: Result<Self, &'static str>)
        ensures
            r is Ok <==> index + Self::byte_size() <= buffer@.len(),
            r is Ok ==> r.unwrap() == Self::of_le_bytes(
                buffer@.subrange(index as int, index + Self::byte_size()),
            ),
    ;
}

impl Persistable for u32 {
    open spec fn le_bytes(self) -> Seq<u8> {
        spec_u32_to_le_bytes(self)
    }

    open spec fn of_le_bytes(s: Seq<u8>) -> u32 {
        spec_u32_from_le_bytes(s)
    }

    open spec fn byte_size() -> usize {
        4
    }

    proof fn lemma_le_bytes_len(self) {
        lemma_auto_spec_u32_to_from_le_bytes();
    }

    proof fn lemma_le_round_trip(self) {
        lemma_auto_spec_u32_to_from_le_bytes();
        assert(spec_u32_to_le_bytes(self).len() == 4);
        assert(spec_u32_from_le_bytes(spec_u32_to_le_bytes(self)) == self);
    }

    fn write_bytes(self, buffer: &mut Vec<u8>, index: usize) -> (r: Result<(), &'static str>) {
        if buffer.len() < 4 || index > buffer.len() - 4 {
            return Err("Not enough space to write");
        }
        proof {
            lemma_auto_spec_u32_to_from_le_bytes();
        }
        let ghost orig = buffer@;
        let bytes = u32_to_le_bytes(self);
        let mut i: usize = 0;
        while i < 4
            invariant
                i <= 4,
                bytes@ == spec_u32_to_le_bytes(self),
                bytes@.len() == 4,
                index + 4 <= orig.len(),
                index <= usize::MAX - 4,
                buffer@.len() == orig.len(),
                forall|j: int| 0 <= j < i ==> buffer@[index + j] == bytes@[j],
                forall|j: int|
                    0 <= j < orig.len() && !(index <= j < index + i) ==> buffer@[j] == orig[j],
            decreases 4 - i,
        {
            let b = bytes[i];
            buffer[index + i] = b;
            i += 1;
        }
        proof {
            assert(buffer@ =~= splice(orig, index as int, self.le_bytes()));
        }
        Ok(())
    }

    fn read_bytes(buffer: &[u8], index: usize) -> (r: Result<u32, &'static str>) {
        if buffer.len() < 4 || index > buffer.len() - 4 {
            return Err("Not enough readable bytes");
        }
        let s = slice_subrange(buffer, index, index + 4);
        Ok(u32_from_le_bytes(s))
    }
}

impl Persistable for u64 {
    open spec fn le_bytes(self) -> Seq<u8> {
        spec_u64_to_le_bytes(self)
    }

    open spec fn of_le_bytes(s: Seq<u8>) -> u64 {
        spec_u64_from_le_bytes(s)
    }

    open spec fn byte_size() -> usize {
        8
    }

    proof fn lemma_le_bytes_len(self) {
        lemma_auto_spec_u64_to_from_le_bytes();
    }

    proof fn lemma_le_round_trip(self) {
        lemma_auto_spec_u64_to_from_le_bytes();
        assert(spec_u64_to_le_bytes(self).len() == 8);
        assert(spec_u64_from_le_bytes(spec_u64_to_le_bytes(self)) == self);
    }

    fn write_bytes(self, buffer: &mut Vec<u8>, index: usize) -> (r: Result<(), &'static str>) {
        if buffer.len() < 8 || index > buffer.len() - 8 {
            return Err("Not enough space to write");
        }
        proof {
            lemma_auto_spec_u64_to_from_le_bytes();
        }
        let ghost orig = buffer@;
        let bytes = u64_to_le_bytes(self);
        let mut i: usize = 0;
        while i < 8
            invariant
                i <= 8,
                bytes@ == spec_u64_to_le_bytes(self),
                bytes@.len() == 8,
                index + 8 <= orig.len(),
                index <= usize::MAX - 8,
                buffer@.len() == orig.len(),
                forall|j: int| 0 <= j < i ==> buffer@[index + j] == bytes@[j],
                forall|j: int|
                    0 <= j < orig.len() && !(index <= j < index + i) ==> buffer@[j] == orig[j],
            decreases 8 - i,
        {
            let b = bytes[i];
            buffer[index + i] = b;
            i += 1;
        }
        proof {
            assert(buffer@ =~= splice(orig, index as int, self.le_bytes()));
        }
        Ok(())
    }

    fn read_bytes(buffer: &[u8], index: usize) -> (r: Result<u64, &'static str>) {
        if buffer.len() < 8 || index > buffer.len() - 8 {
            return Err("Not enough readable bytes");
        }
        let s = slice_subrange(buffer, index, index + 8);
        Ok(u64_from_le_bytes(s))
    }
}

impl Persistable for u8 {
    open spec fn le_bytes(self) -> Seq<u8> {
        seq![self]
    }

    open spec fn of_le_bytes(s: Seq<u8>) -> u8 {
        s[0]
    }

    open spec fn byte_size() -> usize {
        1
    }

    proof fn lemma_le_bytes_len(self) {
    }

    proof fn lemma_le_round_trip(self) {
    }

    fn write_bytes(self, buffer: &mut Vec<u8>, index: usize) -> (r: Result<(), &'static str>) {
        if index >= buffer.len() {
            return Err("Not enough space to write");
        }
        let ghost orig = buffer@;
        buffer[index] = self;
        proof {
            assert(buffer@ =~= splice(orig, index as int, self.le_bytes()));
        }
        Ok(())
    }

    fn read_bytes(buffer: &[u8], index: usize) -> (r: Result<u8, &'static str>) {
        if index >= buffer.len() {
            return Err("Not enough readable bytes");
        }
        let b = *slice_index_get(buffer, index);
        proof {
            assert(buffer@.subrange(index as int, index + 1)[0] == buffer@[index as int]);
        }
        Ok(b)
    }
}

/// Reading at the offset where `write_uN` put `v` yields `v` again, whatever
/// else the buffer holds: the codec round-trip law over buffer contents.
pub proof fn lemma_write_read_round_trip<T: Persistable>(buf: Seq<u8>, v: T, k: int)
    requires
        0 <= k,
        k + T::byte_size() <= buf.len(),
    ensures
        T::of_le_bytes(splice(buf, k, v.le_bytes()).subrange(k, k + T::byte_size())) == v,
{
    v.lemma_le_bytes_len();
    v.lemma_le_round_trip();
    assert(splice(buf, k, v.le_bytes()).subrange(k, k + T::byte_size()) =~= v.le_bytes());
}

/// Write `x` little-endian at `index`; the offset must be in bounds.
pub fn write_u32(buffer: &mut Vec<u8>, x: u32, index: usize)
    requires
        index + 4 <= old(buffer)@.len(),
    ensures
        final(buffer)@.len() == old(buffer)@.len(),
        final(buffer)@ == splice(old(buffer)@, index as int, spec_u32_to_le_bytes(x)),
{
    let r = x.write_bytes(buffer, index);
    proof {
        assert(r is Ok);
    }
}

/// Read a little-endian u32 at `start`; the offset must be in bounds.
pub fn read_u32(buffer: &Vec<u8>, start: usize) -> (r: u32)
    requires
        start + 4 <= buffer@.len(),
    ensures
        r == spec_u32_from_le_bytes(buffer@.subrange(start as int, start + 4)),
{
    let res = u32::read_bytes(buffer.as_slice(), start);
    match res {
        Ok(v) => v,
        Err(_) => {
            proof {
                assert(false);
            }
            0
        },
    }
}

/// The CRC-32/IEEE digest of a byte sequence, as the `crc` crate computes it.
pub uninterp spec fn crc32_of(bytes: Seq<u8>) -> u32;

/// Relies on `crc::crc32::checksum_ieee`: the CRC-32/IEEE digest of the given
/// bytes, a pure function of those bytes alone.
#[verifier::external_body]
pub(crate) fn calculate_crc(payload: &[u8]) -> (r: u32)
    ensures
        r == crc32_of(payload@),
{
    crc::crc32::checksum_ieee(payload)
}

} // verus!
