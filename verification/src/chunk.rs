//! The framing of one chunk on a shard stream: a 128-bit checksum of the chunk's
//! content, big end first, then the content.
use vstd::prelude::*;
use vstd::slice::slice_subrange;

verus! {

/// The number of bytes of the checksum that precedes each chunk.
pub const CHECKSUM_SIZE: usize = 16;

/// Why a chunk could not be read from a shard stream.
#[derive(Clone, Copy, PartialEq, Eq, Structural, Debug)]
pub enum ShardReadError {
    /// The stream ended before the checksum and the content were complete.
    Truncated,
    /// The content read does not have the checksum stored in front of it.
    ChecksumValidationFailure,
}

/// The XXH3 128-bit hash, with the default seed and secret, of a sequence of bytes.
pub uninterp spec fn xxh3_128_of(data: Seq<u8>) -> u128;

/// Calls `xxhash_rust::xxh3::xxh3_128`. The hash it returns depends on the bytes
/// alone; the contract gives that value the name `xxh3_128_of` and says no more
/// of it.
#[verifier::external_body]
fn content_hash(data: &[u8]) -> (hash: u128)
    ensures
        hash == xxh3_128_of(data@),
{
    xxhash_rust::xxh3::xxh3_128(data)
}

/// The `width` lowest bytes of `value`, the highest of them first.
pub open spec fn big_endian(value: nat, width: nat) -> Seq<u8>
    decreases width,
{
    if width == 0 {
        Seq::empty()
    } else {
        big_endian(value / 256, (width - 1) as nat).push((value % 256) as u8)
    }
}

/// The number that a sequence of bytes spells, the highest byte first.
pub open spec fn from_big_endian(bytes: Seq<u8>) -> nat
    decreases bytes.len(),
{
    if bytes.len() == 0 {
        0
    } else {
        from_big_endian(bytes.drop_last()) * 256 + bytes.last() as nat
    }
}

/// 256 to the power `n`.
pub open spec fn byte_range(n: nat) -> nat
    decreases n,
{
    if n == 0 {
        1
    } else {
        256 * byte_range((n - 1) as nat)
    }
}

/// `big_endian` gives `width` bytes.
pub proof fn lemma_big_endian_length(value: nat, width: nat)
    ensures
        big_endian(value, width).len() == width,
    decreases width,
{
    if width > 0 {
        lemma_big_endian_length(value / 256, (width - 1) as nat);
    }
}

/// Reading back what `big_endian` wrote gives the value, as far as the bytes hold it.
pub proof fn lemma_big_endian_round_trip(value: nat, width: nat)
    ensures
        from_big_endian(big_endian(value, width)) == value % byte_range(width),
    decreases width,
{
    if width > 0 {
        let shorter = (width - 1) as nat;
        lemma_big_endian_length(value, width);
        lemma_big_endian_round_trip(value / 256, shorter);
        assert(big_endian(value, width).drop_last() =~= big_endian(value / 256, shorter));
        lemma_byte_range_positive(shorter);
        vstd::arithmetic::div_mod::lemma_mod_breakdown(
            value as int,
            256,
            byte_range(shorter) as int,
        );
    }
}

/// A power of 256 is above zero.
pub proof fn lemma_byte_range_positive(n: nat)
    ensures
        byte_range(n) > 0,
    decreases n,
{
    if n > 0 {
        lemma_byte_range_positive((n - 1) as nat);
    }
}

/// Eight bytes hold every `u64`.
pub proof fn lemma_byte_range_of_eight()
    ensures
        byte_range(8) == 0x1_0000_0000_0000_0000,
{
    reveal_with_fuel(byte_range, 9);
}

/// Appends the `width` lowest bytes of `value` to `out`, the highest of them first.
pub fn push_big_endian(out: &mut Vec<u8>, value: u128, width: usize)
    ensures
        final(out)@ == old(out)@ + big_endian(value as nat, width as nat),
    decreases width,
{
    if width > 0 {
        push_big_endian(out, value / 256, width - 1);
        out.push((value % 256) as u8);
        proof {
            assert(out@ =~= old(out)@ + big_endian(value as nat, width as nat));
        }
    } else {
        proof {
            assert(out@ =~= old(out)@ + big_endian(value as nat, width as nat));
        }
    }
}

/// The number that eight bytes spell, the highest byte first.
pub fn read_big_endian(bytes: &[u8]) -> (value: u64)
    requires
        bytes@.len() == 8,
    ensures
        value == from_big_endian(bytes@),
{
    let mut value: u64 = 0;
    let mut i: usize = 0;
    proof {
        assert(bytes@.take(0) =~= Seq::<u8>::empty());
    }
    while i < 8
        invariant
            i <= 8,
            bytes@.len() == 8,
            value == from_big_endian(bytes@.take(i as int)),
            value < byte_range(i as nat),
        decreases 8 - i,
    {
        proof {
            assert(bytes@.take(i + 1).drop_last() =~= bytes@.take(i as int));
            lemma_byte_range_bound(i as nat + 1);
        }
        value = value * 256 + bytes[i] as u64;
        i += 1;
    }
    proof {
        assert(bytes@.take(8) =~= bytes@);
    }
    value
}

/// Up to eight bytes spell a number that a `u64` holds.
proof fn lemma_byte_range_bound(n: nat)
    requires
        n <= 8,
    ensures
        byte_range(n) <= 0x1_0000_0000_0000_0000,
{
    reveal_with_fuel(byte_range, 9);
}

/// Appends `bytes` to `out`.
pub fn append_bytes(out: &mut Vec<u8>, bytes: &[u8])
    ensures
        final(out)@ == old(out)@ + bytes@,
{
    out.extend_from_slice(bytes);
    proof {
        assert(out@ =~= old(out)@ + bytes@);
    }
}

/// A chunk as it stands on a shard stream: the checksum of the content, then the
/// content.
pub open spec fn framed_chunk(content: Seq<u8>) -> Seq<u8> {
    big_endian(xxh3_128_of(content) as nat, CHECKSUM_SIZE as nat) + content
}

/// The stream holds a whole chunk of `size` bytes of content at `offset`.
pub open spec fn chunk_is_present(stream: Seq<u8>, offset: int, size: int) -> bool {
    0 <= offset && 0 <= size && offset + CHECKSUM_SIZE + size <= stream.len()
}

/// The checksum stored at `offset`.
pub open spec fn stored_checksum(stream: Seq<u8>, offset: int) -> Seq<u8> {
    stream.subrange(offset, offset + CHECKSUM_SIZE)
}

/// The content of `size` bytes stored behind the checksum at `offset`.
pub open spec fn stored_content(stream: Seq<u8>, offset: int, size: int) -> Seq<u8> {
    stream.subrange(offset + CHECKSUM_SIZE, offset + CHECKSUM_SIZE + size)
}

/// The stream holds a whole chunk at `offset`, and its content has the checksum
/// stored in front of it.
pub open spec fn chunk_is_intact(stream: Seq<u8>, offset: int, size: int) -> bool {
    &&& chunk_is_present(stream, offset, size)
    &&& stored_checksum(stream, offset) == big_endian(
        xxh3_128_of(stored_content(stream, offset, size)) as nat,
        CHECKSUM_SIZE as nat,
    )
}

/// What reading a chunk of `size` bytes of content at `offset` gives.
pub open spec fn chunk_read(stream: Seq<u8>, offset: int, size: int) -> Result<
    Seq<u8>,
    ShardReadError,
> {
    if !chunk_is_present(stream, offset, size) {
        Err(ShardReadError::Truncated)
    } else if !chunk_is_intact(stream, offset, size) {
        Err(ShardReadError::ChecksumValidationFailure)
    } else {
        Ok(stored_content(stream, offset, size))
    }
}

/// Appends `bytes` to `stream` as one chunk: their checksum, then the bytes.
pub fn write_chunk(stream: &mut Vec<u8>, bytes: &[u8])
    ensures
        final(stream)@ == old(stream)@ + framed_chunk(bytes@),
{
    let hash = content_hash(bytes);
    push_big_endian(stream, hash, CHECKSUM_SIZE);
    append_bytes(stream, bytes);
    proof {
        assert(stream@ =~= old(stream)@ + framed_chunk(bytes@));
    }
}

/// Reads the chunk of `size` bytes of content that starts at `offset`, and checks it
/// against its checksum.
pub fn read_chunk(stream: &[u8], offset: usize, size: usize) -> (read: Result<
    Vec<u8>,
    ShardReadError,
>)
    ensures
        match read {
            Ok(content) => chunk_read(stream@, offset as int, size as int) == Ok::<
                Seq<u8>,
                ShardReadError,
            >(content@),
            Err(error) => chunk_read(stream@, offset as int, size as int) == Err::<
                Seq<u8>,
                ShardReadError,
            >(error),
        },
{
    let length = stream.len();
    if length < CHECKSUM_SIZE || length - CHECKSUM_SIZE < size || length - CHECKSUM_SIZE - size
        < offset {
        return Err(ShardReadError::Truncated);
    }
    let stored = slice_subrange(stream, offset, offset + CHECKSUM_SIZE);
    let content = slice_subrange(stream, offset + CHECKSUM_SIZE, offset + CHECKSUM_SIZE + size);
    let mut expected: Vec<u8> = Vec::with_capacity(CHECKSUM_SIZE);
    push_big_endian(&mut expected, content_hash(content), CHECKSUM_SIZE);
    proof {
        lemma_big_endian_length(xxh3_128_of(content@) as nat, CHECKSUM_SIZE as nat);
        assert(expected@ =~= big_endian(xxh3_128_of(content@) as nat, CHECKSUM_SIZE as nat));
    }
    if !same_bytes(stored, expected.as_slice()) {
        return Err(ShardReadError::ChecksumValidationFailure);
    }
    let mut copy: Vec<u8> = Vec::with_capacity(size);
    append_bytes(&mut copy, content);
    proof {
        assert(copy@ =~= content@);
    }
    Ok(copy)
}

/// Whether two slices hold the same bytes.
pub fn same_bytes(a: &[u8], b: &[u8]) -> (same: bool)
    ensures
        same == (a@ == b@),
{
    if a.len() != b.len() {
        return false;
    }
    let mut i: usize = 0;
    while i < a.len()
        invariant
            i <= a@.len(),
            a@.len() == b@.len(),
            forall|j: int| 0 <= j < i ==> a@[j] == b@[j],
        decreases a@.len() - i,
    {
        if a[i] != b[i] {
            return false;
        }
        i += 1;
    }
    proof {
        assert(a@ =~= b@);
    }
    true
}

} // verus!
