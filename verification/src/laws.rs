//! What holds of the engine as a whole: decoding undoes encoding, as long as no
//! more shards are lost than there are parity shards, and decoding a range gives
//! the range of the decoded payload.
use crate::chunk::{
    big_endian, byte_range, chunk_is_intact, chunk_is_present, chunk_read, from_big_endian, lemma_big_endian_length, lemma_big_endian_round_trip,
    lemma_byte_range_of_eight, stored_checksum, stored_content, xxh3_128_of, ShardReadError,
    CHECKSUM_SIZE,
};
use crate::codec::{
    block_count, block_matrix, chosen_shards, chunk_matrix, chunk_offset, decoded, decoded_at,
    encoded_chunk, encoded_stream, framed_block, framed_byte, is_usable, is_whole,
    lemma_blocks_suffice, lemma_flattened_block, lemma_recovered_blocks_join,
    lemma_recovered_blocks_length, lemma_usable_before, lemma_window, recovered_block,
    recovered_blocks, unframed, usable_before, usable_content, valid_configuration,
    LENGTH_PREFIX_SIZE,
};
use crate::encoder::Error;
use crate::encoding::{byte_nodes, is_encoding_matrix};
use crate::gf8::Gf8;
use crate::linalg::product;
use crate::systematic::{
    is_selection, lemma_any_rows_suffice, lemma_solution_is_unique, selected_rows,
    };
use vstd::prelude::*;

verus! {

/// The stream that encoding writes for the shard `i`.
pub open spec fn written_stream(
    e: Seq<Seq<Gf8>>,
    payload: Seq<u8>,
    data_shards: int,
    chunk_size: int,
    i: int,
) -> Seq<u8> {
    encoded_stream(
        e,
        payload,
        data_shards,
        chunk_size,
        i,
        block_count(payload.len() as int, data_shards * chunk_size) as nat,
    )
}

/// The chunk that encoding writes for the shard `i` and the block `b`.
pub open spec fn written_chunk(
    e: Seq<Seq<Gf8>>,
    payload: Seq<u8>,
    data_shards: int,
    chunk_size: int,
    i: int,
    b: int,
) -> Seq<u8> {
    encoded_chunk(e, framed_block(payload, data_shards * chunk_size, b), data_shards, chunk_size, i)
}

/// A stream of `blocks` chunks has the length of so many framed chunks, and holds
/// the chunk of each block, with its checksum, where that block's chunk belongs.
pub proof fn lemma_encoded_stream_holds_chunks(
    e: Seq<Seq<Gf8>>,
    payload: Seq<u8>,
    data_shards: int,
    chunk_size: int,
    i: int,
    blocks: nat,
    b: int,
)
    requires
        0 <= chunk_size,
        0 <= b < blocks,
    ensures
        encoded_stream(e, payload, data_shards, chunk_size, i, blocks).len() == blocks * (
        CHECKSUM_SIZE + chunk_size),
        chunk_is_intact(
            encoded_stream(e, payload, data_shards, chunk_size, i, blocks),
            chunk_offset(b, chunk_size),
            chunk_size,
        ),
        stored_content(
            encoded_stream(e, payload, data_shards, chunk_size, i, blocks),
            chunk_offset(b, chunk_size),
            chunk_size,
        ) == written_chunk(e, payload, data_shards, chunk_size, i, b),
    decreases blocks,
{
    let frame = CHECKSUM_SIZE + chunk_size;
    let stream = encoded_stream(e, payload, data_shards, chunk_size, i, blocks);
    let before = encoded_stream(e, payload, data_shards, chunk_size, i, (blocks - 1) as nat);
    let content = written_chunk(e, payload, data_shards, chunk_size, i, blocks - 1);
    let checksum = big_endian(xxh3_128_of(content) as nat, CHECKSUM_SIZE as nat);
    lemma_big_endian_length(xxh3_128_of(content) as nat, CHECKSUM_SIZE as nat);
    lemma_encoded_stream_length(e, payload, data_shards, chunk_size, i, (blocks - 1) as nat);
    assert(blocks * frame == (blocks - 1) * frame + frame) by (nonlinear_arith);
    assert(0 <= b * frame && (b + 1) * frame <= blocks * frame && (b + 1) * frame == b * frame
        + frame) by (nonlinear_arith)
        requires
            0 <= b < blocks,
            0 <= frame,
    ;
    let offset = chunk_offset(b, chunk_size);
    if b == blocks - 1 {
        assert(stored_checksum(stream, offset) =~= checksum);
        assert(stored_content(stream, offset, chunk_size) =~= content);
    } else {
        lemma_encoded_stream_holds_chunks(
            e,
            payload,
            data_shards,
            chunk_size,
            i,
            (blocks - 1) as nat,
            b,
        );
        assert((b + 1) * frame <= (blocks - 1) * frame) by (nonlinear_arith)
            requires
                b + 1 <= blocks - 1,
                0 <= frame,
        ;
        assert(stored_checksum(stream, offset) =~= stored_checksum(before, offset));
        assert(stored_content(stream, offset, chunk_size) =~= stored_content(
            before,
            offset,
            chunk_size,
        ));
    }
}

/// A stream of `blocks` chunks has the length of so many framed chunks.
pub proof fn lemma_encoded_stream_length(
    e: Seq<Seq<Gf8>>,
    payload: Seq<u8>,
    data_shards: int,
    chunk_size: int,
    i: int,
    blocks: nat,
)
    requires
        0 <= chunk_size,
    ensures
        encoded_stream(e, payload, data_shards, chunk_size, i, blocks).len() == blocks * (
        CHECKSUM_SIZE + chunk_size),
    decreases blocks,
{
    let frame = CHECKSUM_SIZE + chunk_size;
    if blocks > 0 {
        let content = written_chunk(e, payload, data_shards, chunk_size, i, blocks - 1);
        lemma_big_endian_length(xxh3_128_of(content) as nat, CHECKSUM_SIZE as nat);
        lemma_encoded_stream_length(e, payload, data_shards, chunk_size, i, (blocks - 1) as nat);
        assert(blocks * frame == (blocks - 1) * frame + frame) by (nonlinear_arith);
    } else {
        assert(blocks * frame == 0) by (nonlinear_arith)
            requires
                blocks == 0,
        ;
    }
}

/// Whatever chunk of `stream` is whole and has its checksum holds what encoding
/// wrote there. This is so of a stream that is not there, of the stream that was
/// written, and of one that was damaged in a way that the checksums show.
pub open spec fn is_faithful(
    stream: Option<Seq<u8>>,
    written: Seq<u8>,
    blocks: int,
    chunk_size: int,
) -> bool {
    match stream {
        None => true,
        Some(stream) => forall|b: int|
            0 <= b < blocks && #[trigger] chunk_is_intact(
                stream,
                chunk_offset(b, chunk_size),
                chunk_size,
            ) ==> stored_content(stream, chunk_offset(b, chunk_size), chunk_size) == stored_content(
                written,
                chunk_offset(b, chunk_size),
                chunk_size,
            ),
    }
}

/// The number of shards before `upto` whose stream is not the one that was written.
pub open spec fn lost_before(
    streams: Seq<Option<Seq<u8>>>,
    e: Seq<Seq<Gf8>>,
    payload: Seq<u8>,
    data_shards: int,
    chunk_size: int,
    upto: nat,
) -> nat
    decreases upto,
{
    if upto == 0 {
        0
    } else {
        let before = lost_before(streams, e, payload, data_shards, chunk_size, (upto - 1) as nat);
        if streams[upto - 1] == Some(
            written_stream(e, payload, data_shards, chunk_size, upto - 1),
        ) {
            before
        } else {
            before + 1
        }
    }
}

/// What the shards hold after `payload` was encoded and some of them were lost:
/// there is one stream or none for each shard, each is faithful, and no more are
/// lost than there are parity shards.
pub open spec fn enough_survives(
    streams: Seq<Option<Seq<u8>>>,
    e: Seq<Seq<Gf8>>,
    payload: Seq<u8>,
    data_shards: int,
    parity_shards: int,
    chunk_size: int,
) -> bool {
    &&& streams.len() == data_shards + parity_shards
    &&& forall|i: int|
        0 <= i < streams.len() ==> is_faithful(
            #[trigger] streams[i],
            written_stream(e, payload, data_shards, chunk_size, i),
            block_count(payload.len() as int, data_shards * chunk_size),
            chunk_size,
        )
    &&& lost_before(streams, e, payload, data_shards, chunk_size, streams.len()) <= parity_shards
}

/// Each shard that is not lost is usable for every block.
proof fn lemma_usable_count(
    streams: Seq<Option<Seq<u8>>>,
    e: Seq<Seq<Gf8>>,
    payload: Seq<u8>,
    data_shards: int,
    chunk_size: int,
    b: int,
    upto: nat,
)
    requires
        0 <= chunk_size,
        0 <= b < block_count(payload.len() as int, data_shards * chunk_size),
        upto <= streams.len(),
    ensures
        usable_before(streams, b, chunk_size, upto).len() + lost_before(
            streams,
            e,
            payload,
            data_shards,
            chunk_size,
            upto,
        ) >= upto,
    decreases upto,
{
    if upto > 0 {
        lemma_usable_count(streams, e, payload, data_shards, chunk_size, b, (upto - 1) as nat);
        let blocks = block_count(payload.len() as int, data_shards * chunk_size) as nat;
        lemma_encoded_stream_holds_chunks(e, payload, data_shards, chunk_size, upto - 1, blocks, b);
    }
}

/// The first `count` bytes of the framed payload.
pub open spec fn framed_start(payload: Seq<u8>, count: int) -> Seq<u8> {
    Seq::new(count as nat, |g: int| framed_byte(payload, g))
}

/// Where enough survives, each block is recovered as it was framed.
proof fn lemma_block_is_recovered(
    streams: Seq<Option<Seq<u8>>>,
    e: Seq<Seq<Gf8>>,
    payload: Seq<u8>,
    data_shards: int,
    parity_shards: int,
    chunk_size: int,
    b: int,
)
    requires
        valid_configuration(data_shards, parity_shards, chunk_size),
        is_encoding_matrix(e, data_shards as nat, parity_shards as nat),
        enough_survives(streams, e, payload, data_shards, parity_shards, chunk_size),
        0 <= b < block_count(payload.len() as int, data_shards * chunk_size),
    ensures
        recovered_block(e, streams, b, data_shards, chunk_size) == Some(
            framed_block(payload, data_shards * chunk_size, b),
        ),
{
    let k = data_shards;
    let size = chunk_size;
    let n = streams.len();
    let blocks = block_count(payload.len() as int, k * size) as nat;
    let block = framed_block(payload, k * size, b);
    let d = block_matrix(block, k, size);
    lemma_usable_count(streams, e, payload, k, size, b, n);
    lemma_usable_before(streams, b, size, n);
    let usable = usable_before(streams, b, size, n);
    let chosen = usable.take(k);
    assert(chosen_shards(streams, b, k, size) == Some(chosen));
    assert(is_selection(chosen, n));
    let rows = selected_rows(e, chosen);
    let chunks = chunk_matrix(streams, chosen, b, size);
    assert(0 <= k * size) by (nonlinear_arith)
        requires
            0 <= k,
            0 <= size,
    ;
    assert forall|q: int| 0 <= q < k implies #[trigger] product(rows, d, size as nat)[q] =~= chunks[q] by {
        let i = chosen[q];
        assert(usable[q] == i);
        assert(is_usable(streams, i, b, size));
        assert(is_faithful(streams[i], written_stream(e, payload, k, size, i), blocks as int, size));
        lemma_encoded_stream_holds_chunks(e, payload, k, size, i, blocks, b);
        assert(usable_content(streams, i, b, size) == written_chunk(e, payload, k, size, i, b));
    }
    assert(product(rows, d, size as nat) =~= chunks);
    lemma_any_rows_suffice(e, byte_nodes((k + parity_shards) as nat), k as nat, chosen);
    lemma_solution_is_unique(rows, d, chunks, k as nat, size as nat);
    lemma_flattened_block(block, k, size);
}

/// Where enough survives, the first blocks are recovered as they were framed.
proof fn lemma_blocks_are_recovered(
    streams: Seq<Option<Seq<u8>>>,
    e: Seq<Seq<Gf8>>,
    payload: Seq<u8>,
    data_shards: int,
    parity_shards: int,
    chunk_size: int,
    upto: int,
)
    requires
        valid_configuration(data_shards, parity_shards, chunk_size),
        is_encoding_matrix(e, data_shards as nat, parity_shards as nat),
        enough_survives(streams, e, payload, data_shards, parity_shards, chunk_size),
        0 <= upto <= block_count(payload.len() as int, data_shards * chunk_size),
    ensures
        0 <= upto * (data_shards * chunk_size),
        recovered_blocks(e, streams, data_shards, chunk_size, 0, upto) == Some(
            framed_start(payload, upto * (data_shards * chunk_size)),
        ),
    decreases upto,
{
    let block_size = data_shards * chunk_size;
    assert(0 <= block_size && 0 <= upto * block_size) by (nonlinear_arith)
        requires
            0 <= data_shards,
            0 <= chunk_size,
            0 <= upto,
            block_size == data_shards * chunk_size,
    ;
    if upto > 0 {
        lemma_blocks_are_recovered(
            streams,
            e,
            payload,
            data_shards,
            parity_shards,
            chunk_size,
            upto - 1,
        );
        lemma_block_is_recovered(
            streams,
            e,
            payload,
            data_shards,
            parity_shards,
            chunk_size,
            upto - 1,
        );
        assert(upto * block_size == (upto - 1) * block_size + block_size) by (nonlinear_arith);
        assert(framed_start(payload, (upto - 1) * block_size) + framed_block(
            payload,
            block_size,
            upto - 1,
        ) =~= framed_start(payload, upto * block_size));
    } else {
        assert(upto * block_size == 0) by (nonlinear_arith)
            requires
                upto == 0,
        ;
        assert(framed_start(payload, upto * block_size) =~= Seq::<u8>::empty());
    }
}

/// Erasure tolerance: after a payload is encoded, decoding gives it back from
/// whatever is left of the shards, as long as no more of them are lost than there
/// are parity shards, and damage to a lost shard shows in its checksums.
pub proof fn lemma_decoding_tolerates_erasures(
    streams: Seq<Option<Seq<u8>>>,
    e: Seq<Seq<Gf8>>,
    payload: Seq<u8>,
    data_shards: int,
    parity_shards: int,
    chunk_size: int,
)
    requires
        valid_configuration(data_shards, parity_shards, chunk_size),
        is_encoding_matrix(e, data_shards as nat, parity_shards as nat),
        payload.len() <= u64::MAX,
        enough_survives(streams, e, payload, data_shards, parity_shards, chunk_size),
    ensures
        decoded(e, streams, data_shards, chunk_size) == Ok::<Seq<u8>, Error>(payload),
{
    let block_size = data_shards * chunk_size;
    let length = payload.len() as int;
    assert(1 <= block_size) by (nonlinear_arith)
        requires
            1 <= data_shards,
            1 <= chunk_size,
            block_size == data_shards * chunk_size,
    ;
    let head_blocks = block_count(0, block_size);
    let blocks = block_count(length, block_size);
    lemma_blocks_suffice(length, block_size, blocks);
    lemma_blocks_suffice(0, block_size, head_blocks);
    lemma_blocks_are_recovered(
        streams,
        e,
        payload,
        data_shards,
        parity_shards,
        chunk_size,
        head_blocks,
    );
    lemma_blocks_are_recovered(streams, e, payload, data_shards, parity_shards, chunk_size, blocks);
    let head = framed_start(payload, head_blocks * block_size);
    let framed = framed_start(payload, blocks * block_size);
    lemma_big_endian_length(length as nat, LENGTH_PREFIX_SIZE as nat);
    assert(head.take(LENGTH_PREFIX_SIZE as int) =~= big_endian(
        length as nat,
        LENGTH_PREFIX_SIZE as nat,
    ));
    lemma_big_endian_round_trip(length as nat, LENGTH_PREFIX_SIZE as nat);
    lemma_byte_range_of_eight();
    assert(from_big_endian(head.take(LENGTH_PREFIX_SIZE as int)) == length);
    assert(framed.subrange(LENGTH_PREFIX_SIZE as int, LENGTH_PREFIX_SIZE + length) =~= payload);
}

/// The number of lost shards is zero where every stream is the one that was
/// written.
proof fn lemma_nothing_lost(
    streams: Seq<Option<Seq<u8>>>,
    e: Seq<Seq<Gf8>>,
    payload: Seq<u8>,
    data_shards: int,
    chunk_size: int,
    upto: nat,
)
    requires
        upto <= streams.len(),
        forall|i: int|
            0 <= i < streams.len() ==> #[trigger] streams[i] == Some(
                written_stream(e, payload, data_shards, chunk_size, i),
            ),
    ensures
        lost_before(streams, e, payload, data_shards, chunk_size, upto) == 0,
    decreases upto,
{
    if upto > 0 {
        lemma_nothing_lost(streams, e, payload, data_shards, chunk_size, (upto - 1) as nat);
    }
}

/// Round trip: decoding the streams that encoding wrote gives the payload back.
pub proof fn lemma_decoding_undoes_encoding(
    streams: Seq<Option<Seq<u8>>>,
    e: Seq<Seq<Gf8>>,
    payload: Seq<u8>,
    data_shards: int,
    parity_shards: int,
    chunk_size: int,
)
    requires
        valid_configuration(data_shards, parity_shards, chunk_size),
        is_encoding_matrix(e, data_shards as nat, parity_shards as nat),
        payload.len() <= u64::MAX,
        streams.len() == data_shards + parity_shards,
        forall|i: int|
            0 <= i < streams.len() ==> #[trigger] streams[i] == Some(
                written_stream(e, payload, data_shards, chunk_size, i),
            ),
    ensures
        decoded(e, streams, data_shards, chunk_size) == Ok::<Seq<u8>, Error>(payload),
{
    lemma_nothing_lost(streams, e, payload, data_shards, chunk_size, streams.len());
    lemma_decoding_tolerates_erasures(streams, e, payload, data_shards, parity_shards, chunk_size);
}

/// Decoding a range gives the same bytes as decoding all and taking the range.
pub proof fn lemma_decoding_at_is_a_slice(
    streams: Seq<Option<Seq<u8>>>,
    e: Seq<Seq<Gf8>>,
    data_shards: int,
    chunk_size: int,
    offset: int,
    length: int,
    payload: Seq<u8>,
)
    requires
        1 <= data_shards,
        1 <= chunk_size,
        0 <= offset,
        0 <= length,
        decoded(e, streams, data_shards, chunk_size) == Ok::<Seq<u8>, Error>(payload),
        offset + length <= payload.len(),
    ensures
        decoded_at(e, streams, data_shards, chunk_size, offset, length) == Ok::<Seq<u8>, Error>(
            payload.subrange(offset, offset + length),
        ),
{
    let block_size = data_shards * chunk_size;
    assert(1 <= block_size) by (nonlinear_arith)
        requires
            1 <= data_shards,
            1 <= chunk_size,
            block_size == data_shards * chunk_size,
    ;
    let head = recovered_blocks(
        e,
        streams,
        data_shards,
        chunk_size,
        0,
        block_count(0, block_size),
    ).unwrap();
    let total = from_big_endian(head.take(LENGTH_PREFIX_SIZE as int)) as int;
    let blocks = block_count(total, block_size);
    let framed = recovered_blocks(e, streams, data_shards, chunk_size, 0, blocks).unwrap();
    lemma_blocks_suffice(total, block_size, blocks);
    lemma_recovered_blocks_length(e, streams, data_shards, chunk_size, 0, blocks);
    assert((blocks - 0) * block_size == blocks * block_size) by (nonlinear_arith);
    assert(payload.len() == total);
    if length == 0 {
        assert(payload.subrange(offset, offset + length) =~= Seq::<u8>::empty());
    } else {
        let start = LENGTH_PREFIX_SIZE + offset;
        let first = start / block_size;
        let last = (start + length - 1) / block_size;
        lemma_window(start, length, block_size);
        // the last block of the range is one of the payload's blocks
        assert(last < blocks) by {
            vstd::arithmetic::div_mod::lemma_fundamental_div_mod(start + length - 1, block_size);
            vstd::arithmetic::div_mod::lemma_mod_bound(start + length - 1, block_size);
            assert(block_size * last == last * block_size) by (nonlinear_arith);
            if last >= blocks {
                assert(last * block_size >= blocks * block_size) by (nonlinear_arith)
                    requires
                        last >= blocks,
                        0 <= block_size,
                ;
            }
        }
        lemma_recovered_blocks_join(e, streams, data_shards, chunk_size, 0, first, blocks);
        lemma_recovered_blocks_join(e, streams, data_shards, chunk_size, first, last + 1, blocks);
        lemma_recovered_blocks_length(e, streams, data_shards, chunk_size, 0, first);
        lemma_recovered_blocks_length(e, streams, data_shards, chunk_size, first, last + 1);
        assert((first - 0) * block_size == first * block_size) by (nonlinear_arith);
        let window = recovered_blocks(e, streams, data_shards, chunk_size, first, last + 1).unwrap();
        let skip = start - first * block_size;
        assert(window.subrange(skip, skip + length) =~= payload.subrange(offset, offset + length));
    }
}

/// Unframing the framed payload gives the payload, once the length and the payload
/// are all there, however much of the padding follows.
pub proof fn lemma_unframing_undoes_framing(payload: Seq<u8>, count: int)
    requires
        payload.len() <= u64::MAX,
        count >= LENGTH_PREFIX_SIZE + payload.len(),
    ensures
        is_whole(framed_start(payload, count)),
        unframed(framed_start(payload, count)) == payload,
{
    let framed = framed_start(payload, count);
    let length = payload.len();
    lemma_big_endian_length(length, LENGTH_PREFIX_SIZE as nat);
    assert(framed.take(LENGTH_PREFIX_SIZE as int) =~= big_endian(length, LENGTH_PREFIX_SIZE as nat));
    lemma_big_endian_round_trip(length, LENGTH_PREFIX_SIZE as nat);
    lemma_byte_range_of_eight();
    assert(framed.subrange(LENGTH_PREFIX_SIZE as int, LENGTH_PREFIX_SIZE + length) =~= payload);
}

/// Decoding block by block: once the blocks recovered from the start hold the
/// length and the whole payload, unframing them gives what decoding gives.
pub proof fn lemma_unframing_recovered_blocks_is_decoding(
    streams: Seq<Option<Seq<u8>>>,
    e: Seq<Seq<Gf8>>,
    data_shards: int,
    chunk_size: int,
    count: int,
    framed: Seq<u8>,
)
    requires
        1 <= data_shards,
        1 <= chunk_size,
        0 <= count,
        recovered_blocks(e, streams, data_shards, chunk_size, 0, count) == Some(framed),
        is_whole(framed),
    ensures
        decoded(e, streams, data_shards, chunk_size) == Ok::<Seq<u8>, Error>(unframed(framed)),
{
    let block_size = data_shards * chunk_size;
    assert(1 <= block_size) by (nonlinear_arith)
        requires
            1 <= data_shards,
            1 <= chunk_size,
            block_size == data_shards * chunk_size,
    ;
    let length = from_big_endian(framed.take(LENGTH_PREFIX_SIZE as int)) as int;
    let head_blocks = block_count(0, block_size);
    let blocks = block_count(length, block_size);
    lemma_recovered_blocks_length(e, streams, data_shards, chunk_size, 0, count);
    assert((count - 0) * block_size == count * block_size) by (nonlinear_arith);
    lemma_blocks_suffice(0, block_size, count);
    lemma_blocks_suffice(length, block_size, count);
    lemma_blocks_suffice(0, block_size, head_blocks);
    lemma_blocks_suffice(length, block_size, blocks);
    lemma_recovered_blocks_join(e, streams, data_shards, chunk_size, 0, head_blocks, count);
    lemma_recovered_blocks_join(e, streams, data_shards, chunk_size, 0, blocks, count);
    lemma_recovered_blocks_length(e, streams, data_shards, chunk_size, 0, head_blocks);
    lemma_recovered_blocks_length(e, streams, data_shards, chunk_size, 0, blocks);
    assert((head_blocks - 0) * block_size == head_blocks * block_size) by (nonlinear_arith);
    assert((blocks - 0) * block_size == blocks * block_size) by (nonlinear_arith);
    let head = recovered_blocks(e, streams, data_shards, chunk_size, 0, head_blocks).unwrap();
    let whole = recovered_blocks(e, streams, data_shards, chunk_size, 0, blocks).unwrap();
    assert(head.take(LENGTH_PREFIX_SIZE as int) =~= framed.take(LENGTH_PREFIX_SIZE as int));
    assert(whole.subrange(LENGTH_PREFIX_SIZE as int, LENGTH_PREFIX_SIZE + length) =~= unframed(
        framed,
    ));
}

/// A chunk whose content was changed, so that its hash is no longer the one stored
/// in front of it, is reported as failing its checksum.
pub proof fn lemma_changed_content_is_detected(
    stream: Seq<u8>,
    offset: int,
    size: int,
    written: Seq<u8>,
)
    requires
        chunk_is_present(stream, offset, size),
        stored_checksum(stream, offset) == big_endian(
            xxh3_128_of(written) as nat,
            CHECKSUM_SIZE as nat,
        ),
        xxh3_128_of(stored_content(stream, offset, size)) != xxh3_128_of(written),
    ensures
        chunk_read(stream, offset, size) == Err::<Seq<u8>, ShardReadError>(
            ShardReadError::ChecksumValidationFailure,
        ),
{
    let kept = xxh3_128_of(written) as nat;
    let found = xxh3_128_of(stored_content(stream, offset, size)) as nat;
    lemma_big_endian_round_trip(kept, CHECKSUM_SIZE as nat);
    lemma_big_endian_round_trip(found, CHECKSUM_SIZE as nat);
    assert(byte_range(CHECKSUM_SIZE as nat) == 0x1_0000_0000_0000_0000_0000_0000_0000_0000) by {
        reveal_with_fuel(byte_range, 17);
    }
}

} // verus!
