//! What the engine writes and what it gives back, as mathematics: how a payload
//! is framed and cut into blocks, what each shard gets for a block, and how the
//! blocks are recovered from what the shards hold.
use crate::chunk::{
    big_endian, chunk_is_intact, chunk_read, framed_chunk, from_big_endian, stored_content,
    ShardReadError, CHECKSUM_SIZE,
};
use crate::encoder::Error;
use crate::gf8::Gf8;
use crate::linalg::vector_times;
use crate::systematic::{selected_rows, solution};
use vstd::prelude::*;

verus! {

/// The number of bytes of the length that precedes the payload.
pub const LENGTH_PREFIX_SIZE: usize = 8;

/// The numbers of shards and the chunk size that an engine can be made with.
pub open spec fn valid_configuration(data_shards: int, parity_shards: int, chunk_size: int) -> bool {
    &&& 1 <= data_shards
    &&& 0 <= parity_shards
    &&& data_shards + parity_shards <= 256
    &&& 1 <= chunk_size
}

/// The number of blocks that a payload of `length` bytes is framed into.
pub open spec fn block_count(length: int, block_size: int) -> int {
    (length + LENGTH_PREFIX_SIZE + block_size - 1) / block_size
}

/// The byte at `position` of the framed payload: the length in eight bytes, the
/// payload, then zeros without end.
pub open spec fn framed_byte(payload: Seq<u8>, position: int) -> u8 {
    if position < LENGTH_PREFIX_SIZE {
        big_endian(payload.len(), LENGTH_PREFIX_SIZE as nat)[position]
    } else if position < LENGTH_PREFIX_SIZE + payload.len() {
        payload[position - LENGTH_PREFIX_SIZE]
    } else {
        0
    }
}

/// `position`, brought into the range from zero to `length`.
pub open spec fn clipped(position: int, length: int) -> int {
    if position < 0 {
        0
    } else if position > length {
        length
    } else {
        position
    }
}

/// Where in a payload of `length` bytes the bytes of the block `b` start.
pub open spec fn part_start(length: int, block_size: int, b: int) -> int {
    clipped(b * block_size - LENGTH_PREFIX_SIZE, length)
}

/// Where in a payload of `length` bytes the bytes of the block `b` end.
pub open spec fn part_end(length: int, block_size: int, b: int) -> int {
    clipped((b + 1) * block_size - LENGTH_PREFIX_SIZE, length)
}

/// The bytes of the payload that the block `b` holds.
pub open spec fn payload_part(payload: Seq<u8>, block_size: int, b: int) -> Seq<u8> {
    payload.subrange(
        part_start(payload.len() as int, block_size, b),
        part_end(payload.len() as int, block_size, b),
    )
}

/// The payload as far as the framed bytes `received` hold it: nothing before the
/// length is complete, then what follows the length, up to the length.
pub open spec fn unframed(received: Seq<u8>) -> Seq<u8> {
    if received.len() < LENGTH_PREFIX_SIZE {
        Seq::empty()
    } else {
        let length = from_big_endian(received.take(LENGTH_PREFIX_SIZE as int));
        if received.len() < LENGTH_PREFIX_SIZE + length {
            received.skip(LENGTH_PREFIX_SIZE as int)
        } else {
            received.subrange(LENGTH_PREFIX_SIZE as int, LENGTH_PREFIX_SIZE + length)
        }
    }
}

/// The framed bytes `received` hold the length and the whole payload.
pub open spec fn is_whole(received: Seq<u8>) -> bool {
    &&& received.len() >= LENGTH_PREFIX_SIZE
    &&& received.len() >= LENGTH_PREFIX_SIZE + from_big_endian(
        received.take(LENGTH_PREFIX_SIZE as int),
    )
}

/// The block `b` of the framed payload.
pub open spec fn framed_block(payload: Seq<u8>, block_size: int, b: int) -> Seq<u8> {
    Seq::new(block_size as nat, |p: int| framed_byte(payload, b * block_size + p))
}

/// A block as a matrix over the field: the row `i` is the chunk of the data shard
/// `i`.
pub open spec fn block_matrix(block: Seq<u8>, data_shards: int, chunk_size: int) -> Seq<Seq<Gf8>> {
    Seq::new(
        data_shards as nat,
        |i: int| Seq::new(chunk_size as nat, |j: int| Gf8(block[i * chunk_size + j])),
    )
}

/// The bytes of a row of field elements.
pub open spec fn bytes_of(row: Seq<Gf8>) -> Seq<u8> {
    Seq::new(row.len(), |j: int| row[j].0)
}

/// The content of the chunk that the shard `i` gets for a block: the row `i` of the
/// encoding matrix `e` times the block.
pub open spec fn encoded_chunk(
    e: Seq<Seq<Gf8>>,
    block: Seq<u8>,
    data_shards: int,
    chunk_size: int,
    i: int,
) -> Seq<u8> {
    bytes_of(vector_times(e[i], block_matrix(block, data_shards, chunk_size), chunk_size as nat))
}

/// The stream of the shard `i` after the first `blocks` blocks of a payload: one
/// checksummed chunk for each block.
pub open spec fn encoded_stream(
    e: Seq<Seq<Gf8>>,
    payload: Seq<u8>,
    data_shards: int,
    chunk_size: int,
    i: int,
    blocks: nat,
) -> Seq<u8>
    decreases blocks,
{
    if blocks == 0 {
        Seq::empty()
    } else {
        encoded_stream(e, payload, data_shards, chunk_size, i, (blocks - 1) as nat) + framed_chunk(
            encoded_chunk(
                e,
                framed_block(payload, data_shards * chunk_size, blocks - 1),
                data_shards,
                chunk_size,
                i,
            ),
        )
    }
}

/// The shard streams as sequences of bytes; `None` for a shard that is not there.
pub open spec fn streams_of(shards: Seq<Option<Vec<u8>>>) -> Seq<Option<Seq<u8>>> {
    Seq::new(
        shards.len(),
        |i: int|
            match shards[i] {
                Some(stream) => Some(stream@),
                None => None,
            },
    )
}

/// Where the chunk of the block `b` starts on a shard stream.
pub open spec fn chunk_offset(b: int, chunk_size: int) -> int {
    b * (CHECKSUM_SIZE + chunk_size)
}

/// The shard `i` is there and holds a whole chunk for the block `b` that has its
/// checksum.
pub open spec fn is_usable(streams: Seq<Option<Seq<u8>>>, i: int, b: int, chunk_size: int) -> bool {
    streams[i] matches Some(stream) && chunk_is_intact(stream, chunk_offset(b, chunk_size), chunk_size)
}

/// The content of the chunk that the shard `i` holds for the block `b`.
pub open spec fn usable_content(
    streams: Seq<Option<Seq<u8>>>,
    i: int,
    b: int,
    chunk_size: int,
) -> Seq<u8> {
    stored_content(streams[i].unwrap(), chunk_offset(b, chunk_size), chunk_size)
}

/// What is wrong with the chunk that the shard `i` holds for the block `b`: `None`
/// where the shard is not there, `Some(Ok(()))` where the chunk is usable.
pub open spec fn chunk_status(streams: Seq<Option<Seq<u8>>>, i: int, b: int, chunk_size: int) -> Option<
    Result<(), ShardReadError>,
> {
    match streams[i] {
        None => None,
        Some(stream) => Some(
            match chunk_read(stream, chunk_offset(b, chunk_size), chunk_size) {
                Ok(_) => Ok(()),
                Err(error) => Err(error),
            },
        ),
    }
}

/// The shards before `upto` that are usable for the block `b`, in rising order.
pub open spec fn usable_before(
    streams: Seq<Option<Seq<u8>>>,
    b: int,
    chunk_size: int,
    upto: nat,
) -> Seq<int>
    decreases upto,
{
    if upto == 0 {
        Seq::empty()
    } else {
        let before = usable_before(streams, b, chunk_size, (upto - 1) as nat);
        if is_usable(streams, upto - 1, b, chunk_size) {
            before.push(upto - 1)
        } else {
            before
        }
    }
}

/// The shards that the block `b` is recovered from: the first `data_shards` usable
/// ones, so that data shards come before parity shards. `None` where there are
/// fewer.
pub open spec fn chosen_shards(
    streams: Seq<Option<Seq<u8>>>,
    b: int,
    data_shards: int,
    chunk_size: int,
) -> Option<Seq<int>> {
    let usable = usable_before(streams, b, chunk_size, streams.len());
    if usable.len() >= data_shards {
        Some(usable.take(data_shards))
    } else {
        None
    }
}

/// The chunks that the shards of `selection` hold for the block `b`, as the rows of
/// a matrix over the field.
pub open spec fn chunk_matrix(
    streams: Seq<Option<Seq<u8>>>,
    selection: Seq<int>,
    b: int,
    chunk_size: int,
) -> Seq<Seq<Gf8>> {
    Seq::new(
        selection.len(),
        |i: int|
            Seq::new(
                chunk_size as nat,
                |j: int| Gf8(usable_content(streams, selection[i], b, chunk_size)[j]),
            ),
    )
}

/// The bytes of a matrix over the field, row by row.
pub open spec fn flattened(d: Seq<Seq<Gf8>>, rows: int, columns: int) -> Seq<u8> {
    Seq::new((rows * columns) as nat, |p: int| d[p / columns][p % columns].0)
}

/// The block `b` as the shards give it back: the data that the rows of the chosen
/// shards in the encoding matrix `e` take to the chunks that those shards hold.
/// `None` where too few shards are usable.
pub open spec fn recovered_block(
    e: Seq<Seq<Gf8>>,
    streams: Seq<Option<Seq<u8>>>,
    b: int,
    data_shards: int,
    chunk_size: int,
) -> Option<Seq<u8>> {
    match chosen_shards(streams, b, data_shards, chunk_size) {
        None => None,
        Some(selection) => Some(
            flattened(
                solution(
                    selected_rows(e, selection),
                    chunk_matrix(streams, selection, b, chunk_size),
                    data_shards as nat,
                    chunk_size as nat,
                ),
                data_shards,
                chunk_size,
            ),
        ),
    }
}

/// The blocks from `from` up to, not including, `to`, one after the other. `None`
/// where one of them cannot be recovered.
pub open spec fn recovered_blocks(
    e: Seq<Seq<Gf8>>,
    streams: Seq<Option<Seq<u8>>>,
    data_shards: int,
    chunk_size: int,
    from: int,
    to: int,
) -> Option<Seq<u8>>
    decreases to - from,
{
    if to <= from {
        Some(Seq::empty())
    } else {
        match (
            recovered_blocks(e, streams, data_shards, chunk_size, from, to - 1),
            recovered_block(e, streams, to - 1, data_shards, chunk_size),
        ) {
            (Some(before), Some(block)) => Some(before + block),
            _ => None,
        }
    }
}

/// What decoding the shards gives: the length is read from the first eight bytes
/// of the framed payload, and the payload is what follows them in the blocks that
/// a payload of that length takes.
pub open spec fn decoded(
    e: Seq<Seq<Gf8>>,
    streams: Seq<Option<Seq<u8>>>,
    data_shards: int,
    chunk_size: int,
) -> Result<Seq<u8>, Error> {
    let block_size = data_shards * chunk_size;
    match recovered_blocks(e, streams, data_shards, chunk_size, 0, block_count(0, block_size)) {
        None => Err(Error::InsufficientShards),
        Some(head) => {
            let length = from_big_endian(head.take(LENGTH_PREFIX_SIZE as int));
            match recovered_blocks(
                e,
                streams,
                data_shards,
                chunk_size,
                0,
                block_count(length as int, block_size),
            ) {
                None => Err(Error::InsufficientShards),
                Some(framed) => Ok(
                    framed.subrange(LENGTH_PREFIX_SIZE as int, LENGTH_PREFIX_SIZE + length),
                ),
            }
        },
    }
}

/// The usable shards before `upto` are usable, lie before `upto`, and rise.
pub proof fn lemma_usable_before(
    streams: Seq<Option<Seq<u8>>>,
    b: int,
    chunk_size: int,
    upto: nat,
)
    ensures
        usable_before(streams, b, chunk_size, upto).len() <= upto,
        forall|q: int|
            0 <= q < usable_before(streams, b, chunk_size, upto).len() ==> {
                let i = #[trigger] usable_before(streams, b, chunk_size, upto)[q];
                q <= i < upto && is_usable(streams, i, b, chunk_size)
            },
        forall|p: int, q: int|
            0 <= p < q < usable_before(streams, b, chunk_size, upto).len() ==> #[trigger] usable_before(
                streams,
                b,
                chunk_size,
                upto,
            )[p] < #[trigger] usable_before(streams, b, chunk_size, upto)[q],
    decreases upto,
{
    if upto > 0 {
        lemma_usable_before(streams, b, chunk_size, (upto - 1) as nat);
    }
}

/// Looking at more shards only adds to the end of the usable ones.
pub proof fn lemma_usable_before_grows(
    streams: Seq<Option<Seq<u8>>>,
    b: int,
    chunk_size: int,
    fewer: nat,
    more: nat,
)
    requires
        fewer <= more,
    ensures
        usable_before(streams, b, chunk_size, fewer).len() <= usable_before(
            streams,
            b,
            chunk_size,
            more,
        ).len(),
        usable_before(streams, b, chunk_size, more).take(
            usable_before(streams, b, chunk_size, fewer).len() as int,
        ) == usable_before(streams, b, chunk_size, fewer),
    decreases more,
{
    let short = usable_before(streams, b, chunk_size, fewer);
    let long = usable_before(streams, b, chunk_size, more);
    if fewer == more {
        assert(long.take(short.len() as int) =~= short);
    } else {
        lemma_usable_before_grows(streams, b, chunk_size, fewer, (more - 1) as nat);
        let middle = usable_before(streams, b, chunk_size, (more - 1) as nat);
        assert(long.take(short.len() as int) =~= middle.take(short.len() as int));
    }
}

/// A block that is recovered has the size of a block.
pub proof fn lemma_recovered_block_length(
    e: Seq<Seq<Gf8>>,
    streams: Seq<Option<Seq<u8>>>,
    b: int,
    data_shards: int,
    chunk_size: int,
)
    requires
        0 <= data_shards,
        0 <= chunk_size,
    ensures
        recovered_block(e, streams, b, data_shards, chunk_size) matches Some(block) ==> block.len()
            == data_shards * chunk_size,
{
    assert(0 <= data_shards * chunk_size) by (nonlinear_arith)
        requires
            0 <= data_shards,
            0 <= chunk_size,
    ;
}

/// The blocks that are recovered have the size of so many blocks.
pub proof fn lemma_recovered_blocks_length(
    e: Seq<Seq<Gf8>>,
    streams: Seq<Option<Seq<u8>>>,
    data_shards: int,
    chunk_size: int,
    from: int,
    to: int,
)
    requires
        0 <= data_shards,
        0 <= chunk_size,
        from <= to,
    ensures
        recovered_blocks(e, streams, data_shards, chunk_size, from, to) matches Some(blocks)
            ==> blocks.len() == (to - from) * (data_shards * chunk_size),
    decreases to - from,
{
    let block_size = data_shards * chunk_size;
    if from < to {
        lemma_recovered_blocks_length(e, streams, data_shards, chunk_size, from, to - 1);
        lemma_recovered_block_length(e, streams, to - 1, data_shards, chunk_size);
        assert((to - from) * block_size == (to - 1 - from) * block_size + block_size)
            by (nonlinear_arith);
    } else {
        assert((to - from) * block_size == 0) by (nonlinear_arith)
            requires
                to - from == 0,
        ;
    }
}

/// Where one block cannot be recovered, no run of blocks that holds it can.
pub proof fn lemma_recovered_blocks_fail(
    e: Seq<Seq<Gf8>>,
    streams: Seq<Option<Seq<u8>>>,
    data_shards: int,
    chunk_size: int,
    from: int,
    b: int,
    to: int,
)
    requires
        from <= b < to,
        recovered_block(e, streams, b, data_shards, chunk_size).is_none(),
    ensures
        recovered_blocks(e, streams, data_shards, chunk_size, from, to).is_none(),
    decreases to - from,
{
    if b < to - 1 {
        lemma_recovered_blocks_fail(e, streams, data_shards, chunk_size, from, b, to - 1);
    }
}

/// `b` blocks hold the prefix and `length` bytes of payload exactly where there are
/// as many blocks as the payload takes, or more.
pub proof fn lemma_blocks_suffice(length: int, block_size: int, b: int)
    requires
        0 <= length,
        1 <= block_size,
        0 <= b,
    ensures
        b * block_size >= length + LENGTH_PREFIX_SIZE <==> b >= block_count(length, block_size),
        0 <= block_count(0, block_size) <= block_count(length, block_size),
{
    let total = length + LENGTH_PREFIX_SIZE + block_size - 1;
    let blocks = block_count(length, block_size);
    vstd::arithmetic::div_mod::lemma_fundamental_div_mod(total, block_size);
    vstd::arithmetic::div_mod::lemma_mod_bound(total, block_size);
    assert(blocks * block_size == block_size * blocks) by (nonlinear_arith);
    if b >= blocks {
        assert(b * block_size >= blocks * block_size) by (nonlinear_arith)
            requires
                b >= blocks,
                0 <= block_size,
        ;
    } else {
        assert(b * block_size <= (blocks - 1) * block_size) by (nonlinear_arith)
            requires
                b <= blocks - 1,
                0 <= block_size,
        ;
        assert((blocks - 1) * block_size == blocks * block_size - block_size) by (nonlinear_arith);
    }
    let least = LENGTH_PREFIX_SIZE + block_size - 1;
    vstd::arithmetic::div_mod::lemma_div_is_ordered(least, total, block_size);
    vstd::arithmetic::div_mod::lemma_div_pos_is_pos(least, block_size);
}

/// What decoding a part of the payload gives: the `length` bytes from `offset` on,
/// recovered from the blocks that hold them. The range has to lie within the
/// payload, whose length is read from the first blocks.
pub open spec fn decoded_at(
    e: Seq<Seq<Gf8>>,
    streams: Seq<Option<Seq<u8>>>,
    data_shards: int,
    chunk_size: int,
    offset: int,
    length: int,
) -> Result<Seq<u8>, Error> {
    let block_size = data_shards * chunk_size;
    match recovered_blocks(e, streams, data_shards, chunk_size, 0, block_count(0, block_size)) {
        None => Err(Error::InsufficientShards),
        Some(head) => {
            let total = from_big_endian(head.take(LENGTH_PREFIX_SIZE as int));
            if offset + length > total {
                Err(Error::RangeOutOfBounds)
            } else if length == 0 {
                Ok(Seq::empty())
            } else {
                let first = (LENGTH_PREFIX_SIZE + offset) / block_size;
                let last = (LENGTH_PREFIX_SIZE + offset + length - 1) / block_size;
                match recovered_blocks(e, streams, data_shards, chunk_size, first, last + 1) {
                    None => Err(Error::InsufficientShards),
                    Some(window) => {
                        let skip = LENGTH_PREFIX_SIZE + offset - first * block_size;
                        Ok(window.subrange(skip, skip + length))
                    },
                }
            }
        },
    }
}

/// Every stream that is there is short enough for its length to be a `usize`.
pub open spec fn streams_fit(streams: Seq<Option<Seq<u8>>>) -> bool {
    forall|i: int|
        0 <= i < streams.len() ==> (#[trigger] streams[i] matches Some(stream) ==> stream.len()
            <= usize::MAX)
}

/// The streams of shards that are held in memory fit.
pub proof fn lemma_streams_fit(shards: Seq<Option<Vec<u8>>>)
    ensures
        streams_fit(streams_of(shards)),
{
    assert forall|i: int| 0 <= i < shards.len() implies (#[trigger] streams_of(shards)[i] matches Some(
        stream,
    ) ==> stream.len() <= usize::MAX) by {
        if let Some(stream) = shards[i] {
            assert(stream.len() <= usize::MAX);
        }
    }
}

/// A block whose chunks would end beyond the longest stream cannot be recovered.
pub proof fn lemma_block_out_of_reach(
    e: Seq<Seq<Gf8>>,
    streams: Seq<Option<Seq<u8>>>,
    b: int,
    data_shards: int,
    chunk_size: int,
)
    requires
        streams_fit(streams),
        1 <= data_shards,
        0 <= chunk_size,
        0 <= b,
        (b + 1) * (CHECKSUM_SIZE + chunk_size) > usize::MAX,
    ensures
        recovered_block(e, streams, b, data_shards, chunk_size).is_none(),
{
    let usable = usable_before(streams, b, chunk_size, streams.len());
    if usable.len() >= data_shards {
        lemma_usable_before(streams, b, chunk_size, streams.len());
        let i = usable[0];
        assert(is_usable(streams, i, b, chunk_size));
        assert((b + 1) * (CHECKSUM_SIZE + chunk_size) == b * (CHECKSUM_SIZE + chunk_size)
            + CHECKSUM_SIZE + chunk_size) by (nonlinear_arith);
    }
}

/// A run of blocks is recovered from its two parts, and fails where one of them
/// fails.
pub proof fn lemma_recovered_blocks_join(
    e: Seq<Seq<Gf8>>,
    streams: Seq<Option<Seq<u8>>>,
    data_shards: int,
    chunk_size: int,
    from: int,
    middle: int,
    to: int,
)
    requires
        from <= middle <= to,
    ensures
        recovered_blocks(e, streams, data_shards, chunk_size, from, to) == match (
            recovered_blocks(e, streams, data_shards, chunk_size, from, middle),
            recovered_blocks(e, streams, data_shards, chunk_size, middle, to),
        ) {
            (Some(before), Some(after)) => Some(before + after),
            _ => None,
        },
    decreases to - middle,
{
    let whole = recovered_blocks(e, streams, data_shards, chunk_size, from, to);
    let before = recovered_blocks(e, streams, data_shards, chunk_size, from, middle);
    let after = recovered_blocks(e, streams, data_shards, chunk_size, middle, to);
    if middle == to {
        if let Some(bytes) = before {
            assert(bytes + Seq::<u8>::empty() =~= bytes);
        }
    } else {
        lemma_recovered_blocks_join(e, streams, data_shards, chunk_size, from, middle, to - 1);
        let shorter = recovered_blocks(e, streams, data_shards, chunk_size, from, to - 1);
        let between = recovered_blocks(e, streams, data_shards, chunk_size, middle, to - 1);
        let block = recovered_block(e, streams, to - 1, data_shards, chunk_size);
        if let (Some(x), Some(y), Some(z)) = (before, between, block) {
            assert((x + y) + z =~= x + (y + z));
        }
    }
}

/// Strictly rising integers that end at `last` start no later than their number
/// allows.
pub proof fn lemma_rising_is_tight(s: Seq<int>, q: int)
    requires
        forall|p: int, r: int| 0 <= p < r < s.len() ==> #[trigger] s[p] < #[trigger] s[r],
        0 <= q < s.len(),
    ensures
        s[q] + (s.len() - 1 - q) <= s[s.len() - 1],
    decreases s.len() - q,
{
    if q < s.len() - 1 {
        lemma_rising_is_tight(s, q + 1);
    }
}

/// The bytes of the matrix of a block are the block.
pub proof fn lemma_flattened_block(block: Seq<u8>, rows: int, columns: int)
    requires
        0 <= rows,
        0 <= columns,
        block.len() == rows * columns,
    ensures
        flattened(block_matrix(block, rows, columns), rows, columns) == block,
{
    let d = block_matrix(block, rows, columns);
    let flat = flattened(d, rows, columns);
    assert forall|p: int| 0 <= p < rows * columns implies flat[p] == block[p] by {
        lemma_cell_of_position(rows, columns, p);
        vstd::arithmetic::div_mod::lemma_fundamental_div_mod(p, columns);
        assert(columns * (p / columns) == (p / columns) * columns) by (nonlinear_arith);
    }
    assert(flat =~= block);
}

/// A position in the row-by-row storage of a matrix belongs to one row and one
/// column.
pub proof fn lemma_cell_of_position(rows: int, columns: int, p: int)
    requires
        0 <= p < rows * columns,
        0 <= rows,
        0 <= columns,
    ensures
        0 < columns,
        0 <= p / columns < rows,
        0 <= p % columns < columns,
{
    assert(0 < columns) by (nonlinear_arith)
        requires
            0 <= p < rows * columns,
            0 <= rows,
            0 <= columns,
    ;
    vstd::arithmetic::div_mod::lemma_fundamental_div_mod(p, columns);
    vstd::arithmetic::div_mod::lemma_mod_bound(p, columns);
    vstd::arithmetic::div_mod::lemma_div_pos_is_pos(p, columns);
    if p / columns >= rows {
        assert(columns * (p / columns) >= columns * rows) by (nonlinear_arith)
            requires
                p / columns >= rows,
                0 < columns,
        ;
        assert(columns * rows == rows * columns) by (nonlinear_arith);
    }
}

/// A block beyond the reach of a `usize` cannot be recovered, nor a run of blocks
/// that holds it.
pub proof fn lemma_blocks_out_of_reach(
    e: Seq<Seq<Gf8>>,
    streams: Seq<Option<Seq<u8>>>,
    data_shards: int,
    chunk_size: int,
    from: int,
    to: int,
)
    requires
        streams_fit(streams),
        1 <= data_shards,
        0 <= chunk_size,
        0 <= from < to,
        to > usize::MAX,
    ensures
        recovered_blocks(e, streams, data_shards, chunk_size, from, to).is_none(),
{
    assert(to * (CHECKSUM_SIZE + chunk_size) >= to) by (nonlinear_arith)
        requires
            0 <= to,
            0 <= chunk_size,
    ;
    lemma_block_out_of_reach(e, streams, to - 1, data_shards, chunk_size);
    lemma_recovered_blocks_fail(e, streams, data_shards, chunk_size, from, to - 1, to);
}

/// Where a range of bytes lies in the blocks that hold it: it starts `start %
/// block_size` bytes into the first of them and ends within the last.
pub proof fn lemma_window(start: int, length: int, block_size: int)
    requires
        0 <= start,
        1 <= length,
        1 <= block_size,
    ensures
        0 <= start / block_size <= (start + length - 1) / block_size,
        start - (start / block_size) * block_size == start % block_size,
        0 <= start % block_size,
        start % block_size + length <= ((start + length - 1) / block_size + 1 - start / block_size)
            * block_size,
{
    let first = start / block_size;
    let last = (start + length - 1) / block_size;
    vstd::arithmetic::div_mod::lemma_fundamental_div_mod(start, block_size);
    vstd::arithmetic::div_mod::lemma_fundamental_div_mod(start + length - 1, block_size);
    vstd::arithmetic::div_mod::lemma_mod_bound(start, block_size);
    vstd::arithmetic::div_mod::lemma_mod_bound(start + length - 1, block_size);
    vstd::arithmetic::div_mod::lemma_div_is_ordered(start, start + length - 1, block_size);
    vstd::arithmetic::div_mod::lemma_div_pos_is_pos(start, block_size);
    assert(block_size * first == first * block_size) by (nonlinear_arith);
    assert(block_size * last == last * block_size) by (nonlinear_arith);
    assert((last + 1 - first) * block_size == last * block_size + block_size - first * block_size)
        by (nonlinear_arith);
}

/// The blocks before `b` end where the block `b` starts, and all blocks of a
/// payload lie within its length, the prefix and one block more.
pub proof fn lemma_block_bounds(length: int, block_size: int, b: int)
    requires
        0 <= length,
        1 <= block_size,
        0 <= b < block_count(length, block_size),
    ensures
        0 <= b * block_size,
        (b + 1) * block_size == b * block_size + block_size,
        (b + 1) * block_size <= length + LENGTH_PREFIX_SIZE + block_size - 1,
{
    let total = length + LENGTH_PREFIX_SIZE + block_size - 1;
    let blocks = block_count(length, block_size);
    vstd::arithmetic::div_mod::lemma_fundamental_div_mod(total, block_size);
    vstd::arithmetic::div_mod::lemma_mod_bound(total, block_size);
    assert((b + 1) * block_size <= blocks * block_size) by (nonlinear_arith)
        requires
            b + 1 <= blocks,
            0 <= block_size,
    ;
    assert(blocks * block_size == block_size * blocks) by (nonlinear_arith);
    assert((b + 1) * block_size == b * block_size + block_size) by (nonlinear_arith);
    assert(0 <= b * block_size) by (nonlinear_arith)
        requires
            0 <= b,
            0 <= block_size,
    ;
}

} // verus!
