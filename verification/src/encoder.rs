//! The Reed-Solomon engine: a payload, framed with its length, is cut into blocks
//! of `data_shards` chunks; each block is encoded into one chunk for every shard,
//! and any `data_shards` of the shards give the payload back.
use crate::chunk::{
    append_bytes, big_endian, from_big_endian, push_big_endian, read_big_endian, read_chunk,
    write_chunk, ShardReadError, CHECKSUM_SIZE,
};
use crate::codec::{
    block_count, block_matrix, bytes_of, chosen_shards, chunk_matrix, chunk_offset,
    chunk_status, decoded, decoded_at, encoded_chunk, encoded_stream, flattened, framed_block,
    framed_byte, is_usable, lemma_block_bounds, lemma_block_out_of_reach,
    lemma_blocks_out_of_reach, lemma_blocks_suffice, lemma_cell_of_position,
    lemma_flattened_block, lemma_recovered_blocks_fail, lemma_recovered_blocks_join,
    lemma_recovered_blocks_length, lemma_rising_is_tight, lemma_streams_fit,
    lemma_usable_before, lemma_usable_before_grows, lemma_window, part_end, part_start,
    payload_part, recovered_block, recovered_blocks, streams_fit, streams_of, usable_before,
    usable_content, valid_configuration, LENGTH_PREFIX_SIZE,
};
use crate::elimination::lemma_identity_product;
use crate::encoding::{byte_nodes, is_encoding_matrix};
use crate::gf8::Gf8;
use crate::linalg::{column, identity, lemma_dot_of_unit, product, unit};
use crate::matrix::{lemma_position_in_bounds, Matrix};
use crate::systematic::{
    is_selection, lemma_any_rows_suffice, lemma_inverse_solves, lemma_solution_is_unique,
    selected_rows,
};
use vstd::prelude::*;
use vstd::slice::slice_subrange;

verus! {

/// Why the engine could not do what it was asked.
#[derive(Clone, Copy, PartialEq, Eq, Structural, Debug)]
pub enum Error {
    /// The numbers of shards or the chunk size cannot be used.
    ConfigurationError,
    /// The payload handed in is shorter than its declared length.
    Truncated,
    /// For some block, fewer than `data_shards` shards hold a chunk that is whole
    /// and has its checksum.
    InsufficientShards,
    /// The range asked for reaches beyond the end of the payload.
    RangeOutOfBounds,
}

/// The Reed-Solomon engine for one choice of shards and chunk size, with the
/// encoding matrix that belongs to it.
pub struct ReedSolomonEncoder {
    pub data_shards: usize,
    pub parity_shards: usize,
    pub chunk_size: usize,
    /// The encoding matrix: one row for each shard.
    pub encoding: Matrix<Gf8>,
    /// The rows of the encoding matrix that belong to the parity shards.
    pub parity: Matrix<Gf8>,
}

impl ReedSolomonEncoder {
    /// The configuration is valid, a block and a chunk fit into memory, and the
    /// matrices are those of the configuration.
    pub open spec fn wf(&self) -> bool {
        &&& valid_configuration(
            self.data_shards as int,
            self.parity_shards as int,
            self.chunk_size as int,
        )
        &&& 256 * self.chunk_size + CHECKSUM_SIZE <= usize::MAX
        &&& self.encoding.wf()
        &&& self.encoding.rows == self.data_shards + self.parity_shards
        &&& self.encoding.columns == self.data_shards
        &&& is_encoding_matrix(self.encoding@, self.data_shards as nat, self.parity_shards as nat)
        &&& self.parity.wf()
        &&& self.parity.rows == self.parity_shards
        &&& self.parity.columns == self.data_shards
        &&& self.parity@ == Seq::new(
            self.parity_shards as nat,
            |p: int| self.encoding@[self.data_shards + p],
        )
    }

    /// The number of bytes of payload and prefix in one block.
    pub open spec fn block_size(&self) -> int {
        self.data_shards * self.chunk_size
    }

    /// The number of shards.
    pub open spec fn shards(&self) -> int {
        self.data_shards + self.parity_shards
    }

    /// A block fits into memory, with room to spare.
    pub proof fn lemma_sizes(&self)
        requires
            self.wf(),
        ensures
            1 <= self.block_size() <= 256 * self.chunk_size,
            self.parity_shards * self.chunk_size <= 256 * self.chunk_size,
            self.shards() * self.data_shards <= 65536,
    {
        let (k, m, c) = (self.data_shards as int, self.parity_shards as int, self.chunk_size as int);
        assert(1 <= k * c <= 256 * c && m * c <= 256 * c && (k + m) * k <= 65536)
            by (nonlinear_arith)
            requires
                1 <= k <= 256,
                0 <= m <= 256,
                k + m <= 256,
                1 <= c,
        ;
    }

    /// The engine for `data_shards` data shards and `parity_shards` parity shards,
    /// with chunks of `chunk_size` bytes. There must be a data shard, no more than
    /// 256 shards in all, and a byte in a chunk.
    pub fn new(data_shards: usize, parity_shards: usize, chunk_size: usize) -> (made: Result<
        ReedSolomonEncoder,
        Error,
    >)
        requires
            256 * chunk_size + CHECKSUM_SIZE <= usize::MAX,
        ensures
            made.is_ok() <==> valid_configuration(
                data_shards as int,
                parity_shards as int,
                chunk_size as int,
            ),
            made matches Ok(encoder) ==> {
                &&& encoder.wf()
                &&& encoder.data_shards == data_shards
                &&& encoder.parity_shards == parity_shards
                &&& encoder.chunk_size == chunk_size
            },
            made matches Err(error) ==> error == Error::ConfigurationError,
    {
        if data_shards < 1 || data_shards > 256 || parity_shards > 256 - data_shards || chunk_size
            < 1 {
            return Err(Error::ConfigurationError);
        }
        let encoding = Matrix::<Gf8>::encoding_matrix(data_shards, parity_shards);
        let mut below: Vec<usize> = Vec::with_capacity(parity_shards);
        let mut p: usize = 0;
        while p < parity_shards
            invariant
                p <= parity_shards,
                data_shards + parity_shards <= 256,
                below@.len() == p,
                forall|q: int| 0 <= q < p ==> #[trigger] below@[q] == data_shards + q,
            decreases parity_shards - p,
        {
            below.push(data_shards + p);
            p += 1;
        }
        assert(parity_shards * data_shards <= 65536) by (nonlinear_arith)
            requires
                parity_shards <= 256,
                data_shards <= 256,
        ;
        let parity = encoding.select_rows(&below);
        proof {
            assert(parity@ =~= Seq::new(
                parity_shards as nat,
                |p: int| encoding@[data_shards + p],
            ));
        }
        Ok(ReedSolomonEncoder { data_shards, parity_shards, chunk_size, encoding, parity })
    }

    /// The number of blocks that a payload of `length` bytes is framed into.
    pub fn blocks(&self, length: usize) -> (count: usize)
        requires
            self.wf(),
            length + LENGTH_PREFIX_SIZE + self.block_size() <= usize::MAX,
        ensures
            count == block_count(length as int, self.block_size()),
    {
        proof {
            self.lemma_sizes();
        }
        let block_size = self.data_shards * self.chunk_size;
        (length + LENGTH_PREFIX_SIZE + block_size - 1) / block_size
    }

    /// The number of bytes that one chunk takes on a shard stream, with its checksum.
    pub fn frame_size(&self) -> (size: usize)
        requires
            self.wf(),
        ensures
            size == CHECKSUM_SIZE + self.chunk_size,
    {
        CHECKSUM_SIZE + self.chunk_size
    }

    /// Where the chunk of the block `b` starts on a shard stream; `None` where that
    /// is beyond what a `usize` holds.
    pub fn chunk_position(&self, b: usize) -> (position: Option<usize>)
        requires
            self.wf(),
        ensures
            match position {
                Some(position) => position == chunk_offset(b as int, self.chunk_size as int),
                None => chunk_offset(b as int, self.chunk_size as int) > usize::MAX,
            },
    {
        b.checked_mul(CHECKSUM_SIZE + self.chunk_size)
    }

    /// Which bytes of a payload of `length` bytes the block `b` holds: from the
    /// first of the pair up to, not including, the second.
    pub fn payload_part(&self, length: usize, b: usize) -> (part: (usize, usize))
        requires
            self.wf(),
            b < block_count(length as int, self.block_size()),
            length + LENGTH_PREFIX_SIZE + self.block_size() <= usize::MAX,
        ensures
            part.0 == part_start(length as int, self.block_size(), b as int),
            part.1 == part_end(length as int, self.block_size(), b as int),
            part.0 <= part.1 <= length,
    {
        proof {
            self.lemma_sizes();
            lemma_block_bounds(length as int, self.block_size(), b as int);
        }
        let block_size = self.data_shards * self.chunk_size;
        let first = b * block_size;
        let beyond = first + block_size;
        let start = if first < LENGTH_PREFIX_SIZE {
            0
        } else if first - LENGTH_PREFIX_SIZE > length {
            length
        } else {
            first - LENGTH_PREFIX_SIZE
        };
        let end = if beyond < LENGTH_PREFIX_SIZE {
            0
        } else if beyond - LENGTH_PREFIX_SIZE > length {
            length
        } else {
            beyond - LENGTH_PREFIX_SIZE
        };
        (start, end)
    }

    /// The block `b` of the framed payload, made from the bytes of the payload that
    /// it holds: the length prefix as far as it lies in this block, these bytes,
    /// and zeros up to the end of the block.
    pub fn frame_block(&self, part: &[u8], length: usize, b: usize) -> (block: Vec<u8>)
        requires
            self.wf(),
            b < block_count(length as int, self.block_size()),
            length + LENGTH_PREFIX_SIZE + self.block_size() <= usize::MAX,
            part@.len() == part_end(length as int, self.block_size(), b as int) - part_start(
                length as int,
                self.block_size(),
                b as int,
            ),
        ensures
            block@.len() == self.block_size(),
            forall|payload: Seq<u8>|
                payload.len() == length && #[trigger] payload_part(
                    payload,
                    self.block_size(),
                    b as int,
                ) == part@ ==> block@ == framed_block(payload, self.block_size(), b as int),
    {
        proof {
            self.lemma_sizes();
            lemma_block_bounds(length as int, self.block_size(), b as int);
        }
        let block_size = self.data_shards * self.chunk_size;
        let first = b * block_size;
        let (start, end) = self.payload_part(length, b);
        let mut prefix: Vec<u8> = Vec::with_capacity(LENGTH_PREFIX_SIZE);
        push_big_endian(&mut prefix, length as u128, LENGTH_PREFIX_SIZE);
        proof {
            crate::chunk::lemma_big_endian_length(length as nat, LENGTH_PREFIX_SIZE as nat);
            assert(prefix@ =~= big_endian(length as nat, LENGTH_PREFIX_SIZE as nat));
        }
        let mut block: Vec<u8> = Vec::with_capacity(block_size);
        let mut p: usize = 0;
        while p < block_size
            invariant
                p <= block_size,
                block_size == self.block_size(),
                first == b * block_size,
                first + block_size == (b + 1) * block_size,
                first + block_size <= usize::MAX,
                start == part_start(length as int, block_size as int, b as int),
                end == part_end(length as int, block_size as int, b as int),
                part@.len() == end - start,
                prefix@ == big_endian(length as nat, LENGTH_PREFIX_SIZE as nat),
                prefix@.len() == LENGTH_PREFIX_SIZE,
                block@.len() == p,
                forall|q: int|
                    0 <= q < p ==> #[trigger] block@[q] == if first + q < LENGTH_PREFIX_SIZE {
                        prefix@[first + q]
                    } else if first + q < LENGTH_PREFIX_SIZE + length {
                        part@[first + q - LENGTH_PREFIX_SIZE - start]
                    } else {
                        0u8
                    },
            decreases block_size - p,
        {
            let position = first + p;
            let byte = if position < LENGTH_PREFIX_SIZE {
                prefix[position]
            } else if position - LENGTH_PREFIX_SIZE < length {
                part[position - LENGTH_PREFIX_SIZE - start]
            } else {
                0u8
            };
            block.push(byte);
            p += 1;
        }
        proof {
            assert forall|payload: Seq<u8>|
                payload.len() == length && #[trigger] payload_part(
                    payload,
                    self.block_size(),
                    b as int,
                ) == part@ implies block@ == framed_block(payload, self.block_size(), b as int) by {
                assert forall|q: int| 0 <= q < block_size implies block@[q] == framed_byte(
                    payload,
                    first + q,
                ) by {
                    if LENGTH_PREFIX_SIZE <= first + q < LENGTH_PREFIX_SIZE + length {
                        assert(payload_part(payload, block_size as int, b as int)[first + q
                            - LENGTH_PREFIX_SIZE - start] == payload[first + q
                            - LENGTH_PREFIX_SIZE]);
                    }
                }
                assert(block@ =~= framed_block(payload, self.block_size(), b as int));
            }
        }
        block
    }

    /// The content of the chunk of each shard for one block: for a data shard its
    /// part of the block, for a parity shard its row of the encoding matrix times
    /// the block.
    pub fn encode_block(&self, block: &[u8]) -> (chunks: Vec<Vec<u8>>)
        requires
            self.wf(),
            block@.len() == self.block_size(),
        ensures
            chunks@.len() == self.shards(),
            forall|i: int|
                0 <= i < self.shards() ==> (#[trigger] chunks@[i])@ == encoded_chunk(
                    self.encoding@,
                    block@,
                    self.data_shards as int,
                    self.chunk_size as int,
                    i,
                ),
    {
        proof {
            self.lemma_sizes();
        }
        let ghost e = self.encoding@;
        let ghost k = self.data_shards as int;
        let ghost size = self.chunk_size as int;
        let ghost d = block_matrix(block@, k, size);
        let mut chunks: Vec<Vec<u8>> = Vec::with_capacity(self.data_shards + self.parity_shards);
        let mut i: usize = 0;
        while i < self.data_shards
            invariant
                i <= self.data_shards,
                self.wf(),
                block@.len() == self.block_size(),
                e == self.encoding@,
                k == self.data_shards,
                size == self.chunk_size,
                d == block_matrix(block@, k, size),
                chunks@.len() == i,
                forall|q: int|
                    0 <= q < i ==> (#[trigger] chunks@[q])@ == encoded_chunk(e, block@, k, size, q),
            decreases self.data_shards - i,
        {
            proof {
                self.lemma_sizes();
                lemma_position_in_bounds(k, size, i as int, 0);
                assert((i + 1) * size == i * size + size) by (nonlinear_arith);
                assert((i + 1) * size <= k * size) by (nonlinear_arith)
                    requires
                        i + 1 <= k,
                        0 <= size,
                ;
            }
            let part = slice_subrange(
                block,
                i * self.chunk_size,
                i * self.chunk_size + self.chunk_size,
            );
            let mut chunk: Vec<u8> = Vec::with_capacity(self.chunk_size);
            append_bytes(&mut chunk, part);
            proof {
                let expected = encoded_chunk(e, block@, k, size, i as int);
                assert forall|j: int| 0 <= j < size implies chunk@[j] == expected[j] by {
                    assert(e[i as int] == unit::<Gf8>(k as nat, i as int));
                    lemma_dot_of_unit::<Gf8>(k as nat, i as int, column(d, j));
                }
                assert(chunk@ =~= expected);
            }
            chunks.push(chunk);
            i += 1;
        }
        let data = Self::block_to_matrix(block, self.data_shards, self.chunk_size);
        let encoded = self.parity.multiply(&data);
        let mut p: usize = 0;
        while p < self.parity_shards
            invariant
                p <= self.parity_shards,
                self.wf(),
                e == self.encoding@,
                k == self.data_shards,
                size == self.chunk_size,
                d == block_matrix(block@, k, size),
                encoded.wf(),
                encoded.rows == self.parity_shards,
                encoded.columns == self.chunk_size,
                encoded@ == product(self.parity@, d, size as nat),
                chunks@.len() == k + p,
                forall|q: int|
                    0 <= q < k + p ==> (#[trigger] chunks@[q])@ == encoded_chunk(e, block@, k, size, q),
            decreases self.parity_shards - p,
        {
            let chunk = Self::row_bytes(&encoded, p);
            chunks.push(chunk);
            p += 1;
        }
        chunks
    }

    /// The matrix over the field whose `rows` rows of `columns` entries hold the
    /// bytes of `block`, row by row.
    pub fn block_to_matrix(block: &[u8], rows: usize, columns: usize) -> (m: Matrix<Gf8>)
        requires
            block@.len() == rows * columns,
        ensures
            m.wf(),
            m.rows == rows,
            m.columns == columns,
            m@ == block_matrix(block@, rows as int, columns as int),
    {
        let count = block.len();
        let mut elements: Vec<Gf8> = Vec::with_capacity(count);
        let mut i: usize = 0;
        while i < count
            invariant
                i <= count,
                count == block@.len(),
                elements@.len() == i,
                forall|q: int| 0 <= q < i ==> #[trigger] elements@[q] == Gf8(block@[q]),
            decreases count - i,
        {
            elements.push(Gf8(block[i]));
            i += 1;
        }
        let m = Matrix { rows, columns, elements };
        proof {
            let expected = block_matrix(block@, rows as int, columns as int);
            assert forall|r: int| 0 <= r < rows implies #[trigger] m@[r] =~= expected[r] by {
                assert forall|c: int| 0 <= c < columns implies m@[r][c] == expected[r][c] by {
                    lemma_position_in_bounds(rows as int, columns as int, r, c);
                }
            }
            assert(m@ =~= expected);
        }
        m
    }

    /// The bytes of the row `r` of a matrix over the field.
    pub fn row_bytes(m: &Matrix<Gf8>, r: usize) -> (bytes: Vec<u8>)
        requires
            m.wf(),
            r < m.rows,
        ensures
            bytes@ == bytes_of(m@[r as int]),
    {
        let mut bytes: Vec<u8> = Vec::with_capacity(m.columns);
        let mut c: usize = 0;
        while c < m.columns
            invariant
                c <= m.columns,
                m.wf(),
                r < m.rows,
                bytes@.len() == c,
                forall|j: int| 0 <= j < c ==> #[trigger] bytes@[j] == m@[r as int][j].0,
            decreases m.columns - c,
        {
            bytes.push(m.get(r, c).0);
            c += 1;
        }
        proof {
            assert(bytes@ =~= bytes_of(m@[r as int]));
        }
        bytes
    }

    /// Encodes the first `length` bytes of `data` into one stream for each shard.
    /// The payload is framed with its length and cut into blocks; each stream gets
    /// one checksummed chunk for each block. Fails where `data` is shorter than
    /// `length`.
    pub fn encode(&self, data: &[u8], length: usize) -> (encoded: Result<Vec<Vec<u8>>, Error>)
        requires
            self.wf(),
            length + LENGTH_PREFIX_SIZE + self.block_size() <= usize::MAX,
        ensures
            encoded.is_ok() <==> length <= data@.len(),
            encoded matches Err(error) ==> error == Error::Truncated,
            encoded matches Ok(streams) ==> {
                &&& streams@.len() == self.shards()
                &&& forall|i: int|
                    0 <= i < self.shards() ==> (#[trigger] streams@[i])@ == encoded_stream(
                        self.encoding@,
                        data@.take(length as int),
                        self.data_shards as int,
                        self.chunk_size as int,
                        i,
                        block_count(length as int, self.block_size()) as nat,
                    )
            },
    {
        if data.len() < length {
            return Err(Error::Truncated);
        }
        proof {
            self.lemma_sizes();
        }
        let shards = self.data_shards + self.parity_shards;
        let block_size = self.data_shards * self.chunk_size;
        let blocks = (length + LENGTH_PREFIX_SIZE + block_size - 1) / block_size;
        let ghost e = self.encoding@;
        let ghost payload = data@.take(length as int);
        let ghost k = self.data_shards as int;
        let ghost size = self.chunk_size as int;
        let mut streams: Vec<Vec<u8>> = Vec::with_capacity(shards);
        let mut i: usize = 0;
        while i < shards
            invariant
                i <= shards,
                streams@.len() == i,
                forall|q: int| 0 <= q < i ==> (#[trigger] streams@[q])@ == Seq::<u8>::empty(),
            decreases shards - i,
        {
            streams.push(Vec::new());
            i += 1;
        }
        let mut b: usize = 0;
        while b < blocks
            invariant
                b <= blocks,
                self.wf(),
                length <= data@.len(),
                length + LENGTH_PREFIX_SIZE + self.block_size() <= usize::MAX,
                blocks == block_count(length as int, self.block_size()),
                shards == self.shards(),
                e == self.encoding@,
                payload == data@.take(length as int),
                k == self.data_shards,
                size == self.chunk_size,
                streams@.len() == shards,
                forall|q: int|
                    0 <= q < shards ==> (#[trigger] streams@[q])@ == encoded_stream(
                        e,
                        payload,
                        k,
                        size,
                        q,
                        b as nat,
                    ),
            decreases blocks - b,
        {
            let (start, end) = self.payload_part(length, b);
            let part = slice_subrange(data, start, end);
            proof {
                assert(payload_part(payload, self.block_size(), b as int) =~= part@);
            }
            let block = self.frame_block(part, length, b);
            let chunks = self.encode_block(block.as_slice());
            let mut i: usize = 0;
            while i < shards
                invariant
                    i <= shards,
                    b < blocks,
                    shards == self.shards(),
                    k == self.data_shards,
                    size == self.chunk_size,
                    block@ == framed_block(payload, k * size, b as int),
                    chunks@.len() == shards,
                    forall|q: int|
                        0 <= q < shards ==> (#[trigger] chunks@[q])@ == encoded_chunk(
                            e,
                            block@,
                            k,
                            size,
                            q,
                        ),
                    streams@.len() == shards,
                    forall|q: int|
                        0 <= q < shards ==> (#[trigger] streams@[q])@ == encoded_stream(
                            e,
                            payload,
                            k,
                            size,
                            q,
                            if q < i {
                                (b + 1) as nat
                            } else {
                                b as nat
                            },
                        ),
                decreases shards - i,
            {
                write_chunk(&mut streams[i], chunks[i].as_slice());
                i += 1;
            }
            b += 1;
        }
        Ok(streams)
    }

    /// The chunks of one block, one after the other.
    pub fn join_chunks(contents: &Vec<Vec<u8>>, chunk_size: usize) -> (joined: Vec<u8>)
        requires
            forall|q: int| 0 <= q < contents@.len() ==> (#[trigger] contents@[q])@.len() == chunk_size,
        ensures
            joined@.len() == contents@.len() * chunk_size,
            forall|q: int, j: int|
                0 <= q < contents@.len() && 0 <= j < chunk_size ==> joined@[q * chunk_size + j]
                    == #[trigger] contents@[q]@[j],
    {
        let mut joined: Vec<u8> = Vec::new();
        let mut q: usize = 0;
        while q < contents.len()
            invariant
                q <= contents@.len(),
                forall|r: int|
                    0 <= r < contents@.len() ==> (#[trigger] contents@[r])@.len() == chunk_size,
                joined@.len() == q * chunk_size,
                forall|r: int, j: int|
                    0 <= r < q && 0 <= j < chunk_size ==> joined@[r * chunk_size + j]
                        == #[trigger] contents@[r]@[j],
            decreases contents@.len() - q,
        {
            let ghost before = joined@;
            append_bytes(&mut joined, contents[q].as_slice());
            proof {
                assert((q + 1) * chunk_size == q * chunk_size + chunk_size) by (nonlinear_arith);
                assert forall|r: int, j: int| 0 <= r < q + 1 && 0 <= j < chunk_size implies joined@[r
                    * chunk_size + j] == #[trigger] contents@[r]@[j] by {
                    if r < q {
                        lemma_position_in_bounds(q as int, chunk_size as int, r, j);
                        assert(before[r * chunk_size + j] == contents@[r]@[j]);
                    }
                }
            }
            q += 1;
        }
        joined
    }

    /// The bytes of a matrix over the field, row by row.
    pub fn matrix_bytes(m: &Matrix<Gf8>) -> (bytes: Vec<u8>)
        requires
            m.wf(),
        ensures
            bytes@ == flattened(m@, m.rows as int, m.columns as int),
    {
        let count = m.elements.len();
        let mut bytes: Vec<u8> = Vec::with_capacity(count);
        let mut p: usize = 0;
        while p < count
            invariant
                p <= count,
                count == m.elements@.len(),
                bytes@.len() == p,
                forall|q: int| 0 <= q < p ==> #[trigger] bytes@[q] == m.elements@[q].0,
            decreases count - p,
        {
            bytes.push(m.elements[p].0);
            p += 1;
        }
        proof {
            let (rows, columns) = (m.rows as int, m.columns as int);
            let flat = flattened(m@, rows, columns);
            assert forall|q: int| 0 <= q < rows * columns implies bytes@[q] == flat[q] by {
                lemma_cell_of_position(rows, columns, q);
                vstd::arithmetic::div_mod::lemma_fundamental_div_mod(q, columns);
                assert(columns * (q / columns) == (q / columns) * columns) by (nonlinear_arith);
            }
            assert(bytes@ =~= flat);
        }
        bytes
    }

    /// Recovers the block `b` from the first `data_shards` shards that hold a chunk
    /// for it that is whole and has its checksum. Where these are the data shards,
    /// their chunks are the block; otherwise the block is solved for with the
    /// inverse of their rows of the encoding matrix. `None` where too few shards
    /// are usable.
    pub fn recover_block(&self, shards: &[Option<Vec<u8>>], b: usize) -> (block: Option<Vec<u8>>)
        requires
            self.wf(),
            shards@.len() == self.shards(),
        ensures
            match block {
                Some(bytes) => recovered_block(
                    self.encoding@,
                    streams_of(shards@),
                    b as int,
                    self.data_shards as int,
                    self.chunk_size as int,
                ) == Some(bytes@),
                None => recovered_block(
                    self.encoding@,
                    streams_of(shards@),
                    b as int,
                    self.data_shards as int,
                    self.chunk_size as int,
                ).is_none(),
            },
    {
        let ghost e = self.encoding@;
        let ghost streams = streams_of(shards@);
        let ghost k = self.data_shards as int;
        let ghost size = self.chunk_size as int;
        let count = shards.len();
        proof {
            self.lemma_sizes();
            lemma_streams_fit(shards@);
        }
        let offset = match self.chunk_position(b) {
            Some(offset) => offset,
            None => {
                proof {
                    assert((b + 1) * (CHECKSUM_SIZE + size) >= b * (CHECKSUM_SIZE + size))
                        by (nonlinear_arith)
                        requires
                            0 <= b,
                            0 <= size,
                    ;
                    lemma_block_out_of_reach(e, streams, b as int, k, size);
                }
                return None;
            },
        };
        let mut selection: Vec<usize> = Vec::with_capacity(self.data_shards);
        let mut contents: Vec<Vec<u8>> = Vec::with_capacity(self.data_shards);
        let ghost mut chosen: Seq<int> = Seq::empty();
        let mut i: usize = 0;
        while i < count && selection.len() < self.data_shards
            invariant
                i <= count,
                count == shards@.len(),
                streams == streams_of(shards@),
                size == self.chunk_size,
                offset == chunk_offset(b as int, size),
                selection@.len() == chosen.len(),
                contents@.len() == chosen.len(),
                chosen.len() <= self.data_shards,
                chosen == usable_before(streams, b as int, size, i as nat),
                forall|q: int| 0 <= q < chosen.len() ==> #[trigger] selection@[q] == chosen[q],
                forall|q: int|
                    0 <= q < chosen.len() ==> (#[trigger] contents@[q])@ == usable_content(
                        streams,
                        chosen[q],
                        b as int,
                        size,
                    ),
            decreases count - i,
        {
            match &shards[i] {
                Some(stream) => {
                    match read_chunk(stream.as_slice(), offset, self.chunk_size) {
                        Ok(content) => {
                            selection.push(i);
                            contents.push(content);
                            proof {
                                chosen = chosen.push(i as int);
                            }
                        },
                        Err(_) => {},
                    }
                },
                None => {},
            }
            i += 1;
        }
        if selection.len() < self.data_shards {
            return None;
        }
        proof {
            lemma_usable_before_grows(streams, b as int, size, i as nat, count as nat);
            lemma_usable_before(streams, b as int, size, i as nat);
            assert(chosen_shards(streams, b as int, k, size) == Some(chosen));
            assert(is_selection(chosen, count as nat));
            assert forall|q: int| 0 <= q < contents@.len() implies (#[trigger] contents@[q])@.len()
                == self.chunk_size by {
                assert(is_usable(streams, chosen[q], b as int, size));
            }
        }
        let joined = Self::join_chunks(&contents, self.chunk_size);
        let ghost rows = selected_rows(e, chosen);
        let ghost chunks = chunk_matrix(streams, chosen, b as int, size);
        proof {
            assert(block_matrix(joined@, k, size) =~= chunks) by {
                assert forall|q: int| 0 <= q < k implies #[trigger] block_matrix(joined@, k, size)[q]
                    =~= chunks[q] by {
                    assert forall|j: int| 0 <= j < size implies block_matrix(joined@, k, size)[q][j]
                        == chunks[q][j] by {
                        assert(joined@[q * size + j] == contents@[q]@[j]);
                    }
                }
            }
            lemma_any_rows_suffice(e, byte_nodes((k + self.parity_shards) as nat), k as nat, chosen);
        }
        if selection[self.data_shards - 1] == self.data_shards - 1 {
            proof {
                assert forall|q: int| 0 <= q < k implies chosen[q] == q by {
                    lemma_rising_is_tight(chosen, q);
                }
                assert(rows =~= identity::<Gf8>(k as nat));
                lemma_identity_product(chunks, k as nat, size as nat);
                lemma_solution_is_unique(rows, chunks, chunks, k as nat, size as nat);
                lemma_flattened_block(joined@, k, size);
            }
            return Some(joined);
        }
        assert(self.data_shards * self.data_shards <= 65536) by (nonlinear_arith)
            requires
                self.data_shards <= 256,
        ;
        let matrix = self.encoding.select_rows(&selection);
        proof {
            assert(matrix@ =~= rows);
        }
        // any `data_shards` rows of the encoding matrix have an inverse
        let inverted = matrix.invert();
        assert(inverted.is_some());
        let inverse = inverted.unwrap();
        let received = Self::block_to_matrix(joined.as_slice(), self.data_shards, self.chunk_size);
        let data = inverse.multiply(&received);
        proof {
            lemma_inverse_solves(rows, inverse@, chunks, k as nat, size as nat);
            lemma_solution_is_unique(rows, data@, chunks, k as nat, size as nat);
        }
        Some(Self::matrix_bytes(&data))
    }

    /// Recovers the blocks from `from` up to, not including, `to`, one after the
    /// other. `None` where one of them cannot be recovered.
    pub fn recover_blocks(&self, shards: &[Option<Vec<u8>>], from: usize, to: usize) -> (blocks:
        Option<Vec<u8>>)
        requires
            self.wf(),
            shards@.len() == self.shards(),
            from <= to,
        ensures
            match blocks {
                Some(bytes) => recovered_blocks(
                    self.encoding@,
                    streams_of(shards@),
                    self.data_shards as int,
                    self.chunk_size as int,
                    from as int,
                    to as int,
                ) == Some(bytes@),
                None => recovered_blocks(
                    self.encoding@,
                    streams_of(shards@),
                    self.data_shards as int,
                    self.chunk_size as int,
                    from as int,
                    to as int,
                ).is_none(),
            },
    {
        let ghost e = self.encoding@;
        let ghost streams = streams_of(shards@);
        let ghost k = self.data_shards as int;
        let ghost size = self.chunk_size as int;
        let mut bytes: Vec<u8> = Vec::new();
        let mut b: usize = from;
        while b < to
            invariant
                from <= b <= to,
                self.wf(),
                shards@.len() == self.shards(),
                e == self.encoding@,
                streams == streams_of(shards@),
                k == self.data_shards,
                size == self.chunk_size,
                recovered_blocks(e, streams, k, size, from as int, b as int) == Some(bytes@),
            decreases to - b,
        {
            match self.recover_block(shards, b) {
                Some(block) => {
                    append_bytes(&mut bytes, block.as_slice());
                },
                None => {
                    proof {
                        lemma_recovered_blocks_fail(e, streams, k, size, from as int, b as int, to as int);
                    }
                    return None;
                },
            }
            b += 1;
        }
        Some(bytes)
    }

    /// Recovers the blocks that hold the length prefix, and reads the length of the
    /// payload from them.
    pub fn read_length(&self, shards: &[Option<Vec<u8>>]) -> (found: Option<(Vec<u8>, u64)>)
        requires
            self.wf(),
            shards@.len() == self.shards(),
        ensures
            match found {
                Some((head, length)) => {
                    &&& recovered_blocks(
                        self.encoding@,
                        streams_of(shards@),
                        self.data_shards as int,
                        self.chunk_size as int,
                        0,
                        block_count(0, self.block_size()),
                    ) == Some(head@)
                    &&& head@.len() == block_count(0, self.block_size()) * self.block_size()
                    &&& length == from_big_endian(head@.take(LENGTH_PREFIX_SIZE as int))
                },
                None => recovered_blocks(
                    self.encoding@,
                    streams_of(shards@),
                    self.data_shards as int,
                    self.chunk_size as int,
                    0,
                    block_count(0, self.block_size()),
                ).is_none(),
            },
    {
        proof {
            self.lemma_sizes();
            lemma_blocks_suffice(0, self.block_size(), block_count(0, self.block_size()));
            lemma_recovered_blocks_length(
                self.encoding@,
                streams_of(shards@),
                self.data_shards as int,
                self.chunk_size as int,
                0,
                block_count(0, self.block_size()),
            );
        }
        let block_size = self.data_shards * self.chunk_size;
        let head_blocks = (LENGTH_PREFIX_SIZE + block_size - 1) / block_size;
        match self.recover_blocks(shards, 0, head_blocks) {
            Some(head) => {
                let prefix = slice_subrange(head.as_slice(), 0, LENGTH_PREFIX_SIZE);
                let length = read_big_endian(prefix);
                Some((head, length))
            },
            None => None,
        }
    }

    /// Decodes the payload from the shards; `None` stands for a shard that is not
    /// there. Every block is recovered from the first `data_shards` shards that
    /// hold a chunk for it that is whole and has its checksum. Fails where some
    /// block has fewer.
    pub fn decode(&self, shards: &[Option<Vec<u8>>]) -> (payload: Result<Vec<u8>, Error>)
        requires
            self.wf(),
            shards@.len() == self.shards(),
        ensures
            match payload {
                Ok(bytes) => decoded(
                    self.encoding@,
                    streams_of(shards@),
                    self.data_shards as int,
                    self.chunk_size as int,
                ) == Ok::<Seq<u8>, Error>(bytes@),
                Err(error) => decoded(
                    self.encoding@,
                    streams_of(shards@),
                    self.data_shards as int,
                    self.chunk_size as int,
                ) == Err::<Seq<u8>, Error>(error),
            },
    {
        let ghost e = self.encoding@;
        let ghost streams = streams_of(shards@);
        let ghost k = self.data_shards as int;
        let ghost size = self.chunk_size as int;
        proof {
            self.lemma_sizes();
            lemma_streams_fit(shards@);
        }
        let block_size = self.data_shards * self.chunk_size;
        let head_blocks = (LENGTH_PREFIX_SIZE + block_size - 1) / block_size;
        let (mut framed, length) = match self.read_length(shards) {
            Some(found) => found,
            None => {
                return Err(Error::InsufficientShards);
            },
        };
        let wide: u128 = (length as u128 + LENGTH_PREFIX_SIZE as u128 + block_size as u128 - 1)
            / (block_size as u128);
        proof {
            lemma_blocks_suffice(length as int, block_size as int, wide as int);
            lemma_recovered_blocks_join(e, streams, k, size, 0, head_blocks as int, wide as int);
        }
        if wide > usize::MAX as u128 {
            proof {
                lemma_blocks_out_of_reach(e, streams, k, size, 0, wide as int);
            }
            return Err(Error::InsufficientShards);
        }
        let blocks = wide as usize;
        match self.recover_blocks(shards, head_blocks, blocks) {
            Some(rest) => {
                append_bytes(&mut framed, rest.as_slice());
                proof {
                    lemma_recovered_blocks_length(e, streams, k, size, 0, blocks as int);
                    assert(recovered_blocks(e, streams, k, size, 0, blocks as int) == Some(framed@));
                    assert((blocks - 0) * (k * size) == blocks * block_size) by (nonlinear_arith)
                        requires
                            block_size == k * size,
                    ;
                    assert(framed@.len() >= LENGTH_PREFIX_SIZE + length);
                    assert(framed.len() <= usize::MAX);
                }
                let part = slice_subrange(
                    framed.as_slice(),
                    LENGTH_PREFIX_SIZE,
                    LENGTH_PREFIX_SIZE + length as usize,
                );
                let mut bytes: Vec<u8> = Vec::with_capacity(length as usize);
                append_bytes(&mut bytes, part);
                proof {
                    assert(bytes@ =~= part@);
                }
                Ok(bytes)
            },
            None => Err(Error::InsufficientShards),
        }
    }

    /// Decodes the `length` bytes of the payload that start at `offset`, from the
    /// blocks that hold them and those that hold the length prefix. Fails where the
    /// range reaches beyond the payload, or where one of these blocks has fewer
    /// than `data_shards` usable shards.
    pub fn decode_at(&self, shards: &[Option<Vec<u8>>], offset: usize, length: usize) -> (payload:
        Result<Vec<u8>, Error>)
        requires
            self.wf(),
            shards@.len() == self.shards(),
        ensures
            match payload {
                Ok(bytes) => decoded_at(
                    self.encoding@,
                    streams_of(shards@),
                    self.data_shards as int,
                    self.chunk_size as int,
                    offset as int,
                    length as int,
                ) == Ok::<Seq<u8>, Error>(bytes@),
                Err(error) => decoded_at(
                    self.encoding@,
                    streams_of(shards@),
                    self.data_shards as int,
                    self.chunk_size as int,
                    offset as int,
                    length as int,
                ) == Err::<Seq<u8>, Error>(error),
            },
    {
        let ghost e = self.encoding@;
        let ghost streams = streams_of(shards@);
        let ghost k = self.data_shards as int;
        let ghost size = self.chunk_size as int;
        proof {
            self.lemma_sizes();
            lemma_streams_fit(shards@);
        }
        let block_size = self.data_shards * self.chunk_size;
        let total = match self.read_length(shards) {
            Some((_, total)) => total,
            None => {
                return Err(Error::InsufficientShards);
            },
        };
        if offset as u128 + length as u128 > total as u128 {
            return Err(Error::RangeOutOfBounds);
        }
        if length == 0 {
            return Ok(Vec::new());
        }
        let start: u128 = LENGTH_PREFIX_SIZE as u128 + offset as u128;
        let first_wide: u128 = start / (block_size as u128);
        let last_wide: u128 = (start + length as u128 - 1) / (block_size as u128);
        let skip_wide: u128 = start % (block_size as u128);
        proof {
            lemma_window(start as int, length as int, block_size as int);
        }
        if last_wide >= usize::MAX as u128 {
            proof {
                lemma_blocks_out_of_reach(e, streams, k, size, first_wide as int, last_wide + 1);
            }
            return Err(Error::InsufficientShards);
        }
        let first = first_wide as usize;
        let last = last_wide as usize;
        let skip = skip_wide as usize;
        match self.recover_blocks(shards, first, last + 1) {
            Some(window) => {
                proof {
                    lemma_recovered_blocks_length(e, streams, k, size, first as int, last + 1);
                    assert((last + 1 - first) * (k * size) == (last + 1 - first) * block_size)
                        by (nonlinear_arith)
                        requires
                            block_size == k * size,
                    ;
                    assert(skip + length <= window@.len());
                    assert(window.len() <= usize::MAX);
                }
                let part = slice_subrange(window.as_slice(), skip, skip + length);
                let mut bytes: Vec<u8> = Vec::with_capacity(length);
                append_bytes(&mut bytes, part);
                proof {
                    assert(bytes@ =~= part@);
                }
                Ok(bytes)
            },
            None => Err(Error::InsufficientShards),
        }
    }

    /// Says of each shard what is wrong with its chunk for the block `b`, for
    /// diagnostics: a stream that ended early is told apart from content that fails
    /// its checksum, though decoding treats both as a chunk that cannot be used.
    pub fn block_diagnostics(&self, shards: &[Option<Vec<u8>>], b: usize) -> (report: Vec<
        Option<Result<(), ShardReadError>>,
    >)
        requires
            self.wf(),
        ensures
            report@.len() == shards@.len(),
            forall|i: int|
                0 <= i < shards@.len() ==> #[trigger] report@[i] == chunk_status(
                    streams_of(shards@),
                    i,
                    b as int,
                    self.chunk_size as int,
                ),
    {
        let ghost streams = streams_of(shards@);
        let ghost size = self.chunk_size as int;
        proof {
            lemma_streams_fit(shards@);
        }
        let offset = self.chunk_position(b);
        let mut report: Vec<Option<Result<(), ShardReadError>>> = Vec::with_capacity(shards.len());
        let mut i: usize = 0;
        while i < shards.len()
            invariant
                i <= shards@.len(),
                streams == streams_of(shards@),
                streams_fit(streams),
                size == self.chunk_size,
                match offset {
                    Some(offset) => offset == chunk_offset(b as int, size),
                    None => chunk_offset(b as int, size) > usize::MAX,
                },
                report@.len() == i,
                forall|q: int|
                    0 <= q < i ==> #[trigger] report@[q] == chunk_status(streams, q, b as int, size),
            decreases shards@.len() - i,
        {
            let status = match &shards[i] {
                None => None,
                Some(stream) => {
                    match offset {
                        Some(offset) => {
                            match read_chunk(stream.as_slice(), offset, self.chunk_size) {
                                Ok(_) => Some(Ok(())),
                                Err(error) => Some(Err(error)),
                            }
                        },
                        None => Some(Err(ShardReadError::Truncated)),
                    }
                },
            };
            proof {
                assert(streams[i as int] matches Some(stream) ==> stream.len() <= usize::MAX);
            }
            report.push(status);
            i += 1;
        }
        report
    }
}

} // verus!
