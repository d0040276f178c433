use parry::chunk::{read_chunk, write_chunk, ShardReadError};
use parry::unframer::Unframer;
use parry::{Error, ReedSolomonEncoder};
use rand::rngs::StdRng;
use rand::{Rng, SeedableRng};

fn seeded_payload(length: usize) -> Vec<u8> {
    let mut rng = StdRng::from_seed([42u8; 32]);
    let mut buffer = vec![0u8; length];
    rng.fill_bytes(&mut buffer);
    buffer
}

fn all_present(streams: &[Vec<u8>]) -> Vec<Option<Vec<u8>>> {
    streams.iter().map(|stream| Some(stream.clone())).collect()
}

#[test]
fn encode() {
    let buffer = seeded_payload(16 * 1024);

    let writers = ReedSolomonEncoder::new(4, 2, 1024)
        .unwrap()
        .encode(&buffer, 16 * 1024)
        .unwrap();

    assert_eq!(writers.len(), 6);
}

#[test]
fn encode_gives_five_chunks_to_each_of_six_shards() {
    let buffer = seeded_payload(16384);
    let streams = ReedSolomonEncoder::new(4, 2, 1024)
        .unwrap()
        .encode(&buffer, 16384)
        .unwrap();
    assert_eq!(streams.len(), 6);
    for stream in &streams {
        assert_eq!(stream.len(), 5 * 1024 + 16 * 5);
    }
}

#[test]
fn data_shards_hold_the_framed_payload() {
    let payload: Vec<u8> = (0u8..20).collect();
    let streams = ReedSolomonEncoder::new(2, 1, 4)
        .unwrap()
        .encode(&payload, 20)
        .unwrap();
    // 28 framed bytes in blocks of 8: four blocks, the last one padded
    assert_eq!(streams[0].len(), 4 * (16 + 4));
    assert_eq!(&streams[0][16..20], &[0, 0, 0, 0]);
    assert_eq!(&streams[1][16..20], &[0, 0, 0, 20]);
    assert_eq!(&streams[0][36..40], &[0, 1, 2, 3]);
    assert_eq!(&streams[1][36..40], &[4, 5, 6, 7]);
    assert_eq!(&streams[0][76..80], &[16, 17, 18, 19]);
    assert_eq!(&streams[1][76..80], &[0, 0, 0, 0]);
}

#[test]
fn parity_of_one_data_shard_repeats_it() {
    // with one data shard every row of the encoding matrix is [1]
    let payload = vec![7u8, 8, 9];
    let streams = ReedSolomonEncoder::new(1, 2, 11)
        .unwrap()
        .encode(&payload, 3)
        .unwrap();
    assert_eq!(streams[0], streams[1]);
    assert_eq!(streams[0], streams[2]);
}

#[test]
fn decode_returns_the_payload_when_all_shards_survive() {
    let buffer = seeded_payload(16384);
    let encoder = ReedSolomonEncoder::new(4, 2, 1024).unwrap();
    let streams = encoder.encode(&buffer, 16384).unwrap();
    assert_eq!(encoder.decode(&all_present(&streams)), Ok(buffer));
}

#[test]
fn decode_recovers_from_any_two_of_six_shards_deleted() {
    let buffer = seeded_payload(16384);
    let encoder = ReedSolomonEncoder::new(4, 2, 1024).unwrap();
    let streams = encoder.encode(&buffer, 16384).unwrap();
    for first in 0..6 {
        for second in first + 1..6 {
            let mut shards = all_present(&streams);
            shards[first] = None;
            shards[second] = None;
            assert_eq!(encoder.decode(&shards), Ok(buffer.clone()));
        }
    }
}

#[test]
fn decode_recovers_from_corrupted_and_truncated_shards() {
    let buffer = seeded_payload(1000);
    let encoder = ReedSolomonEncoder::new(3, 2, 64).unwrap();
    let streams = encoder.encode(&buffer, 1000).unwrap();
    let mut shards = all_present(&streams);
    // one bit of one chunk's content, and the tail of another shard
    shards[0].as_mut().unwrap()[16 + 5] ^= 0x10;
    let shorter = shards[3].as_ref().unwrap().len() - 1;
    shards[3].as_mut().unwrap().truncate(shorter);
    assert_eq!(encoder.decode(&shards), Ok(buffer));
}

#[test]
fn decode_fails_with_too_few_shards() {
    let buffer = seeded_payload(300);
    let encoder = ReedSolomonEncoder::new(4, 2, 16).unwrap();
    let streams = encoder.encode(&buffer, 300).unwrap();
    let mut shards = all_present(&streams);
    shards[1] = None;
    shards[2] = None;
    shards[5] = None;
    assert_eq!(encoder.decode(&shards), Err(Error::InsufficientShards));
    assert_eq!(encoder.decode_at(&shards, 0, 1), Err(Error::InsufficientShards));
}

#[test]
fn decode_round_trips_for_small_configurations() {
    for data_shards in 1..5usize {
        for parity_shards in 0..3usize {
            for chunk_size in [1usize, 2, 3, 8, 9] {
                for length in [0usize, 1, 7, 8, 9, 31, 64] {
                    let payload = seeded_payload(length);
                    let encoder =
                        ReedSolomonEncoder::new(data_shards, parity_shards, chunk_size).unwrap();
                    let streams = encoder.encode(&payload, length).unwrap();
                    let block_size = data_shards * chunk_size;
                    let blocks = (length + 8 + block_size - 1) / block_size;
                    for stream in &streams {
                        assert_eq!(stream.len(), blocks * (16 + chunk_size));
                    }
                    assert_eq!(encoder.decode(&all_present(&streams)), Ok(payload.clone()));
                    if parity_shards > 0 {
                        let mut shards = all_present(&streams);
                        for lost in 0..parity_shards {
                            shards[lost] = None;
                        }
                        assert_eq!(encoder.decode(&shards), Ok(payload));
                    }
                }
            }
        }
    }
}

#[test]
fn decode_of_an_empty_payload_is_empty() {
    let encoder = ReedSolomonEncoder::new(4, 2, 1024).unwrap();
    let streams = encoder.encode(&[], 0).unwrap();
    assert_eq!(streams[0].len(), 1024 + 16);
    assert_eq!(encoder.decode(&all_present(&streams)), Ok(vec![]));
}

#[test]
fn encode_reads_only_the_declared_length() {
    let encoder = ReedSolomonEncoder::new(2, 1, 8).unwrap();
    let longer = encoder.encode(&[1, 2, 3, 4, 5], 3).unwrap();
    let exact = encoder.encode(&[1, 2, 3], 3).unwrap();
    assert_eq!(longer, exact);
}

#[test]
fn encode_fails_on_a_payload_shorter_than_declared() {
    let encoder = ReedSolomonEncoder::new(2, 1, 8).unwrap();
    assert_eq!(encoder.encode(&[1, 2, 3], 4), Err(Error::Truncated));
}

#[test]
fn new_rejects_invalid_configurations() {
    assert!(matches!(
        ReedSolomonEncoder::new(0, 2, 16),
        Err(Error::ConfigurationError)
    ));
    assert!(matches!(
        ReedSolomonEncoder::new(200, 57, 16),
        Err(Error::ConfigurationError)
    ));
    assert!(matches!(
        ReedSolomonEncoder::new(4, 2, 0),
        Err(Error::ConfigurationError)
    ));
    assert!(ReedSolomonEncoder::new(200, 56, 16).is_ok());
    assert!(ReedSolomonEncoder::new(1, 0, 1).is_ok());
}

#[test]
fn decode_at_is_a_slice_of_decode() {
    let buffer = seeded_payload(5000);
    let encoder = ReedSolomonEncoder::new(4, 2, 64).unwrap();
    let streams = encoder.encode(&buffer, 5000).unwrap();
    let mut shards = all_present(&streams);
    shards[2] = None;
    let whole = encoder.decode(&shards).unwrap();
    for (offset, length) in [
        (0usize, 0usize),
        (0, 1),
        (0, 248),
        (0, 249),
        (247, 2),
        (248, 256),
        (100, 1000),
        (4999, 1),
        (5000, 0),
        (0, 5000),
    ] {
        assert_eq!(
            encoder.decode_at(&shards, offset, length),
            Ok(whole[offset..offset + length].to_vec())
        );
    }
}

#[test]
fn decode_at_rejects_a_range_beyond_the_payload() {
    let buffer = seeded_payload(100);
    let encoder = ReedSolomonEncoder::new(4, 2, 8).unwrap();
    let shards = all_present(&encoder.encode(&buffer, 100).unwrap());
    assert_eq!(encoder.decode_at(&shards, 99, 2), Err(Error::RangeOutOfBounds));
    assert_eq!(encoder.decode_at(&shards, 101, 0), Err(Error::RangeOutOfBounds));
    assert_eq!(encoder.decode_at(&shards, usize::MAX, usize::MAX), Err(Error::RangeOutOfBounds));
}

#[test]
fn decode_at_reads_only_the_blocks_of_the_range() {
    let buffer = seeded_payload(1000);
    let encoder = ReedSolomonEncoder::new(2, 1, 16).unwrap();
    let streams = encoder.encode(&buffer, 1000).unwrap();
    let mut shards = all_present(&streams);
    // ruin the chunks of the block 10 on two shards: that block is lost
    shards[0].as_mut().unwrap()[10 * 32 + 20] ^= 1;
    shards[1].as_mut().unwrap()[10 * 32 + 20] ^= 1;
    assert_eq!(encoder.decode(&shards), Err(Error::InsufficientShards));
    assert_eq!(encoder.decode_at(&shards, 0, 100), Ok(buffer[0..100].to_vec()));
    assert_eq!(
        encoder.decode_at(&shards, 312, 1),
        Err(Error::InsufficientShards)
    );
}

#[test]
fn chunk_round_trips_through_its_frame() {
    let mut stream = vec![9u8, 9, 9];
    write_chunk(&mut stream, &[1, 2, 3, 4]);
    assert_eq!(stream.len(), 3 + 16 + 4);
    assert_eq!(&stream[19..], &[1, 2, 3, 4]);
    assert_eq!(read_chunk(&stream, 3, 4), Ok(vec![1, 2, 3, 4]));
}

#[test]
fn chunk_checksum_is_the_big_endian_xxh3_128() {
    let mut stream = Vec::new();
    write_chunk(&mut stream, b"parity");
    let hash = xxhash_rust::xxh3::xxh3_128(b"parity");
    assert_eq!(&stream[..16], &hash.to_be_bytes());
}

#[test]
fn any_flipped_bit_of_the_content_fails_the_checksum() {
    let content: Vec<u8> = (0u8..32).collect();
    let mut stream = Vec::new();
    write_chunk(&mut stream, &content);
    for position in 16..stream.len() {
        for bit in 0..8 {
            let mut damaged = stream.clone();
            damaged[position] ^= 1 << bit;
            assert_eq!(
                read_chunk(&damaged, 0, 32),
                Err(ShardReadError::ChecksumValidationFailure)
            );
        }
    }
}

#[test]
fn a_short_stream_is_truncated_not_corrupt() {
    let mut stream = Vec::new();
    write_chunk(&mut stream, &[5u8; 10]);
    assert_eq!(read_chunk(&stream[..25], 0, 10), Err(ShardReadError::Truncated));
    assert_eq!(read_chunk(&stream, 1, 10), Err(ShardReadError::Truncated));
    assert_eq!(read_chunk(&stream, usize::MAX, 10), Err(ShardReadError::Truncated));
    assert_eq!(read_chunk(&[], 0, 0), Err(ShardReadError::Truncated));
}

#[test]
fn block_diagnostics_tell_truncation_from_corruption() {
    let buffer = seeded_payload(100);
    let encoder = ReedSolomonEncoder::new(2, 2, 16).unwrap();
    let mut shards = all_present(&encoder.encode(&buffer, 100).unwrap());
    shards[0] = None;
    shards[1].as_mut().unwrap()[32 + 16] ^= 0x80;
    shards[2].as_mut().unwrap().truncate(40);
    assert_eq!(
        encoder.block_diagnostics(&shards, 0),
        vec![None, Some(Ok(())), Some(Ok(())), Some(Ok(()))]
    );
    assert_eq!(
        encoder.block_diagnostics(&shards, 1),
        vec![
            None,
            Some(Err(ShardReadError::ChecksumValidationFailure)),
            Some(Err(ShardReadError::Truncated)),
            Some(Ok(()))
        ]
    );
    assert_eq!(
        encoder.block_diagnostics(&shards, usize::MAX),
        vec![
            None,
            Some(Err(ShardReadError::Truncated)),
            Some(Err(ShardReadError::Truncated)),
            Some(Err(ShardReadError::Truncated))
        ]
    );
}

#[test]
fn recover_block_prefers_the_data_shards() {
    let buffer = seeded_payload(50);
    let encoder = ReedSolomonEncoder::new(3, 2, 8).unwrap();
    let streams = encoder.encode(&buffer, 50).unwrap();
    let (start, end) = encoder.payload_part(50, 1);
    let block = encoder.frame_block(&buffer[start..end], 50, 1);
    assert_eq!(encoder.recover_block(&all_present(&streams), 1), Some(block.clone()));
    let mut shards = all_present(&streams);
    shards[0] = None;
    shards[2] = None;
    assert_eq!(encoder.recover_block(&shards, 1), Some(block));
    shards[4] = None;
    assert_eq!(encoder.recover_block(&shards, 1), None);
}

#[test]
fn frame_block_holds_prefix_payload_and_padding() {
    let encoder = ReedSolomonEncoder::new(2, 1, 3).unwrap();
    let payload = [10u8, 11, 12, 13, 14];
    // 13 framed bytes in blocks of 6
    assert_eq!(encoder.blocks(5), 3);
    assert_eq!(encoder.payload_part(5, 0), (0, 0));
    assert_eq!(encoder.payload_part(5, 1), (0, 4));
    assert_eq!(encoder.payload_part(5, 2), (4, 5));
    assert_eq!(encoder.frame_block(&[], 5, 0), vec![0, 0, 0, 0, 0, 0]);
    assert_eq!(encoder.frame_block(&payload[0..4], 5, 1), vec![0, 5, 10, 11, 12, 13]);
    assert_eq!(encoder.frame_block(&payload[4..5], 5, 2), vec![14, 0, 0, 0, 0, 0]);
}

#[test]
fn blocks_is_the_framed_length_over_the_block_size_rounded_up() {
    let encoder = ReedSolomonEncoder::new(4, 2, 1024).unwrap();
    assert_eq!(encoder.blocks(0), 1);
    assert_eq!(encoder.blocks(4088), 1);
    assert_eq!(encoder.blocks(4089), 2);
    assert_eq!(encoder.blocks(16384), 5);
    let tiny = ReedSolomonEncoder::new(1, 0, 1).unwrap();
    assert_eq!(tiny.blocks(0), 8);
    assert_eq!(tiny.blocks(3), 11);
}

#[test]
fn chunks_lie_one_frame_apart() {
    let encoder = ReedSolomonEncoder::new(4, 2, 1024).unwrap();
    assert_eq!(encoder.frame_size(), 1040);
    assert_eq!(encoder.chunk_position(0), Some(0));
    assert_eq!(encoder.chunk_position(3), Some(3120));
    assert_eq!(encoder.chunk_position(usize::MAX), None);
}

#[test]
fn encoding_block_by_block_gives_the_streams_of_encode() {
    let payload = seeded_payload(777);
    let encoder = ReedSolomonEncoder::new(3, 2, 50).unwrap();
    let mut streams = vec![Vec::new(); 5];
    for b in 0..encoder.blocks(777) {
        let (start, end) = encoder.payload_part(777, b);
        let block = encoder.frame_block(&payload[start..end], 777, b);
        for (stream, chunk) in streams.iter_mut().zip(encoder.encode_block(&block)) {
            write_chunk(stream, &chunk);
        }
    }
    assert_eq!(streams, encoder.encode(&payload, 777).unwrap());
}

#[test]
fn decoding_block_by_block_gives_the_payload_of_decode() {
    for length in [0usize, 1, 5, 141, 142, 143, 777] {
        let payload = seeded_payload(length);
        let encoder = ReedSolomonEncoder::new(3, 2, 50).unwrap();
        let mut shards = all_present(&encoder.encode(&payload, length).unwrap());
        shards[1] = None;
        shards[4] = None;
        let mut unframer = Unframer::new();
        let mut decoded = Vec::new();
        let mut b = 0;
        while !unframer.is_complete() {
            // hand over one frame of each shard, as a stream of its own
            let position = encoder.chunk_position(b).unwrap();
            let frames: Vec<Option<Vec<u8>>> = shards
                .iter()
                .map(|shard| {
                    shard
                        .as_ref()
                        .map(|stream| stream[position..position + encoder.frame_size()].to_vec())
                })
                .collect();
            let block = encoder.recover_block(&frames, 0).unwrap();
            decoded.extend(unframer.accept(&block));
            b += 1;
        }
        assert_eq!(b, encoder.blocks(length));
        assert_eq!(decoded, payload);
        assert_eq!(encoder.decode(&shards), Ok(payload));
    }
}

#[test]
fn unframer_takes_bytes_in_any_portions() {
    let mut framed = vec![0u8, 0, 0, 0, 0, 0, 0, 3, 7, 8, 9, 0, 0, 0];
    framed.extend([0u8; 10]);
    for portion in 1..framed.len() {
        let mut unframer = Unframer::new();
        let mut payload = Vec::new();
        let mut complete_after = None;
        for (count, bytes) in framed.chunks(portion).enumerate() {
            payload.extend(unframer.accept(bytes));
            if unframer.is_complete() && complete_after.is_none() {
                complete_after = Some((count + 1) * portion);
            }
        }
        assert_eq!(payload, vec![7, 8, 9]);
        // complete with the portion that brings the eleventh byte
        assert_eq!(complete_after, Some((11 + portion - 1) / portion * portion));
    }
}

#[test]
fn unframer_of_an_empty_payload_is_complete_with_the_prefix() {
    let mut unframer = Unframer::new();
    assert!(!unframer.is_complete());
    assert_eq!(unframer.accept(&[0, 0, 0, 0, 0, 0, 0]), Vec::<u8>::new());
    assert!(!unframer.is_complete());
    assert_eq!(unframer.accept(&[0, 1, 2]), Vec::<u8>::new());
    assert!(unframer.is_complete());
}

#[test]
fn encode_block_gives_data_chunks_then_parity_chunks() {
    let encoder = ReedSolomonEncoder::new(4, 2, 2).unwrap();
    let chunks = encoder.encode_block(&[1, 0, 0, 0, 0, 0, 0, 0]);
    assert_eq!(
        chunks,
        vec![
            vec![1, 0],
            vec![0, 0],
            vec![0, 0],
            vec![0, 0],
            vec![0x1b, 0],
            vec![0x1c, 0]
        ]
    );
}

#[test]
fn length_prefix_is_big_endian() {
    let payload = vec![0u8; 0x0102];
    let encoder = ReedSolomonEncoder::new(1, 0, 8).unwrap();
    let streams = encoder.encode(&payload, 0x0102).unwrap();
    assert_eq!(&streams[0][16..24], &[0, 0, 0, 0, 0, 0, 1, 2]);
}
