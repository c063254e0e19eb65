use truv_compression::checksum::checksum;
use truv_compression::compress::{assemble_archive, compress, compress_single_block, finish_archive, BLOCK_SIZE};
use truv_compression::decompress::{decompress, decompress_single_block, join_blocks, split_archive, verify_checksum};
use truv_compression::error::DecodeError;
use truv_compression::header::FileHeader;
use truv_compression::huffman::encode;

fn mock_data() -> Vec<u8> {
    let mut v = Vec::new();
    for _ in 0..10_000 {
        v.extend_from_slice(b"ALGORITHM_TEST_DATA_PATTERN_");
    }
    v
}

fn pseudo_random(n: usize) -> Vec<u8> {
    let mut x: u32 = 12345;
    (0..n)
        .map(|_| {
            x = x.wrapping_mul(1103515245).wrapping_add(12345);
            (x >> 16) as u8
        })
        .collect()
}

#[test]
fn compress_roundtrip_mock_data() {
    let data = mock_data();
    let archive = compress(&data);
    assert!(archive.len() < data.len() / 10);
    assert_eq!(decompress(&archive), Ok(data));
}

#[test]
fn compress_roundtrip_empty() {
    let archive = compress(&[]);
    // header and a block count of zero
    assert_eq!(archive.len(), 22);
    assert_eq!(&archive[18..22], &[0, 0, 0, 0]);
    assert_eq!(decompress(&archive), Ok(Vec::new()));
}

#[test]
fn compress_roundtrip_random_multi_block() {
    let data = pseudo_random(BLOCK_SIZE + 1000);
    let archive = compress(&data);
    assert_eq!(&archive[18..22], &[0, 0, 0, 2]);
    assert_eq!(decompress(&archive), Ok(data));
}

#[test]
fn compress_roundtrip_overlapping_matches() {
    let mut data = b"ab".to_vec();
    data.extend(std::iter::repeat(b'a').take(5000));
    data.extend_from_slice(b"xyzxyzxyzxyz");
    assert_eq!(decompress(&compress(&data)), Ok(data));
}

#[test]
fn compress_header_records_size_and_crc32() {
    let data = b"123456789";
    let archive = compress(data);
    let h = FileHeader::from_reader(&archive).unwrap();
    assert_eq!(h.version, 1);
    assert_eq!(h.original_size, 9);
    assert_eq!(h.checksum, 0xCBF4_3926);
}

#[test]
fn checksum_is_crc32() {
    assert_eq!(checksum(b"123456789"), 0xCBF4_3926);
    assert_eq!(checksum(b""), 0);
}

#[test]
fn decompress_detects_corruption() {
    let data = mock_data();
    let mut archive = compress(&data);
    archive[14] ^= 0x01;
    assert_eq!(decompress(&archive), Err(DecodeError::ChecksumMismatch));
}

#[test]
fn decompress_truncated_archive() {
    let archive = compress(b"some data to compress, some data to compress");
    assert_eq!(decompress(&archive[..archive.len() - 1]), Err(DecodeError::UnexpectedEof));
    assert_eq!(decompress(&archive[..20]), Err(DecodeError::UnexpectedEof));
}

#[test]
fn decompress_bad_magic() {
    let mut archive = compress(b"abc");
    archive[0] = b'X';
    assert_eq!(decompress(&archive), Err(DecodeError::InvalidMagic));
}

#[test]
fn decompress_block_too_short() {
    let header = FileHeader { version: 1, original_size: 3, checksum: 0 };
    let archive = assemble_archive(&header, &vec![vec![1, 2, 3]]);
    assert_eq!(decompress(&archive), Err(DecodeError::BlockTooShort));
}

#[test]
fn decompress_bad_match_distance() {
    // a token stream of one match, 5 back, while nothing is decoded yet
    let lz = [0x01u8, 0x00, 0x05, 0x03];
    let mut block = vec![0, 0, 0, 3, 0, 0, 0, 4];
    block.extend_from_slice(&encode(&lz));
    assert_eq!(decompress_single_block(&block), Err(DecodeError::BadMatchDistance(5)));
}

#[test]
fn decompress_zero_match_distance() {
    let lz = [0x02u8, b'a', 0x00, 0x00, 0x03];
    let mut block = vec![0, 0, 0, 4, 0, 0, 0, 5];
    block.extend_from_slice(&encode(&lz));
    assert_eq!(decompress_single_block(&block), Err(DecodeError::BadMatchDistance(0)));
}

#[test]
fn decompress_handwritten_block() {
    // literal 'a', literal 'b', then a match of 4 bytes, 2 back
    let lz = [0x04u8, b'a', b'b', 0x00, 0x02, 0x04];
    let mut block = vec![0, 0, 0, 6, 0, 0, 0, 6];
    block.extend_from_slice(&encode(&lz));
    assert_eq!(decompress_single_block(&block), Ok(b"ababab".to_vec()));
}

#[test]
fn decompress_block_missing_tokens() {
    let lz = [0x00u8, b'a'];
    let mut block = vec![0, 0, 0, 3, 0, 0, 0, 2];
    block.extend_from_slice(&encode(&lz));
    assert_eq!(decompress_single_block(&block), Err(DecodeError::UnexpectedEof));
}

#[test]
fn single_block_roundtrip() {
    let data = pseudo_random(3000);
    let block = compress_single_block(&data);
    assert_eq!(&block[0..4], &[0, 0, 0x0B, 0xB8]);
    assert_eq!(decompress_single_block(&block), Ok(data));
}

#[test]
fn single_block_empty_chunk() {
    let block = compress_single_block(&[]);
    assert_eq!(block, vec![0; 8]);
    assert_eq!(decompress_single_block(&block), Ok(Vec::new()));
}

#[test]
fn split_and_assemble_roundtrip() {
    let header = FileHeader { version: 3, original_size: 10, checksum: 77 };
    let blocks = vec![vec![1, 2, 3], vec![], vec![4; 300]];
    let archive = assemble_archive(&header, &blocks);
    assert_eq!(archive.len(), 18 + 4 + 12 + 303);
    assert_eq!(split_archive(&archive), Ok((header, blocks)));
}

#[test]
fn verify_checksum_accepts_and_rejects() {
    let header = FileHeader { version: 1, original_size: 2, checksum: 5 };
    assert_eq!(verify_checksum(&header, vec![1, 2], 5), Ok(vec![1, 2]));
    assert_eq!(verify_checksum(&header, vec![1, 2], 6), Err(DecodeError::ChecksumMismatch));
}

#[test]
fn compress_exactly_one_block() {
    let data = pseudo_random(BLOCK_SIZE);
    let archive = compress(&data);
    assert_eq!(&archive[18..22], &[0, 0, 0, 1]);
    let (_, blocks) = split_archive(&archive).unwrap();
    assert_eq!(blocks.len(), 1);
    assert_eq!(decompress_single_block(&blocks[0]), Ok(data));
}

#[test]
fn decompress_ignores_bytes_after_the_blocks() {
    let data = b"trailing bytes are not read".to_vec();
    let mut archive = compress(&data);
    archive.extend_from_slice(&[1, 2, 3]);
    assert_eq!(decompress(&archive), Ok(data));
}

#[test]
fn block_with_zero_length_reads_nothing() {
    assert_eq!(decompress_single_block(&[0, 0, 0, 0, 0, 0, 0, 0, 0xFF]), Ok(Vec::new()));
}

#[test]
fn block_token_stream_is_decoded_first() {
    // nothing to rebuild, but the announced token stream cannot be decoded
    assert_eq!(decompress_single_block(&[0, 0, 0, 0, 0, 0, 0, 9, 0xFF]), Err(DecodeError::UnexpectedEof));
}

#[test]
fn single_block_of_six_zero_bytes() {
    // three literals, then a match of three bytes at distance three
    let block = compress_single_block(&[0u8; 6]);
    assert_eq!(block, vec![0, 0, 0, 6, 0, 0, 0, 7, 0x44, 0x38, 0x10, 0x80, 0x57]);
}

#[test]
fn compress_empty_input_is_header_and_empty_index() {
    let archive = compress(&[]);
    let mut expected = b"TRUV".to_vec();
    expected.extend_from_slice(&[0, 1]);
    expected.extend_from_slice(&[0; 8]);
    expected.extend_from_slice(&[0; 4]);
    expected.extend_from_slice(&[0; 4]);
    assert_eq!(archive, expected);
    assert_eq!(archive.len(), 22);
}

#[test]
fn compress_six_zero_bytes_exactly() {
    let data = [0u8; 6];
    let archive = compress(&data);
    assert_eq!(archive.len(), 39);
    assert_eq!(&archive[0..6], b"TRUV\x00\x01");
    assert_eq!(&archive[6..14], &6u64.to_be_bytes());
    assert_eq!(&archive[14..18], &checksum(&data).to_be_bytes());
    assert_eq!(
        &archive[18..39],
        &[0, 0, 0, 1, 0, 0, 0, 13, 0, 0, 0, 6, 0, 0, 0, 7, 0x44, 0x38, 0x10, 0x80, 0x57]
    );
}

#[test]
fn compress_is_header_count_sizes_blocks() {
    let data = pseudo_random(BLOCK_SIZE + 500);
    let blocks = vec![
        compress_single_block(&data[..BLOCK_SIZE]),
        compress_single_block(&data[BLOCK_SIZE..]),
    ];
    assert_eq!(compress(&data), finish_archive(&data, &blocks));
    let header = FileHeader { version: 1, original_size: data.len() as u64, checksum: checksum(&data) };
    assert_eq!(compress(&data), assemble_archive(&header, &blocks));
}

#[test]
fn compress_twice_gives_the_same_bytes() {
    let data = mock_data();
    assert_eq!(compress(&data), compress(&data));
}

#[test]
fn every_proper_prefix_is_truncated() {
    let data = b"abcabcabcabc".to_vec();
    let archive = compress(&data);
    for k in 0..archive.len() {
        assert_eq!(decompress(&archive[..k]), Err(DecodeError::UnexpectedEof));
    }
}

#[test]
fn join_blocks_concatenates_and_checks() {
    let data = vec![1u8, 2, 3, 4, 5];
    let header = FileHeader { version: 1, original_size: 5, checksum: checksum(&data) };
    assert_eq!(join_blocks(&header, vec![vec![1, 2], vec![], vec![3, 4, 5]]), Ok(data));
    assert_eq!(
        join_blocks(&header, vec![vec![1, 2, 3, 4]]),
        Err(DecodeError::ChecksumMismatch)
    );
}
