use truv_compression::error::DecodeError;
use truv_compression::huffman::{decode, encode};

fn roundtrip(data: &[u8]) -> Vec<u8> {
    let enc = encode(data);
    assert_eq!(decode(&enc, data.len()).unwrap(), data);
    enc
}

#[test]
fn encode_empty_is_empty() {
    assert!(encode(&[]).is_empty());
    assert_eq!(decode(&[], 0), Ok(Vec::new()));
}

#[test]
fn encode_text_roundtrip() {
    roundtrip(b"hello world, hello huffman");
}

#[test]
fn encode_single_symbol() {
    // one symbol: a tree of the symbol and a dummy leaf, one bit per byte
    let enc = roundtrip(b"aaaaaaaa");
    // tree: 0, 1 + 'a', 1 + 0x00 (19 bits), then 8 one-bit codes: 27 bits
    assert_eq!(enc.len(), 4);
}

#[test]
fn encode_only_zero_bytes() {
    roundtrip(&[0u8; 17]);
}

#[test]
fn encode_all_byte_values() {
    let data: Vec<u8> = (0..=255u8).chain(0..=255u8).collect();
    roundtrip(&data);
}

#[test]
fn encode_skewed_frequencies_compress() {
    let mut data = vec![b'x'; 1000];
    data.extend_from_slice(b"yz");
    let enc = roundtrip(&data);
    assert!(enc.len() < 200);
}

#[test]
fn decode_truncated_stream_fails() {
    let enc = encode(b"abcdefghijklmnop");
    assert_eq!(decode(&enc[..enc.len() / 2], 16), Err(DecodeError::UnexpectedEof));
}

#[test]
fn decode_single_leaf_tree() {
    // a stored leaf tree: bit 1 then the byte 'q'; every symbol takes no bits
    let bits: u16 = 1 | ((b'q' as u16) << 1);
    let input = [(bits & 0xFF) as u8, (bits >> 8) as u8];
    assert_eq!(decode(&input, 3), Ok(b"qqq".to_vec()));
}

#[test]
fn decode_empty_input_fails() {
    assert_eq!(decode(&[], 1), Err(DecodeError::UnexpectedEof));
}

#[test]
fn encode_one_byte() {
    // tree of 'z' and the dummy leaf (19 bits) and one code bit
    let enc = roundtrip(b"z");
    assert_eq!(enc.len(), 3);
}

#[test]
fn encode_three_equal_bytes_exactly() {
    // tree 0, 1 + 5, 1 + 0x00, then three one-bit codes 0
    assert_eq!(encode(&[5, 5, 5]), vec![0x16, 0x04, 0x00]);
}

#[test]
fn encode_mixed_bytes_exactly() {
    // 8 and 3 are joined first, then joined with 0; codes 00, 01 and 1
    assert_eq!(encode(&[8, 0, 0, 0, 0, 3, 3]), vec![0x44, 0x38, 0x10, 0x80, 0x57]);
}

#[test]
fn encode_uses_the_shortest_code() {
    // weights 5, 2, 1, 1: the Huffman code takes 15 bits, a balanced code 18;
    // with the stored tree (39 bits) that is 54 bits, seven bytes, not eight
    let enc = roundtrip(b"aaaaabbcd");
    assert_eq!(enc.len(), 7);
}
