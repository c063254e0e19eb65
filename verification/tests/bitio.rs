use truv_compression::error::DecodeError;
use truv_compression::code::HuffmanNode;
use truv_compression::huffman::{deserialize_tree, serialize_tree, BitReader, BitWriter};

#[test]
fn write_bits_packs_least_significant_bit_first() {
    let mut w = BitWriter::new(Vec::new());
    w.write_bits(0b101, 3);
    w.write_bits(0xFF, 8);
    w.flush();
    assert_eq!(w.into_inner(), vec![0b1111_1101, 0b0000_0111]);
}

#[test]
fn write_bits_masks_high_bits() {
    let mut w = BitWriter::new(Vec::new());
    w.write_bits(0xFFFF_FFF0, 4);
    w.flush();
    assert_eq!(w.into_inner(), vec![0x00]);
}

#[test]
fn write_bits_full_word() {
    let mut w = BitWriter::new(Vec::new());
    w.write_bits(0xDEAD_BEEF, 32);
    w.flush();
    assert_eq!(w.into_inner(), vec![0xEF, 0xBE, 0xAD, 0xDE]);
}

#[test]
fn write_bit_and_bytes() {
    let mut w = BitWriter::new(Vec::new());
    w.write_bit(true);
    w.write_bytes(&[0x80, 0x01]);
    w.flush();
    // bits: 1, then 0x80 = 0000 0001 (lsb first), then 0x01 = 1000 0000
    assert_eq!(w.into_inner(), vec![0x01, 0x03, 0x00]);
}

#[test]
fn flush_without_pending_bits_writes_nothing() {
    let mut w = BitWriter::new(vec![7]);
    w.write_bits(0xAB, 8);
    w.flush();
    assert_eq!(w.into_inner(), vec![7, 0xAB]);
}

#[test]
fn read_bit_in_order_then_eof() {
    let data = [0b1011_0010u8];
    let mut r = BitReader::new(&data);
    let mut bits = Vec::new();
    for _ in 0..8 {
        bits.push(r.read_bit().unwrap());
    }
    assert_eq!(bits, vec![false, true, false, false, true, true, false, true]);
    assert_eq!(r.read_bit(), Err(DecodeError::UnexpectedEof));
}

#[test]
fn read_bytes_after_a_bit() {
    let data = [0x01u8, 0x03, 0x00];
    let mut r = BitReader::new(&data);
    assert_eq!(r.read_bit(), Ok(true));
    let mut out = [0u8; 2];
    assert_eq!(r.read_bytes(&mut out), Ok(()));
    assert_eq!(out, [0x80, 0x01]);
}

#[test]
fn read_bytes_fails_when_short() {
    let data = [0xFFu8];
    let mut r = BitReader::new(&data);
    let mut out = [0u8; 2];
    assert_eq!(r.read_bytes(&mut out), Err(DecodeError::UnexpectedEof));
    assert_eq!(r.read_bit(), Err(DecodeError::UnexpectedEof));
}

#[test]
fn written_bits_read_back() {
    let mut w = BitWriter::new(Vec::new());
    let values: [(u32, u8); 5] = [(5, 3), (0, 1), (1234, 11), (0xFFFF_FFFF, 32), (1, 2)];
    for (v, n) in values.iter() {
        w.write_bits(*v, *n);
    }
    w.flush();
    let bytes = w.into_inner();
    let mut r = BitReader::new(&bytes);
    for (v, n) in values.iter() {
        let mut got: u64 = 0;
        for i in 0..*n {
            if r.read_bit().unwrap() {
                got |= 1 << i;
            }
        }
        assert_eq!(got, *v as u64);
    }
}

#[test]
fn write_bytes_is_eight_bits_per_byte() {
    let mut a = BitWriter::new(Vec::new());
    a.write_bits(0b11, 2);
    a.write_bytes(&[0x5A, 0xC3]);
    a.flush();
    let mut b = BitWriter::new(Vec::new());
    b.write_bits(0b11, 2);
    b.write_bits(0x5A, 8);
    b.write_bits(0xC3, 8);
    b.flush();
    assert_eq!(a.into_inner(), b.into_inner());
}

#[test]
fn aligned_write_bytes_writes_them_out() {
    let mut w = BitWriter::new(vec![7]);
    w.write_bytes(&[1, 2, 3]);
    assert_eq!(w.into_inner(), vec![7, 1, 2, 3]);
}

#[test]
fn kth_read_is_bit_k() {
    let data = [0b1010_0110u8, 0x81];
    let mut r = BitReader::new(&data);
    for k in 0..16 {
        let expected = (data[k / 8] >> (k % 8)) & 1 == 1;
        assert_eq!(r.read_bit(), Ok(expected));
    }
    assert_eq!(r.read_bit(), Err(DecodeError::UnexpectedEof));
}

fn tree_bytes(t: &HuffmanNode) -> Vec<u8> {
    let mut w = BitWriter::new(Vec::new());
    serialize_tree(t, &mut w);
    w.flush();
    w.into_inner()
}

#[test]
fn stored_tree_reads_back() {
    let t = HuffmanNode::Internal(
        Box::new(HuffmanNode::Leaf(b'a')),
        Box::new(HuffmanNode::Internal(
            Box::new(HuffmanNode::Leaf(b'b')),
            Box::new(HuffmanNode::Leaf(b'c')),
        )),
    );
    let mut w = BitWriter::new(Vec::new());
    serialize_tree(&t, &mut w);
    w.write_bit(true);
    w.flush();
    let stored = w.into_inner();
    let mut r = BitReader::new(&stored);
    let back = deserialize_tree(&mut r).unwrap();
    assert_eq!(tree_bytes(&back), tree_bytes(&t));
    // three leaves take 29 bits; the next bit read is the one written after
    assert_eq!(r.read_bit(), Ok(true));
}
