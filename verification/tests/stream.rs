use cozy_syzygy::stream::{read_be32, read_be64, read_le16, read_le32, DataStream};

#[test]
fn reads_are_little_endian() {
    let bytes = [0x71, 0xE8, 0x23, 0x5D, 0x34, 0x12, 0xAB];
    let mut stream = DataStream::new(&bytes);
    assert_eq!(stream.read_u32(), 0x5D23E871);
    assert_eq!(stream.read_u16(), 0x1234);
    assert_eq!(stream.read_u8(), 0xAB);
    assert_eq!(stream.len(), 0);
    assert_eq!(stream.position(), 7);
}

#[test]
fn read_array_hands_out_the_next_bytes() {
    let bytes = [1u8, 2, 3, 4, 5];
    let mut stream = DataStream::new(&bytes);
    assert_eq!(stream.read_array(2), &[1, 2]);
    assert_eq!(stream.position(), 2);
    assert_eq!(stream.rest(), &[3, 4, 5]);
    assert_eq!(stream.read_array(0), &[] as &[u8]);
    assert_eq!(stream.read_array(3), &[3, 4, 5]);
    assert_eq!(stream.len(), 0);
}

#[test]
fn align_to_skips_to_the_next_multiple() {
    let bytes = [0u8; 200];
    let mut stream = DataStream::new(&bytes);
    stream.align_to(2);
    assert_eq!(stream.position(), 0);
    stream.read_u8();
    assert_eq!(stream.padding_to(2), 1);
    stream.align_to(2);
    assert_eq!(stream.position(), 2);
    stream.align_to(2);
    assert_eq!(stream.position(), 2);
    stream.read_array(3);
    assert_eq!(stream.padding_to(64), 59);
    stream.align_to(64);
    assert_eq!(stream.position(), 64);
    assert_eq!(stream.len(), 136);
    stream.read_u8();
    stream.align_to(64);
    assert_eq!(stream.position(), 128);
}

#[test]
fn readers_at_a_place_take_either_byte_order() {
    let bytes = [0xFF, 0x01, 0x02, 0x03, 0x04, 0x05, 0x06, 0x07, 0x08];
    assert_eq!(read_le16(&bytes, 1), 0x0201);
    assert_eq!(read_le32(&bytes, 1), 0x04030201);
    assert_eq!(read_be32(&bytes, 1), 0x01020304);
    assert_eq!(read_be64(&bytes, 1), 0x0102030405060708);
    assert_eq!(read_be64(&[0xFF; 8], 0), u64::MAX);
    assert_eq!(read_le32(&[0xFF; 4], 0), u32::MAX);
}
