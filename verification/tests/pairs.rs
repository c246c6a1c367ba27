use cozy_syzygy::pairs::{calculate_symlen, read_u24, PairsData, Sizes};
use cozy_syzygy::stream::DataStream;

/// The header of a stream with three symbols: 0 and 1 are the literals 0 and
/// 4 with the codes 00 and 01, and 2 is the pair of them with the code 1.
/// Blocks have 64 bytes, and the index has an entry for every 16 positions.
fn small_header() -> Vec<u8> {
    vec![
        0x00, 6, 4, 0, // flags, block size, index bits, extra blocks
        2, 0, 0, 0, // real blocks
        2, 1, // longest and shortest code
        2, 0, 0, 0, // first symbol of the codes of length 1 and 2
        3, 0, // symbols
        0x00, 0xF0, 0xFF, // literal 0
        0x04, 0xF0, 0xFF, // literal 4
        0x00, 0x10, 0x00, // the pair of the symbols 0 and 1
        0, // to an even place
    ]
}

/// A stream over 32 positions in two blocks of 17 and 18 values.
fn small_stream() -> PairsData {
    let header = small_header();
    let mut stream = DataStream::new(&header);
    let (mut pairs, sizes) = PairsData::create(&mut stream, 32, true).unwrap();
    assert_eq!(stream.len(), 0);
    assert_eq!(sizes.index_table_size, 12);
    assert_eq!(sizes.size_table_size, 4);
    assert_eq!(sizes.data_table_size, 128);
    let index_table = vec![0, 0, 0, 0, 8, 0, 1, 0, 0, 0, 7, 0];
    let size_table = vec![16, 0, 17, 0];
    let mut data = vec![0u8; 128];
    data[0] = 142;
    data[1] = 157;
    data[64] = 88;
    data[65] = 116;
    data[66] = 192;
    pairs.attach(index_table, size_table, data);
    pairs
}

const SMALL_VALUES: [u8; 32] = [
    0, 4, 0, 4, 0, 4, 0, 4, 4, 0, 0, 4, 0, 4, 0, 4, 4, 4, 4, 0, 4, 0, 0, 0, 4, 0, 4, 0, 4, 4, 0, 0,
];

#[test]
fn lookup_decodes_every_position_of_a_small_stream() {
    let pairs = small_stream();
    for (index, &expected) in SMALL_VALUES.iter().enumerate() {
        assert_eq!(pairs.lookup(index as u64), Some(expected), "position {index}");
    }
    // whatever is found is the byte of a literal symbol
    for index in 0..40u64 {
        if let Some(byte) = pairs.lookup(index) {
            assert!(byte == 0 || byte == 4);
        }
    }
}

#[test]
fn lookup_walks_back_and_forth_between_blocks() {
    let header = small_header();
    let mut stream = DataStream::new(&header);
    let (mut pairs, _) = PairsData::create(&mut stream, 32, true).unwrap();
    // the same stream, with index entries that do not point to the middle
    // of their stretch: the first to the start of block 1, so that half of
    // its positions lie in the block before, the second to the fifth value
    // from the end of block 0, so that most of its positions lie in the block behind
    let index_table = vec![1, 0, 0, 0, 0, 0, 0, 0, 0, 0, 23, 0];
    let size_table = vec![16, 0, 17, 0];
    let mut data = vec![0u8; 128];
    data[0] = 142;
    data[1] = 157;
    data[64] = 88;
    data[65] = 116;
    data[66] = 192;
    pairs.attach(index_table, size_table, data);
    // position p of the first stretch is value p + 9 of the whole, position
    // p of the second is value p - 1 of the whole
    for p in 0..16u64 {
        assert_eq!(pairs.lookup(p), Some(SMALL_VALUES[p as usize + 9]), "position {p}");
    }
    for p in 16..32u64 {
        assert_eq!(pairs.lookup(p), Some(SMALL_VALUES[p as usize - 1]), "position {p}");
    }
}

#[test]
fn lookup_gives_nothing_beyond_the_tables() {
    let pairs = small_stream();
    // no index entry
    assert_eq!(pairs.lookup(32), None);
    assert_eq!(pairs.lookup(u64::MAX), None);
    // no tables at all
    let header = small_header();
    let mut stream = DataStream::new(&header);
    let (pairs, _) = PairsData::create(&mut stream, 32, true).unwrap();
    assert_eq!(pairs.lookup(0), None);
    // an index entry that points behind the last block
    let mut stream = DataStream::new(&header);
    let (mut pairs, _) = PairsData::create(&mut stream, 32, true).unwrap();
    pairs.attach(vec![2, 0, 0, 0, 8, 0], vec![16, 0, 17, 0], vec![0u8; 128]);
    assert_eq!(pairs.lookup(0), None);
    // data that ends within the block
    let mut stream = DataStream::new(&header);
    let (mut pairs, _) = PairsData::create(&mut stream, 32, true).unwrap();
    pairs.attach(vec![0, 0, 0, 0, 8, 0], vec![16, 0], vec![142, 157, 0, 0, 0, 0, 0]);
    assert_eq!(pairs.lookup(0), None);
}

#[test]
fn a_constant_stream_stores_one_value() {
    let header = [0x80u8, 3, 99];
    let mut stream = DataStream::new(&header);
    let (pairs, sizes) = PairsData::create(&mut stream, 1000, true).unwrap();
    assert_eq!(stream.position(), 2);
    assert_eq!(
        (sizes.index_table_size, sizes.size_table_size, sizes.data_table_size),
        (0, 0, 0)
    );
    assert_eq!(pairs.lookup(0), Some(3));
    assert_eq!(pairs.lookup(999), Some(3));
    assert_eq!(pairs.lookup(u64::MAX), Some(3));
    // where the values are no outcomes, a constant stream stores 0
    let mut stream = DataStream::new(&header);
    let (pairs, _) = PairsData::create(&mut stream, 1000, false).unwrap();
    assert_eq!(pairs.lookup(5), Some(0));
}

#[test]
fn create_reports_the_sizes_of_the_tables() {
    // index bits 4: an entry of six bytes for every 16 positions, rounded up
    for (tb_size, entries) in [(1usize, 1usize), (16, 1), (17, 2), (32, 2), (33, 3), (1000, 63)] {
        let header = small_header();
        let mut stream = DataStream::new(&header);
        let (_, sizes) = PairsData::create(&mut stream, tb_size, true).unwrap();
        assert_eq!(sizes.index_table_size, 6 * entries);
    }
    // two bytes for each block, the extra ones among them; 2^6 bytes for each real block
    let mut header = small_header();
    header[3] = 5;
    header[4] = 3;
    let mut stream = DataStream::new(&header);
    let (_, sizes) = PairsData::create(&mut stream, 32, true).unwrap();
    assert_eq!(sizes.size_table_size, 2 * 8);
    assert_eq!(sizes.data_table_size, 64 * 3);
}

#[test]
fn create_ends_at_an_even_place() {
    let mut bytes = vec![0xAA];
    bytes.extend(small_header());
    // one byte was read before the header: its 25 bytes end at an even place
    let mut stream = DataStream::new(&bytes);
    stream.read_u8();
    assert!(PairsData::create(&mut stream, 32, true).is_some());
    assert_eq!(stream.position(), 26);
    assert_eq!(stream.len(), 1);
}

#[test]
fn create_refuses_a_header_that_ends_early() {
    let header = small_header();
    for len in 0..header.len() {
        let mut stream = DataStream::new(&header[..len]);
        assert!(PairsData::create(&mut stream, 32, true).is_none(), "length {len}");
        assert_eq!(stream.position(), 0);
    }
    let mut stream = DataStream::new(&[0x80]);
    assert!(PairsData::create(&mut stream, 32, true).is_none());
}

#[test]
fn create_refuses_a_header_that_contradicts_itself() {
    let ok = small_header();
    let broken = |at: usize, value: u8| {
        let mut header = ok.clone();
        header[at] = value;
        let mut stream = DataStream::new(&header);
        PairsData::create(&mut stream, 32, true).is_none()
    };
    assert!(!broken(1, 6));
    assert!(broken(1, 64)); // a block size beyond 63
    assert!(broken(2, 0)); // no index bits
    assert!(broken(2, 64)); // index bits beyond 63
    assert!(broken(9, 0)); // a shortest code of no bits
    assert!(broken(9, 3)); // a shortest code longer than the longest
    assert!(broken(8, 65)); // a longest code beyond 64 bits
    assert!(broken(12, 3)); // a smallest code below zero
    assert!(broken(23, 0x30)); // a pair with a part that is no symbol
    assert!(broken(22, 0x02)); // a pair that is its own part
}

#[test]
fn symbol_lengths_count_the_literals_less_one() {
    // 0 and 1 are literals, 2 = (0, 1), 3 = (2, 2), 4 = (3, 0)
    let sympat = [
        0x00, 0xF0, 0xFF, 0x04, 0xF0, 0xFF, 0x00, 0x10, 0x00, 0x02, 0x20, 0x00, 0x03, 0x00, 0x00,
    ];
    let mut symlen = vec![0u8; 5];
    let mut done = vec![false; 5];
    assert!(calculate_symlen(&mut symlen, &sympat, 4, &mut done, 256));
    assert_eq!(symlen, vec![0, 0, 1, 3, 4]);
    assert_eq!(done, vec![true, true, true, true, true]);
    // only what a symbol is made of is filled in
    let mut symlen = vec![0u8; 5];
    let mut done = vec![false; 5];
    assert!(calculate_symlen(&mut symlen, &sympat, 2, &mut done, 256));
    assert_eq!(symlen, vec![0, 0, 1, 0, 0]);
    assert_eq!(done, vec![true, true, true, false, false]);
}

#[test]
fn symbol_lengths_that_do_not_exist_are_refused() {
    // 0 = (0, 0): a symbol that is its own part
    let mut symlen = vec![0u8; 1];
    let mut done = vec![false; 1];
    assert!(!calculate_symlen(&mut symlen, &[0x00, 0x00, 0x00], 0, &mut done, 256));
    // 0 = (1, 1) and 1 = (0, 0): a circle
    let mut symlen = vec![0u8; 2];
    let mut done = vec![false; 2];
    assert!(!calculate_symlen(&mut symlen, &[0x01, 0x10, 0x00, 0x00, 0x00, 0x00], 0, &mut done, 256));
    // 0 = (0, 5): a part beyond the table
    let mut symlen = vec![0u8; 1];
    let mut done = vec![false; 1];
    assert!(!calculate_symlen(&mut symlen, &[0x00, 0x50, 0x00], 0, &mut done, 256));
    // symbol k + 1 = (k, k): the lengths 0, 1, 3, 7, ..., 255 fit in a byte, 511 does not
    let mut sympat = vec![0x00, 0xF0, 0xFF];
    for k in 0..9u32 {
        let w = k | (k << 12);
        sympat.extend([w as u8, (w >> 8) as u8, (w >> 16) as u8]);
    }
    let mut symlen = vec![0u8; 10];
    let mut done = vec![false; 10];
    assert!(calculate_symlen(&mut symlen, &sympat, 8, &mut done, 256));
    assert_eq!(symlen[8], 255);
    assert!(!calculate_symlen(&mut symlen, &sympat, 9, &mut done, 256));
}

#[test]
fn read_u24_is_little_endian() {
    assert_eq!(read_u24([0x01, 0x02, 0x03]), 0x030201);
    assert_eq!(read_u24([0xFF, 0xFF, 0xFF]), 0xFFFFFF);
    assert_eq!(read_u24([0, 0, 0]), 0);
}

#[test]
fn sizes_default_to_nothing() {
    let sizes = Sizes::default();
    assert_eq!(sizes.index_table_size, 0);
    assert_eq!(sizes.size_table_size, 0);
    assert_eq!(sizes.data_table_size, 0);
}
