//! The bit stream: MSB-first packing, sequential reads, and the persisted
//! artifact layout.

use arith_coder::Code;

#[test]
fn bits_pack_msb_first() {
    let mut c = Code::new();
    c.add_bit(true);
    assert_eq!(c.data, vec![128]);
    for _ in 0..7 {
        c.add_bit(false);
    }
    assert_eq!(c.data, vec![128]);
    c.add_bit(true);
    c.add_bit(true);
    assert_eq!(c.data, vec![128, 192]);
    assert_eq!(c.write_index, 10);
}

#[test]
fn get_bit_reads_back_what_was_written() {
    let pattern = [true, false, true, true, false, false, true, false, true, true];
    let mut c = Code::new();
    for &b in pattern.iter() {
        c.add_bit(b);
    }
    for (i, &b) in pattern.iter().enumerate() {
        assert_eq!(c.get_bit(i), b);
    }
}

#[test]
fn sequential_reader_returns_zero_past_end() {
    let mut c = Code::new();
    c.add_bit(true);
    // one data byte exists, so the reader walks its eight bits
    assert!(c.get_bit_and_shift());
    for _ in 0..7 {
        assert!(!c.get_bit_and_shift());
    }
    // exhausted: zero bits, position stays put
    assert!(!c.get_bit_and_shift());
    assert!(!c.get_bit_and_shift());
    assert_eq!(c.read_index, 8);
}

#[test]
fn trailer_is_big_endian() {
    let c = Code { data: Vec::new(), write_index: 0, read_index: 0, chars: 16909060 };
    assert_eq!(c.to_bytes(), vec![1, 2, 3, 4]);
}

#[test]
fn from_bytes_splits_buffer_and_trailer() {
    let parsed = Code::from_bytes(&[0xAB, 0xCD, 0, 0, 1, 2]).expect("long enough");
    assert_eq!(parsed.data, vec![0xAB, 0xCD]);
    assert_eq!(parsed.chars, 258);
    assert_eq!(parsed.read_index, 0);
    assert_eq!(parsed.write_index, 16);
}

#[test]
fn serialization_round_trips() {
    let mut c = Code::new();
    for k in 0..19 {
        c.add_bit(k % 3 == 0);
    }
    c.chars = 77;
    let bytes = c.to_bytes();
    let parsed = Code::from_bytes(&bytes).expect("artifact parses");
    assert_eq!(parsed.data, c.data);
    assert_eq!(parsed.chars, 77);
}
