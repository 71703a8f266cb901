//! End-to-end behaviour of the coder: encode, persist, parse, decode.

use arith_coder::Code;
use arith_coder::Probabilities;

fn assert_round_trip(input: &[u8]) {
    let code = Code::encode(input);
    let bytes = code.to_bytes();
    let mut parsed = Code::from_bytes(&bytes).expect("artifact parses");
    let out = parsed.decode();
    assert_eq!(out, input);
}

#[test]
fn empty_input_minimal_artifact() {
    let code = Code::encode(&[]);
    let bytes = code.to_bytes();
    // one flush bit packed MSB-first, then the four-byte zero count
    assert_eq!(bytes, vec![128, 0, 0, 0, 0]);
    let mut parsed = Code::from_bytes(&bytes).expect("artifact parses");
    assert_eq!(parsed.chars, 0);
    let out = parsed.decode();
    assert_eq!(out, Vec::<u8>::new());
}

#[test]
fn single_byte_round_trip() {
    assert_round_trip(&[42]);
    assert_round_trip(&[0]);
    assert_round_trip(&[255]);
}

#[test]
fn sixty_four_symbol_round_trip() {
    // exactly one rescale boundary
    let input: Vec<u8> = (0..64).map(|i| (i * 3 % 256) as u8).collect();
    assert_round_trip(&input);
}

#[test]
fn all_same_byte_round_trip() {
    assert_round_trip(&[7u8; 200]);
}

#[test]
fn every_byte_value_round_trip() {
    let mut input: Vec<u8> = Vec::new();
    for _ in 0..2 {
        for b in 0..=255u8 {
            input.push(b);
        }
    }
    assert_round_trip(&input);
}

#[test]
fn pseudorandom_round_trip() {
    let mut x: u64 = 0x12345678;
    let mut input: Vec<u8> = Vec::new();
    for _ in 0..2048 {
        x = x.wrapping_mul(6364136223846793005).wrapping_add(1442695040888963407);
        input.push((x >> 56) as u8);
    }
    assert_round_trip(&input);
}

#[test]
fn sixty_four_zeros_round_trip_and_dominance() {
    let input = [0u8; 64];
    assert_round_trip(&input);
    // after the first rescale, symbol 0 holds all the scaled mass while
    // every other symbol keeps frequency exactly one
    let mut p = Probabilities::new();
    for _ in 0..64 {
        p.add(0);
    }
    assert_eq!(p.sum, 1073741824);
    assert_eq!(p.pro[1], 1073741569);
    for s in 1..256 {
        assert_eq!(p.pro[s + 1] - p.pro[s], 1);
    }
    assert_eq!(p.pro[256], 1073741824);
}

#[test]
fn rescale_boundary_neighbours_round_trip() {
    for n in [1usize, 63, 64, 65, 127, 128, 129] {
        let input: Vec<u8> = (0..n).map(|i| (i % 256) as u8).collect();
        assert_round_trip(&input);
    }
}

#[test]
fn tail_heavy_distribution_round_trip() {
    // the last symbol's interval sits at the very top of the table; the
    // count-driven stop must still reproduce it without extra flush bits
    assert_round_trip(&[255u8; 100]);
    let mut input = vec![0u8; 100];
    input.extend([255u8; 40]);
    assert_round_trip(&input);
}

#[test]
fn encode_is_deterministic() {
    let input: Vec<u8> = (0..500).map(|i| (i * 7 % 251) as u8).collect();
    let a = Code::encode(&input).to_bytes();
    let b = Code::encode(&input).to_bytes();
    assert_eq!(a, b);
}

#[test]
fn decode_is_deterministic() {
    let input: Vec<u8> = (0..300).map(|i| (i % 17) as u8).collect();
    let bytes = Code::encode(&input).to_bytes();
    let mut p1 = Code::from_bytes(&bytes).expect("artifact parses");
    let mut p2 = Code::from_bytes(&bytes).expect("artifact parses");
    assert_eq!(p1.decode(), p2.decode());
}

#[test]
fn truncated_artifact_diverges() {
    // Chosen policy for a truncated artifact: parsing still succeeds (only
    // artifacts shorter than the four-byte trailer fail fast), but the
    // trailer is read out of register, so the symbol count differs and the
    // count-driven decode can no longer reproduce the source.
    let input = [0u8; 64];
    let bytes = Code::encode(&input).to_bytes();
    let truncated = &bytes[..bytes.len() - 1];
    let parsed = Code::from_bytes(truncated).expect("still four bytes or more");
    assert_ne!(parsed.chars, input.len());
}

#[test]
fn artifact_shorter_than_trailer_is_rejected() {
    assert!(Code::from_bytes(&[]).is_none());
    assert!(Code::from_bytes(&[1]).is_none());
    assert!(Code::from_bytes(&[1, 2, 3]).is_none());
    assert!(Code::from_bytes(&[1, 2, 3, 4]).is_some());
}
