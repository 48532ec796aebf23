use lz77::engine::compress;
use lz77::engine::decompress;
use lz77::token::Token;
use lz77::token::decode_token;
use lz77::token::encode_token;

#[test]
fn literal_zero_encodes_as_two_zero_bytes() {
    let t = Token::Literal(0);
    let (b0, b1) = encode_token(&t);
    assert_eq!((b0, b1), (0, 0));
    assert_eq!(decode_token(b0, b1), Token::Literal(0));
}

#[test]
fn literal_bytes_encode_with_zero_high_byte() {
    let mut b: u16 = 0;
    while b <= 255 {
        let t = Token::Literal(b as u8);
        let (b0, b1) = encode_token(&t);
        assert_eq!(b0, 0);
        assert_eq!(b1, b as u8);
        assert_eq!(decode_token(b0, b1), Token::Literal(b as u8));
        b += 1;
    }
}

#[test]
fn smallest_reference_encodes_above_the_literal_range() {
    // offset 8, length 2: the smallest legal reference, value 8 * 32 + 2 = 258
    let t = Token::Reference { offset: 8, length: 2 };
    let (b0, b1) = encode_token(&t);
    assert_eq!((b0, b1), (1, 2));
    assert_ne!(b0, 0);
    assert_eq!(decode_token(b0, b1), Token::Reference { offset: 8, length: 2 });
}

#[test]
fn largest_reference_fills_sixteen_bits() {
    // offset 2047, length 31: value 2047 * 32 + 31 = 65535
    let t = Token::Reference { offset: 2047, length: 31 };
    let (b0, b1) = encode_token(&t);
    assert_eq!((b0, b1), (255, 255));
    assert_eq!(decode_token(b0, b1), Token::Reference { offset: 2047, length: 31 });
}

#[test]
fn reference_token_splits_into_offset_and_length() {
    // value 100 * 32 + 17 = 3217 = 12 * 256 + 145
    let t = Token::Reference { offset: 100, length: 17 };
    let (b0, b1) = encode_token(&t);
    assert_eq!((b0, b1), (12, 145));
    assert_eq!(decode_token(b0, b1), Token::Reference { offset: 100, length: 17 });
}

#[test]
fn every_single_byte_input_round_trips_as_one_literal() {
    // one byte can never yield a length-2 match, so the output is exactly
    // its literal token, and decoding never misreads it as a reference
    let mut b: u16 = 0;
    while b <= 255 {
        let input = vec![b as u8];
        let out = compress(&input);
        assert_eq!(out, vec![0, b as u8]);
        assert_eq!(decompress(&out), input);
        b += 1;
    }
}
