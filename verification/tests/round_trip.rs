use lz77::engine::compress;
use lz77::engine::decompress;

#[test]
fn empty_input_gives_empty_output() {
    let input: Vec<u8> = vec![];
    let out = compress(&input);
    assert_eq!(out.len(), 0);
    assert_eq!(decompress(&out), input);
}

#[test]
fn run_of_thirty_equal_bytes() {
    // 30 x b'A': literals until a slot at or above the offset floor holds
    // an 'A', then references growing as the window fills
    let input: Vec<u8> = vec![65; 30];
    let out = compress(&input);
    let mut expected: Vec<u8> = Vec::new();
    for _ in 0..10 {
        expected.push(0);
        expected.push(65);
    }
    // references at offset 8 with lengths 2, 4, 8 (value 256 + length); the
    // last six bytes tie between many offsets and the highest examined slot
    // wins: offset 18, length 6 (value 18 * 32 + 6 = 582)
    for len in [2u8, 4, 8] {
        expected.push(1);
        expected.push(len);
    }
    expected.push(2);
    expected.push(70);
    assert_eq!(out, expected);
    assert_eq!(decompress(&out), input);
}

#[test]
fn distinct_bytes_compress_to_literals_only() {
    // no byte repeats, so no match is ever found: exactly two output bytes
    // per input byte, each token a literal
    let input: Vec<u8> = (1..=200).collect();
    let out = compress(&input);
    assert_eq!(out.len(), 2 * input.len());
    for k in 0..input.len() {
        assert_eq!(out[2 * k], 0);
        assert_eq!(out[2 * k + 1], input[k]);
    }
    assert_eq!(decompress(&out), input);
}

#[test]
fn short_stream_of_nonzero_bytes_emits_no_reference() {
    // shorter than the offset floor: every appended byte lands below slot 8,
    // and no nonzero byte can match the zero-filled slots above it
    let input: Vec<u8> = vec![7, 7, 7, 7, 7, 7, 7];
    let out = compress(&input);
    assert_eq!(out, vec![0, 7, 0, 7, 0, 7, 0, 7, 0, 7, 0, 7, 0, 7]);
    assert_eq!(decompress(&out), input);
}

#[test]
fn reference_spanning_unwritten_slots_round_trips() {
    // at the reference the window holds bytes only in slots 0..10; the match
    // at offset 8 covers slots 8..12, reading two slots the window has never
    // written (still zero), and must be staged before being appended
    let input: Vec<u8> = vec![1, 2, 3, 4, 5, 6, 7, 8, 9, 10, 9, 10, 0, 0];
    let out = compress(&input);
    let mut expected: Vec<u8> = Vec::new();
    for b in 1..=10u8 {
        expected.push(0);
        expected.push(b);
    }
    // reference offset 8, length 4: value 8 * 32 + 4 = 260
    expected.push(1);
    expected.push(4);
    assert_eq!(out, expected);
    assert_eq!(decompress(&out), input);
}

#[test]
fn compressed_length_is_always_even() {
    let samples: Vec<Vec<u8>> = vec![
        vec![],
        vec![0],
        vec![0, 0, 0, 0, 0, 0, 0, 0, 0, 0],
        vec![65; 30],
        (0..=255).collect(),
        vec![1, 1, 2, 2, 3, 3, 1, 1, 2, 2, 3, 3, 1, 1, 2, 2, 3, 3],
    ];
    for input in &samples {
        let out = compress(input);
        assert_eq!(out.len() % 2, 0);
    }
}

#[test]
fn emitted_references_respect_offset_floor_and_length_bounds() {
    let samples: Vec<Vec<u8>> = vec![
        vec![0; 100],
        vec![65; 100],
        vec![1, 2, 3, 1, 2, 3, 1, 2, 3, 1, 2, 3, 1, 2, 3, 1, 2, 3, 1, 2, 3],
        (0..=255).chain(0..=255).collect(),
    ];
    for input in &samples {
        let out = compress(input);
        let mut j = 0;
        while j + 1 < out.len() {
            if out[j] != 0 {
                let v = (out[j] as u32) * 256 + out[j + 1] as u32;
                let offset = v / 32;
                let length = v % 32;
                assert!(offset >= 8);
                assert!(offset < 2048);
                assert!(length >= 2);
                assert!(length <= 31);
            }
            j += 2;
        }
        assert_eq!(decompress(&out), *input);
    }
}

#[test]
fn zero_bytes_round_trip_through_stale_window_matches() {
    // zero bytes match the zero-initialized window above the offset floor,
    // so even a short run of zeros compresses to a reference — and still
    // round-trips
    let input: Vec<u8> = vec![0, 0, 0];
    let out = compress(&input);
    assert_eq!(decompress(&out), input);
    let longer: Vec<u8> = vec![0; 500];
    let out2 = compress(&longer);
    assert!(out2.len() < 2 * longer.len());
    assert_eq!(decompress(&out2), longer);
}

#[test]
fn mixed_text_round_trips() {
    let text = "the quick brown fox jumps over the lazy dog; \
                the quick brown fox jumps over the lazy dog; \
                the quick brown fox jumps over the lazy dog";
    let input: Vec<u8> = text.bytes().collect();
    let out = compress(&input);
    assert_eq!(out.len() % 2, 0);
    assert_eq!(decompress(&out), input);
}

#[test]
fn truncated_stream_decodes_to_the_whole_tokens_only() {
    // a stream cut mid-token is end of stream, not an error: the unpaired
    // byte decodes to nothing
    let out = vec![0, 65, 0, 66, 0];
    assert_eq!(decompress(&out), vec![65, 66]);
    let single = vec![7];
    assert_eq!(decompress(&single), vec![]);
}
