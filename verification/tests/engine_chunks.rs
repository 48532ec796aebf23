use lz77::engine::BufferState;
use lz77::engine::Compressor;
use lz77::engine::Decompressor;
use lz77::engine::compress;
use lz77::engine::decompress;
use lz77::finder::Match;
use lz77::window::Window;

#[test]
fn buffer_state_reports_exhaustion() {
    assert!(BufferState::Empty.is_eof());
    assert!(!BufferState::NotEmpty.is_eof());
}

#[test]
fn match_candidate_default_is_the_empty_candidate() {
    let m = Match::default();
    assert_eq!(m.offset, 0);
    assert_eq!(m.len, 1);
}

#[test]
fn match_candidate_new_update_reset() {
    let mut m = Match::new(100, 5);
    assert_eq!(m.offset, 100);
    assert_eq!(m.len, 5);
    m.update(42, 9);
    assert_eq!(m.offset, 42);
    assert_eq!(m.len, 9);
    m.reset();
    assert_eq!(m.offset, 0);
    assert_eq!(m.len, 1);
}

#[test]
fn window_starts_zeroed_and_wraps_by_slot_index() {
    let w = Window::new(2048);
    assert_eq!(w.len(), 2048);
    assert_eq!(w.get_byte(0), 0);
    assert_eq!(w.get_byte(2047), 0);
    // any index is legal: it wraps modulo the capacity
    assert_eq!(w.get_byte(2048), 0);
    assert_eq!(w.get_byte(123456), 0);
}

#[test]
fn window_append_overwrites_oldest_slot_on_wraparound() {
    let mut w = Window::new(4);
    w.add_bytes(&[10, 20, 30, 40]);
    assert_eq!(w.get_byte(0), 10);
    assert_eq!(w.get_byte(3), 40);
    // the fifth byte lands back in slot 0
    w.add_byte(50);
    assert_eq!(w.get_byte(0), 50);
    assert_eq!(w.get_byte(4), 50);
    assert_eq!(w.get_byte(1), 20);
}

#[test]
fn later_chunks_reference_bytes_of_earlier_ones() {
    let chunk1: Vec<u8> = vec![10, 20, 30, 40, 50, 60, 70, 80, 90];
    let chunk2: Vec<u8> = vec![90, 0, 0, 5];
    let mut c = Compressor::new();
    let out1 = c.compress_chunk(&chunk1);
    // nine distinct nonzero bytes: literals only
    assert_eq!(out1.len(), 18);
    let out2 = c.compress_chunk(&chunk2);
    // slot 8 holds 90 and slots 9, 10 still hold zero, so the first three
    // bytes of the second chunk become one reference (offset 8, length 3:
    // value 259), the last a literal
    assert_eq!(out2, vec![1, 3, 0, 5]);
    let mut whole: Vec<u8> = out1.clone();
    whole.extend(out2.iter().copied());
    let mut original: Vec<u8> = chunk1.clone();
    original.extend(chunk2.iter().copied());
    assert_eq!(decompress(&whole), original);
}

#[test]
fn matches_never_extend_past_the_chunk_handed_in() {
    // as one chunk, the tail of the run is covered by references; cut just
    // after the first repetition becomes possible, each piece compresses on
    // its own and the window still carries over
    let input: Vec<u8> = vec![65; 30];
    let mut c = Compressor::new();
    let first: Vec<u8> = input[..12].to_vec();
    let second: Vec<u8> = input[12..].to_vec();
    let mut out = c.compress_chunk(&first);
    out.extend(c.compress_chunk(&second).iter().copied());
    assert_eq!(out.len() % 2, 0);
    assert_eq!(decompress(&out), input);
}

#[test]
fn token_straddling_a_chunk_boundary_is_carried_over() {
    let stream = vec![0, 65, 0, 66];
    let mut d = Decompressor::new();
    // the first chunk ends between the two bytes of the second token
    let out1 = d.decompress_chunk(&vec![0, 65, 0]);
    assert_eq!(out1, vec![65]);
    let out2 = d.decompress_chunk(&vec![66]);
    assert_eq!(out2, vec![66]);
    assert_eq!(decompress(&stream), vec![65, 66]);
}

#[test]
fn chunked_decompression_equals_one_shot() {
    let input: Vec<u8> = (0..=255).chain(0..=255).chain(0..=255).collect();
    let wire = compress(&input);
    let one_shot = decompress(&wire);
    assert_eq!(one_shot, input);
    // feed the wire bytes in deliberately odd-sized chunks
    let mut d = Decompressor::new();
    let mut chunked: Vec<u8> = Vec::new();
    let mut at = 0;
    let mut step = 1;
    while at < wire.len() {
        let end = usize::min(at + step, wire.len());
        let piece: Vec<u8> = wire[at..end].to_vec();
        chunked.extend(d.decompress_chunk(&piece).iter().copied());
        at = end;
        step = step % 7 + 1;
    }
    assert_eq!(chunked, one_shot);
}

#[test]
fn chunked_compression_round_trips_across_many_chunks() {
    let mut input: Vec<u8> = Vec::new();
    for i in 0..1000u32 {
        input.push((i % 17) as u8 + 1);
        input.push((i % 5) as u8 + 1);
    }
    let mut c = Compressor::new();
    let mut wire: Vec<u8> = Vec::new();
    for piece in input.chunks(64) {
        wire.extend(c.compress_chunk(&piece.to_vec()).iter().copied());
    }
    assert_eq!(wire.len() % 2, 0);
    assert_eq!(decompress(&wire), input);
}
