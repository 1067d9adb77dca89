use press_rs::compress::{lzw_compress, PrefixTree};
use press_rs::compressor::{compress_raw, decompress_raw};
use press_rs::decompress::{lzw_decompress_from_reader, DecodeError};
use press_rs::bitio::{BitReader, BitWriter};

fn pseudo_random(n: usize, seed: u64) -> Vec<u8> {
    let mut state = seed;
    (0..n)
        .map(|_| {
            state ^= state << 13;
            state ^= state >> 7;
            state ^= state << 17;
            (state >> 24) as u8
        })
        .collect()
}

fn round_trip(input: &[u8]) {
    let compressed = compress_raw(input);
    let decompressed = decompress_raw(&compressed).unwrap();
    assert_eq!(input, &decompressed[..]);
}

#[test]
fn test_add_and_find_sequence() {
    let mut tree = PrefixTree::new(8);
    let root_char = b'A' as u16;
    let next_char = b'B';

    let found_before = tree.find_word(root_char, next_char);
    let new_index = tree.add(root_char, next_char);
    let found_after = tree.find_word(root_char, next_char);

    assert!(found_before.is_none());
    assert_eq!(new_index, 258);
    assert_eq!(found_after, Some(new_index));
}

#[test]
fn test_reset_behavior() {
    let mut tree = PrefixTree::new(8);
    tree.add(b'A' as u16, b'B');

    tree.reset();
    let result = tree.find_word(b'A' as u16, b'B');

    assert!(result.is_none());
}

#[test]
fn dense_node_keeps_every_child() {
    let mut tree = PrefixTree::new(8);
    let a = tree.add(b'A' as u16, b'B');
    let b = tree.add(b'A' as u16, b'C');
    let c = tree.add(b'A' as u16, b'D');
    assert_eq!((a, b, c), (258, 259, 260));
    assert_eq!(tree.find_word(b'A' as u16, b'B'), Some(258));
    assert_eq!(tree.find_word(b'A' as u16, b'C'), Some(259));
    assert_eq!(tree.find_word(b'A' as u16, b'D'), Some(260));
    assert_eq!(tree.find_word(b'A' as u16, b'E'), None);
    assert_eq!(tree.find_word(258, b'B'), None);
}

#[test]
fn test_compress_simple_string() {
    let input = b"ABABABA";
    let output = lzw_compress(input);
    assert!(!output.is_empty());
    assert!(output.len() > 5);
}

#[test]
fn test_compress_empty_input() {
    let input: &[u8] = &[];
    let output = lzw_compress(input);
    assert!(output.is_empty());
}

#[test]
fn test_compress_large_repetitive_data() {
    let input = vec![b'A'; 10_000];
    let output = lzw_compress(&input);
    assert!(!output.is_empty());
    assert!(output.len() < input.len() / 20);
}

#[test]
fn test_decompress_from_cursor() {
    let data = b"TESTDATA";
    let compressed = lzw_compress(data);
    let reader = BitReader::new(compressed);
    let decompressed = lzw_decompress_from_reader(reader).unwrap();
    assert_eq!(data.as_slice(), decompressed.as_slice());
}

#[test]
fn decompress_test_short_text() {
    round_trip(b"TOBEORNOTTOBE");
}

#[test]
fn decompress_test_binary_data() {
    let data: Vec<u8> = (0..=255u8).collect();
    round_trip(&data);
}

#[test]
fn decompress_test_repetitive_growth() {
    let mut data = Vec::new();
    for _ in 0..100 {
        data.extend_from_slice(b"ABCDE");
    }
    round_trip(&data);
}

#[test]
fn decompress_test_dictionary_overflow_and_reset() {
    let data = pseudo_random(100_000, 0x9E37_79B9_7F4A_7C15);
    round_trip(&data);
}

#[test]
fn decompress_test_single_byte() {
    round_trip(b"Z");
}

#[test]
fn test_compression_ratio_text() {
    let text = "hello world ".repeat(100);
    let input = text.as_bytes();
    let compressed = compress_raw(input);
    let decompressed = decompress_raw(&compressed).unwrap();
    let ratio = input.len() as f64 / compressed.len() as f64;
    assert!(ratio > 2.0, "Text compression ratio too low: {:.2}x", ratio);
    assert_eq!(input, &decompressed[..]);
}

#[test]
fn test_compression_ratio_binary_pattern() {
    let mut input = Vec::new();
    for i in 0..1000 {
        input.push((i % 10) as u8);
    }
    let compressed = compress_raw(&input);
    let decompressed = decompress_raw(&compressed).unwrap();
    let ratio = input.len() as f64 / compressed.len() as f64;
    assert!(ratio > 1.5, "Binary pattern compression too low: {:.2}x", ratio);
    assert_eq!(input, decompressed);
}

#[test]
fn test_compression_ratio_json_like() {
    let json = r#"{"name": "test", "value": 123, "active": true}"#.repeat(50);
    let input = json.as_bytes();
    let compressed = compress_raw(input);
    let decompressed = decompress_raw(&compressed).unwrap();
    let ratio = input.len() as f64 / compressed.len() as f64;
    assert!(ratio > 3.0, "JSON compression too low: {:.2}x (expected >3x)", ratio);
    assert_eq!(input, &decompressed[..]);
}

#[test]
fn test_compression_ratio_random_data() {
    let input = pseudo_random(10000, 0x1234_5678_9ABC_DEF1);
    let compressed = compress_raw(&input);
    let decompressed = decompress_raw(&compressed).unwrap();
    let ratio = input.len() as f64 / compressed.len() as f64;
    assert!(ratio > 0.5, "Random data expanded too much: {:.2}x (some overhead expected)", ratio);
    assert_eq!(input, decompressed);
}

#[test]
fn test_compression_ratio_already_compressed() {
    let data = pseudo_random(5000, 0x0DDB_1A5E_5BAD_5EED);
    let compressed = compress_raw(&data);
    let compressed_again = compress_raw(&compressed);
    let ratio = compressed.len() as f64 / compressed_again.len() as f64;
    assert!(ratio > 0.6, "Pre-compressed data expanded too much: {:.2}x", ratio);
}

#[test]
fn test_compression_ratio_zeroes() {
    let input = vec![0u8; 10000];
    let compressed = compress_raw(&input);
    let decompressed = decompress_raw(&compressed).unwrap();
    let ratio = input.len() as f64 / compressed.len() as f64;
    assert!(ratio > 50.0, "All zeros should compress VERY well: {:.2}x", ratio);
    assert_eq!(input, decompressed);
}

#[test]
fn test_compression_ratio_mixed_content() {
    let mut input = Vec::new();
    input.extend_from_slice(b"Hello World! ".repeat(50).as_slice());
    for i in 0..500 {
        input.push((i % 256) as u8);
    }
    input.extend_from_slice(&pseudo_random(100, 42));
    let compressed = compress_raw(&input);
    let decompressed = decompress_raw(&compressed).unwrap();
    let ratio = input.len() as f64 / compressed.len() as f64;
    assert!(ratio > 1.2, "Mixed content should compress: {:.2}x", ratio);
    assert_eq!(input, decompressed);
}

#[test]
fn test_compression_empty() {
    let input = b"";
    let compressed = compress_raw(input);
    let decompressed = decompress_raw(&compressed).unwrap();
    assert_eq!(input, &decompressed[..]);
}

#[test]
fn test_roundtrip_various_sizes() {
    for size in [0, 1, 10, 100, 1000, 10000, 100000] {
        let input = vec![0xAB; size];
        let compressed = compress_raw(&input);
        let decompressed = decompress_raw(&compressed).unwrap();
        assert_eq!(input, decompressed, "Roundtrip failed for size {}", size);
    }
}

#[test]
fn test_all_byte_values() {
    let input: Vec<u8> = (0..=255).cycle().take(1000).collect();
    let compressed = compress_raw(&input);
    let decompressed = decompress_raw(&compressed).unwrap();
    assert_eq!(input, decompressed);
}

#[test]
fn empty_input_gives_empty_output_both_ways() {
    assert_eq!(compress_raw(&[]), Vec::<u8>::new());
    assert_eq!(decompress_raw(&[]).unwrap(), Vec::<u8>::new());
}

#[test]
fn zeros_compress_under_two_hundred_bytes() {
    let input = vec![0u8; 10000];
    let compressed = compress_raw(&input);
    assert!(compressed.len() < 200);
    assert_eq!(decompress_raw(&compressed).unwrap(), input);
}

#[test]
fn random_data_does_not_expand_much() {
    let input = pseudo_random(10000, 7);
    let compressed = compress_raw(&input);
    assert!((compressed.len() as f64) < 1.4 * input.len() as f64);
    assert_eq!(decompress_raw(&compressed).unwrap(), input);
}

#[test]
fn kwkwk_inputs_round_trip() {
    round_trip(b"TOBEORNOTTOBE");
    round_trip(b"XABABA");
    round_trip(b"aaaaaaa");
    round_trip(b"abababababababab");
}

#[test]
fn single_byte_stream_layout() {
    // clear (256), 'Z' (90), end (257), each at nine bits
    let compressed = compress_raw(b"Z");
    let mut reader = BitReader::new(compressed.clone());
    assert_eq!(reader.read_one(9).unwrap(), 256);
    assert_eq!(reader.read_one(9).unwrap(), 90);
    assert_eq!(reader.read_one(9).unwrap(), 257);
    assert_eq!(compressed.len(), 4);
}

#[test]
fn stream_for_abab_has_learned_code() {
    // A B then the learned code for "AB" (258), then the end code
    let compressed = compress_raw(b"ABAB");
    let mut reader = BitReader::new(compressed);
    let codes: Vec<u16> = (0..5).map(|_| reader.read_one(9).unwrap()).collect();
    assert_eq!(codes, vec![256, 65, 66, 258, 257]);
}

#[test]
fn code_above_next_index_is_invalid() {
    let mut writer = BitWriter::new();
    writer.write(256, 9);
    writer.write(65, 9);
    writer.write(300, 9);
    writer.flush();
    assert_eq!(decompress_raw(&writer.output), Err(DecodeError::InvalidCode));
}

#[test]
fn learned_code_right_after_clear_is_invalid() {
    let mut writer = BitWriter::new();
    writer.write(256, 9);
    writer.write(258, 9);
    writer.flush();
    assert_eq!(decompress_raw(&writer.output), Err(DecodeError::InvalidCode));
}

#[test]
fn stream_without_end_code_stops_at_end_of_input() {
    let mut writer = BitWriter::new();
    writer.write(256, 9);
    writer.write(72, 9);
    writer.write(105, 9);
    writer.flush();
    assert_eq!(decompress_raw(&writer.output).unwrap(), b"Hi".to_vec());
}

#[test]
fn flipped_last_byte_does_not_panic() {
    let input = vec![0u8; 10000];
    let mut compressed = compress_raw(&input);
    let last = compressed.len() - 1;
    compressed[last] ^= 0xFF;
    match decompress_raw(&compressed) {
        Ok(out) => assert!(out.len() <= 20000),
        Err(e) => assert_eq!(e, DecodeError::InvalidCode),
    }
}

#[test]
fn width_grows_past_nine_bits_and_round_trips() {
    let data: Vec<u8> = (0..3000usize).map(|i| ((i * i) % 251) as u8).collect();
    round_trip(&data);
}
