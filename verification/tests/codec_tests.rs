use arithmetic_coding::EOF;
use arithmetic_coding::SIZE;
use arithmetic_coding::bitvec::BitVec;
use arithmetic_coding::codec::ArithmeticDecoder;
use arithmetic_coding::codec::ArithmeticEncoder;
use arithmetic_coding::decode_routine;
use arithmetic_coding::encode_routine;

fn roundtrip(input: &Vec<u8>) -> Vec<u8> {
    let compressed = encode_routine(input);
    decode_routine(&compressed)
}

/// A small deterministic pseudo-random byte generator.
fn pseudo_random_bytes(n: usize, seed: u64) -> Vec<u8> {
    let mut state = seed;
    let mut out = Vec::with_capacity(n);
    for _ in 0..n {
        state = state.wrapping_mul(6364136223846793005).wrapping_add(1442695040888963407);
        out.push((state >> 33) as u8);
    }
    out
}

#[test]
fn test_roundtrip_empty() {
    let input: Vec<u8> = Vec::new();
    let compressed = encode_routine(&input);
    assert!(!compressed.is_empty());
    assert_eq!(decode_routine(&compressed), input);
}

#[test]
fn test_roundtrip_single_letter() {
    let input = b"A".to_vec();
    assert_eq!(roundtrip(&input), input);
}

#[test]
fn test_roundtrip_every_single_byte() {
    for b in 0..=255u8 {
        let input = vec![b];
        assert_eq!(roundtrip(&input), input);
    }
}

#[test]
fn test_roundtrip_short_strings() {
    for n in 0..50usize {
        let input: Vec<u8> = (0..n).map(|i| (i * 89 + 3) as u8).collect();
        assert_eq!(roundtrip(&input), input);
    }
}

#[test]
fn test_roundtrip_repeated_letter() {
    let input = vec![0x41u8; 10000];
    let compressed = encode_routine(&input);
    assert!(compressed.len() < input.len());
    assert_eq!(decode_routine(&compressed), input);
}

#[test]
fn test_repeated_letter_does_not_scale_model() {
    // 10000 occurrences on top of the initial 257 counts stay below the
    // frequency cap, so the model total grows by exactly one per byte.
    let mut encoder = ArithmeticEncoder::new(SIZE);
    let mut bits: Vec<bool> = Vec::new();
    for _ in 0..10000 {
        encoder.encode(0x41, &mut bits);
        encoder.discover(0x41);
    }
    assert_eq!(encoder.model_total(), 257 + 10000);
    assert_eq!(encoder.model_freq(0x41), 1 + 10000);
}

#[test]
fn test_roundtrip_random_with_scaling() {
    // Long enough that the model total reaches the cap and is halved.
    let input = pseudo_random_bytes(20000, 0x5eed);
    let mut encoder = ArithmeticEncoder::new(SIZE);
    let mut bits: Vec<bool> = Vec::new();
    for &b in input.iter() {
        encoder.encode(b as usize, &mut bits);
        encoder.discover(b as usize);
    }
    assert!(encoder.model_total() < 257 + 20000);
    assert_eq!(roundtrip(&input), input);
}

#[test]
fn test_roundtrip_all_byte_values_in_order() {
    let input: Vec<u8> = (0..=255u8).collect();
    assert_eq!(roundtrip(&input), input);
}

#[test]
fn test_roundtrip_long_text_compresses() {
    let paragraph = "It was a bright cold day in spring, and the clocks were \
striking thirteen as the last of the barges slid under the old stone bridge. \
Nobody on the towpath looked up; the river had carried stranger cargo in its \
time, and the miller's dog had long since given up barking at anything that \
floated. ";
    let mut text = String::new();
    for _ in 0..120 {
        text.push_str(paragraph);
    }
    let input = text.into_bytes();
    let compressed = encode_routine(&input);
    assert!(compressed.len() < input.len());
    assert_eq!(decode_routine(&compressed), input);
}

#[test]
fn test_models_stay_in_lockstep() {
    let input = pseudo_random_bytes(3000, 42);
    let mut encoder = ArithmeticEncoder::new(SIZE);
    let mut bits: Vec<bool> = Vec::new();
    for &b in input.iter() {
        encoder.encode(b as usize, &mut bits);
        encoder.discover(b as usize);
    }
    encoder.encode(EOF, &mut bits);
    encoder.finish(&mut bits);

    let mut bv = BitVec::with_capacity(bits.len());
    for &b in bits.iter() {
        bv.push(b);
    }
    let mut decoder = ArithmeticDecoder::new(SIZE);
    let mut pos: usize = 0;
    decoder.begin(&bv, &mut pos);
    for &b in input.iter() {
        let s = decoder.decode(&bv, &mut pos);
        assert_eq!(s, b as usize);
        decoder.discover(s);
    }
    for s in 0..SIZE {
        assert_eq!(encoder.model_freq(s), decoder.model_freq(s));
    }
    assert_eq!(encoder.model_total(), decoder.model_total());
    assert_eq!(decoder.decode(&bv, &mut pos), EOF);
}

#[test]
fn test_compressed_stream_is_self_delimiting() {
    // Appending zero bytes after the stream must not change the output.
    let input = b"self delimiting stream".to_vec();
    let mut compressed = encode_routine(&input);
    compressed.push(0);
    compressed.push(0);
    compressed.push(0);
    assert_eq!(decode_routine(&compressed), input);
}
