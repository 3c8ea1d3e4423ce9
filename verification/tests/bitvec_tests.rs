use arithmetic_coding::bitvec::BitVec;

#[test]
fn test_bitvec_1() {
    let mut bitvec = BitVec::with_capacity(10);
    let arr = vec![true, true, true, true, false, false, false, false, true, false];
    for e in arr.iter() {
        bitvec.push(*e);
    }
    for (i, e) in arr.iter().enumerate() {
        assert_eq!(bitvec.get(i).unwrap(), *e);
    }
}

#[test]
fn test_bitvec_3() {
    let mut bv = BitVec::with_capacity(64);
    for _ in 0..64 {
        bv.push(true);
    }
}

#[test]
fn test_get_bytes_1() {
    let bytes = vec![9, 8, 7, 6];
    let bitvec = BitVec::from_bytes(&bytes);
    let by = bitvec.get_bytes();
    assert_eq!(bytes, by);
}

#[test]
fn test_get_bytes_2() {
    let bytes = vec![0b00000001, 0b00000010];
    let mut bitvec = BitVec::with_capacity(64);
    for b in bytes.iter() {
        for i in (0..8).rev() {
            bitvec.push(((b >> i) & 1) != 0);
        }
    }
    let by = bitvec.get_bytes();
    assert_eq!(bytes, by);
}

#[test]
fn test_next_bit_1() {
    let bytes = vec![
        0b00000001, 0b00000010, 0b11111111, 0b10101010, 0b01010101, 0b00000000, 0b00001000,
        0b00000001,
    ];
    let mut bitvec = BitVec::with_capacity(64);
    for b in bytes.iter() {
        for i in (0..8).rev() {
            bitvec.push(((b >> i) & 1) != 0);
        }
    }
    let mut k = 0;
    for b in bytes.iter() {
        for j in (0..8).rev() {
            let bit = ((b >> j) & 1) != 0;
            if let Some(b) = bitvec.get(k) {
                assert_eq!(bit, b);
            }
            k += 1;
        }
    }
}

#[test]
fn test_next_bit_2() {
    let bytes = vec![
        0b00000001, 0b00000010, 0b11111111, 0b10101010, 0b01010101, 0b00000000, 0b00001000,
        0b00000001,
    ];
    let bitvec = BitVec::from_bytes(&bytes);
    let mut k = 0;
    for b in bytes.iter() {
        for j in (0..8).rev() {
            let bit = ((b >> j) & 1) != 0;
            if let Some(b) = bitvec.get(k) {
                assert_eq!(bit, b);
            }
            k += 1;
        }
    }
}

#[test]
fn test_next_message() {
    let bytes = "asdoijfasÃ¶odfjaosidjfioasd".as_bytes();
    let bitvec = BitVec::from_bytes(&bytes);
    assert_eq!(bytes, bitvec.get_bytes());
}

#[test]
fn test_clear_resets_length_and_keeps_capacity() {
    let mut bv = BitVec::with_capacity(128);
    for _ in 0..100 {
        bv.push(true);
    }
    assert_eq!(bv.len(), 100);
    assert!(!bv.is_empty());
    bv.clear();
    assert!(bv.is_empty());
    assert_eq!(bv.len(), 0);
    assert_eq!(bv.capacity(), 128);
    bv.push(false);
    bv.push(true);
    assert_eq!(bv.get(0), Some(false));
    assert_eq!(bv.get(1), Some(true));
    assert_eq!(bv.get(2), None);
}

#[test]
fn test_get_bytes_pads_partial_byte_with_zeros() {
    let mut bv = BitVec::with_capacity(64);
    bv.push(true);
    bv.push(true);
    bv.push(false);
    assert_eq!(bv.get_bytes(), vec![0b11000000]);
}

#[test]
fn test_from_bytes_roundtrip_various_lengths() {
    for n in 0..40usize {
        let bytes: Vec<u8> = (0..n).map(|i| (i * 37 + 11) as u8).collect();
        let bv = BitVec::from_bytes(&bytes);
        assert_eq!(bv.len(), 8 * n);
        assert_eq!(bv.get_bytes(), bytes);
    }
}
