use nora_lz4::block::{decompress, DecompressError};

/// `n` bytes that hold no four-byte window twice.
fn distinct(n: usize) -> Vec<u8> {
    let mut v = Vec::with_capacity(n);
    let mut x: u32 = 0x2545_F491;
    for _ in 0..n {
        x = x.wrapping_mul(1_664_525).wrapping_add(1_013_904_223);
        v.push((x >> 24) as u8);
    }
    v
}

#[test]
fn fuzz_000() {
    let d = &[
        130, 255, 255, 255, 255, 255, 255, 255, 255, 255, 255, 255, 255, 255, 255, 255, 255, 255,
    ];
    let r = decompress(d, 1 << 21);
    assert_eq!(r, Err(DecompressError));
}

#[test]
fn fuzz_001() {
    let d = &[
        255, 22, 0, 0, 0, 38, 0, 137, 0, 255, 255, 39, 255, 255, 223, 255, 255, 255, 255, 255, 255,
        255, 255, 253, 255, 255, 255, 255, 255, 255, 255, 255, 255, 255, 255, 255, 255, 255, 255,
    ];
    // a full literal nibble, an extension of 22, and exactly 37 literals
    let r = decompress(d, 1 << 21);
    assert_eq!(r, Ok(d[2..].to_vec()));
}

#[test]
fn fuzz_002() {
    let d = &[
        255, 0, 0, 126, 0, 0, 0, 0, 0, 3, 0, 33, 255, 254, 255, 254, 255, 1, 0, 255, 255, 255, 255,
        0, 0, 0, 1, 0, 0, 0, 0, 0, 0, 79, 0, 1, 0, 0, 0, 1, 0, 0, 16, 0, 22, 0, 15, 0, 1, 0, 248,
    ];
    let r = decompress(d, 1 << 10);
    assert!(r.is_err());
}

#[test]
fn fuzz_003() {
    let d = &[
        255, 36, 0, 0, 0, 0, 0, 0, 0, 0, 0, 1, 64, 0, 0, 0, 0, 0, 20, 0, 0, 0, 0, 0, 23, 0, 0, 0,
        0, 4, 0, 0, 0, 1, 0, 0, 0, 0, 0, 0, 15, 0, 0, 0, 0, 0, 0, 50, 50, 50, 50, 50, 50, 50, 0,
        255, 255, 255, 174, 64, 0, 1, 0, 213, 213, 213, 213, 213, 213, 213, 213, 213, 213, 213,
        213, 213, 213, 213, 213, 213, 213, 213, 213, 213, 213, 213, 213, 213, 213, 213, 213, 213,
        213, 213, 213, 213, 213, 213, 213, 213, 213, 213, 213, 213, 213, 213, 213, 213, 213, 213,
        213, 213, 213, 213, 213, 213, 0, 255, 255,
    ];
    let r = decompress(d, 1 << 10);
    assert!(r.is_err());
}

#[test]
fn empty_block_is_one_token() {
    assert_eq!(decompress(&[0x00], 0), Ok(vec![]));
    assert_eq!(decompress(&[0x00], 7), Ok(vec![]));
}

#[test]
fn empty_input_is_no_block() {
    assert_eq!(decompress(&[], 0), Err(DecompressError));
    assert_eq!(decompress(&[], 100), Err(DecompressError));
}

#[test]
fn literals_only() {
    assert_eq!(decompress(&[0x20, b'H', b'i'], 2), Ok(b"Hi".to_vec()));
    assert_eq!(decompress(&[0x20, b'H', b'i'], 1), Err(DecompressError));
    assert_eq!(decompress(&[0x30, b'H', b'i'], 3), Err(DecompressError));
}

#[test]
fn low_nibble_of_the_closing_token_is_ignored() {
    assert_eq!(decompress(&[0x27, b'H', b'i'], 2), Ok(b"Hi".to_vec()));
}

#[test]
fn overlapping_match_repeats_the_last_byte() {
    // one literal, then a match of 4 + 1 bytes at offset 1, then the closing token
    assert_eq!(decompress(&[0x11, 0x41, 0x01, 0x00, 0x00], 6), Ok(b"AAAAAA".to_vec()));
    // a token whose low nibble is 0 stands for a match of 4 bytes
    assert_eq!(decompress(&[0x10, 0x41, 0x01, 0x00, 0x00], 6), Ok(b"AAAAA".to_vec()));
}

#[test]
fn block_that_ends_with_a_match_is_rejected() {
    assert_eq!(decompress(&[0x10, 0x41, 0x01, 0x00], 64), Err(DecompressError));
    assert_eq!(decompress(&[0x11, 0x41, 0x01, 0x00], 64), Err(DecompressError));
}

#[test]
fn match_of_ten_at_offset_one_gives_eleven_bytes() {
    let r = decompress(&[0x16, 0x41, 0x01, 0x00, 0x00], 11);
    assert_eq!(r, Ok(vec![0x41; 11]));
    assert_eq!(decompress(&[0x16, 0x41, 0x01, 0x00, 0x00], 10), Err(DecompressError));
}

#[test]
fn overlapping_match_repeats_a_pattern() {
    // "ab", then 7 bytes from 2 back, then "!"
    let r = decompress(&[0x23, b'a', b'b', 0x02, 0x00, 0x10, b'!'], 64);
    assert_eq!(r, Ok(b"ababababa!".to_vec()));
}

#[test]
fn offset_zero_is_rejected() {
    let d = &[0x40, b'A', b'B', b'C', b'D', 0x00, 0x00];
    assert_eq!(decompress(d, 64), Err(DecompressError));
    let closed = &[0x40, b'A', b'B', b'C', b'D', 0x00, 0x00, 0x00];
    assert_eq!(decompress(closed, 64), Err(DecompressError));
}

#[test]
fn offset_zero_is_rejected_on_the_short_token_path() {
    let mut d = vec![0x40, b'A', b'B', b'C', b'D', 0x00, 0x00];
    d.push(0xF0);
    d.push(5);
    d.extend_from_slice(&distinct(20));
    assert_eq!(decompress(&d, 64), Err(DecompressError));
    d[5] = 4;
    assert!(decompress(&d, 64).is_ok());
}

#[test]
fn offset_before_the_start_is_rejected() {
    let d = &[0x40, b'A', b'B', b'C', b'D', 0x05, 0x00, 0x00];
    assert_eq!(decompress(d, 64), Err(DecompressError));
    let ok = &[0x40, b'A', b'B', b'C', b'D', 0x04, 0x00, 0x00];
    assert_eq!(decompress(ok, 64), Ok(b"ABCDABCD".to_vec()));
}

#[test]
fn offset_uses_both_bytes() {
    let lits = distinct(300);
    let mut d = vec![0xF0, 255, 30];
    d.extend_from_slice(&lits);
    d.extend_from_slice(&[0x2C, 0x01]);
    d.push(0x00);
    let mut expected = lits.clone();
    expected.extend_from_slice(&lits[0..4]);
    assert_eq!(decompress(&d, 304), Ok(expected));
}

#[test]
fn truncated_input_is_rejected() {
    // literals cut short
    assert_eq!(decompress(&[0x40, b'A', b'B'], 64), Err(DecompressError));
    // one byte of an offset
    assert_eq!(decompress(&[0x10, b'A', 0x01], 64), Err(DecompressError));
    // match-length extension missing
    assert_eq!(decompress(&[0x1F, b'A', 0x01, 0x00], 64), Err(DecompressError));
    // match-length extension that ends in the sentinel
    assert_eq!(decompress(&[0x1F, b'A', 0x01, 0x00, 255], 1 << 12), Err(DecompressError));
    assert_eq!(decompress(&[0x1F, b'A', 0x01, 0x00, 255, 255], 1 << 12), Err(DecompressError));
    // literal-length extension missing
    assert_eq!(decompress(&[0xF0], 64), Err(DecompressError));
    assert_eq!(decompress(&[0xF0, 255], 1 << 12), Err(DecompressError));
}

#[test]
fn output_past_the_limit_is_rejected() {
    let d = &[0x40, b'A', b'B', b'C', b'D', 0x04, 0x00, 0x00];
    assert_eq!(decompress(d, 8), Ok(b"ABCDABCD".to_vec()));
    // the match does not fit
    assert_eq!(decompress(d, 7), Err(DecompressError));
    // the literals do not fit
    assert_eq!(decompress(d, 3), Err(DecompressError));
    assert_eq!(decompress(d, 0), Err(DecompressError));
}

#[test]
fn result_is_never_longer_than_the_limit() {
    let lits = distinct(40);
    let mut d = vec![0xFF, 25];
    d.extend_from_slice(&lits);
    d.extend_from_slice(&[40, 0, 11]);
    d.push(0x00);
    for max in 0..100 {
        match decompress(&d, max) {
            Ok(v) => {
                assert!(v.len() <= max);
                assert_eq!(v.len(), 70);
            }
            Err(e) => {
                assert_eq!(e, DecompressError);
                assert!(max < 70);
            }
        }
    }
}

#[test]
fn long_literal_run_adds_its_extension_bytes() {
    let lits = distinct(15 + 255 + 255 + 7);
    let mut d = vec![0xF0, 255, 255, 7];
    d.extend_from_slice(&lits);
    assert_eq!(decompress(&d, lits.len()), Ok(lits.clone()));
    assert_eq!(decompress(&d, lits.len() - 1), Err(DecompressError));

    let lits = distinct(15);
    let mut d = vec![0xF0, 0];
    d.extend_from_slice(&lits);
    assert_eq!(decompress(&d, 15), Ok(lits));

    let lits = distinct(15 + 255);
    let mut d = vec![0xF0, 255, 0];
    d.extend_from_slice(&lits);
    assert_eq!(decompress(&d, 270), Ok(lits));
}

#[test]
fn long_match_adds_its_extension_bytes() {
    // 4 literals, then a match of 4 + 15 + 255 + 3 bytes at offset 4
    let d = &[0x4F, b'A', b'B', b'C', b'D', 0x04, 0x00, 255, 3, 0x00];
    let r = decompress(d, 1000).unwrap();
    assert_eq!(r.len(), 4 + 277);
    for (k, c) in r.iter().enumerate() {
        assert_eq!(*c, b"ABCD"[k % 4]);
    }
    assert_eq!(decompress(d, 280), Err(DecompressError));
    // exactly 4 + 15: one extension byte of zero
    let d = &[0x4F, b'A', b'B', b'C', b'D', 0x04, 0x00, 0, 0x00];
    assert_eq!(decompress(d, 23).unwrap().len(), 23);
}

#[test]
fn short_tokens_with_room_copy_whole_blocks() {
    // 4 literals and a match of 4 at offset 4, then 10 closing literals:
    // sixteen bytes follow the first token, so it is decoded by block copies
    let tail = distinct(10);
    let mut d = vec![0x40, b'W', b'X', b'Y', b'Z', 0x04, 0x00, 0xA0];
    d.extend_from_slice(&tail);
    let mut expected = b"WXYZWXYZ".to_vec();
    expected.extend_from_slice(&tail);
    // with room to spare, and with none: the same bytes
    assert_eq!(decompress(&d, 64), Ok(expected.clone()));
    assert_eq!(decompress(&d, 18), Ok(expected.clone()));
    assert_eq!(decompress(&d, 17), Err(DecompressError));
}

#[test]
fn short_tokens_with_room_and_overlap_copy_byte_by_byte() {
    let tail = distinct(16);
    let mut d = vec![0x16, 0x41, 0x01, 0x00, 0xF0, 1];
    d.extend_from_slice(&tail);
    let mut expected = vec![0x41; 11];
    expected.extend_from_slice(&tail);
    assert_eq!(decompress(&d, 64), Ok(expected.clone()));
    assert_eq!(decompress(&d, 27), Ok(expected));
}

#[test]
fn short_literals_before_a_long_match() {
    // 3 literals copied as a block of sixteen, then a match of 20 at offset 3
    let tail = distinct(20);
    let mut d = vec![0x3F, b'x', b'y', b'z', 0x03, 0x00, 1, 0xF0, 5];
    d.extend_from_slice(&tail);
    let mut expected = Vec::new();
    for k in 0..23 {
        expected.push(b"xyz"[k % 3]);
    }
    expected.extend_from_slice(&tail);
    assert_eq!(decompress(&d, 100), Ok(expected.clone()));
    assert_eq!(decompress(&d, 43), Ok(expected));
}

#[test]
fn long_literals_and_long_disjoint_match_copy_in_chunks() {
    let lits = distinct(40);
    let tail = distinct(25);
    // 40 literals, a match of 30 at offset 40, then 25 closing literals
    let mut d = vec![0xFF, 25];
    d.extend_from_slice(&lits);
    d.extend_from_slice(&[40, 0, 11]);
    d.extend_from_slice(&[0xF0, 10]);
    d.extend_from_slice(&tail);
    let mut expected = lits.clone();
    expected.extend_from_slice(&lits[0..30]);
    expected.extend_from_slice(&tail);
    assert_eq!(decompress(&d, 500), Ok(expected.clone()));
    assert_eq!(decompress(&d, 95), Ok(expected));
    assert_eq!(decompress(&d, 94), Err(DecompressError));
}

#[test]
fn long_overlapping_match() {
    let lits = distinct(20);
    // 20 literals, a match of 50 at offset 20
    let mut d = vec![0xFF, 5];
    d.extend_from_slice(&lits);
    d.extend_from_slice(&[20, 0, 31, 0x00]);
    let mut expected = Vec::new();
    for k in 0..70 {
        expected.push(lits[k % 20]);
    }
    assert_eq!(decompress(&d, 500), Ok(expected.clone()));
    assert_eq!(decompress(&d, 70), Ok(expected));
}

#[test]
fn several_sequences() {
    // "abcd" + match(4 back, 4) ; "EF" + match(2 back, 6) ; "!"
    let d = &[
        0x40, b'a', b'b', b'c', b'd', 0x04, 0x00, 0x22, b'E', b'F', 0x02, 0x00, 0x10, b'!',
    ];
    assert_eq!(decompress(d, 64), Ok(b"abcdabcdEFEFEFEF!".to_vec()));
    assert_eq!(decompress(d, 17), Ok(b"abcdabcdEFEFEFEF!".to_vec()));
    assert_eq!(decompress(d, 16), Err(DecompressError));
}

#[test]
fn blocks_of_another_encoder_decode() {
    let mut inputs: Vec<Vec<u8>> = vec![
        Vec::new(),
        b"a".to_vec(),
        b"hellohello".to_vec(),
        b"The quick brown fox jumps over the lazy dog. The quick brown fox again.".to_vec(),
        vec![0u8; 5000],
        distinct(3000),
    ];
    let mut mixed = Vec::new();
    for k in 0..4000usize {
        mixed.push(((k / 7) % 13 + (k % 5)) as u8);
    }
    inputs.push(mixed);
    for s in inputs {
        let e = lz4_flex::block::compress(&s);
        assert_eq!(decompress(&e, s.len()), Ok(s.clone()));
        assert_eq!(decompress(&e, s.len() + 100), Ok(s.clone()));
        if !s.is_empty() {
            assert_eq!(decompress(&e, s.len() - 1), Err(DecompressError));
        }
    }
}

#[test]
fn arbitrary_bytes_give_a_result_within_the_limit() {
    let mut x: u32 = 12345;
    let mut next = move || {
        x = x.wrapping_mul(1_664_525).wrapping_add(1_013_904_223);
        (x >> 16) as usize
    };
    for _ in 0..20000 {
        let n = next() % 48;
        let mut d = Vec::with_capacity(n);
        for _ in 0..n {
            // small values keep lengths and offsets plausible
            let c = next();
            d.push(if c % 3 == 0 { (c >> 4) as u8 } else { (c % 20) as u8 });
        }
        let max = next() % 200;
        if let Ok(v) = decompress(&d, max) {
            assert!(v.len() <= max);
        }
    }
}

#[test]
fn damaged_blocks_give_a_result_within_the_limit() {
    let mut s = Vec::new();
    for k in 0..600usize {
        s.push(((k / 9) % 7 + (k % 4)) as u8);
    }
    let e = lz4_flex::block::compress(&s);
    assert_eq!(decompress(&e, s.len()), Ok(s.clone()));
    for at in 0..e.len() {
        for bit in 0..8 {
            let mut d = e.clone();
            d[at] ^= 1 << bit;
            for max in [0, 100, s.len(), s.len() + 40] {
                if let Ok(v) = decompress(&d, max) {
                    assert!(v.len() <= max);
                }
            }
        }
        // and cut short
        if let Ok(v) = decompress(&e[..at], s.len()) {
            assert!(v.len() <= s.len());
        }
    }
}
