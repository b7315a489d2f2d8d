use lzf::{compress, decompress, LzfError};
use quickcheck::{quickcheck, TestResult};

fn samples() -> Vec<Vec<u8>> {
    let mut all: Vec<Vec<u8>> = Vec::new();
    all.push(Vec::new());
    all.push(vec![0]);
    all.push(vec![0, 0]);
    all.push(b"foo".to_vec());
    all.push(vec![7; 9]);
    all.push(vec![7; 33]);
    all.push(vec![7; 264]);
    all.push(vec![7; 265]);
    all.push(vec![7; 10_000]);
    all.push(b"abcabcabcabcabcabcabcabcabcabcabc".to_vec());
    all.push((0..2000u32).map(|i| (i % 7) as u8).collect());
    all.push((0..2000u32).map(|i| ((i * i) % 11) as u8).collect());
    all.push((0..70_000u32).map(|i| ((i / 3) % 256) as u8).collect());
    all.push((0..=255).collect());
    all
}

#[test]
fn what_is_compressed_decompresses_to_itself() {
    let mut compressed_some = 0;
    for data in samples() {
        if let Ok(packed) = compress(&data) {
            compressed_some += 1;
            let mut buffer = vec![0u8; data.len()];
            assert_eq!(Ok(data.len()), decompress(&packed, &mut buffer));
            assert_eq!(data, buffer);
            assert_eq!(Ok(data), lzf::native::decompress(&packed, buffer.len()));
        }
    }
    assert_eq!(9, compressed_some);
}

#[test]
fn what_is_compressed_is_not_longer() {
    for data in samples() {
        match compress(&data) {
            Ok(packed) => {
                assert!(packed.len() <= data.len());
                assert!(!packed.is_empty());
            }
            Err(err) => assert_eq!(LzfError::NoCompressionPossible, err),
        }
    }
}

#[test]
fn fewer_than_two_bytes_are_not_compressed() {
    assert_eq!(Err(LzfError::NoCompressionPossible), compress(&[]));
    for byte in 0..=255u8 {
        assert_eq!(Err(LzfError::NoCompressionPossible), compress(&[byte]));
    }
}

#[test]
fn empty_payload_is_corrupted() {
    for capacity in [0usize, 1, 10, 1000] {
        let mut buffer = vec![0u8; capacity];
        assert_eq!(Err(LzfError::DataCorrupted), decompress(&[], &mut buffer));
        assert_eq!(Err(LzfError::DataCorrupted), lzf::native::decompress(&[], capacity));
    }
}

#[test]
fn more_room_changes_nothing_for_what_decodes() {
    for data in samples() {
        if let Ok(packed) = compress(&data) {
            for extra in [0usize, 1, 7, 1000] {
                let decoded = lzf::native::decompress(&packed, data.len() + extra);
                assert_eq!(Ok(data.clone()), decoded);
            }
            if !data.is_empty() {
                assert_eq!(
                    Err(LzfError::BufferTooSmall),
                    lzf::native::decompress(&packed, data.len() - 1)
                );
            }
        }
    }
}

#[test]
fn more_room_changes_nothing_for_what_is_corrupted() {
    for capacity in [5usize, 6, 50, 5000] {
        assert_eq!(Err(LzfError::DataCorrupted), lzf::native::decompress(&[3, 1, 2, 3], capacity));
        assert_eq!(Err(LzfError::DataCorrupted), lzf::native::decompress(&[0, 1, 64, 1], capacity));
    }
}

#[test]
fn what_is_decoded_fits_the_capacity() {
    for capacity in 0..12usize {
        match lzf::native::decompress(&[1, 97, 98, 96, 1, 0, 99], capacity) {
            Ok(decoded) => {
                assert!(capacity >= 8);
                assert_eq!(vec![97, 98, 97, 98, 97, 98, 97, 99], decoded);
            }
            Err(err) => {
                assert!(capacity < 8);
                assert_eq!(LzfError::BufferTooSmall, err);
            }
        }
    }
}

#[test]
fn a_copy_from_behind_repeats_the_last_bytes() {
    // three bytes, then 264 copied from three back
    let decoded = lzf::native::decompress(&[2, 1, 2, 3, 224, 255, 2], 267).unwrap();
    assert_eq!(267, decoded.len());
    for (i, byte) in decoded.iter().enumerate() {
        assert_eq!((i % 3) as u8 + 1, *byte);
    }
}

#[test]
fn compressing_twice_gives_the_same() {
    for data in samples() {
        assert_eq!(compress(&data), compress(&data));
    }
}

fn both_decoders_agree(data: Vec<u8>) -> bool {
    let capacity = data.len() * 2;
    let mut buffer = vec![0u8; capacity];
    let into_buffer = decompress(&data, &mut buffer).map(|len| buffer[..len].to_vec());
    let allocated = lzf::native::decompress(&data, capacity);
    into_buffer == allocated
}

#[test]
fn qc_random_payloads_are_decoded_or_refused() {
    quickcheck(both_decoders_agree as fn(_) -> _);
}

fn repetitive_round(seed: Vec<u8>, times: u8) -> TestResult {
    if seed.is_empty() {
        return TestResult::discard();
    }
    let mut data = Vec::new();
    for _ in 0..(times as usize + 2) {
        data.extend_from_slice(&seed);
    }
    match compress(&data) {
        Ok(packed) => TestResult::from_bool(
            packed.len() <= data.len() && lzf::native::decompress(&packed, data.len()) == Ok(data),
        ),
        Err(err) => TestResult::from_bool(err == LzfError::NoCompressionPossible),
    }
}

#[test]
fn qc_repetitive_data_round_trips() {
    quickcheck(repetitive_round as fn(_, _) -> _);
}
