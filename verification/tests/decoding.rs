use lzf::{compress, decompress, LzfError};

const LOREM: &str = "Lorem ipsum dolor sit amet, consetetur sadipscing elitr, sed diam nonumy eirmod \
                     tempor invidunt ut labore et dolore magna aliquyam erat, sed diam voluptua. At \
                     vero eos et accusam et justo duo dolores et ea rebum. Stet clita kasd gubergren, \
                     no sea takimata sanctus est Lorem ipsum dolor sit amet. Lorem ipsum dolor sit \
                     amet, consetetur sadipscing elitr, sed diam nonumy eirmod tempor invidunt ut \
                     labore et dolore magna aliquyam erat, sed diam voluptua.";

#[test]
fn decompress_test_decompress_lorem() {
    let compressed = compress(LOREM.as_bytes()).unwrap();

    let mut decompressed = vec![0; LOREM.len()];
    let len = decompress(&compressed[..], &mut decompressed).unwrap();
    assert_eq!(LOREM.as_bytes(), &decompressed[..len]);

    let mut decompressed = vec![0; 1000];
    let len = decompress(&compressed[..], &mut decompressed).unwrap();
    assert_eq!(LOREM.len(), len);
}

#[test]
fn decompress_test_decompress_fails_with_short_buffer() {
    let compressed = match compress(LOREM.as_bytes()) {
        Ok(c) => c,
        Err(err) => panic!("Compression failed with error {:?}", err),
    };

    let mut buffer = [0; 10];
    match decompress(&compressed, &mut buffer) {
        Ok(_) => panic!("Decompression worked. That should not happen"),
        Err(err) => assert_eq!(LzfError::BufferTooSmall, err),
    }
}

#[test]
fn decompress_test_decompress_fails_for_corrupted_data() {
    let lorem = "Lorem ipsum dolor sit amet";

    let mut buffer = vec![0; lorem.len()];
    match decompress(lorem.as_bytes(), &mut buffer) {
        Ok(_) => panic!("Decompression worked. That should not happen"),
        Err(err) => assert_eq!(LzfError::DataCorrupted, err),
    }
}

#[test]
fn test_alice_wonderland() {
    let alice = "\r\n\r\n\r\n\r\n                ALICE'S ADVENTURES IN WONDERLAND\r\n";

    let compressed = match compress(alice.as_bytes()) {
        Ok(c) => c,
        Err(err) => panic!("Compression failed with error {:?}", err),
    };

    let mut decompressed = vec![0; alice.len()];
    match decompress(&compressed, &mut decompressed) {
        Ok(len) => {
            assert_eq!(alice.len(), len);
            assert_eq!(alice.as_bytes(), &decompressed[..len]);
        }
        Err(err) => panic!("Decompression failed with error {:?}", err),
    }
}

#[test]
fn easily_compressible() {
    // RDB regression
    let data = vec![1, 97, 97, 224, 187, 0, 1, 97, 97];

    let mut text = [0; 200];
    let len = decompress(&data, &mut text).unwrap();
    assert_eq!(200, len);
    assert_eq!(97, text[0]);
    assert_eq!(97, text[199]);
}

#[test]
fn decompress_test_empty() {
    let mut buf = [0; 10];
    assert_eq!(LzfError::DataCorrupted, decompress(&[], &mut buf).unwrap_err());
}
