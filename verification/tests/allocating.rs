use lzf::native::decompress;
use lzf::{compress, LzfError};

const LOREM: &str = "Lorem ipsum dolor sit amet, consetetur sadipscing elitr, sed diam nonumy eirmod \
                     tempor invidunt ut labore et dolore magna aliquyam erat, sed diam voluptua. At \
                     vero eos et accusam et justo duo dolores et ea rebum. Stet clita kasd gubergren, \
                     no sea takimata sanctus est Lorem ipsum dolor sit amet. Lorem ipsum dolor sit \
                     amet, consetetur sadipscing elitr, sed diam nonumy eirmod tempor invidunt ut \
                     labore et dolore magna aliquyam erat, sed diam voluptua.";

#[test]
fn native_test_decompress_lorem() {
    let compressed = compress(LOREM.as_bytes()).unwrap();

    let decompressed = decompress(&compressed[..], LOREM.len()).unwrap();
    assert_eq!(LOREM.as_bytes(), &decompressed[..]);

    let decompressed = decompress(&compressed[..], 1000).unwrap();
    assert_eq!(LOREM.len(), decompressed.len());
}

#[test]
fn native_test_decompress_fails_with_short_buffer() {
    let compressed = match compress(LOREM.as_bytes()) {
        Ok(c) => c,
        Err(err) => panic!("Compression failed with error {:?}", err),
    };

    match decompress(&compressed, 10) {
        Ok(_) => panic!("Decompression worked. That should not happen"),
        Err(err) => assert_eq!(LzfError::BufferTooSmall, err),
    }
}

#[test]
fn native_test_decompress_fails_for_corrupted_data() {
    let lorem = "Lorem ipsum dolor sit amet";

    match decompress(lorem.as_bytes(), lorem.len()) {
        Ok(_) => panic!("Decompression worked. That should not happen"),
        Err(err) => assert_eq!(LzfError::DataCorrupted, err),
    }
}

#[test]
fn lib_test_decompress_fails_with_short_buffer() {
    let compressed = match compress(LOREM.as_bytes()) {
        Ok(c) => c,
        Err(err) => panic!("Compression failed with error {:?}", err),
    };

    match decompress(&compressed, 10) {
        Ok(_) => panic!("Decompression worked. That should not happen"),
        Err(err) => assert_eq!(LzfError::BufferTooSmall, err),
    }
}

#[test]
fn lib_test_decompress_fails_for_corrupted_data() {
    let lorem = "Lorem ipsum dolor sit amet";

    match decompress(lorem.as_bytes(), lorem.len()) {
        Ok(_) => panic!("Decompression worked. That should not happen"),
        Err(err) => assert_eq!(LzfError::DataCorrupted, err),
    }
}

#[test]
fn lib_test_empty() {
    assert_eq!(LzfError::DataCorrupted, decompress(&[], 10).unwrap_err());
}
