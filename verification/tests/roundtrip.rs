use lzf::{compress, LzfError};
use quickcheck::{quickcheck, TestResult};

fn compress_decompress_round(data: Vec<u8>) -> TestResult {
    let compr = match compress(&data) {
        Ok(compr) => compr,
        Err(LzfError::NoCompressionPossible) => return TestResult::discard(),
        Err(LzfError::DataCorrupted) => return TestResult::discard(),
        Err(e) => panic!("{:?}", e),
    };
    let decompr = lzf::native::decompress(&compr, data.len()).unwrap();
    TestResult::from_bool(data == decompr)
}

#[test]
fn qc_roundtrip() {
    quickcheck(compress_decompress_round as fn(_) -> _);
}
