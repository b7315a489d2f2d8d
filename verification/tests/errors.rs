use lzf::{compress, decompress, LzfError, LzfResult};

#[test]
fn each_error_has_its_message() {
    assert_eq!(
        "the given buffer is too small to handle the uncompressed data",
        LzfError::BufferTooSmall.message()
    );
    assert_eq!("the given data is corrupted", LzfError::DataCorrupted.message());
    assert_eq!("the input data cannot be compressed", LzfError::NoCompressionPossible.message());
    assert_eq!("unknown error, code 0", LzfError::UnknownError(0).message());
    assert_eq!("unknown error, code 7", LzfError::UnknownError(7).message());
    assert_eq!("unknown error, code 42", LzfError::UnknownError(42).message());
    assert_eq!("unknown error, code 1000", LzfError::UnknownError(1000).message());
    assert_eq!("unknown error, code -1", LzfError::UnknownError(-1).message());
    assert_eq!("unknown error, code 2147483647", LzfError::UnknownError(i32::MAX).message());
    assert_eq!("unknown error, code -2147483648", LzfError::UnknownError(i32::MIN).message());
}

#[test]
fn foreign_codes_are_mapped() {
    assert_eq!(LzfError::BufferTooSmall, LzfError::from_errno(Some(7)));
    assert_eq!(LzfError::DataCorrupted, LzfError::from_errno(Some(22)));
    assert_eq!(LzfError::UnknownError(5), LzfError::from_errno(Some(5)));
    assert_eq!(LzfError::UnknownError(-3), LzfError::from_errno(Some(-3)));
    assert_eq!(LzfError::UnknownError(0), LzfError::from_errno(Some(0)));
    assert_eq!(LzfError::UnknownError(0), LzfError::from_errno(None));
}

#[test]
fn each_error_is_returned_for_some_input() {
    let mut buffer = [0u8; 2];
    assert_eq!(Err(LzfError::BufferTooSmall), decompress(&[2, 1, 2, 3], &mut buffer));
    assert_eq!(Err(LzfError::DataCorrupted), decompress(&[1, 1], &mut buffer));
    assert_eq!(Err(LzfError::NoCompressionPossible), compress(&[1, 2, 3, 4]));
    let foreign: LzfResult<usize> = Err(LzfError::from_errno(Some(12)));
    assert_eq!(Err(LzfError::UnknownError(12)), foreign);
}

#[test]
fn errors_are_compared_and_copied() {
    let err = LzfError::UnknownError(3);
    let copy = err;
    assert_eq!(err, copy);
    assert_ne!(LzfError::UnknownError(3), LzfError::UnknownError(4));
    assert_ne!(LzfError::BufferTooSmall, LzfError::DataCorrupted);
    assert_eq!("UnknownError(3)", format!("{:?}", err.clone()));
}
