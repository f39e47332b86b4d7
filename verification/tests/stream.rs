use notepad::stream::{MemoryStream, StreamError, SEEK_CUR, SEEK_END, SEEK_SET};

#[test]
fn what_is_written_is_read_back() {
    let mut s = MemoryStream::new();
    assert_eq!(s.write(b"hello"), 5);
    assert_eq!(s.write(b" world"), 6);
    assert_eq!(s.tell(), 11);
    assert_eq!(s.read(4), Ok(vec![]));
    s.rewind();
    assert_eq!(s.read(5), Ok(b"hello".to_vec()));
    assert_eq!(s.read(100), Ok(b" world".to_vec()));
    assert_eq!(s.data(), b"hello world");
}

#[test]
fn a_write_in_the_middle_overwrites_and_extends() {
    let mut s = MemoryStream::with_data(b"abcdef".to_vec());
    assert_eq!(s.seek(2, SEEK_SET), Ok(2));
    s.write(b"XY");
    assert_eq!(s.data(), b"abXYef");
    assert_eq!(s.seek(-1, SEEK_END), Ok(5));
    s.write(b"123");
    assert_eq!(s.data(), b"abXYe123");
}

#[test]
fn seeks_stay_inside_the_data() {
    let mut s = MemoryStream::with_data(vec![0; 10]);
    assert_eq!(s.seek(99, SEEK_SET), Ok(10));
    assert_eq!(s.seek(-99, SEEK_CUR), Ok(0));
    assert_eq!(s.seek(4, SEEK_CUR), Ok(4));
    assert_eq!(s.seek(3, SEEK_CUR), Ok(7));
    assert_eq!(s.seek(i64::MAX, SEEK_END), Ok(10));
    assert_eq!(s.seek(i64::MIN, SEEK_CUR), Ok(0));
    assert_eq!(s.seek(0, 3), Err(StreamError::InvalidArgument));
    assert_eq!(s.tell(), 0);
}

#[test]
fn a_negative_count_is_refused() {
    let mut s = MemoryStream::with_data(vec![1, 2, 3]);
    assert_eq!(s.read(-1), Err(StreamError::InvalidArgument));
    assert_eq!(s.tell(), 0);
    assert_eq!(s.read(0), Ok(vec![]));
    assert!(MemoryStream::default().data().is_empty());
}
