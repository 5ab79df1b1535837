use otspec::{DeserializationError, ReaderContext};

#[test]
fn follow_offset_past_end_is_reported() {
    let mut rc = ReaderContext::new(vec![0, 1, 2, 3, 4, 5]);
    rc.skip(2);
    rc.push();
    assert_eq!(rc.follow_offset(5), Err(DeserializationError::OffsetOutOfRange));
    assert_eq!(rc.ptr, 2);
    assert_eq!(rc.follow_offset(0xFFFF), Err(DeserializationError::OffsetOutOfRange));
    assert_eq!(rc.follow_offset(4), Ok(()));
    assert_eq!(rc.ptr, 6);
}

#[test]
fn follow_offset_is_relative_to_innermost_table() {
    let mut rc = ReaderContext::new(vec![10, 11, 12, 13, 14, 15, 16, 17]);
    rc.follow_offset(1).unwrap();
    assert_eq!(rc.ptr, 1);
    rc.skip(2);
    rc.push();
    assert_eq!(rc.top_of_table(), 3);
    rc.follow_offset(2).unwrap();
    assert_eq!(rc.ptr, 5);
    rc.pop();
    assert_eq!(rc.top_of_table(), 0);
    rc.follow_offset(2).unwrap();
    assert_eq!(rc.ptr, 2);
}

#[test]
fn consume_and_peek() {
    let mut rc = ReaderContext::new(vec![1, 2, 3]);
    assert_eq!(rc.peek(2).unwrap(), vec![1, 2]);
    assert_eq!(rc.ptr, 0);
    assert_eq!(rc.consume(2).unwrap(), vec![1, 2]);
    assert_eq!(rc.ptr, 2);
    assert_eq!(rc.consume(2), Err(DeserializationError::UnexpectedEof));
    assert_eq!(rc.ptr, 2);
    assert_eq!(rc.peek(1).unwrap(), vec![3]);
}
