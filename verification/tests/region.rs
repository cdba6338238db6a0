use bklog::error::Fault;
use bklog::region::read_exact_at;
use bklog::region::write_all_at;

#[test]
fn reads_the_bytes_at_the_offset() {
    let region = [0u8, 1, 2, 3, 4, 5];
    assert_eq!(read_exact_at(&region, 2, 3), Ok(vec![2, 3, 4]));
    assert_eq!(read_exact_at(&region, 6, 0), Ok(vec![]));
    assert_eq!(read_exact_at(&region, 0, 6), Ok(vec![0, 1, 2, 3, 4, 5]));
}

#[test]
fn read_past_the_end_is_a_short_read() {
    let region = [0u8, 1, 2, 3];
    assert_eq!(read_exact_at(&region, 2, 3), Err(Fault::UnexpectedEof));
    assert_eq!(read_exact_at(&region, 5, 0), Err(Fault::UnexpectedEof));
    assert_eq!(read_exact_at(&region, u64::MAX, 1), Err(Fault::UnexpectedEof));
}

#[test]
fn writes_the_bytes_at_the_offset() {
    let mut region = vec![0u8; 6];
    assert_eq!(write_all_at(&mut region, &[7, 8], 3), Ok(()));
    assert_eq!(region, vec![0, 0, 0, 7, 8, 0]);
}

#[test]
fn write_past_the_end_changes_nothing() {
    let mut region = vec![1u8; 4];
    assert_eq!(write_all_at(&mut region, &[7, 8], 3), Err(Fault::WriteZero));
    assert_eq!(region, vec![1u8; 4]);
}
