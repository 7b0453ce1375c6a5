use iobuf::{BufferVec, ErrorKind, ScriptedSource};

#[test]
fn new_buffer_is_empty() {
    let b = BufferVec::new(4);
    assert_eq!(b.len(), 0);
    assert_eq!(b.cap(), 4);
    assert!(!b.is_full());
    assert_eq!(b.read(), &[] as &[u8]);
}

#[test]
fn copy_from_truncates_to_capacity() {
    let mut b = BufferVec::new(4);
    let n = b.copy_from(&[1, 2, 3, 4, 5, 6]);
    assert_eq!(n, 4);
    assert_eq!(b.read(), &[1, 2, 3, 4]);
    assert!(b.is_full());
    let m = b.copy_from(&[7]);
    assert_eq!(m, 0);
    assert_eq!(b.read(), &[1, 2, 3, 4]);
}

#[test]
fn copy_from_returns_min_of_space_and_input() {
    let mut b = BufferVec::new(5);
    assert_eq!(b.copy_from(&[1, 2]), 2);
    assert_eq!(b.copy_from(&[3, 4, 5, 6]), 3);
    assert_eq!(b.read(), &[1, 2, 3, 4, 5]);
}

#[test]
fn rotate_left_zero_is_a_no_op() {
    let mut b = BufferVec::from_slice(&[1, 2, 3, 4], 4);
    b.rotate_left(0);
    assert_eq!(b.read(), &[1, 2, 3, 4]);
    assert_eq!(b.len(), 4);
}

#[test]
fn rotate_left_shifts_remainder_to_front() {
    let mut b = BufferVec::from_slice(&[1, 2, 3, 4], 4);
    b.rotate_left(2);
    assert_eq!(b.read(), &[3, 4]);
    assert_eq!(b.len(), 2);
    assert_eq!(b.cap(), 4);
}

#[test]
fn rotate_left_by_size_empties_the_buffer() {
    let mut b = BufferVec::from_slice(&[1, 2, 3], 3);
    b.rotate_left(3);
    assert_eq!(b.len(), 0);
    assert_eq!(b.read(), &[] as &[u8]);
    assert_eq!(b.cap(), 3);
}

#[test]
fn write_then_advance_commits_bytes() {
    let mut b = BufferVec::new(3);
    {
        let w = b.write();
        assert_eq!(w.len(), 3);
        w[0] = 7;
        w[1] = 8;
    }
    b.advance(2);
    assert_eq!(b.read(), &[7, 8]);
    assert_eq!(b.write().len(), 1);
}

#[test]
fn read_n_requires_enough_data() {
    let b = BufferVec::from_slice(&[1, 2, 3], 5);
    assert_eq!(b.read_n(2), Some(&[1, 2][..]));
    assert_eq!(b.read_n(3), Some(&[1, 2, 3][..]));
    assert_eq!(b.read_n(4), None);
    assert_eq!(b.read_n(0), Some(&[][..]));
}

#[test]
fn ends_with_checks_the_committed_suffix() {
    let b = BufferVec::from_slice(&[1, 2, 3, 4], 8);
    assert!(b.ends_with(&[3, 4]));
    assert!(b.ends_with(&[]));
    assert!(b.ends_with(&[1, 2, 3, 4]));
    assert!(!b.ends_with(&[2, 3]));
    assert!(!b.ends_with(&[0, 1, 2, 3, 4]));
}

#[test]
fn to_vec_keeps_only_committed_bytes() {
    let b = BufferVec::from_slice(&[9, 8], 6);
    assert_eq!(b.to_vec(), vec![9, 8]);
}

#[test]
fn from_vec_grows_capacity_when_asked() {
    let b = BufferVec::from_vec(vec![1, 2, 3], 6);
    assert_eq!(b.read(), &[1, 2, 3]);
    assert_eq!(b.cap(), 6);
    let c = BufferVec::from_vec(vec![1, 2, 3], 2);
    assert_eq!(c.read(), &[1, 2, 3]);
    assert_eq!(c.cap(), 3);
}

#[test]
fn from_slice_clamps_capacity_up_to_the_input() {
    let b = BufferVec::from_slice(&[1, 2, 3, 4, 5], 3);
    assert_eq!(b.read(), &[1, 2, 3, 4, 5]);
    assert_eq!(b.cap(), 5);
    let c = BufferVec::from_slice(&[1, 2], 4);
    assert_eq!(c.read(), &[1, 2]);
    assert_eq!(c.cap(), 4);
}

#[test]
fn commit_read_applies_one_read_outcome() {
    let mut b = BufferVec::from_slice(&[9], 4);
    assert_eq!(b.commit_read(Ok(vec![1, 2])), Ok(2));
    assert_eq!(b.read(), &[9, 1, 2]);
    assert_eq!(b.commit_read(Ok(vec![])), Err(ErrorKind::UnexpectedEof));
    assert_eq!(b.read(), &[9, 1, 2]);
    assert_eq!(b.commit_read(Err(ErrorKind::BrokenPipe)), Err(ErrorKind::BrokenPipe));
    assert_eq!(b.read(), &[9, 1, 2]);
}

#[test]
fn resize_cap_clamps_committed_bytes() {
    let mut b = BufferVec::from_slice(&[1, 2, 3, 4], 4);
    b.resize_cap(2);
    assert_eq!(b.read(), &[1, 2]);
    assert_eq!(b.cap(), 2);
    b.resize_cap(5);
    assert_eq!(b.read(), &[1, 2]);
    assert_eq!(b.cap(), 5);
}

#[test]
fn clear_discards_committed_bytes() {
    let mut b = BufferVec::from_slice(&[1, 2], 4);
    b.clear();
    assert_eq!(b.len(), 0);
    assert_eq!(b.cap(), 4);
}

#[test]
fn move_to_transfers_what_fits() {
    let mut a = BufferVec::from_slice(&[1, 2, 3], 3);
    let mut t = BufferVec::from_slice(&[9], 4);
    a.move_to(&mut t);
    assert_eq!(t.read(), &[9, 1, 2, 3]);
    assert_eq!(a.len(), 0);
}

#[test]
fn from_parts_concatenates_in_order() {
    let parts = vec![
        BufferVec::from_slice(&[1, 2], 4),
        BufferVec::from_slice(&[3], 1),
        BufferVec::new(2),
        BufferVec::from_slice(&[4, 5], 2),
    ];
    let merged = BufferVec::from_parts(parts);
    assert_eq!(merged.read(), &[1, 2, 3, 4, 5]);
    assert_eq!(merged.cap(), 9);
}

#[test]
fn fill_with_commits_one_read() {
    let mut b = BufferVec::new(4);
    let mut src = ScriptedSource::new(vec![Ok(vec![1, 2])]);
    assert_eq!(b.fill_with(&mut src), Ok(2));
    assert_eq!(b.read(), &[1, 2]);
}

#[test]
fn fill_with_treats_empty_read_as_eof() {
    let mut b = BufferVec::new(4);
    let mut src = ScriptedSource::new(vec![Ok(vec![])]);
    assert_eq!(b.fill_with(&mut src), Err(ErrorKind::UnexpectedEof));
    assert_eq!(b.len(), 0);
}

#[test]
fn fill_with_propagates_read_errors() {
    let mut b = BufferVec::new(4);
    let mut src = ScriptedSource::new(vec![Err(ErrorKind::Other)]);
    assert_eq!(b.fill_with(&mut src), Err(ErrorKind::Other));
    assert_eq!(b.len(), 0);
}

#[test]
fn fill_all_with_reads_until_full() {
    let mut b = BufferVec::from_slice(&[9], 4);
    let mut src = ScriptedSource::new(vec![Ok(vec![1, 2]), Ok(vec![3, 4, 5])]);
    assert_eq!(b.fill_all_with(&mut src), Ok(()));
    assert!(b.is_full());
    assert_eq!(b.read(), &[9, 1, 2, 3]);
}

#[test]
fn fill_all_with_fails_on_early_end_of_stream() {
    let mut b = BufferVec::new(4);
    let mut src = ScriptedSource::new(vec![Ok(vec![1])]);
    assert_eq!(b.fill_all_with(&mut src), Err(ErrorKind::UnexpectedEof));
    assert_eq!(b.read(), &[1]);
}
