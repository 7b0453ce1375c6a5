use iobuf::ExpandVec;

#[test]
fn len_is_the_sum_of_pushed_lengths() {
    let mut e: ExpandVec<u8> = ExpandVec::new();
    assert_eq!(e.len(), 0);
    e.push(&[1, 2]);
    e.push(&[3, 4, 5]);
    e.push(&[]);
    e.push(&[6]);
    assert_eq!(e.len(), 6);
}

#[test]
fn last_msg_peeks_at_the_newest_chunk() {
    let mut e: ExpandVec<u8> = ExpandVec::new();
    assert_eq!(e.last_msg(), None);
    e.push(&[1, 2]);
    e.push(&[3]);
    assert_eq!(e.last_msg(), Some(&[3][..]));
}

#[test]
fn pop_undoes_the_newest_push() {
    let mut e: ExpandVec<u8> = ExpandVec::new();
    e.push(&[1, 2]);
    e.push(&[3]);
    assert_eq!(e.pop(), Some(vec![3]));
    assert_eq!(e.len(), 2);
    assert_eq!(e.last_msg(), Some(&[1, 2][..]));
    assert_eq!(e.pop(), Some(vec![1, 2]));
    assert_eq!(e.pop(), None);
    assert_eq!(e.len(), 0);
}

#[test]
fn move_to_flattens_in_push_order_and_resets() {
    let mut e: ExpandVec<u32> = ExpandVec::new();
    e.push(&[1, 2]);
    e.push(&[3]);
    e.push(&[4, 5, 6]);
    let mut out = vec![0];
    e.move_to(&mut out);
    assert_eq!(out, vec![0, 1, 2, 3, 4, 5, 6]);
    assert_eq!(e.len(), 0);
    assert_eq!(e.last_msg(), None);
}

#[test]
fn move_to_of_an_empty_log_changes_nothing() {
    let mut e: ExpandVec<u32> = ExpandVec::new();
    let mut out = vec![7];
    e.move_to(&mut out);
    assert_eq!(out, vec![7]);
    assert_eq!(e.len(), 0);
}
