use iobuf::RingVec;

#[test]
fn empty_ring_has_nothing() {
    let r: RingVec<u32> = RingVec::new(3);
    assert_eq!(r.get(0), None);
    assert!(!r.contains(&1));
}

#[test]
fn push_within_capacity_keeps_everything() {
    let mut r = RingVec::new(3);
    r.push(10);
    r.push(20);
    assert_eq!(r.get(0), Some(&10));
    assert_eq!(r.get(1), Some(&20));
    assert_eq!(r.get(2), None);
}

#[test]
fn overfull_ring_keeps_the_newest_window() {
    // capacity 3, five pushes: the two oldest items are overwritten
    let mut r = RingVec::new(3);
    for v in [1, 2, 3, 4, 5] {
        r.push(v);
    }
    assert_eq!(r.get(0), Some(&3));
    assert_eq!(r.get(1), Some(&4));
    assert_eq!(r.get(2), Some(&5));
    assert_eq!(r.get(3), None);
}

#[test]
fn one_past_capacity_drops_only_the_oldest() {
    let mut r = RingVec::new(4);
    for v in [1, 2, 3, 4, 5] {
        r.push(v);
    }
    assert_eq!(r.get(0), Some(&2));
    assert_eq!(r.get(3), Some(&5));
    assert_eq!(r.get(4), None);
}

#[test]
fn capacity_one_ring_keeps_the_latest() {
    let mut r = RingVec::new(1);
    r.push(7);
    r.push(8);
    assert_eq!(r.get(0), Some(&8));
    assert_eq!(r.get(1), None);
}

#[test]
fn contains_scans_occupied_slots() {
    let mut r = RingVec::new(3);
    r.push(1);
    r.push(2);
    assert!(r.contains(&1));
    assert!(r.contains(&2));
    assert!(!r.contains(&3));
}

#[test]
fn contains_after_wrap_sees_only_residents() {
    let mut r = RingVec::new(2);
    r.push(1);
    r.push(2);
    r.push(3);
    assert!(!r.contains(&1));
    assert!(r.contains(&2));
    assert!(r.contains(&3));
}
