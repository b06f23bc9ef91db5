use kicad_spaghetti::typed_idx::{at, idx, set_at, Idx};

#[test]
fn idx_round_trips_its_position() {
    let i: Idx<u8> = idx(5);
    assert_eq!(i.as_usize(), 5);
    assert!(!i.is_zero());
    assert!(Idx::<u8>::zero().is_zero());
    assert_eq!(Idx::<u8>::one().as_usize(), 1);
}

#[test]
fn idx_compares_by_position() {
    let a: Idx<u8> = idx(2);
    let b: Idx<u8> = idx(3);
    assert!(a < b);
    assert!(a == idx(2));
    assert!(a != b);
    assert_eq!(a.partial_cmp(&b), Some(std::cmp::Ordering::Less));
    assert_eq!(b.partial_cmp(&a), Some(std::cmp::Ordering::Greater));
    assert_eq!(a.partial_cmp(&a.clone()), Some(std::cmp::Ordering::Equal));
}

#[test]
fn idx_reads_and_writes_vectors() {
    let mut v = vec![10u8, 20, 30];
    assert_eq!(*at(&v, idx(1)), 20);
    set_at(&mut v, idx(2), 99);
    assert_eq!(v, vec![10, 20, 99]);
}
