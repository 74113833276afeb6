use frodo_ring::FrodoRing;

#[test]
fn iter() {
    let mut ring = FrodoRing::<u8, 4>::new();

    assert!(ring.push(0x1).is_ok());
    assert!(ring.push(0x2).is_ok());
    assert!(ring.push(0x3).is_ok());
    assert!(ring.push(0x4).is_ok());

    assert_eq!(ring.remove_at(1), Some(0x2));
    let mut it = ring.iter();
    assert_eq!(it.next(), Some(&0x1));
    assert_eq!(it.next(), Some(&0x3));
    assert_eq!(it.next(), Some(&0x4));
    assert_eq!(it.next(), None);

    assert!(ring.push(0x5).is_ok());
    let mut it = ring.iter();
    assert_eq!(it.next(), Some(&0x1));
    assert_eq!(it.next(), Some(&0x3));
    assert_eq!(it.next(), Some(&0x4));
    assert_eq!(it.next(), Some(&0x5));
    assert_eq!(it.next(), None);

    assert_eq!(ring.remove_at(0), Some(0x1));
    let mut it = ring.iter();
    assert_eq!(it.next(), Some(&0x3));
    assert_eq!(it.next(), Some(&0x4));
    assert_eq!(it.next(), Some(&0x5));
    assert_eq!(it.next(), None);

    assert_eq!(ring.remove_at(1), Some(0x4));
    let mut it = ring.iter();
    assert_eq!(it.next(), Some(&0x3));
    assert_eq!(it.next(), Some(&0x5));
    assert_eq!(ring.at(3), None);

    assert!(ring.push(0x6).is_ok());
    let mut it = ring.iter();
    assert_eq!(it.next(), Some(&0x3));
    assert_eq!(it.next(), Some(&0x5));
    assert_eq!(it.next(), Some(&0x6));
    assert_eq!(it.next(), None);
    assert_eq!(it.next(), None);
    assert_eq!(it.next(), None);

    assert!(ring.push(0x7).is_ok());
    let mut it = ring.iter();
    assert_eq!(it.next(), Some(&0x3));
    assert_eq!(it.next(), Some(&0x5));
    assert_eq!(it.next(), Some(&0x6));
    assert_eq!(it.next(), Some(&0x7));
    assert_eq!(it.next(), None);
}

#[test]
fn iter_empty_ring() {
    let ring = FrodoRing::<u8, 4>::new();
    let mut it = ring.iter();
    assert_eq!(it.next(), None);
    assert_eq!(it.next(), None);
}

#[test]
fn iter_keeps_queue_order_across_interior_removals() {
    let mut ring = FrodoRing::<u16, 6>::new();
    for v in [10, 20, 30, 40, 50, 60] {
        assert!(ring.push(v).is_ok());
    }
    assert_eq!(ring.remove_at(1), Some(20));
    assert_eq!(ring.remove_at(3), Some(40));

    let mut it = ring.iter();
    assert_eq!(it.next(), Some(&10));
    assert_eq!(it.next(), Some(&30));
    assert_eq!(it.next(), Some(&50));
    assert_eq!(it.next(), Some(&60));
    assert_eq!(it.next(), None);
}
