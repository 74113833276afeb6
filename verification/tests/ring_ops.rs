use frodo_ring::FrodoRing;

#[test]
fn test_1() {
    let mut ring = FrodoRing::<u8, 4>::new();

    assert!(ring.push(0x1).is_ok());
    assert!(ring.push(0x2).is_ok());
    assert!(ring.push(0x3).is_ok());
    assert!(ring.push(0x4).is_ok());

    assert!(ring.push(0x5).is_err());
}

#[test]
fn test_2() {
    let mut ring = FrodoRing::<u8, 4>::new();

    assert!(ring.push(0x1).is_ok());
    assert!(ring.push(0x2).is_ok());
    assert!(ring.push(0x3).is_ok());
    assert!(ring.push(0x4).is_ok());

    assert_eq!(ring.at(0), Some(&0x1));
    assert_eq!(ring.at(1), Some(&0x2));
    assert_eq!(ring.at(2), Some(&0x3));
    assert_eq!(ring.at(3), Some(&0x4));
    assert_eq!(ring.at(-1), Some(&0x4));
    assert_eq!(ring.at(-2), Some(&0x3));
    assert_eq!(ring.at(-3), Some(&0x2));
    assert_eq!(ring.at(-4), Some(&0x1));

    assert_eq!(ring.at(4), None);
    assert_eq!(ring.at(-5), None);
}

#[test]
fn test_3() {
    let mut ring = FrodoRing::<u8, 4>::new();

    assert!(ring.push(0x1).is_ok());
    assert!(ring.push(0x2).is_ok());
    assert!(ring.push(0x3).is_ok());
    assert!(ring.push(0x4).is_ok());

    assert_eq!(ring.remove_at(1), Some(0x2));
    assert_eq!(ring.at(0), Some(&0x1));
    assert_eq!(ring.at(1), None);
    assert_eq!(ring.at(2), Some(&0x3));
    assert_eq!(ring.at(3), Some(&0x4));
}

#[test]
fn test_4() {
    let mut ring = FrodoRing::<u8, 4>::new();

    assert!(ring.push(0x1).is_ok());
    assert!(ring.push(0x2).is_ok());
    assert!(ring.push(0x3).is_ok());
    assert!(ring.push(0x4).is_ok());

    assert_eq!(ring.remove_at(1), Some(0x2));
    assert_eq!(ring.at(0), Some(&0x1));
    assert_eq!(ring.at(1), None);
    assert_eq!(ring.at(2), Some(&0x3));
    assert_eq!(ring.at(3), Some(&0x4));

    assert!(ring.push(0x5).is_ok());
    assert_eq!(ring.at(0), Some(&0x1));
    assert_eq!(ring.at(1), Some(&0x3));
    assert_eq!(ring.at(2), Some(&0x4));
    assert_eq!(ring.at(3), Some(&0x5));
}

#[test]
fn massive() {
    let mut ring = FrodoRing::<u8, 4>::new();

    assert!(ring.push(0x1).is_ok());
    assert!(ring.push(0x2).is_ok());
    assert!(ring.push(0x3).is_ok());
    assert!(ring.push(0x4).is_ok());

    assert_eq!(ring.remove_at(1), Some(0x2));
    assert_eq!(ring.used(), 4);
    assert_eq!(ring.at(0), Some(&0x1));
    assert_eq!(ring.at(1), None);
    assert_eq!(ring.at(2), Some(&0x3));
    assert_eq!(ring.at(3), Some(&0x4));

    assert!(ring.push(0x5).is_ok());
    assert_eq!(ring.used(), 4);
    assert_eq!(ring.at(0), Some(&0x1));
    assert_eq!(ring.at(1), Some(&0x3));
    assert_eq!(ring.at(2), Some(&0x4));
    assert_eq!(ring.at(3), Some(&0x5));

    assert_eq!(ring.remove_at(0), Some(0x1));
    assert_eq!(ring.used(), 3);
    assert_eq!(ring.at(0), Some(&0x3));
    assert_eq!(ring.at(1), Some(&0x4));
    assert_eq!(ring.at(2), Some(&0x5));
    assert_eq!(ring.at(3), None);

    assert_eq!(ring.remove_at(1), Some(0x4));
    assert_eq!(ring.used(), 3);
    assert_eq!(ring.at(0), Some(&0x3));
    assert_eq!(ring.at(1), None);
    assert_eq!(ring.at(2), Some(&0x5));
    assert_eq!(ring.at(3), None);

    assert!(ring.push(0x6).is_ok());
    assert_eq!(ring.used(), 4);
    assert_eq!(ring.at(0), Some(&0x3));
    assert_eq!(ring.at(1), None);
    assert_eq!(ring.at(2), Some(&0x5));
    assert_eq!(ring.at(3), Some(&0x6));

    assert!(ring.push(0x7).is_ok());
    assert_eq!(ring.used(), 4);
    assert_eq!(ring.at(0), Some(&0x3));
    assert_eq!(ring.at(1), Some(&0x5));
    assert_eq!(ring.at(2), Some(&0x6));
    assert_eq!(ring.at(3), Some(&0x7));

    assert!(ring.push(0x8).is_err());
}

#[test]
fn test_5() {
    let mut ring = FrodoRing::<u8, 4>::new();

    assert!(ring.push(0x1).is_ok());
    assert!(ring.push(0x2).is_ok());
    assert!(ring.push(0x3).is_ok());
    assert!(ring.push(0x4).is_ok());

    assert_eq!(ring.remove_at(1), Some(0x2));
    assert_eq!(ring.used(), 4);
    assert_eq!(ring.at(0), Some(&0x1));
    assert_eq!(ring.at(1), None);
    assert_eq!(ring.at(2), Some(&0x3));
    assert_eq!(ring.at(3), Some(&0x4));

    assert_eq!(ring.remove_at(2), Some(0x3));
    assert_eq!(ring.used(), 4);
    assert_eq!(ring.at(0), Some(&0x1));
    assert_eq!(ring.at(1), None);
    assert_eq!(ring.at(2), None);
    assert_eq!(ring.at(3), Some(&0x4));

    assert_eq!(ring.remove_at(0), Some(0x1));
    assert_eq!(ring.used(), 1);
    assert_eq!(ring.at(0), Some(&0x4));
    assert_eq!(ring.at(1), None);
    assert_eq!(ring.at(2), None);
    assert_eq!(ring.at(3), None);
}

#[test]
fn test_6() {
    let mut ring = FrodoRing::<u8, 4>::new();

    assert!(ring.push(0x1).is_ok());
    assert!(ring.push(0x2).is_ok());
    assert!(ring.push(0x3).is_ok());
    assert!(ring.push(0x4).is_ok());

    assert_eq!(ring.remove_at(1), Some(0x2));
    assert_eq!(ring.used(), 4);
    assert_eq!(ring.at(0), Some(&0x1));
    assert_eq!(ring.at(1), None);
    assert_eq!(ring.at(2), Some(&0x3));
    assert_eq!(ring.at(3), Some(&0x4));

    assert_eq!(ring.remove_at(2), Some(0x3));
    assert_eq!(ring.used(), 4);
    assert_eq!(ring.at(0), Some(&0x1));
    assert_eq!(ring.at(1), None);
    assert_eq!(ring.at(2), None);
    assert_eq!(ring.at(3), Some(&0x4));

    assert_eq!(ring.remove_at(3), Some(0x4));
    assert_eq!(ring.used(), 1);
    assert_eq!(ring.at(0), Some(&0x1));
    assert_eq!(ring.at(1), None);
    assert_eq!(ring.at(2), None);
    assert_eq!(ring.at(3), None);
}

#[test]
fn test_7() {
    let mut ring = FrodoRing::<u8, 4>::new();

    assert!(ring.push(0x1).is_ok());
    assert!(ring.push(0x2).is_ok());
    assert!(ring.push(0x3).is_ok());
    assert!(ring.push(0x4).is_ok());

    assert_eq!(ring.pick(), Some(0x1));
    assert_eq!(ring.pick(), Some(0x2));
    assert_eq!(ring.pick(), Some(0x3));
    assert_eq!(ring.pick(), Some(0x4));
    assert_eq!(ring.pick(), None);
}

#[test]
fn test_8() {
    let mut ring = FrodoRing::<u8, 4>::new();

    assert!(ring.push(0x1).is_ok());
    assert!(ring.push(0x2).is_ok());
    assert!(ring.push(0x3).is_ok());
    assert!(ring.push(0x4).is_ok());

    assert_eq!(ring.at(0), Some(&0x1));
    assert_eq!(ring.at(1), Some(&0x2));
    assert_eq!(ring.at(2), Some(&0x3));
    assert_eq!(ring.at(3), Some(&0x4));
    assert_eq!(ring.get(0), Some(&0x1));
    assert_eq!(ring.get(1), Some(&0x2));
    assert_eq!(ring.get(2), Some(&0x3));
    assert_eq!(ring.get(3), Some(&0x4));

    assert_eq!(ring.get(4), None);

    assert_eq!(ring.remove_at(1), Some(0x2));
    assert_eq!(ring.used(), 4);
    assert_eq!(ring.at(0), Some(&0x1));
    assert_eq!(ring.at(1), None);
    assert_eq!(ring.at(2), Some(&0x3));
    assert_eq!(ring.at(3), Some(&0x4));
    assert_eq!(ring.get(0), Some(&0x1));
    assert_eq!(ring.get(1), Some(&0x3));
    assert_eq!(ring.get(2), Some(&0x4));
    assert_eq!(ring.get(3), None);
}

#[test]
fn test_9() {
    let mut ring = FrodoRing::<u8, 4>::new();

    assert!(ring.push(0x1).is_ok());
    assert!(ring.push(0x2).is_ok());
    assert!(ring.push(0x3).is_ok());
    assert!(ring.push(0x4).is_ok());

    assert_eq!(ring.remove(1), Some(0x2));
    assert_eq!(ring.used(), 4);
    assert_eq!(ring.at(0), Some(&0x1));
    assert_eq!(ring.at(1), None);
    assert_eq!(ring.at(2), Some(&0x3));
    assert_eq!(ring.at(3), Some(&0x4));

    assert_eq!(ring.remove(1), Some(0x3));
    assert_eq!(ring.used(), 4);
    assert_eq!(ring.at(0), Some(&0x1));
    assert_eq!(ring.at(1), None);
    assert_eq!(ring.at(2), None);
    assert_eq!(ring.at(3), Some(&0x4));

    assert_eq!(ring.remove(1), Some(0x4));
    assert_eq!(ring.used(), 1);
    assert_eq!(ring.at(0), Some(&0x1));
    assert_eq!(ring.at(1), None);
    assert_eq!(ring.at(2), None);
    assert_eq!(ring.at(3), None);
}
