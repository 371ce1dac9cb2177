use two_phase_interner::{ArrayStorage, Storage, StringStorage};

#[test]
fn string_storage_gives_back_what_was_pushed() {
    let mut s = StringStorage::new();
    let (o1, l1) = s.push("h\u{e9}llo");
    let (o2, l2) = s.push("");
    let (o3, l3) = s.push("world");
    assert_eq!((o1, l1), (0, 6));
    assert_eq!((o2, l2), (6, 0));
    assert_eq!((o3, l3), (6, 5));
    assert_eq!(s.get(o1, l1), "h\u{e9}llo");
    assert_eq!(s.get(o2, l2), "");
    assert_eq!(s.get(o3, l3), "world");
}

#[test]
fn array_storage_gives_back_what_was_pushed() {
    let mut s = ArrayStorage::new();
    let (o1, l1) = s.push(&[1, 2, 3]);
    let (o2, l2) = s.push(&[9]);
    assert_eq!((o1, l1), (0, 3));
    assert_eq!((o2, l2), (3, 1));
    assert_eq!(s.get(o1, l1), &[1, 2, 3]);
    assert_eq!(s.get(o2, l2), &[9]);
}
