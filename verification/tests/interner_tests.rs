use two_phase_interner::{Atom, Interner};

#[test]
fn test_basic_interning() {
    let mut interner = Interner::<str>::new();

    let atom1 = interner.intern("hello");
    let atom2 = interner.intern("world");
    let atom3 = interner.intern("hello");

    assert_eq!(atom1, atom3);
    assert_ne!(atom1, atom2);
}

#[test]
fn test_optimize() {
    let mut interner = Interner::<str>::new();

    let a1 = interner.intern("rare");
    let a2 = interner.intern("common");
    interner.intern("common");
    interner.intern("common");
    let a5 = interner.intern("short");
    interner.intern("short");
    interner.intern("short");

    assert_eq!(a1.handle, 0);
    assert_eq!(a2.handle, 1);
    assert_eq!(a5.handle, 2);

    interner.optimize();

    let new_short = interner.intern("short");
    let new_common = interner.intern("common");
    let new_rare = interner.intern("rare");

    assert_eq!(new_short.handle, 0);
    assert_eq!(new_common.handle, 1);
    assert_eq!(new_rare.handle, 2);
}

#[test]
fn test_serialize() {
    let mut interner = Interner::<str>::new();

    let a1 = interner.intern("hello");
    let a2 = interner.intern("world");

    let serialized = interner.serialize().unwrap();

    assert_eq!(a1.resolve_index(&interner), Some(0));
    assert!(a2.resolve_index(&interner).is_some());

    assert!(!serialized.is_empty());
}

#[test]
fn test_optimize_and_serialize() {
    let mut interner = Interner::<str>::new();

    let a1 = interner.intern("abc");
    interner.intern("abc");
    interner.intern("abc");
    let a4 = interner.intern("xy");
    interner.intern("xy");
    let a6 = interner.intern("z");

    interner.optimize();

    assert_eq!(a1.handle, 0);
    assert_eq!(a4.handle, 1);
    assert_eq!(a6.handle, 2);

    let serialized = interner.serialize().unwrap();

    println!("{:?}", serialized);

    assert_eq!(a1.resolve_index(&interner), Some(0));
    assert!(a4.resolve_index(&interner).unwrap() > 0);
    assert!(a6.resolve_index(&interner).unwrap() > a4.resolve_index(&interner).unwrap());
    assert!(!serialized.is_empty());
}

#[test]
fn test_basic_byte_interning() {
    let mut interner = Interner::<[u8]>::new();

    let atom1 = interner.intern(&[1, 2, 3]);
    let atom2 = interner.intern(&[4, 5, 6]);
    let atom3 = interner.intern(&[1, 2, 3]);

    assert_eq!(atom1, atom3);
    assert_ne!(atom1, atom2);
}

#[test]
fn test_byte_optimize() {
    let mut interner = Interner::<[u8]>::new();

    let a1 = interner.intern(&[0xFF, 0xEE]);
    let a2 = interner.intern(&[0x01, 0x02, 0x03]);
    interner.intern(&[0x01, 0x02, 0x03]);
    interner.intern(&[0x01, 0x02, 0x03]);
    let a5 = interner.intern(&[0xAA, 0xBB]);
    interner.intern(&[0xAA, 0xBB]);
    interner.intern(&[0xAA, 0xBB]);

    assert_eq!(a1.handle, 0);
    assert_eq!(a2.handle, 1);
    assert_eq!(a5.handle, 2);

    interner.optimize();

    let new_aa = interner.intern(&[0xAA, 0xBB]);
    let new_01 = interner.intern(&[0x01, 0x02, 0x03]);
    let new_ff = interner.intern(&[0xFF, 0xEE]);

    assert_eq!(new_aa.handle, 0);
    assert_eq!(new_01.handle, 1);
    assert_eq!(new_ff.handle, 2);
}

#[test]
fn test_byte_serialize() {
    let mut interner = Interner::<[u8]>::new();

    let a1 = interner.intern(&[0x01, 0x02]);
    let a2 = interner.intern(&[0xAA, 0xBB, 0xCC]);

    let serialized = interner.serialize().unwrap();

    assert_eq!(a1.resolve_index_bytes(&interner), Some(0));
    assert!(a2.resolve_index_bytes(&interner).is_some());

    assert!(!serialized.is_empty());
}

#[test]
fn test_byte_optimize_and_serialize() {
    let mut interner = Interner::<[u8]>::new();

    let a1 = interner.intern(&[0x01]);
    interner.intern(&[0x01]);
    interner.intern(&[0x01]);
    let a4 = interner.intern(&[0x02, 0x03]);
    interner.intern(&[0x02, 0x03]);
    let a6 = interner.intern(&[0x04, 0x05, 0x06]);

    interner.optimize();

    assert_eq!(a1.handle, 0);
    assert_eq!(a4.handle, 1);
    assert_eq!(a6.handle, 2);

    let serialized = interner.serialize().unwrap();

    assert_eq!(a1.resolve_index_bytes(&interner), Some(0));
    assert!(a4.resolve_index_bytes(&interner).unwrap() > 0);
    assert!(
        a6.resolve_index_bytes(&interner).unwrap() > a4.resolve_index_bytes(&interner).unwrap()
    );
    assert!(!serialized.is_empty());
}

#[test]
fn test_byte_array_different_lengths() {
    let mut interner = Interner::<[u8]>::new();

    let short = interner.intern(&[1]);
    let medium = interner.intern(&[2, 3, 4]);
    let long = interner.intern(&[5, 6, 7, 8, 9]);
    let empty = interner.intern(&[]);

    assert_ne!(short, medium);
    assert_ne!(medium, long);
    assert_ne!(short, empty);

    let empty2 = interner.intern(&[]);
    assert_eq!(empty, empty2);
}

#[test]
fn test_byte_frequency_sorting() {
    let mut interner = Interner::<[u8]>::new();

    interner.intern(&[1, 1]);
    interner.intern(&[2, 2]);
    interner.intern(&[2, 2]);
    interner.intern(&[2, 2]);
    interner.intern(&[2, 2]);
    interner.intern(&[3, 3]);
    interner.intern(&[3, 3]);
    interner.intern(&[3, 3]);

    interner.optimize();

    let new_common = interner.intern(&[2, 2]);
    let new_mid = interner.intern(&[3, 3]);
    let new_rare = interner.intern(&[1, 1]);

    assert_eq!(new_common.handle, 0);
    assert_eq!(new_mid.handle, 1);
    assert_eq!(new_rare.handle, 2);
}
