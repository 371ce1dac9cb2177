use two_phase_interner::{Atom, Interner};

#[test]
fn intern_twice_counts_twice() {
    let mut interner = Interner::<str>::new();
    let a = interner.intern("rust");
    let b = interner.intern("rust");
    let c = interner.intern("programming");
    assert_eq!(a, b);
    assert_eq!(a.handle, 0);
    assert_eq!(c.handle, 1);
    assert_eq!(
        interner.atoms(),
        vec![(Atom { handle: 0, id: 0 }, 2), (Atom { handle: 1, id: 1 }, 1)]
    );
}

#[test]
fn resolve_gives_back_interned_text() {
    let mut interner = Interner::<str>::new();
    let hello = interner.intern("hello");
    let accented = interner.intern("h\u{e9}llo \u{1F980}");
    let empty = interner.intern("");
    assert_eq!(interner.resolve(hello), Some("hello"));
    assert_eq!(interner.resolve(accented), Some("h\u{e9}llo \u{1F980}"));
    assert_eq!(interner.resolve(empty), Some(""));
    assert_eq!(interner.resolve(Atom { handle: 3, id: 3 }), None);
}

#[test]
fn atoms_keep_their_values_across_optimize() {
    let mut interner = Interner::<str>::new();
    let rare = interner.intern("rare");
    let common = interner.intern("common");
    interner.intern("common");
    interner.intern("common");
    let short = interner.intern("short");
    interner.intern("short");
    interner.intern("short");
    interner.optimize();
    assert_eq!(interner.resolve(rare), Some("rare"));
    assert_eq!(interner.resolve(common), Some("common"));
    assert_eq!(interner.resolve(short), Some("short"));
    // A new intern gives the new position as its handle, and the same id.
    let short_again = interner.intern("short");
    assert_eq!(short_again.handle, 0);
    assert_eq!(short_again.id, short.id);
    assert_eq!(interner.resolve(short_again), Some("short"));
    assert_eq!(
        interner.atoms(),
        vec![
            (Atom { handle: 0, id: 2 }, 4),
            (Atom { handle: 1, id: 1 }, 3),
            (Atom { handle: 2, id: 0 }, 1)
        ]
    );
}

#[test]
fn offsets_follow_atoms_across_optimize() {
    let mut interner = Interner::<str>::new();
    let rare = interner.intern("rare");
    let common = interner.intern("common");
    interner.intern("common");
    interner.optimize();
    let bytes = interner.serialize().unwrap();
    assert_eq!(bytes, vec![6, b'c', b'o', b'm', b'm', b'o', b'n', 4, b'r', b'a', b'r', b'e']);
    assert_eq!(common.resolve_index(&interner), Some(0));
    assert_eq!(rare.resolve_index(&interner), Some(7));
    // Optimizing after serializing keeps each atom's recorded offset.
    interner.intern("rare");
    interner.intern("rare");
    interner.optimize();
    assert_eq!(rare.resolve_index(&interner), Some(7));
    assert_eq!(interner.resolve(rare), Some("rare"));
}

#[test]
fn optimize_keeps_an_ordered_interner() {
    let mut interner = Interner::<str>::new();
    let hello = interner.intern("hello");
    interner.intern("hello");
    let world = interner.intern("world");
    interner.optimize();
    assert_eq!(interner.resolve(hello), Some("hello"));
    assert_eq!(interner.resolve(world), Some("world"));
}

#[test]
fn optimize_twice_is_optimize_once() {
    let mut interner = Interner::<str>::new();
    interner.intern("b");
    interner.intern("aa");
    interner.intern("aa");
    interner.intern("c");
    interner.optimize();
    let once: Vec<Option<String>> = interner
        .atoms()
        .into_iter()
        .map(|(atom, _)| interner.resolve(atom).map(|s| s.to_string()))
        .collect();
    interner.optimize();
    let twice: Vec<Option<String>> = interner
        .atoms()
        .into_iter()
        .map(|(atom, _)| interner.resolve(atom).map(|s| s.to_string()))
        .collect();
    assert_eq!(once, twice);
    assert_eq!(
        once,
        vec![Some("aa".to_string()), Some("b".to_string()), Some("c".to_string())]
    );
}

#[test]
fn optimize_ties_keep_insertion_order() {
    let mut interner = Interner::<str>::new();
    interner.intern("yy");
    interner.intern("xx");
    interner.intern("zz");
    interner.optimize();
    let order: Vec<&str> = interner
        .atoms()
        .into_iter()
        .map(|(atom, _)| interner.resolve(atom).unwrap())
        .collect();
    assert_eq!(order, vec!["yy", "xx", "zz"]);
}

#[test]
fn optimize_on_empty_interner() {
    let mut interner = Interner::<str>::new();
    interner.optimize();
    assert!(interner.atoms().is_empty());
    let a = interner.intern("x");
    assert_eq!(a.handle, 0);
}

#[test]
fn serialize_exact_bytes() {
    let mut interner = Interner::<str>::new();
    let a1 = interner.intern("hello");
    let a2 = interner.intern("world");
    let bytes = interner.serialize().unwrap();
    assert_eq!(
        bytes,
        vec![5, b'h', b'e', b'l', b'l', b'o', 5, b'w', b'o', b'r', b'l', b'd']
    );
    assert_eq!(a1.resolve_index(&interner), Some(0));
    assert_eq!(a2.resolve_index(&interner), Some(6));
    assert_eq!(Atom { handle: 2, id: 2 }.resolve_index(&interner), None);
}

#[test]
fn serialize_multi_byte_length_prefix() {
    let mut interner = Interner::<[u8]>::new();
    let long = vec![7u8; 200];
    let a1 = interner.intern(&long);
    let a2 = interner.intern(&[9]);
    let bytes = interner.serialize().unwrap();
    assert_eq!(bytes.len(), 2 + 200 + 1 + 1);
    assert_eq!(&bytes[0..2], &[0xC8, 0x01]);
    assert_eq!(&bytes[2..202], &long[..]);
    assert_eq!(&bytes[202..], &[1, 9]);
    assert_eq!(a1.resolve_index_bytes(&interner), Some(0));
    assert_eq!(a2.resolve_index_bytes(&interner), Some(202));
}

#[test]
fn serialize_empty_value_and_empty_interner() {
    let mut empty = Interner::<[u8]>::new();
    assert_eq!(empty.serialize().unwrap(), Vec::<u8>::new());
    let mut interner = Interner::<[u8]>::new();
    let a = interner.intern(&[]);
    assert_eq!(interner.serialize().unwrap(), vec![0]);
    assert_eq!(a.resolve_index_bytes(&interner), Some(0));
}

#[test]
fn resolve_index_before_serialize_is_none() {
    let mut interner = Interner::<str>::new();
    let a = interner.intern("x");
    assert_eq!(a.resolve_index(&interner), None);
    let mut bytes = Interner::<[u8]>::new();
    let b = bytes.intern(&[1]);
    assert_eq!(b.resolve_index_bytes(&bytes), None);
}

#[test]
fn offsets_stay_after_later_interns() {
    let mut interner = Interner::<str>::new();
    let a = interner.intern("ab");
    interner.serialize().unwrap();
    let b = interner.intern("cd");
    assert_eq!(a.resolve_index(&interner), Some(0));
    assert_eq!(b.resolve_index(&interner), None);
}

#[test]
fn default_is_empty() {
    let mut interner: Interner<str> = Default::default();
    assert!(interner.atoms().is_empty());
    assert_eq!(interner.serialize().unwrap(), Vec::<u8>::new());
}

#[test]
fn serialize_after_optimize_uses_new_order() {
    let mut interner = Interner::<str>::new();
    interner.intern("z");
    interner.intern("abc");
    interner.intern("abc");
    interner.optimize();
    let bytes = interner.serialize().unwrap();
    assert_eq!(bytes, vec![3, b'a', b'b', b'c', 1, b'z']);
}

#[test]
fn counts_survive_optimize_and_serialize() {
    let mut interner = Interner::<str>::new();
    interner.intern("a");
    interner.intern("bb");
    interner.serialize().unwrap();
    interner.intern("bb");
    interner.optimize();
    interner.intern("a");
    interner.intern("a");
    interner.serialize().unwrap();
    let mut seen: Vec<(String, usize)> = interner
        .atoms()
        .into_iter()
        .map(|(atom, count)| (interner.resolve(atom).unwrap().to_string(), count))
        .collect();
    seen.sort();
    assert_eq!(seen, vec![("a".to_string(), 3), ("bb".to_string(), 2)]);
}

#[test]
fn serialize_twice_gives_the_same_bytes_and_offsets() {
    let mut interner = Interner::<[u8]>::new();
    let a = interner.intern(&[1, 2]);
    let b = interner.intern(&[3]);
    let first = interner.serialize().unwrap();
    let offsets = (a.resolve_index_bytes(&interner), b.resolve_index_bytes(&interner));
    let second = interner.serialize().unwrap();
    assert_eq!(first, second);
    assert_eq!(first, vec![2, 1, 2, 1, 3]);
    assert_eq!(offsets, (a.resolve_index_bytes(&interner), b.resolve_index_bytes(&interner)));
    assert_eq!(offsets, (Some(0), Some(3)));
}
