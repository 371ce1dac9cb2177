use vstd::prelude::*;
use vstd::utf8::*;
use vstd::string::*;
use vstd::slice::slice_subrange;

verus! {

/// A type whose values can be interned, with the storage that holds them.
pub trait Internable {
    type Storage: Storage<Self>;

    /// The bytes of the value, as they are laid down in storage.
    fn raw_bytes(&self) -> (b: &[u8])
        ensures
            b@ == <Self::Storage as Storage<Self>>::byte_view(self),
    ;
}

/// An append-only buffer in which interned values are laid down one after
/// the other; a value is found again by its offset and length.
pub trait Storage<T: ?Sized>: Sized {
    /// The sequence of bytes that a value occupies in storage.
    spec fn byte_view(value: &T) -> Seq<u8>;

    /// All bytes stored so far.
    spec fn contents(&self) -> Seq<u8>;

    /// `offset .. offset + len` is the byte range of a value pushed earlier.
    spec fn holds_range(&self, offset: int, len: int) -> bool;

    proof fn lemma_range_in_bounds(&self, offset: int, len: int)
        requires
            self.holds_range(offset, len),
        ensures
            0 <= offset,
            0 <= len,
            offset + len <= self.contents().len(),
            self.contents().len() <= u32::MAX,
    ;

    fn new() -> (s: Self)
        ensures
            s.contents() == Seq::<u8>::empty(),
    ;

    fn push(&mut self, value: &T) -> (r: (u32, u32))
        requires
            old(self).contents().len() + Self::byte_view(value).len() <= u32::MAX,
        ensures
            final(self).contents() == old(self).contents() + Self::byte_view(value),
            r.0 == old(self).contents().len(),
            r.1 == Self::byte_view(value).len(),
            final(self).holds_range(r.0 as int, r.1 as int),
            forall|o: int, l: int| #[trigger]
                old(self).holds_range(o, l) ==> final(self).holds_range(o, l),
    ;

    fn get(&self, offset: u32, len: u32) -> (r: &T)
        requires
            self.holds_range(offset as int, len as int),
        ensures
            Self::byte_view(r) == self.contents().subrange(offset as int, offset + len),
    ;
}

impl Internable for str {
    type Storage = StringStorage;

    fn raw_bytes(&self) -> (b: &[u8]) {
        self.as_bytes()
    }
}

impl Internable for [u8] {
    type Storage = ArrayStorage;

    fn raw_bytes(&self) -> (b: &[u8]) {
        self
    }
}

/// Storage of interned strings: one `String` holding them all.
pub struct StringStorage {
    buf: String,
}

/// Storage of interned byte arrays: one `Vec<u8>` holding them all.
pub struct ArrayStorage {
    buf: Vec<u8>,
}

/// In valid UTF-8, an index is a character boundary exactly when it is the
/// end of the bytes or the byte there is no continuation byte.
pub open spec fn starts_char(bytes: Seq<u8>, i: int) -> bool {
    i == bytes.len() || (0 <= i < bytes.len() && !is_continuation_byte(bytes[i]))
}

proof fn lemma_boundary_local(bytes: Seq<u8>, i: int)
    requires
        valid_utf8(bytes),
        0 <= i <= bytes.len(),
    ensures
        is_char_boundary(bytes, i) <==> starts_char(bytes, i),
{
    is_char_boundary_start_end_of_seq(bytes);
    if i < bytes.len() {
        is_char_boundary_iff_not_is_continuation_byte(bytes, i);
    }
}

proof fn lemma_encode_utf8_concat(a: Seq<char>, b: Seq<char>)
    ensures
        encode_utf8(a + b) == encode_utf8(a) + encode_utf8(b),
    decreases a.len(),
{
    if a.len() == 0 {
        assert(a + b =~= b);
        assert(encode_utf8(a) + encode_utf8(b) =~= encode_utf8(b));
    } else {
        lemma_encode_utf8_concat(a.drop_first(), b);
        assert((a + b).drop_first() =~= a.drop_first() + b);
        assert(encode_utf8(a + b) =~= encode_utf8(a) + encode_utf8(b));
    }
}

impl StringStorage {
    spec fn bytes(&self) -> Seq<u8> {
        encode_utf8(self.buf@)
    }
}

impl Storage<str> for StringStorage {
    open spec fn byte_view(value: &str) -> Seq<u8> {
        value.spec_bytes()
    }

    closed spec fn contents(&self) -> Seq<u8> {
        self.bytes()
    }

    closed spec fn holds_range(&self, offset: int, len: int) -> bool {
        &&& 0 <= offset
        &&& 0 <= len
        &&& offset + len <= self.bytes().len() <= u32::MAX
        &&& starts_char(self.bytes(), offset)
        &&& starts_char(self.bytes(), offset + len)
    }

    proof fn lemma_range_in_bounds(&self, offset: int, len: int) {
    }

    fn new() -> (s: Self) {
        StringStorage { buf: String::new() }
    }

    fn push(&mut self, value: &str) -> (r: (u32, u32)) {
        proof {
            lemma_encode_utf8_concat(self.buf@, value@);
        }
        let offset = self.buf.as_str().len() as u32;
        let len = value.len() as u32;
        self.buf.append(value);
        proof {
            let old_bytes = encode_utf8(old(self).buf@);
            let new_bytes = self.bytes();
            let v = value.spec_bytes();
            assert(new_bytes == old_bytes + v);
            encode_utf8_valid_utf8(value@);
            assert forall|o: int, l: int| #[trigger]
                old(self).holds_range(o, l) implies self.holds_range(o, l) by {
                if o < old_bytes.len() {
                    assert(new_bytes[o] == old_bytes[o]);
                }
                if o + l < old_bytes.len() {
                    assert(new_bytes[o + l] == old_bytes[o + l]);
                }
                if o + l == old_bytes.len() && v.len() > 0 {
                    assert(new_bytes[o + l] == v[0]);
                    lemma_boundary_local(v, 0);
                    is_char_boundary_start_end_of_seq(v);
                }
                if o == old_bytes.len() && v.len() > 0 {
                    assert(new_bytes[o] == v[0]);
                    lemma_boundary_local(v, 0);
                    is_char_boundary_start_end_of_seq(v);
                }
            }
            if v.len() > 0 {
                assert(new_bytes[old_bytes.len() as int] == v[0]);
                lemma_boundary_local(v, 0);
                is_char_boundary_start_end_of_seq(v);
            }
        }
        (offset, len)
    }

    fn get(&self, offset: u32, len: u32) -> (r: &str) {
        let whole = self.buf.as_str();
        let ghost bytes = self.bytes();
        proof {
            encode_utf8_valid_utf8(self.buf@);
            lemma_boundary_local(bytes, offset as int);
        }
        let (_, rest) = whole.split_at(offset as usize);
        proof {
            let sub = bytes.subrange(offset as int, bytes.len() as int);
            assert(rest.spec_bytes() == sub);
            valid_utf8_split(bytes, offset as int);
            lemma_boundary_local(sub, len as int);
            if len < sub.len() {
                assert(sub[len as int] == bytes[offset + len]);
            }
        }
        let (piece, _) = rest.split_at(len as usize);
        proof {
            assert(piece.spec_bytes() =~= bytes.subrange(offset as int, offset + len));
        }
        piece
    }
}

impl Storage<[u8]> for ArrayStorage {
    open spec fn byte_view(value: &[u8]) -> Seq<u8> {
        value@
    }

    closed spec fn contents(&self) -> Seq<u8> {
        self.buf@
    }

    closed spec fn holds_range(&self, offset: int, len: int) -> bool {
        &&& 0 <= offset
        &&& 0 <= len
        &&& offset + len <= self.buf@.len() <= u32::MAX
    }

    proof fn lemma_range_in_bounds(&self, offset: int, len: int) {
    }

    fn new() -> (s: Self) {
        ArrayStorage { buf: Vec::new() }
    }

    fn push(&mut self, value: &[u8]) -> (r: (u32, u32)) {
        let offset = self.buf.len() as u32;
        let len = value.len() as u32;
        self.buf.extend_from_slice(value);
        assert(self.buf@ =~= old(self).buf@ + value@);
        (offset, len)
    }

    fn get(&self, offset: u32, len: u32) -> (r: &[u8]) {
        slice_subrange(self.buf.as_slice(), offset as usize, (offset + len) as usize)
    }
}

} // verus!
