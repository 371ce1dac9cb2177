//! Unsigned LEB128, the length prefix of each serialized value.
use vstd::prelude::*;

verus! {

#[verifier::external_type_specification]
#[verifier::external_body]
pub struct ExIoError(std::io::Error);

/// The unsigned LEB128 encoding of `v`: seven bits per byte, least
/// significant group first, the high bit set on every byte but the last.
pub open spec fn uleb128(v: nat) -> Seq<u8>
    decreases v,
{
    if v < 128 {
        seq![v as u8]
    } else {
        seq![(v % 128 + 128) as u8] + uleb128(v / 128)
    }
}

/// Reads an unsigned LEB128 number from the front of `s`: the value and
/// how many bytes it took, or `None` if `s` ends before a byte with the
/// high bit clear.
pub open spec fn uleb128_decode(s: Seq<u8>) -> Option<(nat, nat)>
    decreases s.len(),
{
    if s.len() == 0 {
        None
    } else if s[0] < 128 {
        Some((s[0] as nat, 1nat))
    } else {
        match uleb128_decode(s.drop_first()) {
            Some((v, n)) => Some(((s[0] - 128) as nat + 128 * v, n + 1)),
            None => None,
        }
    }
}

/// Reading back an encoding, whatever follows it, gives the encoded value
/// and the encoding's length.
pub proof fn lemma_uleb128_decode_encode(v: nat, rest: Seq<u8>)
    ensures
        uleb128_decode(uleb128(v) + rest) == Some((v, uleb128(v).len())),
    decreases v,
{
    let s = uleb128(v) + rest;
    if v < 128 {
        assert(s[0] == v as u8);
    } else {
        lemma_uleb128_decode_encode(v / 128, rest);
        assert(s.drop_first() =~= uleb128(v / 128) + rest);
        assert(s[0] == (v % 128 + 128) as u8);
    }
}

/// An encoding is never empty.
pub proof fn lemma_uleb128_nonempty(v: nat)
    ensures
        uleb128(v).len() >= 1,
    decreases v,
{
    if v >= 128 {
        lemma_uleb128_nonempty(v / 128);
    }
}

/// An encoding takes at most one byte more than the value it encodes.
pub proof fn lemma_uleb128_len_bound(v: nat)
    ensures
        uleb128(v).len() <= v + 1,
    decreases v,
{
    if v >= 128 {
        lemma_uleb128_len_bound(v / 128);
    }
}

/// Appends the unsigned LEB128 encoding of `val` to `buf` by calling
/// `leb128::write::unsigned`. Claimed: the call returns `Ok(n)`, the
/// encoding of `val` has been appended and `n` is its length. The crate's
/// `unsigned` fails only where the writer's `write_all` fails, and writing
/// to a `Vec<u8>` appends to the vector, which grows as needed.
#[verifier::external_body]
pub(crate) fn write_unsigned(buf: &mut Vec<u8>, val: u64) -> (r: Result<usize, std::io::Error>)
    ensures
        r is Ok,
        r matches Ok(n) ==> {
            &&& n == uleb128(val as nat).len()
            &&& final(buf)@ == old(buf)@ + uleb128(val as nat)
        },
{
    leb128::write::unsigned(buf, val)
}

/// The number of bytes that the unsigned LEB128 encoding of `val` takes,
/// found by writing it to a scratch buffer.
pub(crate) fn leb128_usize(val: u64) -> (r: Result<usize, std::io::Error>)
    ensures
        r matches Ok(n) && n == uleb128(val as nat).len(),
{
    let mut scratch: Vec<u8> = Vec::new();
    write_unsigned(&mut scratch, val)
}

} // verus!
