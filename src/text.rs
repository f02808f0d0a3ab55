//! Conversions between strings and their UTF-8 bytes.
use vstd::prelude::*;
use vstd::utf8::*;

verus! {

/// The UTF-8 bytes of a string's characters.
pub open spec fn bytes_of(s: Seq<char>) -> Seq<u8> {
    encode_utf8(s)
}

/// What `String::from_utf8_lossy` makes of a byte sequence: the characters it
/// encodes, with each invalid sequence replaced by U+FFFD.
pub uninterp spec fn lossy_of(b: Seq<u8>) -> Seq<char>;

/// The string that a byte sequence stands for: its characters where it is
/// valid UTF-8, else what the lossy conversion makes of it.
pub open spec fn text_of(b: Seq<u8>) -> Seq<char> {
    if valid_utf8(b) {
        decode_utf8(b)
    } else {
        lossy_of(b)
    }
}

/// Relies on `String::from_utf8_lossy`: the result depends on the bytes alone,
/// and a valid UTF-8 sequence is decoded as it stands.
#[verifier::external_body]
pub(crate) fn string_from_bytes(b: &[u8]) -> (r: String)
    ensures
        r@ == text_of(b@),
        !valid_utf8(b@) ==> r@ == lossy_of(b@),
{
    String::from_utf8_lossy(b).into_owned()
}

/// Relies on `std::str::from_utf8`: it accepts exactly the valid UTF-8 byte
/// sequences.
#[verifier::external_body]
pub(crate) fn is_utf8(b: &[u8]) -> (r: bool)
    ensures
        r == valid_utf8(b@),
{
    std::str::from_utf8(b).is_ok()
}

/// The string that valid UTF-8 bytes stand for has those bytes.
pub proof fn lemma_bytes_of_text(b: Seq<u8>)
    requires
        valid_utf8(b),
    ensures
        bytes_of(text_of(b)) == b,
{
    decode_utf8_encode_utf8(b);
}

/// The bytes of a string, copied into a vector.
pub(crate) fn string_bytes(s: &String) -> (r: Vec<u8>)
    ensures
        r@ == bytes_of(s@),
{
    let b: &[u8] = s.as_str().as_bytes();
    let mut r: Vec<u8> = Vec::new();
    let mut i: usize = 0;
    while i < b.len()
        invariant
            i <= b@.len(),
            b@ == bytes_of(s@),
            r@ == b@.subrange(0, i as int),
        decreases b@.len() - i,
    {
        r.push(b[i]);
        i = i + 1;
        assert(r@ =~= b@.subrange(0, i as int));
    }
    assert(r@ =~= b@);
    r
}

/// The number of bytes in a string.
pub(crate) fn byte_len(s: &String) -> (r: usize)
    ensures
        r == bytes_of(s@).len(),
{
    let b: &[u8] = s.as_str().as_bytes();
    b.len()
}

/// Decoding the bytes of a string gives the string back.
pub proof fn lemma_text_of_bytes(s: Seq<char>)
    ensures
        text_of(bytes_of(s)) == s,
{
    encode_utf8_valid_utf8(s);
    encode_utf8_decode_utf8(s);
}

} // verus!
