//! Character/byte helpers shared by the serialization format: the artifact
//! format is ASCII, so tokens move between `String` (sequences of chars) and
//! raw bytes through a simple one-to-one cast.

use vstd::prelude::*;
use vstd::utf8::is_ascii_chars;

verus! {

/// The bytes of an ASCII character sequence.
pub open spec fn ascii_bytes(s: Seq<char>) -> Seq<u8> {
    s.map_values(|c: char| c as u8)
}

/// The characters of an ASCII byte sequence.
pub open spec fn bytes_chars(b: Seq<u8>) -> Seq<char> {
    b.map_values(|x: u8| x as char)
}

/// Every byte of the sequence is ASCII.
pub open spec fn ascii_byte_seq(b: Seq<u8>) -> bool {
    forall|i: int| 0 <= i < b.len() ==> #[trigger] b[i] < 128
}

/// Casting an ASCII byte to a char and back is the identity.
pub proof fn lemma_ascii_byte_char_cast(b: u8)
    requires
        b < 128,
    ensures
        (b as char) as u8 == b,
        (b as char) as u32 == b as u32,
        ((b as char) as u32) < 128,
{
}

/// Casting an ASCII char to a byte and back is the identity.
pub proof fn lemma_ascii_char_byte_cast(c: char)
    requires
        (c as u32) < 128,
    ensures
        (c as u8) as char == c,
        c as u8 == c as u32,
{
}

/// An ASCII character sequence turns into bytes below 128 and back into
/// the same characters.
pub proof fn lemma_ascii_bytes_chars(s: Seq<char>)
    requires
        is_ascii_chars(s),
    ensures
        bytes_chars(ascii_bytes(s)) == s,
        ascii_byte_seq(ascii_bytes(s)),
{
    broadcast use vstd::utf8::is_ascii_chars_nat_bound;

    assert forall|i: int| 0 <= i < s.len() implies #[trigger] ascii_bytes(s)[i] < 128 by {
        assert(s[i] as nat <= 127);
        lemma_ascii_char_byte_cast(s[i]);
    }
    assert(bytes_chars(ascii_bytes(s)) =~= s) by {
        assert forall|i: int| 0 <= i < s.len() implies #[trigger] bytes_chars(ascii_bytes(s))[i]
            == s[i] by {
            assert(s[i] as nat <= 127);
            lemma_ascii_char_byte_cast(s[i]);
        }
    }
}

/// ASCII bytes turn into characters and back into the same bytes.
pub proof fn lemma_ascii_chars_bytes(b: Seq<u8>)
    requires
        ascii_byte_seq(b),
    ensures
        ascii_bytes(bytes_chars(b)) == b,
{
    assert(ascii_bytes(bytes_chars(b)) =~= b) by {
        assert forall|i: int| 0 <= i < b.len() implies #[trigger] ascii_bytes(bytes_chars(b))[i]
            == b[i] by {
            lemma_ascii_byte_char_cast(b[i]);
        }
    }
}

/// Relies on `String::from_utf8`: bytes below 128 decode one to one into the
/// chars with the same code points, and the result is an ASCII string.
#[verifier::external_body]
pub fn ascii_to_string(bytes: Vec<u8>) -> (r: String)
    requires
        ascii_byte_seq(bytes@),
    ensures
        r@ == bytes_chars(bytes@),
        r.is_ascii(),
    {
    match String::from_utf8(bytes) {
        Ok(s) => s,
        Err(_) => String::new(),
    }
}

/// The bytes of an ASCII string, as a fresh vector.
pub fn str_ascii_bytes(s: &str) -> (r: Vec<u8>)
    requires
        s.is_ascii(),
    ensures
        r@ == ascii_bytes(s@),
        ascii_byte_seq(r@),
{
    broadcast use vstd::string::is_ascii_spec_bytes;

    let r = s.as_bytes_vec();
    proof {
        assert(r@ =~= ascii_bytes(s@));
        lemma_ascii_bytes_chars(s@);
    }
    r
}

} // verus!
verus! {

/// A char with a code point below 128 lies in the ASCII character range.
pub proof fn lemma_ascii_char_ord(c: char)
    requires
        (c as u32) < 128,
    ensures
        '\0' <= c <= '\u{7f}',
{
    lemma_ascii_char_byte_cast(c);
    let b: u8 = c as u8;
    assert((b as char) == c);
    assert('\0' <= (b as char));
    assert((b as char) <= '\u{7f}');
}

/// A sequence of chars with code points below 128 is an ASCII sequence.
pub proof fn lemma_ascii_chars_from_bounds(s: Seq<char>)
    requires
        forall|i: int| 0 <= i < s.len() ==> ((#[trigger] s[i]) as u32) < 128,
    ensures
        vstd::utf8::is_ascii_chars(s),
{
    assert forall|i: int| 0 <= i < s.len() implies '\0' <= #[trigger] s[i] && s[i]
        <= '\u{7f}' by {
        lemma_ascii_char_ord(s[i]);
    }
}

} // verus!
