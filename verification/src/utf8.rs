//! UTF-8 decoding of byte slices.

use vstd::prelude::*;
use vstd::string::StringSliceAdditionalSpecFns;

verus! {

/// Calls `core::str::from_utf8`: the bytes are returned as a string slice
/// exactly when they are valid UTF-8, and the string covers the same bytes.
#[verifier::external_body]
pub fn str_from_utf8(bytes: &[u8]) -> (r: Option<&str>)
    ensures
        r is Some <==> vstd::utf8::valid_utf8(bytes@),
        r matches Some(s) ==> s.spec_bytes() == bytes@,
{
    core::str::from_utf8(bytes).ok()
}

} // verus!

verus! {

/// Calls `str::contains` with a character: whether `c` occurs in `s`.
#[verifier::external_body]
pub fn str_contains_char(s: &str, c: char) -> (r: bool)
    ensures
        r == s@.contains(c),
{
    s.contains(c)
}

/// Calls `str::find` with a character: the byte offset of the first `c` in `s`,
/// that is, the length of the encoding of the characters before it.
#[verifier::external_body]
pub fn str_find_char(s: &str, c: char) -> (r: Option<usize>)
    ensures
        r is Some <==> s@.contains(c),
        r matches Some(pos) ==> exists|k: int|
            0 <= k < s@.len() && s@[k] == c && (forall|j: int| 0 <= j < k ==> s@[j] != c)
                && pos == vstd::utf8::encode_utf8(#[trigger] s@.take(k)).len(),
{
    s.find(c)
}

} // verus!

verus! {

/// Encoding distributes over concatenation.
pub proof fn lemma_encode_append(x: Seq<char>, y: Seq<char>)
    ensures
        vstd::utf8::encode_utf8(x + y) == vstd::utf8::encode_utf8(x) + vstd::utf8::encode_utf8(y),
    decreases x.len(),
{
    if x.len() > 0 {
        assert((x + y).drop_first() =~= x.drop_first() + y);
        assert((x + y)[0] == x[0]);
        lemma_encode_append(x.drop_first(), y);
        let ex = vstd::utf8::encode_scalar(x[0] as u32);
        assert(ex + vstd::utf8::encode_utf8(x.drop_first()) + vstd::utf8::encode_utf8(y) =~= ex + (vstd::utf8::encode_utf8(x.drop_first()) + vstd::utf8::encode_utf8(y)));
    } else {
        assert(x + y =~= y);
        assert(vstd::utf8::encode_utf8(x) + vstd::utf8::encode_utf8(y) =~= vstd::utf8::encode_utf8(y));
    }
}

/// The characters of a string are the decoding of its bytes.
pub proof fn lemma_str_chars(s: &str)
    ensures
        s@ == vstd::utf8::decode_utf8(s.spec_bytes()),
        vstd::utf8::valid_utf8(s.spec_bytes()),
{
    vstd::utf8::encode_utf8_decode_utf8(s@);
    vstd::utf8::encode_utf8_valid_utf8(s@);
}

} // verus!

verus! {

/// Calls `char::len_utf8`: the number of bytes of the UTF-8 encoding of `c`.
#[verifier::external_body]
pub fn char_len_utf8(c: char) -> (r: usize)
    ensures
        r == vstd::utf8::encode_utf8(seq![c]).len(),
{
    c.len_utf8()
}

} // verus!
