//! String helpers over UTF-8 byte views.
use vstd::prelude::*;

use vstd::string::StringSliceAdditionalSpecFns;
use vstd::utf8::{decode_utf8, encode_utf8, encode_utf8_decode_utf8, valid_utf8};

verus! {

/// `core::str::from_utf8`: the string slice whose bytes are `bytes`, or `None`
/// when the bytes are not valid UTF-8. The contract states what the standard
/// library documents: success exactly on valid UTF-8, and the result has the
/// same bytes.
#[verifier::external_body]
pub(crate) fn from_utf8(bytes: &[u8]) -> (s: Option<&str>)
    ensures
        s is Some <==> valid_utf8(bytes@),
        s matches Some(s) ==> s.spec_bytes() == bytes@,
{
    core::str::from_utf8(bytes).ok()
}

/// `str::strip_prefix` with a string pattern: the rest of `s` after `prefix`,
/// or `None` when `s` does not start with `prefix`.
#[verifier::external_body]
pub(crate) fn strip_prefix_str<'a>(s: &'a str, prefix: &str) -> (rest: Option<&'a str>)
    ensures
        rest is Some <==> (prefix@.len() <= s@.len() && s@.subrange(0, prefix@.len() as int)
            == prefix@),
        rest matches Some(r) ==> r@ == s@.skip(prefix@.len() as int),
{
    s.strip_prefix(prefix)
}

/// `str::strip_prefix` with a character pattern.
#[verifier::external_body]
pub(crate) fn strip_prefix_char(s: &str, c: char) -> (rest: Option<&str>)
    ensures
        rest is Some <==> (s@.len() > 0 && s@[0] == c),
        rest matches Some(r) ==> r@ == s@.skip(1),
{
    s.strip_prefix(c)
}

/// The characters of a valid UTF-8 encoding.
pub proof fn lemma_decode_of_bytes(s: &str)
    ensures
        decode_utf8(s.spec_bytes()) == s@,
        valid_utf8(s.spec_bytes()),
{
    encode_utf8_decode_utf8(s@);
    vstd::utf8::encode_utf8_valid_utf8(s@);
}

/// Whether two strings are equal, compared byte by byte.
pub fn str_eq(a: &str, b: &str) -> (equal: bool)
    ensures
        equal == (a@ == b@),
{
    let x = a.as_bytes();
    let y = b.as_bytes();
    proof {
        encode_utf8_decode_utf8(a@);
        encode_utf8_decode_utf8(b@);
    }
    if x.len() != y.len() {
        return false;
    }
    let mut i: usize = 0;
    while i < x.len()
        invariant
            x@.len() == y@.len(),
            x@ == encode_utf8(a@),
            y@ == encode_utf8(b@),
            decode_utf8(encode_utf8(a@)) == a@,
            decode_utf8(encode_utf8(b@)) == b@,
            i <= x@.len(),
            forall|j: int| 0 <= j < i ==> x@[j] == y@[j],
        decreases x@.len() - i,
    {
        if x[i] != y[i] {
            return false;
        }
        i = i + 1;
    }
    assert(x@ =~= y@);
    true
}

} // verus!
