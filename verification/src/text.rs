//! Small text helpers: the two standard-library calls the library trusts, and message building.
use vstd::prelude::*;
use vstd::utf8::{encode_utf8, valid_utf8};

verus! {

/// `String::push`: appends one character at the end of the string.
#[verifier::external_body]
pub(crate) fn push_char(s: &mut String, c: char)
    ensures
        final(s)@ == old(s)@.push(c),
{
    s.push(c);
}

/// `std::str::from_utf8`: succeeds exactly on the byte sequences that are
/// valid UTF-8, and the string it gives back has exactly those bytes.
#[verifier::external_body]
pub(crate) fn str_from_utf8(bytes: &[u8]) -> (res: Option<&str>)
    ensures
        res is Some <==> valid_utf8(bytes@),
        res matches Some(s) ==> encode_utf8(s@) == bytes@,
{
    std::str::from_utf8(bytes).ok()
}

/// Whether `b` is one of `set`.
pub(crate) fn contains_byte(set: &[u8], b: u8) -> (res: bool)
    ensures
        res == set@.contains(b),
{
    let mut i: usize = 0;
    while i < set.len()
        invariant
            i <= set@.len(),
            forall|j: int| 0 <= j < i ==> set@[j] != b,
        decreases set@.len() - i,
    {
        if set[i] == b {
            assert(set@[i as int] == b);
            return true;
        }
        i += 1;
    }
    false
}

/// `prefix`, then the byte read as a Latin-1 character, then a closing quote.
pub(crate) fn quoted_byte_message(prefix: &str, byte: u8) -> (m: String)
    ensures
        m@ == prefix@ + seq![byte as char] + "'"@,
{
    let mut m = String::new();
    m.append(prefix);
    push_char(&mut m, byte as char);
    m.append("'");
    m
}

} // verus!
