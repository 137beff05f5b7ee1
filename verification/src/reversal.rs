//! Line reversal: each line that arrives goes back with its characters in
//! reverse order.
use vstd::prelude::*;
use vstd::utf8::*;
use crate::util::{find_first, find_byte, copy_range, string_from_valid, str_bytes, lemma_valid_split_ascii};

verus! {

broadcast use vstd::seq_lib::group_seq_properties;

/// `String::from_iter` over characters: the string of those characters, in
/// order.
#[verifier::external_body]
fn string_from_chars(chars: Vec<char>) -> (r: String)
    ensures
        r@ == chars@,
{
    String::from_iter(chars)
}

/// A line with its characters in reverse order, and a newline after.
pub fn reverse_line(line: &str) -> (r: String)
    ensures
        r@ == line@.reverse().push('\n'),
{
    let mut chars: Vec<char> = Vec::new();
    for c in it: line.chars()
        invariant
            it.seq() == line@,
            chars@ == it.seq().subrange(0, it.index() as int).reverse(),
    {
        let ghost before = chars@;
        chars.insert(0, c);
        proof {
            let n = it.index() as int;
            assert(it.seq().subrange(0, n + 1).reverse() =~= seq![c] + before);
        }
    }
    assert(line@.subrange(0, line@.len() as int) =~= line@);
    chars.push('\n');
    string_from_chars(chars)
}

/// Takes the first line off `buf`, newline included, and gives it without
/// the newline; `None`, leaving `buf` as it was, where no line is complete.
pub fn next_line(buf: &mut String) -> (r: Option<String>)
    ensures
        match find_first(encode_utf8(old(buf)@), 10u8) {
            None => r is None && final(buf)@ == old(buf)@,
            Some(pos) => r matches Some(line) && {
                &&& encode_utf8(line@) == encode_utf8(old(buf)@).subrange(0, pos)
                &&& encode_utf8(final(buf)@) == encode_utf8(old(buf)@).subrange(pos + 1, encode_utf8(old(buf)@).len() as int)
            },
        },
{
    let b = str_bytes(buf.as_str());
    let len = b.len();
    assert(b@.subrange(0, len as int) =~= b@);
    match find_byte(b, 0, len, 10u8) {
        None => None,
        Some(pos) => {
            proof {
                encode_utf8_valid_utf8(buf@);
                lemma_valid_split_ascii(b@, pos as int);
            }
            let line = string_from_valid(copy_range(b, 0, pos).as_slice());
            let rest = string_from_valid(copy_range(b, pos + 1, len).as_slice());
            *buf = rest;
            Some(line)
        },
    }
}

} // verus!
