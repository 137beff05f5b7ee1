//! The insecure sockets layer: its cipher, and the logic of its toy
//! workshop.
pub mod cipher;

use vstd::prelude::*;
use vstd::utf8::*;
use crate::insecure::{toys_valid, chosen_toy};

verus! {

/// The byte at `i` ends a cipher spec: a zero that is not the operand of
/// an operation that takes one.
pub open spec fn ends_cipher(bytes: Seq<u8>, i: int) -> bool {
    bytes[i] == 0 && (i == 0 || (bytes[i - 1] != 2 && bytes[i - 1] != 4))
}

/// The index of the first byte that ends a cipher spec, if there is one.
pub fn find_end_of_cipher(bytes: &[u8]) -> (r: Option<usize>)
    ensures
        match r {
            Some(i) => i < bytes@.len() && ends_cipher(bytes@, i as int) && forall|j: int|
                0 <= j < i ==> !ends_cipher(bytes@, j),
            None => forall|j: int| 0 <= j < bytes@.len() ==> !ends_cipher(bytes@, j),
        },
{
    let mut i: usize = 0;
    while i < bytes.len()
        invariant
            i <= bytes@.len(),
            forall|j: int| 0 <= j < i ==> !ends_cipher(bytes@, j),
        decreases bytes@.len() - i,
    {
        if bytes[i] == 0 && (i == 0 || (bytes[i - 1] != 2 && bytes[i - 1] != 4)) {
            return Some(i);
        }
        i = i + 1;
    }
    None
}

/// The answer to a request line of the toy workshop: the toy wanted most
/// (see `crate::insecure`), as a string of its own.
pub fn find_toy(line: &str) -> (r: String)
    requires
        toys_valid(encode_utf8(line@)),
    ensures
        encode_utf8(r@) == chosen_toy(encode_utf8(line@)),
{
    crate::insecure::find_toy(line).to_owned()
}

} // verus!
