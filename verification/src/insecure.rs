//! The toy workshop behind the insecure sockets layer: each request line
//! lists toys as `Nx name`, separated by commas, and the answer is the toy
//! wanted in the largest number.
use vstd::prelude::*;
use vstd::utf8::*;
use crate::util::{find_first, find_byte, parse_u32, parse_u32_spec, str_bytes, substr};

verus! {

broadcast use vstd::seq_lib::group_seq_properties;

/// The separator between toys.
pub const COMMA: u8 = 44;

/// The letter after a toy's number.
pub const LETTER_X: u8 = 120;

/// The pieces of `b` between the bytes `c`, in order; a line without `c`
/// is one piece.
pub open spec fn split_on(b: Seq<u8>, c: u8) -> Seq<Seq<u8>>
    decreases b.len(),
{
    match find_first(b, c) {
        Some(i) => if 0 <= i < b.len() {
            seq![b.subrange(0, i)] + split_on(b.subrange(i + 1, b.len() as int), c)
        } else {
            seq![b]
        },
        None => seq![b],
    }
}

/// The number of a toy `Nx name`: the decimal before its first `x`.
pub open spec fn toy_count(toy: Seq<u8>) -> Option<u32> {
    match find_first(toy, LETTER_X) {
        Some(i) => parse_u32_spec(toy.subrange(0, i)),
        None => None,
    }
}

/// The number of a toy, where it has one.
pub open spec fn toy_number(toy: Seq<u8>) -> u32 {
    match toy_count(toy) {
        Some(n) => n,
        None => 0,
    }
}

/// The index of the toy wanted most; of several wanted equally, the last.
pub open spec fn best_toy(toys: Seq<Seq<u8>>) -> int
    decreases toys.len(),
{
    if toys.len() <= 1 {
        0
    } else {
        let k = best_toy(toys.drop_last());
        if toy_number(toys.last()) >= toy_number(toys[k]) {
            toys.len() - 1
        } else {
            k
        }
    }
}

/// Every toy in the line has a number.
pub open spec fn toys_valid(line: Seq<u8>) -> bool {
    forall|k: int|
        0 <= k < split_on(line, COMMA).len() ==> #[trigger] toy_count(split_on(line, COMMA)[k])
            is Some
}

/// The toy the line wants most.
pub open spec fn chosen_toy(line: Seq<u8>) -> Seq<u8> {
    split_on(line, COMMA)[best_toy(split_on(line, COMMA))]
}

/// `best_toy` stays within the toys.
proof fn lemma_best_toy_bounds(toys: Seq<Seq<u8>>)
    ensures
        toys.len() > 0 ==> 0 <= best_toy(toys) < toys.len(),
    decreases toys.len(),
{
    if toys.len() > 1 {
        lemma_best_toy_bounds(toys.drop_last());
    }
}

/// Of the toys, the one `best_toy` picks is wanted at least as much as
/// every other, and more than every toy after it: the largest number, the
/// last of equals.
pub proof fn lemma_best_toy_is_largest(toys: Seq<Seq<u8>>)
    requires
        toys.len() > 0,
    ensures
        0 <= best_toy(toys) < toys.len(),
        forall|k: int| 0 <= k < toys.len() ==> toy_number(#[trigger] toys[k]) <= toy_number(toys[best_toy(toys)]),
        forall|k: int| best_toy(toys) < k < toys.len() ==> toy_number(#[trigger] toys[k]) < toy_number(
            toys[best_toy(toys)],
        ),
    decreases toys.len(),
{
    if toys.len() > 1 {
        let rest = toys.drop_last();
        lemma_best_toy_is_largest(rest);
        assert forall|k: int| 0 <= k < rest.len() implies #[trigger] toys[k] == rest[k] by {}
    }
}

/// The toy a request line gets is one of its toys, wanted at least as much
/// as every toy in the line, and more than every toy after it.
pub proof fn lemma_chosen_toy_is_largest(line: Seq<u8>)
    ensures
        exists|j: int| {
            &&& 0 <= j < split_on(line, COMMA).len()
            &&& chosen_toy(line) == #[trigger] split_on(line, COMMA)[j]
            &&& forall|k: int| 0 <= k < split_on(line, COMMA).len() ==> toy_number(#[trigger] split_on(line, COMMA)[k])
                <= toy_number(split_on(line, COMMA)[j])
            &&& forall|k: int| j < k < split_on(line, COMMA).len() ==> toy_number(#[trigger] split_on(line, COMMA)[k])
                < toy_number(split_on(line, COMMA)[j])
        },
{
    let toys = split_on(line, COMMA);
    assert(toys.len() > 0);
    lemma_best_toy_is_largest(toys);
    let j = best_toy(toys);
    assert(chosen_toy(line) == toys[j]);
}

/// Where in `line` the toy wanted most lies, as a byte range that starts
/// the line or follows a comma, and ends the line or precedes one; `None`
/// where a toy has no number.
fn toy_range(line: &[u8]) -> (r: Option<(usize, usize)>)
    ensures
        r is Some <==> toys_valid(line@),
        r matches Some(range) ==> {
            &&& range.0 <= range.1 <= line@.len()
            &&& line@.subrange(range.0 as int, range.1 as int) == chosen_toy(line@)
            &&& range.0 == 0 || line@[range.0 - 1] == COMMA
            &&& range.1 == line@.len() || line@[range.1 as int] == COMMA
        },
{
    let len = line.len();
    let mut start: usize = 0;
    let ghost mut done: Seq<Seq<u8>> = seq![];
    let mut best: (usize, usize) = (0, 0);
    let mut best_n: u32 = 0;
    let mut have_best = false;
    assert(line@.subrange(0, len as int) =~= line@);
    loop
        invariant_except_break
            split_on(line@, COMMA) == done + split_on(line@.subrange(start as int, len as int), COMMA),
        invariant
            len == line@.len(),
            start <= len,
            forall|k: int| 0 <= k < done.len() ==> #[trigger] toy_count(done[k]) is Some,
            start == 0 || line@[start - 1] == COMMA,
            have_best <==> done.len() > 0,
            done.len() > 0 ==> {
                &&& best.0 <= best.1 <= len
                &&& line@.subrange(best.0 as int, best.1 as int) == done[best_toy(done)]
                &&& toy_number(done[best_toy(done)]) == best_n
                &&& best.0 == 0 || line@[best.0 - 1] == COMMA
                &&& best.1 == len || line@[best.1 as int] == COMMA
            },
        ensures
            split_on(line@, COMMA) == done,
            done.len() > 0,
            best.0 <= best.1 <= len,
            line@.subrange(best.0 as int, best.1 as int) == done[best_toy(done)],
            best.0 == 0 || line@[best.0 - 1] == COMMA,
            best.1 == len || line@[best.1 as int] == COMMA,
        decreases len - start,
    {
        let ghost rest = line@.subrange(start as int, len as int);
        let found = find_byte(line, start, len, COMMA);
        let end: usize = match found {
            Some(i) => i,
            None => len,
        };
        let ghost toy = line@.subrange(start as int, end as int);
        proof {
            match found {
                Some(i) => {
                    assert(rest.subrange(0, i - start) =~= toy);
                    assert(rest.subrange(i - start + 1, rest.len() as int) =~= line@.subrange(
                        i + 1,
                        len as int,
                    ));
                    assert(split_on(rest, COMMA) == seq![toy] + split_on(
                        line@.subrange(i + 1, len as int),
                        COMMA,
                    ));
                },
                None => {
                    assert(rest =~= toy);
                    assert(split_on(rest, COMMA) == seq![toy]);
                },
            }
            assert(split_on(line@, COMMA)[done.len() as int] == toy);
        }
        let xpos = find_byte(line, start, end, LETTER_X);
        let x = match xpos {
            Some(x) => x,
            None => {
                assert(toy_count(split_on(line@, COMMA)[done.len() as int]) is None);
                return None;
            },
        };
        proof {
            assert(toy.subrange(0, x - start) =~= line@.subrange(start as int, x as int));
        }
        let n = match parse_u32(line, start, x) {
            Some(n) => n,
            None => {
                assert(toy_count(split_on(line@, COMMA)[done.len() as int]) is None);
                return None;
            },
        };
        assert(toy_number(toy) == n);
        let ghost old_done = done;
        proof {
            done = done.push(toy);
            assert(done.drop_last() =~= old_done);
            lemma_best_toy_bounds(old_done);
        }
        if !have_best || n >= best_n {
            best = (start, end);
            best_n = n;
        }
        have_best = true;
        match found {
            Some(i) => {
                assert(split_on(line@, COMMA) == done + split_on(
                    line@.subrange(i + 1, len as int),
                    COMMA,
                ));
                start = i + 1;
            },
            None => {
                assert(split_on(line@, COMMA) =~= done);
                break ;
            },
        }
    }
    Some((best.0, best.1))
}

/// The toy the request line wants most, as a part of the line.
pub fn find_toy(line: &str) -> (r: &str)
    requires
        toys_valid(encode_utf8(line@)),
    ensures
        encode_utf8(r@) == chosen_toy(encode_utf8(line@)),
{
    match try_find_toy(line) {
        Some(toy) => toy,
        None => {
            proof {
                assert(false);
            }
            line
        },
    }
}

/// The toy the request line wants most, or `None` where a toy in the line
/// has no number.
pub fn try_find_toy(line: &str) -> (r: Option<&str>)
    ensures
        r is Some <==> toys_valid(encode_utf8(line@)),
        r matches Some(toy) ==> encode_utf8(toy@) == chosen_toy(encode_utf8(line@)),
{
    let bytes = str_bytes(line);
    let (start, end) = match toy_range(bytes) {
        Some(range) => range,
        None => {
            return None;
        },
    };
    let toy = substr(line, start, end);
    Some(toy)
}

} // verus!
