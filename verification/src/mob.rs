//! Mob in the middle: a proxy for budget chat that rewrites Boguscoin
//! addresses in every line to Tony's.
use vstd::prelude::*;
use vstd::utf8::*;
use crate::util::{find_first, find_byte, copy_range, string_from_utf8};

verus! {

broadcast use vstd::seq_lib::group_seq_properties;

/// Why a line could not be read: its bytes are not UTF-8.
#[derive(Debug, PartialEq, Eq)]
pub enum ParseError {
    InvalidData,
}

/// Takes the first line off `buffer`, newline included, and gives its text
/// without the newline; gives `None`, leaving `buffer` as it was, where no
/// line is complete yet. A line that is not UTF-8 is an error, and is taken
/// off all the same.
pub fn parse_message(buffer: &mut Vec<u8>) -> (r: Result<Option<String>, ParseError>)
    ensures
        match find_first(old(buffer)@, 10u8) {
            None => r == Ok::<Option<String>, ParseError>(None) && final(buffer)@ == old(buffer)@,
            Some(pos) => {
                let line = old(buffer)@.subrange(0, pos);
                &&& final(buffer)@ == old(buffer)@.subrange(pos + 1, old(buffer)@.len() as int)
                &&& match r {
                    Ok(Some(s)) => valid_utf8(line) && s@ == decode_utf8(line),
                    Ok(None) => false,
                    Err(e) => !valid_utf8(line) && e == ParseError::InvalidData,
                }
            },
        },
{
    let len = buffer.len();
    assert(buffer@.subrange(0, len as int) =~= buffer@);
    match find_byte(buffer.as_slice(), 0, len, 10u8) {
        None => Ok(None),
        Some(pos) => {
            let line = copy_range(buffer.as_slice(), 0, pos);
            let rest = copy_range(buffer.as_slice(), pos + 1, len);
            *buffer = rest;
            match string_from_utf8(line.as_slice()) {
                Some(s) => Ok(Some(s)),
                None => Err(ParseError::InvalidData),
            }
        },
    }
}

/// What `regex::Regex::new(pattern)` and then `replace_all(text, rep)` give:
/// the text with every match replaced, or `None` where the pattern does not
/// compile.
pub uninterp spec fn regex_replaced(pattern: Seq<char>, text: Seq<char>, rep: Seq<char>) -> Option<Seq<char>>;

/// `regex::Regex::new(pattern)`, then `replace_all(text, rep)`, made into an
/// owned string. The result is only named here, by `regex_replaced`.
#[verifier::external_body]
fn regex_replace_all(pattern: &str, text: &str, rep: &str) -> (r: Option<String>)
    ensures
        match r {
            Some(s) => regex_replaced(pattern@, text@, rep@) == Some(s@),
            None => regex_replaced(pattern@, text@, rep@) is None,
        },
{
    match regex::Regex::new(pattern) {
        Ok(re) => Some(re.replace_all(text, rep).into_owned()),
        Err(_) => None,
    }
}

/// Tony's Boguscoin address.
pub const TONYSBOGUSCOIN: &'static str = "7YWHMfk9JZe0LM0g1ZauHuiSxhI";

/// An address after the start or a space.
pub open spec fn address_after() -> Seq<char> {
    "[\\^\\s]7[0-9a-zA-Z]{25,34}"@
}

/// An address before a space or the end.
pub open spec fn address_before() -> Seq<char> {
    "7[0-9a-zA-Z]{25,34}[\\s$]"@
}

/// Rewrites the Boguscoin addresses in a chat line to Tony's: first those
/// the first pattern finds, then, in the result, those the second finds.
/// `None` where a pattern does not compile.
pub fn find_and_replace_bc(msg: &str) -> (r: Option<String>)
    ensures
        match regex_replaced(address_after(), msg@, TONYSBOGUSCOIN@) {
            None => r is None,
            Some(m) => match regex_replaced(address_before(), m, TONYSBOGUSCOIN@) {
                None => r is None,
                Some(m2) => r matches Some(s) && s@ == m2,
            },
        },
{
    let m = match regex_replace_all("[\\^\\s]7[0-9a-zA-Z]{25,34}", msg, TONYSBOGUSCOIN) {
        Some(m) => m,
        None => {
            return None;
        },
    };
    regex_replace_all("7[0-9a-zA-Z]{25,34}[\\s$]", m.as_str(), TONYSBOGUSCOIN)
}

/// The Boguscoin patterns and Tony's address, character by character. An
/// address is a `7` then 25 to 34 ASCII letters or digits; the first
/// pattern takes it with the one character before it, a `^` or white
/// space, and the second with the one after it, white space or `$`. Tony's
/// address is `7YWHMfk9JZe0LM0g1ZauHuiSxhI`.
pub proof fn lemma_address_patterns()
    ensures
        address_after() == seq![
            '[', '\\', '^', '\\', 's', ']', '7', '[', '0', '-', '9', 'a', '-', 'z', 'A', '-', 'Z', ']',
            '{', '2', '5', ',', '3', '4', '}',
        ],
        address_before() == seq![
            '7', '[', '0', '-', '9', 'a', '-', 'z', 'A', '-', 'Z', ']', '{', '2', '5', ',', '3', '4', '}',
            '[', '\\', 's', '$', ']',
        ],
        TONYSBOGUSCOIN@ == seq![
            '7', 'Y', 'W', 'H', 'M', 'f', 'k', '9', 'J', 'Z', 'e', '0', 'L', 'M', '0', 'g', '1', 'Z', 'a',
            'u', 'H', 'u', 'i', 'S', 'x', 'h', 'I',
        ],
{
    reveal_strlit("[\\^\\s]7[0-9a-zA-Z]{25,34}");
    reveal_strlit("7[0-9a-zA-Z]{25,34}[\\s$]");
    reveal_strlit("7YWHMfk9JZe0LM0g1ZauHuiSxhI");
    assert(address_after() =~= seq![
        '[', '\\', '^', '\\', 's', ']', '7', '[', '0', '-', '9', 'a', '-', 'z', 'A', '-', 'Z', ']',
        '{', '2', '5', ',', '3', '4', '}',
    ]);
    assert(address_before() =~= seq![
        '7', '[', '0', '-', '9', 'a', '-', 'z', 'A', '-', 'Z', ']', '{', '2', '5', ',', '3', '4', '}',
        '[', '\\', 's', '$', ']',
    ]);
    assert(TONYSBOGUSCOIN@ =~= seq![
        '7', 'Y', 'W', 'H', 'M', 'f', 'k', '9', 'J', 'Z', 'e', '0', 'L', 'M', '0', 'g', '1', 'Z', 'a',
        'u', 'H', 'u', 'i', 'S', 'x', 'h', 'I',
    ]);
}

} // verus!
