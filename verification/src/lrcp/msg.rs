//! The messages of the line reversal control protocol: `/connect/S/`,
//! `/close/S/`, `/ack/S/L/` and `/data/S/P/DATA/`, where DATA escapes `\`
//! and `/` with a backslash.
use crate::util::{
    all_digits, dec_digits, dec_int, is_digit, lemma_ascii_valid, lemma_dec_digits,
    lemma_dec_int_parse, lemma_valid_join_ascii, lemma_valid_split_ascii, parse_i32,
    parse_i32_spec, push_all, push_i32, string_bytes, string_from_utf8, string_from_valid, find_first,
    lemma_find_first, find_byte,
};
use vstd::prelude::*;
use vstd::utf8::*;

verus! {

broadcast use vstd::seq_lib::group_seq_properties;

/// Why a datagram is not a message.
#[derive(Debug, PartialEq, Eq)]
pub enum DecodeError {
    Invalid,
    ParseUtf8Error,
    ParseIntError,
}

/// A decoded message.
#[derive(Debug, PartialEq)]
pub enum Decoded {
    Connect(Connect),
    Close(Close),
    Ack(Ack),
    Data(Data),
}

#[derive(Debug, PartialEq)]
pub struct Connect {
    pub session: i32,
}

impl Connect {
    pub fn new(session: i32) -> (r: Self)
        ensures
            r.session == session,
    {
        Self { session }
    }
}

#[derive(Debug, PartialEq)]
pub struct Close {
    pub session: i32,
}

impl Close {
    pub fn new(session: i32) -> (r: Self)
        ensures
            r.session == session,
    {
        Self { session }
    }

    /// `/close/SESSION/`.
    pub fn encode(&self) -> (r: String)
        ensures
            encode_utf8(r@) == close_bytes(self.session),
    {
        let mut out: Vec<u8> = Vec::new();
        out.push(SLASH);
        push_word(&mut out, &WORD_CLOSE);
        out.push(SLASH);
        push_i32(&mut out, self.session);
        out.push(SLASH);
        proof {
            assert(out@ =~= close_bytes(self.session));
            lemma_dec_int_ascii(self.session as int);
            lemma_ascii_valid(out@);
        }
        string_from_valid(out.as_slice())
    }
}

#[derive(Debug, PartialEq)]
pub struct Ack {
    pub session: i32,
    pub length: i32,
}

impl Ack {
    pub fn new(session: i32, length: i32) -> (r: Self)
        ensures
            r.session == session,
            r.length == length,
    {
        Self { session, length }
    }

    /// `/ack/SESSION/LENGTH/`.
    pub fn encode(&self) -> (r: String)
        ensures
            encode_utf8(r@) == ack_bytes(self.session, self.length),
    {
        let mut out: Vec<u8> = Vec::new();
        out.push(SLASH);
        push_word(&mut out, &WORD_ACK);
        out.push(SLASH);
        push_i32(&mut out, self.session);
        out.push(SLASH);
        push_i32(&mut out, self.length);
        out.push(SLASH);
        proof {
            assert(out@ =~= ack_bytes(self.session, self.length));
            lemma_dec_int_ascii(self.session as int);
            lemma_dec_int_ascii(self.length as int);
            lemma_ascii_valid(out@);
        }
        string_from_valid(out.as_slice())
    }
}

#[derive(Debug, PartialEq)]
pub struct Data {
    pub session: i32,
    pub pos: i32,
    pub data: String,
}

impl Data {
    pub fn new(session: i32, pos: i32, data: &str) -> (r: Self)
        ensures
            r.session == session,
            r.pos == pos,
            r.data@ == data@,
    {
        Self { session, pos, data: data.to_owned() }
    }

    /// `/data/SESSION/POS/DATA/`, with `\` and `/` in DATA escaped.
    pub fn encode(&self) -> (r: String)
        ensures
            encode_utf8(r@) == data_bytes(self.session, self.pos, self.data@),
    {
        let mut out: Vec<u8> = Vec::new();
        out.push(SLASH);
        push_word(&mut out, &WORD_DATA);
        out.push(SLASH);
        push_i32(&mut out, self.session);
        out.push(SLASH);
        push_i32(&mut out, self.pos);
        out.push(SLASH);
        let ghost head = out@;
        let text = string_bytes(&self.data);
        let mut i: usize = 0;
        while i < text.len()
            invariant
                i <= text@.len(),
                out@ == head + escape(text@.subrange(0, i as int)),
            decreases text@.len() - i,
        {
            let c = text[i];
            if c == BACKSLASH {
                out.push(BACKSLASH);
                out.push(BACKSLASH);
            } else if c == SLASH {
                out.push(BACKSLASH);
                out.push(SLASH);
            } else {
                out.push(c);
            }
            proof {
                lemma_escape_append(text@.subrange(0, i as int), c);
                assert(text@.subrange(0, i + 1) =~= text@.subrange(0, i as int).push(c));
            }
            i = i + 1;
            assert(out@ =~= head + escape(text@.subrange(0, i as int)));
        }
        out.push(SLASH);
        proof {
            assert(text@.subrange(0, text@.len() as int) =~= text@);
            assert(out@ =~= data_bytes(self.session, self.pos, self.data@));
            let pre = seq![SLASH] + word_data() + seq![SLASH] + dec_int(self.session as int)
                + seq![SLASH] + dec_int(self.pos as int);
            lemma_dec_int_ascii(self.session as int);
            lemma_dec_int_ascii(self.pos as int);
            lemma_ascii_valid(pre);
            encode_utf8_valid_utf8(self.data@);
            lemma_escape_valid(encode_utf8(self.data@));
            lemma_ascii_valid(seq![SLASH]);
            lemma_valid_join_ascii(pre, SLASH, escape(encode_utf8(self.data@)));
            vstd::utf8::valid_utf8_concat(
                pre + seq![SLASH] + escape(encode_utf8(self.data@)),
                seq![SLASH],
            );
            assert(out@ =~= pre + seq![SLASH] + escape(encode_utf8(self.data@)) + seq![SLASH]);
        }
        string_from_valid(out.as_slice())
    }
}

/// A message as plain values.
pub enum Message {
    Connect(i32),
    Close(i32),
    Ack(i32, i32),
    Data(i32, i32, Seq<char>),
}

impl View for Decoded {
    type V = Message;

    open spec fn view(&self) -> Message {
        match self {
            Decoded::Connect(c) => Message::Connect(c.session),
            Decoded::Close(c) => Message::Close(c.session),
            Decoded::Ack(a) => Message::Ack(a.session, a.length),
            Decoded::Data(d) => Message::Data(d.session, d.pos, d.data@),
        }
    }
}

pub const SLASH: u8 = 47;

pub const BACKSLASH: u8 = 92;

/// Datagrams of this length or longer are refused.
pub const MAX_MSG_LEN: usize = 1000;

const WORD_CONNECT: [u8; 7] = [99, 111, 110, 110, 101, 99, 116];

const WORD_CLOSE: [u8; 5] = [99, 108, 111, 115, 101];

const WORD_ACK: [u8; 3] = [97, 99, 107];

const WORD_DATA: [u8; 4] = [100, 97, 116, 97];

/// `connect`.
pub open spec fn word_connect() -> Seq<u8> {
    seq![99u8, 111u8, 110u8, 110u8, 101u8, 99u8, 116u8]
}

/// `close`.
pub open spec fn word_close() -> Seq<u8> {
    seq![99u8, 108u8, 111u8, 115u8, 101u8]
}

/// `ack`.
pub open spec fn word_ack() -> Seq<u8> {
    seq![97u8, 99u8, 107u8]
}

/// `data`.
pub open spec fn word_data() -> Seq<u8> {
    seq![100u8, 97u8, 116u8, 97u8]
}

/// The bytes of `/close/SESSION/`.
pub open spec fn close_bytes(session: i32) -> Seq<u8> {
    seq![SLASH] + word_close() + seq![SLASH] + dec_int(session as int) + seq![SLASH]
}

/// The bytes of `/ack/SESSION/LENGTH/`.
pub open spec fn ack_bytes(session: i32, length: i32) -> Seq<u8> {
    seq![SLASH] + word_ack() + seq![SLASH] + dec_int(session as int) + seq![SLASH] + dec_int(
        length as int,
    ) + seq![SLASH]
}

/// The bytes of `/data/SESSION/POS/DATA/`, DATA escaped.
pub open spec fn data_bytes(session: i32, pos: i32, data: Seq<char>) -> Seq<u8> {
    seq![SLASH] + word_data() + seq![SLASH] + dec_int(session as int) + seq![SLASH] + dec_int(
        pos as int,
    ) + seq![SLASH] + escape(encode_utf8(data)) + seq![SLASH]
}

/// A backslash before every `\` and every `/`.
pub open spec fn escape(s: Seq<u8>) -> Seq<u8>
    decreases s.len(),
{
    if s.len() == 0 {
        s
    } else {
        escape(s.drop_last()) + escape_byte(s.last())
    }
}

/// One byte, escaped.
pub open spec fn escape_byte(c: u8) -> Seq<u8> {
    if c == BACKSLASH || c == SLASH {
        seq![BACKSLASH, c]
    } else {
        seq![c]
    }
}

/// Every `x y` pair replaced with `z`, left to right, as `str::replace`
/// replaces a two-character pattern.
pub open spec fn replace_pair(s: Seq<u8>, x: u8, y: u8, z: u8) -> Seq<u8>
    decreases s.len(),
{
    if s.len() == 0 {
        s
    } else if s.len() >= 2 && s[0] == x && s[1] == y {
        seq![z] + replace_pair(s.subrange(2, s.len() as int), x, y, z)
    } else {
        seq![s[0]] + replace_pair(s.drop_first(), x, y, z)
    }
}

/// DATA with its escapes removed: `\\` becomes `\`, then `\/` becomes `/`.
pub open spec fn unescape(s: Seq<u8>) -> Seq<u8> {
    replace_pair(replace_pair(s, BACKSLASH, BACKSLASH, BACKSLASH), BACKSLASH, SLASH, SLASH)
}

/// `t` without its leading slashes.
pub open spec fn trim_start(t: Seq<u8>) -> Seq<u8>
    decreases t.len(),
{
    if t.len() > 0 && t[0] == SLASH {
        trim_start(t.drop_first())
    } else {
        t
    }
}

/// `t` without its trailing slashes.
pub open spec fn trim_end(t: Seq<u8>) -> Seq<u8>
    decreases t.len(),
{
    if t.len() > 0 && t.last() == SLASH {
        trim_end(t.drop_last())
    } else {
        t
    }
}

/// `t` without its leading and trailing slashes.
pub open spec fn trim_slashes(t: Seq<u8>) -> Seq<u8> {
    trim_end(trim_start(t))
}

/// The pieces of `t` between slashes, cut at most three times; `k` cuts
/// are already made.
pub open spec fn split_pieces(t: Seq<u8>, k: nat) -> Seq<Seq<u8>>
    decreases 3 - k,
{
    if k >= 3 {
        seq![t]
    } else {
        match find_first(t, SLASH) {
            Some(i) => seq![t.subrange(0, i)] + split_pieces(
                t.subrange(i + 1, t.len() as int),
                k + 1,
            ),
            None => seq![t],
        }
    }
}

/// Scanning DATA from `i` for a `/` that no backslash escapes, as the check
/// of DATA does: `Some(true)` when one is found, `Some(false)` when none
/// is, and `None` where the check would slice through a multi-byte
/// character (the byte before the slash is not ASCII).
pub open spec fn unescaped_slash(d: Seq<u8>, i: int) -> Option<bool>
    decreases d.len() - i,
{
    if i < 0 || i >= d.len() {
        Some(false)
    } else if d[i] == SLASH && i > 0 {
        if d[i - 1] >= 128 {
            None
        } else if d[i - 1] != BACKSLASH {
            Some(true)
        } else {
            unescaped_slash(d, i + 1)
        }
    } else {
        unescaped_slash(d, i + 1)
    }
}

/// The session and position numbers of a message, read as `i32`.
pub open spec fn parse_two(a: Seq<u8>, b: Seq<u8>) -> Option<(i32, i32)> {
    match (parse_i32_spec(a), parse_i32_spec(b)) {
        (Some(x), Some(y)) => Some((x, y)),
        _ => None,
    }
}

/// What decoding `b` gives; `None` where the decoder would slice through a
/// multi-byte character while checking DATA.
pub open spec fn decode_spec(b: Seq<u8>) -> Option<Result<Message, DecodeError>> {
    if b.len() >= 1000 {
        Some(Err(DecodeError::Invalid))
    } else if !valid_utf8(b) {
        Some(Err(DecodeError::ParseUtf8Error))
    } else if b.len() == 0 || b[0] != SLASH || b.last() != SLASH {
        Some(Err(DecodeError::Invalid))
    } else {
        let p = split_pieces(trim_slashes(b), 0);
        if p.len() == 2 && p[0] == word_connect() {
            Some(
                match parse_i32_spec(p[1]) {
                    Some(s) => Ok(Message::Connect(s)),
                    None => Err(DecodeError::ParseIntError),
                },
            )
        } else if p.len() == 2 && p[0] == word_close() {
            Some(
                match parse_i32_spec(p[1]) {
                    Some(s) => Ok(Message::Close(s)),
                    None => Err(DecodeError::ParseIntError),
                },
            )
        } else if p.len() == 3 && p[0] == word_ack() {
            Some(
                match parse_two(p[1], p[2]) {
                    Some((s, l)) => Ok(Message::Ack(s, l)),
                    None => Err(DecodeError::ParseIntError),
                },
            )
        } else if p.len() == 4 && p[0] == word_data() {
            match unescaped_slash(p[3], 0) {
                None => None,
                Some(true) => Some(Err(DecodeError::Invalid)),
                Some(false) => Some(
                    match parse_two(p[1], p[2]) {
                        Some((s, q)) => Ok(Message::Data(s, q, decode_utf8(unescape(p[3])))),
                        None => Err(DecodeError::ParseIntError),
                    },
                ),
            }
        } else {
            Some(Err(DecodeError::Invalid))
        }
    }
}

/// Decodes a datagram. `None` stands for the inputs on which the decoder
/// would slice through a multi-byte character: a non-ASCII byte right
/// before a `/` in DATA.
pub fn try_decode(bytes: &[u8]) -> (r: Option<Result<Decoded, DecodeError>>)
    ensures
        match r {
            Some(Ok(d)) => decode_spec(bytes@) == Some(Ok::<Message, DecodeError>(d@)),
            Some(Err(e)) => decode_spec(bytes@) == Some(Err::<Message, DecodeError>(e)),
            None => decode_spec(bytes@) is None,
        },
{
    if bytes.len() >= MAX_MSG_LEN {
        return Some(Err(DecodeError::Invalid));
    }
    if string_from_utf8(bytes).is_none() {
        return Some(Err(DecodeError::ParseUtf8Error));
    }
    let n = bytes.len();
    if n == 0 || bytes[0] != SLASH || bytes[n - 1] != SLASH {
        return Some(Err(DecodeError::Invalid));
    }
    let (a, b) = trim_range(bytes);
    let ranges = split_ranges(bytes, a, b);
    let ghost p = split_pieces(trim_slashes(bytes@), 0);
    let np = ranges.len();
    if np == 2 && range_is(bytes, ranges[0].0, ranges[0].1, &WORD_CONNECT) {
        return Some(
            match parse_i32(bytes, ranges[1].0, ranges[1].1) {
                Some(s) => Ok(Decoded::Connect(Connect::new(s))),
                None => Err(DecodeError::ParseIntError),
            },
        );
    }
    if np == 2 && range_is(bytes, ranges[0].0, ranges[0].1, &WORD_CLOSE) {
        return Some(
            match parse_i32(bytes, ranges[1].0, ranges[1].1) {
                Some(s) => Ok(Decoded::Close(Close::new(s))),
                None => Err(DecodeError::ParseIntError),
            },
        );
    }
    if np == 3 && range_is(bytes, ranges[0].0, ranges[0].1, &WORD_ACK) {
        let s = parse_i32(bytes, ranges[1].0, ranges[1].1);
        let l = parse_i32(bytes, ranges[2].0, ranges[2].1);
        return Some(
            match (s, l) {
                (Some(s), Some(l)) => Ok(Decoded::Ack(Ack::new(s, l))),
                _ => Err(DecodeError::ParseIntError),
            },
        );
    }
    if np == 4 && range_is(bytes, ranges[0].0, ranges[0].1, &WORD_DATA) {
        let (ds, de) = ranges[3];
        match find_unescaped_slash(bytes, ds, de) {
            None => {
                return None;
            },
            Some(true) => {
                return Some(Err(DecodeError::Invalid));
            },
            Some(false) => {},
        }
        let s = parse_i32(bytes, ranges[1].0, ranges[1].1);
        let q = parse_i32(bytes, ranges[2].0, ranges[2].1);
        match (s, q) {
            (Some(s), Some(q)) => {
                let first = replace_pair_range(bytes, ds, de, BACKSLASH, BACKSLASH, BACKSLASH);
                let second = replace_pair_range(
                    first.as_slice(),
                    0,
                    first.len(),
                    BACKSLASH,
                    SLASH,
                    SLASH,
                );
                proof {
                    assert(first@.subrange(0, first@.len() as int) =~= first@);
                    lemma_valid_delimited(bytes@, ds as int, de as int);
                    lemma_replace_pair_valid(
                        bytes@.subrange(ds as int, de as int),
                        BACKSLASH,
                        BACKSLASH,
                        BACKSLASH,
                    );
                    lemma_replace_pair_valid(first@, BACKSLASH, SLASH, SLASH);
                }
                let text = string_from_valid(second.as_slice());
                let data = Data { session: s, pos: q, data: text };
                return Some(Ok(Decoded::Data(data)));
            },
            _ => {
                return Some(Err(DecodeError::ParseIntError));
            },
        }
    }
    Some(Err(DecodeError::Invalid))
}

/// Decodes a datagram, on the inputs where the decoder does not slice
/// through a multi-byte character.
pub fn decode(bytes: &[u8]) -> (r: Result<Decoded, DecodeError>)
    requires
        decode_spec(bytes@) is Some,
    ensures
        match r {
            Ok(d) => decode_spec(bytes@) == Some(Ok::<Message, DecodeError>(d@)),
            Err(e) => decode_spec(bytes@) == Some(Err::<Message, DecodeError>(e)),
        },
{
    match try_decode(bytes) {
        Some(r) => r,
        None => {
            proof {
                assert(false);
            }
            Err(DecodeError::Invalid)
        },
    }
}

// ---------------------------------------------------------------------------
// Helpers
// ---------------------------------------------------------------------------

fn push_word(out: &mut Vec<u8>, w: &[u8])
    ensures
        final(out)@ == old(out)@ + w@,
{
    push_all(out, w);
}

/// `s[start..end]` is the word `w`.
fn range_is(s: &[u8], start: usize, end: usize, w: &[u8]) -> (r: bool)
    requires
        start <= end <= s@.len(),
    ensures
        r == (s@.subrange(start as int, end as int) == w@),
{
    if end - start != w.len() {
        return false;
    }
    let mut i: usize = 0;
    while i < w.len()
        invariant
            i <= w@.len(),
            end - start == w@.len(),
            start <= end <= s@.len(),
            forall|j: int| 0 <= j < i ==> s@[start + j] == w@[j],
        decreases w@.len() - i,
    {
        if s[start + i] != w[i] {
            assert(s@.subrange(start as int, end as int)[i as int] != w@[i as int]);
            return false;
        }
        i = i + 1;
    }
    assert(s@.subrange(start as int, end as int) =~= w@);
    true
}

/// The bounds of `s` without its leading and trailing slashes.
fn trim_range(s: &[u8]) -> (r: (usize, usize))
    ensures
        r.0 <= r.1 <= s@.len(),
        s@.subrange(r.0 as int, r.1 as int) == trim_slashes(s@),
        r.0 == 0 || s@[r.0 - 1] == SLASH,
        r.1 == s@.len() || s@[r.1 as int] == SLASH,
{
    let n = s.len();
    let mut a: usize = 0;
    assert(s@.subrange(0, n as int) =~= s@);
    while a < n && s[a] == SLASH
        invariant
            a <= n == s@.len(),
            trim_start(s@) == trim_start(s@.subrange(a as int, n as int)),
            a == 0 || s@[a - 1] == SLASH,
        decreases n - a,
    {
        assert(s@.subrange(a as int, n as int).drop_first() =~= s@.subrange(a + 1, n as int));
        a = a + 1;
    }
    let ghost t = s@.subrange(a as int, n as int);
    assert(trim_start(t) == t);
    let mut b: usize = n;
    assert(t =~= s@.subrange(a as int, b as int));
    while b > a && s[b - 1] == SLASH
        invariant
            a <= b <= n == s@.len(),
            trim_end(t) == trim_end(s@.subrange(a as int, b as int)),
            b == n || s@[b as int] == SLASH,
        decreases b,
    {
        assert(s@.subrange(a as int, b as int).drop_last() =~= s@.subrange(a as int, b - 1));
        b = b - 1;
    }
    assert(trim_end(s@.subrange(a as int, b as int)) == s@.subrange(a as int, b as int));
    (a, b)
}

/// The pieces named by `ranges`, as byte sequences of `s`.
pub open spec fn pieces_of(s: Seq<u8>, ranges: Seq<(usize, usize)>) -> Seq<Seq<u8>> {
    Seq::new(ranges.len(), |i: int| s.subrange(ranges[i].0 as int, ranges[i].1 as int))
}

/// The bytes `s[a..b]` stand between slashes, or at an end of `s`.
pub open spec fn delimited(s: Seq<u8>, a: int, b: int) -> bool {
    &&& 0 <= a <= b <= s.len()
    &&& (a == 0 || s[a - 1] == SLASH)
    &&& (b == s.len() || s[b] == SLASH)
}

/// The bounds of the pieces of `s[a..b]` between slashes, cut at most three
/// times.
fn split_ranges(s: &[u8], a: usize, b: usize) -> (r: Vec<(usize, usize)>)
    requires
        delimited(s@, a as int, b as int),
    ensures
        pieces_of(s@, r@) == split_pieces(s@.subrange(a as int, b as int), 0),
        forall|i: int|
            #![trigger r@[i]]
            0 <= i < r@.len() ==> delimited(s@, r@[i].0 as int, r@[i].1 as int),
{
    let mut r: Vec<(usize, usize)> = Vec::new();
    let mut cur = a;
    let mut done = false;
    while !done && r.len() < 3
        invariant
            delimited(s@, cur as int, b as int),
            a <= cur <= b,
            r@.len() <= 3,
            split_pieces(s@.subrange(a as int, b as int), 0) == if done {
                pieces_of(s@, r@) + seq![s@.subrange(cur as int, b as int)]
            } else {
                pieces_of(s@, r@) + split_pieces(s@.subrange(cur as int, b as int), r@.len() as nat)
            },
            forall|i: int|
                0 <= i < r@.len() ==> #[trigger] delimited(s@, r@[i].0 as int, r@[i].1 as int),
        decreases 3 - r@.len(), if done { 0int } else { 1int },
    {
        let ghost t = s@.subrange(cur as int, b as int);
        let ghost old_r = r@;
        let ghost old_cur = cur;
        match find_byte(s, cur, b, SLASH) {
            Some(i) => {
                assert(t.subrange(0, i - cur) =~= s@.subrange(cur as int, i as int));
                assert(t.subrange(i - cur + 1, t.len() as int) =~= s@.subrange(
                    i + 1,
                    b as int,
                ));
                assert(find_first(t, SLASH) == Some((i - old_cur) as int));
                assert(old_r.len() < 3);
                assert(split_pieces(t, old_r.len() as nat) == seq![t.subrange(0, i - old_cur)]
                    + split_pieces(t.subrange(i - old_cur + 1, t.len() as int), (old_r.len() + 1) as nat));
                r.push((cur, i));
                cur = i + 1;
                assert(pieces_of(s@, r@) =~= pieces_of(s@, old_r) + seq![t.subrange(0, i - old_cur)]);
                assert(pieces_of(s@, r@) + split_pieces(s@.subrange(cur as int, b as int), r@.len() as nat)
                    =~= pieces_of(s@, old_r) + split_pieces(t, old_r.len() as nat));
            },
            None => {
                assert(split_pieces(t, old_r.len() as nat) == seq![t]);
                done = true;
            },
        }
    }
    let ghost old_r = r@;
    r.push((cur, b));
    assert(pieces_of(s@, r@) =~= pieces_of(s@, old_r) + seq![s@.subrange(cur as int, b as int)]);
    r
}

/// Checks DATA, `s[from..to]`, for a `/` that no backslash escapes.
fn find_unescaped_slash(s: &[u8], from: usize, to: usize) -> (r: Option<bool>)
    requires
        from <= to <= s@.len(),
    ensures
        r == unescaped_slash(s@.subrange(from as int, to as int), 0),
{
    let ghost d = s@.subrange(from as int, to as int);
    let mut i = from;
    while i < to
        invariant
            from <= i <= to <= s@.len(),
            d == s@.subrange(from as int, to as int),
            unescaped_slash(d, 0) == unescaped_slash(d, i - from),
        decreases to - i,
    {
        if s[i] == SLASH && i > from {
            if s[i - 1] >= 128 {
                return None;
            } else if s[i - 1] != BACKSLASH {
                return Some(true);
            }
        }
        i = i + 1;
    }
    Some(false)
}

/// `replace_pair` on the bytes `s[from..to]`.
fn replace_pair_range(s: &[u8], from: usize, to: usize, x: u8, y: u8, z: u8) -> (r: Vec<u8>)
    requires
        from <= to <= s@.len(),
    ensures
        r@ == replace_pair(s@.subrange(from as int, to as int), x, y, z),
{
    let mut out: Vec<u8> = Vec::new();
    let mut i = from;
    while i < to
        invariant
            from <= i <= to <= s@.len(),
            replace_pair(s@.subrange(from as int, to as int), x, y, z) == out@ + replace_pair(
                s@.subrange(i as int, to as int),
                x,
                y,
                z,
            ),
        decreases to - i,
    {
        let ghost t = s@.subrange(i as int, to as int);
        let ghost old_out = out@;
        if i + 1 < to && s[i] == x && s[i + 1] == y {
            out.push(z);
            assert(t.subrange(2, t.len() as int) =~= s@.subrange(i + 2, to as int));
            i = i + 2;
        } else {
            out.push(s[i]);
            assert(t.drop_first() =~= s@.subrange(i + 1, to as int));
            i = i + 1;
        }
        assert(out@ + replace_pair(s@.subrange(i as int, to as int), x, y, z) =~= old_out
            + replace_pair(t, x, y, z));
    }
    assert(s@.subrange(to as int, to as int) =~= Seq::<u8>::empty());
    assert(out@ + Seq::<u8>::empty() =~= out@);
    out
}

// ---------------------------------------------------------------------------
// Lemmas on escaping and UTF-8
// ---------------------------------------------------------------------------

proof fn lemma_escape_append(s: Seq<u8>, c: u8)
    ensures
        escape(s.push(c)) == escape(s) + escape_byte(c),
{
    assert(s.push(c).drop_last() =~= s);
}

proof fn lemma_dec_digits_ascii(n: nat)
    ensures
        forall|i: int| 0 <= i < dec_digits(n).len() ==> #[trigger] dec_digits(n)[i] < 128,
{
    lemma_dec_digits(n);
    assert forall|i: int| 0 <= i < dec_digits(n).len() implies #[trigger] dec_digits(n)[i]
        < 128 by {
        assert(is_digit(dec_digits(n)[i]));
    }
}

proof fn lemma_dec_int_ascii(v: int)
    ensures
        forall|i: int| 0 <= i < dec_int(v).len() ==> #[trigger] dec_int(v)[i] < 128,
{
    if v < 0 {
        lemma_dec_digits_ascii((0 - v) as nat);
        assert forall|i: int| 0 <= i < dec_int(v).len() implies #[trigger] dec_int(v)[i]
            < 128 by {
            if i > 0 {
                assert(dec_int(v)[i] == dec_digits((0 - v) as nat)[i - 1]);
            }
        }
    } else {
        lemma_dec_digits_ascii(v as nat);
    }
}

proof fn lemma_escape_concat(a: Seq<u8>, b: Seq<u8>)
    ensures
        escape(a + b) == escape(a) + escape(b),
    decreases b.len(),
{
    if b.len() == 0 {
        assert(a + b =~= a);
        assert(escape(a) + escape(b) =~= escape(a));
    } else {
        assert((a + b).drop_last() =~= a + b.drop_last());
        assert((a + b).last() == b.last());
        lemma_escape_concat(a, b.drop_last());
    }
}

proof fn lemma_escape_high(s: Seq<u8>)
    requires
        forall|i: int| 0 <= i < s.len() ==> #[trigger] s[i] >= 128,
    ensures
        escape(s) == s,
    decreases s.len(),
{
    if s.len() > 0 {
        lemma_escape_high(s.drop_last());
        assert(s.drop_last() + seq![s.last()] =~= s);
    }
}

proof fn lemma_first_scalar_valid(b: Seq<u8>)
    requires
        valid_utf8(b),
        b.len() > 0,
    ensures
        valid_utf8(take_first_scalar(b)),
        valid_utf8(pop_first_scalar(b)),
        take_first_scalar(b) + pop_first_scalar(b) == b,
        take_first_scalar(b).len() >= 1,
        b[0] >= 128 ==> forall|i: int|
            0 <= i < take_first_scalar(b).len() ==> #[trigger] take_first_scalar(b)[i] >= 128,
{
    let t = take_first_scalar(b);
    assert(t + pop_first_scalar(b) =~= b);
    assert(valid_first_scalar(t));
    assert(length_of_first_scalar(t) == t.len());
    assert(pop_first_scalar(t) =~= Seq::<u8>::empty());
    assert(valid_utf8(pop_first_scalar(t)));
    assert(valid_utf8(t));
}

/// Escaping valid UTF-8 gives valid UTF-8.
proof fn lemma_escape_valid(b: Seq<u8>)
    requires
        valid_utf8(b),
    ensures
        valid_utf8(escape(b)),
    decreases b.len(),
{
    if b.len() > 0 {
        lemma_first_scalar_valid(b);
        let t = take_first_scalar(b);
        let rest = pop_first_scalar(b);
        lemma_escape_concat(t, rest);
        lemma_escape_valid(rest);
        if b[0] < 128 {
            assert(t =~= seq![b[0]]);
            assert(escape(t) == escape(Seq::<u8>::empty()) + escape_byte(b[0])) by {
                assert(t.drop_last() =~= Seq::<u8>::empty());
            }
            assert(Seq::<u8>::empty() + escape_byte(b[0]) =~= escape_byte(b[0]));
            lemma_ascii_valid(escape_byte(b[0]));
        } else {
            lemma_escape_high(t);
        }
        vstd::utf8::valid_utf8_concat(escape(t), escape(rest));
    }
}

/// Valid UTF-8 bytes between slashes are valid UTF-8.
proof fn lemma_valid_delimited(s: Seq<u8>, a: int, b: int)
    requires
        valid_utf8(s),
        delimited(s, a, b),
    ensures
        valid_utf8(s.subrange(a, b)),
{
    let tail = if a == 0 {
        assert(s.subrange(0, s.len() as int) =~= s);
        s
    } else {
        lemma_valid_split_ascii(s, a - 1);
        s.subrange(a, s.len() as int)
    };
    assert(valid_utf8(tail));
    assert(tail == s.subrange(a, s.len() as int));
    if b == s.len() {
    } else {
        lemma_valid_split_ascii(tail, b - a);
        assert(tail.subrange(0, b - a) =~= s.subrange(a, b));
    }
}

proof fn lemma_replace_pair_high_prefix(c: Seq<u8>, r: Seq<u8>, x: u8, y: u8, z: u8)
    requires
        x < 128,
        forall|i: int| 0 <= i < c.len() ==> #[trigger] c[i] >= 128,
    ensures
        replace_pair(c + r, x, y, z) == c + replace_pair(r, x, y, z),
    decreases c.len(),
{
    if c.len() > 0 {
        assert((c + r)[0] == c[0]);
        assert((c + r).drop_first() =~= c.drop_first() + r);
        lemma_replace_pair_high_prefix(c.drop_first(), r, x, y, z);
        assert(seq![c[0]] + (c.drop_first() + replace_pair(r, x, y, z)) =~= c + replace_pair(
            r,
            x,
            y,
            z,
        ));
    } else {
        assert(c + r =~= r);
        assert(c + replace_pair(r, x, y, z) =~= replace_pair(r, x, y, z));
    }
}

/// Replacing an ASCII pair with an ASCII byte keeps UTF-8 valid.
proof fn lemma_replace_pair_valid(b: Seq<u8>, x: u8, y: u8, z: u8)
    requires
        valid_utf8(b),
        x < 128,
        y < 128,
        z < 128,
    ensures
        valid_utf8(replace_pair(b, x, y, z)),
    decreases b.len(),
{
    if b.len() > 0 {
        if b.len() >= 2 && b[0] == x && b[1] == y {
            lemma_valid_split_ascii(b, 0);
            let b1 = b.subrange(1, b.len() as int);
            lemma_valid_split_ascii(b1, 0);
            let b2 = b1.subrange(1, b1.len() as int);
            assert(b2 =~= b.subrange(2, b.len() as int));
            lemma_replace_pair_valid(b2, x, y, z);
            lemma_ascii_valid(seq![z]);
            vstd::utf8::valid_utf8_concat(seq![z], replace_pair(b2, x, y, z));
        } else if b[0] < 128 {
            lemma_valid_split_ascii(b, 0);
            assert(b.drop_first() =~= b.subrange(1, b.len() as int));
            lemma_replace_pair_valid(b.drop_first(), x, y, z);
            lemma_ascii_valid(seq![b[0]]);
            vstd::utf8::valid_utf8_concat(seq![b[0]], replace_pair(b.drop_first(), x, y, z));
        } else {
            lemma_first_scalar_valid(b);
            let t = take_first_scalar(b);
            let rest = pop_first_scalar(b);
            lemma_replace_pair_high_prefix(t, rest, x, y, z);
            lemma_replace_pair_valid(rest, x, y, z);
            vstd::utf8::valid_utf8_concat(t, replace_pair(rest, x, y, z));
        }
    }
}

// ---------------------------------------------------------------------------
// Encoding then decoding gives back the message
// ---------------------------------------------------------------------------

/// No `/` in `s`.
pub open spec fn no_slash(s: Seq<u8>) -> bool {
    forall|i: int| 0 <= i < s.len() ==> #[trigger] s[i] != SLASH
}

proof fn lemma_dec_int_no_slash(v: int)
    ensures
        no_slash(dec_int(v)),
        dec_int(v).len() > 0,
        dec_int(v).last() != SLASH,
        dec_int(v)[0] != SLASH,
        dec_int(v).len() <= 11 || v < -2147483648 || v > 4294967295,
{
    lemma_dec_int_ascii(v);
    if v < 0 {
        lemma_dec_digits((0 - v) as nat);
        let d = dec_digits((0 - v) as nat);
        assert forall|i: int| 0 <= i < dec_int(v).len() implies #[trigger] dec_int(v)[i]
            != SLASH by {
            if i > 0 {
                assert(dec_int(v)[i] == d[i - 1]);
                assert(is_digit(d[i - 1]));
            }
        }
        assert(dec_int(v).last() == d.last());
        assert(is_digit(d[d.len() - 1]));
        if -2147483648 <= v {
            lemma_dec_digits_len((0 - v) as nat);
        }
    } else {
        lemma_dec_digits(v as nat);
        let d = dec_digits(v as nat);
        assert forall|i: int| 0 <= i < d.len() implies #[trigger] d[i] != SLASH by {
            assert(is_digit(d[i]));
        }
        assert(is_digit(d[d.len() - 1]));
        if v <= 4294967295 {
            lemma_dec_digits_len(v as nat);
        }
    }
}

proof fn lemma_dec_digits_len(n: nat)
    requires
        n <= 4294967296,
    ensures
        dec_digits(n).len() <= 10,
    decreases n,
{
    if n >= 10 {
        lemma_dec_digits_len_bound(n);
    }
}

proof fn lemma_dec_digits_len_bound(n: nat)
    ensures
        n < 10 ==> dec_digits(n).len() == 1,
        n < 100 ==> dec_digits(n).len() <= 2,
        n < 1000 ==> dec_digits(n).len() <= 3,
        n < 10000 ==> dec_digits(n).len() <= 4,
        n < 100000 ==> dec_digits(n).len() <= 5,
        n < 1000000 ==> dec_digits(n).len() <= 6,
        n < 10000000 ==> dec_digits(n).len() <= 7,
        n < 100000000 ==> dec_digits(n).len() <= 8,
        n < 1000000000 ==> dec_digits(n).len() <= 9,
        n < 10000000000 ==> dec_digits(n).len() <= 10,
    decreases n,
{
    if n >= 10 {
        lemma_dec_digits_len_bound(n / 10);
    }
}

proof fn lemma_find_after(w: Seq<u8>, rest: Seq<u8>)
    requires
        no_slash(w),
    ensures
        find_first(w + seq![SLASH] + rest, SLASH) == Some(w.len() as int),
        (w + seq![SLASH] + rest).subrange(0, w.len() as int) == w,
        (w + seq![SLASH] + rest).subrange(
            w.len() + 1int,
            (w + seq![SLASH] + rest).len() as int,
        ) == rest,
{
    let t = w + seq![SLASH] + rest;
    assert forall|j: int| 0 <= j < w.len() implies t[j] != SLASH by {
        assert(t[j] == w[j]);
    }
    lemma_find_first(t, SLASH, w.len() as int);
    assert(t.subrange(0, w.len() as int) =~= w);
    assert(t.subrange(w.len() + 1int, t.len() as int) =~= rest);
}

proof fn lemma_find_none(w: Seq<u8>)
    requires
        no_slash(w),
    ensures
        find_first(w, SLASH) is None,
{
    lemma_find_first(w, SLASH, w.len() as int);
}

proof fn lemma_trim_frame(m: Seq<u8>)
    requires
        m.len() > 0,
        m[0] != SLASH,
        m.last() != SLASH,
    ensures
        trim_slashes(seq![SLASH] + m + seq![SLASH]) == m,
{
    let b = seq![SLASH] + m + seq![SLASH];
    assert(b.drop_first() =~= m + seq![SLASH]);
    assert(b[0] == SLASH);
    assert(b.len() > 0);
    assert(trim_start(b) == trim_start(b.drop_first()));
    assert((m + seq![SLASH])[0] == m[0]);
    assert(trim_start(m + seq![SLASH]) == m + seq![SLASH]);
    assert(trim_start(b) == m + seq![SLASH]);
    assert((m + seq![SLASH]).drop_last() =~= m);
    assert(trim_end(m + seq![SLASH]) == trim_end(m));
    assert(trim_end(m) == m);
}

proof fn lemma_words()
    ensures
        no_slash(word_connect()),
        no_slash(word_close()),
        no_slash(word_ack()),
        no_slash(word_data()),
        word_close() != word_connect(),
        word_ack() != word_connect(),
        word_ack() != word_close(),
        word_data() != word_connect(),
        word_data() != word_close(),
        word_data() != word_ack(),
{
    assert(word_close().len() != word_connect().len());
    assert(word_ack().len() != word_connect().len());
    assert(word_ack().len() != word_close().len());
    assert(word_data().len() != word_connect().len());
    assert(word_data().len() != word_close().len());
    assert(word_data().len() != word_ack().len());
}

/// Decoding the encoding of a `Close` gives the `Close` back.
pub proof fn lemma_close_roundtrip(session: i32)
    ensures
        decode_spec(close_bytes(session)) == Some(
            Ok::<Message, DecodeError>(Message::Close(session)),
        ),
{
    let d = dec_int(session as int);
    lemma_dec_int_no_slash(session as int);
    lemma_dec_int_parse(session);
    lemma_dec_int_ascii(session as int);
    lemma_words();
    let m = word_close() + seq![SLASH] + d;
    let b = close_bytes(session);
    assert(b =~= seq![SLASH] + m + seq![SLASH]);
    assert(m[0] == 99u8);
    assert(m.last() == d.last());
    lemma_trim_frame(m);
    lemma_ascii_valid(b);
    lemma_find_after(word_close(), d);
    lemma_find_none(d);
    assert(split_pieces(d, 1) == seq![d]);
    assert(split_pieces(m, 0) =~= seq![word_close(), d]);
}

/// Decoding the encoding of an `Ack` gives the `Ack` back.
#[verifier::rlimit(100)]
pub proof fn lemma_ack_roundtrip(session: i32, length: i32)
    ensures
        decode_spec(ack_bytes(session, length)) == Some(
            Ok::<Message, DecodeError>(Message::Ack(session, length)),
        ),
{
    let d1 = dec_int(session as int);
    let d2 = dec_int(length as int);
    lemma_dec_int_no_slash(session as int);
    lemma_dec_int_no_slash(length as int);
    lemma_dec_int_parse(session);
    lemma_dec_int_parse(length);
    lemma_dec_int_ascii(session as int);
    lemma_dec_int_ascii(length as int);
    lemma_words();
    let r1 = d1 + seq![SLASH] + d2;
    let m = word_ack() + seq![SLASH] + r1;
    let b = ack_bytes(session, length);
    assert(b =~= seq![SLASH] + m + seq![SLASH]);
    assert(m[0] == 97u8);
    assert(m.last() == d2.last());
    lemma_trim_frame(m);
    lemma_ascii_valid(b);
    lemma_find_after(word_ack(), r1);
    lemma_find_after(d1, d2);
    lemma_find_none(d2);
    assert(split_pieces(d2, 2) == seq![d2]);
    assert(split_pieces(r1, 1) =~= seq![d1, d2]);
    assert(split_pieces(m, 0) =~= seq![word_ack(), d1, d2]);
}

/// `escape` read from the front: the first byte escaped, then the rest.
proof fn lemma_escape_front(c: u8, y: Seq<u8>)
    ensures
        escape(seq![c] + y) == escape_byte(c) + escape(y),
{
    lemma_escape_concat(seq![c], y);
    assert(seq![c].drop_last() =~= Seq::<u8>::empty());
    assert(seq![c].last() == c);
    assert(escape(Seq::<u8>::empty()) == Seq::<u8>::empty());
    assert(escape(seq![c]) == escape(Seq::<u8>::empty()) + escape_byte(c));
    assert(escape(seq![c]) =~= escape_byte(c));
}

/// The bytes after removing the doubled backslashes from escaped `x`.
spec fn half_unescaped(x: Seq<u8>) -> Seq<u8>
    decreases x.len(),
{
    if x.len() == 0 {
        x
    } else if x[0] == SLASH {
        seq![BACKSLASH, SLASH] + half_unescaped(x.drop_first())
    } else {
        seq![x[0]] + half_unescaped(x.drop_first())
    }
}

proof fn lemma_unescape_first_pass(x: Seq<u8>)
    ensures
        replace_pair(escape(x), BACKSLASH, BACKSLASH, BACKSLASH) == half_unescaped(x),
        half_unescaped(x).len() > 0 ==> half_unescaped(x)[0] != SLASH,
    decreases x.len(),
{
    if x.len() > 0 {
        let c = x[0];
        let y = x.drop_first();
        assert(x =~= seq![c] + y);
        lemma_escape_front(c, y);
        lemma_unescape_first_pass(y);
        let e = escape(y);
        let r = replace_pair(e, BACKSLASH, BACKSLASH, BACKSLASH);
        if c == BACKSLASH {
            let s = seq![BACKSLASH, BACKSLASH] + e;
            assert(s.subrange(2, s.len() as int) =~= e);
            assert(replace_pair(s, BACKSLASH, BACKSLASH, BACKSLASH) == seq![BACKSLASH] + r);
        } else if c == SLASH {
            let s = seq![BACKSLASH, SLASH] + e;
            assert(s.drop_first() =~= seq![SLASH] + e);
            assert((seq![SLASH] + e).drop_first() =~= e);
            assert(replace_pair(seq![SLASH] + e, BACKSLASH, BACKSLASH, BACKSLASH) == seq![SLASH]
                + r);
            assert(replace_pair(s, BACKSLASH, BACKSLASH, BACKSLASH) == seq![BACKSLASH] + (seq![
                SLASH,
            ] + r));
            assert(seq![BACKSLASH] + (seq![SLASH] + r) =~= seq![BACKSLASH, SLASH] + r);
        } else {
            let s = seq![c] + e;
            assert(s.drop_first() =~= e);
            assert(replace_pair(s, BACKSLASH, BACKSLASH, BACKSLASH) == seq![c] + r);
        }
    }
}

proof fn lemma_unescape_second_pass(x: Seq<u8>)
    ensures
        replace_pair(half_unescaped(x), BACKSLASH, SLASH, SLASH) == x,
    decreases x.len(),
{
    if x.len() > 0 {
        let c = x[0];
        let y = x.drop_first();
        lemma_unescape_second_pass(y);
        lemma_unescape_first_pass(y);
        let h = half_unescaped(y);
        if c == SLASH {
            let s = seq![BACKSLASH, SLASH] + h;
            assert(s.subrange(2, s.len() as int) =~= h);
            assert(replace_pair(s, BACKSLASH, SLASH, SLASH) == seq![SLASH] + y);
        } else {
            let s = seq![c] + h;
            assert(s.drop_first() =~= h);
            if c == BACKSLASH && h.len() > 0 {
                assert(s[1] == h[0]);
            }
            assert(replace_pair(s, BACKSLASH, SLASH, SLASH) == seq![c] + y);
        }
        assert(seq![c] + y =~= x);
    }
}

/// Removing the escapes from escaped bytes gives back the bytes.
pub proof fn lemma_unescape_escape(x: Seq<u8>)
    ensures
        unescape(escape(x)) == x,
{
    lemma_unescape_first_pass(x);
    lemma_unescape_second_pass(x);
}

/// Every `/` in escaped bytes follows a backslash.
proof fn lemma_escape_slashes(x: Seq<u8>)
    ensures
        forall|i: int|
            0 <= i < escape(x).len() && #[trigger] escape(x)[i] == SLASH ==> i > 0 && escape(
                x,
            )[i - 1] == BACKSLASH,
    decreases x.len(),
{
    if x.len() > 0 {
        lemma_escape_slashes(x.drop_last());
        let e0 = escape(x.drop_last());
        let e = escape(x);
        assert forall|i: int| 0 <= i < e.len() && #[trigger] e[i] == SLASH implies i > 0 && e[i
            - 1] == BACKSLASH by {
            if i < e0.len() {
                assert(e[i] == e0[i]);
                assert(e[i - 1] == e0[i - 1]);
            }
        }
    }
}

proof fn lemma_no_unescaped_slash(d: Seq<u8>, i: int)
    requires
        0 <= i,
        forall|k: int| 0 <= k < d.len() && #[trigger] d[k] == SLASH ==> k > 0 && d[k - 1]
            == BACKSLASH,
    ensures
        unescaped_slash(d, i) == Some(false),
    decreases d.len() - i,
{
    if i < d.len() {
        lemma_no_unescaped_slash(d, i + 1);
    }
}

proof fn lemma_escape_last(x: Seq<u8>)
    requires
        x.len() > 0,
        x.last() != SLASH,
    ensures
        escape(x).len() > 0,
        escape(x).last() != SLASH,
        escape(x).len() >= x.len(),
    decreases x.len(),
{
    lemma_escape_len(x.drop_last());
}

proof fn lemma_escape_len(x: Seq<u8>)
    ensures
        escape(x).len() >= x.len(),
    decreases x.len(),
{
    if x.len() > 0 {
        lemma_escape_len(x.drop_last());
    }
}

/// Decoding the encoding of a `Data` gives the `Data` back, when the data is
/// not empty, does not end with `/`, and the datagram stays under the
/// length limit.
#[verifier::rlimit(100)]
pub proof fn lemma_data_roundtrip(session: i32, pos: i32, data: Seq<char>)
    requires
        data.len() > 0,
        data.last() != '/',
        data_bytes(session, pos, data).len() < 1000,
    ensures
        decode_spec(data_bytes(session, pos, data)) == Some(
            Ok::<Message, DecodeError>(Message::Data(session, pos, data)),
        ),
{
    let d1 = dec_int(session as int);
    let d2 = dec_int(pos as int);
    lemma_dec_int_no_slash(session as int);
    lemma_dec_int_no_slash(pos as int);
    lemma_dec_int_parse(session);
    lemma_dec_int_parse(pos);
    lemma_dec_int_ascii(session as int);
    lemma_dec_int_ascii(pos as int);
    lemma_words();
    let x = encode_utf8(data);
    lemma_last_byte(data);
    let e = escape(x);
    lemma_escape_last(x);
    let r2 = d2 + seq![SLASH] + e;
    let r1 = d1 + seq![SLASH] + r2;
    let m = word_data() + seq![SLASH] + r1;
    let b = data_bytes(session, pos, data);
    assert(b =~= seq![SLASH] + m + seq![SLASH]);
    assert(m[0] == 100u8);
    assert(m.last() == e.last());
    lemma_trim_frame(m);
    // valid UTF-8
    let pre = seq![SLASH] + word_data() + seq![SLASH] + d1 + seq![SLASH] + d2;
    lemma_ascii_valid(pre);
    encode_utf8_valid_utf8(data);
    lemma_escape_valid(x);
    lemma_valid_join_ascii(pre, SLASH, e);
    lemma_ascii_valid(seq![SLASH]);
    vstd::utf8::valid_utf8_concat(pre + seq![SLASH] + e, seq![SLASH]);
    assert(b =~= pre + seq![SLASH] + e + seq![SLASH]);
    // pieces
    lemma_find_after(word_data(), r1);
    lemma_find_after(d1, r2);
    lemma_find_after(d2, e);
    assert(split_pieces(e, 3) == seq![e]);
    assert(split_pieces(r2, 2) =~= seq![d2, e]);
    assert(split_pieces(r1, 1) =~= seq![d1, d2, e]);
    assert(split_pieces(m, 0) =~= seq![word_data(), d1, d2, e]);
    // data
    lemma_escape_slashes(x);
    lemma_no_unescaped_slash(e, 0);
    lemma_unescape_escape(x);
    encode_utf8_decode_utf8(data);
}

/// The last byte of the UTF-8 encoding of text that does not end with `/`
/// is not `/`.
proof fn lemma_last_byte(data: Seq<char>)
    requires
        data.len() > 0,
        data.last() != '/',
    ensures
        encode_utf8(data).len() > 0,
        encode_utf8(data).last() != SLASH,
{
    let init = data.drop_last();
    let c = data.last();
    lemma_encode_utf8_concat(init, seq![c]);
    assert(init + seq![c] =~= data);
    assert(seq![c].drop_first() =~= Seq::<char>::empty());
    assert(seq![c][0] == c);
    assert(encode_utf8(Seq::<char>::empty()) == Seq::<u8>::empty());
    assert(encode_utf8(seq![c]) == encode_scalar(c as u32) + encode_utf8(Seq::<char>::empty()));
    assert(encode_utf8(seq![c]) =~= encode_scalar(c as u32));
    vstd::utf8::char_is_scalar(c);
    lemma_scalar_last_byte(c);
}

proof fn lemma_scalar_last_byte(c: char)
    requires
        c != '/',
    ensures
        encode_scalar(c as u32).len() > 0,
        encode_scalar(c as u32).last() != SLASH,
{
    let v = c as u32;
    if has_width_1_encoding(v) {
        assert(leading_byte_width_1(v) == v as u8) by (bit_vector)
            requires
                has_width_1_encoding(v),
        ;
        assert(v != 47);
    } else {
        assert(last_continuation_byte(v) >= 0x80) by (bit_vector);
    }
}

proof fn lemma_encode_utf8_concat(a: Seq<char>, b: Seq<char>)
    ensures
        encode_utf8(a + b) == encode_utf8(a) + encode_utf8(b),
    decreases a.len(),
{
    if a.len() > 0 {
        assert((a + b).drop_first() =~= a.drop_first() + b);
        assert((a + b)[0] == a[0]);
        lemma_encode_utf8_concat(a.drop_first(), b);
        assert(encode_utf8(a + b) =~= encode_utf8(a) + encode_utf8(b));
    } else {
        assert(a + b =~= b);
        assert(encode_utf8(a) + encode_utf8(b) =~= encode_utf8(b));
    }
}

} // verus!
