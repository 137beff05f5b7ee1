//! The pest control protocol: the values its messages carry and how each
//! of them is laid out in bytes.
pub mod msg;
pub mod policy;

use crate::util::{
    be_u32_at, lemma_text_of_bytes, lemma_u32_bytes_roundtrip, push_all, push_u32, read_u32,
    string_bytes, string_from_utf8, u32_bytes, utf8_text,
};
use vstd::prelude::*;
use vstd::utf8::*;
use vstd::string::StringExecFns;

verus! {

broadcast use vstd::seq_lib::group_seq_properties;

/// Why bytes are not a message.
#[derive(Debug, PartialEq, Eq, Clone, Copy)]
pub enum Error {
    InvalidMessage,
    InvalidChecksum,
    InvalidLength,
    InvalidProtocol,
    InvalidAction,
    TooLarge,
    Unexpected,
    FromUtf8Error,
}

/// The text that explains an error.
pub open spec fn error_text(e: Error) -> Seq<char> {
    match e {
        Error::InvalidMessage => "invalid message"@,
        Error::InvalidChecksum => "invalid checksum"@,
        Error::InvalidLength => "invalid message length"@,
        Error::InvalidProtocol => "invalid protocol"@,
        Error::InvalidAction => "invalid action"@,
        Error::TooLarge => "message too large"@,
        Error::Unexpected => "unexpected message"@,
        Error::FromUtf8Error => "invalid utf-8"@,
    }
}

impl Error {
    /// The text that explains the error, as an error message carries it.
    pub fn message(&self) -> (r: String)
        ensures
            r@ == error_text(*self),
    {
        match self {
            Error::InvalidMessage => String::from_str("invalid message"),
            Error::InvalidChecksum => String::from_str("invalid checksum"),
            Error::InvalidLength => String::from_str("invalid message length"),
            Error::InvalidProtocol => String::from_str("invalid protocol"),
            Error::InvalidAction => String::from_str("invalid action"),
            Error::TooLarge => String::from_str("message too large"),
            Error::Unexpected => String::from_str("unexpected message"),
            Error::FromUtf8Error => String::from_str("invalid utf-8"),
        }
    }
}

/// A result whose error is this protocol's.
pub type Result<T, E = Error> = std::result::Result<T, E>;

/// A value with a byte layout: it decodes from bytes and encodes to them.
pub trait Decodable: Sized + DeepView {
    /// What decoding `buf` gives.
    spec fn decoded(buf: Seq<u8>) -> Result<Self::V, Error>;

    /// The bytes that a value encodes to.
    spec fn encoded(v: Self::V) -> Seq<u8>;

    /// The inputs that decoding accepts without a fault.
    spec fn decodable(buf: Seq<u8>) -> bool;

    /// The values that encoding accepts without a fault.
    spec fn encodable(v: Self::V) -> bool;

    fn decode(buf: &[u8]) -> (r: Result<Self, Error>)
        requires
            Self::decodable(buf@),
        ensures
            match r {
                Ok(v) => Self::decoded(buf@) == Ok::<Self::V, Error>(v.deep_view()),
                Err(e) => Self::decoded(buf@) == Err::<Self::V, Error>(e),
            },
    ;

    fn encode(&self) -> (r: Vec<u8>)
        requires
            Self::encodable(self.deep_view()),
        ensures
            r@ == Self::encoded(self.deep_view()),
    ;

    fn bytelen(&self) -> (r: usize)
        requires
            Self::encoded(self.deep_view()).len() <= usize::MAX,
        ensures
            r == Self::encoded(self.deep_view()).len(),
    ;
}

#[derive(PartialEq, Debug, Clone)]
pub struct Population {
    pub species: String,
    pub count: u32,
}

#[derive(PartialEq, Debug, Clone)]
pub struct TargetPopulation {
    pub species: String,
    pub min: u32,
    pub max: u32,
}

#[derive(PartialEq, Eq, Debug, Clone, Copy)]
pub enum Action {
    Cull,
    Conserve,
}

impl DeepView for Population {
    type V = (Seq<char>, u32);

    open spec fn deep_view(&self) -> (Seq<char>, u32) {
        (self.species@, self.count)
    }
}

impl DeepView for TargetPopulation {
    type V = (Seq<char>, u32, u32);

    open spec fn deep_view(&self) -> (Seq<char>, u32, u32) {
        (self.species@, self.min, self.max)
    }
}

impl DeepView for Action {
    type V = Action;

    open spec fn deep_view(&self) -> Action {
        *self
    }
}

// ---------------------------------------------------------------------------
// Layouts
// ---------------------------------------------------------------------------

/// A `u32`, big-endian.
pub open spec fn u32_decoded(buf: Seq<u8>) -> Result<u32, Error> {
    if buf.len() < 4 {
        Err(Error::InvalidLength)
    } else {
        Ok(be_u32_at(buf, 0))
    }
}

/// A string: its byte length as a `u32`, then its UTF-8 bytes.
pub open spec fn str_decoded(buf: Seq<u8>) -> Result<Seq<char>, Error> {
    match u32_decoded(buf) {
        Err(e) => Err(e),
        Ok(n) => if buf.len() < n + 4 {
            Err(Error::InvalidLength)
        } else {
            match utf8_text(buf.subrange(4, n + 4)) {
                Some(t) => Ok(t),
                None => Err(Error::FromUtf8Error),
            }
        },
    }
}

/// The bytes of a string; a length above `u32::MAX` is cut to 32 bits.
pub open spec fn str_encoded(s: Seq<char>) -> Seq<u8> {
    u32_bytes(encode_utf8(s).len() as u32) + encode_utf8(s)
}

/// The byte of an action.
pub open spec fn action_byte(a: Action) -> u8 {
    match a {
        Action::Cull => 0x90u8,
        Action::Conserve => 0xa0u8,
    }
}

/// An action: one byte.
pub open spec fn action_decoded(buf: Seq<u8>) -> Result<Action, Error> {
    if buf.len() == 0 {
        Err(Error::InvalidLength)
    } else if buf[0] == 0x90 {
        Ok(Action::Cull)
    } else if buf[0] == 0xa0 {
        Ok(Action::Conserve)
    } else {
        Err(Error::InvalidAction)
    }
}

/// `k` target populations from `buf[cur..]`, and where they end.
pub open spec fn tps_from(buf: Seq<u8>, cur: int, k: nat) -> Result<
    (Seq<(Seq<char>, u32, u32)>, int),
    Error,
>
    decreases k,
{
    if k == 0 {
        Ok((Seq::empty(), cur))
    } else {
        match str_decoded(buf.subrange(cur, buf.len() as int)) {
            Err(e) => Err(e),
            Ok(sp) => {
                let c1 = cur + 4 + encode_utf8(sp).len();
                match u32_decoded(buf.subrange(c1, buf.len() as int)) {
                    Err(e) => Err(e),
                    Ok(lo) => match u32_decoded(buf.subrange(c1 + 4, buf.len() as int)) {
                        Err(e) => Err(e),
                        Ok(hi) => match tps_from(buf, c1 + 8, (k - 1) as nat) {
                            Err(e) => Err(e),
                            Ok((items, end)) => Ok((seq![(sp, lo, hi)] + items, end)),
                        },
                    },
                }
            },
        }
    }
}

/// A list of target populations: their number as a `u32`, then each one;
/// also where the list ends.
pub open spec fn tps_with_end(buf: Seq<u8>) -> Result<(Seq<(Seq<char>, u32, u32)>, int), Error> {
    match u32_decoded(buf) {
        Err(e) => Err(e),
        Ok(n) => tps_from(buf, 4, n as nat),
    }
}

/// The bytes of one target population.
pub open spec fn tp_encoded(t: (Seq<char>, u32, u32)) -> Seq<u8> {
    str_encoded(t.0) + u32_bytes(t.1) + u32_bytes(t.2)
}

/// The bytes of target populations, one after the other.
pub open spec fn tps_body(s: Seq<(Seq<char>, u32, u32)>) -> Seq<u8>
    decreases s.len(),
{
    if s.len() == 0 {
        Seq::empty()
    } else {
        tps_body(s.drop_last()) + tp_encoded(s.last())
    }
}

/// The bytes of a list of target populations.
pub open spec fn tps_encoded(s: Seq<(Seq<char>, u32, u32)>) -> Seq<u8> {
    u32_bytes(s.len() as u32) + tps_body(s)
}

/// `k` populations from `buf[cur..]`, and where they end.
pub open spec fn pops_from(buf: Seq<u8>, cur: int, k: nat) -> Result<
    (Seq<(Seq<char>, u32)>, int),
    Error,
>
    decreases k,
{
    if k == 0 {
        Ok((Seq::empty(), cur))
    } else {
        match str_decoded(buf.subrange(cur, buf.len() as int)) {
            Err(e) => Err(e),
            Ok(sp) => {
                let c1 = cur + 4 + encode_utf8(sp).len();
                match u32_decoded(buf.subrange(c1, buf.len() as int)) {
                    Err(e) => Err(e),
                    Ok(count) => match pops_from(buf, c1 + 4, (k - 1) as nat) {
                        Err(e) => Err(e),
                        Ok((items, end)) => Ok((seq![(sp, count)] + items, end)),
                    },
                }
            },
        }
    }
}

/// A list of populations: their number as a `u32`, then each one; also
/// where the list ends.
pub open spec fn pops_with_end(buf: Seq<u8>) -> Result<(Seq<(Seq<char>, u32)>, int), Error> {
    match u32_decoded(buf) {
        Err(e) => Err(e),
        Ok(n) => pops_from(buf, 4, n as nat),
    }
}

/// The bytes of one population.
pub open spec fn pop_encoded(p: (Seq<char>, u32)) -> Seq<u8> {
    str_encoded(p.0) + u32_bytes(p.1)
}

/// The bytes of populations, one after the other.
pub open spec fn pops_body(s: Seq<(Seq<char>, u32)>) -> Seq<u8>
    decreases s.len(),
{
    if s.len() == 0 {
        Seq::empty()
    } else {
        pops_body(s.drop_last()) + pop_encoded(s.last())
    }
}

/// The bytes of a list of populations.
pub open spec fn pops_encoded(s: Seq<(Seq<char>, u32)>) -> Seq<u8> {
    u32_bytes(s.len() as u32) + pops_body(s)
}

/// The result without where the list ends.
pub open spec fn drop_end<T>(r: Result<(T, int), Error>) -> Result<T, Error> {
    match r {
        Ok((v, _)) => Ok(v),
        Err(e) => Err(e),
    }
}

// ---------------------------------------------------------------------------
// Implementations
// ---------------------------------------------------------------------------

impl Decodable for Action {
    open spec fn decoded(buf: Seq<u8>) -> Result<Action, Error> {
        action_decoded(buf)
    }

    open spec fn encoded(v: Action) -> Seq<u8> {
        seq![action_byte(v)]
    }

    open spec fn decodable(buf: Seq<u8>) -> bool {
        true
    }

    open spec fn encodable(v: Action) -> bool {
        true
    }

    fn decode(buf: &[u8]) -> (r: Result<Self, Error>) {
        if buf.len() == 0 {
            return Err(Error::InvalidLength);
        }
        if buf[0] == 0x90 {
            Ok(Action::Cull)
        } else if buf[0] == 0xa0 {
            Ok(Action::Conserve)
        } else {
            Err(Error::InvalidAction)
        }
    }

    fn encode(&self) -> (r: Vec<u8>) {
        let byte: u8 = match self {
            Action::Cull => 0x90,
            Action::Conserve => 0xa0,
        };
        let mut v: Vec<u8> = Vec::new();
        v.push(byte);
        assert(v@ =~= seq![action_byte(self.deep_view())]);
        v
    }

    fn bytelen(&self) -> (r: usize) {
        1
    }
}

impl Decodable for u32 {
    open spec fn decoded(buf: Seq<u8>) -> Result<u32, Error> {
        u32_decoded(buf)
    }

    open spec fn encoded(v: u32) -> Seq<u8> {
        u32_bytes(v)
    }

    open spec fn decodable(buf: Seq<u8>) -> bool {
        true
    }

    open spec fn encodable(v: u32) -> bool {
        true
    }

    fn decode(buf: &[u8]) -> (r: Result<Self, Error>) {
        if buf.len() < 4 {
            Err(Error::InvalidLength)
        } else {
            Ok(read_u32(buf, 0))
        }
    }

    fn encode(&self) -> (r: Vec<u8>) {
        let mut v: Vec<u8> = Vec::new();
        push_u32(&mut v, *self);
        assert(v@ =~= u32_bytes(*self));
        v
    }

    fn bytelen(&self) -> (r: usize) {
        4
    }
}

/// The bytes of a string, and where they end in `buf`.
pub(crate) fn decode_str_at(buf: &[u8], cur: usize) -> (r: Result<(String, usize), Error>)
    requires
        cur <= buf@.len(),
    ensures
        match r {
            Ok((s, end)) => str_decoded(buf@.subrange(cur as int, buf@.len() as int)) == Ok::<
                Seq<char>,
                Error,
            >(s@) && end == cur + 4 + encode_utf8(s@).len() && end <= buf@.len(),
            Err(e) => str_decoded(buf@.subrange(cur as int, buf@.len() as int)) == Err::<
                Seq<char>,
                Error,
            >(e),
        },
{
    let ghost t = buf@.subrange(cur as int, buf@.len() as int);
    if buf.len() - cur < 4 {
        return Err(Error::InvalidLength);
    }
    let n = read_u32(buf, cur);
    assert(be_u32_at(t, 0) == n);
    if buf.len() - cur - 4 < n as usize {
        return Err(Error::InvalidLength);
    }
    let end = cur + 4 + n as usize;
    let bytes = vstd::slice::slice_subrange(buf, cur + 4, end);
    assert(bytes@ =~= t.subrange(4, n + 4));
    match string_from_utf8(bytes) {
        Some(s) => Ok((s, end)),
        None => Err(Error::FromUtf8Error),
    }
}

/// Appends the bytes of a string.
pub(crate) fn push_str(out: &mut Vec<u8>, s: &String)
    ensures
        final(out)@ == old(out)@ + str_encoded(s@),
{
    let bytes = string_bytes(s);
    push_u32(out, bytes.len() as u32);
    push_all(out, bytes);
    assert(final(out)@ =~= old(out)@ + str_encoded(s@));
}

impl Decodable for String {
    open spec fn decoded(buf: Seq<u8>) -> Result<Seq<char>, Error> {
        str_decoded(buf)
    }

    open spec fn encoded(v: Seq<char>) -> Seq<u8> {
        str_encoded(v)
    }

    open spec fn decodable(buf: Seq<u8>) -> bool {
        true
    }

    open spec fn encodable(v: Seq<char>) -> bool {
        true
    }

    fn decode(buf: &[u8]) -> (r: Result<Self, Error>) {
        assert(buf@.subrange(0, buf@.len() as int) =~= buf@);
        match decode_str_at(buf, 0) {
            Ok((s, _)) => Ok(s),
            Err(e) => Err(e),
        }
    }

    fn encode(&self) -> (r: Vec<u8>) {
        let mut v: Vec<u8> = Vec::new();
        push_str(&mut v, self);
        assert(v@ =~= str_encoded(self@));
        v
    }

    fn bytelen(&self) -> (r: usize) {
        let n = string_bytes(self).len();
        4 + n
    }
}

/// The target populations listed in `buf`, and where the list ends.
pub(crate) fn decode_tps(buf: &[u8]) -> (r: Result<(Vec<TargetPopulation>, usize), Error>)
    ensures
        match r {
            Ok((v, end)) => tps_with_end(buf@) == Ok::<_, Error>((v.deep_view(), end as int))
                && end <= buf@.len(),
            Err(e) => tps_with_end(buf@) == Err::<(Seq<(Seq<char>, u32, u32)>, int), Error>(e),
        },
{
    if buf.len() < 4 {
        return Err(Error::InvalidLength);
    }
    let n = read_u32(buf, 0);
    let mut items: Vec<TargetPopulation> = Vec::new();
    let mut cur: usize = 4;
    let mut i: u32 = 0;
    while i < n
        invariant
            i <= n,
            n == be_u32_at(buf@, 0),
            buf@.len() >= 4,
            cur <= buf@.len(),
            tps_with_end(buf@) == match tps_from(buf@, cur as int, (n - i) as nat) {
                Ok((rest, end)) => Ok((items.deep_view() + rest, end)),
                Err(e) => Err::<(Seq<(Seq<char>, u32, u32)>, int), Error>(e),
            },
        decreases n - i,
    {
        let ghost k = (n - i) as nat;
        let (species, c1) = match decode_str_at(buf, cur) {
            Ok(x) => x,
            Err(e) => {
                return Err(e);
            },
        };
        let ghost t1 = buf@.subrange(c1 as int, buf@.len() as int);
        if buf.len() - c1 < 4 {
            return Err(Error::InvalidLength);
        }
        let min = read_u32(buf, c1);
        assert(be_u32_at(t1, 0) == min);
        let ghost t2 = buf@.subrange(c1 + 4, buf@.len() as int);
        if buf.len() - c1 - 4 < 4 {
            return Err(Error::InvalidLength);
        }
        let max = read_u32(buf, c1 + 4);
        assert(be_u32_at(t2, 0) == max);
        let ghost old_items = items.deep_view();
        items.push(TargetPopulation { species, min, max });
        cur = c1 + 8;
        i = i + 1;
        proof {
            assert(items.deep_view() =~= old_items.push((species@, min, max)));
            match tps_from(buf@, cur as int, (n - i) as nat) {
                Ok((rest, end)) => {
                    assert(old_items + (seq![(species@, min, max)] + rest) =~= items.deep_view()
                        + rest);
                },
                Err(e) => {},
            }
        }
    }
    assert(items.deep_view() + Seq::<(Seq<char>, u32, u32)>::empty() =~= items.deep_view());
    Ok((items, cur))
}

proof fn lemma_tps_body_push(s: Seq<(Seq<char>, u32, u32)>, t: (Seq<char>, u32, u32))
    ensures
        tps_body(s.push(t)) == tps_body(s) + tp_encoded(t),
{
    assert(s.push(t).drop_last() =~= s);
}

proof fn lemma_tps_body_prefix_len(s: Seq<(Seq<char>, u32, u32)>, i: int)
    requires
        0 <= i <= s.len(),
    ensures
        tps_body(s.subrange(0, i)).len() <= tps_body(s).len(),
    decreases s.len() - i,
{
    if i < s.len() {
        lemma_tps_body_prefix_len(s, i + 1);
        assert(s.subrange(0, i + 1).drop_last() =~= s.subrange(0, i));
    } else {
        assert(s.subrange(0, i) =~= s);
    }
}

impl Decodable for Vec<TargetPopulation> {
    open spec fn decoded(buf: Seq<u8>) -> Result<Seq<(Seq<char>, u32, u32)>, Error> {
        drop_end(tps_with_end(buf))
    }

    open spec fn encoded(v: Seq<(Seq<char>, u32, u32)>) -> Seq<u8> {
        tps_encoded(v)
    }

    open spec fn decodable(buf: Seq<u8>) -> bool {
        true
    }

    open spec fn encodable(v: Seq<(Seq<char>, u32, u32)>) -> bool {
        true
    }

    fn decode(buf: &[u8]) -> (r: Result<Self, Error>) {
        match decode_tps(buf) {
            Ok((v, _)) => Ok(v),
            Err(e) => Err(e),
        }
    }

    fn encode(&self) -> (r: Vec<u8>) {
        let mut buf: Vec<u8> = Vec::new();
        push_u32(&mut buf, self.len() as u32);
        let ghost head = buf@;
        let mut i: usize = 0;
        while i < self.len()
            invariant
                i <= self@.len(),
                buf@ == head + tps_body(self.deep_view().subrange(0, i as int)),
            decreases self@.len() - i,
        {
            let tp = &self[i];
            push_str(&mut buf, &tp.species);
            push_u32(&mut buf, tp.min);
            push_u32(&mut buf, tp.max);
            proof {
                let dv = self.deep_view();
                lemma_tps_body_push(dv.subrange(0, i as int), dv[i as int]);
                assert(dv.subrange(0, i + 1) =~= dv.subrange(0, i as int).push(dv[i as int]));
            }
            i = i + 1;
            assert(buf@ =~= head + tps_body(self.deep_view().subrange(0, i as int)));
        }
        assert(self.deep_view().subrange(0, self@.len() as int) =~= self.deep_view());
        buf
    }

    fn bytelen(&self) -> (r: usize) {
        let mut total: usize = 4;
        let mut i: usize = 0;
        while i < self.len()
            invariant
                i <= self@.len(),
                tps_encoded(self.deep_view()).len() <= usize::MAX,
                total == 4 + tps_body(self.deep_view().subrange(0, i as int)).len(),
            decreases self@.len() - i,
        {
            let n = string_bytes(&self[i].species).len();
            proof {
                let dv = self.deep_view();
                lemma_tps_body_push(dv.subrange(0, i as int), dv[i as int]);
                assert(dv.subrange(0, i + 1) =~= dv.subrange(0, i as int).push(dv[i as int]));
                lemma_tps_body_prefix_len(dv, i + 1);
            }
            total = total + 12 + n;
            i = i + 1;
        }
        assert(self.deep_view().subrange(0, self@.len() as int) =~= self.deep_view());
        total
    }
}

/// The populations listed in `buf`, and where the list ends.
pub(crate) fn decode_pops(buf: &[u8]) -> (r: Result<(Vec<Population>, usize), Error>)
    ensures
        match r {
            Ok((v, end)) => pops_with_end(buf@) == Ok::<_, Error>((v.deep_view(), end as int))
                && end <= buf@.len(),
            Err(e) => pops_with_end(buf@) == Err::<(Seq<(Seq<char>, u32)>, int), Error>(e),
        },
{
    if buf.len() < 4 {
        return Err(Error::InvalidLength);
    }
    let n = read_u32(buf, 0);
    let mut items: Vec<Population> = Vec::new();
    let mut cur: usize = 4;
    let mut i: u32 = 0;
    while i < n
        invariant
            i <= n,
            n == be_u32_at(buf@, 0),
            buf@.len() >= 4,
            cur <= buf@.len(),
            pops_with_end(buf@) == match pops_from(buf@, cur as int, (n - i) as nat) {
                Ok((rest, end)) => Ok((items.deep_view() + rest, end)),
                Err(e) => Err::<(Seq<(Seq<char>, u32)>, int), Error>(e),
            },
        decreases n - i,
    {
        let (species, c1) = match decode_str_at(buf, cur) {
            Ok(x) => x,
            Err(e) => {
                return Err(e);
            },
        };
        let ghost t1 = buf@.subrange(c1 as int, buf@.len() as int);
        if buf.len() - c1 < 4 {
            return Err(Error::InvalidLength);
        }
        let count = read_u32(buf, c1);
        assert(be_u32_at(t1, 0) == count);
        let ghost old_items = items.deep_view();
        items.push(Population { species, count });
        cur = c1 + 4;
        i = i + 1;
        proof {
            assert(items.deep_view() =~= old_items.push((species@, count)));
            match pops_from(buf@, cur as int, (n - i) as nat) {
                Ok((rest, end)) => {
                    assert(old_items + (seq![(species@, count)] + rest) =~= items.deep_view()
                        + rest);
                },
                Err(e) => {},
            }
        }
    }
    assert(items.deep_view() + Seq::<(Seq<char>, u32)>::empty() =~= items.deep_view());
    Ok((items, cur))
}

proof fn lemma_pops_body_push(s: Seq<(Seq<char>, u32)>, t: (Seq<char>, u32))
    ensures
        pops_body(s.push(t)) == pops_body(s) + pop_encoded(t),
{
    assert(s.push(t).drop_last() =~= s);
}

proof fn lemma_pops_body_prefix_len(s: Seq<(Seq<char>, u32)>, i: int)
    requires
        0 <= i <= s.len(),
    ensures
        pops_body(s.subrange(0, i)).len() <= pops_body(s).len(),
    decreases s.len() - i,
{
    if i < s.len() {
        lemma_pops_body_prefix_len(s, i + 1);
        assert(s.subrange(0, i + 1).drop_last() =~= s.subrange(0, i));
    } else {
        assert(s.subrange(0, i) =~= s);
    }
}

impl Decodable for Vec<Population> {
    open spec fn decoded(buf: Seq<u8>) -> Result<Seq<(Seq<char>, u32)>, Error> {
        drop_end(pops_with_end(buf))
    }

    open spec fn encoded(v: Seq<(Seq<char>, u32)>) -> Seq<u8> {
        pops_encoded(v)
    }

    open spec fn decodable(buf: Seq<u8>) -> bool {
        true
    }

    open spec fn encodable(v: Seq<(Seq<char>, u32)>) -> bool {
        true
    }

    fn decode(buf: &[u8]) -> (r: Result<Self, Error>) {
        match decode_pops(buf) {
            Ok((v, _)) => Ok(v),
            Err(e) => Err(e),
        }
    }

    fn encode(&self) -> (r: Vec<u8>) {
        let mut buf: Vec<u8> = Vec::new();
        push_u32(&mut buf, self.len() as u32);
        let ghost head = buf@;
        let mut i: usize = 0;
        while i < self.len()
            invariant
                i <= self@.len(),
                buf@ == head + pops_body(self.deep_view().subrange(0, i as int)),
            decreases self@.len() - i,
        {
            let p = &self[i];
            push_str(&mut buf, &p.species);
            push_u32(&mut buf, p.count);
            proof {
                let dv = self.deep_view();
                lemma_pops_body_push(dv.subrange(0, i as int), dv[i as int]);
                assert(dv.subrange(0, i + 1) =~= dv.subrange(0, i as int).push(dv[i as int]));
            }
            i = i + 1;
            assert(buf@ =~= head + pops_body(self.deep_view().subrange(0, i as int)));
        }
        assert(self.deep_view().subrange(0, self@.len() as int) =~= self.deep_view());
        buf
    }

    fn bytelen(&self) -> (r: usize) {
        let mut total: usize = 4;
        let mut i: usize = 0;
        while i < self.len()
            invariant
                i <= self@.len(),
                pops_encoded(self.deep_view()).len() <= usize::MAX,
                total == 4 + pops_body(self.deep_view().subrange(0, i as int)).len(),
            decreases self@.len() - i,
        {
            let n = string_bytes(&self[i].species).len();
            proof {
                let dv = self.deep_view();
                lemma_pops_body_push(dv.subrange(0, i as int), dv[i as int]);
                assert(dv.subrange(0, i + 1) =~= dv.subrange(0, i as int).push(dv[i as int]));
                lemma_pops_body_prefix_len(dv, i + 1);
            }
            total = total + 8 + n;
            i = i + 1;
        }
        assert(self.deep_view().subrange(0, self@.len() as int) =~= self.deep_view());
        total
    }
}

// ---------------------------------------------------------------------------
// Where a decoded list ends
// ---------------------------------------------------------------------------

/// A decoded string takes four bytes and its UTF-8 bytes.
pub proof fn lemma_str_decoded_len(buf: Seq<u8>)
    ensures
        str_decoded(buf) matches Ok(t) ==> 4 + encode_utf8(t).len() <= buf.len(),
{
    if let Ok(t) = str_decoded(buf) {
        let n = be_u32_at(buf, 0);
        decode_utf8_encode_utf8(buf.subrange(4, n + 4));
    }
}

pub proof fn lemma_tps_body_front(x: (Seq<char>, u32, u32), r: Seq<(Seq<char>, u32, u32)>)
    ensures
        tps_body(seq![x] + r) == tp_encoded(x) + tps_body(r),
    decreases r.len(),
{
    if r.len() == 0 {
        assert(seq![x] + r =~= seq![x]);
        assert(seq![x].drop_last() =~= Seq::<(Seq<char>, u32, u32)>::empty());
        assert(seq![x].last() == x);
        assert(tps_body(Seq::<(Seq<char>, u32, u32)>::empty()) == Seq::<u8>::empty());
        assert(tps_body(seq![x]) == tps_body(Seq::<(Seq<char>, u32, u32)>::empty()) + tp_encoded(
            x,
        ));
        assert(tps_body(seq![x]) =~= tp_encoded(x));
        assert(tp_encoded(x) + tps_body(r) =~= tp_encoded(x));
    } else {
        assert((seq![x] + r).drop_last() =~= seq![x] + r.drop_last());
        assert((seq![x] + r).last() == r.last());
        lemma_tps_body_front(x, r.drop_last());
        assert(tps_body(seq![x] + r) =~= tp_encoded(x) + tps_body(r));
    }
}

pub proof fn lemma_pops_body_front(x: (Seq<char>, u32), r: Seq<(Seq<char>, u32)>)
    ensures
        pops_body(seq![x] + r) == pop_encoded(x) + pops_body(r),
    decreases r.len(),
{
    if r.len() == 0 {
        assert(seq![x] + r =~= seq![x]);
        assert(seq![x].drop_last() =~= Seq::<(Seq<char>, u32)>::empty());
        assert(seq![x].last() == x);
        assert(pops_body(Seq::<(Seq<char>, u32)>::empty()) == Seq::<u8>::empty());
        assert(pops_body(seq![x]) == pops_body(Seq::<(Seq<char>, u32)>::empty()) + pop_encoded(x));
        assert(pops_body(seq![x]) =~= pop_encoded(x));
        assert(pop_encoded(x) + pops_body(r) =~= pop_encoded(x));
    } else {
        assert((seq![x] + r).drop_last() =~= seq![x] + r.drop_last());
        assert((seq![x] + r).last() == r.last());
        lemma_pops_body_front(x, r.drop_last());
        assert(pops_body(seq![x] + r) =~= pop_encoded(x) + pops_body(r));
    }
}

/// A decoded list of target populations ends as many bytes after its start
/// as its items take.
pub proof fn lemma_tps_from_end(buf: Seq<u8>, cur: int, k: nat)
    requires
        0 <= cur <= buf.len(),
    ensures
        tps_from(buf, cur, k) matches Ok((items, end)) ==> end == cur + tps_body(items).len()
            && end <= buf.len() && items.len() == k,
    decreases k,
{
    if k > 0 {
        let rest = buf.subrange(cur, buf.len() as int);
        lemma_str_decoded_len(rest);
        if let Ok(sp) = str_decoded(rest) {
            let c1 = cur + 4 + encode_utf8(sp).len();
            if let Ok(lo) = u32_decoded(buf.subrange(c1, buf.len() as int)) {
                if let Ok(hi) = u32_decoded(buf.subrange(c1 + 4, buf.len() as int)) {
                    lemma_tps_from_end(buf, c1 + 8, (k - 1) as nat);
                    if let Ok((items, end)) = tps_from(buf, c1 + 8, (k - 1) as nat) {
                        lemma_tps_body_front((sp, lo, hi), items);
                    }
                }
            }
        }
    } else {
        assert(tps_body(Seq::<(Seq<char>, u32, u32)>::empty()).len() == 0);
    }
}

/// A decoded list of populations ends as many bytes after its start as its
/// items take.
pub proof fn lemma_pops_from_end(buf: Seq<u8>, cur: int, k: nat)
    requires
        0 <= cur <= buf.len(),
    ensures
        pops_from(buf, cur, k) matches Ok((items, end)) ==> end == cur + pops_body(items).len()
            && end <= buf.len() && items.len() == k,
    decreases k,
{
    if k > 0 {
        let rest = buf.subrange(cur, buf.len() as int);
        lemma_str_decoded_len(rest);
        if let Ok(sp) = str_decoded(rest) {
            let c1 = cur + 4 + encode_utf8(sp).len();
            if let Ok(count) = u32_decoded(buf.subrange(c1, buf.len() as int)) {
                lemma_pops_from_end(buf, c1 + 4, (k - 1) as nat);
                if let Ok((items, end)) = pops_from(buf, c1 + 4, (k - 1) as nat) {
                    lemma_pops_body_front((sp, count), items);
                }
            }
        }
    } else {
        assert(pops_body(Seq::<(Seq<char>, u32)>::empty()).len() == 0);
    }
}

// ---------------------------------------------------------------------------
// Decoding what was encoded
// ---------------------------------------------------------------------------

/// The byte length of the text fits in the `u32` that carries it.
pub open spec fn str_fits(s: Seq<char>) -> bool {
    encode_utf8(s).len() <= u32::MAX
}

/// Every species name fits, and so does the number of items.
pub open spec fn tps_fit(s: Seq<(Seq<char>, u32, u32)>) -> bool {
    &&& s.len() <= u32::MAX
    &&& forall|i: int| 0 <= i < s.len() ==> str_fits(#[trigger] s[i].0)
}

/// Every species name fits, and so does the number of items.
pub open spec fn pops_fit(s: Seq<(Seq<char>, u32)>) -> bool {
    &&& s.len() <= u32::MAX
    &&& forall|i: int| 0 <= i < s.len() ==> str_fits(#[trigger] s[i].0)
}

pub proof fn lemma_u32_decoded_prefix(v: u32, rest: Seq<u8>)
    ensures
        u32_decoded(u32_bytes(v) + rest) == Ok::<u32, Error>(v),
{
    lemma_u32_bytes_roundtrip(v);
    let b = u32_bytes(v) + rest;
    assert(b[0] == u32_bytes(v)[0] && b[1] == u32_bytes(v)[1] && b[2] == u32_bytes(v)[2] && b[3]
        == u32_bytes(v)[3]);
}

pub proof fn lemma_str_decoded_prefix(s: Seq<char>, rest: Seq<u8>)
    requires
        str_fits(s),
    ensures
        str_decoded(str_encoded(s) + rest) == Ok::<Seq<char>, Error>(s),
{
    let e = encode_utf8(s);
    let b = str_encoded(s) + rest;
    assert(b =~= u32_bytes(e.len() as u32) + (e + rest));
    lemma_u32_decoded_prefix(e.len() as u32, e + rest);
    assert(b.subrange(4, e.len() + 4int) =~= e);
    lemma_text_of_bytes(s);
}

/// Where the parts of `a + (s + b + t)` start.
proof fn lemma_parts(a: Seq<u8>, s: Seq<u8>, b: Seq<u8>, t: Seq<u8>)
    ensures
        ({
            let buf = a + (s + b + t);
            &&& buf.subrange(a.len() as int, buf.len() as int) == s + (b + t)
            &&& buf.subrange((a.len() + s.len()) as int, buf.len() as int) == b + t
        }),
{
    let buf = a + (s + b + t);
    assert(buf.subrange(a.len() as int, buf.len() as int) =~= s + (b + t));
    assert(buf.subrange((a.len() + s.len()) as int, buf.len() as int) =~= b + t);
}

/// Where the parts of `a + (s + b1 + b2 + t)` start.
proof fn lemma_parts4(a: Seq<u8>, s: Seq<u8>, b1: Seq<u8>, b2: Seq<u8>, t: Seq<u8>)
    ensures
        ({
            let buf = a + (s + b1 + b2 + t);
            &&& buf.subrange(a.len() as int, buf.len() as int) == s + (b1 + (b2 + t))
            &&& buf.subrange((a.len() + s.len()) as int, buf.len() as int) == b1 + (b2 + t)
            &&& buf.subrange((a.len() + s.len() + b1.len()) as int, buf.len() as int) == b2 + t
        }),
{
    let buf = a + (s + b1 + b2 + t);
    assert(buf.subrange(a.len() as int, buf.len() as int) =~= s + (b1 + (b2 + t)));
    assert(buf.subrange((a.len() + s.len()) as int, buf.len() as int) =~= b1 + (b2 + t));
    assert(buf.subrange((a.len() + s.len() + b1.len()) as int, buf.len() as int) =~= b2 + t);
}

/// One target population decodes from its bytes, followed by anything.
proof fn lemma_tp_step(x: (Seq<char>, u32, u32), pre: Seq<u8>, tail: Seq<u8>)
    requires
        str_fits(x.0),
    ensures
        ({
            let buf = pre + (tp_encoded(x) + tail);
            let cur = pre.len() as int;
            let c1 = cur + 4 + encode_utf8(x.0).len();
            &&& str_decoded(buf.subrange(cur, buf.len() as int)) == Ok::<Seq<char>, Error>(x.0)
            &&& u32_decoded(buf.subrange(c1, buf.len() as int)) == Ok::<u32, Error>(x.1)
            &&& u32_decoded(buf.subrange(c1 + 4, buf.len() as int)) == Ok::<u32, Error>(x.2)
            &&& c1 + 8 == pre.len() + tp_encoded(x).len()
        }),
{
    let s0 = str_encoded(x.0);
    let b1 = u32_bytes(x.1);
    let b2 = u32_bytes(x.2);
    lemma_parts4(pre, s0, b1, b2, tail);
    lemma_str_decoded_prefix(x.0, b1 + (b2 + tail));
    lemma_u32_decoded_prefix(x.1, b2 + tail);
    lemma_u32_decoded_prefix(x.2, tail);
}

/// One population decodes from its bytes, followed by anything.
proof fn lemma_pop_step(x: (Seq<char>, u32), pre: Seq<u8>, tail: Seq<u8>)
    requires
        str_fits(x.0),
    ensures
        ({
            let buf = pre + (pop_encoded(x) + tail);
            let cur = pre.len() as int;
            let c1 = cur + 4 + encode_utf8(x.0).len();
            &&& str_decoded(buf.subrange(cur, buf.len() as int)) == Ok::<Seq<char>, Error>(x.0)
            &&& u32_decoded(buf.subrange(c1, buf.len() as int)) == Ok::<u32, Error>(x.1)
            &&& c1 + 4 == pre.len() + pop_encoded(x).len()
        }),
{
    let s0 = str_encoded(x.0);
    let b1 = u32_bytes(x.1);
    lemma_parts(pre, s0, b1, tail);
    lemma_str_decoded_prefix(x.0, b1 + tail);
    lemma_u32_decoded_prefix(x.1, tail);
}

/// Target populations laid out one after the other decode back from where
/// they start, and end where their bytes end.
pub proof fn lemma_tps_from_body(
    items: Seq<(Seq<char>, u32, u32)>,
    pre: Seq<u8>,
    rest: Seq<u8>,
)
    requires
        forall|i: int| 0 <= i < items.len() ==> str_fits(#[trigger] items[i].0),
    ensures
        tps_from(pre + tps_body(items) + rest, pre.len() as int, items.len()) == Ok::<_, Error>(
            (items, (pre.len() + tps_body(items).len()) as int),
        ),
    decreases items.len(),
{
    if items.len() == 0 {
        assert(items =~= Seq::<(Seq<char>, u32, u32)>::empty());
    } else {
        let x = items[0];
        let r = items.drop_first();
        assert(items =~= seq![x] + r);
        lemma_tps_body_front(x, r);
        assert(str_fits(items[0].0));
        let pre2 = pre + tp_encoded(x);
        assert forall|i: int| 0 <= i < r.len() implies str_fits(#[trigger] r[i].0) by {
            assert(r[i] == items[i + 1]);
        }
        lemma_tps_from_body(r, pre2, rest);
        let buf = pre + tps_body(items) + rest;
        assert(buf =~= pre + (tp_encoded(x) + (tps_body(r) + rest)));
        assert(pre2 + tps_body(r) + rest =~= buf);
        lemma_tp_step(x, pre, tps_body(r) + rest);
    }
}

/// Populations laid out one after the other decode back from where they
/// start, and end where their bytes end.
pub proof fn lemma_pops_from_body(items: Seq<(Seq<char>, u32)>, pre: Seq<u8>, rest: Seq<u8>)
    requires
        forall|i: int| 0 <= i < items.len() ==> str_fits(#[trigger] items[i].0),
    ensures
        pops_from(pre + pops_body(items) + rest, pre.len() as int, items.len()) == Ok::<_, Error>(
            (items, (pre.len() + pops_body(items).len()) as int),
        ),
    decreases items.len(),
{
    if items.len() == 0 {
        assert(items =~= Seq::<(Seq<char>, u32)>::empty());
    } else {
        let x = items[0];
        let r = items.drop_first();
        assert(items =~= seq![x] + r);
        lemma_pops_body_front(x, r);
        assert(str_fits(items[0].0));
        let pre2 = pre + pop_encoded(x);
        assert forall|i: int| 0 <= i < r.len() implies str_fits(#[trigger] r[i].0) by {
            assert(r[i] == items[i + 1]);
        }
        lemma_pops_from_body(r, pre2, rest);
        let buf = pre + pops_body(items) + rest;
        assert(buf =~= pre + (pop_encoded(x) + (pops_body(r) + rest)));
        assert(pre2 + pops_body(r) + rest =~= buf);
        lemma_pop_step(x, pre, pops_body(r) + rest);
    }
}

/// A list of target populations decodes back from its bytes.
pub proof fn lemma_tps_roundtrip(items: Seq<(Seq<char>, u32, u32)>)
    requires
        tps_fit(items),
    ensures
        tps_with_end(tps_encoded(items)) == Ok::<_, Error>((items, tps_encoded(items).len() as int)),
{
    let pre = u32_bytes(items.len() as u32);
    lemma_u32_decoded_prefix(items.len() as u32, tps_body(items));
    lemma_tps_from_body(items, pre, Seq::empty());
    assert(pre + tps_body(items) + Seq::<u8>::empty() =~= tps_encoded(items));
}

/// A list of populations decodes back from its bytes.
pub proof fn lemma_pops_roundtrip(items: Seq<(Seq<char>, u32)>)
    requires
        pops_fit(items),
    ensures
        pops_with_end(pops_encoded(items)) == Ok::<_, Error>(
            (items, pops_encoded(items).len() as int),
        ),
{
    let pre = u32_bytes(items.len() as u32);
    lemma_u32_decoded_prefix(items.len() as u32, pops_body(items));
    lemma_pops_from_body(items, pre, Seq::empty());
    assert(pre + pops_body(items) + Seq::<u8>::empty() =~= pops_encoded(items));
}

} // verus!
