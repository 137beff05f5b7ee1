//! The binary messages of the speed daemon protocol: length-prefixed
//! strings, big-endian integers, and one byte of type code in front.
use vstd::prelude::*;
use vstd::utf8::*;
use vstd::slice::slice_subrange;
use std::collections::HashSet;
use crate::speed::DecodeError;
use crate::util::{
    be_u16_at,
    be_u32_at,
    u16_bytes,
    u32_bytes,
    read_u16,
    read_u32,
    push_u16,
    push_u32,
    push_all,
    str_bytes,
    string_bytes,
    utf8_lossy,
    string_from_utf8_lossy,
};

verus! {

broadcast use vstd::std_specs::hash::group_hash_axioms;

/// A string on the wire: its byte length, kept to its low eight bits, then
/// its UTF-8 bytes.
pub open spec fn str_encoded(text: Seq<char>) -> Seq<u8> {
    seq![encode_utf8(text).len() as u8] + encode_utf8(text)
}

/// The raw bytes of the length-prefixed string at the start of `b`, or
/// `None` where `b` is too short to hold it.
pub open spec fn str_field(b: Seq<u8>) -> Option<Seq<u8>> {
    if b.len() == 0 || b.len() - 1 < b[0] {
        None
    } else {
        Some(b.subrange(1, b[0] + 1))
    }
}

/// The string at the start of `b`, its bytes read leniently as UTF-8.
pub open spec fn decode_str_spec(b: Seq<u8>) -> Result<Seq<char>, DecodeError> {
    match str_field(b) {
        Some(f) => Ok(utf8_lossy(f)),
        None => Err(DecodeError::TooShort),
    }
}

/// A big-endian `u16` at the start of `b`.
pub open spec fn u16_decoded(b: Seq<u8>) -> Result<u16, DecodeError> {
    if b.len() < 2 {
        Err(DecodeError::TooShort)
    } else {
        Ok(be_u16_at(b, 0))
    }
}

/// A big-endian `u32` at the start of `b`.
pub open spec fn u32_decoded(b: Seq<u8>) -> Result<u32, DecodeError> {
    if b.len() < 4 {
        Err(DecodeError::TooShort)
    } else {
        Ok(be_u32_at(b, 0))
    }
}

/// Writes a length-prefixed string.
pub fn encode_str(msg: &str) -> (r: Vec<u8>)
    ensures
        r@ == str_encoded(msg@),
{
    let b = str_bytes(msg);
    let mut bytes: Vec<u8> = Vec::new();
    bytes.push(b.len() as u8);
    push_all(&mut bytes, b);
    bytes
}

/// Reads a length-prefixed string; invalid UTF-8 in it becomes U+FFFD, and
/// valid UTF-8 comes back as the text it encodes.
pub fn decode_str(bytes: &[u8]) -> (r: Result<String, DecodeError>)
    ensures
        decode_str_spec(bytes@) == match r {
            Ok(s) => Ok(s@),
            Err(e) => Err(e),
        },
        valid_utf8(str_field(bytes@)->0) ==> (r matches Ok(s) ==> s@ == decode_utf8(str_field(bytes@)->0)),
{
    if bytes.len() == 0 {
        return Err(DecodeError::TooShort);
    }
    let strlen = bytes[0] as usize;
    assert_min_len(slice_subrange(bytes, 1, bytes.len()), strlen)?;
    let field = slice_subrange(bytes, 1, strlen + 1);
    assert(field@ =~= str_field(bytes@)->0);
    Ok(string_from_utf8_lossy(field))
}

/// Reads a big-endian `u16`.
pub fn decode_u16(bytes: &[u8]) -> (r: Result<u16, DecodeError>)
    ensures
        r == u16_decoded(bytes@),
{
    assert_min_len(bytes, 2)?;
    Ok(read_u16(bytes, 0))
}

/// Reads a big-endian `u32`.
pub fn decode_u32(bytes: &[u8]) -> (r: Result<u32, DecodeError>)
    ensures
        r == u32_decoded(bytes@),
{
    assert_min_len(bytes, 4)?;
    Ok(read_u32(bytes, 0))
}

fn assert_min_len(bytes: &[u8], len: usize) -> (r: Result<(), DecodeError>)
    ensures
        r == if bytes@.len() < len {
            Err(DecodeError::TooShort)
        } else {
            Ok::<(), DecodeError>(())
        },
{
    if bytes.len() < len {
        Err(DecodeError::TooShort)
    } else {
        Ok(())
    }
}

/// An error message for the client.
pub struct Error {
    msg: String,
}

impl Error {
    pub const CODE: u8 = 0x10;

    /// The text the message carries.
    pub closed spec fn text(&self) -> Seq<char> {
        self.msg@
    }

    pub fn new(msg: &str) -> (r: Self)
        ensures
            r.text() == msg@,
    {
        Self { msg: msg.to_owned() }
    }

    pub fn encode(&self) -> (r: Vec<u8>)
        ensures
            r@ == seq![Self::CODE] + str_encoded(self.text()),
    {
        let mut bytes: Vec<u8> = Vec::new();
        bytes.push(Error::CODE);
        let s = encode_str(self.msg.as_str());
        push_all(&mut bytes, s.as_slice());
        bytes
    }
}

/// A plate seen by a camera, at a timestamp.
#[derive(Debug, PartialEq)]
pub struct Plate {
    pub plate: String,
    pub ts: u32,
}

/// What follows the plate text in a plate message, once the text is known:
/// `None` where the text's UTF-8 length reaches past `b`.
pub open spec fn plate_rest(b: Seq<u8>, text: Seq<char>) -> Option<
    Result<(Seq<char>, u32), DecodeError>,
> {
    let k = encode_utf8(text).len() + 1;
    if k > b.len() {
        None
    } else {
        match u32_decoded(b.subrange(k as int, b.len() as int)) {
            Ok(ts) => Some(Ok((text, ts))),
            Err(e) => Some(Err(e)),
        }
    }
}

/// A plate message body: the plate text and the timestamp, or `None` where
/// the decoded text is longer than the bytes it came from allow.
pub open spec fn plate_spec(b: Seq<u8>) -> Option<Result<(Seq<char>, u32), DecodeError>> {
    match decode_str_spec(b) {
        Err(e) => Some(Err(e)),
        Ok(text) => plate_rest(b, text),
    }
}

impl Plate {
    pub const CODE: u8 = 0x20;

    /// The plate text and the timestamp.
    pub open spec fn parts(&self) -> (Seq<char>, u32) {
        (self.plate@, self.ts)
    }

    /// Decodes a plate message body. The timestamp is read after as many
    /// bytes as the decoded plate text takes in UTF-8.
    pub fn decode(bytes: &[u8]) -> (r: Result<Self, DecodeError>)
        requires
            plate_spec(bytes@) is Some,
        ensures
            plate_spec(bytes@) == Some(
                match r {
                    Ok(p) => Ok(p.parts()),
                    Err(e) => Err(e),
                },
            ),
            valid_utf8(str_field(bytes@)->0) ==> (r matches Ok(p) ==> p.plate@ == decode_utf8(str_field(bytes@)->0)),
    {
        let plate = decode_str(bytes)?;
        Self::decode_with_text(bytes, plate)
    }

    /// The rest of `decode`, given the plate text that the string field
    /// decoded to.
    pub fn decode_with_text(bytes: &[u8], plate: String) -> (r: Result<Self, DecodeError>)
        requires
            encode_utf8(plate@).len() + 1 <= bytes@.len(),
        ensures
            plate_rest(bytes@, plate@) == Some(
                match r {
                    Ok(p) => Ok(p.parts()),
                    Err(e) => Err(e),
                },
            ),
    {
        let blen = bytes.len();
        let k = string_bytes(&plate).len() + 1;
        let ts = decode_u32(slice_subrange(bytes, k, blen))?;
        Ok(Self { plate, ts })
    }

    /// Decodes a plate message body, or gives `None` where the decoded
    /// plate text is longer than the message allows.
    pub fn try_decode(bytes: &[u8]) -> (r: Option<Result<Self, DecodeError>>)
        ensures
            plate_spec(bytes@) == match r {
                None => None,
                Some(Ok(p)) => Some(Ok(p.parts())),
                Some(Err(e)) => Some(Err(e)),
            },
    {
        match decode_str(bytes) {
            Err(e) => Some(Err(e)),
            Ok(text) => {
                if string_bytes(&text).len() < bytes.len() {
                    Some(Self::decode(bytes))
                } else {
                    None
                }
            },
        }
    }

    /// The length of the whole message: code, length byte, text, timestamp.
    pub fn len(&self) -> (r: usize)
        requires
            encode_utf8(self.plate@).len() + 6 <= usize::MAX,
        ensures
            r == encode_utf8(self.plate@).len() + 6,
    {
        string_bytes(&self.plate).len() + 6
    }
}

/// A speeding ticket.
#[derive(Debug, Clone)]
pub struct Ticket {
    pub plate: String,
    pub road: u16,
    pub mile1: u16,
    pub ts1: u32,
    pub mile2: u16,
    pub ts2: u32,
    pub speed: u16,
}

/// The day a timestamp falls on.
pub open spec fn day_of(ts: u32) -> u32 {
    ts / 86400
}

impl Ticket {
    pub const CODE: u8 = 0x21;

    /// The days the ticket covers: from the day of its first reading to the
    /// day of its second.
    pub open spec fn covers(&self, day: u32) -> bool {
        day_of(self.ts1) <= day <= day_of(self.ts2)
    }

    /// The ticket as it goes on the wire.
    pub open spec fn encoded(&self) -> Seq<u8> {
        seq![Self::CODE] + str_encoded(self.plate@) + u16_bytes(self.road) + u16_bytes(self.mile1)
            + u32_bytes(self.ts1) + u16_bytes(self.mile2) + u32_bytes(self.ts2) + u16_bytes(
            self.speed,
        )
    }

    pub fn new(plate: &str, road: u16, mile1: u16, ts1: u32, mile2: u16, ts2: u32, speed: u16) -> (r:
        Self)
        ensures
            r.plate@ == plate@,
            r.road == road,
            r.mile1 == mile1,
            r.ts1 == ts1,
            r.mile2 == mile2,
            r.ts2 == ts2,
            r.speed == speed,
    {
        Self { plate: plate.to_owned(), road, mile1, ts1, mile2, ts2, speed }
    }

    pub fn encode(&self) -> (r: Vec<u8>)
        ensures
            r@ == self.encoded(),
    {
        let mut bytes: Vec<u8> = Vec::new();
        bytes.push(Ticket::CODE);
        let s = encode_str(self.plate.as_str());
        push_all(&mut bytes, s.as_slice());
        push_u16(&mut bytes, self.road);
        push_u16(&mut bytes, self.mile1);
        push_u32(&mut bytes, self.ts1);
        push_u16(&mut bytes, self.mile2);
        push_u32(&mut bytes, self.ts2);
        push_u16(&mut bytes, self.speed);
        assert(bytes@ =~= self.encoded());
        bytes
    }

    /// Whether `days` holds a day that the ticket covers.
    pub fn overlaps(&self, days: &HashSet<u32>) -> (r: bool)
        ensures
            r == exists|day: u32| self.covers(day) && days@.contains(day),
    {
        let (first, last) = self.days();
        if first > last {
            return false;
        }
        let mut day: u32 = first;
        while day <= last
            invariant
                first <= day <= last + 1,
                first == day_of(self.ts1),
                last == day_of(self.ts2),
                last <= 49710,
                forall|d: u32| first <= d < day ==> !days@.contains(d),
            decreases last + 1 - day,
        {
            if days.contains(&day) {
                assert(self.covers(day));
                return true;
            }
            day = day + 1;
        }
        false
    }

    /// Adds the days the ticket covers to `days`.
    pub fn record(&self, days: &mut HashSet<u32>)
        ensures
            final(days)@ == old(days)@.union(Set::new(|day: u32| self.covers(day))),
    {
        let (first, last) = self.days();
        if first > last {
            assert(old(days)@.union(Set::new(|day: u32| self.covers(day))) =~= old(days)@);
            return;
        }
        let mut day: u32 = first;
        while day <= last
            invariant
                first <= day <= last + 1,
                first == day_of(self.ts1),
                last == day_of(self.ts2),
                last <= 49710,
                days@ == old(days)@.union(Set::new(|d: u32| first <= d < day)),
            decreases last + 1 - day,
        {
            days.insert(day);
            day = day + 1;
            assert(days@ =~= old(days)@.union(Set::new(|d: u32| first <= d < day)));
        }
        assert(Set::new(|d: u32| first <= d < day) =~= Set::new(|d: u32| self.covers(d)));
    }

    /// The first and last day the ticket covers.
    fn days(&self) -> (r: (u32, u32))
        ensures
            r == (day_of(self.ts1), day_of(self.ts2)),
            r.1 <= 49710,
    {
        (self.ts1 / 86400, self.ts2 / 86400)
    }
}

/// A client's request for heartbeats, in tenths of a second.
#[derive(Debug, PartialEq)]
pub struct WantHeartbeat {
    pub interval: u32,
}

impl WantHeartbeat {
    pub const CODE: u8 = 0x40;

    pub fn new(interval: u32) -> (r: Self)
        ensures
            r.interval == interval,
    {
        Self { interval }
    }

    /// Decodes the body: the interval in its first four bytes.
    pub fn decode(bytes: &[u8]) -> (r: Result<Self, DecodeError>)
        requires
            bytes@.len() >= 4,
        ensures
            r matches Ok(m) && m.interval == be_u32_at(bytes@, 0),
    {
        let interval = decode_u32(slice_subrange(bytes, 0, 4))?;
        Ok(Self { interval })
    }
}

/// The heartbeat the server sends.
pub struct Heartbeat {}

impl Heartbeat {
    pub const CODE: u8 = 0x41;

    pub fn encode() -> (r: Vec<u8>)
        ensures
            r@ == seq![Self::CODE],
    {
        let mut bytes: Vec<u8> = Vec::new();
        bytes.push(Heartbeat::CODE);
        assert(bytes@ =~= seq![Self::CODE]);
        bytes
    }
}

/// A camera introducing itself: its road, its mile, and the road's limit.
#[derive(Debug, PartialEq)]
pub struct IAmCamera {
    pub road: u16,
    pub mile: u16,
    pub limit: u16,
}

/// A camera message body, read as three big-endian `u16`s.
pub open spec fn camera_spec(b: Seq<u8>) -> Result<(u16, u16, u16), DecodeError> {
    if b.len() < 6 {
        Err(DecodeError::TooShort)
    } else {
        Ok((be_u16_at(b, 0), be_u16_at(b, 2), be_u16_at(b, 4)))
    }
}

impl IAmCamera {
    pub const CODE: u8 = 0x80;

    pub fn new(road: u16, mile: u16, limit: u16) -> (r: Self)
        ensures
            r.road == road,
            r.mile == mile,
            r.limit == limit,
    {
        Self { road, mile, limit }
    }

    pub fn decode(bytes: &[u8]) -> (r: Result<Self, DecodeError>)
        ensures
            camera_spec(bytes@) == match r {
                Ok(m) => Ok((m.road, m.mile, m.limit)),
                Err(e) => Err(e),
            },
    {
        let road = decode_u16(bytes)?;
        let mile = decode_u16(slice_subrange(bytes, 2, bytes.len()))?;
        let limit = decode_u16(slice_subrange(bytes, 4, bytes.len()))?;
        Ok(Self { road, mile, limit })
    }
}

/// A dispatcher introducing itself with the roads it serves.
#[derive(Debug, PartialEq)]
pub struct IAmDispatcher {
    pub roads: Vec<u16>,
}

/// A dispatcher message body: a count, then that many big-endian `u16`s.
pub open spec fn dispatcher_spec(b: Seq<u8>) -> Result<Seq<u16>, DecodeError> {
    if b.len() == 0 || b.len() < 1 + 2 * b[0] {
        Err(DecodeError::TooShort)
    } else {
        Ok(Seq::new(b[0] as nat, |i: int| be_u16_at(b, 1 + 2 * i)))
    }
}

impl IAmDispatcher {
    pub const CODE: u8 = 0x81;

    pub fn decode(bytes: &[u8]) -> (r: Result<Self, DecodeError>)
        ensures
            dispatcher_spec(bytes@) == match r {
                Ok(m) => Ok(m.roads@),
                Err(e) => Err(e),
            },
    {
        if bytes.len() == 0 {
            return Err(DecodeError::TooShort);
        }
        let numroads = bytes[0] as usize;
        let mut roads: Vec<u16> = Vec::new();
        let mut idx: usize = 0;
        while idx < numroads
            invariant
                bytes@.len() > 0,
                numroads == bytes@[0],
                idx <= numroads,
                1 + 2 * idx <= bytes@.len(),
                roads@ == Seq::new(idx as nat, |i: int| be_u16_at(bytes@, 1 + 2 * i)),
            decreases numroads - idx,
        {
            let start = 1 + idx * 2;
            let road = decode_u16(slice_subrange(bytes, start, bytes.len()))?;
            roads.push(road);
            idx = idx + 1;
            assert(roads@ =~= Seq::new(idx as nat, |i: int| be_u16_at(bytes@, 1 + 2 * i)));
        }
        Ok(Self { roads })
    }

    /// The length of the whole message: code, count, two bytes per road.
    pub fn len(&self) -> (r: usize)
        requires
            self.roads@.len() * 2 + 2 <= usize::MAX,
        ensures
            r == self.roads@.len() * 2 + 2,
    {
        self.roads.len() * 2 + 2
    }
}

} // verus!
