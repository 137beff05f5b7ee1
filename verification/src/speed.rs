//! The speed daemon: decoding the client messages that arrive on a stream.
pub mod client;
pub mod tickets;
pub mod event;
pub mod msg;

use vstd::prelude::*;
use vstd::slice::slice_subrange;
use vstd::utf8::*;
use crate::util::{be_u32_at, utf8_lossy};
use crate::speed::msg::{
    Plate,
    WantHeartbeat,
    IAmCamera,
    IAmDispatcher,
    plate_spec,
    plate_rest,
    str_field,
    decode_str_spec,
    u32_decoded,
    camera_spec,
    dispatcher_spec,
};

verus! {

/// Why a message could not be decoded: the bytes so far do not hold all
/// of it.
#[derive(Debug, PartialEq, Eq)]
pub enum DecodeError {
    TooShort,
}

/// A decoded client message.
#[derive(Debug, PartialEq)]
pub enum DecodedMsg {
    Plate(msg::Plate),
    WantHeartbeat(msg::WantHeartbeat),
    IAmCamera(msg::IAmCamera),
    IAmDispatcher(msg::IAmDispatcher),
    Unknown,
}

/// A client message as plain values.
pub enum MsgView {
    Plate(Seq<char>, u32),
    WantHeartbeat(u32),
    IAmCamera(u16, u16, u16),
    IAmDispatcher(Seq<u16>),
    Unknown,
}

impl View for DecodedMsg {
    type V = MsgView;

    open spec fn view(&self) -> MsgView {
        match self {
            DecodedMsg::Plate(p) => MsgView::Plate(p.plate@, p.ts),
            DecodedMsg::WantHeartbeat(m) => MsgView::WantHeartbeat(m.interval),
            DecodedMsg::IAmCamera(m) => MsgView::IAmCamera(m.road, m.mile, m.limit),
            DecodedMsg::IAmDispatcher(m) => MsgView::IAmDispatcher(m.roads@),
            DecodedMsg::Unknown => MsgView::Unknown,
        }
    }
}

/// How many bytes of the stream a message takes, its code included.
pub open spec fn msg_size(m: MsgView) -> int {
    match m {
        MsgView::Plate(text, _) => encode_utf8(text).len() + 6int,
        MsgView::WantHeartbeat(_) => 5,
        MsgView::IAmCamera(..) => 7,
        MsgView::IAmDispatcher(roads) => roads.len() * 2 + 2int,
        MsgView::Unknown => 0,
    }
}

/// The message at the start of `b`: `None` where a message body cannot be
/// read (a heartbeat request with fewer than four bytes after its code, or
/// a plate whose decoded text is longer than the bytes it came from).
pub open spec fn decode_msg_spec(b: Seq<u8>) -> Option<Result<MsgView, DecodeError>> {
    if b.len() == 0 {
        Some(Err(DecodeError::TooShort))
    } else {
        let body = b.subrange(1, b.len() as int);
        if b[0] == msg::Plate::CODE {
            match plate_spec(body) {
                None => None,
                Some(Ok((text, ts))) => Some(Ok(MsgView::Plate(text, ts))),
                Some(Err(e)) => Some(Err(e)),
            }
        } else if b[0] == msg::WantHeartbeat::CODE {
            if body.len() < 4 {
                None
            } else {
                Some(Ok(MsgView::WantHeartbeat(be_u32_at(body, 0))))
            }
        } else if b[0] == msg::IAmCamera::CODE {
            match camera_spec(body) {
                Ok((road, mile, limit)) => Some(Ok(MsgView::IAmCamera(road, mile, limit))),
                Err(e) => Some(Err(e)),
            }
        } else if b[0] == msg::IAmDispatcher::CODE {
            match dispatcher_spec(body) {
                Ok(roads) => Some(Ok(MsgView::IAmDispatcher(roads))),
                Err(e) => Some(Err(e)),
            }
        } else {
            Some(Ok(MsgView::Unknown))
        }
    }
}

/// The bytes of the plate text in a plate message `b`, code included.
pub open spec fn plate_field(b: Seq<u8>) -> Seq<u8> {
    str_field(b.subrange(1, b.len() as int))->0
}

impl DecodedMsg {
    /// How many bytes of the stream the message took.
    pub fn size(&self) -> (r: usize)
        requires
            msg_size(self@) <= usize::MAX,
        ensures
            r == msg_size(self@),
    {
        match self {
            DecodedMsg::Plate(plate_msg) => plate_msg.len(),
            DecodedMsg::WantHeartbeat(_) => 5,
            DecodedMsg::IAmCamera(_) => 7,
            DecodedMsg::IAmDispatcher(dispatcher_msg) => dispatcher_msg.len(),
            DecodedMsg::Unknown => 0,
        }
    }
}

/// Decodes the message at the start of `bytes`.
pub fn decode_msg(bytes: &[u8]) -> (r: Result<DecodedMsg, DecodeError>)
    requires
        decode_msg_spec(bytes@) is Some,
    ensures
        decode_msg_spec(bytes@) == Some(
            match r {
                Ok(m) => Ok(m@),
                Err(e) => Err(e),
            },
        ),
        valid_utf8(plate_field(bytes@)) ==> (r matches Ok(DecodedMsg::Plate(p)) ==> p.plate@ == decode_utf8(
            plate_field(bytes@),
        )),
{
    if bytes.len() == 0 {
        return Err(DecodeError::TooShort);
    }
    let body = slice_subrange(bytes, 1, bytes.len());
    let code = bytes[0];
    if code == msg::Plate::CODE {
        assert(body@ == bytes@.subrange(1, bytes@.len() as int));
        match Plate::decode(body) {
            Ok(m) => Ok(DecodedMsg::Plate(m)),
            Err(e) => Err(e),
        }
    } else if code == msg::WantHeartbeat::CODE {
        match WantHeartbeat::decode(body) {
            Ok(m) => Ok(DecodedMsg::WantHeartbeat(m)),
            Err(e) => Err(e),
        }
    } else if code == msg::IAmCamera::CODE {
        match IAmCamera::decode(body) {
            Ok(m) => Ok(DecodedMsg::IAmCamera(m)),
            Err(e) => Err(e),
        }
    } else if code == msg::IAmDispatcher::CODE {
        match IAmDispatcher::decode(body) {
            Ok(m) => Ok(DecodedMsg::IAmDispatcher(m)),
            Err(e) => Err(e),
        }
    } else {
        Ok(DecodedMsg::Unknown)
    }
}

/// Decodes the message at the start of `bytes`, or gives `None` where its
/// body cannot be read (see `decode_msg_spec`).
pub fn try_decode_msg(bytes: &[u8]) -> (r: Option<Result<DecodedMsg, DecodeError>>)
    ensures
        decode_msg_spec(bytes@) == match r {
            None => None,
            Some(Ok(m)) => Some(Ok(m@)),
            Some(Err(e)) => Some(Err(e)),
        },
        valid_utf8(plate_field(bytes@)) ==> (r matches Some(Ok(DecodedMsg::Plate(p))) ==> p.plate@ == decode_utf8(
            plate_field(bytes@),
        )),
{
    if bytes.len() == 0 {
        return Some(Err(DecodeError::TooShort));
    }
    let body = slice_subrange(bytes, 1, bytes.len());
    let code = bytes[0];
    if code == msg::Plate::CODE {
        match Plate::try_decode(body) {
            None => None,
            Some(_) => Some(decode_msg(bytes)),
        }
    } else if code == msg::WantHeartbeat::CODE && body.len() < 4 {
        None
    } else {
        Some(decode_msg(bytes))
    }
}

/// A decoded message other than an unknown one takes `msg_size` bytes at
/// the start of the buffer, and those bytes alone decode to the same
/// message: draining them leaves the next message first. For a plate this
/// holds where its text takes in UTF-8 as many bytes as its length byte
/// gives (so where those bytes are UTF-8).
pub proof fn lemma_size_is_prefix(b: Seq<u8>, m: MsgView)
    requires
        decode_msg_spec(b) == Some(Ok::<MsgView, DecodeError>(m)),
        !(m is Unknown),
        m matches MsgView::Plate(text, _) ==> encode_utf8(text).len() == b[1],
    ensures
        0 < msg_size(m) <= b.len(),
        decode_msg_spec(b.subrange(0, msg_size(m))) == Some(Ok::<MsgView, DecodeError>(m)),
{
    let body = b.subrange(1, b.len() as int);
    let n = msg_size(m);
    let p = b.subrange(0, n);
    let pbody = p.subrange(1, p.len() as int);
    if b[0] == msg::Plate::CODE {
        let f = str_field(body)->0;
        let text = utf8_lossy(f);
        let k = encode_utf8(text).len() + 1;
        assert(body.subrange(k as int, body.len() as int).len() >= 4);
        assert(pbody =~= body.subrange(0, n - 1));
        assert(str_field(pbody)->0 =~= f);
        assert(pbody.subrange(k as int, pbody.len() as int) =~= body.subrange(k as int, body.len() as int).subrange(0, 4));
    } else if b[0] == msg::WantHeartbeat::CODE {
        assert(pbody =~= body.subrange(0, 4));
    } else if b[0] == msg::IAmCamera::CODE {
        assert(pbody =~= body.subrange(0, 6));
    } else if b[0] == msg::IAmDispatcher::CODE {
        let roads = dispatcher_spec(body)->Ok_0;
        assert(pbody =~= body.subrange(0, n - 1));
        assert(dispatcher_spec(pbody)->Ok_0 =~= roads);
    }
}

/// The size law for a plate whose text bytes are UTF-8, as `decode_msg`
/// gives it: a decoded message other than an unknown one takes `msg_size`
/// bytes at the start of the buffer, and those bytes alone decode to it.
pub proof fn lemma_valid_size_is_prefix(b: Seq<u8>, m: MsgView)
    requires
        decode_msg_spec(b) == Some(Ok::<MsgView, DecodeError>(m)),
        !(m is Unknown),
        m matches MsgView::Plate(text, _) ==> valid_utf8(plate_field(b)) && text == decode_utf8(plate_field(b)),
    ensures
        0 < msg_size(m) <= b.len(),
        decode_msg_spec(b.subrange(0, msg_size(m))) == Some(Ok::<MsgView, DecodeError>(m)),
{
    if m is Plate {
        let f = plate_field(b);
        decode_utf8_encode_utf8(f);
    }
    lemma_size_is_prefix(b, m);
}

} // verus!
