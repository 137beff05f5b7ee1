//! The line reversal control protocol: its messages, and the state of the
//! sessions a socket serves, driven by datagrams, application data and
//! timers.
pub mod msg;

use vstd::prelude::*;
use vstd::utf8::*;
use std::collections::HashMap;
use crate::lrcp::msg::{data_bytes, ack_bytes, close_bytes, Data, Ack, Close, Decoded, DecodeError, Message, decode_spec, try_decode};
use crate::util::{copy_range, string_from_valid, lemma_valid_subrange, string_bytes, str_bytes, push_all};

verus! {

broadcast use {vstd::seq_lib::group_seq_properties, vstd::std_specs::hash::group_hash_axioms};

/// The most data bytes one data message carries.
pub const MAX_DATA_LEN: usize = 400;

/// What a session step asks of the caller.
#[derive(Debug, PartialEq, Eq)]
pub enum Output {
    /// Send this message to the session's peer.
    Send(String),
    /// Hand this data to the session's application stream.
    Deliver(i32, String),
    /// Hand a new session's stream to the application.
    NewStream(i32),
}

/// An output as plain values: messages by their bytes.
pub enum OutputView {
    Send(Seq<u8>),
    Deliver(i32, Seq<char>),
    NewStream(i32),
}

impl View for Output {
    type V = OutputView;

    open spec fn view(&self) -> OutputView {
        match self {
            Output::Send(m) => OutputView::Send(encode_utf8(m@)),
            Output::Deliver(id, d) => OutputView::Deliver(*id, d@),
            Output::NewStream(id) => OutputView::NewStream(*id),
        }
    }
}

/// The outputs as plain values.
pub open spec fn outputs_view(out: Seq<Output>) -> Seq<OutputView> {
    out.map_values(|o: Output| o@)
}

/// The pieces outgoing bytes are sent in: `MAX_DATA_LEN` bytes each while
/// more remain, then the rest, which may be empty.
pub open spec fn chunks(b: Seq<u8>) -> Seq<Seq<u8>>
    decreases b.len(),
{
    if b.len() > 400 {
        seq![b.subrange(0, 400)] + chunks(b.subrange(400, b.len() as int))
    } else {
        seq![b]
    }
}

/// Each cut `chunks` makes falls before the first byte of a character.
pub open spec fn cuts_between_chars(b: Seq<u8>) -> bool {
    forall|k: int| 0 < k && 400 * k < b.len() ==> !is_continuation_byte(#[trigger] b[400 * k])
}

/// The data messages that send `b` from position `pos`.
pub open spec fn data_sends(id: i32, pos: int, b: Seq<u8>) -> Seq<OutputView>
    decreases b.len(),
{
    if b.len() > 400 {
        seq![OutputView::Send(data_bytes(id, pos as i32, decode_utf8(b.subrange(0, 400))))]
            + data_sends(id, pos + 400, b.subrange(400, b.len() as int))
    } else {
        seq![OutputView::Send(data_bytes(id, pos as i32, decode_utf8(b)))]
    }
}

/// Sends `b`, valid UTF-8, from position `pos` in data messages of at most
/// `MAX_DATA_LEN` bytes.
fn send_data(id: i32, pos: i32, b: &[u8], out: &mut Vec<Output>)
    requires
        valid_utf8(b@),
        cuts_between_chars(b@),
        pos >= 0,
        pos + b@.len() <= i32::MAX,
    ensures
        outputs_view(final(out)@) == outputs_view(old(out)@) + data_sends(id, pos as int, b@),
{
    let len = b.len();
    let mut offset: usize = 0;
    let ghost start = old(out)@;
    assert(b@.subrange(0, len as int) =~= b@);
    while len - offset > MAX_DATA_LEN
        invariant
            len == b@.len(),
            valid_utf8(b@),
            cuts_between_chars(b@),
            pos >= 0,
            pos + len <= i32::MAX,
            offset <= len,
            offset % 400 == 0,
            outputs_view(out@) + data_sends(id, pos + offset, b@.subrange(offset as int, len as int))
                == outputs_view(start) + data_sends(id, pos as int, b@),
        decreases len - offset,
    {
        let ghost rest = b@.subrange(offset as int, len as int);
        proof {
            if offset > 0 {
                let k = (offset / 400) as int;
                assert(400 * k == offset);
                assert(!is_continuation_byte(b@[400 * k]));
            }
            let k2 = ((offset + 400) / 400) as int;
            assert(400 * k2 == offset + 400);
            assert(!is_continuation_byte(b@[400 * k2]));
            lemma_valid_subrange(b@, offset as int, offset + 400);
            assert(rest.subrange(0, 400) =~= b@.subrange(offset as int, offset + 400));
            assert(rest.subrange(400, rest.len() as int) =~= b@.subrange(offset + 400, len as int));
        }
        let piece = copy_range(b, offset, offset + MAX_DATA_LEN);
        let text = string_from_valid(piece.as_slice());
        let data = Data::new(id, pos + offset as i32, text.as_str());
        let ghost before = out@;
        out.push(Output::Send(data.encode()));
        assert(outputs_view(out@) =~= outputs_view(before).push(
            OutputView::Send(data_bytes(id, (pos + offset) as i32, decode_utf8(rest.subrange(0, 400)))),
        ));
        offset = offset + MAX_DATA_LEN;
    }
    let ghost rest = b@.subrange(offset as int, len as int);
    proof {
        if offset > 0 && offset < len {
            let k = (offset / 400) as int;
            assert(400 * k == offset);
            assert(!is_continuation_byte(b@[400 * k]));
        }
        lemma_valid_subrange(b@, offset as int, len as int);
    }
    let piece = copy_range(b, offset, len);
    let text = string_from_valid(piece.as_slice());
    let data = Data::new(id, pos + offset as i32, text.as_str());
    let ghost before = out@;
    out.push(Output::Send(data.encode()));
    assert(outputs_view(out@) =~= outputs_view(before).push(
        OutputView::Send(data_bytes(id, (pos + offset) as i32, decode_utf8(rest))),
    ));
}

/// Whether every cut `chunks` makes falls before the first byte of a
/// character.
fn check_cuts(b: &[u8]) -> (r: bool)
    ensures
        r == cuts_between_chars(b@),
{
    let mut k: usize = 400;
    while k < b.len()
        invariant
            k % 400 == 0,
            k >= 400,
            forall|j: int| 0 < j && 400 * j < k && 400 * j < b@.len() ==> !is_continuation_byte(#[trigger] b@[400 * j]),
        decreases b@.len() - k,
    {
        if 0x80u8 <= b[k] && b[k] <= 0xbfu8 {
            proof {
                let j = (k / 400) as int;
                assert(400 * j == k);
                assert(is_continuation_byte(b@[400 * j]));
            }
            return false;
        }
        proof {
            assert forall|j: int| 0 < j && 400 * j < k + 400 && 400 * j < b@.len() implies !is_continuation_byte(#[trigger] b@[400 * j]) by {
                if 400 * j >= k {
                    assert(400 * j == k);
                }
            }
        }
        if b.len() - k <= MAX_DATA_LEN {
            return true;
        }
        k = k + MAX_DATA_LEN;
    }
    true
}

/// One session's protocol state; its peer's address and its application
/// stream are the caller's to keep.
#[derive(Debug)]
pub struct Session {
    pub id: i32,
    /// How much of the peer's data has arrived in order and been
    /// acknowledged.
    pub last_ack_sent: i32,
    /// The position after the last byte sent to the peer.
    pub next_pos: i32,
    /// The bytes sent and not acknowledged yet, UTF-8 text.
    pub outstanding: Vec<u8>,
    /// When to send the outstanding bytes again, in milliseconds.
    pub rtx_deadline: Option<u64>,
    /// When to close the session for want of news from the peer.
    pub session_deadline: Option<u64>,
}

/// A session as plain values.
pub struct SessionView {
    pub id: i32,
    pub last_ack_sent: i32,
    pub next_pos: i32,
    pub outstanding: Seq<u8>,
    pub rtx_deadline: Option<u64>,
    pub session_deadline: Option<u64>,
}

impl View for Session {
    type V = SessionView;

    open spec fn view(&self) -> SessionView {
        SessionView {
            id: self.id,
            last_ack_sent: self.last_ack_sent,
            next_pos: self.next_pos,
            outstanding: self.outstanding@,
            rtx_deadline: self.rtx_deadline,
            session_deadline: self.session_deadline,
        }
    }
}

/// A session stored under `id` is consistent: it knows its id, its
/// positions are not negative, and the outstanding text is what lies just
/// before `next_pos`.
pub open spec fn session_ok(id: i32, s: SessionView) -> bool {
    &&& s.id == id
    &&& s.last_ack_sent >= 0
    &&& s.next_pos >= 0
    &&& s.outstanding.len() <= s.next_pos
    &&& valid_utf8(s.outstanding)
}

/// The sessions of one socket, by id.
pub struct Sessions {
    sessions: HashMap<i32, Session>,
    rtx_to: u64,
    session_to: u64,
}

impl Sessions {
    /// The sessions as plain values.
    pub closed spec fn state(&self) -> Map<i32, SessionView> {
        self.sessions@.map_values(|s: Session| s@)
    }

    /// How long to wait before sending outstanding data again.
    pub closed spec fn rtx_timeout(&self) -> u64 {
        self.rtx_to
    }

    /// How long a silent session lives.
    pub closed spec fn session_timeout(&self) -> u64 {
        self.session_to
    }

    #[verifier::type_invariant]
    closed spec fn wf(&self) -> bool {
        forall|id: i32| #[trigger] self.sessions@.contains_key(id) ==> session_ok(id, self.sessions@[id]@)
    }

    /// No sessions yet; retransmissions after `rtx_to` and sessions closed
    /// after `session_to` milliseconds of silence.
    pub fn new(rtx_to: u64, session_to: u64) -> (r: Self)
        ensures
            r.state() == Map::<i32, SessionView>::empty(),
            r.rtx_timeout() == rtx_to,
            r.session_timeout() == session_to,
    {
        let r = Self { sessions: HashMap::new(), rtx_to, session_to };
        assert(r.state() =~= Map::<i32, SessionView>::empty());
        r
    }

    /// The session with this id.
    pub fn get(&self, id: i32) -> (r: Option<&Session>)
        ensures
            match r {
                Some(s) => self.state().contains_key(id) && s@ == self.state()[id],
                None => !self.state().contains_key(id),
            },
    {
        self.sessions.get(&id)
    }

    /// Takes a session out, to change it.
    fn take(&mut self, id: i32) -> (r: Option<Session>)
        ensures
            final(self).state() == old(self).state().remove(id),
            final(self).rtx_timeout() == old(self).rtx_timeout(),
            final(self).session_timeout() == old(self).session_timeout(),
            match r {
                Some(s) => old(self).state().contains_key(id) && s@ == old(self).state()[id]
                    && session_ok(id, s@),
                None => !old(self).state().contains_key(id),
            },
    {
        proof {
            use_type_invariant(&*self);
        }
        let mut map: HashMap<i32, Session> = HashMap::new();
        std::mem::swap(&mut map, &mut self.sessions);
        let r = map.remove(&id);
        std::mem::swap(&mut map, &mut self.sessions);
        assert(self.state() =~= old(self).state().remove(id));
        r
    }

    /// Puts a session back.
    fn put(&mut self, s: Session)
        requires
            session_ok(s.id, s@),
        ensures
            final(self).state() == old(self).state().insert(s.id, s@),
            final(self).rtx_timeout() == old(self).rtx_timeout(),
            final(self).session_timeout() == old(self).session_timeout(),
    {
        proof {
            use_type_invariant(&*self);
        }
        let ghost v = s@;
        let id = s.id;
        let mut map: HashMap<i32, Session> = HashMap::new();
        std::mem::swap(&mut map, &mut self.sessions);
        map.insert(id, s);
        std::mem::swap(&mut map, &mut self.sessions);
        assert(self.state() =~= old(self).state().insert(id, v));
    }
}

/// The sessions, with the deadline of session `id` (where there is one)
/// put off to `deadline`.
pub open spec fn touched(m: Map<i32, SessionView>, id: i32, deadline: u64) -> Map<i32, SessionView> {
    if m.contains_key(id) {
        m.insert(id, SessionView { session_deadline: Some(deadline), ..m[id] })
    } else {
        m
    }
}

/// A peer opens session `id`: a new session is acknowledged and handed to
/// the application; an open one is left alone.
pub open spec fn connect_spec(m: Map<i32, SessionView>, id: i32, deadline: u64) -> (
    Map<i32, SessionView>,
    Seq<OutputView>,
) {
    if m.contains_key(id) {
        (m, seq![])
    } else {
        (
            m.insert(
                id,
                SessionView {
                    id,
                    last_ack_sent: 0,
                    next_pos: 0,
                    outstanding: seq![],
                    rtx_deadline: None,
                    session_deadline: Some(deadline),
                },
            ),
            seq![OutputView::Send(ack_bytes(id, 0)), OutputView::NewStream(id)],
        )
    }
}

/// Session `id` ends: an open one is dropped and the peer told so.
pub open spec fn close_spec(m: Map<i32, SessionView>, id: i32) -> (
    Map<i32, SessionView>,
    Seq<OutputView>,
) {
    if m.contains_key(id) {
        (m.remove(id), seq![OutputView::Send(close_bytes(id))])
    } else {
        (m, seq![])
    }
}

/// Data at `pos` arrives for session `id`: data that continues what came
/// before is passed on and counted; `None` where the count would overflow.
pub open spec fn data_spec(
    m: Map<i32, SessionView>,
    id: i32,
    pos: i32,
    text: Seq<char>,
    deadline: u64,
) -> Option<(Map<i32, SessionView>, Seq<OutputView>)> {
    let m1 = touched(m, id, deadline);
    if m1.contains_key(id) && m1[id].last_ack_sent == pos {
        let n = encode_utf8(text).len();
        if m1[id].last_ack_sent + n > i32::MAX {
            None
        } else {
            Some(
                (
                    m1.insert(
                        id,
                        SessionView { last_ack_sent: (m1[id].last_ack_sent + n) as i32, ..m1[id] },
                    ),
                    seq![OutputView::Deliver(id, text)],
                ),
            )
        }
    } else {
        Some((m1, seq![]))
    }
}

/// The answer to data for session `id`, once what was to be passed on has
/// been (`delivered`) or could not be: a session whose application is gone
/// is dropped; an open session acknowledges all it has; a closed one says
/// so.
pub open spec fn reply_spec(m: Map<i32, SessionView>, id: i32, delivered: bool) -> (
    Map<i32, SessionView>,
    Seq<OutputView>,
) {
    let m1 = if delivered {
        m
    } else {
        m.remove(id)
    };
    if m1.contains_key(id) {
        (m1, seq![OutputView::Send(ack_bytes(id, m1[id].last_ack_sent))])
    } else {
        (m1, seq![OutputView::Send(close_bytes(id))])
    }
}

/// The peer acknowledges `length` bytes of session `id`: an unknown session
/// is answered with a close; an acknowledgement beyond what was sent closes
/// the session; a stale one is ignored; otherwise the acknowledged bytes
/// are dropped and the rest sent again. `None` where the acknowledged part
/// ends inside a character, or the rest cannot be cut between characters.
pub open spec fn ack_spec(m: Map<i32, SessionView>, id: i32, length: i32, deadline: u64) -> Option<
    (Map<i32, SessionView>, Seq<OutputView>),
> {
    let m1 = touched(m, id, deadline);
    if !m1.contains_key(id) {
        Some((m1, seq![OutputView::Send(close_bytes(id))]))
    } else {
        let s = m1[id];
        let first = s.next_pos - s.outstanding.len();
        if length > s.next_pos {
            Some((m1.remove(id), seq![OutputView::Send(close_bytes(id))]))
        } else if length < first {
            Some((m1, seq![]))
        } else {
            let acked = length - first;
            let rest = s.outstanding.subrange(acked, s.outstanding.len() as int);
            if acked < s.outstanding.len() && is_continuation_byte(s.outstanding[acked]) {
                None
            } else if rest.len() > 0 && !cuts_between_chars(rest) {
                None
            } else {
                Some(
                    (
                        m1.insert(id, SessionView { outstanding: rest, ..s }),
                        if rest.len() == 0 {
                            seq![]
                        } else {
                            data_sends(id, length as int, rest)
                        },
                    ),
                )
            }
        }
    }
}

/// The application sends `text` on session `id`: it goes out from the
/// session's next position, becomes outstanding, and arms the retransmission
/// timer if it was not armed. `None` where the text cannot be cut between
/// characters or the position would overflow.
pub open spec fn send_spec(m: Map<i32, SessionView>, id: i32, text: Seq<char>, deadline: u64) -> Option<
    (Map<i32, SessionView>, Seq<OutputView>),
> {
    if !m.contains_key(id) {
        Some((m, seq![]))
    } else {
        let s = m[id];
        let b = encode_utf8(text);
        if !cuts_between_chars(b) || s.next_pos + b.len() > i32::MAX {
            None
        } else {
            Some(
                (
                    m.insert(
                        id,
                        SessionView {
                            next_pos: (s.next_pos + b.len()) as i32,
                            outstanding: s.outstanding + b,
                            rtx_deadline: if s.rtx_deadline is None {
                                Some(deadline)
                            } else {
                                s.rtx_deadline
                            },
                            ..s
                        },
                    ),
                    data_sends(id, s.next_pos as int, b),
                ),
            )
        }
    }
}

/// Session `id`'s retransmission timer fires: the outstanding bytes go out
/// again from the first unacknowledged position, and the timer is armed
/// anew. `None` where they cannot be cut between characters.
pub open spec fn rtx_spec(m: Map<i32, SessionView>, id: i32, deadline: u64) -> Option<
    (Map<i32, SessionView>, Seq<OutputView>),
> {
    if !m.contains_key(id) {
        Some((m, seq![]))
    } else {
        let s = m[id];
        if !cuts_between_chars(s.outstanding) {
            None
        } else {
            Some(
                (
                    m.insert(id, SessionView { rtx_deadline: Some(deadline), ..s }),
                    data_sends(id, s.next_pos - s.outstanding.len(), s.outstanding),
                ),
            )
        }
    }
}

impl Sessions {
    /// Puts off the deadline of session `id`.
    fn touch(&mut self, id: i32, deadline: u64)
        ensures
            final(self).state() == touched(old(self).state(), id, deadline),
            final(self).rtx_timeout() == old(self).rtx_timeout(),
            final(self).session_timeout() == old(self).session_timeout(),
    {
        match self.take(id) {
            Some(mut s) => {
                s.session_deadline = Some(deadline);
                self.put(s);
                assert(self.state() =~= touched(old(self).state(), id, deadline));
            },
            None => {
                assert(self.state() =~= old(self).state());
            },
        }
    }

    /// A peer opens session `id`; see `connect_spec`.
    fn on_connect(&mut self, id: i32, deadline: u64) -> (out: Vec<Output>)
        ensures
            (final(self).state(), outputs_view(out@)) == connect_spec(old(self).state(), id, deadline),
            final(self).rtx_timeout() == old(self).rtx_timeout(),
            final(self).session_timeout() == old(self).session_timeout(),
    {
        let mut out: Vec<Output> = Vec::new();
        match self.take(id) {
            Some(s) => {
                self.put(s);
                assert(self.state() =~= old(self).state());
            },
            None => {
                let s = Session {
                    id,
                    last_ack_sent: 0,
                    next_pos: 0,
                    outstanding: Vec::new(),
                    rtx_deadline: None,
                    session_deadline: Some(deadline),
                };
                proof {
                    lemma_empty_valid();
                }
                self.put(s);
                out.push(Output::Send(Ack::new(id, 0).encode()));
                out.push(Output::NewStream(id));
                assert(outputs_view(out@) =~= seq![OutputView::Send(ack_bytes(id, 0)), OutputView::NewStream(id)]);
            },
        }
        out
    }

    /// Session `id` ends, closed by the peer or timed out; see `close_spec`.
    pub fn close(&mut self, id: i32) -> (out: Vec<Output>)
        ensures
            (final(self).state(), outputs_view(out@)) == close_spec(old(self).state(), id),
            final(self).rtx_timeout() == old(self).rtx_timeout(),
            final(self).session_timeout() == old(self).session_timeout(),
    {
        let mut out: Vec<Output> = Vec::new();
        match self.take(id) {
            Some(_) => {
                out.push(Output::Send(Close::new(id).encode()));
                assert(outputs_view(out@) =~= seq![OutputView::Send(close_bytes(id))]);
            },
            None => {
                assert(self.state() =~= old(self).state());
            },
        }
        out
    }
}

impl Sessions {
    /// Data at `pos` arrives for session `id`; see `data_spec`.
    fn on_data(&mut self, id: i32, pos: i32, data: &String, deadline: u64) -> (r: Option<Vec<Output>>)
        ensures
            match r {
                Some(out) => data_spec(old(self).state(), id, pos, data@, deadline) == Some(
                    (final(self).state(), outputs_view(out@)),
                ),
                None => data_spec(old(self).state(), id, pos, data@, deadline) is None,
            },
            final(self).rtx_timeout() == old(self).rtx_timeout(),
            final(self).session_timeout() == old(self).session_timeout(),
    {
        self.touch(id, deadline);
        let mut out: Vec<Output> = Vec::new();
        match self.take(id) {
            None => {
                assert(self.state() =~= touched(old(self).state(), id, deadline));
                Some(out)
            },
            Some(mut s) => {
                if s.last_ack_sent == pos {
                    let n = string_bytes(data).len();
                    if n > (i32::MAX - s.last_ack_sent) as usize {
                        self.put(s);
                        return None;
                    }
                    s.last_ack_sent = s.last_ack_sent + n as i32;
                    self.put(s);
                    out.push(Output::Deliver(id, data.clone()));
                    assert(outputs_view(out@) =~= seq![OutputView::Deliver(id, data@)]);
                    Some(out)
                } else {
                    self.put(s);
                    assert(self.state() =~= touched(old(self).state(), id, deadline));
                    Some(out)
                }
            },
        }
    }

    /// Answers data for session `id` once what it passed on was delivered,
    /// or could not be; see `reply_spec`.
    pub fn data_reply(&mut self, id: i32, delivered: bool) -> (out: Vec<Output>)
        ensures
            (final(self).state(), outputs_view(out@)) == reply_spec(old(self).state(), id, delivered),
            final(self).rtx_timeout() == old(self).rtx_timeout(),
            final(self).session_timeout() == old(self).session_timeout(),
    {
        let mut out: Vec<Output> = Vec::new();
        match self.take(id) {
            Some(s) => {
                if delivered {
                    let ack = Ack::new(id, s.last_ack_sent).encode();
                    self.put(s);
                    assert(self.state() =~= old(self).state());
                    out.push(Output::Send(ack));
                    assert(outputs_view(out@) =~= seq![OutputView::Send(ack_bytes(id, self.state()[id].last_ack_sent))]);
                } else {
                    out.push(Output::Send(Close::new(id).encode()));
                    assert(outputs_view(out@) =~= seq![OutputView::Send(close_bytes(id))]);
                }
            },
            None => {
                assert(self.state() =~= old(self).state());
                out.push(Output::Send(Close::new(id).encode()));
                assert(outputs_view(out@) =~= seq![OutputView::Send(close_bytes(id))]);
            },
        }
        out
    }

    /// The peer acknowledges `length` bytes of session `id`; see `ack_spec`.
    fn on_ack(&mut self, id: i32, length: i32, deadline: u64) -> (r: Option<Vec<Output>>)
        ensures
            match r {
                Some(out) => ack_spec(old(self).state(), id, length, deadline) == Some(
                    (final(self).state(), outputs_view(out@)),
                ),
                None => ack_spec(old(self).state(), id, length, deadline) is None,
            },
            final(self).rtx_timeout() == old(self).rtx_timeout(),
            final(self).session_timeout() == old(self).session_timeout(),
    {
        self.touch(id, deadline);
        let ghost m1 = self.state();
        let mut out: Vec<Output> = Vec::new();
        match self.take(id) {
            None => {
                assert(self.state() =~= m1);
                out.push(Output::Send(Close::new(id).encode()));
                assert(outputs_view(out@) =~= seq![OutputView::Send(close_bytes(id))]);
                Some(out)
            },
            Some(mut s) => {
                let olen = s.outstanding.len();
                let first = s.next_pos - olen as i32;
                if length > s.next_pos {
                    out.push(Output::Send(Close::new(id).encode()));
                    assert(outputs_view(out@) =~= seq![OutputView::Send(close_bytes(id))]);
                    return Some(out);
                }
                if length < first {
                    self.put(s);
                    assert(self.state() =~= m1);
                    return Some(out);
                }
                let acked = (length - first) as usize;
                if acked < olen && 0x80u8 <= s.outstanding[acked] && s.outstanding[acked] <= 0xbfu8 {
                    self.put(s);
                    return None;
                }
                let rest = copy_range(s.outstanding.as_slice(), acked, olen);
                if rest.len() > 0 && !check_cuts(rest.as_slice()) {
                    self.put(s);
                    return None;
                }
                proof {
                    lemma_valid_subrange(s.outstanding@, acked as int, olen as int);
                }
                if rest.len() > 0 {
                    send_data(id, length, rest.as_slice(), &mut out);
                }
                assert(outputs_view(out@) =~= if rest@.len() == 0 {
                    seq![]
                } else {
                    data_sends(id, length as int, rest@)
                });
                s.outstanding = rest;
                self.put(s);
                Some(out)
            },
        }
    }
}

/// The session a message is for.
pub open spec fn msg_session(msg: Message) -> i32 {
    match msg {
        Message::Connect(id) => id,
        Message::Close(id) => id,
        Message::Ack(id, _) => id,
        Message::Data(id, _, _) => id,
    }
}

/// A datagram from a peer arrives at `now`: a message is applied to its
/// session (see the specs of each kind), and data for a session asks for
/// `data_reply` once it has been passed on; what is not a message is
/// ignored. `None` where these steps cannot be taken: a datagram the
/// decoder cannot read, a session deadline past the clock's range, and the
/// `None`s of `data_spec` and `ack_spec`.
pub open spec fn udp_spec(m: Map<i32, SessionView>, buf: Seq<u8>, now: u64, session_to: u64) -> Option<
    (Map<i32, SessionView>, Seq<OutputView>, Option<i32>),
> {
    match decode_spec(buf) {
        None => None,
        Some(Err(_)) => Some((m, seq![], None)),
        Some(Ok(msg)) => {
            let id = msg_session(msg);
            let needs_clock = match msg {
                Message::Connect(_) => !m.contains_key(id),
                Message::Close(_) => false,
                _ => m.contains_key(id),
            };
            if needs_clock && now + session_to > u64::MAX {
                None
            } else {
                let d = (now + session_to) as u64;
                match msg {
                    Message::Connect(_) => Some((connect_spec(m, id, d).0, connect_spec(m, id, d).1, None)),
                    Message::Close(_) => Some((close_spec(m, id).0, close_spec(m, id).1, None)),
                    Message::Data(_, pos, text) => match data_spec(m, id, pos, text, d) {
                        Some((m2, o)) => Some((m2, o, Some(id))),
                        None => None,
                    },
                    Message::Ack(_, length) => match ack_spec(m, id, length, d) {
                        Some((m2, o)) => Some((m2, o, None)),
                        None => None,
                    },
                }
            }
        },
    }
}

/// The application sends `text` on session `id` at `now`; see `send_spec`.
/// `None` also where a retransmission deadline is due and past the clock's
/// range.
pub open spec fn app_send_spec(m: Map<i32, SessionView>, id: i32, text: Seq<char>, now: u64, rtx_to: u64) -> Option<
    (Map<i32, SessionView>, Seq<OutputView>),
> {
    if m.contains_key(id) && m[id].rtx_deadline is None && now + rtx_to > u64::MAX {
        None
    } else {
        send_spec(m, id, text, (now + rtx_to) as u64)
    }
}

/// Session `id`'s retransmission timer fires at `now`; see `rtx_spec`.
pub open spec fn rtx_timeout_spec(m: Map<i32, SessionView>, id: i32, now: u64, rtx_to: u64) -> Option<
    (Map<i32, SessionView>, Seq<OutputView>),
> {
    if m.contains_key(id) && now + rtx_to > u64::MAX {
        None
    } else {
        rtx_spec(m, id, (now + rtx_to) as u64)
    }
}

impl Sessions {
    /// A datagram from a peer arrives at `now` (milliseconds); see
    /// `udp_spec`. The second part of the result names the session that
    /// awaits `data_reply`.
    pub fn process_udp(&mut self, buf: &[u8], now: u64) -> (r: Option<(Vec<Output>, Option<i32>)>)
        ensures
            match r {
                Some((out, pending)) => udp_spec(old(self).state(), buf@, now, old(self).session_timeout())
                    == Some((final(self).state(), outputs_view(out@), pending)),
                None => udp_spec(old(self).state(), buf@, now, old(self).session_timeout()) is None,
            },
            final(self).rtx_timeout() == old(self).rtx_timeout(),
            final(self).session_timeout() == old(self).session_timeout(),
    {
        let decoded = match try_decode(buf) {
            None => {
                return None;
            },
            Some(Err(_)) => {
                return Some((Vec::new(), None));
            },
            Some(Ok(d)) => d,
        };
        let id = match &decoded {
            Decoded::Connect(c) => c.session,
            Decoded::Close(c) => c.session,
            Decoded::Ack(a) => a.session,
            Decoded::Data(d) => d.session,
        };
        let exists = match self.get(id) {
            Some(_) => true,
            None => false,
        };
        let needs_clock = match &decoded {
            Decoded::Connect(_) => !exists,
            Decoded::Close(_) => false,
            _ => exists,
        };
        let deadline = match now.checked_add(self.session_to) {
            Some(d) => d,
            None => {
                if needs_clock {
                    return None;
                }
                0
            },
        };
        assert(!needs_clock || deadline == now + self.session_timeout());
        match decoded {
            Decoded::Connect(_) => Some((self.on_connect(id, deadline), None)),
            Decoded::Close(_) => Some((self.close(id), None)),
            Decoded::Data(d) => match self.on_data(id, d.pos, &d.data, deadline) {
                Some(out) => Some((out, Some(id))),
                None => None,
            },
            Decoded::Ack(a) => match self.on_ack(id, a.length, deadline) {
                Some(out) => Some((out, None)),
                None => None,
            },
        }
    }

    /// The application sends `text` on session `id` at `now`; see
    /// `app_send_spec`.
    pub fn send(&mut self, id: i32, text: &str, now: u64) -> (r: Option<Vec<Output>>)
        ensures
            match r {
                Some(out) => app_send_spec(old(self).state(), id, text@, now, old(self).rtx_timeout())
                    == Some((final(self).state(), outputs_view(out@))),
                None => app_send_spec(old(self).state(), id, text@, now, old(self).rtx_timeout()) is None,
            },
            final(self).rtx_timeout() == old(self).rtx_timeout(),
            final(self).session_timeout() == old(self).session_timeout(),
    {
        let mut out: Vec<Output> = Vec::new();
        match self.take(id) {
            None => {
                assert(self.state() =~= old(self).state());
                Some(out)
            },
            Some(mut s) => {
                let deadline = match now.checked_add(self.rtx_to) {
                    Some(d) => d,
                    None => {
                        if s.rtx_deadline.is_none() {
                            self.put(s);
                            return None;
                        }
                        0
                    },
                };
                let b = str_bytes(text);
                if !check_cuts(b) || b.len() > (i32::MAX - s.next_pos) as usize {
                    self.put(s);
                    return None;
                }
                proof {
                    encode_utf8_valid_utf8(text@);
                }
                send_data(id, s.next_pos, b, &mut out);
                s.next_pos = s.next_pos + b.len() as i32;
                let ghost old_out = s.outstanding@;
                push_all(&mut s.outstanding, b);
                proof {
                    vstd::utf8::valid_utf8_concat(old_out, b@);
                }
                if s.rtx_deadline.is_none() {
                    s.rtx_deadline = Some(deadline);
                }
                self.put(s);
                Some(out)
            },
        }
    }

    /// Session `id`'s retransmission timer fires at `now`; see
    /// `rtx_timeout_spec`.
    pub fn rtx_timeout_fired(&mut self, id: i32, now: u64) -> (r: Option<Vec<Output>>)
        ensures
            match r {
                Some(out) => rtx_timeout_spec(old(self).state(), id, now, old(self).rtx_timeout())
                    == Some((final(self).state(), outputs_view(out@))),
                None => rtx_timeout_spec(old(self).state(), id, now, old(self).rtx_timeout()) is None,
            },
            final(self).rtx_timeout() == old(self).rtx_timeout(),
            final(self).session_timeout() == old(self).session_timeout(),
    {
        let mut out: Vec<Output> = Vec::new();
        match self.take(id) {
            None => {
                assert(self.state() =~= old(self).state());
                Some(out)
            },
            Some(mut s) => {
                let deadline = match now.checked_add(self.rtx_to) {
                    Some(d) => d,
                    None => {
                        self.put(s);
                        return None;
                    },
                };
                if !check_cuts(s.outstanding.as_slice()) {
                    self.put(s);
                    return None;
                }
                let first = s.next_pos - s.outstanding.len() as i32;
                send_data(id, first, s.outstanding.as_slice(), &mut out);
                s.rtx_deadline = Some(deadline);
                self.put(s);
                Some(out)
            },
        }
    }
}

/// Which timer of a session.
#[derive(Debug, Clone, Copy, PartialEq, Eq)]
pub enum TimeoutKind {
    Rtx,
    Session,
}

/// The deadline of a timer found, or zero.
pub open spec fn first_due(t: Option<(u64, i32, TimeoutKind)>) -> u64 {
    match t {
        Some((d, _, _)) => d,
        None => 0,
    }
}

/// The deadline of a session's timer, where it is armed.
pub open spec fn deadline_of(s: SessionView, kind: TimeoutKind) -> Option<u64> {
    match kind {
        TimeoutKind::Rtx => s.rtx_deadline,
        TimeoutKind::Session => s.session_deadline,
    }
}

impl Sessions {
    /// The earliest armed timer of all sessions: its deadline, its session
    /// and which timer it is; `None` where no timer is armed. Of timers due
    /// at the same time, any may be given.
    pub fn next_timeout(&self) -> (r: Option<(u64, i32, TimeoutKind)>)
        ensures
            match r {
                None => forall|id: i32, kind: TimeoutKind|
                    #[trigger] self.state().contains_key(id) ==> #[trigger] deadline_of(self.state()[id], kind) is None,
                Some((d, id, kind)) => {
                    &&& self.state().contains_key(id)
                    &&& deadline_of(self.state()[id], kind) == Some(d)
                    &&& forall|id2: i32, kind2: TimeoutKind|
                        #[trigger] self.state().contains_key(id2) && #[trigger] deadline_of(self.state()[id2], kind2) is Some
                            ==> d <= deadline_of(self.state()[id2], kind2)->0
                },
            },
    {
        let ghost m = self.sessions@;
        let mut best: Option<(u64, i32, TimeoutKind)> = None;
        for (id, s) in it: self.sessions.iter()
            invariant
                m == self.sessions@,
                it.seq().len() == m.dom().len(),
                forall|i: int|
                    0 <= i < it.seq().len() ==> #[trigger] m.contains_key(*it.seq()[i].0) && m[*it.seq()[i].0]
                        == *it.seq()[i].1,
                forall|k: i32| #[trigger] m.contains_key(k) ==> it.seq().contains((&k, &m[k])),
                best matches Some((d, bid, bkind)) ==> m.contains_key(bid) && deadline_of(m[bid]@, bkind)
                    == Some(d),
                forall|k: i32, kind: TimeoutKind|
                    #[trigger] m.contains_key(k) && #[trigger] deadline_of(m[k]@, kind) is Some ==> (exists|i: int|
                        it.index() <= i < it.seq().len() && *it.seq()[i].0 == k) || (best is Some
                        && first_due(best) <= deadline_of(m[k]@, kind)->0),
        {
            let ghost idx = it.index();
            let ghost k0 = *it.seq()[idx].0;
            assert(m.contains_key(k0));
            let ghost old_best = best;
            if let Some(t) = s.rtx_deadline {
                let better = match best {
                    None => true,
                    Some((d, _, _)) => t < d,
                };
                if better {
                    best = Some((t, *id, TimeoutKind::Rtx));
                }
            }
            if let Some(t) = s.session_deadline {
                let better = match best {
                    None => true,
                    Some((d, _, _)) => t < d,
                };
                if better {
                    best = Some((t, *id, TimeoutKind::Session));
                }
            }
            proof {
                assert forall|k: i32, kind: TimeoutKind|
                    #[trigger] m.contains_key(k) && #[trigger] deadline_of(m[k]@, kind) is Some implies (exists|i: int|
                        idx + 1 <= i < it.seq().len() && *it.seq()[i].0 == k) || (best is Some
                        && first_due(best) <= deadline_of(m[k]@, kind)->0) by {
                    if k == k0 {
                        assert(kind == TimeoutKind::Rtx || kind == TimeoutKind::Session);
                    } else if !(old_best is Some && first_due(old_best) <= deadline_of(m[k]@, kind)->0) {
                        let i = choose|i: int| idx <= i < it.seq().len() && *it.seq()[i].0 == k;
                        assert(i != idx);
                        assert(idx + 1 <= i < it.seq().len() && *it.seq()[i].0 == k);
                    }
                }
            }
        }
        best
    }
}

/// A session's armed timers, as deadline, session and kind: the
/// retransmission timer first, then the session timer.
pub open spec fn session_timers(s: SessionView) -> Seq<(u64, i32, TimeoutKind)> {
    let rtx = match s.rtx_deadline {
        Some(d) => seq![(d, s.id, TimeoutKind::Rtx)],
        None => seq![],
    };
    match s.session_deadline {
        Some(d) => rtx.push((d, s.id, TimeoutKind::Session)),
        None => rtx,
    }
}

impl Session {
    /// The session's armed timers.
    pub fn timeouts(&self) -> (r: Vec<(u64, i32, TimeoutKind)>)
        ensures
            r@ == session_timers(self@),
    {
        let mut r: Vec<(u64, i32, TimeoutKind)> = Vec::new();
        if let Some(d) = self.rtx_deadline {
            r.push((d, self.id, TimeoutKind::Rtx));
        }
        if let Some(d) = self.session_deadline {
            r.push((d, self.id, TimeoutKind::Session));
        }
        assert(r@ =~= session_timers(self@));
        r
    }
}

impl Sessions {
    /// Every armed timer of every session, each once, in no particular
    /// order.
    pub fn timeouts(&self) -> (r: Vec<(u64, i32, TimeoutKind)>)
        ensures
            r@.no_duplicates(),
            forall|t: (u64, i32, TimeoutKind)| #[trigger] r@.contains(t) <==> {
                &&& self.state().contains_key(t.1)
                &&& deadline_of(self.state()[t.1], t.2) == Some(t.0)
            },
    {
        proof {
            use_type_invariant(self);
        }
        let ghost m = self.sessions@;
        let mut all: Vec<(u64, i32, TimeoutKind)> = Vec::new();
        for (id, s) in it: self.sessions.iter()
            invariant
                m == self.sessions@,
                forall|k: i32| #[trigger] m.contains_key(k) ==> session_ok(k, m[k]@),
                it.seq().len() == m.dom().len(),
                it.seq().no_duplicates(),
                all@.no_duplicates(),
                forall|t: (u64, i32, TimeoutKind)| #[trigger] all@.contains(t) ==> exists|i: int|
                    0 <= i < it.index() && *it.seq()[i].0 == t.1,
                forall|i: int|
                    0 <= i < it.seq().len() ==> #[trigger] m.contains_key(*it.seq()[i].0) && m[*it.seq()[i].0]
                        == *it.seq()[i].1,
                forall|k: i32| #[trigger] m.contains_key(k) ==> it.seq().contains((&k, &m[k])),
                forall|t: (u64, i32, TimeoutKind)| #[trigger] all@.contains(t) ==> {
                    &&& m.contains_key(t.1)
                    &&& deadline_of(m[t.1]@, t.2) == Some(t.0)
                },
                forall|k: i32, kind: TimeoutKind|
                    #[trigger] m.contains_key(k) && #[trigger] deadline_of(m[k]@, kind) is Some ==> (exists|i: int|
                        it.index() <= i < it.seq().len() && *it.seq()[i].0 == k) || all@.contains(
                        (deadline_of(m[k]@, kind)->0, k, kind),
                    ),
        {
            let ghost idx = it.index();
            let ghost k0 = *it.seq()[idx].0;
            let ghost before = all@;
            assert(m.contains_key(k0) && m[k0] == *s);
            let mut mine = s.timeouts();
            let ghost timers = mine@;
            all.append(&mut mine);
            proof {
                assert(all@ == before + timers);
                assert forall|j: int| 0 <= j < before.len() implies before[j].1 != k0 by {
                    let t = before[j];
                    assert(before.contains(t));
                    let i = choose|i: int| 0 <= i < idx && *it.seq()[i].0 == t.1;
                    if t.1 == k0 {
                        assert(m.contains_key(*it.seq()[i].0));
                        assert(*it.seq()[i].1 == *it.seq()[idx].1);
                        assert(it.seq()[i] == it.seq()[idx]);
                    }
                }
                assert forall|j: int| 0 <= j < timers.len() implies timers[j].1 == k0 by {}
                assert(timers.no_duplicates());
                assert(all@.no_duplicates()) by {
                    assert forall|a: int, b: int| 0 <= a < b < all@.len() implies all@[a] != all@[b] by {
                        if b < before.len() {
                        } else if a >= before.len() {
                            assert(all@[a] == timers[a - before.len()]);
                            assert(all@[b] == timers[b - before.len()]);
                        } else {
                            assert(all@[a] == before[a]);
                            assert(all@[b] == timers[b - before.len()]);
                        }
                    }
                }
                assert forall|t: (u64, i32, TimeoutKind)| #[trigger] all@.contains(t) implies exists|i: int|
                    0 <= i < idx + 1 && *it.seq()[i].0 == t.1 by {
                    let j = choose|j: int| 0 <= j < all@.len() && all@[j] == t;
                    if j < before.len() {
                        assert(before[j] == t);
                        assert(before.contains(t));
                        let i = choose|i: int| 0 <= i < idx && *it.seq()[i].0 == t.1;
                        assert(0 <= i < idx + 1 && *it.seq()[i].0 == t.1);
                    } else {
                        assert(timers[j - before.len()] == t);
                        assert(*it.seq()[idx].0 == t.1);
                    }
                }
                assert forall|t: (u64, i32, TimeoutKind)| #[trigger] all@.contains(t) implies {
                    &&& m.contains_key(t.1)
                    &&& deadline_of(m[t.1]@, t.2) == Some(t.0)
                } by {
                    if !before.contains(t) {
                        let j = choose|j: int| 0 <= j < all@.len() && all@[j] == t;
                        assert(timers.contains(t)) by {
                            assert(timers[j - before.len()] == t);
                        }
                    }
                }
                assert forall|k: i32, kind: TimeoutKind|
                    #[trigger] m.contains_key(k) && #[trigger] deadline_of(m[k]@, kind) is Some implies (exists|i: int|
                        idx + 1 <= i < it.seq().len() && *it.seq()[i].0 == k) || all@.contains(
                        (deadline_of(m[k]@, kind)->0, k, kind),
                    ) by {
                    let t = (deadline_of(m[k]@, kind)->0, k, kind);
                    if k == k0 {
                        if kind == TimeoutKind::Rtx {
                            assert(timers[0] == t);
                            assert(all@[before.len() as int] == t);
                        } else {
                            assert(timers.last() == t);
                            assert(all@[all@.len() - 1] == t);
                        }
                    } else if before.contains(t) {
                        let j = choose|j: int| 0 <= j < before.len() && before[j] == t;
                        assert(all@[j] == t);
                    } else {
                        let i = choose|i: int| idx <= i < it.seq().len() && *it.seq()[i].0 == k;
                        assert(i != idx);
                    }
                }
            }
        }
        all
    }
}

/// Acknowledging everything a session has sent leaves nothing outstanding
/// and sends nothing again.
pub proof fn lemma_ack_everything(m: Map<i32, SessionView>, id: i32, deadline: u64)
    requires
        m.contains_key(id),
        session_ok(id, m[id]),
    ensures
        ack_spec(m, id, m[id].next_pos, deadline) matches Some((m2, out)) && {
            &&& m2.contains_key(id)
            &&& m2[id].outstanding.len() == 0
            &&& out.len() == 0
        },
{
    let m1 = touched(m, id, deadline);
    let s = m1[id];
    assert(s.outstanding.subrange(s.outstanding.len() as int, s.outstanding.len() as int)
        =~= Seq::<u8>::empty());
}

/// What the application sends becomes outstanding after what was, and an
/// acknowledgement of all of it clears it.
pub proof fn lemma_send_then_ack(
    m: Map<i32, SessionView>,
    id: i32,
    text: Seq<char>,
    d1: u64,
    d2: u64,
)
    requires
        m.contains_key(id),
        session_ok(id, m[id]),
        send_spec(m, id, text, d1) is Some,
    ensures
        send_spec(m, id, text, d1) matches Some((m2, _)) && {
            &&& m2[id].outstanding == m[id].outstanding + encode_utf8(text)
            &&& m2[id].next_pos == m[id].next_pos + encode_utf8(text).len()
            &&& ack_spec(m2, id, m2[id].next_pos, d2) matches Some((m3, out)) && {
                &&& m3[id].outstanding.len() == 0
                &&& out.len() == 0
            }
        },
{
    let m2 = match send_spec(m, id, text, d1) {
        Some((m2, _)) => m2,
        None => m,
    };
    encode_utf8_valid_utf8(text);
    vstd::utf8::valid_utf8_concat(m[id].outstanding, encode_utf8(text));
    lemma_ack_everything(m2, id, d2);
}

proof fn lemma_empty_valid()
    ensures
        valid_utf8(Seq::<u8>::empty()),
{
}


/// Data from the peer is passed on in order and once: a data message for
/// an open session passes its text on, and adds its length in bytes to
/// what the session acknowledges, exactly when its position is that
/// length; at any other position, or for no session, nothing is passed on
/// and the acknowledged length stays.
pub proof fn lemma_data_in_order(
    m: Map<i32, SessionView>,
    buf: Seq<u8>,
    now: u64,
    session_to: u64,
    id: i32,
    pos: i32,
    text: Seq<char>,
)
    requires
        decode_spec(buf) == Some(Ok::<Message, DecodeError>(Message::Data(id, pos, text))),
        udp_spec(m, buf, now, session_to) is Some,
    ensures
        udp_spec(m, buf, now, session_to) matches Some((m2, out, pending)) && {
            &&& pending == Some(id)
            &&& m2.contains_key(id) == m.contains_key(id)
            &&& (m.contains_key(id) && pos == m[id].last_ack_sent) ==> {
                &&& out.len() == 1
                &&& out[0] == OutputView::Deliver(id, text)
                &&& m2[id].last_ack_sent == m[id].last_ack_sent + encode_utf8(text).len()
            }
            &&& !(m.contains_key(id) && pos == m[id].last_ack_sent) ==> {
                &&& out.len() == 0
                &&& m.contains_key(id) ==> m2[id].last_ack_sent == m[id].last_ack_sent
            }
        },
{
}

/// The same data arriving twice is passed on at most once: once it has
/// been passed on, the session acknowledges past its position, and the
/// repeat passes nothing on.
pub proof fn lemma_data_repeat(
    m: Map<i32, SessionView>,
    buf: Seq<u8>,
    now: u64,
    later: u64,
    session_to: u64,
    id: i32,
    pos: i32,
    text: Seq<char>,
)
    requires
        decode_spec(buf) == Some(Ok::<Message, DecodeError>(Message::Data(id, pos, text))),
        text.len() > 0,
        udp_spec(m, buf, now, session_to) matches Some((m2, out, _)) && out.len() > 0 && udp_spec(
            m2,
            buf,
            later,
            session_to,
        ) is Some,
    ensures
        udp_spec(m, buf, now, session_to) matches Some((m2, _, _)) && udp_spec(m2, buf, later, session_to) matches Some(
            (m3, out2, _),
        ) && out2.len() == 0 && m3[id].last_ack_sent == m2[id].last_ack_sent,
{
    lemma_data_in_order(m, buf, now, session_to, id, pos, text);
    let first = udp_spec(m, buf, now, session_to)->0;
    let m2 = first.0;
    lemma_data_in_order(m2, buf, later, session_to, id, pos, text);
    encode_utf8_valid_utf8(text);
    assert(encode_utf8(text).len() > 0) by {
        if encode_utf8(text).len() == 0 {
            encode_utf8_decode_utf8(text);
            assert(encode_utf8(text) =~= Seq::<u8>::empty());
            assert(decode_utf8(Seq::<u8>::empty()) =~= Seq::<char>::empty());
        }
    }
}

} // verus!
