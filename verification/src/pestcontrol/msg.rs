//! The messages of the pest control protocol. A message is a type byte,
//! its total length as a `u32`, its body, and a checksum byte that makes
//! all its bytes sum to zero.
use crate::pestcontrol::{
    action_byte, action_decoded, decode_pops, decode_str_at, decode_tps, drop_end,
    lemma_pops_from_end, lemma_pops_roundtrip, lemma_str_decoded_prefix, lemma_tps_from_end,
    lemma_tps_roundtrip, lemma_u32_decoded_prefix, pops_encoded, pops_fit, pops_with_end,
    push_str, str_decoded, str_encoded, str_fits, tps_encoded, tps_fit, tps_with_end,
    u32_decoded, Action, Decodable, Error, Population, TargetPopulation,
};
use crate::util::{
    be_u32_at, lemma_ascii_valid, push_all, push_u32, read_u32, string_bytes, string_from_valid,
    u32_bytes,
};
use vstd::prelude::*;
use vstd::utf8::*;

verus! {

broadcast use vstd::seq_lib::group_seq_properties;

/// A message as plain values.
pub enum MsgView {
    Hello(Seq<char>, u32),
    OkReply,
    Error(Seq<char>),
    DialAuth(u32),
    TargetPopulations(u32, Seq<(Seq<char>, u32, u32)>),
    CreatePolicy(Seq<char>, Action),
    DeletePolicy(u32),
    PolicyResult(u32),
    SiteVisit(u32, Seq<(Seq<char>, u32)>),
}

#[derive(PartialEq, Debug, Clone)]
pub enum Msg {
    Hello(Hello),
    OkReply,
    Error(ErrorMsg),
    DialAuth(DialAuth),
    TargetPopulations(TargetPopulations),
    CreatePolicy(CreatePolicy),
    DeletePolicy(Policy),
    PolicyResult(Policy),
    SiteVisit(SiteVisit),
}

#[derive(PartialEq, Debug, Clone)]
pub struct Hello {
    pub protocol: String,
    pub version: u32,
}

#[derive(PartialEq, Debug, Clone)]
pub struct ErrorMsg {
    pub message: String,
}

#[derive(PartialEq, Debug, Clone)]
pub struct DialAuth {
    pub site: u32,
}

#[derive(PartialEq, Debug, Clone)]
pub struct TargetPopulations {
    pub site: u32,
    pub populations: Vec<TargetPopulation>,
}

#[derive(PartialEq, Debug, Clone)]
pub struct CreatePolicy {
    pub species: String,
    pub action: Action,
}

#[derive(PartialEq, Debug, Clone)]
pub struct Policy {
    pub policy: u32,
}

#[derive(PartialEq, Debug, Clone)]
pub struct SiteVisit {
    pub site: u32,
    pub populations: Vec<Population>,
}

impl DeepView for Hello {
    type V = (Seq<char>, u32);

    open spec fn deep_view(&self) -> (Seq<char>, u32) {
        (self.protocol@, self.version)
    }
}

impl DeepView for ErrorMsg {
    type V = Seq<char>;

    open spec fn deep_view(&self) -> Seq<char> {
        self.message@
    }
}

impl DeepView for DialAuth {
    type V = u32;

    open spec fn deep_view(&self) -> u32 {
        self.site
    }
}

impl DeepView for TargetPopulations {
    type V = (u32, Seq<(Seq<char>, u32, u32)>);

    open spec fn deep_view(&self) -> (u32, Seq<(Seq<char>, u32, u32)>) {
        (self.site, self.populations.deep_view())
    }
}

impl DeepView for CreatePolicy {
    type V = (Seq<char>, Action);

    open spec fn deep_view(&self) -> (Seq<char>, Action) {
        (self.species@, self.action)
    }
}

impl DeepView for Policy {
    type V = u32;

    open spec fn deep_view(&self) -> u32 {
        self.policy
    }
}

impl DeepView for SiteVisit {
    type V = (u32, Seq<(Seq<char>, u32)>);

    open spec fn deep_view(&self) -> (u32, Seq<(Seq<char>, u32)>) {
        (self.site, self.populations.deep_view())
    }
}

impl DeepView for Msg {
    type V = MsgView;

    open spec fn deep_view(&self) -> MsgView {
        match self {
            Msg::Hello(h) => MsgView::Hello(h.protocol@, h.version),
            Msg::OkReply => MsgView::OkReply,
            Msg::Error(e) => MsgView::Error(e.message@),
            Msg::DialAuth(d) => MsgView::DialAuth(d.site),
            Msg::TargetPopulations(t) => MsgView::TargetPopulations(
                t.site,
                t.populations.deep_view(),
            ),
            Msg::CreatePolicy(c) => MsgView::CreatePolicy(c.species@, c.action),
            Msg::DeletePolicy(p) => MsgView::DeletePolicy(p.policy),
            Msg::PolicyResult(p) => MsgView::PolicyResult(p.policy),
            Msg::SiteVisit(s) => MsgView::SiteVisit(s.site, s.populations.deep_view()),
        }
    }
}

// ---------------------------------------------------------------------------
// Layouts of the bodies
// ---------------------------------------------------------------------------

/// `pestcontrol`.
pub open spec fn protocol_name() -> Seq<u8> {
    seq![112u8, 101u8, 115u8, 116u8, 99u8, 111u8, 110u8, 116u8, 114u8, 111u8, 108u8]
}

const PROTOCOL_NAME: [u8; 11] = [112, 101, 115, 116, 99, 111, 110, 116, 114, 111, 108];

/// Hello: the protocol name, then the version; nothing after.
pub open spec fn hello_decoded(buf: Seq<u8>) -> Result<(Seq<char>, u32), Error> {
    match str_decoded(buf) {
        Err(e) => Err(e),
        Ok(p) => {
            let off = 4 + encode_utf8(p).len() as int;
            match u32_decoded(buf.subrange(off, buf.len() as int)) {
                Err(e) => Err(e),
                Ok(v) => if off + 4 != buf.len() {
                    Err(Error::InvalidLength)
                } else {
                    Ok((p, v))
                },
            }
        },
    }
}

/// An error: the message; nothing after.
pub open spec fn error_decoded(buf: Seq<u8>) -> Result<Seq<char>, Error> {
    match str_decoded(buf) {
        Err(e) => Err(e),
        Ok(m) => if 4 + encode_utf8(m).len() != buf.len() {
            Err(Error::InvalidLength)
        } else {
            Ok(m)
        },
    }
}

/// A `u32` and nothing after.
pub open spec fn single_u32_decoded(buf: Seq<u8>) -> Result<u32, Error> {
    match u32_decoded(buf) {
        Err(e) => Err(e),
        Ok(v) => if buf.len() != 4 {
            Err(Error::InvalidLength)
        } else {
            Ok(v)
        },
    }
}

/// Target populations: the site, then the list; nothing after.
pub open spec fn target_populations_decoded(buf: Seq<u8>) -> Result<
    (u32, Seq<(Seq<char>, u32, u32)>),
    Error,
> {
    match u32_decoded(buf) {
        Err(e) => Err(e),
        Ok(site) => match drop_end(tps_with_end(buf.subrange(4, buf.len() as int))) {
            Err(e) => Err(e),
            Ok(pops) => if 4 + tps_encoded(pops).len() != buf.len() {
                Err(Error::InvalidLength)
            } else {
                Ok((site, pops))
            },
        },
    }
}

/// Create policy: the species, then the action; nothing after.
pub open spec fn create_policy_decoded(buf: Seq<u8>) -> Result<(Seq<char>, Action), Error> {
    match str_decoded(buf) {
        Err(e) => Err(e),
        Ok(sp) => {
            let off = 4 + encode_utf8(sp).len() as int;
            match action_decoded(buf.subrange(off, buf.len() as int)) {
                Err(e) => Err(e),
                Ok(a) => if off + 1 != buf.len() {
                    Err(Error::InvalidLength)
                } else {
                    Ok((sp, a))
                },
            }
        },
    }
}

/// Site visit: the site, then the list of populations; nothing after.
pub open spec fn site_visit_decoded(buf: Seq<u8>) -> Result<(u32, Seq<(Seq<char>, u32)>), Error> {
    match u32_decoded(buf) {
        Err(e) => Err(e),
        Ok(site) => match drop_end(pops_with_end(buf.subrange(4, buf.len() as int))) {
            Err(e) => Err(e),
            Ok(pops) => if 4 + pops_encoded(pops).len() != buf.len() {
                Err(Error::InvalidLength)
            } else {
                Ok((site, pops))
            },
        },
    }
}

/// The sum of the bytes.
pub open spec fn byte_sum(s: Seq<u8>) -> nat
    decreases s.len(),
{
    if s.len() == 0 {
        0
    } else {
        byte_sum(s.drop_last()) + s.last() as nat
    }
}

/// The bytes sum to zero, wrapping at 256.
pub open spec fn checksum_ok(s: Seq<u8>) -> bool {
    byte_sum(s) % 256 == 0
}

/// The byte that makes `s` sum to zero.
pub open spec fn checksum_byte(s: Seq<u8>) -> u8 {
    ((256 - byte_sum(s) % 256) % 256) as u8
}

/// The type byte and the body of a message.
pub open spec fn code_and_body(m: MsgView) -> (u8, Seq<u8>) {
    match m {
        MsgView::Hello(p, v) => (0x50u8, str_encoded(p) + u32_bytes(v)),
        MsgView::Error(e) => (0x51u8, str_encoded(e)),
        MsgView::OkReply => (0x52u8, Seq::empty()),
        MsgView::DialAuth(site) => (0x53u8, u32_bytes(site)),
        MsgView::TargetPopulations(site, pops) => (0x54u8, u32_bytes(site) + tps_encoded(pops)),
        MsgView::CreatePolicy(sp, a) => (0x55u8, str_encoded(sp) + seq![action_byte(a)]),
        MsgView::DeletePolicy(p) => (0x56u8, u32_bytes(p)),
        MsgView::PolicyResult(p) => (0x57u8, u32_bytes(p)),
        MsgView::SiteVisit(site, pops) => (0x58u8, u32_bytes(site) + pops_encoded(pops)),
    }
}

/// The bytes of a message before its checksum.
pub open spec fn msg_unsummed(m: MsgView) -> Seq<u8> {
    let (code, body) = code_and_body(m);
    seq![code] + u32_bytes((body.len() + 6) as u32) + body
}

/// The bytes of a message.
pub open spec fn msg_encoded(m: MsgView) -> Seq<u8> {
    msg_unsummed(m) + seq![checksum_byte(msg_unsummed(m))]
}

/// What decoding a whole message gives.
pub open spec fn msg_decoded(buf: Seq<u8>) -> Result<MsgView, Error> {
    if !checksum_ok(buf) {
        Err(Error::InvalidChecksum)
    } else {
        let code = buf[0];
        let body = buf.subrange(5, buf.len() - 1);
        if code == 0x50 {
            match hello_decoded(body) {
                Err(e) => Err(e),
                Ok((p, v)) => if encode_utf8(p) != protocol_name() || v != 1 {
                    Err(Error::InvalidProtocol)
                } else {
                    Ok(MsgView::Hello(p, v))
                },
            }
        } else if code == 0x51 {
            match error_decoded(body) {
                Err(e) => Err(e),
                Ok(m) => Ok(MsgView::Error(m)),
            }
        } else if code == 0x52 {
            Ok(MsgView::OkReply)
        } else if code == 0x53 {
            match single_u32_decoded(body) {
                Err(e) => Err(e),
                Ok(s) => Ok(MsgView::DialAuth(s)),
            }
        } else if code == 0x54 {
            match target_populations_decoded(body) {
                Err(e) => Err(e),
                Ok((s, p)) => Ok(MsgView::TargetPopulations(s, p)),
            }
        } else if code == 0x55 {
            match create_policy_decoded(body) {
                Err(e) => Err(e),
                Ok((sp, a)) => Ok(MsgView::CreatePolicy(sp, a)),
            }
        } else if code == 0x56 {
            match single_u32_decoded(body) {
                Err(e) => Err(e),
                Ok(p) => Ok(MsgView::DeletePolicy(p)),
            }
        } else if code == 0x57 {
            match single_u32_decoded(body) {
                Err(e) => Err(e),
                Ok(p) => Ok(MsgView::PolicyResult(p)),
            }
        } else if code == 0x58 {
            match site_visit_decoded(body) {
                Err(e) => Err(e),
                Ok((s, p)) => Ok(MsgView::SiteVisit(s, p)),
            }
        } else {
            Err(Error::InvalidMessage)
        }
    }
}

// ---------------------------------------------------------------------------
// Implementations
// ---------------------------------------------------------------------------

/// `a` and `b` hold the same bytes.
fn bytes_eq(a: &[u8], b: &[u8]) -> (r: bool)
    ensures
        r == (a@ == b@),
{
    if a.len() != b.len() {
        return false;
    }
    let mut i: usize = 0;
    while i < a.len()
        invariant
            i <= a@.len(),
            a@.len() == b@.len(),
            forall|j: int| 0 <= j < i ==> a@[j] == b@[j],
        decreases a@.len() - i,
    {
        if a[i] != b[i] {
            return false;
        }
        i = i + 1;
    }
    assert(a@ =~= b@);
    true
}

impl Default for Hello {
    fn default() -> (r: Self)
        ensures
            encode_utf8(r.protocol@) == protocol_name(),
            r.version == 1,
    {
        let name: &[u8] = &PROTOCOL_NAME;
        proof {
            assert(name@ =~= protocol_name());
            lemma_ascii_valid(name@);
        }
        Self { protocol: string_from_valid(name), version: 1 }
    }
}

impl Decodable for Hello {
    open spec fn decoded(buf: Seq<u8>) -> Result<(Seq<char>, u32), Error> {
        hello_decoded(buf)
    }

    open spec fn encoded(v: (Seq<char>, u32)) -> Seq<u8> {
        str_encoded(v.0) + u32_bytes(v.1)
    }

    open spec fn decodable(buf: Seq<u8>) -> bool {
        true
    }

    open spec fn encodable(v: (Seq<char>, u32)) -> bool {
        true
    }

    fn decode(buf: &[u8]) -> (r: Result<Self, Error>) {
        assert(buf@.subrange(0, buf@.len() as int) =~= buf@);
        let (protocol, off) = match decode_str_at(buf, 0) {
            Ok(x) => x,
            Err(e) => {
                return Err(e);
            },
        };
        let ghost t = buf@.subrange(off as int, buf@.len() as int);
        if buf.len() - off < 4 {
            return Err(Error::InvalidLength);
        }
        let version = read_u32(buf, off);
        assert(be_u32_at(t, 0) == version);
        if buf.len() - off != 4 {
            return Err(Error::InvalidLength);
        }
        Ok(Self { protocol, version })
    }

    fn encode(&self) -> (r: Vec<u8>) {
        let mut v: Vec<u8> = Vec::new();
        push_str(&mut v, &self.protocol);
        push_u32(&mut v, self.version);
        assert(v@ =~= str_encoded(self.protocol@) + u32_bytes(self.version));
        v
    }

    fn bytelen(&self) -> (r: usize) {
        let n = string_bytes(&self.protocol).len();
        4 + n + 4
    }
}

impl ErrorMsg {
    pub fn new(message: &str) -> (r: Self)
        ensures
            r.message@ == message@,
    {
        Self { message: message.to_owned() }
    }

    /// The error message that reports `error`.
    pub fn from_error(error: &Error) -> (r: Self)
        ensures
            r.message@ == crate::pestcontrol::error_text(*error),
    {
        Self { message: error.message() }
    }
}

impl Decodable for ErrorMsg {
    open spec fn decoded(buf: Seq<u8>) -> Result<Seq<char>, Error> {
        error_decoded(buf)
    }

    open spec fn encoded(v: Seq<char>) -> Seq<u8> {
        str_encoded(v)
    }

    open spec fn decodable(buf: Seq<u8>) -> bool {
        true
    }

    open spec fn encodable(v: Seq<char>) -> bool {
        true
    }

    fn decode(buf: &[u8]) -> (r: Result<Self, Error>) {
        assert(buf@.subrange(0, buf@.len() as int) =~= buf@);
        let (message, off) = match decode_str_at(buf, 0) {
            Ok(x) => x,
            Err(e) => {
                return Err(e);
            },
        };
        if off != buf.len() {
            return Err(Error::InvalidLength);
        }
        Ok(Self { message })
    }

    fn encode(&self) -> (r: Vec<u8>) {
        let mut v: Vec<u8> = Vec::new();
        push_str(&mut v, &self.message);
        assert(v@ =~= str_encoded(self.message@));
        v
    }

    fn bytelen(&self) -> (r: usize) {
        let n = string_bytes(&self.message).len();
        4 + n
    }
}

/// A `u32` body with nothing after it.
fn decode_single_u32(buf: &[u8]) -> (r: Result<u32, Error>)
    ensures
        match r {
            Ok(v) => single_u32_decoded(buf@) == Ok::<u32, Error>(v),
            Err(e) => single_u32_decoded(buf@) == Err::<u32, Error>(e),
        },
{
    if buf.len() < 4 {
        return Err(Error::InvalidLength);
    }
    let v = read_u32(buf, 0);
    if buf.len() != 4 {
        return Err(Error::InvalidLength);
    }
    Ok(v)
}

fn encode_u32(v: u32) -> (r: Vec<u8>)
    ensures
        r@ == u32_bytes(v),
{
    let mut out: Vec<u8> = Vec::new();
    push_u32(&mut out, v);
    assert(out@ =~= u32_bytes(v));
    out
}

impl Decodable for DialAuth {
    open spec fn decoded(buf: Seq<u8>) -> Result<u32, Error> {
        single_u32_decoded(buf)
    }

    open spec fn encoded(v: u32) -> Seq<u8> {
        u32_bytes(v)
    }

    open spec fn decodable(buf: Seq<u8>) -> bool {
        true
    }

    open spec fn encodable(v: u32) -> bool {
        true
    }

    fn decode(buf: &[u8]) -> (r: Result<Self, Error>) {
        match decode_single_u32(buf) {
            Ok(site) => Ok(Self { site }),
            Err(e) => Err(e),
        }
    }

    fn encode(&self) -> (r: Vec<u8>) {
        encode_u32(self.site)
    }

    fn bytelen(&self) -> (r: usize) {
        4
    }
}

impl Decodable for Policy {
    open spec fn decoded(buf: Seq<u8>) -> Result<u32, Error> {
        single_u32_decoded(buf)
    }

    open spec fn encoded(v: u32) -> Seq<u8> {
        u32_bytes(v)
    }

    open spec fn decodable(buf: Seq<u8>) -> bool {
        true
    }

    open spec fn encodable(v: u32) -> bool {
        true
    }

    fn decode(buf: &[u8]) -> (r: Result<Self, Error>) {
        match decode_single_u32(buf) {
            Ok(policy) => Ok(Self { policy }),
            Err(e) => Err(e),
        }
    }

    fn encode(&self) -> (r: Vec<u8>) {
        encode_u32(self.policy)
    }

    fn bytelen(&self) -> (r: usize) {
        4
    }
}

impl Decodable for TargetPopulations {
    open spec fn decoded(buf: Seq<u8>) -> Result<(u32, Seq<(Seq<char>, u32, u32)>), Error> {
        target_populations_decoded(buf)
    }

    open spec fn encoded(v: (u32, Seq<(Seq<char>, u32, u32)>)) -> Seq<u8> {
        u32_bytes(v.0) + tps_encoded(v.1)
    }

    open spec fn decodable(buf: Seq<u8>) -> bool {
        true
    }

    open spec fn encodable(v: (u32, Seq<(Seq<char>, u32, u32)>)) -> bool {
        true
    }

    fn decode(buf: &[u8]) -> (r: Result<Self, Error>) {
        if buf.len() < 4 {
            return Err(Error::InvalidLength);
        }
        let site = read_u32(buf, 0);
        let rest = vstd::slice::slice_subrange(buf, 4, buf.len());
        let (populations, end) = match decode_tps(rest) {
            Ok(x) => x,
            Err(e) => {
                return Err(e);
            },
        };
        proof {
            let n = be_u32_at(rest@, 0);
            lemma_tps_from_end(rest@, 4, n as nat);
        }
        if 4 + end != buf.len() {
            return Err(Error::InvalidLength);
        }
        Ok(Self { site, populations })
    }

    fn encode(&self) -> (r: Vec<u8>) {
        let mut buf = encode_u32(self.site);
        let body = self.populations.encode();
        push_all(&mut buf, body.as_slice());
        buf
    }

    fn bytelen(&self) -> (r: usize) {
        4 + self.populations.bytelen()
    }
}

impl Decodable for CreatePolicy {
    open spec fn decoded(buf: Seq<u8>) -> Result<(Seq<char>, Action), Error> {
        create_policy_decoded(buf)
    }

    open spec fn encoded(v: (Seq<char>, Action)) -> Seq<u8> {
        str_encoded(v.0) + seq![action_byte(v.1)]
    }

    open spec fn decodable(buf: Seq<u8>) -> bool {
        true
    }

    open spec fn encodable(v: (Seq<char>, Action)) -> bool {
        true
    }

    fn decode(buf: &[u8]) -> (r: Result<Self, Error>) {
        assert(buf@.subrange(0, buf@.len() as int) =~= buf@);
        let (species, off) = match decode_str_at(buf, 0) {
            Ok(x) => x,
            Err(e) => {
                return Err(e);
            },
        };
        let rest = vstd::slice::slice_subrange(buf, off, buf.len());
        let action = match Action::decode(rest) {
            Ok(a) => a,
            Err(e) => {
                return Err(e);
            },
        };
        if buf.len() - off != 1 {
            return Err(Error::InvalidLength);
        }
        Ok(Self { species, action })
    }

    fn encode(&self) -> (r: Vec<u8>) {
        let mut buf: Vec<u8> = Vec::new();
        push_str(&mut buf, &self.species);
        let a = self.action.encode();
        push_all(&mut buf, a.as_slice());
        buf
    }

    fn bytelen(&self) -> (r: usize) {
        let n = string_bytes(&self.species).len();
        4 + n + 1
    }
}

impl Decodable for SiteVisit {
    open spec fn decoded(buf: Seq<u8>) -> Result<(u32, Seq<(Seq<char>, u32)>), Error> {
        site_visit_decoded(buf)
    }

    open spec fn encoded(v: (u32, Seq<(Seq<char>, u32)>)) -> Seq<u8> {
        u32_bytes(v.0) + pops_encoded(v.1)
    }

    open spec fn decodable(buf: Seq<u8>) -> bool {
        true
    }

    open spec fn encodable(v: (u32, Seq<(Seq<char>, u32)>)) -> bool {
        true
    }

    fn decode(buf: &[u8]) -> (r: Result<Self, Error>) {
        if buf.len() < 4 {
            return Err(Error::InvalidLength);
        }
        let site = read_u32(buf, 0);
        let rest = vstd::slice::slice_subrange(buf, 4, buf.len());
        let (populations, end) = match decode_pops(rest) {
            Ok(x) => x,
            Err(e) => {
                return Err(e);
            },
        };
        proof {
            let n = be_u32_at(rest@, 0);
            lemma_pops_from_end(rest@, 4, n as nat);
        }
        if 4 + end != buf.len() {
            return Err(Error::InvalidLength);
        }
        Ok(Self { site, populations })
    }

    fn encode(&self) -> (r: Vec<u8>) {
        let mut buf = encode_u32(self.site);
        let body = self.populations.encode();
        push_all(&mut buf, body.as_slice());
        buf
    }

    fn bytelen(&self) -> (r: usize) {
        4 + self.populations.bytelen()
    }
}

/// The sum of the bytes, wrapping at 256.
fn sum_bytes(buf: &[u8]) -> (r: u8)
    ensures
        r == byte_sum(buf@) % 256,
{
    let mut acc: u8 = 0;
    let mut i: usize = 0;
    while i < buf.len()
        invariant
            i <= buf@.len(),
            acc == byte_sum(buf@.subrange(0, i as int)) % 256,
        decreases buf@.len() - i,
    {
        assert(buf@.subrange(0, i + 1).drop_last() =~= buf@.subrange(0, i as int));
        acc = ((acc as u16 + buf[i] as u16) % 256) as u8;
        i = i + 1;
    }
    assert(buf@.subrange(0, buf@.len() as int) =~= buf@);
    acc
}

impl Msg {
    /// The bytes sum to zero, wrapping at 256.
    fn valid_checksum(buf: &[u8]) -> (r: bool)
        ensures
            r == checksum_ok(buf@),
    {
        sum_bytes(buf) == 0
    }

    /// Decodes a whole message where decoding can read it: `None` where the
    /// checksum holds but the bytes are too few to hold a type, a length
    /// and a checksum.
    pub fn try_decode(buf: &[u8]) -> (r: Option<Result<Msg, Error>>)
        ensures
            r is None <==> !<Msg as Decodable>::decodable(buf@),
            r matches Some(res) ==> match res {
                Ok(v) => msg_decoded(buf@) == Ok::<MsgView, Error>(v.deep_view()),
                Err(e) => msg_decoded(buf@) == Err::<MsgView, Error>(e),
            },
    {
        if Self::valid_checksum(buf) && buf.len() < 6 {
            None
        } else {
            Some(<Msg as Decodable>::decode(buf))
        }
    }

    /// The byte that makes `buf` sum to zero.
    fn compute_checksum(buf: &[u8]) -> (r: u8)
        ensures
            r == checksum_byte(buf@),
    {
        let sum = sum_bytes(buf);
        ((256 - sum as u16) % 256) as u8
    }
}

impl Decodable for Msg {
    open spec fn decoded(buf: Seq<u8>) -> Result<MsgView, Error> {
        msg_decoded(buf)
    }

    open spec fn encoded(v: MsgView) -> Seq<u8> {
        msg_encoded(v)
    }

    /// The type byte and the body are read only after the checksum holds;
    /// a message with a valid checksum has at least six bytes.
    open spec fn decodable(buf: Seq<u8>) -> bool {
        !checksum_ok(buf) || buf.len() >= 6
    }

    /// The body and the six bytes around it fit in a `usize`.
    open spec fn encodable(v: MsgView) -> bool {
        code_and_body(v).1.len() + 6 <= usize::MAX
    }

    fn decode(buf: &[u8]) -> (r: Result<Self, Error>) {
        if !Msg::valid_checksum(buf) {
            return Err(Error::InvalidChecksum);
        }
        let code = buf[0];
        let body = vstd::slice::slice_subrange(buf, 5, buf.len() - 1);
        if code == 0x50 {
            let hello = match Hello::decode(body) {
                Ok(h) => h,
                Err(e) => {
                    return Err(e);
                },
            };
            let name: &[u8] = &PROTOCOL_NAME;
            assert(name@ =~= protocol_name());
            if !bytes_eq(string_bytes(&hello.protocol), name) || hello.version != 1 {
                return Err(Error::InvalidProtocol);
            }
            Ok(Msg::Hello(hello))
        } else if code == 0x51 {
            match ErrorMsg::decode(body) {
                Ok(m) => Ok(Msg::Error(m)),
                Err(e) => Err(e),
            }
        } else if code == 0x52 {
            Ok(Msg::OkReply)
        } else if code == 0x53 {
            match DialAuth::decode(body) {
                Ok(m) => Ok(Msg::DialAuth(m)),
                Err(e) => Err(e),
            }
        } else if code == 0x54 {
            match TargetPopulations::decode(body) {
                Ok(m) => Ok(Msg::TargetPopulations(m)),
                Err(e) => Err(e),
            }
        } else if code == 0x55 {
            match CreatePolicy::decode(body) {
                Ok(m) => Ok(Msg::CreatePolicy(m)),
                Err(e) => Err(e),
            }
        } else if code == 0x56 {
            match Policy::decode(body) {
                Ok(m) => Ok(Msg::DeletePolicy(m)),
                Err(e) => Err(e),
            }
        } else if code == 0x57 {
            match Policy::decode(body) {
                Ok(m) => Ok(Msg::PolicyResult(m)),
                Err(e) => Err(e),
            }
        } else if code == 0x58 {
            match SiteVisit::decode(body) {
                Ok(m) => Ok(Msg::SiteVisit(m)),
                Err(e) => Err(e),
            }
        } else {
            Err(Error::InvalidMessage)
        }
    }

    fn encode(&self) -> (r: Vec<u8>) {
        let (code, message_body): (u8, Vec<u8>) = match self {
            Msg::Hello(hello) => (0x50, hello.encode()),
            Msg::Error(error_msg) => (0x51, error_msg.encode()),
            Msg::OkReply => (0x52, Vec::new()),
            Msg::DialAuth(dial_auth) => (0x53, dial_auth.encode()),
            Msg::TargetPopulations(target_populations) => (0x54, target_populations.encode()),
            Msg::CreatePolicy(create_policy) => (0x55, create_policy.encode()),
            Msg::DeletePolicy(policy) => (0x56, policy.encode()),
            Msg::PolicyResult(policy) => (0x57, policy.encode()),
            Msg::SiteVisit(site_visit) => (0x58, site_visit.encode()),
        };
        assert(message_body@ =~= code_and_body(self.deep_view()).1);
        let mut buf: Vec<u8> = Vec::new();
        buf.push(code);
        push_u32(&mut buf, (message_body.len() + 6) as u32);
        push_all(&mut buf, message_body.as_slice());
        assert(buf@ =~= msg_unsummed(self.deep_view()));
        let checksum = Msg::compute_checksum(buf.as_slice());
        buf.push(checksum);
        assert(buf@ =~= msg_encoded(self.deep_view()));
        buf
    }

    fn bytelen(&self) -> (r: usize) {
        let body_size = match self {
            Msg::Hello(hello) => hello.bytelen(),
            Msg::Error(error_msg) => error_msg.bytelen(),
            Msg::OkReply => 0,
            Msg::DialAuth(dial_auth) => dial_auth.bytelen(),
            Msg::TargetPopulations(target_populations) => target_populations.bytelen(),
            Msg::CreatePolicy(create_policy) => create_policy.bytelen(),
            Msg::DeletePolicy(policy) => policy.bytelen(),
            Msg::PolicyResult(policy) => policy.bytelen(),
            Msg::SiteVisit(site_visit) => site_visit.bytelen(),
        };
        6 + body_size
    }
}

// ---------------------------------------------------------------------------
// Decoding what was encoded
// ---------------------------------------------------------------------------

/// The messages that decode back to themselves: every length fits in the
/// `u32` that carries it, and a hello names this protocol in its version 1.
pub open spec fn msg_fits(m: MsgView) -> bool {
    match m {
        MsgView::Hello(p, v) => encode_utf8(p) == protocol_name() && v == 1,
        MsgView::Error(e) => str_fits(e),
        MsgView::TargetPopulations(_, pops) => tps_fit(pops),
        MsgView::CreatePolicy(sp, _) => str_fits(sp),
        MsgView::SiteVisit(_, pops) => pops_fit(pops),
        _ => true,
    }
}

proof fn lemma_checksum(pre: Seq<u8>)
    ensures
        checksum_ok(pre.push(checksum_byte(pre))),
{
    let c = checksum_byte(pre);
    assert(pre.push(c).drop_last() =~= pre);
    assert(byte_sum(pre.push(c)) == byte_sum(pre) + c);
    let b = byte_sum(pre);
    assert((b + (256 - b % 256) % 256) % 256 == 0) by (nonlinear_arith);
}

proof fn lemma_frame(code: u8, len: u32, body: Seq<u8>, c: u8)
    ensures
        ({
            let buf = seq![code] + u32_bytes(len) + body + seq![c];
            &&& buf[0] == code
            &&& buf.subrange(5, buf.len() - 1) == body
            &&& buf.len() == body.len() + 6
        }),
{
    let buf = seq![code] + u32_bytes(len) + body + seq![c];
    assert(buf.subrange(5, buf.len() - 1) =~= body);
}

proof fn lemma_hello_body(p: Seq<char>, v: u32)
    requires
        str_fits(p),
    ensures
        hello_decoded(str_encoded(p) + u32_bytes(v)) == Ok::<(Seq<char>, u32), Error>((p, v)),
{
    let buf = str_encoded(p) + u32_bytes(v);
    lemma_str_decoded_prefix(p, u32_bytes(v));
    let off = 4 + encode_utf8(p).len();
    assert(buf.subrange(off as int, buf.len() as int) =~= u32_bytes(v) + Seq::<u8>::empty());
    lemma_u32_decoded_prefix(v, Seq::empty());
}

proof fn lemma_error_body(e: Seq<char>)
    requires
        str_fits(e),
    ensures
        error_decoded(str_encoded(e)) == Ok::<Seq<char>, Error>(e),
{
    assert(str_encoded(e) + Seq::<u8>::empty() =~= str_encoded(e));
    lemma_str_decoded_prefix(e, Seq::empty());
}

proof fn lemma_u32_body(v: u32)
    ensures
        single_u32_decoded(u32_bytes(v)) == Ok::<u32, Error>(v),
{
    assert(u32_bytes(v) + Seq::<u8>::empty() =~= u32_bytes(v));
    lemma_u32_decoded_prefix(v, Seq::empty());
}

proof fn lemma_target_populations_body(site: u32, pops: Seq<(Seq<char>, u32, u32)>)
    requires
        tps_fit(pops),
    ensures
        target_populations_decoded(u32_bytes(site) + tps_encoded(pops)) == Ok::<_, Error>(
            (site, pops),
        ),
{
    let buf = u32_bytes(site) + tps_encoded(pops);
    lemma_u32_decoded_prefix(site, tps_encoded(pops));
    assert(buf.subrange(4, buf.len() as int) =~= tps_encoded(pops));
    lemma_tps_roundtrip(pops);
}

proof fn lemma_site_visit_body(site: u32, pops: Seq<(Seq<char>, u32)>)
    requires
        pops_fit(pops),
    ensures
        site_visit_decoded(u32_bytes(site) + pops_encoded(pops)) == Ok::<_, Error>((site, pops)),
{
    let buf = u32_bytes(site) + pops_encoded(pops);
    lemma_u32_decoded_prefix(site, pops_encoded(pops));
    assert(buf.subrange(4, buf.len() as int) =~= pops_encoded(pops));
    lemma_pops_roundtrip(pops);
}

proof fn lemma_create_policy_body(sp: Seq<char>, a: Action)
    requires
        str_fits(sp),
    ensures
        create_policy_decoded(str_encoded(sp) + seq![action_byte(a)]) == Ok::<_, Error>((sp, a)),
{
    let buf = str_encoded(sp) + seq![action_byte(a)];
    lemma_str_decoded_prefix(sp, seq![action_byte(a)]);
    let off = 4 + encode_utf8(sp).len();
    assert(buf.subrange(off as int, buf.len() as int) =~= seq![action_byte(a)]);
}

/// Decoding the bytes of a message gives the message back, when its
/// lengths fit and a hello names this protocol in its version 1.
pub proof fn lemma_msg_roundtrip(m: MsgView)
    requires
        msg_fits(m),
    ensures
        msg_decoded(msg_encoded(m)) == Ok::<MsgView, Error>(m),
{
    let (code, body) = code_and_body(m);
    let pre = msg_unsummed(m);
    lemma_checksum(pre);
    lemma_frame(code, (body.len() + 6) as u32, body, checksum_byte(pre));
    assert(msg_encoded(m) =~= seq![code] + u32_bytes((body.len() + 6) as u32) + body + seq![
        checksum_byte(pre),
    ]);
    assert(msg_encoded(m) == pre.push(checksum_byte(pre)));
    match m {
        MsgView::Hello(p, v) => {
            assert(encode_utf8(p).len() == 11);
            lemma_hello_body(p, v);
        },
        MsgView::Error(e) => lemma_error_body(e),
        MsgView::OkReply => {},
        MsgView::DialAuth(site) => lemma_u32_body(site),
        MsgView::TargetPopulations(site, pops) => lemma_target_populations_body(site, pops),
        MsgView::CreatePolicy(sp, a) => lemma_create_policy_body(sp, a),
        MsgView::DeletePolicy(p) => lemma_u32_body(p),
        MsgView::PolicyResult(p) => lemma_u32_body(p),
        MsgView::SiteVisit(site, pops) => lemma_site_visit_body(site, pops),
    }
}

} // verus!
