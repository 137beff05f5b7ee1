//! Strings, numbers and population lists as the pest control protocol lays
//! them out: a `u32` length before each string and each list.
use crate::pestcontrol;
use crate::pestcontrol::{
    decode_pops, decode_str_at, decode_tps, drop_end, pops_with_end, push_str, str_decoded,
    str_encoded, tps_with_end, u32_decoded,
};
use crate::util::read_u32;
use vstd::prelude::*;

verus! {

/// Why bytes are not what was expected.
#[derive(PartialEq, Eq, Debug, Clone, Copy)]
pub enum Error {
    InvalidMessage,
    InvalidChecksum,
    InvalidLength,
    FromUtf8Error,
}

/// The error of this draft that stands for an error of the protocol.
pub open spec fn draft_error(e: pestcontrol::Error) -> Error {
    match e {
        pestcontrol::Error::InvalidChecksum => Error::InvalidChecksum,
        pestcontrol::Error::InvalidLength => Error::InvalidLength,
        pestcontrol::Error::FromUtf8Error => Error::FromUtf8Error,
        _ => Error::InvalidMessage,
    }
}

fn to_draft_error(e: pestcontrol::Error) -> (r: Error)
    ensures
        r == draft_error(e),
{
    match e {
        pestcontrol::Error::InvalidChecksum => Error::InvalidChecksum,
        pestcontrol::Error::InvalidLength => Error::InvalidLength,
        pestcontrol::Error::FromUtf8Error => Error::FromUtf8Error,
        _ => Error::InvalidMessage,
    }
}

/// A decoding result of the protocol, with the error of this draft.
pub open spec fn in_draft<T>(r: Result<T, pestcontrol::Error>) -> Result<T, Error> {
    match r {
        Ok(v) => Ok(v),
        Err(e) => Err(draft_error(e)),
    }
}

#[derive(PartialEq, Debug)]
pub struct Population {
    pub species: String,
    pub count: u32,
}

#[derive(PartialEq, Debug)]
pub struct TargetPopulation {
    pub species: String,
    pub min: u32,
    pub max: u32,
}

/// The greeting of this draft; it carries nothing yet.
pub struct Hello {}

impl DeepView for Population {
    type V = (Seq<char>, u32);

    open spec fn deep_view(&self) -> (Seq<char>, u32) {
        (self.species@, self.count)
    }
}

impl DeepView for TargetPopulation {
    type V = (Seq<char>, u32, u32);

    open spec fn deep_view(&self) -> (Seq<char>, u32, u32) {
        (self.species@, self.min, self.max)
    }
}

/// A big-endian `u32` at the start of `buf`.
pub fn decode_u32(buf: &[u8]) -> (r: Result<u32, Error>)
    ensures
        match r {
            Ok(v) => in_draft(u32_decoded(buf@)) == Ok::<u32, Error>(v),
            Err(e) => in_draft(u32_decoded(buf@)) == Err::<u32, Error>(e),
        },
{
    if buf.len() < 4 {
        Err(Error::InvalidLength)
    } else {
        Ok(read_u32(buf, 0))
    }
}

/// The byte length of a string as a `u32`, then its bytes.
pub fn encode_str(str: &str) -> (r: Vec<u8>)
    ensures
        r@ == str_encoded(str@),
{
    let owned = str.to_owned();
    let mut v: Vec<u8> = Vec::new();
    push_str(&mut v, &owned);
    assert(v@ =~= str_encoded(str@));
    v
}

/// A string laid out as `encode_str` lays it out.
pub fn decode_str(buf: &[u8]) -> (r: Result<String, Error>)
    ensures
        match r {
            Ok(s) => in_draft(str_decoded(buf@)) == Ok::<Seq<char>, Error>(s@),
            Err(e) => in_draft(str_decoded(buf@)) == Err::<Seq<char>, Error>(e),
        },
{
    assert(buf@.subrange(0, buf@.len() as int) =~= buf@);
    match decode_str_at(buf, 0) {
        Ok((s, _)) => Ok(s),
        Err(e) => Err(to_draft_error(e)),
    }
}

/// A list of populations: their number as a `u32`, then each species and
/// count.
pub fn decode_populations(buf: &[u8]) -> (r: Result<Vec<Population>, Error>)
    ensures
        match r {
            Ok(v) => in_draft(drop_end(pops_with_end(buf@))) == Ok::<_, Error>(v.deep_view()),
            Err(e) => in_draft(drop_end(pops_with_end(buf@))) == Err::<
                Seq<(Seq<char>, u32)>,
                Error,
            >(e),
        },
{
    match decode_pops(buf) {
        Ok((items, _)) => {
            let mut out: Vec<Population> = Vec::new();
            let ghost dv = items.deep_view();
            let mut items = items;
            while items.len() > 0
                invariant
                    out.deep_view() + items.deep_view() == dv,
                decreases items@.len(),
            {
                let p = items.remove(0);
                let ghost old_out = out.deep_view();
                out.push(Population { species: p.species, count: p.count });
                assert(out.deep_view() =~= old_out.push((p.species@, p.count)));
                assert(out.deep_view() + items.deep_view() =~= dv);
            }
            assert(out.deep_view() =~= dv);
            Ok(out)
        },
        Err(e) => Err(to_draft_error(e)),
    }
}

/// A list of target populations: their number as a `u32`, then each
/// species, minimum and maximum.
pub fn decode_target_populations(buf: &[u8]) -> (r: Result<Vec<TargetPopulation>, Error>)
    ensures
        match r {
            Ok(v) => in_draft(drop_end(tps_with_end(buf@))) == Ok::<_, Error>(v.deep_view()),
            Err(e) => in_draft(drop_end(tps_with_end(buf@))) == Err::<
                Seq<(Seq<char>, u32, u32)>,
                Error,
            >(e),
        },
{
    match decode_tps(buf) {
        Ok((items, _)) => {
            let mut out: Vec<TargetPopulation> = Vec::new();
            let ghost dv = items.deep_view();
            let mut items = items;
            while items.len() > 0
                invariant
                    out.deep_view() + items.deep_view() == dv,
                decreases items@.len(),
            {
                let t = items.remove(0);
                let ghost old_out = out.deep_view();
                out.push(TargetPopulation { species: t.species, min: t.min, max: t.max });
                assert(out.deep_view() =~= old_out.push((t.species@, t.min, t.max)));
                assert(out.deep_view() + items.deep_view() =~= dv);
            }
            assert(out.deep_view() =~= dv);
            Ok(out)
        },
        Err(e) => Err(to_draft_error(e)),
    }
}

} // verus!
