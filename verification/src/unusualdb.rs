//! Unusual database: a key-value store spoken to in datagrams. `key=value`
//! stores, a bare `key` asks; the `version` key cannot be changed.
use vstd::prelude::*;
use vstd::utf8::*;
use vstd::string::StringExecFns;
use crate::util::{find_first, find_byte, copy_range, string_from_utf8, first_named, lemma_first_named, lemma_first_named_some, lemma_first_named_names, lemma_first_named_push};

verus! {

broadcast use vstd::seq_lib::group_seq_properties;

/// A request: store a value under a key, or ask for a key's value.
#[derive(Debug, PartialEq, Eq)]
pub enum Request {
    Insert(String, String),
    Retrieve(String),
}

/// A request as plain values.
pub enum RequestView {
    Insert(Seq<char>, Seq<char>),
    Retrieve(Seq<char>),
}

impl View for Request {
    type V = RequestView;

    open spec fn view(&self) -> RequestView {
        match self {
            Request::Insert(k, v) => RequestView::Insert(k@, v@),
            Request::Retrieve(k) => RequestView::Retrieve(k@),
        }
    }
}

/// The request a datagram makes: up to the first `=` the key, after it the
/// value; without `=`, the whole of it is the key asked for. `None` where a
/// part is not UTF-8.
pub open spec fn request_spec(b: Seq<u8>) -> Option<RequestView> {
    match find_first(b, 61u8) {
        Some(i) => {
            let key = b.subrange(0, i);
            let value = b.subrange(i + 1, b.len() as int);
            if valid_utf8(key) && valid_utf8(value) {
                Some(RequestView::Insert(decode_utf8(key), decode_utf8(value)))
            } else {
                None
            }
        },
        None => if valid_utf8(b) {
            Some(RequestView::Retrieve(decode_utf8(b)))
        } else {
            None
        },
    }
}

/// Reads the request a datagram makes; see `request_spec`.
pub fn parse_request(buf: &[u8]) -> (r: Option<Request>)
    ensures
        match r {
            Some(req) => request_spec(buf@) == Some(req@),
            None => request_spec(buf@) is None,
        },
{
    let len = buf.len();
    assert(buf@.subrange(0, len as int) =~= buf@);
    match find_byte(buf, 0, len, 61u8) {
        Some(i) => {
            let key = string_from_utf8(copy_range(buf, 0, i).as_slice());
            let value = string_from_utf8(copy_range(buf, i + 1, len).as_slice());
            match (key, value) {
                (Some(k), Some(v)) => Some(Request::Insert(k, v)),
                _ => None,
            }
        },
        None => match string_from_utf8(buf) {
            Some(k) => Some(Request::Retrieve(k)),
            None => None,
        },
    }
}

/// The key that cannot be changed.
pub open spec fn version_key() -> Seq<char> {
    "version"@
}

/// The store.
pub struct Db {
    entries: Vec<(String, String)>,
}

impl Db {
    /// The entries as plain values.
    pub closed spec fn entries(&self) -> Seq<(Seq<char>, Seq<char>)> {
        self.entries@.map_values(|e: (String, String)| (e.0@, e.1@))
    }

    /// The value stored under `key`, where there is one.
    pub open spec fn value(&self, key: Seq<char>) -> Option<Seq<char>> {
        match first_named(self.entries(), key) {
            Some(i) => Some(self.entries()[i].1),
            None => None,
        }
    }

    /// A store that holds only its version.
    pub fn new() -> (r: Self)
        ensures
            r.value(version_key()) == Some("Db version 0.1.0"@),
            forall|k: Seq<char>| k != version_key() ==> #[trigger] r.value(k) is None,
    {
        let mut entries: Vec<(String, String)> = Vec::new();
        entries.push((String::from_str("version"), String::from_str("Db version 0.1.0")));
        let r = Self { entries };
        proof {
            lemma_first_named(r.entries(), version_key(), 0);
            assert forall|k: Seq<char>| k != version_key() implies #[trigger] r.value(k) is None by {
                lemma_first_named(r.entries(), k, 1);
            }
        }
        r
    }

    /// The index of `key`.
    fn find(&self, key: &String) -> (r: Option<usize>)
        ensures
            match r {
                Some(i) => first_named(self.entries(), key@) == Some(i as int) && i < self.entries().len(),
                None => first_named(self.entries(), key@) is None,
            },
    {
        let mut i: usize = 0;
        while i < self.entries.len()
            invariant
                i <= self.entries@.len(),
                forall|j: int| 0 <= j < i ==> #[trigger] self.entries()[j].0 != key@,
            decreases self.entries@.len() - i,
        {
            if self.entries[i].0 == *key {
                proof {
                    lemma_first_named(self.entries(), key@, i as int);
                }
                return Some(i);
            }
            i = i + 1;
        }
        proof {
            lemma_first_named(self.entries(), key@, i as int);
        }
        None
    }

    /// Applies a request: stores a value (never the version's), or answers
    /// `key=value` for a key that has one.
    pub fn apply(&mut self, request: Request) -> (r: Option<String>)
        ensures
            match request@ {
                RequestView::Insert(k, v) => r is None && inserted(*old(self), *final(self), k, v),
                RequestView::Retrieve(k) => final(self).entries() == old(self).entries() && match answer(*old(self), k) {
                    Some(text) => r matches Some(s) && s@ == text,
                    None => r is None,
                },
            },
    {
        match request {
            Request::Insert(key, value) => {
                if key == String::from_str("version") {
                    return None;
                }
                let ghost name = key@;
                let ghost val = value@;
                match self.find(&key) {
                    Some(i) => {
                        let _ = self.entries.remove(i);
                        self.entries.insert(i, (key, value));
                        let ghost e = old(self).entries().update(i as int, (name, val));
                        assert(self.entries() =~= e);
                        proof {
                            lemma_first_named_some(old(self).entries(), name);
                            assert forall|other: Seq<char>| #[trigger] first_named(e, other) == first_named(old(self).entries(), other) by {
                                lemma_first_named_names(e, old(self).entries(), other);
                            }
                            assert forall|other: Seq<char>| other != name implies #[trigger] self.value(other) == old(self).value(other) by {
                                lemma_first_named_some(old(self).entries(), other);
                            }
                        }
                    },
                    None => {
                        self.entries.push((key, value));
                        assert(self.entries() =~= old(self).entries().push((name, val)));
                        proof {
                            lemma_first_named_push(old(self).entries(), (name, val), name);
                            assert forall|other: Seq<char>| other != name implies #[trigger] self.value(other) == old(self).value(other) by {
                                lemma_first_named_push(old(self).entries(), (name, val), other);
                                lemma_first_named_some(old(self).entries(), other);
                            }
                        }
                    },
                }
                None
            },
            Request::Retrieve(key) => match self.find(&key) {
                Some(i) => Some(key.concat("=").concat(self.entries[i].1.as_str())),
                None => None,
            },
        }
    }
}

/// What storing `v` under `k` leaves: `k` holds `v` and every other key
/// what it held; the version's key is never changed.
pub open spec fn inserted(old: Db, new: Db, k: Seq<char>, v: Seq<char>) -> bool {
    if k == version_key() {
        new.entries() == old.entries()
    } else {
        &&& new.value(k) == Some(v)
        &&& forall|other: Seq<char>| other != k ==> #[trigger] new.value(other) == old.value(other)
    }
}

/// The answer to a request for `k`: `k=value` where `k` holds a value.
pub open spec fn answer(d: Db, k: Seq<char>) -> Option<Seq<char>> {
    match d.value(k) {
        Some(v) => Some(k + "="@ + v),
        None => None,
    }
}

/// A value stored under any key but the version's is what a request for
/// that key is then answered with.
pub proof fn lemma_retrieve_after_insert(d0: Db, d1: Db, k: Seq<char>, v: Seq<char>)
    requires
        inserted(d0, d1, k, v),
        k != version_key(),
    ensures
        answer(d1, k) == Some(k + "="@ + v),
{
}

/// The version cannot be changed: after any insert, a request for it is
/// answered as before.
pub proof fn lemma_version_unchanged(d0: Db, d1: Db, k: Seq<char>, v: Seq<char>)
    requires
        inserted(d0, d1, k, v),
    ensures
        answer(d1, version_key()) == answer(d0, version_key()),
{
    if k == version_key() {
        assert(d1.value(version_key()) == d0.value(version_key()));
    }
}

} // verus!
