//! The version control server: a tree of directories whose files keep every
//! revision they were given, each revision known by the MD5 digest of its
//! content.
pub mod command;

use vstd::prelude::*;
use vstd::utf8::*;
use vstd::string::StringExecFns;
use std::collections::HashMap;
use crate::util::{dec_text, decimal_string, string_bytes, string_from_valid, first_named, lemma_first_named, lemma_first_named_some, lemma_first_named_names};

verus! {

broadcast use vstd::std_specs::hash::group_hash_axioms;

/// The directory, relative to where the server runs, that holds the
/// content of every revision, in a file named by its digest.
pub const WORKING_DIR: &'static str = "vcs";

/// A request for a revision that a file does not have.
pub struct NoSuchRevisionError {}

impl NoSuchRevisionError {
    /// The line the server answers with, without its newline.
    pub fn message(&self) -> (r: String)
        ensures
            r@ == "ERR no such revision"@,
    {
        String::from_str("ERR no such revision")
    }
}

/// The digit for a value below 16, in lower case.
pub open spec fn hex_digit(v: u8) -> char {
    if v < 10 {
        (48 + v) as char
    } else {
        (87 + v) as char
    }
}

/// Bytes in lower-case hexadecimal, two digits to a byte.
pub open spec fn lower_hex(bytes: Seq<u8>) -> Seq<char> {
    Seq::new(2 * bytes.len(), |i: int| if i % 2 == 0 {
        hex_digit(bytes[i / 2] / 16)
    } else {
        hex_digit(bytes[i / 2] % 16)
    })
}

/// The ASCII byte of the digit for a value below 16.
fn hex_byte(v: u8) -> (r: u8)
    requires
        v < 16,
    ensures
        r == hex_digit(v) as u8,
        r < 128,
{
    if v < 10 {
        48 + v
    } else {
        87 + v
    }
}

/// A digest in lower-case hexadecimal, two digits to a byte, as the
/// digest's `LowerHex` writes it.
fn digest_hex(bytes: [u8; 16]) -> (r: String)
    ensures
        r@ == lower_hex(bytes@),
{
    let ghost text = lower_hex(bytes@);
    let mut out: Vec<u8> = Vec::new();
    let mut i: usize = 0;
    while i < 16
        invariant
            i <= 16,
            bytes@.len() == 16,
            text == lower_hex(bytes@),
            out@.len() == 2 * i,
            forall|j: int| 0 <= j < 2 * i ==> #[trigger] out@[j] == text[j] as u8 && out@[j] < 128,
        decreases 16 - i,
    {
        let b = bytes[i];
        out.push(hex_byte(b / 16));
        out.push(hex_byte(b % 16));
        proof {
            assert(text[2 * i as int] == hex_digit(bytes@[i as int] / 16));
            assert(text[2 * i + 1] == hex_digit(bytes@[i as int] % 16));
        }
        i = i + 1;
    }
    proof {
        assert(is_ascii_chars(text)) by {
            assert forall|j: int| 0 <= j < text.len() implies '\0' <= #[trigger] text[j] <= '\u{7f}' by {
                let v: u8 = if j % 2 == 0 { bytes@[j / 2] / 16 } else { bytes@[j / 2] % 16 };
                assert(text[j] == hex_digit(v));
            }
        }
        is_ascii_chars_encode_utf8(text);
        assert(out@ =~= encode_utf8(text));
        encode_utf8_valid_utf8(text);
        encode_utf8_decode_utf8(text);
    }
    string_from_valid(out.as_slice())
}

/// The MD5 digest of `bytes`.
pub uninterp spec fn md5_digest(bytes: Seq<u8>) -> Seq<u8>;

/// `md5::compute(bytes)`: the MD5 digest of the bytes. What it is, is only
/// named here, by `md5_digest`.
#[verifier::external_body]
fn md5_compute(bytes: &[u8]) -> (r: [u8; 16])
    ensures
        r@ == md5_digest(bytes@),
{
    md5::compute(bytes).0
}

/// The MD5 digest of `content` in lower-case hexadecimal: the name its
/// revision is kept under.
pub fn digest_text(content: &[u8]) -> (r: String)
    ensures
        r@ == lower_hex(md5_digest(content@)),
{
    digest_hex(md5_compute(content))
}

/// Whether two digests are the same.
fn same_digest(a: &[u8; 16], b: &[u8; 16]) -> (r: bool)
    ensures
        r == (*a == *b),
{
    let mut i: usize = 0;
    while i < 16
        invariant
            i <= 16,
            forall|j: int| 0 <= j < i ==> a[j] == b[j],
        decreases 16 - i,
    {
        if a[i] != b[i] {
            return false;
        }
        i = i + 1;
    }
    assert(*a =~= *b);
    true
}

/// A file as plain values: the digest of each revision, and the number of
/// the latest.
pub struct FileView {
    pub revisions: Map<u32, [u8; 16]>,
    pub current: u32,
}

/// A file: its revisions by number, and the latest number.
#[derive(Clone)]
pub struct File {
    revision_map: HashMap<u32, [u8; 16]>,
    current_revision: u32,
}

impl View for File {
    type V = FileView;

    closed spec fn view(&self) -> FileView {
        FileView { revisions: self.revision_map@, current: self.current_revision }
    }
}

/// Whether the latest revision of `f` has the digest `hash`.
pub open spec fn latest_is(f: FileView, hash: [u8; 16]) -> bool {
    f.revisions.contains_key(f.current) && f.revisions[f.current] == hash
}

/// `f` after it is given content with digest `hash`: unchanged where its
/// latest revision has that digest, else with one more revision.
pub open spec fn with_revision(f: FileView, hash: [u8; 16]) -> FileView {
    if latest_is(f, hash) {
        f
    } else {
        FileView { revisions: f.revisions.insert((f.current + 1) as u32, hash), current: (f.current + 1) as u32 }
    }
}

impl Default for File {
    fn default() -> (r: Self)
        ensures
            r@.revisions == Map::<u32, [u8; 16]>::empty(),
            r@.current == 0,
    {
        File { revision_map: HashMap::new(), current_revision: 0 }
    }
}

impl File {
    /// Gives the file content with digest `hash`: a new revision, unless the
    /// latest already has that digest. Whether a revision was added.
    pub fn add_revision(&mut self, hash: [u8; 16]) -> (r: bool)
        requires
            !latest_is(old(self)@, hash) ==> old(self)@.current < u32::MAX,
        ensures
            r == !latest_is(old(self)@, hash),
            final(self)@ == with_revision(old(self)@, hash),
    {
        let same = match self.revision_map.get(&self.current_revision) {
            Some(h) => same_digest(h, &hash),
            None => false,
        };
        if same {
            false
        } else {
            self.current_revision = self.current_revision + 1;
            self.revision_map.insert(self.current_revision, hash);
            true
        }
    }

    /// Where the content of revision `rev` (the latest where `None`) is
    /// kept: the working directory, then the digest in hexadecimal. An error
    /// where the file has no revision `rev`.
    pub fn path(&self, rev: Option<u32>) -> (r: Result<String, NoSuchRevisionError>)
        requires
            rev is None ==> self@.revisions.contains_key(self@.current),
        ensures
            match rev {
                Some(v) if !self@.revisions.contains_key(v) => r is Err,
                _ => r matches Ok(p) && p@ == WORKING_DIR@ + "/"@ + lower_hex(
                    self@.revisions[match rev { Some(v) => v, None => self@.current }]@,
                ),
            },
    {
        let v = match rev {
            Some(v) => {
                if !self.revision_map.contains_key(&v) {
                    return Err(NoSuchRevisionError {});
                }
                v
            },
            None => self.current_revision,
        };
        let hash = match self.revision_map.get(&v) {
            Some(h) => *h,
            None => {
                return Err(NoSuchRevisionError {});
            },
        };
        Ok(String::from_str(WORKING_DIR).concat("/").concat(digest_hex(hash).as_str()))
    }
}


// ---------------------------------------------------------------------------
// The order of names
// ---------------------------------------------------------------------------

/// `a` comes before `b` in the lexicographic order of byte sequences.
pub open spec fn bytes_less(a: Seq<u8>, b: Seq<u8>) -> bool
    decreases a.len(),
{
    if a.len() == 0 {
        b.len() > 0
    } else if b.len() == 0 {
        false
    } else if a[0] != b[0] {
        a[0] < b[0]
    } else {
        bytes_less(a.drop_first(), b.drop_first())
    }
}

/// `a` comes before `b` as `String`s are ordered: by their UTF-8 bytes.
pub open spec fn name_less(a: Seq<char>, b: Seq<char>) -> bool {
    bytes_less(encode_utf8(a), encode_utf8(b))
}

/// The entries' names are in strictly increasing order.
pub open spec fn names_sorted<T>(s: Seq<(Seq<char>, T)>) -> bool {
    forall|i: int, j: int| 0 <= i < j < s.len() ==> name_less(#[trigger] s[i].0, #[trigger] s[j].0)
}

/// The order is strict.
pub proof fn lemma_bytes_less_asymmetric(a: Seq<u8>, b: Seq<u8>)
    ensures
        !(bytes_less(a, b) && bytes_less(b, a)),
    decreases a.len(),
{
    if a.len() > 0 && b.len() > 0 && a[0] == b[0] {
        lemma_bytes_less_asymmetric(a.drop_first(), b.drop_first());
    }
}

/// The order is transitive.
pub proof fn lemma_bytes_less_transitive(a: Seq<u8>, b: Seq<u8>, c: Seq<u8>)
    requires
        bytes_less(a, b),
        bytes_less(b, c),
    ensures
        bytes_less(a, c),
    decreases a.len(),
{
    if a.len() > 0 && b.len() > 0 && c.len() > 0 && a[0] == b[0] && b[0] == c[0] {
        lemma_bytes_less_transitive(a.drop_first(), b.drop_first(), c.drop_first());
    }
}

/// Of two different sequences, one comes first.
pub proof fn lemma_bytes_less_total(a: Seq<u8>, b: Seq<u8>)
    requires
        a != b,
    ensures
        bytes_less(a, b) || bytes_less(b, a),
    decreases a.len(),
{
    if a.len() == 0 && b.len() == 0 {
        assert(a =~= b);
    } else if a.len() > 0 && b.len() > 0 && a[0] == b[0] {
        if a.drop_first() == b.drop_first() {
            assert(a =~= seq![a[0]] + a.drop_first());
            assert(b =~= seq![b[0]] + b.drop_first());
        }
        lemma_bytes_less_total(a.drop_first(), b.drop_first());
    }
}

/// Past an equal prefix, the order is that of the rests.
proof fn lemma_bytes_less_skip(a: Seq<u8>, b: Seq<u8>, i: int)
    requires
        0 <= i < a.len(),
        i < b.len(),
        a[i] == b[i],
    ensures
        bytes_less(a.skip(i), b.skip(i)) == bytes_less(a.skip(i + 1), b.skip(i + 1)),
{
    assert(a.skip(i).drop_first() =~= a.skip(i + 1));
    assert(b.skip(i).drop_first() =~= b.skip(i + 1));
}

/// Compares two names as `String`s are compared: negative where `a` comes
/// first, zero where they are equal, positive where `b` comes first.
fn compare_names(a: &String, b: &String) -> (r: i8)
    ensures
        r < 0 <==> name_less(a@, b@),
        r == 0 <==> a@ == b@,
        r > 0 <==> name_less(b@, a@),
{
    let x = string_bytes(a);
    let y = string_bytes(b);
    let ghost ex = encode_utf8(a@);
    let ghost ey = encode_utf8(b@);
    proof {
        encode_utf8_decode_utf8(a@);
        encode_utf8_decode_utf8(b@);
        assert(ex.skip(0) =~= ex);
        assert(ey.skip(0) =~= ey);
    }
    let mut i: usize = 0;
    while i < x.len() && i < y.len()
        invariant
            x@ == ex,
            y@ == ey,
            ex == encode_utf8(a@),
            ey == encode_utf8(b@),
            decode_utf8(ex) == a@,
            decode_utf8(ey) == b@,
            i <= x@.len(),
            i <= y@.len(),
            forall|j: int| 0 <= j < i ==> x@[j] == y@[j],
            bytes_less(ex, ey) == bytes_less(ex.skip(i as int), ey.skip(i as int)),
            bytes_less(ey, ex) == bytes_less(ey.skip(i as int), ex.skip(i as int)),
        decreases x@.len() - i,
    {
        if x[i] != y[i] {
            proof {
                lemma_bytes_less_asymmetric(ex, ey);
                assert(ex.skip(i as int)[0] == x@[i as int]);
                assert(ey.skip(i as int)[0] == y@[i as int]);
                assert(bytes_less(ex.skip(i as int), ey.skip(i as int)) == (x@[i as int] < y@[i as int]));
                assert(bytes_less(ey.skip(i as int), ex.skip(i as int)) == (y@[i as int] < x@[i as int]));
                assert(ex != ey) by {
                    assert(ex[i as int] != ey[i as int]);
                }
            }
            if x[i] < y[i] {
                return -1;
            } else {
                return 1;
            }
        }
        proof {
            lemma_bytes_less_skip(ex, ey, i as int);
            lemma_bytes_less_skip(ey, ex, i as int);
        }
        i = i + 1;
    }
    proof {
        lemma_bytes_less_asymmetric(ex, ey);
    }
    if x.len() == y.len() {
        assert(ex =~= ey);
        0
    } else if x.len() < y.len() {
        assert(ex.skip(i as int).len() == 0);
        -1
    } else {
        assert(ey.skip(i as int).len() == 0);
        1
    }
}

// ---------------------------------------------------------------------------
// Entries by name
// ---------------------------------------------------------------------------

/// Entries with their names as plain text.
pub open spec fn entry_views<T>(s: Seq<(String, T)>) -> Seq<(Seq<char>, T)> {
    s.map_values(|e: (String, T)| (e.0@, e.1))
}

/// The value of the first entry named `n`.
pub open spec fn lookup<T>(s: Seq<(Seq<char>, T)>, n: Seq<char>) -> Option<T> {
    match first_named(s, n) {
        Some(i) => Some(s[i].1),
        None => None,
    }
}

/// A lookup in a non-empty sequence looks at its first entry, then at the
/// rest.
proof fn lemma_lookup_first<T>(s: Seq<(Seq<char>, T)>, n: Seq<char>)
    requires
        s.len() > 0,
    ensures
        lookup(s, n) == if s[0].0 == n { Some(s[0].1) } else { lookup(s.drop_first(), n) },
{
    if s[0].0 != n {
        match first_named(s.drop_first(), n) {
            Some(i) => {
                lemma_first_named_some(s.drop_first(), n);
                assert(s[i + 1] == s.drop_first()[i]);
            },
            None => {},
        }
    }
}

/// Replacing the entry that a name finds, by one of the same name, changes
/// that name's lookup only.
proof fn lemma_lookup_update<T>(s: Seq<(Seq<char>, T)>, j: int, e: (Seq<char>, T))
    requires
        0 <= j < s.len(),
        first_named(s, e.0) == Some(j),
    ensures
        lookup(s.update(j, e), e.0) == Some(e.1),
        forall|n: Seq<char>| n != e.0 ==> #[trigger] lookup(s.update(j, e), n) == lookup(s, n),
{
    lemma_first_named_some(s, e.0);
    lemma_first_named_names(s.update(j, e), s, e.0);
    assert forall|n: Seq<char>| n != e.0 implies #[trigger] lookup(s.update(j, e), n) == lookup(s, n) by {
        lemma_first_named_names(s.update(j, e), s, n);
        lemma_first_named_some(s, n);
    }
}

/// Inserting an entry for a name that has none changes that name's lookup
/// only.
proof fn lemma_lookup_insert<T>(s: Seq<(Seq<char>, T)>, k: int, e: (Seq<char>, T))
    requires
        0 <= k <= s.len(),
        first_named(s, e.0) is None,
    ensures
        lookup(s.insert(k, e), e.0) == Some(e.1),
        forall|n: Seq<char>| n != e.0 ==> #[trigger] lookup(s.insert(k, e), n) == lookup(s, n),
    decreases s.len(),
{
    let t = s.insert(k, e);
    if k == 0 {
        assert(t.drop_first() =~= s);
        lemma_lookup_first(t, e.0);
        assert forall|n: Seq<char>| n != e.0 implies #[trigger] lookup(t, n) == lookup(s, n) by {
            lemma_lookup_first(t, n);
        }
    } else {
        assert(t.drop_first() =~= s.drop_first().insert(k - 1, e));
        lemma_lookup_insert(s.drop_first(), k - 1, e);
        lemma_lookup_first(t, e.0);
        assert forall|n: Seq<char>| n != e.0 implies #[trigger] lookup(t, n) == lookup(s, n) by {
            lemma_lookup_first(t, n);
            lemma_lookup_first(s, n);
        }
    }
}

/// Names that come in order are different.
proof fn lemma_name_less_differ(a: Seq<char>, b: Seq<char>)
    requires
        name_less(a, b),
    ensures
        a != b,
        !name_less(b, a),
{
    lemma_bytes_less_asymmetric(encode_utf8(a), encode_utf8(b));
}

/// Where `name` is among entries in order of their names, or, where it is
/// not, where it would go to keep them in order.
fn slot<T>(entries: &Vec<(String, T)>, name: &String) -> (r: (usize, bool))
    requires
        names_sorted(entry_views(entries@)),
    ensures
        r.0 <= entries@.len(),
        r.1 ==> r.0 < entries@.len() && first_named(entry_views(entries@), name@) == Some(r.0 as int),
        !r.1 ==> {
            &&& first_named(entry_views(entries@), name@) is None
            &&& forall|m: int| 0 <= m < r.0 ==> name_less(#[trigger] entry_views(entries@)[m].0, name@)
            &&& forall|m: int| r.0 <= m < entries@.len() ==> name_less(name@, #[trigger] entry_views(entries@)[m].0)
        },
{
    let ghost v = entry_views(entries@);
    let mut i: usize = 0;
    while i < entries.len()
        invariant
            v == entry_views(entries@),
            names_sorted(v),
            i <= entries@.len(),
            forall|m: int| 0 <= m < i ==> name_less(#[trigger] v[m].0, name@),
        decreases entries@.len() - i,
    {
        let c = compare_names(&entries[i].0, name);
        assert(v[i as int].0 == entries@[i as int].0@);
        if c == 0 {
            proof {
                assert forall|m: int| 0 <= m < i implies #[trigger] v[m].0 != name@ by {
                    lemma_name_less_differ(v[m].0, name@);
                }
                lemma_first_named(v, name@, i as int);
            }
            return (i, true);
        }
        if c > 0 {
            proof {
                assert forall|m: int| i <= m < v.len() implies name_less(name@, #[trigger] v[m].0) by {
                    if m > i {
                        lemma_bytes_less_transitive(encode_utf8(name@), encode_utf8(v[i as int].0), encode_utf8(v[m].0));
                    }
                }
                assert forall|m: int| 0 <= m < v.len() implies #[trigger] v[m].0 != name@ by {
                    if m < i {
                        lemma_name_less_differ(v[m].0, name@);
                    } else {
                        lemma_name_less_differ(name@, v[m].0);
                    }
                }
                lemma_first_named(v, name@, v.len() as int);
            }
            return (i, false);
        }
        i = i + 1;
    }
    proof {
        assert forall|m: int| 0 <= m < v.len() implies #[trigger] v[m].0 != name@ by {
            lemma_name_less_differ(v[m].0, name@);
        }
        lemma_first_named(v, name@, v.len() as int);
    }
    (i, false)
}

// ---------------------------------------------------------------------------
// Directories
// ---------------------------------------------------------------------------

/// A directory: its files and its subdirectories, each by name. A file and
/// a subdirectory may share a name.
pub struct Dir {
    files: Vec<(String, File)>,
    dirs: Vec<(String, Dir)>,
}

impl Dir {
    /// Each kind of entry is kept in the order of its names.
    #[verifier::type_invariant]
    spec fn in_order(self) -> bool {
        &&& names_sorted(entry_views(self.files@))
        &&& names_sorted(entry_views(self.dirs@))
    }

    /// The files, by name, in the order of their names.
    pub closed spec fn file_entries(&self) -> Seq<(Seq<char>, File)> {
        entry_views(self.files@)
    }

    /// The subdirectories, by name, in the order of their names.
    pub closed spec fn dir_entries(&self) -> Seq<(Seq<char>, Dir)> {
        entry_views(self.dirs@)
    }

    /// The file named `n`.
    pub open spec fn file(&self, n: Seq<char>) -> Option<File> {
        lookup(self.file_entries(), n)
    }

    /// The subdirectory named `n`.
    pub open spec fn child(&self, n: Seq<char>) -> Option<Dir> {
        lookup(self.dir_entries(), n)
    }
}

/// The directory reached from `d` through the subdirectories named `ns`.
pub open spec fn dir_in(d: Dir, ns: Seq<Seq<char>>) -> Option<Dir>
    decreases ns.len(),
{
    if ns.len() == 0 {
        Some(d)
    } else {
        match d.child(ns[0]) {
            Some(c) => dir_in(c, ns.drop_first()),
            None => None,
        }
    }
}

/// The file reached from `d` through the subdirectories named by all but
/// the last of `ns`, then the file named by the last.
pub open spec fn file_in(d: Dir, ns: Seq<Seq<char>>) -> Option<File>
    decreases ns.len(),
{
    if ns.len() == 0 {
        None
    } else if ns.len() == 1 {
        d.file(ns[0])
    } else {
        match d.child(ns[0]) {
            Some(c) => file_in(c, ns.drop_first()),
            None => None,
        }
    }
}

impl Default for Dir {
    fn default() -> (r: Self)
        ensures
            r.file_entries().len() == 0,
            r.dir_entries().len() == 0,
    {
        Dir { files: Vec::new(), dirs: Vec::new() }
    }
}

/// An empty directory has nothing in it.
proof fn lemma_empty_dir(d: Dir, ns: Seq<Seq<char>>)
    requires
        d.file_entries().len() == 0,
        d.dir_entries().len() == 0,
    ensures
        file_in(d, ns) is None,
        dir_in(d, ns) is Some <==> ns.len() == 0,
{
}

/// A part of a path: a prefix (on Windows), the root, `.`, `..` or a name.
enum PathPart {
    Prefix,
    RootDir,
    CurDir,
    ParentDir,
    Normal(String),
}

/// A part of a path as plain text: its name, where it is one.
spec fn part_view(p: PathPart) -> Option<Seq<char>> {
    match p {
        PathPart::Normal(s) => Some(s@),
        _ => None,
    }
}

/// What `std::path::Path::new(path).components()` gives: each component's
/// name where it is `Component::Normal`, `None` for any other.
pub uninterp spec fn path_components(path: Seq<char>) -> Seq<Option<Seq<char>>>;

/// `std::path::Path::new(path).components()`, each component made the
/// `PathPart` of its kind. The result is only named here, by
/// `path_components`.
#[verifier::external_body]
fn components(path: &str) -> (r: Vec<PathPart>)
    ensures
        r@.map_values(|p: PathPart| part_view(p)) == path_components(path@),
{
    std::path::Path::new(path).components().map(|c| match c {
        std::path::Component::Prefix(_) => PathPart::Prefix,
        std::path::Component::RootDir => PathPart::RootDir,
        std::path::Component::CurDir => PathPart::CurDir,
        std::path::Component::ParentDir => PathPart::ParentDir,
        std::path::Component::Normal(name) => PathPart::Normal(name.to_string_lossy().into_owned()),
    }).collect()
}

/// The names among the parts of a path, in order.
pub open spec fn names_of(parts: Seq<Option<Seq<char>>>) -> Seq<Seq<char>>
    decreases parts.len(),
{
    if parts.len() == 0 {
        seq![]
    } else {
        match parts.last() {
            Some(n) => names_of(parts.drop_last()).push(n),
            None => names_of(parts.drop_last()),
        }
    }
}

/// Whether the last part of a path is a name.
pub open spec fn ends_in_name(parts: Seq<Option<Seq<char>>>) -> bool {
    parts.len() > 0 && parts.last() is Some
}

/// The texts of some strings.
pub open spec fn texts(s: Seq<String>) -> Seq<Seq<char>> {
    s.map_values(|x: String| x@)
}

/// The names of a path, and whether its last part is one.
fn path_names(path: &str) -> (r: (Vec<String>, bool))
    ensures
        texts(r.0@) == names_of(path_components(path@)),
        r.1 == ends_in_name(path_components(path@)),
{
    let parts = components(path);
    let ghost pv = parts@.map_values(|p: PathPart| part_view(p));
    let mut names: Vec<String> = Vec::new();
    let mut last_is_name = false;
    let mut i: usize = 0;
    while i < parts.len()
        invariant
            pv == parts@.map_values(|p: PathPart| part_view(p)),
            i <= parts@.len(),
            texts(names@) == names_of(pv.subrange(0, i as int)),
            i > 0 ==> last_is_name == (pv[i - 1] is Some),
        decreases parts@.len() - i,
    {
        assert(pv.subrange(0, i + 1).drop_last() =~= pv.subrange(0, i as int));
        match &parts[i] {
            PathPart::Normal(n) => {
                names.push(n.clone());
                last_is_name = true;
                assert(texts(names@) =~= names_of(pv.subrange(0, i as int)).push(n@));
            },
            _ => {
                last_is_name = false;
            },
        }
        i = i + 1;
    }
    assert(pv.subrange(0, parts@.len() as int) =~= pv);
    (names, i > 0 && last_is_name)
}

impl Dir {
    /// The subdirectory named `name`.
    fn find_child(&self, name: &String) -> (r: Option<&Dir>)
        ensures
            match r {
                Some(c) => self.child(name@) == Some(*c),
                None => self.child(name@) is None,
            },
    {
        proof {
            use_type_invariant(self);
        }
        let (i, found) = slot(&self.dirs, name);
        if found {
            Some(&self.dirs[i].1)
        } else {
            None
        }
    }

    /// The directory reached through the subdirectories named by `names`
    /// from `i` on.
    fn dir_from<'a>(&'a self, names: &Vec<String>, i: usize) -> (r: Option<&'a Dir>)
        requires
            i <= names@.len(),
        ensures
            match r {
                Some(d) => dir_in(*self, texts(names@).skip(i as int)) == Some(*d),
                None => dir_in(*self, texts(names@).skip(i as int)) is None,
            },
        decreases names@.len() - i,
    {
        let ghost ns = texts(names@).skip(i as int);
        if i == names.len() {
            assert(ns.len() == 0);
            return Some(self);
        }
        assert(ns.drop_first() =~= texts(names@).skip(i + 1));
        match self.find_child(&names[i]) {
            Some(c) => c.dir_from(names, i + 1),
            None => None,
        }
    }

    /// The file reached through the subdirectories named by `names` from `i`
    /// on, the last naming the file.
    fn file_from<'a>(&'a self, names: &Vec<String>, i: usize) -> (r: Option<&'a File>)
        requires
            i < names@.len(),
        ensures
            match r {
                Some(f) => file_in(*self, texts(names@).skip(i as int)) == Some(*f),
                None => file_in(*self, texts(names@).skip(i as int)) is None,
            },
        decreases names@.len() - i,
    {
        proof {
            use_type_invariant(self);
        }
        let ghost ns = texts(names@).skip(i as int);
        if names.len() - i == 1 {
            let (j, found) = slot(&self.files, &names[i]);
            if found {
                return Some(&self.files[j].1);
            } else {
                return None;
            }
        }
        assert(ns.drop_first() =~= texts(names@).skip(i + 1));
        match self.find_child(&names[i]) {
            Some(c) => c.file_from(names, i + 1),
            None => None,
        }
    }

    /// The directory at `path`, its names followed from this one; the other
    /// parts of the path (the root, `.` and `..`) are passed over.
    pub fn find_dir(&self, path: &str) -> (r: Option<&Dir>)
        ensures
            match r {
                Some(d) => dir_in(*self, names_of(path_components(path@))) == Some(*d),
                None => dir_in(*self, names_of(path_components(path@))) is None,
            },
    {
        let (names, _) = path_names(path);
        assert(texts(names@).skip(0) =~= texts(names@));
        self.dir_from(&names, 0)
    }

    /// The file at `path`, its names followed from this one, the last naming
    /// the file; `None` where the path does not end in a name.
    pub fn find_file(&self, path: &str) -> (r: Option<&File>)
        ensures
            match r {
                Some(f) => ends_in_name(path_components(path@)) && file_in(*self, names_of(path_components(path@))) == Some(*f),
                None => !ends_in_name(path_components(path@)) || file_in(*self, names_of(path_components(path@))) is None,
            },
    {
        let (names, last_is_name) = path_names(path);
        if !last_is_name {
            return None;
        }
        proof {
            lemma_names_of_len(path_components(path@));
        }
        assert(texts(names@).skip(0) =~= texts(names@));
        self.file_from(&names, 0)
    }
}

/// A path that ends in a name has at least one.
proof fn lemma_names_of_len(parts: Seq<Option<Seq<char>>>)
    ensures
        ends_in_name(parts) ==> names_of(parts).len() > 0,
{
}

// ---------------------------------------------------------------------------
// Adding revisions
// ---------------------------------------------------------------------------

/// Keeping names in order: an entry replaced by one of the same name.
proof fn lemma_sorted_update<T>(s: Seq<(Seq<char>, T)>, j: int, e: (Seq<char>, T))
    requires
        names_sorted(s),
        0 <= j < s.len(),
        s[j].0 == e.0,
    ensures
        names_sorted(s.update(j, e)),
{
    let t = s.update(j, e);
    assert forall|a: int, b: int| 0 <= a < b < t.len() implies name_less(#[trigger] t[a].0, #[trigger] t[b].0) by {
        assert(t[a].0 == s[a].0 && t[b].0 == s[b].0);
    }
}

/// Keeping names in order: an entry inserted where its name belongs.
proof fn lemma_sorted_insert<T>(s: Seq<(Seq<char>, T)>, k: int, e: (Seq<char>, T))
    requires
        names_sorted(s),
        0 <= k <= s.len(),
        forall|m: int| 0 <= m < k ==> name_less(#[trigger] s[m].0, e.0),
        forall|m: int| k <= m < s.len() ==> name_less(e.0, #[trigger] s[m].0),
    ensures
        names_sorted(s.insert(k, e)),
{
    let t = s.insert(k, e);
    assert forall|a: int, b: int| 0 <= a < b < t.len() implies name_less(#[trigger] t[a].0, #[trigger] t[b].0) by {
        if b < k {
            assert(t[a] == s[a] && t[b] == s[b]);
        } else if b == k {
            assert(t[a] == s[a]);
        } else if a < k {
            assert(t[a] == s[a] && t[b] == s[b - 1]);
        } else if a == k {
            assert(t[b] == s[b - 1]);
        } else {
            assert(t[a] == s[a - 1] && t[b] == s[b - 1]);
        }
    }
}

/// `p` comes before the end of `ns`, the start of which it is.
pub open spec fn proper_prefix(p: Seq<Seq<char>>, ns: Seq<Seq<char>>) -> bool {
    p.len() < ns.len() && ns.subrange(0, p.len() as int) == p
}

/// Two paths that start with the same name are prefixes as their rests are.
proof fn lemma_proper_prefix_rest(p: Seq<Seq<char>>, ns: Seq<Seq<char>>)
    requires
        p.len() > 0,
        ns.len() > 0,
        p[0] == ns[0],
    ensures
        proper_prefix(p, ns) == proper_prefix(p.drop_first(), ns.drop_first()),
{
    if p.len() < ns.len() {
        let a = ns.subrange(0, p.len() as int);
        let b = ns.drop_first().subrange(0, p.drop_first().len() as int);
        if a == p {
            assert(b =~= p.drop_first());
        }
        if b == p.drop_first() {
            assert(a =~= p) by {
                assert forall|m: int| 0 <= m < p.len() implies a[m] == p[m] by {
                    if m > 0 {
                        assert(a[m] == b[m - 1]);
                    }
                }
            }
        }
    }
}

/// The file at some place as it was before a revision: as it was, or empty
/// where there was none.
pub open spec fn file_before(f: Option<File>) -> FileView {
    match f {
        Some(f) => f@,
        None => FileView { revisions: Map::empty(), current: 0 },
    }
}

/// Whether the file at names `ns` in `d` can be given content with digest
/// `hash`: it can unless that would take a revision past the largest `u32`.
pub open spec fn revision_fits(d: Dir, ns: Seq<Seq<char>>, hash: [u8; 16]) -> bool {
    let f = file_before(file_in(d, ns));
    !latest_is(f, hash) ==> f.current < u32::MAX
}

/// `new` is `old` with the file at names `ns` given content with digest
/// `hash`, made where it was missing, together with the directories on the
/// way to it; `r` is that file's latest revision and whether it is a new
/// one. Nothing else changes.
pub open spec fn revision_added(old: Dir, new: Dir, ns: Seq<Seq<char>>, hash: [u8; 16], r: (u32, bool)) -> bool {
    let before = file_before(file_in(old, ns));
    &&& r == (with_revision(before, hash).current, !latest_is(before, hash))
    &&& file_in(new, ns) matches Some(f) && f@ == with_revision(before, hash)
    &&& forall|ns2: Seq<Seq<char>>| ns2 != ns ==> #[trigger] file_in(new, ns2) == file_in(old, ns2)
    &&& forall|ns2: Seq<Seq<char>>| (#[trigger] dir_in(new, ns2) is Some) == (dir_in(old, ns2) is Some || proper_prefix(ns2, ns))
}

impl File {
    /// The file's latest revision number.
    fn current(&self) -> (r: u32)
        ensures
            r == self@.current,
    {
        self.current_revision
    }

    /// Whether the file can be given content with digest `hash`.
    fn can_take(&self, hash: &[u8; 16]) -> (r: bool)
        ensures
            r == (!latest_is(self@, *hash) ==> self@.current < u32::MAX),
    {
        if self.current_revision < u32::MAX {
            return true;
        }
        match self.revision_map.get(&self.current_revision) {
            Some(h) => same_digest(h, hash),
            None => false,
        }
    }
}

impl Dir {
    /// Gives the file at the names from `i` on content with digest `hash`,
    /// making it and the directories on the way where they are missing.
    fn add_at(&mut self, names: &Vec<String>, i: usize, hash: [u8; 16]) -> (r: (u32, bool))
        requires
            i < names@.len(),
            revision_fits(*old(self), texts(names@).skip(i as int), hash),
        ensures
            revision_added(*old(self), *final(self), texts(names@).skip(i as int), hash, r),
        decreases names@.len() - i,
    {
        proof {
            use_type_invariant(&*self);
        }
        let ghost ns = texts(names@).skip(i as int);
        let ghost name = names@[i as int]@;
        assert(ns[0] == name);
        if names.len() - i == 1 {
            let (j, found) = slot(&self.files, &names[i]);
            let mut files: Vec<(String, File)> = Vec::new();
            std::mem::swap(&mut files, &mut self.files);
            let ghost olds = entry_views(files@);
            let ghost oldv = files@;
            assert(olds == old(self).file_entries());
            proof {
                lemma_first_named_some(olds, name);
            }
            let (key, mut file) = if found {
                files.remove(j)
            } else {
                (names[i].clone(), File::default())
            };
            assert(key@ == name) by {
                if found {
                    assert(oldv[j as int] == (key, file));
                    assert(olds[j as int] == (key@, file));
                }
            }
            assert(file_before(old(self).file(name)) == file@) by {
                if found {
                    assert(oldv[j as int] == (key, file));
                    assert(olds[j as int] == (key@, file));
                }
            }
            let added = file.add_revision(hash);
            let cur = file.current();
            let ghost e = (key@, file);
            files.insert(j, (key, file));
            proof {
                if found {
                    assert(entry_views(files@) =~= olds.update(j as int, e));
                    lemma_sorted_update(olds, j as int, e);
                    lemma_lookup_update(olds, j as int, e);
                } else {
                    assert(entry_views(files@) =~= olds.insert(j as int, e));
                    lemma_sorted_insert(olds, j as int, e);
                    lemma_lookup_insert(olds, j as int, e);
                }
            }
            self.files = files;
            proof {
                assert(self.dir_entries() == old(self).dir_entries());
                assert(ns =~= seq![name]);
                assert forall|ns2: Seq<Seq<char>>| ns2 != ns implies #[trigger] file_in(*self, ns2) == file_in(*old(self), ns2) by {
                    if ns2.len() == 1 {
                        assert(ns2[0] != name) by {
                            if ns2[0] == name {
                                assert(ns2 =~= ns);
                            }
                        }
                    }
                }
                assert forall|ns2: Seq<Seq<char>>| (#[trigger] dir_in(*self, ns2) is Some) == (dir_in(*old(self), ns2) is Some || proper_prefix(ns2, ns)) by {
                    if ns2.len() > 0 {
                        assert(self.child(ns2[0]) == old(self).child(ns2[0]));
                    }
                }
            }
            (cur, added)
        } else {
            let (j, found) = slot(&self.dirs, &names[i]);
            let mut dirs: Vec<(String, Dir)> = Vec::new();
            std::mem::swap(&mut dirs, &mut self.dirs);
            let ghost olds = entry_views(dirs@);
            let ghost oldv = dirs@;
            assert(olds == old(self).dir_entries());
            proof {
                lemma_first_named_some(olds, name);
            }
            let (key, mut child) = if found {
                dirs.remove(j)
            } else {
                (names[i].clone(), Dir::default())
            };
            let ghost before_child = child;
            assert(key@ == name && (found ==> olds[j as int] == (name, before_child))) by {
                if found {
                    assert(oldv[j as int] == (key, child));
                    assert(olds[j as int] == (key@, child));
                }
            }
            let ghost rest = texts(names@).skip(i + 1);
            assert(ns.drop_first() =~= rest);
            assert(file_in(before_child, rest) == file_in(*old(self), ns)) by {
                if !found {
                    lemma_empty_dir(before_child, rest);
                }
            }
            let r = child.add_at(names, i + 1, hash);
            let ghost e = (key@, child);
            dirs.insert(j, (key, child));
            proof {
                if found {
                    assert(entry_views(dirs@) =~= olds.update(j as int, e));
                    lemma_sorted_update(olds, j as int, e);
                    lemma_lookup_update(olds, j as int, e);
                } else {
                    assert(entry_views(dirs@) =~= olds.insert(j as int, e));
                    lemma_sorted_insert(olds, j as int, e);
                    lemma_lookup_insert(olds, j as int, e);
                }
            }
            self.dirs = dirs;
            proof {
                let new = *self;
                let old_d = *old(self);
                let child_new = e.1;
                assert(new.file_entries() == old_d.file_entries());
                assert(new.child(name) == Some(child_new));
                assert(forall|n: Seq<char>| n != name ==> #[trigger] new.child(n) == old_d.child(n));
                assert(found ==> old_d.child(name) == Some(before_child)) by {
                    if found {
                        lemma_first_named_some(olds, name);
                    }
                }
                assert(!found ==> old_d.child(name) is None);
                assert(file_in(new, ns) == file_in(child_new, rest));
                assert forall|ns2: Seq<Seq<char>>| ns2 != ns implies #[trigger] file_in(new, ns2) == file_in(old_d, ns2) by {
                    if ns2.len() >= 2 && ns2[0] == name {
                        let rest2 = ns2.drop_first();
                        assert(rest2 != rest) by {
                            if rest2 == rest {
                                assert(ns2 =~= ns) by {
                                    assert forall|m: int| 0 <= m < ns.len() implies ns2[m] == ns[m] by {
                                        if m > 0 {
                                            assert(ns2[m] == rest2[m - 1]);
                                            assert(ns[m] == rest[m - 1]);
                                        }
                                    }
                                }
                            }
                        }
                        assert(file_in(child_new, rest2) == file_in(before_child, rest2));
                        if !found {
                            lemma_empty_dir(before_child, rest2);
                        }
                    }
                }
                assert forall|ns2: Seq<Seq<char>>| (#[trigger] dir_in(new, ns2) is Some) == (dir_in(old_d, ns2) is Some || proper_prefix(ns2, ns)) by {
                    if ns2.len() > 0 {
                        if ns2[0] == name {
                            let rest2 = ns2.drop_first();
                            lemma_proper_prefix_rest(ns2, ns);
                            assert((dir_in(child_new, rest2) is Some) == (dir_in(before_child, rest2) is Some || proper_prefix(rest2, rest)));
                            if !found {
                                lemma_empty_dir(before_child, rest2);
                                if rest2.len() == 0 {
                                    assert(ns.subrange(0, 1) =~= ns2);
                                }
                            }
                        } else {
                            assert(!proper_prefix(ns2, ns)) by {
                                if proper_prefix(ns2, ns) {
                                    assert(ns.subrange(0, ns2.len() as int)[0] == ns[0]);
                                }
                            }
                        }
                    }
                }
            }
            r
        }
    }

    /// Gives the file at `path` content with digest `hash`: a new revision
    /// unless its latest has that digest, the file and the directories on
    /// the way made where they are missing. The file's latest revision, and
    /// whether it is new.
    pub fn add_revision(&mut self, path: &str, hash: [u8; 16]) -> (r: Result<(u32, bool), std::io::Error>)
        requires
            ends_in_name(path_components(path@)),
            revision_fits(*old(self), names_of(path_components(path@)), hash),
        ensures
            r matches Ok(v) && revision_added(*old(self), *final(self), names_of(path_components(path@)), hash, v),
    {
        let (names, _) = path_names(path);
        proof {
            lemma_names_of_len(path_components(path@));
        }
        assert(texts(names@).skip(0) =~= texts(names@));
        Ok(self.add_at(&names, 0, hash))
    }

    /// Puts `content` as a revision of the file at `path`, known by the MD5
    /// digest of the content: as `try_add_revision` with that digest.
    pub fn put_content(&mut self, path: &str, content: &[u8]) -> (r: Option<(u32, bool)>)
        ensures
            exists|hash: [u8; 16]| {
                &&& #[trigger] hash@ == md5_digest(content@)
                &&& if ends_in_name(path_components(path@)) && revision_fits(
                    *old(self),
                    names_of(path_components(path@)),
                    hash,
                ) {
                    r matches Some(v) && revision_added(*old(self), *final(self), names_of(path_components(path@)), hash, v)
                } else {
                    r is None && *final(self) == *old(self)
                }
            },
    {
        let hash = md5_compute(content);
        let r = self.try_add_revision(path, hash);
        assert(hash@ == md5_digest(content@));
        r
    }

    /// `add_revision` where `path` ends in a name and the file there can take
    /// another revision; elsewhere `None`, the directory unchanged.
    pub fn try_add_revision(&mut self, path: &str, hash: [u8; 16]) -> (r: Option<(u32, bool)>)
        ensures
            if ends_in_name(path_components(path@)) && revision_fits(*old(self), names_of(path_components(path@)), hash) {
                r matches Some(v) && revision_added(*old(self), *final(self), names_of(path_components(path@)), hash, v)
            } else {
                r is None && *final(self) == *old(self)
            },
    {
        let (_, last_is_name) = path_names(path);
        if !last_is_name {
            return None;
        }
        let fits = match self.find_file(path) {
            Some(f) => f.can_take(&hash),
            None => true,
        };
        if !fits {
            return None;
        }
        match self.add_revision(path, hash) {
            Ok(v) => Some(v),
            Err(_) => None,
        }
    }
}

// ---------------------------------------------------------------------------
// Listing a directory
// ---------------------------------------------------------------------------

/// The names of the subdirectories that are not also a file's, in order.
pub open spec fn shown_dirs(dirs: Seq<(Seq<char>, Dir)>, files: Seq<(Seq<char>, File)>) -> Seq<Seq<char>>
    decreases dirs.len(),
{
    if dirs.len() == 0 {
        seq![]
    } else if lookup(files, dirs.last().0) is Some {
        shown_dirs(dirs.drop_last(), files)
    } else {
        shown_dirs(dirs.drop_last(), files).push(dirs.last().0)
    }
}

/// A line for each subdirectory: `NAME/ DIR`.
pub open spec fn dir_lines(names: Seq<Seq<char>>) -> Seq<char>
    decreases names.len(),
{
    if names.len() == 0 {
        seq![]
    } else {
        dir_lines(names.drop_last()) + names.last() + "/ DIR\n"@
    }
}

/// A line for each file: `NAME rREVISION`, with its latest revision.
pub open spec fn file_lines(files: Seq<(Seq<char>, File)>) -> Seq<char>
    decreases files.len(),
{
    if files.len() == 0 {
        seq![]
    } else {
        file_lines(files.drop_last()) + files.last().0 + " r"@ + dec_text(files.last().1@.current as nat) + "\n"@
    }
}

/// What the server answers a listing of `d` with: `OK` and the number of
/// entries, then a line for each subdirectory that is not also a file,
/// then a line for each file, each kind in the order of its names.
pub open spec fn listing(d: Dir) -> Seq<char> {
    let shown = shown_dirs(d.dir_entries(), d.file_entries());
    "OK "@ + dec_text((shown.len() + d.file_entries().len()) as nat) + "\n"@ + dir_lines(shown)
        + file_lines(d.file_entries())
}

impl Dir {
    /// The directory's listing, as the server sends it.
    pub fn to_string(&self) -> (r: String)
        ensures
            r@ == listing(*self),
            names_sorted(self.dir_entries()),
            names_sorted(self.file_entries()),
    {
        proof {
            use_type_invariant(self);
        }
        let ghost des = self.dir_entries();
        let ghost fes = self.file_entries();
        let mut dir_text = String::new();
        let mut shown: usize = 0;
        let mut i: usize = 0;
        while i < self.dirs.len()
            invariant
                des == self.dir_entries(),
                fes == self.file_entries(),
                names_sorted(fes),
                i <= des.len(),
                shown <= i,
                shown == shown_dirs(des.subrange(0, i as int), fes).len(),
                dir_text@ == dir_lines(shown_dirs(des.subrange(0, i as int), fes)),
            decreases des.len() - i,
        {
            let ghost before = shown_dirs(des.subrange(0, i as int), fes);
            assert(des.subrange(0, i + 1).drop_last() =~= des.subrange(0, i as int));
            assert(des[i as int].0 == self.dirs@[i as int].0@);
            let (_, is_file) = slot(&self.files, &self.dirs[i].0);
            if !is_file {
                dir_text.append(self.dirs[i].0.as_str());
                dir_text.append("/ DIR\n");
                shown = shown + 1;
                assert(shown_dirs(des.subrange(0, i + 1), fes) == before.push(des[i as int].0));
                assert(dir_lines(before.push(des[i as int].0)).len() >= 0);
                assert(before.push(des[i as int].0).drop_last() =~= before);
                proof {
                    reveal_strlit("/ DIR\n");
                }
                assert(dir_text@ =~= dir_lines(before) + des[i as int].0 + "/ DIR\n"@);
            }
            i = i + 1;
        }
        assert(des.subrange(0, des.len() as int) =~= des);
        let mut file_text = String::new();
        let mut k: usize = 0;
        while k < self.files.len()
            invariant
                fes == self.file_entries(),
                k <= fes.len(),
                file_text@ == file_lines(fes.subrange(0, k as int)),
            decreases fes.len() - k,
        {
            let ghost before = fes.subrange(0, k as int);
            assert(fes.subrange(0, k + 1).drop_last() =~= before);
            assert(fes[k as int].0 == self.files@[k as int].0@);
            assert(fes[k as int].1 == self.files@[k as int].1);
            file_text.append(self.files[k].0.as_str());
            file_text.append(" r");
            file_text.append(decimal_string(self.files[k].1.current() as u128).as_str());
            file_text.append("\n");
            proof {
                reveal_strlit(" r");
                reveal_strlit("\n");
            }
            assert(file_text@ =~= file_lines(before) + fes[k as int].0 + " r"@ + dec_text(
                fes[k as int].1@.current as nat,
            ) + "\n"@);
            k = k + 1;
        }
        assert(fes.subrange(0, fes.len() as int) =~= fes);
        let count: u128 = shown as u128 + self.files.len() as u128;
        let mut out = String::from_str("OK ");
        out.append(decimal_string(count).as_str());
        out.append("\n");
        out.append(dir_text.as_str());
        out.append(file_text.as_str());
        proof {
            reveal_strlit("OK ");
            reveal_strlit("\n");
        }
        assert(out@ =~= listing(*self));
        out
    }
}

// ---------------------------------------------------------------------------
// Laws
// ---------------------------------------------------------------------------

/// After a file is given some content, its latest revision is that
/// content, under the number that was answered.
pub proof fn lemma_added_content_is_latest(old: Dir, new: Dir, ns: Seq<Seq<char>>, hash: [u8; 16], r: (u32, bool))
    requires
        revision_added(old, new, ns, hash, r),
    ensures
        file_in(new, ns) matches Some(f) && latest_is(f@, hash) && f@.current == r.0,
{
}

/// Giving a file the content its latest revision already has makes no new
/// revision and changes nothing in the tree's files.
pub proof fn lemma_same_content_twice(
    d0: Dir,
    d1: Dir,
    d2: Dir,
    ns: Seq<Seq<char>>,
    hash: [u8; 16],
    r1: (u32, bool),
    r2: (u32, bool),
)
    requires
        revision_added(d0, d1, ns, hash, r1),
        revision_added(d1, d2, ns, hash, r2),
    ensures
        r2 == (r1.0, false),
        file_in(d2, ns) matches Some(f) && f@ == file_in(d1, ns).unwrap()@,
{
}

/// A file that was not there before starts at revision 1.
pub proof fn lemma_new_file_first_revision(old: Dir, new: Dir, ns: Seq<Seq<char>>, hash: [u8; 16], r: (u32, bool))
    requires
        revision_added(old, new, ns, hash, r),
        file_in(old, ns) is None,
    ensures
        r == (1u32, true),
{
}

} // verus!
