//! The commands of the version control server: a line of words separated
//! by ASCII whitespace, the first naming the method.
use vstd::prelude::*;
use vstd::utf8::*;
use vstd::string::StringExecFns;
use crate::util::{str_bytes, substr, parse_u32, parse_u32_spec, parse_usize, parse_usize_spec, copy_range};
use std::string::FromUtf8Error;

verus! {

broadcast use vstd::seq_lib::group_seq_properties;

// ---------------------------------------------------------------------------
// Words
// ---------------------------------------------------------------------------

/// ASCII whitespace, as `split_ascii_whitespace` knows it: space, tab, line
/// feed, form feed and carriage return.
pub open spec fn is_ascii_ws(c: u8) -> bool {
    c == 32 || c == 9 || c == 10 || c == 12 || c == 13
}

/// How many bytes at the start of `b` are not whitespace.
pub open spec fn word_len(b: Seq<u8>) -> nat
    decreases b.len(),
{
    if b.len() == 0 || is_ascii_ws(b[0]) {
        0
    } else {
        1 + word_len(b.drop_first())
    }
}

/// The words of `b`: its longest runs of bytes that are not whitespace,
/// in order.
pub open spec fn words_of(b: Seq<u8>) -> Seq<Seq<u8>>
    decreases b.len(),
{
    if b.len() == 0 {
        seq![]
    } else if is_ascii_ws(b[0]) {
        words_of(b.drop_first())
    } else {
        let n = word_len(b);
        if 0 < n <= b.len() {
            seq![b.subrange(0, n as int)] + words_of(b.subrange(n as int, b.len() as int))
        } else {
            seq![]
        }
    }
}

/// `word_len` counts the bytes up to the first whitespace.
proof fn lemma_word_len(b: Seq<u8>, n: int)
    requires
        0 <= n <= b.len(),
        forall|i: int| 0 <= i < n ==> !is_ascii_ws(#[trigger] b[i]),
        n == b.len() || is_ascii_ws(b[n]),
    ensures
        word_len(b) == n,
    decreases n,
{
    if n > 0 {
        lemma_word_len(b.drop_first(), n - 1);
    }
}

/// The byte ranges of the words of `b`; each word starts `b` or follows
/// whitespace, and ends `b` or precedes whitespace.
fn word_ranges(b: &[u8]) -> (r: Vec<(usize, usize)>)
    ensures
        r@.len() == words_of(b@).len(),
        forall|k: int|
            0 <= k < r@.len() ==> {
                let (s, e) = #[trigger] r@[k];
                &&& s < e <= b@.len()
                &&& b@.subrange(s as int, e as int) == words_of(b@)[k]
                &&& s == 0 || is_ascii_ws(b@[s - 1])
                &&& e == b@.len() || is_ascii_ws(b@[e as int])
            },
{
    let len = b.len();
    let mut r: Vec<(usize, usize)> = Vec::new();
    let mut i: usize = 0;
    assert(b@.subrange(0, len as int) =~= b@);
    while i < len
        invariant
            len == b@.len(),
            i <= len,
            i == 0 || i == len || is_ascii_ws(b@[i - 1]) || is_ascii_ws(b@[i as int]),
            words_of(b@) == r@.map_values(|p: (usize, usize)| b@.subrange(p.0 as int, p.1 as int))
                + words_of(b@.subrange(i as int, len as int)),
            forall|k: int|
                0 <= k < r@.len() ==> {
                    let (s, e) = #[trigger] r@[k];
                    &&& s < e <= i
                    &&& s == 0 || is_ascii_ws(b@[s - 1])
                    &&& e == b@.len() || is_ascii_ws(b@[e as int])
                },
        decreases len - i,
    {
        let ghost rest = b@.subrange(i as int, len as int);
        let ghost old_r = r@;
        if b[i] == 32 || b[i] == 9 || b[i] == 10 || b[i] == 12 || b[i] == 13 {
            assert(rest.drop_first() =~= b@.subrange(i + 1, len as int));
            i = i + 1;
        } else {
            let start = i;
            let mut j = i + 1;
            while j < len && !(b[j] == 32 || b[j] == 9 || b[j] == 10 || b[j] == 12 || b[j] == 13)
                invariant
                    len == b@.len(),
                    start < j <= len,
                    forall|p: int| start <= p < j ==> !is_ascii_ws(#[trigger] b@[p]),
                decreases len - j,
            {
                j = j + 1;
            }
            proof {
                assert forall|p: int| 0 <= p < j - start implies !is_ascii_ws(#[trigger] rest[p]) by {
                    assert(rest[p] == b@[start + p]);
                }
                lemma_word_len(rest, j - start);
                assert(rest.subrange(0, j - start) =~= b@.subrange(start as int, j as int));
                assert(rest.subrange(j - start, rest.len() as int) =~= b@.subrange(
                    j as int,
                    len as int,
                ));
            }
            r.push((start, j));
            assert(r@.map_values(|p: (usize, usize)| b@.subrange(p.0 as int, p.1 as int)) =~= old_r.map_values(
                |p: (usize, usize)| b@.subrange(p.0 as int, p.1 as int),
            ).push(b@.subrange(start as int, j as int)));
            i = j;
        }
    }
    assert(b@.subrange(len as int, len as int) =~= Seq::<u8>::empty());
    assert(words_of(b@) =~= r@.map_values(|p: (usize, usize)| b@.subrange(p.0 as int, p.1 as int)));
    r
}

// ---------------------------------------------------------------------------
// Paths
// ---------------------------------------------------------------------------

/// A byte a path may hold: an ASCII letter or digit, `/`, `_`, `-` or `.`.
pub open spec fn path_byte(c: u8) -> bool {
    (48 <= c <= 57) || (65 <= c <= 90) || (97 <= c <= 122) || c == 47 || c == 95 || c == 45
        || c == 46
}

/// Two slashes in a row somewhere in `b`.
pub open spec fn has_double_slash(b: Seq<u8>) -> bool {
    exists|i: int| 0 <= i && i + 1 < b.len() && b[i] == 47 && #[trigger] b[i + 1] == 47
}

/// A valid path: it starts with a slash, holds only path bytes, and never
/// two slashes in a row.
pub open spec fn path_valid(b: Seq<u8>) -> bool {
    &&& b.len() > 0
    &&& b[0] == 47
    &&& forall|i: int| 0 <= i < b.len() ==> path_byte(#[trigger] b[i])
    &&& !has_double_slash(b)
}

/// A valid file name: a valid path that does not end with a slash.
pub open spec fn file_valid(b: Seq<u8>) -> bool {
    path_valid(b) && b.last() != 47
}

/// The pattern of two or more slashes.
pub open spec fn double_slash_pattern() -> Seq<char> {
    seq!['/', '{', '2', ',', '}']
}

/// Whether the regular expression `pattern` matches somewhere in `text`, or
/// `None` where `pattern` is not a valid regular expression.
pub uninterp spec fn regex_finds(pattern: Seq<char>, text: Seq<char>) -> Option<bool>;

/// `regex::Regex::new(pattern)`, then `is_match(text)`: `None` where the
/// pattern does not compile. What a pattern matches is only named by
/// `regex_finds`, but for `/{2,}` (by the crate's syntax, a slash at least
/// twice) the result is stated: it matches where the UTF-8 bytes of `text`
/// hold two slashes in a row.
#[verifier::external_body]
fn regex_is_match(pattern: &str, text: &str) -> (r: Option<bool>)
    ensures
        r == regex_finds(pattern@, text@),
        pattern@ == double_slash_pattern() ==> r == Some(has_double_slash(encode_utf8(text@))),
{
    match regex::Regex::new(pattern) {
        Ok(re) => Some(re.is_match(text)),
        Err(_) => None,
    }
}

/// Which paths are valid: one that starts with a slash and has no two
/// slashes in a row is valid exactly when each of its bytes is an ASCII
/// letter or digit, or one of `/`, `_`, `-` and `.`; it names a file
/// exactly when, in addition, it does not end with a slash.
pub proof fn lemma_path_bytes(b: Seq<u8>)
    requires
        b.len() > 0,
        b[0] == 47,
        forall|i: int| 0 <= i && i + 1 < b.len() ==> !(b[i] == 47 && #[trigger] b[i + 1] == 47),
    ensures
        path_valid(b) <==> forall|i: int| 0 <= i < b.len() ==> {
            let c = #[trigger] b[i];
            ||| 48 <= c <= 57
            ||| 65 <= c <= 90
            ||| 97 <= c <= 122
            ||| c == 47 || c == 95 || c == 45 || c == 46
        },
        file_valid(b) <==> b.last() != 47 && forall|i: int| 0 <= i < b.len() ==> {
            let c = #[trigger] b[i];
            ||| 48 <= c <= 57
            ||| 65 <= c <= 90
            ||| 97 <= c <= 122
            ||| c == 47 || c == 95 || c == 45 || c == 46
        },
{
    assert(!has_double_slash(b));
}

/// Whether `path` names a directory the server accepts.
pub fn valid_path(path: &str) -> (r: bool)
    ensures
        r == path_valid(encode_utf8(path@)),
{
    let b = str_bytes(path);
    if b.len() == 0 || b[0] != 47u8 {
        return false;
    }
    let mut i: usize = 0;
    while i < b.len()
        invariant
            b@ == encode_utf8(path@),
            i <= b@.len(),
            forall|j: int| 0 <= j < i ==> path_byte(#[trigger] b@[j]),
        decreases b@.len() - i,
    {
        let c = b[i];
        if !((48u8 <= c && c <= 57u8) || (65u8 <= c && c <= 90u8) || (97u8 <= c && c <= 122u8) || c
            == 47u8 || c == 95u8 || c == 45u8 || c == 46u8) {
            assert(!path_byte(b@[i as int]));
            return false;
        }
        i = i + 1;
    }
    let pattern = "/{2,}";
    proof {
        reveal_strlit("/{2,}");
        assert(pattern@ =~= double_slash_pattern());
    }
    match regex_is_match(pattern, path) {
        Some(found) => !found,
        None => {
            proof {
                assert(false);
            }
            false
        },
    }
}

/// Whether `path` names a file the server accepts.
pub fn valid_file(path: &str) -> (r: bool)
    ensures
        r == file_valid(encode_utf8(path@)),
{
    if !valid_path(path) {
        return false;
    }
    let b = str_bytes(path);
    b[b.len() - 1] != 47u8
}

// ---------------------------------------------------------------------------
// Commands
// ---------------------------------------------------------------------------

/// A command a client sends.
pub enum Command {
    Get(Get),
    Put(Put),
    List(List),
    Help,
}

/// `GET file [revision]`.
pub struct Get {
    pub filename: String,
    pub revision: Option<u32>,
}

/// `PUT file length`, the data following on the next line.
pub struct Put {
    pub filename: String,
    pub length: usize,
}

/// `LIST dir`.
pub struct List {
    pub dir: String,
}

#[verifier::external_type_specification]
#[verifier::external_body]
pub struct ExFromUtf8Error(FromUtf8Error);

#[verifier::external_type_specification]
#[verifier::external_body]
pub struct ExIoError(std::io::Error);

/// Why a command was refused.
#[derive(Debug)]
pub enum Error {
    IllegalMethod(String),
    IllegalFileName,
    IllegalDirName,
    Usage(String),
    FromUtf8Error(FromUtf8Error),
    IoError(std::io::Error),
}

/// A command as plain values.
pub enum CommandView {
    Get(Seq<char>, Option<u32>),
    Put(Seq<char>, usize),
    List(Seq<char>),
    Help,
}

/// An error as plain values.
pub enum ErrorView {
    IllegalMethod(Seq<char>),
    IllegalFileName,
    IllegalDirName,
    Usage(Seq<char>),
    FromUtf8Error,
    IoError,
}

impl View for Command {
    type V = CommandView;

    open spec fn view(&self) -> CommandView {
        match self {
            Command::Get(g) => CommandView::Get(g.filename@, g.revision),
            Command::Put(p) => CommandView::Put(p.filename@, p.length),
            Command::List(l) => CommandView::List(l.dir@),
            Command::Help => CommandView::Help,
        }
    }
}

impl View for Error {
    type V = ErrorView;

    open spec fn view(&self) -> ErrorView {
        match self {
            Error::IllegalMethod(m) => ErrorView::IllegalMethod(m@),
            Error::IllegalFileName => ErrorView::IllegalFileName,
            Error::IllegalDirName => ErrorView::IllegalDirName,
            Error::Usage(u) => ErrorView::Usage(u@),
            Error::FromUtf8Error(_) => ErrorView::FromUtf8Error,
            Error::IoError(_) => ErrorView::IoError,
        }
    }
}

/// A parse result as plain values.
pub open spec fn outcome(r: Result<Command, Error>) -> Result<CommandView, ErrorView> {
    match r {
        Ok(c) => Ok(c@),
        Err(e) => Err(e@),
    }
}

/// `b` without its leading `r`s.
pub open spec fn trim_r(b: Seq<u8>) -> Seq<u8>
    decreases b.len(),
{
    if b.len() > 0 && b[0] == 114 {
        trim_r(b.drop_first())
    } else {
        b
    }
}

proof fn lemma_trim_r(b: Seq<u8>, k: int)
    requires
        0 <= k <= b.len(),
        forall|i: int| 0 <= i < k ==> #[trigger] b[i] == 114,
        k == b.len() || b[k] != 114,
    ensures
        trim_r(b) == b.subrange(k, b.len() as int),
    decreases k,
{
    if k == 0 {
        assert(b.subrange(0, b.len() as int) =~= b);
    } else {
        lemma_trim_r(b.drop_first(), k - 1);
        assert(b.drop_first().subrange(k - 1, b.len() - 1) =~= b.subrange(k, b.len() as int));
    }
}

/// The words after `GET`, read as a command.
pub open spec fn get_spec(ws: Seq<Seq<char>>) -> Result<CommandView, ErrorView> {
    if ws.len() == 0 || ws.len() > 2 {
        Err(ErrorView::Usage("GET file [revision]"@))
    } else if file_valid(encode_utf8(ws[0])) {
        Ok(
            CommandView::Get(
                ws[0],
                if ws.len() == 2 {
                    parse_u32_spec(trim_r(encode_utf8(ws[1])))
                } else {
                    None
                },
            ),
        )
    } else {
        Err(ErrorView::IllegalFileName)
    }
}

/// The words after `PUT`, read as a command; a length that is not a
/// number counts as zero.
pub open spec fn put_spec(ws: Seq<Seq<char>>) -> Result<CommandView, ErrorView> {
    if ws.len() != 2 {
        Err(ErrorView::Usage("PUT file length newline data"@))
    } else if file_valid(encode_utf8(ws[0])) {
        Ok(
            CommandView::Put(
                ws[0],
                match parse_usize_spec(encode_utf8(ws[1])) {
                    Some(n) => n,
                    None => 0,
                },
            ),
        )
    } else {
        Err(ErrorView::IllegalFileName)
    }
}

/// The words after `LIST`, read as a command.
pub open spec fn list_spec(ws: Seq<Seq<char>>) -> Result<CommandView, ErrorView> {
    if ws.len() != 1 {
        Err(ErrorView::Usage("LIST dir"@))
    } else if path_valid(encode_utf8(ws[0])) {
        Ok(CommandView::List(ws[0]))
    } else {
        Err(ErrorView::IllegalDirName)
    }
}

/// The words of `b` as text.
pub open spec fn text_words(b: Seq<u8>) -> Seq<Seq<char>> {
    words_of(b).map_values(|w: Seq<u8>| decode_utf8(w))
}

/// A command line read as a command: UTF-8 text whose first word names
/// the method and whose other words are its arguments.
pub open spec fn parse_spec(b: Seq<u8>) -> Result<CommandView, ErrorView> {
    if !valid_utf8(b) {
        Err(ErrorView::FromUtf8Error)
    } else {
        let ws = text_words(b);
        if ws.len() == 0 {
            Err(ErrorView::IllegalMethod(seq![]))
        } else if ws[0] == "GET"@ {
            get_spec(ws.drop_first())
        } else if ws[0] == "PUT"@ {
            put_spec(ws.drop_first())
        } else if ws[0] == "LIST"@ {
            list_spec(ws.drop_first())
        } else if ws[0] == "HELP"@ {
            Ok(CommandView::Help)
        } else {
            Err(ErrorView::IllegalMethod(ws[0]))
        }
    }
}

/// The text of a list of words.
pub open spec fn texts(words: Seq<&str>) -> Seq<Seq<char>> {
    words.map_values(|w: &str| w@)
}

impl Get {
    fn parse(words: &[&str]) -> (r: Result<Self, Error>)
        ensures
            get_spec(texts(words@)) == match r {
                Ok(g) => Ok(CommandView::Get(g.filename@, g.revision)),
                Err(e) => Err(e@),
            },
    {
        if words.len() == 0 || words.len() > 2 {
            return Err(Error::Usage(String::from_str("GET file [revision]")));
        }
        let filename = words[0];
        let revnum = if words.len() == 2 {
            let b = str_bytes(words[1]);
            let mut k: usize = 0;
            while k < b.len() && b[k] == 114u8
                invariant
                    k <= b@.len(),
                    forall|i: int| 0 <= i < k ==> #[trigger] b@[i] == 114,
                decreases b@.len() - k,
            {
                k = k + 1;
            }
            proof {
                lemma_trim_r(b@, k as int);
            }
            parse_u32(b, k, b.len())
        } else {
            None
        };
        if valid_file(filename) {
            Ok(Self { filename: filename.to_owned(), revision: revnum })
        } else {
            Err(Error::IllegalFileName)
        }
    }
}

impl Put {
    fn parse(words: &[&str]) -> (r: Result<Self, Error>)
        ensures
            put_spec(texts(words@)) == match r {
                Ok(p) => Ok(CommandView::Put(p.filename@, p.length)),
                Err(e) => Err(e@),
            },
    {
        if words.len() != 2 {
            return Err(Error::Usage(String::from_str("PUT file length newline data")));
        }
        let filename = words[0];
        if valid_file(filename) {
            let b = str_bytes(words[1]);
            let length = match parse_usize(b, 0, b.len()) {
                Some(n) => n,
                None => 0,
            };
            assert(b@.subrange(0, b@.len() as int) =~= b@);
            Ok(Self { filename: filename.to_owned(), length })
        } else {
            Err(Error::IllegalFileName)
        }
    }
}

impl List {
    fn parse(words: &[&str]) -> (r: Result<Self, Error>)
        ensures
            list_spec(texts(words@)) == match r {
                Ok(l) => Ok(CommandView::List(l.dir@)),
                Err(e) => Err(e@),
            },
    {
        if words.len() != 1 {
            return Err(Error::Usage(String::from_str("LIST dir")));
        }
        let dir = words[0].to_owned();
        if valid_path(dir.as_str()) {
            Ok(Self { dir })
        } else {
            Err(Error::IllegalDirName)
        }
    }
}

/// `String::from_utf8`: the text that `bytes` encode, or the standard
/// library's error where they are not UTF-8.
#[verifier::external_body]
fn string_from_utf8_owned(bytes: Vec<u8>) -> (r: Result<String, FromUtf8Error>)
    ensures
        r is Ok <==> valid_utf8(bytes@),
        r matches Ok(s) ==> s@ == decode_utf8(bytes@),
{
    String::from_utf8(bytes)
}

/// Whether a word is the given method name.
fn word_is(word: &str, name: &str) -> (r: bool)
    ensures
        r == (word@ == name@),
{
    String::from_str(word) == String::from_str(name)
}

/// Reads a command line (without its newline).
pub fn parse(buf: &[u8]) -> (r: Result<Command, Error>)
    ensures
        outcome(r) == parse_spec(buf@),
{
    let text = match string_from_utf8_owned(copy_range(buf, 0, buf.len())) {
        Ok(text) => text,
        Err(e) => {
            assert(buf@.subrange(0, buf@.len() as int) =~= buf@);
            return Err(Error::FromUtf8Error(e));
        },
    };
    assert(buf@.subrange(0, buf@.len() as int) =~= buf@);
    proof {
        decode_utf8_encode_utf8(buf@);
    }
    let s = text.as_str();
    let b = str_bytes(s);
    assert(b@ == buf@);
    let ranges = word_ranges(b);
    let mut words: Vec<&str> = Vec::new();
    let mut k: usize = 0;
    while k < ranges.len()
        invariant
            b@ == encode_utf8(s@),
            valid_utf8(b@),
            ranges@.len() == words_of(b@).len(),
            forall|j: int|
                0 <= j < ranges@.len() ==> {
                    let (st, e) = #[trigger] ranges@[j];
                    &&& st < e <= b@.len()
                    &&& b@.subrange(st as int, e as int) == words_of(b@)[j]
                    &&& st == 0 || is_ascii_ws(b@[st - 1])
                    &&& e == b@.len() || is_ascii_ws(b@[e as int])
                },
            k <= ranges@.len(),
            words@.len() == k,
            forall|j: int| 0 <= j < k ==> #[trigger] words@[j]@ == decode_utf8(words_of(b@)[j]),
        decreases ranges@.len() - k,
    {
        let (st, e) = ranges[k];
        let w = substr(s, st, e);
        proof {
            encode_utf8_decode_utf8(w@);
        }
        words.push(w);
        k = k + 1;
    }
    assert(texts(words@) =~= text_words(buf@));
    if words.len() == 0 {
        return Err(Error::IllegalMethod(String::new()));
    }
    let rest = vstd::slice::slice_subrange(words.as_slice(), 1, words.len());
    assert(texts(rest@) =~= texts(words@).drop_first());
    let method = words[0];
    if word_is(method, "GET") {
        match Get::parse(rest) {
            Ok(g) => Ok(Command::Get(g)),
            Err(e) => Err(e),
        }
    } else if word_is(method, "PUT") {
        match Put::parse(rest) {
            Ok(p) => Ok(Command::Put(p)),
            Err(e) => Err(e),
        }
    } else if word_is(method, "LIST") {
        match List::parse(rest) {
            Ok(l) => Ok(Command::List(l)),
            Err(e) => Err(e),
        }
    } else if word_is(method, "HELP") {
        Ok(Command::Help)
    } else {
        Err(Error::IllegalMethod(method.to_owned()))
    }
}

/// `FromUtf8Error`'s `Display` text; what it says is not stated here.
#[verifier::external_body]
fn utf8_error_text(e: &FromUtf8Error) -> String {
    e.to_string()
}

/// `std::io::Error`'s `Display` text; what it says is not stated here.
#[verifier::external_body]
fn io_error_text(e: &std::io::Error) -> String {
    e.to_string()
}

impl Error {
    /// The line the server answers with, without its newline.
    pub fn message(&self) -> (r: String)
        ensures
            match self {
                Error::IllegalMethod(m) => r@ == "ERR illegal method: "@ + m@,
                Error::Usage(u) => r@ == "ERR usage: "@ + u@,
                Error::IllegalDirName => r@ == "ERR illegal dir name"@,
                Error::IllegalFileName => r@ == "ERR illegal file name"@,
                _ => r@.len() >= 4 && r@.subrange(0, 4) == "ERR "@,
            },
    {
        match self {
            Error::IllegalMethod(method) => String::from_str("ERR illegal method: ").concat(
                method.as_str(),
            ),
            Error::Usage(usage) => String::from_str("ERR usage: ").concat(usage.as_str()),
            Error::IllegalDirName => String::from_str("ERR illegal dir name"),
            Error::IllegalFileName => String::from_str("ERR illegal file name"),
            Error::FromUtf8Error(error) => {
                let r = String::from_str("ERR ").concat(utf8_error_text(error).as_str());
                proof {
                    reveal_strlit("ERR ");
                    assert(r@.subrange(0, 4) =~= "ERR "@);
                }
                r
            },
            Error::IoError(error) => {
                let r = String::from_str("ERR ").concat(io_error_text(error).as_str());
                proof {
                    reveal_strlit("ERR ");
                    assert(r@.subrange(0, 4) =~= "ERR "@);
                }
                r
            },
        }
    }
}

} // verus!
