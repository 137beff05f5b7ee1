//! Budget chat: splitting the byte stream into lines, checking names, and
//! the lines the room sends.
use vstd::prelude::*;
use vstd::utf8::*;
use vstd::string::StringExecFns;
use crate::util::{find_first, find_byte, copy_range, string_from_utf8};

verus! {

/// Why a line could not be read: its bytes are not UTF-8.
#[derive(Debug, PartialEq, Eq)]
pub enum ParseError {
    InvalidData,
}

/// Takes the first line off `buffer`, newline included, and gives its text
/// without the newline; gives `None`, leaving `buffer` as it was, where no
/// line is complete yet. A line that is not UTF-8 is an error, and is taken
/// off all the same.
pub fn parse_message(buffer: &mut Vec<u8>) -> (r: Result<Option<String>, ParseError>)
    ensures
        match find_first(old(buffer)@, 10u8) {
            None => r == Ok::<Option<String>, ParseError>(None) && final(buffer)@ == old(buffer)@,
            Some(pos) => {
                let line = old(buffer)@.subrange(0, pos);
                &&& final(buffer)@ == old(buffer)@.subrange(pos + 1, old(buffer)@.len() as int)
                &&& match r {
                    Ok(Some(s)) => valid_utf8(line) && s@ == decode_utf8(line),
                    Ok(None) => false,
                    Err(e) => !valid_utf8(line) && e == ParseError::InvalidData,
                }
            },
        },
{
    let len = buffer.len();
    match find_byte(buffer.as_slice(), 0, len, 10u8) {
        None => {
            assert(buffer@.subrange(0, len as int) =~= buffer@);
            Ok(None)
        },
        Some(pos) => {
            assert(buffer@.subrange(0, len as int) =~= buffer@);
            let line = copy_range(buffer.as_slice(), 0, pos);
            let rest = copy_range(buffer.as_slice(), pos + 1, len);
            *buffer = rest;
            match string_from_utf8(line.as_slice()) {
                Some(s) => Ok(Some(s)),
                None => Err(ParseError::InvalidData),
            }
        },
    }
}

/// Whether `char::is_alphanumeric` holds of `c`: whether `c` is Unicode
/// Alphabetic or Numeric.
pub uninterp spec fn alphanumeric(c: char) -> bool;

/// `char::is_alphanumeric`; the Unicode tables behind it are only named by
/// `alphanumeric` here.
#[verifier::external_body]
fn is_alphanumeric(c: char) -> (r: bool)
    ensures
        r == alphanumeric(c),
{
    c.is_alphanumeric()
}

/// Why a name was refused.
#[derive(Debug, PartialEq, Eq)]
pub enum NameError {
    InvalidName,
}

/// Accepts a name made of alphanumeric characters only.
pub fn validate_name(name: String) -> (r: Result<String, NameError>)
    ensures
        match r {
            Ok(n) => n@ == name@ && forall|i: int| 0 <= i < name@.len() ==> alphanumeric(#[trigger] name@[i]),
            Err(e) => e == NameError::InvalidName && exists|i: int| 0 <= i < name@.len() && !alphanumeric(#[trigger] name@[i]),
        },
{
    let mut all = true;
    for c in it: name.as_str().chars()
        invariant
            it.seq() == name@,
            all <==> forall|i: int| 0 <= i < it.index() ==> alphanumeric(#[trigger] name@[i]),
    {
        if !is_alphanumeric(c) {
            all = false;
        }
    }
    if !all {
        return Err(NameError::InvalidName);
    }
    Ok(name)
}

/// Who a chat line is from: the room itself, or a user.
#[derive(Clone, Debug, PartialEq, Eq)]
pub enum ChatMsgSender {
    System,
    User,
}

/// A line for the room: who it is about, who sends it, and its text.
#[derive(Clone, Debug)]
pub struct ChatMsg {
    pub subject: String,
    sender: ChatMsgSender,
    msg: String,
}

/// How a chat line reads on the wire: `[name] text` from a user, `* text`
/// from the room, each ended by a newline.
pub open spec fn chat_line(sender: ChatMsgSender, subject: Seq<char>, msg: Seq<char>) -> Seq<
    char,
> {
    match sender {
        ChatMsgSender::User => seq!['['] + subject + seq![']', ' '] + msg + seq!['\n'],
        ChatMsgSender::System => seq!['*', ' '] + msg + seq!['\n'],
    }
}

impl ChatMsg {
    /// Who the line is about.
    pub closed spec fn subject_of(&self) -> Seq<char> {
        self.subject@
    }

    /// Who sends the line.
    pub closed spec fn sender_of(&self) -> ChatMsgSender {
        self.sender
    }

    /// The text of the line.
    pub closed spec fn text(&self) -> Seq<char> {
        self.msg@
    }

    pub fn from_user(subject: &str, msg: String) -> (r: Self)
        ensures
            r.subject_of() == subject@,
            r.sender_of() == ChatMsgSender::User,
            r.text() == msg@,
    {
        Self { subject: subject.to_owned(), sender: ChatMsgSender::User, msg }
    }

    pub fn from_system(subject: &str, msg: String) -> (r: Self)
        ensures
            r.subject_of() == subject@,
            r.sender_of() == ChatMsgSender::System,
            r.text() == msg@,
    {
        Self { subject: subject.to_owned(), sender: ChatMsgSender::System, msg }
    }

    /// The line as it is sent to the other users.
    pub fn to_line(&self) -> (r: String)
        ensures
            r@ == chat_line(self.sender_of(), self.subject_of(), self.text()),
    {
        let mut line = String::new();
        match self.sender {
            ChatMsgSender::User => {
                line.append("[");
                line.append(self.subject.as_str());
                line.append("] ");
                proof {
                    reveal_strlit("[");
                    reveal_strlit("] ");
                }
            },
            ChatMsgSender::System => {
                line.append("* ");
                proof {
                    reveal_strlit("* ");
                }
            },
        }
        line.append(self.msg.as_str());
        line.append("\n");
        proof {
            reveal_strlit("\n");
        }
        assert(line@ =~= chat_line(self.sender_of(), self.subject_of(), self.text()));
        line
    }
}

/// `NAME has entered the room`.
pub fn joined_text(name: &str) -> (r: String)
    ensures
        r@ == name@ + " has entered the room"@,
{
    String::from_str(name).concat(" has entered the room")
}

/// `NAME has left the room`.
pub fn left_text(name: &str) -> (r: String)
    ensures
        r@ == name@ + " has left the room"@,
{
    String::from_str(name).concat(" has left the room")
}

/// The names joined by `, `.
pub open spec fn joined_names(names: Seq<Seq<char>>) -> Seq<char>
    decreases names.len(),
{
    if names.len() == 0 {
        seq![]
    } else if names.len() == 1 {
        names[0]
    } else {
        joined_names(names.drop_last()) + ", "@ + names.last()
    }
}

/// What a newcomer is told of who is in the room:
/// `* The room contains: NAME, NAME\n`.
pub fn room_listing(names: &Vec<String>) -> (r: String)
    ensures
        r@ == "* The room contains: "@ + joined_names(names@.map_values(|n: String| n@)) + "\n"@,
{
    let ghost texts = names@.map_values(|n: String| n@);
    let mut list = String::new();
    let mut i: usize = 0;
    while i < names.len()
        invariant
            i <= names@.len(),
            texts == names@.map_values(|n: String| n@),
            list@ == joined_names(texts.subrange(0, i as int)),
        decreases names@.len() - i,
    {
        if i > 0 {
            list.append(", ");
        }
        list.append(names[i].as_str());
        proof {
            let t = texts.subrange(0, i + 1);
            assert(t.drop_last() =~= texts.subrange(0, i as int));
            if i == 0 {
                assert(joined_names(texts.subrange(0, 0)) =~= Seq::<char>::empty());
                assert(t.len() == 1);
            }
        }
        i = i + 1;
    }
    assert(texts.subrange(0, names@.len() as int) =~= texts);
    String::from_str("* The room contains: ").concat(list.as_str()).concat("\n")
}

/// Whether a chat line goes to a user: once named, a user gets every line
/// that is not about themself.
pub fn delivers_to(msg: &ChatMsg, user_name: &Option<String>) -> (r: bool)
    ensures
        r == (user_name matches Some(n) && msg.subject_of() != n@),
{
    match user_name {
        Some(name) => !(msg.subject == *name),
        None => false,
    }
}

/// What a line from a user does.
#[derive(Debug)]
pub enum LineStep {
    /// The first line names the user, who joins the room.
    Join(String),
    /// The first line is no acceptable name: the user is told so, and goes.
    Refuse,
    /// A later line goes to the room, from the user.
    Say(ChatMsg),
}

/// A line from a user named `user_name` so far: without a name yet, the
/// line is the name, taken where it is alphanumeric and refused otherwise;
/// with one, the line is said to the room.
pub fn on_line(user_name: &Option<String>, line: String) -> (r: LineStep)
    ensures
        match user_name {
            None => if forall|i: int| 0 <= i < line@.len() ==> alphanumeric(#[trigger] line@[i]) {
                r matches LineStep::Join(n) && n@ == line@
            } else {
                r is Refuse
            },
            Some(n) => r matches LineStep::Say(m) && m.subject_of() == n@ && m.sender_of() == ChatMsgSender::User
                && m.text() == line@,
        },
{
    match user_name {
        None => match validate_name(line) {
            Ok(name) => LineStep::Join(name),
            Err(_) => LineStep::Refuse,
        },
        Some(name) => LineStep::Say(ChatMsg::from_user(name.as_str(), line)),
    }
}

} // verus!
