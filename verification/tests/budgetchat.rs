use protohackers::budgetchat::{
    delivers_to, joined_text, left_text, on_line, parse_message, room_listing, validate_name, ChatMsg,
    LineStep, NameError, ParseError,
};

fn check_parsed_message(parsed: Result<Option<String>, ParseError>, msg: &str) {
    assert!(parsed.is_ok());
    let parsed = parsed.unwrap();
    assert!(parsed.is_some());
    assert_eq!(parsed.unwrap(), msg);
}

#[test]
fn test_parse_single_message() {
    let parsed = parse_message(&mut b"hello world\n".to_vec());
    check_parsed_message(parsed, "hello world");

    let parsed = parse_message(&mut b"hello world\nhow are you?".to_vec());
    check_parsed_message(parsed, "hello world");

    let parsed = parse_message(&mut b"hello world".to_vec());
    assert!(parsed.is_ok());
    assert!(parsed.unwrap().is_none());

    let parsed = parse_message(&mut b"\n".to_vec());
    check_parsed_message(parsed, "");

    let parsed = parse_message(&mut b" hello \n".to_vec());
    check_parsed_message(parsed, " hello ");
}

#[test]
fn test_parse_multiple_messages() {
    let mut buffer = b"hello world\nhow are you?\n".to_vec();

    let parsed = parse_message(&mut buffer);
    check_parsed_message(parsed, "hello world");

    let parsed = parse_message(&mut buffer);
    check_parsed_message(parsed, "how are you?");
}

#[test]
fn parse_message_keeps_the_rest_of_the_buffer() {
    let mut buffer = b"one\ntwo".to_vec();
    check_parsed_message(parse_message(&mut buffer), "one");
    assert_eq!(buffer, b"two".to_vec());
    assert_eq!(parse_message(&mut buffer), Ok(None));
    assert_eq!(buffer, b"two".to_vec());
}

#[test]
fn parse_message_refuses_invalid_utf8_and_drops_the_line() {
    let mut buffer = vec![0xff, 0xfe, b'\n', b'o', b'k', b'\n'];
    assert_eq!(parse_message(&mut buffer), Err(ParseError::InvalidData));
    assert_eq!(buffer, b"ok\n".to_vec());
    check_parsed_message(parse_message(&mut buffer), "ok");
    assert!(buffer.is_empty());
}

#[test]
fn validate_name_accepts_alphanumerics() {
    assert_eq!(validate_name("alice42".to_string()), Ok("alice42".to_string()));
    assert_eq!(validate_name("Zoë".to_string()), Ok("Zoë".to_string()));
}

#[test]
fn validate_name_refuses_other_characters() {
    assert_eq!(validate_name("bob smith".to_string()), Err(NameError::InvalidName));
    assert_eq!(validate_name("bob!".to_string()), Err(NameError::InvalidName));
}

#[test]
fn chat_lines() {
    let msg = ChatMsg::from_user("alice", "hi there".to_string());
    assert_eq!(msg.subject, "alice");
    assert_eq!(msg.to_line(), "[alice] hi there\n");
    let msg = ChatMsg::from_system("bob", "bob has entered the room".to_string());
    assert_eq!(msg.subject, "bob");
    assert_eq!(msg.to_line(), "* bob has entered the room\n");
}

#[test]
fn room_texts() {
    assert_eq!(joined_text("bob"), "bob has entered the room");
    assert_eq!(left_text("bob"), "bob has left the room");
    assert_eq!(room_listing(&vec![]), "* The room contains: \n");
    assert_eq!(room_listing(&vec!["alice".to_string()]), "* The room contains: alice\n");
    assert_eq!(
        room_listing(&vec!["alice".to_string(), "bob".to_string()]),
        "* The room contains: alice, bob\n"
    );
}

#[test]
fn lines_reach_named_users_other_than_their_subject() {
    let msg = ChatMsg::from_user("alice", "hi".to_string());
    assert!(delivers_to(&msg, &Some("bob".to_string())));
    assert!(!delivers_to(&msg, &Some("alice".to_string())));
    assert!(!delivers_to(&msg, &None));
    assert_eq!(msg.to_line(), "[alice] hi\n");
    let sys = ChatMsg::from_system("bob", "bob has left the room".to_string());
    assert_eq!(sys.to_line(), "* bob has left the room\n");
}

#[test]
fn first_line_names_the_user_and_later_lines_are_said() {
    match on_line(&None, "alice".to_string()) {
        LineStep::Join(name) => assert_eq!(name, "alice"),
        other => panic!("unexpected {:?}", other),
    }
    assert!(matches!(on_line(&None, "al ice".to_string()), LineStep::Refuse));
    match on_line(&Some("alice".to_string()), "hi all".to_string()) {
        LineStep::Say(m) => assert_eq!(m.to_line(), "[alice] hi all\n"),
        other => panic!("unexpected {:?}", other),
    }
}
