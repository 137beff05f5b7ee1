use protohackers::unusualdb::{parse_request, Db, Request};

#[test]
fn parses_insert_and_retrieve() {
    assert_eq!(
        parse_request(b"foo=bar"),
        Some(Request::Insert("foo".to_string(), "bar".to_string()))
    );
    assert_eq!(
        parse_request(b"foo=bar=baz"),
        Some(Request::Insert("foo".to_string(), "bar=baz".to_string()))
    );
    assert_eq!(parse_request(b"foo="), Some(Request::Insert("foo".to_string(), String::new())));
    assert_eq!(parse_request(b"=foo"), Some(Request::Insert(String::new(), "foo".to_string())));
    assert_eq!(parse_request(b"foo"), Some(Request::Retrieve("foo".to_string())));
    assert_eq!(parse_request(b""), Some(Request::Retrieve(String::new())));
    assert_eq!(parse_request(&[0xff, b'=', b'a']), None);
    assert_eq!(parse_request(&[0xff]), None);
}

#[test]
fn version_is_there_from_the_start() {
    let mut db = Db::new();
    assert_eq!(
        db.apply(Request::Retrieve("version".to_string())),
        Some("version=Db version 0.1.0".to_string())
    );
    assert_eq!(db.apply(Request::Retrieve("missing".to_string())), None);
}

#[test]
fn retrieve_gives_what_was_inserted() {
    let mut db = Db::new();
    assert_eq!(db.apply(Request::Insert("foo".to_string(), "bar".to_string())), None);
    assert_eq!(db.apply(Request::Retrieve("foo".to_string())), Some("foo=bar".to_string()));
    db.apply(Request::Insert("foo".to_string(), "baz".to_string()));
    assert_eq!(db.apply(Request::Retrieve("foo".to_string())), Some("foo=baz".to_string()));
    db.apply(Request::Insert(String::new(), "empty".to_string()));
    assert_eq!(db.apply(Request::Retrieve(String::new())), Some("=empty".to_string()));
}

#[test]
fn version_cannot_be_changed() {
    let mut db = Db::new();
    assert_eq!(db.apply(Request::Insert("version".to_string(), "hacked".to_string())), None);
    assert_eq!(
        db.apply(Request::Retrieve("version".to_string())),
        Some("version=Db version 0.1.0".to_string())
    );
}
