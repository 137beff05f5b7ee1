use protohackers::vcs::{digest_text, Dir, File};
use protohackers::vcs::command::{parse, valid_file, valid_path, Command, Error};
use protohackers::vcs::NoSuchRevisionError;

#[test]
fn valid_paths() {
    assert!(valid_path("/"));
    assert!(valid_path("/foo/bar/"));
    assert!(valid_path("/foo/bar/file1.txt"));
    assert!(valid_path("/foo/bar1/file"));
}

#[test]
fn invalid_paths() {
    assert!(!valid_path("//"));
    assert!(!valid_path(r"/foo\/bar"));
    assert!(!valid_path("/foo//bar/file.txt"));
    assert!(!valid_path(r"/foo%/bar"));
    assert!(!valid_path("/foo/bär/"));
}

#[test]
fn valid_files() {
    assert!(valid_file("/foo/bar.txt"));
    assert!(!valid_file("/foo/bar/"));
    assert!(!valid_file("foo"));
}

#[test]
fn parse_get() {
    match parse(b"GET /a.txt r12") {
        Ok(Command::Get(get)) => {
            assert_eq!(get.filename, "/a.txt");
            assert_eq!(get.revision, Some(12));
        }
        _ => panic!("expected GET"),
    }
    match parse(b"  GET\t/a.txt  ") {
        Ok(Command::Get(get)) => {
            assert_eq!(get.filename, "/a.txt");
            assert_eq!(get.revision, None);
        }
        _ => panic!("expected GET"),
    }
    match parse(b"GET /a.txt rrx") {
        Ok(Command::Get(get)) => assert_eq!(get.revision, None),
        _ => panic!("expected GET"),
    }
}

#[test]
fn parse_put_and_list_and_help() {
    match parse(b"PUT /a.txt 42") {
        Ok(Command::Put(put)) => {
            assert_eq!(put.filename, "/a.txt");
            assert_eq!(put.length, 42);
        }
        _ => panic!("expected PUT"),
    }
    match parse(b"PUT /a.txt many") {
        Ok(Command::Put(put)) => assert_eq!(put.length, 0),
        _ => panic!("expected PUT"),
    }
    match parse(b"LIST /dir/") {
        Ok(Command::List(list)) => assert_eq!(list.dir, "/dir/"),
        _ => panic!("expected LIST"),
    }
    assert!(matches!(parse(b"HELP me"), Ok(Command::Help)));
}

#[test]
fn parse_errors() {
    assert!(matches!(parse(b""), Err(Error::IllegalMethod(m)) if m.is_empty()));
    assert!(matches!(parse(b"FETCH /a"), Err(Error::IllegalMethod(m)) if m == "FETCH"));
    assert!(matches!(parse(b"get /a"), Err(Error::IllegalMethod(m)) if m == "get"));
    assert!(matches!(parse(b"GET"), Err(Error::Usage(u)) if u == "GET file [revision]"));
    assert!(matches!(parse(b"GET /a r1 x"), Err(Error::Usage(_))));
    assert!(matches!(parse(b"PUT /a"), Err(Error::Usage(u)) if u == "PUT file length newline data"));
    assert!(matches!(parse(b"LIST"), Err(Error::Usage(u)) if u == "LIST dir"));
    assert!(matches!(parse(b"GET /a/"), Err(Error::IllegalFileName)));
    assert!(matches!(parse(b"PUT a 1"), Err(Error::IllegalFileName)));
    assert!(matches!(parse(b"LIST /a//b"), Err(Error::IllegalDirName)));
    assert!(matches!(parse(&[0xff, 0x20]), Err(Error::FromUtf8Error(_))));
}

#[test]
fn error_messages() {
    assert_eq!(Error::IllegalMethod("X".to_string()).message(), "ERR illegal method: X");
    assert_eq!(Error::Usage("LIST dir".to_string()).message(), "ERR usage: LIST dir");
    assert_eq!(Error::IllegalDirName.message(), "ERR illegal dir name");
    assert_eq!(Error::IllegalFileName.message(), "ERR illegal file name");
    match parse(&[0xff]) {
        Err(e) => assert!(e.message().starts_with("ERR ")),
        Ok(_) => panic!("expected an error"),
    }
    assert_eq!(NoSuchRevisionError {}.message(), "ERR no such revision");
}

fn digest(byte: u8) -> [u8; 16] {
    [byte; 16]
}

#[test]
fn file_revisions_count_up_and_skip_repeats() {
    let mut f = File::default();
    assert!(f.add_revision(digest(1)));
    assert!(!f.add_revision(digest(1)));
    assert!(f.add_revision(digest(2)));
    assert!(f.add_revision(digest(1)));
    assert_eq!(f.path(Some(1)).ok(), Some(format!("vcs/{}", "01".repeat(16))));
    assert_eq!(f.path(Some(2)).ok(), Some(format!("vcs/{}", "02".repeat(16))));
    assert_eq!(f.path(None).ok(), Some(format!("vcs/{}", "01".repeat(16))));
    assert_eq!(f.path(Some(4)).err().map(|e| e.message()), Some("ERR no such revision".to_string()));
}

#[test]
fn file_path_is_the_md5_digest_in_hex() {
    let mut f = File::default();
    f.add_revision(md5::compute(b"").0);
    assert_eq!(f.path(None).ok(), Some("vcs/d41d8cd98f00b204e9800998ecf8427e".to_string()));
    let mut g = File::default();
    let bytes: [u8; 16] = [0, 1, 2, 3, 4, 5, 6, 7, 8, 9, 10, 11, 12, 13, 14, 15];
    g.add_revision(bytes);
    assert_eq!(g.path(Some(1)).ok(), Some("vcs/000102030405060708090a0b0c0d0e0f".to_string()));
}

#[test]
fn dir_adds_revisions_along_a_path() {
    let mut root = Dir::default();
    assert_eq!(root.add_revision("/a/b/file.txt", digest(1)).ok(), Some((1, true)));
    assert_eq!(root.add_revision("/a/b/file.txt", digest(1)).ok(), Some((1, false)));
    assert_eq!(root.add_revision("/a/b/file.txt", digest(2)).ok(), Some((2, true)));
    assert_eq!(root.add_revision("/a/other.txt", digest(3)).ok(), Some((1, true)));
    let file = root.find_file("/a/b/file.txt").unwrap();
    assert_eq!(file.path(None).ok(), Some(format!("vcs/{}", "02".repeat(16))));
    assert!(root.find_file("/a/b/missing.txt").is_none());
    assert!(root.find_file("/a/b").is_none());
    assert!(root.find_file("/a/b/file.txt/").is_some());
    assert!(root.find_dir("/a/b").is_some());
    assert!(root.find_dir("/a/c").is_none());
    assert!(root.find_dir("/").is_some());
}

#[test]
fn dir_listing_is_sorted_and_hides_dirs_named_like_files() {
    let mut root = Dir::default();
    root.add_revision("/zeta", digest(1)).unwrap();
    root.add_revision("/beta", digest(1)).unwrap();
    root.add_revision("/beta", digest(2)).unwrap();
    root.add_revision("/alpha/inner", digest(1)).unwrap();
    root.add_revision("/beta/inner", digest(1)).unwrap();
    root.add_revision("/gamma/inner", digest(1)).unwrap();
    assert_eq!(root.to_string(), "OK 4\nalpha/ DIR\ngamma/ DIR\nbeta r2\nzeta r1\n");
    assert_eq!(root.find_dir("/beta").unwrap().to_string(), "OK 1\ninner r1\n");
    assert_eq!(Dir::default().to_string(), "OK 0\n");
}

#[test]
fn dir_refuses_paths_that_do_not_end_in_a_name() {
    let mut root = Dir::default();
    assert_eq!(root.try_add_revision("/", digest(1)), None);
    assert_eq!(root.try_add_revision("/a/..", digest(1)), None);
    assert_eq!(root.to_string(), "OK 0\n");
    assert_eq!(root.try_add_revision("/a/b", digest(1)), Some((1, true)));
    assert_eq!(root.to_string(), "OK 1\na/ DIR\n");
}

#[test]
fn put_content_keeps_revisions_by_md5_digest() {
    assert_eq!(digest_text(b""), "d41d8cd98f00b204e9800998ecf8427e");
    assert_eq!(digest_text(b"hello"), "5d41402abc4b2a76b9719d911017c592");
    let mut root = Dir::default();
    assert_eq!(root.put_content("/a/file.txt", b"hello"), Some((1, true)));
    assert_eq!(root.put_content("/a/file.txt", b"hello"), Some((1, false)));
    assert_eq!(root.put_content("/a/file.txt", b""), Some((2, true)));
    let file = root.find_file("/a/file.txt").unwrap();
    assert_eq!(file.path(Some(1)).ok(), Some("vcs/5d41402abc4b2a76b9719d911017c592".to_string()));
    assert_eq!(file.path(None).ok(), Some("vcs/d41d8cd98f00b204e9800998ecf8427e".to_string()));
    assert_eq!(root.put_content("/", b"hello"), None);
}
