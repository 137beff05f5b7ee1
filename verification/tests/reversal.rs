use protohackers::reversal::{next_line, reverse_line};

#[test]
fn reverses_a_line() {
    assert_eq!(reverse_line("hello"), "olleh\n");
    assert_eq!(reverse_line(""), "\n");
    assert_eq!(reverse_line("ab→c"), "c→ba\n");
}

#[test]
fn takes_complete_lines_only() {
    let mut buf = "one\ntwo\nthr".to_string();
    assert_eq!(next_line(&mut buf), Some("one".to_string()));
    assert_eq!(next_line(&mut buf), Some("two".to_string()));
    assert_eq!(next_line(&mut buf), None);
    assert_eq!(buf, "thr");
}
