use protohackers::insecure;
use protohackers::isl;

#[test]
fn insecure_test_find_toy() {
    assert_eq!(
        insecure::find_toy("10x toy car,15x dog on a string,4x inflatable motorcycle"),
        "15x dog on a string"
    );
    assert_eq!(insecure::find_toy("15x dog on a string"), "15x dog on a string");
}

#[test]
fn isl_test_find_toy() {
    assert_eq!(
        isl::find_toy("10x toy car,15x dog on a string,4x inflatable motorcycle"),
        "15x dog on a string"
    );
    assert_eq!(isl::find_toy("15x dog on a string"), "15x dog on a string");
}

#[test]
fn find_toy_prefers_the_last_of_equal_counts() {
    assert_eq!(insecure::find_toy("3x car,3x doll,2x ball"), "3x doll");
}

#[test]
fn find_toy_reads_a_plus_sign() {
    assert_eq!(insecure::find_toy("+7x kite,6x yo-yo"), "+7x kite");
}

#[test]
fn try_find_toy_refuses_a_toy_without_number() {
    assert_eq!(insecure::try_find_toy("10x car,doll"), None);
    assert_eq!(insecure::try_find_toy(""), None);
    assert_eq!(insecure::try_find_toy("x car"), None);
    assert_eq!(insecure::try_find_toy("99999999999x car"), None);
    assert_eq!(insecure::try_find_toy("2x car,5x ünïcode"), Some("5x ünïcode"));
}
