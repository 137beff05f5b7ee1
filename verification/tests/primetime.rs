use protohackers::primetime::{is_prime, process_message, MessageError, MethodField, NumberField};

#[test]
fn test_is_prime() {
    assert!(is_prime(2));
    assert!(is_prime(3));
    assert!(is_prime(17));
    assert!(is_prime(103));
    assert!(is_prime(8297));
    assert!(is_prime(75487079));

    assert!(!is_prime(1));
    assert!(!is_prime(16));
    assert!(!is_prime(22));
    assert!(!is_prime(44));
    assert!(!is_prime(100));
}

#[test]
fn is_prime_edges() {
    assert!(!is_prime(0));
    assert!(!is_prime(4));
    assert!(!is_prime(9));
    assert!(!is_prime(25));
    assert!(is_prime(1_000_000_007));
    assert!(!is_prime(u64::MAX));
    assert!(!is_prime(1_000_003 * 1_000_033));
}

#[test]
fn process_message_answers_prime_requests() {
    let method = MethodField::Text("isPrime".to_string());
    assert_eq!(process_message(&method, &NumberField::Unsigned(7)), Ok(true));
    assert_eq!(process_message(&method, &NumberField::Unsigned(8)), Ok(false));
    assert_eq!(process_message(&method, &NumberField::OtherNumber), Ok(false));
}

#[test]
fn process_message_refuses_bad_requests() {
    let method = MethodField::Text("isPrime".to_string());
    assert_eq!(process_message(&method, &NumberField::Missing), Err(MessageError::Invalid));
    assert_eq!(process_message(&method, &NumberField::NotANumber), Err(MessageError::Invalid));
    let other = MethodField::Text("isprime".to_string());
    assert_eq!(process_message(&other, &NumberField::Unsigned(7)), Err(MessageError::Invalid));
    assert_eq!(
        process_message(&MethodField::Missing, &NumberField::Unsigned(7)),
        Err(MessageError::Invalid)
    );
    assert_eq!(
        process_message(&MethodField::NotText, &NumberField::Unsigned(7)),
        Err(MessageError::Invalid)
    );
}
