use protohackers::isl::cipher::{Cipher, Error};
use protohackers::isl::find_end_of_cipher;

#[test]
fn encoding_and_decoding() {
    let cipher = Cipher::new(&[0x02, 0x10, 0x01, 0x03, 0x05, 0x04, 0xF1]).unwrap();

    let cleartext = b"10x toy car,15x dog on a string,4x inflatable motorcycle";
    let mut encoded = cleartext.to_owned();

    cipher.encode(&mut encoded[..], 10);

    assert_ne!(cleartext[..], encoded);

    cipher.decode(&mut encoded[..], 10);

    assert_eq!(cleartext[..], encoded);
}

#[test]
fn noop_detection() {
    let valid_cipher = Cipher::new(&[0x02, 0x10, 0x01, 0x03, 0x05, 0x04, 0xF1]).unwrap();

    assert!(!valid_cipher.is_noop());

    let noop_cipher = Cipher::new(&[0x02, 0xa0, 0x02, 0x0b, 0x02, 0xab]).unwrap();

    assert!(noop_cipher.is_noop());
}

#[test]
fn cipher_examples_from_the_protocol() {
    // xor(1),reversebits
    let cipher = Cipher::new(&[0x02, 0x01, 0x01]).unwrap();
    let mut bytes = *b"hello";
    cipher.encode(&mut bytes, 0);
    assert_eq!(bytes, [0x96, 0x26, 0xb6, 0xb6, 0x76]);

    // addpos,addpos
    let cipher = Cipher::new(&[0x05, 0x05]).unwrap();
    let mut bytes = *b"hello";
    cipher.encode(&mut bytes, 0);
    assert_eq!(bytes, [0x68, 0x67, 0x70, 0x72, 0x77]);
}

#[test]
fn cipher_errors() {
    assert!(matches!(Cipher::new(&[0x07]), Err(Error::InvalidOp(7))));
    assert!(matches!(Cipher::new(&[0x01, 0x00]), Err(Error::InvalidOp(0))));
    assert!(matches!(Cipher::new(&[0x01, 0x02]), Err(Error::MissingOperand(1))));
}

#[test]
fn end_of_cipher_spec() {
    assert_eq!(find_end_of_cipher(&[0x02, 0x00, 0x01, 0x00, 0x61]), Some(3));
    assert_eq!(find_end_of_cipher(&[0x04, 0x00]), None);
    assert_eq!(find_end_of_cipher(&[0x00]), Some(0));
}

#[test]
fn encoding_undoes_decoding() {
    let cipher = Cipher::new(&[0x02, 0x7b, 0x05, 0x01]).unwrap();
    let original = b"4x dog,5x car\n".to_vec();
    let mut bytes = original.clone();
    cipher.decode(&mut bytes[..], 7);
    assert_ne!(bytes, original);
    cipher.encode(&mut bytes[..], 7);
    assert_eq!(bytes, original);
}
