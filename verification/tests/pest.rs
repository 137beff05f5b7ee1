use protohackers::pest::msg::{
    decode_populations, decode_str, decode_target_populations, decode_u32, encode_str, Error,
    Population, TargetPopulation,
};

#[test]
fn test_encode_decode_str() {
    let str = "hello my valentine!";
    let encoded = encode_str(str);

    assert_eq!(decode_str(&encoded), Ok(str.to_string()))
}

#[test]
fn test_decode_target_populations() {
    let bytes = [
        0x00, 0x00, 0x00, 0x02, 0x00, 0x00, 0x00, 0x03, 0x64, 0x6f, 0x67, 0x00, 0x00, 0x00, 0x01,
        0x00, 0x00, 0x00, 0x03, 0x00, 0x00, 0x00, 0x03, 0x72, 0x61, 0x74, 0x00, 0x00, 0x00, 0x00,
        0x00, 0x00, 0x00, 0x0a,
    ];
    let decoded = decode_target_populations(&bytes);

    assert_eq!(
        decoded,
        Ok(vec![
            TargetPopulation {
                species: "dog".to_string(),
                min: 1,
                max: 3
            },
            TargetPopulation {
                species: "rat".to_string(),
                min: 0,
                max: 10
            }
        ])
    );
}

#[test]
fn test_decode_populations() {
    let bytes = [
        0x00, 0x00, 0x00, 0x02, 0x00, 0x00, 0x00, 0x03, 0x64, 0x6f, 0x67, 0x00, 0x00, 0x00, 0x01,
        0x00, 0x00, 0x00, 0x03, 0x72, 0x61, 0x74, 0x00, 0x00, 0x00, 0x05,
    ];

    let decoded = decode_populations(&bytes);

    assert_eq!(
        decoded,
        Ok(vec![
            Population {
                species: "dog".to_string(),
                count: 1,
            },
            Population {
                species: "rat".to_string(),
                count: 5
            }
        ])
    );
}

#[test]
fn pest_decode_u32_exact_value() {
    assert_eq!(decode_u32(&[0x01, 0x02, 0x03, 0x04, 0x05]), Ok(0x01020304));
}

#[test]
fn pest_decode_errors() {
    assert!(decode_u32(&[0x01, 0x02, 0x03]).is_err());
    assert!(decode_str(&[0x00, 0x00, 0x00, 0x05, b'a']).is_err());
    assert_eq!(decode_str(&[0x00, 0x00, 0x00, 0x01, 0xff]), Err(Error::FromUtf8Error));
    assert!(decode_populations(&[0x00, 0x00, 0x00, 0x01]).is_err());
}
