use protohackers::pestcontrol;
use protohackers::pestcontrol::msg::{
    CreatePolicy, DialAuth, ErrorMsg, Hello, Msg, Policy, SiteVisit, TargetPopulations,
};
use protohackers::pestcontrol::{Action, Decodable, Error, Population, TargetPopulation};

#[test]
fn test_encode_decode_string() {
    let str = "hello my valentine!".to_string();
    let encoded = str.encode();

    assert!(matches!(String::decode(&encoded), Ok(s) if s == str))
}

#[test]
fn test_decode_encode_target_populations() {
    let target_populations = vec![
        TargetPopulation {
            species: "dog".to_string(),
            min: 1,
            max: 3,
        },
        TargetPopulation {
            species: "rat".to_string(),
            min: 0,
            max: 10,
        },
    ];

    let encoded = target_populations.encode();

    let decoded: pestcontrol::Result<Vec<TargetPopulation>> = Vec::decode(&encoded);

    assert!(matches!(
        decoded,
        Ok(tp) if tp == target_populations
    ));
}

#[test]
fn test_decode_encode_populations() {
    let populations = vec![
        Population {
            species: "dog".to_string(),
            count: 1,
        },
        Population {
            species: "rat".to_string(),
            count: 5,
        },
    ];

    let encoded = populations.encode();

    let decoded: pestcontrol::Result<Vec<Population>> = Vec::decode(&encoded);

    assert!(matches!(
        decoded,
        Ok(p) if p == populations
    ));
}

#[test]
fn encode_decode_hello() {
    let msg = Hello::default();
    let encoded = Msg::Hello(msg.clone()).encode();
    assert!(matches!(Msg::decode(&encoded), Ok(Msg::Hello(m)) if m == msg));
}

#[test]
fn encode_decode_error() {
    let msg = ErrorMsg {
        message: "error".to_string(),
    };
    let encoded = Msg::Error(msg.clone()).encode();
    assert!(matches!(Msg::decode(&encoded), Ok(Msg::Error(m)) if m == msg));
}

#[test]
fn encode_decode_ok() {
    let encoded = Msg::OkReply.encode();
    assert!(matches!(Msg::decode(&encoded), Ok(Msg::OkReply)));
}

#[test]
fn encode_decode_dial_auth() {
    let msg = DialAuth { site: 123 };
    let encoded = Msg::DialAuth(msg.clone()).encode();
    assert!(matches!(Msg::decode(&encoded), Ok(Msg::DialAuth(m)) if m == msg));
}

#[test]
fn encode_decode_target_populations() {
    let populations = vec![
        TargetPopulation {
            species: "dog".to_string(),
            min: 1,
            max: 3,
        },
        TargetPopulation {
            species: "rat".to_string(),
            min: 0,
            max: 10,
        },
    ];

    let msg = TargetPopulations {
        site: 123,
        populations,
    };
    let encoded = Msg::TargetPopulations(msg.clone()).encode();
    assert!(matches!(Msg::decode(&encoded), Ok(Msg::TargetPopulations(m)) if m == msg));
}

#[test]
fn encode_decode_create_polocy() {
    let msg = CreatePolicy {
        species: "dog".to_string(),
        action: Action::Cull,
    };
    let encoded = Msg::CreatePolicy(msg.clone()).encode();
    assert!(matches!(Msg::decode(&encoded), Ok(Msg::CreatePolicy(m)) if m == msg));
}

#[test]
fn encode_decode_delete_policy() {
    let msg = Policy { policy: 123 };
    let encoded = Msg::DeletePolicy(msg.clone()).encode();
    assert!(matches!(Msg::decode(&encoded), Ok(Msg::DeletePolicy(m)) if m == msg));
}

#[test]
fn encode_decode_policy_result() {
    let msg = Policy { policy: 123 };
    let encoded = Msg::PolicyResult(msg.clone()).encode();
    assert!(matches!(Msg::decode(&encoded), Ok(Msg::PolicyResult(m)) if m == msg));
}

#[test]
fn encode_decode_site_visit() {
    let msg = SiteVisit {
        site: 123,
        populations: vec![
            Population {
                species: "dog".to_string(),
                count: 30,
            },
            Population {
                species: "rat".to_string(),
                count: 3000,
            },
        ],
    };
    let encoded = Msg::SiteVisit(msg.clone()).encode();
    assert!(matches!(Msg::decode(&encoded), Ok(Msg::SiteVisit(m)) if m == msg));
}

#[test]
fn hello_bytes_on_the_wire() {
    let encoded = Msg::Hello(Hello::default()).encode();
    let expected: Vec<u8> = vec![
        0x50, 0x00, 0x00, 0x00, 0x19, 0x00, 0x00, 0x00, 0x0b, 0x70, 0x65, 0x73, 0x74, 0x63, 0x6f,
        0x6e, 0x74, 0x72, 0x6f, 0x6c, 0x00, 0x00, 0x00, 0x01, 0xce,
    ];
    assert_eq!(encoded, expected);
}

#[test]
fn pestcontrol_decode_errors() {
    let mut encoded = Msg::DialAuth(DialAuth { site: 1 }).encode();
    let last = encoded.len() - 1;
    encoded[last] = encoded[last].wrapping_add(1);
    assert_eq!(Msg::decode(&encoded), Err(Error::InvalidChecksum));
    assert!(Msg::decode(&[0x58, 0x00]).is_err());
    assert_eq!(Action::decode(&[0x77]), Err(Error::InvalidAction));
    assert_eq!(Action::decode(&[0x90]), Ok(Action::Cull));
    assert_eq!(Action::decode(&[0xa0]), Ok(Action::Conserve));
}

#[test]
fn try_decode_refuses_only_what_cannot_be_read() {
    // Five bytes summing to zero: a checksum that holds over too few bytes.
    assert_eq!(Msg::try_decode(&[0x52, 0x00, 0x00, 0x00, 0xae]), None);
    // The same length with a bad checksum is an error.
    assert_eq!(Msg::try_decode(&[0x52, 0x00, 0x00, 0x00, 0x05]), Some(Err(Error::InvalidChecksum)));
    let ok = Msg::OkReply.encode();
    assert_eq!(Msg::try_decode(&ok), Some(Ok(Msg::OkReply)));
}
