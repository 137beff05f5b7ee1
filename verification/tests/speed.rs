use protohackers::speed::msg::{
    decode_str, decode_u16, decode_u32, encode_str, Error, Heartbeat, IAmCamera, IAmDispatcher,
    Plate, Ticket, WantHeartbeat,
};
use protohackers::speed::DecodeError::TooShort;
use protohackers::speed::{decode_msg, try_decode_msg, DecodeError, DecodedMsg};
use std::collections::HashSet;

#[test]
fn decode_error_message_too_short() {
    let bytes = [0x80, 0x42, 0x00, 0x64, 0x00, 0x3c];
    let decoded = decode_msg(&bytes);
    assert!(decoded.is_err());
    assert!(matches!(decoded.unwrap_err(), TooShort));
}

#[test]
fn decode_iam_camera() {
    let bytes = [0x80, 0x00, 0x42, 0x00, 0x64, 0x00, 0x3c];
    let decoded = decode_msg(&bytes);
    assert!(decoded.is_ok());
    assert_eq!(
        decoded.unwrap(),
        DecodedMsg::IAmCamera(IAmCamera {
            road: 66,
            mile: 100,
            limit: 60
        })
    );
}

#[test]
fn decode_iam_dispatcher() {
    let bytes = [0x81, 0x03, 0x00, 0x42, 0x01, 0x70, 0x13, 0x88];
    let decoded = decode_msg(&bytes);
    assert!(decoded.is_ok());
    assert_eq!(
        decoded.unwrap(),
        DecodedMsg::IAmDispatcher(IAmDispatcher {
            roads: Vec::from([66, 368, 5000])
        })
    );
}

#[test]
fn decode_want_heartbeat() {
    let bytes = [0x40, 0x00, 0x00, 0x00, 0x0a];
    let decoded = decode_msg(&bytes);
    assert!(decoded.is_ok());
    assert_eq!(
        decoded.unwrap(),
        DecodedMsg::WantHeartbeat(WantHeartbeat { interval: 10 })
    );
}

#[test]
fn decode_plate() {
    let bytes = [0x20, 0x04, 0x55, 0x4e, 0x31, 0x58, 0x00, 0x00, 0x03, 0xe8];
    let decoded = decode_msg(&bytes);
    assert!(decoded.is_ok());
    assert_eq!(
        decoded.unwrap(),
        DecodedMsg::Plate(Plate {
            plate: "UN1X".to_owned(),
            ts: 1000
        })
    );
}

#[test]
fn decoded_sizes() {
    let plate = decode_msg(&[0x20, 0x04, 0x55, 0x4e, 0x31, 0x58, 0x00, 0x00, 0x03, 0xe8]).unwrap();
    assert_eq!(plate.size(), 10);
    let dispatcher = decode_msg(&[0x81, 0x03, 0x00, 0x42, 0x01, 0x70, 0x13, 0x88]).unwrap();
    assert_eq!(dispatcher.size(), 8);
    assert_eq!(decode_msg(&[0x40, 0, 0, 0, 1]).unwrap().size(), 5);
    assert_eq!(decode_msg(&[0x80, 0, 1, 0, 2, 0, 3]).unwrap().size(), 7);
    assert_eq!(decode_msg(&[0x99]).unwrap().size(), 0);
}

#[test]
fn decode_unknown_and_empty() {
    assert_eq!(decode_msg(&[0x99, 0x01]), Ok(DecodedMsg::Unknown));
    assert_eq!(decode_msg(&[]), Err(DecodeError::TooShort));
    assert_eq!(decode_msg(&[0x20, 0x04, 0x55]), Err(DecodeError::TooShort));
    assert_eq!(decode_msg(&[0x81, 0x02, 0x00, 0x42, 0x01]), Err(DecodeError::TooShort));
}

#[test]
fn try_decode_msg_marks_unreadable_bodies() {
    assert_eq!(try_decode_msg(&[0x40, 0x00, 0x00]), None);
    // A plate of one invalid byte decodes to U+FFFD, three bytes long.
    assert_eq!(try_decode_msg(&[0x20, 0x01, 0xff]), None);
    assert_eq!(
        try_decode_msg(&[0x40, 0x00, 0x00, 0x00, 0x0a]),
        Some(Ok(DecodedMsg::WantHeartbeat(WantHeartbeat { interval: 10 })))
    );
    assert_eq!(try_decode_msg(&[]), Some(Err(DecodeError::TooShort)));
}

#[test]
fn plate_try_decode() {
    assert_eq!(
        Plate::try_decode(&[0x02, b'A', b'B', 0, 0, 0, 7]),
        Some(Ok(Plate { plate: "AB".to_string(), ts: 7 }))
    );
    assert_eq!(Plate::try_decode(&[0x02, b'A', b'B', 0, 0]), Some(Err(DecodeError::TooShort)));
}

#[test]
fn strings_and_integers() {
    assert_eq!(encode_str("UN1X"), vec![4, 0x55, 0x4e, 0x31, 0x58]);
    assert_eq!(decode_str(&[4, 0x55, 0x4e, 0x31, 0x58]), Ok("UN1X".to_string()));
    assert_eq!(decode_str(&[4, 0x55]), Err(DecodeError::TooShort));
    assert_eq!(decode_u16(&[0x01, 0x70]), Ok(368));
    assert_eq!(decode_u16(&[0x01]), Err(DecodeError::TooShort));
    assert_eq!(decode_u32(&[0x00, 0x00, 0x03, 0xe8, 0xff]), Ok(1000));
}

#[test]
fn error_and_heartbeat_encoding() {
    assert_eq!(Error::new("bad").encode(), vec![0x10, 0x03, b'b', b'a', b'd']);
    assert_eq!(Heartbeat::encode(), vec![0x41]);
}

#[test]
fn ticket_encoding() {
    let ticket = Ticket::new("UN1X", 66, 100, 123456, 110, 123816, 10000);
    assert_eq!(
        ticket.encode(),
        vec![
            0x21, 0x04, 0x55, 0x4e, 0x31, 0x58, 0x00, 0x42, 0x00, 0x64, 0x00, 0x01, 0xe2, 0x40,
            0x00, 0x6e, 0x00, 0x01, 0xe3, 0xa8, 0x27, 0x10
        ]
    );
}

#[test]
fn ticket_days() {
    let ticket = Ticket::new("AB", 1, 0, 86399, 10, 86400 * 2 + 5, 100);
    let mut days = HashSet::new();
    assert!(!ticket.overlaps(&days));
    ticket.record(&mut days);
    assert_eq!(days, HashSet::from([0, 1, 2]));
    assert!(ticket.overlaps(&days));
    let later = Ticket::new("AB", 1, 0, 86400 * 3, 10, 86400 * 3 + 5, 100);
    assert!(!later.overlaps(&days));
    let touching = Ticket::new("AB", 1, 0, 86400 * 2, 10, 86400 * 3, 100);
    assert!(touching.overlaps(&days));
}

#[test]
fn camera_and_heartbeat_constructors() {
    let camera = IAmCamera::new(1, 2, 3);
    assert_eq!(camera, IAmCamera { road: 1, mile: 2, limit: 3 });
    assert_eq!(WantHeartbeat::new(25), WantHeartbeat { interval: 25 });
    assert_eq!(IAmDispatcher { roads: vec![1, 2] }.len(), 6);
}

#[test]
fn a_message_takes_exactly_its_size_in_bytes() {
    let stream = [0x20, 0x04, b'U', b'N', b'1', b'X', 0, 0, 0x03, 0xe8, 0x40, 0, 0, 0, 0x0a];
    let first = decode_msg(&stream).unwrap();
    let size = first.size();
    assert_eq!(size, 10);
    assert_eq!(decode_msg(&stream[..size]).unwrap(), first);
    let second = decode_msg(&stream[size..]).unwrap();
    assert_eq!(second, DecodedMsg::WantHeartbeat(WantHeartbeat::new(10)));
    assert_eq!(second.size(), 5);
}
