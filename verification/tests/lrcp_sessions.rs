use protohackers::lrcp::{Output, Sessions, TimeoutKind, MAX_DATA_LEN};

const SESSION: i32 = 1234567;
const RTX_TO: u64 = 3_000;
const SESSION_TO: u64 = 60_000;

fn send(text: &str) -> Output {
    Output::Send(text.to_string())
}

fn open_session() -> Sessions {
    let mut sessions = Sessions::new(RTX_TO, SESSION_TO);
    let (out, pending) = sessions
        .process_udp(format!("/connect/{SESSION}/").as_bytes(), 0)
        .unwrap();
    assert_eq!(out, vec![send(&format!("/ack/{SESSION}/0/")), Output::NewStream(SESSION)]);
    assert_eq!(pending, None);
    sessions
}

#[test]
fn peer_opens_session() {
    let sessions = open_session();
    let session = sessions.get(SESSION).unwrap();
    assert_eq!(session.last_ack_sent, 0);
    assert_eq!(session.next_pos, 0);
    assert_eq!(session.session_deadline, Some(SESSION_TO));
}

#[test]
fn connect_again_does_nothing() {
    let mut sessions = open_session();
    let (out, _) = sessions
        .process_udp(format!("/connect/{SESSION}/").as_bytes(), 5)
        .unwrap();
    assert!(out.is_empty());
}

#[test]
fn peer_closes_session() {
    let mut sessions = open_session();
    let (out, _) = sessions
        .process_udp(format!("/close/{SESSION}/").as_bytes(), 1)
        .unwrap();
    assert_eq!(out, vec![send(&format!("/close/{SESSION}/"))]);
    assert!(sessions.get(SESSION).is_none());
}

#[test]
fn peer_sends_data_for_closed_session() {
    let mut sessions = Sessions::new(RTX_TO, SESSION_TO);
    let (out, pending) = sessions
        .process_udp(format!("/data/{SESSION}/0/hello/").as_bytes(), 0)
        .unwrap();
    assert!(out.is_empty());
    assert_eq!(pending, Some(SESSION));
    assert_eq!(
        sessions.data_reply(SESSION, true),
        vec![send(&format!("/close/{SESSION}/"))]
    );
}

#[test]
fn peer_sends_data_for_open_session() {
    let mut sessions = open_session();
    let (out, pending) = sessions
        .process_udp(format!("/data/{SESSION}/0/hello \n mmm/").as_bytes(), 1)
        .unwrap();
    assert_eq!(out, vec![Output::Deliver(SESSION, "hello \n mmm".to_string())]);
    assert_eq!(pending, Some(SESSION));
    assert_eq!(
        sessions.data_reply(SESSION, true),
        vec![send(&format!("/ack/{SESSION}/11/"))]
    );
}

#[test]
fn peer_sends_data_beyond_what_already_acked() {
    let mut sessions = open_session();
    let (out, _) = sessions
        .process_udp(format!("/data/{SESSION}/0/hello/").as_bytes(), 1)
        .unwrap();
    assert_eq!(out, vec![Output::Deliver(SESSION, "hello".to_string())]);
    assert_eq!(sessions.data_reply(SESSION, true), vec![send(&format!("/ack/{SESSION}/5/"))]);
    let (out, _) = sessions
        .process_udp(format!("/data/{SESSION}/6/world/").as_bytes(), 2)
        .unwrap();
    assert!(out.is_empty());
    assert_eq!(sessions.data_reply(SESSION, true), vec![send(&format!("/ack/{SESSION}/5/"))]);
}

#[test]
fn multiple_data_packets_from_peer_are_combined_in_stream() {
    let mut sessions = open_session();
    let (out, _) = sessions
        .process_udp(format!("/data/{SESSION}/0/hello/").as_bytes(), 1)
        .unwrap();
    assert_eq!(out, vec![Output::Deliver(SESSION, "hello".to_string())]);
    sessions.data_reply(SESSION, true);
    let (out, _) = sessions
        .process_udp(format!("/data/{SESSION}/5/ world/").as_bytes(), 2)
        .unwrap();
    assert_eq!(out, vec![Output::Deliver(SESSION, " world".to_string())]);
    assert_eq!(sessions.data_reply(SESSION, true), vec![send(&format!("/ack/{SESSION}/11/"))]);
}

#[test]
fn data_for_a_gone_stream_closes_the_session() {
    let mut sessions = open_session();
    sessions
        .process_udp(format!("/data/{SESSION}/0/hello/").as_bytes(), 1)
        .unwrap();
    assert_eq!(sessions.data_reply(SESSION, false), vec![send(&format!("/close/{SESSION}/"))]);
    assert!(sessions.get(SESSION).is_none());
}

#[test]
fn local_end_sends_data_to_peer() {
    let mut sessions = open_session();
    let out = sessions.send(SESSION, "hello world", 10).unwrap();
    assert_eq!(out, vec![send(&format!("/data/{SESSION}/0/hello world/"))]);
    let session = sessions.get(SESSION).unwrap();
    assert_eq!(session.next_pos, 11);
    assert_eq!(session.outstanding, b"hello world".to_vec());
    assert_eq!(session.rtx_deadline, Some(10 + RTX_TO));
}

#[test]
fn retransmission() {
    let mut sessions = open_session();
    sessions.send(SESSION, "hello world", 0).unwrap();
    assert_eq!(sessions.next_timeout(), Some((RTX_TO, SESSION, TimeoutKind::Rtx)));
    let out = sessions.rtx_timeout_fired(SESSION, RTX_TO).unwrap();
    assert_eq!(out, vec![send(&format!("/data/{SESSION}/0/hello world/"))]);
    assert_eq!(sessions.get(SESSION).unwrap().rtx_deadline, Some(2 * RTX_TO));
}

#[test]
fn retransmission_timeout_for_partially_acked_data() {
    let mut sessions = open_session();
    sessions.send(SESSION, "hello world", 0).unwrap();
    let (out, _) = sessions
        .process_udp(format!("/ack/{SESSION}/6/").as_bytes(), 1)
        .unwrap();
    assert_eq!(out, vec![send(&format!("/data/{SESSION}/6/world/"))]);
    let out = sessions.rtx_timeout_fired(SESSION, RTX_TO).unwrap();
    assert_eq!(out, vec![send(&format!("/data/{SESSION}/6/world/"))]);
}

#[test]
fn session_timeout() {
    let mut sessions = open_session();
    sessions.send(SESSION, "hello world", 0).unwrap();
    let (out, _) = sessions
        .process_udp(format!("/ack/{SESSION}/11/").as_bytes(), 100)
        .unwrap();
    assert!(out.is_empty());
    assert!(sessions.get(SESSION).unwrap().outstanding.is_empty());
    let deadline = sessions.get(SESSION).unwrap().session_deadline.unwrap();
    assert_eq!(deadline, 100 + SESSION_TO);
    assert_eq!(sessions.close(SESSION), vec![send(&format!("/close/{SESSION}/"))]);
    assert!(sessions.get(SESSION).is_none());
    assert_eq!(sessions.next_timeout(), None);
}

#[test]
fn peer_sends_ack_for_closed_session() {
    let mut sessions = open_session();
    let (out, _) = sessions.process_udp(b"/ack/99999/10/", 1).unwrap();
    assert_eq!(out, vec![send("/close/99999/")]);
    assert!(sessions.get(SESSION).is_some());
}

#[test]
fn peer_sends_ack_for_unsent_data() {
    let mut sessions = open_session();
    let (out, _) = sessions
        .process_udp(format!("/ack/{SESSION}/10/").as_bytes(), 1)
        .unwrap();
    assert_eq!(out, vec![send(&format!("/close/{SESSION}/"))]);
    assert!(sessions.get(SESSION).is_none());
}

#[test]
fn peer_sends_partial_acks() {
    let mut sessions = open_session();
    sessions.send(SESSION, "hello world", 0).unwrap();
    let (out, _) = sessions
        .process_udp(format!("/ack/{SESSION}/5/").as_bytes(), 1)
        .unwrap();
    assert_eq!(out, vec![send(&format!("/data/{SESSION}/5/ world/"))]);
    let (out, _) = sessions
        .process_udp(format!("/ack/{SESSION}/7/").as_bytes(), 2)
        .unwrap();
    assert_eq!(out, vec![send(&format!("/data/{SESSION}/7/orld/"))]);
    let (out, _) = sessions
        .process_udp(format!("/ack/{SESSION}/3/").as_bytes(), 3)
        .unwrap();
    assert!(out.is_empty());
}

#[test]
fn large_datagrams_splits_into_multiple_messages() {
    let mut sessions = open_session();
    let data: String = (0..MAX_DATA_LEN * 2).map(|_| 'X').collect();
    let out = sessions.send(SESSION, &data, 0).unwrap();
    assert_eq!(out.len(), 2);
    match (&out[0], &out[1]) {
        (Output::Send(first), Output::Send(second)) => {
            assert_eq!(first.len(), MAX_DATA_LEN + 4 + 7 + 1 + 5);
            assert_eq!(second.len(), MAX_DATA_LEN + 4 + 7 + 3 + 5);
        }
        _ => panic!("expected two data messages"),
    }
}

#[test]
fn invalid_datagrams_are_ignored() {
    let mut sessions = open_session();
    let (out, pending) = sessions.process_udp(b"/nonsense/", 1).unwrap();
    assert!(out.is_empty());
    assert_eq!(pending, None);
}

#[test]
fn next_timeout_takes_the_earliest() {
    let mut sessions = open_session();
    assert_eq!(sessions.next_timeout(), Some((SESSION_TO, SESSION, TimeoutKind::Session)));
    sessions.process_udp(b"/connect/7/", 5).unwrap();
    sessions.send(7, "x", 10).unwrap();
    assert_eq!(sessions.next_timeout(), Some((10 + RTX_TO, 7, TimeoutKind::Rtx)));
}
