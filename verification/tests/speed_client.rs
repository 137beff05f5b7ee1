use protohackers::speed::client::{decide, hands_backlog, takes_ticket, ClientAction, ClientType, Reading};
use protohackers::speed::msg::{IAmCamera, IAmDispatcher, Plate, WantHeartbeat};
use protohackers::speed::DecodedMsg;

#[test]
fn reading_keeps_its_fields() {
    let r = Reading::new(1000, 8);
    assert_eq!(r.ts, 1000);
    assert_eq!(r.mile, 8);
    assert!(Reading::new(10, 5) < Reading::new(11, 0));
}

#[test]
fn unknown_message_is_refused_and_closes() {
    let a = decide(&ClientType::Unknown, DecodedMsg::Unknown, false);
    assert_eq!(a, ClientAction::Reject("unknown message".to_string(), true));
}

#[test]
fn camera_records_plates() {
    let me = ClientType::Camera(123, 8, 60);
    let msg = DecodedMsg::Plate(Plate { plate: "UN1X".to_string(), ts: 45 });
    assert_eq!(decide(&me, msg, false), ClientAction::Record("UN1X".to_string(), 45, 123, 8, 60));
}

#[test]
fn plate_from_non_camera_is_refused() {
    let msg = DecodedMsg::Plate(Plate { plate: "UN1X".to_string(), ts: 45 });
    assert_eq!(
        decide(&ClientType::Unknown, msg, false),
        ClientAction::Reject("unknown message".to_string(), true)
    );
    let msg = DecodedMsg::Plate(Plate { plate: "UN1X".to_string(), ts: 45 });
    assert_eq!(
        decide(&ClientType::Dispatcher(0, vec![1]), msg, false),
        ClientAction::Reject("unknown message".to_string(), true)
    );
}

#[test]
fn heartbeat_requests() {
    let me = ClientType::Unknown;
    assert_eq!(
        decide(&me, DecodedMsg::WantHeartbeat(WantHeartbeat::new(25)), false),
        ClientAction::StartHeartbeat(25)
    );
    assert_eq!(
        decide(&me, DecodedMsg::WantHeartbeat(WantHeartbeat::new(0)), false),
        ClientAction::Nothing
    );
    assert_eq!(
        decide(&me, DecodedMsg::WantHeartbeat(WantHeartbeat::new(25)), true),
        ClientAction::Reject("heartbeat already set".to_string(), true)
    );
}

#[test]
fn identification_happens_once() {
    let cam = DecodedMsg::IAmCamera(IAmCamera::new(66, 100, 60));
    assert_eq!(decide(&ClientType::Unknown, cam, false), ClientAction::BecomeCamera(66, 100, 60));
    let disp = DecodedMsg::IAmDispatcher(IAmDispatcher { roads: vec![66, 368] });
    assert_eq!(
        decide(&ClientType::Unknown, disp, false),
        ClientAction::BecomeDispatcher(vec![66, 368])
    );
    let cam = DecodedMsg::IAmCamera(IAmCamera::new(66, 100, 60));
    assert_eq!(
        decide(&ClientType::Camera(1, 2, 3), cam, false),
        ClientAction::Reject("client already identified itself".to_string(), false)
    );
    let disp = DecodedMsg::IAmDispatcher(IAmDispatcher { roads: vec![1] });
    assert_eq!(
        decide(&ClientType::Dispatcher(4, vec![2]), disp, false),
        ClientAction::Reject("client already identified itself".to_string(), false)
    );
}

#[test]
fn tickets_go_to_the_named_dispatcher() {
    assert!(takes_ticket(&ClientType::Dispatcher(3, vec![66]), 3));
    assert!(!takes_ticket(&ClientType::Dispatcher(3, vec![66]), 4));
    assert!(!takes_ticket(&ClientType::Camera(3, 0, 0), 3));
    assert!(!takes_ticket(&ClientType::Unknown, 0));
}

#[test]
fn backlog_goes_to_dispatchers_of_the_road() {
    assert!(hands_backlog(&ClientType::Camera(66, 8, 60), &vec![1, 66]));
    assert!(!hands_backlog(&ClientType::Camera(66, 8, 60), &vec![1, 2]));
    assert!(!hands_backlog(&ClientType::Camera(66, 8, 60), &vec![]));
    assert!(!hands_backlog(&ClientType::Dispatcher(0, vec![66]), &vec![66]));
}
