use swampyer::errors::WampError;
use swampyer::messages::{Field, Message, Messages};
use swampyer::serialization::WampData;
use swampyer::session::{ConnectionInfo, Session, SessionAction, SessionState};

fn text(s: &str) -> WampData {
    WampData::Str(s.to_string())
}

fn array(items: Vec<WampData>) -> WampData {
    WampData::Array(items, 0)
}

fn empty_map() -> WampData {
    WampData::Hash(vec![], 0)
}

fn info() -> ConnectionInfo {
    ConnectionInfo {
        url: "127.0.0.1:8080".to_string(),
        realm: "test".to_string(),
        username: "user".to_string(),
        password: "secret".to_string(),
    }
}

fn established() -> Session<u32> {
    let mut s: Session<u32> = Session::new(info());
    s.authenticate().unwrap();
    let welcome = array(vec![WampData::UInt(2), WampData::UInt(12345), empty_map()]).to_vec();
    assert!(matches!(s.handle_message(&welcome), SessionAction::Join(12345, _)));
    s
}

fn result_for(id: u64, answer: u64) -> Vec<u8> {
    array(vec![
        WampData::UInt(50),
        WampData::UInt(id),
        empty_map(),
        array(vec![WampData::UInt(answer)]),
        empty_map(),
    ])
    .to_vec()
}

fn answer_of(m: &Message) -> u64 {
    m.field(Field::Args).unwrap().a(0).unwrap().as_u64().unwrap()
}

#[test]
fn authentication_scenario() {
    let mut s: Session<u32> = Session::new(info());
    assert_eq!(s.state(), SessionState::Connecting);

    let hello = WampData::from_slice(&s.authenticate().unwrap()).unwrap();
    assert_eq!(s.state(), SessionState::Authenticating);
    assert_eq!(hello.a(0).unwrap().as_u64().unwrap(), 1);
    assert!(matches!(hello.a(1).unwrap(), WampData::Str(r) if r == "test"));
    let details = hello.a(2).unwrap();
    assert!(matches!(details.h("authid").unwrap(), WampData::Str(a) if a == "user"));
    assert!(matches!(details.h("authmethods").unwrap().a(0).unwrap(), WampData::Str(m) if m == "ticket"));

    let challenge = array(vec![WampData::UInt(4), text("ticket"), empty_map()]).to_vec();
    match s.handle_message(&challenge) {
        SessionAction::Send(bytes) => {
            assert_eq!(bytes, array(vec![WampData::UInt(5), text("secret"), empty_map()]).to_vec());
        }
        _ => panic!("challenge not answered"),
    }
    assert_eq!(s.state(), SessionState::Authenticating);

    let welcome = array(vec![WampData::UInt(2), WampData::UInt(12345), empty_map()]).to_vec();
    let mut joins = 0;
    match s.handle_message(&welcome) {
        SessionAction::Join(id, m) => {
            joins += 1;
            assert_eq!(id, 12345);
            assert_eq!(m.kind(), Messages::MsgWelcome);
        }
        _ => panic!("welcome did not join"),
    }
    assert_eq!(s.state(), SessionState::Established);
    // a second welcome does not join again
    if let SessionAction::Join(_, _) = s.handle_message(&welcome) {
        joins += 1;
    }
    assert_eq!(joins, 1);
}

#[test]
fn greeting_twice_is_refused() {
    let mut s: Session<u32> = Session::new(info());
    assert!(s.authenticate().is_ok());
    assert_eq!(s.authenticate().unwrap_err(), WampError::ConnectionFailure);
}

#[test]
fn replies_reach_their_own_callers_in_any_order() {
    let mut s = established();
    let mut ids = Vec::new();
    for slot in 0..3u32 {
        let (id, bytes) = s.call(slot, "com.example.add", array(vec![]), empty_map()).unwrap();
        assert_eq!(id, slot as u64 + 1);
        let call = WampData::from_slice(&bytes).unwrap();
        assert_eq!(call.a(0).unwrap().as_u64().unwrap(), 48);
        assert_eq!(call.a(1).unwrap().as_u64().unwrap(), id);
        assert!(matches!(call.a(3).unwrap(), WampData::Str(p) if p == "com.example.add"));
        ids.push(id);
    }
    for (k, id) in ids.iter().enumerate().rev() {
        match s.handle_message(&result_for(*id, 100 + k as u64)) {
            SessionAction::Deliver(slot, m) => {
                assert_eq!(slot as usize, k);
                assert_eq!(answer_of(&m), 100 + k as u64);
            }
            _ => panic!("reply not delivered"),
        }
    }
    // a second reply for the same id is rejected
    assert!(matches!(s.handle_message(&result_for(ids[0], 1)), SessionAction::Ignore(WampError::UnknownRequestID)));
}

#[test]
fn errors_route_by_their_request_id() {
    let mut s = established();
    let (id, _) = s.call(7, "p", array(vec![]), empty_map()).unwrap();
    let error = array(vec![
        WampData::UInt(8),
        WampData::UInt(48),
        WampData::UInt(id),
        empty_map(),
        text("wamp.error.no_such_procedure"),
        array(vec![]),
        empty_map(),
    ])
    .to_vec();
    match s.handle_message(&error) {
        SessionAction::Deliver(7, m) => assert_eq!(m.kind(), Messages::MsgError),
        _ => panic!("error not delivered"),
    }
}

#[test]
fn expired_request_rejects_a_late_reply() {
    let mut s = established();
    let (id, _) = s.call(9, "slow", array(vec![]), empty_map()).unwrap();
    assert_eq!(s.expire(id), Some(9));
    assert_eq!(s.expire(id), None);
    assert!(matches!(s.handle_message(&result_for(id, 1)), SessionAction::Ignore(WampError::UnknownRequestID)));
}

#[test]
fn request_ids_count_up_from_one() {
    let mut s: Session<u32> = Session::new(info());
    assert_eq!(s.next_request_id(), Some(1));
    assert_eq!(s.next_request_id(), Some(2));
    assert_eq!(s.request_response(5), Some(3));
}

#[test]
fn calls_need_an_established_session() {
    let mut s: Session<u32> = Session::new(info());
    assert_eq!(s.call(1, "p", array(vec![]), empty_map()).unwrap_err(), WampError::ConnectionFailure);
    let mut s = established();
    s.close();
    assert_eq!(s.state(), SessionState::Closed);
    assert_eq!(s.call(1, "p", array(vec![]), empty_map()).unwrap_err(), WampError::ConnectionFailure);
}

#[test]
fn goodbye_closes_and_closed_drops_everything() {
    let mut s = established();
    let goodbye = array(vec![WampData::UInt(6), empty_map(), text("wamp.close.normal")]).to_vec();
    assert!(matches!(s.handle_message(&goodbye), SessionAction::Close));
    assert_eq!(s.state(), SessionState::Closed);
    assert!(matches!(s.handle_message(&result_for(1, 1)), SessionAction::Ignore(WampError::ConnectionFailure)));
}

#[test]
fn events_go_to_the_application_and_the_rest_is_dropped() {
    let mut s = established();
    let event = array(vec![
        WampData::UInt(36),
        WampData::UInt(1),
        WampData::UInt(2),
        empty_map(),
        array(vec![]),
        empty_map(),
    ])
    .to_vec();
    assert!(matches!(s.handle_message(&event), SessionAction::Dispatch(_)));
    let subscribed = array(vec![WampData::UInt(33), WampData::UInt(1), WampData::UInt(2)]).to_vec();
    assert!(matches!(s.handle_message(&subscribed), SessionAction::Ignore(WampError::UnsupportedType)));
    assert!(matches!(s.handle_message(&[0x01]), SessionAction::Ignore(WampError::NotArray)));
    assert!(matches!(s.handle_message(&[0x9f]), SessionAction::Ignore(WampError::MalformedData)));
    let unknown = array(vec![WampData::UInt(99)]).to_vec();
    assert!(matches!(s.handle_message(&unknown), SessionAction::Ignore(WampError::UnsupportedType)));
    let short = array(vec![WampData::UInt(50)]).to_vec();
    assert!(matches!(s.handle_message(&short), SessionAction::Ignore(WampError::IncorrectElementCount)));
}

fn error_for(id: u64, answer: u64) -> Vec<u8> {
    array(vec![
        WampData::UInt(8),
        WampData::UInt(48),
        WampData::UInt(id),
        empty_map(),
        text("app.failed"),
        array(vec![WampData::UInt(answer)]),
        empty_map(),
    ])
    .to_vec()
}

#[test]
fn many_calls_correlate_in_every_arrival_order() {
    let orders: [[usize; 5]; 4] = [[0, 1, 2, 3, 4], [4, 3, 2, 1, 0], [2, 0, 4, 1, 3], [1, 3, 0, 4, 2]];
    for order in orders {
        let mut s = established();
        let mut ids = Vec::new();
        for slot in 0..5u32 {
            let (id, _) = s.call(slot, "p", array(vec![]), empty_map()).unwrap();
            ids.push(id);
        }
        for &k in order.iter() {
            let reply = if k % 2 == 0 { result_for(ids[k], 100 + k as u64) } else { error_for(ids[k], 100 + k as u64) };
            match s.handle_message(&reply) {
                SessionAction::Deliver(slot, m) => {
                    assert_eq!(slot as usize, k);
                    assert_eq!(answer_of(&m), 100 + k as u64);
                }
                _ => panic!("reply not delivered"),
            }
        }
        for id in ids {
            assert_eq!(s.expire(id), None, "entry {} still pending", id);
        }
    }
}

#[test]
fn replies_missing_fields_are_rejected() {
    let mut s = established();
    let (id, _) = s.call(1, "p", array(vec![]), empty_map()).unwrap();
    let short_result = array(vec![WampData::UInt(50), WampData::UInt(id), empty_map()]).to_vec();
    assert!(matches!(s.handle_message(&short_result), SessionAction::Ignore(WampError::IncorrectElementCount)));
    let short_error = array(vec![
        WampData::UInt(8),
        WampData::UInt(48),
        WampData::UInt(id),
        empty_map(),
        text("e"),
    ])
    .to_vec();
    assert!(matches!(s.handle_message(&short_error), SessionAction::Ignore(WampError::IncorrectElementCount)));
    assert!(matches!(s.handle_message(&result_for(id, 3)), SessionAction::Deliver(1, _)));
}

#[test]
fn expired_request_rejects_a_late_error_too() {
    let mut s = established();
    let (id, _) = s.call(4, "slow", array(vec![]), empty_map()).unwrap();
    assert_eq!(s.expire(id), Some(4));
    assert!(matches!(s.handle_message(&error_for(id, 1)), SessionAction::Ignore(WampError::UnknownRequestID)));
}
