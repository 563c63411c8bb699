use matrix_sdk::openid::{Request, Response, State};
use matrix_sdk::widget::{outgoing_header, Action, ActionBody, Header, Message, PendingResponses};

#[test]
fn header_and_message() {
    let header = Header::new("req-1", "widget-a");
    assert_eq!(header.request_id, "req-1");
    assert_eq!(header.widget_id, "widget-a");
    let msg = Message::new(
        header,
        Action::ToWidget(ActionBody { api: "capabilities".to_string(), data: "{}".to_string() }),
    );
    assert_eq!(msg.header.request_id, "req-1");
    assert!(matches!(msg.action, Action::ToWidget(ref b) if b.api == "capabilities"));
}

#[test]
fn outgoing_headers_have_fresh_uuid_ids() {
    let widget = "w".to_string();
    let a = outgoing_header(&widget);
    let b = outgoing_header(&widget);
    assert_eq!(a.widget_id, "w");
    assert_eq!(a.request_id.len(), 36);
    for (i, c) in a.request_id.chars().enumerate() {
        if [8, 13, 18, 23].contains(&i) {
            assert_eq!(c, '-');
        } else {
            assert!(c.is_ascii_digit() || ('a'..='f').contains(&c));
        }
    }
    assert_ne!(a.request_id, b.request_id);
}

#[test]
fn pending_responses_match_by_request_id() {
    let mut p = PendingResponses::new();
    p.insert("a".to_string(), 1);
    p.insert("b".to_string(), 2);
    p.insert("a".to_string(), 3);
    assert_eq!(p.remove(&"a".to_string()), Some(3));
    assert_eq!(p.remove(&"a".to_string()), None);
    assert_eq!(p.remove(&"b".to_string()), Some(2));
    assert_eq!(p.remove(&"c".to_string()), None);
}

#[test]
fn openid_values() {
    let req = Request { id: "r".to_string() };
    let state = State {
        id: req.id.clone(),
        token: "SECRET-REDACTED".to_string(),
        expires_in_seconds: 3600,
        server: "example.org".to_string(),
        kind: "Bearer".to_string(),
    };
    let resp = Response::Allowed(state);
    assert!(matches!(resp, Response::Allowed(ref s) if s.expires_in_seconds == 3600));
    assert!(matches!(Response::Blocked, Response::Blocked));
    assert!(matches!(Response::Pending, Response::Pending));
}
