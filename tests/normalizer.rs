use matrix_sdk::normalizer::{normalize, Normalized, RawEvent};
use matrix_sdk::relations::RelationKind;
use matrix_sdk::timeline::EventContent;

fn raw(event_type: &str, id: &str) -> RawEvent {
    RawEvent {
        event_type: event_type.to_string(),
        event_id: id.to_string(),
        sender: "@alice:example.org".to_string(),
        timestamp: 152037280,
        highlighted: false,
        body: None,
        rel_type: None,
        relates_to: None,
        new_body: None,
        key: None,
        in_reply_to: None,
        redacts: None,
    }
}

#[test]
fn message_becomes_an_item() {
    let mut r = raw("m.room.message", "$m");
    r.body = Some("hello".to_string());
    r.in_reply_to = Some("$earlier".to_string());
    match normalize(r) {
        Normalized::Item(e) => {
            assert_eq!(e.event_id, "$m");
            assert_eq!(e.timestamp, 152037280);
            match e.content {
                EventContent::Message { body, in_reply_to } => {
                    assert_eq!(body, "hello");
                    assert_eq!(in_reply_to.as_deref(), Some("$earlier"));
                }
                _ => panic!("expected a message"),
            }
        }
        _ => panic!("expected an item"),
    }
}

#[test]
fn replace_becomes_an_edit() {
    let mut r = raw("m.room.message", "$msda7m2:localhost");
    r.body = Some(" * hi".to_string());
    r.rel_type = Some("m.replace".to_string());
    r.relates_to = Some("$msda7m:localhost".to_string());
    r.new_body = Some("hi".to_string());
    match normalize(r) {
        Normalized::Relation(rel) => {
            assert_eq!(rel.target, "$msda7m:localhost");
            assert_eq!(rel.event_id, "$msda7m2:localhost");
            assert!(matches!(rel.kind, RelationKind::Edit { ref new_body } if new_body == "hi"));
        }
        _ => panic!("expected a relation"),
    }
}

#[test]
fn incomplete_edit_is_a_placeholder() {
    let mut r = raw("m.room.message", "$x");
    r.rel_type = Some("m.replace".to_string());
    r.relates_to = Some("$m".to_string());
    match normalize(r) {
        Normalized::Item(e) => {
            assert!(matches!(e.content, EventContent::Other { ref event_type } if event_type == "m.room.message"))
        }
        _ => panic!("expected a placeholder item"),
    }
}

#[test]
fn annotation_becomes_a_reaction() {
    let mut r = raw("m.reaction", "$031IXQRi27504");
    r.rel_type = Some("m.annotation".to_string());
    r.relates_to = Some("$m".to_string());
    r.key = Some("👍".to_string());
    match normalize(r) {
        Normalized::Relation(rel) => {
            assert_eq!(rel.target, "$m");
            assert!(matches!(rel.kind, RelationKind::Reaction { ref key } if key == "👍"));
        }
        _ => panic!("expected a relation"),
    }
    assert!(matches!(normalize(raw("m.reaction", "$r")), Normalized::Dropped));
}

#[test]
fn redaction_and_fully_read() {
    let mut r = raw("m.room.redaction", "$N6eUCBc3vu58PL8TobGaVQzM");
    r.redacts = Some("$031IXQRi27504".to_string());
    match normalize(r) {
        Normalized::Relation(rel) => {
            assert_eq!(rel.target, "$031IXQRi27504");
            assert!(matches!(rel.kind, RelationKind::Redaction));
        }
        _ => panic!("expected a relation"),
    }
    assert!(matches!(normalize(raw("m.room.redaction", "$d")), Normalized::Dropped));
    match normalize(raw("m.fully_read", "$someplace:example.org")) {
        Normalized::FullyRead(id) => assert_eq!(id, "$someplace:example.org"),
        _ => panic!("expected the fully read marker"),
    }
}

#[test]
fn other_types_pass_through() {
    match normalize(raw("m.room.topic", "$t")) {
        Normalized::Item(e) => {
            assert!(matches!(e.content, EventContent::Other { ref event_type } if event_type == "m.room.topic"))
        }
        _ => panic!("expected an item"),
    }
}
