//! The event normalizer: classifies a raw room event as an item to place,
//! a relation to apply, the fully-read account data, or something to drop.

use vstd::prelude::*;

use crate::relations::{Relation, RelationKind};
use crate::timeline::{EventContent, NewEvent};

verus! {

/// The fields of a raw event that the timeline reads. For the fully-read
/// account data (`m.fully_read`), `event_id` is the event it points at.
pub struct RawEvent {
    pub event_type: String,
    pub event_id: String,
    pub sender: String,
    pub timestamp: u64,
    /// What the push rules decided for this event.
    pub highlighted: bool,
    pub body: Option<String>,
    /// `m.relates_to.rel_type`.
    pub rel_type: Option<String>,
    /// `m.relates_to.event_id`.
    pub relates_to: Option<String>,
    /// `m.new_content.body`, for an edit.
    pub new_body: Option<String>,
    /// `m.relates_to.key`, for a reaction.
    pub key: Option<String>,
    /// `m.relates_to.m.in_reply_to.event_id`.
    pub in_reply_to: Option<String>,
    /// The event that a redaction redacts.
    pub redacts: Option<String>,
}

/// What a raw event is for the timeline.
pub enum Normalized {
    Item(NewEvent),
    Relation(Relation),
    FullyRead(String),
    Dropped,
}

pub open spec fn opt_view(o: Option<String>) -> Option<Seq<char>> {
    match o {
        Some(s) => Some(s@),
        None => None,
    }
}

pub open spec fn is_type(raw: RawEvent, t: &str) -> bool {
    raw.event_type@ == t@
}

/// Whether the raw event is a well-formed edit.
pub open spec fn is_edit(raw: RawEvent) -> bool {
    opt_view(raw.rel_type) == Some("m.replace"@) && raw.relates_to is Some && raw.new_body is Some
}

/// Whether the raw event is a well-formed reaction.
pub open spec fn is_reaction(raw: RawEvent) -> bool {
    opt_view(raw.rel_type) == Some("m.annotation"@) && raw.relates_to is Some && raw.key is Some
}

/// Whether `n` is the item event made of `raw` with content `c`.
pub open spec fn item_of(raw: RawEvent, n: Normalized, c: EventContent) -> bool {
    n == Normalized::Item(
        NewEvent {
            event_id: raw.event_id,
            sender: raw.sender,
            timestamp: raw.timestamp,
            highlighted: raw.highlighted,
            content: c,
        },
    )
}

/// Whether `n` is the relation made of `raw` with target `t` and kind `k`.
pub open spec fn relation_of(raw: RawEvent, n: Normalized, t: String, k: RelationKind) -> bool {
    n == Normalized::Relation(Relation { event_id: raw.event_id, sender: raw.sender, target: t, kind: k })
}

fn text(s: &str) -> (r: String)
    ensures
        r@ == s@,
{
    s.to_owned()
}

fn opt_is(o: &Option<String>, s: &str) -> (r: bool)
    ensures
        r == (opt_view(*o) == Some(s@)),
{
    match o {
        Some(v) => *v == text(s),
        None => false,
    }
}

/// Classifies a raw event. A message becomes an item (an edit, `m.replace`,
/// becomes a relation); a reaction (`m.annotation`) and a redaction become
/// relations; `m.fully_read` points the read marker; any other type becomes
/// an item that carries its type. A message without a body, or an edit that
/// lacks a part, becomes such a placeholder item; a reaction or a redaction
/// that lacks a part is dropped.
pub fn normalize(raw: RawEvent) -> (n: Normalized)
    ensures
        is_type(raw, "m.room.message") ==> if is_edit(raw) {
            relation_of(raw, n, raw.relates_to->Some_0, RelationKind::Edit { new_body: raw.new_body->Some_0 })
        } else if raw.body is Some && raw.rel_type is None {
            item_of(raw, n, EventContent::Message { body: raw.body->Some_0, in_reply_to: raw.in_reply_to })
        } else {
            item_of(raw, n, EventContent::Other { event_type: raw.event_type })
        },
        is_type(raw, "m.reaction") ==> if is_reaction(raw) {
            relation_of(raw, n, raw.relates_to->Some_0, RelationKind::Reaction { key: raw.key->Some_0 })
        } else {
            n == Normalized::Dropped
        },
        is_type(raw, "m.room.redaction") ==> match raw.redacts {
            Some(t) => relation_of(raw, n, t, RelationKind::Redaction),
            None => n == Normalized::Dropped,
        },
        is_type(raw, "m.fully_read") ==> n == Normalized::FullyRead(raw.event_id),
        !is_type(raw, "m.room.message") && !is_type(raw, "m.reaction") && !is_type(raw, "m.room.redaction")
            && !is_type(raw, "m.fully_read") ==> item_of(raw, n, EventContent::Other { event_type: raw.event_type }),
{
    let ghost r0 = raw;
    proof {
        reveal_strlit("m.room.message");
        reveal_strlit("m.reaction");
        reveal_strlit("m.room.redaction");
        reveal_strlit("m.fully_read");
        assert("m.room.message"@.len() == 14);
        assert("m.reaction"@.len() == 10);
        assert("m.room.redaction"@.len() == 16);
        assert("m.fully_read"@.len() == 12);
    }
    let is_message = raw.event_type == text("m.room.message");
    let is_reaction_type = raw.event_type == text("m.reaction");
    let is_redaction_type = raw.event_type == text("m.room.redaction");
    let is_fully_read = raw.event_type == text("m.fully_read");
    let replace = opt_is(&raw.rel_type, "m.replace");
    let annotation = opt_is(&raw.rel_type, "m.annotation");
    let no_relation = raw.rel_type.is_none();
    let RawEvent {
        event_type,
        event_id,
        sender,
        timestamp,
        highlighted,
        body,
        rel_type: _,
        relates_to,
        new_body,
        key,
        in_reply_to,
        redacts,
    } = raw;
    if is_message {
        if replace {
            if let (Some(t), Some(b)) = (relates_to, new_body) {
                return Normalized::Relation(
                    Relation { event_id, sender, target: t, kind: RelationKind::Edit { new_body: b } },
                );
            }
        } else if no_relation {
            if let Some(b) = body {
                return Normalized::Item(
                    NewEvent {
                        event_id,
                        sender,
                        timestamp,
                        highlighted,
                        content: EventContent::Message { body: b, in_reply_to },
                    },
                );
            }
        }
        Normalized::Item(
            NewEvent { event_id, sender, timestamp, highlighted, content: EventContent::Other { event_type } },
        )
    } else if is_reaction_type {
        if annotation {
            if let (Some(t), Some(k)) = (relates_to, key) {
                return Normalized::Relation(
                    Relation { event_id, sender, target: t, kind: RelationKind::Reaction { key: k } },
                );
            }
        }
        Normalized::Dropped
    } else if is_redaction_type {
        match redacts {
            Some(t) => Normalized::Relation(
                Relation { event_id, sender, target: t, kind: RelationKind::Redaction },
            ),
            None => Normalized::Dropped,
        }
    } else if is_fully_read {
        Normalized::FullyRead(event_id)
    } else {
        Normalized::Item(
            NewEvent { event_id, sender, timestamp, highlighted, content: EventContent::Other { event_type } },
        )
    }
}

} // verus!
