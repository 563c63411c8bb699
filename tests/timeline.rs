use matrix_sdk::item::{
    EventTimelineItem, FetchError, RepliedToEvent, TimelineDetails, TimelineItem,
    TimelineItemContent, VirtualTimelineItem,
};
use matrix_sdk::relations::{Relation, RelationKind};
use matrix_sdk::store::VectorDiff;
use matrix_sdk::timeline::{EventContent, FetchRequest, NewEvent, Timeline, TimelineError};

const ALICE: &str = "@alice:example.org";
const BOB: &str = "@bob:example.org";
const ME: &str = "@me:example.org";

fn message(id: &str, sender: &str, ts: u64, body: &str) -> NewEvent {
    NewEvent {
        event_id: id.to_string(),
        sender: sender.to_string(),
        timestamp: ts,
        highlighted: false,
        content: EventContent::Message { body: body.to_string(), in_reply_to: None },
    }
}

fn reply(id: &str, sender: &str, ts: u64, body: &str, to: &str) -> NewEvent {
    NewEvent {
        event_id: id.to_string(),
        sender: sender.to_string(),
        timestamp: ts,
        highlighted: false,
        content: EventContent::Message {
            body: body.to_string(),
            in_reply_to: Some(to.to_string()),
        },
    }
}

fn edit(id: &str, sender: &str, target: &str, body: &str) -> Relation {
    Relation {
        event_id: id.to_string(),
        sender: sender.to_string(),
        target: target.to_string(),
        kind: RelationKind::Edit { new_body: body.to_string() },
    }
}

fn reaction(id: &str, sender: &str, target: &str, key: &str) -> Relation {
    Relation {
        event_id: id.to_string(),
        sender: sender.to_string(),
        target: target.to_string(),
        kind: RelationKind::Reaction { key: key.to_string() },
    }
}

fn redaction(id: &str, sender: &str, target: &str) -> Relation {
    Relation {
        event_id: id.to_string(),
        sender: sender.to_string(),
        target: target.to_string(),
        kind: RelationKind::Redaction,
    }
}

fn event_at(t: &Timeline, i: usize) -> &EventTimelineItem {
    match t.get(i) {
        Some(TimelineItem::Event(e)) => e,
        _ => panic!("no event item at {}", i),
    }
}

fn body(e: &EventTimelineItem) -> String {
    match &e.content {
        TimelineItemContent::Message { body, .. } => body.clone(),
        _ => panic!("not a message"),
    }
}

fn reply_details(e: &EventTimelineItem) -> &TimelineDetails {
    match &e.content {
        TimelineItemContent::Message { in_reply_to: Some(r), .. } => &r.event,
        _ => panic!("not a reply"),
    }
}

/// A short text for an item, to compare sequences.
fn describe(item: &TimelineItem) -> String {
    match item {
        TimelineItem::Virtual(VirtualTimelineItem::DayDivider(d)) => format!("day {}", d),
        TimelineItem::Virtual(VirtualTimelineItem::ReadMarker) => "marker".to_string(),
        TimelineItem::Event(e) => {
            let content = match &e.content {
                TimelineItemContent::Message { body, .. } => format!("msg {}", body),
                TimelineItemContent::RedactedMessage => "redacted".to_string(),
                TimelineItemContent::Other { event_type } => format!("other {}", event_type),
            };
            format!(
                "{} {:?} {} edited={} reactions={}",
                e.local_id,
                e.event_id,
                content,
                e.edited,
                e.reactions.len()
            )
        }
    }
}

fn describe_all(t: &Timeline) -> Vec<String> {
    (0..t.len()).map(|i| describe(t.get(i).unwrap())).collect()
}

fn fold(mut items: Vec<String>, diffs: &[VectorDiff]) -> Vec<String> {
    for d in diffs {
        match d {
            VectorDiff::PushBack { value } => items.push(describe(value)),
            VectorDiff::Insert { index, value } => items.insert(*index, describe(value)),
            VectorDiff::Replace { index, value } => items[*index] = describe(value),
            VectorDiff::Remove { index } => {
                items.remove(*index);
            }
            VectorDiff::Clear => items.clear(),
        }
    }
    items
}

#[test]
fn edit_is_a_single_replacement() {
    let mut t = Timeline::new(ME.to_string());
    let (sub, snapshot) = t.subscribe();
    assert!(snapshot.is_empty());
    t.add_event(message("$msda7m:localhost", ALICE, 152037280, "hello"));
    t.add_event(message("$7at8sd:localhost", BOB, 152038280, "hello to you"));
    let diffs = t.take_diffs(sub);
    assert_eq!(diffs.len(), 3);
    assert!(matches!(
        &diffs[0],
        VectorDiff::PushBack { value: TimelineItem::Virtual(VirtualTimelineItem::DayDivider(1)) }
    ));
    t.handle_relation(edit("$msda7m2:localhost", ALICE, "$msda7m:localhost", "hi"));
    let diffs = t.take_diffs(sub);
    assert_eq!(diffs.len(), 1);
    match &diffs[0] {
        VectorDiff::Replace { index: 1, value: TimelineItem::Event(e) } => {
            assert!(e.is_edited());
            assert_eq!(body(e), "hi");
        }
        _ => panic!("expected a replacement at index 1"),
    }
    assert!(!event_at(&t, 2).is_edited());
}

#[test]
fn edit_by_another_sender_is_ignored() {
    let mut t = Timeline::new(ME.to_string());
    let (sub, _) = t.subscribe();
    t.add_event(message("$m1", ALICE, 1000, "hello"));
    t.take_diffs(sub);
    t.handle_relation(edit("$e1", BOB, "$m1", "hacked"));
    assert!(t.take_diffs(sub).is_empty());
    assert_eq!(body(event_at(&t, 1)), "hello");
    assert!(!event_at(&t, 1).is_edited());
}

#[test]
fn reaction_then_its_redaction() {
    let mut t = Timeline::new(ME.to_string());
    let (sub, _) = t.subscribe();
    t.add_event(message("$m1", ALICE, 152037280, "hello"));
    t.take_diffs(sub);
    t.handle_relation(reaction("$031IXQRi27504", BOB, "$m1", "👍"));
    let diffs = t.take_diffs(sub);
    assert_eq!(diffs.len(), 1);
    match &diffs[0] {
        VectorDiff::Replace { index: 1, value: TimelineItem::Event(e) } => {
            assert_eq!(e.reactions.len(), 1);
            assert_eq!(e.reactions[0].key, "👍");
            assert_eq!(e.reactions[0].sender, BOB);
            assert_eq!(e.reaction_senders(&"👍".to_string()), vec![BOB.to_string()]);
            assert!(!e.is_edited());
        }
        _ => panic!("expected a replacement at index 1"),
    }
    t.handle_relation(redaction("$N6eUCBc3vu58PL8TobGaVQzM", BOB, "$031IXQRi27504"));
    let diffs = t.take_diffs(sub);
    assert_eq!(diffs.len(), 1);
    match &diffs[0] {
        VectorDiff::Replace { index: 1, value: TimelineItem::Event(e) } => {
            assert_eq!(e.reactions.len(), 0);
            assert!(e.reaction_senders(&"👍".to_string()).is_empty());
            assert_eq!(body(e), "hello");
        }
        _ => panic!("expected a replacement at index 1"),
    }
}

#[test]
fn redaction_is_idempotent() {
    let mut t = Timeline::new(ME.to_string());
    let (sub, _) = t.subscribe();
    t.add_event(message("$m1", ALICE, 1000, "hello"));
    t.handle_relation(reaction("$r1", BOB, "$m1", "👍"));
    t.handle_relation(edit("$e1", ALICE, "$m1", "hi"));
    t.take_diffs(sub);
    t.handle_relation(redaction("$x1", ALICE, "$m1"));
    let diffs = t.take_diffs(sub);
    assert_eq!(diffs.len(), 1);
    let e = event_at(&t, 1);
    assert!(matches!(e.content, TimelineItemContent::RedactedMessage));
    assert!(e.reactions.is_empty());
    assert!(!e.is_edited());
    t.handle_relation(redaction("$x2", ALICE, "$m1"));
    assert!(t.take_diffs(sub).is_empty());
    t.handle_relation(redaction("$x3", ALICE, "$nowhere"));
    assert!(t.take_diffs(sub).is_empty());
}

#[test]
fn relations_before_their_target_converge() {
    let rels = || {
        vec![
            edit("$e", ALICE, "$m", "hi"),
            reaction("$r", BOB, "$m", "👍"),
            redaction("$d", ALICE, "$m"),
        ]
    };
    let mut canonical = Timeline::new(ME.to_string());
    canonical.add_event(message("$m", ALICE, 1000, "hello"));
    for r in rels() {
        canonical.handle_relation(r);
    }
    let orders: Vec<Vec<usize>> = vec![
        vec![0, 1, 2],
        vec![0, 2, 1],
        vec![1, 0, 2],
        vec![1, 2, 0],
        vec![2, 0, 1],
        vec![2, 1, 0],
    ];
    for order in orders {
        for arrival in 0..=3 {
            let mut t = Timeline::new(ME.to_string());
            let all = rels();
            for (k, &i) in order.iter().enumerate() {
                if k == arrival {
                    t.add_event(message("$m", ALICE, 1000, "hello"));
                }
                t.handle_relation(Relation {
                    event_id: all[i].event_id.clone(),
                    sender: all[i].sender.clone(),
                    target: all[i].target.clone(),
                    kind: match &all[i].kind {
                        RelationKind::Edit { new_body } => {
                            RelationKind::Edit { new_body: new_body.clone() }
                        }
                        RelationKind::Reaction { key } => RelationKind::Reaction { key: key.clone() },
                        RelationKind::Redaction => RelationKind::Redaction,
                    },
                });
            }
            if arrival == 3 {
                t.add_event(message("$m", ALICE, 1000, "hello"));
            }
            assert_eq!(describe_all(&t), describe_all(&canonical));
        }
    }
}

#[test]
fn queued_edit_and_reaction_apply_on_arrival() {
    let mut t = Timeline::new(ME.to_string());
    t.handle_relation(edit("$e", ALICE, "$m", "hi"));
    t.handle_relation(reaction("$r", BOB, "$m", "🎉"));
    assert_eq!(t.len(), 0);
    t.add_event(message("$m", ALICE, 1000, "hello"));
    let e = event_at(&t, 1);
    assert_eq!(body(e), "hi");
    assert!(e.is_edited());
    assert_eq!(e.reactions.len(), 1);
}

#[test]
fn redacted_queued_reaction_never_applies() {
    let mut t = Timeline::new(ME.to_string());
    t.handle_relation(reaction("$r", BOB, "$m", "🎉"));
    t.handle_relation(redaction("$d", BOB, "$r"));
    t.add_event(message("$m", ALICE, 1000, "hello"));
    assert!(event_at(&t, 1).reactions.is_empty());
}

#[test]
fn reply_details_fetch_cycle() {
    let mut t = Timeline::new(ME.to_string());
    let (sub, _) = t.subscribe();
    assert_eq!(
        t.fetch_details_for_event(&"$fakeevent".to_string()),
        Err(TimelineError::RemoteEventNotInTimeline)
    );
    t.add_event(message("$event1", ALICE, 152037280, "hello"));
    t.add_event(reply("$event2", BOB, 152045456, "hello to you too", "$event1"));
    match reply_details(event_at(&t, 2)) {
        TimelineDetails::Ready(e) => {
            assert_eq!(e.sender, ALICE);
            assert_eq!(e.body, "hello");
        }
        _ => panic!("expected ready details"),
    }
    t.add_event(reply("$event3", BOB, 152046694, "you were right", "$remoteevent"));
    assert!(matches!(reply_details(event_at(&t, 3)), TimelineDetails::Unavailable));
    t.take_diffs(sub);

    let missing = "$remoteevent".to_string();
    assert_eq!(t.fetch_details_for_event(&missing), Ok(FetchRequest::Started));
    let diffs = t.take_diffs(sub);
    assert_eq!(diffs.len(), 1);
    match &diffs[0] {
        VectorDiff::Replace { index: 3, value: TimelineItem::Event(e) } => {
            assert!(matches!(reply_details(e), TimelineDetails::Pending));
        }
        _ => panic!("expected a replacement at index 3"),
    }
    t.complete_fetch(&missing, Err(FetchError::NotFound));
    assert!(matches!(
        reply_details(event_at(&t, 3)),
        TimelineDetails::Error(FetchError::NotFound)
    ));

    assert_eq!(t.fetch_details_for_event(&missing), Ok(FetchRequest::Started));
    assert!(matches!(reply_details(event_at(&t, 3)), TimelineDetails::Pending));
    t.complete_fetch(
        &missing,
        Ok(RepliedToEvent {
            sender: "@admin:example.org".to_string(),
            body: "Alice is gonna arrive soon".to_string(),
        }),
    );
    match reply_details(event_at(&t, 3)) {
        TimelineDetails::Ready(e) => assert_eq!(e.body, "Alice is gonna arrive soon"),
        _ => panic!("expected ready details"),
    }
    let diffs = t.take_diffs(sub);
    assert_eq!(diffs.len(), 3);
}

#[test]
fn concurrent_fetches_coalesce() {
    let mut t = Timeline::new(ME.to_string());
    t.add_event(reply("$a", BOB, 1000, "one", "$gone"));
    t.add_event(reply("$b", ALICE, 2000, "two", "$gone"));
    let gone = "$gone".to_string();
    let mut started = 0;
    for _ in 0..5 {
        match t.fetch_details_for_event(&gone) {
            Ok(FetchRequest::Started) => started += 1,
            Ok(FetchRequest::Joined) => {}
            Err(_) => panic!("the event is referenced"),
        }
    }
    assert_eq!(started, 1);
    assert!(matches!(reply_details(event_at(&t, 1)), TimelineDetails::Pending));
    assert!(matches!(reply_details(event_at(&t, 2)), TimelineDetails::Pending));
    t.complete_fetch(&gone, Err(FetchError::Network));
    assert!(matches!(reply_details(event_at(&t, 2)), TimelineDetails::Error(FetchError::Network)));
    assert_eq!(t.fetch_details_for_event(&gone), Ok(FetchRequest::Started));
}

#[test]
fn stale_completion_changes_nothing() {
    let mut t = Timeline::new(ME.to_string());
    t.add_event(reply("$a", BOB, 1000, "one", "$gone"));
    t.complete_fetch(&"$gone".to_string(), Err(FetchError::Forbidden));
    assert!(matches!(reply_details(event_at(&t, 1)), TimelineDetails::Unavailable));
}

fn markers(t: &Timeline) -> Vec<usize> {
    (0..t.len())
        .filter(|&i| matches!(t.get(i), Some(TimelineItem::Virtual(VirtualTimelineItem::ReadMarker))))
        .collect()
}

#[test]
fn read_marker_placement() {
    let mut t = Timeline::new(ME.to_string());
    t.add_event(message("$a", ALICE, 1000, "a"));
    t.add_event(message("$b", BOB, 2000, "b"));
    t.add_event(message("$c", ALICE, 3000, "c"));
    // [day, A, B, C]
    t.set_fully_read("$b".to_string());
    assert_eq!(markers(&t), vec![3]);
    assert_eq!(event_at(&t, 2).event_id.as_deref(), Some("$b"));
    // C is last: no marker is placed there.
    t.set_fully_read("$c".to_string());
    assert_eq!(markers(&t), vec![3]);
    // Once something follows C, the marker moves after it.
    t.add_event(message("$d", BOB, 4000, "d"));
    assert_eq!(markers(&t), vec![4]);
    assert_eq!(event_at(&t, 3).event_id.as_deref(), Some("$c"));
    t.set_fully_read("$unknown".to_string());
    assert_eq!(markers(&t), vec![4]);
}

#[test]
fn read_marker_at_the_end_waits_for_a_later_event() {
    let mut t = Timeline::new(ME.to_string());
    let (sub, _) = t.subscribe();
    t.add_event(message("$someplace:example.org", ALICE, 152037280, "hello"));
    t.take_diffs(sub);
    t.set_fully_read("$someplace:example.org".to_string());
    assert!(t.take_diffs(sub).is_empty());
    t.add_event(message("$someotherplace:example.org", BOB, 152067280, "hello to you!"));
    let diffs = t.take_diffs(sub);
    assert_eq!(diffs.len(), 2);
    assert!(matches!(&diffs[0], VectorDiff::PushBack { .. }));
    assert!(matches!(
        &diffs[1],
        VectorDiff::Insert { index: 2, value: TimelineItem::Virtual(VirtualTimelineItem::ReadMarker) }
    ));
}

#[test]
fn day_dividers_start_each_day() {
    let mut t = Timeline::new(ME.to_string());
    t.add_event(message("$a", ALICE, 1000, "a"));
    t.add_event(message("$b", ALICE, 2000, "b"));
    t.add_event(message("$c", ALICE, 86_400_000 + 5, "c"));
    let kinds: Vec<String> = describe_all(&t).iter().map(|s| s.split(' ').next().unwrap().to_string()).collect();
    assert_eq!(kinds, vec!["day", "0", "1", "day", "2"]);
    assert!(matches!(t.get(0), Some(TimelineItem::Virtual(VirtualTimelineItem::DayDivider(0)))));
    assert!(matches!(t.get(3), Some(TimelineItem::Virtual(VirtualTimelineItem::DayDivider(1)))));
}

#[test]
fn duplicate_event_is_ignored() {
    let mut t = Timeline::new(ME.to_string());
    t.add_event(message("$a", ALICE, 1000, "a"));
    let (sub, _) = t.subscribe();
    t.add_event(message("$a", ALICE, 1000, "again"));
    assert!(t.take_diffs(sub).is_empty());
    assert_eq!(t.len(), 2);
}

#[test]
fn own_events_are_never_highlighted() {
    let mut t = Timeline::new(ME.to_string());
    let mut mine = message("$a", ME, 1000, "a");
    mine.highlighted = true;
    let mut theirs = message("$b", BOB, 1000, "b");
    theirs.highlighted = true;
    t.add_event(mine);
    t.add_event(theirs);
    assert!(event_at(&t, 1).is_own);
    assert!(!event_at(&t, 1).highlighted);
    assert!(!event_at(&t, 2).is_own);
    assert!(event_at(&t, 2).highlighted);
}

#[test]
fn other_events_and_lookups() {
    let mut t = Timeline::new(ME.to_string());
    t.add_event(NewEvent {
        event_id: "$s".to_string(),
        sender: ALICE.to_string(),
        timestamp: 10,
        highlighted: false,
        content: EventContent::Other { event_type: "m.room.topic".to_string() },
    });
    t.add_event(message("$m", BOB, 20, "hi"));
    let found = t.item_by_event_id(&"$m".to_string()).unwrap();
    assert_eq!(found.local_id, 1);
    assert!(t.item_by_event_id(&"$zz".to_string()).is_none());
    assert_eq!(t.index_of_local_id(0), Some(1));
    assert_eq!(t.index_of_local_id(7), None);
    assert!(t.get(9).is_none());
    match t.resolve(&"$s".to_string()) {
        TimelineDetails::Ready(e) => {
            assert_eq!(e.sender, ALICE);
            assert_eq!(e.body, "");
        }
        _ => panic!("expected ready details"),
    }
    assert!(matches!(t.resolve(&"$zz".to_string()), TimelineDetails::Unavailable));
}

#[test]
fn snapshot_and_diffs_reproduce_the_store() {
    let mut t = Timeline::new(ME.to_string());
    t.add_event(message("$a", ALICE, 1000, "a"));
    let (first, snap1) = t.subscribe();
    let mut view1: Vec<String> = snap1.iter().map(describe).collect();
    t.add_event(message("$b", BOB, 2000, "b"));
    t.set_fully_read("$a".to_string());
    let (second, snap2) = t.subscribe();
    let mut view2: Vec<String> = snap2.iter().map(describe).collect();
    t.handle_relation(reaction("$r", BOB, "$a", "👍"));
    t.add_event(message("$c", ALICE, 90_000_000, "c"));
    t.handle_relation(edit("$e", BOB, "$b", "bee"));
    view1 = fold(view1, &t.take_diffs(first));
    assert_eq!(view1, describe_all(&t));
    t.add_event(message("$d", ALICE, 90_000_001, "d"));
    view2 = fold(view2, &t.take_diffs(second));
    assert_eq!(view2, describe_all(&t));
    view1 = fold(view1, &t.take_diffs(first));
    assert_eq!(view1, describe_all(&t));
    t.unsubscribe(first);
    t.add_event(message("$f", ALICE, 90_000_002, "f"));
    view2 = fold(view2, &t.take_diffs(second));
    assert_eq!(view2, describe_all(&t));
}

#[test]
fn local_echo_keeps_identity_when_confirmed() {
    let mut t = Timeline::new(ME.to_string());
    t.add_event(message("$a", ALICE, 1000, "a"));
    let local = t.add_local_echo("mine".to_string(), 2000).unwrap();
    assert_eq!(local, 1);
    let echo = event_at(&t, 2);
    assert!(echo.event_id.is_none());
    assert!(echo.is_own);
    assert!(t.item_by_event_id(&"$mine".to_string()).is_none());
    t.handle_relation(reaction("$r", BOB, "$mine", "👍"));
    let (sub, _) = t.subscribe();
    t.confirm_local_echo(local, "$mine".to_string());
    let diffs = t.take_diffs(sub);
    assert_eq!(diffs.len(), 1);
    match &diffs[0] {
        VectorDiff::Replace { index: 2, value: TimelineItem::Event(e) } => {
            assert_eq!(e.local_id, local);
            assert_eq!(e.event_id.as_deref(), Some("$mine"));
            assert_eq!(e.reactions.len(), 1);
        }
        _ => panic!("expected a replacement at index 2"),
    }
    assert_eq!(t.index_of_local_id(local), Some(2));
    // A second confirmation finds no unconfirmed echo.
    t.confirm_local_echo(local, "$other".to_string());
    assert!(t.take_diffs(sub).is_empty());
}

#[test]
fn local_echo_removed_when_remote_event_came_first() {
    let mut t = Timeline::new(ME.to_string());
    let local = t.add_local_echo("mine".to_string(), 2000).unwrap();
    t.add_event(message("$mine", ME, 2000, "mine"));
    assert_eq!(t.len(), 3);
    let (sub, _) = t.subscribe();
    t.confirm_local_echo(local, "$mine".to_string());
    let diffs = t.take_diffs(sub);
    assert_eq!(diffs.len(), 1);
    assert!(matches!(diffs[0], VectorDiff::Remove { index: 1 }));
    assert_eq!(t.len(), 2);
    assert_eq!(event_at(&t, 1).event_id.as_deref(), Some("$mine"));
}

#[test]
fn reaction_groups_keep_first_seen_order() {
    let mut t = Timeline::new(ME.to_string());
    t.add_event(message("$m", ALICE, 1000, "hello"));
    t.handle_relation(reaction("$r1", BOB, "$m", "👍"));
    t.handle_relation(reaction("$r2", ALICE, "$m", "🎉"));
    t.handle_relation(reaction("$r3", ME, "$m", "👍"));
    let e = event_at(&t, 1);
    assert_eq!(e.reaction_senders(&"👍".to_string()), vec![BOB.to_string(), ME.to_string()]);
    assert_eq!(e.reaction_senders(&"🎉".to_string()), vec![ALICE.to_string()]);
    t.handle_relation(redaction("$x", BOB, "$r1"));
    assert_eq!(event_at(&t, 1).reaction_senders(&"👍".to_string()), vec![ME.to_string()]);
}

#[test]
fn clear_resets_the_timeline() {
    let mut t = Timeline::new(ME.to_string());
    t.add_event(message("$m", ALICE, 1000, "hello"));
    t.handle_relation(edit("$e", ALICE, "$later", "x"));
    let (sub, _) = t.subscribe();
    t.clear();
    assert_eq!(t.len(), 0);
    let diffs = t.take_diffs(sub);
    assert_eq!(diffs.len(), 1);
    assert!(matches!(diffs[0], VectorDiff::Clear));
    t.add_event(message("$later", ALICE, 2000, "fresh"));
    assert_eq!(body(event_at(&t, 1)), "fresh");
    assert!(!event_at(&t, 1).is_edited());
}

#[test]
fn older_events_go_to_the_front() {
    let mut t = Timeline::new(ME.to_string());
    t.add_event(message("$c", ALICE, 2 * 86_400_000 + 50, "c"));
    let (sub, _) = t.subscribe();
    // Same day as the first event: under its divider.
    t.add_older_event(message("$b", BOB, 2 * 86_400_000 + 10, "b"));
    let diffs = t.take_diffs(sub);
    assert_eq!(diffs.len(), 1);
    assert!(matches!(diffs[0], VectorDiff::Insert { index: 1, .. }));
    // An earlier day: an item and its own divider at the front.
    t.add_older_event(message("$a", ALICE, 86_400_000 + 10, "a"));
    let diffs = t.take_diffs(sub);
    assert_eq!(diffs.len(), 2);
    assert!(matches!(
        diffs[1],
        VectorDiff::Insert { index: 0, value: TimelineItem::Virtual(VirtualTimelineItem::DayDivider(1)) }
    ));
    let kinds: Vec<String> =
        describe_all(&t).iter().map(|s| s.split(' ').take(2).collect::<Vec<_>>().join(" ")).collect();
    assert_eq!(kinds, vec!["day 1", "2 Some(\"$a\")", "day 2", "1 Some(\"$b\")", "0 Some(\"$c\")"]);
    // An event that is already placed is ignored.
    t.add_older_event(message("$a", ALICE, 10, "again"));
    assert!(t.take_diffs(sub).is_empty());
}

#[test]
fn older_fully_read_event_gets_the_marker() {
    let mut t = Timeline::new(ME.to_string());
    t.add_event(message("$b", BOB, 2000, "b"));
    t.set_fully_read("$a".to_string());
    assert!(markers(&t).is_empty());
    t.add_older_event(message("$a", ALICE, 1000, "a"));
    assert_eq!(markers(&t), vec![2]);
    assert_eq!(event_at(&t, 1).event_id.as_deref(), Some("$a"));
}

#[test]
fn read_receipts_move_between_events() {
    let mut t = Timeline::new(ME.to_string());
    t.add_event(message("$a", ALICE, 1000, "a"));
    t.add_event(message("$b", ALICE, 2000, "b"));
    let (sub, _) = t.subscribe();
    t.handle_read_receipt(&"$a".to_string(), BOB.to_string(), 1500);
    assert_eq!(event_at(&t, 1).read_receipts.len(), 1);
    assert_eq!(event_at(&t, 1).read_receipts[0].user, BOB);
    assert_eq!(event_at(&t, 1).read_receipts[0].timestamp, 1500);
    assert_eq!(t.take_diffs(sub).len(), 1);
    t.handle_read_receipt(&"$b".to_string(), BOB.to_string(), 2500);
    assert!(event_at(&t, 1).read_receipts.is_empty());
    assert_eq!(event_at(&t, 2).read_receipts.len(), 1);
    let diffs = t.take_diffs(sub);
    assert_eq!(diffs.len(), 2);
    assert!(matches!(diffs[0], VectorDiff::Replace { index: 1, .. }));
    assert!(matches!(diffs[1], VectorDiff::Replace { index: 2, .. }));
    t.handle_read_receipt(&"$nowhere".to_string(), BOB.to_string(), 3000);
    assert!(t.take_diffs(sub).is_empty());
    assert_eq!(event_at(&t, 2).read_receipts.len(), 1);
}

fn layout(t: &Timeline) -> Vec<String> {
    (0..t.len())
        .map(|i| match t.get(i).unwrap() {
            TimelineItem::Virtual(VirtualTimelineItem::DayDivider(d)) => format!("day{}", d),
            TimelineItem::Virtual(VirtualTimelineItem::ReadMarker) => "marker".to_string(),
            TimelineItem::Event(e) => e.event_id.clone().unwrap_or_default(),
        })
        .collect()
}

#[test]
fn late_events_take_their_place_in_time() {
    const DAY: u64 = 86_400_000;
    let mut t = Timeline::new(ME.to_string());
    t.add_event(message("$a", ALICE, DAY + 10, "a"));
    t.add_event(message("$c", ALICE, DAY + 30, "c"));
    t.add_event(message("$e", ALICE, 3 * DAY + 10, "e"));
    assert_eq!(layout(&t), vec!["day1", "$a", "$c", "day3", "$e"]);
    // Same day as its predecessor.
    t.add_event(message("$b", BOB, DAY + 20, "b"));
    assert_eq!(layout(&t), vec!["day1", "$a", "$b", "$c", "day3", "$e"]);
    // A day of its own, between two others.
    t.add_event(message("$d", BOB, 2 * DAY + 5, "d"));
    assert_eq!(layout(&t), vec!["day1", "$a", "$b", "$c", "day2", "$d", "day3", "$e"]);
    // The day of the next event: under that event's divider.
    t.add_event(message("$d2", BOB, 3 * DAY + 1, "d2"));
    assert_eq!(layout(&t), vec!["day1", "$a", "$b", "$c", "day2", "$d", "day3", "$d2", "$e"]);
    // Same timestamp: after the events already there.
    t.add_event(message("$b2", BOB, DAY + 20, "b2"));
    assert_eq!(
        layout(&t),
        vec!["day1", "$a", "$b", "$b2", "$c", "day2", "$d", "day3", "$d2", "$e"]
    );
    // Earlier than everything.
    t.add_event(message("$z", BOB, 5, "z"));
    assert_eq!(layout(&t)[..3], ["day0", "$z", "day1"]);
}

#[test]
fn late_event_after_the_fully_read_one_goes_after_the_marker() {
    let mut t = Timeline::new(ME.to_string());
    t.add_event(message("$a", ALICE, 1000, "a"));
    t.add_event(message("$c", ALICE, 3000, "c"));
    t.set_fully_read("$a".to_string());
    assert_eq!(layout(&t), vec!["day0", "$a", "marker", "$c"]);
    let (sub, _) = t.subscribe();
    t.add_event(message("$b", BOB, 2000, "b"));
    assert_eq!(layout(&t), vec!["day0", "$a", "marker", "$b", "$c"]);
    let diffs = t.take_diffs(sub);
    assert_eq!(diffs.len(), 1);
    assert!(matches!(diffs[0], VectorDiff::Insert { index: 3, .. }));
}
