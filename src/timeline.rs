//! The timeline: places events, applies their relations, keeps the virtual
//! items in place, and resolves reply targets, publishing every change to
//! its subscribers.

use vstd::prelude::*;

mod echo;
mod receipts;
mod reply;

pub use self::echo::{echo_index, echo_item, is_echo};
pub use self::receipts::{drop_receipt, has_receipt, receipt_moved, without_receipt};
pub use self::reply::{
    all_with_details, fetch_starts, fetched_details, fetches_started, lemma_at_most_one_fetch,
    referenced, replies_to, with_details, FetchRequest, TimelineError,
};

use crate::item::{
    items_view, reactions_view, receipts_view, ContentView, ReceiptView, DetailsView,
    EventTimelineItem, EventView, InReplyTo, InReplyToView, ItemView, ReactionView, RepliedToEvent,
    TimelineDetails, TimelineItem, TimelineItemContent, VirtualTimelineItem,
};
use crate::relations::{
    apply_relation, apply_relations, apply_to, applies_to, find_reaction, has_reaction,
    has_relation, lemma_apply_relations_keeps, not_targeting, relation_applies, relations_view,
    remove_reaction, split_relations, targeting, without_reaction, without_relation, Relation,
    RelationKind, RelationView,
};
use crate::store::{
    apply_diffs, diffs_view, lemma_snapshot_diff_consistency, DiffView, ObservableItems,
    VectorDiff,
};
use crate::virtual_items::{
    at_most_one_marker, day_of, event_index, has_event_id, is_read_marker, last_event_day,
    lemma_event_index, lemma_marker_index, lemma_marker_keeps_local_ids, lemma_insert_fresh,
    lemma_read_marker_placement, local_ids_below, marker_index, read_marker, unique_event_ids,
    with_read_marker, MS_PER_DAY,
};

verus! {

/// Whether `it` is an event item that holds the reaction event `id`.
pub open spec fn holds_reaction(it: ItemView, id: Seq<char>) -> bool {
    it is Event && has_reaction(it->Event_0.reactions, id)
}

/// The first item that holds the reaction event `id`, or -1.
pub open spec fn reaction_holder(s: Seq<ItemView>, id: Seq<char>) -> int {
    if exists|i: int|
        0 <= i < s.len() && #[trigger] holds_reaction(s[i], id) && forall|j: int|
            0 <= j < i ==> !#[trigger] holds_reaction(s[j], id) {
        choose|i: int|
            0 <= i < s.len() && #[trigger] holds_reaction(s[i], id) && forall|j: int|
                0 <= j < i ==> !#[trigger] holds_reaction(s[j], id)
    } else {
        -1
    }
}

/// The event item `it` without the reaction event `id`.
pub open spec fn unreacted(it: ItemView, id: Seq<char>) -> ItemView {
    ItemView::Event(
        EventView { reactions: without_reaction(it->Event_0.reactions, id), ..it->Event_0 },
    )
}

pub proof fn lemma_without_absent(rs: Seq<RelationView>, id: Seq<char>)
    requires
        !has_relation(rs, id),
    ensures
        without_relation(rs, id) == rs,
    decreases rs.len(),
{
    reveal(Seq::filter);
    if rs.len() > 0 {
        assert(!has_relation(rs.drop_last(), id)) by {
            if has_relation(rs.drop_last(), id) {
                let k = choose|k: int|
                    0 <= k < rs.drop_last().len() && (#[trigger] rs.drop_last()[k]).event_id == id;
                assert(rs[k] == rs.drop_last()[k]);
            }
        }
        lemma_without_absent(rs.drop_last(), id);
        assert(rs.last() == rs[rs.len() - 1]);
        assert(rs.drop_last().push(rs.last()) =~= rs);
    }
}

/// The body of a message, or nothing for other content.
pub open spec fn body_of(c: ContentView) -> Seq<char> {
    match c {
        ContentView::Message { body, .. } => body,
        _ => Seq::empty(),
    }
}

/// What the timeline knows of the event `id` without fetching it.
pub open spec fn resolved(s: Seq<ItemView>, id: Seq<char>) -> DetailsView {
    let t = event_index(s, id);
    if t >= 0 && s[t] is Event {
        DetailsView::Ready { sender: s[t]->Event_0.sender, body: body_of(s[t]->Event_0.content) }
    } else {
        DetailsView::Unavailable
    }
}

/// The content of a new event.
pub enum EventContent {
    Message { body: String, in_reply_to: Option<String> },
    /// Any other event: state changes, and placeholders for payloads that
    /// could not be understood.
    Other { event_type: String },
}

/// A new event, as the normalizer hands it over.
pub struct NewEvent {
    pub event_id: String,
    pub sender: String,
    pub timestamp: u64,
    /// What the push rules decided for this event.
    pub highlighted: bool,
    pub content: EventContent,
}

/// The item that a new event becomes, before its queued relations apply.
pub open spec fn placed_item(ev: NewEvent, local_id: u64, own: Seq<char>, s: Seq<ItemView>) -> EventView {
    EventView {
        local_id,
        event_id: Some(ev.event_id@),
        sender: ev.sender@,
        timestamp: ev.timestamp,
        content: match ev.content {
            EventContent::Message { body, in_reply_to } => ContentView::Message {
                body: body@,
                in_reply_to: match in_reply_to {
                    Some(r) => Some(InReplyToView { event_id: r@, event: resolved(s, r@) }),
                    None => None,
                },
            },
            EventContent::Other { event_type } => ContentView::Other { event_type: event_type@ },
        },
        reactions: Seq::empty(),
        edited: false,
        highlighted: ev.highlighted && ev.sender@ != own,
        is_own: ev.sender@ == own,
        read_receipts: Seq::empty(),
    }
}

/// `s` with a new event item at the end, preceded by a day divider when it
/// starts a new day.
pub open spec fn appended(s: Seq<ItemView>, it: EventView) -> Seq<ItemView> {
    let d = day_of(it.timestamp);
    let s1 = if last_event_day(s) == Some(d) {
        s
    } else {
        s.push(ItemView::Virtual(VirtualTimelineItem::DayDivider(d)))
    };
    s1.push(ItemView::Event(it))
}

/// `s` with an older event item at the front, under the divider of its day.
pub open spec fn prepended(s: Seq<ItemView>, it: EventView) -> Seq<ItemView> {
    let d = ItemView::Virtual(VirtualTimelineItem::DayDivider(day_of(it.timestamp)));
    if s.len() > 0 && s[0] == d {
        s.insert(1, ItemView::Event(it))
    } else {
        s.insert(0, ItemView::Event(it)).insert(0, d)
    }
}

pub open spec fn at_or_before(x: ItemView, ts: u64) -> bool {
    x is Event && x->Event_0.timestamp <= ts
}

pub open spec fn later_than(x: ItemView, ts: u64) -> bool {
    x is Event && x->Event_0.timestamp > ts
}

/// The last event item of `s` not later than `ts`, or -1.
pub open spec fn last_at_or_before(s: Seq<ItemView>, ts: u64) -> int {
    if exists|i: int|
        0 <= i < s.len() && #[trigger] at_or_before(s[i], ts) && forall|j: int|
            i < j < s.len() ==> !#[trigger] at_or_before(s[j], ts) {
        choose|i: int|
            0 <= i < s.len() && #[trigger] at_or_before(s[i], ts) && forall|j: int|
                i < j < s.len() ==> !#[trigger] at_or_before(s[j], ts)
    } else {
        -1
    }
}

/// Whether an event later than `ts` stands after position `p`.
pub open spec fn later_after(s: Seq<ItemView>, p: int, ts: u64) -> bool {
    exists|j: int| p < j < s.len() && #[trigger] later_than(s[j], ts)
}

/// `s` with a new event item placed in timestamp order: after every event
/// not later than it (and after the read marker that follows the last of
/// them), under the divider of its day.
pub open spec fn placed_in_order(s: Seq<ItemView>, it: EventView) -> Seq<ItemView> {
    let p = last_at_or_before(s, it.timestamp);
    let d = day_of(it.timestamp);
    let dv = ItemView::Virtual(VirtualTimelineItem::DayDivider(d));
    let j = if p + 1 < s.len() && is_read_marker(s[p + 1]) {
        p + 2
    } else {
        p + 1
    };
    if !later_after(s, p, it.timestamp) {
        appended(s, it)
    } else if p < 0 {
        prepended(s, it)
    } else if day_of(s[p]->Event_0.timestamp) == d {
        s.insert(j, ItemView::Event(it))
    } else if j < s.len() && s[j] == dv {
        s.insert(j + 1, ItemView::Event(it))
    } else {
        s.insert(j, ItemView::Event(it)).insert(j, dv)
    }
}

/// `s` with the read marker placed after the fully read event, if any.
pub open spec fn marked(s: Seq<ItemView>, fully_read: Option<Seq<char>>) -> Seq<ItemView> {
    match fully_read {
        Some(f) => with_read_marker(s, f),
        None => s,
    }
}

/// Snapshot/diff consistency: for every subscriber, what it has seen with
/// its unread diffs applied in order is the live sequence of items.
pub proof fn lemma_timeline_snapshot_consistency(t: Timeline, id: usize)
    requires
        t.wf(),
        t.store().is_subscribed(id),
    ensures
        apply_diffs(t.store().seen(id), t.store().unread(id)) == t.items(),
{
    lemma_snapshot_diff_consistency(&t.store(), id);
}

/// The timeline of one room.
pub struct Timeline {
    store: ObservableItems,
    own_user_id: String,
    next_local_id: u64,
    /// Relations whose target is not placed yet, in arrival order.
    pending: Vec<Relation>,
    /// Reply targets whose fetch is in flight.
    in_flight: Vec<String>,
    /// The event that the user has fully read, from the room's account data.
    fully_read: Option<String>,
}

impl Timeline {
    pub closed spec fn items(&self) -> Seq<ItemView> {
        self.store@
    }

    pub closed spec fn store(&self) -> ObservableItems {
        self.store
    }

    pub closed spec fn pending(&self) -> Seq<RelationView> {
        relations_view(self.pending@)
    }

    pub closed spec fn in_flight(&self) -> Seq<Seq<char>> {
        self.in_flight@.map_values(|s: String| s@)
    }

    pub closed spec fn fully_read(&self) -> Option<Seq<char>> {
        match self.fully_read {
            Some(s) => Some(s@),
            None => None,
        }
    }

    pub closed spec fn own_user_id(&self) -> Seq<char> {
        self.own_user_id@
    }

    pub closed spec fn next_local_id(&self) -> u64 {
        self.next_local_id
    }

    pub closed spec fn wf(&self) -> bool {
        &&& self.store.wf()
        &&& unique_event_ids(self.store@)
        &&& at_most_one_marker(self.store@)
        &&& local_ids_below(self.store@, self.next_local_id)
    }

    /// An empty timeline for the user `own_user_id`.
    pub fn new(own_user_id: String) -> (r: Self)
        ensures
            r.wf(),
            r.items() == Seq::<ItemView>::empty(),
            r.pending() == Seq::<RelationView>::empty(),
            r.in_flight() == Seq::<Seq<char>>::empty(),
            r.fully_read() == None::<Seq<char>>,
            r.own_user_id() == own_user_id@,
            r.next_local_id() == 0,
    {
        let r = Timeline {
            store: ObservableItems::new(),
            own_user_id,
            next_local_id: 0,
            pending: Vec::new(),
            in_flight: Vec::new(),
            fully_read: None,
        };
        assert(relations_view(r.pending@) =~= Seq::<RelationView>::empty());
        assert(r.in_flight@.map_values(|s: String| s@) =~= Seq::<Seq<char>>::empty());
        r
    }

    /// The number of items.
    pub fn len(&self) -> (r: usize)
        ensures
            r == self.items().len(),
    {
        self.store.len()
    }

    /// The item at `index`.
    pub fn get(&self, index: usize) -> (r: Option<&TimelineItem>)
        ensures
            match r {
                Some(it) => index < self.items().len() && it@ == self.items()[index as int],
                None => index >= self.items().len(),
            },
    {
        if index < self.store.len() {
            Some(self.store.get(index))
        } else {
            None
        }
    }

    /// The position of the event `id`.
    pub fn find_event(&self, id: &String) -> (r: Option<usize>)
        requires
            self.wf(),
        ensures
            match r {
                Some(i) => i == event_index(self.items(), id@) && i < self.items().len(),
                None => event_index(self.items(), id@) == -1,
            },
    {
        let mut i: usize = 0;
        while i < self.store.len()
            invariant
                self.wf(),
                i <= self.store@.len(),
                forall|k: int| 0 <= k < i ==> !#[trigger] has_event_id(self.store@[k], id@),
            decreases self.store@.len() - i,
        {
            let it = self.store.get(i);
            if let TimelineItem::Event(e) = it {
                if let Some(eid) = &e.event_id {
                    if *eid == *id {
                        proof {
                            lemma_event_index(self.store@, id@, i as int);
                        }
                        return Some(i);
                    }
                }
            }
            i = i + 1;
        }
        None
    }

    /// The position of the event item that holds the reaction event `id`.
    fn find_reaction_holder(&self, id: &String) -> (r: Option<usize>)
        requires
            self.wf(),
        ensures
            match r {
                Some(i) => i < self.items().len() && self.items()[i as int] is Event
                    && has_reaction(self.items()[i as int]->Event_0.reactions, id@),
                None => forall|k: int|
                    0 <= k < self.items().len() ==> !#[trigger] holds_reaction(self.items()[k], id@),
            },
            match r {
                Some(i) => i as int == reaction_holder(self.items(), id@),
                None => reaction_holder(self.items(), id@) == -1,
            },
    {
        let mut i: usize = 0;
        while i < self.store.len()
            invariant
                self.wf(),
                i <= self.store@.len(),
                forall|k: int| 0 <= k < i ==> !#[trigger] holds_reaction(self.store@[k], id@),
            decreases self.store@.len() - i,
        {
            let it = self.store.get(i);
            if let TimelineItem::Event(e) = it {
                if find_reaction(&e.reactions, id) {
                    proof {
                        assert(holds_reaction(self.store@[i as int], id@));
                        let h = reaction_holder(self.store@, id@);
                        if h != i {
                            if h < i {
                                assert(!holds_reaction(self.store@[h], id@));
                            } else {
                                assert(h >= 0);
                            }
                        }
                    }
                    return Some(i);
                }
            }
            i = i + 1;
        }
        None
    }

    /// Applies a relation event: to its target when placed (one replacement
    /// of the target, only when the relation changes it); a redaction of a
    /// placed reaction removes that reaction; a redaction of a queued
    /// relation drops it from the queue; anything else waits in the queue for
    /// its target.
    pub fn handle_relation(&mut self, rel: Relation)
        requires
            old(self).wf(),
        ensures
            final(self).wf(),
            final(self).own_user_id() == old(self).own_user_id(),
            final(self).next_local_id() == old(self).next_local_id(),
            final(self).in_flight() == old(self).in_flight(),
            final(self).fully_read() == old(self).fully_read(),
            old(self).store().grows_to(final(self).store()),
            ({
                let s = old(self).items();
                let t = event_index(s, rel@.target);
                let h = reaction_holder(s, rel@.target);
                if t >= 0 {
                    let e = s[t]->Event_0;
                    &&& s[t] is Event
                    &&& final(self).pending() == old(self).pending()
                    &&& if relation_applies(e, rel@) {
                        let v = ItemView::Event(apply_relation(e, rel@));
                        &&& final(self).items() == s.update(t, v)
                        &&& forall|id: usize| #[trigger]
                            old(self).store().is_subscribed(id) ==> final(self).store().unread(id)
                                == old(self).store().unread(id).push(DiffView::Replace(t as usize, v))
                    } else {
                        &&& final(self).items() == s
                        &&& old(self).store().quiet_to(final(self).store())
                    }
                } else if rel@.kind is Redaction && h >= 0 {
                    let v = unreacted(s[h], rel@.target);
                    &&& final(self).items() == s.update(h, v)
                    &&& final(self).pending() == old(self).pending()
                    &&& forall|id: usize| #[trigger]
                        old(self).store().is_subscribed(id) ==> final(self).store().unread(id)
                            == old(self).store().unread(id).push(DiffView::Replace(h as usize, v))
                } else {
                    &&& final(self).items() == s
                    &&& old(self).store().quiet_to(final(self).store())
                    &&& final(self).pending() == if rel@.kind is Redaction && has_relation(
                        old(self).pending(),
                        rel@.target,
                    ) {
                        without_relation(old(self).pending(), rel@.target)
                    } else {
                        old(self).pending().push(rel@)
                    }
                }
            }),
    {
        let ghost s = self.store@;
        proof {
            ObservableItems::lemma_grows_refl(self.store);
        }
        match self.find_event(&rel.target) {
            Some(t) => {
                let cur = match self.store.get(t) {
                    TimelineItem::Event(e) => e,
                    TimelineItem::Virtual(_) => {
                        return ;
                    },
                };
                if applies_to(cur, &rel) {
                    let next = apply_to(cur.duplicate(), &rel);
                    let ghost v = ItemView::Event(next@);
                    let ghost before = self.store;
                    self.store.replace(t, TimelineItem::Event(next));
                    proof {
                        ObservableItems::lemma_push_grows(before, self.store, DiffView::Replace(t, v));
                        self.lemma_wf_after_update(before, t as int, v);
                    }
                }
            },
            None => {
                let is_redaction = match rel.kind {
                    RelationKind::Redaction => true,
                    _ => false,
                };
                if is_redaction {
                    if let Some(h) = self.find_reaction_holder(&rel.target) {
                        let cur = match self.store.get(h) {
                            TimelineItem::Event(e) => e,
                            TimelineItem::Virtual(_) => {
                                return ;
                            },
                        };
                        let mut next = cur.duplicate();
                        next.reactions = remove_reaction(&cur.reactions, &rel.target);
                        let ghost v = ItemView::Event(next@);
                        assert(v == unreacted(s[h as int], rel@.target));
                        let ghost before = self.store;
                        self.store.replace(h, TimelineItem::Event(next));
                        proof {
                            ObservableItems::lemma_push_grows(
                                before,
                                self.store,
                                DiffView::Replace(h, v),
                            );
                            self.lemma_wf_after_update(before, h as int, v);
                        }
                        return ;
                    }
                    let mut queue: Vec<Relation> = Vec::new();
                    std::mem::swap(&mut queue, &mut self.pending);
                    let (dropped, kept) = split_relations(queue, &rel.target, false);
                    self.pending = kept;
                    if dropped.len() > 0 {
                        return ;
                    }
                    let ghost kept_view = relations_view(self.pending@);
                    self.pending.push(rel);
                    proof {
                        lemma_without_absent(old(self).pending(), rel@.target);
                        assert(relations_view(self.pending@) =~= kept_view.push(rel@));
                    }
                } else {
                    let ghost before = relations_view(self.pending@);
                    self.pending.push(rel);
                    assert(relations_view(self.pending@) =~= before.push(rel@));
                }
            },
        }
    }

    /// Replacing an event item by one with the same event id and local id
    /// keeps the timeline well formed.
    proof fn lemma_wf_after_update(&self, before: ObservableItems, t: int, v: ItemView)
        requires
            before.wf(),
            unique_event_ids(before@),
            at_most_one_marker(before@),
            local_ids_below(before@, self.next_local_id),
            0 <= t < before@.len(),
            before@[t] is Event,
            v is Event,
            v->Event_0.event_id == before@[t]->Event_0.event_id,
            v->Event_0.local_id == before@[t]->Event_0.local_id,
            self.store.wf(),
            self.store@ == before@.update(t, v),
        ensures
            self.wf(),
    {
        let s = before@;
        let n = self.store@;
        assert forall|i: int, j: int, id: Seq<char>|
            0 <= i < n.len() && 0 <= j < n.len() && #[trigger] has_event_id(n[i], id)
                && #[trigger] has_event_id(n[j], id) implies i == j by {
            assert(has_event_id(s[i], id));
            assert(has_event_id(s[j], id));
        }
        assert forall|i: int, j: int|
            0 <= i < n.len() && 0 <= j < n.len() && #[trigger] is_read_marker(n[i])
                && #[trigger] is_read_marker(n[j]) implies i == j by {
            assert(is_read_marker(s[i]));
            assert(is_read_marker(s[j]));
        }
        assert forall|i: int| 0 <= i < n.len() implies match #[trigger] n[i] {
            ItemView::Event(e) => e.local_id < self.next_local_id,
            _ => true,
        } by {
            let _ = s[i];
        }
    }

    /// What the timeline knows of the event `id` without fetching it:
    /// `Ready` with its sender and body when it is placed, else `Unavailable`.
    pub fn resolve(&self, id: &String) -> (r: TimelineDetails)
        requires
            self.wf(),
        ensures
            r@ == resolved(self.items(), id@),
    {
        match self.find_event(id) {
            Some(t) => match self.store.get(t) {
                TimelineItem::Event(e) => {
                    let body = match &e.content {
                        TimelineItemContent::Message { body, .. } => body.clone(),
                        _ => String::new(),
                    };
                    TimelineDetails::Ready(RepliedToEvent { sender: e.sender.clone(), body })
                },
                TimelineItem::Virtual(_) => TimelineDetails::Unavailable,
            },
            None => TimelineDetails::Unavailable,
        }
    }

    fn last_day(&self) -> (r: Option<u64>)
        ensures
            r == last_event_day(self.items()),
    {
        let mut i: usize = self.store.len();
        assert(self.store@.subrange(0, i as int) =~= self.store@);
        while i > 0
            invariant
                i <= self.store@.len(),
                last_event_day(self.store@) == last_event_day(self.store@.subrange(0, i as int)),
            decreases i,
        {
            let ghost sub = self.store@.subrange(0, i as int);
            assert(sub.drop_last() =~= self.store@.subrange(0, i - 1));
            assert(sub.last() == self.store@[i - 1]);
            if let TimelineItem::Event(e) = self.store.get(i - 1) {
                return Some(e.timestamp / MS_PER_DAY);
            }
            i = i - 1;
        }
        assert(self.store@.subrange(0, 0) =~= Seq::<ItemView>::empty());
        None
    }

    fn find_marker(&self) -> (r: Option<usize>)
        requires
            self.wf(),
        ensures
            match r {
                Some(m) => m as int == marker_index(self.items()),
                None => marker_index(self.items()) == -1,
            },
    {
        let mut i: usize = 0;
        while i < self.store.len()
            invariant
                self.wf(),
                i <= self.store@.len(),
                forall|k: int| 0 <= k < i ==> !#[trigger] is_read_marker(self.store@[k]),
            decreases self.store@.len() - i,
        {
            if let TimelineItem::Virtual(VirtualTimelineItem::ReadMarker) = self.store.get(i) {
                proof {
                    lemma_marker_index(self.store@, i as int);
                }
                return Some(i);
            }
            i = i + 1;
        }
        None
    }

    /// Puts the read marker after the fully read event, where that event is
    /// known and not last.
    fn refresh_read_marker(&mut self)
        requires
            old(self).wf(),
        ensures
            final(self).wf(),
            final(self).items() == marked(old(self).items(), old(self).fully_read()),
            old(self).store().grows_to(final(self).store()),
            final(self).pending() == old(self).pending(),
            final(self).in_flight() == old(self).in_flight(),
            final(self).fully_read() == old(self).fully_read(),
            final(self).own_user_id() == old(self).own_user_id(),
            final(self).next_local_id() == old(self).next_local_id(),
    {
        let ghost s = self.store@;
        proof {
            ObservableItems::lemma_grows_refl(self.store);
        }
        let id = match &self.fully_read {
            Some(f) => f.clone(),
            None => {
                return ;
            },
        };
        proof {
            lemma_read_marker_placement(s, id@);
            lemma_marker_keeps_local_ids(s, id@, self.next_local_id);
        }
        let t = match self.find_event(&id) {
            Some(t) => t,
            None => {
                return ;
            },
        };
        if t >= self.store.len() - 1 {
            return ;
        }
        if let TimelineItem::Virtual(VirtualTimelineItem::ReadMarker) = self.store.get(t + 1) {
            return ;
        }
        let ghost s0 = self.store;
        match self.find_marker() {
            None => {
                self.store.insert(t + 1, TimelineItem::Virtual(VirtualTimelineItem::ReadMarker));
                proof {
                    ObservableItems::lemma_push_grows(s0, self.store, DiffView::Insert((t + 1) as usize, read_marker()));
                }
            },
            Some(m) => {
                self.store.remove(m);
                let ghost s1 = self.store;
                proof {
                    ObservableItems::lemma_push_grows(s0, s1, DiffView::Remove(m));
                }
                let p = if m < t {
                    t
                } else {
                    t + 1
                };
                self.store.insert(p, TimelineItem::Virtual(VirtualTimelineItem::ReadMarker));
                proof {
                    ObservableItems::lemma_push_grows(s1, self.store, DiffView::Insert(p, read_marker()));
                    ObservableItems::lemma_grows_trans(s0, s1, self.store);
                }
            },
        }
    }

    /// Sets the event that the user has fully read, and moves the read
    /// marker accordingly.
    pub fn set_fully_read(&mut self, event_id: String)
        requires
            old(self).wf(),
        ensures
            final(self).wf(),
            final(self).fully_read() == Some(event_id@),
            final(self).items() == with_read_marker(old(self).items(), event_id@),
            old(self).store().grows_to(final(self).store()),
            final(self).pending() == old(self).pending(),
            final(self).in_flight() == old(self).in_flight(),
            final(self).own_user_id() == old(self).own_user_id(),
            final(self).next_local_id() == old(self).next_local_id(),
    {
        self.fully_read = Some(event_id);
        self.refresh_read_marker();
    }

    /// Places a new event in timestamp order (after the events with the same
    /// timestamp), under the divider of its day, with the relations that
    /// waited for it applied in arrival order; then puts the read marker back
    /// after the fully read event. An event already placed is ignored, and so is any
    /// event once every local id has been handed out.
    pub fn add_event(&mut self, ev: NewEvent)
        requires
            old(self).wf(),
        ensures
            final(self).wf(),
            final(self).in_flight() == old(self).in_flight(),
            final(self).fully_read() == old(self).fully_read(),
            final(self).own_user_id() == old(self).own_user_id(),
            old(self).store().grows_to(final(self).store()),
            ({
                let s = old(self).items();
                if event_index(s, ev.event_id@) >= 0 || old(self).next_local_id() == u64::MAX {
                    &&& final(self).items() == s
                    &&& old(self).store().quiet_to(final(self).store())
                    &&& final(self).pending() == old(self).pending()
                    &&& final(self).next_local_id() == old(self).next_local_id()
                } else {
                    let it = apply_relations(
                        placed_item(ev, old(self).next_local_id(), old(self).own_user_id(), s),
                        targeting(old(self).pending(), ev.event_id@),
                    );
                    &&& final(self).items() == marked(placed_in_order(s, it), old(self).fully_read())
                    &&& final(self).pending() == not_targeting(old(self).pending(), ev.event_id@)
                    &&& final(self).next_local_id() == old(self).next_local_id() + 1
                }
            }),
    {
        let ghost s = self.store@;
        let ghost s0 = self.store;
        proof {
            ObservableItems::lemma_grows_refl(self.store);
        }
        if self.find_event(&ev.event_id).is_some() || self.next_local_id == u64::MAX {
            return ;
        }
        let event_id = ev.event_id.clone();
        let item = self.placed(ev);
        let ghost base = item@;
        self.next_local_id = self.next_local_id + 1;
        let item = self.apply_waiting(&event_id, item);
        proof {
            lemma_apply_relations_keeps(base, targeting(old(self).pending(), event_id@));
            assert forall|k: int| 0 <= k < s.len() implies !#[trigger] has_event_id(s[k], event_id@) by {}
        }
        let ghost s1 = self.store;
        self.insert_in_order(item);
        proof {
            ObservableItems::lemma_grows_trans(s0, s1, self.store);
        }
    }

    /// Opens a subscription: its handle, and a snapshot of the items. Every
    /// later change reaches the subscriber as a diff, and none made before.
    pub fn subscribe(&mut self) -> (r: (usize, Vec<TimelineItem>))
        requires
            old(self).wf(),
        ensures
            final(self).wf(),
            final(self).items() == old(self).items(),
            items_view(r.1@) == old(self).items(),
            final(self).store().is_subscribed(r.0),
            final(self).store().seen(r.0) == old(self).items(),
            final(self).store().unread(r.0) == Seq::<DiffView>::empty(),
            final(self).pending() == old(self).pending(),
            final(self).in_flight() == old(self).in_flight(),
            final(self).fully_read() == old(self).fully_read(),
            final(self).own_user_id() == old(self).own_user_id(),
            final(self).next_local_id() == old(self).next_local_id(),
    {
        self.store.subscribe()
    }

    /// The diffs that subscriber `id` has not taken yet, in order.
    pub fn take_diffs(&mut self, id: usize) -> (r: Vec<VectorDiff>)
        requires
            old(self).wf(),
            old(self).store().is_subscribed(id),
        ensures
            final(self).wf(),
            final(self).items() == old(self).items(),
            diffs_view(r@) == old(self).store().unread(id),
            final(self).store().is_subscribed(id),
            final(self).store().seen(id) == apply_diffs(old(self).store().seen(id), diffs_view(r@)),
            final(self).store().seen(id) == final(self).items(),
            final(self).store().unread(id) == Seq::<DiffView>::empty(),
            final(self).pending() == old(self).pending(),
            final(self).in_flight() == old(self).in_flight(),
            final(self).fully_read() == old(self).fully_read(),
            final(self).own_user_id() == old(self).own_user_id(),
            final(self).next_local_id() == old(self).next_local_id(),
    {
        let r = self.store.take_diffs(id);
        proof {
            lemma_snapshot_diff_consistency(&self.store, id);
            assert(self.store.unread(id) =~= Seq::<DiffView>::empty());
        }
        r
    }

    /// Closes subscription `id`.
    pub fn unsubscribe(&mut self, id: usize)
        requires
            old(self).wf(),
        ensures
            final(self).wf(),
            final(self).items() == old(self).items(),
            !final(self).store().is_subscribed(id),
            final(self).pending() == old(self).pending(),
            final(self).in_flight() == old(self).in_flight(),
            final(self).fully_read() == old(self).fully_read(),
            final(self).own_user_id() == old(self).own_user_id(),
            final(self).next_local_id() == old(self).next_local_id(),
    {
        self.store.unsubscribe(id)
    }

    /// The event item with the event id `id`.
    pub fn item_by_event_id(&self, id: &String) -> (r: Option<&EventTimelineItem>)
        requires
            self.wf(),
        ensures
            match r {
                Some(e) => event_index(self.items(), id@) >= 0 && self.items()[event_index(
                    self.items(),
                    id@,
                )] == ItemView::Event(e@),
                None => event_index(self.items(), id@) == -1,
            },
    {
        match self.find_event(id) {
            Some(t) => match self.store.get(t) {
                TimelineItem::Event(e) => Some(e),
                TimelineItem::Virtual(_) => None,
            },
            None => None,
        }
    }

    /// The position of the event item with local id `local_id`.
    pub fn index_of_local_id(&self, local_id: u64) -> (r: Option<usize>)
        ensures
            match r {
                Some(i) => i < self.items().len() && self.items()[i as int] is Event
                    && self.items()[i as int]->Event_0.local_id == local_id,
                None => forall|k: int|
                    0 <= k < self.items().len() ==> !(#[trigger] self.items()[k] is Event
                        && self.items()[k]->Event_0.local_id == local_id),
            },
    {
        let mut i: usize = 0;
        while i < self.store.len()
            invariant
                i <= self.store@.len(),
                forall|k: int|
                    0 <= k < i ==> !(#[trigger] self.store@[k] is Event
                        && self.store@[k]->Event_0.local_id == local_id),
            decreases self.store@.len() - i,
        {
            if let TimelineItem::Event(e) = self.store.get(i) {
                if e.local_id == local_id {
                    return Some(i);
                }
            }
            i = i + 1;
        }
        None
    }

    /// Appends an event item, after a day divider when it starts a new day,
    /// then puts the read marker back after the fully read event.
    fn append_item(&mut self, item: EventTimelineItem)
        requires
            old(self).wf(),
            item.local_id < old(self).next_local_id,
            item@.event_id is Some ==> forall|k: int|
                0 <= k < old(self).items().len() ==> !#[trigger] has_event_id(
                    old(self).items()[k],
                    item@.event_id->Some_0,
                ),
        ensures
            final(self).wf(),
            final(self).items() == marked(appended(old(self).items(), item@), old(self).fully_read()),
            old(self).store().grows_to(final(self).store()),
            final(self).pending() == old(self).pending(),
            final(self).in_flight() == old(self).in_flight(),
            final(self).fully_read() == old(self).fully_read(),
            final(self).own_user_id() == old(self).own_user_id(),
            final(self).next_local_id() == old(self).next_local_id(),
    {
        let ghost s = self.store@;
        let ghost s0 = self.store;
        let ghost it = item@;
        proof {
            ObservableItems::lemma_grows_refl(self.store);
        }
        let day = item.timestamp / MS_PER_DAY;
        let same_day = match self.last_day() {
            Some(d) => d == day,
            None => false,
        };
        let ghost n = self.next_local_id;
        if !same_day {
            let ghost before = self.store;
            let ghost sv = self.store@;
            let divider = TimelineItem::Virtual(VirtualTimelineItem::DayDivider(day));
            self.store.push_back(divider);
            proof {
                ObservableItems::lemma_push_grows(before, self.store, DiffView::PushBack(
                    ItemView::Virtual(VirtualTimelineItem::DayDivider(day)),
                ));
                ObservableItems::lemma_grows_trans(s0, before, self.store);
                let r = self.store@;
                assert forall|a: int, b: int, x: Seq<char>|
                    0 <= a < r.len() && 0 <= b < r.len() && #[trigger] has_event_id(r[a], x)
                        && #[trigger] has_event_id(r[b], x) implies a == b by {
                    assert(has_event_id(sv[a], x));
                    assert(has_event_id(sv[b], x));
                }
                assert forall|a: int, b: int|
                    0 <= a < r.len() && 0 <= b < r.len() && #[trigger] is_read_marker(r[a])
                        && #[trigger] is_read_marker(r[b]) implies a == b by {
                    assert(is_read_marker(sv[a]));
                    assert(is_read_marker(sv[b]));
                }
                assert forall|a: int| 0 <= a < r.len() implies match #[trigger] r[a] {
                    ItemView::Event(e) => e.local_id < n,
                    _ => true,
                } by {
                    if a < sv.len() {
                        let _ = sv[a];
                    }
                }
            }
        }
        let ghost s1 = self.store;
        let ghost sv = self.store@;
        proof {
            // the new event id is not in the items yet
            assert forall|a: int, x: Seq<char>|
                0 <= a < sv.len() && it.event_id == Some(x) implies !#[trigger] has_event_id(sv[a], x) by {
                if a < s.len() {
                    assert(sv[a] == s[a]);
                    assert(item@.event_id->Some_0 == x);
                    assert(s == old(self).items());
                    assert(!has_event_id(old(self).items()[a], item@.event_id->Some_0));
                }
            }
        }
        self.store.push_back(TimelineItem::Event(item));
        proof {
            ObservableItems::lemma_push_grows(s1, self.store, DiffView::PushBack(ItemView::Event(it)));
            ObservableItems::lemma_grows_trans(s0, s1, self.store);
            let r = self.store@;
            assert forall|a: int, b: int, x: Seq<char>|
                0 <= a < r.len() && 0 <= b < r.len() && #[trigger] has_event_id(r[a], x)
                    && #[trigger] has_event_id(r[b], x) implies a == b by {
                if a < sv.len() && b < sv.len() {
                    assert(has_event_id(sv[a], x));
                    assert(has_event_id(sv[b], x));
                } else if a < sv.len() {
                    assert(has_event_id(sv[a], x));
                    assert(r[b] == ItemView::Event(it));
                } else if b < sv.len() {
                    assert(has_event_id(sv[b], x));
                    assert(r[a] == ItemView::Event(it));
                }
            }
            assert forall|a: int, b: int|
                0 <= a < r.len() && 0 <= b < r.len() && #[trigger] is_read_marker(r[a])
                    && #[trigger] is_read_marker(r[b]) implies a == b by {
                if a < sv.len() {
                    assert(is_read_marker(sv[a]));
                }
                if b < sv.len() {
                    assert(is_read_marker(sv[b]));
                }
            }
            assert forall|a: int| 0 <= a < r.len() implies match #[trigger] r[a] {
                ItemView::Event(e) => e.local_id < n,
                _ => true,
            } by {
                if a < sv.len() {
                    let _ = sv[a];
                }
            }
            assert(r == appended(s, it));
        }
        let ghost s2 = self.store;
        self.refresh_read_marker();
        proof {
            ObservableItems::lemma_grows_trans(s0, s2, self.store);
        }
    }

    /// Forgets every item and every queued relation, as a full resync
    /// does; subscribers get one `Clear`.
    pub fn clear(&mut self)
        requires
            old(self).wf(),
        ensures
            final(self).wf(),
            final(self).items() == Seq::<ItemView>::empty(),
            final(self).pending() == Seq::<RelationView>::empty(),
            final(self).in_flight() == Seq::<Seq<char>>::empty(),
            final(self).fully_read() == old(self).fully_read(),
            final(self).own_user_id() == old(self).own_user_id(),
            final(self).next_local_id() == old(self).next_local_id(),
            old(self).store().grows_to(final(self).store()),
            forall|id: usize| #[trigger]
                old(self).store().is_subscribed(id) ==> final(self).store().unread(id)
                    == old(self).store().unread(id).push(DiffView::Clear),
    {
        let ghost s0 = self.store;
        self.store.clear();
        self.pending = Vec::new();
        self.in_flight = Vec::new();
        proof {
            ObservableItems::lemma_push_grows(s0, self.store, DiffView::Clear);
            assert(relations_view(self.pending@) =~= Seq::<RelationView>::empty());
            assert(self.in_flight@.map_values(|x: String| x@) =~= Seq::<Seq<char>>::empty());
        }
    }

    /// Applies to `item` the relations that wait for the event `event_id`,
    /// in arrival order, and takes them out of the queue.
    fn apply_waiting(&mut self, event_id: &String, item: EventTimelineItem) -> (r: EventTimelineItem)
        ensures
            r@ == apply_relations(item@, targeting(old(self).pending(), event_id@)),
            final(self).pending() == not_targeting(old(self).pending(), event_id@),
            final(self).store == old(self).store,
            final(self).in_flight == old(self).in_flight,
            final(self).fully_read == old(self).fully_read,
            final(self).own_user_id == old(self).own_user_id,
            final(self).next_local_id == old(self).next_local_id,
    {
        let ghost base = item@;
        let mut item = item;
        let mut queue: Vec<Relation> = Vec::new();
        std::mem::swap(&mut queue, &mut self.pending);
        let (waiting, kept) = split_relations(queue, event_id, true);
        self.pending = kept;
        let mut i: usize = 0;
        while i < waiting.len()
            invariant
                i <= waiting@.len(),
                item@ == apply_relations(base, relations_view(waiting@).subrange(0, i as int)),
            decreases waiting@.len() - i,
        {
            item = apply_to(item, &waiting[i]);
            proof {
                let w = relations_view(waiting@);
                assert(w.subrange(0, i + 1).drop_last() =~= w.subrange(0, i as int));
                assert(w.subrange(0, i + 1).last() == waiting@[i as int]@);
            }
            i = i + 1;
        }
        assert(relations_view(waiting@).subrange(0, waiting@.len() as int) =~= relations_view(
            waiting@,
        ));
        item
    }

    /// The item that a new event becomes, before its queued relations apply.
    fn placed(&self, ev: NewEvent) -> (r: EventTimelineItem)
        requires
            self.wf(),
        ensures
            r@ == placed_item(ev, self.next_local_id(), self.own_user_id(), self.items()),
    {
        let NewEvent { event_id, sender, timestamp, highlighted, content } = ev;
        let content = match content {
            EventContent::Message { body, in_reply_to } => {
                let reply = match in_reply_to {
                    Some(r) => {
                        let details = self.resolve(&r);
                        Some(InReplyTo { event_id: r, event: details })
                    },
                    None => None,
                };
                TimelineItemContent::Message { body, in_reply_to: reply }
            },
            EventContent::Other { event_type } => TimelineItemContent::Other { event_type },
        };
        let is_own = sender == self.own_user_id;
        let item = EventTimelineItem {
            local_id: self.next_local_id,
            event_id: Some(event_id),
            sender,
            timestamp,
            content,
            reactions: Vec::new(),
            edited: false,
            highlighted: highlighted && !is_own,
            is_own,
            read_receipts: Vec::new(),
        };
        assert(reactions_view(item.reactions@) =~= Seq::<ReactionView>::empty());
        assert(receipts_view(item.read_receipts@) =~= Seq::<ReceiptView>::empty());
        item
    }

    /// Places an event older than every item at the front of the timeline,
    /// under the divider of its day, with the relations that waited for it
    /// applied in arrival order; then puts the read marker back after the
    /// fully read event. An event already placed is ignored, and so is any
    /// event once every local id has been handed out.
    pub fn add_older_event(&mut self, ev: NewEvent)
        requires
            old(self).wf(),
        ensures
            final(self).wf(),
            final(self).in_flight() == old(self).in_flight(),
            final(self).fully_read() == old(self).fully_read(),
            final(self).own_user_id() == old(self).own_user_id(),
            old(self).store().grows_to(final(self).store()),
            ({
                let s = old(self).items();
                if event_index(s, ev.event_id@) >= 0 || old(self).next_local_id() == u64::MAX {
                    &&& final(self).items() == s
                    &&& old(self).store().quiet_to(final(self).store())
                    &&& final(self).pending() == old(self).pending()
                    &&& final(self).next_local_id() == old(self).next_local_id()
                } else {
                    let it = apply_relations(
                        placed_item(ev, old(self).next_local_id(), old(self).own_user_id(), s),
                        targeting(old(self).pending(), ev.event_id@),
                    );
                    &&& final(self).items() == marked(prepended(s, it), old(self).fully_read())
                    &&& final(self).pending() == not_targeting(old(self).pending(), ev.event_id@)
                    &&& final(self).next_local_id() == old(self).next_local_id() + 1
                }
            }),
    {
        let ghost s = self.store@;
        let ghost s0 = self.store;
        proof {
            ObservableItems::lemma_grows_refl(self.store);
        }
        if self.find_event(&ev.event_id).is_some() || self.next_local_id == u64::MAX {
            return ;
        }
        let event_id = ev.event_id.clone();
        let item = self.placed(ev);
        let ghost base = item@;
        self.next_local_id = self.next_local_id + 1;
        let item = self.apply_waiting(&event_id, item);
        let ghost it = item@;
        proof {
            lemma_apply_relations_keeps(base, targeting(old(self).pending(), event_id@));
            assert forall|k: int| 0 <= k < s.len() implies !#[trigger] has_event_id(s[k], event_id@) by {}
        }
        let ghost s1 = self.store;
        self.prepend_item(item);
        proof {
            ObservableItems::lemma_grows_trans(s0, s1, self.store);
        }
    }

    /// Puts an event item at the front, under the divider of its day, then
    /// puts the read marker back after the fully read event.
    fn prepend_item(&mut self, item: EventTimelineItem)
        requires
            old(self).wf(),
            item.local_id < old(self).next_local_id,
            item@.event_id is Some ==> forall|k: int|
                0 <= k < old(self).items().len() ==> !#[trigger] has_event_id(
                    old(self).items()[k],
                    item@.event_id->Some_0,
                ),
        ensures
            final(self).wf(),
            final(self).items() == marked(prepended(old(self).items(), item@), old(self).fully_read()),
            old(self).store().grows_to(final(self).store()),
            final(self).pending() == old(self).pending(),
            final(self).in_flight() == old(self).in_flight(),
            final(self).fully_read() == old(self).fully_read(),
            final(self).own_user_id() == old(self).own_user_id(),
            final(self).next_local_id() == old(self).next_local_id(),
    {
        let ghost s = self.store@;
        let ghost s0 = self.store;
        let ghost it = item@;
        proof {
            ObservableItems::lemma_grows_refl(self.store);
            assert forall|x: Seq<char>| has_event_id(ItemView::Event(it), x) implies forall|k: int|
                0 <= k < s.len() ==> !#[trigger] has_event_id(s[k], x) by {
                assert(it.event_id->Some_0 == x);
            }
        }
        let day = item.timestamp / MS_PER_DAY;
        let divider = VirtualTimelineItem::DayDivider(day);
        let ghost dv = ItemView::Virtual(divider);
        let under_divider = if self.store.len() > 0 {
            match self.store.get(0) {
                TimelineItem::Virtual(VirtualTimelineItem::DayDivider(d)) => *d == day,
                _ => false,
            }
        } else {
            false
        };
        let n = self.next_local_id;
        if under_divider {
            proof {
                lemma_insert_fresh(s, 1, ItemView::Event(it), n);
            }
            self.store.insert(1, TimelineItem::Event(item));
            proof {
                ObservableItems::lemma_push_grows(s0, self.store, DiffView::Insert(1, ItemView::Event(it)));
            }
        } else {
            proof {
                lemma_insert_fresh(s, 0, ItemView::Event(it), n);
                let s1 = s.insert(0, ItemView::Event(it));
                assert forall|x: Seq<char>| has_event_id(dv, x) implies forall|k: int|
                    0 <= k < s1.len() ==> !#[trigger] has_event_id(s1[k], x) by {}
                lemma_insert_fresh(s1, 0, dv, n);
            }
            self.store.insert(0, TimelineItem::Event(item));
            let ghost s1 = self.store;
            proof {
                ObservableItems::lemma_push_grows(s0, s1, DiffView::Insert(0, ItemView::Event(it)));
            }
            self.store.insert(0, TimelineItem::Virtual(divider));
            proof {
                ObservableItems::lemma_push_grows(s1, self.store, DiffView::Insert(0, dv));
                ObservableItems::lemma_grows_trans(s0, s1, self.store);
            }
        }
        let ghost s2 = self.store;
        self.refresh_read_marker();
        proof {
            ObservableItems::lemma_grows_trans(s0, s2, self.store);
        }
    }

    /// Places an event item in timestamp order, then puts the read marker
    /// back after the fully read event.
    fn insert_in_order(&mut self, item: EventTimelineItem)
        requires
            old(self).wf(),
            item.local_id < old(self).next_local_id,
            item@.event_id is Some ==> forall|k: int|
                0 <= k < old(self).items().len() ==> !#[trigger] has_event_id(
                    old(self).items()[k],
                    item@.event_id->Some_0,
                ),
        ensures
            final(self).wf(),
            final(self).items() == marked(placed_in_order(old(self).items(), item@), old(self).fully_read()),
            old(self).store().grows_to(final(self).store()),
            final(self).pending() == old(self).pending(),
            final(self).in_flight() == old(self).in_flight(),
            final(self).fully_read() == old(self).fully_read(),
            final(self).own_user_id() == old(self).own_user_id(),
            final(self).next_local_id() == old(self).next_local_id(),
    {
        let ghost s = self.store@;
        let ghost s0 = self.store;
        let ghost it = item@;
        let ts = item.timestamp;
        let mut i: usize = self.store.len();
        let mut later = false;
        let mut found = false;
        while i > 0
            invariant_except_break
                !found,
            invariant
                self.store@ == s,
                i <= s.len(),
                forall|k: int| i <= k < s.len() ==> !#[trigger] at_or_before(s[k], ts),
                later == exists|k: int| i <= k < s.len() && #[trigger] later_than(s[k], ts),
            ensures
                found ==> i > 0 && at_or_before(s[i - 1], ts),
                !found ==> i == 0,
            decreases i,
        {
            if let TimelineItem::Event(e) = self.store.get(i - 1) {
                if e.timestamp <= ts {
                    found = true;
                    break;
                }
                later = true;
                assert(later_than(s[i - 1], ts));
            }
            proof {
                if exists|k: int| i - 1 <= k < s.len() && #[trigger] later_than(s[k], ts) {
                    let k = choose|k: int| i - 1 <= k < s.len() && #[trigger] later_than(s[k], ts);
                    if k == i - 1 {
                        assert(s[i - 1] is Event);
                    }
                }
            }
            i = i - 1;
        }
        let ghost p = if found { i - 1 } else { -1 };
        proof {
            if found {
                assert(at_or_before(s[p], ts));
                let q = last_at_or_before(s, ts);
                assert(q >= 0);
                if q != p {
                    if q < p {
                        assert(!at_or_before(s[p], ts));
                    } else {
                        assert(!at_or_before(s[q], ts));
                    }
                }
            } else {
                assert(i == 0);
                if last_at_or_before(s, ts) >= 0 {
                    let q = last_at_or_before(s, ts);
                    assert(at_or_before(s[q], ts));
                }
            }
            assert(later == later_after(s, p, ts)) by {
                if later_after(s, p, ts) {
                    let k = choose|k: int| p < k < s.len() && #[trigger] later_than(s[k], ts);
                    if found && k < i {
                        assert(k == i - 1);
                        assert(at_or_before(s[k], ts));
                    }
                }
            }
        }
        if !later {
            self.append_item(item);
            return ;
        }
        if !found {
            self.prepend_item(item);
            return ;
        }
        let p = i - 1;
        let prev_day = match self.store.get(p) {
            TimelineItem::Event(e) => e.timestamp / MS_PER_DAY,
            TimelineItem::Virtual(_) => 0,
        };
        let mut j = p + 1;
        if j < self.store.len() {
            if let TimelineItem::Virtual(VirtualTimelineItem::ReadMarker) = self.store.get(j) {
                j = j + 1;
            }
        }
        let day = ts / MS_PER_DAY;
        let divider = VirtualTimelineItem::DayDivider(day);
        let ghost dv = ItemView::Virtual(divider);
        let n = self.next_local_id;
        proof {
            ObservableItems::lemma_grows_refl(self.store);
            assert forall|x: Seq<char>| has_event_id(ItemView::Event(it), x) implies forall|k: int|
                0 <= k < s.len() ==> !#[trigger] has_event_id(s[k], x) by {
                assert(it.event_id->Some_0 == x);
            }
        }
        let under_divider = if j < self.store.len() {
            match self.store.get(j) {
                TimelineItem::Virtual(VirtualTimelineItem::DayDivider(d)) => *d == day,
                _ => false,
            }
        } else {
            false
        };
        if prev_day == day {
            proof {
                lemma_insert_fresh(s, j as int, ItemView::Event(it), n);
            }
            self.store.insert(j, TimelineItem::Event(item));
            proof {
                ObservableItems::lemma_push_grows(s0, self.store, DiffView::Insert(j, ItemView::Event(it)));
            }
        } else if under_divider {
            proof {
                lemma_insert_fresh(s, j + 1, ItemView::Event(it), n);
            }
            self.store.insert(j + 1, TimelineItem::Event(item));
            proof {
                ObservableItems::lemma_push_grows(s0, self.store, DiffView::Insert((j + 1) as usize, ItemView::Event(it)));
            }
        } else {
            proof {
                lemma_insert_fresh(s, j as int, ItemView::Event(it), n);
                let s1 = s.insert(j as int, ItemView::Event(it));
                assert forall|x: Seq<char>| has_event_id(dv, x) implies forall|k: int|
                    0 <= k < s1.len() ==> !#[trigger] has_event_id(s1[k], x) by {}
                lemma_insert_fresh(s1, j as int, dv, n);
            }
            self.store.insert(j, TimelineItem::Event(item));
            let ghost s1 = self.store;
            proof {
                ObservableItems::lemma_push_grows(s0, s1, DiffView::Insert(j, ItemView::Event(it)));
            }
            self.store.insert(j, TimelineItem::Virtual(divider));
            proof {
                ObservableItems::lemma_push_grows(s1, self.store, DiffView::Insert(j, dv));
                ObservableItems::lemma_grows_trans(s0, s1, self.store);
            }
        }
        let ghost s2 = self.store;
        self.refresh_read_marker();
        proof {
            ObservableItems::lemma_grows_trans(s0, s2, self.store);
        }
    }
}

} // verus!
