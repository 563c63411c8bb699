//! Timeline items: the values that the ordered view is made of.

use vstd::prelude::*;

verus! {

/// One reaction: who reacted, with which key, and the id of the reaction event.
pub struct Reaction {
    pub key: String,
    pub sender: String,
    pub event_id: String,
}

pub struct ReactionView {
    pub key: Seq<char>,
    pub sender: Seq<char>,
    pub event_id: Seq<char>,
}

impl View for Reaction {
    type V = ReactionView;

    open spec fn view(&self) -> ReactionView {
        ReactionView { key: self.key@, sender: self.sender@, event_id: self.event_id@ }
    }
}

impl Reaction {
    pub fn duplicate(&self) -> (r: Self)
        ensures
            r@ == self@,
    {
        Reaction { key: self.key.clone(), sender: self.sender.clone(), event_id: self.event_id.clone() }
    }
}

/// Why a detail fetch failed.
#[derive(Clone, Copy, Debug, PartialEq, Eq, Structural)]
pub enum FetchError {
    NotFound,
    Network,
    Forbidden,
}

/// The event that a reply refers to, once resolved.
pub struct RepliedToEvent {
    pub sender: String,
    pub body: String,
}

/// State of a lazily resolved dependency.
pub enum TimelineDetails {
    Unavailable,
    Pending,
    Ready(RepliedToEvent),
    Error(FetchError),
}

pub enum DetailsView {
    Unavailable,
    Pending,
    Ready { sender: Seq<char>, body: Seq<char> },
    Error(FetchError),
}

impl View for TimelineDetails {
    type V = DetailsView;

    open spec fn view(&self) -> DetailsView {
        match self {
            TimelineDetails::Unavailable => DetailsView::Unavailable,
            TimelineDetails::Pending => DetailsView::Pending,
            TimelineDetails::Ready(e) => DetailsView::Ready { sender: e.sender@, body: e.body@ },
            TimelineDetails::Error(e) => DetailsView::Error(*e),
        }
    }
}

impl TimelineDetails {
    pub fn duplicate(&self) -> (r: Self)
        ensures
            r@ == self@,
    {
        match self {
            TimelineDetails::Unavailable => TimelineDetails::Unavailable,
            TimelineDetails::Pending => TimelineDetails::Pending,
            TimelineDetails::Ready(e) => TimelineDetails::Ready(
                RepliedToEvent { sender: e.sender.clone(), body: e.body.clone() },
            ),
            TimelineDetails::Error(e) => TimelineDetails::Error(*e),
        }
    }
}

/// What a message replies to: the event id, and what is known of that event.
pub struct InReplyTo {
    pub event_id: String,
    pub event: TimelineDetails,
}

pub struct InReplyToView {
    pub event_id: Seq<char>,
    pub event: DetailsView,
}

impl View for InReplyTo {
    type V = InReplyToView;

    open spec fn view(&self) -> InReplyToView {
        InReplyToView { event_id: self.event_id@, event: self.event@ }
    }
}

/// The content of an event item.
pub enum TimelineItemContent {
    Message { body: String, in_reply_to: Option<InReplyTo> },
    RedactedMessage,
    Other { event_type: String },
}

pub enum ContentView {
    Message { body: Seq<char>, in_reply_to: Option<InReplyToView> },
    RedactedMessage,
    Other { event_type: Seq<char> },
}

impl View for TimelineItemContent {
    type V = ContentView;

    open spec fn view(&self) -> ContentView {
        match self {
            TimelineItemContent::Message { body, in_reply_to } => ContentView::Message {
                body: body@,
                in_reply_to: match in_reply_to {
                    Some(r) => Some(r@),
                    None => None,
                },
            },
            TimelineItemContent::RedactedMessage => ContentView::RedactedMessage,
            TimelineItemContent::Other { event_type } => ContentView::Other {
                event_type: event_type@,
            },
        }
    }
}

impl TimelineItemContent {
    pub fn duplicate(&self) -> (r: Self)
        ensures
            r@ == self@,
    {
        match self {
            TimelineItemContent::Message { body, in_reply_to } => {
                let reply = match in_reply_to {
                    Some(r) => Some(
                        InReplyTo { event_id: r.event_id.clone(), event: r.event.duplicate() },
                    ),
                    None => None,
                };
                TimelineItemContent::Message { body: body.clone(), in_reply_to: reply }
            },
            TimelineItemContent::RedactedMessage => TimelineItemContent::RedactedMessage,
            TimelineItemContent::Other { event_type } => TimelineItemContent::Other {
                event_type: event_type.clone(),
            },
        }
    }
}

/// A read receipt: who has read up to the event that holds it, and when.
pub struct Receipt {
    pub user: String,
    pub timestamp: u64,
}

pub struct ReceiptView {
    pub user: Seq<char>,
    pub timestamp: u64,
}

impl View for Receipt {
    type V = ReceiptView;

    open spec fn view(&self) -> ReceiptView {
        ReceiptView { user: self.user@, timestamp: self.timestamp }
    }
}

pub open spec fn receipts_view(v: Seq<Receipt>) -> Seq<ReceiptView> {
    v.map_values(|r: Receipt| r@)
}

pub fn copy_receipts(v: &Vec<Receipt>) -> (r: Vec<Receipt>)
    ensures
        receipts_view(r@) == receipts_view(v@),
{
    let mut r: Vec<Receipt> = Vec::new();
    let mut i: usize = 0;
    while i < v.len()
        invariant
            i <= v@.len(),
            r@.len() == i,
            forall|k: int| 0 <= k < i ==> #[trigger] r@[k]@ == v@[k]@,
        decreases v@.len() - i,
    {
        r.push(Receipt { user: v[i].user.clone(), timestamp: v[i].timestamp });
        i = i + 1;
    }
    assert(receipts_view(r@) =~= receipts_view(v@));
    r
}

pub open spec fn reactions_view(v: Seq<Reaction>) -> Seq<ReactionView> {
    v.map_values(|r: Reaction| r@)
}

/// A rendered protocol event.
pub struct EventTimelineItem {
    pub local_id: u64,
    pub event_id: Option<String>,
    pub sender: String,
    pub timestamp: u64,
    pub content: TimelineItemContent,
    pub reactions: Vec<Reaction>,
    pub edited: bool,
    pub highlighted: bool,
    pub is_own: bool,
    /// The read receipts of the users who have read up to this event.
    pub read_receipts: Vec<Receipt>,
}

pub struct EventView {
    pub local_id: u64,
    pub event_id: Option<Seq<char>>,
    pub sender: Seq<char>,
    pub timestamp: u64,
    pub content: ContentView,
    pub reactions: Seq<ReactionView>,
    pub edited: bool,
    pub highlighted: bool,
    pub is_own: bool,
    pub read_receipts: Seq<ReceiptView>,
}

impl View for EventTimelineItem {
    type V = EventView;

    open spec fn view(&self) -> EventView {
        EventView {
            local_id: self.local_id,
            event_id: match &self.event_id {
                Some(e) => Some(e@),
                None => None,
            },
            sender: self.sender@,
            timestamp: self.timestamp,
            content: self.content@,
            reactions: reactions_view(self.reactions@),
            edited: self.edited,
            highlighted: self.highlighted,
            is_own: self.is_own,
            read_receipts: receipts_view(self.read_receipts@),
        }
    }
}

pub fn copy_reactions(v: &Vec<Reaction>) -> (r: Vec<Reaction>)
    ensures
        reactions_view(r@) == reactions_view(v@),
{
    let mut r: Vec<Reaction> = Vec::new();
    let mut i: usize = 0;
    while i < v.len()
        invariant
            i <= v@.len(),
            r@.len() == i,
            forall|k: int| 0 <= k < i ==> #[trigger] r@[k]@ == v@[k]@,
        decreases v@.len() - i,
    {
        r.push(v[i].duplicate());
        i = i + 1;
    }
    assert(reactions_view(r@) =~= reactions_view(v@));
    r
}

/// The senders of the reactions with key `key`, in the order the reactions
/// came: the group of that key.
pub open spec fn senders_of(rs: Seq<ReactionView>, key: Seq<char>) -> Seq<Seq<char>>
    decreases rs.len(),
{
    if rs.len() == 0 {
        Seq::empty()
    } else {
        let earlier = senders_of(rs.drop_last(), key);
        if rs.last().key == key {
            earlier.push(rs.last().sender)
        } else {
            earlier
        }
    }
}

impl EventTimelineItem {
    /// The senders of the reactions with key `key`, in the order the
    /// reactions came. A key that nobody reacts with any more has none.
    pub fn reaction_senders(&self, key: &String) -> (r: Vec<String>)
        ensures
            r@.map_values(|s: String| s@) == senders_of(reactions_view(self.reactions@), key@),
    {
        let mut out: Vec<String> = Vec::new();
        let mut i: usize = 0;
        let ghost all = reactions_view(self.reactions@);
        while i < self.reactions.len()
            invariant
                i <= self.reactions@.len(),
                all == reactions_view(self.reactions@),
                out@.map_values(|s: String| s@) == senders_of(all.subrange(0, i as int), key@),
            decreases self.reactions@.len() - i,
        {
            let ghost prefix = all.subrange(0, i as int);
            proof {
                assert(all.subrange(0, i + 1).drop_last() =~= prefix);
                assert(all.subrange(0, i + 1).last() == self.reactions@[i as int]@);
            }
            if self.reactions[i].key == *key {
                let ghost before = out@;
                out.push(self.reactions[i].sender.clone());
                assert(out@.map_values(|s: String| s@) =~= before.map_values(|s: String| s@).push(
                    self.reactions@[i as int].sender@,
                ));
            }
            i = i + 1;
        }
        assert(all.subrange(0, all.len() as int) =~= all);
        out
    }

    pub fn duplicate(&self) -> (r: Self)
        ensures
            r@ == self@,
    {
        let event_id = match &self.event_id {
            Some(e) => Some(e.clone()),
            None => None,
        };
        EventTimelineItem {
            local_id: self.local_id,
            event_id,
            sender: self.sender.clone(),
            timestamp: self.timestamp,
            content: self.content.duplicate(),
            reactions: copy_reactions(&self.reactions),
            edited: self.edited,
            highlighted: self.highlighted,
            is_own: self.is_own,
            read_receipts: copy_receipts(&self.read_receipts),
        }
    }

    /// Whether the content was replaced by an edit.
    pub fn is_edited(&self) -> (r: bool)
        ensures
            r == self.edited,
    {
        self.edited
    }
}

/// A locally synthesized entry with no network event behind it.
#[derive(Clone, Copy, Debug, PartialEq, Eq, Structural)]
pub enum VirtualTimelineItem {
    /// Marks the start of a calendar day, given as days since the epoch.
    DayDivider(u64),
    ReadMarker,
}

pub enum TimelineItem {
    Event(EventTimelineItem),
    Virtual(VirtualTimelineItem),
}

pub enum ItemView {
    Event(EventView),
    Virtual(VirtualTimelineItem),
}

impl View for TimelineItem {
    type V = ItemView;

    open spec fn view(&self) -> ItemView {
        match self {
            TimelineItem::Event(e) => ItemView::Event(e@),
            TimelineItem::Virtual(v) => ItemView::Virtual(*v),
        }
    }
}

impl TimelineItem {
    pub fn duplicate(&self) -> (r: Self)
        ensures
            r@ == self@,
    {
        match self {
            TimelineItem::Event(e) => TimelineItem::Event(e.duplicate()),
            TimelineItem::Virtual(v) => TimelineItem::Virtual(*v),
        }
    }
}

pub open spec fn items_view(v: Seq<TimelineItem>) -> Seq<ItemView> {
    v.map_values(|x: TimelineItem| x@)
}

} // verus!
