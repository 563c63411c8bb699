//! Local echoes: messages of our own, shown before the server confirms
//! their send, which keep their place and local id once confirmed.

use vstd::prelude::*;

use crate::item::{
    reactions_view, receipts_view, ContentView, EventTimelineItem, EventView, ItemView,
    ReactionView, ReceiptView, TimelineItem, TimelineItemContent,
};
use crate::relations::{apply_relations, lemma_apply_relations_keeps, not_targeting, targeting};
use crate::store::{DiffView, ObservableItems};
use crate::virtual_items::{event_index, has_event_id, is_read_marker, lemma_remove_keeps};

use super::{appended, marked, Timeline};

verus! {

/// Whether `it` is the local echo, not yet confirmed, with local id `local_id`.
pub open spec fn is_echo(it: ItemView, local_id: u64) -> bool {
    it is Event && it->Event_0.local_id == local_id && it->Event_0.event_id is None
}

/// The first item that is the local echo with local id `local_id`, or -1.
pub open spec fn echo_index(s: Seq<ItemView>, local_id: u64) -> int {
    if exists|i: int|
        0 <= i < s.len() && #[trigger] is_echo(s[i], local_id) && forall|j: int|
            0 <= j < i ==> !#[trigger] is_echo(s[j], local_id) {
        choose|i: int|
            0 <= i < s.len() && #[trigger] is_echo(s[i], local_id) && forall|j: int|
                0 <= j < i ==> !#[trigger] is_echo(s[j], local_id)
    } else {
        -1
    }
}

/// The item that a message of our own shows while its send is unconfirmed.
pub open spec fn echo_item(body: Seq<char>, timestamp: u64, local_id: u64, own: Seq<char>) -> EventView {
    EventView {
        local_id,
        event_id: None,
        sender: own,
        timestamp,
        content: ContentView::Message { body, in_reply_to: None },
        reactions: Seq::empty(),
        edited: false,
        highlighted: false,
        is_own: true,
        read_receipts: Seq::empty(),
    }
}

impl Timeline {
    fn find_echo(&self, local_id: u64) -> (r: Option<usize>)
        ensures
            match r {
                Some(i) => i as int == echo_index(self.items(), local_id),
                None => echo_index(self.items(), local_id) == -1,
            },
    {
        let mut i: usize = 0;
        while i < self.store.len()
            invariant
                i <= self.store@.len(),
                forall|k: int| 0 <= k < i ==> !#[trigger] is_echo(self.store@[k], local_id),
            decreases self.store@.len() - i,
        {
            if let TimelineItem::Event(e) = self.store.get(i) {
                if e.local_id == local_id && e.event_id.is_none() {
                    proof {
                        assert(is_echo(self.store@[i as int], local_id));
                        let h = echo_index(self.store@, local_id);
                        if h != i {
                            if h < i {
                                assert(!is_echo(self.store@[h], local_id));
                            } else {
                                assert(h >= 0);
                            }
                        }
                    }
                    return Some(i);
                }
            }
            i = i + 1;
        }
        None
    }

    /// Shows a message of our own before the server confirms its send, and
    /// returns the local id of its item. Nothing happens, and `None` comes
    /// back, once every local id has been handed out.
    pub fn add_local_echo(&mut self, body: String, timestamp: u64) -> (r: Option<u64>)
        requires
            old(self).wf(),
        ensures
            final(self).wf(),
            final(self).pending() == old(self).pending(),
            final(self).in_flight() == old(self).in_flight(),
            final(self).fully_read() == old(self).fully_read(),
            final(self).own_user_id() == old(self).own_user_id(),
            old(self).store().grows_to(final(self).store()),
            old(self).next_local_id() == u64::MAX ==> r == None::<u64> && final(self).items()
                == old(self).items() && final(self).next_local_id() == old(self).next_local_id()
                && old(self).store().quiet_to(final(self).store()),
            old(self).next_local_id() < u64::MAX ==> r == Some(old(self).next_local_id())
                && final(self).next_local_id() == old(self).next_local_id() + 1
                && final(self).items() == marked(
                appended(
                    old(self).items(),
                    echo_item(body@, timestamp, old(self).next_local_id(), old(self).own_user_id()),
                ),
                old(self).fully_read(),
            ),
    {
        proof {
            ObservableItems::lemma_grows_refl(self.store);
        }
        if self.next_local_id == u64::MAX {
            return None;
        }
        let local_id = self.next_local_id;
        let item = EventTimelineItem {
            local_id,
            event_id: None,
            sender: self.own_user_id.clone(),
            timestamp,
            content: TimelineItemContent::Message { body, in_reply_to: None },
            reactions: Vec::new(),
            edited: false,
            highlighted: false,
            is_own: true,
            read_receipts: Vec::new(),
        };
        assert(reactions_view(item.reactions@) =~= Seq::<ReactionView>::empty());
        assert(receipts_view(item.read_receipts@) =~= Seq::<ReceiptView>::empty());
        self.next_local_id = self.next_local_id + 1;
        self.append_item(item);
        Some(local_id)
    }

    /// The server confirmed the send of the local echo `local_id` as the
    /// event `event_id`. The echo keeps its place and local id and takes the
    /// event id, with the relations that waited for that event applied; when
    /// the event is already placed, the echo goes away instead.
    pub fn confirm_local_echo(&mut self, local_id: u64, event_id: String)
        requires
            old(self).wf(),
        ensures
            final(self).wf(),
            final(self).in_flight() == old(self).in_flight(),
            final(self).fully_read() == old(self).fully_read(),
            final(self).own_user_id() == old(self).own_user_id(),
            final(self).next_local_id() == old(self).next_local_id(),
            old(self).store().grows_to(final(self).store()),
            ({
                let s = old(self).items();
                let e = echo_index(s, local_id);
                if e < 0 {
                    &&& final(self).items() == s
                    &&& final(self).pending() == old(self).pending()
                    &&& old(self).store().quiet_to(final(self).store())
                } else if event_index(s, event_id@) >= 0 {
                    &&& final(self).items() == s.remove(e)
                    &&& final(self).pending() == old(self).pending()
                } else {
                    let v = ItemView::Event(
                        apply_relations(
                            EventView { event_id: Some(event_id@), ..s[e]->Event_0 },
                            targeting(old(self).pending(), event_id@),
                        ),
                    );
                    &&& final(self).items() == s.update(e, v)
                    &&& final(self).pending() == not_targeting(old(self).pending(), event_id@)
                    &&& forall|id: usize| #[trigger]
                        old(self).store().is_subscribed(id) ==> final(self).store().unread(id)
                            == old(self).store().unread(id).push(DiffView::Replace(e as usize, v))
                }
            }),
    {
        let ghost s = self.store@;
        let ghost s0 = self.store;
        proof {
            ObservableItems::lemma_grows_refl(self.store);
        }
        let e = match self.find_echo(local_id) {
            Some(e) => e,
            None => {
                return ;
            },
        };
        let cur = match self.store.get(e) {
            TimelineItem::Event(c) => c,
            TimelineItem::Virtual(_) => {
                return ;
            },
        };
        if self.find_event(&event_id).is_some() {
            self.store.remove(e);
            proof {
                ObservableItems::lemma_push_grows(s0, self.store, DiffView::Remove(e));
                lemma_remove_keeps(s, e as int);
                let r = self.store@;
                assert forall|a: int| 0 <= a < r.len() implies match #[trigger] r[a] {
                    ItemView::Event(x) => x.local_id < self.next_local_id,
                    _ => true,
                } by {
                    if a < e {
                        let _ = s[a];
                    } else {
                        let _ = s[a + 1];
                    }
                }
            }
            return ;
        }
        let mut item = cur.duplicate();
        item.event_id = Some(event_id.clone());
        let ghost base = item@;
        let item = self.apply_waiting(&event_id, item);
        proof {
            lemma_apply_relations_keeps(base, targeting(old(self).pending(), event_id@));
        }
        let ghost v = ItemView::Event(item@);
        self.store.replace(e, TimelineItem::Event(item));
        proof {
            ObservableItems::lemma_push_grows(s0, self.store, DiffView::Replace(e, v));
            let r = self.store@;
            assert forall|a: int, b: int, x: Seq<char>|
                0 <= a < r.len() && 0 <= b < r.len() && #[trigger] has_event_id(r[a], x)
                    && #[trigger] has_event_id(r[b], x) implies a == b by {
                if a != e && b != e {
                    assert(has_event_id(s[a], x));
                    assert(has_event_id(s[b], x));
                } else if a != e {
                    assert(has_event_id(s[a], x));
                    assert(x == event_id@);
                } else if b != e {
                    assert(has_event_id(s[b], x));
                    assert(x == event_id@);
                }
            }
            assert forall|a: int, b: int|
                0 <= a < r.len() && 0 <= b < r.len() && #[trigger] is_read_marker(r[a])
                    && #[trigger] is_read_marker(r[b]) implies a == b by {
                assert(is_read_marker(s[a]));
                assert(is_read_marker(s[b]));
            }
            assert forall|a: int| 0 <= a < r.len() implies match #[trigger] r[a] {
                ItemView::Event(x) => x.local_id < self.next_local_id,
                _ => true,
            } by {
                let _ = s[a];
            }
        }
    }

}

} // verus!
