//! The reply resolver: requests for the details of reply targets that are
//! not in the timeline, with at most one fetch in flight per event.

use vstd::prelude::*;

use crate::item::{
    ContentView, DetailsView, EventView, FetchError, InReplyTo, InReplyToView, ItemView,
    RepliedToEvent, TimelineDetails, TimelineItem, TimelineItemContent,
};
use crate::store::{DiffView, ObservableItems};

use super::{body_of, Timeline};

verus! {

/// The error of a detail fetch that the timeline refuses.
#[derive(Clone, Copy, Debug, PartialEq, Eq, Structural)]
pub enum TimelineError {
    /// No item of the timeline replies to the requested event.
    RemoteEventNotInTimeline,
}

/// What a request for reply details leads to.
#[derive(Clone, Copy, Debug, PartialEq, Eq, Structural)]
pub enum FetchRequest {
    /// A fetch starts: the caller fetches the event once and hands the
    /// outcome to `complete_fetch`.
    Started,
    /// A fetch of that event is already in flight; its outcome serves this
    /// request too.
    Joined,
}

/// The details that a finished fetch gives.
pub open spec fn fetched_details(outcome: Result<RepliedToEvent, FetchError>) -> DetailsView {
    match outcome {
        Ok(e) => DetailsView::Ready { sender: e.sender@, body: e.body@ },
        Err(e) => DetailsView::Error(e),
    }
}

/// Whether `it` is a message that replies to the event `id`.
pub open spec fn replies_to(it: ItemView, id: Seq<char>) -> bool {
    match it {
        ItemView::Event(e) => match e.content {
            ContentView::Message { in_reply_to: Some(r), .. } => r.event_id == id,
            _ => false,
        },
        _ => false,
    }
}

/// Whether some item replies to the event `id`.
pub open spec fn referenced(s: Seq<ItemView>, id: Seq<char>) -> bool {
    exists|i: int| 0 <= i < s.len() && #[trigger] replies_to(s[i], id)
}

/// `it` with the details of its reply target set to `d`, when it replies to `id`.
pub open spec fn with_details(it: ItemView, id: Seq<char>, d: DetailsView) -> ItemView {
    if replies_to(it, id) {
        let e = it->Event_0;
        ItemView::Event(
            EventView {
                content: ContentView::Message {
                    body: body_of(e.content),
                    in_reply_to: Some(InReplyToView { event_id: id, event: d }),
                },
                ..e
            },
        )
    } else {
        it
    }
}

/// Every item that replies to `id`, with its reply details set to `d`.
pub open spec fn all_with_details(s: Seq<ItemView>, id: Seq<char>, d: DetailsView) -> Seq<ItemView> {
    s.map_values(|x: ItemView| with_details(x, id, d))
}

/// Whether a request for the details of `id` starts a fetch: some item
/// replies to it and no fetch of it is in flight.
pub open spec fn fetch_starts(s: Seq<ItemView>, flight: Seq<Seq<char>>, id: Seq<char>) -> bool {
    referenced(s, id) && !flight.contains(id)
}

/// How many of `n` successive requests for the details of `id` start a
/// fetch, while none completes.
pub open spec fn fetches_started(s: Seq<ItemView>, flight: Seq<Seq<char>>, id: Seq<char>, n: nat) -> nat
    decreases n,
{
    if n == 0 {
        0
    } else if fetch_starts(s, flight, id) {
        1 + fetches_started(all_with_details(s, id, DetailsView::Pending), flight.push(id), id, (n - 1) as nat)
    } else {
        fetches_started(s, flight, id, (n - 1) as nat)
    }
}

/// At most one fetch in flight: of any number of successive requests for
/// the same event, at most one starts a fetch, and exactly one when the
/// first does.
pub proof fn lemma_at_most_one_fetch(s: Seq<ItemView>, flight: Seq<Seq<char>>, id: Seq<char>, n: nat)
    ensures
        fetches_started(s, flight, id, n) <= 1,
        n > 0 && fetch_starts(s, flight, id) ==> fetches_started(s, flight, id, n) == 1,
    decreases n,
{
    if n > 0 {
        if fetch_starts(s, flight, id) {
            let f2 = flight.push(id);
            assert(f2[f2.len() - 1] == id);
            assert(f2.contains(id));
            lemma_no_fetch_while_in_flight(all_with_details(s, id, DetailsView::Pending), f2, id, (n - 1) as nat);
        } else {
            lemma_at_most_one_fetch(s, flight, id, (n - 1) as nat);
        }
    }
}

proof fn lemma_no_fetch_while_in_flight(s: Seq<ItemView>, flight: Seq<Seq<char>>, id: Seq<char>, n: nat)
    requires
        flight.contains(id),
    ensures
        fetches_started(s, flight, id, n) == 0,
    decreases n,
{
    if n > 0 {
        lemma_no_fetch_while_in_flight(s, flight, id, (n - 1) as nat);
    }
}

impl Timeline {
    fn is_in_flight(&self, id: &String) -> (r: bool)
        ensures
            r == self.in_flight().contains(id@),
    {
        let mut i: usize = 0;
        while i < self.in_flight.len()
            invariant
                i <= self.in_flight@.len(),
                forall|k: int| 0 <= k < i ==> (#[trigger] self.in_flight@[k])@ != id@,
            decreases self.in_flight@.len() - i,
        {
            if self.in_flight[i] == *id {
                assert(self.in_flight()[i as int] == id@);
                return true;
            }
            i = i + 1;
        }
        assert forall|k: int| 0 <= k < self.in_flight().len() implies #[trigger] self.in_flight()[k] != id@ by {
            assert(self.in_flight@[k]@ != id@);
        }
        false
    }

    fn is_referenced(&self, id: &String) -> (r: bool)
        ensures
            r == referenced(self.items(), id@),
    {
        let mut i: usize = 0;
        while i < self.store.len()
            invariant
                i <= self.store@.len(),
                forall|k: int| 0 <= k < i ==> !#[trigger] replies_to(self.store@[k], id@),
            decreases self.store@.len() - i,
        {
            if let TimelineItem::Event(e) = self.store.get(i) {
                if let TimelineItemContent::Message { in_reply_to: Some(r), .. } = &e.content {
                    if r.event_id == *id {
                        assert(replies_to(self.store@[i as int], id@));
                        return true;
                    }
                }
            }
            i = i + 1;
        }
        false
    }

    /// Sets the reply details of every item that replies to `id`.
    fn set_reply_details(&mut self, id: &String, d: &TimelineDetails)
        requires
            old(self).wf(),
        ensures
            final(self).wf(),
            final(self).items() == all_with_details(old(self).items(), id@, d@),
            old(self).store().grows_to(final(self).store()),
            final(self).pending() == old(self).pending(),
            final(self).in_flight() == old(self).in_flight(),
            final(self).fully_read() == old(self).fully_read(),
            final(self).own_user_id() == old(self).own_user_id(),
            final(self).next_local_id() == old(self).next_local_id(),
    {
        let ghost s = self.store@;
        let ghost s0 = self.store;
        proof {
            ObservableItems::lemma_grows_refl(self.store);
        }
        let mut i: usize = 0;
        while i < self.store.len()
            invariant
                self.wf(),
                s0.grows_to(self.store),
                self.store@.len() == s.len(),
                i <= s.len(),
                forall|k: int| 0 <= k < i ==> #[trigger] self.store@[k] == with_details(s[k], id@, d@),
                forall|k: int| i <= k < s.len() ==> #[trigger] self.store@[k] == s[k],
                self.pending@ == old(self).pending@,
                self.in_flight@ == old(self).in_flight@,
                self.fully_read == old(self).fully_read,
                self.own_user_id == old(self).own_user_id,
                self.next_local_id == old(self).next_local_id,
            decreases s.len() - i,
        {
            let next = match self.store.get(i) {
                TimelineItem::Event(e) => match &e.content {
                    TimelineItemContent::Message { body, in_reply_to: Some(r) } => {
                        if r.event_id == *id {
                            let mut n = e.duplicate();
                            n.content = TimelineItemContent::Message {
                                body: body.clone(),
                                in_reply_to: Some(InReplyTo { event_id: r.event_id.clone(), event: d.duplicate() }),
                            };
                            Some(n)
                        } else {
                            None
                        }
                    },
                    _ => None,
                },
                TimelineItem::Virtual(_) => None,
            };
            match next {
                Some(n) => {
                    let ghost v = ItemView::Event(n@);
                    let ghost before = self.store;
                    assert(v == with_details(s[i as int], id@, d@));
                    self.store.replace(i, TimelineItem::Event(n));
                    proof {
                        ObservableItems::lemma_push_grows(before, self.store, DiffView::Replace(i, v));
                        ObservableItems::lemma_grows_trans(s0, before, self.store);
                        self.lemma_wf_after_update(before, i as int, v);
                    }
                },
                None => {
                    assert(with_details(s[i as int], id@, d@) == s[i as int]);
                },
            }
            i = i + 1;
        }
        assert(self.store@ =~= all_with_details(s, id@, d@));
    }

    /// Requests the details of the event `id` that some item replies to.
    /// Fails when no item replies to it. Otherwise, when no fetch of it is in
    /// flight, one starts: every item that replies to it goes `Pending`, and
    /// the caller performs the fetch; when one is in flight already, this
    /// request joins it and nothing changes.
    pub fn fetch_details_for_event(&mut self, id: &String) -> (r: Result<FetchRequest, TimelineError>)
        requires
            old(self).wf(),
        ensures
            final(self).wf(),
            final(self).pending() == old(self).pending(),
            final(self).fully_read() == old(self).fully_read(),
            final(self).own_user_id() == old(self).own_user_id(),
            final(self).next_local_id() == old(self).next_local_id(),
            old(self).store().grows_to(final(self).store()),
            !referenced(old(self).items(), id@) <==> r == Err::<FetchRequest, TimelineError>(
                TimelineError::RemoteEventNotInTimeline,
            ),
            fetch_starts(old(self).items(), old(self).in_flight(), id@) <==> r == Ok::<
                FetchRequest,
                TimelineError,
            >(FetchRequest::Started),
            r == Ok::<FetchRequest, TimelineError>(FetchRequest::Started) ==> final(self).items()
                == all_with_details(old(self).items(), id@, DetailsView::Pending)
                && final(self).in_flight() == old(self).in_flight().push(id@),
            r != Ok::<FetchRequest, TimelineError>(FetchRequest::Started) ==> final(self).items()
                == old(self).items() && final(self).in_flight() == old(self).in_flight()
                && old(self).store().quiet_to(final(self).store()),
    {
        proof {
            ObservableItems::lemma_grows_refl(self.store);
        }
        if !self.is_referenced(id) {
            return Err(TimelineError::RemoteEventNotInTimeline);
        }
        if self.is_in_flight(id) {
            return Ok(FetchRequest::Joined);
        }
        let ghost f = self.in_flight();
        self.in_flight.push(id.clone());
        assert(self.in_flight() =~= f.push(id@));
        self.set_reply_details(id, &TimelineDetails::Pending);
        Ok(FetchRequest::Started)
    }

    /// Hands over the outcome of the fetch of `id`: every item that replies to
    /// it gets `Ready` or `Error`, and the fetch is no longer in flight. An
    /// outcome for an event with no fetch in flight changes nothing.
    pub fn complete_fetch(&mut self, id: &String, outcome: Result<RepliedToEvent, FetchError>)
        requires
            old(self).wf(),
        ensures
            final(self).wf(),
            final(self).pending() == old(self).pending(),
            final(self).fully_read() == old(self).fully_read(),
            final(self).own_user_id() == old(self).own_user_id(),
            final(self).next_local_id() == old(self).next_local_id(),
            old(self).store().grows_to(final(self).store()),
            old(self).in_flight().contains(id@) ==> final(self).items() == all_with_details(
                old(self).items(),
                id@,
                fetched_details(outcome),
            ) && final(self).in_flight() == old(self).in_flight().filter(
                |x: Seq<char>| x != id@,
            ),
            !old(self).in_flight().contains(id@) ==> final(self).items() == old(self).items()
                && final(self).in_flight() == old(self).in_flight() && old(self).store().quiet_to(
                final(self).store(),
            ),
    {
        proof {
            ObservableItems::lemma_grows_refl(self.store);
        }
        if !self.is_in_flight(id) {
            return ;
        }
        let ghost all = self.in_flight();
        let mut rest: Vec<String> = Vec::new();
        let mut i: usize = 0;
        while i < self.in_flight.len()
            invariant
                i <= self.in_flight@.len(),
                all == self.in_flight(),
                rest@.map_values(|x: String| x@) == all.subrange(0, i as int).filter(
                    |x: Seq<char>| x != id@,
                ),
            decreases self.in_flight@.len() - i,
        {
            let ghost prefix = all.subrange(0, i as int);
            proof {
                assert(all.subrange(0, i + 1) =~= prefix.push(all[i as int]));
                reveal(Seq::filter);
                assert(prefix.push(all[i as int]).drop_last() =~= prefix);
            }
            if self.in_flight[i] != *id {
                let ghost r0 = rest@;
                rest.push(self.in_flight[i].clone());
                assert(rest@.map_values(|x: String| x@) =~= r0.map_values(|x: String| x@).push(
                    all[i as int],
                ));
            }
            i = i + 1;
        }
        assert(all.subrange(0, all.len() as int) =~= all);
        self.in_flight = rest;
        let details = match outcome {
            Ok(e) => TimelineDetails::Ready(e),
            Err(e) => TimelineDetails::Error(e),
        };
        self.set_reply_details(id, &details);
    }

}

} // verus!
