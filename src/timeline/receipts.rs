//! Read receipts: each user's receipt sits on the last event they read.

use vstd::prelude::*;

use crate::item::{receipts_view, EventView, ItemView, Receipt, ReceiptView, TimelineItem};
use crate::store::{DiffView, ObservableItems};
use crate::virtual_items::event_index;

use super::Timeline;

verus! {

/// Whether one of the receipts is that of `user`.
pub open spec fn has_receipt(rs: Seq<ReceiptView>, user: Seq<char>) -> bool {
    exists|k: int| 0 <= k < rs.len() && (#[trigger] rs[k]).user == user
}

/// The receipts other than that of `user`, in order.
pub open spec fn without_receipt(rs: Seq<ReceiptView>, user: Seq<char>) -> Seq<ReceiptView> {
    rs.filter(|r: ReceiptView| r.user != user)
}

/// `it` once the receipt of `user` has moved to the item at the target
/// position (`at_target` says whether `it` stands there).
pub open spec fn receipt_moved(it: ItemView, at_target: bool, user: Seq<char>, ts: u64) -> ItemView {
    match it {
        ItemView::Event(e) => if at_target {
            ItemView::Event(
                EventView {
                    read_receipts: without_receipt(e.read_receipts, user).push(
                        ReceiptView { user, timestamp: ts },
                    ),
                    ..e
                },
            )
        } else if has_receipt(e.read_receipts, user) {
            ItemView::Event(EventView { read_receipts: without_receipt(e.read_receipts, user), ..e })
        } else {
            it
        },
        _ => it,
    }
}

/// The receipts without that of `user`, and whether there was one.
pub fn drop_receipt(rs: &Vec<Receipt>, user: &String) -> (r: (Vec<Receipt>, bool))
    ensures
        receipts_view(r.0@) == without_receipt(receipts_view(rs@), user@),
        r.1 == has_receipt(receipts_view(rs@), user@),
{
    let mut out: Vec<Receipt> = Vec::new();
    let mut found = false;
    let mut i: usize = 0;
    let ghost all = receipts_view(rs@);
    while i < rs.len()
        invariant
            i <= rs@.len(),
            all == receipts_view(rs@),
            receipts_view(out@) == without_receipt(all.subrange(0, i as int), user@),
            found == has_receipt(all.subrange(0, i as int), user@),
        decreases rs@.len() - i,
    {
        let ghost prefix = all.subrange(0, i as int);
        let ghost x = all[i as int];
        proof {
            assert(all.subrange(0, i + 1) =~= prefix.push(x));
            reveal(Seq::filter);
            assert(prefix.push(x).drop_last() =~= prefix);
        }
        if rs[i].user == *user {
            found = true;
            assert(prefix.push(x)[i as int] == x);
        } else {
            let ghost before = out@;
            out.push(Receipt { user: rs[i].user.clone(), timestamp: rs[i].timestamp });
            assert(receipts_view(out@) =~= receipts_view(before).push(x));
            proof {
                if found {
                    let k = choose|k: int| 0 <= k < prefix.len() && (#[trigger] prefix[k]).user == user@;
                    assert(prefix.push(x)[k] == prefix[k]);
                } else {
                    assert forall|k: int| 0 <= k < prefix.push(x).len() implies (#[trigger] prefix.push(
                        x,
                    )[k]).user != user@ by {
                        if k < prefix.len() {
                            assert(prefix.push(x)[k] == prefix[k]);
                        }
                    }
                }
            }
        }
        i = i + 1;
    }
    assert(all.subrange(0, rs@.len() as int) =~= all);
    (out, found)
}

impl Timeline {
    /// Moves the read receipt of `user` to the event `event_id`: every other
    /// item loses its receipt of `user` and that event holds the new one. A
    /// receipt for an event that is not placed changes nothing.
    pub fn handle_read_receipt(&mut self, event_id: &String, user: String, timestamp: u64)
        requires
            old(self).wf(),
        ensures
            final(self).wf(),
            final(self).pending() == old(self).pending(),
            final(self).in_flight() == old(self).in_flight(),
            final(self).fully_read() == old(self).fully_read(),
            final(self).own_user_id() == old(self).own_user_id(),
            final(self).next_local_id() == old(self).next_local_id(),
            old(self).store().grows_to(final(self).store()),
            ({
                let s = old(self).items();
                let t = event_index(s, event_id@);
                if t < 0 {
                    &&& final(self).items() == s
                    &&& old(self).store().quiet_to(final(self).store())
                } else {
                    final(self).items() == Seq::new(
                        s.len(),
                        |k: int| receipt_moved(s[k], k == t, user@, timestamp),
                    )
                }
            }),
    {
        let ghost s = self.store@;
        let ghost s0 = self.store;
        proof {
            ObservableItems::lemma_grows_refl(self.store);
        }
        let t = match self.find_event(event_id) {
            Some(t) => t,
            None => {
                return ;
            },
        };
        let mut i: usize = 0;
        while i < self.store.len()
            invariant
                self.wf(),
                s0.grows_to(self.store),
                self.store@.len() == s.len(),
                i <= s.len(),
                t < s.len(),
                forall|k: int| 0 <= k < i ==> #[trigger] self.store@[k] == receipt_moved(s[k], k == t, user@, timestamp),
                forall|k: int| i <= k < s.len() ==> #[trigger] self.store@[k] == s[k],
                self.pending@ == old(self).pending@,
                self.in_flight@ == old(self).in_flight@,
                self.fully_read == old(self).fully_read,
                self.own_user_id == old(self).own_user_id,
                self.next_local_id == old(self).next_local_id,
            decreases s.len() - i,
        {
            let next = match self.store.get(i) {
                TimelineItem::Event(e) => {
                    let (mut rs, found) = drop_receipt(&e.read_receipts, &user);
                    if i == t || found {
                        if i == t {
                            let ghost r0 = rs@;
                            rs.push(Receipt { user: user.clone(), timestamp });
                            assert(receipts_view(rs@) =~= receipts_view(r0).push(
                                ReceiptView { user: user@, timestamp },
                            ));
                        }
                        let mut n = e.duplicate();
                        n.read_receipts = rs;
                        Some(n)
                    } else {
                        None
                    }
                },
                TimelineItem::Virtual(_) => None,
            };
            match next {
                Some(n) => {
                    let ghost v = ItemView::Event(n@);
                    let ghost before = self.store;
                    assert(v == receipt_moved(s[i as int], i == t, user@, timestamp));
                    self.store.replace(i, TimelineItem::Event(n));
                    proof {
                        ObservableItems::lemma_push_grows(before, self.store, DiffView::Replace(i, v));
                        ObservableItems::lemma_grows_trans(s0, before, self.store);
                        self.lemma_wf_after_update(before, i as int, v);
                    }
                },
                None => {
                    assert(receipt_moved(s[i as int], i == t, user@, timestamp) == s[i as int]);
                },
            }
            i = i + 1;
        }
        assert(self.store@ =~= Seq::new(s.len(), |k: int| receipt_moved(s[k], k == t, user@, timestamp)));
    }

}

} // verus!
