//! The item store and its subscription hub: every mutation of the ordered
//! sequence is recorded as one positional diff, and each subscriber gets an
//! atomic snapshot followed by exactly the diffs made after it.

use vstd::prelude::*;

use crate::item::{items_view, ItemView, TimelineItem};

verus! {

/// One change to the ordered sequence of items.
pub enum VectorDiff {
    PushBack { value: TimelineItem },
    Insert { index: usize, value: TimelineItem },
    Replace { index: usize, value: TimelineItem },
    Remove { index: usize },
    Clear,
}

pub enum DiffView {
    PushBack(ItemView),
    Insert(usize, ItemView),
    Replace(usize, ItemView),
    Remove(usize),
    Clear,
}

impl View for VectorDiff {
    type V = DiffView;

    open spec fn view(&self) -> DiffView {
        match self {
            VectorDiff::PushBack { value } => DiffView::PushBack(value@),
            VectorDiff::Insert { index, value } => DiffView::Insert(*index, value@),
            VectorDiff::Replace { index, value } => DiffView::Replace(*index, value@),
            VectorDiff::Remove { index } => DiffView::Remove(*index),
            VectorDiff::Clear => DiffView::Clear,
        }
    }
}

impl VectorDiff {
    pub fn duplicate(&self) -> (r: Self)
        ensures
            r@ == self@,
    {
        match self {
            VectorDiff::PushBack { value } => VectorDiff::PushBack { value: value.duplicate() },
            VectorDiff::Insert { index, value } => VectorDiff::Insert {
                index: *index,
                value: value.duplicate(),
            },
            VectorDiff::Replace { index, value } => VectorDiff::Replace {
                index: *index,
                value: value.duplicate(),
            },
            VectorDiff::Remove { index } => VectorDiff::Remove { index: *index },
            VectorDiff::Clear => VectorDiff::Clear,
        }
    }
}

pub open spec fn diffs_view(v: Seq<VectorDiff>) -> Seq<DiffView> {
    v.map_values(|d: VectorDiff| d@)
}

/// The sequence that results from applying one diff. A diff whose index is
/// out of range leaves the sequence as it is.
pub open spec fn apply_diff(s: Seq<ItemView>, d: DiffView) -> Seq<ItemView> {
    match d {
        DiffView::PushBack(v) => s.push(v),
        DiffView::Insert(i, v) => if i <= s.len() {
            s.insert(i as int, v)
        } else {
            s
        },
        DiffView::Replace(i, v) => if i < s.len() {
            s.update(i as int, v)
        } else {
            s
        },
        DiffView::Remove(i) => if i < s.len() {
            s.remove(i as int)
        } else {
            s
        },
        DiffView::Clear => Seq::empty(),
    }
}

/// The sequence that results from applying diffs in order.
pub open spec fn apply_diffs(s: Seq<ItemView>, ds: Seq<DiffView>) -> Seq<ItemView>
    decreases ds.len(),
{
    if ds.len() == 0 {
        s
    } else {
        apply_diff(apply_diffs(s, ds.drop_last()), ds.last())
    }
}

/// Applying `a` and then `b` is applying their concatenation.
pub proof fn lemma_apply_diffs_concat(s: Seq<ItemView>, a: Seq<DiffView>, b: Seq<DiffView>)
    ensures
        apply_diffs(s, a + b) == apply_diffs(apply_diffs(s, a), b),
    decreases b.len(),
{
    if b.len() == 0 {
        assert(a + b =~= a);
    } else {
        assert((a + b).drop_last() =~= a + b.drop_last());
        assert((a + b).last() == b.last());
        lemma_apply_diffs_concat(s, a, b.drop_last());
    }
}

/// The ordered sequence of items, with the diff log that its subscribers read.
pub struct ObservableItems {
    items: Vec<TimelineItem>,
    /// Diffs made since `log_base`, in order.
    log: Vec<VectorDiff>,
    log_base: Ghost<Seq<ItemView>>,
    /// For each subscriber handle, how far into `log` it has read; `None` once
    /// it has unsubscribed.
    cursors: Vec<Option<usize>>,
}

impl View for ObservableItems {
    type V = Seq<ItemView>;

    closed spec fn view(&self) -> Seq<ItemView> {
        items_view(self.items@)
    }
}

impl ObservableItems {
    pub closed spec fn wf(&self) -> bool {
        &&& apply_diffs(self.log_base@, diffs_view(self.log@)) == items_view(self.items@)
        &&& forall|i: int|
            0 <= i < self.cursors@.len() ==> match #[trigger] self.cursors@[i] {
                Some(p) => p <= self.log@.len(),
                None => true,
            }
        &&& (forall|i: int| 0 <= i < self.cursors@.len() ==> (#[trigger] self.cursors@[i]).is_none())
            ==> self.log@.len() == 0
    }

    /// Whether `id` is a live subscription.
    pub closed spec fn is_subscribed(&self, id: usize) -> bool {
        id < self.cursors@.len() && self.cursors@[id as int].is_some()
    }

    /// The diffs that subscriber `id` has not taken yet.
    pub closed spec fn unread(&self, id: usize) -> Seq<DiffView> {
        let p = self.cursors@[id as int].unwrap() as int;
        diffs_view(self.log@).subrange(p, self.log@.len() as int)
    }

    /// What subscriber `id` holds: its snapshot with every diff it has taken
    /// applied in order.
    pub closed spec fn seen(&self, id: usize) -> Seq<ItemView> {
        let p = self.cursors@[id as int].unwrap() as int;
        apply_diffs(self.log_base@, diffs_view(self.log@).subrange(0, p))
    }

    /// The number of subscriber handles handed out so far.
    pub closed spec fn handles(&self) -> nat {
        self.cursors@.len()
    }

    /// `next` follows from `self` by mutations: every live subscriber stays,
    /// what it has seen is unchanged, and its unread diffs only grow.
    pub open spec fn grows_to(&self, next: Self) -> bool {
        &&& next.handles() == self.handles()
        &&& forall|id: usize| #[trigger]
            self.is_subscribed(id) ==> next.is_subscribed(id) && next.seen(id) == self.seen(id)
                && self.unread(id).len() <= next.unread(id).len() && next.unread(id).subrange(
                0,
                self.unread(id).len() as int,
            ) == self.unread(id)
    }

    /// `next` holds the same for every live subscriber: no diff was sent.
    pub open spec fn quiet_to(&self, next: Self) -> bool {
        &&& next.handles() == self.handles()
        &&& forall|id: usize| #[trigger]
            self.is_subscribed(id) ==> next.is_subscribed(id) && next.seen(id) == self.seen(id)
                && next.unread(id) == self.unread(id)
    }

    pub proof fn lemma_quiet_grows(a: Self, b: Self)
        requires
            a.quiet_to(b),
        ensures
            a.grows_to(b),
    {
        assert forall|id: usize| #[trigger] a.is_subscribed(id) implies b.unread(id).subrange(
            0,
            a.unread(id).len() as int,
        ) == a.unread(id) by {
            assert(b.unread(id).subrange(0, a.unread(id).len() as int) =~= a.unread(id));
        }
    }

    pub proof fn lemma_grows_refl(a: Self)
        ensures
            a.grows_to(a),
            a.quiet_to(a),
    {
        Self::lemma_quiet_grows(a, a);
    }

    pub proof fn lemma_grows_trans(a: Self, b: Self, c: Self)
        requires
            a.grows_to(b),
            b.grows_to(c),
        ensures
            a.grows_to(c),
    {
        assert forall|id: usize| #[trigger] a.is_subscribed(id) implies c.is_subscribed(id)
            && c.seen(id) == a.seen(id) && a.unread(id).len() <= c.unread(id).len()
            && c.unread(id).subrange(0, a.unread(id).len() as int) == a.unread(id) by {
            assert(b.is_subscribed(id));
            let n = a.unread(id).len() as int;
            assert(c.unread(id).subrange(0, n) =~= c.unread(id).subrange(
                0,
                b.unread(id).len() as int,
            ).subrange(0, n));
        }
    }

    pub proof fn lemma_push_grows(a: Self, b: Self, d: DiffView)
        requires
            b.handles() == a.handles(),
            forall|id: usize| #[trigger]
                a.is_subscribed(id) ==> b.is_subscribed(id) && b.seen(id) == a.seen(id)
                    && b.unread(id) == a.unread(id).push(d),
        ensures
            a.grows_to(b),
    {
        assert forall|id: usize| #[trigger] a.is_subscribed(id) implies b.unread(id).subrange(
            0,
            a.unread(id).len() as int,
        ) == a.unread(id) by {
            assert(b.unread(id).subrange(0, a.unread(id).len() as int) =~= a.unread(id));
        }
    }

    pub fn new() -> (r: Self)
        ensures
            r.wf(),
            r@ == Seq::<ItemView>::empty(),
            r.handles() == 0,
    {
        let r = ObservableItems {
            items: Vec::new(),
            log: Vec::new(),
            log_base: Ghost(Seq::empty()),
            cursors: Vec::new(),
        };
        assert(items_view(r.items@) =~= Seq::<ItemView>::empty());
        r
    }

    pub fn len(&self) -> (r: usize)
        ensures
            r == self@.len(),
    {
        self.items.len()
    }

    pub fn get(&self, index: usize) -> (r: &TimelineItem)
        requires
            index < self@.len(),
        ensures
            r@ == self@[index as int],
    {
        &self.items[index]
    }

    fn has_subscribers(&self) -> (r: bool)
        ensures
            r == exists|i: int| 0 <= i < self.cursors@.len() && (#[trigger] self.cursors@[i]).is_some(),
    {
        let mut i: usize = 0;
        while i < self.cursors.len()
            invariant
                i <= self.cursors@.len(),
                forall|k: int| 0 <= k < i ==> (#[trigger] self.cursors@[k]).is_none(),
            decreases self.cursors@.len() - i,
        {
            if self.cursors[i].is_some() {
                return true;
            }
            i = i + 1;
        }
        false
    }

    /// The clauses of `wf` that do not speak of the items.
    closed spec fn cursors_ok(&self) -> bool {
        &&& forall|i: int|
            0 <= i < self.cursors@.len() ==> match #[trigger] self.cursors@[i] {
                Some(p) => p <= self.log@.len(),
                None => true,
            }
        &&& (forall|i: int| 0 <= i < self.cursors@.len() ==> (#[trigger] self.cursors@[i]).is_none())
            ==> self.log@.len() == 0
    }

    /// Records `d` in the log (when anyone listens), before the items are
    /// changed by it into `next`.
    fn record(&mut self, d: VectorDiff, Ghost(next): Ghost<Seq<ItemView>>)
        requires
            old(self).wf(),
            next == apply_diff(old(self)@, d@),
        ensures
            apply_diffs(final(self).log_base@, diffs_view(final(self).log@)) == next,
            final(self).cursors_ok(),
            final(self).items == old(self).items,
            final(self).cursors == old(self).cursors,
            forall|id: usize| #[trigger]
                old(self).is_subscribed(id) ==> final(self).seen(id) == old(self).seen(id)
                    && final(self).unread(id) == old(self).unread(id).push(d@),
    {
        if self.has_subscribers() {
            let ghost old_log = diffs_view(self.log@);
            self.log.push(d);
            proof {
                assert(diffs_view(self.log@).drop_last() =~= old_log);
                assert(diffs_view(self.log@).last() == d@);
                assert forall|id: usize| #[trigger] old(self).is_subscribed(id) implies self.seen(
                    id,
                ) == old(self).seen(id) && self.unread(id) == old(self).unread(id).push(d@) by {
                    let p = self.cursors@[id as int].unwrap() as int;
                    assert(diffs_view(self.log@).subrange(0, p) =~= old_log.subrange(0, p));
                    assert(diffs_view(self.log@).subrange(p, self.log@.len() as int)
                        =~= old_log.subrange(p, old_log.len() as int).push(d@));
                }
            }
        } else {
            self.log_base = Ghost(next);
            proof {
                assert(diffs_view(self.log@) =~= Seq::<DiffView>::empty());
            }
        }
    }

    /// Appends `value` at the end.
    pub fn push_back(&mut self, value: TimelineItem)
        requires
            old(self).wf(),
        ensures
            final(self).wf(),
            final(self)@ == old(self)@.push(value@),
            final(self).handles() == old(self).handles(),
            forall|id: usize| #[trigger]
                old(self).is_subscribed(id) ==> final(self).is_subscribed(id) && final(self).seen(id)
                    == old(self).seen(id) && final(self).unread(id) == old(self).unread(id).push(
                    DiffView::PushBack(value@),
                ),
    {
        let ghost prev = self@;
        let d = VectorDiff::PushBack { value: value.duplicate() };
        self.record(d, Ghost(prev.push(value@)));
        self.items.push(value);
        proof {
            assert(items_view(self.items@) =~= prev.push(value@));
        }
    }

    /// Inserts `value` at `index`.
    pub fn insert(&mut self, index: usize, value: TimelineItem)
        requires
            old(self).wf(),
            index <= old(self)@.len(),
        ensures
            final(self).wf(),
            final(self)@ == old(self)@.insert(index as int, value@),
            final(self).handles() == old(self).handles(),
            forall|id: usize| #[trigger]
                old(self).is_subscribed(id) ==> final(self).is_subscribed(id) && final(self).seen(id)
                    == old(self).seen(id) && final(self).unread(id) == old(self).unread(id).push(
                    DiffView::Insert(index, value@),
                ),
    {
        let ghost prev = self@;
        let d = VectorDiff::Insert { index, value: value.duplicate() };
        self.record(d, Ghost(prev.insert(index as int, value@)));
        self.items.insert(index, value);
        proof {
            assert(items_view(self.items@) =~= prev.insert(index as int, value@));
        }
    }

    /// Replaces the item at `index` by `value`.
    pub fn replace(&mut self, index: usize, value: TimelineItem)
        requires
            old(self).wf(),
            index < old(self)@.len(),
        ensures
            final(self).wf(),
            final(self)@ == old(self)@.update(index as int, value@),
            final(self).handles() == old(self).handles(),
            forall|id: usize| #[trigger]
                old(self).is_subscribed(id) ==> final(self).is_subscribed(id) && final(self).seen(id)
                    == old(self).seen(id) && final(self).unread(id) == old(self).unread(id).push(
                    DiffView::Replace(index, value@),
                ),
    {
        let ghost prev = self@;
        let d = VectorDiff::Replace { index, value: value.duplicate() };
        self.record(d, Ghost(prev.update(index as int, value@)));
        self.items.set(index, value);
        proof {
            assert(items_view(self.items@) =~= prev.update(index as int, value@));
        }
    }

    /// Removes the item at `index` and returns it.
    pub fn remove(&mut self, index: usize) -> (r: TimelineItem)
        requires
            old(self).wf(),
            index < old(self)@.len(),
        ensures
            final(self).wf(),
            r@ == old(self)@[index as int],
            final(self)@ == old(self)@.remove(index as int),
            final(self).handles() == old(self).handles(),
            forall|id: usize| #[trigger]
                old(self).is_subscribed(id) ==> final(self).is_subscribed(id) && final(self).seen(id)
                    == old(self).seen(id) && final(self).unread(id) == old(self).unread(id).push(
                    DiffView::Remove(index),
                ),
    {
        let ghost prev = self@;
        self.record(VectorDiff::Remove { index }, Ghost(prev.remove(index as int)));
        let r = self.items.remove(index);
        proof {
            assert(items_view(self.items@) =~= prev.remove(index as int));
        }
        r
    }

    /// Removes every item.
    pub fn clear(&mut self)
        requires
            old(self).wf(),
        ensures
            final(self).wf(),
            final(self)@ == Seq::<ItemView>::empty(),
            final(self).handles() == old(self).handles(),
            forall|id: usize| #[trigger]
                old(self).is_subscribed(id) ==> final(self).is_subscribed(id) && final(self).seen(id)
                    == old(self).seen(id) && final(self).unread(id) == old(self).unread(id).push(
                    DiffView::Clear,
                ),
    {
        let ghost prev = self@;
        self.record(VectorDiff::Clear, Ghost(Seq::<ItemView>::empty()));
        self.items.clear();
        proof {
            assert(items_view(self.items@) =~= Seq::<ItemView>::empty());
        }
    }

    fn copy_items(&self) -> (r: Vec<TimelineItem>)
        ensures
            items_view(r@) == self@,
    {
        let mut r: Vec<TimelineItem> = Vec::new();
        let mut i: usize = 0;
        while i < self.items.len()
            invariant
                i <= self.items@.len(),
                r@.len() == i,
                forall|k: int| 0 <= k < i ==> #[trigger] r@[k]@ == self.items@[k]@,
            decreases self.items@.len() - i,
        {
            r.push(self.items[i].duplicate());
            i = i + 1;
        }
        assert(items_view(r@) =~= items_view(self.items@));
        r
    }

    /// Releases the part of the log that every live subscriber has read.
    fn compact(&mut self)
        requires
            old(self).wf(),
        ensures
            final(self).wf(),
            final(self)@ == old(self)@,
            old(self).quiet_to(*final(self)),
            forall|id: usize| #[trigger] final(self).is_subscribed(id) <==> old(self).is_subscribed(id),
    {
        let mut m: usize = self.log.len();
        let mut i: usize = 0;
        while i < self.cursors.len()
            invariant
                self.wf(),
                m <= self.log@.len(),
                i <= self.cursors@.len(),
                forall|k: int|
                    0 <= k < i ==> match #[trigger] self.cursors@[k] {
                        Some(p) => m <= p,
                        None => true,
                    },
            decreases self.cursors@.len() - i,
        {
            if let Some(p) = self.cursors[i] {
                if p < m {
                    m = p;
                }
            }
            i = i + 1;
        }
        if m == 0 {
            proof {
                ObservableItems::lemma_grows_refl(*self);
            }
            return ;
        }
        let ghost base = self.log_base@;
        let ghost l = diffs_view(self.log@);
        let ghost before = *self;
        let tail = self.log.split_off(m);
        self.log = tail;
        self.log_base = Ghost(apply_diffs(base, l.subrange(0, m as int)));
        proof {
            assert(diffs_view(self.log@) =~= l.subrange(m as int, l.len() as int));
            assert(l =~= l.subrange(0, m as int) + l.subrange(m as int, l.len() as int));
            lemma_apply_diffs_concat(base, l.subrange(0, m as int), l.subrange(m as int, l.len() as int));
        }
        let mut j: usize = 0;
        while j < self.cursors.len()
            invariant
                self.cursors@.len() == before.cursors@.len(),
                self.log@.len() + m == before.log@.len(),
                diffs_view(self.log@) == l.subrange(m as int, l.len() as int),
                self.log_base@ == apply_diffs(base, l.subrange(0, m as int)),
                self.items == before.items,
                apply_diffs(self.log_base@, diffs_view(self.log@)) == items_view(self.items@),
                l == diffs_view(before.log@),
                base == before.log_base@,
                0 < m <= l.len(),
                forall|k: int|
                    0 <= k < before.cursors@.len() ==> match #[trigger] before.cursors@[k] {
                        Some(p) => m <= p,
                        None => true,
                    },
                forall|k: int|
                    0 <= k < j ==> #[trigger] self.cursors@[k] == match before.cursors@[k] {
                        Some(p) => Some((p - m) as usize),
                        None => None,
                    },
                forall|k: int| j <= k < self.cursors@.len() ==> #[trigger] self.cursors@[k] == before.cursors@[k],
            decreases self.cursors@.len() - j,
        {
            if let Some(p) = self.cursors[j] {
                self.cursors.set(j, Some(p - m));
            }
            j = j + 1;
        }
        proof {
            let nl = diffs_view(self.log@);
            assert forall|i: int|
                0 <= i < self.cursors@.len() implies match #[trigger] self.cursors@[i] {
                    Some(p) => p <= self.log@.len(),
                    None => true,
                } by {
                let _ = before.cursors@[i];
            }
            assert forall|id: usize| #[trigger] self.is_subscribed(id) <==> before.is_subscribed(id) by {
                if id < self.cursors@.len() {
                    let _ = before.cursors@[id as int];
                }
            }
            assert forall|id: usize| #[trigger] before.is_subscribed(id) implies self.is_subscribed(id)
                && self.seen(id) == before.seen(id) && self.unread(id) == before.unread(id) by {
                let p = before.cursors@[id as int].unwrap() as int;
                assert(self.cursors@[id as int] == Some((p - m) as usize));
                assert(nl.subrange(0, p - m) =~= l.subrange(m as int, p));
                assert(l.subrange(0, p) =~= l.subrange(0, m as int) + l.subrange(m as int, p));
                lemma_apply_diffs_concat(base, l.subrange(0, m as int), l.subrange(m as int, p));
                assert(nl.subrange(p - m, nl.len() as int) =~= l.subrange(p, l.len() as int));
            }
            assert((forall|i: int| 0 <= i < self.cursors@.len() ==> (#[trigger] self.cursors@[i]).is_none())
                ==> self.log@.len() == 0) by {
                if forall|i: int| 0 <= i < self.cursors@.len() ==> (#[trigger] self.cursors@[i]).is_none() {
                    assert forall|i: int| 0 <= i < before.cursors@.len() implies (#[trigger] before.cursors@[i]).is_none() by {
                        assert(self.cursors@[i].is_none());
                    }
                }
            }
        }
    }

    /// Opens a subscription: returns its handle and a snapshot of the items.
    /// The subscriber has then seen exactly the snapshot, and nothing is unread.
    pub fn subscribe(&mut self) -> (r: (usize, Vec<TimelineItem>))
        requires
            old(self).wf(),
        ensures
            final(self).wf(),
            final(self)@ == old(self)@,
            r.0 == old(self).handles(),
            final(self).handles() == old(self).handles() + 1,
            items_view(r.1@) == old(self)@,
            final(self).is_subscribed(r.0),
            final(self).seen(r.0) == old(self)@,
            final(self).unread(r.0) == Seq::<DiffView>::empty(),
            forall|id: usize| #[trigger]
                old(self).is_subscribed(id) ==> final(self).is_subscribed(id) && final(self).seen(id)
                    == old(self).seen(id) && final(self).unread(id) == old(self).unread(id),
    {
        let snapshot = self.copy_items();
        let id = self.cursors.len();
        self.cursors.push(Some(self.log.len()));
        proof {
            assert(self.cursors@[id as int].is_some());
            let n = self.log@.len() as int;
            assert(diffs_view(self.log@).subrange(0, n) =~= diffs_view(self.log@));
            assert(diffs_view(self.log@).subrange(n, n) =~= Seq::<DiffView>::empty());
            assert forall|k: usize| #[trigger] old(self).is_subscribed(k) implies self.seen(k)
                == old(self).seen(k) && self.unread(k) == old(self).unread(k) by {
                assert(self.cursors@[k as int] == old(self).cursors@[k as int]);
            }
        }
        (id, snapshot)
    }

    /// Hands subscriber `id` the diffs it has not read yet, in order.
    pub fn take_diffs(&mut self, id: usize) -> (r: Vec<VectorDiff>)
        requires
            old(self).wf(),
            old(self).is_subscribed(id),
        ensures
            final(self).wf(),
            final(self)@ == old(self)@,
            final(self).handles() == old(self).handles(),
            diffs_view(r@) == old(self).unread(id),
            final(self).is_subscribed(id),
            final(self).seen(id) == apply_diffs(old(self).seen(id), diffs_view(r@)),
            final(self).unread(id) == Seq::<DiffView>::empty(),
            forall|k: usize| #[trigger]
                old(self).is_subscribed(k) && k != id ==> final(self).is_subscribed(k)
                    && final(self).seen(k) == old(self).seen(k) && final(self).unread(k) == old(self).unread(k),
    {
        let start = self.cursors[id].unwrap();
        let mut r: Vec<VectorDiff> = Vec::new();
        let mut i: usize = start;
        while i < self.log.len()
            invariant
                start <= i <= self.log@.len(),
                r@.len() == i - start,
                forall|k: int| 0 <= k < r@.len() ==> #[trigger] r@[k]@ == self.log@[k + start]@,
            decreases self.log@.len() - i,
        {
            r.push(self.log[i].duplicate());
            i = i + 1;
        }
        let end = self.log.len();
        self.cursors.set(id, Some(end));
        proof {
            assert(self.cursors@[id as int].is_some());
            let dv = diffs_view(self.log@);
            assert(diffs_view(r@) =~= dv.subrange(start as int, end as int));
            assert(dv.subrange(0, end as int) =~= dv.subrange(0, start as int) + dv.subrange(
                start as int,
                end as int,
            ));
            lemma_apply_diffs_concat(
                self.log_base@,
                dv.subrange(0, start as int),
                dv.subrange(start as int, end as int),
            );
            assert(dv.subrange(end as int, end as int) =~= Seq::<DiffView>::empty());
            assert forall|k: usize| #[trigger] old(self).is_subscribed(k) && k != id implies self.seen(
                k,
            ) == old(self).seen(k) && self.unread(k) == old(self).unread(k) by {
                assert(self.cursors@[k as int] == old(self).cursors@[k as int]);
            }
        }
        let ghost mid = *self;
        self.compact();
        proof {
            assert(mid.is_subscribed(id));
            assert forall|k: usize| #[trigger] old(self).is_subscribed(k) && k != id implies self.is_subscribed(k)
                && self.seen(k) == old(self).seen(k) && self.unread(k) == old(self).unread(k) by {
                assert(mid.is_subscribed(k));
            }
        }
        r
    }

    /// Closes subscription `id`; once nobody listens the log is released.
    pub fn unsubscribe(&mut self, id: usize)
        requires
            old(self).wf(),
        ensures
            final(self).wf(),
            final(self)@ == old(self)@,
            final(self).handles() == old(self).handles(),
            !final(self).is_subscribed(id),
            forall|k: usize| #[trigger]
                old(self).is_subscribed(k) && k != id ==> final(self).is_subscribed(k)
                    && final(self).seen(k) == old(self).seen(k) && final(self).unread(k) == old(self).unread(k),
    {
        if id < self.cursors.len() {
            self.cursors.set(id, None);
        }
        assert forall|k: usize| #[trigger] old(self).is_subscribed(k) && k != id implies self.seen(
            k,
        ) == old(self).seen(k) && self.unread(k) == old(self).unread(k) by {
            assert(self.cursors@[k as int] == old(self).cursors@[k as int]);
        }
        if !self.has_subscribers() {
            self.log.clear();
            self.log_base = Ghost(self@);
            assert(diffs_view(self.log@) =~= Seq::<DiffView>::empty());
        }
        self.compact();
    }
}

/// Snapshot/diff consistency: whatever subscriber `id` has seen, with the
/// diffs it has not read yet applied in order, is the live sequence.
pub proof fn lemma_snapshot_diff_consistency(store: &ObservableItems, id: usize)
    requires
        store.wf(),
        store.is_subscribed(id),
    ensures
        apply_diffs(store.seen(id), store.unread(id)) == store@,
{
    let dv = diffs_view(store.log@);
    let p = store.cursors@[id as int].unwrap() as int;
    assert(dv =~= dv.subrange(0, p) + dv.subrange(p, dv.len() as int));
    lemma_apply_diffs_concat(store.log_base@, dv.subrange(0, p), dv.subrange(p, dv.len() as int));
}

} // verus!
