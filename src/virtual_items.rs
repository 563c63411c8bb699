//! Virtual items: day dividers before the first event of each day, and the
//! read marker after the event that the user has fully read.

use vstd::prelude::*;

use crate::item::{ItemView, VirtualTimelineItem};

verus! {

pub open spec fn has_event_id(it: ItemView, id: Seq<char>) -> bool {
    match it {
        ItemView::Event(e) => e.event_id == Some(id),
        _ => false,
    }
}

pub open spec fn is_read_marker(it: ItemView) -> bool {
    it == ItemView::Virtual(VirtualTimelineItem::ReadMarker)
}

/// Where the event `id` stands in `s`, or -1.
pub open spec fn event_index(s: Seq<ItemView>, id: Seq<char>) -> int {
    if exists|i: int| 0 <= i < s.len() && #[trigger] has_event_id(s[i], id) {
        choose|i: int| 0 <= i < s.len() && #[trigger] has_event_id(s[i], id)
    } else {
        -1
    }
}

/// No two items carry the same event id.
pub open spec fn unique_event_ids(s: Seq<ItemView>) -> bool {
    forall|i: int, j: int, id: Seq<char>|
        0 <= i < s.len() && 0 <= j < s.len() && #[trigger] has_event_id(s[i], id)
            && #[trigger] has_event_id(s[j], id) ==> i == j
}

/// There is at most one read marker.
pub open spec fn at_most_one_marker(s: Seq<ItemView>) -> bool {
    forall|i: int, j: int|
        0 <= i < s.len() && 0 <= j < s.len() && #[trigger] is_read_marker(s[i])
            && #[trigger] is_read_marker(s[j]) ==> i == j
}

pub proof fn lemma_event_index(s: Seq<ItemView>, id: Seq<char>, i: int)
    requires
        unique_event_ids(s),
        0 <= i < s.len(),
        has_event_id(s[i], id),
    ensures
        event_index(s, id) == i,
{
}

/// Milliseconds in a day: timestamps are milliseconds since the epoch.
pub const MS_PER_DAY: u64 = 86400000;

/// The calendar day of a timestamp, in days since the epoch.
pub open spec fn day_of(ts: u64) -> u64 {
    ts / MS_PER_DAY
}

/// The day of the last event item of `s`, if any.
pub open spec fn last_event_day(s: Seq<ItemView>) -> Option<u64>
    decreases s.len(),
{
    if s.len() == 0 {
        None
    } else {
        match s.last() {
            ItemView::Event(e) => Some(day_of(e.timestamp)),
            _ => last_event_day(s.drop_last()),
        }
    }
}

/// Where the read marker stands in `s`, or -1.
pub open spec fn marker_index(s: Seq<ItemView>) -> int {
    if exists|i: int| 0 <= i < s.len() && #[trigger] is_read_marker(s[i]) {
        choose|i: int| 0 <= i < s.len() && #[trigger] is_read_marker(s[i])
    } else {
        -1
    }
}

pub open spec fn read_marker() -> ItemView {
    ItemView::Virtual(VirtualTimelineItem::ReadMarker)
}

/// `s` with the read marker right after the event `id`. When that event is
/// unknown or last, or the marker already follows it, `s` stays as it is;
/// otherwise the marker moves there (or appears there, when there was none).
pub open spec fn with_read_marker(s: Seq<ItemView>, id: Seq<char>) -> Seq<ItemView> {
    let t = event_index(s, id);
    let m = marker_index(s);
    if t < 0 || t + 1 >= s.len() || is_read_marker(s[t + 1]) {
        s
    } else if m < 0 {
        s.insert(t + 1, read_marker())
    } else if m < t {
        s.remove(m).insert(t, read_marker())
    } else {
        s.remove(m).insert(t + 1, read_marker())
    }
}

pub open spec fn no_marker(s: Seq<ItemView>) -> bool {
    forall|i: int| 0 <= i < s.len() ==> !#[trigger] is_read_marker(s[i])
}

/// Removing an item keeps event ids unique; removing the marker leaves none.
pub proof fn lemma_remove_keeps(s: Seq<ItemView>, m: int)
    requires
        0 <= m < s.len(),
        unique_event_ids(s),
        at_most_one_marker(s),
    ensures
        unique_event_ids(s.remove(m)),
        at_most_one_marker(s.remove(m)),
        is_read_marker(s[m]) ==> no_marker(s.remove(m)),
        forall|k: int| 0 <= k < s.remove(m).len() ==> #[trigger] s.remove(m)[k] == (if k < m {
            s[k]
        } else {
            s[k + 1]
        }),
{
    let r = s.remove(m);
    assert forall|k: int| 0 <= k < r.len() implies #[trigger] r[k] == (if k < m {
        s[k]
    } else {
        s[k + 1]
    }) by {}
    assert forall|i: int, j: int, id: Seq<char>|
        0 <= i < r.len() && 0 <= j < r.len() && #[trigger] has_event_id(r[i], id)
            && #[trigger] has_event_id(r[j], id) implies i == j by {
        let i2 = if i < m { i } else { i + 1 };
        let j2 = if j < m { j } else { j + 1 };
        assert(has_event_id(s[i2], id));
        assert(has_event_id(s[j2], id));
    }
    assert forall|i: int, j: int|
        0 <= i < r.len() && 0 <= j < r.len() && #[trigger] is_read_marker(r[i])
            && #[trigger] is_read_marker(r[j]) implies i == j by {
        let i2 = if i < m { i } else { i + 1 };
        let j2 = if j < m { j } else { j + 1 };
        assert(is_read_marker(s[i2]));
        assert(is_read_marker(s[j2]));
    }
    if is_read_marker(s[m]) {
        assert forall|i: int| 0 <= i < r.len() implies !#[trigger] is_read_marker(r[i]) by {
            let i2 = if i < m { i } else { i + 1 };
            if is_read_marker(r[i]) {
                assert(is_read_marker(s[i2]));
            }
        }
    }
}

/// Inserting the marker where there is none keeps event ids unique and
/// leaves exactly one marker, at the place of insertion.
pub proof fn lemma_insert_marker(s: Seq<ItemView>, p: int)
    requires
        0 <= p <= s.len(),
        unique_event_ids(s),
        no_marker(s),
    ensures
        unique_event_ids(s.insert(p, read_marker())),
        at_most_one_marker(s.insert(p, read_marker())),
        forall|k: int|
            0 <= k < s.insert(p, read_marker()).len() ==> (is_read_marker(
                #[trigger] s.insert(p, read_marker())[k],
            ) <==> k == p),
        forall|k: int| 0 <= k < s.insert(p, read_marker()).len() ==> #[trigger] s.insert(p, read_marker())[k] == (if k < p {
            s[k]
        } else if k == p {
            read_marker()
        } else {
            s[k - 1]
        }),
{
    let r = s.insert(p, read_marker());
    assert forall|k: int| 0 <= k < r.len() implies #[trigger] r[k] == (if k < p {
        s[k]
    } else if k == p {
        read_marker()
    } else {
        s[k - 1]
    }) by {}
    assert forall|i: int, j: int, id: Seq<char>|
        0 <= i < r.len() && 0 <= j < r.len() && #[trigger] has_event_id(r[i], id)
            && #[trigger] has_event_id(r[j], id) implies i == j by {
        let i2 = if i < p { i } else { i - 1 };
        let j2 = if j < p { j } else { j - 1 };
        assert(has_event_id(s[i2], id));
        assert(has_event_id(s[j2], id));
    }
    assert forall|k: int| 0 <= k < r.len() implies (is_read_marker(#[trigger] r[k]) <==> k == p) by {
        if k < p {
            assert(!is_read_marker(s[k]));
        } else if k > p {
            assert(!is_read_marker(s[k - 1]));
        }
    }
}

/// Read marker placement: when the event `id` stands before the last item,
/// the result holds exactly one marker, right after that event; when the
/// event is unknown or last, nothing changes.
pub proof fn lemma_read_marker_placement(s: Seq<ItemView>, id: Seq<char>)
    requires
        unique_event_ids(s),
        at_most_one_marker(s),
    ensures
        ({
            let t = event_index(s, id);
            let r = with_read_marker(s, id);
            &&& (t < 0 || t == s.len() - 1) ==> r == s
            &&& (0 <= t < s.len() - 1) ==> {
                let t2 = event_index(r, id);
                &&& 0 <= t2 && t2 + 1 < r.len()
                &&& has_event_id(r[t2], id)
                &&& is_read_marker(r[t2 + 1])
                &&& forall|k: int| 0 <= k < r.len() && #[trigger] is_read_marker(r[k]) ==> k == t2 + 1
            }
            &&& unique_event_ids(r)
            &&& at_most_one_marker(r)
        }),
{
    let t = event_index(s, id);
    let m = marker_index(s);
    if t >= 0 {
        assert(has_event_id(s[t], id));
    }
    if m >= 0 {
        assert(is_read_marker(s[m]));
    } else {
        assert forall|i: int| 0 <= i < s.len() implies !#[trigger] is_read_marker(s[i]) by {}
    }
    if t < 0 || t + 1 >= s.len() {
    } else if is_read_marker(s[t + 1]) {
        assert forall|k: int| 0 <= k < s.len() && #[trigger] is_read_marker(s[k]) implies k == t + 1 by {}
        lemma_event_index(s, id, t);
    } else if m < 0 {
        lemma_insert_marker(s, t + 1);
        let r = s.insert(t + 1, read_marker());
        assert(r[t] == s[t]);
        lemma_event_index(r, id, t);
    } else if m < t {
        lemma_remove_keeps(s, m);
        let s1 = s.remove(m);
        lemma_insert_marker(s1, t);
        let r = s1.insert(t, read_marker());
        assert(s1[t - 1] == s[t]);
        assert(r[t - 1] == s1[t - 1]);
        lemma_event_index(r, id, t - 1);
    } else {
        assert(m != t);
        lemma_remove_keeps(s, m);
        let s1 = s.remove(m);
        lemma_insert_marker(s1, t + 1);
        let r = s1.insert(t + 1, read_marker());
        assert(s1[t] == s[t]);
        assert(r[t] == s1[t]);
        lemma_event_index(r, id, t);
    }
}

/// Every event item of `s` has a local id below `n`.
pub open spec fn local_ids_below(s: Seq<ItemView>, n: u64) -> bool {
    forall|i: int|
        0 <= i < s.len() ==> match #[trigger] s[i] {
            ItemView::Event(e) => e.local_id < n,
            _ => true,
        }
}

pub proof fn lemma_marker_index(s: Seq<ItemView>, i: int)
    requires
        at_most_one_marker(s),
        0 <= i < s.len(),
        is_read_marker(s[i]),
    ensures
        marker_index(s) == i,
{
}

/// Moving the read marker keeps the local ids as they were.
pub proof fn lemma_marker_keeps_local_ids(s: Seq<ItemView>, id: Seq<char>, n: u64)
    requires
        unique_event_ids(s),
        at_most_one_marker(s),
        local_ids_below(s, n),
    ensures
        local_ids_below(with_read_marker(s, id), n),
{
    let t = event_index(s, id);
    let m = marker_index(s);
    if m >= 0 {
        assert(is_read_marker(s[m]));
    } else {
        assert forall|i: int| 0 <= i < s.len() implies !#[trigger] is_read_marker(s[i]) by {}
    }
    if t < 0 || t + 1 >= s.len() || is_read_marker(s[t + 1]) {
    } else if m < 0 {
        lemma_insert_marker(s, t + 1);
        let r = s.insert(t + 1, read_marker());
        assert forall|i: int| 0 <= i < r.len() implies match #[trigger] r[i] {
            ItemView::Event(e) => e.local_id < n,
            _ => true,
        } by {
            if i < t + 1 {
                let _ = s[i];
            } else if i > t + 1 {
                let _ = s[i - 1];
            }
        }
    } else {
        lemma_remove_keeps(s, m);
        let s1 = s.remove(m);
        let p = if m < t { t } else { t + 1 };
        assert(local_ids_below(s1, n)) by {
            assert forall|i: int| 0 <= i < s1.len() implies match #[trigger] s1[i] {
                ItemView::Event(e) => e.local_id < n,
                _ => true,
            } by {
                if i < m {
                    let _ = s[i];
                } else {
                    let _ = s[i + 1];
                }
            }
        }
        lemma_insert_marker(s1, p);
        let r = s1.insert(p, read_marker());
        assert forall|i: int| 0 <= i < r.len() implies match #[trigger] r[i] {
            ItemView::Event(e) => e.local_id < n,
            _ => true,
        } by {
            if i < p {
                let _ = s1[i];
            } else if i > p {
                let _ = s1[i - 1];
            }
        }
    }
}

/// Inserting an item that is no read marker, whose event id (if any) is not
/// in `s` and whose local id is below `n`, keeps `s` well formed.
pub proof fn lemma_insert_fresh(s: Seq<ItemView>, p: int, v: ItemView, n: u64)
    requires
        0 <= p <= s.len(),
        unique_event_ids(s),
        at_most_one_marker(s),
        local_ids_below(s, n),
        !is_read_marker(v),
        forall|x: Seq<char>| has_event_id(v, x) ==> forall|k: int| 0 <= k < s.len() ==> !#[trigger] has_event_id(s[k], x),
        match v {
            ItemView::Event(e) => e.local_id < n,
            _ => true,
        },
    ensures
        unique_event_ids(s.insert(p, v)),
        at_most_one_marker(s.insert(p, v)),
        local_ids_below(s.insert(p, v), n),
{
    let r = s.insert(p, v);
    assert forall|k: int| 0 <= k < r.len() implies #[trigger] r[k] == (if k < p {
        s[k]
    } else if k == p {
        v
    } else {
        s[k - 1]
    }) by {}
    assert forall|i: int, j: int, x: Seq<char>|
        0 <= i < r.len() && 0 <= j < r.len() && #[trigger] has_event_id(r[i], x)
            && #[trigger] has_event_id(r[j], x) implies i == j by {
        if i != p && j != p {
            let i2 = if i < p { i } else { i - 1 };
            let j2 = if j < p { j } else { j - 1 };
            assert(has_event_id(s[i2], x));
            assert(has_event_id(s[j2], x));
        } else if i != p {
            let i2 = if i < p { i } else { i - 1 };
            assert(has_event_id(s[i2], x));
        } else if j != p {
            let j2 = if j < p { j } else { j - 1 };
            assert(has_event_id(s[j2], x));
        }
    }
    assert forall|i: int, j: int|
        0 <= i < r.len() && 0 <= j < r.len() && #[trigger] is_read_marker(r[i])
            && #[trigger] is_read_marker(r[j]) implies i == j by {
        let i2 = if i < p { i } else { i - 1 };
        let j2 = if j < p { j } else { j - 1 };
        assert(is_read_marker(s[i2]));
        assert(is_read_marker(s[j2]));
    }
    assert forall|i: int| 0 <= i < r.len() implies match #[trigger] r[i] {
        ItemView::Event(e) => e.local_id < n,
        _ => true,
    } by {
        if i < p {
            let _ = s[i];
        } else if i > p {
            let _ = s[i - 1];
        }
    }
}

} // verus!
