//! Messages exchanged with an embedded widget, and the table of requests
//! sent to the widget that still wait for its response.

use vstd::prelude::*;
use vstd::std_specs::convert::IntoSpec;

verus! {

/// The body of an action: its API name and its data, as JSON text.
pub struct ActionBody {
    pub api: String,
    pub data: String,
}

/// Which way an action goes.
pub enum Action {
    /// A request of the widget (or our response to one).
    FromWidget(ActionBody),
    /// A request of ours to the widget (or its response to one).
    ToWidget(ActionBody),
}

/// A message of the widget API: a header and an action.
pub struct Message {
    pub header: Header,
    pub action: Action,
}

impl Message {
    pub fn new(header: Header, action: Action) -> (r: Self)
        ensures
            r.header == header,
            r.action == action,
    {
        Self { header, action }
    }
}

/// Names the request and the widget that a message belongs to.
pub struct Header {
    pub request_id: String,
    pub widget_id: String,
}

impl Header {
    pub fn new<R: Into<String>, W: Into<String>>(request_id: R, widget_id: W) -> (r: Self)
        ensures
            R::obeys_into_spec() ==> r.request_id == request_id.into_spec(),
            W::obeys_into_spec() ==> r.widget_id == widget_id.into_spec(),
    {
        Self { request_id: request_id.into(), widget_id: widget_id.into() }
    }
}

/// The text of a UUID in hyphenated form: 32 lowercase hex digits in groups
/// of 8, 4, 4, 4 and 12, joined by hyphens.
pub open spec fn is_hyphenated_uuid(s: Seq<char>) -> bool {
    &&& s.len() == 36
    &&& forall|i: int|
        0 <= i < 36 ==> if i == 8 || i == 13 || i == 18 || i == 23 {
            #[trigger] s[i] == '-'
        } else {
            ('0' <= s[i] <= '9') || ('a' <= s[i] <= 'f')
        }
}

/// Relies on uuid's `Uuid::new_v4`, a random version 4 UUID, and on its
/// `Display`, which writes the hyphenated lowercase form.
#[verifier::external_body]
fn random_request_id() -> (r: String)
    ensures
        is_hyphenated_uuid(r@),
{
    uuid::Uuid::new_v4().to_string()
}

/// The header of a new request to the widget `widget_id`, under a fresh
/// random request id.
pub fn outgoing_header(widget_id: &String) -> (r: Header)
    ensures
        r.widget_id@ == widget_id@,
        is_hyphenated_uuid(r.request_id@),
{
    Header { request_id: random_request_id(), widget_id: widget_id.clone() }
}

/// Requests sent to the widget that wait for its response: each request id
/// maps to the waiter that the response goes to.
pub struct PendingResponses {
    entries: Vec<(String, u64)>,
}

impl PendingResponses {
    pub closed spec fn wf(&self) -> bool {
        forall|i: int, j: int|
            0 <= i < self.entries@.len() && 0 <= j < self.entries@.len() && (#[trigger] self.entries@[i]).0@
                == (#[trigger] self.entries@[j]).0@ ==> i == j
    }

    /// The waiter of the request `id`, if it waits.
    pub closed spec fn waiter(&self, id: Seq<char>) -> Option<u64> {
        if exists|i: int| 0 <= i < self.entries@.len() && (#[trigger] self.entries@[i]).0@ == id {
            let i = choose|i: int| 0 <= i < self.entries@.len() && (#[trigger] self.entries@[i]).0@ == id;
            Some(self.entries@[i].1)
        } else {
            None
        }
    }

    pub fn new() -> (r: Self)
        ensures
            r.wf(),
            forall|id: Seq<char>| r.waiter(id) == None::<u64>,
    {
        PendingResponses { entries: Vec::new() }
    }

    fn position(&self, id: &String) -> (r: Option<usize>)
        requires
            self.wf(),
        ensures
            match r {
                Some(i) => i < self.entries@.len() && self.entries@[i as int].0@ == id@,
                None => forall|k: int| 0 <= k < self.entries@.len() ==> (#[trigger] self.entries@[k]).0@ != id@,
            },
    {
        let mut i: usize = 0;
        while i < self.entries.len()
            invariant
                i <= self.entries@.len(),
                forall|k: int| 0 <= k < i ==> (#[trigger] self.entries@[k]).0@ != id@,
            decreases self.entries@.len() - i,
        {
            if self.entries[i].0 == *id {
                return Some(i);
            }
            i = i + 1;
        }
        None
    }

    /// Registers `waiter` for the response to request `id`, in place of any
    /// earlier waiter of that id.
    pub fn insert(&mut self, id: String, waiter: u64)
        requires
            old(self).wf(),
        ensures
            final(self).wf(),
            final(self).waiter(id@) == Some(waiter),
            forall|k: Seq<char>| k != id@ ==> final(self).waiter(k) == old(self).waiter(k),
    {
        let ghost key = id@;
        match self.position(&id) {
            Some(i) => {
                self.entries.set(i, (id, waiter));
                proof {
                    assert(self.entries@[i as int].0@ == key);
                    assert forall|k: Seq<char>| k != key implies self.waiter(k) == old(self).waiter(k) by {
                        if exists|j: int| 0 <= j < self.entries@.len() && (#[trigger] self.entries@[j]).0@ == k {
                            let j = choose|j: int| 0 <= j < self.entries@.len() && (#[trigger] self.entries@[j]).0@ == k;
                            assert(old(self).entries@[j] == self.entries@[j]);
                        }
                        if exists|j: int| 0 <= j < old(self).entries@.len() && (#[trigger] old(self).entries@[j]).0@ == k {
                            let j = choose|j: int| 0 <= j < old(self).entries@.len() && (#[trigger] old(self).entries@[j]).0@ == k;
                            assert(old(self).entries@[j] == self.entries@[j]);
                        }
                    }
                }
            },
            None => {
                self.entries.push((id, waiter));
                proof {
                    let n = old(self).entries@.len() as int;
                    assert(self.entries@[n].0@ == key);
                    assert forall|k: Seq<char>| k != key implies self.waiter(k) == old(self).waiter(k) by {
                        if exists|j: int| 0 <= j < self.entries@.len() && (#[trigger] self.entries@[j]).0@ == k {
                            let j = choose|j: int| 0 <= j < self.entries@.len() && (#[trigger] self.entries@[j]).0@ == k;
                            assert(old(self).entries@[j] == self.entries@[j]);
                        }
                        if exists|j: int| 0 <= j < old(self).entries@.len() && (#[trigger] old(self).entries@[j]).0@ == k {
                            let j = choose|j: int| 0 <= j < old(self).entries@.len() && (#[trigger] old(self).entries@[j]).0@ == k;
                            assert(old(self).entries@[j] == self.entries@[j]);
                        }
                    }
                }
            },
        }
    }

    /// Takes out the waiter of the request `id`, if it waits.
    pub fn remove(&mut self, id: &String) -> (r: Option<u64>)
        requires
            old(self).wf(),
        ensures
            final(self).wf(),
            r == old(self).waiter(id@),
            final(self).waiter(id@) == None::<u64>,
            forall|k: Seq<char>| k != id@ ==> final(self).waiter(k) == old(self).waiter(k),
    {
        match self.position(id) {
            Some(i) => {
                let (_, w) = self.entries.remove(i);
                proof {
                    let o = old(self).entries@;
                    assert forall|k: Seq<char>| k != id@ implies self.waiter(k) == old(self).waiter(k) by {
                        if exists|j: int| 0 <= j < self.entries@.len() && (#[trigger] self.entries@[j]).0@ == k {
                            let j = choose|j: int| 0 <= j < self.entries@.len() && (#[trigger] self.entries@[j]).0@ == k;
                            let j2 = if j < i { j } else { j + 1 };
                            assert(o[j2] == self.entries@[j]);
                        }
                        if exists|j: int| 0 <= j < o.len() && (#[trigger] o[j]).0@ == k {
                            let j = choose|j: int| 0 <= j < o.len() && (#[trigger] o[j]).0@ == k;
                            if j < i {
                                assert(o[j] == self.entries@[j]);
                            } else {
                                assert(j != i);
                                assert(o[j] == self.entries@[j - 1]);
                            }
                        }
                    }
                    if exists|j: int| 0 <= j < self.entries@.len() && (#[trigger] self.entries@[j]).0@ == id@ {
                        let j = choose|j: int| 0 <= j < self.entries@.len() && (#[trigger] self.entries@[j]).0@ == id@;
                        let j2 = if j < i { j } else { j + 1 };
                        assert(o[j2] == self.entries@[j]);
                    }
                    assert forall|a: int, b: int|
                        0 <= a < self.entries@.len() && 0 <= b < self.entries@.len() && (#[trigger] self.entries@[a]).0@
                            == (#[trigger] self.entries@[b]).0@ implies a == b by {
                        let a2 = if a < i { a } else { a + 1 };
                        let b2 = if b < i { b } else { b + 1 };
                        assert(o[a2] == self.entries@[a]);
                        assert(o[b2] == self.entries@[b]);
                    }
                }
                Some(w)
            },
            None => None,
        }
    }
}

} // verus!
