//! Edits, reactions and redactions, applied to one event item, and the
//! queue of relations whose target is not placed yet.

use vstd::prelude::*;

use crate::item::{
    reactions_view, ContentView, EventTimelineItem, EventView, Reaction,
    ReactionView, TimelineItemContent,
};

verus! {

/// What a relation event does to its target.
pub enum RelationKind {
    /// Replace the body of a message (`m.replace`).
    Edit { new_body: String },
    /// Add a reaction with this key (`m.annotation`).
    Reaction { key: String },
    /// Erase the content of the target.
    Redaction,
}

pub enum KindView {
    Edit(Seq<char>),
    Reaction(Seq<char>),
    Redaction,
}

/// A relation event: its own id, its sender, its target, and what it does.
pub struct Relation {
    pub event_id: String,
    pub sender: String,
    pub target: String,
    pub kind: RelationKind,
}

pub struct RelationView {
    pub event_id: Seq<char>,
    pub sender: Seq<char>,
    pub target: Seq<char>,
    pub kind: KindView,
}

impl View for Relation {
    type V = RelationView;

    open spec fn view(&self) -> RelationView {
        RelationView {
            event_id: self.event_id@,
            sender: self.sender@,
            target: self.target@,
            kind: match &self.kind {
                RelationKind::Edit { new_body } => KindView::Edit(new_body@),
                RelationKind::Reaction { key } => KindView::Reaction(key@),
                RelationKind::Redaction => KindView::Redaction,
            },
        }
    }
}

pub open spec fn relations_view(v: Seq<Relation>) -> Seq<RelationView> {
    v.map_values(|r: Relation| r@)
}

pub open spec fn is_redacted(it: EventView) -> bool {
    it.content is RedactedMessage
}

/// The item once redacted: the envelope stays, the content and every
/// reaction go, and it no longer counts as edited.
pub open spec fn redacted(it: EventView) -> EventView {
    EventView {
        content: ContentView::RedactedMessage,
        reactions: Seq::empty(),
        edited: false,
        ..it
    }
}

/// The effect of one relation on its target. An edit applies only to a
/// message of the edit's own sender; nothing applies to a redacted item.
pub open spec fn apply_relation(it: EventView, r: RelationView) -> EventView {
    if is_redacted(it) {
        it
    } else {
        match r.kind {
            KindView::Edit(body) => match it.content {
                ContentView::Message { body: _, in_reply_to } => if it.sender == r.sender {
                    EventView {
                        content: ContentView::Message { body, in_reply_to },
                        edited: true,
                        ..it
                    }
                } else {
                    it
                },
                _ => it,
            },
            KindView::Reaction(key) => EventView {
                reactions: it.reactions.push(
                    ReactionView { key, sender: r.sender, event_id: r.event_id },
                ),
                ..it
            },
            KindView::Redaction => redacted(it),
        }
    }
}

/// The effect of relations applied in order.
pub open spec fn apply_relations(it: EventView, rs: Seq<RelationView>) -> EventView
    decreases rs.len(),
{
    if rs.len() == 0 {
        it
    } else {
        apply_relation(apply_relations(it, rs.drop_last()), rs.last())
    }
}

/// The relations of `rs` that target `target`, in order.
pub open spec fn targeting(rs: Seq<RelationView>, target: Seq<char>) -> Seq<RelationView> {
    rs.filter(|r: RelationView| r.target == target)
}

/// The reactions that remain once the reaction event `id` is redacted.
pub open spec fn without_reaction(rs: Seq<ReactionView>, id: Seq<char>) -> Seq<ReactionView> {
    rs.filter(|r: ReactionView| r.event_id != id)
}

pub open spec fn has_reaction(rs: Seq<ReactionView>, id: Seq<char>) -> bool {
    exists|k: int| 0 <= k < rs.len() && (#[trigger] rs[k]).event_id == id
}

/// Whether the relation changes `it`.
pub open spec fn relation_applies(it: EventView, r: RelationView) -> bool {
    &&& !is_redacted(it)
    &&& match r.kind {
        KindView::Edit(_) => it.content is Message && it.sender == r.sender,
        _ => true,
    }
}

/// The queued relations other than the relation event `id`.
pub open spec fn without_relation(rs: Seq<RelationView>, id: Seq<char>) -> Seq<RelationView> {
    rs.filter(|r: RelationView| r.event_id != id)
}

pub open spec fn has_relation(rs: Seq<RelationView>, id: Seq<char>) -> bool {
    exists|k: int| 0 <= k < rs.len() && (#[trigger] rs[k]).event_id == id
}

/// The queued relations that do not target `target`.
pub open spec fn not_targeting(rs: Seq<RelationView>, target: Seq<char>) -> Seq<RelationView> {
    rs.filter(|r: RelationView| r.target != target)
}

/// Whether the relation changes `it`.
pub fn applies_to(it: &EventTimelineItem, r: &Relation) -> (b: bool)
    ensures
        b == relation_applies(it@, r@),
{
    if let TimelineItemContent::RedactedMessage = it.content {
        return false;
    }
    match &r.kind {
        RelationKind::Edit { .. } => {
            if let TimelineItemContent::Message { .. } = it.content {
                it.sender == r.sender
            } else {
                false
            }
        },
        _ => true,
    }
}

/// Splits `rs` by a test on each relation: those that pass, those that do
/// not, both in order.
pub fn split_relations(rs: Vec<Relation>, id: &String, by_target: bool) -> (r: (
    Vec<Relation>,
    Vec<Relation>,
))
    ensures
        by_target ==> relations_view(r.0@) == targeting(relations_view(rs@), id@)
            && relations_view(r.1@) == not_targeting(relations_view(rs@), id@),
        !by_target ==> relations_view(r.1@) == without_relation(relations_view(rs@), id@)
            && (r.0@.len() > 0 <==> has_relation(relations_view(rs@), id@)),
{
    let mut hit: Vec<Relation> = Vec::new();
    let mut rest: Vec<Relation> = Vec::new();
    let mut i: usize = 0;
    let ghost all = relations_view(rs@);
    while i < rs.len()
        invariant
            i <= rs@.len(),
            all == relations_view(rs@),
            by_target ==> relations_view(hit@) == targeting(all.subrange(0, i as int), id@)
                && relations_view(rest@) == not_targeting(all.subrange(0, i as int), id@),
            !by_target ==> relations_view(rest@) == without_relation(all.subrange(0, i as int), id@)
                && (hit@.len() > 0 <==> has_relation(all.subrange(0, i as int), id@)),
        decreases rs@.len() - i,
    {
        let ghost prefix = all.subrange(0, i as int);
        let ghost x = all[i as int];
        proof {
            assert(all.subrange(0, i + 1) =~= prefix.push(x));
            reveal(Seq::filter);
            assert(prefix.push(x).drop_last() =~= prefix);
        }
        let pass = if by_target {
            rs[i].target == *id
        } else {
            rs[i].event_id == *id
        };
        let ghost h0 = hit@;
        let ghost r0 = rest@;
        if pass {
            hit.push(rs[i].duplicate());
            assert(relations_view(hit@) =~= relations_view(h0).push(x));
        } else {
            rest.push(rs[i].duplicate());
            assert(relations_view(rest@) =~= relations_view(r0).push(x));
        }
        proof {
            if !by_target {
                if pass {
                    assert(prefix.push(x)[i as int] == x);
                } else if hit@.len() > 0 {
                    let k = choose|k: int| 0 <= k < prefix.len() && (#[trigger] prefix[k]).event_id == id@;
                    assert(prefix.push(x)[k] == prefix[k]);
                } else {
                    assert forall|k: int| 0 <= k < prefix.push(x).len() implies (#[trigger] prefix.push(
                        x,
                    )[k]).event_id != id@ by {
                        if k < prefix.len() {
                            assert(prefix.push(x)[k] == prefix[k]);
                        }
                    }
                }
            }
        }
        i = i + 1;
    }
    assert(all.subrange(0, rs@.len() as int) =~= all);
    (hit, rest)
}

impl Relation {
    pub fn duplicate(&self) -> (r: Self)
        ensures
            r@ == self@,
    {
        let kind = match &self.kind {
            RelationKind::Edit { new_body } => RelationKind::Edit { new_body: new_body.clone() },
            RelationKind::Reaction { key } => RelationKind::Reaction { key: key.clone() },
            RelationKind::Redaction => RelationKind::Redaction,
        };
        Relation {
            event_id: self.event_id.clone(),
            sender: self.sender.clone(),
            target: self.target.clone(),
            kind,
        }
    }
}

/// Applies one relation to `it`.
pub fn apply_to(it: EventTimelineItem, r: &Relation) -> (out: EventTimelineItem)
    ensures
        out@ == apply_relation(it@, r@),
{
    if let TimelineItemContent::RedactedMessage = it.content {
        return it;
    }
    match &r.kind {
        RelationKind::Edit { new_body } => {
            if it.sender != r.sender {
                return it;
            }
            let mut it = it;
            match it.content {
                TimelineItemContent::Message { body: _, in_reply_to } => {
                    it.content = TimelineItemContent::Message { body: new_body.clone(), in_reply_to };
                    it.edited = true;
                    it
                },
                other => {
                    it.content = other;
                    it
                },
            }
        },
        RelationKind::Reaction { key } => {
            let mut it = it;
            let ghost before = it.reactions@;
            it.reactions.push(
                Reaction { key: key.clone(), sender: r.sender.clone(), event_id: r.event_id.clone() },
            );
            assert(reactions_view(it.reactions@) =~= reactions_view(before).push(
                ReactionView { key: key@, sender: r.sender@, event_id: r.event_id@ },
            ));
            it
        },
        RelationKind::Redaction => {
            let mut it = it;
            it.content = TimelineItemContent::RedactedMessage;
            it.reactions = Vec::new();
            it.edited = false;
            assert(reactions_view(it.reactions@) =~= Seq::<ReactionView>::empty());
            it
        },
    }
}

/// Whether one of the reactions is the reaction event `id`.
pub fn find_reaction(rs: &Vec<Reaction>, id: &String) -> (r: bool)
    ensures
        r == has_reaction(reactions_view(rs@), id@),
{
    let mut i: usize = 0;
    while i < rs.len()
        invariant
            i <= rs@.len(),
            forall|k: int| 0 <= k < i ==> (#[trigger] rs@[k]).event_id@ != id@,
        decreases rs@.len() - i,
    {
        if rs[i].event_id == *id {
            assert(reactions_view(rs@)[i as int].event_id == id@);
            return true;
        }
        i = i + 1;
    }
    assert forall|k: int| 0 <= k < rs@.len() implies (#[trigger] reactions_view(rs@)[k]).event_id
        != id@ by {
        assert(rs@[k].event_id@ != id@);
    }
    false
}

/// The reactions without the reaction event `id`, in order.
pub fn remove_reaction(rs: &Vec<Reaction>, id: &String) -> (r: Vec<Reaction>)
    ensures
        reactions_view(r@) == without_reaction(reactions_view(rs@), id@),
{
    let mut out: Vec<Reaction> = Vec::new();
    let mut i: usize = 0;
    while i < rs.len()
        invariant
            i <= rs@.len(),
            reactions_view(out@) == without_reaction(reactions_view(rs@.subrange(0, i as int)), id@),
        decreases rs@.len() - i,
    {
        let ghost prefix = rs@.subrange(0, i as int);
        proof {
            assert(rs@.subrange(0, i + 1) == prefix.push(rs@[i as int]));
            assert(reactions_view(prefix.push(rs@[i as int])) =~= reactions_view(prefix).push(
                rs@[i as int]@,
            ));
            reveal(Seq::filter);
            assert(reactions_view(prefix).push(rs@[i as int]@).drop_last() =~= reactions_view(
                prefix,
            ));
        }
        if rs[i].event_id != *id {
            let ghost before = out@;
            out.push(rs[i].duplicate());
            assert(reactions_view(out@) =~= reactions_view(before).push(rs@[i as int]@));
        }
        i = i + 1;
    }
    assert(rs@.subrange(0, rs@.len() as int) == rs@);
    out
}

/// Relations never change an item's identity, sender or timestamp.
pub proof fn lemma_apply_relations_keeps(it: EventView, rs: Seq<RelationView>)
    ensures
        apply_relations(it, rs).event_id == it.event_id,
        apply_relations(it, rs).local_id == it.local_id,
        apply_relations(it, rs).sender == it.sender,
        apply_relations(it, rs).timestamp == it.timestamp,
    decreases rs.len(),
{
    if rs.len() > 0 {
        lemma_apply_relations_keeps(it, rs.drop_last());
    }
}

/// Idempotent redaction: an item already redacted is left as it is by a
/// redaction, and redacting twice is redacting once.
pub proof fn lemma_redaction_idempotent(it: EventView, r: RelationView)
    requires
        r.kind is Redaction,
    ensures
        is_redacted(it) ==> !relation_applies(it, r) && apply_relation(it, r) == it,
        !relation_applies(apply_relation(it, r), r),
        apply_relation(apply_relation(it, r), r) == apply_relation(it, r),
{
}

/// Applying relations up to some point and then the rest is applying them
/// all: a target that arrives after some of its relations, which wait in the
/// queue, ends as if it had arrived first.
pub proof fn lemma_target_arrival_point(it: EventView, rs: Seq<RelationView>, k: int)
    requires
        0 <= k <= rs.len(),
    ensures
        apply_relations(apply_relations(it, rs.subrange(0, k)), rs.subrange(k, rs.len() as int))
            == apply_relations(it, rs),
    decreases rs.len() - k,
{
    if k == rs.len() {
        assert(rs.subrange(0, k) =~= rs);
        assert(rs.subrange(k, rs.len() as int) =~= Seq::<RelationView>::empty());
    } else {
        lemma_apply_relations_concat(it, rs.subrange(0, k), rs.subrange(k, rs.len() as int));
        assert(rs.subrange(0, k) + rs.subrange(k, rs.len() as int) =~= rs);
    }
}

pub proof fn lemma_apply_relations_concat(
    it: EventView,
    a: Seq<RelationView>,
    b: Seq<RelationView>,
)
    ensures
        apply_relations(it, a + b) == apply_relations(apply_relations(it, a), b),
    decreases b.len(),
{
    if b.len() == 0 {
        assert(a + b =~= a);
    } else {
        assert((a + b).drop_last() =~= a + b.drop_last());
        lemma_apply_relations_concat(it, a, b.drop_last());
    }
}

/// Order independence: one edit, one reaction and one redaction of the same
/// target give the same item in whatever order they are applied.
pub proof fn lemma_relations_order_independent(
    it: EventView,
    edit: RelationView,
    reaction: RelationView,
    redaction: RelationView,
    order: Seq<RelationView>,
)
    requires
        edit.kind is Edit,
        reaction.kind is Reaction,
        redaction.kind is Redaction,
        order == seq![edit, reaction, redaction] || order == seq![edit, redaction, reaction]
            || order == seq![reaction, edit, redaction] || order == seq![reaction, redaction, edit]
            || order == seq![redaction, edit, reaction] || order == seq![redaction, reaction, edit],
    ensures
        apply_relations(it, order) == apply_relations(it, seq![edit, reaction, redaction]),
{
    let canonical = seq![edit, reaction, redaction];
    assert(canonical.drop_last().drop_last().drop_last() =~= Seq::<RelationView>::empty());
    assert(order.drop_last().drop_last().drop_last() =~= Seq::<RelationView>::empty());
    assert(canonical.drop_last().drop_last().last() == edit);
    assert(canonical.drop_last().last() == reaction);
    assert(order.len() == 3);
    reveal_with_fuel(apply_relations, 4);
}

} // verus!
