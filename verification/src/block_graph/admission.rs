//! Taking in headers and blocks.

use crate::block::{
    Block, BlockHeader, BlockId, BlockView, compute_operations_root, header_id, HeaderView,
    Operation, operations_root,
};
use crate::hash::blake3_digest;
use crate::selector::RandomSelector;
use crate::signature::PublicKey;
use crate::slot::Slot;
use super::model::{
    Act, actives_respect_finals, Admission, allowed, at_rest, BlockState, cliques_ok,
    cliques_with, count_waiting, member_lists,
    direct_conflict, endorsements_ok, Entry, entry_verdict, finals_agree, grown, holds, ids_unique,
    in_ancestry, in_ancestry_below, in_lineage, incompatible, is_active, is_settled,
    lineages_closed, Link, link_of, missing, named_by, named_by_final, named_in, parent_fault,
    parent_pending,
    parents_review, parents_settled, position, queue_kept, RejectReason, Review, same_standing,
    step_allowed, structure_fault, waiting_rest, wanted,
};
use super::links::{
    check_endorsements, lineage_holds, lineages_clash, links_conflict, member_of,
};
use super::lemmas::{
    lemma_queue_kept_step,
    lemma_activation, lemma_agree_kept, lemma_cliques_kept, lemma_count_less, lemma_finality_kept,
    lemma_grown, lemma_incompatible_kept, lemma_latest_kept, lemma_others_rest, lemma_position,
    lemma_queue_ok_kept, lemma_queue_push, lemma_review_kept, lemma_unsettled_change,
};
use super::calm::{
    announced, calm, content_kept, dragged, felled, framed, hushed, lemma_announced_twice,
    lemma_calm, lemma_calm_waits, lemma_drop_quiet, lemma_dropped, lemma_felled_twice,
    lemma_hushed_twice, lemma_lost, lemma_outlived_from, lemma_outlived_widen,
    lemma_queue_fresh_step, lemma_quiet_hushed, lemma_seated, lemma_seated_announced,
    lemma_seated_queue, lemma_unrest_stays, lemma_waned_twice, lost_to_final, one_changed,
    outlived, queue_fresh, quiet, same_while, seated, stamped, steady_kept, struck, untouched,
    waned, waned_but,
};
use super::cover::{cliques_cover, lemma_cover_join, lemma_cover_kept};
use super::fall::{
    fell, lemma_dropped_here, lemma_fell_twice, lemma_seated_fell, lemma_unseated_fell,
};
use super::rise::{
    lemma_rooted_change, lemma_rose_twice, lemma_seated_rose, lineage_kept, rose,
};
use super::BlockGraph;
use vstd::prelude::*;

verus! {

impl BlockGraph {
    /// Whether the creator of `h` has signed another block for the same
    /// slot: one that waits, is active or is final.
    pub open spec fn signed_twice(&self, id: BlockId, h: HeaderView) -> bool {
        exists|j: int|
            0 <= j < self.entries().len() && (#[trigger] self.entries()[j]).id != id && (
            self.entries()[j].state == BlockState::WaitingForDeps || self.entries()[j].settled())
                && self.entries()[j].head().slot == h.slot && self.entries()[j].head().creator
                == h.creator
    }

    /// What the rules of the chain hold against a header of sound
    /// structure, `drawn` being the index drawn for its slot: the draw that
    /// names no node, the creator that was not drawn, the slot that is not
    /// after the latest final block of its thread or the hash that a final
    /// block names as a parent, whose block was final once, and the second
    /// block of a creator for a slot.
    pub open spec fn policy_fault(&self, id: BlockId, h: HeaderView, drawn: nat) -> Option<
        RejectReason,
    > {
        if drawn >= self.nodes().len() {
            Some(RejectReason::UnknownDraw)
        } else if self.nodes()[drawn as int] != h.creator {
            Some(RejectReason::WrongCreator)
        } else if h.slot.period <= self.latest_final()[h.slot.thread as int].slot.period
            || named_by_final(self.entries(), id) {
            Some(RejectReason::Stale)
        } else if self.signed_twice(id, h) {
            Some(RejectReason::Attack)
        } else {
            None
        }
    }

    /// Whether a final block names `id` as a parent.
    pub(super) fn is_named_by_final(&self, id: &BlockId) -> (yes: bool)
        requires
            forall|a: int|
                0 <= a < self.entries@.len() ==> (#[trigger] self.entries@[a]).well_formed(
                    self.thread_count,
                ),
        ensures
            yes == named_by_final(self.entries@, *id),
    {
        let mut x: usize = 0;
        while x < self.entries.len()
            invariant
                x <= self.entries@.len(),
                forall|a: int|
                    0 <= a < self.entries@.len() ==> (#[trigger] self.entries@[a]).well_formed(
                        self.thread_count,
                    ),
                forall|a: int|
                    0 <= a < x ==> !((#[trigger] self.entries@[a]).state == BlockState::Final
                        && holds(self.entries@[a].head().parents, *id)),
            decreases self.entries@.len() - x,
        {
            let entry = &self.entries[x];
            if entry.state == BlockState::Final {
                match &entry.header {
                    Some(header) => {
                        if member_of(&header.parents, id) {
                            return true;
                        }
                    },
                    None => {
                        assert(self.entries@[x as int].well_formed(self.thread_count));
                    },
                }
            }
            x += 1;
        }
        false
    }

    /// What the rules of the chain hold against `header`.
    pub fn check_policy(&self, id: &BlockId, header: &BlockHeader, drawn: u32) -> (fault: Option<
        RejectReason,
    >)
        requires
            self.wf(),
            header@.slot.thread < self.thread_count(),
        ensures
            fault == self.policy_fault(*id, header@, drawn as nat),
    {
        if drawn as usize >= self.nodes.len() {
            return Some(RejectReason::UnknownDraw);
        }
        if !self.nodes[drawn as usize].same(&header.creator) {
            return Some(RejectReason::WrongCreator);
        }
        if header.slot.period <= self.latest_final[header.slot.thread as usize].slot.period
            || self.is_named_by_final(id) {
            return Some(RejectReason::Stale);
        }
        let mut j: usize = 0;
        while j < self.entries.len()
            invariant
                j <= self.entries@.len(),
                self.policy_fault(*id, header@, drawn as nat) == if self.signed_twice(
                    *id,
                    header@,
                ) {
                    Some(RejectReason::Attack)
                } else {
                    None
                },
                forall|a: int|
                    0 <= a < self.entries@.len() ==> (#[trigger] self.entries@[a]).well_formed(
                        self.thread_count,
                    ),
                forall|a: int|
                    0 <= a < j ==> !((#[trigger] self.entries()[a]).id != *id && (
                    self.entries()[a].state == BlockState::WaitingForDeps
                        || self.entries()[a].settled()) && self.entries()[a].head().slot
                        == header@.slot && self.entries()[a].head().creator == header@.creator),
            decreases self.entries@.len() - j,
        {
            let entry = &self.entries[j];
            assert(entry.well_formed(self.thread_count));
            if !entry.id.same(id) && (entry.state == BlockState::WaitingForDeps || entry.state
                == BlockState::Active || entry.state == BlockState::Final) {
                match &entry.header {
                    Some(known) => {
                        if known.slot == header.slot && known.creator.same(&header.creator) {
                            assert(self.entries()[j as int].id != *id
                                && self.entries()[j as int].head().slot == header@.slot
                                && self.entries()[j as int].head().creator == header@.creator);
                            assert(self.signed_twice(*id, header@));
                            return Some(RejectReason::Attack);
                        }
                    },
                    None => {},
                }
            }
            j += 1;
        }
        assert(!self.signed_twice(*id, header@));
        None
    }

    /// What the parent of `header` in thread `k` allows.
    pub(super) fn review_parent(&self, header: &BlockHeader, k: usize) -> (review: Review)
        requires
            ids_unique(self.entries@),
            forall|a: int|
                0 <= a < self.entries@.len() ==> (#[trigger] self.entries@[a]).well_formed(
                    self.thread_count,
                ),
            k < header.parents@.len(),
        ensures
            (review == Review::Invalid) == parent_fault(self.entries@, header@, k as int),
            (review == Review::Pending) == parent_pending(self.entries@, header@, k as int),
    {
        match self.find(&header.parents[k]) {
            None => Review::Pending,
            Some(j) => {
                proof {
                    lemma_position(self.entries@, j as int);
                }
                let entry = &self.entries[j];
                assert(entry.well_formed(self.thread_count));
                match entry.state {
                    BlockState::Discarded => Review::Invalid,
                    BlockState::Incoming | BlockState::WaitingForDeps => Review::Pending,
                    BlockState::Active | BlockState::Final => {
                        match &entry.header {
                            Some(known) => {
                                if known.slot.thread as usize != k || !known.slot.is_before(
                                    &header.slot,
                                ) {
                                    Review::Invalid
                                } else {
                                    Review::Ready
                                }
                            },
                            None => Review::Ready,
                        }
                    },
                }
            },
        }
    }

    /// What the parents of `header` allow.
    pub(super) fn review(&self, header: &BlockHeader) -> (review: Review)
        requires
            ids_unique(self.entries@),
            forall|a: int|
                0 <= a < self.entries@.len() ==> (#[trigger] self.entries@[a]).well_formed(
                    self.thread_count,
                ),
        ensures
            review == parents_review(self.entries@, header@),
    {
        let mut pending: bool = false;
        let mut k: usize = 0;
        while k < header.parents.len()
            invariant
                k <= header.parents@.len(),
                ids_unique(self.entries@),
                forall|a: int|
                    0 <= a < self.entries@.len() ==> (#[trigger] self.entries@[a]).well_formed(
                        self.thread_count,
                    ),
                forall|a: int| 0 <= a < k ==> !parent_fault(self.entries@, header@, a),
                pending == exists|a: int| 0 <= a < k && parent_pending(self.entries@, header@, a),
            decreases header.parents@.len() - k,
        {
            let verdict = self.review_parent(header, k);
            match verdict {
                Review::Invalid => {
                    return Review::Invalid;
                },
                Review::Pending => {
                    pending = true;
                },
                Review::Ready => {},
            }
            k += 1;
        }
        if pending {
            Review::Pending
        } else {
            Review::Ready
        }
    }

    /// Puts `entry`, which is not settled, in the place of the placeholder
    /// at `found`, or behind the other entries.
    pub(super) fn stash(&mut self, found: Option<usize>, entry: Entry) -> (i: usize)
        requires
            old(self).wf_core(),
            entry.well_formed(old(self).thread_count),
            !entry.settled(),
            entry.state == BlockState::WaitingForDeps ==> !named_by_final(
                old(self).entries@,
                entry.id,
            ),
            match found {
                Some(at) => at < old(self).entries@.len() && old(self).entries@[at as int].id
                    == entry.id && !old(self).entries@[at as int].settled(),
                None => forall|j: int|
                    0 <= j < old(self).entries@.len() ==> old(self).entries@[j].id != entry.id,
            },
        ensures
            final(self).wf_core(),
            final(self).same_frame(old(self)),
            old(self).finality_at_rest() ==> final(self).finality_at_rest(),
            found matches Some(at) ==> i == at && final(self).entries@ == old(self).entries@.update(
                at as int,
                entry,
            ),
            found is None ==> i == old(self).entries@.len() && final(self).entries@ == old(
                self,
            ).entries@.push(entry),
    {
        let ghost before = self.entries@;
        let i = match found {
            Some(at) => {
                self.entries[at] = entry;
                at
            },
            None => {
                self.entries.push(entry);
                self.entries.len() - 1
            },
        };
        proof {
            lemma_unsettled_change(before, self.entries@);
            lemma_rooted_change(before, self.entries@);
            self.lemma_frame_kept(old(self));
            lemma_cliques_kept(before, self.entries@, self.cliques@);
            lemma_agree_kept(before, self.entries@, self.cliques@);
            if old(self).finality_at_rest() {
                lemma_finality_kept(before, self.entries@, self.cliques@, self.delta_f0);
                lemma_cover_kept(before, self.entries@, self.cliques@);
            }
        }
        i
    }

    /// Marks the unsettled entry `i` as discarded in period `stamp`.
    pub(super) fn discard(&mut self, i: usize, stamp: u64)
        requires
            old(self).wf_core(),
            i < old(self).entries@.len(),
            !old(self).entries@[i as int].settled(),
        ensures
            final(self).wf_core(),
            final(self).same_frame(old(self)),
            old(self).finality_at_rest() ==> final(self).finality_at_rest(),
            final(self).entries@.len() == old(self).entries@.len(),
            forall|j: int|
                0 <= j < old(self).entries@.len() && j != i ==> #[trigger] final(self).entries@[j]
                    == old(self).entries@[j],
            final(self).entries@[i as int].id == old(self).entries@[i as int].id,
            final(self).entries@[i as int].state == BlockState::Discarded,
            final(self).entries@[i as int].header == old(self).entries@[i as int].header,
            final(self).entries@[i as int].operations == old(self).entries@[i as int].operations,
            final(self).entries@[i as int].stamp == stamp,
    {
        let ghost before = self.entries@;
        self.entries[i].state = BlockState::Discarded;
        self.entries[i].stamp = stamp;
        proof {
            lemma_unsettled_change(before, self.entries@);
            lemma_rooted_change(before, self.entries@);
            self.lemma_frame_kept(old(self));
            lemma_cliques_kept(before, self.entries@, self.cliques@);
            lemma_agree_kept(before, self.entries@, self.cliques@);
            if old(self).finality_at_rest() {
                lemma_finality_kept(before, self.entries@, self.cliques@, self.delta_f0);
                lemma_cover_kept(before, self.entries@, self.cliques@);
            }
        }
    }

    /// Makes the waiting entry `i` active with `lineage`, and queues it for
    /// propagation.
    pub(super) fn activate(&mut self, i: usize, lineage: Vec<Link>)
        requires
            old(self).wf_core(),
            i < old(self).entries@.len(),
            old(self).entries@[i as int].state == BlockState::WaitingForDeps,
            old(self).entries@[i as int].operations is Some,
            parents_review(old(self).entries@, old(self).entries@[i as int].head())
                == Review::Ready,
            !incompatible(
                old(self).entries@,
                old(self).entries@[i as int].id,
                old(self).entries@[i as int].head(),
            ),
            lineage@.len() >= 1,
            lineage@[0] == link_of(
                old(self).entries@[i as int].id,
                old(self).entries@[i as int].head(),
            ),
            forall|l: Link|
                in_lineage(lineage@, l) <==> in_ancestry(
                    old(self).entries@,
                    old(self).entries@[i as int].id,
                    old(self).entries@[i as int].head(),
                    l,
                ),
        ensures
            final(self).wf_core(),
            final(self).thread_count() == old(self).thread_count(),
            final(self).endorsement_count() == old(self).endorsement_count(),
            final(self).nodes() == old(self).nodes(),
            final(self).settings() == old(self).settings(),
            final(self).latest_final() == old(self).latest_final(),
            final(self).attack_attempts() == old(self).attack_attempts(),
            final(self).to_propagate() == old(self).to_propagate().push(
                old(self).entries@[i as int].id,
            ),
            final(self).cliques() == old(self).cliques(),
            final(self).entries@.len() == old(self).entries@.len(),
            forall|j: int|
                0 <= j < old(self).entries@.len() && j != i ==> #[trigger] final(self).entries@[j]
                    == old(self).entries@[j],
            final(self).entries@[i as int].id == old(self).entries@[i as int].id,
            final(self).entries@[i as int].header == old(self).entries@[i as int].header,
            final(self).entries@[i as int].operations == old(self).entries@[i as int].operations,
            final(self).entries@[i as int].state == BlockState::Active,
            final(self).entries@[i as int].lineage@ == lineage@,
    {
        let ghost before = self.entries@;
        let id = self.entries[i].id;
        self.entries[i].state = BlockState::Active;
        self.entries[i].lineage = lineage;
        self.to_propagate.push(id);
        proof {
            let after = self.entries@;
            assert(before[i as int].well_formed(self.thread_count));
            assert forall|j: int|
                0 <= j < before.len() && (#[trigger] before[j]).state
                    == BlockState::Final implies before[j].lineage@.len() >= 1 by {
                assert(before[j].well_formed(self.thread_count));
            }
            assert(ids_unique(after) && parents_settled(after) && finals_agree(after)
                && actives_respect_finals(after) && lineages_closed(after) && is_settled(
                after,
                id,
            ) && forall|x: BlockId| is_settled(before, x) ==> is_settled(after, x)) by {
                lemma_activation(before, after, i as int);
            }
            lemma_rooted_change(before, after);
            assert forall|j: int| 0 <= j < after.len() implies (#[trigger] after[j]).well_formed(
                self.thread_count,
            ) by {
                if j != i {
                    assert(after[j] == before[j]);
                    assert(before[j].well_formed(self.thread_count));
                }
            }
            lemma_latest_kept(before, after, self.latest_final@, self.thread_count);
            lemma_queue_ok_kept(before, after, old(self).to_propagate@);
            lemma_queue_push(after, old(self).to_propagate@, id);
            lemma_cliques_kept(before, after, self.cliques@);
            lemma_agree_kept(before, after, self.cliques@);
        }
    }

    /// Adds an incoming entry for each parent of `header` that the graph
    /// does not know.
    pub(super) fn add_placeholders(&mut self, header: &BlockHeader)
        requires
            old(self).wf_core(),
        ensures
            final(self).wf_core(),
            final(self).same_frame(old(self)),
            old(self).finality_at_rest() ==> final(self).finality_at_rest(),
            old(self).entries@.len() <= final(self).entries@.len(),
            forall|j: int|
                0 <= j < old(self).entries@.len() ==> #[trigger] final(self).entries@[j] == old(
                    self,
                ).entries@[j],
            forall|j: int|
                old(self).entries@.len() <= j < final(self).entries@.len() ==> (
                #[trigger] final(self).entries@[j]).state == BlockState::Incoming,
            forall|k: int|
                0 <= k < header@.parents.len() ==> position(
                    final(self).entries@,
                    #[trigger] header@.parents[k],
                ) is Some,
    {
        let mut k: usize = 0;
        while k < header.parents.len()
            invariant
                k <= header.parents@.len(),
                self.wf_core(),
                self.same_frame(old(self)),
                old(self).finality_at_rest() ==> self.finality_at_rest(),
                old(self).entries@.len() <= self.entries@.len(),
                forall|j: int|
                    0 <= j < old(self).entries@.len() ==> #[trigger] self.entries@[j] == old(
                        self,
                    ).entries@[j],
                forall|j: int|
                    old(self).entries@.len() <= j < self.entries@.len() ==> (
                    #[trigger] self.entries@[j]).state == BlockState::Incoming,
                forall|a: int|
                    0 <= a < k ==> position(self.entries@, #[trigger] header@.parents[a]) is Some,
            decreases header.parents@.len() - k,
        {
            let parent: BlockId = header.parents[k];
            let ghost before = self.entries@;
            match self.find(&parent) {
                Some(j) => {
                    assert(self.entries@[j as int].id == parent);
                },
                None => {
                    let at = self.stash(
                        None,
                        Entry {
                            id: parent,
                            state: BlockState::Incoming,
                            header: None,
                            operations: None,
                            lineage: Vec::new(),
                            stamp: 0,
                        },
                    );
                    assert(self.entries@[at as int].id == parent);
                },
            }
            proof {
                assert forall|a: int| 0 <= a < k + 1 implies position(
                    self.entries@,
                    #[trigger] header@.parents[a],
                ) is Some by {
                    if a < k {
                        let j = position(before, header@.parents[a])->0;
                        assert(self.entries@[j].id == header@.parents[a]);
                    }
                }
            }
            k += 1;
        }
    }

    /// Makes the waiting entry `i` active with `lineage`, puts it into the
    /// cliques, and makes final what is then to become final.
    pub(super) fn raise(&mut self, i: usize, lineage: Vec<Link>, stamp: u64)
        requires
            old(self).wf_core(),
            cliques_cover(old(self).entries@, old(self).cliques@),
            i < old(self).entries@.len(),
            old(self).entries@[i as int].state == BlockState::WaitingForDeps,
            old(self).entries@[i as int].operations is Some,
            parents_review(old(self).entries@, old(self).entries@[i as int].head())
                == Review::Ready,
            !incompatible(
                old(self).entries@,
                old(self).entries@[i as int].id,
                old(self).entries@[i as int].head(),
            ),
            lineage@.len() >= 1,
            lineage@[0] == link_of(
                old(self).entries@[i as int].id,
                old(self).entries@[i as int].head(),
            ),
            forall|l: Link|
                in_lineage(lineage@, l) <==> in_ancestry(
                    old(self).entries@,
                    old(self).entries@[i as int].id,
                    old(self).entries@[i as int].head(),
                    l,
                ),
        ensures
            final(self).wf_core(),
            final(self).finality_at_rest(),
            final(self).same_settings(old(self)),
            final(self).attack_attempts() == old(self).attack_attempts(),
            final(self).entries@.len() == old(self).entries@.len(),
            grown(old(self).entries@, final(self).entries@),
            final(self).entries@[i as int].settled() || final(self).entries@[i as int].state
                == BlockState::Discarded,
            queue_kept(final(self).entries@, old(self).to_propagate@, final(self).to_propagate@),
            final(self).entries@[i as int].settled() ==> holds(
                final(self).to_propagate@,
                old(self).entries@[i as int].id,
            ),
            forall|j: int|
                0 <= j < old(self).entries@.len() && j != i && old(self).entries@[j].state
                    != BlockState::Active ==> #[trigger] final(self).entries@[j] == old(
                    self,
                ).entries@[j],
            queue_fresh(old(self).entries@, old(self).to_propagate@, final(self).to_propagate@),
            content_kept(old(self).entries@, final(self).entries@),
            felled(old(self).entries@, final(self).entries@),
            same_while(old(self).entries@, final(self).entries@),
            rose(old(self).entries@, final(self).entries@, old(self).delta_f0),
            lineage_kept(old(self).entries@, final(self).entries@),
            waned(old(self).entries@, final(self).entries@),
            fell(old(self).entries@, final(self).entries@),
            announced(old(self).entries@, final(self).entries@, final(self).to_propagate@),
            final(self).entries@[i as int].state == BlockState::Active && (forall|j: int|
                0 <= j < old(self).entries@.len() && j != i ==> #[trigger] final(self).entries@[j]
                    == old(self).entries@[j]) ==> final(self).joined(
                old(self),
                old(self).entries@[i as int].id,
            ),
            final(self).entries@[i as int].state == BlockState::Discarded ==> outlived(
                old(self).entries@,
                final(self).entries@,
                old(self).entries@[i as int].id,
                lineage@,
            ),
            final(self).entries@[i as int].state == BlockState::Active ==> {
                final(self).entries@[i as int].lineage@ == lineage@
            },
    {
        proof {
            reveal(cliques_ok);
            assert forall|c: int| 0 <= c < self.cliques@.len() implies !holds(
                (#[trigger] self.cliques@[c]).members@,
                self.entries@[i as int].id,
            ) by {
                if holds(self.cliques@[c].members@, self.entries@[i as int].id) {
                    let m = choose|m: int|
                        0 <= m < self.cliques@[c].members@.len()
                            && #[trigger] self.cliques@[c].members@[m]
                            == self.entries@[i as int].id;
                    assert(is_active(self.entries@, self.cliques@[c].members@[m]));
                    let w = choose|w: int|
                        0 <= w < self.entries@.len() && #[trigger] self.entries@[w].id
                            == self.entries@[i as int].id && self.entries@[w].state
                            == BlockState::Active;
                    lemma_position(self.entries@, w);
                    lemma_position(self.entries@, i as int);
                }
            }
        }
        self.activate(i, lineage);
        let ghost middle = self.entries@;
        let ghost queued = self.to_propagate@;
        self.join_cliques(i);
        let ghost met = *self;
        proof {
            lemma_cover_join(
                old(self).entries@,
                middle,
                old(self).cliques@,
                self.cliques@,
                i as int,
            );
        }
        self.finalize_all(stamp);
        proof {
            if self.entries@[i as int].state == BlockState::Active && (forall|j: int|
                0 <= j < old(self).entries@.len() && j != i ==> #[trigger] self.entries@[j]
                    == old(self).entries@[j]) {
                assert(self.entries@ =~= middle) by {
                    assert forall|j: int| 0 <= j < middle.len() implies self.entries@[j]
                        == middle[j] by {
                        if j != i {
                            assert(self.entries@[j] == old(self).entries@[j]);
                        }
                    }
                }
                assert(*self == met);
            }
            let id = old(self).entries@[i as int].id;
            assert(queued[queued.len() - 1] == id);
            assert(holds(queued, id));
            assert forall|x: BlockId| #[trigger] holds(self.to_propagate@, x) implies holds(
                old(self).to_propagate@,
                x,
            ) || !is_settled(old(self).entries@, x) by {
                assert(holds(queued, x));
                let q = choose|q: int| 0 <= q < queued.len() && #[trigger] queued[q] == x;
                if q < queued.len() - 1 {
                    assert(old(self).to_propagate@[q] == x);
                } else if is_settled(old(self).entries@, x) {
                    let w = choose|w: int|
                        0 <= w < old(self).entries@.len() && #[trigger] old(self).entries@[w].id
                            == x && old(self).entries@[w].settled();
                    lemma_position(old(self).entries@, w);
                    lemma_position(old(self).entries@, i as int);
                }
            }
            assert forall|x: BlockId|
                holds(old(self).to_propagate@, x) && is_settled(
                    self.entries@,
                    x,
                ) implies #[trigger] holds(self.to_propagate@, x) by {
                let q = choose|q: int|
                    0 <= q < old(self).to_propagate@.len() && #[trigger] old(self).to_propagate@[q]
                        == x;
                assert(queued[q] == x);
                assert(holds(queued, x));
            }
            if self.entries@[i as int].settled() {
                assert(self.entries@[i as int].id == middle[i as int].id);
                assert(is_settled(self.entries@, id));
            }
            assert(grown(old(self).entries@, middle)) by {
                assert forall|j: int| 0 <= j < old(self).entries@.len() implies (
                #[trigger] middle[j]).id == old(self).entries@[j].id && step_allowed(
                    old(self).entries@[j].state,
                    middle[j].state,
                ) by {
                    if j != i {
                        assert(middle[j] == old(self).entries@[j]);
                    }
                }
            }
            lemma_rose_twice(old(self).entries@, middle, self.entries@, self.delta_f0);
            lemma_felled_twice(old(self).entries@, middle, self.entries@);
            lemma_grown(old(self).entries@, middle, self.entries@);
            lemma_unrest_stays(old(self).entries@, self.entries@, old(self).entries@[i as int]);
            assert(self.entries@[i as int].id == middle[i as int].id && step_allowed(
                middle[i as int].state,
                self.entries@[i as int].state,
            ));
            if self.entries@[i as int].state == BlockState::Discarded {
                assert(middle[i as int].state == BlockState::Active);
                assert(outlived(middle, self.entries@, id, middle[i as int].lineage@));
                lemma_outlived_from(old(self).entries@, middle, self.entries@, i as int, lineage@);
                assert(self.entries@[i as int].lineage == middle[i as int].lineage);
            }
            assert(announced(old(self).entries@, self.entries@, self.to_propagate@)) by {
                assert forall|j: int|
                    0 <= j < self.entries@.len() && (#[trigger] self.entries@[j]).settled()
                        && !old(self).entries@[j].settled() implies holds(
                    self.to_propagate@,
                    self.entries@[j].id,
                ) by {
                    assert(self.entries@[j].id == old(self).entries@[j].id && step_allowed(
                        old(self).entries@[j].state,
                        self.entries@[j].state,
                    ));
                    if j != i {
                        assert(middle[j] == old(self).entries@[j]);
                        assert(self.entries@[j].id == middle[j].id && step_allowed(
                            middle[j].state,
                            self.entries@[j].state,
                        ));
                    } else {
                        assert(is_settled(self.entries@, id));
                    }
                }
            }
            assert(fell(old(self).entries@, self.entries@)) by {
                assert forall|j: int|
                    0 <= j < old(self).entries@.len() && (#[trigger] old(self).entries@[j]).state
                        == BlockState::WaitingForDeps && self.entries@[j].state
                        == BlockState::Discarded implies outlived(
                    old(self).entries@,
                    self.entries@,
                    self.entries@[j].id,
                    self.entries@[j].lineage@,
                ) by {
                    if j != i {
                        assert(middle[j] == old(self).entries@[j]);
                        assert(self.entries@[j] == old(self).entries@[j]);
                    }
                }
            }
            assert forall|j: int|
                0 <= j < old(self).entries@.len() && j != i && old(self).entries@[j].state
                    != BlockState::Active implies #[trigger] self.entries@[j] == old(
                self,
            ).entries@[j] by {
                assert(middle[j] == old(self).entries@[j]);
            }
        }
    }

    /// Moves on the waiting entry `i`, all others being at rest, and then
    /// every entry that can move on.
    pub(super) fn enter(&mut self, i: usize, stamp: u64) -> (out: Admission)
        requires
            old(self).wf_core(),
            old(self).finality_at_rest(),
            i < old(self).entries@.len(),
            old(self).entries@[i as int].state == BlockState::WaitingForDeps,
            forall|j: int|
                0 <= j < old(self).entries@.len() && j != i ==> at_rest(
                    old(self).entries@,
                    #[trigger] old(self).entries@[j],
                ),
        ensures
            final(self).wf(),
            final(self).same_settings(old(self)),
            final(self).attack_attempts() == old(self).attack_attempts(),
            final(self).entries@.len() == old(self).entries@.len(),
            grown(old(self).entries@, final(self).entries@),
            allowed(
                entry_verdict(
                    old(self).entries@,
                    old(self).entries@[i as int].id,
                    old(self).entries@[i as int].head(),
                    old(self).entries@[i as int].operations is Some,
                ),
                out,
            ),
            match out {
                Admission::Waiting => final(self).entries@[i as int].state
                    == BlockState::WaitingForDeps,
                Admission::Discarded(_) => final(self).entries@[i as int].state
                    == BlockState::Discarded,
                Admission::Integrated => final(self).entries@[i as int].settled() && holds(
                    final(self).to_propagate@,
                    old(self).entries@[i as int].id,
                ),
                _ => false,
            },
            queue_kept(final(self).entries@, old(self).to_propagate@, final(self).to_propagate@),
            out != Admission::Integrated && out == entry_verdict(
                old(self).entries@,
                old(self).entries@[i as int].id,
                old(self).entries@[i as int].head(),
                old(self).entries@[i as int].operations is Some,
            ) ==> final(self).same_frame(old(self)) && quiet(
                old(self).entries@,
                final(self).entries@,
                old(self).entries@[i as int].id,
            ),
            steady_kept(old(self).entries@, final(self).entries@, None),
            queue_fresh(old(self).entries@, old(self).to_propagate@, final(self).to_propagate@),
            content_kept(old(self).entries@, final(self).entries@),
            out == Admission::Waiting ==> final(self).entries@ == old(self).entries@,
            felled(old(self).entries@, final(self).entries@),
            rose(old(self).entries@, final(self).entries@, old(self).delta_f0),
            waned(old(self).entries@, final(self).entries@),
            fell(old(self).entries@, final(self).entries@),
            announced(old(self).entries@, final(self).entries@, final(self).to_propagate@),
            final(self).entries@[i as int].state == BlockState::Active && (forall|j: int|
                0 <= j < old(self).entries@.len() && j != i ==> #[trigger] final(self).entries@[j]
                    == old(self).entries@[j]) ==> final(self).joined(
                old(self),
                old(self).entries@[i as int].id,
            ),
            out == Admission::Discarded(RejectReason::Incompatible) && entry_verdict(
                old(self).entries@,
                old(self).entries@[i as int].id,
                old(self).entries@[i as int].head(),
                old(self).entries@[i as int].operations is Some,
            ) == Admission::Integrated ==> lost_to_final(
                old(self).entries@,
                final(self).entries@,
                old(self).entries@[i as int].id,
                old(self).entries@[i as int].head(),
            ),
    {
        let act = self.appraise(i);
        match act {
            Act::Keep => {
                proof {
                    reveal(waiting_rest);
                    lemma_grown(self.entries@, self.entries@, self.entries@);
                }
                Admission::Waiting
            },
            Act::Drop(reason) => {
                self.discard(i, stamp);
                let ghost middle = self.entries@;
                let ghost queued = self.to_propagate@;
                proof {
                    assert(one_changed(old(self).entries@, middle, i as int));
                    lemma_calm(old(self).entries@, middle, i as int);
                }
                proof {
                    lemma_unrest_stays(old(self).entries@, middle, old(self).entries@[i as int]);
                    lemma_dropped_here(old(self).entries@, middle, i as int);
                    assert(waned(old(self).entries@, middle));
                    assert(same_while(old(self).entries@, middle));
                    assert(grown(old(self).entries@, middle)) by {
                        assert forall|j: int| 0 <= j < old(self).entries@.len() implies (
                        #[trigger] middle[j]).id == old(self).entries@[j].id && step_allowed(
                            old(self).entries@[j].state,
                            middle[j].state,
                        ) by {
                            if j != i {
                                assert(middle[j] == old(self).entries@[j]);
                            }
                        }
                    }
                }
                self.settle(stamp);
                proof {
                    lemma_waned_twice(old(self).entries@, middle, self.entries@);
                    lemma_fell_twice(old(self).entries@, middle, self.entries@);
                    lemma_announced_twice(
                        old(self).entries@,
                        middle,
                        queued,
                        self.entries@,
                        self.to_propagate@,
                    );
                    lemma_drop_quiet(old(self).entries@, middle, self.entries@, i as int);
                    assert(queued == old(self).to_propagate@);
                    assert forall|x: BlockId| is_settled(old(self).entries@, x) implies is_settled(
                        middle,
                        x,
                    ) by {
                        let w = choose|w: int|
                            0 <= w < old(self).entries@.len() && #[trigger] old(self).entries@[w].id
                                == x && old(self).entries@[w].settled();
                        assert(middle[w] == old(self).entries@[w]);
                    }
                    assert(grown(old(self).entries@, middle)) by {
                        assert forall|j: int| 0 <= j < old(self).entries@.len() implies (
                        #[trigger] middle[j]).id == old(self).entries@[j].id && step_allowed(
                            old(self).entries@[j].state,
                            middle[j].state,
                        ) by {
                            if j != i {
                                assert(middle[j] == old(self).entries@[j]);
                            }
                        }
                    }
                    lemma_grown(old(self).entries@, middle, self.entries@);
                    assert(self.entries@[i as int].id == middle[i as int].id && step_allowed(
                        middle[i as int].state,
                        self.entries@[i as int].state,
                    ));
                }
                Admission::Discarded(reason)
            },
            Act::Raise(lineage) => {
                let ghost line = lineage@;
                self.raise(i, lineage, stamp);
                let ghost middle = self.entries@;
                let ghost queued = self.to_propagate@;
                self.settle(stamp);
                proof {
                    if self.entries@[i as int].state == BlockState::Active && (forall|j: int|
                        0 <= j < old(self).entries@.len() && j != i ==> #[trigger] self.entries@[j]
                            == old(self).entries@[j]) {
                        assert(self.entries@ =~= middle) by {
                            assert forall|j: int| 0 <= j < middle.len() implies self.entries@[j]
                                == middle[j] by {
                                assert(middle[j].id == old(self).entries@[j].id && step_allowed(
                                    old(self).entries@[j].state,
                                    middle[j].state,
                                ));
                                assert(self.entries@[j].id == middle[j].id && step_allowed(
                                    middle[j].state,
                                    self.entries@[j].state,
                                ));
                                if j != i {
                                    assert(self.entries@[j] == old(self).entries@[j]);
                                }
                            }
                        }
                    }
                    lemma_rose_twice(old(self).entries@, middle, self.entries@, self.delta_f0);
                    lemma_waned_twice(old(self).entries@, middle, self.entries@);
                    lemma_fell_twice(old(self).entries@, middle, self.entries@);
                    lemma_announced_twice(
                        old(self).entries@,
                        middle,
                        queued,
                        self.entries@,
                        self.to_propagate@,
                    );
                    if self.entries@[i as int].state == BlockState::Discarded {
                        let first = old(self).entries@;
                        assert(self.entries@[i as int].id == middle[i as int].id && step_allowed(
                            middle[i as int].state,
                            self.entries@[i as int].state,
                        ));
                        assert(middle[i as int].id == first[i as int].id);
                        assert forall|f: int|
                            0 <= f < middle.len() && (#[trigger] middle[f]).state
                                == BlockState::Final implies self.entries@[f] == middle[f] by {}
                        lemma_outlived_widen(first, middle, self.entries@, first[i as int].id, line);
                        lemma_lost(
                            first,
                            self.entries@,
                            first[i as int].id,
                            first[i as int].head(),
                            line,
                        );
                    }
                    lemma_queue_fresh_step(
                        old(self).entries@,
                        old(self).to_propagate@,
                        middle,
                        queued,
                        self.entries@,
                        self.to_propagate@,
                    );
                    lemma_grown(old(self).entries@, middle, self.entries@);
                    lemma_queue_kept_step(
                        old(self).entries@,
                        old(self).to_propagate@,
                        middle,
                        queued,
                        self.entries@,
                        self.to_propagate@,
                    );
                    if self.entries@[i as int].settled() {
                        assert(middle[i as int].settled());
                        assert(self.entries@[i as int].id == old(self).entries@[i as int].id);
                        assert(is_settled(self.entries@, old(self).entries@[i as int].id));
                    }
                    assert(self.entries@[i as int].id == middle[i as int].id && step_allowed(
                        middle[i as int].state,
                        self.entries@[i as int].state,
                    ));
                }
                if self.entries[i].state == BlockState::Discarded {
                    Admission::Discarded(RejectReason::Incompatible)
                } else {
                    Admission::Integrated
                }
            },
        }
    }

    /// Records the hash `id` as discarded, and moves on what then can move
    /// on.
    pub(super) fn reject(&mut self, found: Option<usize>, id: BlockId, stamp: u64) -> (i: usize)
        requires
            old(self).wf(),
            match found {
                Some(at) => at < old(self).entries@.len() && old(self).entries@[at as int].id
                    == id && old(self).entries@[at as int].state == BlockState::Incoming,
                None => forall|j: int|
                    0 <= j < old(self).entries@.len() ==> old(self).entries@[j].id != id,
            },
        ensures
            final(self).wf(),
            final(self).same_settings(old(self)),
            final(self).attack_attempts() == old(self).attack_attempts(),
            grown(old(self).entries@, final(self).entries@),
            queue_kept(final(self).entries@, old(self).to_propagate@, final(self).to_propagate@),
            i < final(self).entries@.len(),
            final(self).entries@[i as int].id == id,
            final(self).entries@[i as int].state == BlockState::Discarded,
            final(self).same_frame(old(self)),
            quiet(old(self).entries@, final(self).entries@, id),
            steady_kept(old(self).entries@, final(self).entries@, Some(id)),
            final(self).to_propagate@ == old(self).to_propagate@,
            framed(old(self).entries@, final(self).entries@, id),
            waned_but(old(self).entries@, final(self).entries@, id),
            fell(old(self).entries@, final(self).entries@),
    {
        let i = self.stash(
            found,
            Entry {
                id,
                state: BlockState::Discarded,
                header: None,
                operations: None,
                lineage: Vec::new(),
                stamp,
            },
        );
        let ghost middle = self.entries@;
        proof {
            assert forall|j: int|
                0 <= j < old(self).entries@.len() && (#[trigger] old(self).entries@[j]).state
                    == BlockState::WaitingForDeps implies at_rest(
                old(self).entries@,
                old(self).entries@[j],
            ) by {
                reveal(waiting_rest);
            }
            assert(one_changed(old(self).entries@, middle, i as int));
            lemma_calm(old(self).entries@, middle, i as int);
            assert(quiet(old(self).entries@, middle, id)) by {
                assert forall|j: int|
                    0 <= j < old(self).entries@.len() && (#[trigger] old(self).entries@[j]).id
                        != id implies middle[j] == old(self).entries@[j] by {}
            }
        }
        self.settle(stamp);
        proof {
            lemma_unseated_fell(old(self).entries@, middle, self.entries@, i as int);
            assert forall|j: int|
                0 <= j < old(self).entries@.len() && (#[trigger] old(self).entries@[j]).state
                    == BlockState::WaitingForDeps && old(self).entries@[j].id != id
                    && self.entries@[j].state != BlockState::WaitingForDeps implies !at_rest(
                self.entries@,
                old(self).entries@[j],
            ) by {
                assert(middle[j] == old(self).entries@[j]);
            }
            lemma_quiet_hushed(old(self).entries@, middle, self.entries@, id);
            assert(grown(old(self).entries@, middle)) by {
                assert forall|j: int| 0 <= j < old(self).entries@.len() implies (
                #[trigger] middle[j]).id == old(self).entries@[j].id && step_allowed(
                    old(self).entries@[j].state,
                    middle[j].state,
                ) by {
                    if j != i {
                        assert(middle[j] == old(self).entries@[j]);
                    }
                }
            }
            lemma_grown(old(self).entries@, middle, self.entries@);
            assert(self.entries@[i as int].id == middle[i as int].id && step_allowed(
                middle[i as int].state,
                self.entries@[i as int].state,
            ));
        }
        i
    }

    /// Gives the waiting entry `i`, which has none, its operations.
    pub(super) fn attach(&mut self, i: usize, operations: Vec<Operation>)
        requires
            old(self).wf_core(),
            old(self).finality_at_rest(),
            i < old(self).entries@.len(),
            old(self).entries@[i as int].state == BlockState::WaitingForDeps,
        ensures
            final(self).wf_core(),
            final(self).finality_at_rest(),
            final(self).same_frame(old(self)),
            final(self).entries@.len() == old(self).entries@.len(),
            forall|j: int|
                0 <= j < old(self).entries@.len() && j != i ==> #[trigger] final(self).entries@[j]
                    == old(self).entries@[j],
            final(self).entries@[i as int].id == old(self).entries@[i as int].id,
            final(self).entries@[i as int].state == BlockState::WaitingForDeps,
            final(self).entries@[i as int].header == old(self).entries@[i as int].header,
            final(self).entries@[i as int].operations == Some(operations),
    {
        let ghost before = self.entries@;
        self.entries[i].operations = Some(operations);
        proof {
            lemma_unsettled_change(before, self.entries@);
            lemma_rooted_change(before, self.entries@);
            self.lemma_frame_kept(old(self));
            lemma_cliques_kept(before, self.entries@, self.cliques@);
            lemma_agree_kept(before, self.entries@, self.cliques@);
            lemma_finality_kept(before, self.entries@, self.cliques@, self.delta_f0);
            lemma_cover_kept(before, self.entries@, self.cliques@);
        }
    }

    /// What becomes of a header, or of a block where `operations` is
    /// `Some`, whose hash the graph has seen with a header: nothing, unless
    /// the entry waits without operations and these are the operations that
    /// its header names.  `None` where the graph has not seen the hash with
    /// a header.
    pub open spec fn known_verdict(&self, id: BlockId, operations: Option<Seq<Operation>>) -> Option<
        Admission,
    > {
        match position(self.entries(), id) {
            Some(i) => {
                let e = self.entries()[i];
                match e.state {
                    BlockState::Incoming => None,
                    BlockState::WaitingForDeps => if operations is Some && e.operations is None
                        && operations_root(operations->0) == e.head().operations_root@ {
                        Some(entry_verdict(self.entries(), id, e.head(), true))
                    } else {
                        Some(Admission::AlreadyKnown)
                    },
                    _ => Some(Admission::AlreadyKnown),
                }
            },
            None => None,
        }
    }

    /// What becomes of the header `h` handed in under the hash `id`, with
    /// its operations where `operations` is `Some`, `drawn` being the index
    /// drawn for its slot and `previous_slot` the latest slot that has
    /// begun.
    pub open spec fn verdict(
        &self,
        id: BlockId,
        h: HeaderView,
        operations: Option<Seq<Operation>>,
        drawn: nat,
        previous_slot: Option<Slot>,
    ) -> Admission {
        match self.known_verdict(id, operations) {
            Some(known) => known,
            None => match structure_fault(
                self.thread_count(),
                self.endorsement_count(),
                id,
                h,
                operations,
            ) {
                Some(reason) => Admission::Discarded(reason),
                None => if previous_slot is None || previous_slot->0.precedes(h.slot) {
                    Admission::FutureSlot
                } else {
                    match self.policy_fault(id, h, drawn) {
                        Some(reason) => Admission::Discarded(reason),
                        None => entry_verdict(self.entries(), id, h, operations is Some),
                    }
                },
            },
        }
    }

    /// What `incoming_header` and `incoming_block` ensure of the graph
    /// `self` that `earlier` has become, `expected` being the verdict and
    /// `out` what came of it.
    ///
    /// The outcome.  `out` is what the verdict allows, and the entry of
    /// `id` is in the state that `out` names.  A block that the verdict
    /// would integrate is discarded only where it became active and lost to
    /// a block that became final in this call.  An attack adds the hash of
    /// the creator's key to the attacks that are to be reported, and
    /// nothing else does.
    ///
    /// The other entries.  The entries of before are there, in place, each
    /// in a state that it may have passed to, with its header and its
    /// operations; what was final, discarded or heard of only is as it was;
    /// what is new is the entry of `id` or a hash that was heard of only.
    /// Where a block that waited waits no more, it could not go on waiting;
    /// where it is discarded, it could not become active either, or it
    /// became active and lost to a block that became final.  Where an
    /// active block is discarded, a block of its lineage conflicts with a
    /// block that became final in this call.  Where a block has become
    /// final, its parents are final and the fitness of its descendants
    /// exceeds the threshold.
    ///
    /// The queue.  What is queued for propagation was queued before or has
    /// just become active; what was queued and is still active or final is
    /// still queued; and every block that has become active, and is still
    /// active or final, is queued.
    ///
    /// The quiet cases.  Where the block is refused or left waiting as the
    /// verdict says, the graph is `undisturbed`; where it is left waiting,
    /// no other entry has changed at all.  Where the block has become
    /// active and no other entry has changed, the cliques are those that
    /// `joined` names; where other blocks have become active or final in
    /// the same call, each of them has changed the cliques in its turn, as
    /// `join_cliques` and `made_final` say.
    #[verifier::opaque]
    pub open spec fn admitted(
        &self,
        earlier: &BlockGraph,
        id: BlockId,
        creator: PublicKey,
        expected: Admission,
        out: Admission,
    ) -> bool {
        &&& self.wf()
        &&& self.same_settings(earlier)
        &&& grown(earlier.entries(), self.entries())
        &&& queue_kept(self.entries(), earlier.to_propagate(), self.to_propagate())
        &&& out == Admission::Integrated ==> holds(self.to_propagate(), id)
        &&& allowed(expected, out)
        &&& match out {
            Admission::AlreadyKnown | Admission::FutureSlot => *self == *earlier,
            Admission::Discarded(_) => self.state_of(id) == Some(BlockState::Discarded),
            Admission::Waiting => self.state_of(id) == Some(BlockState::WaitingForDeps),
            Admission::Integrated => self.state_of(id) == Some(BlockState::Active)
                || self.state_of(id) == Some(BlockState::Final),
        }
        &&& if out == Admission::Discarded(RejectReason::Attack) {
            &&& self.attack_attempts().len() == earlier.attack_attempts().len() + 1
            &&& self.attack_attempts().drop_last() == earlier.attack_attempts()
            &&& self.attack_attempts().last()@ == blake3_digest(creator@)
        } else {
            self.attack_attempts() == earlier.attack_attempts()
        }
        &&& out != Admission::Integrated && out == expected ==> self.undisturbed(earlier, id)
        &&& out == Admission::Waiting ==> untouched(earlier.entries(), self.entries(), id)
        &&& self.state_of(id) == Some(BlockState::Active) && untouched(
            earlier.entries(),
            self.entries(),
            id,
        ) && earlier.state_of(id) != Some(BlockState::Active) ==> self.joined(earlier, id)
        &&& framed(earlier.entries(), self.entries(), id)
        &&& felled(earlier.entries(), self.entries())
        &&& expected == Admission::Integrated && out == Admission::Discarded(
            RejectReason::Incompatible,
        ) ==> lost_to_final(earlier.entries(), self.entries(), id, self.header_of(id)->0)
        &&& rose(earlier.entries(), self.entries(), self.settings().0)
        &&& waned_but(earlier.entries(), self.entries(), id)
        &&& fell(earlier.entries(), self.entries())
        &&& steady_kept(earlier.entries(), self.entries(), Some(id))
        &&& queue_fresh(earlier.entries(), earlier.to_propagate(), self.to_propagate())
        &&& announced(earlier.entries(), self.entries(), self.to_propagate())
    }

    /// Whether the graph `self` is the graph `earlier` once the block `id`
    /// alone has become active: it has joined every clique whose members
    /// can all stand with it and opened the cliques that it gives rise to,
    /// it is queued for propagation behind what was queued, and the latest
    /// final blocks are as they were.
    pub open spec fn joined(&self, earlier: &BlockGraph, id: BlockId) -> bool {
        &&& member_lists(self.cliques()) == cliques_with(
            self.entries(),
            member_lists(earlier.cliques()),
            id,
        )
        &&& self.latest_final() == earlier.latest_final()
        &&& self.to_propagate() == earlier.to_propagate().push(id)
    }

    /// Whether the graph `self` is the graph `earlier` but for the entry of
    /// `id`: no block has become active or final, the queue, the cliques
    /// and the latest final blocks are as they were, and every other entry
    /// is as it was, unless it waited and is discarded with a parent of it
    /// that is discarded.  What is new besides the entry of `id` are hashes
    /// that were heard of only.
    pub open spec fn undisturbed(&self, earlier: &BlockGraph, id: BlockId) -> bool {
        &&& self.latest_final() == earlier.latest_final()
        &&& self.to_propagate() == earlier.to_propagate()
        &&& self.cliques() == earlier.cliques()
        &&& quiet(earlier.entries(), self.entries(), id)
    }

    /// Whether the graph `self`, which `earlier` has become, holds for `id`
    /// what was handed in, where the block waits, is integrated, or is
    /// discarded for its parents or for a conflict: the header is the
    /// header `h`, unless the graph had one for the hash, and the operations
    /// are `operations`, or none where only a header came.
    pub open spec fn stored(
        &self,
        earlier: &BlockGraph,
        id: BlockId,
        h: HeaderView,
        operations: Option<Seq<Operation>>,
        out: Admission,
    ) -> bool {
        out == Admission::Waiting || out == Admission::Integrated || out == Admission::Discarded(
            RejectReason::Incompatible,
        ) || out == Admission::Discarded(RejectReason::InvalidParents) ==> {
            &&& self.header_of(id) == if earlier.header_of(id) is Some {
                earlier.header_of(id)
            } else {
                Some(h)
            }
            &&& self.operations_of(id) == operations
        }
    }

    /// Where a header or a block is refused, is left waiting or changes
    /// nothing, every entry of another hash is as it was, unless it waited
    /// and a parent of it is discarded now: what was seen first is kept.
    pub proof fn lemma_others_kept(
        &self,
        earlier: &BlockGraph,
        id: BlockId,
        creator: PublicKey,
        out: Admission,
        j: int,
    )
        requires
            earlier.wf(),
            self.admitted(earlier, id, creator, out, out),
            out != Admission::Integrated,
            0 <= j < earlier.entries().len(),
            earlier.entries()[j].id != id,
            earlier.entries()[j].state != BlockState::WaitingForDeps || !struck(
                self.entries(),
                earlier.entries()[j].head(),
            ),
        ensures
            j < self.entries().len(),
            self.entries()[j] == earlier.entries()[j],
            self.state_of(earlier.entries()[j].id) == earlier.state_of(earlier.entries()[j].id),
    {
        reveal(BlockGraph::admitted);
        assert(self.entries()[j] == earlier.entries()[j] || dragged(
            self.entries(),
            earlier.entries()[j],
            self.entries()[j],
        ));
        lemma_position(self.entries(), j);
        lemma_position(earlier.entries(), j);
    }

    /// A block that is integrated is stored as it was handed in, where the
    /// graph had no header for its hash: `block_of` gives its header and
    /// its operations.
    pub proof fn lemma_integrated_block(
        &self,
        earlier: &BlockGraph,
        id: BlockId,
        creator: PublicKey,
        h: HeaderView,
        operations: Seq<Operation>,
        expected: Admission,
    )
        requires
            earlier.header_of(id) is None,
            self.admitted(earlier, id, creator, expected, Admission::Integrated),
            self.stored(earlier, id, h, Some(operations), Admission::Integrated),
        ensures
            self.block_of(id) == Some(BlockView { header: h, operations }),
    {
        reveal(BlockGraph::admitted);
    }

    /// A block that is left waiting adds to the wishes of the graph those of
    /// its parents that the graph lacks: a hash other than its own is
    /// wanted after it exactly where the graph lacked it, and a waiting
    /// block named it before or the block names it.
    pub proof fn lemma_waiting_wishes(
        &self,
        earlier: &BlockGraph,
        id: BlockId,
        creator: PublicKey,
        h: HeaderView,
        operations: Option<Seq<Operation>>,
        expected: Admission,
        x: BlockId,
    )
        requires
            earlier.wf(),
            self.admitted(earlier, id, creator, expected, Admission::Waiting),
            self.stored(earlier, id, h, operations, Admission::Waiting),
        ensures
            self.header_of(id) is Some,
            wanted(self.entries(), x) <==> x != id && missing(earlier.entries(), x) && (named_by(
                earlier.entries(),
                earlier.entries().len() as int,
                x,
            ) || named_in(self.header_of(id)->0.parents, x)),
    {
        reveal(BlockGraph::admitted);
        let before = earlier.entries();
        let after = self.entries();
        let i = position(after, id)->0;
        assert(after[i].well_formed(self.thread_count()));
        assert forall|b: int| 0 <= b < after.len() && after[b].id != id implies (
        #[trigger] after[b]).state == BlockState::Incoming || (b < before.len() && after[b]
            == before[b]) by {
            if b < before.len() {
                assert(after[b].id == before[b].id);
            }
        }
        if x != id {
            match position(before, x) {
                Some(a) => {
                    assert(after[a] == before[a]);
                    lemma_position(after, a);
                },
                None => {
                    if position(after, x) is Some {
                        let b = position(after, x)->0;
                        if b < before.len() {
                            assert(after[b].id == before[b].id);
                        }
                    }
                },
            }
        }
        if wanted(after, x) {
            let j = choose|j: int|
                0 <= j < after.len() && j < after.len() && (#[trigger] after[j]).state
                    == BlockState::WaitingForDeps && named_in(after[j].head().parents, x);
            if j != i {
                if j < i {
                    assert(after[j].id != after[i].id);
                } else {
                    assert(after[i].id != after[j].id);
                }
                assert(after[j] == before[j]);
                assert(before[j].state == BlockState::WaitingForDeps && named_in(
                    before[j].head().parents,
                    x,
                ));
            }
        }
        if x != id && named_by(before, before.len() as int, x) {
            let j = choose|j: int|
                0 <= j < before.len() && j < before.len() && (#[trigger] before[j]).state
                    == BlockState::WaitingForDeps && named_in(before[j].head().parents, x);
            assert(before[j].well_formed(earlier.thread_count()));
            if before[j].id == id {
                lemma_position(before, j);
            } else {
                assert(after[j] == before[j]);
                assert(after[j].state == BlockState::WaitingForDeps && named_in(
                    after[j].head().parents,
                    x,
                ));
            }
        }
        if named_in(after[i].head().parents, x) {
            assert(after[i].state == BlockState::WaitingForDeps && named_in(
                after[i].head().parents,
                x,
            ));
        }
    }

    /// Only a block that is left waiting adds to the wishes of the graph:
    /// after any other outcome, what the graph wants it wanted before, and
    /// it does not want the hash that was handed in.
    pub proof fn lemma_wishes_shrink(
        &self,
        earlier: &BlockGraph,
        id: BlockId,
        creator: PublicKey,
        expected: Admission,
        out: Admission,
        x: BlockId,
    )
        requires
            earlier.wf(),
            self.admitted(earlier, id, creator, expected, out),
            out != Admission::Waiting,
        ensures
            wanted(self.entries(), x) ==> wanted(earlier.entries(), x),
            out != Admission::AlreadyKnown && out != Admission::FutureSlot ==> !wanted(
                self.entries(),
                id,
            ),
    {
        reveal(BlockGraph::admitted);
        let before = earlier.entries();
        let after = self.entries();
        if out != Admission::AlreadyKnown && out != Admission::FutureSlot && wanted(after, x) {
            let j = choose|j: int|
                0 <= j < after.len() && j < after.len() && (#[trigger] after[j]).state
                    == BlockState::WaitingForDeps && named_in(after[j].head().parents, x);
            lemma_position(after, j);
            assert(after[j].id != id);
            assert(j < before.len());
            assert(after[j].id == before[j].id && step_allowed(before[j].state, after[j].state));
            assert(before[j].well_formed(earlier.thread_count()));
            assert(after[j].well_formed(self.thread_count()));
            assert(before[j].state == BlockState::WaitingForDeps && named_in(
                before[j].head().parents,
                x,
            ));
            match position(before, x) {
                Some(a) => {
                    assert(after[a].id == before[a].id && step_allowed(
                        before[a].state,
                        after[a].state,
                    ));
                    lemma_position(after, a);
                },
                None => {},
            }
        }
    }

    /// Taking in a header or a block neither removes a hash from the memory
    /// nor brings a discarded hash back: what is discarded stays discarded,
    /// and so is not queued for propagation.
    pub proof fn lemma_discarded_stays(
        &self,
        earlier: &BlockGraph,
        id: BlockId,
        creator: PublicKey,
        expected: Admission,
        out: Admission,
        other: BlockId,
    )
        requires
            earlier.wf(),
            self.admitted(earlier, id, creator, expected, out),
            earlier.state_of(other) == Some(BlockState::Discarded),
        ensures
            self.state_of(other) == Some(BlockState::Discarded),
            !holds(self.to_propagate(), other),
    {
        reveal(BlockGraph::admitted);
        let j = position(earlier.entries(), other)->0;
        assert(self.entries()[j].id == other && step_allowed(
            earlier.entries()[j].state,
            self.entries()[j].state,
        ));
        lemma_position(self.entries(), j);
        if holds(self.to_propagate(), other) {
            let q = choose|q: int|
                0 <= q < self.to_propagate().len() && #[trigger] self.to_propagate()[q] == other;
            self.lemma_queue_settled(q);
        }
    }

    /// Takes in a header, with its operations where `operations` is
    /// `Some`.
    pub(super) fn take_in(
        &mut self,
        hash: BlockId,
        header: BlockHeader,
        operations: Option<Vec<Operation>>,
        selector: &RandomSelector,
        previous_slot: Option<Slot>,
    ) -> (out: Admission)
        requires
            old(self).wf(),
        ensures
            final(self).admitted(
                old(self),
                hash,
                header.creator,
                old(self).verdict(
                    hash,
                    header@,
                    match operations {
                        Some(ops) => Some(ops@),
                        None => None,
                    },
                    selector.spec_draw(header@.slot),
                    previous_slot,
                ),
                out,
            ),
            final(self).stored(
                old(self),
                hash,
                header@,
                match operations {
                    Some(ops) => Some(ops@),
                    None => None,
                },
                out,
            ),
    {
        proof {
            reveal(BlockGraph::admitted);
        }
        let stamp: u64 = match previous_slot {
            Some(slot) => slot.period,
            None => 0,
        };
        let found = self.find(&hash);
        match found {
            Some(i) => {
                proof {
                    lemma_position(self.entries@, i as int);
                }
                let state = self.entries[i].state;
                if state == BlockState::WaitingForDeps {
                    let out = self.learn(i, operations, stamp);
                    return out;
                }
                if state != BlockState::Incoming {
                    proof {
                        lemma_grown(self.entries@, self.entries@, self.entries@);
                    }
                    return Admission::AlreadyKnown;
                }
            },
            None => {},
        }
        self.take_new(found, hash, header, operations, selector, previous_slot, stamp)
    }

    /// What becomes of a header that the graph has not seen yet.
    pub open spec fn new_verdict(
        &self,
        id: BlockId,
        h: HeaderView,
        operations: Option<Seq<Operation>>,
        drawn: nat,
        previous_slot: Option<Slot>,
    ) -> Admission {
        match structure_fault(self.thread_count(), self.endorsement_count(), id, h, operations) {
            Some(reason) => Admission::Discarded(reason),
            None => if previous_slot is None || previous_slot->0.precedes(h.slot) {
                Admission::FutureSlot
            } else {
                match self.policy_fault(id, h, drawn) {
                    Some(reason) => Admission::Discarded(reason),
                    None => entry_verdict(self.entries(), id, h, operations is Some),
                }
            },
        }
    }

    /// Takes in a header whose hash the graph does not know, or has heard
    /// of only.
    pub(super) fn take_new(
        &mut self,
        found: Option<usize>,
        hash: BlockId,
        header: BlockHeader,
        operations: Option<Vec<Operation>>,
        selector: &RandomSelector,
        previous_slot: Option<Slot>,
        stamp: u64,
    ) -> (out: Admission)
        requires
            old(self).wf(),
            match found {
                Some(at) => at < old(self).entries@.len() && old(self).entries@[at as int].id
                    == hash && old(self).entries@[at as int].state == BlockState::Incoming,
                None => forall|j: int|
                    0 <= j < old(self).entries@.len() ==> old(self).entries@[j].id != hash,
            },
        ensures
            final(self).admitted(
                old(self),
                hash,
                header.creator,
                old(self).new_verdict(
                    hash,
                    header@,
                    match operations {
                        Some(ops) => Some(ops@),
                        None => None,
                    },
                    selector.spec_draw(header@.slot),
                    previous_slot,
                ),
                out,
            ),
            final(self).stored(
                old(self),
                hash,
                header@,
                match operations {
                    Some(ops) => Some(ops@),
                    None => None,
                },
                out,
            ),
    {
        proof {
            reveal(BlockGraph::admitted);
        }
        match self.check_structure(&hash, &header, &operations) {
            Some(reason) => {
                return self.refuse(found, hash, stamp, reason, &header.creator);
            },
            None => {},
        }
        let future = match previous_slot {
            None => true,
            Some(slot) => slot.is_before(&header.slot),
        };
        if future {
            proof {
                lemma_grown(self.entries@, self.entries@, self.entries@);
            }
            return Admission::FutureSlot;
        }
        let drawn = selector.draw(header.slot);
        match self.check_policy(&hash, &header, drawn) {
            Some(reason) => {
                return self.refuse(found, hash, stamp, reason, &header.creator);
            },
            None => {},
        }
        self.place(hash, header, operations, stamp)
    }

    /// Discards the hash `hash` for `reason`, and queues the creator where
    /// the reason is an attack.
    pub(super) fn refuse(
        &mut self,
        found: Option<usize>,
        hash: BlockId,
        stamp: u64,
        reason: RejectReason,
        creator: &PublicKey,
    ) -> (out: Admission)
        requires
            old(self).wf(),
            match found {
                Some(at) => at < old(self).entries@.len() && old(self).entries@[at as int].id
                    == hash && old(self).entries@[at as int].state == BlockState::Incoming,
                None => forall|j: int|
                    0 <= j < old(self).entries@.len() ==> old(self).entries@[j].id != hash,
            },
        ensures
            out == Admission::Discarded(reason),
            final(self).admitted(old(self), hash, *creator, Admission::Discarded(reason), out),
    {
        proof {
            reveal(BlockGraph::admitted);
        }
        if reason == RejectReason::Attack {
            self.note_attack(creator);
        }
        let i = self.reject(found, hash, stamp);
        proof {
            lemma_position(self.entries@, i as int);
        }
        Admission::Discarded(reason)
    }

    /// Stores a header that has passed the checks, with its operations
    /// where there are any, as a waiting entry, and with it an entry for
    /// each parent that the graph has not heard of.
    pub(super) fn seat(
        &mut self,
        hash: BlockId,
        header: BlockHeader,
        operations: Option<Vec<Operation>>,
    ) -> (i: usize)
        requires
            old(self).wf(),
            old(self).missing_here(hash),
            !named_by_final(old(self).entries(), hash),
            header@.parents.len() == old(self).thread_count(),
            header@.slot.thread < old(self).thread_count(),
            hash@ == header_id(header@),
        ensures
            final(self).wf_core(),
            final(self).finality_at_rest(),
            final(self).same_frame(old(self)),
            seated(old(self).entries@, final(self).entries@, hash, i as int),
            final(self).entries@[i as int].state == BlockState::WaitingForDeps,
            final(self).entries@[i as int].header == Some(header),
            final(self).entries@[i as int].operations == operations,
            forall|j: int|
                0 <= j < final(self).entries@.len() && j != i ==> at_rest(
                    final(self).entries@,
                    #[trigger] final(self).entries@[j],
                ),
            entry_verdict(final(self).entries@, hash, header@, operations is Some)
                == entry_verdict(old(self).entries@, hash, header@, operations is Some),
    {
        let ghost before = self.entries@;
        let ghost h = header@;
        self.add_placeholders(&header);
        let ghost middle = self.entries@;
        let spot = self.find(&hash);
        proof {
            match spot {
                Some(at) => {
                    if at < before.len() {
                        assert(before[at as int].id == hash);
                        lemma_position(before, at as int);
                    }
                },
                None => {},
            }
        }
        proof {
            if named_by_final(middle, hash) {
                let j = choose|j: int|
                    0 <= j < middle.len() && (#[trigger] middle[j]).state == BlockState::Final
                        && holds(middle[j].head().parents, hash);
                assert(middle[j] == before[j]);
                assert(named_by_final(before, hash));
            }
        }
        let i = self.stash(
            spot,
            Entry {
                id: hash,
                state: BlockState::WaitingForDeps,
                header: Some(header),
                operations,
                lineage: Vec::new(),
                stamp: 0,
            },
        );
        let ghost after = self.entries@;
        proof {
            assert forall|j: int| 0 <= j < before.len() implies same_standing(
                before[j],
                #[trigger] after[j],
            ) by {
                assert(middle[j] == before[j]);
            }
            lemma_others_rest(before, after, i as int);
            lemma_review_kept(before, after, h);
            lemma_incompatible_kept(before, after, hash, h);
            assert(seated(before, after, hash, i as int)) by {
                assert forall|j: int| 0 <= j < before.len() && j != i implies #[trigger] after[j]
                    == before[j] && before[j].id != hash by {
                    assert(middle[j] == before[j]);
                    match spot {
                        Some(at) => {
                            if j < at {
                                assert(middle[j].id != middle[at as int].id);
                            } else {
                                assert(middle[at as int].id != middle[j].id);
                            }
                        },
                        None => {},
                    }
                }
                assert forall|j: int| before.len() <= j < after.len() && j != i implies (
                #[trigger] after[j]).state == BlockState::Incoming by {
                    assert(after[j] == middle[j]);
                }
            }
        }
        i
    }

    /// Stores a header that has passed the checks, with its operations
    /// where there are any, and moves on what can move on.
    pub(super) fn place(
        &mut self,
        hash: BlockId,
        header: BlockHeader,
        operations: Option<Vec<Operation>>,
        stamp: u64,
    ) -> (out: Admission)
        requires
            old(self).wf(),
            old(self).missing_here(hash),
            !named_by_final(old(self).entries(), hash),
            header@.parents.len() == old(self).thread_count(),
            header@.slot.thread < old(self).thread_count(),
            hash@ == header_id(header@),
        ensures
            final(self).admitted(
                old(self),
                hash,
                header.creator,
                entry_verdict(old(self).entries@, hash, header@, operations is Some),
                out,
            ),
            final(self).stored(
                old(self),
                hash,
                header@,
                match operations {
                    Some(ops) => Some(ops@),
                    None => None,
                },
                out,
            ),
    {
        proof {
            reveal(BlockGraph::admitted);
        }
        let ghost before = self.entries@;
        let i = self.seat(hash, header, operations);
        let ghost after = self.entries@;
        let ghost queued = self.to_propagate@;
        let out = self.enter(i, stamp);
        proof {
            lemma_seated(before, after, self.entries@, hash, i as int);
            lemma_seated_rose(before, after, self.entries@, hash, i as int, self.delta_f0);
            lemma_seated_fell(before, after, self.entries@, hash, i as int);
            lemma_seated_announced(
                before,
                after,
                self.entries@,
                hash,
                i as int,
                self.to_propagate@,
            );
            lemma_seated_queue(before, after, hash, i as int, queued, self.to_propagate@);
            lemma_grown(before, after, self.entries@);
            lemma_position(self.entries@, i as int);
            match position(before, hash) {
                Some(at) => {
                    assert(before[at].well_formed(self.thread_count));
                },
                None => {},
            }
        }
        out
    }

    /// Whether the graph does not know `id`, or has heard of it only.
    pub open spec fn missing_here(&self, id: BlockId) -> bool {
        missing(self.entries(), id)
    }

    /// Queues the hash of the key of a creator who signed two blocks for one
    /// slot.
    pub(super) fn note_attack(&mut self, creator: &PublicKey)
        ensures
            final(self).attack_attempts@.len() == old(self).attack_attempts@.len() + 1,
            final(self).attack_attempts@.drop_last() == old(self).attack_attempts@,
            final(self).attack_attempts@.last()@ == blake3_digest(creator@),
            final(self).wf() == old(self).wf(),
            final(self).same_settings(old(self)),
            final(self).entries@ == old(self).entries@,
            final(self).to_propagate@ == old(self).to_propagate@,
            final(self).cliques@ == old(self).cliques@,
            final(self).latest_final@ == old(self).latest_final@,
    {
        let address = crate::hash::Hash::compute_from(creator.0.as_slice());
        self.attack_attempts.push(address);
        assert(self.attack_attempts@.drop_last() =~= old(self).attack_attempts@);
    }

    /// Takes in the operations of a block whose header waits: keeps them
    /// where the entry has none and they are what the header names, and
    /// moves the block on.
    pub(super) fn learn(&mut self, i: usize, operations: Option<Vec<Operation>>, stamp: u64) -> (out:
        Admission)
        requires
            old(self).wf(),
            i < old(self).entries@.len(),
            old(self).entries@[i as int].state == BlockState::WaitingForDeps,
        ensures
            final(self).admitted(
                old(self),
                old(self).entries@[i as int].id,
                old(self).entries@[i as int].head().creator,
                old(self).known_verdict(
                    old(self).entries@[i as int].id,
                    match operations {
                        Some(ops) => Some(ops@),
                        None => None,
                    },
                )->0,
                out,
            ),
            out != Admission::Discarded(RejectReason::Attack),
            out != Admission::AlreadyKnown ==> {
                &&& final(self).header_of(old(self).entries@[i as int].id) == old(self).header_of(
                    old(self).entries@[i as int].id,
                )
                &&& old(self).header_of(old(self).entries@[i as int].id) is Some
                &&& final(self).operations_of(old(self).entries@[i as int].id) == match operations {
                    Some(ops) => Some(ops@),
                    None => None,
                }
            },
    {
        proof {
            reveal(BlockGraph::admitted);
        }
        let ghost before = self.entries@;
        proof {
            lemma_position(before, i as int);
            lemma_grown(before, before, before);
            assert(before[i as int].well_formed(self.thread_count));
        }
        let ops = match operations {
            None => {
                return Admission::AlreadyKnown;
            },
            Some(ops) => ops,
        };
        if self.entries[i].operations.is_some() {
            return Admission::AlreadyKnown;
        }
        let fits = match &self.entries[i].header {
            Some(header) => compute_operations_root(&ops).same(&header.operations_root),
            None => false,
        };
        if !fits {
            return Admission::AlreadyKnown;
        }
        let ghost queued = self.to_propagate@;
        self.supply(i, ops);
        let ghost after = self.entries@;
        let out = self.enter(i, stamp);
        proof {
            let id = before[i as int].id;
            lemma_seated(before, after, self.entries@, id, i as int);
            lemma_seated_rose(before, after, self.entries@, id, i as int, self.delta_f0);
            lemma_seated_fell(before, after, self.entries@, id, i as int);
            lemma_seated_announced(before, after, self.entries@, id, i as int, self.to_propagate@);
            lemma_seated_queue(before, after, id, i as int, queued, self.to_propagate@);
            lemma_grown(before, after, self.entries@);
            lemma_position(self.entries@, i as int);
        }
        out
    }

    /// Gives the waiting entry `i`, which has none, the operations that its
    /// header names.
    pub(super) fn supply(&mut self, i: usize, operations: Vec<Operation>)
        requires
            old(self).wf(),
            i < old(self).entries@.len(),
            old(self).entries@[i as int].state == BlockState::WaitingForDeps,
        ensures
            final(self).wf_core(),
            final(self).finality_at_rest(),
            final(self).same_frame(old(self)),
            seated(
                old(self).entries@,
                final(self).entries@,
                old(self).entries@[i as int].id,
                i as int,
            ),
            final(self).entries@.len() == old(self).entries@.len(),
            final(self).entries@[i as int].state == BlockState::WaitingForDeps,
            final(self).entries@[i as int].header == old(self).entries@[i as int].header,
            final(self).entries@[i as int].operations == Some(operations),
            forall|j: int|
                0 <= j < final(self).entries@.len() && j != i ==> at_rest(
                    final(self).entries@,
                    #[trigger] final(self).entries@[j],
                ),
            entry_verdict(
                final(self).entries@,
                old(self).entries@[i as int].id,
                old(self).entries@[i as int].head(),
                true,
            ) == entry_verdict(
                old(self).entries@,
                old(self).entries@[i as int].id,
                old(self).entries@[i as int].head(),
                true,
            ),
    {
        let ghost before = self.entries@;
        self.attach(i, operations);
        let ghost after = self.entries@;
        proof {
            let h = before[i as int].head();
            assert forall|j: int| 0 <= j < before.len() implies same_standing(
                before[j],
                #[trigger] after[j],
            ) by {
                if j != i {
                    assert(after[j] == before[j]);
                }
            }
            lemma_others_rest(before, after, i as int);
            lemma_review_kept(before, after, h);
            lemma_incompatible_kept(before, after, before[i as int].id, h);
            assert(seated(before, after, before[i as int].id, i as int)) by {
                assert forall|j: int| 0 <= j < before.len() && j != i implies #[trigger] after[j]
                    == before[j] && before[j].id != before[i as int].id by {
                    if j < i {
                        assert(before[j].id != before[i as int].id);
                    } else {
                        assert(before[i as int].id != before[j].id);
                    }
                }
            }
        }
    }

    /// Takes in a header.  What becomes of it is what `verdict` says, with
    /// the index that `selector` draws for its slot; `admitted` says what
    /// that means for the graph, and `stored` what the graph then holds for
    /// the hash.  A header alone is never integrated.  A hash that is
    /// active, final or discarded leaves the graph as it is.
    pub fn incoming_header(
        &mut self,
        hash: BlockId,
        header: BlockHeader,
        selector: &RandomSelector,
        previous_slot: Option<Slot>,
    ) -> (out: Admission)
        requires
            old(self).wf(),
        ensures
            final(self).admitted(
                old(self),
                hash,
                header.creator,
                old(self).verdict(
                    hash,
                    header@,
                    None,
                    selector.spec_draw(header@.slot),
                    previous_slot,
                ),
                out,
            ),
            final(self).stored(old(self), hash, header@, None, out),
            final(self).wf(),
            final(self).same_settings(old(self)),
    {
        proof {
            reveal(BlockGraph::admitted);
        }
        self.take_in(hash, header, None, selector, previous_slot)
    }

    /// Takes in a block.  What becomes of it is what `verdict` says, with
    /// the index that `selector` draws for its slot, but for one case: a
    /// block that the verdict integrates becomes active, and is discarded
    /// in the same call where a block becomes final with which a block of
    /// its ancestry conflicts.  `admitted` says what all this means for the
    /// graph, and `stored` what the graph then holds for the hash.  A hash
    /// that is active, final or discarded leaves the graph as it is.
    pub fn incoming_block(
        &mut self,
        hash: BlockId,
        block: Block,
        selector: &RandomSelector,
        previous_slot: Option<Slot>,
    ) -> (out: Admission)
        requires
            old(self).wf(),
        ensures
            final(self).admitted(
                old(self),
                hash,
                block.header.creator,
                old(self).verdict(
                    hash,
                    block.header@,
                    Some(block.operations@),
                    selector.spec_draw(block.header@.slot),
                    previous_slot,
                ),
                out,
            ),
            final(self).stored(old(self), hash, block.header@, Some(block.operations@), out),
            final(self).wf(),
            final(self).same_settings(old(self)),
    {
        proof {
            reveal(BlockGraph::admitted);
        }
        self.take_in(hash, block.header, Some(block.operations), selector, previous_slot)
    }

    /// What is to be done with the entry `i`.
    pub(super) fn appraise(&self, i: usize) -> (act: Act)
        requires
            ids_unique(self.entries@),
            forall|a: int|
                0 <= a < self.entries@.len() ==> (#[trigger] self.entries@[a]).well_formed(
                    self.thread_count,
                ),
            i < self.entries@.len(),
        ensures
            match act {
                Act::Keep => at_rest(self.entries@, self.entries@[i as int]),
                Act::Drop(reason) => {
                    &&& self.entries@[i as int].state == BlockState::WaitingForDeps
                    &&& parents_review(self.entries@, self.entries@[i as int].head())
                        == Review::Invalid ==> reason == RejectReason::InvalidParents
                    &&& parents_review(self.entries@, self.entries@[i as int].head())
                        != Review::Invalid ==> {
                        &&& reason == RejectReason::Incompatible
                        &&& parents_review(self.entries@, self.entries@[i as int].head())
                            == Review::Ready
                        &&& self.entries@[i as int].operations is Some
                        &&& incompatible(
                            self.entries@,
                            self.entries@[i as int].id,
                            self.entries@[i as int].head(),
                        )
                    }
                },
                Act::Raise(lineage) => {
                    &&& self.entries@[i as int].state == BlockState::WaitingForDeps
                    &&& self.entries@[i as int].operations is Some
                    &&& parents_review(self.entries@, self.entries@[i as int].head())
                        == Review::Ready
                    &&& !incompatible(
                        self.entries@,
                        self.entries@[i as int].id,
                        self.entries@[i as int].head(),
                    )
                    &&& lineage@.len() >= 1
                    &&& lineage@[0] == link_of(
                        self.entries@[i as int].id,
                        self.entries@[i as int].head(),
                    )
                    &&& forall|l: Link|
                        in_lineage(lineage@, l) <==> in_ancestry(
                            self.entries@,
                            self.entries@[i as int].id,
                            self.entries@[i as int].head(),
                            l,
                        )
                },
            },
    {
        let entry = &self.entries[i];
        assert(entry.well_formed(self.thread_count));
        if entry.state != BlockState::WaitingForDeps {
            return Act::Keep;
        }
        match &entry.header {
            None => Act::Keep,
            Some(header) => {
                match self.review(header) {
                    Review::Invalid => Act::Drop(RejectReason::InvalidParents),
                    Review::Pending => Act::Keep,
                    Review::Ready => {
                        if entry.operations.is_none() {
                            return Act::Keep;
                        }
                        let lineage = self.build_lineage(&entry.id, header);
                        if self.clashes(&entry.id, header, &lineage) {
                            Act::Drop(RejectReason::Incompatible)
                        } else {
                            Act::Raise(lineage)
                        }
                    },
                }
            },
        }
    }

    /// Moves on the first waiting entry that can move on, and says whether
    /// there was one.
    pub(super) fn settle_step(&mut self, stamp: u64) -> (progressed: bool)
        requires
            old(self).wf_core(),
            old(self).finality_at_rest(),
        ensures
            final(self).wf_core(),
            final(self).finality_at_rest(),
            final(self).same_settings(old(self)),
            final(self).attack_attempts() == old(self).attack_attempts(),
            final(self).entries@.len() == old(self).entries@.len(),
            grown(old(self).entries@, final(self).entries@),
            queue_kept(final(self).entries@, old(self).to_propagate@, final(self).to_propagate@),
            progressed ==> count_waiting(final(self).entries@) < count_waiting(old(self).entries@),
            !progressed ==> waiting_rest(final(self).entries@) && final(self).entries@ == old(
                self,
            ).entries@ && final(self).same_frame(old(self)),
            calm(old(self).entries@) ==> {
                &&& calm(final(self).entries@)
                &&& final(self).same_frame(old(self))
                &&& hushed(old(self).entries@, final(self).entries@)
                &&& stamped(old(self).entries@, final(self).entries@, stamp)
            },
            steady_kept(old(self).entries@, final(self).entries@, None),
            queue_fresh(old(self).entries@, old(self).to_propagate@, final(self).to_propagate@),
            content_kept(old(self).entries@, final(self).entries@),
            felled(old(self).entries@, final(self).entries@),
            same_while(old(self).entries@, final(self).entries@),
            rose(old(self).entries@, final(self).entries@, old(self).delta_f0),
            lineage_kept(old(self).entries@, final(self).entries@),
            waned(old(self).entries@, final(self).entries@),
            fell(old(self).entries@, final(self).entries@),
            announced(old(self).entries@, final(self).entries@, final(self).to_propagate@),
    {
        let mut i: usize = 0;
        while i < self.entries.len()
            invariant
                i <= self.entries@.len(),
                self.wf_core(),
                self.finality_at_rest(),
                *self == *old(self),
                forall|j: int| 0 <= j < i ==> at_rest(self.entries@, #[trigger] self.entries@[j]),
            decreases self.entries@.len() - i,
        {
            let act = self.appraise(i);
            match act {
                Act::Keep => {},
                Act::Drop(_) => {
                    self.discard(i, stamp);
                    proof {
                        lemma_count_less(
                            old(self).entries@,
                            self.entries@,
                            i as int,
                            BlockState::WaitingForDeps,
                        );
                        if calm(old(self).entries@) {
                            assert(one_changed(old(self).entries@, self.entries@, i as int));
                            lemma_dropped(old(self).entries@, self.entries@, i as int);
                        }
                        lemma_unrest_stays(
                            old(self).entries@,
                            self.entries@,
                            old(self).entries@[i as int],
                        );
                        lemma_dropped_here(old(self).entries@, self.entries@, i as int);
                    }
                    return true;
                },
                Act::Raise(lineage) => {
                    proof {
                        if calm(self.entries@) {
                            lemma_calm_waits(self.entries@, i as int);
                            assert(false);
                        }
                    }
                    self.raise(i, lineage, stamp);
                    proof {
                        assert(self.entries@[i as int].id == old(self).entries@[i as int].id
                            && step_allowed(
                            old(self).entries@[i as int].state,
                            self.entries@[i as int].state,
                        ));
                        assert forall|j: int|
                            0 <= j < self.entries@.len() && j != i && (
                            #[trigger] self.entries@[j]).state
                                == BlockState::WaitingForDeps implies old(self).entries@[j].state
                            == BlockState::WaitingForDeps by {
                            assert(self.entries@[j].id == old(self).entries@[j].id && step_allowed(
                                old(self).entries@[j].state,
                                self.entries@[j].state,
                            ));
                            if old(self).entries@[j].state != BlockState::Active {
                                assert(self.entries@[j] == old(self).entries@[j]);
                            }
                        }
                        lemma_count_less(
                            old(self).entries@,
                            self.entries@,
                            i as int,
                            BlockState::WaitingForDeps,
                        );
                    }
                    return true;
                },
            }
            i += 1;
        }
        proof {
            reveal(waiting_rest);
        }
        false
    }

    /// Moves on every waiting entry that can move on, until none can.
    pub(super) fn settle(&mut self, stamp: u64)
        requires
            old(self).wf_core(),
            old(self).finality_at_rest(),
        ensures
            final(self).wf(),
            queue_kept(final(self).entries@, old(self).to_propagate@, final(self).to_propagate@),
            final(self).same_settings(old(self)),
            final(self).attack_attempts() == old(self).attack_attempts(),
            final(self).entries@.len() == old(self).entries@.len(),
            grown(old(self).entries@, final(self).entries@),
            calm(old(self).entries@) ==> {
                &&& final(self).same_frame(old(self))
                &&& hushed(old(self).entries@, final(self).entries@)
                &&& stamped(old(self).entries@, final(self).entries@, stamp)
            },
            steady_kept(old(self).entries@, final(self).entries@, None),
            queue_fresh(old(self).entries@, old(self).to_propagate@, final(self).to_propagate@),
            content_kept(old(self).entries@, final(self).entries@),
            felled(old(self).entries@, final(self).entries@),
            same_while(old(self).entries@, final(self).entries@),
            rose(old(self).entries@, final(self).entries@, old(self).delta_f0),
            lineage_kept(old(self).entries@, final(self).entries@),
            waned(old(self).entries@, final(self).entries@),
            fell(old(self).entries@, final(self).entries@),
            announced(old(self).entries@, final(self).entries@, final(self).to_propagate@),
            final(self).entries@ == old(self).entries@ ==> final(self).same_frame(old(self)),
    {
        proof {
            lemma_grown(self.entries@, self.entries@, self.entries@);
        }
        loop
            invariant
                self.wf_core(),
                old(self).wf_core(),
                calm(old(self).entries@) ==> {
                    &&& calm(self.entries@)
                    &&& self.same_frame(old(self))
                    &&& hushed(old(self).entries@, self.entries@)
                    &&& stamped(old(self).entries@, self.entries@, stamp)
                },
                steady_kept(old(self).entries@, self.entries@, None),
                queue_fresh(old(self).entries@, old(self).to_propagate@, self.to_propagate@),
                content_kept(old(self).entries@, self.entries@),
                felled(old(self).entries@, self.entries@),
                same_while(old(self).entries@, self.entries@),
                rose(old(self).entries@, self.entries@, old(self).delta_f0),
                lineage_kept(old(self).entries@, self.entries@),
                waned(old(self).entries@, self.entries@),
                fell(old(self).entries@, self.entries@),
                announced(old(self).entries@, self.entries@, self.to_propagate@),
                (self.entries@ == old(self).entries@ && self.same_frame(old(self)))
                    || count_waiting(self.entries@) < count_waiting(old(self).entries@),
                self.finality_at_rest(),
                self.same_settings(old(self)),
                self.attack_attempts() == old(self).attack_attempts(),
                self.entries@.len() == old(self).entries@.len(),
                grown(old(self).entries@, self.entries@),
                queue_kept(self.entries@, old(self).to_propagate@, self.to_propagate@),
            ensures
                self.wf(),
            decreases count_waiting(self.entries@),
        {
            let ghost before = self.entries@;
            let ghost queued = self.to_propagate@;
            let progressed = self.settle_step(stamp);
            proof {
                lemma_rose_twice(old(self).entries@, before, self.entries@, self.delta_f0);
                lemma_waned_twice(old(self).entries@, before, self.entries@);
                lemma_fell_twice(old(self).entries@, before, self.entries@);
                lemma_announced_twice(
                    old(self).entries@,
                    before,
                    queued,
                    self.entries@,
                    self.to_propagate@,
                );
                lemma_felled_twice(old(self).entries@, before, self.entries@);
                lemma_grown(old(self).entries@, before, self.entries@);
                lemma_queue_kept_step(
                    old(self).entries@,
                    old(self).to_propagate@,
                    before,
                    queued,
                    self.entries@,
                    self.to_propagate@,
                );
                if calm(old(self).entries@) {
                    lemma_hushed_twice(old(self).entries@, before, self.entries@);
                }
                lemma_queue_fresh_step(
                    old(self).entries@,
                    old(self).to_propagate@,
                    before,
                    queued,
                    self.entries@,
                    self.to_propagate@,
                );
            }
            if !progressed {
                break;
            }
        }
    }

    /// The link of the block and the links in the lineages of its active
    /// parents, each once.
    pub(super) fn build_lineage(&self, id: &BlockId, header: &BlockHeader) -> (lineage: Vec<Link>)
        requires
            ids_unique(self.entries@),
            header@.slot.thread < header@.parents.len(),
        ensures
            lineage@.len() >= 1,
            lineage@[0] == link_of(*id, header@),
            forall|l: Link|
                in_lineage(lineage@, l) <==> in_ancestry(self.entries@, *id, header@, l),
    {
        let own = Link {
            id: *id,
            slot: header.slot,
            parent: Some(header.parents[header.slot.thread as usize]),
        };
        let mut lineage: Vec<Link> = Vec::new();
        lineage.push(own);
        assert(lineage@[0] == own);
        let mut k: usize = 0;
        while k < header.parents.len()
            invariant
                k <= header.parents@.len(),
                ids_unique(self.entries@),
                own == link_of(*id, header@),
                lineage@.len() >= 1,
                lineage@[0] == own,
                forall|l: Link|
                    in_lineage(lineage@, l) <==> in_ancestry_below(
                        self.entries@,
                        *id,
                        header@,
                        k as int,
                        l,
                    ),
            decreases header.parents@.len() - k,
        {
            match self.find(&header.parents[k]) {
                Some(j) => {
                    if self.entries[j].state == BlockState::Active {
                        self.absorb(id, header, k, j, &mut lineage);
                    } else {
                        proof {
                            lemma_position(self.entries@, j as int);
                            assert forall|l: Link|
                                in_ancestry_below(
                                    self.entries@,
                                    *id,
                                    header@,
                                    k + 1,
                                    l,
                                ) implies in_ancestry_below(
                                self.entries@,
                                *id,
                                header@,
                                k as int,
                                l,
                            ) by {
                                if l != link_of(*id, header@) {
                                    let (k2, j2, n2) = choose|k2: int, j2: int, n2: int|
                                        0 <= k2 < k + 1 && 0 <= j2 < self.entries@.len()
                                            && #[trigger] header@.parents[k2]
                                            == self.entries@[j2].id && self.entries@[j2].state
                                            == BlockState::Active && 0 <= n2
                                            < self.entries@[j2].lineage@.len()
                                            && #[trigger] self.entries@[j2].lineage@[n2] == l;
                                    if k2 == k {
                                        lemma_position(self.entries@, j2);
                                    }
                                }
                            }
                        }
                    }
                },
                None => {
                    proof {
                        assert forall|l: Link|
                            in_ancestry_below(
                                self.entries@,
                                *id,
                                header@,
                                k + 1,
                                l,
                            ) implies in_ancestry_below(
                            self.entries@,
                            *id,
                            header@,
                            k as int,
                            l,
                        ) by {
                            if l != link_of(*id, header@) {
                                let (k2, j2, n2) = choose|k2: int, j2: int, n2: int|
                                    0 <= k2 < k + 1 && 0 <= j2 < self.entries@.len()
                                        && #[trigger] header@.parents[k2] == self.entries@[j2].id
                                        && self.entries@[j2].state == BlockState::Active && 0
                                        <= n2 < self.entries@[j2].lineage@.len()
                                        && #[trigger] self.entries@[j2].lineage@[n2] == l;
                                assert(k2 != k);
                            }
                        }
                    }
                },
            }
            k += 1;
        }
        lineage
    }

    /// Adds to `lineage` the links of the active entry `j`, the parent of
    /// the block in thread `k`, that it does not hold yet.
    pub(super) fn absorb(
        &self,
        id: &BlockId,
        header: &BlockHeader,
        k: usize,
        j: usize,
        lineage: &mut Vec<Link>,
    )
        requires
            ids_unique(self.entries@),
            k < header@.parents.len(),
            j < self.entries@.len(),
            self.entries@[j as int].id == header@.parents[k as int],
            self.entries@[j as int].state == BlockState::Active,
            old(lineage)@.len() >= 1,
            forall|l: Link|
                in_lineage(old(lineage)@, l) <==> in_ancestry_below(
                    self.entries@,
                    *id,
                    header@,
                    k as int,
                    l,
                ),
        ensures
            final(lineage)@.len() >= 1,
            final(lineage)@[0] == old(lineage)@[0],
            forall|l: Link|
                in_lineage(final(lineage)@, l) <==> in_ancestry_below(
                    self.entries@,
                    *id,
                    header@,
                    k + 1,
                    l,
                ),
    {
        let source = &self.entries[j].lineage;
        let mut n: usize = 0;
        while n < source.len()
            invariant
                n <= source@.len(),
                j < self.entries@.len(),
                source@ == self.entries@[j as int].lineage@,
                lineage@.len() >= 1,
                old(lineage)@.len() >= 1,
                lineage@[0] == old(lineage)@[0],
                forall|l: Link|
                    in_lineage(lineage@, l) <==> (in_lineage(old(lineage)@, l) || exists|m: int|
                        0 <= m < n && #[trigger] source@[m] == l),
            decreases source@.len() - n,
        {
            let link = source[n];
            let ghost before = lineage@;
            let held = lineage_holds(lineage, &link);
            if !held {
                lineage.push(link);
            }
            proof {
                assert forall|l: Link|
                    in_lineage(lineage@, l) <==> (in_lineage(old(lineage)@, l) || exists|m: int|
                        0 <= m < n + 1 && #[trigger] source@[m] == l) by {
                    if in_lineage(lineage@, l) {
                        let m = choose|m: int| 0 <= m < lineage@.len() && lineage@[m] == l;
                        if m < before.len() {
                            assert(before[m] == l);
                            assert(in_lineage(before, l));
                        } else {
                            assert(source@[n as int] == l);
                        }
                    }
                    if in_lineage(before, l) {
                        let m = choose|m: int| 0 <= m < before.len() && before[m] == l;
                        assert(lineage@[m] == l);
                    }
                    if exists|m: int| 0 <= m < n + 1 && #[trigger] source@[m] == l {
                        let m = choose|m: int| 0 <= m < n + 1 && #[trigger] source@[m] == l;
                        if m == n {
                            if held {
                                assert(in_lineage(before, l));
                            } else {
                                assert(lineage@[before.len() as int] == l);
                            }
                        }
                    }
                }
            }
            n += 1;
        }
        proof {
            assert forall|l: Link|
                in_lineage(lineage@, l) <==> in_ancestry_below(
                    self.entries@,
                    *id,
                    header@,
                    k + 1,
                    l,
                ) by {
                if in_ancestry_below(self.entries@, *id, header@, k + 1, l) && l != link_of(
                    *id,
                    header@,
                ) {
                    let (k2, j2, n2) = choose|k2: int, j2: int, n2: int|
                        0 <= k2 < k + 1 && 0 <= j2 < self.entries@.len()
                            && #[trigger] header@.parents[k2] == self.entries@[j2].id
                            && self.entries@[j2].state == BlockState::Active && 0 <= n2
                            < self.entries@[j2].lineage@.len()
                            && #[trigger] self.entries@[j2].lineage@[n2] == l;
                    if k2 == k {
                        lemma_position(self.entries@, j2);
                        lemma_position(self.entries@, j as int);
                        assert(source@[n2] == l);
                    }
                }
                if in_lineage(lineage@, l) && !in_lineage(old(lineage)@, l) {
                    let m = choose|m: int| 0 <= m < source@.len() && #[trigger] source@[m] == l;
                    assert(header@.parents[k as int] == self.entries@[j as int].id
                        && self.entries@[j as int].lineage@[m] == l);
                }
            }
        }
    }

    /// Whether `link` conflicts with a final block.
    pub(super) fn conflicts_with_finals(&self, link: &Link) -> (conflict: bool)
        requires
            forall|a: int|
                0 <= a < self.entries@.len() ==> (#[trigger] self.entries@[a]).well_formed(
                    self.thread_count,
                ),
        ensures
            conflict == exists|j: int|
                0 <= j < self.entries@.len() && #[trigger] self.entries@[j].state
                    == BlockState::Final && direct_conflict(*link, self.entries@[j].lineage@[0]),
    {
        let mut j: usize = 0;
        while j < self.entries.len()
            invariant
                j <= self.entries@.len(),
                forall|a: int|
                    0 <= a < self.entries@.len() ==> (#[trigger] self.entries@[a]).well_formed(
                        self.thread_count,
                    ),
                forall|a: int|
                    0 <= a < j ==> !(#[trigger] self.entries@[a].state == BlockState::Final
                        && direct_conflict(*link, self.entries@[a].lineage@[0])),
            decreases self.entries@.len() - j,
        {
            assert(self.entries@[j as int].well_formed(self.thread_count));
            if self.entries[j].state == BlockState::Final && links_conflict(
                link,
                &self.entries[j].lineage[0],
            ) {
                return true;
            }
            j += 1;
        }
        false
    }

    /// Whether the block `id` with `header`, whose lineage is `lineage`,
    /// cannot become active.
    pub(super) fn clashes(&self, id: &BlockId, header: &BlockHeader, lineage: &Vec<Link>) -> (clash: bool)
        requires
            forall|a: int|
                0 <= a < self.entries@.len() ==> (#[trigger] self.entries@[a]).well_formed(
                    self.thread_count,
                ),
            lineage@.len() >= 1,
            lineage@[0] == link_of(*id, header@),
            forall|l: Link|
                in_lineage(lineage@, l) <==> in_ancestry(self.entries@, *id, header@, l),
        ensures
            clash == incompatible(self.entries@, *id, header@),
    {
        let inner = lineages_clash(lineage, lineage);
        let outer = self.conflicts_with_finals(&lineage[0]);
        proof {
            if inner {
                let (x, y) = choose|x: int, y: int|
                    0 <= x < lineage@.len() && 0 <= y < lineage@.len() && direct_conflict(
                        #[trigger] lineage@[x],
                        #[trigger] lineage@[y],
                    );
                assert(in_lineage(lineage@, lineage@[x]));
                assert(in_lineage(lineage@, lineage@[y]));
            }
            if exists|a: Link, b: Link|
                in_ancestry(self.entries@, *id, header@, a) && in_ancestry(
                    self.entries@,
                    *id,
                    header@,
                    b,
                ) && direct_conflict(a, b) {
                let (a, b) = choose|a: Link, b: Link|
                    in_ancestry(self.entries@, *id, header@, a) && in_ancestry(
                        self.entries@,
                        *id,
                        header@,
                        b,
                    ) && direct_conflict(a, b);
                assert(in_lineage(lineage@, a));
                assert(in_lineage(lineage@, b));
                let x = choose|x: int| 0 <= x < lineage@.len() && lineage@[x] == a;
                let y = choose|y: int| 0 <= y < lineage@.len() && lineage@[y] == b;
                assert(direct_conflict(lineage@[x], lineage@[y]));
            }
        }
        inner || outer
    }

    /// What is wrong with `header` and `operations`, whatever the graph
    /// holds.
    pub(super) fn check_structure(
        &self,
        id: &BlockId,
        header: &BlockHeader,
        operations: &Option<Vec<Operation>>,
    ) -> (fault: Option<RejectReason>)
        ensures
            fault == structure_fault(
                self.thread_count,
                self.endorsement_count,
                *id,
                header@,
                match operations {
                    Some(ops) => Some(ops@),
                    None => None,
                },
            ),
    {
        let computed = header.compute_id();
        let root_fits = match operations {
            Some(ops) => compute_operations_root(ops).same(&header.operations_root),
            None => true,
        };
        let signed = header.verify_signature();
        proof {
            computed.lemma_view(*id);
        }
        judge_structure(
            self.thread_count,
            self.endorsement_count,
            header,
            computed.same(id),
            root_fits,
            signed,
        )
    }
}

/// What is wrong with a header, given whether the hash under which it came
/// is the hash of the header, whether the operations that came with it have
/// the root that the header names, and whether its signature is the
/// creator's.
pub open spec fn structure_judgement(
    thread_count: u8,
    endorsement_count: u32,
    h: HeaderView,
    hash_fits: bool,
    root_fits: bool,
    signed: bool,
) -> Option<RejectReason> {
    if h.slot.thread >= thread_count || h.slot.period == 0 || h.parents.len() != thread_count
        || !endorsements_ok(h, endorsement_count) || !hash_fits || !root_fits {
        Some(RejectReason::Malformed)
    } else if !signed {
        Some(RejectReason::InvalidSignature)
    } else {
        None
    }
}

/// What is wrong with `header`, given whether the hash under which it came
/// is the hash of the header, whether the operations that came with it have
/// the root that the header names, and whether its signature is the
/// creator's.
pub fn judge_structure(
    thread_count: u8,
    endorsement_count: u32,
    header: &BlockHeader,
    hash_fits: bool,
    root_fits: bool,
    signed: bool,
) -> (fault: Option<RejectReason>)
    ensures
        fault == structure_judgement(
            thread_count,
            endorsement_count,
            header@,
            hash_fits,
            root_fits,
            signed,
        ),
{
    if header.slot.thread >= thread_count || header.slot.period == 0 || header.parents.len()
        != thread_count as usize {
        return Some(RejectReason::Malformed);
    }
    if !check_endorsements(header, endorsement_count) || !hash_fits || !root_fits {
        return Some(RejectReason::Malformed);
    }
    if !signed {
        return Some(RejectReason::InvalidSignature);
    }
    None
}

} // verus!
