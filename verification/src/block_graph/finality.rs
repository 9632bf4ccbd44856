//! Cliques, the blockclique, and what becomes final.

use crate::block::{
    Block, BlockHeader, BlockId, BlockView, compute_operations_root, copy_vec, header_encoding,
    header_id, Operation, operations_root,
};
use crate::signature::{ed25519_public_key, ed25519_signature, PrivateKey};
use crate::slot::Slot;
use super::model::{
    around, BlockState, can_join, Clique, clique_fitness, cliques_agree, cliques_ok, cliques_with,
    count_state, covered, descends, doomed, final_ready, finality_rest, finalized, fitness_of,
    good_clique, grown, holds, holds_all, ids_unique, is_active, is_blockclique, is_settled,
    joined_lists, joiner, latest_ok, lead, Link, list_views, living, member_lists, parents_final,
    latest_after, position, preferred, queue_kept, queue_ok, refreshed, settled_now,
    settled_in_thread, sound_parents, split_of, splits,
    stand_together, tip, welcome, with_candidates,
};
use super::links::{lineage_holds, lineage_touches, lineages_clash, list_before, member_of};
use super::lemmas::{
    lemma_agree_kept, lemma_cliques_good, lemma_count_less, lemma_filter_holds, lemma_finalization,
    lemma_good_cliques, lemma_good_push, lemma_grown, lemma_latest_after, lemma_lead_grows,
    lemma_position, lemma_preferred, lemma_queue_kept_step,
};
use super::calm::{
    content_kept, felled, lemma_felled_twice, lemma_finalized_felled, same_while, within,
};
use super::cover::{cliques_cover, lemma_cover_refresh};
use super::rise::{
    lemma_finalized_rose, lemma_rooted_finalized, lemma_rose_twice, lineage_kept, rose,
};
use super::BlockGraph;
use vstd::prelude::*;

verus! {

impl BlockGraph {
    /// The fitness of the block `id`.
    pub(super) fn entry_fitness(&self, id: &BlockId) -> (fitness: u128)
        requires
            ids_unique(self.entries@),
        ensures
            fitness == fitness_of(self.entries@, *id),
            fitness <= 1 + usize::MAX,
    {
        match self.find(id) {
            None => 0,
            Some(j) => {
                proof {
                    lemma_position(self.entries@, j as int);
                }
                match &self.entries[j].header {
                    Some(header) => 1 + header.endorsements.len() as u128,
                    None => 0,
                }
            },
        }
    }

    /// Whether the block `id` is a descendant of the block with link `b`.
    pub(super) fn is_descendant(&self, id: &BlockId, b: &Link) -> (yes: bool)
        requires
            ids_unique(self.entries@),
        ensures
            yes == descends(self.entries@, *id, *b),
    {
        if id.same(&b.id) {
            return false;
        }
        match self.find(id) {
            None => false,
            Some(j) => {
                proof {
                    lemma_position(self.entries@, j as int);
                }
                lineage_holds(&self.entries[j].lineage, b)
            },
        }
    }

    /// Whether the fitness of the descendants of the block with link `b` in
    /// the clique `c` exceeds `delta_f0`.
    pub(super) fn leads(&self, c: usize, b: &Link) -> (yes: bool)
        requires
            ids_unique(self.entries@),
            c < self.cliques@.len(),
        ensures
            yes == (lead(self.entries@, self.cliques@[c as int].members@, *b) > self.delta_f0),
    {
        let members = &self.cliques[c].members;
        let mut sum: u128 = 0;
        let mut m: usize = 0;
        proof {
            assert(members@.take(0).len() == 0);
        }
        while m < members.len()
            invariant
                m <= members@.len(),
                ids_unique(self.entries@),
                c < self.cliques@.len(),
                members@ == self.cliques@[c as int].members@,
                sum == lead(self.entries@, members@.take(m as int), *b),
                sum <= self.delta_f0,
            decreases members@.len() - m,
        {
            proof {
                assert(members@.take(m + 1).drop_last() =~= members@.take(m as int));
            }
            if self.is_descendant(&members[m], b) {
                sum = sum + self.entry_fitness(&members[m]);
            }
            if sum > self.delta_f0 as u128 {
                proof {
                    lemma_lead_grows(self.entries@, members@, *b, m + 1);
                }
                return true;
            }
            m += 1;
        }
        proof {
            assert(members@.take(m as int) =~= members@);
        }
        false
    }

    /// Whether every parent that `header` names is a final block.
    pub(super) fn parents_are_final(&self, header: &BlockHeader) -> (yes: bool)
        requires
            ids_unique(self.entries@),
        ensures
            yes == parents_final(self.entries@, header@),
    {
        let mut k: usize = 0;
        while k < header.parents.len()
            invariant
                k <= header.parents@.len(),
                ids_unique(self.entries@),
                forall|a: int|
                    0 <= a < k ==> (position(
                        self.entries@,
                        #[trigger] header@.parents[a],
                    ) matches Some(j) && self.entries@[j].state == BlockState::Final),
            decreases header.parents@.len() - k,
        {
            match self.find(&header.parents[k]) {
                None => {
                    assert(position(self.entries@, header@.parents[k as int]) is None);
                    return false;
                },
                Some(j) => {
                    proof {
                        lemma_position(self.entries@, j as int);
                    }
                    if self.entries[j].state != BlockState::Final {
                        return false;
                    }
                },
            }
            k += 1;
        }
        true
    }

    /// Whether the entry `i` is to become final.
    pub(super) fn is_final_ready(&self, i: usize) -> (yes: bool)
        requires
            ids_unique(self.entries@),
            forall|a: int|
                0 <= a < self.entries@.len() ==> (#[trigger] self.entries@[a]).well_formed(
                    self.thread_count,
                ),
            i < self.entries@.len(),
        ensures
            yes == final_ready(self.entries@, self.cliques@, self.delta_f0, i as int),
    {
        let entry = &self.entries[i];
        assert(entry.well_formed(self.thread_count));
        if entry.state != BlockState::Active {
            return false;
        }
        match &entry.header {
            None => false,
            Some(header) => {
                if !self.parents_are_final(header) {
                    return false;
                }
                let mut standing: bool = false;
                let mut c: usize = 0;
                while c < self.cliques.len()
                    invariant
                        c <= self.cliques@.len(),
                        ids_unique(self.entries@),
                        i < self.entries@.len(),
                        entry == self.entries@[i as int],
                        entry.lineage@.len() >= 1,
                        standing == exists|a: int|
                            0 <= a < c && holds(#[trigger] self.cliques@[a].members@, entry.id),
                        forall|a: int|
                            0 <= a < c && holds(#[trigger] self.cliques@[a].members@, entry.id)
                                ==> lead(
                                self.entries@,
                                self.cliques@[a].members@,
                                entry.lineage@[0],
                            ) > self.delta_f0,
                    decreases self.cliques@.len() - c,
                {
                    if member_of(&self.cliques[c].members, &entry.id) {
                        standing = true;
                        if !self.leads(c, &entry.lineage[0]) {
                            return false;
                        }
                    }
                    c += 1;
                }
                standing
            },
        }
    }

    /// Whether the block `id` is active or final.
    pub(super) fn has_settled(&self, id: &BlockId) -> (yes: bool)
        ensures
            yes == is_settled(self.entries@, *id),
    {
        let mut j: usize = 0;
        while j < self.entries.len()
            invariant
                j <= self.entries@.len(),
                forall|a: int|
                    0 <= a < j ==> !(#[trigger] self.entries@[a].id == *id
                        && self.entries@[a].settled()),
            decreases self.entries@.len() - j,
        {
            if self.entries[j].id.same(id) && (self.entries[j].state == BlockState::Active
                || self.entries[j].state == BlockState::Final) {
                return true;
            }
            j += 1;
        }
        false
    }

    /// Whether the block `id` is active.
    pub(super) fn has_active(&self, id: &BlockId) -> (yes: bool)
        ensures
            yes == is_active(self.entries@, *id),
    {
        let mut j: usize = 0;
        while j < self.entries.len()
            invariant
                j <= self.entries@.len(),
                forall|a: int|
                    0 <= a < j ==> !(#[trigger] self.entries@[a].id == *id
                        && self.entries@[a].state == BlockState::Active),
            decreases self.entries@.len() - j,
        {
            if self.entries[j].id.same(id) && self.entries[j].state == BlockState::Active {
                return true;
            }
            j += 1;
        }
        false
    }

    /// Takes out of the queue what is neither active nor final.
    pub(super) fn refresh_queue(&mut self)
        ensures
            queue_ok(final(self).entries@, final(self).to_propagate@),
            final(self).to_propagate@ == old(self).to_propagate@.filter(
                settled_now(old(self).entries@),
            ),
            queue_kept(final(self).entries@, old(self).to_propagate@, final(self).to_propagate@),
            within(final(self).to_propagate@, old(self).to_propagate@),
            final(self).entries@ == old(self).entries@,
            final(self).cliques@ == old(self).cliques@,
            final(self).latest_final@ == old(self).latest_final@,
            final(self).attack_attempts@ == old(self).attack_attempts@,
            final(self).same_settings(old(self)),
    {
        let ghost keep = settled_now(old(self).entries@);
        let mut kept: Vec<BlockId> = Vec::new();
        let mut q: usize = 0;
        proof {
            assert(self.to_propagate@.take(0) =~= Seq::<BlockId>::empty());
            reveal(Seq::filter);
        }
        while q < self.to_propagate.len()
            invariant
                q <= self.to_propagate@.len(),
                *self == *old(self),
                keep == settled_now(old(self).entries@),
                kept@ == self.to_propagate@.take(q as int).filter(keep),
                forall|a: int| 0 <= a < kept@.len() ==> is_settled(self.entries@, #[trigger] kept@[a]),
            decreases self.to_propagate@.len() - q,
        {
            let id = self.to_propagate[q];
            proof {
                reveal(Seq::filter);
                assert(self.to_propagate@.take(q + 1).drop_last() =~= self.to_propagate@.take(
                    q as int,
                ));
            }
            if self.has_settled(&id) {
                kept.push(id);
            }
            q += 1;
        }
        proof {
            assert(self.to_propagate@.take(q as int) =~= self.to_propagate@);
            reveal(queue_ok);
            assert forall|id: BlockId|
                holds(self.to_propagate@, id) && is_settled(self.entries@, id) implies #[trigger] holds(
                kept@,
                id,
            ) by {
                lemma_filter_holds(self.to_propagate@, keep, id);
            }
            assert forall|id: BlockId| #[trigger] holds(kept@, id) implies holds(
                self.to_propagate@,
                id,
            ) by {
                lemma_filter_holds(self.to_propagate@, keep, id);
            }
        }
        self.to_propagate = kept;
    }

    /// Takes out of the cliques the members that are not active, and the
    /// cliques that are left empty.
    pub(super) fn refresh_cliques(&mut self)
        requires
            cliques_agree(old(self).entries@, old(self).cliques@),
        ensures
            cliques_ok(final(self).entries@, final(self).cliques@),
            cliques_agree(final(self).entries@, final(self).cliques@),
            final(self).entries@ == old(self).entries@,
            final(self).to_propagate@ == old(self).to_propagate@,
            final(self).latest_final@ == old(self).latest_final@,
            final(self).attack_attempts@ == old(self).attack_attempts@,
            final(self).same_settings(old(self)),
            member_lists(final(self).cliques@) == refreshed(
                old(self).entries@,
                member_lists(old(self).cliques@),
            ),
    {
        let mut next: Vec<Clique> = Vec::new();
        let mut c: usize = 0;
        proof {
            assert(member_lists(self.cliques@).take(0) =~= Seq::<Seq<BlockId>>::empty());
            assert(member_lists(next@) =~= Seq::<Seq<BlockId>>::empty());
        }
        while c < self.cliques.len()
            invariant
                c <= self.cliques@.len(),
                *self == *old(self),
                member_lists(next@) == refreshed(
                    self.entries@,
                    member_lists(self.cliques@).take(c as int),
                ),
                cliques_agree(self.entries@, self.cliques@),
                forall|a: int, m: int|
                    0 <= a < next@.len() && 0 <= m < next@[a].members@.len() ==> is_active(
                        self.entries@,
                        #[trigger] next@[a].members@[m],
                    ),
                forall|a: int, m: int, n: int|
                    #![trigger next@[a].members@[m], next@[a].members@[n]]
                    0 <= a < next@.len() && 0 <= m < n < next@[a].members@.len()
                        ==> next@[a].members@[m] != next@[a].members@[n] && stand_together(
                        self.entries@,
                        next@[a].members@[m],
                        next@[a].members@[n],
                    ),
            decreases self.cliques@.len() - c,
        {
            let members = self.active_members(c);
            proof {
                let lists = member_lists(self.cliques@);
                assert(lists.take(c + 1).drop_last() =~= lists.take(c as int));
                assert(lists.take(c + 1).last() == self.cliques@[c as int].members@);
            }
            if members.len() > 0 {
                let ghost before = next@;
                let ghost kept = members@;
                next.push(Clique { members });
                proof {
                    assert(member_lists(next@) =~= member_lists(before).push(kept));
                    assert forall|a: int, m: int|
                        0 <= a < next@.len() && 0 <= m < next@[a].members@.len() implies is_active(
                        self.entries@,
                        #[trigger] next@[a].members@[m],
                    ) by {
                        if a < before.len() {
                            assert(next@[a] == before[a]);
                        }
                    }
                    assert forall|a: int, m: int, n: int|
                        #![trigger next@[a].members@[m], next@[a].members@[n]]
                        0 <= a < next@.len() && 0 <= m < n
                            < next@[a].members@.len() implies next@[a].members@[m]
                        != next@[a].members@[n] && stand_together(
                        self.entries@,
                        next@[a].members@[m],
                        next@[a].members@[n],
                    ) by {
                        if a < before.len() {
                            assert(next@[a] == before[a]);
                        }
                    }
                }
            }
            c += 1;
        }
        proof {
            reveal(cliques_ok);
            reveal(cliques_agree);
            assert(member_lists(self.cliques@).take(c as int) =~= member_lists(self.cliques@));
        }
        self.cliques = next;
    }

    /// The members of the clique `c` that are active, in their order.
    pub(super) fn active_members(&self, c: usize) -> (members: Vec<BlockId>)
        requires
            c < self.cliques@.len(),
            cliques_agree(self.entries@, self.cliques@),
        ensures
            members@ == self.cliques@[c as int].members@.filter(living(self.entries@)),
            forall|a: int| 0 <= a < members@.len() ==> is_active(self.entries@, #[trigger] members@[a]),
            forall|m: int, n: int|
                #![trigger members@[m], members@[n]]
                0 <= m < n < members@.len() ==> members@[m] != members@[n] && stand_together(
                    self.entries@,
                    members@[m],
                    members@[n],
                ),
    {
        let mut members: Vec<BlockId> = Vec::new();
        let ghost mut picked: Seq<int> = Seq::empty();
        let ghost source = self.cliques@[c as int].members@;
        let mut m: usize = 0;
        proof {
            reveal(Seq::filter);
            assert(source.take(0) =~= Seq::<BlockId>::empty());
        }
        while m < self.cliques[c].members.len()
            invariant
                c < self.cliques@.len(),
                source == self.cliques@[c as int].members@,
                m <= source.len(),
                members@ == source.take(m as int).filter(living(self.entries@)),
                cliques_agree(self.entries@, self.cliques@),
                picked.len() == members@.len(),
                forall|a: int|
                    0 <= a < picked.len() ==> 0 <= #[trigger] picked[a] < m && members@[a]
                        == source[picked[a]],
                forall|a: int, b: int|
                    0 <= a < b < picked.len() ==> #[trigger] picked[a] < #[trigger] picked[b],
                forall|a: int|
                    0 <= a < members@.len() ==> is_active(self.entries@, #[trigger] members@[a]),
            decreases source.len() - m,
        {
            let id = self.cliques[c].members[m];
            proof {
                reveal(Seq::filter);
                assert(source.take(m + 1).drop_last() =~= source.take(m as int));
                assert(source.take(m + 1).last() == id);
            }
            if self.has_active(&id) {
                members.push(id);
                proof {
                    picked = picked.push(m as int);
                }
            }
            m += 1;
        }
        proof {
            assert(source.take(m as int) =~= source);
            reveal(cliques_agree);
            assert forall|x: int, y: int|
                #![trigger members@[x], members@[y]]
                0 <= x < y < members@.len() implies members@[x] != members@[y] && stand_together(
                self.entries@,
                members@[x],
                members@[y],
            ) by {
                assert(picked[x] < picked[y]);
                assert(source[picked[x]] != source[picked[y]] && stand_together(
                    self.entries@,
                    self.cliques@[c as int].members@[picked[x]],
                    self.cliques@[c as int].members@[picked[y]],
                ));
            }
        }
        members
    }

    /// Whether the graph `self` is the graph `earlier` once its entry `i`
    /// has become final: that entry is final and the active blocks that
    /// conflict with it are discarded; the block is the latest final block
    /// of its thread where it comes after the one that was; and what is no
    /// longer active has left the cliques, and the queue unless it is final.
    pub open spec fn made_final(&self, earlier: &BlockGraph, i: int) -> bool {
        &&& finalized(earlier.entries(), self.entries(), i)
        &&& self.latest_final() == latest_after(
            earlier.latest_final(),
            earlier.entries()[i].lineage@[0],
        )
        &&& self.to_propagate() == earlier.to_propagate().filter(settled_now(self.entries()))
        &&& member_lists(self.cliques()) == refreshed(
            self.entries(),
            member_lists(earlier.cliques()),
        )
    }

    /// Makes the active entry `i` final: discards the active blocks that
    /// conflict with it, and takes them out of the queue and of the cliques.
    pub(super) fn finalize(&mut self, i: usize, stamp: u64)
        requires
            old(self).wf_core(),
            i < old(self).entries@.len(),
            old(self).entries@[i as int].state == BlockState::Active,
            final_ready(old(self).entries@, old(self).cliques@, old(self).delta_f0, i as int),
            cliques_cover(old(self).entries@, old(self).cliques@),
        ensures
            final(self).wf_core(),
            cliques_cover(final(self).entries@, final(self).cliques@),
            final(self).same_settings(old(self)),
            final(self).attack_attempts() == old(self).attack_attempts(),
            finalized(old(self).entries@, final(self).entries@, i as int),
            final(self).made_final(old(self), i as int),
            rose(old(self).entries@, final(self).entries@, old(self).delta_f0),
            lineage_kept(old(self).entries@, final(self).entries@),
            grown(old(self).entries@, final(self).entries@),
            queue_kept(final(self).entries@, old(self).to_propagate@, final(self).to_propagate@),
            within(final(self).to_propagate@, old(self).to_propagate@),
            felled(old(self).entries@, final(self).entries@),
            same_while(old(self).entries@, final(self).entries@),
    {
        let ghost before = self.entries@;
        assert(before[i as int].well_formed(self.thread_count));
        let link: Link = self.entries[i].lineage[0];
        let mut x: usize = 0;
        while x < self.entries.len()
            invariant
                x <= self.entries@.len(),
                i < before.len(),
                before == old(self).entries@,
                before.len() == self.entries@.len(),
                link == before[i as int].lineage@[0],
                link.id == before[i as int].id,
                before[i as int].state == BlockState::Active,
                ids_unique(before),
                self.same_frame(old(self)),
                forall|j: int| x <= j < before.len() ==> #[trigger] self.entries@[j] == before[j],
                self.entries@[i as int] == before[i as int],
                forall|j: int|
                    0 <= j < x && j != i ==> {
                        let a = #[trigger] self.entries@[j];
                        let e = before[j];
                        &&& a.id == e.id
                        &&& a.header == e.header
                        &&& a.operations == e.operations
                        &&& a.lineage == e.lineage
                        &&& a.state == if doomed(e, link) {
                            BlockState::Discarded
                        } else {
                            e.state
                        }
                        &&& a.state == e.state ==> a == e
                    },
            decreases self.entries@.len() - x,
        {
            if x != i && self.entries[x].state == BlockState::Active && lineage_touches(
                &self.entries[x].lineage,
                &link,
            ) {
                proof {
                    if x < i {
                        assert(before[x as int].id != before[i as int].id);
                    } else {
                        assert(before[i as int].id != before[x as int].id);
                    }
                }
                self.entries[x].state = BlockState::Discarded;
                self.entries[x].stamp = stamp;
            }
            x += 1;
        }
        self.entries[i].state = BlockState::Final;
        let thread = link.slot.thread as usize;
        proof {
            reveal(latest_ok);
        }
        if self.latest_final[thread].slot.period < link.slot.period {
            self.latest_final[thread] = link;
        }
        proof {
            assert(finalized(before, self.entries@, i as int));
            lemma_finalization(before, self.entries@, i as int, self.thread_count);
            lemma_rooted_finalized(before, self.entries@, i as int);
            lemma_latest_after(
                before,
                self.entries@,
                i as int,
                old(self).latest_final@,
                self.thread_count,
            );
            lemma_agree_kept(before, self.entries@, self.cliques@);
            lemma_finalized_felled(before, self.entries@, i as int);
            lemma_finalized_rose(
                before,
                self.entries@,
                i as int,
                old(self).cliques@,
                self.delta_f0,
            );
            assert(self.latest_final@ =~= latest_after(old(self).latest_final@, link));
        }
        self.refresh_queue();
        self.refresh_cliques();
        proof {
            lemma_cover_refresh(before, self.entries@, old(self).cliques@, self.cliques@);
        }
    }

    /// Makes final the first active entry that is to become final, and says
    /// whether there was one.
    pub(super) fn finalize_step(&mut self, stamp: u64) -> (progressed: bool)
        requires
            old(self).wf_core(),
            cliques_cover(old(self).entries@, old(self).cliques@),
        ensures
            final(self).wf_core(),
            cliques_cover(final(self).entries@, final(self).cliques@),
            final(self).same_settings(old(self)),
            final(self).attack_attempts() == old(self).attack_attempts(),
            final(self).entries@.len() == old(self).entries@.len(),
            grown(old(self).entries@, final(self).entries@),
            forall|j: int|
                0 <= j < old(self).entries@.len() && old(self).entries@[j].state
                    != BlockState::Active ==> #[trigger] final(self).entries@[j] == old(
                    self,
                ).entries@[j],
            queue_kept(final(self).entries@, old(self).to_propagate@, final(self).to_propagate@),
            within(final(self).to_propagate@, old(self).to_propagate@),
            content_kept(old(self).entries@, final(self).entries@),
            felled(old(self).entries@, final(self).entries@),
            same_while(old(self).entries@, final(self).entries@),
            rose(old(self).entries@, final(self).entries@, old(self).delta_f0),
            lineage_kept(old(self).entries@, final(self).entries@),
            progressed ==> count_state(final(self).entries@, BlockState::Active) < count_state(
                old(self).entries@,
                BlockState::Active,
            ),
            progressed ==> exists|i: int|
                #![trigger final_ready(old(self).entries@, old(self).cliques@, old(self).delta_f0, i)]
                0 <= i < old(self).entries@.len() && final_ready(
                    old(self).entries@,
                    old(self).cliques@,
                    old(self).delta_f0,
                    i,
                ) && final(self).made_final(old(self), i),
            !progressed ==> final(self).finality_at_rest() && *final(self) == *old(self),
    {
        let mut i: usize = 0;
        while i < self.entries.len()
            invariant
                i <= self.entries@.len(),
                self.wf_core(),
                cliques_cover(self.entries@, self.cliques@),
                *self == *old(self),
                forall|j: int|
                    0 <= j < i ==> !final_ready(
                        self.entries@,
                        self.cliques@,
                        self.delta_f0,
                        j,
                    ),
            decreases self.entries@.len() - i,
        {
            if self.is_final_ready(i) {
                self.finalize(i, stamp);
                proof {
                    lemma_count_less(
                        old(self).entries@,
                        self.entries@,
                        i as int,
                        BlockState::Active,
                    );
                }
                return true;
            }
            i += 1;
        }
        proof {
            reveal(finality_rest);
            lemma_grown(self.entries@, self.entries@, self.entries@);
        }
        false
    }

    /// Makes final every active entry that is to become final, until none
    /// is.
    pub(super) fn finalize_all(&mut self, stamp: u64)
        requires
            old(self).wf_core(),
            cliques_cover(old(self).entries@, old(self).cliques@),
        ensures
            final(self).wf_core(),
            final(self).finality_at_rest(),
            queue_kept(final(self).entries@, old(self).to_propagate@, final(self).to_propagate@),
            within(final(self).to_propagate@, old(self).to_propagate@),
            content_kept(old(self).entries@, final(self).entries@),
            felled(old(self).entries@, final(self).entries@),
            same_while(old(self).entries@, final(self).entries@),
            rose(old(self).entries@, final(self).entries@, old(self).delta_f0),
            lineage_kept(old(self).entries@, final(self).entries@),
            final(self).entries@ == old(self).entries@ ==> *final(self) == *old(self),
            final(self).same_settings(old(self)),
            final(self).attack_attempts() == old(self).attack_attempts(),
            final(self).entries@.len() == old(self).entries@.len(),
            grown(old(self).entries@, final(self).entries@),
            forall|j: int|
                0 <= j < old(self).entries@.len() && old(self).entries@[j].state
                    != BlockState::Active ==> #[trigger] final(self).entries@[j] == old(
                    self,
                ).entries@[j],
    {
        proof {
            lemma_grown(self.entries@, self.entries@, self.entries@);
        }
        loop
            invariant
                self.wf_core(),
                old(self).wf_core(),
                cliques_cover(self.entries@, self.cliques@),
                self.same_settings(old(self)),
                self.attack_attempts() == old(self).attack_attempts(),
                self.entries@.len() == old(self).entries@.len(),
                grown(old(self).entries@, self.entries@),
                queue_kept(self.entries@, old(self).to_propagate@, self.to_propagate@),
                within(self.to_propagate@, old(self).to_propagate@),
                content_kept(old(self).entries@, self.entries@),
                felled(old(self).entries@, self.entries@),
                same_while(old(self).entries@, self.entries@),
                rose(old(self).entries@, self.entries@, old(self).delta_f0),
                lineage_kept(old(self).entries@, self.entries@),
                self.delta_f0 == old(self).delta_f0,
                *self == *old(self) || count_state(self.entries@, BlockState::Active)
                    < count_state(old(self).entries@, BlockState::Active),
                forall|j: int|
                    0 <= j < old(self).entries@.len() && old(self).entries@[j].state
                        != BlockState::Active ==> #[trigger] self.entries@[j] == old(
                        self,
                    ).entries@[j],
            ensures
                self.finality_at_rest(),
            decreases count_state(self.entries@, BlockState::Active),
        {
            let ghost before = self.entries@;
            let ghost queued = self.to_propagate@;
            let progressed = self.finalize_step(stamp);
            proof {
                lemma_rose_twice(old(self).entries@, before, self.entries@, self.delta_f0);
                lemma_felled_twice(old(self).entries@, before, self.entries@);
                lemma_grown(old(self).entries@, before, self.entries@);
                lemma_queue_kept_step(
                    old(self).entries@,
                    old(self).to_propagate@,
                    before,
                    queued,
                    self.entries@,
                    self.to_propagate@,
                );
                assert forall|j: int|
                    0 <= j < old(self).entries@.len() && old(self).entries@[j].state
                        != BlockState::Active implies #[trigger] self.entries@[j] == old(
                    self,
                ).entries@[j] by {
                    assert(before[j] == old(self).entries@[j]);
                }
            }
            if !progressed {
                break;
            }
        }
    }

    /// The fitness of the clique `c`.
    pub(super) fn fitness_of_clique(&self, c: usize) -> (fitness: u128)
        requires
            ids_unique(self.entries@),
            c < self.cliques@.len(),
        ensures
            fitness == clique_fitness(self.entries@, self.cliques@[c as int].members@),
    {
        let members = &self.cliques[c].members;
        let mut sum: u128 = 0;
        let mut m: usize = 0;
        proof {
            assert(members@.take(0).len() == 0);
        }
        while m < members.len()
            invariant
                m <= members@.len(),
                ids_unique(self.entries@),
                sum == clique_fitness(self.entries@, members@.take(m as int)),
                sum <= m * (usize::MAX + 1),
            decreases members@.len() - m,
        {
            proof {
                assert(members@.take(m + 1).drop_last() =~= members@.take(m as int));
                assert((m + 1) * (usize::MAX + 1) == m * (usize::MAX + 1) + (usize::MAX + 1))
                    by (nonlinear_arith);
                assert((m + 1) * (usize::MAX + 1) <= usize::MAX * (usize::MAX + 1))
                    by (nonlinear_arith)
                    requires
                        m + 1 <= usize::MAX,
                ;
                assert(usize::MAX * (usize::MAX + 1) <= u128::MAX) by (nonlinear_arith)
                    requires
                        usize::MAX <= u64::MAX,
                ;
            }
            sum = sum + self.entry_fitness(&members[m]);
            m += 1;
        }
        proof {
            assert(members@.take(m as int) =~= members@);
        }
        sum
    }

    /// Whether the clique `a` is preferred to the clique `b`.
    pub(super) fn prefers(&self, a: usize, b: usize) -> (yes: bool)
        requires
            ids_unique(self.entries@),
            a < self.cliques@.len(),
            b < self.cliques@.len(),
        ensures
            yes == preferred(
                self.entries@,
                self.cliques@[a as int].members@,
                self.cliques@[b as int].members@,
            ),
    {
        let fa = self.fitness_of_clique(a);
        let fb = self.fitness_of_clique(b);
        fa > fb || (fa == fb && list_before(&self.cliques[b].members, &self.cliques[a].members))
    }

    /// The index of the blockclique: a clique to which no other is
    /// preferred.  `None` where there is no clique.
    pub(super) fn best_clique(&self) -> (best: Option<usize>)
        requires
            ids_unique(self.entries@),
        ensures
            match best {
                Some(b) => is_blockclique(self.entries@, self.cliques@, b as int),
                None => self.cliques@.len() == 0,
            },
    {
        if self.cliques.len() == 0 {
            return None;
        }
        let mut best: usize = 0;
        let mut c: usize = 1;
        proof {
            lemma_preferred(
                self.entries@,
                self.cliques@[0].members@,
                self.cliques@[0].members@,
                self.cliques@[0].members@,
            );
        }
        while c < self.cliques.len()
            invariant
                1 <= c <= self.cliques@.len(),
                best < c,
                ids_unique(self.entries@),
                forall|a: int|
                    0 <= a < c ==> !preferred(
                        self.entries@,
                        (#[trigger] self.cliques@[a]).members@,
                        self.cliques@[best as int].members@,
                    ),
            decreases self.cliques@.len() - c,
        {
            if self.prefers(c, best) {
                proof {
                    assert forall|a: int| 0 <= a < c + 1 implies !preferred(
                        self.entries@,
                        (#[trigger] self.cliques@[a]).members@,
                        self.cliques@[c as int].members@,
                    ) by {
                        lemma_preferred(
                            self.entries@,
                            self.cliques@[a].members@,
                            self.cliques@[c as int].members@,
                            self.cliques@[best as int].members@,
                        );
                        lemma_preferred(
                            self.entries@,
                            self.cliques@[c as int].members@,
                            self.cliques@[c as int].members@,
                            self.cliques@[c as int].members@,
                        );
                    }
                }
                best = c;
            }
            c += 1;
        }
        Some(best)
    }

    /// Whether the graph knows the block `id` and the block can stand with
    /// the entry `i`: no block of the lineage of one conflicts with a block
    /// of the lineage of the other.
    pub(super) fn compatible(&self, id: &BlockId, i: usize) -> (yes: bool)
        requires
            ids_unique(self.entries@),
            i < self.entries@.len(),
        ensures
            yes == (position(self.entries@, *id) is Some && stand_together(
                self.entries@,
                *id,
                self.entries@[i as int].id,
            )),
    {
        proof {
            lemma_position(self.entries@, i as int);
        }
        match self.find(id) {
            None => false,
            Some(j) => {
                proof {
                    lemma_position(self.entries@, j as int);
                }
                !lineages_clash(&self.entries[j].lineage, &self.entries[i].lineage)
            },
        }
    }

    /// Whether the graph knows every member of the clique `c`, and each can
    /// stand with the entry `i`.
    pub(super) fn welcomes(&self, c: usize, i: usize) -> (yes: bool)
        requires
            ids_unique(self.entries@),
            c < self.cliques@.len(),
            i < self.entries@.len(),
        ensures
            yes == welcome(
                self.entries@,
                self.cliques@[c as int].members@,
                self.entries@[i as int].id,
            ),
    {
        let mut m: usize = 0;
        while m < self.cliques[c].members.len()
            invariant
                ids_unique(self.entries@),
                c < self.cliques@.len(),
                i < self.entries@.len(),
                m <= self.cliques@[c as int].members@.len(),
                forall|a: int|
                    0 <= a < m ==> can_join(
                        self.entries@,
                        #[trigger] self.cliques@[c as int].members@[a],
                        self.entries@[i as int].id,
                    ),
            decreases self.cliques@[c as int].members@.len() - m,
        {
            if !self.compatible(&self.cliques[c].members[m], i) {
                assert(!can_join(
                    self.entries@,
                    self.cliques@[c as int].members@[m as int],
                    self.entries@[i as int].id,
                ));
                return false;
            }
            m += 1;
        }
        true
    }

    /// The members of the clique `source` that can stand with the entry `i`,
    /// in their order, and behind them the entry itself.
    pub(super) fn clique_around(&self, source: Option<usize>, i: usize) -> (fresh: Vec<BlockId>)
        requires
            ids_unique(self.entries@),
            cliques_ok(self.entries@, self.cliques@),
            cliques_agree(self.entries@, self.cliques@),
            i < self.entries@.len(),
            self.entries@[i as int].state == BlockState::Active,
            match source {
                Some(b) => b < self.cliques@.len() && !holds(
                    self.cliques@[b as int].members@,
                    self.entries@[i as int].id,
                ),
                None => true,
            },
        ensures
            fresh@ == around(
                self.entries@,
                match source {
                    Some(b) => self.cliques@[b as int].members@,
                    None => Seq::empty(),
                },
                self.entries@[i as int].id,
            ),
            good_clique(self.entries@, fresh@),
    {
        let id = self.entries[i].id;
        let mut fresh: Vec<BlockId> = Vec::new();
        let ghost mut picked: Seq<int> = Seq::empty();
        let ghost base: Seq<BlockId> = match source {
            Some(b) => self.cliques@[b as int].members@,
            None => Seq::empty(),
        };
        proof {
            reveal(Seq::filter);
            assert(base.take(0) =~= Seq::<BlockId>::empty());
            if source is None {
                assert(base.filter(joiner(self.entries@, id)) =~= Seq::<BlockId>::empty());
            }
        }
        match source {
            None => {},
            Some(b) => {
                let ghost source = self.cliques@[b as int].members@;
                let mut m: usize = 0;
                while m < self.cliques[b].members.len()
                    invariant
                        fresh@ == source.take(m as int).filter(joiner(self.entries@, id)),
                        ids_unique(self.entries@),
                        cliques_ok(self.entries@, self.cliques@),
                        b < self.cliques@.len(),
                        i < self.entries@.len(),
                        id == self.entries@[i as int].id,
                        source == self.cliques@[b as int].members@,
                        !holds(source, id),
                        m <= source.len(),
                        picked.len() == fresh@.len(),
                        forall|a: int|
                            0 <= a < picked.len() ==> 0 <= #[trigger] picked[a] < m && fresh@[a]
                                == source[picked[a]],
                        forall|a: int, b: int|
                            0 <= a < b < picked.len() ==> #[trigger] picked[a]
                                < #[trigger] picked[b],
                        forall|a: int|
                            0 <= a < fresh@.len() ==> is_active(self.entries@, #[trigger] fresh@[a])
                                && fresh@[a] != id && stand_together(self.entries@, fresh@[a], id),
                    decreases source.len() - m,
                {
                    let member = self.cliques[b].members[m];
                    proof {
                        reveal(cliques_ok);
                        assert(is_active(self.entries@, self.cliques@[b as int].members@[m as int]));
                        if member == id {
                            assert(source[m as int] == id);
                        }
                        reveal(Seq::filter);
                        assert(source.take(m + 1).drop_last() =~= source.take(m as int));
                        assert(source.take(m + 1).last() == member);
                    }
                    if self.compatible(&member, i) {
                        fresh.push(member);
                        proof {
                            picked = picked.push(m as int);
                        }
                    }
                    m += 1;
                }
                proof {
                    assert(source.take(m as int) =~= source);
                    reveal(cliques_agree);
                    assert forall|x: int, y: int|
                        #![trigger fresh@[x], fresh@[y]]
                        0 <= x < y < fresh@.len() implies fresh@[x] != fresh@[y] && stand_together(
                        self.entries@,
                        fresh@[x],
                        fresh@[y],
                    ) by {
                        assert(picked[x] < picked[y]);
                        assert(source[picked[x]] != source[picked[y]] && stand_together(
                            self.entries@,
                            self.cliques@[b as int].members@[picked[x]],
                            self.cliques@[b as int].members@[picked[y]],
                        ));
                    }
                }
            },
        }
        let ghost before = fresh@;
        assert(before == base.filter(joiner(self.entries@, id)));
        fresh.push(id);
        proof {
            assert(is_active(self.entries@, id));
            assert forall|x: int, y: int|
                #![trigger fresh@[x], fresh@[y]]
                0 <= x < y < fresh@.len() implies fresh@[x] != fresh@[y] && stand_together(
                self.entries@,
                fresh@[x],
                fresh@[y],
            ) by {
                if y < before.len() {
                    assert(fresh@[x] == before[x] && fresh@[y] == before[y]);
                } else {
                    assert(fresh@[x] == before[x]);
                }
            }
        }
        fresh
    }

    /// Whether one of the cliques holds every one of `members`.
    pub(super) fn covers(&self, members: &Vec<BlockId>) -> (yes: bool)
        ensures
            yes == covered(member_lists(self.cliques@), members@),
    {
        let ghost lists = member_lists(self.cliques@);
        let mut c: usize = 0;
        while c < self.cliques.len()
            invariant
                c <= self.cliques@.len(),
                lists == member_lists(self.cliques@),
                forall|a: int| 0 <= a < c ==> !holds_all(#[trigger] lists[a], members@),
            decreases self.cliques@.len() - c,
        {
            let ghost clique = self.cliques@[c as int].members@;
            let mut all: bool = true;
            let mut m: usize = 0;
            while m < members.len()
                invariant
                    c < self.cliques@.len(),
                    clique == self.cliques@[c as int].members@,
                    m <= members@.len(),
                    all == forall|a: int| 0 <= a < m ==> holds(clique, #[trigger] members@[a]),
                decreases members@.len() - m,
            {
                if !member_of(&self.cliques[c].members, &members[m]) {
                    all = false;
                }
                m += 1;
            }
            assert(lists[c as int] == clique);
            assert(all == holds_all(clique, members@));
            if all {
                return true;
            }
            c += 1;
        }
        false
    }

    /// The cliques that the active entry `i`, which stands in no clique,
    /// gives rise to: for each clique that has a member with which the
    /// entry cannot stand, the members with which it can stand and the entry
    /// itself; where there is no clique, the entry alone.
    pub(super) fn split_cliques(&self, i: usize) -> (candidates: Vec<Vec<BlockId>>)
        requires
            self.wf_core(),
            i < self.entries@.len(),
            self.entries@[i as int].state == BlockState::Active,
            forall|c: int|
                0 <= c < self.cliques@.len() ==> !holds(
                    (#[trigger] self.cliques@[c]).members@,
                    self.entries@[i as int].id,
                ),
        ensures
            list_views(candidates@) == split_of(
                self.entries@,
                member_lists(self.cliques@),
                self.entries@[i as int].id,
            ),
            forall|k: int|
                0 <= k < candidates@.len() ==> good_clique(
                    self.entries@,
                    (#[trigger] candidates@[k])@,
                ),
    {
        let ghost lists = member_lists(self.cliques@);
        let ghost id = self.entries@[i as int].id;
        let mut candidates: Vec<Vec<BlockId>> = Vec::new();
        if self.cliques.len() == 0 {
            candidates.push(self.clique_around(None, i));
            assert(list_views(candidates@) =~= seq![around(self.entries@, Seq::empty(), id)]);
        } else {
            assert(list_views(candidates@) =~= splits(self.entries@, lists, id, 0));
        }
        let mut c: usize = 0;
        while c < self.cliques.len()
            invariant
                c <= self.cliques@.len(),
                lists == member_lists(self.cliques@),
                id == self.entries@[i as int].id,
                self.cliques@.len() > 0 ==> list_views(candidates@) == splits(
                    self.entries@,
                    lists,
                    id,
                    c as nat,
                ),
                self.cliques@.len() == 0 ==> list_views(candidates@) == seq![
                    around(self.entries@, Seq::empty(), id),
                ],
                self.wf_core(),
                i < self.entries@.len(),
                self.entries@[i as int].state == BlockState::Active,
                forall|a: int|
                    0 <= a < self.cliques@.len() ==> !holds(
                        (#[trigger] self.cliques@[a]).members@,
                        self.entries@[i as int].id,
                    ),
                forall|k: int|
                    0 <= k < candidates@.len() ==> good_clique(
                        self.entries@,
                        (#[trigger] candidates@[k])@,
                    ),
            decreases self.cliques@.len() - c,
        {
            assert(lists[c as int] == self.cliques@[c as int].members@);
            if !self.welcomes(c, i) {
                let ghost before = candidates@;
                let fresh = self.clique_around(Some(c), i);
                candidates.push(fresh);
                proof {
                    assert(list_views(candidates@) =~= list_views(before).push(
                        around(self.entries@, lists[c as int], id),
                    ));
                    assert forall|k: int| 0 <= k < candidates@.len() implies good_clique(
                        self.entries@,
                        (#[trigger] candidates@[k])@,
                    ) by {
                        if k < before.len() {
                            assert(candidates@[k] == before[k]);
                        }
                    }
                }
            }
            c += 1;
        }
        candidates
    }

    /// Puts the active entry `i`, which stands in no clique, into every
    /// clique whose members can all stand with it, and opens a clique for
    /// each clique that it splits, unless another clique holds all the
    /// members of the new one.
    pub(super) fn join_cliques(&mut self, i: usize)
        requires
            old(self).wf_core(),
            i < old(self).entries@.len(),
            old(self).entries@[i as int].state == BlockState::Active,
            forall|c: int|
                0 <= c < old(self).cliques@.len() ==> !holds(
                    (#[trigger] old(self).cliques@[c]).members@,
                    old(self).entries@[i as int].id,
                ),
        ensures
            final(self).wf_core(),
            final(self).same_settings(old(self)),
            final(self).entries@ == old(self).entries@,
            final(self).to_propagate@ == old(self).to_propagate@,
            final(self).latest_final@ == old(self).latest_final@,
            final(self).attack_attempts@ == old(self).attack_attempts@,
            member_lists(final(self).cliques@) == cliques_with(
                old(self).entries@,
                member_lists(old(self).cliques@),
                old(self).entries@[i as int].id,
            ),
    {
        let id = self.entries[i].id;
        let candidates = self.split_cliques(i);
        let ghost first = member_lists(self.cliques@);
        let ghost opened = list_views(candidates@);
        proof {
            lemma_good_cliques(self.entries@, self.cliques@);
            assert(is_active(self.entries@, id));
            assert(member_lists(self.cliques@) =~= joined_lists(self.entries@, first, id, 0));
        }
        let mut c: usize = 0;
        while c < self.cliques.len()
            invariant
                c <= self.cliques@.len(),
                self.cliques@.len() == first.len(),
                member_lists(self.cliques@) == joined_lists(self.entries@, first, id, c as int),
                i < self.entries@.len(),
                id == self.entries@[i as int].id,
                ids_unique(self.entries@),
                is_active(self.entries@, id),
                self.same_settings(old(self)),
                self.entries@ == old(self).entries@,
                self.to_propagate@ == old(self).to_propagate@,
                self.latest_final@ == old(self).latest_final@,
                self.attack_attempts@ == old(self).attack_attempts@,
                forall|a: int|
                    c <= a < self.cliques@.len() ==> !holds(
                        (#[trigger] self.cliques@[a]).members@,
                        id,
                    ),
                forall|a: int|
                    0 <= a < self.cliques@.len() ==> good_clique(
                        self.entries@,
                        (#[trigger] self.cliques@[a]).members@,
                    ),
            decreases self.cliques@.len() - c,
        {
            let ghost lists = member_lists(self.cliques@);
            assert(lists[c as int] == self.cliques@[c as int].members@);
            assert(lists[c as int] == first[c as int]);
            if self.welcomes(c, i) {
                let ghost before = self.cliques@;
                self.cliques[c].members.push(id);
                proof {
                    assert(member_lists(self.cliques@) =~= joined_lists(
                        self.entries@,
                        first,
                        id,
                        c + 1,
                    )) by {
                        assert forall|a: int| 0 <= a < first.len() implies member_lists(
                            self.cliques@,
                        )[a] == joined_lists(self.entries@, first, id, c + 1)[a] by {
                            if a != c {
                                assert(self.cliques@[a] == before[a]);
                                assert(lists[a] == before[a].members@);
                            }
                        }
                    }
                    lemma_good_push(self.entries@, before[c as int].members@, id);
                    assert forall|a: int|
                        c + 1 <= a < self.cliques@.len() implies !holds(
                        (#[trigger] self.cliques@[a]).members@,
                        id,
                    ) by {
                        assert(self.cliques@[a] == before[a]);
                    }
                    assert forall|a: int| 0 <= a < self.cliques@.len() implies good_clique(
                        self.entries@,
                        (#[trigger] self.cliques@[a]).members@,
                    ) by {
                        if a != c {
                            assert(self.cliques@[a] == before[a]);
                        }
                    }
                }
            } else {
                assert(member_lists(self.cliques@) =~= joined_lists(
                    self.entries@,
                    first,
                    id,
                    c + 1,
                ));
            }
            c += 1;
        }
        let ghost joined = joined_lists(self.entries@, first, id, first.len() as int);
        let mut k: usize = 0;
        while k < candidates.len()
            invariant
                k <= candidates@.len(),
                opened == list_views(candidates@),
                member_lists(self.cliques@) == with_candidates(joined, opened, k as nat),
                self.same_settings(old(self)),
                self.entries@ == old(self).entries@,
                self.to_propagate@ == old(self).to_propagate@,
                self.latest_final@ == old(self).latest_final@,
                self.attack_attempts@ == old(self).attack_attempts@,
                forall|a: int|
                    0 <= a < candidates@.len() ==> good_clique(
                        self.entries@,
                        (#[trigger] candidates@[a])@,
                    ),
                forall|a: int|
                    0 <= a < self.cliques@.len() ==> good_clique(
                        self.entries@,
                        (#[trigger] self.cliques@[a]).members@,
                    ),
            decreases candidates@.len() - k,
        {
            assert(opened[k as int] == candidates@[k as int]@);
            if !self.covers(&candidates[k]) {
                let ghost before = self.cliques@;
                self.cliques.push(Clique { members: copy_vec(&candidates[k]) });
                proof {
                    assert(member_lists(self.cliques@) =~= member_lists(before).push(
                        opened[k as int],
                    ));
                    assert forall|a: int| 0 <= a < self.cliques@.len() implies good_clique(
                        self.entries@,
                        (#[trigger] self.cliques@[a]).members@,
                    ) by {
                        if a < before.len() {
                            assert(self.cliques@[a] == before[a]);
                        }
                    }
                }
            }
            k += 1;
        }
        proof {
            lemma_cliques_good(self.entries@, self.cliques@);
        }
    }

    /// The members of the blockclique `best`, or none where there is no
    /// clique.
    pub open spec fn members_of(&self, best: Option<int>) -> Seq<BlockId> {
        match best {
            Some(b) => self.cliques()[b].members@,
            None => Seq::empty(),
        }
    }

    /// Whether `parents` are the best parents: in each thread the latest
    /// block of the blockclique, or the latest final block of the thread
    /// where the blockclique has no later block of the thread.
    pub open spec fn best(&self, parents: Seq<BlockId>) -> bool {
        parents.len() == self.thread_count() && exists|best: Option<int>|
            #[trigger] self.best_of(parents, best)
    }

    /// Whether `parents` are the best parents, `best` being the blockclique
    /// where there is a clique.
    pub open spec fn best_of(&self, parents: Seq<BlockId>, best: Option<int>) -> bool {
        &&& match best {
            Some(b) => is_blockclique(self.entries(), self.cliques(), b),
            None => self.cliques().len() == 0,
        }
        &&& forall|t: int|
            0 <= t < self.thread_count() ==> #[trigger] parents[t] == tip(
                self.entries(),
                self.members_of(best),
                t as u8,
                (self.latest_final()[t].id, self.latest_final()[t].slot.period),
            ).0
    }

    /// The parents that a block created now would name: in each thread the
    /// latest block of the blockclique, or the latest final block where the
    /// blockclique has no later block of the thread.  Each is an active or
    /// final block of its thread.
    pub fn best_parents(&self) -> (parents: Vec<BlockId>)
        requires
            self.wf(),
        ensures
            sound_parents(self.entries(), parents@, self.thread_count()),
            self.best(parents@),
    {
        let best = self.best_clique();
        let ghost chosen: Option<int> = match best {
            Some(b) => Some(b as int),
            None => None,
        };
        let mut parents: Vec<BlockId> = Vec::new();
        let mut thread: u8 = 0;
        while thread < self.thread_count
            invariant
                thread <= self.thread_count,
                self.wf(),
                match best {
                    Some(b) => b < self.cliques@.len() && chosen == Some(b as int),
                    None => chosen is None,
                },
                parents@.len() == thread,
                forall|t: int|
                    0 <= t < thread ==> settled_in_thread(self.entries@, #[trigger] parents@[t], t),
                forall|t: int|
                    0 <= t < thread ==> #[trigger] parents@[t] == tip(
                        self.entries@,
                        self.members_of(chosen),
                        t as u8,
                        (self.latest_final@[t].id, self.latest_final@[t].slot.period),
                    ).0,
            decreases self.thread_count - thread,
        {
            let tip = self.tip_of(best, thread);
            parents.push(tip);
            thread += 1;
        }
        proof {
            assert(self.best_of(parents@, chosen));
        }
        parents
    }

    /// The latest block of the clique `clique` in thread `thread`, or the
    /// latest final block of the thread.
    pub(super) fn tip_of(&self, clique: Option<usize>, thread: u8) -> (found: BlockId)
        requires
            self.wf(),
            thread < self.thread_count,
            match clique {
                Some(b) => b < self.cliques@.len(),
                None => true,
            },
        ensures
            settled_in_thread(self.entries@, found, thread as int),
            found == tip(
                self.entries@,
                match clique {
                    Some(b) => self.cliques@[b as int].members@,
                    None => Seq::empty(),
                },
                thread,
                (
                    self.latest_final@[thread as int].id,
                    self.latest_final@[thread as int].slot.period,
                ),
            ).0,
    {
        proof {
            reveal(latest_ok);
        }
        let floor = &self.latest_final[thread as usize];
        let mut found: BlockId = floor.id;
        let mut period: u64 = floor.slot.period;
        proof {
            let j = choose|j: int|
                0 <= j < self.entries@.len() && #[trigger] self.entries@[j].state
                    == BlockState::Final && self.entries@[j].lineage@[0]
                    == self.latest_final@[thread as int];
            assert(self.entries@[j].well_formed(self.thread_count));
            assert(self.entries@[j].id == found && self.entries@[j].settled()
                && self.entries@[j].head().slot.thread == thread);
        }
        match clique {
            None => {},
            Some(b) => {
                let ghost members = self.cliques@[b as int].members@;
                let ghost start = (floor.id, floor.slot.period);
                let mut m: usize = 0;
                proof {
                    assert(members.take(0).len() == 0);
                }
                while m < self.cliques[b].members.len()
                    invariant
                        b < self.cliques@.len(),
                        members == self.cliques@[b as int].members@,
                        m <= members.len(),
                        ids_unique(self.entries@),
                        forall|a: int|
                            0 <= a < self.entries@.len() ==> (
                            #[trigger] self.entries@[a]).well_formed(self.thread_count),
                        settled_in_thread(self.entries@, found, thread as int),
                        (found, period) == tip(self.entries@, members.take(m as int), thread, start),
                    decreases members.len() - m,
                {
                    let member = self.cliques[b].members[m];
                    proof {
                        assert(members.take(m + 1).drop_last() =~= members.take(m as int));
                        assert(members.take(m + 1).last() == member);
                    }
                    match self.find(&member) {
                        None => {},
                        Some(j) => {
                            proof {
                                lemma_position(self.entries@, j as int);
                            }
                            let entry = &self.entries[j];
                            assert(entry.well_formed(self.thread_count));
                            if entry.state == BlockState::Active {
                                match &entry.header {
                                    Some(header) => {
                                        if header.slot.thread == thread && header.slot.period
                                            > period {
                                            found = member;
                                            period = header.slot.period;
                                            assert(self.entries@[j as int].id == found
                                                && self.entries@[j as int].settled());
                                        }
                                    },
                                    None => {},
                                }
                            }
                        },
                    }
                    m += 1;
                }
                proof {
                    assert(members.take(m as int) =~= members);
                }
            },
        }
        found
    }

    /// Whether `block` is a block for `slot` that carries `operations`, names
    /// one active or final block of each thread as its parents and no
    /// endorsement, is created and signed by the owner of `key`, and has the
    /// hash `id`.
    pub open spec fn created(
        &self,
        id: BlockId,
        block: BlockView,
        operations: Seq<Operation>,
        slot: Slot,
        key: PrivateKey,
    ) -> bool {
        &&& id@ == header_id(block.header)
        &&& block.operations == operations
        &&& block.header.slot == slot
        &&& block.header.creator@ == ed25519_public_key(key@)
        &&& block.header.operations_root@ == operations_root(operations)
        &&& block.header.endorsements.len() == 0
        &&& block.header.signature@ == ed25519_signature(key@, header_encoding(block.header))
        &&& sound_parents(self.entries(), block.header.parents, self.thread_count())
        &&& self.best(block.header.parents)
    }

    /// A block for `slot` that carries `operations`, names the best parents
    /// and no endorsement, and is created and signed by the owner of `key`;
    /// with it, its hash.
    pub fn create_block(&self, operations: Vec<Operation>, slot: Slot, key: &PrivateKey) -> (out: (
        BlockId,
        Block,
    ))
        requires
            self.wf(),
        ensures
            self.created(out.0, out.1@, operations@, slot, *key),
    {
        let parents = self.best_parents();
        let root = compute_operations_root(&operations);
        let (id, header) = BlockHeader::new_signed(key, slot, parents, root, Vec::new());
        (id, Block { header, operations })
    }
}

} // verus!
