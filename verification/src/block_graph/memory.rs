//! What leaves the memory, and when.

use crate::block::{Block, BlockId, copy_vec};
use crate::slot::Slot;
use super::model::{
    among, at_rest, BlockState, Entry, grown, holds, ids_unique, latest_ok, named_in, parent_fault,
    position, referenced, removable, removed, split, step_allowed, Sweep, waiting_rest, wanted,
};
use super::links::member_of;
use super::calm::{
    calm, discarded_parent, dragged, hushed, lemma_calm, lemma_calm_at, lemma_rest_is_calm,
    one_changed, stamped, struck,
};
use super::lemmas::{lemma_grown, lemma_position};
use super::removal::{
    lemma_removal_agree, lemma_removal_cliques, lemma_removal_closed, lemma_removal_finality,
    lemma_removal_finals, lemma_removal_latest, lemma_removal_parents, lemma_removal_position,
    lemma_removal_queue, lemma_removal_referenced, lemma_removal_respect, lemma_removal_waiting,
    lemma_removal_wanted, lemma_split_step,
};
use super::cover::lemma_cover_removal;
use super::rise::lemma_rooted_removal;
use super::BlockGraph;
use vstd::prelude::*;

verus! {

impl BlockGraph {
    /// Whether a waiting or an active block names `id` as a parent.
    pub(super) fn is_referenced(&self, id: &BlockId) -> (yes: bool)
        requires
            forall|a: int|
                0 <= a < self.entries@.len() ==> (#[trigger] self.entries@[a]).well_formed(
                    self.thread_count,
                ),
        ensures
            yes == referenced(self.entries@, *id),
    {
        let mut x: usize = 0;
        while x < self.entries.len()
            invariant
                x <= self.entries@.len(),
                forall|a: int|
                    0 <= a < self.entries@.len() ==> (#[trigger] self.entries@[a]).well_formed(
                        self.thread_count,
                    ),
                forall|a: int|
                    0 <= a < x ==> !(((#[trigger] self.entries@[a]).state
                        == BlockState::WaitingForDeps || self.entries@[a].state
                        == BlockState::Active) && named_in(self.entries@[a].head().parents, *id)),
            decreases self.entries@.len() - x,
        {
            let entry = &self.entries[x];
            if entry.state == BlockState::WaitingForDeps || entry.state == BlockState::Active {
                match &entry.header {
                    Some(header) => {
                        if member_of(&header.parents, id) {
                            return true;
                        }
                    },
                    None => {
                        assert(self.entries@[x as int].well_formed(self.thread_count));
                    },
                }
            }
            x += 1;
        }
        false
    }

    /// Whether the sweep `sweep` takes the entry `j` out of the memory.
    /// Nothing leaves that a waiting or an active block names as a parent,
    /// nor a block that is queued for propagation.
    pub open spec fn disposable(&self, sweep: Sweep, j: int) -> bool {
        let e = self.entries()[j];
        &&& 0 <= j < self.entries().len()
        &&& !referenced(self.entries(), e.id)
        &&& match sweep {
            Sweep::Evict => e.state == BlockState::Final && !holds(self.to_propagate(), e.id)
                && e.lineage@[0].slot.period + self.settings().1
                < self.latest_final()[e.lineage@[0].slot.thread as int].slot.period,
            Sweep::Forget(period) => e.state == BlockState::Incoming || (e.state
                == BlockState::Discarded && e.stamp + self.settings().2 < period),
        }
    }

    /// Whether the entry `j` is a final block that leaves the memory once
    /// it is no longer queued for propagation: it lies more than the
    /// configured number of periods behind the latest final block of its
    /// thread, and no waiting or active block names it as a parent.
    pub open spec fn evictable(&self, j: int) -> bool {
        let e = self.entries()[j];
        &&& 0 <= j < self.entries().len()
        &&& !referenced(self.entries(), e.id)
        &&& e.state == BlockState::Final
        &&& e.lineage@[0].slot.period + self.settings().1
            < self.latest_final()[e.lineage@[0].slot.thread as int].slot.period
    }

    /// Whether `e` is an entry that the sweep `sweep` takes out of the
    /// memory.
    pub open spec fn took(&self, sweep: Sweep, e: Entry) -> bool {
        exists|x: int|
            0 <= x < self.entries().len() && #[trigger] self.entries()[x] == e && self.disposable(
                sweep,
                x,
            )
    }

    /// Whether the sweep `sweep` takes the entry `j` out of the memory.
    pub(super) fn is_disposable(&self, sweep: Sweep, j: usize) -> (yes: bool)
        requires
            self.wf(),
            j < self.entries@.len(),
        ensures
            yes == self.disposable(sweep, j as int),
            yes ==> removable(self.entries@, self.latest_final@, self.to_propagate@, j as int),
    {
        let entry = &self.entries[j];
        assert(entry.well_formed(self.thread_count));
        let fits = match sweep {
            Sweep::Evict => {
                if entry.state == BlockState::Final {
                    let link = &entry.lineage[0];
                    proof {
                        reveal(latest_ok);
                    }
                    let latest = self.latest_final[link.slot.thread as usize].slot.period;
                    let old_enough = match link.slot.period.checked_add(
                        self.force_keep_final_periods,
                    ) {
                        Some(limit) => limit < latest,
                        None => false,
                    };
                    old_enough && !member_of(&self.to_propagate, &entry.id)
                } else {
                    false
                }
            },
            Sweep::Forget(period) => {
                entry.state == BlockState::Incoming || (entry.state == BlockState::Discarded
                    && match entry.stamp.checked_add(self.discard_ttl) {
                    Some(limit) => limit < period,
                    None => false,
                })
            },
        };
        fits && !self.is_referenced(&entry.id)
    }

    /// Takes the removable entry `j` out of the memory.
    pub(super) fn remove_entry(&mut self, j: usize) -> (gone: Entry)
        requires
            old(self).wf(),
            removable(old(self).entries@, old(self).latest_final@, old(self).to_propagate@, j as int),
        ensures
            final(self).wf(),
            final(self).same_frame(old(self)),
            removed(old(self).entries@, final(self).entries@, j as int),
            gone == old(self).entries@[j as int],
    {
        let ghost before = self.entries@;
        let gone = self.entries.remove(j);
        proof {
            let after = self.entries@;
            assert(removed(before, after, j as int));
            lemma_removal_position(before, after, j as int, gone.id);
            lemma_removal_finals(before, after, j as int, self.thread_count);
            lemma_rooted_removal(before, after, j as int);
            lemma_removal_respect(before, after, j as int);
            lemma_removal_closed(before, after, j as int);
            lemma_removal_parents(before, after, j as int);
            lemma_removal_latest(before, after, j as int, self.latest_final@, self.thread_count);
            lemma_removal_queue(before, after, j as int, self.to_propagate@);
            lemma_removal_cliques(before, after, j as int, self.cliques@);
            lemma_removal_agree(before, after, j as int, self.cliques@);
            lemma_removal_waiting(before, after, j as int);
            lemma_removal_finality(before, after, j as int, self.cliques@, self.delta_f0);
            lemma_cover_removal(before, after, j as int, self.cliques@);
        }
        gone
    }

    /// Takes out of the memory every entry that the sweep `sweep` takes, and
    /// hands these entries out in the order in which they stood.
    pub(super) fn sweep(&mut self, sweep: Sweep) -> (gone: Vec<Entry>)
        requires
            old(self).wf(),
        ensures
            final(self).wf(),
            final(self).same_frame(old(self)),
            split(old(self).entries@, final(self).entries@, gone@),
            forall|j: int|
                0 <= j < final(self).entries@.len() ==> !final(self).disposable(sweep, j),
            forall|q: int|
                0 <= q < gone@.len() ==> old(self).took(sweep, #[trigger] gone@[q]),
            forall|q: int|
                0 <= q < gone@.len() ==> match sweep {
                    Sweep::Evict => (#[trigger] gone@[q]).state == BlockState::Final,
                    Sweep::Forget(_) => gone@[q].state == BlockState::Incoming || gone@[q].state
                        == BlockState::Discarded,
                },
            gone@.len() == 0 ==> final(self).entries@ == old(self).entries@,
            forall|x: int|
                0 <= x < old(self).entries@.len() ==> (among(
                    final(self).entries@,
                    #[trigger] old(self).entries@[x],
                ) <==> !old(self).disposable(sweep, x)),
            forall|id: BlockId| wanted(final(self).entries@, id) == wanted(old(self).entries@, id),
            forall|id: BlockId|
                referenced(final(self).entries@, id) == referenced(old(self).entries@, id),
            forall|p: int, q: int|
                0 <= p < q < gone@.len() ==> (#[trigger] gone@[p]).id != (#[trigger] gone@[q]).id,
    {
        let mut gone: Vec<Entry> = Vec::new();
        let mut j: usize = 0;
        proof {
            assert forall|x: int| 0 <= x < self.entries@.len() implies among(
                self.entries@,
                #[trigger] self.entries@[x],
            ) by {}
        }
        while j < self.entries.len()
            invariant
                j <= self.entries@.len(),
                self.wf(),
                self.same_frame(old(self)),
                split(old(self).entries@, self.entries@, gone@),
                forall|a: int| 0 <= a < j ==> !self.disposable(sweep, a),
                forall|id: BlockId|
                    referenced(self.entries@, id) == referenced(old(self).entries@, id),
                forall|id: BlockId| wanted(self.entries@, id) == wanted(old(self).entries@, id),
                forall|p: int, q: int|
                    0 <= p < q < gone@.len() ==> (#[trigger] gone@[p]).id != (
                    #[trigger] gone@[q]).id,
                forall|q: int|
                    0 <= q < gone@.len() ==> old(self).took(sweep, #[trigger] gone@[q]),
                forall|q: int|
                    0 <= q < gone@.len() ==> match sweep {
                        Sweep::Evict => (#[trigger] gone@[q]).state == BlockState::Final,
                        Sweep::Forget(_) => gone@[q].state == BlockState::Incoming
                            || gone@[q].state == BlockState::Discarded,
                    },
                gone@.len() == 0 ==> self.entries@ == old(self).entries@,
            decreases self.entries@.len() - j,
        {
            if self.is_disposable(sweep, j) {
                let ghost current = self.entries@;
                let ghost held = gone@;
                let ghost here = *self;
                let entry = self.remove_entry(j);
                proof {
                    lemma_split_step(old(self).entries@, current, self.entries@, held, j as int);
                    assert forall|id: BlockId|
                        referenced(self.entries@, id) == referenced(old(self).entries@, id) by {
                        lemma_removal_referenced(current, self.entries@, j as int, id);
                    }
                    assert forall|id: BlockId|
                        wanted(self.entries@, id) == wanted(old(self).entries@, id) by {
                        lemma_removal_wanted(current, self.entries@, j as int, id);
                    }
                    assert forall|a: int| 0 <= a < j implies !self.disposable(sweep, a) by {
                        assert(self.entries@[a] == current[a]);
                        assert(!here.disposable(sweep, a));
                    }
                    assert(among(old(self).entries@, current[j as int]));
                    let x = choose|x: int|
                        0 <= x < old(self).entries@.len() && #[trigger] old(self).entries@[x]
                            == current[j as int];
                    assert(old(self).disposable(sweep, x));
                    assert(old(self).took(sweep, entry));
                    assert forall|p: int| 0 <= p < held.len() implies (#[trigger] held[p]).id
                        != entry.id by {
                        assert(current[j as int].id != held[p].id);
                    }
                }
                gone.push(entry);
            } else {
                j += 1;
            }
        }
        proof {
            assert forall|x: int| 0 <= x < old(self).entries@.len() implies (among(
                self.entries@,
                #[trigger] old(self).entries@[x],
            ) <==> !old(self).disposable(sweep, x)) by {
                let e = old(self).entries@[x];
                if among(self.entries@, e) {
                    let y = choose|y: int| 0 <= y < self.entries@.len() && #[trigger] self.entries@[y] == e;
                    assert(!self.disposable(sweep, y));
                    assert(referenced(self.entries@, e.id) == referenced(old(self).entries@, e.id));
                } else {
                    assert(among(gone@, e));
                    let q = choose|q: int| 0 <= q < gone@.len() && #[trigger] gone@[q] == e;
                    assert(old(self).took(sweep, gone@[q]));
                    let z = choose|z: int|
                        0 <= z < old(self).entries@.len() && #[trigger] old(self).entries@[z] == e
                            && old(self).disposable(sweep, z);
                    if z != x {
                        if z < x {
                            assert(old(self).entries@[z].id != old(self).entries@[x].id);
                        } else {
                            assert(old(self).entries@[x].id != old(self).entries@[z].id);
                        }
                    }
                }
            }
        }
        gone
    }

    /// Takes out of the memory the final blocks that lie more than the
    /// configured number of periods behind the latest final block of their
    /// thread, and hands them out for the archive.  A block stays while a
    /// waiting or an active block names it as a parent, and while it is
    /// queued for propagation.  After the call no such block is left, so
    /// that a second call hands out nothing and changes nothing.
    pub fn prune(&mut self) -> (out: Vec<(BlockId, Block)>)
        requires
            old(self).wf(),
        ensures
            final(self).wf(),
            final(self).same_frame(old(self)),
            forall|j: int|
                0 <= j < final(self).entries().len() ==> !final(self).disposable(Sweep::Evict, j),
            forall|y: int|
                0 <= y < final(self).entries().len() ==> among(
                    old(self).entries(),
                    #[trigger] final(self).entries()[y],
                ),
            forall|q: int|
                0 <= q < out@.len() ==> old(self).state_of((#[trigger] out@[q]).0) == Some(
                    BlockState::Final,
                ) && old(self).block_of(out@[q].0) == Some(out@[q].1@) && final(self).state_of(
                    out@[q].0,
                ) is None,
            forall|x: int|
                0 <= x < old(self).entries().len() ==> among(
                    final(self).entries(),
                    #[trigger] old(self).entries()[x],
                ) || exists|q: int|
                    0 <= q < out@.len() && (#[trigger] out@[q]).0 == old(self).entries()[x].id,
            out@.len() == 0 ==> final(self).entries() == old(self).entries(),
            (forall|j: int|
                0 <= j < old(self).entries().len() ==> !old(self).disposable(Sweep::Evict, j))
                ==> out@.len() == 0,
            forall|x: int|
                0 <= x < old(self).entries().len() ==> (among(
                    final(self).entries(),
                    #[trigger] old(self).entries()[x],
                ) <==> !old(self).disposable(Sweep::Evict, x)),
            forall|id: BlockId|
                wanted(final(self).entries(), id) == wanted(old(self).entries(), id),
            forall|p: int, q: int|
                0 <= p < q < out@.len() ==> (#[trigger] out@[p]).0 != (#[trigger] out@[q]).0,
    {
        let gone = self.sweep(Sweep::Evict);
        let mut out: Vec<(BlockId, Block)> = Vec::new();
        let mut q: usize = 0;
        while q < gone.len()
            invariant
                q <= gone@.len(),
                out@.len() == q,
                ids_unique(old(self).entries@),
                forall|a: int|
                    0 <= a < old(self).entries@.len() ==> (
                    #[trigger] old(self).entries@[a]).well_formed(old(self).thread_count),
                forall|a: int|
                    0 <= a < gone@.len() ==> old(self).took(Sweep::Evict, #[trigger] gone@[a]),
                forall|a: int|
                    0 <= a < q ==> (#[trigger] out@[a]).0 == gone@[a].id && old(self).state_of(
                        out@[a].0,
                    ) == Some(BlockState::Final) && old(self).block_of(out@[a].0) == Some(
                        out@[a].1@,
                    ),
            decreases gone@.len() - q,
        {
            let entry = &gone[q];
            proof {
                assert(old(self).took(Sweep::Evict, gone@[q as int]));
                let x = choose|x: int|
                    0 <= x < old(self).entries@.len() && #[trigger] old(self).entries@[x]
                        == gone@[q as int] && old(self).disposable(Sweep::Evict, x);
                lemma_position(old(self).entries@, x);
                assert(old(self).entries@[x].well_formed(old(self).thread_count));
            }
            match (&entry.header, &entry.operations) {
                (Some(header), Some(operations)) => {
                    out.push(
                        (
                            entry.id,
                            Block { header: header.duplicate(), operations: copy_vec(operations) },
                        ),
                    );
                },
                _ => {
                    assert(false);
                },
            }
            q += 1;
        }
        proof {
            if gone@.len() > 0 {
                assert(old(self).took(Sweep::Evict, gone@[0]));
            }
            assert forall|a: int| 0 <= a < out@.len() implies final(self).state_of(
                (#[trigger] out@[a]).0,
            ) is None by {
                if position(self.entries@, out@[a].0) is Some {
                    let y = position(self.entries@, out@[a].0)->0;
                    assert(self.entries@[y].id != gone@[a].id);
                }
            }
            assert forall|x: int| 0 <= x < old(self).entries().len() implies among(
                self.entries(),
                #[trigger] old(self).entries()[x],
            ) || exists|a: int|
                0 <= a < out@.len() && (#[trigger] out@[a]).0 == old(self).entries()[x].id by {
                if !among(self.entries(), old(self).entries()[x]) {
                    let a = choose|a: int|
                        0 <= a < gone@.len() && #[trigger] gone@[a] == old(self).entries()[x];
                    assert(out@[a].0 == old(self).entries()[x].id);
                }
            }
        }
        out
    }

    /// Whether the entry `j` waits for a slot that can no longer be filled:
    /// its period is not after the latest final block of its thread.
    pub open spec fn stale(&self, j: int) -> bool {
        let e = self.entries()[j];
        &&& 0 <= j < self.entries().len()
        &&& e.state == BlockState::WaitingForDeps
        &&& e.head().slot.period <= self.latest_final()[e.head().slot.thread as int].slot.period
    }

    /// What `slot_tick` ensures of the graph `self` that `earlier` has
    /// become in period `period`: nothing is left that is to be forgotten;
    /// every entry was there before, as it is, or waiting where it is
    /// discarded now, and then its slot could no longer be filled or a
    /// parent of it is discarded; the active, the final and the waiting
    /// blocks are all there, the active and the final ones as they were;
    /// the blocks that waited for a slot that can no longer be filled wait
    /// no more; and of the hashes that were discarded or heard of only
    /// exactly those have left that `forgets` names.
    pub open spec fn ticked(&self, earlier: &BlockGraph, period: u64) -> bool {
        &&& forall|j: int|
            0 <= j < self.entries().len() ==> !self.disposable(Sweep::Forget(period), j)
        &&& forall|y: int|
            0 <= y < self.entries().len() ==> (earlier.state_of((#[trigger] self.entries()[y]).id)
                matches Some(before) && step_allowed(before, self.entries()[y].state))
        &&& forall|x: int|
            0 <= x < earlier.entries().len() && (#[trigger] earlier.entries()[x]).state
                == BlockState::Final ==> self.state_of(earlier.entries()[x].id) == Some(
                BlockState::Final,
            )
        &&& forall|x: int|
            earlier.stale(x) ==> self.state_of((#[trigger] earlier.entries()[x]).id) != Some(
                BlockState::WaitingForDeps,
            )
        &&& forall|y: int|
            0 <= y < self.entries().len() ==> among(earlier.entries(), #[trigger] self.entries()[y])
                || earlier.dropped(self.entries()[y], self.entries())
        &&& forall|x: int|
            0 <= x < earlier.entries().len() && (#[trigger] earlier.entries()[x]).state
                == BlockState::WaitingForDeps ==> self.state_of(earlier.entries()[x].id) is Some
        &&& forall|x: int|
            0 <= x < earlier.entries().len() && ((#[trigger] earlier.entries()[x]).state
                == BlockState::Incoming || earlier.entries()[x].state == BlockState::Discarded)
                ==> (among(self.entries(), earlier.entries()[x]) <==> !self.forgets(
                earlier.entries()[x],
                period,
            ))
        &&& forall|x: int|
            0 <= x < earlier.entries().len() && (#[trigger] earlier.entries()[x]).settled()
                ==> among(self.entries(), earlier.entries()[x])
    }

    /// Whether the graph, after the tick of period `period`, has forgotten
    /// the entry `e`, which was discarded or heard of only: no waiting or
    /// active block names it as a parent, and it was heard of only, or the
    /// time for which a discarded hash is remembered is over.
    pub open spec fn forgets(&self, e: Entry, period: u64) -> bool {
        !referenced(self.entries(), e.id) && (e.state == BlockState::Incoming || (e.state
            == BlockState::Discarded && e.stamp + self.settings().2 < period))
    }

    /// Whether `e` is a waiting entry of the graph once a tick has
    /// discarded it: its slot could no longer be filled, or among `later`,
    /// the entries after the tick, a parent of it is discarded.
    pub open spec fn dropped(&self, e: Entry, later: Seq<Entry>) -> bool {
        exists|x: int|
            0 <= x < self.entries().len() && (#[trigger] self.entries()[x]).id == e.id
                && self.entries()[x].state == BlockState::WaitingForDeps && e.state
                == BlockState::Discarded && e.header == self.entries()[x].header && (self.stale(x)
                || struck(later, self.entries()[x].head()))
    }

    /// Tells the graph that the slot `previous_slot` has begun.  The waiting
    /// blocks whose slot can no longer be filled are discarded, and with
    /// them what depends on them; the discarded hashes whose time is over
    /// leave the memory, and so do the hashes that were heard of only and
    /// that no waiting block names.  No block becomes active or final, and
    /// the queues, the cliques and the latest final blocks stay as they
    /// are.  Nothing happens before the first slot.
    pub fn slot_tick(&mut self, previous_slot: Option<Slot>)
        requires
            old(self).wf(),
        ensures
            final(self).wf(),
            final(self).same_settings(old(self)),
            final(self).same_frame(old(self)),
            final(self).to_propagate() == old(self).to_propagate(),
            final(self).attack_attempts() == old(self).attack_attempts(),
            match previous_slot {
                None => *final(self) == *old(self),
                Some(slot) => final(self).ticked(old(self), slot.period),
            },
    {
        let now = match previous_slot {
            None => {
                return ;
            },
            Some(slot) => slot.period,
        };
        self.drop_stale(now);
        let ghost middle = self.entries@;
        self.settle(now);
        let ghost settled = self.entries@;
        let ghost before_sweep = *self;
        proof {
            lemma_grown(old(self).entries@, middle, settled);
        }
        let gone = self.sweep(Sweep::Forget(now));
        proof {
            let first = old(self).entries@;
            let last = self.entries@;
            assert forall|p: int|
                0 <= p < settled.len() && (#[trigger] settled[p]).state == BlockState::Discarded
                    && settled[p].stamp == now implies among(last, settled[p]) by {
                assert(!before_sweep.disposable(Sweep::Forget(now), p));
            }
            old(self).lemma_tick_entries(middle, settled, last, gone@, now);
            assert forall|x: int|
                0 <= x < first.len() && ((#[trigger] first[x]).state == BlockState::Incoming
                    || first[x].state == BlockState::Discarded) implies (among(last, first[x])
                <==> !self.forgets(first[x], now)) by {
                assert(middle[x] == first[x]);
                assert(settled[x] == middle[x] || dragged(settled, middle[x], settled[x]));
                assert(before_sweep.disposable(Sweep::Forget(now), x) == self.forgets(
                    first[x],
                    now,
                ));
            }
            assert forall|y: int| 0 <= y < last.len() implies (old(self).state_of(
                (#[trigger] last[y]).id,
            ) matches Some(before) && step_allowed(before, last[y].state)) by {
                assert(among(settled, last[y]));
                let x = choose|x: int| 0 <= x < settled.len() && #[trigger] settled[x] == last[y];
                assert(settled[x].id == first[x].id && step_allowed(
                    first[x].state,
                    settled[x].state,
                ));
                lemma_position(first, x);
            }
            assert forall|x: int|
                0 <= x < first.len() && (#[trigger] first[x]).state
                    == BlockState::Final implies self.state_of(first[x].id) == Some(
                BlockState::Final,
            ) by {
                assert(settled[x].id == first[x].id && step_allowed(
                    first[x].state,
                    settled[x].state,
                ));
                if among(gone@, settled[x]) {
                    let q = choose|q: int| 0 <= q < gone@.len() && #[trigger] gone@[q] == settled[x];
                    assert(gone@[q].state != BlockState::Final);
                }
                assert(among(last, settled[x]));
                let y = choose|y: int| 0 <= y < last.len() && #[trigger] last[y] == settled[x];
                lemma_position(last, y);
            }
            assert forall|x: int| old(self).stale(x) implies self.state_of(
                (#[trigger] first[x]).id,
            ) != Some(BlockState::WaitingForDeps) by {
                assert(middle[x].state == BlockState::Discarded);
                assert(settled[x].id == middle[x].id && step_allowed(
                    middle[x].state,
                    settled[x].state,
                ));
                assert(middle[x].id == first[x].id);
                if position(last, first[x].id) is Some {
                    let y = position(last, first[x].id)->0;
                    assert(among(settled, last[y]));
                    let w = choose|w: int| 0 <= w < settled.len() && #[trigger] settled[w] == last[y];
                    lemma_position(settled, w);
                    lemma_position(settled, x);
                }
            }
        }
    }

    /// Discards the waiting blocks whose slot can no longer be filled.
    pub(super) fn drop_stale(&mut self, stamp: u64)
        requires
            old(self).wf(),
        ensures
            final(self).wf_core(),
            final(self).finality_at_rest(),
            final(self).same_frame(old(self)),
            final(self).entries@.len() == old(self).entries@.len(),
            grown(old(self).entries@, final(self).entries@),
            forall|x: int|
                old(self).stale(x) ==> (#[trigger] final(self).entries@[x]).state
                    == BlockState::Discarded,
            forall|x: int|
                0 <= x < old(self).entries@.len() ==> #[trigger] final(self).entries@[x] == old(
                    self,
                ).entries@[x] || (old(self).stale(x) && final(self).entries@[x].state
                    == BlockState::Discarded && final(self).entries@[x].id == old(
                    self,
                ).entries@[x].id && final(self).entries@[x].header == old(self).entries@[x].header
                    && final(self).entries@[x].stamp == stamp),
            calm(final(self).entries@),
    {
        let mut j: usize = 0;
        proof {
            lemma_grown(self.entries@, self.entries@, self.entries@);
            lemma_rest_is_calm(self.entries@);
        }
        while j < self.entries.len()
            invariant
                j <= self.entries@.len(),
                self.wf_core(),
                self.finality_at_rest(),
                self.same_frame(old(self)),
                self.entries@.len() == old(self).entries@.len(),
                grown(old(self).entries@, self.entries@),
                forall|x: int| j <= x < self.entries@.len() ==> #[trigger] self.entries@[x] == old(
                    self,
                ).entries@[x],
                forall|x: int|
                    0 <= x < j && old(self).stale(x) ==> (#[trigger] self.entries@[x]).state
                        == BlockState::Discarded,
                forall|x: int|
                    0 <= x < j ==> #[trigger] self.entries@[x] == old(self).entries@[x] || (old(
                        self,
                    ).stale(x) && self.entries@[x].state == BlockState::Discarded
                        && self.entries@[x].id == old(self).entries@[x].id
                        && self.entries@[x].header == old(self).entries@[x].header
                        && self.entries@[x].stamp == stamp),
                calm(self.entries@),
            decreases self.entries@.len() - j,
        {
            assert(self.entries@[j as int].well_formed(self.thread_count));
            let late = if self.entries[j].state == BlockState::WaitingForDeps {
                match &self.entries[j].header {
                    Some(header) => header.slot.period
                        <= self.latest_final[header.slot.thread as usize].slot.period,
                    None => false,
                }
            } else {
                false
            };
            if late {
                let ghost before = self.entries@;
                self.discard(j, stamp);
                proof {
                    assert(grown(before, self.entries@)) by {
                        assert forall|x: int| 0 <= x < before.len() implies (
                        #[trigger] self.entries@[x]).id == before[x].id && step_allowed(
                            before[x].state,
                            self.entries@[x].state,
                        ) by {
                            if x != j {
                                assert(self.entries@[x] == before[x]);
                            }
                        }
                    }
                    lemma_grown(old(self).entries@, before, self.entries@);
                    assert forall|x: int|
                        0 <= x < before.len() && x != j && (#[trigger] before[x]).state
                            == BlockState::WaitingForDeps implies at_rest(before, before[x])
                        || struck(before, before[x].head()) by {
                        lemma_calm_at(before, x);
                    }
                    assert(one_changed(before, self.entries@, j as int));
                    lemma_calm(before, self.entries@, j as int);
                }
            }
            j += 1;
        }
    }

    /// What a tick leaves of the entries: `middle` are the entries once the
    /// stale ones are discarded in period `period`, `settled` once what
    /// depends on them is discarded, and `last` once `gone` has left the
    /// memory.
    proof fn lemma_tick_entries(
        &self,
        middle: Seq<Entry>,
        settled: Seq<Entry>,
        last: Seq<Entry>,
        gone: Seq<Entry>,
        period: u64,
    )
        requires
            self.wf(),
            ids_unique(settled),
            ids_unique(last),
            middle.len() == self.entries().len(),
            forall|x: int|
                0 <= x < self.entries().len() ==> #[trigger] middle[x] == self.entries()[x] || (
                self.stale(x) && middle[x].state == BlockState::Discarded && middle[x].id
                    == self.entries()[x].id && middle[x].header == self.entries()[x].header
                    && middle[x].stamp == period),
            hushed(middle, settled),
            stamped(middle, settled, period),
            split(settled, last, gone),
            forall|q: int|
                0 <= q < gone.len() ==> (#[trigger] gone[q]).state == BlockState::Incoming
                    || gone[q].state == BlockState::Discarded,
            forall|p: int|
                0 <= p < settled.len() && (#[trigger] settled[p]).state == BlockState::Discarded
                    && settled[p].stamp == period ==> among(last, settled[p]),
        ensures
            forall|y: int|
                0 <= y < last.len() ==> among(self.entries(), #[trigger] last[y]) || self.dropped(
                    last[y],
                    last,
                ),
            forall|x: int|
                0 <= x < self.entries().len() && (#[trigger] self.entries()[x]).settled()
                    ==> among(last, self.entries()[x]),
            forall|x: int|
                0 <= x < self.entries().len() && (#[trigger] self.entries()[x]).state
                    == BlockState::WaitingForDeps ==> position(last, self.entries()[x].id) is Some,
    {
        let first = self.entries();
        assert forall|x: int| 0 <= x < first.len() implies #[trigger] settled[x] == first[x]
            || settled[x].stamp == period by {
            assert(middle[x] == first[x] || middle[x].stamp == period);
            assert(settled[x] == middle[x] || settled[x].stamp == period);
        }
        assert forall|y: int| 0 <= y < last.len() implies among(first, #[trigger] last[y])
            || self.dropped(last[y], last) by {
            assert(among(settled, last[y]));
            let x = choose|x: int| 0 <= x < settled.len() && #[trigger] settled[x] == last[y];
            assert(settled[x] == middle[x] || dragged(settled, middle[x], settled[x]));
            assert(middle[x] == first[x] || self.stale(x));
            if settled[x] != first[x] {
                assert(first[x].id == last[y].id);
                if !self.stale(x) {
                    assert(middle[x] == first[x]);
                    let h = first[x].head();
                    assert(struck(settled, h));
                    let k = choose|k: int|
                        0 <= k < h.parents.len() && discarded_parent(settled, h, k);
                    let p = position(settled, h.parents[k])->0;
                    if settled[p] == first[p] {
                        lemma_position(first, p);
                        assert(parent_fault(first, h, k));
                        assert(at_rest(first, first[x])) by {
                            reveal(waiting_rest);
                        }
                    }
                    assert(among(last, settled[p]));
                    let q = choose|q: int| 0 <= q < last.len() && #[trigger] last[q] == settled[p];
                    lemma_position(last, q);
                    assert(discarded_parent(last, h, k));
                }
            }
        }
        assert forall|x: int| 0 <= x < first.len() && (#[trigger] first[x]).settled() implies among(
            last,
            first[x],
        ) by {
            assert(middle[x] == first[x]);
            assert(settled[x] == middle[x] || dragged(settled, middle[x], settled[x]));
            if among(gone, settled[x]) {
                let q = choose|q: int| 0 <= q < gone.len() && #[trigger] gone[q] == settled[x];
                assert(gone[q].state != BlockState::Final);
            }
        }
        assert forall|x: int|
            0 <= x < first.len() && (#[trigger] first[x]).state
                == BlockState::WaitingForDeps implies position(last, first[x].id) is Some by {
            assert(settled[x] == middle[x] || dragged(settled, middle[x], settled[x]));
            assert(settled[x].id == first[x].id);
            if settled[x].state == BlockState::WaitingForDeps {
                if among(gone, settled[x]) {
                    let q = choose|q: int| 0 <= q < gone.len() && #[trigger] gone[q] == settled[x];
                    assert(gone[q].state != BlockState::WaitingForDeps);
                }
            } else {
                assert(settled[x] != first[x]);
                assert(settled[x].state == BlockState::Discarded);
            }
            assert(among(last, settled[x]));
            let q = choose|q: int| 0 <= q < last.len() && #[trigger] last[q] == settled[x];
            lemma_position(last, q);
        }
    }
}

} // verus!
