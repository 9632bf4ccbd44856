//! What the graph hands out.

use crate::block::{Block, BlockId, BlockView, copy_vec};
use super::model::{
    BlockGraphExport, BlockState, clique_fitness, distinct, ExportedBlock, ExportedClique, holds,
    ids_unique, is_settled, missing, named_by, named_in, queue_ok, sound_parents, wanted,
};
use super::links::member_of;
use super::lemmas::{lemma_distinct_push, lemma_holds_push, lemma_named_by, lemma_position};
use super::BlockGraph;
use vstd::prelude::*;

verus! {

impl BlockGraph {
    /// The block `hash`, where it is active, or final and still in memory.
    pub fn get_active_block(&self, hash: &BlockId) -> (out: Option<Block>)
        requires
            self.wf(),
        ensures
            match out {
                Some(block) => self.block_of(*hash) == Some(block@),
                None => self.state_of(*hash) != Some(BlockState::Active) && self.state_of(*hash)
                    != Some(BlockState::Final),
            },
    {
        match self.find(hash) {
            None => None,
            Some(i) => {
                proof {
                    lemma_position(self.entries@, i as int);
                }
                self.block_at(i)
            },
        }
    }

    /// The block of the entry `i`, where it is active or final.
    pub(super) fn block_at(&self, i: usize) -> (out: Option<Block>)
        requires
            i < self.entries@.len(),
            self.entries@[i as int].well_formed(self.thread_count),
        ensures
            match out {
                Some(block) => self.entries@[i as int].settled() && block@ == (BlockView {
                    header: self.entries@[i as int].head(),
                    operations: self.entries@[i as int].operations->0@,
                }),
                None => !self.entries@[i as int].settled(),
            },
    {
        let entry = &self.entries[i];
        if entry.state != BlockState::Active && entry.state != BlockState::Final {
            return None;
        }
        match (&entry.header, &entry.operations) {
            (Some(header), Some(operations)) => Some(
                Block { header: header.duplicate(), operations: copy_vec(operations) },
            ),
            _ => None,
        }
    }

    /// Hands out the blocks that are queued for propagation, in the order of
    /// the queue, each with its hash, and empties the queue.  Each of them
    /// is active or final.
    pub fn get_blocks_to_propagate(&mut self) -> (out: Vec<(BlockId, Block)>)
        requires
            old(self).wf(),
        ensures
            final(self).wf(),
            final(self).same_settings(old(self)),
            final(self).entries() == old(self).entries(),
            final(self).latest_final() == old(self).latest_final(),
            final(self).attack_attempts() == old(self).attack_attempts(),
            final(self).cliques() == old(self).cliques(),
            final(self).to_propagate().len() == 0,
            out@.len() == old(self).to_propagate().len(),
            forall|q: int|
                0 <= q < out@.len() ==> (#[trigger] out@[q]).0 == old(self).to_propagate()[q]
                    && old(self).block_of(out@[q].0) == Some(out@[q].1@),
    {
        let mut out: Vec<(BlockId, Block)> = Vec::new();
        let mut q: usize = 0;
        while q < self.to_propagate.len()
            invariant
                q <= self.to_propagate@.len(),
                *self == *old(self),
                self.wf(),
                out@.len() == q,
                forall|a: int|
                    0 <= a < q ==> (#[trigger] out@[a]).0 == self.to_propagate@[a] && self.block_of(
                        out@[a].0,
                    ) == Some(out@[a].1@),
            decreases self.to_propagate@.len() - q,
        {
            let id = self.to_propagate[q];
            proof {
                reveal(queue_ok);
                assert(is_settled(self.entries@, self.to_propagate@[q as int]));
            }
            match self.find(&id) {
                Some(i) => {
                    proof {
                        lemma_position(self.entries@, i as int);
                        let j = choose|j: int|
                            0 <= j < self.entries@.len() && #[trigger] self.entries@[j].id == id
                                && self.entries@[j].settled();
                        lemma_position(self.entries@, j);
                        assert(self.entries@[i as int].well_formed(self.thread_count));
                    }
                    match self.block_at(i) {
                        Some(block) => {
                            out.push((id, block));
                        },
                        None => {
                            assert(false);
                        },
                    }
                },
                None => {
                    assert(false);
                },
            }
            q += 1;
        }
        self.to_propagate = Vec::new();
        proof {
            reveal(queue_ok);
        }
        out
    }

    /// Hands out the hashes of the keys of the creators caught signing two
    /// blocks for one slot since the last call, and forgets them.
    pub fn get_attack_attempts(&mut self) -> (out: Vec<crate::hash::Hash>)
        requires
            old(self).wf(),
        ensures
            final(self).wf(),
            final(self).same_settings(old(self)),
            final(self).entries() == old(self).entries(),
            final(self).latest_final() == old(self).latest_final(),
            final(self).to_propagate() == old(self).to_propagate(),
            final(self).cliques() == old(self).cliques(),
            final(self).attack_attempts().len() == 0,
            out@ == old(self).attack_attempts(),
    {
        let mut out: Vec<crate::hash::Hash> = Vec::new();
        std::mem::swap(&mut out, &mut self.attack_attempts);
        out
    }

    /// The hashes that the graph wants: those that a waiting block names as
    /// a parent and that the graph does not know, or has heard of only.
    /// Each occurs once.
    pub fn get_block_wishlist(&self) -> (out: Vec<BlockId>)
        requires
            self.wf(),
        ensures
            distinct(out@),
            forall|id: BlockId| holds(out@, id) <==> wanted(self.entries(), id),
    {
        let mut out: Vec<BlockId> = Vec::new();
        let mut j: usize = 0;
        while j < self.entries.len()
            invariant
                j <= self.entries@.len(),
                ids_unique(self.entries@),
                forall|a: int|
                    0 <= a < self.entries@.len() ==> (#[trigger] self.entries@[a]).well_formed(
                        self.thread_count,
                    ),
                distinct(out@),
                forall|id: BlockId|
                    holds(out@, id) <==> (missing(self.entries@, id) && named_by(
                        self.entries@,
                        j as int,
                        id,
                    )),
            decreases self.entries@.len() - j,
        {
            let ghost before = out@;
            assert(self.entries@[j as int].well_formed(self.thread_count));
            if self.entries[j].state == BlockState::WaitingForDeps {
                match &self.entries[j].header {
                    Some(header) => {
                        self.wishes_of(&header.parents, &mut out);
                    },
                    None => {},
                }
            }
            proof {
                assert forall|id: BlockId|
                    holds(out@, id) <==> (missing(self.entries@, id) && named_by(
                        self.entries@,
                        j + 1,
                        id,
                    )) by {
                    lemma_named_by(self.entries@, j as int, id);
                }
            }
            j += 1;
        }
        out
    }

    /// Adds to `out` the identifiers of `parents` that are missing and that
    /// `out` does not hold yet.
    pub(super) fn wishes_of(&self, parents: &Vec<BlockId>, out: &mut Vec<BlockId>)
        requires
            ids_unique(self.entries@),
            distinct(old(out)@),
        ensures
            distinct(final(out)@),
            forall|id: BlockId|
                holds(final(out)@, id) <==> (holds(old(out)@, id) || (missing(self.entries@, id)
                    && named_in(parents@, id))),
    {
        let mut k: usize = 0;
        while k < parents.len()
            invariant
                k <= parents@.len(),
                ids_unique(self.entries@),
                distinct(out@),
                forall|id: BlockId|
                    holds(out@, id) <==> (holds(old(out)@, id) || (missing(self.entries@, id)
                        && named_in(parents@.take(k as int), id))),
            decreases parents@.len() - k,
        {
            let parent: BlockId = parents[k];
            let lacking = match self.find(&parent) {
                None => true,
                Some(i) => {
                    proof {
                        lemma_position(self.entries@, i as int);
                    }
                    self.entries[i].state == BlockState::Incoming
                },
            };
            let ghost before = out@;
            let held = member_of(out, &parent);
            if lacking && !held {
                out.push(parent);
            }
            proof {
                assert(parents@.take(k + 1) =~= parents@.take(k as int).push(parent));
                assert forall|id: BlockId|
                    holds(out@, id) <==> (holds(old(out)@, id) || (missing(self.entries@, id)
                        && named_in(parents@.take(k + 1), id))) by {
                    lemma_holds_push(parents@.take(k as int), parent, id);
                    if lacking && !held {
                        lemma_holds_push(before, parent, id);
                    }
                }
                if lacking && !held {
                    lemma_distinct_push(before, parent);
                }
            }
            k += 1;
        }
        proof {
            assert(parents@.take(k as int) =~= parents@);
        }
    }

    /// Whether `out` shows the graph: every hash with its state and its
    /// header, in the order of the entries; every clique with its members
    /// and its fitness; and one active or final block of each thread as the
    /// best parents.
    pub open spec fn shows(&self, out: BlockGraphExport) -> bool {
        &&& out.blocks@.len() == self.entries().len()
        &&& forall|i: int|
            0 <= i < out.blocks@.len() ==> {
                let shown = #[trigger] out.blocks@[i];
                let e = self.entries()[i];
                &&& shown.id == e.id
                &&& shown.state == e.state
                &&& shown.header is Some == e.header is Some
                &&& shown.header is Some ==> shown.header->0@ == e.head()
            }
        &&& out.cliques@.len() == self.cliques().len()
        &&& forall|c: int|
            0 <= c < out.cliques@.len() ==> (#[trigger] out.cliques@[c]).members@
                == self.cliques()[c].members@ && out.cliques@[c].fitness == clique_fitness(
                self.entries(),
                self.cliques()[c].members@,
            )
        &&& sound_parents(self.entries(), out.best_parents@, self.thread_count())
        &&& self.best(out.best_parents@)
    }

    /// A summary of the graph: every hash with its state and its header,
    /// every clique with its fitness, and the best parents.
    pub fn export(&self) -> (out: BlockGraphExport)
        requires
            self.wf(),
        ensures
            self.shows(out),
    {
        let mut blocks: Vec<ExportedBlock> = Vec::new();
        let mut i: usize = 0;
        while i < self.entries.len()
            invariant
                i <= self.entries@.len(),
                blocks@.len() == i,
                forall|a: int|
                    0 <= a < i ==> {
                        let shown = #[trigger] blocks@[a];
                        let e = self.entries@[a];
                        &&& shown.id == e.id
                        &&& shown.state == e.state
                        &&& shown.header is Some == e.header is Some
                        &&& shown.header is Some ==> shown.header->0@ == e.head()
                    },
            decreases self.entries@.len() - i,
        {
            let entry = &self.entries[i];
            let header = match &entry.header {
                Some(h) => Some(h.duplicate()),
                None => None,
            };
            blocks.push(ExportedBlock { id: entry.id, state: entry.state, header });
            i += 1;
        }
        let mut cliques: Vec<ExportedClique> = Vec::new();
        let mut c: usize = 0;
        while c < self.cliques.len()
            invariant
                c <= self.cliques@.len(),
                ids_unique(self.entries@),
                cliques@.len() == c,
                forall|a: int|
                    0 <= a < c ==> (#[trigger] cliques@[a]).members@ == self.cliques@[a].members@
                        && cliques@[a].fitness == clique_fitness(
                        self.entries@,
                        self.cliques@[a].members@,
                    ),
            decreases self.cliques@.len() - c,
        {
            let fitness = self.fitness_of_clique(c);
            cliques.push(ExportedClique { members: copy_vec(&self.cliques[c].members), fitness });
            c += 1;
        }
        let best_parents = self.best_parents();
        BlockGraphExport { blocks, cliques, best_parents }
    }
}

} // verus!
