//! The block graph: every hash the node has heard of, in exactly one state,
//! with the queues of what has to be told to the peers.

pub mod admission;
pub mod calm;
pub mod cover;
pub mod fall;
pub mod finality;
pub mod lemmas;
pub mod links;
pub mod memory;
pub mod model;
pub mod queries;
pub mod removal;
pub mod rise;

use crate::block::{BlockHeader, BlockId, BlockView, compute_operations_root, HeaderView, Operation};
use crate::config::ConsensusConfig;
use crate::error::ConsensusError;
use crate::signature::PublicKey;
use crate::slot::Slot;
pub use self::model::{
    Admission, BlockGraphExport, BlockState, Clique, Entry, ExportedBlock, ExportedClique, Link,
    RejectReason, Review, Sweep,
};
use self::model::{
    actives_respect_finals, at_rest, clashing, cliques_agree, cliques_ok, direct_conflict,
    final_ready, finality_rest, finals_agree, finals_rooted, genesis_clash, genesis_header, holds,
    ids_unique, is_active, is_settled, latest_ok, lead, lineage_of, lineages_closed, link_of,
    member_lists, named_by_final, parents_review, parents_settled, position, queue_ok,
    stand_together, waiting_rest,
};
use self::cover::{cliques_cover, listed};
use self::lemmas::{lemma_latest_kept, lemma_position, lemma_queue_ok_kept};
use vstd::prelude::*;

verus! {

/// The block graph.
pub struct BlockGraph {
    thread_count: u8,
    delta_f0: u64,
    endorsement_count: u32,
    force_keep_final_periods: u64,
    discard_ttl: u64,
    nodes: Vec<PublicKey>,
    entries: Vec<Entry>,
    latest_final: Vec<Link>,
    cliques: Vec<Clique>,
    to_propagate: Vec<BlockId>,
    attack_attempts: Vec<crate::hash::Hash>,
}

impl BlockGraph {
    /// The number of threads.
    pub closed spec fn thread_count(&self) -> u8 {
        self.thread_count
    }

    /// The limits the graph was configured with: the fitness lead that makes
    /// a block final, the periods for which a final block is kept, and the
    /// periods for which a discarded hash is remembered.
    pub closed spec fn settings(&self) -> (u64, u64, u64) {
        (self.delta_f0, self.force_keep_final_periods, self.discard_ttl)
    }

    /// The cliques.
    pub closed spec fn cliques(&self) -> Seq<Clique> {
        self.cliques@
    }

    /// The public keys of the nodes that may be drawn.
    pub closed spec fn nodes(&self) -> Seq<PublicKey> {
        self.nodes@
    }

    /// The largest number of endorsements in a block.
    pub closed spec fn endorsement_count(&self) -> u32 {
        self.endorsement_count
    }

    /// The entries, in the order in which the hashes were first heard of.
    pub closed spec fn entries(&self) -> Seq<Entry> {
        self.entries@
    }

    /// The blocks that became active and have not been handed out yet.
    pub closed spec fn to_propagate(&self) -> Seq<BlockId> {
        self.to_propagate@
    }

    /// The creators caught signing two blocks for one slot, by the hash of
    /// their key, not handed out yet.
    pub closed spec fn attack_attempts(&self) -> Seq<crate::hash::Hash> {
        self.attack_attempts@
    }

    /// The latest final block of each thread.
    pub closed spec fn latest_final(&self) -> Seq<Link> {
        self.latest_final@
    }

    /// The state of `id`; `None` where the graph does not know the hash.
    pub open spec fn state_of(&self, id: BlockId) -> Option<BlockState> {
        match position(self.entries(), id) {
            Some(i) => Some(self.entries()[i].state),
            None => None,
        }
    }

    /// The header stored for `id`.
    pub open spec fn header_of(&self, id: BlockId) -> Option<HeaderView> {
        match position(self.entries(), id) {
            Some(i) => if self.entries()[i].header is Some {
                Some(self.entries()[i].head())
            } else {
                None
            },
            None => None,
        }
    }

    /// The operations stored for `id`.
    pub open spec fn operations_of(&self, id: BlockId) -> Option<Seq<Operation>> {
        match position(self.entries(), id) {
            Some(i) => match self.entries()[i].operations {
                Some(operations) => Some(operations@),
                None => None,
            },
            None => None,
        }
    }

    /// Whether each thread's latest final block is a final entry, and no
    /// final entry of the thread has a later period.
    pub open spec fn latest_final_ok(&self) -> bool {
        latest_ok(self.entries(), self.latest_final(), self.thread_count())
    }

    /// Whether everything queued for propagation is active or final.
    pub open spec fn queue_settled(&self) -> bool {
        queue_ok(self.entries(), self.to_propagate())
    }

    /// The invariant of the graph: what `wf_core` says, no waiting block
    /// could move on, every active block stands in a clique, and no active
    /// block is to become final.
    pub open spec fn wf(&self) -> bool {
        self.wf_core() && waiting_rest(self.entries()) && self.finality_at_rest()
    }

    /// Whether the cliques are at rest: every active block stands in a
    /// clique, and no active block is to become final.
    pub open spec fn finality_at_rest(&self) -> bool {
        finality_rest(self.entries(), self.cliques(), self.settings().0) && cliques_cover(
            self.entries(),
            self.cliques(),
        )
    }

    /// The invariant of the graph but for the waiting blocks.
    pub open spec fn wf_core(&self) -> bool {
        &&& self.thread_count() > 0
        &&& ids_unique(self.entries())
        &&& forall|i: int|
            0 <= i < self.entries().len() ==> (#[trigger] self.entries()[i]).well_formed(
                self.thread_count(),
            )
        &&& parents_settled(self.entries())
        &&& finals_rooted(self.entries())
        &&& finals_agree(self.entries())
        &&& actives_respect_finals(self.entries())
        &&& lineages_closed(self.entries())
        &&& self.latest_final().len() == self.thread_count()
        &&& self.latest_final_ok()
        &&& self.queue_settled()
        &&& cliques_ok(self.entries(), self.cliques())
        &&& cliques_agree(self.entries(), self.cliques())
    }

    /// The graph that holds the genesis blocks and nothing else: one final
    /// block per thread, at period 0, signed with the genesis key.  Fails
    /// where there is no thread, or where two genesis blocks have the same
    /// hash.
    pub fn new(cfg: &ConsensusConfig) -> (out: Result<BlockGraph, ConsensusError>)
        ensures
            match out {
                Ok(graph) => {
                    &&& graph.wf()
                    &&& graph.thread_count() == cfg.thread_count
                    &&& graph.entries().len() == cfg.thread_count
                    &&& forall|t: int|
                        0 <= t < cfg.thread_count ==> (#[trigger] graph.entries()[t]).state
                            == BlockState::Final && genesis_header(
                            cfg.genesis_key,
                            t as u8,
                            graph.entries()[t].head(),
                        )
                    &&& graph.to_propagate().len() == 0
                    &&& graph.attack_attempts().len() == 0
                    &&& graph.cliques().len() == 0
                    &&& graph.endorsement_count() == cfg.endorsement_count
                    &&& graph.settings() == (
                        cfg.delta_f0,
                        cfg.force_keep_final_periods,
                        cfg.discard_ttl,
                    )
                    &&& graph.nodes().len() == cfg.nodes@.len()
                    &&& forall|n: int|
                        0 <= n < cfg.nodes@.len() ==> #[trigger] graph.nodes()[n]
                            == cfg.nodes@[n].0
                },
                Err(e) => e == ConsensusError::ConfigError && (cfg.thread_count == 0
                    || genesis_clash(cfg.genesis_key, cfg.thread_count)),
            },
            cfg.thread_count == 0 ==> out is Err,
    {
        if cfg.thread_count == 0 {
            return Err(ConsensusError::ConfigError);
        }
        let mut nodes: Vec<PublicKey> = Vec::new();
        let mut n: usize = 0;
        while n < cfg.nodes.len()
            invariant
                n <= cfg.nodes@.len(),
                nodes@.len() == n,
                forall|a: int| 0 <= a < n ==> #[trigger] nodes@[a] == cfg.nodes@[a].0,
            decreases cfg.nodes@.len() - n,
        {
            nodes.push(cfg.nodes[n].0);
            n += 1;
        }
        let mut graph = BlockGraph {
            thread_count: cfg.thread_count,
            delta_f0: cfg.delta_f0,
            endorsement_count: cfg.endorsement_count,
            force_keep_final_periods: cfg.force_keep_final_periods,
            discard_ttl: cfg.discard_ttl,
            nodes,
            entries: Vec::new(),
            latest_final: Vec::new(),
            cliques: Vec::new(),
            to_propagate: Vec::new(),
            attack_attempts: Vec::new(),
        };
        let mut thread: u8 = 0;
        while thread < cfg.thread_count
            invariant
                thread <= cfg.thread_count,
                graph.thread_count == cfg.thread_count,
                graph.endorsement_count == cfg.endorsement_count,
                graph.delta_f0 == cfg.delta_f0,
                graph.force_keep_final_periods == cfg.force_keep_final_periods,
                graph.discard_ttl == cfg.discard_ttl,
                graph.nodes@.len() == cfg.nodes@.len(),
                forall|a: int|
                    0 <= a < cfg.nodes@.len() ==> #[trigger] graph.nodes@[a] == cfg.nodes@[a].0,
                graph.entries@.len() == thread,
                graph.latest_final@.len() == thread,
                graph.to_propagate@.len() == 0,
                graph.attack_attempts@.len() == 0,
                graph.cliques@.len() == 0,
                ids_unique(graph.entries@),
                forall|t: int|
                    0 <= t < thread ==> {
                        let e = #[trigger] graph.entries@[t];
                        &&& e.state == BlockState::Final
                        &&& e.well_formed(cfg.thread_count)
                        &&& genesis_header(cfg.genesis_key, t as u8, e.head())
                        &&& graph.latest_final@[t] == e.lineage@[0]
                    },
            decreases cfg.thread_count - thread,
        {
            let operations: Vec<Operation> = Vec::new();
            let root = compute_operations_root(&operations);
            let slot = Slot::new(0, thread);
            let (id, header) = BlockHeader::new_signed(
                &cfg.genesis_key,
                slot,
                Vec::new(),
                root,
                Vec::new(),
            );
            match graph.find(&id) {
                Some(j) => {
                    proof {
                        assert(graph.entries@[j as int].well_formed(cfg.thread_count));
                        assert(genesis_header(
                            cfg.genesis_key,
                            j as u8,
                            graph.entries@[j as int].head(),
                        ));
                        assert(clashing(
                            cfg.genesis_key,
                            j as int,
                            thread as int,
                            graph.entries@[j as int].head(),
                            header@,
                        ));
                    }
                    return Err(ConsensusError::ConfigError);
                },
                None => {},
            }
            let link = Link { id, slot, parent: None };
            let mut lineage: Vec<Link> = Vec::new();
            lineage.push(link);
            graph.latest_final.push(link);
            graph.entries.push(
                Entry {
                    id,
                    state: BlockState::Final,
                    header: Some(header),
                    operations: Some(operations),
                    lineage,
                    stamp: 0,
                },
            );
            thread += 1;
        }
        proof {
            reveal(parents_settled);
            reveal(finals_rooted);
            reveal(finals_agree);
            reveal(actives_respect_finals);
            reveal(lineages_closed);
            reveal(waiting_rest);
            reveal(latest_ok);
            reveal(queue_ok);
            reveal(cliques_ok);
            reveal(cliques_agree);
            reveal(finality_rest);
            reveal(cliques_cover);
            assert forall|i: int, j: int|
                0 <= i < graph.entries@.len() && 0 <= j < graph.entries@.len()
                    && graph.entries@[i].state == BlockState::Final && graph.entries@[j].state
                    == BlockState::Final implies !direct_conflict(
                #[trigger] graph.entries@[i].lineage@[0],
                #[trigger] graph.entries@[j].lineage@[0],
            ) by {
                if i != j {
                    assert(graph.entries@[i].head().slot.thread == i);
                    assert(graph.entries@[j].head().slot.thread == j);
                }
            }
            assert forall|t: int|
                #![trigger graph.latest_final()[t]]
                0 <= t < graph.thread_count() implies graph.latest_final()[t].slot.thread == t
                && exists|j: int|
                    0 <= j < graph.entries().len() && #[trigger] graph.entries()[j].state
                        == BlockState::Final && graph.entries()[j].lineage@[0]
                        == graph.latest_final()[t] by {
                assert(graph.entries()[t].state == BlockState::Final);
            }
        }
        Ok(graph)
    }

    /// Whether `self` and `other` are configured alike.
    pub open spec fn same_settings(&self, other: &BlockGraph) -> bool {
        &&& self.thread_count() == other.thread_count()
        &&& self.endorsement_count() == other.endorsement_count()
        &&& self.nodes() == other.nodes()
        &&& self.settings() == other.settings()
    }

    /// Whether `self` and `other` differ in their entries at most.
    pub open spec fn same_frame(&self, other: &BlockGraph) -> bool {
        &&& self.thread_count() == other.thread_count()
        &&& self.endorsement_count() == other.endorsement_count()
        &&& self.nodes() == other.nodes()
        &&& self.latest_final() == other.latest_final()
        &&& self.to_propagate() == other.to_propagate()
        &&& self.attack_attempts() == other.attack_attempts()
        &&& self.settings() == other.settings()
        &&& self.cliques() == other.cliques()
    }

    /// The invariants that speak of the queue and of the latest final
    /// blocks hold on where the settled entries stay as they are.
    proof fn lemma_frame_kept(&self, earlier: &BlockGraph)
        requires
            self.same_frame(earlier),
            earlier.latest_final_ok(),
            earlier.queue_settled(),
            earlier.entries().len() <= self.entries().len(),
            forall|j: int|
                0 <= j < earlier.entries().len() ==> (#[trigger] self.entries()[j]).id
                    == earlier.entries()[j].id && (earlier.entries()[j].settled()
                    ==> self.entries()[j] == earlier.entries()[j]) && (self.entries()[j].state
                    == BlockState::Final ==> earlier.entries()[j].state == BlockState::Final),
            forall|j: int|
                earlier.entries().len() <= j < self.entries().len() ==> (
                #[trigger] self.entries()[j]).state != BlockState::Final,
        ensures
            self.latest_final_ok(),
            self.queue_settled(),
    {
        lemma_latest_kept(
            earlier.entries(),
            self.entries(),
            self.latest_final(),
            self.thread_count(),
        );
        lemma_queue_ok_kept(earlier.entries(), self.entries(), self.to_propagate());
    }

    /// The block stored for `id`, where it is active or final.
    pub open spec fn block_of(&self, id: BlockId) -> Option<BlockView> {
        match position(self.entries(), id) {
            Some(i) => {
                let e = self.entries()[i];
                if e.settled() && e.header is Some && e.operations is Some {
                    Some(BlockView { header: e.head(), operations: e.operations->0@ })
                } else {
                    None
                }
            },
            None => None,
        }
    }

    /// Every parent of an active block is active or final.
    pub proof fn lemma_parents_of_active(&self, id: BlockId, k: int)
        requires
            self.wf(),
            self.state_of(id) == Some(BlockState::Active),
            0 <= k < self.header_of(id)->0.parents.len(),
        ensures
            self.state_of(self.header_of(id)->0.parents[k]) == Some(BlockState::Active)
                || self.state_of(self.header_of(id)->0.parents[k]) == Some(BlockState::Final),
    {
        reveal(parents_settled);
        let i = position(self.entries(), id)->0;
        assert(self.entries()[i].well_formed(self.thread_count()));
        let parent = self.entries()[i].head().parents[k];
        assert(is_settled(self.entries(), parent));
        let j = choose|j: int|
            0 <= j < self.entries().len() && #[trigger] self.entries()[j].id == parent
                && self.entries()[j].settled();
        lemma_position(self.entries(), j);
    }

    /// Two final blocks never have the same slot, and never conflict: they
    /// do not stand in the same thread with the same period or the same
    /// predecessor.
    pub proof fn lemma_finals_compatible(&self, a: BlockId, b: BlockId)
        requires
            self.wf(),
            a != b,
            self.state_of(a) == Some(BlockState::Final),
            self.state_of(b) == Some(BlockState::Final),
        ensures
            self.header_of(a)->0.slot != self.header_of(b)->0.slot,
            !direct_conflict(
                link_of(a, self.header_of(a)->0),
                link_of(b, self.header_of(b)->0),
            ),
    {
        reveal(finals_agree);
        let i = position(self.entries(), a)->0;
        let j = position(self.entries(), b)->0;
        assert(self.entries()[i].well_formed(self.thread_count()));
        assert(self.entries()[j].well_formed(self.thread_count()));
        assert(!direct_conflict(self.entries()[i].lineage@[0], self.entries()[j].lineage@[0]));
    }

    /// No block in the lineage of an active block conflicts with a final
    /// block: what is active builds on what is final.
    pub proof fn lemma_actives_respect_finals(&self, a: BlockId, b: BlockId, n: int)
        requires
            self.wf(),
            self.state_of(a) == Some(BlockState::Active),
            self.state_of(b) == Some(BlockState::Final),
            0 <= n < lineage_of(self.entries(), a).len(),
        ensures
            !direct_conflict(lineage_of(self.entries(), a)[n], link_of(b, self.header_of(b)->0)),
    {
        reveal(actives_respect_finals);
        let i = position(self.entries(), a)->0;
        let j = position(self.entries(), b)->0;
        assert(self.entries()[j].well_formed(self.thread_count()));
        assert(!direct_conflict(self.entries()[i].lineage@[n], self.entries()[j].lineage@[0]));
    }

    /// No active block is left that is to become final: where a block is
    /// active, a parent of it is not final, or it stands in no clique, or
    /// in a clique in which it stands the fitness of its descendants does
    /// not exceed the threshold.  So a block whose parents are final
    /// becomes final in the very call in which its descendants come to lead
    /// by more than the threshold in every clique that holds it.
    pub proof fn lemma_ready_is_final(&self, id: BlockId)
        requires
            self.wf(),
            self.state_of(id) == Some(BlockState::Active),
        ensures
            !final_ready(
                self.entries(),
                self.cliques(),
                self.settings().0,
                position(self.entries(), id)->0,
            ),
    {
        reveal(finality_rest);
    }

    /// The chain of the final blocks holds together: no parent of a final
    /// block waits or is active.  A block becomes final only where its
    /// parents are final, they stay final while they are in the memory, and
    /// a hash that a final block names as a parent is not taken in again
    /// once its block has left the memory; so a parent of a final block is
    /// final, or it has left the memory and is unknown, heard of only or
    /// discarded.
    pub proof fn lemma_final_parents(&self, id: BlockId, k: int)
        requires
            self.wf(),
            self.state_of(id) == Some(BlockState::Final),
            0 <= k < self.header_of(id)->0.parents.len(),
        ensures
            self.state_of(self.header_of(id)->0.parents[k]) != Some(BlockState::WaitingForDeps),
            self.state_of(self.header_of(id)->0.parents[k]) != Some(BlockState::Active),
    {
        reveal(finals_rooted);
        let i = position(self.entries(), id)->0;
        assert(self.entries()[i].well_formed(self.thread_count()));
        let parent = self.entries()[i].head().parents[k];
        assert(self.entries()[i].state == BlockState::Final && holds(
            self.entries()[i].head().parents,
            parent,
        ));
        assert(named_by_final(self.entries(), parent));
        match position(self.entries(), parent) {
            Some(p) => {
                assert(self.entries()[p].id == parent);
            },
            None => {},
        }
    }

    /// Everything that is queued for propagation is active or final.
    pub proof fn lemma_queue_settled(&self, q: int)
        requires
            self.wf(),
            0 <= q < self.to_propagate().len(),
        ensures
            self.state_of(self.to_propagate()[q]) == Some(BlockState::Active) || self.state_of(
                self.to_propagate()[q],
            ) == Some(BlockState::Final),
    {
        reveal(queue_ok);
        let id = self.to_propagate()[q];
        assert(is_settled(self.entries(), id));
        let j = choose|j: int|
            0 <= j < self.entries().len() && #[trigger] self.entries()[j].id == id
                && self.entries()[j].settled();
        lemma_position(self.entries(), j);
    }

    /// A block that is active or final is known: whatever is handed in under
    /// its hash, the verdict is that the hash is known, and so the graph
    /// stays as it is.
    pub proof fn lemma_resubmission(
        &self,
        id: BlockId,
        h: HeaderView,
        operations: Option<Seq<Operation>>,
        drawn: nat,
        previous_slot: Option<Slot>,
    )
        requires
            self.state_of(id) == Some(BlockState::Active) || self.state_of(id) == Some(
                BlockState::Final,
            ),
        ensures
            self.verdict(id, h, operations, drawn, previous_slot) == Admission::AlreadyKnown,
    {
    }

    /// No waiting block could move on: each is short of a parent, or has all
    /// its parents and is short of its operations.
    pub proof fn lemma_waiting_waits(&self, id: BlockId)
        requires
            self.wf(),
            self.state_of(id) == Some(BlockState::WaitingForDeps),
        ensures
            ({
                let review = parents_review(self.entries(), self.header_of(id)->0);
                review == Review::Pending || (review == Review::Ready && self.block_of(id) is None)
            }),
    {
        reveal(waiting_rest);
        let i = position(self.entries(), id)->0;
        assert(self.entries()[i].well_formed(self.thread_count()));
        assert(at_rest(self.entries(), self.entries()[i]));
    }

    /// The cliques are complete: every active block stands in a clique.
    pub proof fn lemma_active_in_clique(&self, id: BlockId)
        requires
            self.wf(),
            self.state_of(id) == Some(BlockState::Active),
        ensures
            exists|c: int|
                0 <= c < self.cliques().len() && holds(#[trigger] self.cliques()[c].members@, id),
    {
        reveal(cliques_cover);
        let i = position(self.entries(), id)->0;
        assert(self.entries()[i].state == BlockState::Active);
        assert(listed(member_lists(self.cliques()), id));
        let c = choose|c: int|
            0 <= c < member_lists(self.cliques()).len() && holds(
                #[trigger] member_lists(self.cliques())[c],
                id,
            );
        assert(holds(self.cliques()[c].members@, id));
    }

    /// Every member of a clique is an active block, no clique holds a block
    /// twice, and any two members of a clique can stand together.
    pub proof fn lemma_clique_members(&self, c: int, m: int, n: int)
        requires
            self.wf(),
            0 <= c < self.cliques().len(),
            0 <= m < n < self.cliques()[c].members@.len(),
        ensures
            self.state_of(self.cliques()[c].members@[m]) == Some(BlockState::Active),
            self.state_of(self.cliques()[c].members@[n]) == Some(BlockState::Active),
            self.cliques()[c].members@[m] != self.cliques()[c].members@[n],
            stand_together(
                self.entries(),
                self.cliques()[c].members@[m],
                self.cliques()[c].members@[n],
            ),
    {
        reveal(cliques_ok);
        reveal(cliques_agree);
        let a = self.cliques()[c].members@[m];
        let b = self.cliques()[c].members@[n];
        assert(is_active(self.entries(), a));
        assert(is_active(self.entries(), b));
        let i = choose|i: int|
            0 <= i < self.entries().len() && #[trigger] self.entries()[i].id == a
                && self.entries()[i].state == BlockState::Active;
        let j = choose|j: int|
            0 <= j < self.entries().len() && #[trigger] self.entries()[j].id == b
                && self.entries()[j].state == BlockState::Active;
        lemma_position(self.entries(), i);
        lemma_position(self.entries(), j);
    }

    /// A block is stored for exactly the hashes that are active or final.
    pub proof fn lemma_block_of(&self, id: BlockId)
        requires
            self.wf(),
        ensures
            self.block_of(id) is Some <==> (self.state_of(id) == Some(BlockState::Active)
                || self.state_of(id) == Some(BlockState::Final)),
    {
        match position(self.entries(), id) {
            Some(i) => {
                assert(self.entries()[i].well_formed(self.thread_count()));
            },
            None => {},
        }
    }

    /// The index of the entry of `id`.
    fn find(&self, id: &BlockId) -> (out: Option<usize>)
        ensures
            match out {
                Some(i) => i < self.entries@.len() && self.entries@[i as int].id == *id,
                None => forall|j: int| 0 <= j < self.entries@.len() ==> self.entries@[j].id != *id,
            },
    {
        let mut i: usize = 0;
        while i < self.entries.len()
            invariant
                i <= self.entries@.len(),
                forall|j: int| 0 <= j < i ==> self.entries@[j].id != *id,
            decreases self.entries@.len() - i,
        {
            if self.entries[i].id.same(id) {
                return Some(i);
            }
            i += 1;
        }
        None
    }

    /// The number of threads.
    pub fn count_threads(&self) -> (count: u8)
        ensures
            count == self.thread_count(),
    {
        self.thread_count
    }

    /// The state of `id`; `None` where the graph does not know the hash.
    pub fn get_state(&self, id: &BlockId) -> (state: Option<BlockState>)
        requires
            ids_unique(self.entries()),
        ensures
            state == self.state_of(*id),
    {
        match self.find(id) {
            Some(i) => {
                proof {
                    lemma_position(self.entries@, i as int);
                }
                Some(self.entries[i].state)
            },
            None => None,
        }
    }
}

} // verus!
